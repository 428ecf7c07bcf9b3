use vstd::prelude::*;

verus! {

broadcast use vstd::string::group_string_axioms;

/// The pieces of `s` between occurrences of `sep`, in order; as `str::split`
/// with a `char` pattern, an empty `s` gives one empty piece.
pub open spec fn split(s: Seq<char>, sep: char) -> Seq<Seq<char>>
    decreases s.len(),
{
    if s.len() == 0 {
        seq![Seq::<char>::empty()]
    } else {
        let pieces = split(s.drop_last(), sep);
        if s.last() == sep {
            pieces.push(Seq::<char>::empty())
        } else {
            pieces.update(pieces.len() - 1, pieces.last().push(s.last()))
        }
    }
}

/// Splitting gives at least one piece.
pub proof fn lemma_split_len(s: Seq<char>, sep: char)
    ensures
        split(s, sep).len() >= 1,
    decreases s.len(),
{
    if s.len() > 0 {
        lemma_split_len(s.drop_last(), sep);
    }
}

/// Splitting `a`, a separator and `b` gives the pieces of `a`, then those of `b`.
pub proof fn lemma_split_concat(a: Seq<char>, b: Seq<char>, sep: char)
    ensures
        split(a + seq![sep] + b, sep) == split(a, sep) + split(b, sep),
    decreases b.len(),
{
    let s = a + seq![sep] + b;
    lemma_split_len(a, sep);
    if b.len() == 0 {
        assert(s.drop_last() =~= a);
        assert(split(s, sep) =~= split(a, sep) + split(b, sep));
    } else {
        lemma_split_concat(a, b.drop_last(), sep);
        lemma_split_len(b.drop_last(), sep);
        assert(s.drop_last() =~= a + seq![sep] + b.drop_last());
        assert(split(s, sep) =~= split(a, sep) + split(b, sep));
    }
}

/// `i` is the position of the first `c` in `s`.
pub open spec fn is_first(s: Seq<char>, c: char, i: int) -> bool {
    &&& 0 <= i < s.len()
    &&& s[i] == c
    &&& forall|j: int| 0 <= j < i ==> s[j] != c
}

/// As `str::split_once` with a `char` pattern: the text before the first `c`
/// and the text after it, or `None` where `s` holds no `c`.
pub open spec fn split_once(s: Seq<char>, c: char) -> Option<(Seq<char>, Seq<char>)> {
    if exists|i: int| 0 <= i < s.len() && s[i] == c {
        let i = choose|i: int| is_first(s, c, i);
        Some((s.subrange(0, i), s.subrange(i + 1, s.len() as int)))
    } else {
        None
    }
}

/// The characters of the Unicode `White_Space` property, as `char::is_whitespace`.
pub open spec fn is_space(c: char) -> bool {
    let u = c as u32;
    (0x9 <= u <= 0xd) || u == 0x20 || u == 0x85 || u == 0xa0 || u == 0x1680 || (0x2000 <= u
        <= 0x200a) || u == 0x2028 || u == 0x2029 || u == 0x202f || u == 0x205f || u == 0x3000
}

/// `s` without its leading white space.
pub open spec fn trim_start(s: Seq<char>) -> Seq<char>
    decreases s.len(),
{
    if s.len() > 0 && is_space(s[0]) {
        trim_start(s.drop_first())
    } else {
        s
    }
}

/// `s` without its trailing white space.
pub open spec fn trim_end(s: Seq<char>) -> Seq<char>
    decreases s.len(),
{
    if s.len() > 0 && is_space(s.last()) {
        trim_end(s.drop_last())
    } else {
        s
    }
}

/// As `str::trim`: `s` without its leading and trailing white space.
pub open spec fn trim(s: Seq<char>) -> Seq<char> {
    trim_end(trim_start(s))
}

/// An ASCII decimal digit.
pub open spec fn is_digit(c: char) -> bool {
    '0' <= c <= '9'
}

/// The value of the decimal digit `c`.
pub open spec fn digit_value(c: char) -> nat {
    (c as u32 - '0' as u32) as nat
}

/// Every character of `s` is a decimal digit.
pub open spec fn all_digits(s: Seq<char>) -> bool {
    forall|i: int| 0 <= i < s.len() ==> is_digit(#[trigger] s[i])
}

/// The number that the decimal digits `s` write.
pub open spec fn decimal_value(s: Seq<char>) -> nat
    decreases s.len(),
{
    if s.len() == 0 {
        0
    } else {
        10 * decimal_value(s.drop_last()) + digit_value(s.last())
    }
}

/// As `usize`'s `FromStr`: an optional `+`, then one or more decimal digits,
/// whose value must fit in a `usize`.
pub open spec fn parse_usize(s: Seq<char>) -> Option<usize> {
    let d = if s.len() > 0 && s[0] == '+' {
        s.drop_first()
    } else {
        s
    };
    if d.len() > 0 && all_digits(d) && decimal_value(d) <= usize::MAX {
        Some(decimal_value(d) as usize)
    } else {
        None
    }
}

/// `s` without one `\r` at its end.
pub open spec fn strip_cr(s: Seq<char>) -> Seq<char> {
    if s.len() > 0 && s.last() == '\r' {
        s.drop_last()
    } else {
        s
    }
}

/// As `str::lines`: the pieces of `s` between line feeds, with no empty piece
/// after a final line feed, and each piece that ended in a line feed without
/// a carriage return before it.
pub open spec fn lines(s: Seq<char>) -> Seq<Seq<char>> {
    let p = split(s, '\n');
    let n = if p.last().len() == 0 {
        p.len() - 1
    } else {
        p.len() as int
    };
    Seq::new(n as nat, |k: int| if k < p.len() - 1 { strip_cr(p[k]) } else { p[k] })
}

/// The digit character of `d`, for `d < 10`.
pub open spec fn digit_char(d: nat) -> char {
    "0123456789"@[d as int]
}

/// The decimal digits of `n`, with no leading zero.
pub open spec fn decimal(n: nat) -> Seq<char>
    decreases n,
{
    if n < 10 {
        seq![digit_char(n)]
    } else {
        decimal(n / 10).push(digit_char(n % 10))
    }
}

/// The digits of `n` read back as `n`.
pub proof fn lemma_decimal(n: nat)
    ensures
        decimal(n).len() > 0,
        all_digits(decimal(n)),
        decimal_value(decimal(n)) == n,
        n <= usize::MAX ==> parse_usize(decimal(n)) == Some(n as usize),
    decreases n,
{
    reveal_strlit("0123456789");
    let d = n % 10;
    assert(digit_value(digit_char(d)) == d && is_digit(digit_char(d))) by {
        assert(d == 0 || d == 1 || d == 2 || d == 3 || d == 4 || d == 5 || d == 6 || d == 7 || d
            == 8 || d == 9);
    }
    if n < 10 {
        assert(decimal(n).drop_last() =~= Seq::<char>::empty());
        assert(decimal_value(Seq::<char>::empty()) == 0);
        assert(n % 10 == n);
        assert(decimal(n).last() == digit_char(d));
    } else {
        assert(n == 10 * (n / 10) + n % 10);
        lemma_decimal(n / 10);
        let d = decimal(n);
        assert(d.drop_last() =~= decimal(n / 10));
        assert(d.last() == digit_char(n % 10));
        assert(decimal_value(d) == 10 * decimal_value(decimal(n / 10)) + digit_value(
            digit_char(n % 10),
        ));
        assert forall|i: int| 0 <= i < d.len() implies is_digit(#[trigger] d[i]) by {
            if i < d.len() - 1 {
                assert(d[i] == decimal(n / 10)[i]);
            }
        }
    }
    let t = decimal(n);
    assert(is_digit(t[0]));
    assert(decimal_value(t) == n);
}

/// Where `s` holds no `sep`, splitting gives `s` alone.
pub proof fn lemma_split_none(s: Seq<char>, sep: char)
    requires
        forall|i: int| 0 <= i < s.len() ==> s[i] != sep,
    ensures
        split(s, sep) == seq![s],
    decreases s.len(),
{
    if s.len() > 0 {
        lemma_split_none(s.drop_last(), sep);
        assert(s.drop_last().push(s.last()) =~= s);
        assert(seq![s.drop_last()].update(0, s.drop_last().push(s.last())) =~= seq![s]);
    } else {
        assert(s =~= Seq::<char>::empty());
    }
}

/// Where `k` is the first `c` in `s`, `split_once` splits there.
pub proof fn lemma_split_once_at(s: Seq<char>, c: char, k: int)
    requires
        is_first(s, c, k),
    ensures
        split_once(s, c) == Some((s.subrange(0, k), s.subrange(k + 1, s.len() as int))),
{
    assert(exists|i: int| 0 <= i < s.len() && s[i] == c);
    let k2 = choose|i: int| is_first(s, c, i);
    assert(k2 == k) by {
        if k2 < k {
            assert(s[k2] != c);
        } else if k2 > k {
            assert(s[k] != c);
        }
    }
}

/// Text that neither starts nor ends with white space is its own trim; one
/// space before it is trimmed away.
pub proof fn lemma_trim_plain(s: Seq<char>)
    requires
        s.len() > 0,
        !is_space(s[0]),
        !is_space(s.last()),
    ensures
        trim(s) == s,
        trim(seq![' '] + s) == s,
{
    assert((seq![' '] + s).drop_first() =~= s);
}

/// Copies the characters of `s` into a vector.
pub fn to_chars(s: &str) -> (r: Vec<char>)
    ensures
        r@ == s@,
{
    let mut r: Vec<char> = Vec::new();
    for c in it: s.chars()
        invariant
            r@ == it.seq().take(it.index() as int),
    {
        r.push(c);
    }
    r
}

/// The bounds, within `chars`, of the pieces of `chars[lo..hi]` between
/// occurrences of `sep`.
pub fn split_bounds(chars: &Vec<char>, lo: usize, hi: usize, sep: char) -> (r: Vec<(usize, usize)>)
    requires
        lo <= hi <= chars.len(),
    ensures
        r.len() == split(chars@.subrange(lo as int, hi as int), sep).len(),
        forall|k: int|
            0 <= k < r.len() ==> {
                &&& lo <= (#[trigger] r[k]).0 <= r[k].1 <= hi
                &&& chars@.subrange(r[k].0 as int, r[k].1 as int) == split(
                    chars@.subrange(lo as int, hi as int),
                    sep,
                )[k]
            },
{
    let mut r: Vec<(usize, usize)> = Vec::new();
    let mut start: usize = lo;
    let mut i: usize = lo;
    assert(chars@.subrange(lo as int, lo as int) =~= Seq::<char>::empty());
    while i < hi
        invariant
            lo <= start <= i <= hi <= chars.len(),
            r.len() + 1 == split(chars@.subrange(lo as int, i as int), sep).len(),
            split(chars@.subrange(lo as int, i as int), sep).last() == chars@.subrange(
                start as int,
                i as int,
            ),
            forall|k: int|
                0 <= k < r.len() ==> {
                    &&& lo <= (#[trigger] r[k]).0 <= r[k].1 <= hi
                    &&& chars@.subrange(r[k].0 as int, r[k].1 as int) == split(
                        chars@.subrange(lo as int, i as int),
                        sep,
                    )[k]
                },
        decreases hi - i,
    {
        let ghost before = chars@.subrange(lo as int, i as int);
        let ghost after = chars@.subrange(lo as int, i + 1);
        assert(after.drop_last() =~= before);
        assert(after.last() == chars@[i as int]);
        if chars[i] == sep {
            r.push((start, i));
            start = i + 1;
            assert(chars@.subrange(start as int, i + 1) =~= Seq::<char>::empty());
        } else {
            assert(chars@.subrange(start as int, i + 1) =~= chars@.subrange(
                start as int,
                i as int,
            ).push(chars@[i as int]));
        }
        i = i + 1;
    }
    r.push((start, hi));
    r
}

/// The position in `chars` of the first `c` in `chars[lo..hi]`, if any.
pub fn find_first(chars: &Vec<char>, lo: usize, hi: usize, c: char) -> (r: Option<usize>)
    requires
        lo <= hi <= chars.len(),
    ensures
        match r {
            Some(i) => lo <= i < hi && split_once(chars@.subrange(lo as int, hi as int), c) == Some(
                (chars@.subrange(lo as int, i as int), chars@.subrange(i + 1, hi as int)),
            ),
            None => split_once(chars@.subrange(lo as int, hi as int), c) is None,
        },
{
    let ghost s = chars@.subrange(lo as int, hi as int);
    let mut i: usize = lo;
    while i < hi
        invariant
            lo <= i <= hi <= chars.len(),
            s == chars@.subrange(lo as int, hi as int),
            forall|j: int| lo <= j < i ==> chars@[j] != c,
        decreases hi - i,
    {
        if chars[i] == c {
            let ghost k = i - lo;
            assert(is_first(s, c, k));
            assert(exists|j: int| 0 <= j < s.len() && s[j] == c);
            let ghost k2 = choose|j: int| is_first(s, c, j);
            assert(k2 == k) by {
                if k2 < k {
                    assert(chars@[lo + k2] != c);
                } else if k2 > k {
                    assert(s[k] != c);
                }
            }
            assert(s.subrange(0, k) =~= chars@.subrange(lo as int, i as int));
            assert(s.subrange(k + 1, s.len() as int) =~= chars@.subrange(i + 1, hi as int));
            return Some(i);
        }
        i = i + 1;
    }
    assert(!exists|j: int| 0 <= j < s.len() && s[j] == c) by {
        assert forall|j: int| 0 <= j < s.len() implies s[j] != c by {
            assert(s[j] == chars@[lo + j]);
        }
    }
    None
}

/// Whether `c` is white space, as `char::is_whitespace` says.
pub fn is_whitespace(c: char) -> (r: bool)
    ensures
        r == is_space(c),
{
    let u = c as u32;
    (0x9 <= u && u <= 0xd) || u == 0x20 || u == 0x85 || u == 0xa0 || u == 0x1680 || (0x2000 <= u
        && u <= 0x200a) || u == 0x2028 || u == 0x2029 || u == 0x202f || u == 0x205f || u == 0x3000
}

/// The bounds, within `chars`, of `chars[lo..hi]` trimmed of white space.
pub fn trim_bounds(chars: &Vec<char>, lo: usize, hi: usize) -> (r: (usize, usize))
    requires
        lo <= hi <= chars.len(),
    ensures
        lo <= r.0 <= r.1 <= hi,
        chars@.subrange(r.0 as int, r.1 as int) == trim(chars@.subrange(lo as int, hi as int)),
{
    let mut a: usize = lo;
    while a < hi && is_whitespace(chars[a])
        invariant
            lo <= a <= hi <= chars.len(),
            trim_start(chars@.subrange(lo as int, hi as int)) == trim_start(
                chars@.subrange(a as int, hi as int),
            ),
        decreases hi - a,
    {
        assert(chars@.subrange(a as int, hi as int).drop_first() =~= chars@.subrange(
            a + 1,
            hi as int,
        ));
        a = a + 1;
    }
    let mut b: usize = hi;
    while b > a && is_whitespace(chars[b - 1])
        invariant
            lo <= a <= b <= hi <= chars.len(),
            trim_start(chars@.subrange(lo as int, hi as int)) == chars@.subrange(
                a as int,
                hi as int,
            ) || a == b,
            trim_end(chars@.subrange(a as int, hi as int)) == trim_end(
                chars@.subrange(a as int, b as int),
            ),
        decreases b - a,
    {
        assert(chars@.subrange(a as int, b as int).drop_last() =~= chars@.subrange(
            a as int,
            b - 1,
        ));
        b = b - 1;
    }
    (a, b)
}

/// Reads `chars[lo..hi]` as `usize`'s `FromStr` does.
pub fn parse_usize_range(chars: &Vec<char>, lo: usize, hi: usize) -> (r: Option<usize>)
    requires
        lo <= hi <= chars.len(),
    ensures
        r == parse_usize(chars@.subrange(lo as int, hi as int)),
{
    let ghost s = chars@.subrange(lo as int, hi as int);
    let mut a: usize = lo;
    if lo < hi && chars[lo] == '+' {
        a = lo + 1;
    }
    let ghost d = chars@.subrange(a as int, hi as int);
    assert(d =~= (if s.len() > 0 && s[0] == '+' { s.drop_first() } else { s }));
    if a == hi {
        return None;
    }
    let mut value: usize = 0;
    let mut fits = true;
    let mut digits = true;
    let mut i: usize = a;
    while i < hi
        invariant
            a <= i <= hi <= chars.len(),
            d == chars@.subrange(a as int, hi as int),
            digits == all_digits(chars@.subrange(a as int, i as int)),
            digits && fits ==> value == decimal_value(chars@.subrange(a as int, i as int)),
            digits && !fits ==> decimal_value(chars@.subrange(a as int, i as int)) > usize::MAX,
        decreases hi - i,
    {
        let c = chars[i];
        let ghost p = chars@.subrange(a as int, i as int);
        let ghost q = chars@.subrange(a as int, i + 1);
        assert(q.drop_last() =~= p);
        assert(q.last() == c);
        if '0' <= c && c <= '9' {
            if fits {
                let v = (c as u32 - '0' as u32) as usize;
                if value <= (usize::MAX - v) / 10 {
                    assert(value * 10 + v <= usize::MAX) by (nonlinear_arith)
                        requires
                            value <= (usize::MAX - v) / 10,
                            v <= 9,
                    ;
                    value = value * 10 + v;
                } else {
                    assert(value * 10 + v > usize::MAX) by (nonlinear_arith)
                        requires
                            value > (usize::MAX - v) / 10,
                            v <= 9,
                    ;
                    fits = false;
                }
            }
        } else {
            digits = false;
        }
        assert(digits == all_digits(q)) by {
            if digits {
                assert forall|j: int| 0 <= j < q.len() implies is_digit(#[trigger] q[j]) by {
                    if j < p.len() {
                        assert(q[j] == p[j]);
                    }
                }
            } else if !is_digit(c) {
                assert(!is_digit(q[q.len() - 1]));
            } else {
                let j = choose|j: int| 0 <= j < p.len() && !is_digit(#[trigger] p[j]);
                assert(q[j] == p[j]);
            }
        }
        i = i + 1;
    }
    assert(chars@.subrange(a as int, i as int) == d);
    if digits && fits {
        Some(value)
    } else {
        None
    }
}

/// The bounds, within `chars`, of the lines of `chars`.
pub fn line_bounds(chars: &Vec<char>) -> (r: Vec<(usize, usize)>)
    ensures
        r.len() == lines(chars@).len(),
        forall|k: int|
            0 <= k < r.len() ==> {
                &&& (#[trigger] r[k]).0 <= r[k].1 <= chars.len()
                &&& chars@.subrange(r[k].0 as int, r[k].1 as int) == lines(chars@)[k]
            },
{
    let segs = split_bounds(chars, 0, chars.len(), '\n');
    assert(chars@.subrange(0, chars.len() as int) =~= chars@);
    proof {
        lemma_split_len(chars@, '\n');
    }
    let ghost p = split(chars@, '\n');
    let ghost ls = lines(chars@);
    let mut r: Vec<(usize, usize)> = Vec::new();
    let mut k: usize = 0;
    while k < segs.len()
        invariant
            k <= segs.len() == p.len() >= 1,
            p == split(chars@, '\n'),
            ls == lines(chars@),
            forall|j: int|
                0 <= j < segs.len() ==> {
                    &&& (#[trigger] segs[j]).0 <= segs[j].1 <= chars.len()
                    &&& chars@.subrange(segs[j].0 as int, segs[j].1 as int) == p[j]
                },
            r.len() == if k == p.len() && p.last().len() == 0 {
                k - 1
            } else {
                k as int
            },
            forall|j: int|
                0 <= j < r.len() ==> {
                    &&& (#[trigger] r[j]).0 <= r[j].1 <= chars.len()
                    &&& chars@.subrange(r[j].0 as int, r[j].1 as int) == ls[j]
                },
        decreases segs.len() - k,
    {
        let (a, b) = segs[k];
        if k + 1 == segs.len() {
            if a < b {
                r.push((a, b));
            }
        } else if a < b && chars[b - 1] == '\r' {
            assert(chars@.subrange(a as int, b - 1) =~= chars@.subrange(
                a as int,
                b as int,
            ).drop_last());
            r.push((a, b - 1));
        } else {
            r.push((a, b));
        }
        k = k + 1;
    }
    r
}

} // verus!
