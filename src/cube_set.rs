use vstd::prelude::*;

use crate::text::{
    decimal, find_first, is_digit, is_first, lemma_decimal, lemma_split_concat, lemma_split_none,
    lemma_split_once_at, lemma_trim_plain, parse_usize, parse_usize_range, split, split_bounds,
    split_once, to_chars, trim, trim_bounds,
};

verus! {

/// A count of cubes of each color.
#[derive(Debug, Clone, Copy, PartialEq, Eq, Structural)]
pub struct CubeSet {
    pub red: usize,
    pub green: usize,
    pub blue: usize,
}

/// Why a text is no list of "amount color" pairs.
#[derive(Debug, Clone, Copy, PartialEq, Eq, Structural)]
pub enum CubeSetParseErr {
    /// A segment holds no space between amount and color.
    NotAmountColorPair,
    /// An amount is no non-negative integer that fits in a `usize`.
    InvalidAmount,
    /// A color is none of `red`, `green` and `blue`.
    UnknownColor,
}

pub open spec fn no_cubes() -> CubeSet {
    CubeSet { red: 0, green: 0, blue: 0 }
}

pub open spec fn is_color(c: Seq<char>) -> bool {
    c == "red"@ || c == "green"@ || c == "blue"@
}

/// The amount and the color that one comma-separated segment names.
pub open spec fn parse_pair(seg: Seq<char>) -> Result<(usize, Seq<char>), CubeSetParseErr> {
    match split_once(trim(seg), ' ') {
        None => Err(CubeSetParseErr::NotAmountColorPair),
        Some((amount, color)) => match parse_usize(amount) {
            None => Err(CubeSetParseErr::InvalidAmount),
            Some(n) => if is_color(color) {
                Ok((n, color))
            } else {
                Err(CubeSetParseErr::UnknownColor)
            },
        },
    }
}

/// `cs` with the count of `color` set to `n`.
pub open spec fn with_count(cs: CubeSet, color: Seq<char>, n: usize) -> CubeSet {
    if color == "red"@ {
        CubeSet { red: n, ..cs }
    } else if color == "green"@ {
        CubeSet { green: n, ..cs }
    } else {
        CubeSet { blue: n, ..cs }
    }
}

/// Applies the segments to `base` from first to last, so that a later count
/// of a color replaces an earlier one; the first segment that fails decides
/// the error.
pub open spec fn apply_segments(base: CubeSet, segs: Seq<Seq<char>>) -> Result<
    CubeSet,
    CubeSetParseErr,
>
    decreases segs.len(),
{
    if segs.len() == 0 {
        Ok(base)
    } else {
        match apply_segments(base, segs.drop_last()) {
            Err(e) => Err(e),
            Ok(cs) => match parse_pair(segs.last()) {
                Err(e) => Err(e),
                Ok((n, color)) => Ok(with_count(cs, color, n)),
            },
        }
    }
}

/// The cube set that a comma-separated list of "amount color" pairs describes.
pub open spec fn parse_cube_set(s: Seq<char>) -> Result<CubeSet, CubeSetParseErr> {
    apply_segments(no_cubes(), split(s, ','))
}

/// The colors that the segments name.
pub open spec fn named_colors(segs: Seq<Seq<char>>) -> Set<Seq<char>>
    decreases segs.len(),
{
    if segs.len() == 0 {
        Set::empty()
    } else {
        match parse_pair(segs.last()) {
            Ok((_, color)) => named_colors(segs.drop_last()).insert(color),
            Err(_) => named_colors(segs.drop_last()),
        }
    }
}

/// The colors that a comma-separated list of "amount color" pairs names.
pub open spec fn colors_of(s: Seq<char>) -> Set<Seq<char>> {
    named_colors(split(s, ','))
}

/// `top`'s counts of the colors in `names`, and `base`'s of the others.
pub open spec fn overlay(base: CubeSet, top: CubeSet, names: Set<Seq<char>>) -> CubeSet {
    CubeSet {
        red: if names.contains("red"@) {
            top.red
        } else {
            base.red
        },
        green: if names.contains("green"@) {
            top.green
        } else {
            base.green
        },
        blue: if names.contains("blue"@) {
            top.blue
        } else {
            base.blue
        },
    }
}

/// Applying `p` and then `q` is applying `p + q`.
proof fn lemma_apply_concat(base: CubeSet, p: Seq<Seq<char>>, q: Seq<Seq<char>>)
    ensures
        apply_segments(base, p + q) == match apply_segments(base, p) {
            Ok(c) => apply_segments(c, q),
            Err(e) => Err(e),
        },
    decreases q.len(),
{
    if q.len() == 0 {
        assert(p + q =~= p);
    } else {
        lemma_apply_concat(base, p, q.drop_last());
        assert((p + q).drop_last() =~= p + q.drop_last());
    }
}

/// Segments set the colors they name to counts of their own, and leave the
/// other colors as they were.
proof fn lemma_apply_overlay(base: CubeSet, q: Seq<Seq<char>>)
    ensures
        apply_segments(base, q) == match apply_segments(no_cubes(), q) {
            Ok(c) => Ok(overlay(base, c, named_colors(q))),
            Err(e) => Err(e),
        },
    decreases q.len(),
{
    if q.len() == 0 {
        assert(overlay(base, no_cubes(), Set::empty()) == base);
    } else {
        lemma_apply_overlay(base, q.drop_last());
        reveal_strlit("red");
        reveal_strlit("green");
        reveal_strlit("blue");
        match apply_segments(no_cubes(), q.drop_last()) {
            Ok(c) => match parse_pair(q.last()) {
                Ok((n, color)) => {
                    let names = named_colors(q.drop_last());
                    assert(names.insert(color).contains(color));
                    assert(forall|x: Seq<char>|
                        x != color ==> (names.insert(color).contains(x) == names.contains(x)));
                    assert("red"@ != "green"@ && "red"@ != "blue"@ && "green"@ != "blue"@) by {
                        assert("red"@.len() != "green"@.len());
                        assert("red"@[0] != "blue"@[0]);
                        assert("green"@.len() != "blue"@.len());
                    }
                    assert(with_count(overlay(base, c, names), color, n) == overlay(
                        base,
                        with_count(c, color, n),
                        names.insert(color),
                    ));
                },
                Err(_) => {},
            },
            Err(_) => {},
        }
    }
}

/// Where two lists of "amount color" pairs each parse, joining them with a
/// comma gives the second list's counts for the colors it names and the first
/// list's counts for the others.
pub proof fn lemma_later_list_wins(a: Seq<char>, b: Seq<char>)
    requires
        parse_cube_set(a) is Ok,
        parse_cube_set(b) is Ok,
    ensures
        parse_cube_set(a + seq![','] + b) == Ok::<CubeSet, CubeSetParseErr>(
            overlay(parse_cube_set(a)->Ok_0, parse_cube_set(b)->Ok_0, colors_of(b)),
        ),
{
    lemma_split_concat(a, b, ',');
    lemma_apply_concat(no_cubes(), split(a, ','), split(b, ','));
    lemma_apply_overlay(parse_cube_set(a)->Ok_0, split(b, ','));
}

/// Two lists of "amount color" pairs that each parse, and that name no color
/// in common, give the same cube set whichever of them comes first.
pub proof fn lemma_segment_order(a: Seq<char>, b: Seq<char>)
    requires
        parse_cube_set(a) is Ok,
        parse_cube_set(b) is Ok,
        colors_of(a).disjoint(colors_of(b)),
    ensures
        parse_cube_set(a + seq![','] + b) is Ok,
        parse_cube_set(a + seq![','] + b) == parse_cube_set(b + seq![','] + a),
{
    lemma_later_list_wins(a, b);
    lemma_later_list_wins(b, a);
    lemma_apply_overlay(no_cubes(), split(a, ','));
    lemma_apply_overlay(no_cubes(), split(b, ','));
    let ca = parse_cube_set(a)->Ok_0;
    let cb = parse_cube_set(b)->Ok_0;
    assert(overlay(ca, cb, colors_of(b)) == overlay(cb, ca, colors_of(a)));
}

/// The text `"<n> <color>"`.
pub open spec fn pair_text(n: usize, color: Seq<char>) -> Seq<char> {
    decimal(n as nat) + seq![' '] + color
}

/// The canonical text of a cube set: `"<red> red, <green> green, <blue> blue"`.
pub open spec fn cube_set_text(cs: CubeSet) -> Seq<char> {
    pair_text(cs.red, "red"@) + ", "@ + pair_text(cs.green, "green"@) + ", "@ + pair_text(
        cs.blue,
        "blue"@,
    )
}

/// The text `pre`, `n`, a space and `color` reads as the pair `n`, `color`.
proof fn lemma_pair_text(pre: Seq<char>, n: usize, color: Seq<char>)
    requires
        pre == Seq::<char>::empty() || pre == seq![' '],
        color == "red"@ || color == "green"@ || color == "blue"@,
    ensures
        parse_pair(pre + pair_text(n, color)) == Ok::<(usize, Seq<char>), CubeSetParseErr>(
            (n, color),
        ),
        forall|i: int|
            0 <= i < (pre + pair_text(n, color)).len() ==> (pre + pair_text(n, color))[i] != ','
                && (pre + pair_text(n, color))[i] != ';',
{
    reveal_strlit("red");
    reveal_strlit("green");
    reveal_strlit("blue");
    lemma_decimal(n as nat);
    let d = decimal(n as nat);
    let x = d + seq![' '] + color;
    assert(is_digit(d[0]));
    assert(x[0] == d[0]);
    assert(x.last() == color.last());
    lemma_trim_plain(x);
    if pre.len() == 0 {
        assert(pre + d + seq![' '] + color =~= x);
    } else {
        assert(pre + d + seq![' '] + color =~= seq![' '] + x);
    }
    let k = d.len() as int;
    assert forall|j: int| 0 <= j < k implies x[j] != ' ' by {
        assert(x[j] == d[j]);
        assert(is_digit(d[j]));
    }
    assert(is_first(x, ' ', k));
    lemma_split_once_at(x, ' ', k);
    assert(x.subrange(0, k) =~= d);
    assert(x.subrange(k + 1, x.len() as int) =~= color);
    assert(pre + pair_text(n, color) =~= pre + d + seq![' '] + color);
    let t = pre + d + seq![' '] + color;
    assert forall|i: int| 0 <= i < t.len() implies t[i] != ',' && t[i] != ';' by {
        if pre.len() <= i < pre.len() + k {
            assert(t[i] == d[i - pre.len()]);
            assert(is_digit(d[i - pre.len()]));
        }
    }
}

/// The segments of a cube set's canonical text.
pub open spec fn text_segments(pre: Seq<char>, cs: CubeSet) -> Seq<Seq<char>> {
    seq![
        pre + pair_text(cs.red, "red"@),
        seq![' '] + pair_text(cs.green, "green"@),
        seq![' '] + pair_text(cs.blue, "blue"@),
    ]
}

/// A cube set's canonical text splits at its commas into its three pairs.
proof fn lemma_text_split(pre: Seq<char>, cs: CubeSet)
    requires
        pre == Seq::<char>::empty() || pre == seq![' '],
    ensures
        split(pre + cube_set_text(cs), ',') == text_segments(pre, cs),
        forall|i: int|
            0 <= i < (pre + cube_set_text(cs)).len() ==> (pre + cube_set_text(cs))[i] != ';',
{
    reveal_strlit(", ");
    let sp = seq![' '];
    let a = pre + pair_text(cs.red, "red"@);
    let b = sp + pair_text(cs.green, "green"@);
    let c = sp + pair_text(cs.blue, "blue"@);
    lemma_pair_text(pre, cs.red, "red"@);
    lemma_pair_text(sp, cs.green, "green"@);
    lemma_pair_text(sp, cs.blue, "blue"@);
    let s = pre + cube_set_text(cs);
    let bc = b + seq![','] + c;
    assert(s =~= a + seq![','] + bc);
    lemma_split_none(a, ',');
    lemma_split_none(b, ',');
    lemma_split_none(c, ',');
    lemma_split_concat(a, bc, ',');
    lemma_split_concat(b, c, ',');
    assert(split(s, ',') =~= seq![a, b, c]);
    assert forall|i: int| 0 <= i < bc.len() implies bc[i] != ';' by {
        if i < b.len() {
            assert(bc[i] == b[i]);
        } else if i > b.len() {
            assert(bc[i] == c[i - b.len() - 1]);
        }
    }
    assert forall|i: int| 0 <= i < s.len() implies s[i] != ';' by {
        if i < a.len() {
            assert(s[i] == a[i]);
        } else if i > a.len() {
            assert(s[i] == bc[i - a.len() - 1]);
        }
    }
}

/// A cube set's canonical text, after nothing or one space, reads back as
/// that cube set.
pub(crate) proof fn lemma_text_round_trip(pre: Seq<char>, cs: CubeSet)
    requires
        pre == Seq::<char>::empty() || pre == seq![' '],
    ensures
        parse_cube_set(pre + cube_set_text(cs)) == Ok::<CubeSet, CubeSetParseErr>(cs),
        forall|i: int|
            0 <= i < (pre + cube_set_text(cs)).len() ==> (pre + cube_set_text(cs))[i] != ';',
{
    reveal_strlit("red");
    reveal_strlit("green");
    reveal_strlit("blue");
    let sp = seq![' '];
    lemma_text_split(pre, cs);
    lemma_pair_text(pre, cs.red, "red"@);
    lemma_pair_text(sp, cs.green, "green"@);
    lemma_pair_text(sp, cs.blue, "blue"@);
    let parts = text_segments(pre, cs);
    let z = no_cubes();
    let c1 = CubeSet { red: cs.red, ..z };
    let c2 = CubeSet { green: cs.green, ..c1 };
    assert("red"@ != "green"@ && "red"@ != "blue"@ && "green"@ != "blue"@) by {
        assert("red"@.len() != "green"@.len());
        assert("red"@[0] != "blue"@[0]);
        assert("green"@.len() != "blue"@.len());
    }
    let one = parts.take(1);
    let two = parts.take(2);
    assert(one.drop_last() =~= Seq::<Seq<char>>::empty());
    assert(one.last() == parts[0]);
    assert(two.last() == parts[1]);
    assert(parts.last() == parts[2]);
    assert(apply_segments(z, Seq::<Seq<char>>::empty()) == Ok::<CubeSet, CubeSetParseErr>(z));
    assert(parse_pair(parts[0]) == Ok::<(usize, Seq<char>), CubeSetParseErr>((cs.red, "red"@)));
    assert(with_count(z, "red"@, cs.red) == c1);
    assert(apply_segments(z, one) == Ok::<CubeSet, CubeSetParseErr>(c1));
    assert(two.drop_last() =~= one);
    assert(apply_segments(z, two) == Ok::<CubeSet, CubeSetParseErr>(c2));
    assert(parts.drop_last() =~= two);
    assert(apply_segments(z, parts) == Ok::<CubeSet, CubeSetParseErr>(cs));
}

/// Reading the canonical text of a cube set gives that cube set back.
pub proof fn lemma_cube_set_round_trip(cs: CubeSet)
    ensures
        parse_cube_set(cube_set_text(cs)) == Ok::<CubeSet, CubeSetParseErr>(cs),
{
    lemma_text_round_trip(Seq::<char>::empty(), cs);
    assert(Seq::<char>::empty() + cube_set_text(cs) =~= cube_set_text(cs));
}

/// Whether `chars[lo..hi]` is the text `w`.
fn word_is(chars: &Vec<char>, lo: usize, hi: usize, w: &str) -> (r: bool)
    requires
        lo <= hi <= chars.len(),
    ensures
        r == (chars@.subrange(lo as int, hi as int) == w@),
{
    let wc = to_chars(w);
    if hi - lo != wc.len() {
        return false;
    }
    let mut i: usize = 0;
    while i < wc.len()
        invariant
            hi - lo == wc.len(),
            lo <= hi <= chars.len(),
            wc@ == w@,
            i <= wc.len(),
            forall|j: int| 0 <= j < i ==> chars@[lo + j] == wc@[j],
        decreases wc.len() - i,
    {
        if chars[lo + i] != wc[i] {
            assert(chars@.subrange(lo as int, hi as int)[i as int] != w@[i as int]);
            return false;
        }
        i = i + 1;
    }
    assert(chars@.subrange(lo as int, hi as int) =~= w@);
    true
}

impl CubeSet {
    /// The cube set with no cube of any color.
    pub fn empty() -> (r: CubeSet)
        ensures
            r == no_cubes(),
    {
        CubeSet { red: 0, green: 0, blue: 0 }
    }

    /// `self` changed by the segment `chars[lo..hi]`.
    fn apply_segment(self, chars: &Vec<char>, lo: usize, hi: usize) -> (r: Result<
        CubeSet,
        CubeSetParseErr,
    >)
        requires
            lo <= hi <= chars.len(),
        ensures
            r == match parse_pair(chars@.subrange(lo as int, hi as int)) {
                Err(e) => Err(e),
                Ok((n, color)) => Ok(with_count(self, color, n)),
            },
    {
        let (a, b) = trim_bounds(chars, lo, hi);
        match find_first(chars, a, b, ' ') {
            None => Err(CubeSetParseErr::NotAmountColorPair),
            Some(i) => match parse_usize_range(chars, a, i) {
                None => Err(CubeSetParseErr::InvalidAmount),
                Some(n) => {
                    if word_is(chars, i + 1, b, "red") {
                        Ok(CubeSet { red: n, ..self })
                    } else if word_is(chars, i + 1, b, "green") {
                        Ok(CubeSet { green: n, ..self })
                    } else if word_is(chars, i + 1, b, "blue") {
                        Ok(CubeSet { blue: n, ..self })
                    } else {
                        Err(CubeSetParseErr::UnknownColor)
                    }
                },
            },
        }
    }

    /// Parses the comma-separated "amount color" pairs of `chars[lo..hi]`.
    pub(crate) fn parse_range(chars: &Vec<char>, lo: usize, hi: usize) -> (r: Result<
        CubeSet,
        CubeSetParseErr,
    >)
        requires
            lo <= hi <= chars.len(),
        ensures
            r == parse_cube_set(chars@.subrange(lo as int, hi as int)),
    {
        let segs = split_bounds(chars, lo, hi, ',');
        let ghost parts = split(chars@.subrange(lo as int, hi as int), ',');
        let mut acc: Result<CubeSet, CubeSetParseErr> = Ok(CubeSet::empty());
        let mut k: usize = 0;
        assert(parts.take(0) =~= Seq::<Seq<char>>::empty());
        while k < segs.len()
            invariant
                k <= segs.len() == parts.len(),
                parts == split(chars@.subrange(lo as int, hi as int), ','),
                forall|j: int|
                    0 <= j < segs.len() ==> {
                        &&& lo <= (#[trigger] segs[j]).0 <= segs[j].1 <= hi
                        &&& chars@.subrange(segs[j].0 as int, segs[j].1 as int) == parts[j]
                    },
                hi <= chars.len(),
                acc == apply_segments(no_cubes(), parts.take(k as int)),
            decreases segs.len() - k,
        {
            assert(parts.take(k + 1).drop_last() =~= parts.take(k as int));
            assert(parts.take(k + 1).last() == parts[k as int]);
            let (a, b) = segs[k];
            match acc {
                Ok(cs) => {
                    acc = cs.apply_segment(chars, a, b);
                },
                Err(_) => {},
            }
            k = k + 1;
        }
        assert(parts.take(k as int) =~= parts);
        acc
    }

    /// Parses a comma-separated list of "amount color" pairs, such as
    /// `"4 green, 5 red"`; a color left out counts no cube.
    pub fn parse(s: &str) -> (r: Result<CubeSet, CubeSetParseErr>)
        ensures
            r == parse_cube_set(s@),
    {
        let chars = to_chars(s);
        assert(chars@.subrange(0, chars.len() as int) =~= s@);
        CubeSet::parse_range(&chars, 0, chars.len())
    }
}

impl std::str::FromStr for CubeSet {
    type Err = CubeSetParseErr;

    fn from_str(s: &str) -> Result<CubeSet, CubeSetParseErr> {
        CubeSet::parse(s)
    }
}

} // verus!
