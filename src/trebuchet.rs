use vstd::prelude::*;

use crate::text::{digit_value, is_digit, line_bounds, lines, to_chars};

verus! {

/// The first decimal digit of `s`.
pub open spec fn first_digit(s: Seq<char>) -> Option<char>
    decreases s.len(),
{
    if s.len() == 0 {
        None
    } else if is_digit(s[0]) {
        Some(s[0])
    } else {
        first_digit(s.drop_first())
    }
}

/// The last decimal digit of `s`.
pub open spec fn last_digit(s: Seq<char>) -> Option<char>
    decreases s.len(),
{
    if s.len() == 0 {
        None
    } else if is_digit(s.last()) {
        Some(s.last())
    } else {
        last_digit(s.drop_last())
    }
}

/// The two-digit number of the first and the last digit of a line, or `None`
/// where the line holds no digit.
pub open spec fn calibration_value(s: Seq<char>) -> Option<int> {
    match (first_digit(s), last_digit(s)) {
        (Some(a), Some(b)) => Some((10 * digit_value(a) + digit_value(b)) as int),
        _ => None,
    }
}

/// The sum of the calibration values of the lines, or `None` where a line
/// holds no digit.
pub open spec fn calibration_sum(ls: Seq<Seq<char>>) -> Option<int>
    decreases ls.len(),
{
    if ls.len() == 0 {
        Some(0)
    } else {
        match (calibration_sum(ls.drop_last()), calibration_value(ls.last())) {
            (Some(t), Some(v)) => Some(t + v),
            _ => None,
        }
    }
}

fn calibration_range(chars: &Vec<char>, lo: usize, hi: usize) -> (r: Option<i32>)
    requires
        lo <= hi <= chars.len(),
    ensures
        match r {
            Some(v) => calibration_value(chars@.subrange(lo as int, hi as int)) == Some(v as int),
            None => calibration_value(chars@.subrange(lo as int, hi as int)) is None,
        },
{
    let mut i: usize = lo;
    while i < hi && !('0' <= chars[i] && chars[i] <= '9')
        invariant
            lo <= i <= hi <= chars.len(),
            first_digit(chars@.subrange(lo as int, hi as int)) == first_digit(
                chars@.subrange(i as int, hi as int),
            ),
        decreases hi - i,
    {
        assert(chars@.subrange(i as int, hi as int).drop_first() =~= chars@.subrange(
            i + 1,
            hi as int,
        ));
        i = i + 1;
    }
    let mut j: usize = hi;
    while j > lo && !('0' <= chars[j - 1] && chars[j - 1] <= '9')
        invariant
            lo <= j <= hi <= chars.len(),
            last_digit(chars@.subrange(lo as int, hi as int)) == last_digit(
                chars@.subrange(lo as int, j as int),
            ),
        decreases j - lo,
    {
        assert(chars@.subrange(lo as int, j as int).drop_last() =~= chars@.subrange(
            lo as int,
            j - 1,
        ));
        j = j - 1;
    }
    if i == hi || j == lo {
        return None;
    }
    let first = chars[i];
    let last = chars[j - 1];
    Some(10 * ((first as u32 - '0' as u32) as i32) + ((last as u32 - '0' as u32) as i32))
}

/// The calibration value of one line: ten times its first digit plus its last
/// digit, or `None` where it holds no digit.
pub fn get_calibration_value(line: &str) -> (r: Option<i32>)
    ensures
        match r {
            Some(v) => calibration_value(line@) == Some(v as int),
            None => calibration_value(line@) is None,
        },
{
    let chars = to_chars(line);
    assert(chars@.subrange(0, chars.len() as int) =~= line@);
    calibration_range(&chars, 0, chars.len())
}

/// The sum of the calibration values of the lines of `input`; `None` where a
/// line holds no digit or the sum does not fit in an `i32`.
pub fn get_sum_calibration_values(input: &str) -> (r: Option<i32>)
    ensures
        r == match calibration_sum(lines(input@)) {
            Some(t) => if t <= i32::MAX {
                Some(t as i32)
            } else {
                None
            },
            None => None,
        },
{
    let chars = to_chars(input);
    let bounds = line_bounds(&chars);
    let ghost ls = lines(input@);
    let mut sum: i32 = 0;
    let mut missing = false;
    let mut big = false;
    let mut k: usize = 0;
    assert(ls.take(0) =~= Seq::<Seq<char>>::empty());
    while k < bounds.len()
        invariant
            k <= bounds.len() == ls.len(),
            chars@ == input@,
            ls == lines(input@),
            forall|j: int|
                0 <= j < bounds.len() ==> {
                    &&& (#[trigger] bounds[j]).0 <= bounds[j].1 <= chars.len()
                    &&& chars@.subrange(bounds[j].0 as int, bounds[j].1 as int) == ls[j]
                },
            missing <==> calibration_sum(ls.take(k as int)) is None,
            !missing && !big ==> calibration_sum(ls.take(k as int)) == Some(sum as int),
            !missing && big ==> calibration_sum(ls.take(k as int))->0 > i32::MAX,
            0 <= sum,
        decreases bounds.len() - k,
    {
        assert(ls.take(k + 1).drop_last() =~= ls.take(k as int));
        assert(ls.take(k + 1).last() == ls[k as int]);
        let (a, b) = bounds[k];
        match calibration_range(&chars, a, b) {
            None => {
                missing = true;
            },
            Some(v) => {
                if !big {
                    if sum <= i32::MAX - v {
                        sum = sum + v;
                    } else {
                        big = true;
                    }
                }
            },
        }
        k = k + 1;
    }
    assert(ls.take(k as int) =~= ls);
    if missing || big {
        None
    } else {
        Some(sum)
    }
}

} // verus!
