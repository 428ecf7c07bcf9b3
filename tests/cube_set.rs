use std::str::FromStr;

use aoc23::cube_set::{CubeSet, CubeSetParseErr};

#[test]
fn test_cube_set_from_str_r() {
    let expected = CubeSet {
        red: 1,
        green: 0,
        blue: 0,
    };
    let actual = CubeSet::from_str("1 red").unwrap();
    assert_eq!(expected, actual);
}

#[test]
fn test_cube_set_from_str_g() {
    let expected = CubeSet {
        red: 0,
        green: 2,
        blue: 0,
    };
    let actual = CubeSet::from_str("2 green").unwrap();
    assert_eq!(expected, actual);
}

#[test]
fn test_cube_set_from_str_b() {
    let expected = CubeSet {
        red: 0,
        green: 0,
        blue: 3,
    };
    let actual = CubeSet::from_str("3 blue").unwrap();
    assert_eq!(expected, actual);
}

#[test]
fn test_cube_set_from_str_rg() {
    let expected = CubeSet {
        red: 5,
        green: 4,
        blue: 0,
    };
    let actual = CubeSet::from_str("4 green, 5 red").unwrap();
    assert_eq!(expected, actual);
}

#[test]
fn test_cube_set_from_str_gb() {
    let expected = CubeSet {
        red: 0,
        green: 7,
        blue: 6,
    };
    let actual = CubeSet::from_str("6 blue, 7 green").unwrap();
    assert_eq!(expected, actual);
}

#[test]
fn test_cube_set_from_str_rb() {
    let expected = CubeSet {
        red: 8,
        green: 0,
        blue: 9,
    };
    let actual = CubeSet::from_str("8 red, 9 blue").unwrap();
    assert_eq!(expected, actual);
}

#[test]
fn test_cube_set_from_str_rgb() {
    let expected = CubeSet {
        red: 11,
        green: 12,
        blue: 10,
    };
    let actual = CubeSet::from_str("10 blue, 11 red, 12 green").unwrap();
    assert_eq!(expected, actual);
}

#[test]
fn test_cube_set_from_str_err_format() {
    let result = CubeSet::from_str("kaboom");
    assert_eq!(result.unwrap_err(), CubeSetParseErr::NotAmountColorPair);
}

#[test]
fn test_cube_set_from_str_err_amount() {
    let result = CubeSet::from_str("one blue");
    assert_eq!(result.unwrap_err(), CubeSetParseErr::InvalidAmount);
}

#[test]
fn test_cube_set_from_str_err_color() {
    let result = CubeSet::from_str("3 purple");
    assert_eq!(result.unwrap_err(), CubeSetParseErr::UnknownColor);
}

#[test]
fn cube_set_segment_order_does_not_matter() {
    let a = CubeSet::parse("4 green, 5 red, 6 blue").unwrap();
    let b = CubeSet::parse("6 blue, 5 red, 4 green").unwrap();
    assert_eq!(a, b);
}

#[test]
fn cube_set_last_count_of_a_color_wins() {
    let actual = CubeSet::parse("1 red, 2 green, 7 red").unwrap();
    assert_eq!(actual, CubeSet { red: 7, green: 2, blue: 0 });
}

#[test]
fn cube_set_canonical_form_reads_back() {
    let actual = CubeSet::parse("1 red, 2 green, 3 blue").unwrap();
    assert_eq!(actual, CubeSet { red: 1, green: 2, blue: 3 });
}

#[test]
fn cube_set_segments_are_trimmed() {
    let actual = CubeSet::parse("  3 blue\t,\n 2 green  ").unwrap();
    assert_eq!(actual, CubeSet { red: 0, green: 2, blue: 3 });
}

#[test]
fn cube_set_amount_may_carry_a_plus_sign() {
    let actual = CubeSet::parse("+5 red").unwrap();
    assert_eq!(actual, CubeSet { red: 5, green: 0, blue: 0 });
    assert_eq!(CubeSet::parse("+ red"), Err(CubeSetParseErr::InvalidAmount));
    assert_eq!(CubeSet::parse("-5 red"), Err(CubeSetParseErr::InvalidAmount));
}

#[test]
fn cube_set_empty_text_is_no_pair() {
    assert_eq!(CubeSet::parse(""), Err(CubeSetParseErr::NotAmountColorPair));
    assert_eq!(CubeSet::parse("1 red,"), Err(CubeSetParseErr::NotAmountColorPair));
}

#[test]
fn cube_set_amount_must_fit() {
    let max = format!("{} red", usize::MAX);
    assert_eq!(CubeSet::parse(&max).unwrap().red, usize::MAX);
    let over = format!("{}0 red", usize::MAX);
    assert_eq!(CubeSet::parse(&over), Err(CubeSetParseErr::InvalidAmount));
}

#[test]
fn cube_set_color_must_match_exactly() {
    assert_eq!(CubeSet::parse("1 Red"), Err(CubeSetParseErr::UnknownColor));
    assert_eq!(CubeSet::parse("1  red"), Err(CubeSetParseErr::UnknownColor));
}

#[test]
fn cube_set_first_failing_segment_decides() {
    assert_eq!(CubeSet::parse("1 purple, x red"), Err(CubeSetParseErr::UnknownColor));
    assert_eq!(CubeSet::parse("x red, 1 purple"), Err(CubeSetParseErr::InvalidAmount));
}

#[test]
fn cube_set_empty_has_no_cubes() {
    assert_eq!(CubeSet::empty(), CubeSet { red: 0, green: 0, blue: 0 });
}
