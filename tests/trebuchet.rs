use aoc23::trebuchet::{get_calibration_value, get_sum_calibration_values};

#[test]
fn test_get_calibration_value_1() {
    let actual = get_calibration_value("1abc2");
    assert_eq!(Some(12), actual);
}

#[test]
fn test_get_calibration_value_2() {
    let actual = get_calibration_value("pqr3stu8vwx");
    assert_eq!(Some(38), actual);
}

#[test]
fn test_get_calibration_value_3() {
    let actual = get_calibration_value("a1b2c3d4e5f");
    assert_eq!(Some(15), actual);
}

#[test]
fn test_get_calibration_value_4() {
    let actual = get_calibration_value("treb7uchet");
    assert_eq!(Some(77), actual);
}

#[test]
fn test_get_sum_calibration_values_1() {
    let input = "1abc2
pqr3stu8vwx
a1b2c3d4e5f
treb7uchet
";
    let actual = get_sum_calibration_values(input);
    assert_eq!(Some(142), actual);
}

#[test]
fn calibration_of_line_without_digit_is_none() {
    assert_eq!(get_calibration_value("abc"), None);
    assert_eq!(get_calibration_value(""), None);
    assert_eq!(get_sum_calibration_values("1a\nabc\n"), None);
}

#[test]
fn calibration_skips_non_ascii_text() {
    assert_eq!(get_calibration_value("\u{00e9}9\u{0663}x4\u{00e9}"), Some(94));
}

#[test]
fn calibration_sum_of_empty_input_is_zero() {
    assert_eq!(get_sum_calibration_values(""), Some(0));
}

