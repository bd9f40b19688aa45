use renumber::digits::{count_digits, pad_decimal, parse_usize, to_decimal};

#[test]
fn digit_count_small() {
    assert_eq!(count_digits(0), 0);
    assert_eq!(count_digits(1), 1);
    assert_eq!(count_digits(9), 1);
    assert_eq!(count_digits(10), 2);
    assert_eq!(count_digits(99), 2);
    assert_eq!(count_digits(100), 3);
    assert_eq!(count_digits(12345), 5);
}

#[test]
fn decimal_rendering() {
    assert_eq!(to_decimal(0), b"0".to_vec());
    assert_eq!(to_decimal(7), b"7".to_vec());
    assert_eq!(to_decimal(10), b"10".to_vec());
    assert_eq!(to_decimal(104), b"104".to_vec());
}

#[test]
fn padding_to_width() {
    assert_eq!(pad_decimal(5, 1), b"5".to_vec());
    assert_eq!(pad_decimal(7, 3), b"007".to_vec());
    assert_eq!(pad_decimal(0, 2), b"00".to_vec());
    assert_eq!(pad_decimal(42, 2), b"42".to_vec());
}

#[test]
fn padding_never_truncates() {
    // a width smaller than the number keeps the full rendering
    assert_eq!(pad_decimal(104, 2), b"104".to_vec());
    assert_eq!(pad_decimal(9, 0), b"9".to_vec());
}

#[test]
fn parse_plain_decimal() {
    assert_eq!(parse_usize(&b"0".to_vec()), Some(0));
    assert_eq!(parse_usize(&b"12".to_vec()), Some(12));
    assert_eq!(parse_usize(&b"007".to_vec()), Some(7));
}

#[test]
fn parse_accepts_leading_plus() {
    assert_eq!(parse_usize(&b"+5".to_vec()), Some(5));
}

#[test]
fn parse_rejects_bad_input() {
    assert_eq!(parse_usize(&b"".to_vec()), None);
    assert_eq!(parse_usize(&b"+".to_vec()), None);
    assert_eq!(parse_usize(&b"1a".to_vec()), None);
    assert_eq!(parse_usize(&b"-3".to_vec()), None);
    assert_eq!(parse_usize(&b" 4".to_vec()), None);
}

#[test]
fn parse_bounds() {
    let max = format!("{}", usize::MAX).into_bytes();
    assert_eq!(parse_usize(&max), Some(usize::MAX));
    assert_eq!(parse_usize(&b"99999999999999999999999999".to_vec()), None);
}
