use dfu_layout::numeric::usize_from_string;

#[test]
fn decimal_is_read_at_face_value() {
    assert_eq!(Ok(123), usize_from_string("123").map_err(|_| ()));
    assert_eq!(Ok(7), usize_from_string("7").map_err(|_| ()));
    assert_eq!(Ok(99999), usize_from_string("99999").map_err(|_| ()));
}

#[test]
fn hex_prefix_is_read_base_sixteen() {
    assert_eq!(Ok(0x08000000), usize_from_string("0x08000000").map_err(|_| ()));
    assert_eq!(Ok(0x1A), usize_from_string("0x1A").map_err(|_| ()));
    assert_eq!(Ok(0x1a), usize_from_string("0x1a").map_err(|_| ()));
}

#[test]
fn leading_zero_selects_octal() {
    assert_eq!(Ok(83), usize_from_string("0123").map_err(|_| ()));
    assert_eq!(Ok(15), usize_from_string("017").map_err(|_| ()));
}

#[test]
fn binary_prefix_is_read_base_two() {
    assert_eq!(Ok(5), usize_from_string("0b101").map_err(|_| ()));
}

#[test]
fn octal_letter_prefix_is_read_base_eight() {
    assert_eq!(Ok(15), usize_from_string("0o17").map_err(|_| ()));
}

#[test]
fn backslash_escape_enables_hex() {
    assert_eq!(Ok(0x1A), usize_from_string("\\x1A").map_err(|_| ()));
}

#[test]
fn bare_zero_fails() {
    assert!(usize_from_string("0").is_err());
}

#[test]
fn empty_string_fails() {
    assert!(usize_from_string("").is_err());
}

#[test]
fn invalid_digit_fails() {
    assert!(usize_from_string("12z").is_err());
    assert!(usize_from_string("089").is_err());
    assert!(usize_from_string("0b102").is_err());
}

#[test]
fn lone_prefix_fails() {
    assert!(usize_from_string("0x").is_err());
    assert!(usize_from_string("x").is_err());
    assert!(usize_from_string("\\").is_err());
}

#[test]
fn overflowing_value_fails() {
    assert!(usize_from_string("0x1FFFFFFFFFFFFFFFF").is_err());
    assert!(usize_from_string("99999999999999999999999").is_err());
}
