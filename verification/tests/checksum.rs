use litearrow::crc32c;

#[test]
fn matches_the_standard_crc32c_check_value() {
    assert_eq!(crc32c(b"123456789"), 0xe306_9283);
}

#[test]
fn crc32c_of_nothing_is_zero() {
    assert_eq!(crc32c(b""), 0);
}

#[test]
fn crc32c_detects_a_flipped_bit() {
    assert_ne!(crc32c(b"123456789"), crc32c(b"123456788"));
}
