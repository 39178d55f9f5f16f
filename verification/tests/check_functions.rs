use action_kv::check_functions::count_ones;
use action_kv::parity_check;

#[test]
fn test_parity_check() {
    let abc = b"abc";
    assert_eq!(parity_check(abc), 1);

    let abcd = b"abcd";
    assert_eq!(parity_check(abcd), 0);
}

#[test]
fn parity_of_nothing_is_even() {
    assert_eq!(parity_check(b""), 1);
}

#[test]
fn parity_of_single_bytes() {
    assert_eq!(parity_check(&[0x00]), 1);
    assert_eq!(parity_check(&[0x01]), 0);
    assert_eq!(parity_check(&[0x03]), 1);
    assert_eq!(parity_check(&[0x80]), 0);
    assert_eq!(parity_check(&[0xFF]), 1);
    assert_eq!(parity_check(&[0xFE]), 0);
}

#[test]
fn parity_adds_up_over_bytes() {
    assert_eq!(parity_check(&[0x01, 0x01]), 1);
    assert_eq!(parity_check(&[0x01, 0x01, 0x01]), 0);
    assert_eq!(parity_check(&[0xFF, 0x01]), 0);
    assert_eq!(parity_check(&[0x07, 0x10, 0xF0]), 1);
}

#[test]
fn parity_flips_with_one_bit() {
    let mut bytes = vec![0x5Au8, 0x3C, 0x00, 0xE1];
    let before = parity_check(&bytes);
    bytes[2] ^= 0x10;
    assert_eq!(parity_check(&bytes), 1 - before);
}

#[test]
fn count_ones_counts_bits() {
    assert_eq!(count_ones(0x00), 0);
    assert_eq!(count_ones(0x01), 1);
    assert_eq!(count_ones(0x80), 1);
    assert_eq!(count_ones(0xA5), 4);
    assert_eq!(count_ones(0xFF), 8);
    assert_eq!(count_ones(0x61), 3);
}

#[test]
fn count_ones_is_that_of_std() {
    for byte in 0..=255u8 {
        assert_eq!(count_ones(byte), byte.count_ones());
    }
}
