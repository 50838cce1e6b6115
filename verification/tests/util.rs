use rar::util::{get_bit_at, split_u64, to_bool};

#[test]
fn test_get_bit_at() {
    assert_eq!(get_bit_at(0xFF, 1), true);
    assert_eq!(get_bit_at(0x7F, 7), false);
    assert_eq!(get_bit_at(0x7F, 6), true);
    assert_eq!(get_bit_at(0x00, 0), false);
    assert_eq!(get_bit_at(0x01, 0), true);
    assert_eq!(get_bit_at(0x02, 0), false);
    assert_eq!(get_bit_at(0x02, 1), true);
}

#[test]
fn get_bit_at_past_the_word_is_clear() {
    assert_eq!(get_bit_at(u64::MAX, 63), true);
    assert_eq!(get_bit_at(u64::MAX, 64), false);
    assert_eq!(get_bit_at(u64::MAX, u64::MAX), false);
}

#[test]
fn test_split_u64() {
    assert_eq!(
        split_u64(0x00000000),
        [0x00, 0x00, 0x00, 0x00, 0x00, 0x00, 0x00, 0x00]
    );
    assert_eq!(
        split_u64(0x000000FF),
        [0x00, 0x00, 0x00, 0x00, 0x00, 0x00, 0x00, 0xFF]
    );
    assert_eq!(
        split_u64(0x0000FF00),
        [0x00, 0x00, 0x00, 0x00, 0x00, 0x00, 0xFF, 0x00]
    );
    assert_eq!(
        split_u64(0x00FF0000),
        [0x00, 0x00, 0x00, 0x00, 0x00, 0xFF, 0x00, 0x00]
    );
    assert_eq!(
        split_u64(0xFF000000),
        [0x00, 0x00, 0x00, 0x00, 0xFF, 0x00, 0x00, 0x00]
    );
    assert_eq!(
        split_u64(0x0F0F0F0F),
        [0x00, 0x00, 0x00, 0x00, 0x0F, 0x0F, 0x0F, 0x0F]
    );
}

#[test]
fn split_u64_orders_all_eight_bytes() {
    assert_eq!(
        split_u64(0x0102030405060708),
        [0x01, 0x02, 0x03, 0x04, 0x05, 0x06, 0x07, 0x08]
    );
}

#[test]
fn util_test_to_bool() {
    assert_eq!(to_bool(0), false);
    assert_eq!(to_bool(1), true);
    assert_eq!(to_bool(10), true);
}

#[test]
fn file_test_to_bool() {
    assert_eq!(to_bool(0), false);
    assert_eq!(to_bool(1), true);
    assert_eq!(to_bool(10), true);
}
