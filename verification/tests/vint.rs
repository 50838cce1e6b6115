use rar::error::ParseError;
use rar::vint::{collect_vint, encode, is_vint_bit, split_vint, take_one, vint};

#[test]
fn test_vint() {
    assert_eq!(vint(&[0x01, 0xFF, 0x00]), Ok((&[0xFF, 0x00][..], 0x01)));
    assert_eq!(vint(&[0xFF, 0x01, 0x00]), Ok((&[0x00][..], 0xFF)));
    assert_eq!(vint(&[0xFF, 0xFF, 0x00]), Ok((&[][..], 0x3fff)));
    assert_eq!(vint(&[0x80, 0xFF, 0x80, 0x00]), Ok((&[][..], 0x3f80)));
    assert!(vint(&[]).is_err());
    assert!(vint(&[0xFF, 0xFF]).is_err());
}

#[test]
fn vint_decoding_consumes_up_to_the_terminator() {
    assert_eq!(vint(&[0x01]), Ok((&[][..], 1)));
    assert_eq!(vint(&[0xFF, 0x01]), Ok((&[][..], 0xFF)));
    assert_eq!(vint(&[0xFF, 0xFF, 0x00]), Ok((&[][..], 0x3FFF)));
    assert_eq!(vint(&[0xFF, 0xFF]), Err(ParseError::Incomplete));
}

#[test]
fn vint_without_terminator_is_incomplete_whatever_its_length() {
    assert_eq!(vint(&[]), Err(ParseError::Incomplete));
    assert_eq!(vint(&[0x80]), Err(ParseError::Incomplete));
    assert_eq!(vint(&[0xFF; 9]), Err(ParseError::Incomplete));
    assert_eq!(vint(&[0xFF; 32]), Err(ParseError::Incomplete));
}

#[test]
fn vint_holds_the_largest_64_bit_value() {
    let max = [0xFF, 0xFF, 0xFF, 0xFF, 0xFF, 0xFF, 0xFF, 0xFF, 0xFF, 0x01];
    assert_eq!(vint(&max), Ok((&[][..], u64::MAX)));
    let top = [0x80, 0x80, 0x80, 0x80, 0x80, 0x80, 0x80, 0x80, 0x80, 0x01, 0x55];
    assert_eq!(vint(&top), Ok((&[0x55][..], 1u64 << 63)));
}

#[test]
fn vint_beyond_64_bits_is_malformed() {
    let wide = [0xFF, 0xFF, 0xFF, 0xFF, 0xFF, 0xFF, 0xFF, 0xFF, 0xFF, 0x02];
    assert_eq!(vint(&wide), Err(ParseError::Malformed));
    let long = [0x80, 0x80, 0x80, 0x80, 0x80, 0x80, 0x80, 0x80, 0x80, 0x80, 0x00];
    assert_eq!(vint(&long), Err(ParseError::Malformed));
}

#[test]
fn encode_writes_the_canonical_form() {
    assert_eq!(encode(0), vec![0x00]);
    assert_eq!(encode(1), vec![0x01]);
    assert_eq!(encode(127), vec![0x7F]);
    assert_eq!(encode(128), vec![0x80, 0x01]);
    assert_eq!(encode(0xFF), vec![0xFF, 0x01]);
    assert_eq!(encode(0x3FFF), vec![0xFF, 0x7F]);
    assert_eq!(encode(2118), vec![0xC6, 0x10]);
    assert_eq!(
        encode(u64::MAX),
        vec![0xFF, 0xFF, 0xFF, 0xFF, 0xFF, 0xFF, 0xFF, 0xFF, 0xFF, 0x01]
    );
}

#[test]
fn decode_of_encode_round_trips() {
    let samples = [
        0u64,
        1,
        127,
        128,
        300,
        16383,
        16384,
        2149083,
        (1 << 35) + 17,
        (1 << 63) - 1,
        1 << 63,
        u64::MAX,
    ];
    for v in samples {
        let mut bytes = encode(v);
        let len = bytes.len();
        assert!(len == 1 || bytes[len - 1] != 0);
        bytes.push(0xAB);
        assert_eq!(vint(&bytes), Ok((&[0xAB][..], v)));
    }
}

#[test]
fn test_collect_vint() {
    assert_eq!(
        collect_vint(&[0xFF, 0xFF, 0x00]),
        Ok((&[0x00][..], &[0xFF, 0xFF][..]))
    );
    assert_eq!(
        collect_vint(&[0xFF, 0xFF, 0x00, 0xFF]),
        Ok((&[0x00, 0xFF][..], &[0xFF, 0xFF][..]))
    );
    assert!(collect_vint(&[0xFF, 0xFF]).is_err());
    assert!(collect_vint(&[0x01]).is_err());
    assert!(collect_vint(&[0x01, 0x01]).is_err());
    assert!(collect_vint(&[]).is_err());
}

#[test]
fn collect_vint_tells_incomplete_from_malformed() {
    assert_eq!(collect_vint(&[0xFF, 0xFF]), Err(ParseError::Incomplete));
    assert_eq!(collect_vint(&[]), Err(ParseError::Incomplete));
    assert_eq!(collect_vint(&[0x01]), Err(ParseError::Malformed));
}

#[test]
fn test_take_one() {
    assert_eq!(
        take_one(&[0xFF, 0xFF, 0x00]),
        Ok((&[0xFF, 0x00][..], &[0xFF][..]))
    );
    assert_eq!(
        take_one(&[0xFF, 0xFF, 0x00, 0xFF]),
        Ok((&[0xFF, 0x00, 0xFF][..], &[0xFF][..]))
    );
    assert!(take_one(&[]).is_err());
}

#[test]
fn test_split_vint() {
    assert_eq!(split_vint(0xFF), (0x01, 0x7F));
    assert_eq!(split_vint(0x80), (0x01, 0x00));
    assert_eq!(split_vint(0x7F), (0x00, 0x7F));
    assert_eq!(split_vint(0x00), (0x00, 0x00));
    assert_eq!(split_vint(0x01), (0x00, 0x01));
}

#[test]
fn test_is_vint_bit() {
    assert_eq!(is_vint_bit(0xFF), true);
    assert_eq!(is_vint_bit(0x7F), false);
    assert_eq!(is_vint_bit(0x00), false);
    assert_eq!(is_vint_bit(0x01), false);
}
