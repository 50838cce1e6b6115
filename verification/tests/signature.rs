use rar::error::ParseError;
use rar::sig_block::{
    rar4_signature, rar5_signature, rar_pre_signature, rar_signature, RarSignature,
    SignatureBlock,
};

#[test]
fn sig_block_test_rar_signature() {
    // rar 5 header test
    assert_eq!(
        rar_signature(&[0x52, 0x61, 0x72, 0x21, 0x1A, 0x07, 0x01, 0x00]),
        Ok((&b""[..], SignatureBlock::RAR5))
    );
    // rar 4 header test
    assert_eq!(
        rar_signature(&[0x52, 0x61, 0x72, 0x21, 0x1A, 0x07, 0x00]),
        Ok((&b""[..], SignatureBlock::RAR4))
    );
}

#[test]
fn sig_block_test_rar5_signature() {
    assert!(rar5_signature(&[0x52, 0x61, 0x72, 0x21, 0x1A, 0x07, 0x01, 0x00]).is_ok());
    assert!(rar5_signature(&[0x52, 0x61, 0x72, 0x21, 0x1A, 0x07, 0x00]).is_err());
}

#[test]
fn sig_block_test_rar4_signature() {
    assert!(rar4_signature(&[0x52, 0x61, 0x72, 0x21, 0x1A, 0x07, 0x01, 0x00]).is_err());
    assert!(rar4_signature(&[0x52, 0x61, 0x72, 0x21, 0x1A, 0x07, 0x00]).is_ok());
}

#[test]
fn sig_block_test_rar_pre_signature() {
    assert_eq!(rar_pre_signature(b"Rar!"), Ok((&b""[..], &b"Rar!"[..])));
    assert_eq!(
        rar_pre_signature(b"Rar!asdad"),
        Ok((&b"asdad"[..], &b"Rar!"[..]))
    );
    assert!(rar_pre_signature(b"wrog").is_err());
}

#[test]
fn signature_test_rar_signature() {
    // rar 5 header test
    assert_eq!(
        RarSignature::parse(&[0x52, 0x61, 0x72, 0x21, 0x1A, 0x07, 0x01, 0x00]),
        Ok((&b""[..], RarSignature::RAR5))
    );
    // rar 4 header test
    assert_eq!(
        RarSignature::parse(&[0x52, 0x61, 0x72, 0x21, 0x1A, 0x07, 0x00]),
        Ok((&b""[..], RarSignature::RAR4))
    );
}

#[test]
fn signature_test_rar5_signature() {
    assert!(rar5_signature(&[0x52, 0x61, 0x72, 0x21, 0x1A, 0x07, 0x01, 0x00]).is_ok());
    assert!(rar5_signature(&[0x52, 0x61, 0x72, 0x21, 0x1A, 0x07, 0x00]).is_err());
}

#[test]
fn signature_test_rar4_signature() {
    assert!(rar4_signature(&[0x52, 0x61, 0x72, 0x21, 0x1A, 0x07, 0x01, 0x00]).is_err());
    assert!(rar4_signature(&[0x52, 0x61, 0x72, 0x21, 0x1A, 0x07, 0x00]).is_ok());
}

#[test]
fn signature_test_rar_pre_signature() {
    assert_eq!(rar_pre_signature(b"Rar!"), Ok((&b""[..], &b"Rar!"[..])));
    assert_eq!(
        rar_pre_signature(b"Rar!asdad"),
        Ok((&b"asdad"[..], &b"Rar!"[..]))
    );
    assert!(rar_pre_signature(b"wrog").is_err());
}

#[test]
fn signature_dispatch_leaves_the_remainder() {
    let five = [0x52, 0x61, 0x72, 0x21, 0x1A, 0x07, 0x01, 0x00, 0xF3, 0xE1];
    assert_eq!(
        SignatureBlock::parse(&five),
        Ok((&five[8..], SignatureBlock::RAR5))
    );
    let four = [0x52, 0x61, 0x72, 0x21, 0x1A, 0x07, 0x00, 0xF3, 0xE1];
    assert_eq!(
        SignatureBlock::parse(&four),
        Ok((&four[7..], SignatureBlock::RAR4))
    );
}

#[test]
fn signature_prefixes_are_incomplete_and_other_bytes_malformed() {
    assert_eq!(SignatureBlock::parse(&[]), Err(ParseError::Incomplete));
    assert_eq!(SignatureBlock::parse(b"Rar"), Err(ParseError::Incomplete));
    assert_eq!(
        SignatureBlock::parse(&[0x52, 0x61, 0x72, 0x21, 0x1A, 0x07]),
        Err(ParseError::Incomplete)
    );
    assert_eq!(SignatureBlock::parse(b"wrog"), Err(ParseError::Malformed));
    assert_eq!(
        SignatureBlock::parse(&[0x52, 0x61, 0x72, 0x21, 0x1A, 0x07, 0x02, 0x00]),
        Err(ParseError::Malformed)
    );
}
