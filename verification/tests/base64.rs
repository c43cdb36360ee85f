use base_encoding::base64::{base64_decode, base64_encode, DecodeError};

#[test]
fn test_base64_encode() {
    assert_eq!(base64_encode(&[0xde, 0xad, 0xbe, 0xef]), "3q2+7w==");
    assert_eq!(base64_encode(&[]), "");
    assert_eq!(
        base64_encode("Many hands make light work.".as_bytes()),
        "TWFueSBoYW5kcyBtYWtlIGxpZ2h0IHdvcmsu"
    );
}

#[test]
fn test_base64_decode() {
    assert_eq!(base64_decode("3q2+7w=="), Ok(vec![0xde, 0xad, 0xbe, 0xef]));
    assert_eq!(base64_decode(""), Ok(vec![]));
    assert_eq!(
        base64_decode("TWFueSBoYW5kcyBtYWtlIGxpZ2h0IHdvcmsu"),
        Ok("Many hands make light work.".as_bytes().to_vec())
    );
    assert!(base64_decode("3q2+7w").is_err());
    assert!(base64_decode("3q2+7w==").is_ok());
}

#[test]
fn round_trip_all_tail_lengths() {
    let buffers: Vec<Vec<u8>> = vec![
        vec![],
        vec![0x00],
        vec![0xff],
        vec![0x00, 0xff],
        vec![1, 2, 3],
        vec![1, 2, 3, 4],
        vec![1, 2, 3, 4, 5],
        vec![0xde, 0xad, 0xbe, 0xef, 0x00, 0x7f, 0x80, 0xff],
        (0u8..=255).collect(),
    ];
    for b in buffers {
        assert_eq!(base64_decode(&base64_encode(&b)), Ok(b));
    }
}

#[test]
fn encoded_length_is_multiple_of_four() {
    let mut b: Vec<u8> = Vec::new();
    for i in 0..50u8 {
        assert_eq!(base64_encode(&b).len() % 4, 0);
        b.push(i);
    }
}

#[test]
fn encode_tail_cases() {
    assert_eq!(base64_encode(&[0x41]), "QQ==");
    assert_eq!(base64_encode(&[0x41, 0x42]), "QUI=");
    assert_eq!(base64_encode(&[0x41, 0x42, 0x43]), "QUJD");
}

#[test]
fn decode_tail_cases() {
    assert_eq!(base64_decode("QQ=="), Ok(vec![0x41]));
    assert_eq!(base64_decode("QUI="), Ok(vec![0x41, 0x42]));
    assert_eq!(base64_decode("QUJD"), Ok(vec![0x41, 0x42, 0x43]));
}

#[test]
fn decode_rejects_bad_length() {
    assert_eq!(base64_decode("3q2+7w"), Err(DecodeError::InvalidLength));
    assert_eq!(base64_decode("A"), Err(DecodeError::InvalidLength));
    assert_eq!(base64_decode("QUJDQ"), Err(DecodeError::InvalidLength));
}

#[test]
fn decode_rejects_padding_up_front() {
    assert_eq!(base64_decode("=AAA"), Err(DecodeError::UnexpectedPadding));
    assert_eq!(base64_decode("A=AA"), Err(DecodeError::UnexpectedPadding));
    assert_eq!(base64_decode("===="), Err(DecodeError::UnexpectedPadding));
    assert_eq!(
        base64_decode("QUJD=AAA"),
        Err(DecodeError::UnexpectedPadding)
    );
}

#[test]
fn decode_rejects_characters_outside_the_alphabet() {
    assert_eq!(
        base64_decode("$UJD"),
        Err(DecodeError::InvalidCharacter('$'))
    );
    assert_eq!(
        base64_decode("Q#JD"),
        Err(DecodeError::InvalidCharacter('#'))
    );
    assert_eq!(
        base64_decode("QU!D"),
        Err(DecodeError::InvalidCharacter('!'))
    );
    assert_eq!(
        base64_decode("QUJ~"),
        Err(DecodeError::InvalidCharacter('~'))
    );
    assert_eq!(
        base64_decode("QUJDäA=="),
        Err(DecodeError::InvalidCharacter('ä'))
    );
}

#[test]
fn decode_rejects_malformed_padding() {
    assert_eq!(base64_decode("QU=D"), Err(DecodeError::InvalidPadding));
    assert_eq!(base64_decode("QUJDQU=D"), Err(DecodeError::InvalidPadding));
}

#[test]
fn decode_discards_groups_after_an_early_terminator() {
    // A padding-terminated group ends the output; later groups are still
    // validated but no longer contribute bytes.
    assert_eq!(base64_decode("QQ==QUJD"), Ok(vec![0x41]));
    assert_eq!(base64_decode("QUI=QQ=="), Ok(vec![0x41, 0x42]));
    assert_eq!(
        base64_decode("QQ==$AAA"),
        Err(DecodeError::InvalidCharacter('$'))
    );
}

#[test]
fn error_messages_name_the_problem() {
    assert_eq!(
        DecodeError::InvalidLength.message(),
        "Invalid base64 string length"
    );
    assert_eq!(
        DecodeError::UnexpectedPadding.message(),
        "Unexpected padding character"
    );
    assert_eq!(
        DecodeError::InvalidCharacter('$').message(),
        "Invalid base64 character found: '$'"
    );
    assert_eq!(DecodeError::InvalidPadding.message(), "Invalid padding");
}
