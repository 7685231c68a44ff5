use cate::bscii::encode_integer;
use cate::bscii::BinaryOperator;
use cate::bscii::CodecError;
use cate::bscii::DecodeError;
use cate::bscii::Encoder;
use cate::bscii::Token;
use cate::bscii::UnaryOperator;

const ALPHABET: &str = "abcdefghijklmnopqrstuvwxyzABCDEFGHIJKLMNOPQRSTUVWXYZ0123456789!\"#$%&'()*+,-./:;<=>?@[\\]^_`|~ \n";

#[test]
fn encode_known_message() {
    let e = Encoder::new();
    assert_eq!(e.encode_str("get index").unwrap(), "'%4}).$%8");
}

#[test]
fn encode_message_prepends_text_tag() {
    let e = Encoder::new();
    assert_eq!(e.encode_message("get index").unwrap(), "S'%4}).$%8");
}

#[test]
fn encode_whole_alphabet_hits_every_transport_byte() {
    let e = Encoder::new();
    let t = e.encode_str(ALPHABET).unwrap();
    let expected: String = (33u8..=126u8).map(|b| b as char).collect();
    assert_eq!(t, expected);
}

#[test]
fn alphabet_round_trip() {
    let e = Encoder::new();
    let t = e.encode_str(ALPHABET).unwrap();
    let mut token = vec![b'S'];
    token.extend(t.bytes());
    match e.decode_token(&token).unwrap() {
        Token::Text { value } => assert_eq!(value, ALPHABET),
        other => panic!("expected a text token, got {:?}", other),
    }
}

#[test]
fn encode_rejects_character_outside_table() {
    let e = Encoder::new();
    assert!(matches!(
        e.encode_str("{").unwrap_err(),
        CodecError::UnsupportedChar { position: 0 }
    ));
    assert!(matches!(
        e.encode_str("a\u{e9}b").unwrap_err(),
        CodecError::UnsupportedChar { position: 1 }
    ));
}

#[test]
fn decode_booleans() {
    let e = Encoder::new();
    assert!(matches!(e.decode_token(b"T").unwrap(), Token::Boolean { value: true }));
    assert!(matches!(e.decode_token(b"F").unwrap(), Token::Boolean { value: false }));
}

#[test]
fn decode_integer_horner() {
    let e = Encoder::new();
    assert!(matches!(e.decode_token(b"I/6").unwrap(), Token::Integer { value: 1337 }));
    assert!(matches!(e.decode_token(b"I!").unwrap(), Token::Integer { value: 0 }));
}

#[test]
fn decode_binder_and_variable() {
    let e = Encoder::new();
    assert!(matches!(e.decode_token(b"L#").unwrap(), Token::Lambda { value: 2 }));
    assert!(matches!(e.decode_token(b"v$").unwrap(), Token::Variable { value: 3 }));
}

#[test]
fn decode_text_literal() {
    let e = Encoder::new();
    match e.decode_token(b"S'%4}).$%8").unwrap() {
        Token::Text { value } => assert_eq!(value, "get index"),
        other => panic!("expected a text token, got {:?}", other),
    }
}

#[test]
fn decode_unary_operators() {
    let e = Encoder::new();
    assert!(matches!(
        e.decode_token(b"U-").unwrap(),
        Token::Unary { value: UnaryOperator::IntegerNegation }
    ));
    assert!(matches!(
        e.decode_token(b"U!").unwrap(),
        Token::Unary { value: UnaryOperator::BooleanNot }
    ));
    assert!(matches!(
        e.decode_token(b"U#").unwrap(),
        Token::Unary { value: UnaryOperator::StringToInt }
    ));
    assert!(matches!(
        e.decode_token(b"U$").unwrap(),
        Token::Unary { value: UnaryOperator::IntToString }
    ));
}

#[test]
fn decode_unrecognized_unary_degrades() {
    let e = Encoder::new();
    match e.decode_token(b"U?").unwrap() {
        Token::Unary { value: UnaryOperator::Invalid { value } } => assert_eq!(value, "U?"),
        other => panic!("expected an invalid-operator carrier, got {:?}", other),
    }
}

#[test]
fn decode_binary_operators() {
    let e = Encoder::new();
    let cases: Vec<(&[u8], BinaryOperator)> = vec![
        (b"B+", BinaryOperator::IntegerAddition),
        (b"B-", BinaryOperator::IntegerSubtraction),
        (b"B*", BinaryOperator::IntegerMultiplication),
        (b"B/", BinaryOperator::IntegerDivision),
        (b"B%", BinaryOperator::IntegerModulo),
        (b"B<", BinaryOperator::IntegerLessThan),
        (b"B>", BinaryOperator::IntegerGreaterThan),
        (b"B=", BinaryOperator::Equality),
        (b"B.", BinaryOperator::StringConcatenation),
        (b"BT", BinaryOperator::StringTake),
        (b"BD", BinaryOperator::StringDrop),
        (b"B$", BinaryOperator::Apply),
    ];
    for (bytes, expected) in cases {
        match e.decode_token(bytes).unwrap() {
            Token::Binary { value } => {
                assert_eq!(format!("{:?}", value), format!("{:?}", expected))
            },
            other => panic!("expected a binary operator, got {:?}", other),
        }
    }
}

#[test]
fn decode_unrecognized_binary_degrades() {
    let e = Encoder::new();
    match e.decode_token(b"BX").unwrap() {
        Token::Binary { value: BinaryOperator::Invalid { value } } => assert_eq!(value, "BX"),
        other => panic!("expected an invalid-operator carrier, got {:?}", other),
    }
}

#[test]
fn decode_unrecognized_tag_is_opaque() {
    let e = Encoder::new();
    match e.decode_token(b"Xyz").unwrap() {
        Token::Other { value } => assert_eq!(value, "Xyz"),
        other => panic!("expected an opaque token, got {:?}", other),
    }
}

#[test]
fn decode_empty_token_fails() {
    let e = Encoder::new();
    assert!(matches!(e.decode_token(b"").unwrap_err(), DecodeError::EmptyToken));
}

#[test]
fn decode_integer_digit_out_of_range_fails() {
    let e = Encoder::new();
    assert!(matches!(
        e.decode_token(b"I!\x1f!").unwrap_err(),
        DecodeError::BadDigit { position: 2 }
    ));
}

#[test]
fn decode_integer_overflow_fails() {
    let e = Encoder::new();
    assert!(matches!(
        e.decode_token(b"I~~~~~~~~~~").unwrap_err(),
        DecodeError::IntegerOverflow
    ));
}

#[test]
fn decode_text_byte_out_of_range_fails() {
    let e = Encoder::new();
    assert!(matches!(
        e.decode_token(b"S'\x7f").unwrap_err(),
        DecodeError::BadTextByte { position: 2 }
    ));
}

#[test]
fn decode_non_text_bytes_fail() {
    let e = Encoder::new();
    assert!(matches!(e.decode_token(b"\xff").unwrap_err(), DecodeError::NotText));
    assert!(matches!(e.decode_token(b"U\xff").unwrap_err(), DecodeError::NotText));
}

#[test]
fn integer_round_trip_boundaries() {
    let e = Encoder::new();
    for n in [0u64, 93, 94, 94 * 94 - 1, 94 * 94, u64::MAX] {
        let mut token = vec![b'I'];
        token.extend(encode_integer(n));
        match e.decode_token(&token).unwrap() {
            Token::Integer { value } => assert_eq!(value, n),
            other => panic!("expected an integer token, got {:?}", other),
        }
    }
}

#[test]
fn integer_digits_exact() {
    assert_eq!(encode_integer(0), vec![33]);
    assert_eq!(encode_integer(93), vec![126]);
    assert_eq!(encode_integer(94), vec![34, 33]);
    assert_eq!(encode_integer(1337), vec![b'/', b'6']);
}

#[test]
fn decode_bytes_splits_on_spaces() {
    let e = Encoder::new();
    let buf = bytes::Bytes::from_static(b"S'%4}).$%8 T B$");
    let tokens = e.decode_bytes(&buf).unwrap();
    assert_eq!(tokens.len(), 3);
    assert!(matches!(&tokens[0], Token::Text { value } if value == "get index"));
    assert!(matches!(&tokens[1], Token::Boolean { value: true }));
    assert!(matches!(&tokens[2], Token::Binary { value: BinaryOperator::Apply }));
}

#[test]
fn decode_bytes_reports_failing_token() {
    let e = Encoder::new();
    let buf = bytes::Bytes::from_static(b"T \xff F");
    let err = e.decode_bytes(&buf).unwrap_err();
    assert_eq!(err.index, 1);
    assert!(matches!(err.cause, DecodeError::NotText));
}

#[test]
fn decode_bytes_rejects_empty_buffer() {
    let e = Encoder::new();
    let err = e.decode_bytes(&bytes::Bytes::new()).unwrap_err();
    assert_eq!(err.index, 0);
    assert!(matches!(err.cause, DecodeError::EmptyToken));
}

#[test]
fn decode_bytes_rejects_adjacent_separators() {
    let e = Encoder::new();
    let err = e.decode_bytes(&bytes::Bytes::from_static(b"T  F")).unwrap_err();
    assert_eq!(err.index, 1);
    assert!(matches!(err.cause, DecodeError::EmptyToken));
}

#[test]
fn decode_bytes_rejects_trailing_separator() {
    let e = Encoder::new();
    let err = e.decode_bytes(&bytes::Bytes::from_static(b"T ")).unwrap_err();
    assert_eq!(err.index, 1);
    assert!(matches!(err.cause, DecodeError::EmptyToken));
}
