use bittorrent_starter_rust::bencode_format::{BencodeText, BencodeValue, ParseError};

fn check(input: &[u8], expected: BencodeValue, rem_len: usize) {
    let (rem, parsed) = BencodeValue::parse(input).unwrap();
    assert_eq!(parsed, expected);
    assert_eq!(rem.len(), rem_len);
}

fn check_err(input: &str, expected: &str) {
    let err = BencodeValue::parse(input.as_bytes()).unwrap_err();
    assert_eq!(err, ParseError::new(expected));
}

#[test]
fn test_bencode_test_derive_error() {
    // PartialEq + Eq
    assert_eq!(ParseError::new("foo"), ParseError::new("foo"));
    assert_ne!(ParseError::new("foo"), ParseError::new("bar"));

    // Debug
    assert_eq!(
        format!("{:?}", ParseError::new("foo")),
        "ParseError(\"foo\")"
    );

    // User-facing message
    assert_eq!(ParseError::new("foo").message(), "Bencode parse error: foo");
}

#[test]
fn test_bencode_test_derive_text() {
    // PartialEq + Eq
    assert_eq!(BencodeText::new(b"hello"), BencodeText::new(b"hello"));
    assert_ne!(BencodeText::new(b"hello"), BencodeText::new(b"world"));

    // Debug
    assert_eq!(
        format!("{:?}", BencodeText::new(b"hello")),
        "BencodeText([104, 101, 108, 108, 111])"
    );

    // Ord
    assert!(BencodeText::new(b"hello") < BencodeText::new(b"world"));
}

#[test]
fn test_bencode_test_derive_value() {
    // PartialEq + Eq
    assert_eq!(BencodeValue::Integer(42), BencodeValue::Integer(42));
    assert_ne!(BencodeValue::Integer(42), BencodeValue::Integer(72));

    // Debug
    assert_eq!(format!("{:?}", BencodeValue::Integer(42)), "Integer(42)");
}

#[test]
fn test_bencode_test_parse_invalid_content() {
    check_err("", "Input is empty: []");
    check_err("h", "Invalid Bencode content: [104]");
}

#[test]
fn test_bencode_test_parse_string_valid() {
    check(b"0:", BencodeValue::Data(BencodeText::new(b"")), 0); // Simple case
    check(b"5:hello", BencodeValue::Data(BencodeText::new(b"hello")), 0); // Simple case
    check(
        &[b'5', b':', 253, 196, 218, 124, 129],
        BencodeValue::Data(BencodeText::new(&[253, 196, 218, 124, 129])),
        0,
    ); // Non ascii case
    check(b"5:hello world", BencodeValue::Data(BencodeText::new(b"hello")), 6); // With extra
    check(
        b"12:hello world !",
        BencodeValue::Data(BencodeText::new(b"hello world ")),
        1,
    ); // Multiple bytes len
}

#[test]
fn test_bencode_test_parse_string_invalid() {
    check_err("4e", "String num is not a number=101: [52, 101]");
    check_err("42", "String num does not contains end tag: [52, 50]");
    check_err("42:", "String payload is too short: []");
    check_err("2:h", "String payload is too short: [104]");
}

#[test]
fn test_bencode_test_parse_int_valid() {
    check(b"i0e", BencodeValue::Integer(0), 0);
    check(b"i42e", BencodeValue::Integer(42), 0);
    check(b"i89461eHello", BencodeValue::Integer(89461), 5);

    check(b"i-0e", BencodeValue::Integer(0), 0);
    check(b"i-9e", BencodeValue::Integer(-9), 0);
    check(b"i-89461eHello", BencodeValue::Integer(-89461), 5);
}

#[test]
fn test_bencode_test_parse_int_invalid() {
    check_err("ie", "Number cannot be empty: [101]");
    check_err("i-e", "Number cannot be empty: [101]");
    check_err("ixe", "String num is not a number=120: [120, 101]");
    check_err("i42", "String num does not contains end tag: [52, 50]");
}

#[test]
fn test_bencode_test_parse_list_valid() {
    check(b"le", BencodeValue::List(vec![]), 0);
    check(
        b"l1:ae",
        BencodeValue::List(vec![BencodeValue::Data(BencodeText::new(b"a"))]),
        0,
    );
    check(
        b"l1:ai42ee",
        BencodeValue::List(vec![
            BencodeValue::Data(BencodeText::new(b"a")),
            BencodeValue::Integer(42),
        ]),
        0,
    );
    check(
        b"l4:spam4:eggse",
        BencodeValue::List(vec![
            BencodeValue::Data(BencodeText::new(b"spam")),
            BencodeValue::Data(BencodeText::new(b"eggs")),
        ]),
        0,
    );
    check(
        b"ll3:foo3:barelei56el5:helloee",
        BencodeValue::List(vec![
            BencodeValue::List(vec![
                BencodeValue::Data(BencodeText::new(b"foo")),
                BencodeValue::Data(BencodeText::new(b"bar")),
            ]),
            BencodeValue::List(vec![]),
            BencodeValue::Integer(56),
            BencodeValue::List(vec![BencodeValue::Data(BencodeText::new(b"hello"))]),
        ]),
        0,
    );
}

#[test]
fn test_bencode_test_parse_list_invalid() {
    check_err("l", "List miss end tag: []");
    check_err("l3:foo2:bare", "Invalid Bencode content: [114, 101]");
}

#[test]
fn test_bencode_test_parse_dict_valid() {
    check(b"de", BencodeValue::Dict(vec![]), 0);
    check(
        b"d3:cow3:moo4:spam4:eggse",
        BencodeValue::Dict(vec![
            (
                BencodeText::new(b"cow"),
                BencodeValue::Data(BencodeText::new(b"moo")),
            ),
            (
                BencodeText::new(b"spam"),
                BencodeValue::Data(BencodeText::new(b"eggs")),
            ),
        ]),
        0,
    );
    check(
        b"d9:publisher3:bob17:publisher-webpage15:www.example.com18:publisher.location4:homee",
        BencodeValue::Dict(vec![
            (
                BencodeText::new(b"publisher"),
                BencodeValue::Data(BencodeText::new(b"bob")),
            ),
            (
                BencodeText::new(b"publisher-webpage"),
                BencodeValue::Data(BencodeText::new(b"www.example.com")),
            ),
            (
                BencodeText::new(b"publisher.location"),
                BencodeValue::Data(BencodeText::new(b"home")),
            ),
        ]),
        0,
    );
    check(
        b"d3:foolee",
        BencodeValue::Dict(vec![(BencodeText::new(b"foo"), BencodeValue::List(vec![]))]),
        0,
    );
    check(
        b"d3:fooli42ee3:bari-8ee",
        BencodeValue::Dict(vec![
            (BencodeText::new(b"bar"), BencodeValue::Integer(-8)),
            (
                BencodeText::new(b"foo"),
                BencodeValue::List(vec![BencodeValue::Integer(42)]),
            ),
        ]),
        0,
    );
}

#[test]
fn test_bencode_test_parse_dict_invalid() {
    check_err("d", "Dict miss end tag: []");
    check_err("d3:foode", "Dict miss end tag: []");
    check_err("dlee", "String num is not a number=108: [108, 101, 101]");
    check_err("d3:fooe", "Invalid Bencode content: [101]");
}
