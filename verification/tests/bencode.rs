use victoria::bencode::{decode_bytes, put, value_end, BencodeValue};

fn decode(text: &str) -> Result<(Option<BencodeValue>, usize), String> {
    BencodeValue::from_bytes(text.as_bytes())
}

fn fails(text: &str, error: &str) {
    assert_eq!(decode(text).err().as_deref(), Some(error));
}

fn round_trip(text: &str) {
    let (value, end) = decode(text).unwrap();
    assert_eq!(end, text.len());
    assert_eq!(value.unwrap().to_bytes(), text.as_bytes());
}

#[test]
fn integers_decode() {
    let (value, end) = decode("i-42e").unwrap();
    assert!(matches!(value, Some(BencodeValue::Integer(-42))));
    assert_eq!(end, 5);
}

#[test]
fn strings_decode() {
    let (value, end) = decode("4:spam!").unwrap();
    assert_eq!(end, 6);
    match value {
        Some(BencodeValue::ByteString(bytes)) => assert_eq!(bytes, b"spam"),
        other => panic!("{other:?}"),
    }
}

#[test]
fn an_end_is_no_value() {
    let (value, end) = decode("e").unwrap();
    assert!(value.is_none());
    assert_eq!(end, 1);
}

#[test]
fn values_round_trip() {
    round_trip("i0e");
    round_trip("i-9223372036854775808e");
    round_trip("0:");
    round_trip("le");
    round_trip("de");
    round_trip("d1:ai1e1:bl4:spami-7eee");
    round_trip("ld1:xdeed1:yleel0:ee");
}

#[test]
fn later_entries_replace_earlier_ones() {
    let (value, _) = decode("d1:ai1e1:ai2ee").unwrap();
    let value = value.unwrap();
    assert_eq!(value.as_dict().unwrap().len(), 1);
    assert_eq!(value.get("a").unwrap().unsigned("a"), Ok(2));
}

#[test]
fn broken_values_are_refused() {
    fails("", "Unexpected end");
    fails("x", "Unexpected byte");
    fails("ie", "Invalid integer");
    fails("i12", "Invalid integer");
    fails("i9223372036854775808e", "Integer out of range");
    fails("5:spam", "Unexpected end of string");
    fails("5spam", "Invalid string length");
    fails("99999999999999999999:x", "Unexpected end of string");
    fails("li1e", "Unexpected end");
    fails("d1:a", "Unexpected end");
    fails("d1:ae", "Missing value");
    assert_eq!(
        BencodeValue::from_bytes(b"d1:\xffi1ee").err().as_deref(),
        Some("Key is not UTF-8")
    );
}

#[test]
fn entries_are_found_and_checked() {
    let (value, _) = decode("d4:name4:test3:numi7e3:negi-1ee").unwrap();
    let value = value.unwrap();
    assert_eq!(value.required("name").unwrap().string("name"), Ok("test".to_owned()));
    assert_eq!(value.required("other").err().as_deref(), Some("Missing key other"));
    assert_eq!(value.optional_unsigned("num"), Ok(Some(7)));
    assert_eq!(value.optional_unsigned("none"), Ok(None));
    assert_eq!(
        value.optional_unsigned("neg"),
        Err("neg must be an unsigned integer".to_owned())
    );
    assert_eq!(value.optional_string("name"), Ok(Some("test".to_owned())));
    assert_eq!(value.optional_string("none"), Ok(None));
    assert_eq!(value.optional_string("num"), Err("num must be a UTF-8 string".to_owned()));
    assert_eq!(
        value.get("num").unwrap().byte_string("num").err().as_deref(),
        Some("num must be a byte string")
    );
    assert_eq!(value.get("name").unwrap().byte_string("name").unwrap(), b"test");
    assert!(value.get("num").unwrap().as_dict().is_none());
}

#[test]
fn text_is_decoded_from_utf8() {
    let bytes = "6:h\u{e9}ll\u{f6}";
    let (value, _) = BencodeValue::from_bytes(&[b"7:", "h\u{e9}ll\u{f6}".as_bytes()].concat()).unwrap();
    assert_eq!(value.unwrap().string("s"), Ok("h\u{e9}ll\u{f6}".to_owned()));
    assert!(decode(bytes).unwrap().0.unwrap().string("s").is_err());
}

#[test]
fn raw_strings_and_ends_are_found() {
    assert_eq!(decode_bytes(b"xx3:abcd", 2), Ok((b"abc".to_vec(), 7)));
    assert_eq!(decode_bytes(b"3abc", 0), Err("Invalid string length".to_owned()));
    assert_eq!(value_end(b"li1ei2eetail", 0), Some(8));
    assert_eq!(value_end(b"li1e", 0), None);
}

#[test]
fn putting_replaces_or_appends() {
    let mut pairs = Vec::new();
    put(&mut pairs, "a".to_owned(), BencodeValue::Integer(1));
    put(&mut pairs, "b".to_owned(), BencodeValue::Integer(2));
    put(&mut pairs, "a".to_owned(), BencodeValue::Integer(3));
    assert_eq!(BencodeValue::Dictionary(pairs).to_bytes(), b"d1:ai3e1:bi2ee");
}
