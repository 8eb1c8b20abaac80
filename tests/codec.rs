use bencode::{BencodeTypes, DecodeError, Dict, ErrorKind, LookupError, ToJSON, bytes_less};

fn bytes(s: &str) -> Vec<u8> {
    s.as_bytes().to_vec()
}

fn bstr(s: &str) -> BencodeTypes {
    BencodeTypes::ByteString(bytes(s))
}

fn dict(pairs: Vec<(&str, BencodeTypes)>) -> BencodeTypes {
    let mut d = Dict::new();
    for (k, v) in pairs {
        d.insert(bytes(k), v);
    }
    BencodeTypes::Dictionary(d)
}

fn err(kind: ErrorKind, offset: usize) -> DecodeError {
    DecodeError { kind, offset }
}

#[test]
fn decodes_byte_string() {
    let r = BencodeTypes::decode_with_offset(b"5:hello", 0);
    assert_eq!(r, Ok((bstr("hello"), 7)));
}

#[test]
fn decodes_negative_integer() {
    let r = BencodeTypes::decode_with_offset(b"i-42e", 0);
    assert_eq!(r, Ok((BencodeTypes::Integer(-42), 5)));
}

#[test]
fn decodes_zero_and_rejects_negative_zero() {
    assert_eq!(BencodeTypes::decode(bytes("i0e")), Ok(BencodeTypes::Integer(0)));
    let r = BencodeTypes::decode(bytes("i-0e"));
    assert_eq!(r, Err(err(ErrorKind::MalformedInteger, 2)));
}

#[test]
fn decodes_list() {
    let r = BencodeTypes::decode_with_offset(b"li42e3:fooe", 0);
    let expected = BencodeTypes::List(vec![BencodeTypes::Integer(42), bstr("foo")]);
    assert_eq!(r, Ok((expected, 11)));
}

#[test]
fn decodes_dictionary_and_reencodes_identically() {
    let input = b"d3:cow3:moo4:spam4:eggse";
    let (v, n) = BencodeTypes::decode_with_offset(input, 0).unwrap();
    assert_eq!(n, 24);
    assert_eq!(v.get_byte_string("cow"), Ok(bytes("moo")));
    assert_eq!(v.get_byte_string("spam"), Ok(bytes("eggs")));
    assert_eq!(v, dict(vec![("cow", bstr("moo")), ("spam", bstr("eggs"))]));
    assert_eq!(BencodeTypes::encode(&v), input.to_vec());
}

#[test]
fn encoding_ignores_insertion_order() {
    let a = dict(vec![("bar", bstr("baz")), ("foo", bstr("qux"))]);
    let b = dict(vec![("foo", bstr("qux")), ("bar", bstr("baz"))]);
    assert_eq!(BencodeTypes::encode(&a), b"d3:bar3:baz3:foo3:quxe".to_vec());
    assert_eq!(BencodeTypes::encode(&b), b"d3:bar3:baz3:foo3:quxe".to_vec());
}

#[test]
fn unordered_input_is_reencoded_canonically() {
    let v = BencodeTypes::decode(bytes("d1:bi1e1:ai2e2:aai3ee")).unwrap();
    assert_eq!(BencodeTypes::encode(&v), b"d1:ai2e2:aai3e1:bi1ee".to_vec());
}

#[test]
fn nested_dictionaries_are_canonical() {
    let a = dict(vec![
        ("z", dict(vec![("y", BencodeTypes::Integer(1)), ("x", BencodeTypes::Integer(2))])),
        ("a", BencodeTypes::List(vec![])),
    ]);
    let b = dict(vec![
        ("a", BencodeTypes::List(vec![])),
        ("z", dict(vec![("x", BencodeTypes::Integer(2)), ("y", BencodeTypes::Integer(1))])),
    ]);
    assert_eq!(BencodeTypes::encode(&a), BencodeTypes::encode(&b));
    assert_eq!(BencodeTypes::encode(&a), b"d1:ale1:zd1:xi2e1:yi1eee".to_vec());
}

#[test]
fn encoded_keys_ascend() {
    let v = dict(vec![
        ("b", BencodeTypes::Integer(1)),
        ("ab", BencodeTypes::Integer(2)),
        ("a", BencodeTypes::Integer(3)),
        ("\u{7f}", BencodeTypes::Integer(4)),
    ]);
    assert_eq!(BencodeTypes::encode(&v), b"d1:ai3e2:abi2e1:bi1e1:\x7fi4ee".to_vec());
}

#[test]
fn round_trip_keeps_value() {
    let v = dict(vec![
        ("list", BencodeTypes::List(vec![BencodeTypes::Integer(i64::MIN), bstr(""), dict(vec![])])),
        ("max", BencodeTypes::Integer(i64::MAX)),
        ("neg", BencodeTypes::Integer(-7)),
    ]);
    let e = BencodeTypes::encode(&v);
    assert_eq!(BencodeTypes::decode(e.clone()), Ok(v));
}

#[test]
fn consumption_stops_at_value_end() {
    let v = BencodeTypes::List(vec![bstr("spam"), BencodeTypes::Integer(3)]);
    let mut e = BencodeTypes::encode(&v);
    let len = e.len();
    e.extend_from_slice(b"i9e trailing");
    let (w, n) = BencodeTypes::decode_with_offset(&e, 0).unwrap();
    assert_eq!(n, len);
    assert_eq!(w, v);
    assert_eq!(&e[n..], b"i9e trailing");
    assert_eq!(BencodeTypes::decode_with_offset(&e, n), Ok((BencodeTypes::Integer(9), 3)));
}

#[test]
fn every_byte_value_survives() {
    let all: Vec<u8> = (0..=255u8).collect();
    let v = BencodeTypes::ByteString(all.clone());
    let e = BencodeTypes::encode(&v);
    assert_eq!(&e[..4], b"256:");
    assert_eq!(BencodeTypes::decode_with_offset(&e, 0), Ok((BencodeTypes::ByteString(all), 260)));
}

#[test]
fn empty_values() {
    assert_eq!(BencodeTypes::decode_with_offset(b"0:", 0), Ok((bstr(""), 2)));
    assert_eq!(BencodeTypes::decode_with_offset(b"le", 0), Ok((BencodeTypes::List(vec![]), 2)));
    assert_eq!(BencodeTypes::decode_with_offset(b"de", 0), Ok((dict(vec![]), 2)));
    assert_eq!(BencodeTypes::encode(&bstr("")), b"0:".to_vec());
}

#[test]
fn integer_limits() {
    assert_eq!(
        BencodeTypes::decode(bytes("i-9223372036854775808e")),
        Ok(BencodeTypes::Integer(i64::MIN))
    );
    assert_eq!(
        BencodeTypes::decode(bytes("i9223372036854775807e")),
        Ok(BencodeTypes::Integer(i64::MAX))
    );
    assert_eq!(
        BencodeTypes::decode(bytes("i9223372036854775808e")),
        Err(err(ErrorKind::MalformedInteger, 1))
    );
    assert_eq!(
        BencodeTypes::decode(bytes("i-99999999999999999999999e")),
        Err(err(ErrorKind::MalformedInteger, 2))
    );
    assert_eq!(BencodeTypes::encode(&BencodeTypes::Integer(i64::MIN)), b"i-9223372036854775808e".to_vec());
}

#[test]
fn truncated_inputs() {
    assert_eq!(BencodeTypes::decode(vec![]), Err(err(ErrorKind::Truncated, 0)));
    assert_eq!(BencodeTypes::decode(bytes("i42")), Err(err(ErrorKind::Truncated, 3)));
    assert_eq!(BencodeTypes::decode(bytes("12")), Err(err(ErrorKind::Truncated, 2)));
    assert_eq!(BencodeTypes::decode(bytes("li1e")), Err(err(ErrorKind::Truncated, 4)));
    assert_eq!(BencodeTypes::decode(bytes("d1:a")), Err(err(ErrorKind::Truncated, 4)));
    assert_eq!(BencodeTypes::decode_with_offset(b"i1e", 9), Err(err(ErrorKind::Truncated, 3)));
}

#[test]
fn malformed_integers() {
    assert_eq!(BencodeTypes::decode(bytes("i12x4e")), Err(err(ErrorKind::MalformedInteger, 3)));
    assert_eq!(BencodeTypes::decode(bytes("i03e")), Err(err(ErrorKind::MalformedInteger, 1)));
    assert_eq!(BencodeTypes::decode(bytes("ie")), Err(err(ErrorKind::MalformedInteger, 1)));
    assert_eq!(BencodeTypes::decode(bytes("i-e")), Err(err(ErrorKind::MalformedInteger, 2)));
    assert_eq!(BencodeTypes::decode(bytes("i+3e")), Err(err(ErrorKind::MalformedInteger, 1)));
}

#[test]
fn malformed_lengths() {
    assert_eq!(BencodeTypes::decode(bytes("5:abc")), Err(err(ErrorKind::MalformedLength, 0)));
    assert_eq!(BencodeTypes::decode(bytes("3x:abc")), Err(err(ErrorKind::MalformedLength, 1)));
    assert_eq!(
        BencodeTypes::decode(bytes("99999999999999999999999:a")),
        Err(err(ErrorKind::MalformedLength, 0))
    );
    assert_eq!(BencodeTypes::decode(bytes("l4:abe")), Err(err(ErrorKind::MalformedLength, 1)));
    assert_eq!(BencodeTypes::decode(bytes("l3:abe")), Err(err(ErrorKind::Truncated, 6)));
}

#[test]
fn unexpected_bytes() {
    assert_eq!(BencodeTypes::decode(bytes("x")), Err(err(ErrorKind::UnexpectedByte, 0)));
    assert_eq!(BencodeTypes::decode(bytes("e")), Err(err(ErrorKind::UnexpectedByte, 0)));
    assert_eq!(BencodeTypes::decode(bytes("li1ez")), Err(err(ErrorKind::UnexpectedByte, 4)));
    assert_eq!(BencodeTypes::decode(bytes("d1:ae")), Err(err(ErrorKind::UnexpectedByte, 4)));
}

#[test]
fn non_byte_string_keys() {
    assert_eq!(BencodeTypes::decode(bytes("di1ei2ee")), Err(err(ErrorKind::NonByteStringKey, 1)));
    assert_eq!(BencodeTypes::decode(bytes("d1:ai1eli1eei2ee")), Err(err(ErrorKind::NonByteStringKey, 7)));
}

#[test]
fn duplicate_keys() {
    assert_eq!(BencodeTypes::decode(bytes("d1:ai1e1:ai2ee")), Err(err(ErrorKind::DuplicateKey, 7)));
}

#[test]
fn error_offsets_stay_within_input() {
    let inputs: Vec<&[u8]> = vec![b"", b"i", b"i-", b"5:ab", b"l", b"d", b"d1:", b"lli", b"dd", b"q"];
    for input in inputs {
        match BencodeTypes::decode_with_offset(input, 0) {
            Ok(_) => panic!("accepted {:?}", input),
            Err(e) => assert!(e.offset <= input.len()),
        }
    }
}

#[test]
fn accessors_report_failures() {
    let v = dict(vec![
        ("n", BencodeTypes::Integer(5)),
        ("s", bstr("x")),
        ("l", BencodeTypes::List(vec![BencodeTypes::Integer(1)])),
        ("d", dict(vec![("k", bstr("v"))])),
    ]);
    assert_eq!(v.get_integer("n"), Ok(5));
    assert_eq!(v.get_byte_string("s"), Ok(bytes("x")));
    assert_eq!(v.get_list("l"), Ok(&BencodeTypes::List(vec![BencodeTypes::Integer(1)])));
    assert_eq!(v.get_dict("d").unwrap().get_byte_string("k"), Ok(bytes("v")));
    assert_eq!(v.get_integer("s"), Err(LookupError::WrongVariant));
    assert_eq!(v.get_byte_string("n"), Err(LookupError::WrongVariant));
    assert_eq!(v.get_dict("l"), Err(LookupError::WrongVariant));
    assert_eq!(v.get_list("d"), Err(LookupError::WrongVariant));
    assert_eq!(v.get_integer("missing"), Err(LookupError::MissingKey));
    assert_eq!(BencodeTypes::Integer(1).get_integer("n"), Err(LookupError::NotADictionary));
    assert_eq!(v.get(b"n"), Ok(&BencodeTypes::Integer(5)));
}

#[test]
fn dictionary_insert_replaces() {
    let mut d = Dict::new();
    assert_eq!(d.len(), 0);
    d.insert(bytes("k"), BencodeTypes::Integer(1));
    d.insert(bytes("j"), BencodeTypes::Integer(2));
    d.insert(bytes("k"), BencodeTypes::Integer(3));
    assert_eq!(d.len(), 2);
    assert_eq!(d.get(b"k"), Some(&BencodeTypes::Integer(3)));
    assert_eq!(d.get(b"j"), Some(&BencodeTypes::Integer(2)));
    assert_eq!(d.get(b"x"), None);
    let v = BencodeTypes::Dictionary(d);
    assert_eq!(BencodeTypes::encode(&v), b"d1:ji2e1:ki3ee".to_vec());
}

#[test]
fn byte_order_is_unsigned_and_prefix_first() {
    assert!(bytes_less(b"a", b"b"));
    assert!(bytes_less(b"ab", b"abc"));
    assert!(!bytes_less(b"abc", b"ab"));
    assert!(bytes_less(b"\x7f", b"\x80"));
    assert!(!bytes_less(b"same", b"same"));
    assert!(bytes_less(b"", b"\x00"));
}

#[test]
fn json_projection() {
    let v = dict(vec![
        ("spam", BencodeTypes::List(vec![BencodeTypes::Integer(-3), bstr("eggs")])),
        ("cow", BencodeTypes::ByteString(vec![b'm', 0xff, b'o'])),
    ]);
    let j = v.serialize_to_json();
    assert_eq!(j.to_string(), "{\"cow\":\"m\u{fffd}o\",\"spam\":[-3,\"eggs\"]}");
}

#[test]
fn parses_text_input() {
    assert_eq!(BencodeTypes::parse("l4:spami7ee"), Ok(BencodeTypes::List(vec![bstr("spam"), BencodeTypes::Integer(7)])));
    assert_eq!(BencodeTypes::parse("i7"), Err(err(ErrorKind::Truncated, 2)));
}

#[test]
fn json_trait_matches_projection() {
    let v = BencodeTypes::List(vec![BencodeTypes::Integer(1), bstr("a")]);
    assert_eq!(v.serialize(), v.serialize_to_json());
    assert_eq!(v.serialize().to_string(), "[1,\"a\"]");
}

#[test]
fn hex_text() {
    assert_eq!(bencode::to_hex(&[0x00, 0x9f, 0xab, 0x10]), "009fab10");
    assert_eq!(bencode::to_hex(&[]), "");
}

#[test]
fn json_keys_that_collide_keep_the_later_entry() {
    let mut d = Dict::new();
    d.insert(vec![0xff], BencodeTypes::Integer(2));
    d.insert(vec![0xfe], BencodeTypes::Integer(1));
    let v = BencodeTypes::Dictionary(d);
    assert_eq!(v.serialize_to_json().to_string(), "{\"\u{fffd}\":2}");
}

#[test]
fn clone_is_deep_and_equal() {
    let v = dict(vec![("a", BencodeTypes::List(vec![bstr("x"), dict(vec![("k", BencodeTypes::Integer(1))])]))]);
    let c = v.clone();
    assert_eq!(c, v);
    assert_eq!(BencodeTypes::encode(&c), BencodeTypes::encode(&v));
}
