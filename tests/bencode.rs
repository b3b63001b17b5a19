use bittorrent::bendecoder::{decode_bencoded_value, Bencode, DecodeError, Dict};

fn decode_all(input: &[u8]) -> Bencode {
    let (value, rest) = decode_bencoded_value(input).expect("valid bencode");
    assert!(rest.is_empty());
    value
}

fn dict(entries: Vec<(&[u8], Bencode)>) -> Dict {
    let mut d = Dict::new();
    for (k, v) in entries {
        d.insert(k.to_vec(), v);
    }
    d
}

#[test]
fn decodes_positive_integer() {
    assert_eq!(decode_all(b"i42e"), Bencode::Integer(42));
}

#[test]
fn decodes_negative_and_extreme_integers() {
    assert_eq!(decode_all(b"i-7e"), Bencode::Integer(-7));
    assert_eq!(decode_all(b"i-9223372036854775808e"), Bencode::Integer(i64::MIN));
    assert_eq!(decode_all(b"i9223372036854775807e"), Bencode::Integer(i64::MAX));
}

#[test]
fn rejects_malformed_integers() {
    for bad in [&b"i9223372036854775808e"[..], b"ie", b"i-e", b"i12", b"i1x2e"] {
        assert_eq!(decode_bencoded_value(bad).unwrap_err(), DecodeError::InvalidInteger);
    }
}

#[test]
fn decodes_byte_strings() {
    assert_eq!(decode_all(b"5:hello"), Bencode::String(b"hello".to_vec()));
    assert_eq!(decode_all(b"0:"), Bencode::String(Vec::new()));
    assert_eq!(decode_all(b"3:\xff\x00\x01"), Bencode::String(vec![255, 0, 1]));
}

#[test]
fn rejects_truncated_and_unterminated_strings() {
    assert_eq!(decode_bencoded_value(b"5:hel").unwrap_err(), DecodeError::TruncatedString);
    assert_eq!(
        decode_bencoded_value(b"99999999999999999999999:x").unwrap_err(),
        DecodeError::TruncatedString
    );
    assert_eq!(decode_bencoded_value(b"5hello").unwrap_err(), DecodeError::InvalidLength);
}

#[test]
fn decodes_lists() {
    assert_eq!(
        decode_all(b"l4:spami42ee"),
        Bencode::List(vec![Bencode::String(b"spam".to_vec()), Bencode::Integer(42)])
    );
    assert_eq!(decode_all(b"le"), Bencode::List(Vec::new()));
}

#[test]
fn reports_end_of_input_and_bad_bytes() {
    assert_eq!(decode_bencoded_value(b"").unwrap_err(), DecodeError::UnexpectedEnd);
    assert_eq!(decode_bencoded_value(b"l4:spam").unwrap_err(), DecodeError::UnexpectedEnd);
    assert_eq!(decode_bencoded_value(b"d3:key").unwrap_err(), DecodeError::UnexpectedEnd);
    assert_eq!(decode_bencoded_value(b"x").unwrap_err(), DecodeError::UnexpectedByte);
}

#[test]
fn rejects_non_string_dictionary_keys() {
    assert_eq!(decode_bencoded_value(b"di1ei2ee").unwrap_err(), DecodeError::NonStringKey);
    assert_eq!(decode_bencoded_value(b"dlei2ee").unwrap_err(), DecodeError::NonStringKey);
}

#[test]
fn hands_back_what_follows_a_value() {
    let (value, rest) = decode_bencoded_value(b"i1ei2e").unwrap();
    assert_eq!(value, Bencode::Integer(1));
    assert_eq!(rest, b"i2e");
}

#[test]
fn dictionaries_are_reencoded_in_key_order() {
    let value = decode_all(b"d3:zzzi1e3:aaai2e1:m0:e");
    assert_eq!(value.encode(), b"d3:aaai2e1:m0:3:zzzi1ee".to_vec());
}

#[test]
fn later_duplicate_key_wins() {
    let value = decode_all(b"d1:ai1e1:ai2ee");
    assert_eq!(value.encode(), b"d1:ai2ee".to_vec());
}

#[test]
fn dictionary_lookup() {
    let d = dict(vec![(b"b", Bencode::Integer(2)), (b"a", Bencode::Integer(1))]);
    assert_eq!(d.len(), 2);
    assert_eq!(d.get(b"a"), Some(&Bencode::Integer(1)));
    assert_eq!(d.get(b"b"), Some(&Bencode::Integer(2)));
    assert_eq!(d.get(b"c"), None);
    let keys: Vec<Vec<u8>> = d.entries().iter().map(|(k, _)| k.clone()).collect();
    assert_eq!(keys, vec![b"a".to_vec(), b"b".to_vec()]);
}

#[test]
fn encodes_each_kind() {
    assert_eq!(Bencode::Integer(0).encode(), b"i0e".to_vec());
    assert_eq!(Bencode::Integer(-42).encode(), b"i-42e".to_vec());
    assert_eq!(Bencode::Integer(i64::MIN).encode(), b"i-9223372036854775808e".to_vec());
    assert_eq!(Bencode::String(b"spam".to_vec()).encode(), b"4:spam".to_vec());
    assert_eq!(
        Bencode::List(vec![Bencode::Integer(1), Bencode::String(Vec::new())]).encode(),
        b"li1e0:e".to_vec()
    );
}

#[test]
fn round_trip_of_a_nested_value() {
    let inner = dict(vec![
        (b"zeta", Bencode::List(vec![Bencode::Integer(-1), Bencode::String(vec![0, 255])])),
        (b"alpha", Bencode::Integer(i64::MAX)),
    ]);
    let value = Bencode::List(vec![
        Bencode::Dictionary(inner),
        Bencode::String(b"x".repeat(300)),
        Bencode::List(Vec::new()),
        Bencode::Dictionary(Dict::new()),
    ]);
    let bytes = value.encode();
    let (back, rest) = decode_bencoded_value(&bytes).unwrap();
    assert!(rest.is_empty());
    assert_eq!(back, value);
}

#[test]
fn construction_order_does_not_change_the_encoding() {
    let one = dict(vec![
        (b"pieces", Bencode::Integer(3)),
        (b"length", Bencode::Integer(1)),
        (b"name", Bencode::Integer(2)),
    ]);
    let two = dict(vec![
        (b"name", Bencode::Integer(2)),
        (b"pieces", Bencode::Integer(3)),
        (b"length", Bencode::Integer(1)),
    ]);
    let a = Bencode::Dictionary(one).encode();
    let b = Bencode::Dictionary(two).encode();
    assert_eq!(a, b);
    assert_eq!(a, b"d6:lengthi1e4:namei2e6:piecesi3ee".to_vec());
}

#[test]
fn display_form_of_values() {
    let value = decode_all(b"d3:fool3:bari-52ee5:emptyle1:xi0ee");
    assert_eq!(value.to_string(), r#"{"empty":[],"foo":["bar",-52],"x":0}"#);
    assert_eq!(Bencode::String(vec![0xff, 0x01]).to_string(), r#""ff01""#);
    assert_eq!(Bencode::Integer(i64::MIN).to_string(), "-9223372036854775808");
}
