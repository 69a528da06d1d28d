use btleech::bencoding::decoder::{decode, DecodeError};
use btleech::bencoding::encoder::encode;
use btleech::bencoding::Bencode;

fn bytes(text: &str) -> Bencode {
    Bencode::Bytes(text.as_bytes().to_vec())
}

#[test]
fn decodes_and_reencodes_a_dictionary() {
    let input = b"d3:cow3:moo4:spam4:eggse";
    let (value, rest) = decode(input).unwrap();
    let expected = Bencode::Dict(vec![
        (b"cow".to_vec(), bytes("moo")),
        (b"spam".to_vec(), bytes("eggs")),
    ]);
    assert_eq!(value, expected);
    assert!(rest.is_empty());
    let encoded = encode(&value);
    assert_eq!(encoded.len(), 24);
    assert_eq!(encoded, input.to_vec());
}

#[test]
fn encodes_each_kind() {
    assert_eq!(encode(&Bencode::Int(0)), b"i0e".to_vec());
    assert_eq!(encode(&Bencode::Int(-42)), b"i-42e".to_vec());
    assert_eq!(encode(&Bencode::Int(i64::MIN)), b"i-9223372036854775808e".to_vec());
    assert_eq!(encode(&Bencode::Int(i64::MAX)), b"i9223372036854775807e".to_vec());
    assert_eq!(encode(&bytes("")), b"0:".to_vec());
    assert_eq!(encode(&bytes("spam")), b"4:spam".to_vec());
    assert_eq!(encode(&Bencode::List(vec![])), b"le".to_vec());
    assert_eq!(
        encode(&Bencode::List(vec![Bencode::Int(1), bytes("a"), Bencode::List(vec![])])),
        b"li1e1:alee".to_vec()
    );
    assert_eq!(encode(&Bencode::Dict(vec![])), b"de".to_vec());
}

#[test]
fn decodes_each_kind_and_leaves_the_rest() {
    let (value, rest) = decode(b"i-7exyz").unwrap();
    assert_eq!(value, Bencode::Int(-7));
    assert_eq!(rest, b"xyz");
    let (value, rest) = decode(b"3:abcd").unwrap();
    assert_eq!(value, bytes("abc"));
    assert_eq!(rest, b"d");
    let (value, rest) = decode(b"l1:ai2eei0e").unwrap();
    assert_eq!(value, Bencode::List(vec![bytes("a"), Bencode::Int(2)]));
    assert_eq!(rest, b"i0e");
    let (value, rest) = decode(b"d1:ad1:bleeee").unwrap();
    assert_eq!(
        value,
        Bencode::Dict(vec![(
            b"a".to_vec(),
            Bencode::Dict(vec![(b"b".to_vec(), Bencode::List(vec![]))])
        )])
    );
    assert_eq!(rest, b"e");
    let (value, _) = decode(b"i-9223372036854775808e").unwrap();
    assert_eq!(value, Bencode::Int(i64::MIN));
}

#[test]
fn round_trip_on_a_nested_value() {
    let value = Bencode::Dict(vec![
        (b"a".to_vec(), Bencode::List(vec![Bencode::Int(-1), bytes("x")])),
        (b"ab".to_vec(), Bencode::Dict(vec![(b"".to_vec(), Bencode::Int(5))])),
        (b"b".to_vec(), Bencode::Bytes(vec![0x00, 0xff])),
    ]);
    let encoded = encode(&value);
    let (decoded, rest) = decode(&encoded).unwrap();
    assert_eq!(decoded, value);
    assert!(rest.is_empty());
    assert_eq!(encode(&decoded), encoded);
}

#[test]
fn truncated_input() {
    assert_eq!(decode(b"").unwrap_err(), DecodeError::Truncated);
    assert_eq!(decode(b"i12").unwrap_err(), DecodeError::Truncated);
    assert_eq!(decode(b"i").unwrap_err(), DecodeError::Truncated);
    assert_eq!(decode(b"5:ab").unwrap_err(), DecodeError::Truncated);
    assert_eq!(decode(b"5").unwrap_err(), DecodeError::Truncated);
    assert_eq!(decode(b"l").unwrap_err(), DecodeError::Truncated);
    assert_eq!(decode(b"li1e").unwrap_err(), DecodeError::Truncated);
    assert_eq!(decode(b"d1:a").unwrap_err(), DecodeError::Truncated);
    assert_eq!(decode(b"99999999999999999999999999:a").unwrap_err(), DecodeError::Truncated);
}

#[test]
fn syntax_errors() {
    assert_eq!(decode(b"x").unwrap_err(), DecodeError::Syntax);
    assert_eq!(decode(b"e").unwrap_err(), DecodeError::Syntax);
    assert_eq!(decode(b"ie").unwrap_err(), DecodeError::Syntax);
    assert_eq!(decode(b"i-e").unwrap_err(), DecodeError::Syntax);
    assert_eq!(decode(b"i-0e").unwrap_err(), DecodeError::Syntax);
    assert_eq!(decode(b"i00e").unwrap_err(), DecodeError::Syntax);
    assert_eq!(decode(b"i03e").unwrap_err(), DecodeError::Syntax);
    assert_eq!(decode(b"i-03e").unwrap_err(), DecodeError::Syntax);
    assert_eq!(decode(b"i+3e").unwrap_err(), DecodeError::Syntax);
    assert_eq!(decode(b"i1x").unwrap_err(), DecodeError::Syntax);
    assert_eq!(decode(b"i9223372036854775808e").unwrap_err(), DecodeError::Syntax);
    assert_eq!(decode(b"i-9223372036854775809e").unwrap_err(), DecodeError::Syntax);
    assert_eq!(decode(b"01:a").unwrap_err(), DecodeError::Syntax);
    assert_eq!(decode(b"1a").unwrap_err(), DecodeError::Syntax);
    assert_eq!(decode(b"d?e").unwrap_err(), DecodeError::Syntax);
}

#[test]
fn dictionary_keys_must_be_byte_strings_in_ascending_order() {
    assert_eq!(decode(b"di1e1:ae").unwrap_err(), DecodeError::NotBytesKey);
    assert_eq!(decode(b"dle1:ae").unwrap_err(), DecodeError::NotBytesKey);
    assert_eq!(decode(b"dde1:ae").unwrap_err(), DecodeError::NotBytesKey);
    assert_eq!(decode(b"d1:bi1e1:ai2ee").unwrap_err(), DecodeError::KeyOrder);
    assert_eq!(decode(b"d1:ai1e1:ai2ee").unwrap_err(), DecodeError::KeyOrder);
    assert_eq!(decode(b"d2:abi1e1:ai2ee").unwrap_err(), DecodeError::KeyOrder);
    assert!(decode(b"d1:ai1e2:abi2ee").is_ok());
}

#[test]
fn get_finds_the_value_under_a_key() {
    let (value, _) = decode(b"d3:cow3:moo4:spam4:eggse").unwrap();
    assert_eq!(value.get(b"spam"), Some(&bytes("eggs")));
    assert_eq!(value.get(b"cow"), Some(&bytes("moo")));
    assert_eq!(value.get(b"co"), None);
    assert_eq!(Bencode::Int(3).get(b"cow"), None);
}

#[test]
fn well_formed_values_have_ascending_keys_throughout() {
    let (decoded, _) = decode(b"d1:ad1:bi1e1:ci2ee1:blee").unwrap();
    assert!(decoded.is_wf());
    assert!(Bencode::Int(1).is_wf());
    assert!(bytes("x").is_wf());
    assert!(Bencode::List(vec![]).is_wf());
    assert!(Bencode::Dict(vec![]).is_wf());
    assert!(Bencode::Dict(vec![(b"a".to_vec(), Bencode::Int(1))]).is_wf());
    let unsorted = Bencode::Dict(vec![
        (b"b".to_vec(), Bencode::Int(1)),
        (b"a".to_vec(), Bencode::Int(2)),
    ]);
    assert!(!unsorted.is_wf());
    let repeated = Bencode::Dict(vec![
        (b"a".to_vec(), Bencode::Int(1)),
        (b"a".to_vec(), Bencode::Int(2)),
    ]);
    assert!(!repeated.is_wf());
    assert!(!Bencode::List(vec![Bencode::Int(1), repeated]).is_wf());
    let inside = Bencode::Dict(vec![(b"k".to_vec(), unsorted)]);
    assert!(!inside.is_wf());
    let sorted = Bencode::dict()
        .insert(b"b".to_vec(), Bencode::Int(1))
        .insert(b"a".to_vec(), Bencode::Int(2));
    assert!(sorted.is_wf());
    assert_eq!(encode(&sorted), b"d1:ai2e1:bi1ee".to_vec());
}
