use zung::encode::Serializer;
use zung::decode::Deserializer;
use zung::value::insert_entry;
use zung::{decode, encode, parse, ErrorKind, Value, ValueInput};

fn text(s: &str) -> Value {
    Value::String(s.to_string())
}

#[test]
fn test_deserialize_integer() {
    let input = "i42e";
    let result = parse(ValueInput::from(input)).unwrap();
    assert_eq!(result, Value::Integer(42));
}

#[test]
fn test_deserialize_string() {
    let input = "4:spam";
    let result = parse(ValueInput::from(input)).unwrap();
    assert_eq!(result, text("spam"));
}

#[test]
fn test_deserialize_list() {
    let input = "l4:spam4:eggse";
    let result = parse(ValueInput::from(input)).unwrap();
    assert_eq!(result, Value::List(vec![text("spam"), text("eggs")]));
}

#[test]
fn test_deserialize_dict() {
    let input = "d3:cow3:moo4:spam4:eggse";
    let result = parse(ValueInput::from(input)).unwrap();
    assert_eq!(result.get_from_dictionary("cow"), Some(&text("moo")));
    assert_eq!(result.get_from_dictionary("spam"), Some(&text("eggs")));
}

#[test]
fn test_deserialize_invalid_input() {
    let input = "x42e";
    let result = parse(ValueInput::from(input));
    assert!(result.is_err());
}

#[test]
fn test_deserialize_nested_list() {
    let input = "ll4:spam4:eggsel3:ham5:baconee";
    let result = parse(ValueInput::from(input)).unwrap();
    assert_eq!(
        result,
        Value::List(vec![
            Value::List(vec![text("spam"), text("eggs")]),
            Value::List(vec![text("ham"), text("bacon")]),
        ])
    );
}

#[test]
fn test_deserialize_nested_dict() {
    let input = "d3:cowd3:moo4:oinkee";
    let result = parse(ValueInput::from(input)).unwrap();
    let inner = Value::Dictionary(vec![("moo".to_string(), text("oink"))]);
    assert_eq!(result, Value::Dictionary(vec![("cow".to_string(), inner)]));
}

#[test]
fn test_parse_string() {
    let bencode = parse(ValueInput::from("5:hello")).unwrap();
    assert_eq!(text("hello"), bencode);

    let bencode_err = parse(ValueInput::from(b"10:hello"));
    assert!(bencode_err.is_err());
    assert_eq!(
        "Invalid string bencode format: length is higher than the remaining bytes",
        bencode_err.unwrap_err().message()
    );

    let bencode_err = parse(ValueInput::from(b"1d0:hello"));
    assert!(bencode_err.is_err());
    assert_eq!(
        "Non Digit character found in the length of the string: 'd'",
        bencode_err.unwrap_err().message()
    );
}

#[test]
fn test_parse_integer() {
    let bencode = parse(ValueInput::from(b"i21e")).unwrap();
    assert_eq!(Value::Integer(21), bencode);

    let bencode = parse(ValueInput::from(b"i-21e")).unwrap();
    assert_eq!(Value::Integer(-21), bencode);

    let bencode_err = parse(ValueInput::from(b"i32je"));
    assert!(bencode_err.is_err());
    assert_eq!("Invalid character in bencode integer", bencode_err.unwrap_err().message());

    let bencode_err = parse(ValueInput::from(b"ie"));
    assert!(bencode_err.is_err());
    assert_eq!("Invalid bencode integer format: empty integer", bencode_err.unwrap_err().message());

    let bencode_err = parse(ValueInput::from(b"i004e"));
    assert!(bencode_err.is_err());
    assert_eq!(
        "Invalid integer bencode integer format: leading zeros",
        bencode_err.unwrap_err().message()
    );
}

#[test]
fn parse_list() {
    let bencode = parse(ValueInput::from("li32ei42ei52e5:helloe")).unwrap();
    assert_eq!(
        Value::List(vec![Value::Integer(32), Value::Integer(42), Value::Integer(52), text("hello")]),
        bencode
    );

    let bencode_err = parse(ValueInput::from(b"li32ei42ei52e5:hello"));
    assert!(bencode_err.is_err());
    assert_eq!("Invalid list format: missing 'e'", bencode_err.unwrap_err().message());
}

#[test]
fn test_dictionary_bencode() {
    let bencode = parse(ValueInput::from("d3:cow3:moo4:spam4:eggse")).unwrap();
    let dictionary = vec![("cow".to_string(), text("moo")), ("spam".to_string(), text("eggs"))];
    assert_eq!(bencode, Value::Dictionary(dictionary));

    let bencode_err = parse(ValueInput::from("di2e3:moo4:spam4:eggse"));
    assert!(bencode_err.is_err());
    assert_eq!("Only string values are allowed as dictionary keys", bencode_err.unwrap_err().message());
}

#[test]
fn invalid_becode() {
    let bencode_err = parse(ValueInput::from("werd"));
    assert!(bencode_err.is_err());
    assert_eq!("Invalid bencode format", bencode_err.unwrap_err().message());
}

#[test]
fn test_empty_input() {
    let bencode = parse(ValueInput::from(""));
    assert!(bencode.is_err());
    assert_eq!("End of stream", bencode.unwrap_err().message());
    assert_eq!(parse(ValueInput::from("")).unwrap_err().kind(), ErrorKind::EndOfStream);
}

#[test]
fn test_valueinput_str() {
    let input: ValueInput = "test".into();
    if let ValueInput::Str(s) = input {
        assert_eq!(s, "test");
    } else {
        panic!("Expected ValueInput::Str");
    }
}

#[test]
fn test_valueinput_array() {
    let input: ValueInput = (&[1, 2, 3]).into();
    if let ValueInput::Bytes(bytes) = input {
        assert_eq!(bytes, &[1, 2, 3]);
    } else {
        panic!("Expected ValueInput::Bytes");
    }
}

#[test]
fn known_vectors_decode() {
    assert_eq!(decode(b"4:spam").unwrap(), text("spam"));
    assert_eq!(decode(b"i42e").unwrap(), Value::Integer(42));
    assert_eq!(decode(b"i-21e").unwrap(), Value::Integer(-21));
    assert_eq!(decode(b"li32ei42ee").unwrap(), Value::List(vec![Value::Integer(32), Value::Integer(42)]));
    assert_eq!(
        decode(b"d3:cow3:mooe").unwrap(),
        Value::Dictionary(vec![("cow".to_string(), text("moo"))])
    );
}

#[test]
fn rejection_vectors_decode() {
    assert_eq!(decode(b"i004e").unwrap_err().kind(), ErrorKind::InvalidType);
    assert_eq!(decode(b"10:hello").unwrap_err().kind(), ErrorKind::InvalidType);
    assert_eq!(decode(b"").unwrap_err().kind(), ErrorKind::EndOfStream);
    assert_eq!(decode(b"1d0:hello").unwrap_err().kind(), ErrorKind::InvalidType);
}

#[test]
fn integer_edge_cases() {
    assert_eq!(decode(b"i0e").unwrap(), Value::Integer(0));
    assert!(decode(b"i-0e").is_err());
    assert!(decode(b"i-e").is_err());
    assert_eq!(decode(b"i9223372036854775807e").unwrap(), Value::Integer(i64::MAX));
    assert_eq!(decode(b"i-9223372036854775808e").unwrap(), Value::Integer(i64::MIN));
    assert_eq!(decode(b"i9223372036854775808e").unwrap_err().kind(), ErrorKind::InvalidValue);
    assert_eq!(decode(b"i42").unwrap_err().kind(), ErrorKind::InvalidValue);
}

#[test]
fn error_messages() {
    assert_eq!(decode(b"d3:abci1e").unwrap_err().message(), "Invalid dictionary format: missing 'e'");
    assert_eq!(decode(b"i1").unwrap_err().message(), "Invalid integer bencode format: missing 'e'");
    assert_eq!(decode(b"li1e1x:").unwrap_err().message(), "Non Digit character found in the length of the string: 'x'");
    assert_eq!(decode(b"l").unwrap_err().message(), "Invalid list format: missing 'e'");
}

#[test]
fn non_utf8_key_is_rejected() {
    assert_eq!(decode(b"d1:\xffi1ee").unwrap_err().kind(), ErrorKind::Custom);
}

#[test]
fn non_ascii_bytes_stay_bytes() {
    assert_eq!(decode(b"2:\xff\x01").unwrap(), Value::Bytes(vec![0xff, 1]));
}

#[test]
fn dictionary_keys_are_sorted_and_last_wins() {
    let v = decode(b"d4:spami1e3:cowi2e4:spami3ee").unwrap();
    assert_eq!(
        v,
        Value::Dictionary(vec![("cow".to_string(), Value::Integer(2)), ("spam".to_string(), Value::Integer(3))])
    );
    assert_eq!(encode(&v), b"d3:cowi2e4:spami3ee".to_vec());
}

#[test]
fn encode_known_values() {
    assert_eq!(encode(&Value::Integer(42)), b"i42e".to_vec());
    assert_eq!(encode(&Value::Integer(-7)), b"i-7e".to_vec());
    assert_eq!(encode(&Value::Integer(i64::MIN)), b"i-9223372036854775808e".to_vec());
    assert_eq!(encode(&text("hello")), b"5:hello".to_vec());
    assert_eq!(encode(&Value::Bytes(vec![])), b"0:".to_vec());
    assert_eq!(
        encode(&Value::List(vec![Value::Integer(1), Value::Integer(2), Value::Integer(3)])),
        b"li1ei2ei3ee".to_vec()
    );
}

#[test]
fn round_trip_nested() {
    let doc: &[u8] = b"d4:infod6:lengthi12e4:name8:file.txte4:listli-3e2:\xff\x00lee3:zzz0:e";
    let v = decode(doc).unwrap();
    assert_eq!(encode(&v), doc.to_vec());
    assert_eq!(decode(&encode(&v)).unwrap(), v);
}

#[test]
fn insertion_order_does_not_change_encoding() {
    let mut a = Vec::new();
    insert_entry(&mut a, "b".to_string(), Value::Integer(1));
    insert_entry(&mut a, "a".to_string(), Value::Integer(2));
    let mut b = Vec::new();
    insert_entry(&mut b, "a".to_string(), Value::Integer(2));
    insert_entry(&mut b, "b".to_string(), Value::Integer(1));
    let ea = encode(&Value::Dictionary(a));
    let eb = encode(&Value::Dictionary(b));
    assert_eq!(ea, eb);
    assert_eq!(ea, b"d1:ai2e1:bi1ee".to_vec());
}

#[test]
fn serializer_appends() {
    let mut s = Serializer::new();
    s.serialize(&Value::Integer(1));
    s.serialize(&text("x"));
    assert_eq!(s.into_vec(), b"i1e1:x".to_vec());
}

#[test]
fn deserializer_walks_siblings() {
    let mut d = Deserializer::from_str("i1e3:abcX");
    assert_eq!(d.next_value().unwrap(), Value::Integer(1));
    assert_eq!(d.next_value().unwrap(), text("abc"));
    assert!(d.next_value().is_err());
    assert_eq!(d.remaining(), b"X");
}

#[test]
fn utf8_text_round_trips() {
    let v = Value::String("é".to_string());
    let b = encode(&v);
    assert_eq!(b, b"2:\xc3\xa9".to_vec());
    assert_eq!(decode(&b).unwrap(), v);
    let nested = decode(b"d5:n\xc3\xa4mel5:caf\xc3\xa9ee").unwrap();
    assert_eq!(decode(&encode(&nested)).unwrap(), nested);
    assert_eq!(nested.get_from_dictionary("näme"), Some(&Value::List(vec![Value::String("café".to_string())])));
}
