use torrent_crab::bencode::{Value, MAX_DEPTH};
use torrent_crab::Error;

#[test]
fn test_decode_integer() {
    let data = b"i42e";
    let value = Value::decode(data).unwrap();
    assert_eq!(value, Value::Int(42));
}

#[test]
fn test_decode_string() {
    let data = b"4:spam";
    let value = Value::decode(data).unwrap();
    assert_eq!(value, Value::Bytes(b"spam".to_vec()));
}

#[test]
fn test_decode_list() {
    let data = b"l4:spami42ee";
    let value = Value::decode(data).unwrap();
    if let Value::List(list) = value {
        assert_eq!(list.len(), 2);
        assert_eq!(list[0], Value::Bytes(b"spam".to_vec()));
        assert_eq!(list[1], Value::Int(42));
    } else {
        panic!("Expected list");
    }
}

#[test]
fn test_encode_decode_roundtrip() {
    let original = Value::Int(123);
    let encoded = original.encode().unwrap();
    let decoded = Value::decode(&encoded).unwrap();
    assert_eq!(original, decoded);
}

fn is_decode_error(data: &[u8]) -> bool {
    matches!(Value::decode(data), Err(Error::BencodeDecode(_)))
}

#[test]
fn decode_rejects_malformed_integers() {
    assert!(is_decode_error(b"i-0e"));
    assert!(is_decode_error(b"i03e"));
    assert!(is_decode_error(b"ie"));
    assert!(is_decode_error(b"i12"));
    assert!(is_decode_error(b"i9223372036854775808e"));
}

#[test]
fn decode_integer_limits() {
    assert_eq!(Value::decode(b"i9223372036854775807e").unwrap(), Value::Int(i64::MAX));
    assert_eq!(Value::decode(b"i-9223372036854775808e").unwrap(), Value::Int(i64::MIN));
    assert_eq!(Value::decode(b"i0e").unwrap(), Value::Int(0));
    assert_eq!(Value::decode(b"i-7e").unwrap(), Value::Int(-7));
}

#[test]
fn decode_rejects_malformed_strings() {
    assert!(is_decode_error(b"03:abc"));
    assert!(is_decode_error(b"4:abc"));
    assert!(is_decode_error(b"4abcd"));
    assert!(is_decode_error(b"99999999999999999999999:a"));
    assert_eq!(Value::decode(b"0:").unwrap(), Value::Bytes(Vec::new()));
}

#[test]
fn decode_rejects_bad_structure() {
    assert!(is_decode_error(b""));
    assert!(is_decode_error(b"x"));
    assert!(is_decode_error(b"l"));
    assert!(is_decode_error(b"li1e"));
    assert!(is_decode_error(b"di1ei2ee"));
    assert!(is_decode_error(b"i1ei2e"));
}

#[test]
fn decode_rejects_duplicate_keys() {
    assert!(is_decode_error(b"d1:ai1e1:ai2ee"));
    assert!(is_decode_error(b"d1:ai1e1:bi2e1:ai3ee"));
}

#[test]
fn decode_sorts_unsorted_keys_and_encode_is_canonical() {
    let v = Value::decode(b"d1:bi1e1:ai2ee").unwrap();
    assert_eq!(
        v,
        Value::Dict(vec![(b"a".to_vec(), Value::Int(2)), (b"b".to_vec(), Value::Int(1))])
    );
    assert_eq!(v.encode().unwrap(), b"d1:ai2e1:bi1ee".to_vec());
}

#[test]
fn decode_nesting_limit() {
    let mut ok = Vec::new();
    for _ in 0..MAX_DEPTH {
        ok.push(b'l');
    }
    for _ in 0..MAX_DEPTH {
        ok.push(b'e');
    }
    assert!(Value::decode(&ok).is_ok());
    let mut deep = Vec::new();
    for _ in 0..MAX_DEPTH + 1 {
        deep.push(b'l');
    }
    for _ in 0..MAX_DEPTH + 1 {
        deep.push(b'e');
    }
    assert!(is_decode_error(&deep));
}

#[test]
fn encode_exact_texts() {
    assert_eq!(Value::Int(-42).encode().unwrap(), b"i-42e".to_vec());
    assert_eq!(Value::Int(0).encode().unwrap(), b"i0e".to_vec());
    assert_eq!(Value::Int(i64::MIN).encode().unwrap(), b"i-9223372036854775808e".to_vec());
    assert_eq!(Value::Bytes(b"spam".to_vec()).encode().unwrap(), b"4:spam".to_vec());
    assert_eq!(Value::List(Vec::new()).encode().unwrap(), b"le".to_vec());
    let v = Value::List(vec![Value::Bytes(b"spam".to_vec()), Value::Int(42)]);
    assert_eq!(v.encode().unwrap(), b"l4:spami42ee".to_vec());
}

#[test]
fn encode_sorts_unsorted_keys() {
    let unsorted = Value::Dict(vec![(b"b".to_vec(), Value::Int(1)), (b"a".to_vec(), Value::Int(2))]);
    assert_eq!(unsorted.encode().unwrap(), b"d1:ai2e1:bi1ee".to_vec());
    let nested = Value::List(vec![Value::Dict(vec![
        (b"zz".to_vec(), Value::Dict(vec![(b"y".to_vec(), Value::Int(0)), (b"x".to_vec(), Value::Int(-1))])),
        (b"a".to_vec(), Value::Bytes(b"q".to_vec())),
        (b"ab".to_vec(), Value::List(Vec::new())),
    ])]);
    assert_eq!(nested.encode().unwrap(), b"ld1:a1:q2:able2:zzd1:xi-1e1:yi0eeee".to_vec());
}

#[test]
fn encode_refuses_repeated_keys() {
    let repeated = Value::Dict(vec![(b"a".to_vec(), Value::Int(1)), (b"a".to_vec(), Value::Int(2))]);
    assert!(matches!(repeated.encode(), Err(Error::BencodeEncode(_))));
    let inner = Value::List(vec![Value::Dict(vec![
        (b"b".to_vec(), Value::Int(1)),
        (b"a".to_vec(), Value::Int(2)),
        (b"b".to_vec(), Value::Int(3)),
    ])]);
    assert!(matches!(inner.encode(), Err(Error::BencodeEncode(_))));
}

#[test]
fn encode_decode_encode_of_unsorted_value() {
    let v = Value::Dict(vec![(b"b".to_vec(), Value::Int(1)), (b"a".to_vec(), Value::Int(2))]);
    let once = v.encode().unwrap();
    let again = Value::decode(&once).unwrap().encode().unwrap();
    assert_eq!(once, again);
}

#[test]
fn decode_error_offset_within_input() {
    let data = b"d1:ai1e1:ai2ee";
    match Value::decode(data) {
        Err(Error::BencodeDecode(offset)) => assert!(offset <= data.len()),
        _ => panic!("expected a decode error"),
    }
    match Value::decode(b"4:ab") {
        Err(Error::BencodeDecode(offset)) => assert!(offset <= 4),
        _ => panic!("expected a decode error"),
    }
}

#[test]
fn encode_decode_encode_is_stable() {
    let data = b"d4:infod6:lengthi5e4:name1:xe3:key3:vale";
    let v = Value::decode(data).unwrap();
    let once = v.encode().unwrap();
    let again = Value::decode(&once).unwrap().encode().unwrap();
    assert_eq!(once, again);
    assert_eq!(once, b"d4:infod6:lengthi5e4:name1:xe3:key3:vale".to_vec());
}
