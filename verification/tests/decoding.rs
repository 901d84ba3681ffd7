use bencode::DecodeError;
use bencode::decode_bounded;
use bencode::Value;
use bencode::decode;
use bencode::decode_all;

#[test]
fn integer_forty_two() {
    let r = decode(b"i42e").unwrap();
    assert_eq!(r, (Value::Int(42), 4));
}

#[test]
fn integer_negative_seventeen() {
    let r = decode(b"i-17e").unwrap();
    assert_eq!(r, (Value::Int(-17), 5));
}

#[test]
fn integer_zero() {
    let r = decode(b"i0e").unwrap();
    assert_eq!(r, (Value::Int(0), 3));
}

#[test]
fn integer_extremes() {
    let max = decode(b"i9223372036854775807e").unwrap();
    assert_eq!(max, (Value::Int(i64::MAX), 21));
    let min = decode(b"i-9223372036854775808e").unwrap();
    assert_eq!(min, (Value::Int(i64::MIN), 22));
}

#[test]
fn byte_string_spam() {
    let r = decode(b"4:spam").unwrap();
    assert_eq!(r, (Value::Bytes(b"spam".to_vec()), 6));
}

#[test]
fn byte_string_empty() {
    let r = decode(b"0:").unwrap();
    assert_eq!(r, (Value::Bytes(Vec::new()), 2));
}

#[test]
fn byte_string_binary_content() {
    let r = decode(b"3:\xff\x00e").unwrap();
    assert_eq!(r, (Value::Bytes(vec![0xff, 0x00, b'e']), 5));
}

#[test]
fn list_of_two_strings() {
    let r = decode(b"l4:spam4:eggse").unwrap();
    let want = Value::List(vec![
        Value::Bytes(b"spam".to_vec()),
        Value::Bytes(b"eggs".to_vec()),
    ]);
    assert_eq!(r, (want, 14));
}

#[test]
fn list_empty() {
    let r = decode(b"le").unwrap();
    assert_eq!(r, (Value::List(Vec::new()), 2));
}

#[test]
fn dictionary_preserves_key_order() {
    let r = decode(b"d3:cow3:moo4:spam4:eggse").unwrap();
    let want = Value::Dict(vec![
        (b"cow".to_vec(), Value::Bytes(b"moo".to_vec())),
        (b"spam".to_vec(), Value::Bytes(b"eggs".to_vec())),
    ]);
    assert_eq!(r, (want, 24));
}

#[test]
fn dictionary_empty() {
    let r = decode(b"de").unwrap();
    assert_eq!(r, (Value::Dict(Vec::new()), 2));
}

#[test]
fn dictionary_with_repeated_key_keeps_both_pairs() {
    let r = decode(b"d1:ai1e1:ai2ee").unwrap();
    let want = Value::Dict(vec![
        (b"a".to_vec(), Value::Int(1)),
        (b"a".to_vec(), Value::Int(2)),
    ]);
    assert_eq!(r, (want, 14));
}

#[test]
fn nested_list() {
    let r = decode(b"l5:helloi42eli1ei2eee").unwrap();
    let want = Value::List(vec![
        Value::Bytes(b"hello".to_vec()),
        Value::Int(42),
        Value::List(vec![Value::Int(1), Value::Int(2)]),
    ]);
    assert_eq!(r, (want, 21));
}

#[test]
fn deeply_nested_lists() {
    let r = decode(b"lllleeee").unwrap();
    let want = Value::List(vec![Value::List(vec![Value::List(vec![Value::List(
        Vec::new(),
    )])])]);
    assert_eq!(r, (want, 8));
}

#[test]
fn remainder_of_concatenated_encodings() {
    let input = b"i42e4:spam";
    let (first, end) = decode(input).unwrap();
    assert_eq!(first, Value::Int(42));
    assert_eq!(&input[end..], b"4:spam");
    let (second, end2) = decode(&input[end..]).unwrap();
    assert_eq!(second, Value::Bytes(b"spam".to_vec()));
    assert_eq!(end + end2, input.len());
}

#[test]
fn iterating_decode_reproduces_all_siblings() {
    let input: &[u8] = b"i1e3:abcli2eed1:k1:ve";
    let mut rest = input;
    let mut seen = Vec::new();
    while !rest.is_empty() {
        let (v, end) = decode(rest).unwrap();
        seen.push(v);
        rest = &rest[end..];
    }
    let all = decode_all(input).unwrap();
    assert_eq!(seen, all);
    assert_eq!(
        all,
        vec![
            Value::Int(1),
            Value::Bytes(b"abc".to_vec()),
            Value::List(vec![Value::Int(2)]),
            Value::Dict(vec![(b"k".to_vec(), Value::Bytes(b"v".to_vec()))]),
        ]
    );
}

#[test]
fn decode_all_of_empty_input_is_empty() {
    assert_eq!(decode_all(b"").unwrap(), Vec::new());
}

#[test]
fn decode_all_stops_on_malformed_tail() {
    assert_eq!(decode_all(b"i1ex"), Err(DecodeError::UnknownLeadToken));
}

#[test]
fn string_shorter_than_declared_length() {
    assert_eq!(decode(b"5:ab"), Err(DecodeError::TruncatedInput));
}

#[test]
fn dictionary_key_without_value() {
    assert_eq!(decode(b"d1:xe"), Err(DecodeError::TruncatedInput));
    assert_eq!(decode(b"d5:helloe"), Err(DecodeError::TruncatedInput));
}

#[test]
fn dictionary_key_must_be_byte_string() {
    assert_eq!(decode(b"di5ei1ee"), Err(DecodeError::InvalidKeyType));
    assert_eq!(decode(b"dlei1ee"), Err(DecodeError::InvalidKeyType));
}

#[test]
fn empty_input_is_truncated() {
    assert_eq!(decode(b""), Err(DecodeError::TruncatedInput));
}

#[test]
fn unknown_lead_byte() {
    assert_eq!(decode(b"x42e"), Err(DecodeError::UnknownLeadToken));
    assert_eq!(decode(b"e"), Err(DecodeError::UnknownLeadToken));
}

#[test]
fn integer_without_terminator() {
    assert_eq!(decode(b"i42"), Err(DecodeError::TruncatedInput));
}

#[test]
fn integer_with_empty_or_bad_body() {
    assert_eq!(decode(b"ie"), Err(DecodeError::InvalidNumeric));
    assert_eq!(decode(b"i-e"), Err(DecodeError::InvalidNumeric));
    assert_eq!(decode(b"iabce"), Err(DecodeError::InvalidNumeric));
    assert_eq!(decode(b"i4x2e"), Err(DecodeError::InvalidNumeric));
}

#[test]
fn integer_rejects_leading_zero_and_minus_zero() {
    assert_eq!(decode(b"i042e"), Err(DecodeError::InvalidNumeric));
    assert_eq!(decode(b"i-0e"), Err(DecodeError::InvalidNumeric));
}

#[test]
fn integer_out_of_signed_range() {
    assert_eq!(
        decode(b"i9223372036854775808e"),
        Err(DecodeError::InvalidNumeric)
    );
    assert_eq!(
        decode(b"i-9223372036854775809e"),
        Err(DecodeError::InvalidNumeric)
    );
    assert_eq!(
        decode(b"i99999999999999999999999999e"),
        Err(DecodeError::InvalidNumeric)
    );
}

#[test]
fn string_without_separator() {
    assert_eq!(decode(b"4spam"), Err(DecodeError::TruncatedInput));
}

#[test]
fn string_with_bad_length_prefix() {
    assert_eq!(decode(b"1x:ab"), Err(DecodeError::InvalidNumeric));
    assert_eq!(
        decode(b"99999999999999999999999999:a"),
        Err(DecodeError::InvalidNumeric)
    );
}

#[test]
fn string_length_prefix_may_have_leading_zeros() {
    let r = decode(b"04:spam").unwrap();
    assert_eq!(r, (Value::Bytes(b"spam".to_vec()), 7));
    let empty = decode(b"00:").unwrap();
    assert_eq!(empty, (Value::Bytes(Vec::new()), 3));
    let nested = decode(b"d02:hii1ee").unwrap();
    let want = Value::Dict(vec![(b"hi".to_vec(), Value::Int(1))]);
    assert_eq!(nested, (want, 10));
}

#[test]
fn unterminated_containers() {
    assert_eq!(decode(b"l4:spam"), Err(DecodeError::TruncatedInput));
    assert_eq!(decode(b"li1e"), Err(DecodeError::TruncatedInput));
    assert_eq!(decode(b"d1:a"), Err(DecodeError::TruncatedInput));
}

#[test]
fn error_inside_container_propagates() {
    assert_eq!(decode(b"li042ee"), Err(DecodeError::InvalidNumeric));
    assert_eq!(decode(b"lxe"), Err(DecodeError::UnknownLeadToken));
}

#[test]
fn decode_stops_after_first_value() {
    let (v, end) = decode(b"i42ejunk").unwrap();
    assert_eq!(v, Value::Int(42));
    assert_eq!(end, 4);
}

#[test]
fn dictionary_nested_in_list() {
    let r = decode(b"ld1:ali0eeee").unwrap();
    let want = Value::List(vec![Value::Dict(vec![(
        b"a".to_vec(),
        Value::List(vec![Value::Int(0)]),
    )])]);
    assert_eq!(r, (want, 12));
}

#[test]
fn bare_container_openers_are_truncated() {
    assert_eq!(decode(b"l"), Err(DecodeError::TruncatedInput));
    assert_eq!(decode(b"d"), Err(DecodeError::TruncatedInput));
    assert_eq!(decode(b"i"), Err(DecodeError::TruncatedInput));
}

#[test]
fn bounded_decode_accepts_shallow_input() {
    let r = decode_bounded(b"l4:spame", 1).unwrap().unwrap();
    assert_eq!(
        r,
        (Value::List(vec![Value::Bytes(b"spam".to_vec())]), 8)
    );
    let flat = decode_bounded(b"i42e", 0).unwrap().unwrap();
    assert_eq!(flat, (Value::Int(42), 4));
}

#[test]
fn bounded_decode_refuses_deep_input() {
    assert_eq!(decode_bounded(b"llleee", 2), None);
    assert!(decode_bounded(b"llleee", 3).is_some());
}
