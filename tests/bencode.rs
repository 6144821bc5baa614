use spate::{DecodeError, Decoder, Encoder, Value, MAX_DEPTH};

fn bytes(s: &str) -> Value {
    Value::Bytes(s.as_bytes().to_vec())
}

#[test]
fn encode_bytes() {
    let input = Value::Bytes("hello world".into());
    let mut writer = Encoder::new();
    writer.write_anything(&input);
    let buf = writer.into_bytes();
    assert_eq!(buf, b"11:hello world");
    assert_eq!(input.encode(), b"11:hello world");
}

#[test]
fn encode_integer() {
    let input = Value::Integer(1234);
    let mut writer = Encoder::new();
    writer.write_anything(&input);
    let buf = writer.into_bytes();
    assert_eq!(buf, b"i1234e");
    assert_eq!(input.encode(), b"i1234e");
}

#[test]
fn encode_list() {
    let input = Value::List(vec![Value::Bytes("hello world".into()), Value::Integer(1234)]);
    let mut writer = Encoder::new();
    writer.write_anything(&input);
    let buf = writer.into_bytes();
    assert_eq!(buf, b"l11:hello worldi1234ee");
}

#[test]
fn encode_dict() {
    let input = Value::Dict(vec![
        (b"key1".to_vec(), Value::Bytes("value1".into())),
        (b"key2".to_vec(), Value::Integer(1234)),
    ]);
    let mut writer = Encoder::new();
    writer.write_anything(&input);
    let buf = writer.into_bytes();
    assert_eq!(buf, b"d4:key16:value14:key2i1234ee");
}

#[test]
fn decode_integer() {
    let buf = b"i1234e";
    let got = Value::decode(buf);
    assert_eq!(got.unwrap(), Value::Integer(1234));
}

#[test]
fn decode_bytes() {
    let buf = b"11:hello world";
    let got = Value::decode(buf);
    assert_eq!(got.unwrap(), Value::Bytes(b"hello world".into()));
}

#[test]
fn decode_list() {
    let buf = b"l11:hello worlde";
    let got = Value::decode(buf);
    assert_eq!(got.unwrap(), Value::List(vec![Value::Bytes(b"hello world".into())]));
}

#[test]
fn decode_dict() {
    let buf = b"d4:key16:value14:key26:value2e";
    let got = Value::decode(buf);
    assert_eq!(
        got.unwrap(),
        Value::Dict(vec![
            (b"key1".to_vec(), Value::Bytes("value1".into())),
            (b"key2".to_vec(), Value::Bytes("value2".into())),
        ])
    );
}

#[test]
fn decode_mixed_dict() {
    let got = Value::decode(b"d4:key16:value14:key2i1234ee").unwrap();
    assert_eq!(
        got,
        Value::Dict(vec![(b"key1".to_vec(), bytes("value1")), (b"key2".to_vec(), Value::Integer(1234))])
    );
}

#[test]
fn out_of_order_keys_are_rejected() {
    assert_eq!(Value::decode(b"d4:key26:value24:key16:value1e"), Err(DecodeError::UnorderedKey));
}

#[test]
fn repeated_keys_are_rejected() {
    assert_eq!(Value::decode(b"d1:ai1e1:ai2ee"), Err(DecodeError::UnorderedKey));
}

#[test]
fn prefix_key_sorts_first() {
    let got = Value::decode(b"d1:ai1e2:abi2ee").unwrap();
    assert_eq!(got, Value::Dict(vec![(b"a".to_vec(), Value::Integer(1)), (b"ab".to_vec(), Value::Integer(2))]));
    assert_eq!(Value::decode(b"d2:abi2e1:ai1ee"), Err(DecodeError::UnorderedKey));
}

#[test]
fn non_bytes_key_is_rejected() {
    assert_eq!(Value::decode(b"di1ei2ee"), Err(DecodeError::InvalidKey));
    assert_eq!(Value::decode(b"dlei2ee"), Err(DecodeError::InvalidKey));
}

#[test]
fn leading_zero_integer_is_rejected() {
    assert_eq!(Value::decode(b"i03e"), Err(DecodeError::InvalidInteger));
}

#[test]
fn negative_zero_is_rejected() {
    assert_eq!(Value::decode(b"i-0e"), Err(DecodeError::InvalidInteger));
}

#[test]
fn malformed_integers_are_rejected() {
    assert_eq!(Value::decode(b"ie"), Err(DecodeError::InvalidInteger));
    assert_eq!(Value::decode(b"i-e"), Err(DecodeError::InvalidInteger));
    assert_eq!(Value::decode(b"i1x2e"), Err(DecodeError::InvalidInteger));
    assert_eq!(Value::decode(b"i+5e"), Err(DecodeError::InvalidInteger));
    assert_eq!(Value::decode(b"i9223372036854775808e"), Err(DecodeError::InvalidInteger));
    assert_eq!(Value::decode(b"i-9223372036854775809e"), Err(DecodeError::InvalidInteger));
}

#[test]
fn integer_bounds_decode() {
    assert_eq!(Value::decode(b"i0e"), Ok(Value::Integer(0)));
    assert_eq!(Value::decode(b"i-3e"), Ok(Value::Integer(-3)));
    assert_eq!(Value::decode(b"i9223372036854775807e"), Ok(Value::Integer(i64::MAX)));
    assert_eq!(Value::decode(b"i-9223372036854775808e"), Ok(Value::Integer(i64::MIN)));
}

#[test]
fn declared_length_beyond_input_is_truncated() {
    assert_eq!(Value::decode(b"5:abc"), Err(DecodeError::Truncated));
    assert_eq!(Value::decode(b"99999999999999999999999:abc"), Err(DecodeError::Truncated));
}

#[test]
fn malformed_lengths_are_rejected() {
    assert_eq!(Value::decode(b"05:abcde"), Err(DecodeError::InvalidLength));
    assert_eq!(Value::decode(b"1x:a"), Err(DecodeError::InvalidLength));
    assert_eq!(Value::decode(b"0:"), Ok(Value::Bytes(vec![])));
}

#[test]
fn unknown_token_is_rejected() {
    assert_eq!(Value::decode(b"x"), Err(DecodeError::UnexpectedToken));
    assert_eq!(Value::decode(b"l4:spamxe"), Err(DecodeError::UnexpectedToken));
}

#[test]
fn truncated_streams_end_early() {
    assert_eq!(Value::decode(b""), Err(DecodeError::UnexpectedEof));
    assert_eq!(Value::decode(b"i12"), Err(DecodeError::UnexpectedEof));
    assert_eq!(Value::decode(b"5abc"), Err(DecodeError::UnexpectedEof));
    assert_eq!(Value::decode(b"l4:spam"), Err(DecodeError::UnexpectedEof));
    assert_eq!(Value::decode(b"d3:cow"), Err(DecodeError::UnexpectedEof));
    assert_eq!(Value::decode(b"d3:cow3:moo"), Err(DecodeError::UnexpectedEof));
}

#[test]
fn nesting_is_bounded() {
    let mut deep = vec![b'l'; MAX_DEPTH];
    deep.extend(vec![b'e'; MAX_DEPTH]);
    assert!(Value::decode(&deep).is_ok());
    let mut deeper = vec![b'l'; MAX_DEPTH + 1];
    deeper.extend(vec![b'e'; MAX_DEPTH + 1]);
    assert_eq!(Value::decode(&deeper), Err(DecodeError::DepthExceeded));
}

#[test]
fn encode_negative_and_zero() {
    assert_eq!(Value::Integer(-3).encode(), b"i-3e");
    assert_eq!(Value::Integer(0).encode(), b"i0e");
    assert_eq!(Value::Integer(i64::MIN).encode(), b"i-9223372036854775808e");
    assert_eq!(Value::Bytes(vec![]).encode(), b"0:");
    assert_eq!(Value::List(vec![]).encode(), b"le");
    assert_eq!(Value::Dict(vec![]).encode(), b"de");
}

#[test]
fn round_trip_of_nested_value() {
    let v = Value::Dict(vec![
        (b"cow".to_vec(), bytes("moo")),
        (b"list".to_vec(), Value::List(vec![bytes("spam"), Value::Integer(-42), Value::List(vec![])])),
        (b"spam".to_vec(), Value::Dict(vec![(b"".to_vec(), Value::Integer(0))])),
    ]);
    let enc = v.encode();
    assert_eq!(enc, b"d3:cow3:moo4:listl4:spami-42elee4:spamd0:i0eee".to_vec());
    assert_eq!(Value::decode(&enc), Ok(v));
}

#[test]
fn canonical_bytes_encode_back_identically() {
    let inputs: Vec<&[u8]> = vec![
        b"d3:cow3:moo4:spam4:eggse",
        b"l4:spam4:eggse",
        b"i-3e",
        b"4:spam",
        b"d1:ad1:bli1ei2eeee",
    ];
    for b in inputs {
        let v = Value::decode(b).unwrap();
        assert_eq!(v.encode(), b.to_vec());
    }
}

#[test]
fn decoded_dict_keys_ascend() {
    let v = Value::decode(b"d1:a0:1:b0:2:bb0:1:cd1:x0:1:y0:ee").unwrap();
    match v {
        Value::Dict(entries) => {
            for w in entries.windows(2) {
                assert!(w[0].0 < w[1].0);
            }
            assert_eq!(entries.len(), 4);
        }
        _ => panic!("expected a dictionary"),
    }
}

#[test]
fn decoder_reads_back_to_back_terms() {
    let input = b"i1e4:spamle";
    let mut d = Decoder::new(input);
    assert_eq!(d.read_anything(), Ok(Value::Integer(1)));
    assert_eq!(d.position(), 3);
    assert_eq!(d.read_integer(), Err(DecodeError::UnexpectedToken));
    assert_eq!(d.position(), 3);
    assert_eq!(d.read_bytes(), Ok(bytes("spam")));
    assert_eq!(d.position(), 9);
    assert_eq!(d.read_dict(), Err(DecodeError::UnexpectedToken));
    assert_eq!(d.read_list(), Ok(Value::List(vec![])));
    assert_eq!(d.position(), 11);
    assert_eq!(d.read_anything(), Err(DecodeError::UnexpectedEof));
}

#[test]
fn decoder_keeps_position_on_error() {
    let input = b"l4:spami03ee";
    let mut d = Decoder::new(input);
    assert_eq!(d.read_list(), Err(DecodeError::InvalidInteger));
    assert_eq!(d.position(), 0);
}

#[test]
fn decode_ignores_trailing_bytes() {
    assert_eq!(Value::decode(b"i1ei2e"), Ok(Value::Integer(1)));
}

#[test]
fn bytes_are_not_text() {
    let v = Value::Bytes(vec![0xff, 0x00, b':', b'e']);
    let enc = v.encode();
    assert_eq!(enc, vec![b'4', b':', 0xff, 0x00, b':', b'e']);
    assert_eq!(Value::decode(&enc), Ok(v));
}

#[test]
fn bytes_less_orders_bytewise() {
    assert!(spate::decode::bytes_less(b"a", b"b"));
    assert!(spate::decode::bytes_less(b"a", b"ab"));
    assert!(!spate::decode::bytes_less(b"ab", b"a"));
    assert!(!spate::decode::bytes_less(b"a", b"a"));
    assert!(spate::decode::bytes_less(b"", b"a"));
}
