use iceaxe::codec::decode_payload;
use iceaxe::codec::encode_payload;
use iceaxe::value::Value;

fn bv(s: &str) -> Vec<u8> {
    s.as_bytes().to_vec()
}

fn round_trips(v: Value) {
    let bytes = encode_payload(&v);
    let back = decode_payload(&bytes);
    assert_eq!(back, Some(v));
}

#[test]
fn round_trip_scalars() {
    round_trips(Value::Null);
    round_trips(Value::Bool(true));
    round_trips(Value::Bool(false));
    round_trips(Value::Int(0));
    round_trips(Value::Int(1));
    round_trips(Value::Int(-1));
    round_trips(Value::Int(30));
    round_trips(Value::Int(i64::MAX));
    round_trips(Value::Int(i64::MIN));
    round_trips(Value::Text(bv("")));
    round_trips(Value::Text(bv("hello")));
    round_trips(Value::Text(bv("quote \" and backslash \\ inside")));
}

#[test]
fn round_trip_nested() {
    round_trips(Value::Array(vec![]));
    round_trips(Value::Object(vec![]));
    round_trips(Value::Array(vec![
        Value::Int(1),
        Value::Null,
        Value::Text(bv("x")),
        Value::Array(vec![Value::Bool(false)]),
    ]));
    round_trips(Value::Object(vec![
        (bv("a"), Value::Int(1)),
        (
            bv("nested"),
            Value::Object(vec![(bv("k"), Value::Array(vec![Value::Int(-7)]))]),
        ),
    ]));
}

#[test]
fn encode_exact_bytes() {
    assert_eq!(encode_payload(&Value::Null), bv("null"));
    assert_eq!(encode_payload(&Value::Bool(true)), bv("true"));
    assert_eq!(encode_payload(&Value::Bool(false)), bv("false"));
    assert_eq!(encode_payload(&Value::Int(-42)), bv("-42"));
    assert_eq!(encode_payload(&Value::Int(0)), bv("0"));
    assert_eq!(
        encode_payload(&Value::Text(bv("a\"b\\c"))),
        bv("\"a\\\"b\\\\c\"")
    );
    assert_eq!(
        encode_payload(&Value::Array(vec![Value::Int(1), Value::Int(2)])),
        bv("[1,2]")
    );
    assert_eq!(
        encode_payload(&Value::Object(vec![(bv("a"), Value::Int(1))])),
        bv("{\"a\":1}")
    );
}

#[test]
fn decode_json_style_object() {
    let decoded = decode_payload(&bv("{\"a\":1}"));
    assert_eq!(
        decoded,
        Some(Value::Object(vec![(bv("a"), Value::Int(1))]))
    );
}

#[test]
fn decode_rejects_malformed() {
    assert_eq!(decode_payload(&bv("")), None);
    assert_eq!(decode_payload(&bv("nul")), None);
    assert_eq!(decode_payload(&bv("truthy")), None);
    assert_eq!(decode_payload(&bv("01")), None);
    assert_eq!(decode_payload(&bv("-0")), None);
    assert_eq!(decode_payload(&bv("-")), None);
    assert_eq!(decode_payload(&bv("1 ")), None);
    assert_eq!(decode_payload(&bv(" 1")), None);
    assert_eq!(decode_payload(&bv("\"unterminated")), None);
    assert_eq!(decode_payload(&bv("\"bad\\nescape\"")), None);
    assert_eq!(decode_payload(&bv("[1,]")), None);
    assert_eq!(decode_payload(&bv("[1 ,2]")), None);
    assert_eq!(decode_payload(&bv("{\"a\":}")), None);
    assert_eq!(decode_payload(&bv("{\"a\" :1}")), None);
    assert_eq!(decode_payload(&bv("{}x")), None);
    assert_eq!(decode_payload(&bv("9223372036854775808")), None);
    assert_eq!(decode_payload(&bv("-9223372036854775809")), None);
}

#[test]
fn decode_accepts_word_bounds() {
    assert_eq!(
        decode_payload(&bv("9223372036854775807")),
        Some(Value::Int(i64::MAX))
    );
    assert_eq!(
        decode_payload(&bv("-9223372036854775808")),
        Some(Value::Int(i64::MIN))
    );
}
