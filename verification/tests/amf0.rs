use amf::amf0::Decoder;
use amf::amf0::Encoder;
use amf::amf0::Value;
use amf::amf3;
use amf::DecodeError;
use amf::Pair;

fn decode(bytes: &[u8]) -> Result<Value, DecodeError> {
    let mut decoder = Decoder::new(bytes);
    decoder.decode()
}

fn encode(value: &Value) -> Vec<u8> {
    let mut encoder = Encoder::new(Vec::new());
    let _ = encoder.encode(value);
    encoder.into_inner()
}

fn number(x: f64) -> Value {
    Value::Number(x.to_bits())
}

fn join(parts: &[&[u8]]) -> Vec<u8> {
    let mut out = Vec::new();
    for part in parts {
        out.extend_from_slice(part);
    }
    out
}

fn short(s: &str) -> Vec<u8> {
    join(&[&(s.len() as u16).to_be_bytes(), s.as_bytes()])
}

fn long(s: &str) -> Vec<u8> {
    join(&[&(s.len() as u32).to_be_bytes(), s.as_bytes()])
}

fn number_bytes(x: f64) -> Vec<u8> {
    join(&[&[0x00], &x.to_be_bytes()])
}

fn string_bytes(s: &str) -> Vec<u8> {
    join(&[&[0x02], &short(s)])
}

fn pair_bytes(key: &str, value: &[u8]) -> Vec<u8> {
    join(&[&short(key), value])
}

const PAIRS_END: [u8; 3] = [0x00, 0x00, 0x09];

fn long_text() -> String {
    "うひょおおおおおおおおおおおおおおおおおおおおおおおおおおおおおお".to_string().repeat(2000)
}

fn sample_number() -> Vec<u8> {
    vec![0x00, 0x40, 0x93, 0x4A, 0x00, 0x00, 0x00, 0x00, 0x00]
}

fn sample_negative_infinity() -> Vec<u8> {
    vec![0x00, 0xFF, 0xF0, 0x00, 0x00, 0x00, 0x00, 0x00, 0x00]
}

fn sample_positive_infinity() -> Vec<u8> {
    vec![0x00, 0x7F, 0xF0, 0x00, 0x00, 0x00, 0x00, 0x00, 0x00]
}

fn sample_nan() -> Vec<u8> {
    vec![0x00, 0x7F, 0xF8, 0x00, 0x00, 0x00, 0x00, 0x00, 0x00]
}

fn sample_string() -> Vec<u8> {
    join(&[&[0x02, 0x00, 0x0D], b"Hello, world!"])
}

fn sample_long_string() -> Vec<u8> {
    join(&[&[0x0C], &long(&long_text())])
}

fn sample_xml_doc() -> Vec<u8> {
    join(&[&[0x0F, 0x00, 0x00, 0x00, 0x19], b"<a><b>hello world</b></a>"])
}

fn sample_date() -> Vec<u8> {
    join(&[&[0x0B], &1111111111000_f64.to_be_bytes(), &[0x00, 0x00]])
}

fn sample_object() -> Vec<u8> {
    join(&[
        &[0x03],
        &pair_bytes("msg", &string_bytes("Hello, world! こんにちは、世界！")),
        &pair_bytes("index", &number_bytes(0.0)),
        &PAIRS_END,
    ])
}

fn sample_ecma_array() -> Vec<u8> {
    join(&[
        &[0x08, 0x00, 0x00, 0x00, 0x03],
        &pair_bytes("en", &string_bytes("Hello, world!")),
        &pair_bytes("ja", &string_bytes("こんにちは、世界！")),
        &pair_bytes("zh", &string_bytes("你好世界")),
        &PAIRS_END,
    ])
}

fn sample_strict_array() -> Vec<u8> {
    join(&[
        &[0x0A, 0x00, 0x00, 0x00, 0x04],
        &number_bytes(1.1),
        &number_bytes(2.0),
        &number_bytes(3.3),
        &string_bytes("こんにちは、世界！"),
    ])
}

fn sample_typed_object() -> Vec<u8> {
    join(&[
        &[0x10],
        &short("com.pyyoshi.hogeclass"),
        &pair_bytes("index", &number_bytes(0.0)),
        &pair_bytes("msg", &string_bytes("fugaaaaaaa")),
        &PAIRS_END,
    ])
}

const REFERENCE_TO_FIRST: [u8; 3] = [0x07, 0x00, 0x00];

fn sample_reference_array_number() -> Vec<u8> {
    join(&[
        &[0x0A, 0x00, 0x00, 0x00, 0x03],
        &number_bytes(1.0),
        &number_bytes(2.0),
        &number_bytes(3.0),
        &REFERENCE_TO_FIRST,
        &REFERENCE_TO_FIRST,
    ])
}

fn sample_reference_array_string() -> Vec<u8> {
    join(&[
        &[0x0A, 0x00, 0x00, 0x00, 0x03],
        &string_bytes("foo"),
        &string_bytes("baz"),
        &string_bytes("bar"),
        &REFERENCE_TO_FIRST,
        &REFERENCE_TO_FIRST,
    ])
}

fn sample_reference_object() -> Vec<u8> {
    join(&[&sample_object(), &REFERENCE_TO_FIRST, &REFERENCE_TO_FIRST])
}

fn sample_avmplus() -> Vec<u8> {
    join(&[
        &[0x11, 0x0A, 0x23, 0x01],
        &[0x13],
        b"operation",
        &[0x13],
        b"timestamp",
        &[0x04, 0x05, 0x04, 0x00],
    ])
}

fn sample_avmplus_array() -> Vec<u8> {
    let text = "こんにちは、世界！";
    join(&[
        &[0x11, 0x09, 0x09, 0x01],
        &[0x05],
        &1.1_f64.to_be_bytes(),
        &[0x04, 0x02],
        &[0x05],
        &3.3_f64.to_be_bytes(),
        &[0x06, ((text.len() << 1) | 1) as u8],
        text.as_bytes(),
    ])
}

#[test]
fn decode_number() {
    assert_eq!(decode(&sample_number()).unwrap(), number(1234.5));
    assert_eq!(decode(&sample_negative_infinity()).unwrap(), number(f64::NEG_INFINITY));
    assert_eq!(decode(&sample_positive_infinity()).unwrap(), number(f64::INFINITY));

    let result_nan = decode(&sample_nan()).unwrap();
    if let Value::Number(n) = result_nan {
        assert!(f64::from_bits(n).is_nan());
    } else {
        assert!(false);
    }
}

#[test]
fn amf0_decode_boolean() {
    assert_eq!(decode(&[0x01, 0x00]).unwrap(), Value::Boolean(false));
    assert_eq!(decode(&[0x01, 0x01]).unwrap(), Value::Boolean(true));
}

#[test]
fn amf0_decode_string() {
    assert_eq!(decode(&sample_string()).unwrap(), Value::String("Hello, world!".to_string()));
}

#[test]
fn decode_long_string() {
    let gen = long_text();
    assert_eq!(decode(&sample_long_string()).unwrap(), Value::LongString(gen));
}

#[test]
fn amf0_decode_xml_doc() {
    assert_eq!(
        decode(&sample_xml_doc()).unwrap(),
        Value::XmlDoc("<a><b>hello world</b></a>".to_string())
    );
}

#[test]
fn amf0_decode_date() {
    assert_eq!(decode(&sample_date()).unwrap(), Value::Date { unixtime: 1111111111_000 });
}

fn expected_object() -> Value {
    Value::Object {
        name: None,
        pairs: vec![
            Pair {
                key: "msg".to_string(),
                value: Value::String("Hello, world! こんにちは、世界！".to_string()),
            },
            Pair { key: "index".to_string(), value: number(0_f64) },
        ],
    }
}

#[test]
fn amf0_decode_object() {
    let expected = expected_object();
    assert_eq!(decode(&sample_object()).unwrap(), expected);
}

fn expected_ecma_array() -> Value {
    Value::EcmaArray {
        pairs: vec![
            Pair { key: "en".to_string(), value: Value::String("Hello, world!".to_string()) },
            Pair { key: "ja".to_string(), value: Value::String("こんにちは、世界！".to_string()) },
            Pair { key: "zh".to_string(), value: Value::String("你好世界".to_string()) },
        ],
    }
}

#[test]
fn decode_ecma_array() {
    let expected = expected_ecma_array();
    assert_eq!(decode(&sample_ecma_array()).unwrap(), expected);
}

fn expected_strict_array() -> Value {
    Value::Array {
        values: vec![
            number(1.1),
            number(2_f64),
            number(3.3),
            Value::String("こんにちは、世界！".to_string()),
        ],
    }
}

#[test]
fn decode_strict_array() {
    let expected = expected_strict_array();
    assert_eq!(decode(&sample_strict_array()).unwrap(), expected);
}

fn expected_typed_object() -> Value {
    Value::Object {
        name: Some("com.pyyoshi.hogeclass".to_string()),
        pairs: vec![
            Pair { key: "index".to_string(), value: number(0_f64) },
            Pair { key: "msg".to_string(), value: Value::String("fugaaaaaaa".to_string()) },
        ],
    }
}

#[test]
fn decode_typed_object() {
    let expected = expected_typed_object();
    assert_eq!(decode(&sample_typed_object()).unwrap(), expected);
}

#[test]
fn amf0_decode_null() {
    assert_eq!(decode(&[0x05]).unwrap(), Value::Null);
}

#[test]
fn amf0_decode_undefined() {
    assert_eq!(decode(&[0x06]).unwrap(), Value::Undefined);
}

#[test]
fn decode_reference() {
    let expected1 = Value::Array { values: vec![number(1_f64), number(2_f64), number(3_f64)] };
    assert_eq!(decode(&sample_reference_array_number()).unwrap(), expected1);

    let expected2 = Value::Array {
        values: vec![
            Value::String("foo".to_string()),
            Value::String("baz".to_string()),
            Value::String("bar".to_string()),
        ],
    };
    assert_eq!(decode(&sample_reference_array_string()).unwrap(), expected2);

    let expected3 = expected_object();
    assert_eq!(decode(&sample_reference_object()).unwrap(), expected3);
}

#[test]
fn decode_unsupported() {
    assert_eq!(decode(&[0x0D]), Err(DecodeError::NotSupportedType { marker: 13 }));
}

#[test]
fn decode_recordset() {
    assert_eq!(decode(&[0x0E]), Err(DecodeError::NotSupportedType { marker: 14 }));
}

#[test]
fn decode_movieclip() {
    assert_eq!(decode(&[0x04]), Err(DecodeError::NotSupportedType { marker: 4 }));
}

#[test]
fn decode_avmplus() {
    let expected = Value::AvmPlus(amf3::Value::Object {
        name: None,
        sealed_count: 2,
        pairs: vec![
            Pair { key: "operation".to_string(), value: amf3::Value::Integer(5) },
            Pair { key: "timestamp".to_string(), value: amf3::Value::Integer(0) },
        ],
    });
    assert_eq!(decode(&sample_avmplus()).unwrap(), expected);
}

#[test]
fn decode_object_end() {
    assert_eq!(decode(&[0x09]), Err(DecodeError::NotExpectedObjectEnd));
}

#[test]
fn encode_number() {
    assert_eq!(encode(&number(1234.5)), sample_number());
    assert_eq!(encode(&number(f64::NEG_INFINITY)), sample_negative_infinity());
    assert_eq!(encode(&number(f64::INFINITY)), sample_positive_infinity());
}

#[test]
fn amf0_encode_boolean() {
    assert_eq!(encode(&Value::Boolean(false)), vec![0x01, 0x00]);
    assert_eq!(encode(&Value::Boolean(true)), vec![0x01, 0x01]);
}

#[test]
fn amf0_encode_string() {
    assert_eq!(encode(&Value::String("Hello, world!".to_string())), sample_string());
}

#[test]
fn encode_long_string() {
    let gen = long_text();
    assert_eq!(encode(&Value::LongString(gen)), sample_long_string());
}

#[test]
fn amf0_encode_xml_doc() {
    assert_eq!(
        encode(&Value::XmlDoc("<a><b>hello world</b></a>".to_string())),
        sample_xml_doc()
    );
}

#[test]
fn amf0_encode_date() {
    assert_eq!(encode(&Value::Date { unixtime: 1111111111_000 }), sample_date());
}

#[test]
fn amf0_encode_object() {
    let value = expected_object();
    assert_eq!(encode(&value), sample_object());
}

#[test]
fn encode_ecma_array() {
    let value = expected_ecma_array();
    assert_eq!(encode(&value), sample_ecma_array());
}

#[test]
fn encode_strict_array() {
    let value = expected_strict_array();
    assert_eq!(encode(&value), sample_strict_array());
}

#[test]
fn encode_typed_object() {
    let value = expected_typed_object();
    assert_eq!(encode(&value), sample_typed_object());
}

#[test]
fn amf0_encode_null() {
    assert_eq!(encode(&Value::Null), vec![0x05]);
}

#[test]
fn amf0_encode_undefined() {
    assert_eq!(encode(&Value::Undefined), vec![0x06]);
}

#[test]
fn encode_avmplus() {
    let value = Value::AvmPlus(amf3::Value::Array {
        assoc_entries: vec![],
        dense_entries: vec![
            amf3::Value::Double(1.1_f64.to_bits()),
            amf3::Value::Integer(2),
            amf3::Value::Double(3.3_f64.to_bits()),
            amf3::Value::String("こんにちは、世界！".to_string()),
        ],
    });
    assert_eq!(encode(&value), sample_avmplus_array());
}
