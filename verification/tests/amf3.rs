use amf::amf3::Decoder;
use amf::amf3::Encoder;
use amf::amf3::Value;
use amf::DecodeError;
use amf::Pair;

fn decode(bytes: &[u8]) -> Result<Value, DecodeError> {
    let mut decoder = Decoder::new(bytes);
    decoder.decode()
}

fn encode(value: &Value) -> Vec<u8> {
    let mut encoder = Encoder::new(Vec::new());
    let _ = encoder.encode(value);
    encoder.into_inner()
}

fn double(x: f64) -> Value {
    Value::Double(x.to_bits())
}

fn join(parts: &[&[u8]]) -> Vec<u8> {
    let mut out = Vec::new();
    for part in parts {
        out.extend_from_slice(part);
    }
    out
}

/// A literal string of fewer than 64 bytes: one byte of header.
fn text(s: &str) -> Vec<u8> {
    assert!(s.len() < 64);
    join(&[&[((s.len() << 1) | 1) as u8], s.as_bytes()])
}

fn string_bytes(s: &str) -> Vec<u8> {
    join(&[&[0x06], &text(s)])
}

fn double_bytes(x: f64) -> Vec<u8> {
    join(&[&[0x05], &x.to_be_bytes()])
}

fn sample_string() -> Vec<u8> {
    join(&[&[0x06, 0x37], "こんにちは、世界！".as_bytes()])
}

fn sample_xml_doc() -> Vec<u8> {
    join(&[&[0x07, 0x33], b"<a><b>hello world</b></a>"])
}

fn sample_xml() -> Vec<u8> {
    join(&[&[0x0B, 0x33], b"<a><b>hello world</b></a>"])
}

fn sample_date() -> Vec<u8> {
    join(&[&[0x08, 0x01], &1111111111000_f64.to_be_bytes()])
}

fn sample_object_typed() -> Vec<u8> {
    join(&[&[0x0A, 0x03], &text("com.pyyoshi.nodynamichogeclass")])
}

fn sample_object_sealed() -> Vec<u8> {
    join(&[
        &[0x0A, 0x23],
        &text("com.pyyoshi.hogeclass"),
        &text("index"),
        &text("msg"),
        &[0x04, 0x00],
        &string_bytes("fugaaaaaaa"),
    ])
}

fn sample_object_dynamic() -> Vec<u8> {
    join(&[
        &[0x0A, 0x0B],
        &text("com.pyyoshi.dynamichogeclass"),
        &text("index"),
        &[0x04, 0x00],
        &text("msg"),
        &string_bytes("fugaaaaaaa"),
        &[0x01],
    ])
}

fn sample_object_hash() -> Vec<u8> {
    join(&[
        &[0x0A, 0x0B, 0x01],
        &text("index"),
        &[0x04, 0x00],
        &text("msg"),
        &string_bytes("fugaaaaaaa"),
        &[0x01],
    ])
}

fn sample_array_assoc() -> Vec<u8> {
    join(&[
        &[0x09, 0x01],
        &text("en"),
        &string_bytes("Hello, world!"),
        &text("ja"),
        &string_bytes("こんにちは、世界！"),
        &text("zh"),
        &string_bytes("你好世界"),
        &[0x01],
    ])
}

fn sample_array_dense() -> Vec<u8> {
    join(&[
        &[0x09, 0x09, 0x01],
        &double_bytes(1.1),
        &[0x04, 0x02],
        &double_bytes(3.3),
        &string_bytes("こんにちは、世界！"),
    ])
}

fn sample_byte_array() -> Vec<u8> {
    join(&[&[0x0C, 0x0B], b"hello"])
}

fn sample_vector_int() -> Vec<u8> {
    vec![
        0x0D, 0x07, 0x00, 0xFF, 0xFF, 0xFF, 0xFF, 0x00, 0x00, 0x00, 0x00, 0x00, 0x00, 0x00, 0x01,
    ]
}

fn sample_vector_uint() -> Vec<u8> {
    vec![
        0x0E, 0x07, 0x00, 0x00, 0x00, 0x00, 0x00, 0x00, 0x00, 0x00, 0x01, 0x00, 0x00, 0x00, 0x02,
    ]
}

fn sample_vector_double() -> Vec<u8> {
    join(&[
        &[0x0F, 0x07, 0x00],
        &(-1.1_f64).to_be_bytes(),
        &0_f64.to_be_bytes(),
        &1.1_f64.to_be_bytes(),
    ])
}

/// A vector of three objects of one anonymous class: the first carries
/// the trait, the others refer to it, and the keys are sent once.
fn sample_vector_object() -> Vec<u8> {
    join(&[
        &[0x10, 0x07, 0x00],
        &text("com.pyyoshi.fooclass"),
        &[0x0A, 0x23, 0x01],
        &text("index"),
        &text("msg"),
        &[0x04, 0x00],
        &string_bytes("Hello, world!"),
        &[0x0A, 0x01, 0x04, 0x01],
        &string_bytes("こんにちは、世界！"),
        &[0x0A, 0x01, 0x04, 0x02],
        &string_bytes("你好世界"),
    ])
}

fn sample_dictionary() -> Vec<u8> {
    join(&[
        &[0x11, 0x07, 0x00],
        &string_bytes("en"),
        &string_bytes("Hello, world!"),
        &string_bytes("ja"),
        &string_bytes("こんにちは、世界！"),
        &string_bytes("zh"),
        &string_bytes("你好世界"),
    ])
}

#[test]
fn decode_integer() {
    assert_eq!(decode(&[0x04, 0x00]).unwrap(), Value::Integer(0));
    assert_eq!(decode(&[0x04, 0x81, 0x00]).unwrap(), Value::Integer(128));
    assert_eq!(decode(&[0x04, 0x81, 0x80, 0x00]).unwrap(), Value::Integer(16384));
    assert_eq!(decode(&[0x04, 0xBF, 0xFF, 0xFF, 0xFF]).unwrap(), Value::Integer(268435455));
    assert_eq!(decode(&[0x04, 0xC0, 0x80, 0x80, 0x00]).unwrap(), Value::Integer(-268435456));
}

#[test]
fn decode_double() {
    assert_eq!(decode(&double_bytes(268435456_f64)).unwrap(), double(268435456_f64));
    assert_eq!(decode(&double_bytes(-268435457_f64)).unwrap(), double(-268435457_f64));
    assert_eq!(
        decode(&[0x05, 0x40, 0x09, 0x1E, 0xB8, 0x51, 0xEB, 0x85, 0x1F]).unwrap(),
        double(3.14_f64)
    );
}

#[test]
fn amf3_decode_string() {
    assert_eq!(decode(&sample_string()).unwrap(), Value::String("こんにちは、世界！".to_string()));
}

#[test]
fn amf3_decode_xml_doc() {
    assert_eq!(
        decode(&sample_xml_doc()).unwrap(),
        Value::XmlDoc("<a><b>hello world</b></a>".to_string())
    );
}

#[test]
fn amf3_decode_date() {
    assert_eq!(decode(&sample_date()).unwrap(), Value::Date { unixtime: 1111111111_000 });
}

#[test]
fn amf3_decode_object() {
    let expected = Value::Object {
        name: Some("com.pyyoshi.nodynamichogeclass".to_string()),
        sealed_count: 0,
        pairs: vec![],
    };
    assert_eq!(decode(&sample_object_typed()).unwrap(), expected);

    let expected = Value::Object {
        name: Some("com.pyyoshi.hogeclass".to_string()),
        sealed_count: 2,
        pairs: vec![
            Pair { key: "index".to_string(), value: Value::Integer(0) },
            Pair { key: "msg".to_string(), value: Value::String("fugaaaaaaa".to_string()) },
        ],
    };
    assert_eq!(decode(&sample_object_sealed()).unwrap(), expected);

    let expected = Value::Object {
        name: Some("com.pyyoshi.dynamichogeclass".to_string()),
        sealed_count: 0,
        pairs: vec![
            Pair { key: "index".to_string(), value: Value::Integer(0) },
            Pair { key: "msg".to_string(), value: Value::String("fugaaaaaaa".to_string()) },
        ],
    };
    assert_eq!(decode(&sample_object_dynamic()).unwrap(), expected);

    let expected = Value::Object {
        name: Some("com.pyyoshi.nodynamichogeclass".to_string()),
        sealed_count: 0,
        pairs: vec![],
    };
    assert_eq!(decode(&sample_object_typed()).unwrap(), expected);

    let expected = Value::Object {
        name: None,
        sealed_count: 0,
        pairs: vec![
            Pair { key: "index".to_string(), value: Value::Integer(0) },
            Pair { key: "msg".to_string(), value: Value::String("fugaaaaaaa".to_string()) },
        ],
    };
    assert_eq!(decode(&sample_object_hash()).unwrap(), expected);
}

#[test]
fn decode_xml() {
    assert_eq!(
        decode(&sample_xml()).unwrap(),
        Value::Xml("<a><b>hello world</b></a>".to_string())
    );
}

#[test]
fn amf3_decode_undefined() {
    assert_eq!(decode(&[0x00]).unwrap(), Value::Undefined);
}

#[test]
fn amf3_decode_null() {
    assert_eq!(decode(&[0x01]).unwrap(), Value::Null);
}

#[test]
fn amf3_decode_boolean() {
    assert_eq!(decode(&[0x02]).unwrap(), Value::Boolean(false));
    assert_eq!(decode(&[0x03]).unwrap(), Value::Boolean(true));
}

fn expected_array_assoc() -> Value {
    Value::Array {
        assoc_entries: vec![
            Pair { key: "en".to_string(), value: Value::String("Hello, world!".to_string()) },
            Pair { key: "ja".to_string(), value: Value::String("こんにちは、世界！".to_string()) },
            Pair { key: "zh".to_string(), value: Value::String("你好世界".to_string()) },
        ],
        dense_entries: vec![],
    }
}

fn expected_array_dense() -> Value {
    Value::Array {
        assoc_entries: vec![],
        dense_entries: vec![
            double(1.1_f64),
            Value::Integer(2_i32),
            double(3.3_f64),
            Value::String("こんにちは、世界！".to_string()),
        ],
    }
}

#[test]
fn decode_array() {
    let expected1 = expected_array_assoc();
    assert_eq!(decode(&sample_array_assoc()).unwrap(), expected1);

    let expected2 = expected_array_dense();
    assert_eq!(decode(&sample_array_dense()).unwrap(), expected2);
}

#[test]
fn decode_byte_array() {
    let expected = Value::ByteArray("hello".as_bytes().iter().cloned().collect());
    assert_eq!(decode(&sample_byte_array()).unwrap(), expected);
}

#[test]
fn decode_vector_int() {
    let expected = Value::IntVector { is_fixed: false, entries: vec![-1, 0, 1] };
    assert_eq!(decode(&sample_vector_int()).unwrap(), expected);
}

#[test]
fn decode_vector_uint() {
    let expected = Value::UintVector { is_fixed: false, entries: vec![0, 1, 2] };
    assert_eq!(decode(&sample_vector_uint()).unwrap(), expected);
}

#[test]
fn decode_vector_double() {
    let expected = Value::DoubleVector {
        is_fixed: false,
        entries: vec![(-1.1_f64).to_bits(), 0_f64.to_bits(), 1.1_f64.to_bits()],
    };
    assert_eq!(decode(&sample_vector_double()).unwrap(), expected);
}

fn expected_vector_object() -> Value {
    Value::ObjectVector {
        name: Some("com.pyyoshi.fooclass".to_string()),
        is_fixed: false,
        entries: vec![
            Value::Object {
                name: None,
                sealed_count: 2,
                pairs: vec![
                    Pair { key: "index".to_string(), value: Value::Integer(0) },
                    Pair {
                        key: "msg".to_string(),
                        value: Value::String("Hello, world!".to_string()),
                    },
                ],
            },
            Value::Object {
                name: None,
                sealed_count: 2,
                pairs: vec![
                    Pair { key: "index".to_string(), value: Value::Integer(1) },
                    Pair {
                        key: "msg".to_string(),
                        value: Value::String("こんにちは、世界！".to_string()),
                    },
                ],
            },
            Value::Object {
                name: None,
                sealed_count: 2,
                pairs: vec![
                    Pair { key: "index".to_string(), value: Value::Integer(2) },
                    Pair { key: "msg".to_string(), value: Value::String("你好世界".to_string()) },
                ],
            },
        ],
    }
}

#[test]
fn decode_vector_object() {
    let expected = expected_vector_object();
    assert_eq!(decode(&sample_vector_object()).unwrap(), expected);
}

fn expected_dictionary() -> Value {
    Value::Dictionary {
        is_weak: false,
        entries: vec![
            Pair {
                key: Value::String("en".to_string()),
                value: Value::String("Hello, world!".to_string()),
            },
            Pair {
                key: Value::String("ja".to_string()),
                value: Value::String("こんにちは、世界！".to_string()),
            },
            Pair {
                key: Value::String("zh".to_string()),
                value: Value::String("你好世界".to_string()),
            },
        ],
    }
}

#[test]
fn decode_dictionary() {
    let expected = expected_dictionary();
    assert_eq!(decode(&sample_dictionary()).unwrap(), expected);
}

#[test]
fn encode_integer() {
    assert_eq!(encode(&Value::Integer(0)), vec![0x04, 0x00]);
    assert_eq!(encode(&Value::Integer(128)), vec![0x04, 0x81, 0x00]);
    assert_eq!(encode(&Value::Integer(16384)), vec![0x04, 0x81, 0x80, 0x00]);
    assert_eq!(encode(&Value::Integer(268435455)), vec![0x04, 0xBF, 0xFF, 0xFF, 0xFF]);
    assert_eq!(encode(&Value::Integer(-268435456)), vec![0x04, 0xC0, 0x80, 0x80, 0x00]);
}

#[test]
fn encode_double() {
    assert_eq!(encode(&double(268435456_f64)), double_bytes(268435456_f64));
    assert_eq!(encode(&double(-268435457_f64)), double_bytes(-268435457_f64));
    assert_eq!(
        encode(&double(3.14_f64)),
        vec![0x05, 0x40, 0x09, 0x1E, 0xB8, 0x51, 0xEB, 0x85, 0x1F]
    );
}

#[test]
fn amf3_encode_string() {
    assert_eq!(encode(&Value::String("こんにちは、世界！".to_string())), sample_string());
}

#[test]
fn amf3_encode_xml_doc() {
    assert_eq!(
        encode(&Value::XmlDoc("<a><b>hello world</b></a>".to_string())),
        sample_xml_doc()
    );
}

#[test]
fn amf3_encode_date() {
    assert_eq!(encode(&Value::Date { unixtime: 1111111111_000 }), sample_date());
}

#[test]
fn amf3_encode_object() {
    let value = Value::Object {
        name: None,
        sealed_count: 0,
        pairs: vec![
            Pair { key: "index".to_string(), value: Value::Integer(0) },
            Pair { key: "msg".to_string(), value: Value::String("fugaaaaaaa".to_string()) },
        ],
    };
    assert_eq!(encode(&value), sample_object_hash());

    let value = Value::Object {
        name: Some("com.pyyoshi.nodynamichogeclass".to_string()),
        sealed_count: 0,
        pairs: vec![],
    };
    assert_eq!(encode(&value), sample_object_typed());
}

#[test]
fn encode_xml() {
    assert_eq!(encode(&Value::Xml("<a><b>hello world</b></a>".to_string())), sample_xml());
}

#[test]
fn amf3_encode_undefined() {
    assert_eq!(encode(&Value::Undefined), vec![0x00]);
}

#[test]
fn amf3_encode_null() {
    assert_eq!(encode(&Value::Null), vec![0x01]);
}

#[test]
fn amf3_encode_boolean() {
    assert_eq!(encode(&Value::Boolean(false)), vec![0x02]);
    assert_eq!(encode(&Value::Boolean(true)), vec![0x03]);
}

#[test]
fn encode_array() {
    let value = expected_array_assoc();
    assert_eq!(encode(&value), sample_array_assoc());

    let value = expected_array_dense();
    assert_eq!(encode(&value), sample_array_dense());
}

#[test]
fn encode_byte_array() {
    let value = Value::ByteArray("hello".as_bytes().iter().cloned().collect());
    assert_eq!(encode(&value), sample_byte_array());
}

#[test]
fn encode_vector_int() {
    let value = Value::IntVector { is_fixed: false, entries: vec![-1, 0, 1] };
    assert_eq!(encode(&value), sample_vector_int());
}

#[test]
fn encode_vector_uint() {
    let value = Value::UintVector { is_fixed: false, entries: vec![0, 1, 2] };
    assert_eq!(encode(&value), sample_vector_uint());
}

#[test]
fn encode_vector_double() {
    let value = Value::DoubleVector {
        is_fixed: false,
        entries: vec![(-1.1_f64).to_bits(), 0_f64.to_bits(), 1.1_f64.to_bits()],
    };
    assert_eq!(encode(&value), sample_vector_double());
}

#[test]
fn encode_vector_object() {
    let value = expected_vector_object();

    let buf = encode(&value);
    let result = Decoder::new(&buf[..]).decode().unwrap();
    assert_eq!(value, result);
}

#[test]
fn encode_dictionary() {
    let value = expected_dictionary();
    assert_eq!(encode(&value), sample_dictionary());
}
