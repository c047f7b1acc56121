use amf::amf0;
use amf::amf3;
use amf::double::double_of_millis;
use amf::double::millis_of_double;
use amf::DecodeError;
use amf::EncodeError;
use amf::IoError;
use amf::Pair;
use amf::Version;

fn encode3(value: &amf3::Value) -> Result<Vec<u8>, EncodeError> {
    let mut encoder = amf3::Encoder::new(Vec::new());
    encoder.encode(value)?;
    Ok(encoder.into_inner())
}

fn decode3(bytes: &[u8]) -> Result<amf3::Value, DecodeError> {
    amf3::Decoder::new(bytes).decode()
}

fn encode0(value: &amf0::Value) -> Result<Vec<u8>, EncodeError> {
    assert!(amf0::encoder::can_be_encoded(value));
    let mut encoder = amf0::Encoder::new(Vec::new());
    encoder.encode(value)?;
    Ok(encoder.into_inner())
}

fn decode0(bytes: &[u8]) -> Result<amf0::Value, DecodeError> {
    amf0::Decoder::new(bytes).decode()
}

fn u29(n: u32) -> Result<Vec<u8>, EncodeError> {
    let mut encoder = amf3::Encoder::new(Vec::new());
    encoder.encode_u29(n)?;
    Ok(encoder.into_inner())
}

fn read_u29(bytes: &[u8]) -> (Result<u32, DecodeError>, usize) {
    let mut decoder = amf3::Decoder::new(bytes);
    let r = decoder.decode_u29();
    (r, decoder.position())
}

fn sample3() -> Vec<amf3::Value> {
    let object = amf3::Value::Object {
        name: Some("org.example.Point".to_string()),
        sealed_count: 2,
        pairs: vec![
            Pair { key: "x".to_string(), value: amf3::Value::Integer(-7) },
            Pair { key: "".to_string(), value: amf3::Value::Double(2.5_f64.to_bits()) },
        ],
    };
    vec![
        amf3::Value::Undefined,
        amf3::Value::Null,
        amf3::Value::Boolean(false),
        amf3::Value::Boolean(true),
        amf3::Value::Integer(0),
        amf3::Value::Integer(amf3::MAX_29B_INT),
        amf3::Value::Integer(amf3::MIN_29B_INT),
        amf3::Value::Integer(-1),
        amf3::Value::Double(f64::NAN.to_bits()),
        amf3::Value::Double((-0.0_f64).to_bits()),
        amf3::Value::String(String::new()),
        amf3::Value::String("héllo".to_string()),
        amf3::Value::String("x".repeat(70_000)),
        amf3::Value::XmlDoc("<a/>".to_string()),
        amf3::Value::Xml("<b/>".to_string()),
        amf3::Value::Date { unixtime: 0 },
        amf3::Value::Date { unixtime: 1 << 53 },
        amf3::Value::Object { name: None, sealed_count: 0, pairs: vec![] },
        object.clone(),
        amf3::Value::Object {
            name: None,
            sealed_count: 0,
            pairs: vec![Pair { key: "a".to_string(), value: amf3::Value::Integer(1) }],
        },
        amf3::Value::Object {
            name: Some("org.example.Open".to_string()),
            sealed_count: 1,
            pairs: vec![
                Pair { key: "".to_string(), value: object.clone() },
                Pair { key: "more".to_string(), value: object.clone() },
                Pair { key: "most".to_string(), value: amf3::Value::Null },
            ],
        },
        amf3::Value::Array {
            assoc_entries: vec![Pair { key: "k".to_string(), value: object.clone() }],
            dense_entries: vec![amf3::Value::Null, object.clone(), amf3::Value::String("k".to_string())],
        },
        amf3::Value::ByteArray(vec![]),
        amf3::Value::ByteArray((0..=255).collect()),
        amf3::Value::IntVector { is_fixed: true, entries: vec![i32::MIN, -1, 0, i32::MAX] },
        amf3::Value::UintVector { is_fixed: false, entries: vec![0, 1, u32::MAX] },
        amf3::Value::DoubleVector { is_fixed: true, entries: vec![1.5_f64.to_bits(), u64::MAX] },
        amf3::Value::ObjectVector { name: None, is_fixed: true, entries: vec![object.clone()] },
        amf3::Value::ObjectVector {
            name: Some("org.example.Point".to_string()),
            is_fixed: false,
            entries: vec![],
        },
        amf3::Value::Dictionary {
            is_weak: true,
            entries: vec![
                Pair { key: amf3::Value::Integer(1), value: object.clone() },
                Pair { key: object.clone(), value: amf3::Value::Undefined },
            ],
        },
    ]
}

#[test]
fn amf3_values_are_read_back() {
    for value in sample3() {
        let bytes = encode3(&value).unwrap();
        let mut decoder = amf3::Decoder::new(&bytes);
        assert_eq!(decoder.decode().unwrap(), value);
        assert_eq!(decoder.position(), bytes.len());
    }
}

#[test]
fn amf3_values_are_read_back_from_the_middle_of_a_stream() {
    let mut stream = vec![0xAA, 0xBB];
    let mut ends = Vec::new();
    for value in sample3() {
        stream.extend(encode3(&value).unwrap());
        ends.push(stream.len());
    }
    stream.push(0xCC);
    let mut decoder = amf3::Decoder::resume(amf::wire::Cursor { bytes: &stream, pos: 2 });
    for (value, end) in sample3().into_iter().zip(ends) {
        assert_eq!(decoder.decode().unwrap(), value);
        assert_eq!(decoder.position(), end);
    }
}

#[test]
fn amf3_objects_with_dynamic_pairs_are_read_back() {
    let value = amf3::Value::Object {
        name: None,
        sealed_count: 1,
        pairs: vec![
            Pair { key: "a".to_string(), value: amf3::Value::Integer(1) },
            Pair { key: "b".to_string(), value: amf3::Value::Integer(2) },
        ],
    };
    let bytes = encode3(&value).unwrap();
    assert_eq!(
        bytes,
        vec![0x0A, 0x1B, 0x01, 0x03, b'a', 0x04, 0x01, 0x03, b'b', 0x04, 0x02, 0x01]
    );
    assert_eq!(decode3(&bytes).unwrap(), value);

    let value = amf3::Value::Object {
        name: None,
        sealed_count: 0,
        pairs: vec![Pair { key: "a".to_string(), value: amf3::Value::Integer(1) }],
    };
    let bytes = encode3(&value).unwrap();
    assert_eq!(bytes, vec![0x0A, 0x0B, 0x01, 0x03, 0x61, 0x04, 0x01, 0x01]);
    assert_eq!(decode3(&bytes).unwrap(), value);
}

#[test]
fn amf3_objects_that_count_more_sealed_fields_than_pairs_are_not_read_back() {
    let value = amf3::Value::Object {
        name: None,
        sealed_count: 2,
        pairs: vec![Pair { key: "a".to_string(), value: amf3::Value::Integer(1) }],
    };
    let bytes = encode3(&value).unwrap();
    assert_eq!(bytes, vec![0x0A, 0x23, 0x01, 0x03, b'a', 0x04, 0x01]);
    assert_ne!(decode3(&bytes).ok(), Some(value));
}

#[test]
fn a_dynamic_class_of_the_trait_table_takes_dynamic_pairs() {
    let stream = [
        0x09, 0x05, 0x01, // an array of two dense values
        0x0A, 0x1B, 0x03, b'C', 0x03, b'f', 0x04, 0x01, 0x03, b'g', 0x04, 0x02, 0x01,
        0x0A, 0x01, 0x04, 0x03, 0x03, b'h', 0x04, 0x04, 0x03, b'i', 0x04, 0x05, 0x01,
    ];
    let first = amf3::Value::Object {
        name: Some("C".to_string()),
        sealed_count: 1,
        pairs: vec![
            Pair { key: "f".to_string(), value: amf3::Value::Integer(1) },
            Pair { key: "g".to_string(), value: amf3::Value::Integer(2) },
        ],
    };
    let second = amf3::Value::Object {
        name: Some("C".to_string()),
        sealed_count: 1,
        pairs: vec![
            Pair { key: "f".to_string(), value: amf3::Value::Integer(3) },
            Pair { key: "h".to_string(), value: amf3::Value::Integer(4) },
            Pair { key: "i".to_string(), value: amf3::Value::Integer(5) },
        ],
    };
    assert_eq!(
        decode3(&stream),
        Ok(amf3::Value::Array { assoc_entries: vec![], dense_entries: vec![first, second] })
    );
}

#[test]
fn amf3_names_that_the_decoder_takes_for_none() {
    let value = amf3::Value::Object { name: Some(String::new()), sealed_count: 0, pairs: vec![] };
    let back = decode3(&encode3(&value).unwrap()).unwrap();
    assert_eq!(back, amf3::Value::Object { name: None, sealed_count: 0, pairs: vec![] });

    let value =
        amf3::Value::ObjectVector { name: Some("*".to_string()), is_fixed: false, entries: vec![] };
    let back = decode3(&encode3(&value).unwrap()).unwrap();
    assert_eq!(back, amf3::Value::ObjectVector { name: None, is_fixed: false, entries: vec![] });
}

#[test]
fn u29_boundaries() {
    assert_eq!(u29(0).unwrap(), vec![0x00]);
    assert_eq!(u29(0x7F).unwrap(), vec![0x7F]);
    assert_eq!(u29(0x80).unwrap(), vec![0x81, 0x00]);
    assert_eq!(u29(0x3FFF).unwrap(), vec![0xFF, 0x7F]);
    assert_eq!(u29(0x4000).unwrap(), vec![0x81, 0x80, 0x00]);
    assert_eq!(u29(0x1F_FFFF).unwrap(), vec![0xFF, 0xFF, 0x7F]);
    assert_eq!(u29(0x20_0000).unwrap(), vec![0x80, 0xC0, 0x80, 0x00]);
    assert_eq!(u29(0x1FFF_FFFF).unwrap(), vec![0xFF, 0xFF, 0xFF, 0xFF]);
    assert_eq!(u29(0x3FFF_FFFF).unwrap(), vec![0xFF, 0xFF, 0xFF, 0xFF]);
    for n in [0, 0x7F, 0x80, 0x3FFF, 0x4000, 0x1F_FFFF, 0x20_0000, 0x1234_5678, 0x1FFF_FFFF] {
        let bytes = u29(n).unwrap();
        assert_eq!(read_u29(&bytes), (Ok(n), bytes.len()));
    }
    for n in [0x2000_0000, 0x2345_6789, 0x3FFF_FFFF] {
        let bytes = u29(n).unwrap();
        assert_eq!(read_u29(&bytes), (Ok(n - 0x2000_0000), 4));
    }
}

#[test]
fn u29_overflow() {
    assert_eq!(u29(0x4000_0000), Err(EncodeError::U29Overflow { u29: 0x4000_0000 }));
    assert_eq!(u29(u32::MAX), Err(EncodeError::U29Overflow { u29: u32::MAX }));
    assert_eq!(
        encode3(&amf3::Value::Integer(0x4000_0000)),
        Err(EncodeError::U29Overflow { u29: 0x4000_0000 })
    );
    assert_eq!(
        encode3(&amf3::Value::Integer(i32::MIN)),
        Err(EncodeError::U29Overflow { u29: 0xA000_0000 })
    );
    assert_eq!(
        encode3(&amf3::Value::Object { name: None, sealed_count: 1 << 26, pairs: vec![] }),
        Err(EncodeError::U29Overflow { u29: 0x4000_0003 })
    );
    assert_eq!(
        encode3(&amf3::Value::Object { name: None, sealed_count: 1 << 28, pairs: vec![] }),
        Err(EncodeError::U29Overflow { u29: u32::MAX })
    );
}

#[test]
fn a_failed_encoding_writes_nothing() {
    let value = amf3::Value::Array {
        assoc_entries: vec![],
        dense_entries: vec![amf3::Value::Integer(1), amf3::Value::Integer(0x7FFF_FFFF)],
    };
    let mut encoder = amf3::Encoder::new(vec![0xEE]);
    assert_eq!(encoder.encode(&value), Err(EncodeError::U29Overflow { u29: 0x7FFF_FFFF }));
    assert_eq!(encoder.into_inner(), vec![0xEE]);

    let mut encoder = amf0::Encoder::new(vec![0xEE]);
    let value = amf0::Value::Array {
        values: vec![amf0::Value::Null, amf0::Value::AvmPlus(amf3::Value::Integer(i32::MAX))],
    };
    assert_eq!(encoder.encode(&value), Err(EncodeError::U29Overflow { u29: 0x7FFF_FFFF }));
    assert_eq!(encoder.into_inner(), vec![0xEE]);
}

#[test]
fn encoders_append() {
    let mut encoder = amf3::Encoder::new(vec![0xEE]);
    encoder.encode(&amf3::Value::Null).unwrap();
    encoder.encode(&amf3::Value::Integer(5)).unwrap();
    assert_eq!(encoder.into_inner(), vec![0xEE, 0x01, 0x04, 0x05]);

    let mut encoder = amf0::Encoder::new(vec![0xEE]);
    encoder.encode(&amf0::Value::Null).unwrap();
    encoder.encode(&amf0::Value::Boolean(true)).unwrap();
    assert_eq!(encoder.into_inner(), vec![0xEE, 0x05, 0x01, 0x01]);
}

#[test]
fn signed_integer_wraparound() {
    assert_eq!(decode3(&[0x04, 0xBF, 0xFF, 0xFF, 0xFF]), Ok(amf3::Value::Integer(268435455)));
    assert_eq!(decode3(&[0x04, 0xC0, 0x80, 0x80, 0x00]), Ok(amf3::Value::Integer(-268435456)));
    assert_eq!(decode3(&[0x04, 0xFF, 0xFF, 0xFF, 0xFF]), Ok(amf3::Value::Integer(-1)));
    assert_eq!(
        encode3(&amf3::Value::Integer(0x1000_0000)).unwrap(),
        vec![0x04, 0xC0, 0x80, 0x80, 0x00]
    );
    assert_eq!(
        encode3(&amf3::Value::Integer(-0x1000_0001)).unwrap(),
        vec![0x04, 0xBF, 0xFF, 0xFF, 0xFF]
    );
}

fn strict_array_of_numbers() -> (amf0::Value, Vec<u8>) {
    let value = amf0::Value::Array {
        values: vec![
            amf0::Value::Number(1_f64.to_bits()),
            amf0::Value::Number(2_f64.to_bits()),
            amf0::Value::Number(3_f64.to_bits()),
        ],
    };
    let bytes = encode0(&value).unwrap();
    (value, bytes)
}

#[test]
fn reference_resolution() {
    let (array, mut stream) = strict_array_of_numbers();
    stream.extend([0x07, 0x00, 0x00, 0x07, 0x00, 0x00, 0x07, 0x00, 0x01]);
    let mut decoder = amf0::Decoder::new(&stream);
    assert_eq!(decoder.decode(), Ok(array.clone()));
    assert_eq!(decoder.decode_value(), Ok(array.clone()));
    assert_eq!(decoder.decode_value(), Ok(array.clone()));
    assert_eq!(decoder.decode_value(), Err(DecodeError::NotFoundInReferenceTable { index: 1 }));
    assert_eq!(decoder.position(), stream.len());
}

#[test]
fn a_top_level_decode_forgets_the_table() {
    let (array, mut stream) = strict_array_of_numbers();
    stream.extend([0x07, 0x00, 0x00]);
    let mut decoder = amf0::Decoder::new(&stream);
    assert_eq!(decoder.decode(), Ok(array));
    assert_eq!(decoder.decode(), Err(DecodeError::NotFoundInReferenceTable { index: 0 }));
}

#[test]
fn references_count_composites_from_the_outside_in() {
    // An array of an inner array and two references: the outer array is
    // entry 0 of the table, the inner one entry 1.
    let stream = [
        0x0A, 0x00, 0x00, 0x00, 0x03, 0x0A, 0x00, 0x00, 0x00, 0x01, 0x05, 0x07, 0x00, 0x01, 0x07,
        0x00, 0x00,
    ];
    let inner = amf0::Value::Array { values: vec![amf0::Value::Null] };
    assert_eq!(
        decode0(&stream),
        Ok(amf0::Value::Array { values: vec![inner.clone(), inner, amf0::Value::Null] })
    );
}

#[test]
fn pairs_termination() {
    assert_eq!(
        decode0(&[0x03, 0x00, 0x00, 0x09]),
        Ok(amf0::Value::Object { name: None, pairs: vec![] })
    );
    assert_eq!(
        decode0(&[0x08, 0x00, 0x00, 0x00, 0x00, 0x00, 0x00, 0x09]),
        Ok(amf0::Value::EcmaArray { pairs: vec![] })
    );
    assert_eq!(
        decode0(&[0x10, 0x00, 0x01, b'C', 0x00, 0x00, 0x09]),
        Ok(amf0::Value::Object { name: Some("C".to_string()), pairs: vec![] })
    );
    assert_eq!(
        decode3(&[0x0A, 0x0B, 0x01, 0x01]),
        Ok(amf3::Value::Object { name: None, sealed_count: 0, pairs: vec![] })
    );
}

#[test]
fn an_object_end_after_a_key_is_an_error() {
    assert_eq!(decode0(&[0x03, 0x00, 0x01, b'k', 0x09]), Err(DecodeError::NotExpectedObjectEnd));
}

#[test]
fn an_empty_key_may_have_a_value() {
    let value = amf0::Value::Object {
        name: None,
        pairs: vec![Pair { key: String::new(), value: amf0::Value::Null }],
    };
    let bytes = encode0(&value).unwrap();
    assert_eq!(bytes, vec![0x03, 0x00, 0x00, 0x05, 0x00, 0x00, 0x09]);
    assert_eq!(decode0(&bytes), Ok(value));
}

#[test]
fn an_object_end_inside_the_value_of_an_empty_key_ends_the_pairs() {
    // The value of the empty key is an array whose first value is an
    // object-end marker.
    let stream = [0x03, 0x00, 0x00, 0x0A, 0x00, 0x00, 0x00, 0x01, 0x09, 0x05];
    let mut decoder = amf0::Decoder::new(&stream);
    assert_eq!(decoder.decode(), Ok(amf0::Value::Object { name: None, pairs: vec![] }));
    assert_eq!(decoder.position(), 9);
}

#[test]
fn trait_reuse() {
    let stream = [
        0x09, 0x05, 0x01, // an array of two dense values
        0x0A, 0x13, 0x03, b'C', 0x03, b'f', 0x04, 0x01, // an object with its trait
        0x0A, 0x01, 0x04, 0x02, // an object of the first trait of the table
    ];
    let object = |n: i32| amf3::Value::Object {
        name: Some("C".to_string()),
        sealed_count: 1,
        pairs: vec![Pair { key: "f".to_string(), value: amf3::Value::Integer(n) }],
    };
    assert_eq!(
        decode3(&stream),
        Ok(amf3::Value::Array { assoc_entries: vec![], dense_entries: vec![object(1), object(2)] })
    );
    assert_eq!(
        decode3(&[0x0A, 0x05, 0x04, 0x02]),
        Err(DecodeError::NotFoundInReferenceTable { index: 1 })
    );
}

#[test]
fn dynamic_traits_take_pairs_after_the_sealed_fields() {
    let stream = [
        0x0A, 0x1B, 0x01, 0x03, b'f', 0x04, 0x01, 0x03, b'g', 0x04, 0x02, 0x03, b'h', 0x04, 0x03,
        0x01,
    ];
    assert_eq!(
        decode3(&stream),
        Ok(amf3::Value::Object {
            name: None,
            sealed_count: 1,
            pairs: vec![
                Pair { key: "f".to_string(), value: amf3::Value::Integer(1) },
                Pair { key: "g".to_string(), value: amf3::Value::Integer(2) },
                Pair { key: "h".to_string(), value: amf3::Value::Integer(3) },
            ],
        })
    );
}

#[test]
fn string_references() {
    let stream = [0x09, 0x05, 0x01, 0x06, 0x05, b'h', b'i', 0x06, 0x00];
    let hi = amf3::Value::String("hi".to_string());
    assert_eq!(
        decode3(&stream),
        Ok(amf3::Value::Array { assoc_entries: vec![], dense_entries: vec![hi.clone(), hi] })
    );
    // The empty string enters no table.
    assert_eq!(
        decode3(&[0x09, 0x05, 0x01, 0x06, 0x01, 0x06, 0x00]),
        Err(DecodeError::NotFoundInReferenceTable { index: 0 })
    );
    assert_eq!(
        decode3(&[0x06, 0x04]),
        Err(DecodeError::NotFoundInReferenceTable { index: 2 })
    );
}

#[test]
fn object_references() {
    let bytes = amf3::Value::ByteArray(vec![1, 2]);
    assert_eq!(
        decode3(&[0x09, 0x05, 0x01, 0x0C, 0x05, 0x01, 0x02, 0x0C, 0x02]),
        Ok(amf3::Value::Array { assoc_entries: vec![], dense_entries: vec![bytes.clone(), bytes] })
    );
    let object = amf3::Value::Object { name: None, sealed_count: 0, pairs: vec![] };
    assert_eq!(
        decode3(&[0x09, 0x05, 0x01, 0x0A, 0x03, 0x01, 0x0A, 0x02]),
        Ok(amf3::Value::Array {
            assoc_entries: vec![],
            dense_entries: vec![object.clone(), object]
        })
    );
    assert_eq!(
        decode3(&[0x0A, 0x06]),
        Err(DecodeError::NotFoundInReferenceTable { index: 3 })
    );
    assert_eq!(decode3(&[0x07, 0x00]), Err(DecodeError::NotFoundInReferenceTable { index: 0 }));
}

#[test]
fn a_reference_to_a_composite_under_construction_gives_null() {
    assert_eq!(
        decode3(&[0x09, 0x03, 0x01, 0x09, 0x00]),
        Ok(amf3::Value::Array { assoc_entries: vec![], dense_entries: vec![amf3::Value::Null] })
    );
    assert_eq!(
        decode0(&[0x0A, 0x00, 0x00, 0x00, 0x01, 0x07, 0x00, 0x00]),
        Ok(amf0::Value::Array { values: vec![amf0::Value::Null] })
    );
}

#[test]
fn unsupported_types() {
    for marker in [0x04, 0x0D, 0x0E] {
        let stream = [marker, 0x00];
        let mut decoder = amf0::Decoder::new(&stream);
        assert_eq!(decoder.decode(), Err(DecodeError::NotSupportedType { marker }));
        assert_eq!(decoder.position(), 1);
    }
    assert_eq!(
        decode3(&[0x0A, 0x07, 0x07, b'E', b'x', b't', 0x00]),
        Err(DecodeError::ExternalizableType { name: "Ext".to_string() })
    );
}

#[test]
fn unknown_markers() {
    assert_eq!(decode0(&[0x12]), Err(DecodeError::UnknownType { marker: 0x12 }));
    assert_eq!(decode0(&[0xFF]), Err(DecodeError::UnknownType { marker: 0xFF }));
    assert_eq!(decode3(&[0x12]), Err(DecodeError::UnknownType { marker: 0x12 }));
    assert_eq!(
        decode0(&[0x11, 0x12]),
        Err(DecodeError::UnknownType { marker: 0x12 })
    );
}

#[test]
fn truncated_input() {
    let eof = |e: DecodeError| matches!(e, DecodeError::Io(IoError::UnexpectedEof));
    assert!(eof(decode0(&[]).unwrap_err()));
    assert!(eof(decode3(&[]).unwrap_err()));
    assert!(eof(decode0(&[0x00, 0x40, 0x93]).unwrap_err()));
    assert!(eof(decode0(&[0x02, 0x00, 0x05, b'a']).unwrap_err()));
    assert!(eof(decode0(&[0x0C, 0xFF, 0xFF, 0xFF, 0xFF, b'a']).unwrap_err()));
    assert!(eof(decode0(&[0x0A, 0x00, 0x00, 0x00, 0x02, 0x05]).unwrap_err()));
    assert!(eof(decode0(&[0x03, 0x00, 0x00]).unwrap_err()));
    assert!(eof(decode0(&[0x0B, 0, 0, 0, 0, 0, 0, 0, 0, 0]).unwrap_err()));
    assert!(eof(decode3(&[0x04, 0x80]).unwrap_err()));
    assert!(eof(decode3(&[0x06, 0x05, b'a']).unwrap_err()));
    assert!(eof(decode3(&[0x0D, 0x05, 0x00, 0, 0, 0, 1, 0, 0]).unwrap_err()));
    assert!(eof(decode3(&[0x0F, 0xFF, 0xFF, 0xFF, 0xFF, 0x00]).unwrap_err()));
    assert!(eof(decode3(&[0x09, 0x03, 0x01]).unwrap_err()));

    let stream = [0x04, 0x80, 0x80];
    let mut decoder = amf3::Decoder::new(&stream);
    assert!(eof(decoder.decode().unwrap_err()));
    assert_eq!(decoder.position(), 3);
}

#[test]
fn equality_of_errors() {
    assert_eq!(
        DecodeError::NotSupportedType { marker: 4 },
        DecodeError::NotSupportedType { marker: 4 }
    );
    assert_ne!(
        DecodeError::NotSupportedType { marker: 4 },
        DecodeError::NotSupportedType { marker: 5 }
    );
    assert_ne!(DecodeError::NotSupportedType { marker: 4 }, DecodeError::UnknownType { marker: 4 });
    assert_eq!(DecodeError::UnknownType { marker: 9 }, DecodeError::UnknownType { marker: 9 });
    assert_eq!(DecodeError::NotExpectedObjectEnd, DecodeError::NotExpectedObjectEnd);
    assert_eq!(
        DecodeError::NotSupportedReferenceTables { index: 1 },
        DecodeError::NotSupportedReferenceTables { index: 1 }
    );
    assert_ne!(
        DecodeError::NotSupportedReferenceTables { index: 1 },
        DecodeError::NotFoundInReferenceTable { index: 1 }
    );
    assert_ne!(
        DecodeError::NotFoundInReferenceTable { index: 1 },
        DecodeError::NotFoundInReferenceTable { index: 2 }
    );
    assert_eq!(
        DecodeError::ExternalizableType { name: "a".to_string() },
        DecodeError::ExternalizableType { name: "a".to_string() }
    );
    assert_ne!(
        DecodeError::ExternalizableType { name: "a".to_string() },
        DecodeError::ExternalizableType { name: "b".to_string() }
    );
    assert_ne!(DecodeError::Io(IoError::UnexpectedEof), DecodeError::Io(IoError::UnexpectedEof));
    let broken = || String::from_utf8(vec![0xFF]).unwrap_err();
    assert_ne!(DecodeError::String(broken()), DecodeError::String(broken()));
    assert_ne!(DecodeError::Io(IoError::UnexpectedEof), DecodeError::NotExpectedObjectEnd);

    assert_eq!(EncodeError::U29Overflow { u29: 7 }, EncodeError::U29Overflow { u29: 7 });
    assert_ne!(EncodeError::U29Overflow { u29: 7 }, EncodeError::U29Overflow { u29: 8 });
    assert_eq!(
        EncodeError::NotSupportedType { marker: 7 },
        EncodeError::NotSupportedType { marker: 7 }
    );
    assert_ne!(EncodeError::NotSupportedType { marker: 7 }, EncodeError::U29Overflow { u29: 7 });
    assert_ne!(EncodeError::Io(IoError::UnexpectedEof), EncodeError::Io(IoError::UnexpectedEof));
    assert_ne!(EncodeError::String(broken()), EncodeError::String(broken()));
}

#[test]
fn invalid_text() {
    assert!(matches!(decode0(&[0x02, 0x00, 0x01, 0xFF]), Err(DecodeError::String(_))));
    assert!(matches!(decode3(&[0x06, 0x05, 0xC3, 0x28]), Err(DecodeError::String(_))));
    assert!(matches!(decode3(&[0x07, 0x03, 0x80]), Err(DecodeError::String(_))));
    let stream = [0x0F, 0x00, 0x00, 0x00, 0x02, 0xE2, 0x82, 0x00];
    let mut decoder = amf0::Decoder::new(&stream);
    assert!(matches!(decoder.decode(), Err(DecodeError::String(_))));
    assert_eq!(decoder.position(), 7);
}

#[test]
fn concrete_number() {
    let bytes = [0x00, 0x40, 0x93, 0x4A, 0x00, 0x00, 0x00, 0x00, 0x00];
    assert_eq!(decode0(&bytes), Ok(amf0::Value::Number(1234.5_f64.to_bits())));
    assert_eq!(encode0(&amf0::Value::Number(1234.5_f64.to_bits())).unwrap(), bytes.to_vec());
}

fn sample0() -> Vec<amf0::Value> {
    let object = amf0::Value::Object {
        name: Some("C".to_string()),
        pairs: vec![
            Pair { key: "a".to_string(), value: amf0::Value::Null },
            Pair { key: String::new(), value: amf0::Value::Boolean(true) },
        ],
    };
    vec![
        amf0::Value::Number(f64::NAN.to_bits()),
        amf0::Value::Number(0),
        amf0::Value::Boolean(false),
        amf0::Value::Boolean(true),
        amf0::Value::String(String::new()),
        amf0::Value::String("x".repeat(0xFFFF)),
        amf0::Value::LongString("x".repeat(0x1_0000)),
        amf0::Value::Object { name: None, pairs: vec![] },
        object.clone(),
        amf0::Value::Null,
        amf0::Value::Undefined,
        amf0::Value::EcmaArray {
            pairs: vec![Pair { key: "k".to_string(), value: object.clone() }],
        },
        amf0::Value::Array { values: vec![] },
        amf0::Value::Array { values: vec![object.clone(), object.clone()] },
        amf0::Value::Date { unixtime: 1_700_000_000_123 },
        amf0::Value::XmlDoc(String::new()),
        amf0::Value::XmlDoc("<a/>".to_string()),
        amf0::Value::AvmPlus(amf3::Value::Integer(-3)),
        amf0::Value::Array {
            values: vec![
                amf0::Value::AvmPlus(amf3::Value::String("s".to_string())),
                amf0::Value::AvmPlus(amf3::Value::String("s".to_string())),
                amf0::Value::Number(1),
            ],
        },
    ]
}

#[test]
fn amf0_values_are_read_back() {
    let mut stream = Vec::new();
    let mut ends = Vec::new();
    for value in sample0() {
        let bytes = encode0(&value).unwrap();
        assert_eq!(decode0(&bytes), Ok(value));
        stream.extend(bytes);
        ends.push(stream.len());
    }
    let mut decoder = amf0::Decoder::new(&stream);
    for (value, end) in sample0().into_iter().zip(ends) {
        assert_eq!(decoder.decode(), Ok(value));
        assert_eq!(decoder.position(), end);
    }
}

#[test]
fn strings_take_the_marker_of_their_length() {
    let short = "x".repeat(0xFFFF);
    let long = "x".repeat(0x1_0000);
    assert_eq!(encode0(&amf0::Value::String(short.clone())).unwrap()[..3], [0x02, 0xFF, 0xFF]);
    assert_eq!(encode0(&amf0::Value::LongString(short.clone())).unwrap()[..3], [0x02, 0xFF, 0xFF]);
    assert_eq!(
        encode0(&amf0::Value::String(long.clone())).unwrap()[..5],
        [0x0C, 0x00, 0x01, 0x00, 0x00]
    );
    assert_eq!(
        decode0(&encode0(&amf0::Value::LongString(short.clone())).unwrap()),
        Ok(amf0::Value::String(short))
    );
    assert_eq!(
        decode0(&encode0(&amf0::Value::String(long.clone())).unwrap()),
        Ok(amf0::Value::LongString(long))
    );
}

#[test]
fn keys_and_class_names_must_be_short() {
    let long = "x".repeat(0x1_0000);
    let short = "x".repeat(0xFFFF);
    assert!(amf0::encoder::fits_short(&short));
    assert!(!amf0::encoder::fits_short(&long));
    assert!(amf0::encoder::fits_long(&long));
    assert!(amf0::encoder::can_be_encoded(&amf0::Value::String(long.clone())));
    assert!(!amf0::encoder::can_be_encoded(&amf0::Value::Object {
        name: Some(long.clone()),
        pairs: vec![]
    }));
    assert!(amf0::encoder::can_be_encoded(&amf0::Value::Object {
        name: Some(short.clone()),
        pairs: vec![Pair { key: short.clone(), value: amf0::Value::Null }]
    }));
    let nested = amf0::Value::Array {
        values: vec![
            amf0::Value::Null,
            amf0::Value::EcmaArray {
                pairs: vec![Pair { key: long.clone(), value: amf0::Value::Null }],
            },
        ],
    };
    assert!(!amf0::encoder::can_be_encoded(&nested));
    assert!(!amf0::encoder::values_can_be_encoded(&vec![nested]));
    assert!(!amf0::encoder::properties_can_be_encoded(&vec![Pair {
        key: long,
        value: amf0::Value::Null
    }]));
}

#[test]
fn counts_of_associative_arrays_are_passed_over() {
    assert_eq!(
        decode0(&[0x08, 0xFF, 0xFF, 0xFF, 0xFF, 0x00, 0x01, b'k', 0x05, 0x00, 0x00, 0x09]),
        Ok(amf0::Value::EcmaArray {
            pairs: vec![Pair { key: "k".to_string(), value: amf0::Value::Null }]
        })
    );
}

#[test]
fn the_time_zone_of_a_date_is_passed_over() {
    let mut bytes = vec![0x0B];
    bytes.extend(5000_f64.to_be_bytes());
    bytes.extend([0x12, 0x34]);
    assert_eq!(decode0(&bytes), Ok(amf0::Value::Date { unixtime: 5000 }));
}

#[test]
fn the_header_of_an_amf3_date_is_passed_over() {
    let mut bytes = vec![0x08, 0x06];
    bytes.extend(5000.75_f64.to_be_bytes());
    assert_eq!(decode3(&bytes), Ok(amf3::Value::Date { unixtime: 5000 }));
}

#[test]
fn doubles_to_milliseconds() {
    let doubles = [
        0.0,
        -0.0,
        0.5,
        0.999_999,
        1.0,
        1.5,
        2.0,
        1234.5,
        -1.0,
        -1e300,
        4503599627370495.5,
        4503599627370496.0,
        9007199254740991.0,
        9007199254740992.0,
        9007199254740994.0,
        1e17,
        1.8446744073709550e19,
        18446744073709551615.0,
        1.8446744073709552e19,
        3.6893488147419103e19,
        1e300,
        f64::MIN_POSITIVE,
        f64::MAX,
        f64::MIN,
        f64::INFINITY,
        f64::NEG_INFINITY,
        f64::NAN,
        -f64::NAN,
        f64::EPSILON,
        5e-324,
    ];
    for x in doubles {
        assert_eq!(millis_of_double(x.to_bits()), x as u64, "{}", x);
    }
    assert_eq!(millis_of_double(1234.5_f64.to_bits()), 1234);
    assert_eq!(millis_of_double(f64::INFINITY.to_bits()), u64::MAX);
    assert_eq!(millis_of_double(f64::NAN.to_bits()), 0);
    assert_eq!(millis_of_double((-5.0_f64).to_bits()), 0);
    let mut bits: u64 = 0x9E37_79B9_7F4A_7C15;
    for _ in 0..20_000 {
        bits = bits.wrapping_mul(6364136223846793005).wrapping_add(1442695040888963407);
        assert_eq!(millis_of_double(bits), f64::from_bits(bits) as u64, "{:#x}", bits);
        let narrow = (bits >> 12) | (0x3FF << 52) | ((bits & 0x3F) << 52);
        assert_eq!(millis_of_double(narrow), f64::from_bits(narrow) as u64, "{:#x}", narrow);
    }
}

#[test]
fn milliseconds_to_doubles() {
    let counts = [
        0,
        1,
        2,
        3,
        1000,
        1111111111_000,
        (1 << 52) - 1,
        1 << 52,
        (1 << 53) - 1,
        1 << 53,
        (1 << 53) + 1,
        (1 << 53) + 2,
        (1 << 53) + 3,
        (1 << 54) + 2,
        (1 << 54) + 6,
        (1 << 54) - 1,
        (1 << 63) - 1,
        1 << 63,
        (1 << 63) + 1024,
        (1 << 63) + 1025,
        (1 << 63) + 3072,
        u64::MAX - 1024,
        u64::MAX - 1023,
        u64::MAX,
    ];
    for ms in counts {
        assert_eq!(double_of_millis(ms), (ms as f64).to_bits(), "{}", ms);
    }
    assert_eq!(double_of_millis(1), 0x3FF0_0000_0000_0000);
    assert_eq!(double_of_millis(u64::MAX), 0x43F0_0000_0000_0000);
    let mut ms: u64 = 0x2545_F491_4F6C_DD1D;
    for i in 0..20_000 {
        ms = ms.wrapping_mul(6364136223846793005).wrapping_add(1442695040888963407);
        let narrowed = ms >> (i % 64);
        assert_eq!(double_of_millis(narrowed), (narrowed as f64).to_bits(), "{}", narrowed);
    }
}

#[test]
fn milliseconds_are_read_back_up_to_two_to_the_53() {
    for ms in [0, 1, 999, 1 << 40, (1 << 53) - 1, 1 << 53] {
        assert_eq!(millis_of_double(double_of_millis(ms)), ms);
    }
    assert_eq!(millis_of_double(double_of_millis((1 << 53) + 1)), 1 << 53);
}

#[test]
fn values_are_copied_in_depth() {
    for value in sample3() {
        assert_eq!(value.clone(), value);
    }
    for value in sample0() {
        assert_eq!(value.clone(), value);
    }
}

#[test]
fn version_numbers() {
    assert_eq!(Version::AMF0.number(), 0);
    assert_eq!(Version::AMF3.number(), 3);
}

#[test]
fn big_endian_fields() {
    // A 16-bit length, a 32-bit length, a 32-bit count, a double, and the
    // items of numeric vectors: each in an order that no other reading of
    // the bytes gives.
    assert_eq!(
        decode0(&[0x07, 0x01, 0x02]),
        Err(DecodeError::NotFoundInReferenceTable { index: 0x0102 })
    );
    let mut long = vec![0x0C, 0x00, 0x00, 0x01, 0x02];
    long.extend(vec![b'a'; 0x0102]);
    assert_eq!(decode0(&long), Ok(amf0::Value::LongString("a".repeat(0x0102))));
    assert_eq!(
        decode0(&[0x00, 0x01, 0x02, 0x03, 0x04, 0x05, 0x06, 0x07, 0x08]),
        Ok(amf0::Value::Number(0x0102_0304_0506_0708))
    );
    assert_eq!(
        decode3(&[0x0D, 0x03, 0x00, 0x80, 0x00, 0x00, 0x01]),
        Ok(amf3::Value::IntVector { is_fixed: false, entries: vec![-0x7FFF_FFFF] })
    );
    assert_eq!(
        decode3(&[0x0E, 0x03, 0x01, 0x80, 0x00, 0x00, 0x01]),
        Ok(amf3::Value::UintVector { is_fixed: true, entries: vec![0x8000_0001] })
    );
    assert_eq!(
        encode3(&amf3::Value::IntVector { is_fixed: true, entries: vec![-2, 0x0102_0304] }).unwrap(),
        vec![0x0D, 0x05, 0x01, 0xFF, 0xFF, 0xFF, 0xFE, 0x01, 0x02, 0x03, 0x04]
    );
    assert_eq!(
        encode3(&amf3::Value::UintVector { is_fixed: false, entries: vec![0x0102_0304] }).unwrap(),
        vec![0x0E, 0x03, 0x00, 0x01, 0x02, 0x03, 0x04]
    );
    assert_eq!(
        encode3(&amf3::Value::Double(0x0102_0304_0506_0708)).unwrap(),
        vec![0x05, 0x01, 0x02, 0x03, 0x04, 0x05, 0x06, 0x07, 0x08]
    );
    assert_eq!(
        encode0(&amf0::Value::String("a".repeat(0x0102))).unwrap()[..3],
        [0x02, 0x01, 0x02]
    );
    assert_eq!(
        encode0(&amf0::Value::XmlDoc("a".repeat(0x0102))).unwrap()[..5],
        [0x0F, 0x00, 0x00, 0x01, 0x02]
    );
}

#[test]
fn equality_of_values() {
    let all3 = sample3();
    for (i, a) in all3.iter().enumerate() {
        for (j, b) in all3.iter().enumerate() {
            assert_eq!(a == b, i == j, "{:?} and {:?}", a, b);
            assert_eq!(amf3::same(a, b), i == j);
        }
    }
    let all0 = sample0();
    for (i, a) in all0.iter().enumerate() {
        for (j, b) in all0.iter().enumerate() {
            assert_eq!(a == b, i == j, "{:?} and {:?}", a, b);
            assert_eq!(amf0::same(a, b), i == j);
        }
    }
    let pair = |k: &str, v: i32| Pair { key: k.to_string(), value: amf3::Value::Integer(v) };
    assert_eq!(pair("a", 1), pair("a", 1));
    assert_ne!(pair("a", 1), pair("b", 1));
    assert_ne!(pair("a", 1), pair("a", 2));
    let object = |sealed_count: usize, pairs: Vec<Pair<String, amf3::Value>>| amf3::Value::Object {
        name: None,
        sealed_count,
        pairs,
    };
    assert_ne!(object(0, vec![pair("a", 1)]), object(1, vec![pair("a", 1)]));
    assert_ne!(object(1, vec![pair("a", 1)]), object(1, vec![pair("a", 1), pair("b", 2)]));
    assert_ne!(
        object(2, vec![pair("a", 1), pair("b", 2)]),
        object(2, vec![pair("b", 2), pair("a", 1)])
    );
    assert_eq!(
        amf3::Value::Double(f64::NAN.to_bits()),
        amf3::Value::Double(f64::NAN.to_bits())
    );
    assert_ne!(amf3::Value::Double(0_f64.to_bits()), amf3::Value::Double((-0_f64).to_bits()));
    assert_ne!(amf3::Value::XmlDoc("a".to_string()), amf3::Value::Xml("a".to_string()));
    assert_ne!(amf0::Value::String("a".to_string()), amf0::Value::LongString("a".to_string()));
    assert_ne!(Version::AMF0, Version::AMF3);
    assert_eq!(IoError::UnexpectedEof, IoError::UnexpectedEof);
}
