use astron_core::codec::decode;
use astron_core::codec::encode;
use astron_core::codec::FieldType;
use astron_core::codec::Value;
use astron_core::errors::CodecError;
use astron_core::errors::SchemaError;
use astron_core::framing::deframe;
use astron_core::framing::detect_proxy_preamble;
use astron_core::framing::frame;
use astron_core::framing::PreambleStatus;
use astron_core::errors::ProtocolError;
use astron_core::schema::compile;
use astron_core::schema::ClassDef;
use astron_core::schema::FieldDef;

fn round_trip(t: &FieldType, v: Value) {
    let bytes = encode(t, &v).expect("value matches its type");
    let back = decode(t, &bytes).expect("own encoding decodes");
    assert_eq!(back, v);
}

#[test]
fn round_trip_integers() {
    round_trip(&FieldType::UInt8, Value::U8(0));
    round_trip(&FieldType::UInt8, Value::U8(255));
    round_trip(&FieldType::UInt16, Value::U16(0x1234));
    round_trip(&FieldType::UInt32, Value::U32(0xDEADBEEF));
    round_trip(&FieldType::UInt64, Value::U64(u64::MAX));
}

#[test]
fn round_trip_blob_and_arrays() {
    round_trip(&FieldType::Blob, Value::Bytes(vec![]));
    round_trip(&FieldType::Text, Value::Bytes(b"hello".to_vec()));
    round_trip(
        &FieldType::FixedArray(Box::new(FieldType::UInt16), 3),
        Value::List(vec![Value::U16(1), Value::U16(2), Value::U16(3)]),
    );
    round_trip(
        &FieldType::VarArray(Box::new(FieldType::UInt8)),
        Value::List(vec![Value::U8(9), Value::U8(8)]),
    );
    round_trip(&FieldType::VarArray(Box::new(FieldType::Blob)), Value::List(vec![]));
}

#[test]
fn round_trip_nested_struct() {
    let t = FieldType::Struct(vec![
        FieldType::Text,
        FieldType::FixedArray(Box::new(FieldType::UInt32), 2),
        FieldType::VarArray(Box::new(FieldType::Struct(vec![FieldType::UInt8]))),
    ]);
    let v = Value::Record(vec![
        Value::Bytes(b"avatar".to_vec()),
        Value::List(vec![Value::U32(10), Value::U32(20)]),
        Value::List(vec![
            Value::Record(vec![Value::U8(1)]),
            Value::Record(vec![Value::U8(2)]),
        ]),
    ]);
    round_trip(&t, v);
}

#[test]
fn exact_encodings() {
    assert_eq!(encode(&FieldType::UInt16, &Value::U16(0x1234)), Ok(vec![0x12, 0x34]));
    assert_eq!(
        encode(&FieldType::UInt32, &Value::U32(0x01020304)),
        Ok(vec![0x01, 0x02, 0x03, 0x04])
    );
    assert_eq!(encode(&FieldType::Blob, &Value::Bytes(vec![9, 7])), Ok(vec![0, 2, 9, 7]));
    assert_eq!(
        encode(
            &FieldType::VarArray(Box::new(FieldType::UInt8)),
            &Value::List(vec![Value::U8(5)])
        ),
        Ok(vec![0, 1, 5])
    );
}

#[test]
fn encode_type_mismatch() {
    assert_eq!(
        encode(&FieldType::UInt16, &Value::U8(1)),
        Err(CodecError::TypeMismatch)
    );
    assert_eq!(
        encode(
            &FieldType::FixedArray(Box::new(FieldType::UInt8), 2),
            &Value::List(vec![Value::U8(1)])
        ),
        Err(CodecError::TypeMismatch)
    );
    assert_eq!(
        encode(&FieldType::Struct(vec![FieldType::UInt8]), &Value::Record(vec![])),
        Err(CodecError::TypeMismatch)
    );
}

#[test]
fn encode_oversized_value() {
    let big = vec![0u8; 0x10000];
    assert_eq!(
        encode(&FieldType::Blob, &Value::Bytes(big)),
        Err(CodecError::OversizedValue)
    );
}

#[test]
fn decode_truncated_and_trailing() {
    assert_eq!(decode(&FieldType::UInt32, &vec![1, 2, 3]), Err(CodecError::Truncated));
    assert_eq!(decode(&FieldType::Blob, &vec![0, 5, 1]), Err(CodecError::Truncated));
    assert_eq!(decode(&FieldType::UInt8, &vec![1, 2]), Err(CodecError::TrailingBytes));
}

#[test]
fn schema_compiles_and_looks_up() {
    let defs = vec![
        ClassDef {
            name: String::from("Avatar"),
            fields: vec![
                FieldDef { name: String::from("name"), ftype: FieldType::Text, required: true },
                FieldDef {
                    name: String::from("position"),
                    ftype: FieldType::FixedArray(Box::new(FieldType::UInt32), 3),
                    required: true,
                },
            ],
        },
        ClassDef { name: String::from("Zone"), fields: vec![] },
    ];
    let set = compile(defs).expect("well-formed definitions compile");
    assert_eq!(set.class_count(), 2);
    assert_eq!(set.find_class(&String::from("Avatar")), Some(0));
    assert_eq!(set.find_class(&String::from("Zone")), Some(1));
    assert_eq!(set.find_class(&String::from("Absent")), None);
    let b = set
        .encode_field(0, 0, &Value::Bytes(b"kit".to_vec()))
        .expect("field 0 of class 0 is text");
    assert_eq!(set.decode_field(0, 0, &b), Ok(Value::Bytes(b"kit".to_vec())));
    assert_eq!(
        set.encode_field(5, 0, &Value::U8(0)),
        Err(CodecError::SchemaMismatch)
    );
    assert_eq!(
        set.decode_field(0, 9, &vec![]),
        Err(CodecError::SchemaMismatch)
    );
}

#[test]
fn schema_duplicate_class_name() {
    let defs = vec![
        ClassDef { name: String::from("A"), fields: vec![] },
        ClassDef { name: String::from("A"), fields: vec![] },
    ];
    assert!(matches!(compile(defs), Err(SchemaError::DuplicateClassName)));
}

#[test]
fn schema_duplicate_field_name() {
    let defs = vec![ClassDef {
        name: String::from("A"),
        fields: vec![
            FieldDef { name: String::from("x"), ftype: FieldType::UInt8, required: false },
            FieldDef { name: String::from("x"), ftype: FieldType::UInt16, required: false },
        ],
    }];
    assert!(matches!(compile(defs), Err(SchemaError::DuplicateFieldName)));
}

#[test]
fn frame_deframe_round_trip() {
    let payload = vec![10u8, 20, 30];
    let framed = frame(&payload, 1024).expect("payload under the maximum");
    assert_eq!(framed, vec![0, 0, 0, 3, 10, 20, 30]);
    let mut buf = framed.clone();
    buf.extend_from_slice(&[0xFF, 0xFF]);
    let (got, used) = deframe(&buf, 1024).expect("no error").expect("a whole frame");
    assert_eq!(got, payload);
    assert_eq!(used, 7);
}

#[test]
fn frame_too_large_both_ways() {
    let payload = vec![0u8; 11];
    assert_eq!(frame(&payload, 10), Err(ProtocolError::FrameTooLarge));
    let wire = vec![0, 0, 0, 11, 0];
    assert_eq!(deframe(&wire, 10), Err(ProtocolError::FrameTooLarge));
}

#[test]
fn deframe_waits_for_partial_frames() {
    assert_eq!(deframe(&vec![0, 0], 10), Ok(None));
    assert_eq!(deframe(&vec![0, 0, 0, 4, 1, 2], 10), Ok(None));
}

#[test]
fn proxy_preamble_detection() {
    let absent = b"\x00\x00\x00\x01x".to_vec();
    assert_eq!(detect_proxy_preamble(&absent), PreambleStatus::Absent);
    let mut with = b"PROXY TCP4 1.2.3.4 5.6.7.8 80 81\r\n".to_vec();
    let preamble_len = with.len();
    with.extend_from_slice(&[0, 0, 0, 0]);
    assert_eq!(detect_proxy_preamble(&with), PreambleStatus::Stripped(preamble_len));
    let partial = b"PROXY TCP4 1.2".to_vec();
    assert_eq!(detect_proxy_preamble(&partial), PreambleStatus::Incomplete);
    let short = b"PRO".to_vec();
    assert_eq!(detect_proxy_preamble(&short), PreambleStatus::Incomplete);
}
