use std::sync::Arc;

use avro_core::decode::{decode, DecodeError};
use avro_core::encode::{encode, encode_to_vec};
use avro_core::schema::{
    Name, RecordField, RecordFieldOrder, Schema, SchemaParseContext, SchemaTree, UnionSchema,
};
use avro_core::types::{JsonValue, Record, ResolutionErrorKind, ToAvro, Value};

fn long_string_schema() -> SchemaTree {
    SchemaTree::Record {
        name: Name::new("some_record"),
        doc: None,
        fields: vec![
            RecordField {
                name: "a".to_string(),
                doc: None,
                default: None,
                schema: Arc::new(SchemaTree::Long),
                order: RecordFieldOrder::Ascending,
                position: 0,
            },
            RecordField {
                name: "b".to_string(),
                doc: None,
                default: None,
                schema: Arc::new(SchemaTree::String),
                order: RecordFieldOrder::Ascending,
                position: 1,
            },
        ],
        lookup: vec![("a".to_string(), 0), ("b".to_string(), 1)],
    }
}

#[test]
fn test_encode_empty_array() {
    let mut buf = Vec::new();
    let empty: Vec<Value> = Vec::new();
    encode(
        &Value::Array(empty),
        &SchemaTree::Array(Arc::new(SchemaTree::Int)),
        &mut buf,
    );
    assert_eq!(vec![0u8], buf);
}

#[test]
fn test_encode_empty_map() {
    let mut buf = Vec::new();
    let empty: Vec<(String, Value)> = Vec::new();
    encode(
        &Value::Mapping(empty),
        &SchemaTree::Mapping(Arc::new(SchemaTree::Int)),
        &mut buf,
    );
    assert_eq!(vec![0u8], buf);
}

#[test]
fn validate() {
    let value_schema_valid = vec![
        (Value::Int(42), SchemaTree::Int, true),
        (Value::Int(42), SchemaTree::Boolean, false),
        (
            Value::Union(Box::new(Value::Null)),
            SchemaTree::Union(
                UnionSchema::new(
                    vec![Arc::new(SchemaTree::Null), Arc::new(SchemaTree::Int)],
                    &SchemaParseContext::new(),
                )
                .unwrap(),
            ),
            true,
        ),
        (
            Value::Union(Box::new(Value::Int(42))),
            SchemaTree::Union(
                UnionSchema::new(
                    vec![Arc::new(SchemaTree::Null), Arc::new(SchemaTree::Int)],
                    &SchemaParseContext::new(),
                )
                .unwrap(),
            ),
            true,
        ),
        (
            Value::Union(Box::new(Value::Null)),
            SchemaTree::Union(
                UnionSchema::new(
                    vec![Arc::new(SchemaTree::Double), Arc::new(SchemaTree::Int)],
                    &SchemaParseContext::new(),
                )
                .unwrap(),
            ),
            false,
        ),
        (
            Value::Union(Box::new(Value::Int(42))),
            SchemaTree::Union(
                UnionSchema::new(
                    vec![
                        Arc::new(SchemaTree::Null),
                        Arc::new(SchemaTree::Double),
                        Arc::new(SchemaTree::String),
                        Arc::new(SchemaTree::Int),
                    ],
                    &SchemaParseContext::new(),
                )
                .unwrap(),
            ),
            true,
        ),
        (
            Value::Array(vec![Value::Long(42i64)]),
            SchemaTree::Array(Arc::new(SchemaTree::Long)),
            true,
        ),
        (
            Value::Array(vec![Value::Boolean(true)]),
            SchemaTree::Array(Arc::new(SchemaTree::Long)),
            false,
        ),
        (Value::Record(vec![]), SchemaTree::Null, false),
    ];

    for (value, schema, valid) in value_schema_valid.into_iter() {
        assert_eq!(valid, value.validate(&Schema::from_tree(schema)));
    }
}

#[test]
fn validate_fixed() {
    let schema = Schema::from_tree(SchemaTree::Fixed {
        size: 4,
        name: Name::new("some_fixed"),
    });

    assert!(Value::Fixed(4, vec![0, 0, 0, 0]).validate(&schema));
    assert!(!Value::Fixed(5, vec![0, 0, 0, 0, 0]).validate(&schema));
}

#[test]
fn validate_enum() {
    let schema = Schema::from_tree(SchemaTree::Enum {
        name: Name::new("some_enum"),
        doc: None,
        symbols: vec![
            "spades".to_string(),
            "hearts".to_string(),
            "diamonds".to_string(),
            "clubs".to_string(),
        ],
    });

    assert!(Value::Enum(0, "spades".to_string()).validate(&schema));
    assert!(Value::String("spades".to_string()).validate(&schema));

    assert!(!Value::Enum(1, "spades".to_string()).validate(&schema));
    assert!(!Value::String("lorem".to_string()).validate(&schema));

    let other_schema = Schema::from_tree(SchemaTree::Enum {
        name: Name::new("some_other_enum"),
        doc: None,
        symbols: vec![
            "hearts".to_string(),
            "diamonds".to_string(),
            "clubs".to_string(),
            "spades".to_string(),
        ],
    });

    assert!(!Value::Enum(0, "spades".to_string()).validate(&other_schema));
}

#[test]
fn validate_record() {
    // {
    //    "type": "record",
    //    "fields": [
    //      {"type": "long", "name": "a"},
    //      {"type": "string", "name": "b"}
    //    ]
    // }
    let schema = Schema::from_tree(long_string_schema());

    assert!(Value::Record(vec![
        ("a".to_string(), Value::Long(42i64)),
        ("b".to_string(), Value::String("foo".to_string())),
    ])
    .validate(&schema));

    assert!(!Value::Record(vec![
        ("b".to_string(), Value::String("foo".to_string())),
        ("a".to_string(), Value::Long(42i64)),
    ])
    .validate(&schema));

    assert!(!Value::Record(vec![
        ("a".to_string(), Value::Boolean(false)),
        ("b".to_string(), Value::String("foo".to_string())),
    ])
    .validate(&schema));

    assert!(!Value::Record(vec![
        ("a".to_string(), Value::Long(42i64)),
        ("c".to_string(), Value::String("foo".to_string())),
    ])
    .validate(&schema));

    assert!(!Value::Record(vec![
        ("a".to_string(), Value::Long(42i64)),
        ("b".to_string(), Value::String("foo".to_string())),
        ("c".to_string(), Value::Null),
    ])
    .validate(&schema));
}

#[test]
fn record_literal_bytes() {
    let schema = long_string_schema();
    let value = Value::Record(vec![
        ("a".to_string(), Value::Long(42)),
        ("b".to_string(), Value::String("foo".to_string())),
    ]);
    assert_eq!(
        encode_to_vec(&value, &schema),
        vec![0x54u8, 0x06, 0x66, 0x6F, 0x6F]
    );
}

#[test]
fn union_branch_order() {
    let null_int = SchemaTree::Union(
        UnionSchema::new(
            vec![Arc::new(SchemaTree::Null), Arc::new(SchemaTree::Int)],
            &SchemaParseContext::new(),
        )
        .unwrap(),
    );
    let int_null = SchemaTree::Union(
        UnionSchema::new(
            vec![Arc::new(SchemaTree::Int), Arc::new(SchemaTree::Null)],
            &SchemaParseContext::new(),
        )
        .unwrap(),
    );
    let value = Value::Union(Box::new(Value::Int(5)));
    assert_eq!(encode_to_vec(&value, &null_int), vec![0x02u8, 0x0A]);
    let value = Value::Union(Box::new(Value::Int(5)));
    assert_eq!(encode_to_vec(&value, &int_null), vec![0x00u8, 0x0A]);
}

#[test]
fn zigzag_varint_round_trip() {
    let ctx = SchemaParseContext::new();
    for n in [0i64, -1, 1, 42, -64, 63, 64, 300, -301, i64::MAX, i64::MIN] {
        let bytes = encode_to_vec(&Value::Long(n), &SchemaTree::Long);
        let (back, used) = decode(&bytes, &SchemaTree::Long, &ctx).unwrap();
        assert_eq!(back, Value::Long(n));
        assert_eq!(used, bytes.len());
    }
    // minimal lengths: one byte up to magnitude 63, two up to 8191
    assert_eq!(encode_to_vec(&Value::Long(63), &SchemaTree::Long).len(), 1);
    assert_eq!(encode_to_vec(&Value::Long(64), &SchemaTree::Long).len(), 2);
    assert_eq!(encode_to_vec(&Value::Long(-64), &SchemaTree::Long).len(), 1);
    assert_eq!(encode_to_vec(&Value::Long(-65), &SchemaTree::Long).len(), 2);
}

#[test]
fn encode_decode_round_trip() {
    let ctx = SchemaParseContext::new();
    let schema = SchemaTree::Record {
        name: Name::new("wrapper"),
        doc: None,
        fields: vec![
            RecordField {
                name: "items".to_string(),
                doc: None,
                default: None,
                schema: Arc::new(SchemaTree::Array(Arc::new(SchemaTree::Long))),
                order: RecordFieldOrder::Ascending,
                position: 0,
            },
            RecordField {
                name: "tags".to_string(),
                doc: None,
                default: None,
                schema: Arc::new(SchemaTree::Mapping(Arc::new(SchemaTree::String))),
                order: RecordFieldOrder::Ascending,
                position: 1,
            },
            RecordField {
                name: "maybe".to_string(),
                doc: None,
                default: None,
                schema: Arc::new(SchemaTree::Union(
                    UnionSchema::new(
                        vec![Arc::new(SchemaTree::Null), Arc::new(SchemaTree::Boolean)],
                        &SchemaParseContext::new(),
                    )
                    .unwrap(),
                )),
                order: RecordFieldOrder::Ascending,
                position: 2,
            },
            RecordField {
                name: "raw".to_string(),
                doc: None,
                default: None,
                schema: Arc::new(SchemaTree::Bytes),
                order: RecordFieldOrder::Ascending,
                position: 3,
            },
            RecordField {
                name: "f".to_string(),
                doc: None,
                default: None,
                schema: Arc::new(SchemaTree::Double),
                order: RecordFieldOrder::Ascending,
                position: 4,
            },
        ],
        lookup: vec![
            ("items".to_string(), 0),
            ("tags".to_string(), 1),
            ("maybe".to_string(), 2),
            ("raw".to_string(), 3),
            ("f".to_string(), 4),
        ],
    };
    let value = Value::Record(vec![
        (
            "items".to_string(),
            Value::Array(vec![Value::Long(1), Value::Long(-300)]),
        ),
        (
            "tags".to_string(),
            Value::Mapping(vec![(
                "k".to_string(),
                Value::String("hello, world".to_string()),
            )]),
        ),
        (
            "maybe".to_string(),
            Value::Union(Box::new(Value::Boolean(true))),
        ),
        ("raw".to_string(), Value::Bytes(vec![0, 255, 7])),
        ("f".to_string(), Value::Double(2.5f64.to_bits())),
    ]);
    let bytes = encode_to_vec(&value, &schema);
    let (back, used) = decode(&bytes, &schema, &ctx).unwrap();
    assert_eq!(back, value);
    assert_eq!(used, bytes.len());
}

#[test]
fn record_field_reordering_on_resolve() {
    let writer_value = Value::Record(vec![
        ("b".to_string(), Value::String("x".to_string())),
        ("a".to_string(), Value::Int(1)),
    ]);
    let reader = Arc::new(SchemaTree::Record {
        name: Name::new("r"),
        doc: None,
        fields: vec![
            RecordField {
                name: "a".to_string(),
                doc: None,
                default: None,
                schema: Arc::new(SchemaTree::Int),
                order: RecordFieldOrder::Ascending,
                position: 0,
            },
            RecordField {
                name: "b".to_string(),
                doc: None,
                default: None,
                schema: Arc::new(SchemaTree::String),
                order: RecordFieldOrder::Ascending,
                position: 1,
            },
        ],
        lookup: vec![("a".to_string(), 0), ("b".to_string(), 1)],
    });
    let mut ctx = SchemaParseContext::new();
    let resolved = writer_value.resolve(&reader, &mut ctx).unwrap();
    assert_eq!(
        resolved,
        Value::Record(vec![
            ("a".to_string(), Value::Int(1)),
            ("b".to_string(), Value::String("x".to_string())),
        ])
    );
}

#[test]
fn missing_field_default() {
    let reader_with_default = Arc::new(SchemaTree::Record {
        name: Name::new("r"),
        doc: None,
        fields: vec![
            RecordField {
                name: "a".to_string(),
                doc: None,
                default: None,
                schema: Arc::new(SchemaTree::Int),
                order: RecordFieldOrder::Ascending,
                position: 0,
            },
            RecordField {
                name: "b".to_string(),
                doc: None,
                default: Some(JsonValue::String("z".to_string())),
                schema: Arc::new(SchemaTree::String),
                order: RecordFieldOrder::Ascending,
                position: 1,
            },
        ],
        lookup: vec![("a".to_string(), 0), ("b".to_string(), 1)],
    });
    let mut ctx = SchemaParseContext::new();
    let value = Value::Record(vec![("a".to_string(), Value::Int(1))]);
    let resolved = value.resolve(&reader_with_default, &mut ctx).unwrap();
    assert_eq!(
        resolved,
        Value::Record(vec![
            ("a".to_string(), Value::Int(1)),
            ("b".to_string(), Value::String("z".to_string())),
        ])
    );

    let reader_no_default = Arc::new(SchemaTree::Record {
        name: Name::new("r"),
        doc: None,
        fields: vec![
            RecordField {
                name: "a".to_string(),
                doc: None,
                default: None,
                schema: Arc::new(SchemaTree::Int),
                order: RecordFieldOrder::Ascending,
                position: 0,
            },
            RecordField {
                name: "b".to_string(),
                doc: None,
                default: None,
                schema: Arc::new(SchemaTree::String),
                order: RecordFieldOrder::Ascending,
                position: 1,
            },
        ],
        lookup: vec![("a".to_string(), 0), ("b".to_string(), 1)],
    });
    let mut ctx = SchemaParseContext::new();
    let value = Value::Record(vec![("a".to_string(), Value::Int(1))]);
    let err = value.resolve(&reader_no_default, &mut ctx).unwrap_err();
    assert_eq!(err.kind, ResolutionErrorKind::MissingField);
}

#[test]
fn enum_round_trip_via_string() {
    let reader = Arc::new(SchemaTree::Enum {
        name: Name::new("e"),
        doc: None,
        symbols: vec!["A".to_string(), "B".to_string()],
    });
    let mut ctx = SchemaParseContext::new();
    let resolved = Value::String("A".to_string())
        .resolve(&reader, &mut ctx)
        .unwrap();
    assert_eq!(resolved, Value::Enum(0, "A".to_string()));

    let mut ctx = SchemaParseContext::new();
    let err = Value::String("Z".to_string())
        .resolve(&reader, &mut ctx)
        .unwrap_err();
    assert_eq!(err.kind, ResolutionErrorKind::UnknownEnumSymbol);
}

#[test]
fn numeric_promotion_on_resolve() {
    let mut ctx = SchemaParseContext::new();
    let resolved = Value::Int(1)
        .resolve(&Arc::new(SchemaTree::Float), &mut ctx)
        .unwrap();
    assert_eq!(resolved, Value::Float(1.0f32.to_bits()));

    let mut ctx = SchemaParseContext::new();
    let resolved = Value::Long(-3)
        .resolve(&Arc::new(SchemaTree::Double), &mut ctx)
        .unwrap();
    assert_eq!(resolved, Value::Double((-3.0f64).to_bits()));

    let mut ctx = SchemaParseContext::new();
    let resolved = Value::Float(1.5f32.to_bits())
        .resolve(&Arc::new(SchemaTree::Double), &mut ctx)
        .unwrap();
    assert_eq!(resolved, Value::Double(1.5f64.to_bits()));

    let mut ctx = SchemaParseContext::new();
    let resolved = Value::Double(2.5f64.to_bits())
        .resolve(&Arc::new(SchemaTree::Float), &mut ctx)
        .unwrap();
    assert_eq!(resolved, Value::Float(2.5f32.to_bits()));
}

#[test]
fn bytes_string_resolution() {
    let mut ctx = SchemaParseContext::new();
    let resolved = Value::String("hi".to_string())
        .resolve(&Arc::new(SchemaTree::Bytes), &mut ctx)
        .unwrap();
    assert_eq!(resolved, Value::Bytes(vec![0x68, 0x69]));

    let mut ctx = SchemaParseContext::new();
    let resolved = Value::Bytes(vec![0x68, 0x69])
        .resolve(&Arc::new(SchemaTree::String), &mut ctx)
        .unwrap();
    assert_eq!(resolved, Value::String("hi".to_string()));

    let mut ctx = SchemaParseContext::new();
    let err = Value::Bytes(vec![0xFF])
        .resolve(&Arc::new(SchemaTree::String), &mut ctx)
        .unwrap_err();
    assert_eq!(err.kind, ResolutionErrorKind::Utf8ConversionFailure);
}

#[test]
fn decode_rejects_malformed_input() {
    let ctx = SchemaParseContext::new();
    assert_eq!(
        decode(&[], &SchemaTree::Long, &ctx).unwrap_err(),
        DecodeError::TruncatedInput
    );
    assert_eq!(
        decode(&[0x80; 10], &SchemaTree::Long, &ctx).unwrap_err(),
        DecodeError::MalformedVarint
    );
    assert_eq!(
        decode(&[0x02, 0xFF], &SchemaTree::String, &ctx).unwrap_err(),
        DecodeError::InvalidUtf8
    );
    assert_eq!(
        decode(&[0x07], &SchemaTree::Boolean, &ctx).unwrap_err(),
        DecodeError::IndexOutOfRange
    );
    let enum_schema = SchemaTree::Enum {
        name: Name::new("e"),
        doc: None,
        symbols: vec!["A".to_string()],
    };
    assert_eq!(
        decode(&[0x02], &enum_schema, &ctx).unwrap_err(),
        DecodeError::IndexOutOfRange
    );
    assert_eq!(
        decode(&[0x03], &SchemaTree::Fixed { name: Name::new("f4"), size: 4 }, &ctx).unwrap_err(),
        DecodeError::TruncatedInput
    );
}

#[test]
fn record_builder_round() {
    let schema = Schema::from_tree(long_string_schema());
    let mut rec = Record::new(&schema).unwrap();
    rec.put("a", 27i64);
    rec.put("b", "bar");
    rec.put("unknown", 9i32);
    let value = rec.avro();
    assert_eq!(
        value,
        Value::Record(vec![
            ("a".to_string(), Value::Long(27)),
            ("b".to_string(), Value::String("bar".to_string())),
        ])
    );
    assert!(value.validate(&schema));
}

#[test]
fn type_reference_round_trip() {
    let node = SchemaTree::Record {
        name: Name::new("node"),
        doc: None,
        fields: vec![
            RecordField {
                name: "label".to_string(),
                doc: None,
                default: None,
                schema: Arc::new(SchemaTree::Long),
                order: RecordFieldOrder::Ascending,
                position: 0,
            },
            RecordField {
                name: "next".to_string(),
                doc: None,
                default: None,
                schema: Arc::new(SchemaTree::Union(
                    UnionSchema::new(
                        vec![
                            Arc::new(SchemaTree::Null),
                            Arc::new(SchemaTree::TypeReference(Name::new("node"))),
                        ],
                        &SchemaParseContext::new(),
                    )
                    .unwrap(),
                )),
                order: RecordFieldOrder::Ascending,
                position: 1,
            },
        ],
        lookup: vec![("label".to_string(), 0), ("next".to_string(), 1)],
    };
    let schema = Schema::from_tree(node);
    let value = Value::Record(vec![
        ("label".to_string(), Value::Long(1)),
        (
            "next".to_string(),
            Value::Union(Box::new(Value::Record(vec![
                ("label".to_string(), Value::Long(2)),
                ("next".to_string(), Value::Union(Box::new(Value::Null))),
            ]))),
        ),
    ]);
    assert!(value.validate(&schema));
    let ctx = schema.new_context();
    let mut buf = Vec::new();
    avro_core::encode::encode_ref_inner(&value, schema.ref_inner(), &mut buf, &mut schema.new_context());
    let (back, used) = decode(&buf, schema.ref_inner(), &ctx).unwrap();
    assert_eq!(back, value);
    assert_eq!(used, buf.len());
}

fn linked_list_schema() -> SchemaTree {
    SchemaTree::Record {
        name: Name::new("node"),
        doc: None,
        fields: vec![
            RecordField {
                name: "label".to_string(),
                doc: None,
                default: None,
                schema: Arc::new(SchemaTree::Long),
                order: RecordFieldOrder::Ascending,
                position: 0,
            },
            RecordField {
                name: "next".to_string(),
                doc: None,
                default: None,
                schema: Arc::new(SchemaTree::Union(
                    UnionSchema::new(
                        vec![
                            Arc::new(SchemaTree::Null),
                            Arc::new(SchemaTree::TypeReference(Name::new("node"))),
                        ],
                        &SchemaParseContext::new(),
                    )
                    .unwrap(),
                )),
                order: RecordFieldOrder::Ascending,
                position: 1,
            },
        ],
        lookup: vec![("label".to_string(), 0), ("next".to_string(), 1)],
    }
}

fn linked_list(depth: i64) -> Value {
    let mut node = Value::Record(vec![
        ("label".to_string(), Value::Long(depth)),
        ("next".to_string(), Value::Union(Box::new(Value::Null))),
    ]);
    let mut label = depth - 1;
    while label >= 1 {
        node = Value::Record(vec![
            ("label".to_string(), Value::Long(label)),
            ("next".to_string(), Value::Union(Box::new(node))),
        ]);
        label -= 1;
    }
    node
}

#[test]
fn deep_recursive_value_validates() {
    // One registered name; values nest far deeper than that. The
    // reference budget is per value, not per path, so depth never
    // makes validation fail.
    let schema = Schema::from_tree(linked_list_schema());
    for depth in [1i64, 2, 3, 8, 64] {
        assert!(linked_list(depth).validate(&schema));
    }
}

#[test]
fn deep_recursive_value_round_trips() {
    let schema = Schema::from_tree(linked_list_schema());
    let value = linked_list(20);
    let ctx = schema.new_context();
    let mut buf = Vec::new();
    avro_core::encode::encode_ref_inner(
        &value,
        schema.ref_inner(),
        &mut buf,
        &mut schema.new_context(),
    );
    let (back, used) = decode(&buf, schema.ref_inner(), &ctx).unwrap();
    assert_eq!(back, value);
    assert_eq!(used, buf.len());
}

/// The list as resolution returns it: union wrappers are shed while
/// resolving into the chosen branch.
fn resolved_linked_list(depth: i64) -> Value {
    let mut node = Value::Record(vec![
        ("label".to_string(), Value::Long(depth)),
        ("next".to_string(), Value::Null),
    ]);
    let mut label = depth - 1;
    while label >= 1 {
        node = Value::Record(vec![
            ("label".to_string(), Value::Long(label)),
            ("next".to_string(), node),
        ]);
        label -= 1;
    }
    node
}

#[test]
fn deep_recursive_value_resolves() {
    let schema = Schema::from_tree(linked_list_schema());
    let reader = schema.inner();
    let value = linked_list(20);
    let mut ctx = schema.new_context();
    let resolved = value.resolve(&reader, &mut ctx).unwrap();
    assert_eq!(resolved, resolved_linked_list(20));
}
