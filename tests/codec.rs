use minicbor::schema::{check_enum, check_struct};
use minicbor::{
    decode, encode, Codec, Decoder, Encode, Encoder, EnumSpec, Error, FieldSpec, Shape, StructSpec,
    TypeAttributes, TypeEncoding, Value, VariantKind, VariantSpec,
};

fn attrs(encoding: TypeEncoding) -> TypeAttributes {
    TypeAttributes { encoding, transparent: false, index_only: false }
}

fn field(index: u32, name: &str, optional: bool, shape: Shape) -> FieldSpec {
    FieldSpec { index, name: name.to_string(), optional, codec: Codec::Default, shape }
}

fn record(name: &str, encoding: TypeEncoding, fields: Vec<FieldSpec>) -> Shape {
    Shape::Struct(StructSpec { name: name.to_string(), attrs: attrs(encoding), fields })
}

/// `S { x: u32 @0, y: Option<String> @1 }`
fn point(encoding: TypeEncoding) -> Shape {
    record("S", encoding, vec![field(0, "x", false, Shape::UInt), field(1, "y", true, Shape::Text)])
}

/// `E { A @0, B(u32) @1, C { s: bytes @0 } @2 }`
fn choice(index_only: bool) -> EnumSpec {
    EnumSpec {
        name: "E".to_string(),
        attrs: TypeAttributes { encoding: TypeEncoding::Array, transparent: false, index_only },
        variants: vec![
            VariantSpec { index: 0, name: "A".to_string(), kind: VariantKind::Unit, encoding: None },
            VariantSpec {
                index: 1,
                name: "B".to_string(),
                kind: VariantKind::Tuple(vec![field(0, "0", false, Shape::UInt)]),
                encoding: None,
            },
            VariantSpec {
                index: 2,
                name: "C".to_string(),
                kind: VariantKind::Named(vec![field(0, "s", false, Shape::Bytes)]),
                encoding: Some(TypeEncoding::Keyed),
            },
        ],
    }
}

fn only_units() -> Shape {
    Shape::Enum(EnumSpec {
        name: "U".to_string(),
        attrs: TypeAttributes { encoding: TypeEncoding::Array, transparent: false, index_only: true },
        variants: vec![
            VariantSpec { index: 0, name: "Off".to_string(), kind: VariantKind::Unit, encoding: None },
            VariantSpec { index: 3, name: "On".to_string(), kind: VariantKind::Unit, encoding: None },
        ],
    })
}

#[test]
fn example_encodes_absent_option_as_null() {
    let v = Value::Record(vec![Value::UInt(7), Value::Null]);
    assert_eq!(encode(&point(TypeEncoding::Array), &v).unwrap(), vec![0x82, 0x07, 0xf6]);
}

#[test]
fn example_decode_skips_third_element() {
    let mut bytes = vec![0x83, 0x07, 0xf6, 0x67];
    bytes.extend_from_slice(b"ignored");
    let sh = point(TypeEncoding::Array);
    let mut d = Decoder::new(&bytes);
    let v = d.decode(&sh).unwrap();
    assert_eq!(v, Value::Record(vec![Value::UInt(7), Value::Null]));
    assert_eq!(d.position(), bytes.len());
}

#[test]
fn round_trip_array_and_map() {
    for enc in [TypeEncoding::Array, TypeEncoding::Keyed] {
        let sh = point(enc);
        for v in [
            Value::Record(vec![Value::UInt(0), Value::Null]),
            Value::Record(vec![Value::UInt(70000), Value::Text(b"hi".to_vec())]),
            Value::Record(vec![Value::UInt(u64::MAX), Value::Text(vec![])]),
        ] {
            let bytes = encode(&sh, &v).unwrap();
            assert_eq!(decode(&sh, &bytes).unwrap(), v);
        }
    }
}

#[test]
fn round_trip_enum_variants() {
    let sh = Shape::Enum(choice(false));
    for v in [
        Value::Variant(0, vec![]),
        Value::Variant(1, vec![Value::UInt(300)]),
        Value::Variant(2, vec![Value::Bytes(vec![1, 2, 3])]),
    ] {
        let bytes = encode(&sh, &v).unwrap();
        assert_eq!(decode(&sh, &bytes).unwrap(), v);
    }
    assert_eq!(encode(&sh, &Value::Variant(1, vec![Value::UInt(5)])).unwrap(), vec![0x82, 0x01, 0x81, 0x05]);
    assert_eq!(encode(&sh, &Value::Variant(0, vec![])).unwrap(), vec![0x82, 0x00, 0xf6]);
}

#[test]
fn index_only_enum_is_a_bare_tag() {
    let sh = only_units();
    assert_eq!(encode(&sh, &Value::Variant(3, vec![])).unwrap(), vec![0x03]);
    assert_eq!(decode(&sh, &[0x03]).unwrap(), Value::Variant(3, vec![]));
    assert_eq!(decode(&sh, &[0x01]), Err(Error::UnknownVariant(1)));
}

#[test]
fn forward_compat_extra_field_is_skipped_once() {
    // A newer writer appends field 2 (a nested array) to `S`.
    let newer = record(
        "S",
        TypeEncoding::Array,
        vec![
            field(0, "x", false, Shape::UInt),
            field(1, "y", true, Shape::Text),
            field(2, "z", false, Shape::Struct(StructSpec {
                name: "Z".to_string(),
                attrs: attrs(TypeEncoding::Array),
                fields: vec![field(0, "a", false, Shape::UInt), field(1, "b", false, Shape::Bool)],
            })),
        ],
    );
    let v = Value::Record(vec![
        Value::UInt(1),
        Value::Text(b"a".to_vec()),
        Value::Record(vec![Value::UInt(500), Value::Bool(true)]),
    ]);
    let mut bytes = encode(&newer, &v).unwrap();
    let len = bytes.len();
    bytes.push(0x09);
    let older = point(TypeEncoding::Array);
    let mut d = Decoder::new(&bytes);
    assert_eq!(d.decode(&older).unwrap(), Value::Record(vec![Value::UInt(1), Value::Text(b"a".to_vec())]));
    assert_eq!(d.position(), len);
    assert_eq!(d.read_uint(), Ok(9));
}

#[test]
fn forward_compat_extra_map_entry_is_skipped() {
    // {0: 4, 7: [1, 2], 1: "q"}
    let bytes = vec![0xa3, 0x00, 0x04, 0x07, 0x82, 0x01, 0x02, 0x01, 0x61, b'q'];
    let v = decode(&point(TypeEncoding::Keyed), &bytes).unwrap();
    assert_eq!(v, Value::Record(vec![Value::UInt(4), Value::Text(b"q".to_vec())]));
}

#[test]
fn missing_required_field_names_it() {
    assert_eq!(
        decode(&point(TypeEncoding::Array), &[0x80]),
        Err(Error::MissingValue(0, "S::x".to_string()))
    );
    assert_eq!(
        decode(&point(TypeEncoding::Keyed), &[0xa1, 0x01, 0xf6]),
        Err(Error::MissingValue(0, "S::x".to_string()))
    );
    // In a variant the name carries the enum and the variant.
    assert_eq!(
        decode(&Shape::Enum(choice(false)), &[0x82, 0x02, 0xa0]),
        Err(Error::MissingValue(0, "E::C::s".to_string()))
    );
}

#[test]
fn unknown_variant_in_optional_field_is_absent() {
    let outer = record(
        "O",
        TypeEncoding::Array,
        vec![field(0, "e", true, Shape::Enum(choice(false))), field(1, "n", false, Shape::UInt)],
    );
    // [[99, [1, 2]], 5]
    let bytes = vec![0x82, 0x82, 0x18, 0x63, 0x82, 0x01, 0x02, 0x05];
    let mut d = Decoder::new(&bytes);
    assert_eq!(d.decode(&outer).unwrap(), Value::Record(vec![Value::Null, Value::UInt(5)]));
    assert_eq!(d.position(), bytes.len());
    // The same value at top level fails.
    assert_eq!(decode(&Shape::Enum(choice(false)), &bytes[1..7]), Err(Error::UnknownVariant(99)));
}

#[test]
fn unknown_index_only_variant_in_optional_field_skips_only_the_tag() {
    let outer = record(
        "O",
        TypeEncoding::Array,
        vec![field(0, "u", true, only_units()), field(1, "n", false, Shape::UInt)],
    );
    let bytes = vec![0x82, 0x18, 0x63, 0x05];
    assert_eq!(decode(&outer, &bytes).unwrap(), Value::Record(vec![Value::Null, Value::UInt(5)]));
}

#[test]
fn unknown_variant_in_required_field_fails() {
    let outer = record("O", TypeEncoding::Array, vec![field(0, "e", false, Shape::Enum(choice(false)))]);
    assert_eq!(decode(&outer, &[0x81, 0x82, 0x18, 0x63, 0xf6]), Err(Error::UnknownVariant(99)));
}

#[test]
fn indefinite_and_definite_decode_alike() {
    let sh = record(
        "T",
        TypeEncoding::Array,
        vec![field(0, "a", false, Shape::UInt), field(1, "b", false, Shape::Bool), field(2, "c", false, Shape::Bytes)],
    );
    let v = Value::Record(vec![Value::UInt(10), Value::Bool(false), Value::Bytes(vec![0xaa])]);
    let definite = encode(&sh, &v).unwrap();
    assert_eq!(definite, vec![0x83, 0x0a, 0xf4, 0x41, 0xaa]);
    let indefinite = vec![0x9f, 0x0a, 0xf4, 0x41, 0xaa, 0xff];
    assert_eq!(decode(&sh, &definite).unwrap(), decode(&sh, &indefinite).unwrap());
    let mut d = Decoder::new(&indefinite);
    d.decode(&sh).unwrap();
    assert_eq!(d.position(), indefinite.len());
    // The same in map framing.
    let keyed = record(
        "T",
        TypeEncoding::Keyed,
        vec![field(0, "a", false, Shape::UInt), field(1, "b", false, Shape::Bool), field(2, "c", false, Shape::Bytes)],
    );
    let map_indefinite = vec![0xbf, 0x02, 0x41, 0xaa, 0x00, 0x0a, 0x01, 0xf4, 0xff];
    assert_eq!(decode(&keyed, &map_indefinite).unwrap(), v);
}

#[test]
fn indefinite_without_break_ends_in_error() {
    let sh = point(TypeEncoding::Array);
    assert_eq!(decode(&sh, &[0x9f, 0x01, 0xf6]), Err(Error::EndOfInput));
}

#[test]
fn transparent_wrapper_encodes_like_its_field() {
    let sh = Shape::Struct(StructSpec {
        name: "W".to_string(),
        attrs: TypeAttributes { encoding: TypeEncoding::Array, transparent: true, index_only: false },
        fields: vec![field(0, "0", false, Shape::UInt)],
    });
    let wrapped = encode(&sh, &Value::Record(vec![Value::UInt(42)])).unwrap();
    let mut e = Encoder::new();
    42u32.encode(&mut e).unwrap();
    let plain = e.into_bytes();
    assert_eq!(wrapped, plain);
    assert_eq!(plain, vec![0x18, 0x2a]);
    assert_eq!(decode(&sh, &plain).unwrap(), Value::Record(vec![Value::UInt(42)]));
}

#[test]
fn borrowed_fields_point_into_the_input() {
    let sh = record(
        "B",
        TypeEncoding::Array,
        vec![field(0, "t", false, Shape::BorrowedText), field(1, "b", false, Shape::BorrowedBytes)],
    );
    let bytes = vec![0x82, 0x62, b'o', b'k', 0x42, 1, 2];
    let v = decode(&sh, &bytes).unwrap();
    match &v {
        Value::Record(vs) => match (&vs[0], &vs[1]) {
            (Value::BorrowedText(t), Value::BorrowedBytes(b)) => {
                assert_eq!(*t, b"ok");
                assert_eq!(*b, &[1u8, 2][..]);
                assert!(std::ptr::eq(t.as_ptr(), bytes[2..].as_ptr()));
            }
            _ => panic!("wrong variants"),
        },
        _ => panic!("not a record"),
    }
    assert_eq!(encode(&sh, &v).unwrap(), bytes);
}

#[test]
fn custom_decode_codec_reads_another_shape() {
    let mut f = field(0, "n", false, Shape::UInt);
    f.codec = Codec::Custom { encode: Some(Box::new(Shape::Text)), decode: Some(Box::new(Shape::Text)) };
    let sh = record("C", TypeEncoding::Array, vec![f]);
    let v = Value::Record(vec![Value::Text(b"12".to_vec())]);
    let bytes = encode(&sh, &v).unwrap();
    assert_eq!(bytes, vec![0x81, 0x62, b'1', b'2']);
    assert_eq!(decode(&sh, &bytes).unwrap(), v);
}

#[test]
fn errors_from_the_wire() {
    let sh = point(TypeEncoding::Array);
    assert_eq!(decode(&sh, &[]), Err(Error::EndOfInput));
    assert_eq!(decode(&sh, &[0x82, 0x19, 0x01]), Err(Error::EndOfInput));
    assert_eq!(decode(&sh, &[0x82, 0x1c]), Err(Error::Malformed));
    assert_eq!(decode(&sh, &[0x82, 0x61, b'a', 0xf6]), Err(Error::TypeMismatch));
    assert_eq!(decode(&sh, &[0xa1, 0x00, 0x07]), Err(Error::TypeMismatch));
    assert_eq!(
        decode(&point(TypeEncoding::Keyed), &[0xa1, 0x1b, 0, 0, 0, 1, 0, 0, 0, 0, 0x07]),
        Err(Error::Overflow)
    );
    assert_eq!(
        decode(&Shape::Enum(choice(false)), &[0x83, 0x00, 0xf6, 0xf6]),
        Err(Error::Message("expected enum (2-element array)".to_string()))
    );
    assert_eq!(decode(&Shape::Enum(choice(false)), &[0x01]), Err(Error::TypeMismatch));
}

#[test]
fn encode_rejects_a_value_of_another_shape() {
    let sh = point(TypeEncoding::Array);
    assert_eq!(encode(&sh, &Value::UInt(1)), Err(Error::TypeMismatch));
    assert_eq!(encode(&sh, &Value::Record(vec![Value::UInt(1)])), Err(Error::TypeMismatch));
    assert_eq!(encode(&sh, &Value::Record(vec![Value::Null, Value::Null])), Err(Error::TypeMismatch));
    assert_eq!(encode(&Shape::Enum(choice(false)), &Value::Variant(9, vec![])), Err(Error::TypeMismatch));
}

#[test]
fn header_widths() {
    let cases: Vec<(u64, Vec<u8>)> = vec![
        (23, vec![0x17]),
        (24, vec![0x18, 24]),
        (255, vec![0x18, 0xff]),
        (256, vec![0x19, 0x01, 0x00]),
        (65536, vec![0x1a, 0, 1, 0, 0]),
        (1 << 40, vec![0x1b, 0, 0, 1, 0, 0, 0, 0, 0]),
    ];
    for (n, bytes) in cases {
        let mut e = Encoder::new();
        n.encode(&mut e).unwrap();
        assert_eq!(e.into_bytes(), bytes);
        let mut d = Decoder::new(&bytes);
        assert_eq!(d.read_uint(), Ok(n));
    }
}

#[test]
fn encode_trait_on_containers() {
    let mut e = Encoder::new();
    vec![1u32, 500].encode(&mut e).unwrap();
    Some(true).encode(&mut e).unwrap();
    None::<u8>.encode(&mut e).unwrap();
    assert_eq!(e.into_bytes(), vec![0x82, 0x01, 0x19, 0x01, 0xf4, 0xf5, 0xf6]);
}

#[test]
fn skip_walks_nested_and_tagged_items() {
    // [{1: "ab"}, tag 1 (2), (_ h'01' h'02')] then 0x05
    let bytes = vec![0x83, 0xa1, 0x01, 0x62, b'a', b'b', 0xc1, 0x02, 0x5f, 0x41, 1, 0x41, 2, 0xff, 0x05];
    let mut d = Decoder::new(&bytes);
    d.skip().unwrap();
    assert_eq!(d.position(), 14);
    assert_eq!(d.read_uint(), Ok(5));
}

#[test]
fn schema_checks_reject_bad_definitions() {
    let good = StructSpec {
        name: "S".to_string(),
        attrs: attrs(TypeEncoding::Array),
        fields: vec![field(0, "x", false, Shape::UInt), field(1, "y", true, Shape::Text)],
    };
    assert_eq!(check_struct(&good), Ok(()));
    let duplicate = StructSpec {
        name: "D".to_string(),
        attrs: attrs(TypeEncoding::Keyed),
        fields: vec![field(3, "a", false, Shape::UInt), field(3, "b", false, Shape::UInt)],
    };
    assert_eq!(check_struct(&duplicate), Err(Error::Message("field indices must be distinct".to_string())));
    let wide = StructSpec {
        name: "W".to_string(),
        attrs: TypeAttributes { encoding: TypeEncoding::Array, transparent: true, index_only: false },
        fields: vec![field(0, "a", false, Shape::UInt), field(1, "b", false, Shape::UInt)],
    };
    assert_eq!(
        check_struct(&wide),
        Err(Error::Message("transparent requires a struct with one field".to_string()))
    );
    let mut custom = field(0, "a", false, Shape::UInt);
    custom.codec = Codec::Custom { encode: None, decode: Some(Box::new(Shape::Text)) };
    let transparent_custom = StructSpec {
        name: "W".to_string(),
        attrs: TypeAttributes { encoding: TypeEncoding::Array, transparent: true, index_only: false },
        fields: vec![custom],
    };
    assert_eq!(
        check_struct(&transparent_custom),
        Err(Error::Message("a custom decode is not allowed with transparent".to_string()))
    );
    let gapped = StructSpec {
        name: "G".to_string(),
        attrs: attrs(TypeEncoding::Array),
        fields: vec![field(0, "a", false, Shape::UInt), field(2, "b", false, Shape::UInt)],
    };
    assert_eq!(check_struct(&gapped), Err(Error::Message("array framing needs the indices 0 .. n".to_string())));

    assert_eq!(check_enum(&choice(false)), Ok(()));
    assert!(matches!(check_enum(&choice(true)), Err(Error::Message(_))));
    let mut twice = choice(false);
    twice.variants[2].index = 1;
    assert!(matches!(check_enum(&twice), Err(Error::Message(_))));
}

#[test]
fn peek_does_not_consume() {
    let bytes = vec![0x05];
    let mut d = Decoder::new(&bytes);
    assert_eq!(d.peek(), Ok(0x05));
    assert_eq!(d.position(), 0);
    assert_eq!(d.read_u32(), Ok(5));
    assert_eq!(d.peek(), Err(Error::EndOfInput));
}

#[test]
fn array_fields_are_written_in_index_order() {
    // Declared as `a @1: uint, b @0: bool`.
    let sh = record("R", TypeEncoding::Array, vec![field(1, "a", false, Shape::UInt), field(0, "b", false, Shape::Bool)]);
    let v = Value::Record(vec![Value::UInt(5), Value::Bool(true)]);
    let bytes = encode(&sh, &v).unwrap();
    assert_eq!(bytes, vec![0x82, 0xf5, 0x05]);
    assert_eq!(decode(&sh, &bytes).unwrap(), v);
}

#[test]
fn map_keys_are_written_in_ascending_order() {
    let sh = record(
        "M",
        TypeEncoding::Keyed,
        vec![field(9, "z", false, Shape::UInt), field(2, "a", true, Shape::Text), field(5, "m", false, Shape::Bool)],
    );
    let v = Value::Record(vec![Value::UInt(1), Value::Null, Value::Bool(false)]);
    let bytes = encode(&sh, &v).unwrap();
    assert_eq!(bytes, vec![0xa3, 0x02, 0xf6, 0x05, 0xf4, 0x09, 0x01]);
    assert_eq!(decode(&sh, &bytes).unwrap(), v);
}

#[test]
fn variant_fields_are_written_in_index_order() {
    let sh = Shape::Enum(EnumSpec {
        name: "V".to_string(),
        attrs: attrs(TypeEncoding::Array),
        variants: vec![VariantSpec {
            index: 4,
            name: "P".to_string(),
            kind: VariantKind::Named(vec![field(1, "x", false, Shape::UInt), field(0, "y", false, Shape::UInt)]),
            encoding: None,
        }],
    });
    let v = Value::Variant(4, vec![Value::UInt(10), Value::UInt(20)]);
    let bytes = encode(&sh, &v).unwrap();
    assert_eq!(bytes, vec![0x82, 0x04, 0x82, 0x14, 0x0a]);
    assert_eq!(decode(&sh, &bytes).unwrap(), v);
}

#[test]
fn gapped_array_schema_has_no_encoding() {
    let sh = record("G", TypeEncoding::Array, vec![field(0, "a", false, Shape::UInt), field(2, "b", false, Shape::UInt)]);
    assert_eq!(encode(&sh, &Value::Record(vec![Value::UInt(1), Value::UInt(2)])), Err(Error::TypeMismatch));
}

#[test]
fn transparent_optional_field_forwards_to_its_codec() {
    let sh = Shape::Struct(StructSpec {
        name: "W".to_string(),
        attrs: TypeAttributes { encoding: TypeEncoding::Array, transparent: true, index_only: false },
        fields: vec![field(0, "0", true, Shape::UInt)],
    });
    let absent = Value::Record(vec![Value::Null]);
    assert_eq!(encode(&sh, &absent).unwrap(), vec![0xf6]);
    assert_eq!(decode(&sh, &[0xf6]).unwrap(), absent);
    assert_eq!(decode(&sh, &[0x07]).unwrap(), Value::Record(vec![Value::UInt(7)]));
}
