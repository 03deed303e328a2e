use plod::decode::{decode_type, find_variant};
use plod::encode::encode_type;
use plod::size::size_type;
use plod::{
    ByteOrder, Endianness, Error, Primitive, Scalar, Schema, SizePrefix, TagMode, TagRange, Type,
    Value, Variant,
};

fn scalar(s: Scalar) -> Value {
    Value::Scalar(s)
}

fn unit() -> Value {
    Value::List(vec![])
}

fn prim(kind: Primitive) -> Type {
    Type::Primitive(kind)
}

fn seq(item: Type, size_type: Primitive, byte_sized: bool) -> Type {
    Type::Sequence(Box::new(item), SizePrefix { size_type, byte_sized })
}

fn record(endianness: Option<Endianness>, magic: Option<Scalar>, fields: Vec<Type>) -> Schema {
    Schema::Record { endianness, magic, fields }
}

fn range(low: i128, high: i128) -> TagRange {
    TagRange { low, high }
}

fn encode(schema: &Schema, value: &Value, host: ByteOrder) -> Result<Vec<u8>, Error> {
    assert_eq!(schema.check(), Ok(()));
    assert!(schema.admits(value));
    let mut out = Vec::new();
    let mut ctx = unit();
    schema.encode_with(value, host, &mut out, &mut ctx)?;
    Ok(out)
}

fn decode(schema: &Schema, bytes: &[u8], host: ByteOrder) -> Result<(Value, usize), Error> {
    schema.decode_with(bytes, host, &unit())
}

fn round_trip(schema: &Schema, value: &Value) {
    for host in [ByteOrder::Big, ByteOrder::Little] {
        let bytes = encode(schema, value, host).unwrap();
        assert_eq!(schema.encoded_size(value), Some(bytes.len()));
        let (back, taken) = decode(schema, &bytes, host).unwrap();
        assert_eq!(&back, value);
        assert_eq!(taken, bytes.len());
        // what follows the value is left alone
        let mut longer = bytes.clone();
        longer.extend_from_slice(&[0xde, 0xad]);
        let (back, taken) = decode(schema, &longer, host).unwrap();
        assert_eq!(&back, value);
        assert_eq!(taken, bytes.len());
    }
}

/// A sum type with variants for the discriminants {1}, {2}, {6..=8, 10} and a default.
fn selection() -> Schema {
    Schema::Sum {
        endianness: None,
        tag_type: Primitive::U8,
        variants: vec![
            Variant { matches: vec![range(1, 1)], mode: TagMode::Emit(1), fields: vec![] },
            Variant { matches: vec![range(2, 2)], mode: TagMode::Emit(2), fields: vec![] },
            Variant {
                matches: vec![range(6, 8), range(10, 10)],
                mode: TagMode::Keep,
                fields: vec![prim(Primitive::U8)],
            },
            Variant { matches: vec![], mode: TagMode::Keep, fields: vec![prim(Primitive::U8)] },
        ],
    }
}

fn selected(schema: &Schema, tag: u8) -> usize {
    match decode(schema, &[tag], ByteOrder::Big).unwrap().0 {
        Value::Variant(index, _) => index,
        other => panic!("not a variant: {:?}", other),
    }
}

#[test]
fn concrete_record_is_encoded_byte_for_byte() {
    let schema = record(
        Some(Endianness::Big),
        None,
        vec![prim(Primitive::U16), seq(prim(Primitive::U8), Primitive::U32, false), prim(Primitive::U32)],
    );
    let value = Value::List(vec![
        scalar(Scalar::U16(1)),
        Value::List(vec![scalar(Scalar::U8(1)), scalar(Scalar::U8(2)), scalar(Scalar::U8(3))]),
        scalar(Scalar::U32(5)),
    ]);
    let expected = vec![0x00, 0x01, 0x00, 0x00, 0x00, 0x03, 0x01, 0x02, 0x03, 0x00, 0x00, 0x00, 0x05];
    for host in [ByteOrder::Big, ByteOrder::Little] {
        assert_eq!(encode(&schema, &value, host).unwrap(), expected);
    }
    assert_eq!(schema.encoded_size(&value), Some(expected.len()));
    assert_eq!(schema.encoded_size(&value), Some(13));
    round_trip(&schema, &value);
}

#[test]
fn little_endian_reverses_multi_byte_scalars_only() {
    let fields = || {
        vec![prim(Primitive::U8), prim(Primitive::U16), prim(Primitive::I32), prim(Primitive::Bool)]
    };
    let value = Value::List(vec![
        scalar(Scalar::U8(0x7f)),
        scalar(Scalar::U16(0x0102)),
        scalar(Scalar::I32(-2)),
        scalar(Scalar::Bool(true)),
    ]);
    let big = record(Some(Endianness::Big), None, fields());
    let little = record(Some(Endianness::Little), None, fields());
    assert_eq!(
        encode(&big, &value, ByteOrder::Little).unwrap(),
        vec![0x7f, 0x01, 0x02, 0xff, 0xff, 0xff, 0xfe, 0x01]
    );
    assert_eq!(
        encode(&little, &value, ByteOrder::Big).unwrap(),
        vec![0x7f, 0x02, 0x01, 0xfe, 0xff, 0xff, 0xff, 0x01]
    );
}

#[test]
fn native_order_is_the_order_of_the_host() {
    let native = record(Some(Endianness::Native), None, vec![prim(Primitive::U16)]);
    let undeclared = record(None, None, vec![prim(Primitive::U16)]);
    let value = Value::List(vec![scalar(Scalar::U16(0x0102))]);
    for schema in [&native, &undeclared] {
        assert_eq!(encode(schema, &value, ByteOrder::Big).unwrap(), vec![1, 2]);
        assert_eq!(encode(schema, &value, ByteOrder::Little).unwrap(), vec![2, 1]);
    }
    // the call that asks the machine agrees with the machine
    let mut out = Vec::new();
    let mut ctx = unit();
    assert!(native.encode(&value, &mut out, &mut ctx).is_ok());
    assert_eq!(out, 0x0102u16.to_ne_bytes().to_vec());
    assert_eq!(native.decode(&out, &unit()), Ok((value, 2)));
}

#[test]
fn byte_order_is_inherited_until_a_type_declares_its_own() {
    let inner_plain = record(None, None, vec![prim(Primitive::U16)]);
    let inner_little = record(Some(Endianness::Little), None, vec![prim(Primitive::U16)]);
    let outer = record(
        Some(Endianness::Big),
        None,
        vec![
            prim(Primitive::U16),
            Type::Composite(Box::new(inner_plain)),
            Type::Composite(Box::new(inner_little)),
            prim(Primitive::U16),
        ],
    );
    let one = || scalar(Scalar::U16(1));
    let value = Value::List(vec![one(), Value::List(vec![one()]), Value::List(vec![one()]), one()]);
    assert_eq!(encode(&outer, &value, ByteOrder::Little).unwrap(), vec![0, 1, 0, 1, 1, 0, 0, 1]);
    round_trip(&outer, &value);
}

#[test]
fn discriminants_select_the_first_matching_variant() {
    let schema = selection();
    assert_eq!(schema.check(), Ok(()));
    assert_eq!(selected(&schema, 1), 0);
    assert_eq!(selected(&schema, 2), 1);
    assert_eq!(selected(&schema, 7), 2);
    assert_eq!(selected(&schema, 10), 2);
    assert_eq!(selected(&schema, 99), 3);
    // the ends of the range belong to it, its neighbours do not
    assert_eq!(selected(&schema, 6), 2);
    assert_eq!(selected(&schema, 8), 2);
    assert_eq!(selected(&schema, 9), 3);
    assert_eq!(selected(&schema, 5), 3);
}

#[test]
fn overlapping_rules_go_to_the_variant_declared_first() {
    let variants = vec![
        Variant { matches: vec![range(0, 10)], mode: TagMode::Keep, fields: vec![prim(Primitive::I8)] },
        Variant { matches: vec![range(5, 5)], mode: TagMode::Emit(5), fields: vec![] },
        Variant { matches: vec![range(-3, -1)], mode: TagMode::Emit(-2), fields: vec![] },
    ];
    assert_eq!(find_variant(&variants, Scalar::I8(5)), Some(0));
    assert_eq!(find_variant(&variants, Scalar::I8(-1)), Some(2));
    assert_eq!(find_variant(&variants, Scalar::I8(-4)), None);
    assert_eq!(find_variant(&variants, Scalar::U128(u128::MAX)), None);
}

#[test]
fn unmatched_discriminant_without_default_is_not_recognized() {
    let schema = Schema::Sum {
        endianness: None,
        tag_type: Primitive::U8,
        variants: vec![Variant { matches: vec![range(1, 1)], mode: TagMode::Emit(1), fields: vec![] }],
    };
    assert_eq!(decode(&schema, &[1], ByteOrder::Big), Ok((Value::Variant(0, vec![]), 1)));
    assert_eq!(decode(&schema, &[2], ByteOrder::Big), Err(Error::UnrecognizedDiscriminant));
    assert_eq!(decode(&schema, &[], ByteOrder::Big), Err(Error::IoFailure));
}

#[test]
fn a_variant_without_fields_is_its_discriminant_alone() {
    let schema = Schema::Sum {
        endianness: None,
        tag_type: Primitive::U16,
        variants: vec![
            Variant { matches: vec![range(1, 1)], mode: TagMode::Emit(1), fields: vec![prim(Primitive::U8)] },
            Variant { matches: vec![], mode: TagMode::Emit(0xffff), fields: vec![] },
        ],
    };
    let fallback = Value::Variant(1, vec![]);
    assert_eq!(encode(&schema, &fallback, ByteOrder::Big).unwrap(), vec![0xff, 0xff]);
    assert_eq!(schema.encoded_size(&fallback), Some(2));
    round_trip(&schema, &fallback);
    assert_eq!(decode(&schema, &[0x12, 0x34], ByteOrder::Big), Ok((fallback, 2)));
}

#[test]
fn kept_discriminant_is_written_once_and_read_back_as_the_first_field() {
    let schema = selection();
    let kept = Value::Variant(2, vec![scalar(Scalar::U8(7))]);
    assert_eq!(encode(&schema, &kept, ByteOrder::Big).unwrap(), vec![7]);
    assert_eq!(schema.encoded_size(&kept), Some(1));
    assert_eq!(decode(&schema, &[8], ByteOrder::Big), Ok((Value::Variant(2, vec![scalar(Scalar::U8(8))]), 1)));
    assert_eq!(decode(&schema, &[99], ByteOrder::Big), Ok((Value::Variant(3, vec![scalar(Scalar::U8(99))]), 1)));
    round_trip(&schema, &kept);
    round_trip(&schema, &Value::Variant(3, vec![scalar(Scalar::U8(200))]));
}

#[test]
fn kept_discriminant_that_selects_another_variant_does_not_come_back() {
    // the first field of the range variant holds 1, which selects the first variant
    let schema = selection();
    let stray = Value::Variant(2, vec![scalar(Scalar::U8(1))]);
    let bytes = encode(&schema, &stray, ByteOrder::Big).unwrap();
    assert_eq!(bytes, vec![1]);
    assert_eq!(decode(&schema, &bytes, ByteOrder::Big), Ok((Value::Variant(0, vec![]), 1)));
}

#[test]
fn magic_is_written_checked_and_counted() {
    let schema = record(Some(Endianness::Big), Some(Scalar::U16(0xabcd)), vec![prim(Primitive::U8)]);
    let value = Value::List(vec![scalar(Scalar::U8(9))]);
    assert_eq!(encode(&schema, &value, ByteOrder::Big).unwrap(), vec![0xab, 0xcd, 9]);
    assert_eq!(schema.encoded_size(&value), Some(3));
    assert_eq!(decode(&schema, &[0xab, 0xcd, 9], ByteOrder::Big), Ok((value, 3)));
    assert_eq!(decode(&schema, &[0xab, 0xce, 9], ByteOrder::Big), Err(Error::BadMagic));
    assert_eq!(decode(&schema, &[0xcd, 0xab, 9], ByteOrder::Big), Err(Error::BadMagic));
    assert_eq!(decode(&schema, &[0xab], ByteOrder::Big), Err(Error::IoFailure));
    assert_eq!(decode(&schema, &[0xab, 0xcd], ByteOrder::Big), Err(Error::IoFailure));
}

#[test]
fn sequence_counted_in_items() {
    let schema = record(Some(Endianness::Big), None, vec![seq(prim(Primitive::I16), Primitive::U8, false)]);
    let value = Value::List(vec![Value::List(vec![
        scalar(Scalar::I16(1)),
        scalar(Scalar::I16(-1)),
        scalar(Scalar::I16(3)),
    ])]);
    assert_eq!(encode(&schema, &value, ByteOrder::Big).unwrap(), vec![3, 0, 1, 0xff, 0xff, 0, 3]);
    round_trip(&schema, &value);
    round_trip(&schema, &Value::List(vec![Value::List(vec![])]));
    // fewer items than announced
    assert_eq!(decode(&schema, &[2, 0, 1], ByteOrder::Big), Err(Error::IoFailure));
}

#[test]
fn sequence_counted_in_bytes_accounts_for_every_item() {
    let schema = record(Some(Endianness::Big), None, vec![seq(prim(Primitive::I16), Primitive::U32, true)]);
    let items = vec![scalar(Scalar::I16(1)), scalar(Scalar::I16(-1)), scalar(Scalar::I16(3))];
    let sum: usize = items.iter().map(|v| size_type(&prim(Primitive::I16), v).unwrap()).sum();
    assert_eq!(sum, 6);
    let value = Value::List(vec![Value::List(items)]);
    let bytes = encode(&schema, &value, ByteOrder::Big).unwrap();
    assert_eq!(bytes, vec![0, 0, 0, 6, 0, 1, 0xff, 0xff, 0, 3]);
    let (back, taken) = decode(&schema, &bytes, ByteOrder::Big).unwrap();
    assert_eq!(taken, 4 + sum);
    assert_eq!(back, value);
    match &back {
        Value::List(fields) => match &fields[0] {
            Value::List(items) => assert_eq!(items.len(), 3),
            _ => unreachable!(),
        },
        _ => unreachable!(),
    }
    round_trip(&schema, &value);
}

#[test]
fn byte_budget_must_end_with_an_item() {
    let schema = record(Some(Endianness::Big), None, vec![seq(prim(Primitive::I16), Primitive::U8, true)]);
    // three bytes hold one item and a half
    assert_eq!(decode(&schema, &[3, 0, 1, 0, 2], ByteOrder::Big), Err(Error::MalformedLength));
    // one byte holds no item
    assert_eq!(decode(&schema, &[1, 0, 1], ByteOrder::Big), Err(Error::MalformedLength));
    // the budget is fine but the bytes are not there
    assert_eq!(decode(&schema, &[4, 0, 1], ByteOrder::Big), Err(Error::IoFailure));
    assert_eq!(decode(&schema, &[0], ByteOrder::Big), Ok((Value::List(vec![Value::List(vec![])]), 1)));
}

#[test]
fn items_without_bytes_cannot_fill_a_byte_budget() {
    let schema = record(None, None, vec![seq(Type::Tuple(vec![]), Primitive::U8, true)]);
    assert_eq!(decode(&schema, &[1, 0], ByteOrder::Big), Err(Error::MalformedLength));
    assert_eq!(decode(&schema, &[0], ByteOrder::Big), Ok((Value::List(vec![Value::List(vec![])]), 1)));
    // counted in items, they are read without taking bytes
    let counted = record(None, None, vec![seq(Type::Tuple(vec![]), Primitive::U8, false)]);
    assert_eq!(
        decode(&counted, &[2], ByteOrder::Big),
        Ok((Value::List(vec![Value::List(vec![unit(), unit()])]), 1))
    );
}

#[test]
fn negative_length_is_malformed() {
    let schema = record(Some(Endianness::Big), None, vec![seq(prim(Primitive::U8), Primitive::I8, false)]);
    assert_eq!(decode(&schema, &[0xff, 1, 2], ByteOrder::Big), Err(Error::MalformedLength));
    assert_eq!(
        decode(&schema, &[1, 7], ByteOrder::Big),
        Ok((Value::List(vec![Value::List(vec![scalar(Scalar::U8(7))])]), 2))
    );
}

#[test]
fn length_that_the_prefix_cannot_hold_is_cut_to_its_width() {
    let schema = record(Some(Endianness::Big), None, vec![seq(prim(Primitive::U8), Primitive::U8, false)]);
    let items: Vec<Value> = (0..258).map(|i| scalar(Scalar::U8(i as u8))).collect();
    let value = Value::List(vec![Value::List(items)]);
    let bytes = encode(&schema, &value, ByteOrder::Big).unwrap();
    assert_eq!(bytes.len(), 1 + 258);
    assert_eq!(bytes[0], 2);
    assert_eq!(schema.encoded_size(&value), Some(259));
    // only the announced items come back
    let (back, taken) = decode(&schema, &bytes, ByteOrder::Big).unwrap();
    assert_eq!(taken, 3);
    assert_ne!(back, value);
}

#[test]
fn fixed_arrays_and_tuples_have_no_prefix() {
    let schema = record(
        Some(Endianness::Big),
        None,
        vec![
            Type::FixedArray(Box::new(prim(Primitive::U16)), 3),
            Type::Tuple(vec![prim(Primitive::U8), prim(Primitive::U16)]),
            Type::Tuple(vec![]),
            Type::FixedArray(Box::new(prim(Primitive::U64)), 0),
        ],
    );
    let value = Value::List(vec![
        Value::List(vec![scalar(Scalar::U16(1)), scalar(Scalar::U16(2)), scalar(Scalar::U16(3))]),
        Value::List(vec![scalar(Scalar::U8(4)), scalar(Scalar::U16(5))]),
        unit(),
        unit(),
    ]);
    assert_eq!(encode(&schema, &value, ByteOrder::Big).unwrap(), vec![0, 1, 0, 2, 0, 3, 4, 0, 5]);
    assert_eq!(schema.encoded_size(&value), Some(3 * 2 + 1 + 2));
    round_trip(&schema, &value);
    assert_eq!(decode(&schema, &[0, 1, 0, 2, 0], ByteOrder::Big), Err(Error::IoFailure));
}

#[test]
fn skipped_fields_take_no_bytes_and_come_back_as_their_default() {
    let schema = record(
        Some(Endianness::Big),
        None,
        vec![prim(Primitive::U8), Type::Skipped(scalar(Scalar::I32(0))), prim(Primitive::U8)],
    );
    let departed = Value::List(vec![scalar(Scalar::U8(1)), scalar(Scalar::I32(10)), scalar(Scalar::U8(2))]);
    let arrived = Value::List(vec![scalar(Scalar::U8(1)), scalar(Scalar::I32(0)), scalar(Scalar::U8(2))]);
    assert_eq!(schema.encoded_size(&departed), Some(2));
    let bytes = encode(&schema, &departed, ByteOrder::Big).unwrap();
    assert_eq!(bytes, vec![1, 2]);
    assert_eq!(decode(&schema, &bytes, ByteOrder::Big), Ok((arrived.clone(), 2)));
    round_trip(&schema, &arrived);
}

#[test]
fn context_marker_reads_the_context_and_writes_into_it() {
    let schema = record(None, None, vec![prim(Primitive::U8), Type::ContextMarker, prim(Primitive::U8)]);
    let ambient = scalar(Scalar::U64(77));
    let value = Value::List(vec![scalar(Scalar::U8(1)), ambient.clone(), scalar(Scalar::U8(2))]);
    assert!(schema.admits(&value));
    assert_eq!(schema.encoded_size(&value), Some(2));

    let mut out = Vec::new();
    let mut ctx = unit();
    assert_eq!(schema.encode_with(&value, ByteOrder::Big, &mut out, &mut ctx), Ok(()));
    assert_eq!(out, vec![1, 2]);
    assert_eq!(ctx, ambient);

    assert_eq!(schema.decode_with(&out, ByteOrder::Big, &ambient), Ok((value, 2)));
    let other = scalar(Scalar::Bool(true));
    assert_eq!(
        schema.decode_with(&out, ByteOrder::Big, &other),
        Ok((Value::List(vec![scalar(Scalar::U8(1)), other.clone(), scalar(Scalar::U8(2))]), 2))
    );
}

#[test]
fn context_is_left_alone_without_a_marker() {
    let schema = record(None, None, vec![prim(Primitive::U8)]);
    let mut out = Vec::new();
    let mut ctx = scalar(Scalar::U8(5));
    let value = Value::List(vec![scalar(Scalar::U8(1))]);
    assert_eq!(schema.encode_with(&value, ByteOrder::Big, &mut out, &mut ctx), Ok(()));
    assert_eq!(ctx, scalar(Scalar::U8(5)));
}

#[test]
fn excluded_variant_cannot_be_encoded_nor_decoded() {
    let schema = Schema::Sum {
        endianness: None,
        tag_type: Primitive::U8,
        variants: vec![
            Variant { matches: vec![range(1, 1)], mode: TagMode::Emit(1), fields: vec![] },
            Variant { matches: vec![range(2, 2)], mode: TagMode::Excluded, fields: vec![] },
        ],
    };
    assert_eq!(encode(&schema, &Value::Variant(1, vec![]), ByteOrder::Big), Err(Error::UnencodableVariant));
    assert_eq!(encode(&schema, &Value::Variant(0, vec![]), ByteOrder::Big), Ok(vec![1]));
    assert_eq!(decode(&schema, &[2], ByteOrder::Big), Err(Error::UnrecognizedDiscriminant));
    // nested deep inside a value it still stops the encoding
    let outer = record(
        None,
        None,
        vec![prim(Primitive::U8), seq(Type::Composite(Box::new(schema)), Primitive::U8, false)],
    );
    let value = Value::List(vec![
        scalar(Scalar::U8(0)),
        Value::List(vec![Value::Variant(0, vec![]), Value::Variant(1, vec![])]),
    ]);
    assert_eq!(encode(&outer, &value, ByteOrder::Big), Err(Error::UnencodableVariant));
}

#[test]
fn size_never_depends_on_byte_order() {
    let fields = || vec![prim(Primitive::U64), seq(prim(Primitive::U16), Primitive::U16, true)];
    let value = Value::List(vec![
        scalar(Scalar::U64(1)),
        Value::List(vec![scalar(Scalar::U16(1)), scalar(Scalar::U16(2))]),
    ]);
    for endianness in [None, Some(Endianness::Big), Some(Endianness::Little), Some(Endianness::Native)] {
        let schema = record(endianness, None, fields());
        assert_eq!(schema.encoded_size(&value), Some(8 + 2 + 4));
        round_trip(&schema, &value);
    }
}

#[test]
fn values_are_read_from_any_position() {
    let t = seq(prim(Primitive::U16), Primitive::U8, false);
    let input = [0xaa, 0xbb, 2, 0, 1, 0, 2, 0xcc];
    let read = decode_type(&t, &input, 2, ByteOrder::Big, ByteOrder::Big, &unit());
    assert_eq!(read, Ok((Value::List(vec![scalar(Scalar::U16(1)), scalar(Scalar::U16(2))]), 7)));
    // at the very end there is nothing left to read
    assert_eq!(
        decode_type(&prim(Primitive::U8), &input, input.len(), ByteOrder::Big, ByteOrder::Big, &unit()),
        Err(Error::IoFailure)
    );
    assert_eq!(
        decode_type(&Type::Tuple(vec![]), &input, input.len(), ByteOrder::Big, ByteOrder::Big, &unit()),
        Ok((unit(), input.len()))
    );
}

#[test]
fn encoding_appends_to_what_is_there() {
    let t = prim(Primitive::U16);
    let mut out = vec![9, 9];
    let mut ctx = unit();
    let value = scalar(Scalar::U16(0x0102));
    assert!(t.admits(&value));
    assert_eq!(encode_type(&t, &value, ByteOrder::Big, ByteOrder::Little, &mut out, &mut ctx), Ok(()));
    assert_eq!(out, vec![9, 9, 1, 2]);
}

#[test]
fn shapes_of_values_are_told_apart() {
    let schema = selection();
    assert!(schema.admits(&Value::Variant(0, vec![])));
    assert!(!schema.admits(&Value::Variant(0, vec![scalar(Scalar::U8(1))])));
    assert!(!schema.admits(&Value::Variant(4, vec![])));
    assert!(!schema.admits(&Value::List(vec![])));
    assert!(!schema.admits(&Value::Variant(2, vec![scalar(Scalar::I8(7))])));
    let array = Type::FixedArray(Box::new(prim(Primitive::U8)), 2);
    assert!(array.admits(&Value::List(vec![scalar(Scalar::U8(1)), scalar(Scalar::U8(2))])));
    assert!(!array.admits(&Value::List(vec![scalar(Scalar::U8(1))])));
    assert!(!array.admits(&Value::List(vec![scalar(Scalar::U8(1)), scalar(Scalar::U16(2))])));
    assert!(!array.admits(&scalar(Scalar::U8(1))));
    let tuple = Type::Tuple(vec![prim(Primitive::Bool), prim(Primitive::F32)]);
    assert!(tuple.admits(&Value::List(vec![scalar(Scalar::Bool(true)), scalar(Scalar::F32(0))])));
    assert!(!tuple.admits(&Value::List(vec![scalar(Scalar::F32(0)), scalar(Scalar::Bool(true))])));
    assert!(Type::Skipped(unit()).admits(&scalar(Scalar::U8(1))));
    assert!(Type::ContextMarker.admits(&unit()));
}

#[test]
fn round_trip_over_a_nested_description() {
    let leaf = Schema::Sum {
        endianness: Some(Endianness::Little),
        tag_type: Primitive::I16,
        variants: vec![
            Variant {
                matches: vec![range(-1, -1)],
                mode: TagMode::Emit(-1),
                fields: vec![seq(prim(Primitive::U16), Primitive::U16, true)],
            },
            Variant {
                matches: vec![range(0, 100)],
                mode: TagMode::Keep,
                fields: vec![prim(Primitive::I16), prim(Primitive::F64)],
            },
            Variant { matches: vec![], mode: TagMode::Emit(-2), fields: vec![] },
        ],
    };
    let schema = record(
        Some(Endianness::Big),
        Some(Scalar::U32(0xfeedface)),
        vec![
            seq(Type::Composite(Box::new(leaf)), Primitive::U8, true),
            Type::FixedArray(Box::new(prim(Primitive::I128)), 2),
            prim(Primitive::U128),
        ],
    );
    let value = Value::List(vec![
        Value::List(vec![
            Value::Variant(0, vec![Value::List(vec![scalar(Scalar::U16(1)), scalar(Scalar::U16(2))])]),
            Value::Variant(1, vec![scalar(Scalar::I16(42)), scalar(Scalar::F64(1.5f64.to_bits()))]),
            Value::Variant(2, vec![]),
        ]),
        Value::List(vec![scalar(Scalar::I128(i128::MIN)), scalar(Scalar::I128(-1))]),
        scalar(Scalar::U128(u128::MAX)),
    ]);
    let bytes = encode(&schema, &value, ByteOrder::Big).unwrap();
    assert_eq!(&bytes[..4], &[0xfe, 0xed, 0xfa, 0xce]);
    // 8 bytes of sequence, 10 of a kept variant, 2 of the default
    assert_eq!(bytes[4], 8 + 10 + 2);
    // the inner type is little-endian: -1 and the byte count 4
    assert_eq!(&bytes[5..9], &[0xff, 0xff, 4, 0]);
    round_trip(&schema, &value);
}

#[test]
fn a_variant_that_is_only_read_is_never_written() {
    let schema = Schema::Sum {
        endianness: Some(Endianness::Big),
        tag_type: Primitive::U16,
        variants: vec![
            Variant { matches: vec![range(1, 1)], mode: TagMode::Emit(1), fields: vec![] },
            Variant {
                matches: vec![range(2, 9)],
                mode: TagMode::ReadOnly,
                fields: vec![prim(Primitive::U8)],
            },
            Variant { matches: vec![], mode: TagMode::ReadOnly, fields: vec![] },
        ],
    };
    assert_eq!(schema.check(), Ok(()));
    let ranged = Value::Variant(1, vec![scalar(Scalar::U8(7))]);
    let other = Value::Variant(2, vec![]);
    assert_eq!(decode(&schema, &[0, 5, 7], ByteOrder::Little), Ok((ranged.clone(), 3)));
    assert_eq!(decode(&schema, &[0, 10], ByteOrder::Little), Ok((other.clone(), 2)));
    assert_eq!(decode(&schema, &[0xff, 0xff, 1], ByteOrder::Little), Ok((other.clone(), 2)));
    assert_eq!(schema.encoded_size(&ranged), Some(3));
    assert_eq!(schema.encoded_size(&other), Some(2));
    assert_eq!(encode(&schema, &ranged, ByteOrder::Big), Err(Error::UnencodableVariant));
    assert_eq!(encode(&schema, &other, ByteOrder::Big), Err(Error::UnencodableVariant));
    assert_eq!(encode(&schema, &Value::Variant(0, vec![]), ByteOrder::Big), Ok(vec![0, 1]));
}
