use plod::{
    ByteOrder, Endianness, Primitive, Scalar, Schema, SizePrefix, TagMode, TagRange, Type, Value,
    Variant,
};

/// A small generator of numbers, the same on every run.
struct Dice(u64);

impl Dice {
    fn next(&mut self) -> u64 {
        self.0 = self.0.wrapping_mul(6364136223846793005).wrapping_add(1442695040888963407);
        self.0 >> 33
    }

    fn below(&mut self, n: u64) -> u64 {
        self.next() % n
    }

    fn chance(&mut self, one_in: u64) -> bool {
        self.below(one_in) == 0
    }

    fn wide(&mut self) -> u128 {
        let mut x: u128 = 0;
        for _ in 0..4 {
            x = (x << 32) | (self.next() as u128 & 0xffff_ffff);
        }
        x
    }
}

const KINDS: [Primitive; 13] = [
    Primitive::Bool,
    Primitive::U8,
    Primitive::U16,
    Primitive::U32,
    Primitive::U64,
    Primitive::U128,
    Primitive::I8,
    Primitive::I16,
    Primitive::I32,
    Primitive::I64,
    Primitive::I128,
    Primitive::F32,
    Primitive::F64,
];

const PREFIXES: [Primitive; 8] = [
    Primitive::U8,
    Primitive::U16,
    Primitive::U32,
    Primitive::U64,
    Primitive::U128,
    Primitive::I8,
    Primitive::I16,
    Primitive::I64,
];

fn endianness(dice: &mut Dice) -> Option<Endianness> {
    match dice.below(4) {
        0 => None,
        1 => Some(Endianness::Big),
        2 => Some(Endianness::Little),
        _ => Some(Endianness::Native),
    }
}

fn scalar(dice: &mut Dice, kind: Primitive) -> Scalar {
    let x = dice.wide();
    match kind {
        Primitive::Bool => Scalar::Bool(x & 1 == 1),
        Primitive::U8 => Scalar::U8(x as u8),
        Primitive::U16 => Scalar::U16(x as u16),
        Primitive::U32 => Scalar::U32(x as u32),
        Primitive::U64 => Scalar::U64(x as u64),
        Primitive::U128 => Scalar::U128(x),
        Primitive::I8 => Scalar::I8(x as i8),
        Primitive::I16 => Scalar::I16(x as i16),
        Primitive::I32 => Scalar::I32(x as i32),
        Primitive::I64 => Scalar::I64(x as i64),
        Primitive::I128 => Scalar::I128(x as i128),
        Primitive::F32 => Scalar::F32(x as u32),
        Primitive::F64 => Scalar::F64(x as u64),
    }
}

/// A type and a value of it that decoding gives back, both made by chance.
/// `solid` asks for a type whose values take at least one byte.
fn typed(dice: &mut Dice, depth: u32, solid: bool) -> (Type, Value) {
    let choice = if depth == 0 { 0 } else { dice.below(8) };
    match choice {
        0 | 1 => {
            let kind = KINDS[dice.below(13) as usize];
            (Type::Primitive(kind), Value::Scalar(scalar(dice, kind)))
        }
        2 => {
            let (schema, value) = described(dice, depth - 1, solid);
            (Type::Composite(Box::new(schema)), value)
        }
        3 => {
            let count = dice.below(4) as usize + if solid { 1 } else { 0 };
            let (item, first) = typed(dice, depth - 1, solid);
            let mut items = vec![first];
            while items.len() < count {
                items.push(another(dice, &item));
            }
            items.truncate(count);
            (Type::FixedArray(Box::new(item), count), Value::List(items))
        }
        4 => {
            let mut types = Vec::new();
            let mut values = Vec::new();
            for i in 0..dice.below(4) + if solid { 1 } else { 0 } {
                let (t, v) = typed(dice, depth - 1, solid && i == 0);
                types.push(t);
                values.push(v);
            }
            (Type::Tuple(types), Value::List(values))
        }
        5 | 6 => {
            let byte_sized = dice.chance(2);
            // a prefix of one byte is kept for counts, which stay small
            let size_type =
                if byte_sized { PREFIXES[1 + dice.below(4) as usize] } else { PREFIXES[dice.below(8) as usize] };
            let (item, first) = typed(dice, depth - 1, byte_sized);
            let mut items = Vec::new();
            let count = dice.below(5);
            if count > 0 {
                items.push(first);
            }
            while (items.len() as u64) < count {
                items.push(another(dice, &item));
            }
            (Type::Sequence(Box::new(item), SizePrefix { size_type, byte_sized }), Value::List(items))
        }
        _ => {
            if solid {
                return typed(dice, depth - 1, solid);
            }
            let (_, default) = typed(dice, depth - 1, false);
            (Type::Skipped(default.clone()), default)
        }
    }
}

/// A described type and a value of it that decoding gives back.
fn described(dice: &mut Dice, depth: u32, solid: bool) -> (Schema, Value) {
    if dice.chance(2) {
        let magic = if dice.chance(2) {
            let kind = KINDS[1 + dice.below(10) as usize];
            Some(scalar(dice, kind))
        } else {
            None
        };
        let mut fields = Vec::new();
        let mut values = Vec::new();
        let count = dice.below(4) + if solid && magic.is_none() { 1 } else { 0 };
        for i in 0..count {
            let (t, v) = typed(dice, depth, solid && magic.is_none() && i == 0);
            fields.push(t);
            values.push(v);
        }
        (Schema::Record { endianness: endianness(dice), magic, fields }, Value::List(values))
    } else {
        // discriminants 10, 20, 30, ... are written; 100..=120 and 200 are kept;
        // the default, if there is one, keeps everything else
        let tag_type = [Primitive::U8, Primitive::I16, Primitive::U32, Primitive::I64][dice.below(4) as usize];
        let mut variants = Vec::new();
        let mut values = Vec::new();
        for i in 0..1 + dice.below(3) {
            let tag = 10 * (i as i128 + 1);
            let mut fields = Vec::new();
            let mut parts = Vec::new();
            for _ in 0..dice.below(3) {
                let (t, v) = typed(dice, depth, false);
                fields.push(t);
                parts.push(v);
            }
            variants.push(Variant {
                matches: vec![TagRange { low: tag, high: tag }],
                mode: TagMode::Emit(tag),
                fields,
            });
            values.push(parts);
        }
        if dice.chance(2) {
            let kept = [100, 107, 120, 200][dice.below(4) as usize];
            let (t, v) = typed(dice, depth, false);
            variants.push(Variant {
                matches: vec![TagRange { low: 100, high: 120 }, TagRange { low: 200, high: 200 }],
                mode: TagMode::Keep,
                fields: vec![Type::Primitive(tag_type), t],
            });
            values.push(vec![Value::Scalar(Scalar::from_int(tag_type, kept)), v]);
        }
        if dice.chance(3) {
            variants.push(Variant { matches: vec![], mode: TagMode::Excluded, fields: vec![] });
        }
        if dice.chance(2) {
            let kept = [0, 1, 99, 121, 127][dice.below(5) as usize];
            variants.push(Variant {
                matches: vec![],
                mode: TagMode::Keep,
                fields: vec![Type::Primitive(tag_type)],
            });
            values.push(vec![Value::Scalar(Scalar::from_int(tag_type, kept))]);
        }
        let travelling: Vec<usize> = variants
            .iter()
            .enumerate()
            .filter(|(_, v)| v.mode != TagMode::Excluded)
            .map(|(i, _)| i)
            .collect();
        let pick = dice.below(travelling.len() as u64) as usize;
        let value = Value::Variant(travelling[pick], values.swap_remove(pick));
        (Schema::Sum { endianness: endianness(dice), tag_type, variants }, value)
    }
}

/// Another value of the type, which decoding gives back as well.
fn another(dice: &mut Dice, t: &Type) -> Value {
    match t {
        Type::Primitive(kind) => Value::Scalar(scalar(dice, *kind)),
        Type::FixedArray(item, count) => Value::List((0..*count).map(|_| another(dice, item)).collect()),
        Type::Tuple(items) => Value::List(items.iter().map(|item| another(dice, item)).collect()),
        Type::Sequence(item, _) => {
            Value::List((0..dice.below(4)).map(|_| another(dice, item)).collect())
        }
        Type::Skipped(default) => default.clone(),
        Type::ContextMarker => Value::List(vec![]),
        Type::Composite(schema) => match &**schema {
            Schema::Record { fields, .. } => {
                Value::List(fields.iter().map(|field| another(dice, field)).collect())
            }
            Schema::Sum { tag_type, variants, .. } => {
                let travelling: Vec<usize> = variants
                    .iter()
                    .enumerate()
                    .filter(|(_, v)| v.mode != TagMode::Excluded)
                    .map(|(i, _)| i)
                    .collect();
                let index = travelling[dice.below(travelling.len() as u64) as usize];
                let variant = &variants[index];
                let mut parts: Vec<Value> =
                    variant.fields.iter().map(|field| another(dice, field)).collect();
                if variant.mode == TagMode::Keep {
                    let kept = if variant.matches.is_empty() { 99 } else { 107 };
                    parts[0] = Value::Scalar(Scalar::from_int(*tag_type, kept));
                }
                Value::Variant(index, parts)
            }
        },
    }
}

#[test]
fn values_made_by_chance_come_back() {
    let mut dice = Dice(0x5eed);
    let empty = Value::List(vec![]);
    let mut bytes_seen = 0;
    for round in 0..400 {
        let (schema, value) = described(&mut dice, 3, false);
        assert_eq!(schema.check(), Ok(()), "round {}: {:?}", round, schema);
        assert!(schema.admits(&value), "round {}: {:?} {:?}", round, schema, value);
        for host in [ByteOrder::Big, ByteOrder::Little] {
            let mut out = vec![0xaa];
            let mut ctx = empty.clone();
            assert_eq!(schema.encode_with(&value, host, &mut out, &mut ctx), Ok(()), "round {}", round);
            assert_eq!(out[0], 0xaa);
            assert_eq!(ctx, empty);
            let bytes = &out[1..];
            assert_eq!(schema.encoded_size(&value), Some(bytes.len()), "round {}", round);
            assert_eq!(
                schema.decode_with(bytes, host, &empty),
                Ok((value.clone(), bytes.len())),
                "round {}: {:?}",
                round,
                schema
            );
            // a value cut short is never read
            if !bytes.is_empty() {
                let cut = &bytes[..bytes.len() - 1];
                assert!(schema.decode_with(cut, host, &empty) != Ok((value.clone(), bytes.len())));
            }
            bytes_seen += bytes.len();
        }
    }
    assert!(bytes_seen > 4000);
}
