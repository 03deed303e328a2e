use plod::primitive::{read_raw, read_scalar, write_raw, write_scalar};
use plod::{host_order, ByteOrder, Error, Plod, Primitive, Scalar, Type, Value};

const ALL: [Primitive; 13] = [
    Primitive::Bool,
    Primitive::U8,
    Primitive::U16,
    Primitive::U32,
    Primitive::U64,
    Primitive::U128,
    Primitive::I8,
    Primitive::I16,
    Primitive::I32,
    Primitive::I64,
    Primitive::I128,
    Primitive::F32,
    Primitive::F64,
];

fn bytes_of(s: Scalar, order: ByteOrder) -> Vec<u8> {
    let mut out = Vec::new();
    write_scalar(&mut out, s, order);
    out
}

#[test]
fn widths_are_the_standard_ones() {
    let widths: Vec<usize> = ALL.iter().map(|k| k.size()).collect();
    assert_eq!(widths, vec![1, 1, 2, 4, 8, 16, 1, 2, 4, 8, 16, 4, 8]);
}

#[test]
fn only_floats_are_not_integral() {
    for kind in ALL {
        assert_eq!(kind.is_integral(), !matches!(kind, Primitive::F32 | Primitive::F64));
    }
}

#[test]
fn scalars_match_the_bytes_of_the_language() {
    assert_eq!(bytes_of(Scalar::U16(0x1234), ByteOrder::Big), 0x1234u16.to_be_bytes().to_vec());
    assert_eq!(bytes_of(Scalar::U16(0x1234), ByteOrder::Little), 0x1234u16.to_le_bytes().to_vec());
    assert_eq!(bytes_of(Scalar::I16(-2), ByteOrder::Big), (-2i16).to_be_bytes().to_vec());
    assert_eq!(bytes_of(Scalar::I32(i32::MIN), ByteOrder::Little), i32::MIN.to_le_bytes().to_vec());
    assert_eq!(bytes_of(Scalar::I64(-1234567), ByteOrder::Big), (-1234567i64).to_be_bytes().to_vec());
    assert_eq!(bytes_of(Scalar::U64(u64::MAX - 1), ByteOrder::Little), (u64::MAX - 1).to_le_bytes().to_vec());
    assert_eq!(bytes_of(Scalar::U128(1 << 100), ByteOrder::Big), (1u128 << 100).to_be_bytes().to_vec());
    assert_eq!(bytes_of(Scalar::I128(i128::MIN + 5), ByteOrder::Little), (i128::MIN + 5).to_le_bytes().to_vec());
    assert_eq!(bytes_of(Scalar::I8(-128), ByteOrder::Big), vec![0x80]);
    assert_eq!(bytes_of(Scalar::Bool(true), ByteOrder::Big), vec![1]);
    assert_eq!(bytes_of(Scalar::Bool(false), ByteOrder::Little), vec![0]);
    assert_eq!(bytes_of(Scalar::F32(1.5f32.to_bits()), ByteOrder::Big), 1.5f32.to_be_bytes().to_vec());
    assert_eq!(bytes_of(Scalar::F64((-0.25f64).to_bits()), ByteOrder::Little), (-0.25f64).to_le_bytes().to_vec());
}

#[test]
fn scalars_come_back_from_their_bytes() {
    let samples = vec![
        Scalar::Bool(true),
        Scalar::Bool(false),
        Scalar::U8(0),
        Scalar::U8(255),
        Scalar::U16(0xbaba),
        Scalar::U32(0xdeadbeef),
        Scalar::U64(u64::MAX),
        Scalar::U128(u128::MAX),
        Scalar::I8(-1),
        Scalar::I8(i8::MIN),
        Scalar::I16(i16::MIN),
        Scalar::I16(i16::MAX),
        Scalar::I32(-123456),
        Scalar::I64(i64::MIN),
        Scalar::I128(i128::MIN),
        Scalar::I128(i128::MAX),
        Scalar::I128(-1),
        Scalar::F32(f32::NAN.to_bits()),
        Scalar::F64(f64::INFINITY.to_bits()),
    ];
    for s in samples {
        for order in [ByteOrder::Big, ByteOrder::Little] {
            let mut out = vec![0xee];
            write_scalar(&mut out, s, order);
            assert_eq!(out.len(), 1 + s.kind().size());
            out.push(0xee);
            assert_eq!(read_scalar(&out, 1, s.kind(), order), Ok(s));
            assert_eq!(Scalar::from_raw(s.kind(), s.to_raw()), s);
        }
    }
}

#[test]
fn any_byte_but_zero_reads_as_true() {
    assert_eq!(read_scalar(&[0], 0, Primitive::Bool, ByteOrder::Big), Ok(Scalar::Bool(false)));
    assert_eq!(read_scalar(&[1], 0, Primitive::Bool, ByteOrder::Big), Ok(Scalar::Bool(true)));
    assert_eq!(read_scalar(&[2], 0, Primitive::Bool, ByteOrder::Big), Ok(Scalar::Bool(true)));
    assert_eq!(read_scalar(&[0xff], 0, Primitive::Bool, ByteOrder::Little), Ok(Scalar::Bool(true)));
}

#[test]
fn reading_past_the_end_fails() {
    for kind in ALL {
        let input = vec![0u8; kind.size() - 1];
        assert_eq!(read_scalar(&input, 0, kind, ByteOrder::Big), Err(Error::IoFailure));
        let input = vec![0u8; kind.size() + 3];
        assert_eq!(read_scalar(&input, 4, kind, ByteOrder::Big), Err(Error::IoFailure));
        assert!(read_scalar(&input, 3, kind, ByteOrder::Big).is_ok());
    }
}

#[test]
fn raw_patterns_are_cut_to_the_width_asked_for() {
    let mut out = Vec::new();
    write_raw(&mut out, 0x0102_0304, 2, ByteOrder::Big);
    assert_eq!(out, vec![3, 4]);
    let mut out = Vec::new();
    write_raw(&mut out, 0x0102_0304, 3, ByteOrder::Little);
    assert_eq!(out, vec![4, 3, 2]);
    let mut out = Vec::new();
    write_raw(&mut out, 7, 0, ByteOrder::Little);
    assert_eq!(out, Vec::<u8>::new());
    assert_eq!(read_raw(&[1, 2, 3, 4], 1, 2, ByteOrder::Big), 0x0203);
    assert_eq!(read_raw(&[1, 2, 3, 4], 1, 3, ByteOrder::Little), 0x040302);
    assert_eq!(read_raw(&[0xff; 16], 0, 16, ByteOrder::Big), u128::MAX);
    assert_eq!(read_raw(&[1, 2, 3, 4], 4, 0, ByteOrder::Big), 0);
}

#[test]
fn integers_of_scalars() {
    assert_eq!(Scalar::from_int(Primitive::I16, -5), Scalar::I16(-5));
    assert_eq!(Scalar::from_int(Primitive::U128, i128::MAX), Scalar::U128(i128::MAX as u128));
    assert_eq!(Scalar::from_int(Primitive::Bool, 1), Scalar::Bool(true));
    assert_eq!(Scalar::from_int(Primitive::Bool, 0), Scalar::Bool(false));
    assert_eq!(Scalar::I8(-3).to_count(), None);
    assert_eq!(Scalar::I64(3).to_count(), Some(3));
    assert_eq!(Scalar::U128(u128::MAX).to_count(), Some(u128::MAX));
    assert_eq!(Scalar::Bool(true).to_count(), Some(1));
    assert!(Scalar::I8(-3).within(-3, -3));
    assert!(!Scalar::I8(-3).within(-2, 5));
    assert!(Scalar::U128(5).within(i128::MIN, i128::MAX));
    assert!(!Scalar::U128(u128::MAX).within(i128::MIN, i128::MAX));
    assert!(Scalar::Bool(false).within(0, 0));
}

#[test]
fn types_hold_their_own_range() {
    assert!(Primitive::U8.admits(0) && Primitive::U8.admits(255));
    assert!(!Primitive::U8.admits(-1) && !Primitive::U8.admits(256));
    assert!(Primitive::I8.admits(-128) && Primitive::I8.admits(127));
    assert!(!Primitive::I8.admits(-129) && !Primitive::I8.admits(128));
    assert!(Primitive::U16.admits(0xffff) && !Primitive::U16.admits(0x1_0000));
    assert!(Primitive::I16.admits(-0x8000) && !Primitive::I16.admits(0x8000));
    assert!(Primitive::U32.admits(0xffff_ffff) && !Primitive::U32.admits(0x1_0000_0000));
    assert!(Primitive::I32.admits(i32::MIN as i128) && !Primitive::I32.admits(i32::MAX as i128 + 1));
    assert!(Primitive::U64.admits(u64::MAX as i128) && !Primitive::U64.admits(u64::MAX as i128 + 1));
    assert!(Primitive::I64.admits(i64::MIN as i128) && !Primitive::I64.admits(i64::MIN as i128 - 1));
    assert!(Primitive::U128.admits(i128::MAX) && !Primitive::U128.admits(-1));
    assert!(Primitive::I128.admits(i128::MIN) && Primitive::I128.admits(i128::MAX));
    assert!(Primitive::Bool.admits(1) && !Primitive::Bool.admits(2));
    assert!(!Primitive::F32.admits(0) && !Primitive::F64.admits(0));
}

#[test]
fn the_place_of_the_one_tells_the_order() {
    assert_eq!(plod::order_of([1, 0]), ByteOrder::Little);
    assert_eq!(plod::order_of([0, 1]), ByteOrder::Big);
    assert_eq!(plod::order_of(1u16.to_le_bytes()), ByteOrder::Little);
    assert_eq!(plod::order_of(1u16.to_be_bytes()), ByteOrder::Big);
    assert_eq!(plod::order_of(1u16.to_ne_bytes()), host_order());
}

#[test]
fn host_order_is_that_of_the_machine() {
    let expected = if 1u16.to_ne_bytes()[0] == 1 { ByteOrder::Little } else { ByteOrder::Big };
    assert_eq!(host_order(), expected);
}

#[test]
fn plain_rust_integers_have_a_layout() {
    assert_eq!(u16::layout(), Type::Primitive(Primitive::U16));
    assert_eq!(bool::layout(), Type::Primitive(Primitive::Bool));
    assert_eq!(i128::layout(), Type::Primitive(Primitive::I128));
    assert_eq!(0x1234u16.to_value(), Value::Scalar(Scalar::U16(0x1234)));
    assert_eq!(u16::from_value(&Value::Scalar(Scalar::U16(7))), Some(7));
    assert_eq!(u16::from_value(&Value::Scalar(Scalar::I16(7))), None);
    assert_eq!(u16::from_value(&Value::List(vec![])), None);
    assert_eq!(7u64.size(), Some(8));
    assert_eq!(true.size(), Some(1));
    assert_eq!((-1i128).size(), Some(16));
}

#[test]
fn plain_rust_integers_are_written_in_the_order_of_the_machine() {
    let mut out = vec![0xaa];
    assert_eq!(0x1234u16.write_to(&mut out), Ok(()));
    assert_eq!((-2i32).write_to(&mut out), Ok(()));
    assert_eq!(true.write_to(&mut out), Ok(()));
    let mut expected = vec![0xaa];
    expected.extend_from_slice(&0x1234u16.to_ne_bytes());
    expected.extend_from_slice(&(-2i32).to_ne_bytes());
    expected.push(1);
    assert_eq!(out, expected);

    assert_eq!(u16::read_from(&0x1234u16.to_ne_bytes()), Ok((0x1234, 2)));
    assert_eq!(i64::read_from(&(-9i64).to_ne_bytes()), Ok((-9, 8)));
    assert_eq!(u128::read_from(&u128::MAX.to_ne_bytes()), Ok((u128::MAX, 16)));
    assert_eq!(i8::read_from(&[0xff, 1]), Ok((-1, 1)));
    assert_eq!(bool::read_from(&[0]), Ok((false, 1)));
    assert_eq!(u32::read_from(&[1, 2, 3]), Err(Error::IoFailure));
}

/// A type that names its layout by hand, as a derived impl does.
#[derive(Debug, PartialEq)]
struct Point {
    x: i16,
    y: i16,
    label: u8,
}

impl Plod for Point {
    // the two functions of the specification are never called
    fn spec_layout() -> plod::schema::SpecType {
        unreachable!()
    }

    fn spec_value(&self) -> plod::SpecValue {
        unreachable!()
    }

    fn layout() -> Type {
        Type::Tuple(vec![i16::layout(), i16::layout(), u8::layout()])
    }

    fn to_value(&self) -> Value {
        Value::List(vec![self.x.to_value(), self.y.to_value(), self.label.to_value()])
    }

    fn from_value(v: &Value) -> Option<Self> {
        match v {
            Value::List(parts) if parts.len() == 3 => Some(Point {
                x: i16::from_value(&parts[0])?,
                y: i16::from_value(&parts[1])?,
                label: u8::from_value(&parts[2])?,
            }),
            _ => None,
        }
    }
}

#[test]
fn a_type_with_a_layout_gets_the_three_operations() {
    let point = Point { x: -2, y: 300, label: 7 };
    assert_eq!(point.size(), Some(5));
    let mut out = Vec::new();
    assert_eq!(point.write_to(&mut out), Ok(()));
    let mut expected = Vec::new();
    expected.extend_from_slice(&(-2i16).to_ne_bytes());
    expected.extend_from_slice(&300i16.to_ne_bytes());
    expected.push(7);
    assert_eq!(out, expected);
    out.push(0xee);
    assert_eq!(Point::read_from(&out), Ok((point, 5)));
    assert_eq!(Point::read_from(&out[..4]), Err(Error::IoFailure));
}
