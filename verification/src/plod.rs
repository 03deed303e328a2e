//! Rust types with a described layout.
use crate::decode::{decode_type, decoding_of_type};
use crate::encode::{encodable_type, encode_type, encoding_of_type};
use crate::endian::{host_order, ByteOrder};
use crate::error::Error;
use crate::laws::lemma_decoded_type;
use crate::primitive::{Primitive, Scalar};
use crate::schema::{SpecType, Type};
use crate::size::{fitting, size_of_type, size_type};
use crate::typing::{valid_type, well_typed};
use crate::value::{views, SpecValue, Value};
use vstd::prelude::*;

verus! {

/// The context of the calls that name none: an empty list.
pub open spec fn no_context() -> SpecValue {
    SpecValue::List(Seq::empty())
}

/// A type whose values are plain old data: it names its layout, and its
/// values go to and from the shape the codec handles.  The three operations
/// follow from that.
///
/// What is proved of the three operations rests on what an impl promises of
/// `layout`, `to_value` and `from_value`.  The impls in this crate are proved
/// to keep those promises; an impl elsewhere is taken at its word.
pub trait Plod: Sized {
    /// The layout of the type.
    spec fn spec_layout() -> SpecType;

    /// The content of a value of the type.
    spec fn spec_value(&self) -> SpecValue;

    /// The layout of the type.
    fn layout() -> (t: Type)
        ensures
            t@ == Self::spec_layout(),
            valid_type(t@),
    ;

    /// The value in the shape the codec handles.
    fn to_value(&self) -> (v: Value)
        ensures
            v@ == self.spec_value(),
            well_typed(Self::spec_layout(), v@),
    ;

    /// The value that has the given shape, where the shape is one of the type.
    fn from_value(v: &Value) -> (r: Option<Self>)
        ensures
            well_typed(Self::spec_layout(), v@) ==> r is Some,
            r matches Some(x) ==> x.spec_value() == v@,
    ;

    /// Size once serialized, including the tag if any, where it is a machine size.
    fn size(&self) -> (n: Option<usize>)
        ensures
            n == fitting(size_of_type(Self::spec_layout(), self.spec_value())),
    {
        let t = Self::layout();
        let v = self.to_value();
        size_type(&t, &v)
    }

    /// Reads a value of the type from the start of `from`, and says how many bytes it took.
    fn read_from(from: &[u8]) -> (r: Result<(Self, usize), Error>)
        ensures
            exists|host: ByteOrder|
                #![trigger decoding_of_type(Self::spec_layout(), from@, host, host, no_context())]
                match decoding_of_type(Self::spec_layout(), from@, host, host, no_context()) {
                    Ok((v, n)) => r matches Ok((found, end)) && found.spec_value() == v && end == n,
                    Err(e) => r matches Err(failure) && failure == e,
                },
    {
        let t = Self::layout();
        let host = host_order();
        let ctx = Value::List(Vec::new());
        proof {
            assert(from@.skip(0) =~= from@);
            assert(ctx@ == no_context()) by {
                crate::value::lemma_view_list(ctx->List_0);
                assert(views(ctx->List_0@) =~= Seq::<SpecValue>::empty());
            }
        }
        match decode_type(&t, from, 0, host, host, &ctx) {
            Err(e) => Err(e),
            Ok((v, end)) => {
                proof {
                    lemma_decoded_type(t@, from@, host, host, ctx@);
                }
                match Self::from_value(&v) {
                    Some(x) => Ok((x, end)),
                    None => vstd::pervasive::unreached(),
                }
            },
        }
    }

    /// Appends the bytes of the value to `to`.
    fn write_to(&self, to: &mut Vec<u8>) -> (r: Result<(), Error>)
        ensures
            exists|host: ByteOrder|
                if encodable_type(Self::spec_layout(), self.spec_value()) {
                    r is Ok && final(to)@ == old(to)@ + #[trigger] encoding_of_type(
                        Self::spec_layout(),
                        self.spec_value(),
                        host,
                        host,
                    )
                } else {
                    r == Err::<(), Error>(Error::UnencodableVariant)
                },
    {
        let t = Self::layout();
        let v = self.to_value();
        let host = host_order();
        let mut ctx = Value::List(Vec::new());
        let r = encode_type(&t, &v, host, host, to, &mut ctx);
        proof {
            let bytes = encoding_of_type(Self::spec_layout(), self.spec_value(), host, host);
            assert(bytes == encoding_of_type(Self::spec_layout(), self.spec_value(), host, host));
        }
        r
    }
}

impl Plod for bool {
    open spec fn spec_layout() -> SpecType {
        SpecType::Primitive(Primitive::Bool)
    }

    open spec fn spec_value(&self) -> SpecValue {
        SpecValue::Scalar(Scalar::Bool(*self))
    }

    fn layout() -> (t: Type) {
        Type::Primitive(Primitive::Bool)
    }

    fn to_value(&self) -> (v: Value) {
        Value::Scalar(Scalar::Bool(*self))
    }

    fn from_value(v: &Value) -> (r: Option<Self>) {
        match v {
            Value::Scalar(Scalar::Bool(x)) => Some(*x),
            _ => None,
        }
    }
}

impl Plod for u8 {
    open spec fn spec_layout() -> SpecType {
        SpecType::Primitive(Primitive::U8)
    }

    open spec fn spec_value(&self) -> SpecValue {
        SpecValue::Scalar(Scalar::U8(*self))
    }

    fn layout() -> (t: Type) {
        Type::Primitive(Primitive::U8)
    }

    fn to_value(&self) -> (v: Value) {
        Value::Scalar(Scalar::U8(*self))
    }

    fn from_value(v: &Value) -> (r: Option<Self>) {
        match v {
            Value::Scalar(Scalar::U8(x)) => Some(*x),
            _ => None,
        }
    }
}

impl Plod for u16 {
    open spec fn spec_layout() -> SpecType {
        SpecType::Primitive(Primitive::U16)
    }

    open spec fn spec_value(&self) -> SpecValue {
        SpecValue::Scalar(Scalar::U16(*self))
    }

    fn layout() -> (t: Type) {
        Type::Primitive(Primitive::U16)
    }

    fn to_value(&self) -> (v: Value) {
        Value::Scalar(Scalar::U16(*self))
    }

    fn from_value(v: &Value) -> (r: Option<Self>) {
        match v {
            Value::Scalar(Scalar::U16(x)) => Some(*x),
            _ => None,
        }
    }
}

impl Plod for u32 {
    open spec fn spec_layout() -> SpecType {
        SpecType::Primitive(Primitive::U32)
    }

    open spec fn spec_value(&self) -> SpecValue {
        SpecValue::Scalar(Scalar::U32(*self))
    }

    fn layout() -> (t: Type) {
        Type::Primitive(Primitive::U32)
    }

    fn to_value(&self) -> (v: Value) {
        Value::Scalar(Scalar::U32(*self))
    }

    fn from_value(v: &Value) -> (r: Option<Self>) {
        match v {
            Value::Scalar(Scalar::U32(x)) => Some(*x),
            _ => None,
        }
    }
}

impl Plod for u64 {
    open spec fn spec_layout() -> SpecType {
        SpecType::Primitive(Primitive::U64)
    }

    open spec fn spec_value(&self) -> SpecValue {
        SpecValue::Scalar(Scalar::U64(*self))
    }

    fn layout() -> (t: Type) {
        Type::Primitive(Primitive::U64)
    }

    fn to_value(&self) -> (v: Value) {
        Value::Scalar(Scalar::U64(*self))
    }

    fn from_value(v: &Value) -> (r: Option<Self>) {
        match v {
            Value::Scalar(Scalar::U64(x)) => Some(*x),
            _ => None,
        }
    }
}

impl Plod for u128 {
    open spec fn spec_layout() -> SpecType {
        SpecType::Primitive(Primitive::U128)
    }

    open spec fn spec_value(&self) -> SpecValue {
        SpecValue::Scalar(Scalar::U128(*self))
    }

    fn layout() -> (t: Type) {
        Type::Primitive(Primitive::U128)
    }

    fn to_value(&self) -> (v: Value) {
        Value::Scalar(Scalar::U128(*self))
    }

    fn from_value(v: &Value) -> (r: Option<Self>) {
        match v {
            Value::Scalar(Scalar::U128(x)) => Some(*x),
            _ => None,
        }
    }
}

impl Plod for i8 {
    open spec fn spec_layout() -> SpecType {
        SpecType::Primitive(Primitive::I8)
    }

    open spec fn spec_value(&self) -> SpecValue {
        SpecValue::Scalar(Scalar::I8(*self))
    }

    fn layout() -> (t: Type) {
        Type::Primitive(Primitive::I8)
    }

    fn to_value(&self) -> (v: Value) {
        Value::Scalar(Scalar::I8(*self))
    }

    fn from_value(v: &Value) -> (r: Option<Self>) {
        match v {
            Value::Scalar(Scalar::I8(x)) => Some(*x),
            _ => None,
        }
    }
}

impl Plod for i16 {
    open spec fn spec_layout() -> SpecType {
        SpecType::Primitive(Primitive::I16)
    }

    open spec fn spec_value(&self) -> SpecValue {
        SpecValue::Scalar(Scalar::I16(*self))
    }

    fn layout() -> (t: Type) {
        Type::Primitive(Primitive::I16)
    }

    fn to_value(&self) -> (v: Value) {
        Value::Scalar(Scalar::I16(*self))
    }

    fn from_value(v: &Value) -> (r: Option<Self>) {
        match v {
            Value::Scalar(Scalar::I16(x)) => Some(*x),
            _ => None,
        }
    }
}

impl Plod for i32 {
    open spec fn spec_layout() -> SpecType {
        SpecType::Primitive(Primitive::I32)
    }

    open spec fn spec_value(&self) -> SpecValue {
        SpecValue::Scalar(Scalar::I32(*self))
    }

    fn layout() -> (t: Type) {
        Type::Primitive(Primitive::I32)
    }

    fn to_value(&self) -> (v: Value) {
        Value::Scalar(Scalar::I32(*self))
    }

    fn from_value(v: &Value) -> (r: Option<Self>) {
        match v {
            Value::Scalar(Scalar::I32(x)) => Some(*x),
            _ => None,
        }
    }
}

impl Plod for i64 {
    open spec fn spec_layout() -> SpecType {
        SpecType::Primitive(Primitive::I64)
    }

    open spec fn spec_value(&self) -> SpecValue {
        SpecValue::Scalar(Scalar::I64(*self))
    }

    fn layout() -> (t: Type) {
        Type::Primitive(Primitive::I64)
    }

    fn to_value(&self) -> (v: Value) {
        Value::Scalar(Scalar::I64(*self))
    }

    fn from_value(v: &Value) -> (r: Option<Self>) {
        match v {
            Value::Scalar(Scalar::I64(x)) => Some(*x),
            _ => None,
        }
    }
}

impl Plod for i128 {
    open spec fn spec_layout() -> SpecType {
        SpecType::Primitive(Primitive::I128)
    }

    open spec fn spec_value(&self) -> SpecValue {
        SpecValue::Scalar(Scalar::I128(*self))
    }

    fn layout() -> (t: Type) {
        Type::Primitive(Primitive::I128)
    }

    fn to_value(&self) -> (v: Value) {
        Value::Scalar(Scalar::I128(*self))
    }

    fn from_value(v: &Value) -> (r: Option<Self>) {
        match v {
            Value::Scalar(Scalar::I128(x)) => Some(*x),
            _ => None,
        }
    }
}

} // verus!
