//! Which schemas are valid, and which values belong to a type.
use crate::decode::select_variant;
use crate::encode::sequence_length;
use crate::primitive::{Primitive, Scalar};
use crate::schema::{
    lemma_view_record, lemma_view_sum, lemma_view_tuple, lemma_view_variant_fields, type_views,
    Schema, SpecSchema, SpecType, SpecVariant, TagMode, Type,
};
use crate::size::size_of_type;
use crate::value::{lemma_view_list, lemma_view_variant, views, SpecValue, Value};
use vstd::prelude::*;

verus! {

/// Whether the variant is the default of its sum type: it travels and has no match rule.
pub open spec fn is_default(variant: SpecVariant) -> bool {
    !(variant.mode is Excluded) && variant.matches.len() == 0
}

/// Whether at most one variant is a default and no variant that travels is declared after it.
#[verifier::opaque]
pub open spec fn default_is_last(variants: Seq<SpecVariant>) -> bool {
    forall|i: int, j: int|
        0 <= i < j < variants.len() && is_default(#[trigger] variants[i]) ==> (
        #[trigger] variants[j]).mode is Excluded
}

/// Whether a type is valid: every sequence in it is prefixed by an integer
/// and every described type in it is valid.
pub open spec fn valid_type(t: SpecType) -> bool
    decreases t,
{
    match t {
        SpecType::Composite(schema) => valid_schema(*schema),
        SpecType::FixedArray(item, _) => valid_type(*item),
        SpecType::Tuple(items) => forall|i: int|
            0 <= i < items.len() ==> valid_type(#[trigger] items[i]),
        SpecType::Sequence(item, prefix) => prefix.size_type.spec_is_integral() && valid_type(
            *item,
        ),
        _ => true,
    }
}

/// Whether a variant is valid in a sum type whose discriminant has type
/// `tag_type`: a discriminant it writes is a value of that type, a
/// discriminant it keeps is held by a first field of that type, and its fields are valid.
pub open spec fn valid_variant(variant: SpecVariant, tag_type: Primitive) -> bool
    decreases variant,
{
    &&& variant.mode matches TagMode::Emit(tag) ==> tag_type.holds(tag as int)
    &&& variant.mode is Keep ==> variant.fields.len() > 0 && variant.fields[0]
        == SpecType::Primitive(tag_type)
    &&& forall|i: int| 0 <= i < variant.fields.len() ==> valid_type(#[trigger] variant.fields[i])
}

/// Whether a schema is valid: all of its fields are valid; in a sum type the
/// discriminant is an integer, every variant is valid, and a default variant comes last.
pub open spec fn valid_schema(s: SpecSchema) -> bool
    decreases s,
{
    match s {
        SpecSchema::Record { fields, .. } => forall|i: int|
            0 <= i < fields.len() ==> valid_type(#[trigger] fields[i]),
        SpecSchema::Sum { tag_type, variants, .. } => {
            &&& tag_type.spec_is_integral()
            &&& default_is_last(variants)
            &&& forall|i: int|
                0 <= i < variants.len() ==> valid_variant(#[trigger] variants[i], tag_type)
        },
    }
}

/// Whether `v` has the shape of a value of type `t`.  A field that never
/// travels may hold anything.
pub open spec fn well_typed(t: SpecType, v: SpecValue) -> bool
    decreases t,
{
    match t {
        SpecType::Primitive(kind) => v matches SpecValue::Scalar(s) && s.spec_kind() == kind,
        SpecType::Composite(schema) => well_typed_schema(*schema, v),
        SpecType::FixedArray(item, count) => {
            &&& v is List
            &&& v.parts().len() == count
            &&& forall|i: int| 0 <= i < v.parts().len() ==> well_typed(*item, #[trigger] v.parts()[i])
        },
        SpecType::Tuple(items) => {
            &&& v is List
            &&& well_typed_all(items, v.parts())
        },
        SpecType::Sequence(item, _) => {
            &&& v is List
            &&& forall|i: int| 0 <= i < v.parts().len() ==> well_typed(*item, #[trigger] v.parts()[i])
        },
        SpecType::Skipped(_) => true,
        SpecType::ContextMarker => true,
    }
}

/// Whether the values `vs` are as many as the types `ts` and each has the shape of its type.
pub open spec fn well_typed_all(ts: Seq<SpecType>, vs: Seq<SpecValue>) -> bool
    decreases ts,
{
    &&& vs.len() == ts.len()
    &&& forall|i: int| 0 <= i < ts.len() ==> well_typed(#[trigger] ts[i], vs[i])
}

/// Whether `v` has the shape of a value of the described type `s`.
pub open spec fn well_typed_schema(s: SpecSchema, v: SpecValue) -> bool
    decreases s,
{
    match s {
        SpecSchema::Record { fields, .. } => v is List && well_typed_all(fields, v.parts()),
        SpecSchema::Sum { variants, .. } => {
            &&& v matches SpecValue::Variant(index, parts)
            &&& index < variants.len()
            &&& well_typed_all(variants[index as int].fields, parts)
        },
    }
}

/// Whether the value `v` of type `t` is one that decoding can give back when
/// the context is `ctx`: it has the shape of the type; the length of every
/// sequence in it is a value of the prefix's type, and no item counted in
/// bytes is empty; every variant in it can be written and is the one that its own
/// discriminant selects; every field that never travels holds what decoding gives it.
pub open spec fn representable(t: SpecType, v: SpecValue, ctx: SpecValue) -> bool
    decreases t,
{
    match t {
        SpecType::Primitive(kind) => v matches SpecValue::Scalar(s) && s.spec_kind() == kind,
        SpecType::Composite(schema) => representable_schema(*schema, v, ctx),
        SpecType::FixedArray(item, count) => {
            &&& v is List
            &&& v.parts().len() == count
            &&& forall|i: int|
                0 <= i < v.parts().len() ==> representable(*item, #[trigger] v.parts()[i], ctx)
        },
        SpecType::Tuple(items) => {
            &&& v is List
            &&& representable_all(items, v.parts(), ctx)
        },
        SpecType::Sequence(item, prefix) => {
            &&& v is List
            &&& forall|i: int|
                0 <= i < v.parts().len() ==> representable(*item, #[trigger] v.parts()[i], ctx)
            &&& prefix.size_type.holds(sequence_length(*item, prefix, v.parts()) as int)
            &&& prefix.byte_sized ==> forall|i: int|
                0 <= i < v.parts().len() ==> size_of_type(*item, #[trigger] v.parts()[i]) > 0
        },
        SpecType::Skipped(default) => v == default,
        SpecType::ContextMarker => v == ctx,
    }
}

/// Whether the values `vs` are as many as the types `ts` and each is
/// representable in its type.
pub open spec fn representable_all(ts: Seq<SpecType>, vs: Seq<SpecValue>, ctx: SpecValue) -> bool
    decreases ts,
{
    &&& vs.len() == ts.len()
    &&& forall|i: int| 0 <= i < ts.len() ==> representable(#[trigger] ts[i], vs[i], ctx)
}

/// The discriminant that stands on the wire for a variant with the given payload.
pub open spec fn wire_tag(variant: SpecVariant, parts: Seq<SpecValue>) -> Option<int> {
    match variant.mode {
        TagMode::Emit(tag) => Some(tag as int),
        TagMode::Keep => if parts.len() > 0 {
            match parts[0] {
                SpecValue::Scalar(tag) => Some(tag.as_int()),
                _ => None,
            }
        } else {
            None
        },
        TagMode::Excluded => None,
        TagMode::ReadOnly => None,
    }
}

/// Whether the value `v` of the described type `s` is one that decoding can
/// give back when the context is `ctx`.
pub open spec fn representable_schema(s: SpecSchema, v: SpecValue, ctx: SpecValue) -> bool
    decreases s,
{
    match s {
        SpecSchema::Record { fields, .. } => v is List && representable_all(
            fields,
            v.parts(),
            ctx,
        ),
        SpecSchema::Sum { variants, .. } => {
            &&& v matches SpecValue::Variant(index, parts)
            &&& index < variants.len()
            &&& representable_all(variants[index as int].fields, parts, ctx)
            &&& wire_tag(variants[index as int], parts) matches Some(tag)
            &&& select_variant(variants, tag, 0) == Some(index)
        },
    }
}

impl Type {
    /// Whether `v` has the shape of a value of this type.
    pub fn admits(&self, v: &Value) -> (b: bool)
        ensures
            b == well_typed(self@, v@),
        decreases self@, 0nat,
    {
        match self {
            Type::Primitive(kind) => match v {
                Value::Scalar(s) => {
                    let found = s.kind();
                    found == *kind
                },
                _ => false,
            },
            Type::Composite(schema) => {
                assert(*self@->Composite_0 == schema@);
                schema.admits(v)
            },
            Type::FixedArray(item, count) => match v {
                Value::List(parts) => {
                    proof {
                        lemma_view_list(*parts);
                        assert(*self@->FixedArray_0 == item@);
                    }
                    parts.len() == *count && admits_each(item, parts)
                },
                _ => false,
            },
            Type::Tuple(items) => match v {
                Value::List(parts) => {
                    proof {
                        lemma_view_list(*parts);
                        lemma_view_tuple(*items);
                        assert(self@->Tuple_0 == type_views(items@));
                    }
                    admits_all(items, parts)
                },
                _ => false,
            },
            Type::Sequence(item, prefix) => match v {
                Value::List(parts) => {
                    proof {
                        lemma_view_list(*parts);
                        assert(*self@->Sequence_0 == item@);
                        assert(v@.parts() == views(parts@));
                    }
                    admits_each(item, parts)
                },
                _ => false,
            },
            Type::Skipped(_) => true,
            Type::ContextMarker => true,
        }
    }
}

impl Schema {
    /// Whether `v` has the shape of a value of the described type.
    pub fn admits(&self, v: &Value) -> (b: bool)
        ensures
            b == well_typed_schema(self@, v@),
        decreases self@, 0nat,
    {
        match self {
            Schema::Record { endianness, magic, fields } => {
                proof {
                    lemma_view_record(*endianness, *magic, *fields);
                    assert(self@->Record_fields == type_views(fields@));
                }
                match v {
                    Value::List(parts) => {
                        proof {
                            lemma_view_list(*parts);
                        }
                        admits_all(fields, parts)
                    },
                    _ => false,
                }
            },
            Schema::Sum { endianness, tag_type, variants } => {
                proof {
                    lemma_view_sum(*endianness, *tag_type, *variants);
                }
                match v {
                    Value::Variant(index, parts) => {
                        proof {
                            lemma_view_variant(*index, *parts);
                        }
                        if *index < variants.len() {
                            proof {
                                lemma_view_variant_fields(variants@[*index as int]);
                                assert(self@->Sum_variants[*index as int].fields == type_views(
                                    variants@[*index as int].fields@,
                                ));
                            }
                            admits_all(&variants[*index].fields, parts)
                        } else {
                            false
                        }
                    },
                    _ => false,
                }
            },
        }
    }
}

/// Whether the values are as many as the types and each has the shape of its type.
pub fn admits_all(types: &Vec<Type>, values: &Vec<Value>) -> (b: bool)
    ensures
        b == well_typed_all(type_views(types@), views(values@)),
    decreases type_views(types@), 0nat,
{
    if values.len() != types.len() {
        return false;
    }
    let ghost ts = type_views(types@);
    let ghost vs = views(values@);
    let mut i: usize = 0;
    while i < types.len()
        invariant
            i <= types@.len(),
            ts == type_views(types@),
            vs == views(values@),
            vs.len() == ts.len(),
            forall|k: int| 0 <= k < i ==> well_typed(#[trigger] ts[k], vs[k]),
        decreases types@.len() - i,
    {
        assert(ts[i as int] == types@[i as int]@);
        if !types[i].admits(&values[i]) {
            assert(!well_typed(ts[i as int], vs[i as int]));
            return false;
        }
        i = i + 1;
    }
    true
}

/// Whether each of the values has the shape of a value of type `t`.
pub fn admits_each(t: &Type, values: &Vec<Value>) -> (b: bool)
    ensures
        b == forall|i: int| 0 <= i < values@.len() ==> well_typed(t@, #[trigger] views(values@)[i]),
    decreases t@, 1nat,
{
    let ghost vs = views(values@);
    let mut i: usize = 0;
    while i < values.len()
        invariant
            i <= values@.len(),
            vs == views(values@),
            forall|k: int| 0 <= k < i ==> well_typed(t@, #[trigger] vs[k]),
        decreases values@.len() - i,
    {
        if !t.admits(&values[i]) {
            assert(!well_typed(t@, vs[i as int]));
            return false;
        }
        i = i + 1;
    }
    true
}

} // verus!
