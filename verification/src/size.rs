//! The number of bytes a value occupies once encoded.
use crate::primitive::{Primitive, Scalar};
use crate::schema::{
    lemma_view_record, lemma_view_sum, lemma_view_tuple, lemma_view_variant_fields, type_views,
    Schema, SpecSchema, SpecType, TagMode, Type,
};
use crate::typing::{well_typed, well_typed_all, well_typed_schema};
use crate::value::{lemma_view_variant, views, SpecValue, Value};
use vstd::prelude::*;

verus! {

/// The bytes a magic constant takes: its width, or none where there is no constant.
pub open spec fn magic_width(magic: Option<Scalar>) -> nat {
    match magic {
        Some(m) => m.spec_kind().width(),
        None => 0,
    }
}

/// The bytes written in front of a variant's payload: the width of the
/// discriminant, or none where the first field of the payload is the discriminant.
pub open spec fn tag_width(mode: TagMode, tag_type: Primitive) -> nat {
    match mode {
        TagMode::Keep => 0,
        _ => tag_type.width(),
    }
}

/// The encoded size of the value `v` of type `t`.
#[verifier::opaque]
pub open spec fn size_of_type(t: SpecType, v: SpecValue) -> nat
    decreases t, 0nat,
{
    match t {
        SpecType::Primitive(kind) => kind.width(),
        SpecType::Composite(schema) => size_of_schema(*schema, v),
        SpecType::FixedArray(item, _) => size_of_each(*item, v.parts(), 0),
        SpecType::Tuple(items) => size_of_all(items, v.parts(), 0),
        SpecType::Sequence(item, prefix) => prefix.size_type.width() + size_of_each(
            *item,
            v.parts(),
            0,
        ),
        SpecType::Skipped(_) => 0,
        SpecType::ContextMarker => 0,
    }
}

/// The encoded size of the value `v` of the described type `s`: for a record
/// the magic constant and the fields, for a sum the discriminant and the
/// payload of the variant that `v` is.
#[verifier::opaque]
pub open spec fn size_of_schema(s: SpecSchema, v: SpecValue) -> nat
    decreases s, 0nat,
{
    match s {
        SpecSchema::Record { magic, fields, .. } => magic_width(magic) + size_of_all(
            fields,
            v.parts(),
            0,
        ),
        SpecSchema::Sum { tag_type, variants, .. } => match v {
            SpecValue::Variant(index, parts) => if index < variants.len() {
                tag_width(variants[index as int].mode, tag_type) + size_of_all(
                    variants[index as int].fields,
                    parts,
                    0,
                )
            } else {
                0
            },
            _ => 0,
        },
    }
}

/// The sizes of the values `vs[from..]`, each of its own type `ts[from..]`, added up.
#[verifier::opaque]
pub open spec fn size_of_all(ts: Seq<SpecType>, vs: Seq<SpecValue>, from: nat) -> nat
    decreases ts, ts.len() - from,
{
    if from >= ts.len() {
        0
    } else {
        size_of_type(ts[from as int], vs[from as int]) + size_of_all(ts, vs, from + 1)
    }
}

/// The sizes of the values `vs[from..]`, all of type `t`, added up.
#[verifier::opaque]
pub open spec fn size_of_each(t: SpecType, vs: Seq<SpecValue>, from: nat) -> nat
    decreases t, vs.len() - from + 1,
{
    if from >= vs.len() {
        0
    } else {
        size_of_type(t, vs[from as int]) + size_of_each(t, vs, from + 1)
    }
}

/// What [`size_of_type`] comes to, written out: its definition is not unfolded on its own.
pub proof fn lemma_def_size_of_type(t: SpecType, v: SpecValue)
    ensures
        size_of_type(t, v) == ({
            match t {
                SpecType::Primitive(kind) => kind.width(),
                SpecType::Composite(schema) => size_of_schema(*schema, v),
                SpecType::FixedArray(item, _) => size_of_each(*item, v.parts(), 0),
                SpecType::Tuple(items) => size_of_all(items, v.parts(), 0),
                SpecType::Sequence(item, prefix) => prefix.size_type.width() + size_of_each(
                    *item,
                    v.parts(),
                    0,
                ),
                SpecType::Skipped(_) => 0,
                SpecType::ContextMarker => 0,
            }
        }),
{
    reveal(size_of_type);
    reveal(size_of_schema);
    reveal(size_of_all);
    reveal(size_of_each);
}

/// What [`size_of_schema`] comes to, written out: its definition is not unfolded on its own.
pub proof fn lemma_def_size_of_schema(s: SpecSchema, v: SpecValue)
    ensures
        size_of_schema(s, v) == ({
            match s {
                SpecSchema::Record { magic, fields, .. } => magic_width(magic) + size_of_all(
                    fields,
                    v.parts(),
                    0,
                ),
                SpecSchema::Sum { tag_type, variants, .. } => match v {
                    SpecValue::Variant(index, parts) => if index < variants.len() {
                        tag_width(variants[index as int].mode, tag_type) + size_of_all(
                            variants[index as int].fields,
                            parts,
                            0,
                        )
                    } else {
                        0
                    },
                    _ => 0,
                },
            }
        }),
{
    reveal(size_of_type);
    reveal(size_of_schema);
    reveal(size_of_all);
    reveal(size_of_each);
}

/// What [`size_of_all`] comes to, written out: its definition is not unfolded on its own.
pub proof fn lemma_def_size_of_all(ts: Seq<SpecType>, vs: Seq<SpecValue>, from: nat)
    ensures
        size_of_all(ts, vs, from) == ({
            if from >= ts.len() {
                0
            } else {
                size_of_type(ts[from as int], vs[from as int]) + size_of_all(ts, vs, from + 1)
            }
        }),
{
    reveal(size_of_type);
    reveal(size_of_schema);
    reveal(size_of_all);
    reveal(size_of_each);
}

/// What [`size_of_each`] comes to, written out: its definition is not unfolded on its own.
pub proof fn lemma_def_size_of_each(t: SpecType, vs: Seq<SpecValue>, from: nat)
    ensures
        size_of_each(t, vs, from) == ({
            if from >= vs.len() {
                0
            } else {
                size_of_type(t, vs[from as int]) + size_of_each(t, vs, from + 1)
            }
        }),
{
    reveal(size_of_type);
    reveal(size_of_schema);
    reveal(size_of_all);
    reveal(size_of_each);
}

/// The number `n` as a machine size, where it is one.
pub open spec fn fitting(n: nat) -> Option<usize> {
    if n <= usize::MAX {
        Some(n as usize)
    } else {
        None
    }
}

/// The sum of two sizes, where it is a machine size.
fn checked_sum(a: Option<usize>, b: Option<usize>, Ghost(x): Ghost<nat>, Ghost(y): Ghost<nat>) -> (sum:
    Option<usize>)
    requires
        a == fitting(x),
        b == fitting(y),
    ensures
        sum == fitting(x + y),
{
    match (a, b) {
        (Some(a), Some(b)) => a.checked_add(b),
        _ => None,
    }
}

/// The encoded size of the value `v` of type `t`, where it is a machine size.
pub fn size_type(t: &Type, v: &Value) -> (n: Option<usize>)
    requires
        well_typed(t@, v@),
    ensures
        n == fitting(size_of_type(t@, v@)),
    decreases t@, 0nat,
{
    proof {
        lemma_def_size_of_type(t@, v@);
    }
    match t {
        Type::Primitive(kind) => Some(kind.size()),
        Type::Composite(schema) => size_schema(schema, v),
        Type::FixedArray(item, _) => size_each(item, v.parts()),
        Type::Tuple(items) => {
            proof {
                lemma_view_tuple(*items);
            }
            size_all(items, v.parts())
        },
        Type::Sequence(item, prefix) => {
            let items = size_each(item, v.parts());
            checked_sum(
                Some(prefix.size_type.size()),
                items,
                Ghost(prefix.size_type.width()),
                Ghost(size_of_each(item@, v@.parts(), 0)),
            )
        },
        Type::Skipped(_) => Some(0),
        Type::ContextMarker => Some(0),
    }
}

/// The encoded size of the value `v` of the described type `s`, where it is a machine size.
pub fn size_schema(s: &Schema, v: &Value) -> (n: Option<usize>)
    requires
        well_typed_schema(s@, v@),
    ensures
        n == fitting(size_of_schema(s@, v@)),
    decreases s@, 0nat,
{
    proof {
        lemma_def_size_of_schema(s@, v@);
    }
    match s {
        Schema::Record { endianness, magic, fields } => {
            proof {
                lemma_view_record(*endianness, *magic, *fields);
            }
            let head: usize = match magic {
                Some(m) => m.kind().size(),
                None => 0,
            };
            let body = size_all(fields, v.parts());
            checked_sum(
                Some(head),
                body,
                Ghost(magic_width(*magic)),
                Ghost(size_of_all(type_views(fields@), v@.parts(), 0)),
            )
        },
        Schema::Sum { endianness, tag_type, variants } => {
            proof {
                lemma_view_sum(*endianness, *tag_type, *variants);
            }
            match v {
                Value::Variant(index, parts) => {
                    proof {
                        lemma_view_variant(*index, *parts);
                        lemma_view_variant_fields(variants@[*index as int]);
                    }
                    let variant = &variants[*index];
                    let head: usize = match variant.mode {
                        TagMode::Keep => 0,
                        _ => tag_type.size(),
                    };
                    let body = size_all(&variant.fields, parts);
                    checked_sum(
                        Some(head),
                        body,
                        Ghost(tag_width(variant.mode, *tag_type)),
                        Ghost(size_of_all(variant@.fields, views(parts@), 0)),
                    )
                },
                _ => Some(0),
            }
        },
    }
}

/// The sizes of the values, each of its own type, added up.
pub fn size_all(types: &Vec<Type>, values: &Vec<Value>) -> (n: Option<usize>)
    requires
        well_typed_all(type_views(types@), views(values@)),
    ensures
        n == fitting(size_of_all(type_views(types@), views(values@), 0)),
    decreases type_views(types@), 0nat,
{
    let ghost ts = type_views(types@);
    let ghost vs = views(values@);
    let mut total: Option<usize> = Some(0);
    let ghost mut sum: nat = 0;
    let mut i: usize = 0;
    while i < types.len()
        invariant
            i <= types@.len(),
            ts == type_views(types@),
            vs == views(values@),
            well_typed_all(ts, vs),
            total == fitting(sum),
            sum + size_of_all(ts, vs, i as nat) == size_of_all(ts, vs, 0),
        decreases types@.len() - i,
    {
        proof {
            lemma_def_size_of_all(ts, vs, i as nat);
        }
        let one = size_type(&types[i], &values[i]);
        total = checked_sum(total, one, Ghost(sum), Ghost(size_of_type(ts[i as int], vs[i as int])));
        proof {
            sum = sum + size_of_type(ts[i as int], vs[i as int]);
        }
        i = i + 1;
    }
    proof {
        lemma_def_size_of_all(ts, vs, i as nat);
    }
    total
}

/// The sizes of the values, all of type `t`, added up.
pub fn size_each(t: &Type, values: &Vec<Value>) -> (n: Option<usize>)
    requires
        forall|i: int| 0 <= i < values@.len() ==> well_typed(t@, #[trigger] views(values@)[i]),
    ensures
        n == fitting(size_of_each(t@, views(values@), 0)),
    decreases t@, 1nat,
{
    let ghost vs = views(values@);
    let mut total: Option<usize> = Some(0);
    let ghost mut sum: nat = 0;
    let mut i: usize = 0;
    while i < values.len()
        invariant
            i <= values@.len(),
            vs == views(values@),
            forall|i: int| 0 <= i < values@.len() ==> well_typed(t@, #[trigger] vs[i]),
            total == fitting(sum),
            sum + size_of_each(t@, vs, i as nat) == size_of_each(t@, vs, 0),
        decreases values@.len() - i,
    {
        proof {
            lemma_def_size_of_each(t@, vs, i as nat);
        }
        let one = size_type(t, &values[i]);
        total = checked_sum(total, one, Ghost(sum), Ghost(size_of_type(t@, vs[i as int])));
        proof {
            sum = sum + size_of_type(t@, vs[i as int]);
        }
        i = i + 1;
    }
    proof {
        lemma_def_size_of_each(t@, vs, i as nat);
    }
    total
}

} // verus!
