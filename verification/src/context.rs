//! What becomes of the context while a value is written: it is handed on
//! as it is, except by a context marker.
use crate::encode::{
    context_after_all, context_after_each, context_after_schema, context_after_type,
    lemma_def_context_after_all, lemma_def_context_after_each, lemma_def_context_after_schema,
    lemma_def_context_after_type,
};
use crate::schema::{SpecSchema, SpecType, SpecVariant};
use crate::value::SpecValue;
use vstd::prelude::*;

verus! {

/// Whether the type holds no context marker.
pub open spec fn marker_free_type(t: SpecType) -> bool
    decreases t,
{
    match t {
        SpecType::Composite(schema) => marker_free_schema(*schema),
        SpecType::FixedArray(item, _) => marker_free_type(*item),
        SpecType::Tuple(items) => marker_free_all(items),
        SpecType::Sequence(item, _) => marker_free_type(*item),
        SpecType::ContextMarker => false,
        _ => true,
    }
}

/// Whether none of the types holds a context marker.
pub open spec fn marker_free_all(ts: Seq<SpecType>) -> bool
    decreases ts,
{
    forall|i: int| 0 <= i < ts.len() ==> marker_free_type(#[trigger] ts[i])
}

/// Whether the variant holds no context marker.
pub open spec fn marker_free_variant(variant: SpecVariant) -> bool
    decreases variant,
{
    marker_free_all(variant.fields)
}

/// Whether the schema holds no context marker.
pub open spec fn marker_free_schema(s: SpecSchema) -> bool
    decreases s,
{
    match s {
        SpecSchema::Record { fields, .. } => marker_free_all(fields),
        SpecSchema::Sum { variants, .. } => forall|i: int|
            0 <= i < variants.len() ==> marker_free_variant(#[trigger] variants[i]),
    }
}

/// Writing a value of a type without context markers leaves the context as it was.
pub proof fn lemma_context_kept_type(t: SpecType, v: SpecValue, ctx: SpecValue)
    requires
        marker_free_type(t),
    ensures
        context_after_type(t, v, ctx) == ctx,
    decreases t, 0nat,
{
    lemma_def_context_after_type(t, v, ctx);
    match t {
        SpecType::Composite(schema) => {
            lemma_context_kept_schema(*schema, v, ctx);
        },
        SpecType::FixedArray(item, _) => {
            lemma_context_kept_each(*item, v.parts(), 0, ctx);
        },
        SpecType::Tuple(items) => {
            lemma_context_kept_all(items, v.parts(), 0, ctx);
        },
        SpecType::Sequence(item, _) => {
            lemma_context_kept_each(*item, v.parts(), 0, ctx);
        },
        _ => {},
    }
}

/// Writing a value of a schema without context markers leaves the context as it was.
pub proof fn lemma_context_kept_schema(s: SpecSchema, v: SpecValue, ctx: SpecValue)
    requires
        marker_free_schema(s),
    ensures
        context_after_schema(s, v, ctx) == ctx,
    decreases s, 0nat,
{
    lemma_def_context_after_schema(s, v, ctx);
    match s {
        SpecSchema::Record { fields, .. } => {
            lemma_context_kept_all(fields, v.parts(), 0, ctx);
        },
        SpecSchema::Sum { variants, .. } => {
            if let SpecValue::Variant(index, parts) = v {
                if index < variants.len() {
                    assert(marker_free_variant(variants[index as int]));
                    lemma_context_kept_all(variants[index as int].fields, parts, 0, ctx);
                }
            }
        },
    }
}

/// Writing values of types without context markers leaves the context as it was.
pub proof fn lemma_context_kept_all(ts: Seq<SpecType>, vs: Seq<SpecValue>, from: nat, ctx: SpecValue)
    requires
        marker_free_all(ts),
    ensures
        context_after_all(ts, vs, from, ctx) == ctx,
    decreases ts, ts.len() - from,
{
    lemma_def_context_after_all(ts, vs, from, ctx);
    if from < ts.len() {
        lemma_context_kept_type(ts[from as int], vs[from as int], ctx);
        lemma_context_kept_all(ts, vs, from + 1, ctx);
    }
}

/// Writing values of one type without context markers leaves the context as it was.
pub proof fn lemma_context_kept_each(t: SpecType, vs: Seq<SpecValue>, from: nat, ctx: SpecValue)
    requires
        marker_free_type(t),
    ensures
        context_after_each(t, vs, from, ctx) == ctx,
    decreases t, vs.len() - from + 1,
{
    lemma_def_context_after_each(t, vs, from, ctx);
    if from < vs.len() {
        lemma_context_kept_type(t, vs[from as int], ctx);
        lemma_context_kept_each(t, vs, from + 1, ctx);
    }
}

} // verus!
