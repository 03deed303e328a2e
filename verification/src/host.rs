//! What the byte order of the machine has to say: nothing, unless a type
//! asks for the native order.
use crate::decode::{
    decoding_of_all, decoding_of_budget, decoding_of_count, decoding_of_payload, decoding_of_schema,
    decoding_of_type, lemma_def_decoding_of_all, lemma_def_decoding_of_budget,
    lemma_def_decoding_of_count, lemma_def_decoding_of_payload, lemma_def_decoding_of_schema,
    lemma_def_decoding_of_type,
};
use crate::encode::{
    encoding_of_all, encoding_of_each, encoding_of_schema, encoding_of_type,
    lemma_def_encoding_of_all, lemma_def_encoding_of_each, lemma_def_encoding_of_schema,
    lemma_def_encoding_of_type,
};
use crate::endian::{spec_effective_order, ByteOrder, Endianness};
use crate::primitive::Scalar;
use crate::schema::{SpecSchema, SpecType, SpecVariant};
use crate::value::SpecValue;
use vstd::prelude::*;

verus! {

/// Whether a byte order is declared and is not the native one.
pub open spec fn is_fixed(endianness: Option<Endianness>) -> bool {
    endianness != Some(Endianness::Native)
}

/// Whether no described type inside the type asks for the native byte order.
pub open spec fn native_free_type(t: SpecType) -> bool
    decreases t,
{
    match t {
        SpecType::Composite(schema) => native_free_schema(*schema),
        SpecType::FixedArray(item, _) => native_free_type(*item),
        SpecType::Tuple(items) => native_free_all(items),
        SpecType::Sequence(item, _) => native_free_type(*item),
        _ => true,
    }
}

/// Whether none of the types asks for the native byte order.
pub open spec fn native_free_all(ts: Seq<SpecType>) -> bool
    decreases ts,
{
    forall|i: int| 0 <= i < ts.len() ==> native_free_type(#[trigger] ts[i])
}

/// Whether a variant holds no type that asks for the native byte order.
pub open spec fn native_free_variant(variant: SpecVariant) -> bool
    decreases variant,
{
    native_free_all(variant.fields)
}

/// Whether neither the schema nor a described type inside it asks for the native byte order.
pub open spec fn native_free_schema(s: SpecSchema) -> bool
    decreases s,
{
    match s {
        SpecSchema::Record { endianness, fields, .. } => is_fixed(endianness) && native_free_all(
            fields,
        ),
        SpecSchema::Sum { endianness, variants, .. } => is_fixed(endianness) && forall|i: int|
            0 <= i < variants.len() ==> native_free_variant(#[trigger] variants[i]),
    }
}

/// The encoding of a type that never asks for the native order is the same on every machine.
pub proof fn lemma_encoding_host_free_type(
    t: SpecType,
    v: SpecValue,
    order: ByteOrder,
    a: ByteOrder,
    b: ByteOrder,
)
    requires
        native_free_type(t),
    ensures
        encoding_of_type(t, v, order, a) == encoding_of_type(t, v, order, b),
    decreases t, 0nat,
{
    lemma_def_encoding_of_type(t, v, order, a);
    lemma_def_encoding_of_type(t, v, order, b);
    match t {
        SpecType::Composite(schema) => {
            lemma_encoding_host_free_schema(*schema, v, order, a, b);
        },
        SpecType::FixedArray(item, _) => {
            lemma_encoding_host_free_each(*item, v.parts(), 0, order, a, b);
        },
        SpecType::Tuple(items) => {
            lemma_encoding_host_free_all(items, v.parts(), 0, order, a, b);
        },
        SpecType::Sequence(item, _) => {
            lemma_encoding_host_free_each(*item, v.parts(), 0, order, a, b);
        },
        _ => {},
    }
}

/// The encoding of a schema that never asks for the native order is the same on every machine.
pub proof fn lemma_encoding_host_free_schema(
    s: SpecSchema,
    v: SpecValue,
    order: ByteOrder,
    a: ByteOrder,
    b: ByteOrder,
)
    requires
        native_free_schema(s),
    ensures
        encoding_of_schema(s, v, order, a) == encoding_of_schema(s, v, order, b),
    decreases s, 0nat,
{
    lemma_def_encoding_of_schema(s, v, order, a);
    lemma_def_encoding_of_schema(s, v, order, b);
    match s {
        SpecSchema::Record { endianness, fields, .. } => {
            let inner = spec_effective_order(endianness, order, a);
            lemma_encoding_host_free_all(fields, v.parts(), 0, inner, a, b);
        },
        SpecSchema::Sum { endianness, variants, .. } => {
            let inner = spec_effective_order(endianness, order, a);
            if let SpecValue::Variant(index, parts) = v {
                if index < variants.len() {
                    assert(native_free_variant(variants[index as int]));
                    lemma_encoding_host_free_all(variants[index as int].fields, parts, 0, inner, a, b);
                }
            }
        },
    }
}

/// Values of types that never ask for the native order are encoded the same on every machine.
pub proof fn lemma_encoding_host_free_all(
    ts: Seq<SpecType>,
    vs: Seq<SpecValue>,
    from: nat,
    order: ByteOrder,
    a: ByteOrder,
    b: ByteOrder,
)
    requires
        native_free_all(ts),
    ensures
        encoding_of_all(ts, vs, from, order, a) == encoding_of_all(ts, vs, from, order, b),
    decreases ts, ts.len() - from,
{
    lemma_def_encoding_of_all(ts, vs, from, order, a);
    lemma_def_encoding_of_all(ts, vs, from, order, b);
    if from < ts.len() {
        lemma_encoding_host_free_type(ts[from as int], vs[from as int], order, a, b);
        lemma_encoding_host_free_all(ts, vs, from + 1, order, a, b);
    }
}

/// Values of one type that never asks for the native order are encoded the same on every machine.
pub proof fn lemma_encoding_host_free_each(
    t: SpecType,
    vs: Seq<SpecValue>,
    from: nat,
    order: ByteOrder,
    a: ByteOrder,
    b: ByteOrder,
)
    requires
        native_free_type(t),
    ensures
        encoding_of_each(t, vs, from, order, a) == encoding_of_each(t, vs, from, order, b),
    decreases t, vs.len() - from + 1,
{
    lemma_def_encoding_of_each(t, vs, from, order, a);
    lemma_def_encoding_of_each(t, vs, from, order, b);
    if from < vs.len() {
        lemma_encoding_host_free_type(t, vs[from as int], order, a, b);
        lemma_encoding_host_free_each(t, vs, from + 1, order, a, b);
    }
}

/// Bytes are decoded the same on every machine by a type that never asks for the native order.
pub proof fn lemma_decoding_host_free_type(
    t: SpecType,
    bytes: Seq<u8>,
    order: ByteOrder,
    a: ByteOrder,
    b: ByteOrder,
    ctx: SpecValue,
)
    requires
        native_free_type(t),
    ensures
        decoding_of_type(t, bytes, order, a, ctx) == decoding_of_type(t, bytes, order, b, ctx),
    decreases t, 0nat,
{
    lemma_def_decoding_of_type(t, bytes, order, a, ctx);
    lemma_def_decoding_of_type(t, bytes, order, b, ctx);
    match t {
        SpecType::Composite(schema) => {
            lemma_decoding_host_free_schema(*schema, bytes, order, a, b, ctx);
        },
        SpecType::FixedArray(item, count) => {
            lemma_decoding_host_free_count(*item, bytes, count, order, a, b, ctx);
        },
        SpecType::Tuple(items) => {
            lemma_decoding_host_free_all(items, bytes, 0, order, a, b, ctx);
        },
        SpecType::Sequence(item, prefix) => {
            let rest = bytes.skip(prefix.size_type.width() as int);
            assert forall|n: nat|
                decoding_of_count(*item, rest, n, order, a, ctx) == decoding_of_count(
                    *item,
                    rest,
                    n,
                    order,
                    b,
                    ctx,
                ) && decoding_of_budget(*item, rest, n, order, a, ctx) == decoding_of_budget(
                    *item,
                    rest,
                    n,
                    order,
                    b,
                    ctx,
                ) by {
                lemma_decoding_host_free_count(*item, rest, n, order, a, b, ctx);
                lemma_decoding_host_free_budget(*item, rest, n, order, a, b, ctx);
            }
        },
        _ => {},
    }
}

/// Bytes are decoded the same on every machine by a schema that never asks for the native order.
pub proof fn lemma_decoding_host_free_schema(
    s: SpecSchema,
    bytes: Seq<u8>,
    order: ByteOrder,
    a: ByteOrder,
    b: ByteOrder,
    ctx: SpecValue,
)
    requires
        native_free_schema(s),
    ensures
        decoding_of_schema(s, bytes, order, a, ctx) == decoding_of_schema(s, bytes, order, b, ctx),
    decreases s, 1nat,
{
    lemma_def_decoding_of_schema(s, bytes, order, a, ctx);
    lemma_def_decoding_of_schema(s, bytes, order, b, ctx);
    match s {
        SpecSchema::Record { endianness, fields, .. } => {
            let inner = spec_effective_order(endianness, order, a);
            assert forall|rest: Seq<u8>|
                decoding_of_all(fields, rest, 0, inner, a, ctx) == decoding_of_all(
                    fields,
                    rest,
                    0,
                    inner,
                    b,
                    ctx,
                ) by {
                lemma_decoding_host_free_all(fields, rest, 0, inner, a, b, ctx);
            }
        },
        SpecSchema::Sum { endianness, tag_type, variants } => {
            let inner = spec_effective_order(endianness, order, a);
            let rest = bytes.skip(tag_type.width() as int);
            assert forall|index: nat, tag: Scalar| index < variants.len() implies decoding_of_payload(
                variants[index as int],
                index,
                tag,
                rest,
                inner,
                a,
                ctx,
            ) == decoding_of_payload(variants[index as int], index, tag, rest, inner, b, ctx) by {
                assert(native_free_variant(variants[index as int]));
                lemma_decoding_host_free_payload(variants[index as int], index, tag, rest, inner, a, b, ctx);
            }
        },
    }
}

/// The payload of a variant that never asks for the native order is decoded the same on every machine.
pub proof fn lemma_decoding_host_free_payload(
    variant: SpecVariant,
    index: nat,
    tag: Scalar,
    bytes: Seq<u8>,
    order: ByteOrder,
    a: ByteOrder,
    b: ByteOrder,
    ctx: SpecValue,
)
    requires
        native_free_variant(variant),
    ensures
        decoding_of_payload(variant, index, tag, bytes, order, a, ctx) == decoding_of_payload(
            variant,
            index,
            tag,
            bytes,
            order,
            b,
            ctx,
        ),
    decreases variant, 0nat,
{
    lemma_def_decoding_of_payload(variant, index, tag, bytes, order, a, ctx);
    lemma_def_decoding_of_payload(variant, index, tag, bytes, order, b, ctx);
    lemma_decoding_host_free_all(variant.fields, bytes, 0, order, a, b, ctx);
    lemma_decoding_host_free_all(variant.fields, bytes, 1, order, a, b, ctx);
}

/// Values of types that never ask for the native order are decoded the same on every machine.
pub proof fn lemma_decoding_host_free_all(
    ts: Seq<SpecType>,
    bytes: Seq<u8>,
    from: nat,
    order: ByteOrder,
    a: ByteOrder,
    b: ByteOrder,
    ctx: SpecValue,
)
    requires
        native_free_all(ts),
    ensures
        decoding_of_all(ts, bytes, from, order, a, ctx) == decoding_of_all(
            ts,
            bytes,
            from,
            order,
            b,
            ctx,
        ),
    decreases ts, ts.len() - from,
{
    lemma_def_decoding_of_all(ts, bytes, from, order, a, ctx);
    lemma_def_decoding_of_all(ts, bytes, from, order, b, ctx);
    if from < ts.len() {
        lemma_decoding_host_free_type(ts[from as int], bytes, order, a, b, ctx);
        if let Ok((v, n)) = decoding_of_type(ts[from as int], bytes, order, a, ctx) {
            lemma_decoding_host_free_all(ts, bytes.skip(n as int), from + 1, order, a, b, ctx);
        }
    }
}

/// Counted values of a type that never asks for the native order are decoded the same on every machine.
pub proof fn lemma_decoding_host_free_count(
    t: SpecType,
    bytes: Seq<u8>,
    count: nat,
    order: ByteOrder,
    a: ByteOrder,
    b: ByteOrder,
    ctx: SpecValue,
)
    requires
        native_free_type(t),
    ensures
        decoding_of_count(t, bytes, count, order, a, ctx) == decoding_of_count(
            t,
            bytes,
            count,
            order,
            b,
            ctx,
        ),
    decreases t, count + 1,
{
    lemma_def_decoding_of_count(t, bytes, count, order, a, ctx);
    lemma_def_decoding_of_count(t, bytes, count, order, b, ctx);
    if count > 0 {
        lemma_decoding_host_free_type(t, bytes, order, a, b, ctx);
        if let Ok((v, n)) = decoding_of_type(t, bytes, order, a, ctx) {
            lemma_decoding_host_free_count(t, bytes.skip(n as int), (count - 1) as nat, order, a, b, ctx);
        }
    }
}

/// Values of a type that never asks for the native order are decoded
/// within a budget of bytes the same on every machine.
pub proof fn lemma_decoding_host_free_budget(
    t: SpecType,
    bytes: Seq<u8>,
    budget: nat,
    order: ByteOrder,
    a: ByteOrder,
    b: ByteOrder,
    ctx: SpecValue,
)
    requires
        native_free_type(t),
    ensures
        decoding_of_budget(t, bytes, budget, order, a, ctx) == decoding_of_budget(
            t,
            bytes,
            budget,
            order,
            b,
            ctx,
        ),
    decreases t, budget + 1,
{
    lemma_def_decoding_of_budget(t, bytes, budget, order, a, ctx);
    lemma_def_decoding_of_budget(t, bytes, budget, order, b, ctx);
    if budget > 0 {
        lemma_decoding_host_free_type(t, bytes, order, a, b, ctx);
        if let Ok((v, n)) = decoding_of_type(t, bytes, order, a, ctx) {
            if 0 < n <= budget {
                lemma_decoding_host_free_budget(
                    t,
                    bytes.skip(n as int),
                    (budget - n) as nat,
                    order,
                    a,
                    b,
                    ctx,
                );
            }
        }
    }
}

/// Byte order is settled by the schema: a schema that declares big or
/// little endian, and holds no type that asks for the native order, is
/// written and read in the same way on machines of either byte order.
pub proof fn lemma_declared_order_settles(
    s: SpecSchema,
    v: SpecValue,
    bytes: Seq<u8>,
    a: ByteOrder,
    b: ByteOrder,
    ctx: SpecValue,
)
    requires
        native_free_schema(s),
        match s {
            SpecSchema::Record { endianness, .. } => endianness is Some,
            SpecSchema::Sum { endianness, .. } => endianness is Some,
        },
    ensures
        encoding_of_schema(s, v, a, a) == encoding_of_schema(s, v, b, b),
        decoding_of_schema(s, bytes, a, a, ctx) == decoding_of_schema(s, bytes, b, b, ctx),
{
    lemma_encoding_host_free_schema(s, v, a, a, b);
    lemma_decoding_host_free_schema(s, bytes, a, a, b, ctx);
    lemma_def_encoding_of_schema(s, v, a, b);
    lemma_def_encoding_of_schema(s, v, b, b);
    lemma_def_decoding_of_schema(s, bytes, a, b, ctx);
    lemma_def_decoding_of_schema(s, bytes, b, b, ctx);
}

} // verus!
