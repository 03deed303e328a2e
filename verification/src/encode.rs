//! Writing a value as bytes.
use crate::endian::{effective_order, spec_effective_order, ByteOrder};
use crate::error::Error;
use crate::primitive::{bytes_of, encode_scalar, write_raw, write_scalar, Primitive, Scalar};
use crate::schema::{
    lemma_view_record, lemma_view_sum, lemma_view_tuple, lemma_view_variant_fields, type_views,
    Schema, SizePrefix, SpecSchema, SpecType, TagMode, Type,
};
use crate::size::size_of_each;
use crate::typing::{
    valid_schema, valid_type, valid_variant, well_typed, well_typed_all, well_typed_schema,
};
use crate::value::{lemma_view_variant, views, SpecValue, Value};
use vstd::prelude::*;

verus! {

/// The bytes of a magic constant, or none where there is no constant.
#[verifier::opaque]
pub open spec fn magic_bytes(magic: Option<Scalar>, order: ByteOrder) -> Seq<u8> {
    match magic {
        Some(m) => encode_scalar(m, order),
        None => Seq::empty(),
    }
}

/// The bytes written in front of a variant's payload: the declared
/// discriminant, or nothing where the first field of the payload is the discriminant.
#[verifier::opaque]
pub open spec fn tag_bytes(mode: TagMode, tag_type: Primitive, order: ByteOrder) -> Seq<u8> {
    match mode {
        TagMode::Emit(tag) => encode_scalar(Scalar::spec_from_int(tag_type, tag as int), order),
        _ => Seq::empty(),
    }
}

/// The number a sequence's prefix holds: the count of the items, or the sum
/// of their encoded sizes where the prefix counts bytes.
pub open spec fn sequence_length(item: SpecType, prefix: SizePrefix, items: Seq<SpecValue>) -> nat {
    if prefix.byte_sized {
        size_of_each(item, items, 0)
    } else {
        items.len()
    }
}

/// The bytes of the value `v` of type `t`.  `order` is the byte order in
/// force and `host` the order that a type asking for the native one gets.
#[verifier::opaque]
pub open spec fn encoding_of_type(t: SpecType, v: SpecValue, order: ByteOrder, host: ByteOrder) -> Seq<
    u8,
>
    decreases t, 0nat,
{
    match t {
        SpecType::Primitive(_) => match v {
            SpecValue::Scalar(s) => encode_scalar(s, order),
            _ => Seq::empty(),
        },
        SpecType::Composite(schema) => encoding_of_schema(*schema, v, order, host),
        SpecType::FixedArray(item, _) => encoding_of_each(*item, v.parts(), 0, order, host),
        SpecType::Tuple(items) => encoding_of_all(items, v.parts(), 0, order, host),
        SpecType::Sequence(item, prefix) => bytes_of(
            sequence_length(*item, prefix, v.parts()),
            prefix.size_type.width(),
            order,
        ) + encoding_of_each(*item, v.parts(), 0, order, host),
        SpecType::Skipped(_) => Seq::empty(),
        SpecType::ContextMarker => Seq::empty(),
    }
}

/// The bytes of the value `v` of the described type `s`, under the byte order
/// that `s` declares or else inherits.
#[verifier::opaque]
pub open spec fn encoding_of_schema(s: SpecSchema, v: SpecValue, order: ByteOrder, host: ByteOrder) -> Seq<
    u8,
>
    decreases s, 0nat,
{
    match s {
        SpecSchema::Record { endianness, magic, fields } => {
            let inner = spec_effective_order(endianness, order, host);
            magic_bytes(magic, inner) + encoding_of_all(fields, v.parts(), 0, inner, host)
        },
        SpecSchema::Sum { endianness, tag_type, variants } => {
            let inner = spec_effective_order(endianness, order, host);
            match v {
                SpecValue::Variant(index, parts) => if index < variants.len() {
                    tag_bytes(variants[index as int].mode, tag_type, inner) + encoding_of_all(
                        variants[index as int].fields,
                        parts,
                        0,
                        inner,
                        host,
                    )
                } else {
                    Seq::empty()
                },
                _ => Seq::empty(),
            }
        },
    }
}

/// The bytes of the values `vs[from..]`, each of its own type `ts[from..]`, in order.
#[verifier::opaque]
pub open spec fn encoding_of_all(
    ts: Seq<SpecType>,
    vs: Seq<SpecValue>,
    from: nat,
    order: ByteOrder,
    host: ByteOrder,
) -> Seq<u8>
    decreases ts, ts.len() - from,
{
    if from >= ts.len() {
        Seq::empty()
    } else {
        encoding_of_type(ts[from as int], vs[from as int], order, host) + encoding_of_all(
            ts,
            vs,
            from + 1,
            order,
            host,
        )
    }
}

/// The bytes of the values `vs[from..]`, all of type `t`, in order.
#[verifier::opaque]
pub open spec fn encoding_of_each(
    t: SpecType,
    vs: Seq<SpecValue>,
    from: nat,
    order: ByteOrder,
    host: ByteOrder,
) -> Seq<u8>
    decreases t, vs.len() - from + 1,
{
    if from >= vs.len() {
        Seq::empty()
    } else {
        encoding_of_type(t, vs[from as int], order, host) + encoding_of_each(
            t,
            vs,
            from + 1,
            order,
            host,
        )
    }
}

/// Whether the value `v` of type `t` can be written: no part of it belongs to
/// a variant that never travels or is only read.
#[verifier::opaque]
pub open spec fn encodable_type(t: SpecType, v: SpecValue) -> bool
    decreases t, 0nat,
{
    match t {
        SpecType::Composite(schema) => encodable_schema(*schema, v),
        SpecType::FixedArray(item, _) => encodable_each(*item, v.parts(), 0),
        SpecType::Tuple(items) => encodable_all(items, v.parts(), 0),
        SpecType::Sequence(item, _) => encodable_each(*item, v.parts(), 0),
        _ => true,
    }
}

/// Whether the value `v` of the described type `s` can be written.
#[verifier::opaque]
pub open spec fn encodable_schema(s: SpecSchema, v: SpecValue) -> bool
    decreases s, 0nat,
{
    match s {
        SpecSchema::Record { fields, .. } => encodable_all(fields, v.parts(), 0),
        SpecSchema::Sum { variants, .. } => match v {
            SpecValue::Variant(index, parts) => index < variants.len() ==> {
                &&& variants[index as int].mode.is_written()
                &&& encodable_all(variants[index as int].fields, parts, 0)
            },
            _ => true,
        },
    }
}

/// Whether the values `vs[from..]`, each of its own type `ts[from..]`, can all be written.
#[verifier::opaque]
pub open spec fn encodable_all(ts: Seq<SpecType>, vs: Seq<SpecValue>, from: nat) -> bool
    decreases ts, ts.len() - from,
{
    if from >= ts.len() {
        true
    } else {
        encodable_type(ts[from as int], vs[from as int]) && encodable_all(ts, vs, from + 1)
    }
}

/// Whether the values `vs[from..]`, all of type `t`, can all be written.
#[verifier::opaque]
pub open spec fn encodable_each(t: SpecType, vs: Seq<SpecValue>, from: nat) -> bool
    decreases t, vs.len() - from + 1,
{
    if from >= vs.len() {
        true
    } else {
        encodable_type(t, vs[from as int]) && encodable_each(t, vs, from + 1)
    }
}

/// The context once the value `v` of type `t` has been written: a context
/// marker makes its own value the context, and nothing else changes it.
#[verifier::opaque]
pub open spec fn context_after_type(t: SpecType, v: SpecValue, ctx: SpecValue) -> SpecValue
    decreases t, 0nat,
{
    match t {
        SpecType::Composite(schema) => context_after_schema(*schema, v, ctx),
        SpecType::FixedArray(item, _) => context_after_each(*item, v.parts(), 0, ctx),
        SpecType::Tuple(items) => context_after_all(items, v.parts(), 0, ctx),
        SpecType::Sequence(item, _) => context_after_each(*item, v.parts(), 0, ctx),
        SpecType::ContextMarker => v,
        _ => ctx,
    }
}

/// The context once the value `v` of the described type `s` has been written.
#[verifier::opaque]
pub open spec fn context_after_schema(s: SpecSchema, v: SpecValue, ctx: SpecValue) -> SpecValue
    decreases s, 0nat,
{
    match s {
        SpecSchema::Record { fields, .. } => context_after_all(fields, v.parts(), 0, ctx),
        SpecSchema::Sum { variants, .. } => match v {
            SpecValue::Variant(index, parts) => if index < variants.len() {
                context_after_all(variants[index as int].fields, parts, 0, ctx)
            } else {
                ctx
            },
            _ => ctx,
        },
    }
}

/// The context once the values `vs[from..]`, each of its own type, have been written in order.
#[verifier::opaque]
pub open spec fn context_after_all(ts: Seq<SpecType>, vs: Seq<SpecValue>, from: nat, ctx: SpecValue) -> SpecValue
    decreases ts, ts.len() - from,
{
    if from >= ts.len() {
        ctx
    } else {
        context_after_all(ts, vs, from + 1, context_after_type(ts[from as int], vs[from as int], ctx))
    }
}

/// The context once the values `vs[from..]`, all of type `t`, have been written in order.
#[verifier::opaque]
pub open spec fn context_after_each(t: SpecType, vs: Seq<SpecValue>, from: nat, ctx: SpecValue) -> SpecValue
    decreases t, vs.len() - from + 1,
{
    if from >= vs.len() {
        ctx
    } else {
        context_after_each(t, vs, from + 1, context_after_type(t, vs[from as int], ctx))
    }
}

/// What [`encoding_of_type`] comes to, written out: its definition is not unfolded on its own.
pub proof fn lemma_def_encoding_of_type(t: SpecType, v: SpecValue, order: ByteOrder, host: ByteOrder)
    ensures
        encoding_of_type(t, v, order, host) == ({
            match t {
                SpecType::Primitive(_) => match v {
                    SpecValue::Scalar(s) => encode_scalar(s, order),
                    _ => Seq::empty(),
                },
                SpecType::Composite(schema) => encoding_of_schema(*schema, v, order, host),
                SpecType::FixedArray(item, _) => encoding_of_each(*item, v.parts(), 0, order, host),
                SpecType::Tuple(items) => encoding_of_all(items, v.parts(), 0, order, host),
                SpecType::Sequence(item, prefix) => bytes_of(
                    sequence_length(*item, prefix, v.parts()),
                    prefix.size_type.width(),
                    order,
                ) + encoding_of_each(*item, v.parts(), 0, order, host),
                SpecType::Skipped(_) => Seq::empty(),
                SpecType::ContextMarker => Seq::empty(),
            }
        }),
{
    reveal(encoding_of_type);
    reveal(encoding_of_schema);
    reveal(encoding_of_all);
    reveal(encoding_of_each);
}

/// What [`encoding_of_schema`] comes to, written out: its definition is not unfolded on its own.
pub proof fn lemma_def_encoding_of_schema(s: SpecSchema, v: SpecValue, order: ByteOrder, host: ByteOrder)
    ensures
        encoding_of_schema(s, v, order, host) == ({
            match s {
                SpecSchema::Record { endianness, magic, fields } => {
                    let inner = spec_effective_order(endianness, order, host);
                    magic_bytes(magic, inner) + encoding_of_all(fields, v.parts(), 0, inner, host)
                },
                SpecSchema::Sum { endianness, tag_type, variants } => {
                    let inner = spec_effective_order(endianness, order, host);
                    match v {
                        SpecValue::Variant(index, parts) => if index < variants.len() {
                            tag_bytes(variants[index as int].mode, tag_type, inner) + encoding_of_all(
                                variants[index as int].fields,
                                parts,
                                0,
                                inner,
                                host,
                            )
                        } else {
                            Seq::empty()
                        },
                        _ => Seq::empty(),
                    }
                },
            }
        }),
{
    reveal(encoding_of_type);
    reveal(encoding_of_schema);
    reveal(encoding_of_all);
    reveal(encoding_of_each);
}

/// What [`encoding_of_all`] comes to, written out: its definition is not unfolded on its own.
pub proof fn lemma_def_encoding_of_all(ts: Seq<SpecType>,
    vs: Seq<SpecValue>,
    from: nat,
    order: ByteOrder,
    host: ByteOrder,)
    ensures
        encoding_of_all(ts, vs, from, order, host) == ({
            if from >= ts.len() {
                Seq::empty()
            } else {
                encoding_of_type(ts[from as int], vs[from as int], order, host) + encoding_of_all(
                    ts,
                    vs,
                    from + 1,
                    order,
                    host,
                )
            }
        }),
{
    reveal(encoding_of_type);
    reveal(encoding_of_schema);
    reveal(encoding_of_all);
    reveal(encoding_of_each);
}

/// What [`encoding_of_each`] comes to, written out: its definition is not unfolded on its own.
pub proof fn lemma_def_encoding_of_each(t: SpecType,
    vs: Seq<SpecValue>,
    from: nat,
    order: ByteOrder,
    host: ByteOrder,)
    ensures
        encoding_of_each(t, vs, from, order, host) == ({
            if from >= vs.len() {
                Seq::empty()
            } else {
                encoding_of_type(t, vs[from as int], order, host) + encoding_of_each(
                    t,
                    vs,
                    from + 1,
                    order,
                    host,
                )
            }
        }),
{
    reveal(encoding_of_type);
    reveal(encoding_of_schema);
    reveal(encoding_of_all);
    reveal(encoding_of_each);
}

/// What [`encodable_type`] comes to, written out: its definition is not unfolded on its own.
pub proof fn lemma_def_encodable_type(t: SpecType, v: SpecValue)
    ensures
        encodable_type(t, v) == ({
            match t {
                SpecType::Composite(schema) => encodable_schema(*schema, v),
                SpecType::FixedArray(item, _) => encodable_each(*item, v.parts(), 0),
                SpecType::Tuple(items) => encodable_all(items, v.parts(), 0),
                SpecType::Sequence(item, _) => encodable_each(*item, v.parts(), 0),
                _ => true,
            }
        }),
{
    reveal(encodable_type);
    reveal(encodable_schema);
    reveal(encodable_all);
    reveal(encodable_each);
}

/// What [`encodable_schema`] comes to, written out: its definition is not unfolded on its own.
pub proof fn lemma_def_encodable_schema(s: SpecSchema, v: SpecValue)
    ensures
        encodable_schema(s, v) == ({
            match s {
                SpecSchema::Record { fields, .. } => encodable_all(fields, v.parts(), 0),
                SpecSchema::Sum { variants, .. } => match v {
                    SpecValue::Variant(index, parts) => index < variants.len() ==> {
                        &&& variants[index as int].mode.is_written()
                        &&& encodable_all(variants[index as int].fields, parts, 0)
                    },
                    _ => true,
                },
            }
        }),
{
    reveal(encodable_type);
    reveal(encodable_schema);
    reveal(encodable_all);
    reveal(encodable_each);
}

/// What [`encodable_all`] comes to, written out: its definition is not unfolded on its own.
pub proof fn lemma_def_encodable_all(ts: Seq<SpecType>, vs: Seq<SpecValue>, from: nat)
    ensures
        encodable_all(ts, vs, from) == ({
            if from >= ts.len() {
                true
            } else {
                encodable_type(ts[from as int], vs[from as int]) && encodable_all(ts, vs, from + 1)
            }
        }),
{
    reveal(encodable_type);
    reveal(encodable_schema);
    reveal(encodable_all);
    reveal(encodable_each);
}

/// What [`encodable_each`] comes to, written out: its definition is not unfolded on its own.
pub proof fn lemma_def_encodable_each(t: SpecType, vs: Seq<SpecValue>, from: nat)
    ensures
        encodable_each(t, vs, from) == ({
            if from >= vs.len() {
                true
            } else {
                encodable_type(t, vs[from as int]) && encodable_each(t, vs, from + 1)
            }
        }),
{
    reveal(encodable_type);
    reveal(encodable_schema);
    reveal(encodable_all);
    reveal(encodable_each);
}

/// What [`context_after_type`] comes to, written out: its definition is not unfolded on its own.
pub proof fn lemma_def_context_after_type(t: SpecType, v: SpecValue, ctx: SpecValue)
    ensures
        context_after_type(t, v, ctx) == ({
            match t {
                SpecType::Composite(schema) => context_after_schema(*schema, v, ctx),
                SpecType::FixedArray(item, _) => context_after_each(*item, v.parts(), 0, ctx),
                SpecType::Tuple(items) => context_after_all(items, v.parts(), 0, ctx),
                SpecType::Sequence(item, _) => context_after_each(*item, v.parts(), 0, ctx),
                SpecType::ContextMarker => v,
                _ => ctx,
            }
        }),
{
    reveal(context_after_type);
    reveal(context_after_schema);
    reveal(context_after_all);
    reveal(context_after_each);
}

/// What [`context_after_schema`] comes to, written out: its definition is not unfolded on its own.
pub proof fn lemma_def_context_after_schema(s: SpecSchema, v: SpecValue, ctx: SpecValue)
    ensures
        context_after_schema(s, v, ctx) == ({
            match s {
                SpecSchema::Record { fields, .. } => context_after_all(fields, v.parts(), 0, ctx),
                SpecSchema::Sum { variants, .. } => match v {
                    SpecValue::Variant(index, parts) => if index < variants.len() {
                        context_after_all(variants[index as int].fields, parts, 0, ctx)
                    } else {
                        ctx
                    },
                    _ => ctx,
                },
            }
        }),
{
    reveal(context_after_type);
    reveal(context_after_schema);
    reveal(context_after_all);
    reveal(context_after_each);
}

/// What [`context_after_all`] comes to, written out: its definition is not unfolded on its own.
pub proof fn lemma_def_context_after_all(ts: Seq<SpecType>, vs: Seq<SpecValue>, from: nat, ctx: SpecValue)
    ensures
        context_after_all(ts, vs, from, ctx) == ({
            if from >= ts.len() {
                ctx
            } else {
                context_after_all(ts, vs, from + 1, context_after_type(ts[from as int], vs[from as int], ctx))
            }
        }),
{
    reveal(context_after_type);
    reveal(context_after_schema);
    reveal(context_after_all);
    reveal(context_after_each);
}

/// What [`context_after_each`] comes to, written out: its definition is not unfolded on its own.
pub proof fn lemma_def_context_after_each(t: SpecType, vs: Seq<SpecValue>, from: nat, ctx: SpecValue)
    ensures
        context_after_each(t, vs, from, ctx) == ({
            if from >= vs.len() {
                ctx
            } else {
                context_after_each(t, vs, from + 1, context_after_type(t, vs[from as int], ctx))
            }
        }),
{
    reveal(context_after_type);
    reveal(context_after_schema);
    reveal(context_after_all);
    reveal(context_after_each);
}

/// What a call that writes a value owes: where the value can be written,
/// success, the value's bytes behind what `out` held, and the context that
/// writing leaves; where it cannot, the failure that says so.
pub open spec fn written(
    r: Result<(), Error>,
    encodable: bool,
    out_before: Seq<u8>,
    out_after: Seq<u8>,
    bytes: Seq<u8>,
    ctx_after: SpecValue,
    ctx_expected: SpecValue,
) -> bool {
    if encodable {
        r is Ok && out_after == out_before + bytes && ctx_after == ctx_expected
    } else {
        r == Err::<(), Error>(Error::UnencodableVariant)
    }
}

/// Appends to `out` the bytes of the value `v` of type `t`, and leaves in
/// `ctx` the context that writing it produces.
pub fn encode_type(
    t: &Type,
    v: &Value,
    order: ByteOrder,
    host: ByteOrder,
    out: &mut Vec<u8>,
    ctx: &mut Value,
) -> (r: Result<(), Error>)
    requires
        valid_type(t@),
        well_typed(t@, v@),
    ensures
        written(
            r,
            encodable_type(t@, v@),
            old(out)@,
            final(out)@,
            encoding_of_type(t@, v@, order, host),
            final(ctx)@,
            context_after_type(t@, v@, old(ctx)@),
        ),
    decreases t@, 0nat,
{
    proof {
        lemma_def_encoding_of_type(t@, v@, order, host);
        lemma_def_encodable_type(t@, v@);
        lemma_def_context_after_type(t@, v@, ctx@);
        assert(out@ + Seq::<u8>::empty() =~= out@);
    }
    match t {
        Type::Primitive(_) => {
            match v {
                Value::Scalar(s) => {
                    write_scalar(out, *s, order);
                    Ok(())
                },
                _ => Ok(()),
            }
        },
        Type::Composite(schema) => encode_schema(schema, v, order, host, out, ctx),
        Type::FixedArray(item, _) => encode_each(item, v.parts(), order, host, out, ctx),
        Type::Tuple(items) => {
            proof {
                lemma_view_tuple(*items);
            }
            encode_all(items, v.parts(), order, host, out, ctx)
        },
        Type::Sequence(item, prefix) => {
            let parts = v.parts();
            let mut body: Vec<u8> = Vec::new();
            let ghost before = out@;
            match encode_each(item, parts, order, host, &mut body, ctx) {
                Err(e) => Err(e),
                Ok(()) => {
                    proof {
                        let bytes = encoding_of_each(item@, v@.parts(), 0, order, host);
                        assert(Seq::<u8>::empty() + bytes =~= bytes);
                        crate::laws::lemma_size_of_each(item@, v@.parts(), 0, order, host);
                    }
                    let length: usize = if prefix.byte_sized {
                        body.len()
                    } else {
                        parts.len()
                    };
                    write_raw(out, length as u128, prefix.size_type.size(), order);
                    let ghost head = bytes_of(length as nat, prefix.size_type.width(), order);
                    out.append(&mut body);
                    proof {
                        let bytes = encoding_of_each(item@, v@.parts(), 0, order, host);
                        assert(out@ =~= before + (head + bytes));
                    }
                    Ok(())
                },
            }
        },
        Type::Skipped(_) => Ok(()),
        Type::ContextMarker => {
            *ctx = v.clone();
            Ok(())
        },
    }
}

/// Appends to `out` the bytes of the value `v` of the described type `s`.
pub fn encode_schema(
    s: &Schema,
    v: &Value,
    order: ByteOrder,
    host: ByteOrder,
    out: &mut Vec<u8>,
    ctx: &mut Value,
) -> (r: Result<(), Error>)
    requires
        valid_schema(s@),
        well_typed_schema(s@, v@),
    ensures
        written(
            r,
            encodable_schema(s@, v@),
            old(out)@,
            final(out)@,
            encoding_of_schema(s@, v@, order, host),
            final(ctx)@,
            context_after_schema(s@, v@, old(ctx)@),
        ),
    decreases s@, 0nat,
{
    proof {
        lemma_def_encoding_of_schema(s@, v@, order, host);
        lemma_def_encodable_schema(s@, v@);
        lemma_def_context_after_schema(s@, v@, ctx@);
    }
    let ghost before = out@;
    match s {
        Schema::Record { endianness, magic, fields } => {
            proof {
                lemma_view_record(*endianness, *magic, *fields);
                reveal(magic_bytes);
            }
            let inner = effective_order(*endianness, order, host);
            match magic {
                Some(m) => {
                    write_scalar(out, *m, inner);
                },
                None => {
                    proof {
                        assert(out@ + Seq::<u8>::empty() =~= out@);
                    }
                },
            }
            let ghost head = magic_bytes(*magic, inner);
            let r = encode_all(fields, v.parts(), inner, host, out, ctx);
            proof {
                let body = encoding_of_all(type_views(fields@), v@.parts(), 0, inner, host);
                assert((before + head) + body =~= before + (head + body));
            }
            r
        },
        Schema::Sum { endianness, tag_type, variants } => {
            proof {
                lemma_view_sum(*endianness, *tag_type, *variants);
                reveal(tag_bytes);
            }
            let inner = effective_order(*endianness, order, host);
            match v {
                Value::Variant(index, parts) => {
                    proof {
                        lemma_view_variant(*index, *parts);
                        lemma_view_variant_fields(variants@[*index as int]);
                        assert(valid_variant(variants@[*index as int]@, *tag_type));
                    }
                    let variant = &variants[*index];
                    match variant.mode {
                        TagMode::Emit(tag) => {
                            write_scalar(out, Scalar::from_int(*tag_type, tag), inner);
                        },
                        TagMode::Keep => {
                            proof {
                                assert(out@ + Seq::<u8>::empty() =~= out@);
                            }
                        },
                        TagMode::Excluded => {
                            return Err(Error::UnencodableVariant);
                        },
                        TagMode::ReadOnly => {
                            return Err(Error::UnencodableVariant);
                        },
                    }
                    let ghost head = tag_bytes(variant.mode, *tag_type, inner);
                    let r = encode_all(
                        &variant.fields,
                        parts,
                        inner,
                        host,
                        out,
                        ctx,
                    );
                    proof {
                        let body = encoding_of_all(variant@.fields, views(parts@), 0, inner, host);
                        assert((before + head) + body =~= before + (head + body));
                    }
                    r
                },
                _ => Ok(()),
            }
        },
    }
}

/// Appends to `out` the bytes of the values, each of its own type, in order.
pub fn encode_all(
    types: &Vec<Type>,
    values: &Vec<Value>,
    order: ByteOrder,
    host: ByteOrder,
    out: &mut Vec<u8>,
    ctx: &mut Value,
) -> (r: Result<(), Error>)
    requires
        forall|i: int| 0 <= i < types@.len() ==> valid_type(#[trigger] type_views(types@)[i]),
        well_typed_all(type_views(types@), views(values@)),
    ensures
        written(
            r,
            encodable_all(type_views(types@), views(values@), 0),
            old(out)@,
            final(out)@,
            encoding_of_all(type_views(types@), views(values@), 0, order, host),
            final(ctx)@,
            context_after_all(type_views(types@), views(values@), 0, old(ctx)@),
        ),
    decreases type_views(types@), 0nat,
{
    let ghost ts = type_views(types@);
    let ghost vs = views(values@);
    let ghost out_before = out@;
    let ghost ctx_before = ctx@;
    let mut i: usize = 0;
    proof {
        assert(out@ + encoding_of_all(ts, vs, 0, order, host) == out_before + encoding_of_all(
            ts,
            vs,
            0,
            order,
            host,
        ));
    }
    while i < types.len()
        invariant
            i <= types@.len(),
            ts == type_views(types@),
            vs == views(values@),
            forall|i: int| 0 <= i < ts.len() ==> valid_type(#[trigger] ts[i]),
            well_typed_all(ts, vs),
            encodable_all(ts, vs, 0) == encodable_all(ts, vs, i as nat),
            out@ + encoding_of_all(ts, vs, i as nat, order, host) == out_before + encoding_of_all(
                ts,
                vs,
                0,
                order,
                host,
            ),
            context_after_all(ts, vs, i as nat, ctx@) == context_after_all(ts, vs, 0, ctx_before),
        decreases types@.len() - i,
    {
        proof {
            lemma_def_encoding_of_all(ts, vs, i as nat, order, host);
            lemma_def_encodable_all(ts, vs, i as nat);
            lemma_def_context_after_all(ts, vs, i as nat, ctx@);
        }
        let ghost here = out@;
        match encode_type(&types[i], &values[i], order, host, out, ctx) {
            Err(e) => {
                return Err(e);
            },
            Ok(()) => {},
        }
        proof {
            let one = encoding_of_type(ts[i as int], vs[i as int], order, host);
            let rest = encoding_of_all(ts, vs, (i + 1) as nat, order, host);
            assert((here + one) + rest =~= here + (one + rest));
        }
        i = i + 1;
    }
    proof {
        lemma_def_encoding_of_all(ts, vs, i as nat, order, host);
        lemma_def_encodable_all(ts, vs, i as nat);
        lemma_def_context_after_all(ts, vs, i as nat, ctx@);
        assert(out@ + Seq::<u8>::empty() =~= out@);
    }
    Ok(())
}

/// Appends to `out` the bytes of the values, all of type `t`, in order.
pub fn encode_each(
    t: &Type,
    values: &Vec<Value>,
    order: ByteOrder,
    host: ByteOrder,
    out: &mut Vec<u8>,
    ctx: &mut Value,
) -> (r: Result<(), Error>)
    requires
        valid_type(t@),
        forall|i: int| 0 <= i < values@.len() ==> well_typed(t@, #[trigger] views(values@)[i]),
    ensures
        written(
            r,
            encodable_each(t@, views(values@), 0),
            old(out)@,
            final(out)@,
            encoding_of_each(t@, views(values@), 0, order, host),
            final(ctx)@,
            context_after_each(t@, views(values@), 0, old(ctx)@),
        ),
    decreases t@, 1nat,
{
    let ghost vs = views(values@);
    let ghost out_before = out@;
    let ghost ctx_before = ctx@;
    let mut i: usize = 0;
    while i < values.len()
        invariant
            i <= values@.len(),
            vs == views(values@),
            valid_type(t@),
            forall|i: int| 0 <= i < values@.len() ==> well_typed(t@, #[trigger] vs[i]),
            encodable_each(t@, vs, 0) == encodable_each(t@, vs, i as nat),
            out@ + encoding_of_each(t@, vs, i as nat, order, host) == out_before + encoding_of_each(
                t@,
                vs,
                0,
                order,
                host,
            ),
            context_after_each(t@, vs, i as nat, ctx@) == context_after_each(t@, vs, 0, ctx_before),
        decreases values@.len() - i,
    {
        proof {
            lemma_def_encoding_of_each(t@, vs, i as nat, order, host);
            lemma_def_encodable_each(t@, vs, i as nat);
            lemma_def_context_after_each(t@, vs, i as nat, ctx@);
        }
        let ghost here = out@;
        match encode_type(t, &values[i], order, host, out, ctx) {
            Err(e) => {
                return Err(e);
            },
            Ok(()) => {},
        }
        proof {
            let one = encoding_of_type(t@, vs[i as int], order, host);
            let rest = encoding_of_each(t@, vs, (i + 1) as nat, order, host);
            assert((here + one) + rest =~= here + (one + rest));
        }
        i = i + 1;
    }
    proof {
        lemma_def_encoding_of_each(t@, vs, i as nat, order, host);
        lemma_def_encodable_each(t@, vs, i as nat);
        lemma_def_context_after_each(t@, vs, i as nat, ctx@);
        assert(out@ + Seq::<u8>::empty() =~= out@);
    }
    Ok(())
}

} // verus!
