//! What holds between size, encoding and decoding.
//!
//! - Round trip ([`lemma_round_trip`], [`lemma_round_trip_type`]): a
//!   representable value, once encoded, decodes to itself.
//! - Size consistency ([`lemma_size_consistency`], [`lemma_size_of_type`]):
//!   the encoded size of a value is the length of its encoding.
//! - Decoding takes what the size says ([`lemma_decoded_type`]).
//! - Sequence accounting ([`lemma_sequence_accounting`]): a prefix that
//!   counts bytes holds the sum of the sizes of the items.
//! - Discriminant selection ([`lemma_first_match_wins`]): the first variant
//!   in declaration order that matches is the one selected.
//! - Kept discriminants ([`lemma_kept_tag_written_once`],
//!   [`lemma_kept_tag_read_back`]).
//! - Variants without fields ([`lemma_empty_variant_read_from_tag`]): they
//!   are read from the discriminant alone, the default among them.
//! - Magic constants ([`lemma_magic_mismatch`], [`lemma_magic_bytes_mismatch`]).
//! - Faithful sequences ([`lemma_sequence_faithful`]): decoding a sequence
//!   and encoding what came out gives the bytes back, where that holds of its items.
use crate::decode::{
    as_list, decoding_of_all, decoding_of_budget, decoding_of_count, decoding_of_payload,
    decoding_of_schema, decoding_of_type, lemma_def_decoding_of_all,
    lemma_def_decoding_of_budget, lemma_def_decoding_of_count, lemma_def_decoding_of_payload,
    lemma_def_decoding_of_schema, lemma_def_decoding_of_type, lemma_def_select_variant,
    magic_check, select_variant, selects, tag_check,
};
use crate::encode::{
    encodable_all, encodable_each, encodable_schema, encodable_type, encoding_of_all,
    encoding_of_each, encoding_of_schema, encoding_of_type, lemma_def_encodable_all,
    lemma_def_encodable_each, lemma_def_encodable_schema, lemma_def_encodable_type,
    lemma_def_encoding_of_all, lemma_def_encoding_of_each, lemma_def_encoding_of_schema,
    lemma_def_encoding_of_type, magic_bytes, sequence_length, tag_bytes,
};
use crate::endian::{spec_effective_order, ByteOrder};
use crate::error::Error;
use crate::primitive::{
    bytes_of, decode_scalar, encode_scalar, lemma_as_int_held, lemma_bytes_of_count, lemma_bytes_of_len,
    lemma_encode_scalar_len, lemma_from_int, lemma_scalar_bytes_unique, lemma_scalar_roundtrip,
    Primitive, Scalar,
};
use crate::schema::{SizePrefix, SpecSchema, SpecType, SpecVariant, TagMode};
use crate::size::{
    lemma_def_size_of_all, lemma_def_size_of_each, lemma_def_size_of_schema,
    lemma_def_size_of_type, magic_width, size_of_all, size_of_each, size_of_schema,
    size_of_type, tag_width,
};
use crate::typing::{
    representable, representable_all, representable_schema, valid_schema, valid_type,
    valid_variant, well_typed, well_typed_all, well_typed_schema, wire_tag,
};
use crate::value::SpecValue;
use vstd::prelude::*;

verus! {

/// A magic constant is written in as many bytes as its type is wide.
pub proof fn lemma_magic_bytes_len(magic: Option<Scalar>, order: ByteOrder)
    ensures
        magic_bytes(magic, order).len() == magic_width(magic),
{
    reveal(magic_bytes);
    if let Some(m) = magic {
        lemma_encode_scalar_len(m, order);
    }
}

/// A variant that can be written is opened by as many bytes as its size counts for the discriminant.
pub proof fn lemma_tag_bytes_len(mode: TagMode, tag_type: Primitive, order: ByteOrder)
    requires
        mode.is_written(),
    ensures
        tag_bytes(mode, tag_type, order).len() == tag_width(mode, tag_type),
{
    reveal(tag_bytes);
    if let TagMode::Emit(tag) = mode {
        lemma_encode_scalar_len(Scalar::spec_from_int(tag_type, tag as int), order);
    }
}

/// The encoded size of a value is the number of bytes its encoding has:
/// for every value of the type that can be written.
pub proof fn lemma_size_of_type(t: SpecType, v: SpecValue, order: ByteOrder, host: ByteOrder)
    requires
        well_typed(t, v),
        encodable_type(t, v),
    ensures
        encoding_of_type(t, v, order, host).len() == size_of_type(t, v),
    decreases t, 0nat,
{
    lemma_def_encoding_of_type(t, v, order, host);
    lemma_def_size_of_type(t, v);
    lemma_def_encodable_type(t, v);
    match t {
        SpecType::Primitive(_) => {
            lemma_encode_scalar_len(v->Scalar_0, order);
        },
        SpecType::Composite(schema) => {
            lemma_size_of_schema(*schema, v, order, host);
        },
        SpecType::FixedArray(item, _) => {
            lemma_size_of_each(*item, v.parts(), 0, order, host);
        },
        SpecType::Tuple(items) => {
            lemma_size_of_all(items, v.parts(), 0, order, host);
        },
        SpecType::Sequence(item, prefix) => {
            lemma_size_of_each(*item, v.parts(), 0, order, host);
            lemma_bytes_of_len(
                sequence_length(*item, prefix, v.parts()),
                prefix.size_type.width(),
                order,
            );
        },
        SpecType::Skipped(_) => {},
        SpecType::ContextMarker => {},
    }
}

/// The encoded size of a value of a described type is the number of bytes its encoding has.
pub proof fn lemma_size_of_schema(s: SpecSchema, v: SpecValue, order: ByteOrder, host: ByteOrder)
    requires
        well_typed_schema(s, v),
        encodable_schema(s, v),
    ensures
        encoding_of_schema(s, v, order, host).len() == size_of_schema(s, v),
    decreases s, 0nat,
{
    lemma_def_encoding_of_schema(s, v, order, host);
    lemma_def_size_of_schema(s, v);
    lemma_def_encodable_schema(s, v);
    match s {
        SpecSchema::Record { endianness, magic, fields } => {
            let inner = spec_effective_order(endianness, order, host);
            lemma_size_of_all(fields, v.parts(), 0, inner, host);
            lemma_magic_bytes_len(magic, inner);
        },
        SpecSchema::Sum { endianness, tag_type, variants } => {
            let inner = spec_effective_order(endianness, order, host);
            let index = v->Variant_0;
            let variant = variants[index as int];
            lemma_size_of_all(variant.fields, v.parts(), 0, inner, host);
            lemma_tag_bytes_len(variant.mode, tag_type, inner);
        },
    }
}

/// The sizes of values of given types add up to the number of bytes they are written as.
pub proof fn lemma_size_of_all(
    ts: Seq<SpecType>,
    vs: Seq<SpecValue>,
    from: nat,
    order: ByteOrder,
    host: ByteOrder,
)
    requires
        well_typed_all(ts, vs),
        encodable_all(ts, vs, from),
    ensures
        encoding_of_all(ts, vs, from, order, host).len() == size_of_all(ts, vs, from),
    decreases ts, ts.len() - from,
{
    lemma_def_encoding_of_all(ts, vs, from, order, host);
    lemma_def_size_of_all(ts, vs, from);
    lemma_def_encodable_all(ts, vs, from);
    if from < ts.len() {
        lemma_size_of_type(ts[from as int], vs[from as int], order, host);
        lemma_size_of_all(ts, vs, from + 1, order, host);
    }
}

/// The sizes of values of one type add up to the number of bytes they are written as.
pub proof fn lemma_size_of_each(
    t: SpecType,
    vs: Seq<SpecValue>,
    from: nat,
    order: ByteOrder,
    host: ByteOrder,
)
    requires
        forall|i: int| 0 <= i < vs.len() ==> well_typed(t, #[trigger] vs[i]),
        encodable_each(t, vs, from),
    ensures
        encoding_of_each(t, vs, from, order, host).len() == size_of_each(t, vs, from),
    decreases t, vs.len() - from + 1,
{
    lemma_def_encoding_of_each(t, vs, from, order, host);
    lemma_def_size_of_each(t, vs, from);
    lemma_def_encodable_each(t, vs, from);
    if from < vs.len() {
        lemma_size_of_type(t, vs[from as int], order, host);
        lemma_size_of_each(t, vs, from + 1, order, host);
    }
}

/// A representable value has the shape of its type and can be written.
pub proof fn lemma_representable_type(t: SpecType, v: SpecValue, ctx: SpecValue)
    requires
        representable(t, v, ctx),
    ensures
        well_typed(t, v),
        encodable_type(t, v),
    decreases t, 0nat,
{
    lemma_def_encodable_type(t, v);
    match t {
        SpecType::Primitive(_) => {},
        SpecType::Composite(schema) => {
            lemma_representable_schema(*schema, v, ctx);
        },
        SpecType::FixedArray(item, _) => {
            lemma_representable_each(*item, v.parts(), 0, ctx);
        },
        SpecType::Tuple(items) => {
            lemma_representable_all(items, v.parts(), 0, ctx);
        },
        SpecType::Sequence(item, _) => {
            lemma_representable_each(*item, v.parts(), 0, ctx);
        },
        SpecType::Skipped(_) => {},
        SpecType::ContextMarker => {},
    }
}

/// A representable value of a described type has its shape and can be written.
pub proof fn lemma_representable_schema(s: SpecSchema, v: SpecValue, ctx: SpecValue)
    requires
        representable_schema(s, v, ctx),
    ensures
        well_typed_schema(s, v),
        encodable_schema(s, v),
    decreases s, 0nat,
{
    lemma_def_encodable_schema(s, v);
    match s {
        SpecSchema::Record { fields, .. } => {
            lemma_representable_all(fields, v.parts(), 0, ctx);
        },
        SpecSchema::Sum { variants, .. } => {
            let index = v->Variant_0;
            lemma_representable_all(variants[index as int].fields, v.parts(), 0, ctx);
        },
    }
}

/// Representable values of given types have their shapes and can be written.
pub proof fn lemma_representable_all(ts: Seq<SpecType>, vs: Seq<SpecValue>, from: nat, ctx: SpecValue)
    requires
        representable_all(ts, vs, ctx),
    ensures
        well_typed_all(ts, vs),
        encodable_all(ts, vs, from),
    decreases ts, ts.len() - from,
{
    lemma_def_encodable_all(ts, vs, from);
    assert forall|i: int| 0 <= i < ts.len() implies well_typed(#[trigger] ts[i], vs[i]) by {
        lemma_representable_type(ts[i], vs[i], ctx);
    }
    if from < ts.len() {
        lemma_representable_type(ts[from as int], vs[from as int], ctx);
        lemma_representable_all(ts, vs, from + 1, ctx);
    }
}

/// Representable values of one type have its shape and can be written.
pub proof fn lemma_representable_each(t: SpecType, vs: Seq<SpecValue>, from: nat, ctx: SpecValue)
    requires
        forall|i: int| 0 <= i < vs.len() ==> representable(t, #[trigger] vs[i], ctx),
        from <= vs.len(),
    ensures
        forall|i: int| 0 <= i < vs.len() ==> well_typed(t, #[trigger] vs[i]),
        encodable_each(t, vs, from),
    decreases t, vs.len() - from + 1,
{
    lemma_def_encodable_each(t, vs, from);
    assert forall|i: int| 0 <= i < vs.len() implies well_typed(t, #[trigger] vs[i]) by {
        lemma_representable_type(t, vs[i], ctx);
    }
    if from < vs.len() {
        lemma_representable_type(t, vs[from as int], ctx);
        lemma_representable_each(t, vs, from + 1, ctx);
    }
}

/// Round trip: a representable value of a valid type, once encoded, decodes
/// to itself, and decoding takes exactly the bytes that encoding produced,
/// whatever bytes follow them.
pub proof fn lemma_round_trip_type(
    t: SpecType,
    v: SpecValue,
    order: ByteOrder,
    host: ByteOrder,
    ctx: SpecValue,
    rest: Seq<u8>,
)
    requires
        valid_type(t),
        representable(t, v, ctx),
    ensures
        decoding_of_type(t, encoding_of_type(t, v, order, host) + rest, order, host, ctx) == Ok::<
            (SpecValue, nat),
            Error,
        >((v, encoding_of_type(t, v, order, host).len())),
    decreases t, 1nat,
{
    lemma_def_encoding_of_type(t, v, order, host);
    lemma_def_decoding_of_type(t, encoding_of_type(t, v, order, host) + rest, order, host, ctx);
    let bytes = encoding_of_type(t, v, order, host);
    match t {
        SpecType::Primitive(kind) => {
            let s = v->Scalar_0;
            lemma_scalar_roundtrip(s, order, rest);
            lemma_encode_scalar_len(s, order);
        },
        SpecType::Composite(schema) => {
            lemma_round_trip_schema(*schema, v, order, host, ctx, rest);
        },
        SpecType::FixedArray(item, count) => {
            lemma_round_trip_count(*item, v.parts(), 0, order, host, ctx, rest);
            assert(v.parts().skip(0) =~= v.parts());
        },
        SpecType::Tuple(items) => {
            lemma_round_trip_all(items, v.parts(), 0, order, host, ctx, rest);
            assert(v.parts().skip(0) =~= v.parts());
        },
        SpecType::Sequence(_, _) => {
            lemma_round_trip_sequence(t, v, order, host, ctx, rest);
        },
        SpecType::Skipped(_) => {
            assert(bytes + rest =~= rest);
        },
        SpecType::ContextMarker => {
            assert(bytes + rest =~= rest);
        },
    }
}

/// Round trip for a sequence: the prefix gives the length back, then the items are read.
proof fn lemma_round_trip_sequence(
    t: SpecType,
    v: SpecValue,
    order: ByteOrder,
    host: ByteOrder,
    ctx: SpecValue,
    rest: Seq<u8>,
)
    requires
        t is Sequence,
        valid_type(t),
        representable(t, v, ctx),
    ensures
        decoding_of_type(t, encoding_of_type(t, v, order, host) + rest, order, host, ctx) == Ok::<
            (SpecValue, nat),
            Error,
        >((v, encoding_of_type(t, v, order, host).len())),
    decreases t, 0nat,
{
    lemma_def_encoding_of_type(t, v, order, host);
    lemma_def_decoding_of_type(t, encoding_of_type(t, v, order, host) + rest, order, host, ctx);
    let bytes = encoding_of_type(t, v, order, host);
    let item = *t->Sequence_0;
    let prefix = t->Sequence_1;
    let kind = prefix.size_type;
    let width = kind.width();
    let length = sequence_length(item, prefix, v.parts());
    let head = bytes_of(length, width, order);
    let body = encoding_of_each(item, v.parts(), 0, order, host);
    let written = Scalar::spec_from_int(kind, length as int);
    assert(v == SpecValue::List(v.parts()));
    assert(bytes == head + body);
    lemma_from_int(kind, length as int);
    lemma_bytes_of_len(length, width, order);
    lemma_bytes_of_count(kind, length, order);
    lemma_scalar_roundtrip(written, order, body + rest);
    assert(bytes + rest =~= head + (body + rest));
    assert((head + (body + rest)).skip(width as int) =~= body + rest);
    assert(decode_scalar(kind, bytes + rest, order) == Some(written));
    assert(written.as_int() == length);
    assert(v.parts().skip(0) =~= v.parts());
    if prefix.byte_sized {
        lemma_round_trip_budget(item, v.parts(), 0, order, host, ctx, rest);
        assert(decoding_of_type(t, bytes + rest, order, host, ctx) == as_list(
            decoding_of_budget(item, body + rest, length, order, host, ctx),
            width,
        ));
    } else {
        lemma_round_trip_count(item, v.parts(), 0, order, host, ctx, rest);
        assert(decoding_of_type(t, bytes + rest, order, host, ctx) == as_list(
            decoding_of_count(item, body + rest, length, order, host, ctx),
            width,
        ));
    }
}

/// Round trip for a described type.
pub proof fn lemma_round_trip_schema(
    s: SpecSchema,
    v: SpecValue,
    order: ByteOrder,
    host: ByteOrder,
    ctx: SpecValue,
    rest: Seq<u8>,
)
    requires
        valid_schema(s),
        representable_schema(s, v, ctx),
    ensures
        decoding_of_schema(s, encoding_of_schema(s, v, order, host) + rest, order, host, ctx)
            == Ok::<(SpecValue, nat), Error>((v, encoding_of_schema(s, v, order, host).len())),
    decreases s, 1nat,
{
    match s {
        SpecSchema::Record { .. } => {
            lemma_round_trip_record(s, v, order, host, ctx, rest);
        },
        SpecSchema::Sum { tag_type, variants, .. } => {
            assert(valid_variant(variants[v->Variant_0 as int], tag_type));
            lemma_round_trip_sum(s, v, order, host, ctx, rest);
        },
    }
}

/// The magic constant is found again in front of whatever follows it.
pub proof fn lemma_magic_round_trip(magic: Option<Scalar>, order: ByteOrder, rest: Seq<u8>)
    ensures
        magic_check(magic, magic_bytes(magic, order) + rest, order) == Ok::<nat, Error>(
            magic_bytes(magic, order).len(),
        ),
{
    reveal(magic_bytes);
    reveal(magic_check);
    match magic {
        Some(m) => {
            lemma_scalar_roundtrip(m, order, rest);
            lemma_encode_scalar_len(m, order);
        },
        None => {},
    }
}

/// Round trip for a record: the magic constant is found again, then the fields.
proof fn lemma_round_trip_record(
    s: SpecSchema,
    v: SpecValue,
    order: ByteOrder,
    host: ByteOrder,
    ctx: SpecValue,
    rest: Seq<u8>,
)
    requires
        s is Record,
        valid_schema(s),
        representable_schema(s, v, ctx),
    ensures
        decoding_of_schema(s, encoding_of_schema(s, v, order, host) + rest, order, host, ctx)
            == Ok::<(SpecValue, nat), Error>((v, encoding_of_schema(s, v, order, host).len())),
    decreases s, 0nat,
{
    lemma_def_encoding_of_schema(s, v, order, host);
    lemma_def_decoding_of_schema(s, encoding_of_schema(s, v, order, host) + rest, order, host, ctx);
    let bytes = encoding_of_schema(s, v, order, host);
    let fields = s->Record_fields;
    let inner = spec_effective_order(s->Record_endianness, order, host);
    let head = magic_bytes(s->Record_magic, inner);
    let body = encoding_of_all(fields, v.parts(), 0, inner, host);
    assert(v == SpecValue::List(v.parts()));
    assert(bytes == head + body);
    lemma_magic_round_trip(s->Record_magic, inner, body + rest);
    lemma_round_trip_all(fields, v.parts(), 0, inner, host, ctx, rest);
    assert(v.parts().skip(0) =~= v.parts());
    assert(bytes + rest =~= head + (body + rest));
    assert((head + (body + rest)).skip(head.len() as int) =~= body + rest);
    assert(decoding_of_schema(s, bytes + rest, order, host, ctx) == as_list(
        decoding_of_all(fields, body + rest, 0, inner, host, ctx),
        head.len(),
    ));
}

/// Round trip for a sum: the discriminant on the wire selects the variant
/// again, and the payload is read back.
proof fn lemma_round_trip_sum(
    s: SpecSchema,
    v: SpecValue,
    order: ByteOrder,
    host: ByteOrder,
    ctx: SpecValue,
    rest: Seq<u8>,
)
    requires
        s is Sum,
        v is Variant,
        v->Variant_0 < s->Sum_variants.len(),
        valid_variant(s->Sum_variants[v->Variant_0 as int], s->Sum_tag_type),
        representable_all(s->Sum_variants[v->Variant_0 as int].fields, v->Variant_1, ctx),
        wire_tag(s->Sum_variants[v->Variant_0 as int], v->Variant_1) is Some,
        select_variant(
            s->Sum_variants,
            wire_tag(s->Sum_variants[v->Variant_0 as int], v->Variant_1)->Some_0,
            0,
        ) == Some(v->Variant_0),
    ensures
        decoding_of_schema(s, encoding_of_schema(s, v, order, host) + rest, order, host, ctx)
            == Ok::<(SpecValue, nat), Error>((v, encoding_of_schema(s, v, order, host).len())),
    decreases s, 0nat,
{
    lemma_def_encoding_of_schema(s, v, order, host);
    lemma_def_decoding_of_schema(s, encoding_of_schema(s, v, order, host) + rest, order, host, ctx);
    let bytes = encoding_of_schema(s, v, order, host);
    let tag_type = s->Sum_tag_type;
    let variants = s->Sum_variants;
    let inner = spec_effective_order(s->Sum_endianness, order, host);
    let index = v->Variant_0;
    let parts = v->Variant_1;
    let variant = variants[index as int];
    let width = tag_type.width();
    let payload = encoding_of_all(variant.fields, parts, 0, inner, host);
    assert(v == SpecValue::Variant(index, parts));
    assert(bytes == tag_bytes(variant.mode, tag_type, inner) + payload);
    let written = lemma_wire_tag(variant, tag_type, parts, inner, host, ctx);
    let from = first_read(variant);
    let head = encode_scalar(written, inner);
    let body = encoding_of_all(variant.fields, parts, from, inner, host);
    assert(bytes == head + body);
    lemma_encode_scalar_len(written, inner);
    lemma_tag_round_trip(tag_type, variants, written, index, inner, body + rest);
    assert(bytes + rest =~= head + (body + rest));
    assert((head + (body + rest)).skip(width as int) =~= body + rest);
    lemma_round_trip_payload(variant, index, tag_type, parts, written, inner, host, ctx, rest);
    assert(decoding_of_schema(s, bytes + rest, order, host, ctx) == decoding_of_payload(
        variant,
        index,
        written,
        body + rest,
        inner,
        host,
        ctx,
    ));
}

/// A discriminant is read back from its own bytes and selects what it selects.
pub proof fn lemma_tag_round_trip(
    tag_type: Primitive,
    variants: Seq<SpecVariant>,
    written: Scalar,
    index: nat,
    order: ByteOrder,
    rest: Seq<u8>,
)
    requires
        written.spec_kind() == tag_type,
        index < variants.len(),
        select_variant(variants, written.as_int(), 0) == Some(index),
    ensures
        tag_check(tag_type, variants, encode_scalar(written, order) + rest, order) == Ok::<
            (nat, Scalar),
            Error,
        >((index, written)),
{
    reveal(tag_check);
    lemma_scalar_roundtrip(written, order, rest);
}

/// The first field of a variant's payload that is read from bytes of its
/// own: the second where the first is the discriminant.
pub open spec fn first_read(variant: SpecVariant) -> nat {
    if variant.mode is Keep && variant.fields.len() > 0 {
        1
    } else {
        0
    }
}

/// The discriminant that stands on the wire for a representable variant: a
/// scalar of the discriminant's type whose bytes open the variant's encoding.
proof fn lemma_wire_tag(
    variant: SpecVariant,
    tag_type: Primitive,
    parts: Seq<SpecValue>,
    order: ByteOrder,
    host: ByteOrder,
    ctx: SpecValue,
) -> (written: Scalar)
    requires
        valid_variant(variant, tag_type),
        representable_all(variant.fields, parts, ctx),
        wire_tag(variant, parts) is Some,
    ensures
        written.spec_kind() == tag_type,
        wire_tag(variant, parts) == Some(written.as_int()),
        variant.mode is Keep ==> parts.len() > 0 && parts[0] == SpecValue::Scalar(written),
        tag_bytes(variant.mode, tag_type, order) + encoding_of_all(
            variant.fields,
            parts,
            0,
            order,
            host,
        ) == encode_scalar(written, order) + encoding_of_all(
            variant.fields,
            parts,
            first_read(variant),
            order,
            host,
        ),
{
    lemma_def_encoding_of_all(variant.fields, parts, 0, order, host);
    if variant.fields.len() > 0 {
        lemma_def_encoding_of_type(variant.fields[0], parts[0], order, host);
    }
    reveal(tag_bytes);
    match variant.mode {
        TagMode::Emit(tag) => {
            lemma_from_int(tag_type, tag as int);
            Scalar::spec_from_int(tag_type, tag as int)
        },
        TagMode::Keep => {
            assert(variant.fields.len() > 0);
            assert(variant.fields[0] == SpecType::Primitive(tag_type));
            assert(representable(variant.fields[0], parts[0], ctx));
            let kept = parts[0]->Scalar_0;
            assert(parts[0] == SpecValue::Scalar(kept));
            let tail = encoding_of_all(variant.fields, parts, 1, order, host);
            assert(encoding_of_type(variant.fields[0], parts[0], order, host) == encode_scalar(
                kept,
                order,
            ));
            assert(encoding_of_all(variant.fields, parts, 0, order, host) == encode_scalar(
                kept,
                order,
            ) + tail);
            assert(Seq::<u8>::empty() + (encode_scalar(kept, order) + tail) =~= encode_scalar(
                kept,
                order,
            ) + tail);
            kept
        },
        _ => Scalar::Bool(false),
    }
}

/// Round trip for the payload of a variant, behind its discriminant.
proof fn lemma_round_trip_payload(
    variant: SpecVariant,
    index: nat,
    tag_type: Primitive,
    parts: Seq<SpecValue>,
    written: Scalar,
    order: ByteOrder,
    host: ByteOrder,
    ctx: SpecValue,
    rest: Seq<u8>,
)
    requires
        valid_variant(variant, tag_type),
        representable_all(variant.fields, parts, ctx),
        written.spec_kind() == tag_type,
        variant.mode is Keep ==> parts.len() > 0 && parts[0] == SpecValue::Scalar(written),
    ensures
        decoding_of_payload(
            variant,
            index,
            written,
            encoding_of_all(variant.fields, parts, first_read(variant), order, host) + rest,
            order,
            host,
            ctx,
        ) == Ok::<(SpecValue, nat), Error>(
            (
                SpecValue::Variant(index, parts),
                tag_type.width() + encoding_of_all(
                    variant.fields,
                    parts,
                    first_read(variant),
                    order,
                    host,
                ).len(),
            ),
        ),
    decreases variant, 0nat,
{
    lemma_def_decoding_of_payload(
        variant,
        index,
        written,
        encoding_of_all(variant.fields, parts, first_read(variant), order, host) + rest,
        order,
        host,
        ctx,
    );
    let from = first_read(variant);
    lemma_round_trip_all(variant.fields, parts, from, order, host, ctx, rest);
    if from == 1 {
        assert(seq![SpecValue::Scalar(written)] + parts.skip(1) =~= parts);
    } else {
        assert(parts.skip(0) =~= parts);
    }
}

/// Round trip for values of given types, one after the other.
pub proof fn lemma_round_trip_all(
    ts: Seq<SpecType>,
    vs: Seq<SpecValue>,
    from: nat,
    order: ByteOrder,
    host: ByteOrder,
    ctx: SpecValue,
    rest: Seq<u8>,
)
    requires
        forall|i: int| 0 <= i < ts.len() ==> valid_type(#[trigger] ts[i]),
        representable_all(ts, vs, ctx),
        from <= ts.len(),
    ensures
        decoding_of_all(ts, encoding_of_all(ts, vs, from, order, host) + rest, from, order, host, ctx)
            == Ok::<(Seq<SpecValue>, nat), Error>(
            (vs.skip(from as int), encoding_of_all(ts, vs, from, order, host).len()),
        ),
    decreases ts, ts.len() - from,
{
    lemma_def_encoding_of_all(ts, vs, from, order, host);
    lemma_def_decoding_of_all(
        ts,
        encoding_of_all(ts, vs, from, order, host) + rest,
        from,
        order,
        host,
        ctx,
    );
    let bytes = encoding_of_all(ts, vs, from, order, host);
    if from < ts.len() {
        let head = encoding_of_type(ts[from as int], vs[from as int], order, host);
        let tail = encoding_of_all(ts, vs, from + 1, order, host);
        lemma_round_trip_type(ts[from as int], vs[from as int], order, host, ctx, tail + rest);
        lemma_round_trip_all(ts, vs, from + 1, order, host, ctx, rest);
        assert(bytes + rest =~= head + (tail + rest));
        assert((bytes + rest).skip(head.len() as int) =~= tail + rest);
        assert(seq![vs[from as int]] + vs.skip(from as int + 1) =~= vs.skip(from as int));
    } else {
        assert(bytes + rest =~= rest);
        assert(vs.skip(from as int) =~= Seq::<SpecValue>::empty());
    }
}

/// Round trip for counted values of one type, one after the other.
pub proof fn lemma_round_trip_count(
    t: SpecType,
    vs: Seq<SpecValue>,
    from: nat,
    order: ByteOrder,
    host: ByteOrder,
    ctx: SpecValue,
    rest: Seq<u8>,
)
    requires
        valid_type(t),
        forall|i: int| 0 <= i < vs.len() ==> representable(t, #[trigger] vs[i], ctx),
        from <= vs.len(),
    ensures
        decoding_of_count(
            t,
            encoding_of_each(t, vs, from, order, host) + rest,
            (vs.len() - from) as nat,
            order,
            host,
            ctx,
        ) == Ok::<(Seq<SpecValue>, nat), Error>(
            (vs.skip(from as int), encoding_of_each(t, vs, from, order, host).len()),
        ),
    decreases t, vs.len() - from + 2,
{
    lemma_def_encoding_of_each(t, vs, from, order, host);
    lemma_def_decoding_of_count(
        t,
        encoding_of_each(t, vs, from, order, host) + rest,
        (vs.len() - from) as nat,
        order,
        host,
        ctx,
    );
    let bytes = encoding_of_each(t, vs, from, order, host);
    if from < vs.len() {
        let head = encoding_of_type(t, vs[from as int], order, host);
        let tail = encoding_of_each(t, vs, from + 1, order, host);
        lemma_round_trip_type(t, vs[from as int], order, host, ctx, tail + rest);
        lemma_round_trip_count(t, vs, from + 1, order, host, ctx, rest);
        assert(bytes + rest =~= head + (tail + rest));
        assert((bytes + rest).skip(head.len() as int) =~= tail + rest);
        assert(seq![vs[from as int]] + vs.skip(from as int + 1) =~= vs.skip(from as int));
    } else {
        assert(bytes + rest =~= rest);
        assert(vs.skip(from as int) =~= Seq::<SpecValue>::empty());
    }
}

/// Round trip for values of one type that are counted in bytes, none of them empty.
pub proof fn lemma_round_trip_budget(
    t: SpecType,
    vs: Seq<SpecValue>,
    from: nat,
    order: ByteOrder,
    host: ByteOrder,
    ctx: SpecValue,
    rest: Seq<u8>,
)
    requires
        valid_type(t),
        forall|i: int| 0 <= i < vs.len() ==> representable(t, #[trigger] vs[i], ctx),
        forall|i: int| 0 <= i < vs.len() ==> size_of_type(t, #[trigger] vs[i]) > 0,
        from <= vs.len(),
    ensures
        decoding_of_budget(
            t,
            encoding_of_each(t, vs, from, order, host) + rest,
            size_of_each(t, vs, from),
            order,
            host,
            ctx,
        ) == Ok::<(Seq<SpecValue>, nat), Error>(
            (vs.skip(from as int), encoding_of_each(t, vs, from, order, host).len()),
        ),
    decreases t, vs.len() - from + 2,
{
    lemma_def_encoding_of_each(t, vs, from, order, host);
    lemma_def_size_of_each(t, vs, from);
    lemma_def_decoding_of_budget(
        t,
        encoding_of_each(t, vs, from, order, host) + rest,
        size_of_each(t, vs, from),
        order,
        host,
        ctx,
    );
    let bytes = encoding_of_each(t, vs, from, order, host);
    if from < vs.len() {
        let head = encoding_of_type(t, vs[from as int], order, host);
        let tail = encoding_of_each(t, vs, from + 1, order, host);
        lemma_representable_type(t, vs[from as int], ctx);
        lemma_size_of_type(t, vs[from as int], order, host);
        lemma_round_trip_type(t, vs[from as int], order, host, ctx, tail + rest);
        lemma_round_trip_budget(t, vs, from + 1, order, host, ctx, rest);
        assert(bytes + rest =~= head + (tail + rest));
        assert((bytes + rest).skip(head.len() as int) =~= tail + rest);
        assert(seq![vs[from as int]] + vs.skip(from as int + 1) =~= vs.skip(from as int));
    } else {
        assert(bytes + rest =~= rest);
        assert(vs.skip(from as int) =~= Seq::<SpecValue>::empty());
    }
}

/// Sequence accounting: the prefix of a sequence that is counted in bytes
/// holds the sum of the encoded sizes of its items; the encoding is that many
/// bytes behind the prefix; and decoding it takes exactly those bytes and
/// gives all the items back.
pub proof fn lemma_sequence_accounting(
    item: SpecType,
    prefix: SizePrefix,
    items: Seq<SpecValue>,
    order: ByteOrder,
    host: ByteOrder,
    ctx: SpecValue,
    rest: Seq<u8>,
)
    requires
        prefix.byte_sized,
        valid_type(SpecType::Sequence(Box::new(item), prefix)),
        representable(SpecType::Sequence(Box::new(item), prefix), SpecValue::List(items), ctx),
    ensures
        ({
            let t = SpecType::Sequence(Box::new(item), prefix);
            let bytes = encoding_of_type(t, SpecValue::List(items), order, host);
            let sum = size_of_each(item, items, 0);
            let width = prefix.size_type.width();
            &&& decode_scalar(prefix.size_type, bytes + rest, order) matches Some(length)
                && length.as_int() == sum
            &&& bytes.len() == width + sum
            &&& bytes.skip(width as int) == encoding_of_each(item, items, 0, order, host)
            &&& decoding_of_type(t, bytes + rest, order, host, ctx) == Ok::<
                (SpecValue, nat),
                Error,
            >((SpecValue::List(items), width + sum))
        }),
{
    let t = SpecType::Sequence(Box::new(item), prefix);
    let v = SpecValue::List(items);
    let bytes = encoding_of_type(t, v, order, host);
    let sum = size_of_each(item, items, 0);
    let width = prefix.size_type.width();
    let head = bytes_of(sum, width, order);
    let body = encoding_of_each(item, items, 0, order, host);
    let written = Scalar::spec_from_int(prefix.size_type, sum as int);
    lemma_def_encoding_of_type(t, v, order, host);
    lemma_def_size_of_type(t, v);
    lemma_round_trip_type(t, v, order, host, ctx, rest);
    lemma_representable_type(t, v, ctx);
    lemma_size_of_type(t, v, order, host);
    lemma_from_int(prefix.size_type, sum as int);
    lemma_bytes_of_len(sum, width, order);
    lemma_bytes_of_count(prefix.size_type, sum, order);
    lemma_scalar_roundtrip(written, order, body + rest);
    assert(bytes + rest =~= head + (body + rest));
    assert(bytes.skip(width as int) =~= body);
}

/// Discriminant selection: the variant that a discriminant selects is the
/// first, in declaration order, that travels and either holds the discriminant
/// in one of its ranges or is the default; no variant is selected exactly when
/// there is no such variant.
pub proof fn lemma_first_match_wins(variants: Seq<SpecVariant>, tag: int, from: nat)
    ensures
        match select_variant(variants, tag, from) {
            Some(index) => {
                &&& from <= index < variants.len()
                &&& selects(variants[index as int], tag)
                &&& forall|j: int| from <= j < index ==> !selects(#[trigger] variants[j], tag)
            },
            None => forall|j: int| from <= j < variants.len() ==> !selects(#[trigger] variants[j], tag),
        },
    decreases variants.len() - from,
{
    lemma_def_select_variant(variants, tag, from);
    if from < variants.len() && !selects(variants[from as int], tag) {
        lemma_first_match_wins(variants, tag, from + 1);
    }
}

/// Keep-tag, writing: a variant whose first field is the discriminant is
/// written as its payload alone, with nothing in front of it.
pub proof fn lemma_kept_tag_written_once(s: SpecSchema, v: SpecValue, order: ByteOrder, host: ByteOrder)
    requires
        s is Sum,
        v is Variant,
        v->Variant_0 < s->Sum_variants.len(),
        s->Sum_variants[v->Variant_0 as int].mode is Keep,
    ensures
        encoding_of_schema(s, v, order, host) == encoding_of_all(
            s->Sum_variants[v->Variant_0 as int].fields,
            v->Variant_1,
            0,
            spec_effective_order(s->Sum_endianness, order, host),
            host,
        ),
        size_of_schema(s, v) == size_of_all(
            s->Sum_variants[v->Variant_0 as int].fields,
            v->Variant_1,
            0,
        ),
{
    let inner = spec_effective_order(s->Sum_endianness, order, host);
    let payload = encoding_of_all(
        s->Sum_variants[v->Variant_0 as int].fields,
        v->Variant_1,
        0,
        inner,
        host,
    );
    lemma_def_encoding_of_schema(s, v, order, host);
    lemma_def_size_of_schema(s, v);
    reveal(tag_bytes);
    assert(Seq::<u8>::empty() + payload =~= payload);
}

/// Keep-tag, reading: where decoding gives a variant whose first field is the
/// discriminant, that field is exactly the discriminant that was read, and
/// the fields behind it start right behind the discriminant.
pub proof fn lemma_kept_tag_read_back(
    s: SpecSchema,
    bytes: Seq<u8>,
    order: ByteOrder,
    host: ByteOrder,
    ctx: SpecValue,
)
    requires
        s is Sum,
        decoding_of_schema(s, bytes, order, host, ctx) is Ok,
    ensures
        ({
            let inner = spec_effective_order(s->Sum_endianness, order, host);
            let (v, n) = decoding_of_schema(s, bytes, order, host, ctx)->Ok_0;
            &&& decode_scalar(s->Sum_tag_type, bytes, inner) matches Some(tag)
            &&& v matches SpecValue::Variant(index, parts)
            &&& select_variant(s->Sum_variants, tag.as_int(), 0) == Some(index)
            &&& index < s->Sum_variants.len()
            &&& s->Sum_variants[index as int].mode is Keep && s->Sum_variants[index as int].fields.len()
                > 0 ==> parts.len() > 0 && parts[0] == SpecValue::Scalar(tag)
        }),
{
    let inner = spec_effective_order(s->Sum_endianness, order, host);
    lemma_def_decoding_of_schema(s, bytes, order, host, ctx);
    reveal(tag_check);
    let tag = decode_scalar(s->Sum_tag_type, bytes, inner)->Some_0;
    let index = select_variant(s->Sum_variants, tag.as_int(), 0)->Some_0;
    lemma_def_decoding_of_payload(
        s->Sum_variants[index as int],
        index,
        tag,
        bytes.skip(s->Sum_tag_type.width() as int),
        inner,
        host,
        ctx,
    );
}

/// Magic mismatch: where the value read at the place of the magic constant
/// is not the constant, decoding fails with a bad magic, whatever follows.
pub proof fn lemma_magic_mismatch(
    s: SpecSchema,
    bytes: Seq<u8>,
    order: ByteOrder,
    host: ByteOrder,
    ctx: SpecValue,
)
    requires
        s matches SpecSchema::Record { endianness, magic: Some(m), .. } && decode_scalar(
            m.spec_kind(),
            bytes,
            spec_effective_order(endianness, order, host),
        ) matches Some(found) && found != m,
    ensures
        decoding_of_schema(s, bytes, order, host, ctx) == Err::<(SpecValue, nat), Error>(
            Error::BadMagic,
        ),
{
    lemma_def_decoding_of_schema(s, bytes, order, host, ctx);
    reveal(magic_check);
}

/// Magic mismatch, in bytes: where the input is long enough and its first
/// bytes are not the bytes of the magic constant, decoding fails with a bad
/// magic.  A constant of type `bool` is left out: any byte but 0 reads as `true`.
pub proof fn lemma_magic_bytes_mismatch(
    s: SpecSchema,
    bytes: Seq<u8>,
    order: ByteOrder,
    host: ByteOrder,
    ctx: SpecValue,
)
    requires
        s matches SpecSchema::Record { endianness, magic: Some(m), .. } && !(m.spec_kind() is Bool)
            && bytes.len() >= m.spec_kind().width() && bytes.take(m.spec_kind().width() as int)
            != encode_scalar(m, spec_effective_order(endianness, order, host)),
    ensures
        decoding_of_schema(s, bytes, order, host, ctx) == Err::<(SpecValue, nat), Error>(
            Error::BadMagic,
        ),
{
    let m = s->Record_magic->Some_0;
    let inner = spec_effective_order(s->Record_endianness, order, host);
    assert(decode_scalar(m.spec_kind(), bytes, inner) is Some) by {
        reveal(decode_scalar);
    }
    let found = decode_scalar(m.spec_kind(), bytes, inner)->Some_0;
    if found == m {
        lemma_scalar_bytes_unique(m.spec_kind(), bytes, inner, m);
    }
    lemma_magic_mismatch(s, bytes, order, host, ctx);
}

/// Decoding takes what the size says: a value that decoding gives has the
/// shape of its type, the bytes taken are as many as its encoded size, and
/// they were there to take.
pub proof fn lemma_decoded_type(
    t: SpecType,
    bytes: Seq<u8>,
    order: ByteOrder,
    host: ByteOrder,
    ctx: SpecValue,
)
    requires
        valid_type(t),
        decoding_of_type(t, bytes, order, host, ctx) is Ok,
    ensures
        ({
            let (v, n) = decoding_of_type(t, bytes, order, host, ctx)->Ok_0;
            well_typed(t, v) && n == size_of_type(t, v) && n <= bytes.len()
        }),
    decreases t, 0nat,
{
    let (v, n) = decoding_of_type(t, bytes, order, host, ctx)->Ok_0;
    lemma_def_decoding_of_type(t, bytes, order, host, ctx);
    lemma_def_size_of_type(t, v);
    match t {
        SpecType::Primitive(kind) => {
            lemma_decoded_scalar(kind, bytes, order);
        },
        SpecType::Composite(schema) => {
            lemma_decoded_schema(*schema, bytes, order, host, ctx);
        },
        SpecType::FixedArray(item, count) => {
            lemma_decoded_count(*item, bytes, count, order, host, ctx, Seq::empty());
            assert(Seq::<SpecValue>::empty() + v.parts() =~= v.parts());
        },
        SpecType::Tuple(items) => {
            lemma_decoded_all(items, bytes, 0, order, host, ctx, Seq::empty());
            assert(Seq::<SpecValue>::empty() + v.parts() =~= v.parts());
            assert forall|i: int| 0 <= i < items.len() implies well_typed(
                #[trigger] items[i],
                v.parts()[i],
            ) by {
                assert(well_typed(items[0 + i], v.parts()[i]));
            }
            assert(well_typed_all(items, v.parts()));
            assert(v is List);
        },
        SpecType::Sequence(item, prefix) => {
            let width = prefix.size_type.width();
            lemma_decoded_scalar(prefix.size_type, bytes, order);
            let length = decode_scalar(prefix.size_type, bytes, order)->Some_0;
            if prefix.byte_sized {
                lemma_decoded_budget(
                    *item,
                    bytes.skip(width as int),
                    length.as_int() as nat,
                    order,
                    host,
                    ctx,
                    Seq::empty(),
                );
            } else {
                lemma_decoded_count(
                    *item,
                    bytes.skip(width as int),
                    length.as_int() as nat,
                    order,
                    host,
                    ctx,
                    Seq::empty(),
                );
            }
            assert(Seq::<SpecValue>::empty() + v.parts() =~= v.parts());
        },
        SpecType::Skipped(_) => {},
        SpecType::ContextMarker => {},
    }
}

/// A scalar that is read takes the bytes of its type, which were there, and has that type.
pub proof fn lemma_decoded_scalar(kind: Primitive, bytes: Seq<u8>, order: ByteOrder)
    requires
        decode_scalar(kind, bytes, order) is Some,
    ensures
        decode_scalar(kind, bytes, order)->Some_0.spec_kind() == kind,
        kind.width() <= bytes.len(),
{
    reveal(decode_scalar);
}

/// A value of a described type that decoding gives has the shape of the
/// type and takes as many bytes as its size says.
pub proof fn lemma_decoded_schema(
    s: SpecSchema,
    bytes: Seq<u8>,
    order: ByteOrder,
    host: ByteOrder,
    ctx: SpecValue,
)
    requires
        valid_schema(s),
        decoding_of_schema(s, bytes, order, host, ctx) is Ok,
    ensures
        ({
            let (v, n) = decoding_of_schema(s, bytes, order, host, ctx)->Ok_0;
            well_typed_schema(s, v) && n == size_of_schema(s, v) && n <= bytes.len()
        }),
    decreases s, 1nat,
{
    let (v, n) = decoding_of_schema(s, bytes, order, host, ctx)->Ok_0;
    lemma_def_decoding_of_schema(s, bytes, order, host, ctx);
    lemma_def_size_of_schema(s, v);
    match s {
        SpecSchema::Record { endianness, magic, fields } => {
            let inner = spec_effective_order(endianness, order, host);
            reveal(magic_check);
            let width = magic_width(magic);
            if let Some(m) = magic {
                lemma_decoded_scalar(m.spec_kind(), bytes, inner);
            }
            lemma_decoded_all(fields, bytes.skip(width as int), 0, inner, host, ctx, Seq::empty());
            assert(Seq::<SpecValue>::empty() + v.parts() =~= v.parts());
            assert forall|i: int| 0 <= i < fields.len() implies well_typed(
                #[trigger] fields[i],
                v.parts()[i],
            ) by {
                assert(well_typed(fields[0 + i], v.parts()[i]));
            }
        },
        SpecSchema::Sum { endianness, tag_type, variants } => {
            let inner = spec_effective_order(endianness, order, host);
            reveal(tag_check);
            lemma_decoded_scalar(tag_type, bytes, inner);
            let tag = decode_scalar(tag_type, bytes, inner)->Some_0;
            let index = select_variant(variants, tag.as_int(), 0)->Some_0;
            assert(valid_variant(variants[index as int], tag_type));
            lemma_decoded_payload(
                variants[index as int],
                index,
                tag,
                bytes.skip(tag_type.width() as int),
                inner,
                host,
                ctx,
            );
            if variants[index as int].mode is Keep {
                lemma_def_size_of_all(variants[index as int].fields, v.parts(), 0);
                lemma_def_size_of_type(variants[index as int].fields[0], v.parts()[0]);
            }
        },
    }
}

/// The payload of a selected variant that decoding gives has the shape of
/// the variant's fields and takes, with the discriminant, as many bytes as
/// the size of the variant says.
pub proof fn lemma_decoded_payload(
    variant: SpecVariant,
    index: nat,
    tag: Scalar,
    bytes: Seq<u8>,
    order: ByteOrder,
    host: ByteOrder,
    ctx: SpecValue,
)
    requires
        valid_variant(variant, tag.spec_kind()),
        decoding_of_payload(variant, index, tag, bytes, order, host, ctx) is Ok,
    ensures
        ({
            let (v, n) = decoding_of_payload(variant, index, tag, bytes, order, host, ctx)->Ok_0;
            &&& v matches SpecValue::Variant(i, parts)
            &&& i == index
            &&& well_typed_all(variant.fields, parts)
            &&& n == tag.spec_kind().width() + size_of_all(
                variant.fields,
                parts,
                first_read(variant),
            )
            &&& n <= tag.spec_kind().width() + bytes.len()
        }),
    decreases variant, 0nat,
{
    let (v, n) = decoding_of_payload(variant, index, tag, bytes, order, host, ctx)->Ok_0;
    let parts = v->Variant_1;
    lemma_def_decoding_of_payload(variant, index, tag, bytes, order, host, ctx);
    if variant.mode is Keep && variant.fields.len() > 0 {
        let first = seq![SpecValue::Scalar(tag)];
        let read = decoding_of_all(variant.fields, bytes, 1, order, host, ctx)->Ok_0.0;
        lemma_decoded_all(variant.fields, bytes, 1, order, host, ctx, first);
        assert forall|i: int| 0 <= i < variant.fields.len() implies well_typed(
            #[trigger] variant.fields[i],
            parts[i],
        ) by {
            if i > 0 {
                assert(parts[i] == read[i - 1]);
            }
        }
    } else {
        lemma_decoded_all(variant.fields, bytes, 0, order, host, ctx, Seq::empty());
        assert(Seq::<SpecValue>::empty() + parts =~= parts);
        assert forall|i: int| 0 <= i < variant.fields.len() implies well_typed(
            #[trigger] variant.fields[i],
            parts[i],
        ) by {
            assert(well_typed(variant.fields[0 + i], parts[i]));
        }
    }
}

/// Values of given types that decoding gives have the shapes of their
/// types and take as many bytes as their sizes add up to, whatever values
/// stand before them in the run.
pub proof fn lemma_decoded_all(
    ts: Seq<SpecType>,
    bytes: Seq<u8>,
    from: nat,
    order: ByteOrder,
    host: ByteOrder,
    ctx: SpecValue,
    before: Seq<SpecValue>,
)
    requires
        forall|i: int| 0 <= i < ts.len() ==> valid_type(#[trigger] ts[i]),
        from <= ts.len(),
        before.len() == from,
        decoding_of_all(ts, bytes, from, order, host, ctx) is Ok,
    ensures
        ({
            let (vs, n) = decoding_of_all(ts, bytes, from, order, host, ctx)->Ok_0;
            &&& vs.len() == ts.len() - from
            &&& forall|i: int| 0 <= i < vs.len() ==> well_typed(ts[from + i], #[trigger] vs[i])
            &&& n == size_of_all(ts, before + vs, from)
            &&& n <= bytes.len()
        }),
    decreases ts, ts.len() - from,
{
    let (vs, total) = decoding_of_all(ts, bytes, from, order, host, ctx)->Ok_0;
    lemma_def_decoding_of_all(ts, bytes, from, order, host, ctx);
    lemma_def_size_of_all(ts, before + vs, from);
    if from < ts.len() {
        lemma_decoded_type(ts[from as int], bytes, order, host, ctx);
        let (v, n) = decoding_of_type(ts[from as int], bytes, order, host, ctx)->Ok_0;
        lemma_decoded_all(ts, bytes.skip(n as int), from + 1, order, host, ctx, before.push(v));
        let (rest, m) = decoding_of_all(ts, bytes.skip(n as int), from + 1, order, host, ctx)->Ok_0;
        assert(vs == seq![v] + rest);
        assert(before.push(v) + rest =~= before + vs);
        assert forall|i: int| 0 <= i < vs.len() implies well_typed(ts[from + i], #[trigger] vs[i]) by {
            if i > 0 {
                assert(vs[i] == rest[i - 1]);
            }
        }
    }
}

/// Counted values of one type that decoding gives have the shape of the
/// type and take as many bytes as their sizes add up to.
pub proof fn lemma_decoded_count(
    t: SpecType,
    bytes: Seq<u8>,
    count: nat,
    order: ByteOrder,
    host: ByteOrder,
    ctx: SpecValue,
    before: Seq<SpecValue>,
)
    requires
        valid_type(t),
        decoding_of_count(t, bytes, count, order, host, ctx) is Ok,
    ensures
        ({
            let (vs, n) = decoding_of_count(t, bytes, count, order, host, ctx)->Ok_0;
            &&& vs.len() == count
            &&& forall|i: int| 0 <= i < vs.len() ==> well_typed(t, #[trigger] vs[i])
            &&& n == size_of_each(t, before + vs, before.len())
            &&& n <= bytes.len()
        }),
    decreases t, count + 1,
{
    let (vs, total) = decoding_of_count(t, bytes, count, order, host, ctx)->Ok_0;
    lemma_def_decoding_of_count(t, bytes, count, order, host, ctx);
    lemma_def_size_of_each(t, before + vs, before.len());
    if count > 0 {
        lemma_decoded_type(t, bytes, order, host, ctx);
        let (v, n) = decoding_of_type(t, bytes, order, host, ctx)->Ok_0;
        lemma_decoded_count(
            t,
            bytes.skip(n as int),
            (count - 1) as nat,
            order,
            host,
            ctx,
            before.push(v),
        );
        let (rest, m) = decoding_of_count(
            t,
            bytes.skip(n as int),
            (count - 1) as nat,
            order,
            host,
            ctx,
        )->Ok_0;
        assert(vs == seq![v] + rest);
        assert(before.push(v) + rest =~= before + vs);
        assert forall|i: int| 0 <= i < vs.len() implies well_typed(t, #[trigger] vs[i]) by {
            if i > 0 {
                assert(vs[i] == rest[i - 1]);
            }
        }
    }
}

/// Values of one type that decoding gives within a budget of bytes have the
/// shape of the type and take exactly the budget, which is what their sizes add up to.
pub proof fn lemma_decoded_budget(
    t: SpecType,
    bytes: Seq<u8>,
    budget: nat,
    order: ByteOrder,
    host: ByteOrder,
    ctx: SpecValue,
    before: Seq<SpecValue>,
)
    requires
        valid_type(t),
        decoding_of_budget(t, bytes, budget, order, host, ctx) is Ok,
    ensures
        ({
            let (vs, n) = decoding_of_budget(t, bytes, budget, order, host, ctx)->Ok_0;
            &&& forall|i: int| 0 <= i < vs.len() ==> well_typed(t, #[trigger] vs[i])
            &&& n == budget
            &&& n == size_of_each(t, before + vs, before.len())
            &&& n <= bytes.len()
        }),
    decreases t, budget + 1,
{
    let (vs, total) = decoding_of_budget(t, bytes, budget, order, host, ctx)->Ok_0;
    lemma_def_decoding_of_budget(t, bytes, budget, order, host, ctx);
    lemma_def_size_of_each(t, before + vs, before.len());
    if budget > 0 {
        lemma_decoded_type(t, bytes, order, host, ctx);
        let (v, n) = decoding_of_type(t, bytes, order, host, ctx)->Ok_0;
        lemma_decoded_budget(
            t,
            bytes.skip(n as int),
            (budget - n) as nat,
            order,
            host,
            ctx,
            before.push(v),
        );
        let (rest, m) = decoding_of_budget(
            t,
            bytes.skip(n as int),
            (budget - n) as nat,
            order,
            host,
            ctx,
        )->Ok_0;
        assert(vs == seq![v] + rest);
        assert(before.push(v) + rest =~= before + vs);
        assert forall|i: int| 0 <= i < vs.len() implies well_typed(t, #[trigger] vs[i]) by {
            if i > 0 {
                assert(vs[i] == rest[i - 1]);
            }
        }
    }
}

/// Round trip, for a whole value: a representable value of a valid schema,
/// once encoded on a machine of either byte order, decodes on such a machine
/// to itself, and decoding takes every byte of the encoding.
pub proof fn lemma_round_trip(s: SpecSchema, v: SpecValue, host: ByteOrder, ctx: SpecValue)
    requires
        valid_schema(s),
        representable_schema(s, v, ctx),
    ensures
        decoding_of_schema(s, encoding_of_schema(s, v, host, host), host, host, ctx) == Ok::<
            (SpecValue, nat),
            Error,
        >((v, encoding_of_schema(s, v, host, host).len())),
{
    let bytes = encoding_of_schema(s, v, host, host);
    lemma_round_trip_schema(s, v, host, host, ctx, Seq::empty());
    assert(bytes + Seq::<u8>::empty() =~= bytes);
}

/// Size consistency, for a whole value: the encoded size of a value that
/// can be written is the number of bytes of its encoding, on a machine of
/// either byte order.
pub proof fn lemma_size_consistency(s: SpecSchema, v: SpecValue, host: ByteOrder)
    requires
        well_typed_schema(s, v),
        encodable_schema(s, v),
    ensures
        encoding_of_schema(s, v, host, host).len() == size_of_schema(s, v),
{
    lemma_size_of_schema(s, v, host, host);
}

/// Whether the type `t` is faithful to the bytes `bytes`: where a value is
/// decoded from them, its encoding is the very bytes that were taken.
pub open spec fn faithful(t: SpecType, bytes: Seq<u8>, order: ByteOrder, host: ByteOrder, ctx: SpecValue) -> bool {
    decoding_of_type(t, bytes, order, host, ctx) matches Ok((v, n)) ==> encoding_of_type(
        t,
        v,
        order,
        host,
    ) == bytes.take(n as int)
}

/// A sequence is faithful to its bytes where its items are: decoding it and
/// encoding what came out gives back the bytes that were taken, whatever the
/// items are, as long as their type is faithful to every input.  The prefix
/// must be an integer other than `bool`, of which any byte but 0 reads as `true`.
pub proof fn lemma_sequence_faithful(
    item: SpecType,
    prefix: SizePrefix,
    bytes: Seq<u8>,
    order: ByteOrder,
    host: ByteOrder,
    ctx: SpecValue,
)
    requires
        valid_type(SpecType::Sequence(Box::new(item), prefix)),
        !(prefix.size_type is Bool),
        forall|b: Seq<u8>| faithful(item, b, order, host, ctx),
    ensures
        faithful(SpecType::Sequence(Box::new(item), prefix), bytes, order, host, ctx),
{
    let t = SpecType::Sequence(Box::new(item), prefix);
    let kind = prefix.size_type;
    let width = kind.width();
    lemma_def_decoding_of_type(t, bytes, order, host, ctx);
    if decoding_of_type(t, bytes, order, host, ctx) is Ok {
        let (v, n) = decoding_of_type(t, bytes, order, host, ctx)->Ok_0;
        let items = v.parts();
        let length = decode_scalar(kind, bytes, order)->Some_0;
        let count = length.as_int() as nat;
        let rest = bytes.skip(width as int);
        lemma_def_encoding_of_type(t, v, order, host);
        lemma_decoded_scalar(kind, bytes, order);
        lemma_scalar_bytes_unique(kind, bytes, order, length);
        lemma_as_int_held(length);
        lemma_bytes_of_count(kind, count, order);
        if prefix.byte_sized {
            lemma_decoded_budget(item, rest, count, order, host, ctx, Seq::empty());
            lemma_items_faithful_budget(item, rest, count, order, host, ctx, Seq::empty());
        } else {
            lemma_decoded_count(item, rest, count, order, host, ctx, Seq::empty());
            lemma_items_faithful_count(item, rest, count, order, host, ctx, Seq::empty());
        }
        assert(Seq::<SpecValue>::empty() + items =~= items);
        assert(bytes.take(n as int) =~= bytes.take(width as int) + rest.take(n - width));
    }
}

/// Counted items of a faithful type are encoded as the bytes they were decoded from.
pub proof fn lemma_items_faithful_count(
    t: SpecType,
    bytes: Seq<u8>,
    count: nat,
    order: ByteOrder,
    host: ByteOrder,
    ctx: SpecValue,
    before: Seq<SpecValue>,
)
    requires
        valid_type(t),
        forall|b: Seq<u8>| faithful(t, b, order, host, ctx),
        decoding_of_count(t, bytes, count, order, host, ctx) is Ok,
    ensures
        ({
            let (vs, n) = decoding_of_count(t, bytes, count, order, host, ctx)->Ok_0;
            encoding_of_each(t, before + vs, before.len(), order, host) == bytes.take(n as int)
        }),
    decreases count,
{
    let (vs, total) = decoding_of_count(t, bytes, count, order, host, ctx)->Ok_0;
    lemma_def_decoding_of_count(t, bytes, count, order, host, ctx);
    lemma_def_encoding_of_each(t, before + vs, before.len(), order, host);
    if count > 0 {
        assert(faithful(t, bytes, order, host, ctx));
        lemma_decoded_type(t, bytes, order, host, ctx);
        let (v, n) = decoding_of_type(t, bytes, order, host, ctx)->Ok_0;
        let after = bytes.skip(n as int);
        lemma_decoded_count(t, after, (count - 1) as nat, order, host, ctx, before.push(v));
        lemma_items_faithful_count(t, after, (count - 1) as nat, order, host, ctx, before.push(v));
        let (rest, m) = decoding_of_count(t, after, (count - 1) as nat, order, host, ctx)->Ok_0;
        assert(before.push(v) + rest =~= before + vs);
        assert(bytes.take(total as int) =~= bytes.take(n as int) + after.take(m as int));
    } else {
        assert(bytes.take(0) =~= Seq::<u8>::empty());
    }
}

/// Items of a faithful type that fill a budget of bytes are encoded as the
/// bytes they were decoded from.
pub proof fn lemma_items_faithful_budget(
    t: SpecType,
    bytes: Seq<u8>,
    budget: nat,
    order: ByteOrder,
    host: ByteOrder,
    ctx: SpecValue,
    before: Seq<SpecValue>,
)
    requires
        valid_type(t),
        forall|b: Seq<u8>| faithful(t, b, order, host, ctx),
        decoding_of_budget(t, bytes, budget, order, host, ctx) is Ok,
    ensures
        ({
            let (vs, n) = decoding_of_budget(t, bytes, budget, order, host, ctx)->Ok_0;
            encoding_of_each(t, before + vs, before.len(), order, host) == bytes.take(n as int)
        }),
    decreases budget,
{
    let (vs, total) = decoding_of_budget(t, bytes, budget, order, host, ctx)->Ok_0;
    lemma_def_decoding_of_budget(t, bytes, budget, order, host, ctx);
    lemma_def_encoding_of_each(t, before + vs, before.len(), order, host);
    if budget > 0 {
        assert(faithful(t, bytes, order, host, ctx));
        lemma_decoded_type(t, bytes, order, host, ctx);
        let (v, n) = decoding_of_type(t, bytes, order, host, ctx)->Ok_0;
        let after = bytes.skip(n as int);
        lemma_decoded_budget(t, after, (budget - n) as nat, order, host, ctx, before.push(v));
        lemma_items_faithful_budget(t, after, (budget - n) as nat, order, host, ctx, before.push(v));
        let (rest, m) = decoding_of_budget(t, after, (budget - n) as nat, order, host, ctx)->Ok_0;
        assert(before.push(v) + rest =~= before + vs);
        assert(bytes.take(total as int) =~= bytes.take(n as int) + after.take(m as int));
    } else {
        assert(bytes.take(0) =~= Seq::<u8>::empty());
    }
}

/// Every scalar type but `bool` is faithful to its bytes.
pub proof fn lemma_scalar_faithful(
    kind: Primitive,
    bytes: Seq<u8>,
    order: ByteOrder,
    host: ByteOrder,
    ctx: SpecValue,
)
    requires
        !(kind is Bool),
    ensures
        faithful(SpecType::Primitive(kind), bytes, order, host, ctx),
{
    let t = SpecType::Primitive(kind);
    lemma_def_decoding_of_type(t, bytes, order, host, ctx);
    if decoding_of_type(t, bytes, order, host, ctx) is Ok {
        let (v, n) = decoding_of_type(t, bytes, order, host, ctx)->Ok_0;
        lemma_def_encoding_of_type(t, v, order, host);
        lemma_scalar_bytes_unique(kind, bytes, order, v->Scalar_0);
    }
}

/// A variant without fields is its discriminant alone: where the
/// discriminant at the start of the input selects a variant that has no
/// fields, decoding gives that variant with an empty payload and takes the
/// bytes of the discriminant and no more.  That holds of the default as of
/// any other variant.
pub proof fn lemma_empty_variant_read_from_tag(
    s: SpecSchema,
    bytes: Seq<u8>,
    order: ByteOrder,
    host: ByteOrder,
    ctx: SpecValue,
)
    requires
        s matches SpecSchema::Sum { endianness, tag_type, variants } && decode_scalar(
            tag_type,
            bytes,
            spec_effective_order(endianness, order, host),
        ) matches Some(tag) && select_variant(variants, tag.as_int(), 0) matches Some(index)
            && variants[index as int].fields.len() == 0,
    ensures
        ({
            let inner = spec_effective_order(s->Sum_endianness, order, host);
            let tag = decode_scalar(s->Sum_tag_type, bytes, inner)->Some_0;
            let index = select_variant(s->Sum_variants, tag.as_int(), 0)->Some_0;
            decoding_of_schema(s, bytes, order, host, ctx) == Ok::<(SpecValue, nat), Error>(
                (SpecValue::Variant(index, Seq::empty()), s->Sum_tag_type.width()),
            )
        }),
{
    let inner = spec_effective_order(s->Sum_endianness, order, host);
    let tag = decode_scalar(s->Sum_tag_type, bytes, inner)->Some_0;
    let index = select_variant(s->Sum_variants, tag.as_int(), 0)->Some_0;
    let variant = s->Sum_variants[index as int];
    let rest = bytes.skip(s->Sum_tag_type.width() as int);
    lemma_first_match_wins(s->Sum_variants, tag.as_int(), 0);
    lemma_def_decoding_of_schema(s, bytes, order, host, ctx);
    reveal(tag_check);
    lemma_decoded_scalar(s->Sum_tag_type, bytes, inner);
    lemma_def_decoding_of_payload(variant, index, tag, rest, inner, host, ctx);
    lemma_def_decoding_of_all(variant.fields, rest, 0, inner, host, ctx);
}

/// A variant that is only read cannot be written, whatever its payload.
pub proof fn lemma_read_only_not_written(s: SpecSchema, v: SpecValue)
    requires
        s matches SpecSchema::Sum { variants, .. } && v matches SpecValue::Variant(index, _)
            && index < variants.len() && variants[index as int].mode is ReadOnly,
    ensures
        !encodable_schema(s, v),
{
    lemma_def_encodable_schema(s, v);
}

} // verus!
