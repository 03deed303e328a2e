//! Reading a value from bytes.
use crate::endian::{effective_order, spec_effective_order, ByteOrder};
use crate::error::Error;
use crate::primitive::{decode_scalar, read_scalar, Primitive, Scalar};
use crate::schema::{
    lemma_view_record, lemma_view_sum, lemma_view_tuple, lemma_view_variant_fields, type_views,
    variant_views, Schema, SpecSchema, SpecType, SpecVariant, TagMode, Type, Variant,
};
use crate::value::{lemma_view_list, lemma_view_variant, lemma_views_push, views, SpecValue, Value};
use vstd::prelude::*;

verus! {

/// Whether the discriminant `tag` selects the variant: the variant travels,
/// and either it is the default, which has no match rule, or one of its ranges holds `tag`.
#[verifier::opaque]
pub open spec fn selects(variant: SpecVariant, tag: int) -> bool {
    &&& !(variant.mode is Excluded)
    &&& (variant.matches.len() == 0 || exists|j: int|
        0 <= j < variant.matches.len() && (#[trigger] variant.matches[j]).low <= tag
            <= variant.matches[j].high)
}

/// The first variant from `from` onwards, in declaration order, that `tag` selects.
#[verifier::opaque]
pub open spec fn select_variant(variants: Seq<SpecVariant>, tag: int, from: nat) -> Option<nat>
    decreases variants.len() - from,
{
    if from >= variants.len() {
        None
    } else if selects(variants[from as int], tag) {
        Some(from)
    } else {
        select_variant(variants, tag, from + 1)
    }
}

/// The number of bytes that the magic constant takes at the start of `bytes`:
/// none where there is no constant.  Bytes that hold another value are a bad magic.
#[verifier::opaque]
pub open spec fn magic_check(magic: Option<Scalar>, bytes: Seq<u8>, order: ByteOrder) -> Result<
    nat,
    Error,
> {
    match magic {
        None => Ok(0),
        Some(m) => match decode_scalar(m.spec_kind(), bytes, order) {
            None => Err(Error::IoFailure),
            Some(found) => if found == m {
                Ok(m.spec_kind().width())
            } else {
                Err(Error::BadMagic)
            },
        },
    }
}

/// The discriminant at the start of `bytes` and the index of the variant it
/// selects: the first in declaration order.  A discriminant that selects none
/// is not recognized.
#[verifier::opaque]
pub open spec fn tag_check(
    tag_type: Primitive,
    variants: Seq<SpecVariant>,
    bytes: Seq<u8>,
    order: ByteOrder,
) -> Result<(nat, Scalar), Error> {
    match decode_scalar(tag_type, bytes, order) {
        None => Err(Error::IoFailure),
        Some(tag) => match select_variant(variants, tag.as_int(), 0) {
            Some(index) => if index < variants.len() {
                Ok((index, tag))
            } else {
                Err(Error::UnrecognizedDiscriminant)
            },
            None => Err(Error::UnrecognizedDiscriminant),
        },
    }
}

/// The value of type `t` at the start of `bytes` and the number of bytes it
/// takes, or the failure that reading it meets first.  `ctx` is the context of
/// the call, which every context marker receives.
#[verifier::opaque]
pub open spec fn decoding_of_type(
    t: SpecType,
    bytes: Seq<u8>,
    order: ByteOrder,
    host: ByteOrder,
    ctx: SpecValue,
) -> Result<(SpecValue, nat), Error>
    decreases t, 0nat,
{
    match t {
        SpecType::Primitive(kind) => match decode_scalar(kind, bytes, order) {
            Some(s) => Ok((SpecValue::Scalar(s), kind.width())),
            None => Err(Error::IoFailure),
        },
        SpecType::Composite(schema) => decoding_of_schema(*schema, bytes, order, host, ctx),
        SpecType::FixedArray(item, count) => as_list(
            decoding_of_count(*item, bytes, count, order, host, ctx),
            0,
        ),
        SpecType::Tuple(items) => as_list(decoding_of_all(items, bytes, 0, order, host, ctx), 0),
        SpecType::Sequence(item, prefix) => match decode_scalar(prefix.size_type, bytes, order) {
            None => Err(Error::IoFailure),
            Some(length) => {
                let width = prefix.size_type.width();
                if length.as_int() < 0 {
                    Err(Error::MalformedLength)
                } else if prefix.byte_sized {
                    as_list(
                        decoding_of_budget(
                            *item,
                            bytes.skip(width as int),
                            length.as_int() as nat,
                            order,
                            host,
                            ctx,
                        ),
                        width,
                    )
                } else {
                    as_list(
                        decoding_of_count(
                            *item,
                            bytes.skip(width as int),
                            length.as_int() as nat,
                            order,
                            host,
                            ctx,
                        ),
                        width,
                    )
                }
            },
        },
        SpecType::Skipped(default) => Ok((default, 0)),
        SpecType::ContextMarker => Ok((ctx, 0)),
    }
}

/// The parts that were read as one list, behind `before` bytes read earlier.
pub open spec fn as_list(parts: Result<(Seq<SpecValue>, nat), Error>, before: nat) -> Result<
    (SpecValue, nat),
    Error,
> {
    match parts {
        Ok((vs, n)) => Ok((SpecValue::List(vs), before + n)),
        Err(e) => Err(e),
    }
}

/// The value `first`, which took `n` bytes, in front of the values read after it.
pub open spec fn in_front(first: SpecValue, n: nat, rest: Result<(Seq<SpecValue>, nat), Error>) -> Result<
    (Seq<SpecValue>, nat),
    Error,
> {
    match rest {
        Ok((vs, m)) => Ok((seq![first] + vs, n + m)),
        Err(e) => Err(e),
    }
}

/// The value of the described type `s` at the start of `bytes`.  A record
/// checks its magic constant, then reads its fields.  A sum reads the
/// discriminant, takes the first variant in declaration order that it selects,
/// and reads that variant's payload; where the variant keeps the discriminant,
/// the first field is the discriminant itself and takes no further bytes.
#[verifier::opaque]
pub open spec fn decoding_of_schema(
    s: SpecSchema,
    bytes: Seq<u8>,
    order: ByteOrder,
    host: ByteOrder,
    ctx: SpecValue,
) -> Result<(SpecValue, nat), Error>
    decreases s, 0nat,
{
    match s {
        SpecSchema::Record { endianness, magic, fields } => {
            let inner = spec_effective_order(endianness, order, host);
            match magic_check(magic, bytes, inner) {
                Err(e) => Err(e),
                Ok(width) => as_list(
                    decoding_of_all(fields, bytes.skip(width as int), 0, inner, host, ctx),
                    width,
                ),
            }
        },
        SpecSchema::Sum { endianness, tag_type, variants } => {
            let inner = spec_effective_order(endianness, order, host);
            match tag_check(tag_type, variants, bytes, inner) {
                Err(e) => Err(e),
                Ok((index, tag)) => if index < variants.len() {
                    decoding_of_payload(
                        variants[index as int],
                        index,
                        tag,
                        bytes.skip(tag_type.width() as int),
                        inner,
                        host,
                        ctx,
                    )
                } else {
                    Err(Error::UnrecognizedDiscriminant)
                },
            }
        },
    }
}

/// The value of the selected variant, whose payload starts at the start of
/// `bytes`, behind the discriminant `tag`.  Where the variant keeps the
/// discriminant, its first field is `tag` itself and the other fields are read.
#[verifier::opaque]
pub open spec fn decoding_of_payload(
    variant: SpecVariant,
    index: nat,
    tag: Scalar,
    bytes: Seq<u8>,
    order: ByteOrder,
    host: ByteOrder,
    ctx: SpecValue,
) -> Result<(SpecValue, nat), Error>
    decreases variant, 0nat,
{
    let width = tag.spec_kind().width();
    if variant.mode is Keep && variant.fields.len() > 0 {
        match decoding_of_all(variant.fields, bytes, 1, order, host, ctx) {
            Err(e) => Err(e),
            Ok((vs, n)) => Ok(
                (SpecValue::Variant(index, seq![SpecValue::Scalar(tag)] + vs), width + n),
            ),
        }
    } else {
        match decoding_of_all(variant.fields, bytes, 0, order, host, ctx) {
            Err(e) => Err(e),
            Ok((vs, n)) => Ok((SpecValue::Variant(index, vs), width + n)),
        }
    }
}

/// The values of the types `ts[from..]`, read one after the other from the start of `bytes`.
#[verifier::opaque]
pub open spec fn decoding_of_all(
    ts: Seq<SpecType>,
    bytes: Seq<u8>,
    from: nat,
    order: ByteOrder,
    host: ByteOrder,
    ctx: SpecValue,
) -> Result<(Seq<SpecValue>, nat), Error>
    decreases ts, ts.len() - from,
{
    if from >= ts.len() {
        Ok((Seq::empty(), 0))
    } else {
        match decoding_of_type(ts[from as int], bytes, order, host, ctx) {
            Err(e) => Err(e),
            Ok((v, n)) => in_front(
                v,
                n,
                decoding_of_all(ts, bytes.skip(n as int), from + 1, order, host, ctx),
            ),
        }
    }
}

/// `count` values of type `t`, read one after the other from the start of `bytes`.
#[verifier::opaque]
pub open spec fn decoding_of_count(
    t: SpecType,
    bytes: Seq<u8>,
    count: nat,
    order: ByteOrder,
    host: ByteOrder,
    ctx: SpecValue,
) -> Result<(Seq<SpecValue>, nat), Error>
    decreases t, count,
{
    if count == 0 {
        Ok((Seq::empty(), 0))
    } else {
        match decoding_of_type(t, bytes, order, host, ctx) {
            Err(e) => Err(e),
            Ok((v, n)) => in_front(
                v,
                n,
                decoding_of_count(t, bytes.skip(n as int), (count - 1) as nat, order, host, ctx),
            ),
        }
    }
}

/// Values of type `t`, read one after the other from the start of `bytes`
/// until they have taken exactly `budget` bytes.  A value that takes no bytes
/// while some are still owed, or more than are owed, makes the length malformed.
#[verifier::opaque]
pub open spec fn decoding_of_budget(
    t: SpecType,
    bytes: Seq<u8>,
    budget: nat,
    order: ByteOrder,
    host: ByteOrder,
    ctx: SpecValue,
) -> Result<(Seq<SpecValue>, nat), Error>
    decreases t, budget,
{
    if budget == 0 {
        Ok((Seq::empty(), 0))
    } else {
        match decoding_of_type(t, bytes, order, host, ctx) {
            Err(e) => Err(e),
            Ok((v, n)) => if n == 0 || n > budget {
                Err(Error::MalformedLength)
            } else {
                in_front(
                    v,
                    n,
                    decoding_of_budget(
                        t,
                        bytes.skip(n as int),
                        (budget - n) as nat,
                        order,
                        host,
                        ctx,
                    ),
                )
            },
        }
    }
}

/// What [`decoding_of_type`] comes to, written out: its definition is not unfolded on its own.
pub proof fn lemma_def_decoding_of_type(t: SpecType,
    bytes: Seq<u8>,
    order: ByteOrder,
    host: ByteOrder,
    ctx: SpecValue,)
    ensures
        decoding_of_type(t, bytes, order, host, ctx) == ({
            match t {
                SpecType::Primitive(kind) => match decode_scalar(kind, bytes, order) {
                    Some(s) => Ok((SpecValue::Scalar(s), kind.width())),
                    None => Err(Error::IoFailure),
                },
                SpecType::Composite(schema) => decoding_of_schema(*schema, bytes, order, host, ctx),
                SpecType::FixedArray(item, count) => as_list(
                    decoding_of_count(*item, bytes, count, order, host, ctx),
                    0,
                ),
                SpecType::Tuple(items) => as_list(decoding_of_all(items, bytes, 0, order, host, ctx), 0),
                SpecType::Sequence(item, prefix) => match decode_scalar(prefix.size_type, bytes, order) {
                    None => Err(Error::IoFailure),
                    Some(length) => {
                        let width = prefix.size_type.width();
                        if length.as_int() < 0 {
                            Err(Error::MalformedLength)
                        } else if prefix.byte_sized {
                            as_list(
                                decoding_of_budget(
                                    *item,
                                    bytes.skip(width as int),
                                    length.as_int() as nat,
                                    order,
                                    host,
                                    ctx,
                                ),
                                width,
                            )
                        } else {
                            as_list(
                                decoding_of_count(
                                    *item,
                                    bytes.skip(width as int),
                                    length.as_int() as nat,
                                    order,
                                    host,
                                    ctx,
                                ),
                                width,
                            )
                        }
                    },
                },
                SpecType::Skipped(default) => Ok((default, 0)),
                SpecType::ContextMarker => Ok((ctx, 0)),
            }
        }),
{
    reveal(decoding_of_type);
    reveal(decoding_of_schema);
    reveal(decoding_of_payload);
    reveal(decoding_of_all);
    reveal(decoding_of_count);
    reveal(decoding_of_budget);
}

/// What [`decoding_of_schema`] comes to, written out: its definition is not unfolded on its own.
pub proof fn lemma_def_decoding_of_schema(s: SpecSchema,
    bytes: Seq<u8>,
    order: ByteOrder,
    host: ByteOrder,
    ctx: SpecValue,)
    ensures
        decoding_of_schema(s, bytes, order, host, ctx) == ({
            match s {
                SpecSchema::Record { endianness, magic, fields } => {
                    let inner = spec_effective_order(endianness, order, host);
                    match magic_check(magic, bytes, inner) {
                        Err(e) => Err(e),
                        Ok(width) => as_list(
                            decoding_of_all(fields, bytes.skip(width as int), 0, inner, host, ctx),
                            width,
                        ),
                    }
                },
                SpecSchema::Sum { endianness, tag_type, variants } => {
                    let inner = spec_effective_order(endianness, order, host);
                    match tag_check(tag_type, variants, bytes, inner) {
                        Err(e) => Err(e),
                        Ok((index, tag)) => if index < variants.len() {
                            decoding_of_payload(
                                variants[index as int],
                                index,
                                tag,
                                bytes.skip(tag_type.width() as int),
                                inner,
                                host,
                                ctx,
                            )
                        } else {
                            Err(Error::UnrecognizedDiscriminant)
                        },
                    }
                },
            }
        }),
{
    reveal(decoding_of_type);
    reveal(decoding_of_schema);
    reveal(decoding_of_payload);
    reveal(decoding_of_all);
    reveal(decoding_of_count);
    reveal(decoding_of_budget);
}

/// What [`decoding_of_payload`] comes to, written out: its definition is not unfolded on its own.
pub proof fn lemma_def_decoding_of_payload(variant: SpecVariant,
    index: nat,
    tag: Scalar,
    bytes: Seq<u8>,
    order: ByteOrder,
    host: ByteOrder,
    ctx: SpecValue,)
    ensures
        decoding_of_payload(variant, index, tag, bytes, order, host, ctx) == ({
            let width = tag.spec_kind().width();
            if variant.mode is Keep && variant.fields.len() > 0 {
                match decoding_of_all(variant.fields, bytes, 1, order, host, ctx) {
                    Err(e) => Err(e),
                    Ok((vs, n)) => Ok(
                        (SpecValue::Variant(index, seq![SpecValue::Scalar(tag)] + vs), width + n),
                    ),
                }
            } else {
                match decoding_of_all(variant.fields, bytes, 0, order, host, ctx) {
                    Err(e) => Err(e),
                    Ok((vs, n)) => Ok((SpecValue::Variant(index, vs), width + n)),
                }
            }
        }),
{
    reveal(decoding_of_type);
    reveal(decoding_of_schema);
    reveal(decoding_of_payload);
    reveal(decoding_of_all);
    reveal(decoding_of_count);
    reveal(decoding_of_budget);
}

/// What [`decoding_of_all`] comes to, written out: its definition is not unfolded on its own.
pub proof fn lemma_def_decoding_of_all(ts: Seq<SpecType>,
    bytes: Seq<u8>,
    from: nat,
    order: ByteOrder,
    host: ByteOrder,
    ctx: SpecValue,)
    ensures
        decoding_of_all(ts, bytes, from, order, host, ctx) == ({
            if from >= ts.len() {
                Ok((Seq::empty(), 0))
            } else {
                match decoding_of_type(ts[from as int], bytes, order, host, ctx) {
                    Err(e) => Err(e),
                    Ok((v, n)) => in_front(
                        v,
                        n,
                        decoding_of_all(ts, bytes.skip(n as int), from + 1, order, host, ctx),
                    ),
                }
            }
        }),
{
    reveal(decoding_of_type);
    reveal(decoding_of_schema);
    reveal(decoding_of_payload);
    reveal(decoding_of_all);
    reveal(decoding_of_count);
    reveal(decoding_of_budget);
}

/// What [`decoding_of_count`] comes to, written out: its definition is not unfolded on its own.
pub proof fn lemma_def_decoding_of_count(t: SpecType,
    bytes: Seq<u8>,
    count: nat,
    order: ByteOrder,
    host: ByteOrder,
    ctx: SpecValue,)
    ensures
        decoding_of_count(t, bytes, count, order, host, ctx) == ({
            if count == 0 {
                Ok((Seq::empty(), 0))
            } else {
                match decoding_of_type(t, bytes, order, host, ctx) {
                    Err(e) => Err(e),
                    Ok((v, n)) => in_front(
                        v,
                        n,
                        decoding_of_count(t, bytes.skip(n as int), (count - 1) as nat, order, host, ctx),
                    ),
                }
            }
        }),
{
    reveal(decoding_of_type);
    reveal(decoding_of_schema);
    reveal(decoding_of_payload);
    reveal(decoding_of_all);
    reveal(decoding_of_count);
    reveal(decoding_of_budget);
}

/// What [`decoding_of_budget`] comes to, written out: its definition is not unfolded on its own.
pub proof fn lemma_def_decoding_of_budget(t: SpecType,
    bytes: Seq<u8>,
    budget: nat,
    order: ByteOrder,
    host: ByteOrder,
    ctx: SpecValue,)
    ensures
        decoding_of_budget(t, bytes, budget, order, host, ctx) == ({
            if budget == 0 {
                Ok((Seq::empty(), 0))
            } else {
                match decoding_of_type(t, bytes, order, host, ctx) {
                    Err(e) => Err(e),
                    Ok((v, n)) => if n == 0 || n > budget {
                        Err(Error::MalformedLength)
                    } else {
                        in_front(
                            v,
                            n,
                            decoding_of_budget(
                                t,
                                bytes.skip(n as int),
                                (budget - n) as nat,
                                order,
                                host,
                                ctx,
                            ),
                        )
                    },
                }
            }
        }),
{
    reveal(decoding_of_type);
    reveal(decoding_of_schema);
    reveal(decoding_of_payload);
    reveal(decoding_of_all);
    reveal(decoding_of_count);
    reveal(decoding_of_budget);
}

/// What [`select_variant`] comes to, written out: its definition is not unfolded on its own.
pub proof fn lemma_def_select_variant(variants: Seq<SpecVariant>, tag: int, from: nat)
    ensures
        select_variant(variants, tag, from) == ({
            if from >= variants.len() {
                None
            } else if selects(variants[from as int], tag) {
                Some(from)
            } else {
                select_variant(variants, tag, from + 1)
            }
        }),
{
    reveal(select_variant);
}

/// What a call that reads one value from position `pos` owes: the value and
/// the position behind it, or the failure, as the specification gives them.
pub open spec fn read(
    r: Result<(Value, usize), Error>,
    expected: Result<(SpecValue, nat), Error>,
    pos: usize,
) -> bool {
    match expected {
        Ok((v, n)) => r matches Ok((found, end)) && found@ == v && end == pos + n,
        Err(e) => r matches Err(failure) && failure == e,
    }
}

/// What a call that reads a run of values from position `pos` owes.
pub open spec fn read_run(
    r: Result<(Vec<Value>, usize), Error>,
    expected: Result<(Seq<SpecValue>, nat), Error>,
    pos: usize,
) -> bool {
    match expected {
        Ok((vs, n)) => r matches Ok((found, end)) && views(found@) == vs && end == pos + n,
        Err(e) => r matches Err(failure) && failure == e,
    }
}

/// The values `vs`, which took `n` bytes, in front of the values read after them.
pub open spec fn behind(vs: Seq<SpecValue>, n: nat, rest: Result<(Seq<SpecValue>, nat), Error>) -> Result<
    (Seq<SpecValue>, nat),
    Error,
> {
    match rest {
        Ok((ws, m)) => Ok((vs + ws, n + m)),
        Err(e) => Err(e),
    }
}

/// Reading one more value moves it from the values still to come to the values read.
pub proof fn lemma_behind_step(
    vs: Seq<SpecValue>,
    n: nat,
    v: SpecValue,
    m: nat,
    rest: Result<(Seq<SpecValue>, nat), Error>,
)
    ensures
        behind(vs, n, in_front(v, m, rest)) == behind(vs.push(v), n + m, rest),
{
    if let Ok((ws, k)) = rest {
        assert(vs + (seq![v] + ws) =~= vs.push(v) + ws);
    }
}

/// Nothing read yet leaves everything to come.
pub proof fn lemma_behind_nothing(rest: Result<(Seq<SpecValue>, nat), Error>)
    ensures
        behind(Seq::empty(), 0, rest) == rest,
{
    if let Ok((ws, k)) = rest {
        assert(Seq::<SpecValue>::empty() + ws =~= ws);
    }
}

/// With nothing left to come, what was read is the result.
pub proof fn lemma_behind_done(vs: Seq<SpecValue>, n: nat)
    ensures
        behind(vs, n, Ok((Seq::empty(), 0))) == Ok::<(Seq<SpecValue>, nat), Error>((vs, n)),
{
    assert(vs + Seq::<SpecValue>::empty() =~= vs);
}

/// Whether the discriminant selects the variant.
#[verifier::loop_isolation(false)]
pub fn variant_selected(variant: &Variant, tag: Scalar) -> (b: bool)
    ensures
        b == selects(variant@, tag.as_int()),
{
    proof {
        reveal(selects);
        lemma_view_variant_fields(*variant);
    }
    match variant.mode {
        TagMode::Excluded => {
            return false;
        },
        _ => {},
    }
    if variant.matches.len() == 0 {
        return true;
    }
    let mut j: usize = 0;
    while j < variant.matches.len()
        invariant
            j <= variant.matches@.len(),
            forall|k: int|
                0 <= k < j ==> !((#[trigger] variant.matches@[k]).low <= tag.as_int()
                    <= variant.matches@[k].high),
        decreases variant.matches@.len() - j,
    {
        let range = variant.matches[j];
        if tag.within(range.low, range.high) {
            proof {
                reveal(selects);
                let k = j as int;
                assert(0 <= k < variant@.matches.len() && variant@.matches[k].low <= tag.as_int()
                    <= variant@.matches[k].high);
            }
            return true;
        }
        j = j + 1;
    }
    proof {
        reveal(selects);
    }
    false
}

/// The index of the first variant, in declaration order, that the discriminant selects.
pub fn find_variant(variants: &Vec<Variant>, tag: Scalar) -> (found: Option<usize>)
    ensures
        select_variant(variant_views(variants@), tag.as_int(), 0) == match found {
            Some(index) => Some(index as nat),
            None => None,
        },
        found matches Some(index) ==> index < variants@.len(),
{
    let ghost vs = variant_views(variants@);
    let mut i: usize = 0;
    while i < variants.len()
        invariant
            i <= variants@.len(),
            vs == variant_views(variants@),
            select_variant(vs, tag.as_int(), 0) == select_variant(vs, tag.as_int(), i as nat),
        decreases variants@.len() - i,
    {
        proof {
            lemma_def_select_variant(vs, tag.as_int(), i as nat);
        }
        if variant_selected(&variants[i], tag) {
            return Some(i);
        }
        i = i + 1;
    }
    proof {
        lemma_def_select_variant(vs, tag.as_int(), i as nat);
    }
    None
}

/// Reads the value of type `t` that starts at `pos` in `input`.
pub fn decode_type(
    t: &Type,
    input: &[u8],
    pos: usize,
    order: ByteOrder,
    host: ByteOrder,
    ctx: &Value,
) -> (r: Result<(Value, usize), Error>)
    requires
        pos <= input@.len(),
    ensures
        read(r, decoding_of_type(t@, input@.skip(pos as int), order, host, ctx@), pos),
        r matches Ok((_, end)) ==> end <= input@.len(),
    decreases t@, 0nat,
{
    proof {
        lemma_def_decoding_of_type(t@, input@.skip(pos as int), order, host, ctx@);
    }
    match t {
        Type::Primitive(kind) => {
            match read_scalar(input, pos, *kind, order) {
                Ok(s) => {
                    proof {
                        reveal(decode_scalar);
                    }
                    Ok((Value::Scalar(s), pos + kind.size()))
                },
                Err(e) => Err(e),
            }
        },
        Type::Composite(schema) => decode_schema(schema, input, pos, order, host, ctx),
        Type::FixedArray(item, count) => {
            match decode_count(item, *count as u128, input, pos, order, host, ctx) {
                Ok((parts, end)) => {
                    proof {
                        lemma_view_list(parts);
                    }
                    Ok((Value::List(parts), end))
                },
                Err(e) => Err(e),
            }
        },
        Type::Tuple(items) => {
            proof {
                lemma_view_tuple(*items);
            }
            match decode_all(items, 0, input, pos, order, host, ctx) {
                Ok((parts, end)) => {
                    proof {
                        lemma_view_list(parts);
                    }
                    Ok((Value::List(parts), end))
                },
                Err(e) => Err(e),
            }
        },
        Type::Sequence(item, prefix) => {
            let length = match read_scalar(input, pos, prefix.size_type, order) {
                Ok(s) => s,
                Err(e) => {
                    return Err(e);
                },
            };
            proof {
                reveal(decode_scalar);
                assert(input@.skip(pos as int).skip(prefix.size_type.width() as int)
                    =~= input@.skip(pos + prefix.size_type.width()));
            }
            let count = match length.to_count() {
                Some(n) => n,
                None => {
                    return Err(Error::MalformedLength);
                },
            };
            let after = pos + prefix.size_type.size();
            let items = if prefix.byte_sized {
                decode_budget(item, count, input, after, order, host, ctx)
            } else {
                decode_count(item, count, input, after, order, host, ctx)
            };
            match items {
                Ok((parts, end)) => {
                    proof {
                        lemma_view_list(parts);
                    }
                    Ok((Value::List(parts), end))
                },
                Err(e) => Err(e),
            }
        },
        Type::Skipped(default) => Ok((default.clone(), pos)),
        Type::ContextMarker => Ok((ctx.clone(), pos)),
    }
}

/// Reads the value of the described type `s` that starts at `pos` in `input`.
pub fn decode_schema(
    s: &Schema,
    input: &[u8],
    pos: usize,
    order: ByteOrder,
    host: ByteOrder,
    ctx: &Value,
) -> (r: Result<(Value, usize), Error>)
    requires
        pos <= input@.len(),
    ensures
        read(r, decoding_of_schema(s@, input@.skip(pos as int), order, host, ctx@), pos),
        r matches Ok((_, end)) ==> end <= input@.len(),
    decreases s@, 1nat,
{
    proof {
        lemma_def_decoding_of_schema(s@, input@.skip(pos as int), order, host, ctx@);
    }
    match s {
        Schema::Record { endianness, magic, fields } => {
            proof {
                lemma_view_record(*endianness, *magic, *fields);
                reveal(magic_check);
                reveal(decode_scalar);
            }
            let inner = effective_order(*endianness, order, host);
            let after = match magic {
                Some(m) => {
                    match read_scalar(input, pos, m.kind(), inner) {
                        Err(e) => {
                            return Err(e);
                        },
                        Ok(found) => {
                            if !(found == *m) {
                                return Err(Error::BadMagic);
                            }
                            pos + m.kind().size()
                        },
                    }
                },
                None => pos,
            };
            proof {
                assert(input@.skip(pos as int).skip(after - pos) =~= input@.skip(after as int));
            }
            match decode_all(fields, 0, input, after, inner, host, ctx) {
                Ok((parts, end)) => {
                    proof {
                        lemma_view_list(parts);
                    }
                    Ok((Value::List(parts), end))
                },
                Err(e) => Err(e),
            }
        },
        Schema::Sum { endianness, tag_type, variants } => {
            proof {
                lemma_view_sum(*endianness, *tag_type, *variants);
                reveal(tag_check);
                reveal(decode_scalar);
            }
            let inner = effective_order(*endianness, order, host);
            let tag = match read_scalar(input, pos, *tag_type, inner) {
                Ok(s) => s,
                Err(e) => {
                    return Err(e);
                },
            };
            let index = match find_variant(variants, tag) {
                Some(i) => i,
                None => {
                    return Err(Error::UnrecognizedDiscriminant);
                },
            };
            let after = pos + tag_type.size();
            proof {
                assert(input@.skip(pos as int).skip(tag_type.width() as int) =~= input@.skip(
                    after as int,
                ));
            }
            proof {
                assert(s@->Sum_variants[index as int] == variants@[index as int]@);
            }
            decode_payload(&variants[index], index, tag, input, after, inner, host, ctx)
        },
    }
}

/// Reads the payload of the selected variant, which starts at `pos` in
/// `input` behind the discriminant `tag`.
pub fn decode_payload(
    variant: &Variant,
    index: usize,
    tag: Scalar,
    input: &[u8],
    pos: usize,
    order: ByteOrder,
    host: ByteOrder,
    ctx: &Value,
) -> (r: Result<(Value, usize), Error>)
    requires
        tag.spec_kind().width() <= pos <= input@.len(),
    ensures
        read(
            r,
            decoding_of_payload(
                variant@,
                index as nat,
                tag,
                input@.skip(pos as int),
                order,
                host,
                ctx@,
            ),
            (pos - tag.spec_kind().width()) as usize,
        ),
        r matches Ok((_, end)) ==> end <= input@.len(),
    decreases variant@, 0nat,
{
    proof {
        lemma_def_decoding_of_payload(
            variant@,
            index as nat,
            tag,
            input@.skip(pos as int),
            order,
            host,
            ctx@,
        );
        lemma_view_variant_fields(*variant);
    }
    let kept = match variant.mode {
        TagMode::Keep => variant.fields.len() > 0,
        _ => false,
    };
    let from: usize = if kept {
        1
    } else {
        0
    };
    match decode_all(&variant.fields, from, input, pos, order, host, ctx) {
        Err(e) => Err(e),
        Ok((parts, end)) => {
            let mut parts = parts;
            let ghost read_parts = parts@;
            if kept {
                parts.insert(0, Value::Scalar(tag));
                proof {
                    assert(views(parts@) =~= seq![SpecValue::Scalar(tag)] + views(read_parts));
                }
            }
            proof {
                lemma_view_variant(index, parts);
            }
            Ok((Value::Variant(index, parts), end))
        },
    }
}

/// Reads the values of the types from place `from` onwards, one after the
/// other from `pos` in `input`.
pub fn decode_all(
    types: &Vec<Type>,
    from: usize,
    input: &[u8],
    pos: usize,
    order: ByteOrder,
    host: ByteOrder,
    ctx: &Value,
) -> (r: Result<(Vec<Value>, usize), Error>)
    requires
        pos <= input@.len(),
        from <= types@.len(),
    ensures
        read_run(
            r,
            decoding_of_all(type_views(types@), input@.skip(pos as int), from as nat, order, host, ctx@),
            pos,
        ),
        r matches Ok((_, end)) ==> end <= input@.len(),
    decreases type_views(types@), 0nat,
{
    let ghost ts = type_views(types@);
    let ghost whole = decoding_of_all(ts, input@.skip(pos as int), from as nat, order, host, ctx@);
    let mut values: Vec<Value> = Vec::new();
    let mut at: usize = pos;
    let mut i: usize = from;
    proof {
        lemma_behind_nothing(whole);
    }
    while i < types.len()
        invariant
            from <= i <= types@.len(),
            ts == type_views(types@),
            pos <= at <= input@.len(),
            whole == decoding_of_all(ts, input@.skip(pos as int), from as nat, order, host, ctx@),
            whole == behind(
                views(values@),
                (at - pos) as nat,
                decoding_of_all(ts, input@.skip(at as int), i as nat, order, host, ctx@),
            ),
        decreases types@.len() - i,
    {
        proof {
            lemma_def_decoding_of_all(ts, input@.skip(at as int), i as nat, order, host, ctx@);
        }
        match decode_type(&types[i], input, at, order, host, ctx) {
            Err(e) => {
                return Err(e);
            },
            Ok((v, end)) => {
                proof {
                    let n = (end - at) as nat;
                    assert(input@.skip(at as int).skip(n as int) =~= input@.skip(end as int));
                    lemma_behind_step(
                        views(values@),
                        (at - pos) as nat,
                        v@,
                        n,
                        decoding_of_all(ts, input@.skip(end as int), (i + 1) as nat, order, host, ctx@),
                    );
                    lemma_views_push(values@, v);
                }
                values.push(v);
                at = end;
            },
        }
        i = i + 1;
    }
    proof {
        lemma_def_decoding_of_all(ts, input@.skip(at as int), i as nat, order, host, ctx@);
        lemma_behind_done(views(values@), (at - pos) as nat);
    }
    Ok((values, at))
}

/// Reads `count` values of type `t`, one after the other from `pos` in `input`.
pub fn decode_count(
    t: &Type,
    count: u128,
    input: &[u8],
    pos: usize,
    order: ByteOrder,
    host: ByteOrder,
    ctx: &Value,
) -> (r: Result<(Vec<Value>, usize), Error>)
    requires
        pos <= input@.len(),
    ensures
        read_run(
            r,
            decoding_of_count(t@, input@.skip(pos as int), count as nat, order, host, ctx@),
            pos,
        ),
        r matches Ok((_, end)) ==> end <= input@.len(),
    decreases t@, 1nat,
{
    let ghost whole = decoding_of_count(t@, input@.skip(pos as int), count as nat, order, host, ctx@);
    let mut values: Vec<Value> = Vec::new();
    let mut at: usize = pos;
    let mut left: u128 = count;
    proof {
        lemma_behind_nothing(whole);
    }
    while left > 0
        invariant
            pos <= at <= input@.len(),
            whole == decoding_of_count(t@, input@.skip(pos as int), count as nat, order, host, ctx@),
            whole == behind(
                views(values@),
                (at - pos) as nat,
                decoding_of_count(t@, input@.skip(at as int), left as nat, order, host, ctx@),
            ),
        decreases left,
    {
        proof {
            lemma_def_decoding_of_count(t@, input@.skip(at as int), left as nat, order, host, ctx@);
        }
        match decode_type(t, input, at, order, host, ctx) {
            Err(e) => {
                return Err(e);
            },
            Ok((v, end)) => {
                proof {
                    let n = (end - at) as nat;
                    assert(input@.skip(at as int).skip(n as int) =~= input@.skip(end as int));
                    lemma_behind_step(
                        views(values@),
                        (at - pos) as nat,
                        v@,
                        n,
                        decoding_of_count(
                            t@,
                            input@.skip(end as int),
                            (left - 1) as nat,
                            order,
                            host,
                            ctx@,
                        ),
                    );
                    lemma_views_push(values@, v);
                }
                values.push(v);
                at = end;
            },
        }
        left = left - 1;
    }
    proof {
        lemma_def_decoding_of_count(t@, input@.skip(at as int), left as nat, order, host, ctx@);
        lemma_behind_done(views(values@), (at - pos) as nat);
    }
    Ok((values, at))
}

/// Reads values of type `t`, one after the other from `pos` in `input`, until
/// they have taken exactly `budget` bytes.
pub fn decode_budget(
    t: &Type,
    budget: u128,
    input: &[u8],
    pos: usize,
    order: ByteOrder,
    host: ByteOrder,
    ctx: &Value,
) -> (r: Result<(Vec<Value>, usize), Error>)
    requires
        pos <= input@.len(),
    ensures
        read_run(
            r,
            decoding_of_budget(t@, input@.skip(pos as int), budget as nat, order, host, ctx@),
            pos,
        ),
        r matches Ok((_, end)) ==> end <= input@.len(),
    decreases t@, 1nat,
{
    let ghost whole = decoding_of_budget(
        t@,
        input@.skip(pos as int),
        budget as nat,
        order,
        host,
        ctx@,
    );
    let mut values: Vec<Value> = Vec::new();
    let mut at: usize = pos;
    let mut left: u128 = budget;
    proof {
        lemma_behind_nothing(whole);
    }
    while left > 0
        invariant
            pos <= at <= input@.len(),
            whole == decoding_of_budget(
                t@,
                input@.skip(pos as int),
                budget as nat,
                order,
                host,
                ctx@,
            ),
            whole == behind(
                views(values@),
                (at - pos) as nat,
                decoding_of_budget(t@, input@.skip(at as int), left as nat, order, host, ctx@),
            ),
        decreases left,
    {
        proof {
            lemma_def_decoding_of_budget(t@, input@.skip(at as int), left as nat, order, host, ctx@);
        }
        match decode_type(t, input, at, order, host, ctx) {
            Err(e) => {
                return Err(e);
            },
            Ok((v, end)) => {
                let taken: usize = end - at;
                if taken == 0 || taken as u128 > left {
                    return Err(Error::MalformedLength);
                }
                proof {
                    let n = taken as nat;
                    assert(input@.skip(at as int).skip(n as int) =~= input@.skip(end as int));
                    lemma_behind_step(
                        views(values@),
                        (at - pos) as nat,
                        v@,
                        n,
                        decoding_of_budget(
                            t@,
                            input@.skip(end as int),
                            (left - n) as nat,
                            order,
                            host,
                            ctx@,
                        ),
                    );
                    lemma_views_push(values@, v);
                }
                values.push(v);
                at = end;
                left = left - taken as u128;
            },
        }
    }
    proof {
        lemma_def_decoding_of_budget(t@, input@.skip(at as int), left as nat, order, host, ctx@);
        lemma_behind_done(views(values@), (at - pos) as nat);
    }
    Ok((values, at))
}

} // verus!
