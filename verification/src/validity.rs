//! Checking that a schema is valid before it is used.
use crate::error::SchemaError;
use crate::primitive::{lemma_pow256_values, Primitive};
use crate::schema::{
    lemma_view_record, lemma_view_sum, lemma_view_tuple, lemma_view_variant_fields, type_views,
    variant_views, Schema, SpecSchema, SpecType, SpecVariant, TagMode, Type, Variant,
};
use crate::typing::{default_is_last, is_default, valid_schema, valid_type, valid_variant};
use vstd::prelude::*;

verus! {

/// The first defect of a type, in the order in which it is declared, if it has one.
#[verifier::opaque]
pub open spec fn defect_of_type(t: SpecType) -> Option<SchemaError>
    decreases t, 0nat,
{
    match t {
        SpecType::Composite(schema) => defect_of_schema(*schema),
        SpecType::FixedArray(item, _) => defect_of_type(*item),
        SpecType::Tuple(items) => defect_of_all(items, 0),
        SpecType::Sequence(item, prefix) => if !prefix.size_type.spec_is_integral() {
            Some(SchemaError::UnsupportedSizeType)
        } else {
            defect_of_type(*item)
        },
        _ => None,
    }
}

/// The first defect of a schema, if it has one.
#[verifier::opaque]
pub open spec fn defect_of_schema(s: SpecSchema) -> Option<SchemaError>
    decreases s, 0nat,
{
    match s {
        SpecSchema::Record { fields, .. } => defect_of_all(fields, 0),
        SpecSchema::Sum { tag_type, variants, .. } => if !tag_type.spec_is_integral() {
            Some(SchemaError::UnsupportedTagType)
        } else {
            defect_of_variants(variants, tag_type, 0, false)
        },
    }
}

/// The first defect among the types `ts[from..]`, if there is one.
#[verifier::opaque]
pub open spec fn defect_of_all(ts: Seq<SpecType>, from: nat) -> Option<SchemaError>
    decreases ts, ts.len() - from,
{
    if from >= ts.len() {
        None
    } else {
        match defect_of_type(ts[from as int]) {
            Some(e) => Some(e),
            None => defect_of_all(ts, from + 1),
        }
    }
}

/// The first defect of a variant of a sum type whose discriminant has type `tag_type`.
#[verifier::opaque]
pub open spec fn defect_of_variant(variant: SpecVariant, tag_type: Primitive) -> Option<SchemaError>
    decreases variant, 0nat,
{
    match variant.mode {
        TagMode::Emit(tag) => if !tag_type.holds(tag as int) {
            Some(SchemaError::TagOutOfRange)
        } else {
            defect_of_all(variant.fields, 0)
        },
        TagMode::Keep => if variant.fields.len() == 0 {
            Some(SchemaError::KeepTagOnUnit)
        } else if variant.fields[0] != SpecType::Primitive(tag_type) {
            Some(SchemaError::KeepTagMismatch)
        } else {
            defect_of_all(variant.fields, 0)
        },
        TagMode::Excluded => defect_of_all(variant.fields, 0),
        TagMode::ReadOnly => defect_of_all(variant.fields, 0),
    }
}

/// The defect of a variant that travels behind a default variant: a second
/// default, or a variant out of place.
pub open spec fn defect_behind_default(variant: SpecVariant) -> SchemaError {
    if variant.matches.len() == 0 {
        SchemaError::MultipleDefaults
    } else {
        SchemaError::DefaultNotLast
    }
}

/// The first defect among the variants `variants[from..]`, where
/// `default_seen` says whether a default variant is declared before them.
#[verifier::opaque]
pub open spec fn defect_of_variants(
    variants: Seq<SpecVariant>,
    tag_type: Primitive,
    from: nat,
    default_seen: bool,
) -> Option<SchemaError>
    decreases variants, variants.len() - from,
{
    if from >= variants.len() {
        None
    } else {
        let variant = variants[from as int];
        if default_seen && !(variant.mode is Excluded) {
            Some(defect_behind_default(variant))
        } else {
            match defect_of_variant(variant, tag_type) {
                Some(e) => Some(e),
                None => defect_of_variants(
                    variants,
                    tag_type,
                    from + 1,
                    default_seen || is_default(variant),
                ),
            }
        }
    }
}

/// What [`defect_of_type`] comes to, written out: its definition is not unfolded on its own.
pub proof fn lemma_def_defect_of_type(t: SpecType)
    ensures
        defect_of_type(t) == ({
            match t {
                SpecType::Composite(schema) => defect_of_schema(*schema),
                SpecType::FixedArray(item, _) => defect_of_type(*item),
                SpecType::Tuple(items) => defect_of_all(items, 0),
                SpecType::Sequence(item, prefix) => if !prefix.size_type.spec_is_integral() {
                    Some(SchemaError::UnsupportedSizeType)
                } else {
                    defect_of_type(*item)
                },
                _ => None,
            }
        }),
{
    reveal(defect_of_type);
    reveal(defect_of_schema);
    reveal(defect_of_all);
    reveal(defect_of_variant);
    reveal(defect_of_variants);
}

/// What [`defect_of_schema`] comes to, written out: its definition is not unfolded on its own.
pub proof fn lemma_def_defect_of_schema(s: SpecSchema)
    ensures
        defect_of_schema(s) == ({
            match s {
                SpecSchema::Record { fields, .. } => defect_of_all(fields, 0),
                SpecSchema::Sum { tag_type, variants, .. } => if !tag_type.spec_is_integral() {
                    Some(SchemaError::UnsupportedTagType)
                } else {
                    defect_of_variants(variants, tag_type, 0, false)
                },
            }
        }),
{
    reveal(defect_of_type);
    reveal(defect_of_schema);
    reveal(defect_of_all);
    reveal(defect_of_variant);
    reveal(defect_of_variants);
}

/// What [`defect_of_all`] comes to, written out: its definition is not unfolded on its own.
pub proof fn lemma_def_defect_of_all(ts: Seq<SpecType>, from: nat)
    ensures
        defect_of_all(ts, from) == ({
            if from >= ts.len() {
                None
            } else {
                match defect_of_type(ts[from as int]) {
                    Some(e) => Some(e),
                    None => defect_of_all(ts, from + 1),
                }
            }
        }),
{
    reveal(defect_of_type);
    reveal(defect_of_schema);
    reveal(defect_of_all);
    reveal(defect_of_variant);
    reveal(defect_of_variants);
}

/// What [`defect_of_variant`] comes to, written out: its definition is not unfolded on its own.
pub proof fn lemma_def_defect_of_variant(variant: SpecVariant, tag_type: Primitive)
    ensures
        defect_of_variant(variant, tag_type) == ({
            match variant.mode {
                TagMode::Emit(tag) => if !tag_type.holds(tag as int) {
                    Some(SchemaError::TagOutOfRange)
                } else {
                    defect_of_all(variant.fields, 0)
                },
                TagMode::Keep => if variant.fields.len() == 0 {
                    Some(SchemaError::KeepTagOnUnit)
                } else if variant.fields[0] != SpecType::Primitive(tag_type) {
                    Some(SchemaError::KeepTagMismatch)
                } else {
                    defect_of_all(variant.fields, 0)
                },
                TagMode::Excluded => defect_of_all(variant.fields, 0),
                TagMode::ReadOnly => defect_of_all(variant.fields, 0),
            }
        }),
{
    reveal(defect_of_type);
    reveal(defect_of_schema);
    reveal(defect_of_all);
    reveal(defect_of_variant);
    reveal(defect_of_variants);
}

/// What [`defect_of_variants`] comes to, written out: its definition is not unfolded on its own.
pub proof fn lemma_def_defect_of_variants(variants: Seq<SpecVariant>,
    tag_type: Primitive,
    from: nat,
    default_seen: bool,)
    ensures
        defect_of_variants(variants, tag_type, from, default_seen) == ({
            if from >= variants.len() {
                None
            } else {
                let variant = variants[from as int];
                if default_seen && !(variant.mode is Excluded) {
                    Some(defect_behind_default(variant))
                } else {
                    match defect_of_variant(variant, tag_type) {
                        Some(e) => Some(e),
                        None => defect_of_variants(
                            variants,
                            tag_type,
                            from + 1,
                            default_seen || is_default(variant),
                        ),
                    }
                }
            }
        }),
{
    reveal(defect_of_type);
    reveal(defect_of_schema);
    reveal(defect_of_all);
    reveal(defect_of_variant);
    reveal(defect_of_variants);
}

/// A type is valid exactly when it has no defect.
pub proof fn lemma_valid_type(t: SpecType)
    ensures
        defect_of_type(t) is None <==> valid_type(t),
    decreases t, 0nat,
{
    lemma_def_defect_of_type(t);
    match t {
        SpecType::Composite(schema) => {
            lemma_valid_schema(*schema);
        },
        SpecType::FixedArray(item, _) => {
            lemma_valid_type(*item);
        },
        SpecType::Tuple(items) => {
            lemma_valid_all(items, 0);
        },
        SpecType::Sequence(item, _) => {
            lemma_valid_type(*item);
        },
        _ => {},
    }
}

/// A schema is valid exactly when it has no defect.
pub proof fn lemma_valid_schema(s: SpecSchema)
    ensures
        defect_of_schema(s) is None <==> valid_schema(s),
    decreases s, 0nat,
{
    lemma_def_defect_of_schema(s);
    match s {
        SpecSchema::Record { fields, .. } => {
            lemma_valid_all(fields, 0);
        },
        SpecSchema::Sum { tag_type, variants, .. } => {
            lemma_valid_variants(variants, tag_type, 0, false);
        },
    }
}

/// The types from `from` onwards are all valid exactly when none has a defect.
pub proof fn lemma_valid_all(ts: Seq<SpecType>, from: nat)
    ensures
        defect_of_all(ts, from) is None <==> forall|i: int|
            from <= i < ts.len() ==> valid_type(#[trigger] ts[i]),
    decreases ts, ts.len() - from,
{
    lemma_def_defect_of_all(ts, from);
    if from < ts.len() {
        lemma_valid_type(ts[from as int]);
        lemma_valid_all(ts, from + 1);
    }
}

/// A variant is valid exactly when it has no defect.
pub proof fn lemma_valid_variant(variant: SpecVariant, tag_type: Primitive)
    ensures
        defect_of_variant(variant, tag_type) is None <==> valid_variant(variant, tag_type),
    decreases variant, 0nat,
{
    lemma_def_defect_of_variant(variant, tag_type);
    lemma_valid_all(variant.fields, 0);
}

/// Whether a default variant is declared among the first `n` variants.
pub open spec fn default_before(variants: Seq<SpecVariant>, n: nat) -> bool {
    exists|i: int| 0 <= i < n && is_default(#[trigger] variants[i])
}

/// Whether, among the first `n` variants, only variants that never travel follow a default.
pub open spec fn default_is_last_before(variants: Seq<SpecVariant>, n: nat) -> bool {
    forall|i: int, j: int|
        0 <= i < j < n && is_default(#[trigger] variants[i]) ==> (#[trigger] variants[j]).mode is Excluded
}

/// The variants from `from` onwards have no defect exactly when they are all
/// valid and a default variant comes last, given that this holds of the
/// variants before them.
pub proof fn lemma_valid_variants(
    variants: Seq<SpecVariant>,
    tag_type: Primitive,
    from: nat,
    default_seen: bool,
)
    requires
        from <= variants.len(),
        default_seen == default_before(variants, from),
        default_is_last_before(variants, from),
    ensures
        defect_of_variants(variants, tag_type, from, default_seen) is None <==> {
            &&& default_is_last(variants)
            &&& forall|i: int|
                from <= i < variants.len() ==> valid_variant(#[trigger] variants[i], tag_type)
        },
    decreases variants, variants.len() - from,
{
    reveal(default_is_last);
    lemma_def_defect_of_variants(variants, tag_type, from, default_seen);
    if from < variants.len() {
        let variant = variants[from as int];
        if default_seen && !(variant.mode is Excluded) {
            let i = choose|i: int| 0 <= i < from && is_default(#[trigger] variants[i]);
            assert(is_default(variants[i]) && !(variants[from as int].mode is Excluded));
        } else {
            lemma_valid_variant(variant, tag_type);
            let seen = default_seen || is_default(variant);
            if is_default(variant) {
                assert(is_default(variants[from as int]));
            }
            assert(default_is_last_before(variants, from + 1)) by {
                assert forall|i: int, j: int|
                    0 <= i < j < from + 1 && is_default(
                        #[trigger] variants[i],
                    ) implies (#[trigger] variants[j]).mode is Excluded by {
                    if j == from {
                        assert(default_before(variants, from));
                    }
                }
            }
            assert(seen == default_before(variants, from + 1)) by {
                if default_before(variants, from + 1) {
                    let i = choose|i: int| 0 <= i < from + 1 && is_default(#[trigger] variants[i]);
                    if i < from {
                        assert(default_before(variants, from));
                    }
                }
                if default_seen {
                    let i = choose|i: int| 0 <= i < from && is_default(#[trigger] variants[i]);
                    assert(0 <= i < from + 1 && is_default(variants[i]));
                }
            }
            lemma_valid_variants(variants, tag_type, from + 1, seen);
        }
    }
}

impl Primitive {
    /// Whether the integer `x` is a value of this type.
    pub fn admits(self, x: i128) -> (b: bool)
        ensures
            b == self.holds(x as int),
    {
        proof {
            lemma_pow256_values();
        }
        match self {
            Primitive::Bool => 0 <= x && x <= 1,
            Primitive::U8 => 0 <= x && x <= 0xff,
            Primitive::U16 => 0 <= x && x <= 0xffff,
            Primitive::U32 => 0 <= x && x <= 0xffff_ffff,
            Primitive::U64 => 0 <= x && x <= 0xffff_ffff_ffff_ffff,
            Primitive::U128 => 0 <= x,
            Primitive::I8 => -0x80 <= x && x <= 0x7f,
            Primitive::I16 => -0x8000 <= x && x <= 0x7fff,
            Primitive::I32 => -0x8000_0000 <= x && x <= 0x7fff_ffff,
            Primitive::I64 => -0x8000_0000_0000_0000 <= x && x <= 0x7fff_ffff_ffff_ffff,
            Primitive::I128 => true,
            Primitive::F32 => false,
            Primitive::F64 => false,
        }
    }
}

/// What a check owes: the first defect as the failure, or success where there is none.
pub open spec fn reported(r: Result<(), SchemaError>, defect: Option<SchemaError>) -> bool {
    r == match defect {
        Some(e) => Err::<(), SchemaError>(e),
        None => Ok(()),
    }
}

impl Type {
    /// Checks that the type is valid, and says what its first defect is where it is not.
    pub fn check(&self) -> (r: Result<(), SchemaError>)
        ensures
            reported(r, defect_of_type(self@)),
            r is Ok <==> valid_type(self@),
        decreases self@, 0nat,
    {
        proof {
            lemma_def_defect_of_type(self@);
            lemma_valid_type(self@);
        }
        match self {
            Type::Composite(schema) => schema.check(),
            Type::FixedArray(item, _) => item.check(),
            Type::Tuple(items) => {
                proof {
                    lemma_view_tuple(*items);
                }
                check_all(items)
            },
            Type::Sequence(item, prefix) => {
                if !prefix.size_type.is_integral() {
                    Err(SchemaError::UnsupportedSizeType)
                } else {
                    item.check()
                }
            },
            _ => Ok(()),
        }
    }
}

impl Schema {
    /// Checks that the schema is valid, and says what its first defect is where it is not.
    pub fn check(&self) -> (r: Result<(), SchemaError>)
        ensures
            reported(r, defect_of_schema(self@)),
            r is Ok <==> valid_schema(self@),
        decreases self@, 0nat,
    {
        proof {
            lemma_def_defect_of_schema(self@);
            lemma_valid_schema(self@);
        }
        match self {
            Schema::Record { endianness, magic, fields } => {
                proof {
                    lemma_view_record(*endianness, *magic, *fields);
                }
                check_all(fields)
            },
            Schema::Sum { endianness, tag_type, variants } => {
                proof {
                    lemma_view_sum(*endianness, *tag_type, *variants);
                }
                if !tag_type.is_integral() {
                    return Err(SchemaError::UnsupportedTagType);
                }
                check_variants(variants, *tag_type)
            },
        }
    }
}

/// Checks the variants of a sum type whose discriminant has type `tag_type`.
pub fn check_variants(variants: &Vec<Variant>, tag_type: Primitive) -> (r: Result<(), SchemaError>)
    ensures
        reported(r, defect_of_variants(variant_views(variants@), tag_type, 0, false)),
    decreases variant_views(variants@), 0nat,
{
    let ghost vs = variant_views(variants@);
    let mut default_seen = false;
    let mut i: usize = 0;
    while i < variants.len()
        invariant
            i <= variants@.len(),
            vs == variant_views(variants@),
            defect_of_variants(vs, tag_type, 0, false) == defect_of_variants(
                vs,
                tag_type,
                i as nat,
                default_seen,
            ),
        decreases variants@.len() - i,
    {
        proof {
            lemma_def_defect_of_variants(vs, tag_type, i as nat, default_seen);
            lemma_view_variant_fields(variants@[i as int]);
        }
        let variant = &variants[i];
        let excluded = match variant.mode {
            TagMode::Excluded => true,
            _ => false,
        };
        if default_seen && !excluded {
            if variant.matches.len() == 0 {
                return Err(SchemaError::MultipleDefaults);
            } else {
                return Err(SchemaError::DefaultNotLast);
            }
        }
        match check_variant(variant, tag_type) {
            Err(e) => {
                return Err(e);
            },
            Ok(()) => {},
        }
        default_seen = default_seen || (!excluded && variant.matches.len() == 0);
        i = i + 1;
    }
    proof {
        lemma_def_defect_of_variants(vs, tag_type, i as nat, default_seen);
    }
    Ok(())
}

/// Checks one variant of a sum type whose discriminant has type `tag_type`.
pub fn check_variant(variant: &Variant, tag_type: Primitive) -> (r: Result<(), SchemaError>)
    ensures
        reported(r, defect_of_variant(variant@, tag_type)),
    decreases variant@, 1nat,
{
    proof {
        lemma_def_defect_of_variant(variant@, tag_type);
        lemma_view_variant_fields(*variant);
    }
    match variant.mode {
        TagMode::Emit(tag) => {
            if !tag_type.admits(tag) {
                return Err(SchemaError::TagOutOfRange);
            }
        },
        TagMode::Keep => {
            if variant.fields.len() == 0 {
                return Err(SchemaError::KeepTagOnUnit);
            }
            let first_is_tag = match &variant.fields[0] {
                Type::Primitive(kind) => *kind == tag_type,
                _ => false,
            };
            if !first_is_tag {
                return Err(SchemaError::KeepTagMismatch);
            }
        },
        TagMode::Excluded => {},
        TagMode::ReadOnly => {},
    }
    check_all(&variant.fields)
}

/// Checks every type of a run.
pub fn check_all(types: &Vec<Type>) -> (r: Result<(), SchemaError>)
    ensures
        reported(r, defect_of_all(type_views(types@), 0)),
    decreases type_views(types@), 0nat,
{
    let ghost ts = type_views(types@);
    let mut i: usize = 0;
    while i < types.len()
        invariant
            i <= types@.len(),
            ts == type_views(types@),
            defect_of_all(ts, 0) == defect_of_all(ts, i as nat),
        decreases types@.len() - i,
    {
        proof {
            lemma_def_defect_of_all(ts, i as nat);
        }
        match types[i].check() {
            Err(e) => {
                return Err(e);
            },
            Ok(()) => {},
        }
        i = i + 1;
    }
    proof {
        lemma_def_defect_of_all(ts, i as nat);
    }
    Ok(())
}

} // verus!
