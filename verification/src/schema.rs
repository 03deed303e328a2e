//! The description of a type's layout on the wire.
use crate::endian::Endianness;
use crate::primitive::{Primitive, Scalar};
use crate::value::{SpecValue, Value};
use vstd::prelude::*;

verus! {

/// How the length of a sequence is written in front of it.
#[derive(Clone, Copy, Debug, PartialEq, Eq, Structural)]
pub struct SizePrefix {
    /// The primitive that holds the length.
    pub size_type: Primitive,
    /// Whether the length counts the encoded bytes of the items rather than the items.
    pub byte_sized: bool,
}

/// A run of discriminant values, both ends included.
#[derive(Clone, Copy, Debug, PartialEq, Eq, Structural)]
pub struct TagRange {
    pub low: i128,
    pub high: i128,
}

/// What becomes of a variant's discriminant when the variant is written.
#[derive(Clone, Copy, Debug, PartialEq, Eq, Structural)]
pub enum TagMode {
    /// The given value is written in front of the payload.
    Emit(i128),
    /// The first field of the payload is the discriminant: nothing is written
    /// in front of it, and on decoding it receives the discriminant that was read.
    Keep,
    /// The variant never travels: it is not selected when decoding, and
    /// encoding it fails.
    Excluded,
    /// The variant is only read: it is selected when decoding like any
    /// other, but the discriminant that selected it is not kept and none is
    /// named to be written, so encoding it fails rather than write a
    /// discriminant that was never read.
    ReadOnly,
}

impl TagMode {
    /// Whether a variant of this mode can be written: its discriminant is
    /// named, or held by its first field.
    pub open spec fn is_written(self) -> bool {
        self is Emit || self is Keep
    }
}

/// The layout of one field.
#[derive(Debug, PartialEq, Eq)]
pub enum Type {
    /// A scalar of fixed width.
    Primitive(Primitive),
    /// A nested described type.
    Composite(Box<Schema>),
    /// Exactly so many items of one type, with no prefix.
    FixedArray(Box<Type>, usize),
    /// Items of the given types, one after the other.
    Tuple(Vec<Type>),
    /// Any number of items of one type behind a length prefix.
    Sequence(Box<Type>, SizePrefix),
    /// A field that never travels; decoding gives it the value held here.
    Skipped(Value),
    /// A field that never travels; decoding gives it the context of the call,
    /// and encoding makes it the context.
    ContextMarker,
}

/// One variant of a sum type.
#[derive(Debug, PartialEq, Eq)]
pub struct Variant {
    /// The discriminants that select the variant when decoding.  A variant
    /// with none is the default, which takes every discriminant.
    pub matches: Vec<TagRange>,
    pub mode: TagMode,
    pub fields: Vec<Type>,
}

/// The layout of a described type.
#[derive(Debug, PartialEq, Eq)]
pub enum Schema {
    /// Fields one after the other, behind the magic constant if there is one.
    Record { endianness: Option<Endianness>, magic: Option<Scalar>, fields: Vec<Type> },
    /// A discriminant of type `tag_type`, then the payload of the variant it selects.
    Sum { endianness: Option<Endianness>, tag_type: Primitive, variants: Vec<Variant> },
}

/// The mathematical content of a [`Type`].
pub enum SpecType {
    Primitive(Primitive),
    Composite(Box<SpecSchema>),
    FixedArray(Box<SpecType>, nat),
    Tuple(Seq<SpecType>),
    Sequence(Box<SpecType>, SizePrefix),
    Skipped(SpecValue),
    ContextMarker,
}

/// The mathematical content of a [`Variant`].
pub struct SpecVariant {
    pub matches: Seq<TagRange>,
    pub mode: TagMode,
    pub fields: Seq<SpecType>,
}

/// The mathematical content of a [`Schema`].
pub enum SpecSchema {
    Record { endianness: Option<Endianness>, magic: Option<Scalar>, fields: Seq<SpecType> },
    Sum { endianness: Option<Endianness>, tag_type: Primitive, variants: Seq<SpecVariant> },
}

impl Type {
    /// The content of the type.
    pub open spec fn model(&self) -> SpecType
        decreases self,
    {
        match self {
            Type::Primitive(kind) => SpecType::Primitive(*kind),
            Type::Composite(schema) => SpecType::Composite(Box::new(schema.model())),
            Type::FixedArray(item, count) => SpecType::FixedArray(
                Box::new(item.model()),
                *count as nat,
            ),
            Type::Tuple(items) => SpecType::Tuple(
                Seq::new(
                    items@.len(),
                    |i: int|
                        if 0 <= i < items@.len() {
                            items@[i].model()
                        } else {
                            SpecType::ContextMarker
                        },
                ),
            ),
            Type::Sequence(item, prefix) => SpecType::Sequence(Box::new(item.model()), *prefix),
            Type::Skipped(default) => SpecType::Skipped(default@),
            Type::ContextMarker => SpecType::ContextMarker,
        }
    }
}

impl Variant {
    /// The content of the variant.
    pub open spec fn model(&self) -> SpecVariant
        decreases self,
    {
        SpecVariant {
            matches: self.matches@,
            mode: self.mode,
            fields: Seq::new(
                self.fields@.len(),
                |i: int|
                    if 0 <= i < self.fields@.len() {
                        self.fields@[i].model()
                    } else {
                        SpecType::ContextMarker
                    },
            ),
        }
    }
}

impl Schema {
    /// The content of the schema.
    pub open spec fn model(&self) -> SpecSchema
        decreases self,
    {
        match self {
            Schema::Record { endianness, magic, fields } => SpecSchema::Record {
                endianness: *endianness,
                magic: *magic,
                fields: Seq::new(
                    fields@.len(),
                    |i: int|
                        if 0 <= i < fields@.len() {
                            fields@[i].model()
                        } else {
                            SpecType::ContextMarker
                        },
                ),
            },
            Schema::Sum { endianness, tag_type, variants } => SpecSchema::Sum {
                endianness: *endianness,
                tag_type: *tag_type,
                variants: Seq::new(
                    variants@.len(),
                    |i: int|
                        if 0 <= i < variants@.len() {
                            variants@[i].model()
                        } else {
                            SpecVariant {
                                matches: Seq::empty(),
                                mode: TagMode::Excluded,
                                fields: Seq::empty(),
                            }
                        },
                ),
            },
        }
    }
}

impl View for Type {
    type V = SpecType;

    open spec fn view(&self) -> SpecType {
        self.model()
    }
}

impl View for Variant {
    type V = SpecVariant;

    open spec fn view(&self) -> SpecVariant {
        self.model()
    }
}

impl View for Schema {
    type V = SpecSchema;

    open spec fn view(&self) -> SpecSchema {
        self.model()
    }
}

/// The contents of a run of types.
pub open spec fn type_views(types: Seq<Type>) -> Seq<SpecType> {
    types.map_values(|t: Type| t@)
}

/// The contents of a run of variants.
pub open spec fn variant_views(variants: Seq<Variant>) -> Seq<SpecVariant> {
    variants.map_values(|v: Variant| v@)
}

/// What a tuple type is made of.
pub proof fn lemma_view_tuple(items: Vec<Type>)
    ensures
        Type::Tuple(items)@ == SpecType::Tuple(type_views(items@)),
{
    assert(Type::Tuple(items)@->Tuple_0 =~= type_views(items@));
}

/// What a variant is made of.
pub proof fn lemma_view_variant_fields(variant: Variant)
    ensures
        variant@.matches == variant.matches@,
        variant@.mode == variant.mode,
        variant@.fields == type_views(variant.fields@),
{
    assert(variant@.fields =~= type_views(variant.fields@));
}

/// What a record schema is made of.
pub proof fn lemma_view_record(endianness: Option<Endianness>, magic: Option<Scalar>, fields: Vec<Type>)
    ensures
        (Schema::Record { endianness, magic, fields })@ == (SpecSchema::Record {
            endianness,
            magic,
            fields: type_views(fields@),
        }),
{
    let s = Schema::Record { endianness, magic, fields };
    assert(s@->Record_fields =~= type_views(fields@));
}

/// What a sum schema is made of.
pub proof fn lemma_view_sum(endianness: Option<Endianness>, tag_type: Primitive, variants: Vec<Variant>)
    ensures
        (Schema::Sum { endianness, tag_type, variants })@ == (SpecSchema::Sum {
            endianness,
            tag_type,
            variants: variant_views(variants@),
        }),
{
    let s = Schema::Sum { endianness, tag_type, variants };
    assert(s@->Sum_variants =~= variant_views(variants@));
}

/// Adding a type to a run adds its content to the run's contents.
pub proof fn lemma_type_views_push(types: Seq<Type>, t: Type)
    ensures
        type_views(types.push(t)) == type_views(types).push(t@),
{
    assert(type_views(types.push(t)) =~= type_views(types).push(t@));
}

/// Adding a variant to a run adds its content to the run's contents.
pub proof fn lemma_variant_views_push(variants: Seq<Variant>, v: Variant)
    ensures
        variant_views(variants.push(v)) == variant_views(variants).push(v@),
{
    assert(variant_views(variants.push(v)) =~= variant_views(variants).push(v@));
}

/// A copy of a run of types.
fn clone_types(types: &Vec<Type>) -> (copy: Vec<Type>)
    ensures
        type_views(copy@) == type_views(types@),
    decreases type_views(types@), 0nat,
{
    let mut copy: Vec<Type> = Vec::new();
    let mut i: usize = 0;
    while i < types.len()
        invariant
            i <= types@.len(),
            copy@.len() == i,
            type_views(copy@) == type_views(types@.take(i as int)),
        decreases types@.len() - i,
    {
        assert(type_views(types@)[i as int] == types@[i as int]@);
        let item = types[i].clone();
        proof {
            lemma_type_views_push(copy@, item);
            lemma_type_views_push(types@.take(i as int), types@[i as int]);
            assert(types@.take(i + 1) =~= types@.take(i as int).push(types@[i as int]));
        }
        copy.push(item);
        i = i + 1;
    }
    proof {
        assert(types@.take(types@.len() as int) =~= types@);
    }
    copy
}

/// A copy of a run of discriminant ranges.
pub fn clone_ranges(ranges: &Vec<TagRange>) -> (copy: Vec<TagRange>)
    ensures
        copy@ == ranges@,
{
    let mut copy: Vec<TagRange> = Vec::new();
    let mut i: usize = 0;
    while i < ranges.len()
        invariant
            i <= ranges@.len(),
            copy@ == ranges@.take(i as int),
        decreases ranges@.len() - i,
    {
        copy.push(ranges[i]);
        proof {
            assert(ranges@.take(i + 1) =~= ranges@.take(i as int).push(ranges@[i as int]));
        }
        i = i + 1;
    }
    proof {
        assert(ranges@.take(ranges@.len() as int) =~= ranges@);
    }
    copy
}

impl Clone for Type {
    /// A copy with the same content.
    fn clone(&self) -> (copy: Self)
        ensures
            copy@ == self@,
        decreases self@, 0nat,
    {
        match self {
            Type::Primitive(kind) => Type::Primitive(*kind),
            Type::Composite(schema) => {
                assert(*self@->Composite_0 == schema@);
                Type::Composite(Box::new((**schema).clone()))
            },
            Type::FixedArray(item, count) => {
                assert(*self@->FixedArray_0 == item@);
                Type::FixedArray(Box::new((**item).clone()), *count)
            },
            Type::Tuple(items) => {
                proof {
                    lemma_view_tuple(*items);
                    assert(self@->Tuple_0 == type_views(items@));
                }
                let copy = clone_types(items);
                proof {
                    lemma_view_tuple(copy);
                }
                Type::Tuple(copy)
            },
            Type::Sequence(item, prefix) => {
                assert(*self@->Sequence_0 == item@);
                Type::Sequence(Box::new((**item).clone()), *prefix)
            },
            Type::Skipped(default) => Type::Skipped(default.clone()),
            Type::ContextMarker => Type::ContextMarker,
        }
    }
}

impl Clone for Variant {
    /// A copy with the same content.
    fn clone(&self) -> (copy: Self)
        ensures
            copy@ == self@,
        decreases self@, 0nat,
    {
        proof {
            lemma_view_variant_fields(*self);
            assert(self@.fields == type_views(self.fields@));
        }
        let copy = Variant {
            matches: clone_ranges(&self.matches),
            mode: self.mode,
            fields: clone_types(&self.fields),
        };
        proof {
            lemma_view_variant_fields(copy);
        }
        copy
    }
}

impl Clone for Schema {
    /// A copy with the same content.
    fn clone(&self) -> (copy: Self)
        ensures
            copy@ == self@,
        decreases self@, 0nat,
    {
        match self {
            Schema::Record { endianness, magic, fields } => {
                proof {
                    lemma_view_record(*endianness, *magic, *fields);
                    assert(self@->Record_fields == type_views(fields@));
                }
                let copy = clone_types(fields);
                proof {
                    lemma_view_record(*endianness, *magic, copy);
                }
                Schema::Record { endianness: *endianness, magic: *magic, fields: copy }
            },
            Schema::Sum { endianness, tag_type, variants } => {
                proof {
                    lemma_view_sum(*endianness, *tag_type, *variants);
                    assert(self@->Sum_variants == variant_views(variants@));
                }
                let mut copy: Vec<Variant> = Vec::new();
                let mut i: usize = 0;
                while i < variants.len()
                    invariant
                        i <= variants@.len(),
                        copy@.len() == i,
                        self@ is Sum,
                        self@->Sum_variants == variant_views(variants@),
                        variant_views(copy@) == variant_views(variants@.take(i as int)),
                    decreases variants@.len() - i,
                {
                    assert(self@->Sum_variants[i as int] == variants@[i as int]@);
                    let item = variants[i].clone();
                    proof {
                        lemma_variant_views_push(copy@, item);
                        lemma_variant_views_push(variants@.take(i as int), variants@[i as int]);
                        assert(variants@.take(i + 1) =~= variants@.take(i as int).push(
                            variants@[i as int],
                        ));
                    }
                    copy.push(item);
                    i = i + 1;
                }
                proof {
                    assert(variants@.take(variants@.len() as int) =~= variants@);
                    lemma_view_sum(*endianness, *tag_type, copy);
                }
                Schema::Sum { endianness: *endianness, tag_type: *tag_type, variants: copy }
            },
        }
    }
}

} // verus!
