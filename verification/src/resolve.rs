//! From a declaration to the layout it declares.
use crate::attributes::{applied_attrs, inherited, no_attributes, Attributes, AttributesModel};
use crate::declare::{
    registered, Argument, Arguments, Data, Declaration, FieldDecl, FieldsDecl, Registry,
    TypeExpr, VariantDecl,
};
use crate::error::SchemaError;
use crate::primitive::{Primitive, Scalar};
use crate::schema::{
    lemma_type_views_push, lemma_variant_views_push, lemma_view_record, lemma_view_sum,
    lemma_view_tuple, lemma_view_variant_fields, type_views, variant_views, Schema, SizePrefix,
    SpecSchema, SpecType, SpecVariant, TagMode, TagRange, Type, Variant,
};
use crate::text::{is_text, same_text};
use crate::typing::valid_schema;
use crate::validity::defect_of_schema;
use crate::value::{lemma_view_list, views, SpecValue, Value};
use vstd::prelude::*;

verus! {

/// The primitive that a name stands for.
pub open spec fn primitive_named(name: Seq<char>) -> Option<Primitive> {
    if name == "bool"@ {
        Some(Primitive::Bool)
    } else if name == "f32"@ {
        Some(Primitive::F32)
    } else if name == "f64"@ {
        Some(Primitive::F64)
    } else if name == "i8"@ {
        Some(Primitive::I8)
    } else if name == "i16"@ {
        Some(Primitive::I16)
    } else if name == "i32"@ {
        Some(Primitive::I32)
    } else if name == "i64"@ {
        Some(Primitive::I64)
    } else if name == "i128"@ {
        Some(Primitive::I128)
    } else if name == "u8"@ {
        Some(Primitive::U8)
    } else if name == "u16"@ {
        Some(Primitive::U16)
    } else if name == "u32"@ {
        Some(Primitive::U32)
    } else if name == "u64"@ {
        Some(Primitive::U64)
    } else if name == "u128"@ {
        Some(Primitive::U128)
    } else {
        None
    }
}

/// The value a field that never travels gets where its declaration names none: an empty list.
pub open spec fn placeholder() -> SpecValue {
    SpecValue::List(Seq::empty())
}

/// The layout of a type as it is written, under the settings in force.
///
/// A single name of a primitive is that primitive.  A path that starts with
/// `Vec` is a sequence: it must be `Vec` alone with exactly one type in angle
/// brackets, and the settings must name the primitive of its length prefix.
/// Any other path is looked up in the registry by its last name.  Tuples and
/// arrays are built from the layouts of their items.
#[verifier::opaque]
pub open spec fn resolved_shape(ty: TypeExpr, a: AttributesModel, registry: Registry) -> Result<
    SpecType,
    SchemaError,
>
    decreases ty, 0nat,
{
    match ty {
        TypeExpr::Path(segments) => {
            let n = segments@.len();
            if n == 1 && segments@[0].arguments is Absent && primitive_named(segments@[0].name@) is Some {
                Ok(SpecType::Primitive(primitive_named(segments@[0].name@)->Some_0))
            } else if n >= 1 && segments@[0].name@ == "Vec"@ {
                if n != 1 {
                    Err(SchemaError::NotSimpleVec)
                } else {
                    match segments@[0].arguments {
                        Arguments::AngleBracketed(args) => if args@.len() != 1 {
                            Err(SchemaError::NotVecOfSingleType)
                        } else {
                            match args@[0] {
                                Argument::Type(item) => match a.size_type {
                                    None => Err(SchemaError::MissingSizeType),
                                    Some(name) => match primitive_named(name) {
                                        None => Err(SchemaError::UnsupportedSizeType),
                                        Some(size_type) => match resolved_shape(item, a, registry) {
                                            Ok(t) => Ok(
                                                SpecType::Sequence(
                                                    Box::new(t),
                                                    SizePrefix { size_type, byte_sized: a.byte_sized },
                                                ),
                                            ),
                                            Err(e) => Err(e),
                                        },
                                    },
                                },
                                Argument::Other => Err(SchemaError::VecItemNotAllowed),
                            }
                        },
                        _ => Err(SchemaError::NotVecOfType),
                    }
                }
            } else if n >= 1 {
                match registered(registry.entries@, segments@[n - 1].name@, 0) {
                    Some(t) => Ok(t),
                    None => Err(SchemaError::UnknownType),
                }
            } else {
                Err(SchemaError::UnsupportedType)
            }
        },
        TypeExpr::Tuple(items) => match resolved_shapes(items@, a, registry, 0) {
            Ok(ts) => Ok(SpecType::Tuple(ts)),
            Err(e) => Err(e),
        },
        TypeExpr::Array(item, count) => match resolved_shape(*item, a, registry) {
            Ok(t) => Ok(SpecType::FixedArray(Box::new(t), count as nat)),
            Err(e) => Err(e),
        },
        TypeExpr::Other => Err(SchemaError::UnsupportedType),
    }
}

/// The layouts of the types `items[from..]` as they are written, in order.
#[verifier::opaque]
pub open spec fn resolved_shapes(
    items: Seq<TypeExpr>,
    a: AttributesModel,
    registry: Registry,
    from: nat,
) -> Result<Seq<SpecType>, SchemaError>
    decreases items, items.len() - from,
{
    if from >= items.len() {
        Ok(Seq::empty())
    } else {
        match resolved_shape(items[from as int], a, registry) {
            Err(e) => Err(e),
            Ok(t) => first_of(t, resolved_shapes(items, a, registry, from + 1)),
        }
    }
}

/// One more item in front of the items worked out behind it.
pub open spec fn first_of<T>(first: T, rest: Result<Seq<T>, SchemaError>) -> Result<
    Seq<T>,
    SchemaError,
> {
    match rest {
        Ok(items) => Ok(seq![first] + items),
        Err(e) => Err(e),
    }
}

/// Whether a layout is the primitive that the settings name for the discriminant.
pub open spec fn is_tag_type(t: SpecType, a: AttributesModel) -> bool {
    t matches SpecType::Primitive(kind) && a.tag_type matches Some(name) && primitive_named(name)
        == Some(kind)
}

/// The layout of a field.  A field that never travels is skipped with the
/// value it gets on decoding, whatever its type; a field that holds the
/// context is a context marker, whatever its type; any other field has the
/// layout of its type, which for the field that keeps the discriminant must
/// be the discriminant's type.
pub open spec fn resolved_item(
    ty: TypeExpr,
    is_tag: bool,
    a: AttributesModel,
    default: Option<Value>,
    registry: Registry,
) -> Result<SpecType, SchemaError> {
    if a.skip {
        Ok(
            SpecType::Skipped(
                match default {
                    Some(v) => v@,
                    None => placeholder(),
                },
            ),
        )
    } else if a.is_context {
        Ok(SpecType::ContextMarker)
    } else {
        match resolved_shape(ty, a, registry) {
            Ok(t) => if is_tag && !is_tag_type(t, a) {
                Err(SchemaError::KeepTagMismatch)
            } else {
                Ok(t)
            },
            Err(e) => Err(e),
        }
    }
}

/// The layout of the field at place `index` among the fields of a record
/// or a variant whose settings are `a`: the field's own attributes are read
/// over those settings, and the first field keeps the discriminant where the
/// settings say so.
pub open spec fn resolved_field(field: FieldDecl, index: nat, a: AttributesModel, registry: Registry) -> Result<
    SpecType,
    SchemaError,
> {
    match applied_attrs(inherited(a), field.attrs@, 0) {
        Err(e) => Err(e),
        Ok(own) => resolved_item(field.ty, index == 0 && a.keep_tag, own, field.default, registry),
    }
}

/// The layouts of the fields `fields[from..]`, in order.
pub open spec fn resolved_field_list(
    fields: Seq<FieldDecl>,
    a: AttributesModel,
    registry: Registry,
    from: nat,
) -> Result<Seq<SpecType>, SchemaError>
    decreases fields.len() - from,
{
    if from >= fields.len() {
        Ok(Seq::empty())
    } else {
        match resolved_field(fields[from as int], from, a, registry) {
            Err(e) => Err(e),
            Ok(t) => first_of(t, resolved_field_list(fields, a, registry, from + 1)),
        }
    }
}

/// The layouts of the fields of a record or a variant.  Where there are no
/// fields at all, none can keep the discriminant.
pub open spec fn resolved_fields(fields: FieldsDecl, a: AttributesModel, registry: Registry) -> Result<
    Seq<SpecType>,
    SchemaError,
> {
    match fields {
        FieldsDecl::Named(list) => resolved_field_list(list@, a, registry, 0),
        FieldsDecl::Unnamed(list) => resolved_field_list(list@, a, registry, 0),
        FieldsDecl::Unit => if a.keep_tag {
            Err(SchemaError::KeepTagOnUnit)
        } else {
            Ok(Seq::empty())
        },
    }
}

/// What becomes of the discriminant of a variant with the given settings
/// and so many fields.
///
/// A variant that never travels is excluded; one that keeps its
/// discriminant keeps it.  A variant with a match rule writes the single
/// value that the rule names, and the rule must name a single value.  A
/// variant without a match rule, the default, is only read where it has no
/// fields: every discriminant that no earlier variant takes selects it, none
/// of them is kept, and so there is none to write.  A default with fields
/// must keep its discriminant.
pub open spec fn resolved_mode(a: AttributesModel, fields: nat) -> Result<TagMode, SchemaError> {
    if a.skip {
        Ok(TagMode::Excluded)
    } else if a.keep_tag {
        Ok(TagMode::Keep)
    } else {
        match a.tag {
            Some(ranges) => if ranges.len() == 1 && ranges[0].low == ranges[0].high {
                Ok(TagMode::Emit(ranges[0].low))
            } else {
                Err(SchemaError::MissingTag)
            },
            None => if fields == 0 {
                Ok(TagMode::ReadOnly)
            } else {
                Err(SchemaError::MissingTag)
            },
        }
    }
}

/// The discriminants that select a variant with the given settings.
pub open spec fn resolved_matches(a: AttributesModel) -> Seq<TagRange> {
    match a.tag {
        Some(ranges) => ranges,
        None => Seq::empty(),
    }
}

/// The defect of a variant that travels although a default variant is declared before it.
pub open spec fn defect_after_default(a: AttributesModel) -> SchemaError {
    if a.tag is None {
        SchemaError::MultipleDefaults
    } else {
        SchemaError::DefaultNotLast
    }
}

/// The layout of a variant of a sum type whose settings are `a`, where
/// `default_done` says whether a default variant is declared before it.
pub open spec fn resolved_variant(
    variant: VariantDecl,
    a: AttributesModel,
    registry: Registry,
    default_done: bool,
) -> Result<(SpecVariant, AttributesModel), SchemaError> {
    match applied_attrs(inherited(a), variant.attrs@, 0) {
        Err(e) => Err(e),
        Ok(own) => if default_done && !own.skip {
            Err(defect_after_default(own))
        } else {
            match resolved_fields(variant.fields, own, registry) {
                Err(e) => Err(e),
                Ok(fields) => match resolved_mode(own, fields.len()) {
                    Err(e) => Err(e),
                    Ok(mode) => Ok(
                        (SpecVariant { matches: resolved_matches(own), mode, fields }, own),
                    ),
                },
            }
        },
    }
}

/// The layouts of the variants `variants[from..]`, in order.
pub open spec fn resolved_variants(
    variants: Seq<VariantDecl>,
    a: AttributesModel,
    registry: Registry,
    from: nat,
    default_done: bool,
) -> Result<Seq<SpecVariant>, SchemaError>
    decreases variants.len() - from,
{
    if from >= variants.len() {
        Ok(Seq::empty())
    } else {
        match resolved_variant(variants[from as int], a, registry, default_done) {
            Err(e) => Err(e),
            Ok((variant, own)) => first_of(
                variant,
                resolved_variants(
                    variants,
                    a,
                    registry,
                    from + 1,
                    default_done || (!own.skip && own.tag is None),
                ),
            ),
        }
    }
}

/// The magic constant that the settings declare, if they declare one: a
/// value of the primitive they name.
pub open spec fn resolved_magic(a: AttributesModel) -> Result<Option<Scalar>, SchemaError> {
    match a.magic {
        None => Ok(None),
        Some((name, value)) => match primitive_named(name) {
            Some(kind) => if kind.holds(value as int) {
                Ok(Some(Scalar::spec_from_int(kind, value as int)))
            } else {
                Err(SchemaError::UnsupportedMagic)
            },
            None => Err(SchemaError::UnsupportedMagic),
        },
    }
}

/// The schema that a declaration declares, before it is checked as a whole.
pub open spec fn resolved_declaration(input: Declaration, registry: Registry) -> Result<
    SpecSchema,
    SchemaError,
> {
    match applied_attrs(no_attributes(), input.attrs@, 0) {
        Err(e) => Err(e),
        Ok(a) => match input.data {
            Data::Struct(fields) => match resolved_fields(fields, a, registry) {
                Err(e) => Err(e),
                Ok(fields) => match resolved_magic(a) {
                    Err(e) => Err(e),
                    Ok(magic) => Ok(SpecSchema::Record { endianness: a.endianness, magic, fields }),
                },
            },
            Data::Enum(variants) => match a.tag_type {
                None => Err(SchemaError::MissingTagType),
                Some(name) => match primitive_named(name) {
                    None => Err(SchemaError::UnsupportedTagType),
                    Some(tag_type) => match resolved_variants(variants@, a, registry, 0, false) {
                        Err(e) => Err(e),
                        Ok(variants) => Ok(
                            SpecSchema::Sum { endianness: a.endianness, tag_type, variants },
                        ),
                    },
                },
            },
        },
    }
}

/// The schema that a declaration declares: the one worked out from it,
/// where that one is valid, or else its first defect.
pub open spec fn declared_schema(input: Declaration, registry: Registry) -> Result<
    SpecSchema,
    SchemaError,
> {
    match resolved_declaration(input, registry) {
        Err(e) => Err(e),
        Ok(s) => match defect_of_schema(s) {
            Some(e) => Err(e),
            None => Ok(s),
        },
    }
}

/// What [`resolved_shape`] comes to, written out: its definition is not unfolded on its own.
pub proof fn lemma_def_resolved_shape(ty: TypeExpr, a: AttributesModel, registry: Registry)
    ensures
        resolved_shape(ty, a, registry) == ({
            match ty {
                TypeExpr::Path(segments) => {
                    let n = segments@.len();
                    if n == 1 && segments@[0].arguments is Absent && primitive_named(segments@[0].name@) is Some {
                        Ok(SpecType::Primitive(primitive_named(segments@[0].name@)->Some_0))
                    } else if n >= 1 && segments@[0].name@ == "Vec"@ {
                        if n != 1 {
                            Err(SchemaError::NotSimpleVec)
                        } else {
                            match segments@[0].arguments {
                                Arguments::AngleBracketed(args) => if args@.len() != 1 {
                                    Err(SchemaError::NotVecOfSingleType)
                                } else {
                                    match args@[0] {
                                        Argument::Type(item) => match a.size_type {
                                            None => Err(SchemaError::MissingSizeType),
                                            Some(name) => match primitive_named(name) {
                                                None => Err(SchemaError::UnsupportedSizeType),
                                                Some(size_type) => match resolved_shape(item, a, registry) {
                                                    Ok(t) => Ok(
                                                        SpecType::Sequence(
                                                            Box::new(t),
                                                            SizePrefix { size_type, byte_sized: a.byte_sized },
                                                        ),
                                                    ),
                                                    Err(e) => Err(e),
                                                },
                                            },
                                        },
                                        Argument::Other => Err(SchemaError::VecItemNotAllowed),
                                    }
                                },
                                _ => Err(SchemaError::NotVecOfType),
                            }
                        }
                    } else if n >= 1 {
                        match registered(registry.entries@, segments@[n - 1].name@, 0) {
                            Some(t) => Ok(t),
                            None => Err(SchemaError::UnknownType),
                        }
                    } else {
                        Err(SchemaError::UnsupportedType)
                    }
                },
                TypeExpr::Tuple(items) => match resolved_shapes(items@, a, registry, 0) {
                    Ok(ts) => Ok(SpecType::Tuple(ts)),
                    Err(e) => Err(e),
                },
                TypeExpr::Array(item, count) => match resolved_shape(*item, a, registry) {
                    Ok(t) => Ok(SpecType::FixedArray(Box::new(t), count as nat)),
                    Err(e) => Err(e),
                },
                TypeExpr::Other => Err(SchemaError::UnsupportedType),
            }
        }),
{
    reveal(resolved_shape);
    reveal(resolved_shapes);
}

/// What [`resolved_shapes`] comes to, written out: its definition is not unfolded on its own.
pub proof fn lemma_def_resolved_shapes(items: Seq<TypeExpr>,
    a: AttributesModel,
    registry: Registry,
    from: nat,)
    ensures
        resolved_shapes(items, a, registry, from) == ({
            if from >= items.len() {
                Ok(Seq::empty())
            } else {
                match resolved_shape(items[from as int], a, registry) {
                    Err(e) => Err(e),
                    Ok(t) => first_of(t, resolved_shapes(items, a, registry, from + 1)),
                }
            }
        }),
{
    reveal(resolved_shape);
    reveal(resolved_shapes);
}

/// The items worked out so far in front of those still to come.
pub open spec fn joined<T>(done: Seq<T>, rest: Result<Seq<T>, SchemaError>) -> Result<
    Seq<T>,
    SchemaError,
> {
    match rest {
        Ok(items) => Ok(done + items),
        Err(e) => Err(e),
    }
}

/// Working out one more item moves it from those to come to those done.
pub proof fn lemma_joined_step<T>(done: Seq<T>, first: T, rest: Result<Seq<T>, SchemaError>)
    ensures
        joined(done, first_of(first, rest)) == joined(done.push(first), rest),
{
    if let Ok(items) = rest {
        assert(done + (seq![first] + items) =~= done.push(first) + items);
    }
}

/// With nothing done, everything is still to come; with nothing to come, what is done is all.
pub proof fn lemma_joined_ends<T>(done: Seq<T>, rest: Result<Seq<T>, SchemaError>)
    ensures
        joined(Seq::empty(), rest) == rest,
        joined(done, Ok(Seq::empty())) == Ok::<Seq<T>, SchemaError>(done),
{
    if let Ok(items) = rest {
        assert(Seq::<T>::empty() + items =~= items);
    }
    assert(done + Seq::<T>::empty() =~= done);
}

/// What working out one layout owes: the layout as specified, or the failure.
pub open spec fn resolved_as(r: Result<Type, SchemaError>, expected: Result<SpecType, SchemaError>) -> bool {
    match expected {
        Ok(t) => r matches Ok(found) && found@ == t,
        Err(e) => r matches Err(failure) && failure == e,
    }
}

/// What working out a run of layouts owes.
pub open spec fn resolved_all_as(r: Result<Vec<Type>, SchemaError>, expected: Result<
    Seq<SpecType>,
    SchemaError,
>) -> bool {
    match expected {
        Ok(ts) => r matches Ok(found) && type_views(found@) == ts,
        Err(e) => r matches Err(failure) && failure == e,
    }
}

/// The primitive that a name stands for.
pub fn primitive_of(name: &str) -> (kind: Option<Primitive>)
    ensures
        kind == primitive_named(name@),
{
    if same_text(name, "bool") {
        Some(Primitive::Bool)
    } else if same_text(name, "f32") {
        Some(Primitive::F32)
    } else if same_text(name, "f64") {
        Some(Primitive::F64)
    } else if same_text(name, "i8") {
        Some(Primitive::I8)
    } else if same_text(name, "i16") {
        Some(Primitive::I16)
    } else if same_text(name, "i32") {
        Some(Primitive::I32)
    } else if same_text(name, "i64") {
        Some(Primitive::I64)
    } else if same_text(name, "i128") {
        Some(Primitive::I128)
    } else if same_text(name, "u8") {
        Some(Primitive::U8)
    } else if same_text(name, "u16") {
        Some(Primitive::U16)
    } else if same_text(name, "u32") {
        Some(Primitive::U32)
    } else if same_text(name, "u64") {
        Some(Primitive::U64)
    } else if same_text(name, "u128") {
        Some(Primitive::U128)
    } else {
        None
    }
}

/// Whether the name is that of a primitive.
pub fn supported_type(ty: &str) -> (supported: bool)
    ensures
        supported == primitive_named(ty@) is Some,
{
    primitive_of(ty).is_some()
}

/// The number of bytes of the primitive of the given name.
pub fn known_size(ty: &str) -> (size: usize)
    requires
        primitive_named(ty@) is Some,
    ensures
        size == primitive_named(ty@)->Some_0.width(),
{
    match primitive_of(ty) {
        Some(kind) => kind.size(),
        None => vstd::pervasive::unreached(),
    }
}

/// Works out the layout of a type as it is written, under the settings in force.
pub fn generate_shape(ty: &TypeExpr, attributes: &Attributes, registry: &Registry) -> (r: Result<
    Type,
    SchemaError,
>)
    ensures
        resolved_as(r, resolved_shape(*ty, attributes@, *registry)),
    decreases ty, 0nat,
{
    proof {
        lemma_def_resolved_shape(*ty, attributes@, *registry);
    }
    match ty {
        TypeExpr::Path(segments) => {
            let n = segments.len();
            if n == 1 {
                let plain = match segments[0].arguments {
                    Arguments::Absent => true,
                    _ => false,
                };
                if plain {
                    match primitive_of(segments[0].name.as_str()) {
                        Some(kind) => {
                            return Ok(Type::Primitive(kind));
                        },
                        None => {},
                    }
                }
            }
            if n >= 1 && is_text(&segments[0].name, "Vec") {
                if n != 1 {
                    return Err(SchemaError::NotSimpleVec);
                }
                match &segments[0].arguments {
                    Arguments::AngleBracketed(args) => {
                        if args.len() != 1 {
                            return Err(SchemaError::NotVecOfSingleType);
                        }
                        match &args[0] {
                            Argument::Type(item) => {
                                let size_type = match &attributes.size_type {
                                    None => {
                                        return Err(SchemaError::MissingSizeType);
                                    },
                                    Some(name) => match primitive_of(name.as_str()) {
                                        None => {
                                            return Err(SchemaError::UnsupportedSizeType);
                                        },
                                        Some(kind) => kind,
                                    },
                                };
                                match generate_shape(item, attributes, registry) {
                                    Ok(t) => Ok(
                                        Type::Sequence(
                                            Box::new(t),
                                            SizePrefix { size_type, byte_sized: attributes.byte_sized },
                                        ),
                                    ),
                                    Err(e) => Err(e),
                                }
                            },
                            Argument::Other => Err(SchemaError::VecItemNotAllowed),
                        }
                    },
                    _ => Err(SchemaError::NotVecOfType),
                }
            } else if n >= 1 {
                match registry.find(&segments[n - 1].name) {
                    Some(t) => Ok(t.clone()),
                    None => Err(SchemaError::UnknownType),
                }
            } else {
                Err(SchemaError::UnsupportedType)
            }
        },
        TypeExpr::Tuple(items) => {
            let ghost whole = resolved_shapes(items@, attributes@, *registry, 0);
            let mut types: Vec<Type> = Vec::new();
            let mut i: usize = 0;
            proof {
                lemma_joined_ends(type_views(types@), whole);
                assert(type_views(types@) =~= Seq::<SpecType>::empty());
            }
            while i < items.len()
                invariant
                    i <= items@.len(),
                    *ty == TypeExpr::Tuple(*items),
                    whole == resolved_shapes(items@, attributes@, *registry, 0),
                    whole == joined(
                        type_views(types@),
                        resolved_shapes(items@, attributes@, *registry, i as nat),
                    ),
                decreases items@.len() - i,
            {
                proof {
                    lemma_def_resolved_shapes(items@, attributes@, *registry, i as nat);
                    assert(ty->Tuple_0 == *items);
                    assert(decreases_to!(ty => items@[i as int]));
                }
                match generate_shape(&items[i], attributes, registry) {
                    Err(e) => {
                        proof {
                            lemma_def_resolved_shape(*ty, attributes@, *registry);
                        }
                        return Err(e);
                    },
                    Ok(t) => {
                        proof {
                            lemma_joined_step(
                                type_views(types@),
                                t@,
                                resolved_shapes(items@, attributes@, *registry, (i + 1) as nat),
                            );
                            lemma_type_views_push(types@, t);
                        }
                        types.push(t);
                    },
                }
                i = i + 1;
            }
            proof {
                lemma_def_resolved_shapes(items@, attributes@, *registry, i as nat);
                lemma_joined_ends(type_views(types@), whole);
                lemma_view_tuple(types);
            }
            Ok(Type::Tuple(types))
        },
        TypeExpr::Array(item, count) => match generate_shape(item, attributes, registry) {
            Ok(t) => Ok(Type::FixedArray(Box::new(t), *count)),
            Err(e) => Err(e),
        },
        TypeExpr::Other => Err(SchemaError::UnsupportedType),
    }
}

/// Generates the layout of a single field of a variant or a record.
pub fn generate_for_item(
    field_type: &TypeExpr,
    is_tag: bool,
    attributes: &Attributes,
    default: &Option<Value>,
    registry: &Registry,
) -> (r: Result<Type, SchemaError>)
    ensures
        resolved_as(r, resolved_item(*field_type, is_tag, attributes@, *default, *registry)),
{
    if attributes.skip {
        let value = match default {
            Some(v) => v.clone(),
            None => {
                let empty: Vec<Value> = Vec::new();
                proof {
                    lemma_view_list(empty);
                    assert(views(empty@) =~= Seq::<SpecValue>::empty());
                }
                Value::List(empty)
            },
        };
        return Ok(Type::Skipped(value));
    }
    if attributes.is_context {
        return Ok(Type::ContextMarker);
    }
    match generate_shape(field_type, attributes, registry) {
        Err(e) => Err(e),
        Ok(t) => {
            if is_tag {
                let fits = match &t {
                    Type::Primitive(kind) => match &attributes.tag_type {
                        Some(name) => match primitive_of(name.as_str()) {
                            Some(tag_kind) => tag_kind == *kind,
                            None => false,
                        },
                        None => false,
                    },
                    _ => false,
                };
                if !fits {
                    return Err(SchemaError::KeepTagMismatch);
                }
            }
            Ok(t)
        },
    }
}

/// Generates the layouts of all fields of a record or of a variant.
pub fn generate_for_fields(fields: &FieldsDecl, attributes: &Attributes, registry: &Registry) -> (r:
    Result<Vec<Type>, SchemaError>)
    ensures
        resolved_all_as(r, resolved_fields(*fields, attributes@, *registry)),
{
    match fields {
        FieldsDecl::Named(list) => generate_for_list(list, attributes, registry),
        FieldsDecl::Unnamed(list) => generate_for_list(list, attributes, registry),
        FieldsDecl::Unit => {
            if attributes.keep_tag {
                return Err(SchemaError::KeepTagOnUnit);
            }
            let types: Vec<Type> = Vec::new();
            proof {
                assert(type_views(types@) =~= Seq::<SpecType>::empty());
            }
            Ok(types)
        },
    }
}

/// Generates the layouts of the fields of a list, in order.
fn generate_for_list(list: &Vec<FieldDecl>, attributes: &Attributes, registry: &Registry) -> (r:
    Result<Vec<Type>, SchemaError>)
    ensures
        resolved_all_as(r, resolved_field_list(list@, attributes@, *registry, 0)),
{
    let ghost whole = resolved_field_list(list@, attributes@, *registry, 0);
    let mut types: Vec<Type> = Vec::new();
    let mut i: usize = 0;
    proof {
        lemma_joined_ends(type_views(types@), whole);
        assert(type_views(types@) =~= Seq::<SpecType>::empty());
    }
    while i < list.len()
        invariant
            i <= list@.len(),
            whole == resolved_field_list(list@, attributes@, *registry, 0),
            whole == joined(
                type_views(types@),
                resolved_field_list(list@, attributes@, *registry, i as nat),
            ),
        decreases list@.len() - i,
    {
        let field = &list[i];
        let own = match attributes.extend(&field.attrs) {
            Err(e) => {
                return Err(e);
            },
            Ok(own) => own,
        };
        match generate_for_item(
            &field.ty,
            i == 0 && attributes.keep_tag,
            &own,
            &field.default,
            registry,
        ) {
            Err(e) => {
                return Err(e);
            },
            Ok(t) => {
                proof {
                    lemma_joined_step(
                        type_views(types@),
                        t@,
                        resolved_field_list(list@, attributes@, *registry, (i + 1) as nat),
                    );
                    lemma_type_views_push(types@, t);
                }
                types.push(t);
            },
        }
        i = i + 1;
    }
    proof {
        lemma_joined_ends(type_views(types@), whole);
    }
    Ok(types)
}

/// Generates the layout of one variant, and says whether it is a default.
fn generate_for_variant(
    variant: &VariantDecl,
    attributes: &Attributes,
    registry: &Registry,
    default_done: bool,
) -> (r: Result<(Variant, bool), SchemaError>)
    ensures
        match resolved_variant(*variant, attributes@, *registry, default_done) {
            Ok((v, own)) => r matches Ok((found, is_default)) && found@ == v && is_default == (
            !own.skip && own.tag is None),
            Err(e) => r matches Err(failure) && failure == e,
        },
{
    let own = match attributes.extend(&variant.attrs) {
        Err(e) => {
            return Err(e);
        },
        Ok(own) => own,
    };
    if default_done && !own.skip {
        if own.tag.is_none() {
            return Err(SchemaError::MultipleDefaults);
        } else {
            return Err(SchemaError::DefaultNotLast);
        }
    }
    let fields = match generate_for_fields(&variant.fields, &own, registry) {
        Err(e) => {
            return Err(e);
        },
        Ok(fields) => fields,
    };
    let mode = if own.skip {
        TagMode::Excluded
    } else if own.keep_tag {
        TagMode::Keep
    } else {
        match &own.tag {
            Some(ranges) => {
                if ranges.len() == 1 && ranges[0].low == ranges[0].high {
                    TagMode::Emit(ranges[0].low)
                } else {
                    return Err(SchemaError::MissingTag);
                }
            },
            None => {
                if fields.len() == 0 {
                    TagMode::ReadOnly
                } else {
                    return Err(SchemaError::MissingTag);
                }
            },
        }
    };
    let is_default = !own.skip && own.tag.is_none();
    let matches: Vec<TagRange> = match own.tag {
        Some(ranges) => ranges,
        None => Vec::new(),
    };
    let found = Variant { matches, mode, fields };
    proof {
        lemma_view_variant_fields(found);
    }
    Ok((found, is_default))
}

/// Generates the schema that a declaration declares, and checks it.
pub fn plod_impl(input: &Declaration, registry: &Registry) -> (r: Result<Schema, SchemaError>)
    ensures
        match declared_schema(*input, *registry) {
            Ok(s) => r matches Ok(found) && found@ == s,
            Err(e) => r matches Err(failure) && failure == e,
        },
        r matches Ok(found) ==> valid_schema(found@),
{
    let attributes = match Attributes::parse(&input.attrs) {
        Err(e) => {
            return Err(e);
        },
        Ok(a) => a,
    };
    let schema = match &input.data {
        Data::Struct(fields) => {
            let fields = match generate_for_fields(fields, &attributes, registry) {
                Err(e) => {
                    return Err(e);
                },
                Ok(fields) => fields,
            };
            let magic = match &attributes.magic {
                None => None,
                Some((name, value)) => match primitive_of(name.as_str()) {
                    Some(kind) => {
                        if kind.admits(*value) {
                            Some(Scalar::from_int(kind, *value))
                        } else {
                            return Err(SchemaError::UnsupportedMagic);
                        }
                    },
                    None => {
                        return Err(SchemaError::UnsupportedMagic);
                    },
                },
            };
            proof {
                lemma_view_record(attributes.endianness, magic, fields);
            }
            Schema::Record { endianness: attributes.endianness, magic, fields }
        },
        Data::Enum(variants) => {
            let tag_type = match &attributes.tag_type {
                None => {
                    return Err(SchemaError::MissingTagType);
                },
                Some(name) => match primitive_of(name.as_str()) {
                    None => {
                        return Err(SchemaError::UnsupportedTagType);
                    },
                    Some(kind) => kind,
                },
            };
            let ghost whole = resolved_variants(variants@, attributes@, *registry, 0, false);
            let mut found: Vec<Variant> = Vec::new();
            let mut default_done = false;
            let mut i: usize = 0;
            proof {
                lemma_joined_ends(variant_views(found@), whole);
                assert(variant_views(found@) =~= Seq::<SpecVariant>::empty());
            }
            while i < variants.len()
                invariant
                    i <= variants@.len(),
                    input.data == Data::Enum(*variants),
                    applied_attrs(no_attributes(), input.attrs@, 0) == Ok::<
                        AttributesModel,
                        SchemaError,
                    >(attributes@),
                    attributes@.tag_type matches Some(name) && primitive_named(name) == Some(tag_type),
                    whole == resolved_variants(variants@, attributes@, *registry, 0, false),
                    whole == joined(
                        variant_views(found@),
                        resolved_variants(variants@, attributes@, *registry, i as nat, default_done),
                    ),
                decreases variants@.len() - i,
            {
                match generate_for_variant(&variants[i], &attributes, registry, default_done) {
                    Err(e) => {
                        return Err(e);
                    },
                    Ok((variant, is_default)) => {
                        proof {
                            lemma_joined_step(
                                variant_views(found@),
                                variant@,
                                resolved_variants(
                                    variants@,
                                    attributes@,
                                    *registry,
                                    (i + 1) as nat,
                                    default_done || is_default,
                                ),
                            );
                            lemma_variant_views_push(found@, variant);
                        }
                        found.push(variant);
                        default_done = default_done || is_default;
                    },
                }
                i = i + 1;
            }
            proof {
                lemma_joined_ends(variant_views(found@), whole);
                lemma_view_sum(attributes.endianness, tag_type, found);
            }
            Schema::Sum { endianness: attributes.endianness, tag_type, variants: found }
        },
    };
    match schema.check() {
        Err(e) => Err(e),
        Ok(()) => Ok(schema),
    }
}

} // verus!
