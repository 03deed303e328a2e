use plod::attributes::{Attribute, Attributes, MetaArg, MetaItem};
use plod::declare::{
    Argument, Arguments, Data, Declaration, FieldDecl, FieldsDecl, Registry, Segment, TypeExpr,
    VariantDecl,
};
use plod::resolve::{
    generate_for_fields, generate_for_item, known_size, plod_impl, primitive_of, supported_type,
};
use plod::{
    Endianness, Primitive, Scalar, Schema, SchemaError, SizePrefix, TagMode, TagRange, Type, Value,
    Variant,
};

fn flag(name: &str) -> MetaItem {
    MetaItem { name: name.to_string(), arg: MetaArg::Flag }
}

fn word(name: &str, word: &str) -> MetaItem {
    MetaItem { name: name.to_string(), arg: MetaArg::Word(word.to_string()) }
}

fn tag(ranges: &[(i128, i128)]) -> MetaItem {
    MetaItem {
        name: "tag".to_string(),
        arg: MetaArg::Values(ranges.iter().map(|r| TagRange { low: r.0, high: r.1 }).collect()),
    }
}

fn magic(ty: &str, value: i128) -> MetaItem {
    MetaItem { name: "magic".to_string(), arg: MetaArg::Typed(ty.to_string(), value) }
}

fn plod(items: Vec<MetaItem>) -> Vec<Attribute> {
    vec![Attribute { path: "plod".to_string(), items }]
}

fn named(name: &str) -> TypeExpr {
    TypeExpr::Path(vec![Segment { name: name.to_string(), arguments: Arguments::Absent }])
}

fn vec_of(item: TypeExpr) -> TypeExpr {
    TypeExpr::Path(vec![Segment {
        name: "Vec".to_string(),
        arguments: Arguments::AngleBracketed(vec![Argument::Type(item)]),
    }])
}

fn field(name: &str, ty: TypeExpr) -> FieldDecl {
    FieldDecl { name: name.to_string(), ty, attrs: vec![], default: None }
}

fn field_with(name: &str, ty: TypeExpr, attrs: Vec<Attribute>) -> FieldDecl {
    FieldDecl { name: name.to_string(), ty, attrs, default: None }
}

fn variant(name: &str, attrs: Vec<Attribute>, fields: FieldsDecl) -> VariantDecl {
    VariantDecl { name: name.to_string(), attrs, fields }
}

fn declare_struct(attrs: Vec<Attribute>, fields: Vec<FieldDecl>) -> Declaration {
    Declaration { name: "S".to_string(), attrs, data: Data::Struct(FieldsDecl::Named(fields)) }
}

fn declare_enum(attrs: Vec<Attribute>, variants: Vec<VariantDecl>) -> Declaration {
    Declaration { name: "E".to_string(), attrs, data: Data::Enum(variants) }
}

fn settings(items: Vec<MetaItem>) -> Attributes {
    Attributes::parse(&plod(items)).unwrap()
}

fn resolve(decl: &Declaration) -> Result<Schema, SchemaError> {
    plod_impl(decl, &Registry::new())
}

fn item(ty: TypeExpr, attributes: &Attributes) -> Result<Type, SchemaError> {
    generate_for_item(&ty, false, attributes, &None, &Registry::new())
}

#[test]
fn nothing_declared_sets_nothing() {
    let a = Attributes::default();
    assert_eq!(a.tag_type, None);
    assert_eq!(a.tag, None);
    assert!(!a.keep_tag);
    assert_eq!(a.keep_diff, None);
    assert_eq!(a.size_type, None);
    assert!(!a.byte_sized);
    assert!(!a.skip);
    assert!(!a.is_context);
    assert_eq!(a.magic, None);
    assert_eq!(a.endianness, None);
    assert_eq!(Attributes::parse(&vec![]), Ok(Attributes::default()));
}

#[test]
fn every_setting_is_read() {
    let a = settings(vec![
        tag(&[(6, 8), (10, 10)]),
        flag("keep_tag"),
        flag("byte_sized"),
        word("tag_type", "u8"),
        word("size_type", "u16"),
        flag("skip"),
        flag("is_context"),
        magic("u32", 7),
        flag("little_endian"),
        word("context", "Ambient"),
    ]);
    assert_eq!(a.tag, Some(vec![TagRange { low: 6, high: 8 }, TagRange { low: 10, high: 10 }]));
    assert!(a.keep_tag && a.byte_sized && a.skip && a.is_context);
    assert_eq!(a.tag_type, Some("u8".to_string()));
    assert_eq!(a.size_type, Some("u16".to_string()));
    assert_eq!(a.magic, Some(("u32".to_string(), 7)));
    assert_eq!(a.endianness, Some(Endianness::Little));
    assert_eq!(settings(vec![flag("big_endian")]).endianness, Some(Endianness::Big));
    assert_eq!(settings(vec![flag("native_endian")]).endianness, Some(Endianness::Native));
}

#[test]
fn keep_diff_is_accepted_and_changes_nothing() {
    let diff = MetaItem {
        name: "keep_diff".to_string(),
        arg: MetaArg::Values(vec![TagRange { low: -5, high: -5 }]),
    };
    assert_eq!(Attributes::parse(&plod(vec![diff])), Ok(Attributes::default()));
}

#[test]
fn later_settings_go_over_earlier_ones() {
    let a = settings(vec![word("size_type", "u8"), word("size_type", "u32"), tag(&[(1, 1)]), tag(&[(2, 2)])]);
    assert_eq!(a.size_type, Some("u32".to_string()));
    assert_eq!(a.tag, Some(vec![TagRange { low: 2, high: 2 }]));
}

#[test]
fn attributes_of_others_are_passed_over() {
    let attrs = vec![
        Attribute { path: "derive".to_string(), items: vec![flag("Debug")] },
        Attribute { path: "plod".to_string(), items: vec![flag("keep_tag")] },
        Attribute { path: "doc".to_string(), items: vec![flag("nonsense")] },
        Attribute { path: "plod".to_string(), items: vec![flag("byte_sized")] },
    ];
    let a = Attributes::parse(&attrs).unwrap();
    assert!(a.keep_tag && a.byte_sized);
}

#[test]
fn unknown_and_malformed_settings_are_refused() {
    assert_eq!(Attributes::parse(&plod(vec![flag("nonsense")])), Err(SchemaError::UnsupportedAttribute));
    assert_eq!(Attributes::parse(&plod(vec![flag("tag")])), Err(SchemaError::MalformedAttribute));
    assert_eq!(Attributes::parse(&plod(vec![word("keep_tag", "x")])), Err(SchemaError::MalformedAttribute));
    assert_eq!(Attributes::parse(&plod(vec![flag("tag_type")])), Err(SchemaError::MalformedAttribute));
    assert_eq!(Attributes::parse(&plod(vec![flag("size_type")])), Err(SchemaError::MalformedAttribute));
    assert_eq!(Attributes::parse(&plod(vec![flag("magic")])), Err(SchemaError::MalformedAttribute));
    assert_eq!(Attributes::parse(&plod(vec![word("skip", "x")])), Err(SchemaError::MalformedAttribute));
    assert_eq!(Attributes::parse(&plod(vec![word("big_endian", "x")])), Err(SchemaError::MalformedAttribute));
    // the first refusal ends the reading
    assert_eq!(
        Attributes::parse(&plod(vec![flag("keep_tag"), flag("nonsense"), flag("tag")])),
        Err(SchemaError::UnsupportedAttribute)
    );
}

#[test]
fn inner_places_inherit_all_but_what_a_field_is() {
    let outer = settings(vec![
        word("tag_type", "u8"),
        word("size_type", "u16"),
        flag("byte_sized"),
        flag("keep_tag"),
        flag("skip"),
        flag("is_context"),
        magic("u8", 1),
        flag("big_endian"),
    ]);
    let inner = outer.extend(&plod(vec![word("size_type", "u32")])).unwrap();
    assert_eq!(inner.tag_type, Some("u8".to_string()));
    assert_eq!(inner.size_type, Some("u32".to_string()));
    assert!(inner.byte_sized && inner.keep_tag);
    assert!(!inner.skip && !inner.is_context);
    assert_eq!(inner.magic, Some(("u8".to_string(), 1)));
    assert_eq!(inner.endianness, Some(Endianness::Big));
    // the outer settings are as they were
    assert_eq!(outer.size_type, Some("u16".to_string()));
    assert!(outer.skip);
    assert_eq!(outer.extend(&plod(vec![flag("nonsense")])), Err(SchemaError::UnsupportedAttribute));
}

#[test]
fn names_of_primitives() {
    let names = ["bool", "f32", "f64", "i8", "i16", "i32", "i64", "i128", "u8", "u16", "u32", "u64", "u128"];
    let sizes = [1, 4, 8, 1, 2, 4, 8, 16, 1, 2, 4, 8, 16];
    for (name, size) in names.iter().zip(sizes) {
        assert!(supported_type(name), "{}", name);
        assert_eq!(known_size(name), size, "{}", name);
    }
    for name in ["", "usize", "isize", "U8", "u", "u88", "Vec", "char", "str", " u8"] {
        assert!(!supported_type(name), "{}", name);
        assert_eq!(primitive_of(name), None);
    }
    assert_eq!(primitive_of("i64"), Some(Primitive::I64));
    assert_eq!(primitive_of("f32"), Some(Primitive::F32));
}

#[test]
fn types_as_written_become_layouts() {
    let plain = Attributes::default();
    assert_eq!(item(named("u16"), &plain), Ok(Type::Primitive(Primitive::U16)));
    assert_eq!(item(TypeExpr::Tuple(vec![]), &plain), Ok(Type::Tuple(vec![])));
    assert_eq!(
        item(TypeExpr::Tuple(vec![named("u8"), named("i64")]), &plain),
        Ok(Type::Tuple(vec![Type::Primitive(Primitive::U8), Type::Primitive(Primitive::I64)]))
    );
    assert_eq!(
        item(TypeExpr::Array(Box::new(named("u16")), 3), &plain),
        Ok(Type::FixedArray(Box::new(Type::Primitive(Primitive::U16)), 3))
    );
    let sized = settings(vec![word("size_type", "u32"), flag("byte_sized")]);
    assert_eq!(
        item(vec_of(named("i16")), &sized),
        Ok(Type::Sequence(
            Box::new(Type::Primitive(Primitive::I16)),
            SizePrefix { size_type: Primitive::U32, byte_sized: true }
        ))
    );
    // a sequence of sequences takes the same prefix at both levels
    let counted = settings(vec![word("size_type", "u8")]);
    let prefix = SizePrefix { size_type: Primitive::U8, byte_sized: false };
    assert_eq!(
        item(vec_of(vec_of(named("u8"))), &counted),
        Ok(Type::Sequence(
            Box::new(Type::Sequence(Box::new(Type::Primitive(Primitive::U8)), prefix)),
            prefix
        ))
    );
}

#[test]
fn skipped_and_context_fields_need_no_known_type() {
    let skip = settings(vec![flag("skip")]);
    let default = Some(Value::Scalar(Scalar::I32(0)));
    assert_eq!(
        generate_for_item(&TypeExpr::Other, false, &skip, &default, &Registry::new()),
        Ok(Type::Skipped(Value::Scalar(Scalar::I32(0))))
    );
    assert_eq!(
        generate_for_item(&named("Unheard"), false, &skip, &None, &Registry::new()),
        Ok(Type::Skipped(Value::List(vec![])))
    );
    let context = settings(vec![flag("is_context")]);
    assert_eq!(item(TypeExpr::Other, &context), Ok(Type::ContextMarker));
}

#[test]
fn named_types_are_looked_up() {
    let mut registry = Registry::new();
    assert_eq!(registry.find(&"Header".to_string()), None);
    registry.register("Header".to_string(), Type::Primitive(Primitive::U64));
    registry.register("Header".to_string(), Type::Primitive(Primitive::U8));
    registry.register("Body".to_string(), Type::Tuple(vec![]));
    assert_eq!(registry.find(&"Header".to_string()), Some(&Type::Primitive(Primitive::U64)));
    assert_eq!(registry.find(&"Body".to_string()), Some(&Type::Tuple(vec![])));
    assert_eq!(registry.find(&"header".to_string()), None);
    let plain = Attributes::default();
    assert_eq!(
        generate_for_item(&named("Header"), false, &plain, &None, &registry),
        Ok(Type::Primitive(Primitive::U64))
    );
    // a longer path is known by its last name
    let path = TypeExpr::Path(vec![
        Segment { name: "wire".to_string(), arguments: Arguments::Absent },
        Segment { name: "Body".to_string(), arguments: Arguments::Absent },
    ]);
    assert_eq!(generate_for_item(&path, false, &plain, &None, &registry), Ok(Type::Tuple(vec![])));
    assert_eq!(
        generate_for_item(&named("Trailer"), false, &plain, &None, &registry),
        Err(SchemaError::UnknownType)
    );
}

#[test]
fn unsupported_shapes_are_refused() {
    let plain = Attributes::default();
    let sized = settings(vec![word("size_type", "u8")]);
    assert_eq!(item(TypeExpr::Other, &plain), Err(SchemaError::UnsupportedType));
    assert_eq!(item(TypeExpr::Path(vec![]), &plain), Err(SchemaError::UnsupportedType));
    assert_eq!(item(vec_of(named("u8")), &plain), Err(SchemaError::MissingSizeType));
    assert_eq!(
        item(vec_of(named("u8")), &settings(vec![word("size_type", "usize")])),
        Err(SchemaError::UnsupportedSizeType)
    );
    let long = TypeExpr::Path(vec![
        Segment { name: "Vec".to_string(), arguments: Arguments::Absent },
        Segment { name: "IntoIter".to_string(), arguments: Arguments::Absent },
    ]);
    assert_eq!(item(long, &sized), Err(SchemaError::NotSimpleVec));
    assert_eq!(item(named("Vec"), &sized), Err(SchemaError::NotVecOfType));
    let round = TypeExpr::Path(vec![Segment {
        name: "Vec".to_string(),
        arguments: Arguments::Parenthesized,
    }]);
    assert_eq!(item(round, &sized), Err(SchemaError::NotVecOfType));
    let two = TypeExpr::Path(vec![Segment {
        name: "Vec".to_string(),
        arguments: Arguments::AngleBracketed(vec![
            Argument::Type(named("u8")),
            Argument::Type(named("u8")),
        ]),
    }]);
    assert_eq!(item(two, &sized), Err(SchemaError::NotVecOfSingleType));
    let none = TypeExpr::Path(vec![Segment {
        name: "Vec".to_string(),
        arguments: Arguments::AngleBracketed(vec![]),
    }]);
    assert_eq!(item(none, &sized), Err(SchemaError::NotVecOfSingleType));
    let lifetime = TypeExpr::Path(vec![Segment {
        name: "Vec".to_string(),
        arguments: Arguments::AngleBracketed(vec![Argument::Other]),
    }]);
    assert_eq!(item(lifetime, &sized), Err(SchemaError::VecItemNotAllowed));
    // what is wrong inside is wrong outside
    assert_eq!(item(vec_of(TypeExpr::Other), &sized), Err(SchemaError::UnsupportedType));
    assert_eq!(
        item(TypeExpr::Tuple(vec![named("u8"), TypeExpr::Other]), &plain),
        Err(SchemaError::UnsupportedType)
    );
    assert_eq!(
        item(TypeExpr::Array(Box::new(named("Unheard")), 2), &plain),
        Err(SchemaError::UnknownType)
    );
}

#[test]
fn the_field_that_keeps_the_tag_has_the_tag_type() {
    let a = settings(vec![word("tag_type", "i8"), flag("keep_tag")]);
    let registry = Registry::new();
    assert_eq!(
        generate_for_item(&named("i8"), true, &a, &None, &registry),
        Ok(Type::Primitive(Primitive::I8))
    );
    assert_eq!(
        generate_for_item(&named("u8"), true, &a, &None, &registry),
        Err(SchemaError::KeepTagMismatch)
    );
    assert_eq!(
        generate_for_item(&TypeExpr::Tuple(vec![]), true, &a, &None, &registry),
        Err(SchemaError::KeepTagMismatch)
    );
    assert_eq!(
        generate_for_item(&named("u8"), false, &a, &None, &registry),
        Ok(Type::Primitive(Primitive::U8))
    );
}

#[test]
fn fields_are_worked_out_in_order_with_their_own_settings() {
    let a = settings(vec![word("size_type", "u8")]);
    let fields = FieldsDecl::Named(vec![
        field("a", named("u16")),
        field_with("b", vec_of(named("u8")), plod(vec![word("size_type", "u32")])),
        field("c", vec_of(named("u8"))),
    ]);
    assert_eq!(
        generate_for_fields(&fields, &a, &Registry::new()),
        Ok(vec![
            Type::Primitive(Primitive::U16),
            Type::Sequence(
                Box::new(Type::Primitive(Primitive::U8)),
                SizePrefix { size_type: Primitive::U32, byte_sized: false }
            ),
            Type::Sequence(
                Box::new(Type::Primitive(Primitive::U8)),
                SizePrefix { size_type: Primitive::U8, byte_sized: false }
            ),
        ])
    );
    assert_eq!(generate_for_fields(&FieldsDecl::Unit, &a, &Registry::new()), Ok(vec![]));
    assert_eq!(generate_for_fields(&FieldsDecl::Unnamed(vec![]), &a, &Registry::new()), Ok(vec![]));
    let keep = settings(vec![word("tag_type", "u8"), flag("keep_tag")]);
    assert_eq!(
        generate_for_fields(&FieldsDecl::Unit, &keep, &Registry::new()),
        Err(SchemaError::KeepTagOnUnit)
    );
    let bad = FieldsDecl::Unnamed(vec![
        field("field_0", named("u8")),
        field_with("field_1", named("u8"), plod(vec![flag("nonsense")])),
        field("field_2", TypeExpr::Other),
    ]);
    assert_eq!(generate_for_fields(&bad, &a, &Registry::new()), Err(SchemaError::UnsupportedAttribute));
}

#[test]
fn a_record_is_declared() {
    let decl = declare_struct(
        plod(vec![flag("big_endian"), magic("u16", 0xbaba)]),
        vec![field("a", named("u16")), field_with("b", named("Anything"), plod(vec![flag("is_context")]))],
    );
    assert_eq!(
        resolve(&decl),
        Ok(Schema::Record {
            endianness: Some(Endianness::Big),
            magic: Some(Scalar::U16(0xbaba)),
            fields: vec![Type::Primitive(Primitive::U16), Type::ContextMarker],
        })
    );
}

#[test]
fn a_sum_type_is_declared() {
    let decl = declare_enum(
        plod(vec![word("tag_type", "u8")]),
        vec![
            variant("A", plod(vec![tag(&[(1, 1)])]), FieldsDecl::Unit),
            variant(
                "B",
                plod(vec![tag(&[(6, 8), (10, 10)]), flag("keep_tag")]),
                FieldsDecl::Unnamed(vec![field("field_0", named("u8"))]),
            ),
            variant("C", plod(vec![flag("skip")]), FieldsDecl::Unit),
            variant(
                "D",
                plod(vec![flag("keep_tag")]),
                FieldsDecl::Named(vec![field("t", named("u8")), field("x", named("i32"))]),
            ),
            variant("E", plod(vec![flag("skip"), tag(&[(3, 3)])]), FieldsDecl::Unit),
        ],
    );
    let range = |low, high| TagRange { low, high };
    assert_eq!(
        resolve(&decl),
        Ok(Schema::Sum {
            endianness: None,
            tag_type: Primitive::U8,
            variants: vec![
                Variant { matches: vec![range(1, 1)], mode: TagMode::Emit(1), fields: vec![] },
                Variant {
                    matches: vec![range(6, 8), range(10, 10)],
                    mode: TagMode::Keep,
                    fields: vec![Type::Primitive(Primitive::U8)],
                },
                Variant { matches: vec![], mode: TagMode::Excluded, fields: vec![] },
                Variant {
                    matches: vec![],
                    mode: TagMode::Keep,
                    fields: vec![Type::Primitive(Primitive::U8), Type::Primitive(Primitive::I32)],
                },
                Variant { matches: vec![range(3, 3)], mode: TagMode::Excluded, fields: vec![] },
            ],
        })
    );
}

#[test]
fn invalid_declarations_are_refused() {
    let unit = |name: &str, items: Vec<MetaItem>| variant(name, plod(items), FieldsDecl::Unit);
    let kept = |name: &str, items: Vec<MetaItem>, ty: &str| {
        variant(name, plod(items), FieldsDecl::Unnamed(vec![field("field_0", named(ty))]))
    };
    let tagged = || plod(vec![word("tag_type", "u8")]);

    assert_eq!(
        resolve(&declare_enum(vec![], vec![unit("A", vec![tag(&[(1, 1)])])])),
        Err(SchemaError::MissingTagType)
    );
    assert_eq!(
        resolve(&declare_enum(plod(vec![word("tag_type", "usize")]), vec![])),
        Err(SchemaError::UnsupportedTagType)
    );
    assert_eq!(
        resolve(&declare_enum(plod(vec![word("tag_type", "f32")]), vec![])),
        Err(SchemaError::UnsupportedTagType)
    );
    assert_eq!(
        resolve(&declare_enum(
            tagged(),
            vec![kept("A", vec![flag("keep_tag")], "u8"), unit("B", vec![tag(&[(1, 1)])])]
        )),
        Err(SchemaError::DefaultNotLast)
    );
    assert_eq!(
        resolve(&declare_enum(
            tagged(),
            vec![kept("A", vec![flag("keep_tag")], "u8"), kept("B", vec![flag("keep_tag")], "u8")]
        )),
        Err(SchemaError::MultipleDefaults)
    );
    assert_eq!(
        resolve(&declare_enum(tagged(), vec![kept("A", vec![], "u8")])),
        Err(SchemaError::MissingTag)
    );
    assert_eq!(
        resolve(&declare_enum(tagged(), vec![unit("A", vec![tag(&[(1, 2)])])])),
        Err(SchemaError::MissingTag)
    );
    assert_eq!(
        resolve(&declare_enum(tagged(), vec![unit("A", vec![tag(&[(1, 1), (3, 3)])])])),
        Err(SchemaError::MissingTag)
    );
    assert_eq!(
        resolve(&declare_enum(tagged(), vec![unit("A", vec![tag(&[(1, 1)]), flag("keep_tag")])])),
        Err(SchemaError::KeepTagOnUnit)
    );
    assert_eq!(
        resolve(&declare_enum(tagged(), vec![kept("A", vec![tag(&[(1, 1)]), flag("keep_tag")], "i8")])),
        Err(SchemaError::KeepTagMismatch)
    );
    assert_eq!(
        resolve(&declare_enum(tagged(), vec![unit("A", vec![tag(&[(256, 256)])])])),
        Err(SchemaError::TagOutOfRange)
    );
    assert_eq!(
        resolve(&declare_enum(tagged(), vec![unit("A", vec![tag(&[(-1, -1)])])])),
        Err(SchemaError::TagOutOfRange)
    );
    assert_eq!(
        resolve(&declare_struct(plod(vec![magic("u8", 256)]), vec![])),
        Err(SchemaError::UnsupportedMagic)
    );
    assert_eq!(
        resolve(&declare_struct(plod(vec![magic("f32", 1)]), vec![])),
        Err(SchemaError::UnsupportedMagic)
    );
    assert_eq!(
        resolve(&declare_struct(plod(vec![magic("word", 1)]), vec![])),
        Err(SchemaError::UnsupportedMagic)
    );
    assert_eq!(
        resolve(&declare_struct(vec![], vec![field("a", vec_of(named("u8")))])),
        Err(SchemaError::MissingSizeType)
    );
    assert_eq!(
        resolve(&declare_struct(plod(vec![word("size_type", "f64")]), vec![field("a", vec_of(named("u8")))])),
        Err(SchemaError::UnsupportedSizeType)
    );
    assert_eq!(
        resolve(&declare_struct(plod(vec![flag("nonsense")]), vec![])),
        Err(SchemaError::UnsupportedAttribute)
    );
    assert_eq!(
        resolve(&declare_struct(vec![], vec![field("a", named("Unheard"))])),
        Err(SchemaError::UnknownType)
    );
}

#[test]
fn variants_that_never_travel_may_follow_the_default() {
    let decl = declare_enum(
        plod(vec![word("tag_type", "u8")]),
        vec![
            variant("A", plod(vec![tag(&[(1, 1)])]), FieldsDecl::Unit),
            variant(
                "Rest",
                plod(vec![flag("keep_tag")]),
                FieldsDecl::Unnamed(vec![field("field_0", named("u8"))]),
            ),
            variant("Never", plod(vec![flag("skip")]), FieldsDecl::Unit),
        ],
    );
    let schema = resolve(&decl).unwrap();
    assert_eq!(schema.check(), Ok(()));
}

#[test]
fn schemas_built_by_hand_are_checked() {
    let range = |low, high| TagRange { low, high };
    let sum = |tag_type, variants| Schema::Sum { endianness: None, tag_type, variants };
    let unit = |mode| Variant { matches: vec![range(1, 1)], mode, fields: vec![] };
    let default = |mode, fields| Variant { matches: vec![], mode, fields };
    let u8_field = || vec![Type::Primitive(Primitive::U8)];

    assert_eq!(sum(Primitive::U8, vec![unit(TagMode::Emit(1))]).check(), Ok(()));
    assert_eq!(sum(Primitive::U8, vec![]).check(), Ok(()));
    assert_eq!(sum(Primitive::F64, vec![]).check(), Err(SchemaError::UnsupportedTagType));
    assert_eq!(sum(Primitive::U8, vec![unit(TagMode::Emit(256))]).check(), Err(SchemaError::TagOutOfRange));
    assert_eq!(sum(Primitive::I8, vec![unit(TagMode::Emit(-128))]).check(), Ok(()));
    assert_eq!(sum(Primitive::U8, vec![unit(TagMode::Keep)]).check(), Err(SchemaError::KeepTagOnUnit));
    assert_eq!(
        sum(Primitive::U16, vec![default(TagMode::Keep, u8_field())]).check(),
        Err(SchemaError::KeepTagMismatch)
    );
    assert_eq!(
        sum(Primitive::U8, vec![default(TagMode::Keep, u8_field()), unit(TagMode::Emit(1))]).check(),
        Err(SchemaError::DefaultNotLast)
    );
    assert_eq!(
        sum(Primitive::U8, vec![default(TagMode::Emit(0), vec![]), default(TagMode::Keep, u8_field())])
            .check(),
        Err(SchemaError::MultipleDefaults)
    );
    assert_eq!(
        sum(Primitive::U8, vec![default(TagMode::Emit(0), vec![]), unit(TagMode::Excluded)]).check(),
        Ok(())
    );
    let float_prefix = Type::Sequence(
        Box::new(Type::Primitive(Primitive::U8)),
        SizePrefix { size_type: Primitive::F32, byte_sized: false },
    );
    assert_eq!(float_prefix.check(), Err(SchemaError::UnsupportedSizeType));
    // a defect deep inside is found
    let nested = Schema::Record {
        endianness: None,
        magic: None,
        fields: vec![
            Type::Primitive(Primitive::U8),
            Type::Tuple(vec![Type::FixedArray(
                Box::new(Type::Composite(Box::new(sum(Primitive::U8, vec![unit(TagMode::Keep)])))),
                2,
            )]),
        ],
    };
    assert_eq!(nested.check(), Err(SchemaError::KeepTagOnUnit));
    // the first defect in declaration order is the one reported
    let two = Schema::Record {
        endianness: None,
        magic: None,
        fields: vec![
            Type::Composite(Box::new(sum(Primitive::F32, vec![]))),
            Type::Composite(Box::new(sum(Primitive::U8, vec![unit(TagMode::Keep)]))),
        ],
    };
    assert_eq!(two.check(), Err(SchemaError::UnsupportedTagType));
}

#[test]
fn copies_are_equal_to_what_they_copy() {
    let schema = Schema::Record {
        endianness: Some(Endianness::Little),
        magic: Some(Scalar::I8(-1)),
        fields: vec![
            Type::Composite(Box::new(Schema::Sum {
                endianness: None,
                tag_type: Primitive::U8,
                variants: vec![Variant {
                    matches: vec![TagRange { low: 1, high: 3 }],
                    mode: TagMode::Keep,
                    fields: vec![Type::Primitive(Primitive::U8)],
                }],
            })),
            Type::Skipped(Value::Variant(1, vec![Value::Scalar(Scalar::U32(45))])),
            Type::Tuple(vec![Type::ContextMarker, Type::FixedArray(Box::new(Type::Tuple(vec![])), 7)]),
        ],
    };
    assert_eq!(schema.clone(), schema);
    let value = Value::List(vec![Value::Variant(3, vec![Value::Scalar(Scalar::F64(1))]), Value::List(vec![])]);
    assert_eq!(value.clone(), value);
}

#[test]
fn failures_have_messages() {
    assert_eq!(SchemaError::UnsupportedAttribute.message(), "Unsupported plod value");
    assert_eq!(SchemaError::MissingTagType.message(), "#[plod(tag_type(<type>)] is mandatory for enum");
    assert_eq!(SchemaError::UnsupportedTagType.message(), "plod tag only works with basic types");
    assert_eq!(
        SchemaError::DefaultNotLast.message(),
        "The variant without #[plod(tag(<value>)] must come last"
    );
    assert_eq!(SchemaError::MissingTag.message(), "#[plod(tag(<value>)] is mandatory without keep_tag");
    assert_eq!(SchemaError::KeepTagOnUnit.message(), "Cannot keep tag on unit variant");
    assert_eq!(SchemaError::NotSimpleVec.message(), "Only simple Vec supported");
    assert_eq!(SchemaError::NotVecOfType.message(), "Only Vec<type> supported");
    assert_eq!(SchemaError::NotVecOfSingleType.message(), "Only Vec of single type supported");
    assert_eq!(SchemaError::VecItemNotAllowed.message(), "Only Vec<type> allowed");
    assert_eq!(
        SchemaError::MissingSizeType.message(),
        "#[plod(size_type(<value>)] is mandatory for Vec<type>"
    );
    assert_eq!(SchemaError::UnsupportedType.message(), "Unsupported type");
    assert_eq!(plod::Error::BadMagic.message(), "bad magic");
}

/// `#[plod(tag_type(u8))] enum Y { #[plod(tag=1)] A(u8), Other }`
fn with_empty_default(last: FieldsDecl) -> Declaration {
    declare_enum(
        plod(vec![word("tag_type", "u8")]),
        vec![
            variant(
                "A",
                plod(vec![tag(&[(1, 1)])]),
                FieldsDecl::Unnamed(vec![field("field_0", named("u8"))]),
            ),
            variant("Other", vec![], last),
        ],
    )
}

#[test]
fn a_default_without_fields_is_declared() {
    for last in [FieldsDecl::Unit, FieldsDecl::Unnamed(vec![]), FieldsDecl::Named(vec![])] {
        assert_eq!(
            resolve(&with_empty_default(last)),
            Ok(Schema::Sum {
                endianness: None,
                tag_type: Primitive::U8,
                variants: vec![
                    Variant {
                        matches: vec![TagRange { low: 1, high: 1 }],
                        mode: TagMode::Emit(1),
                        fields: vec![Type::Primitive(Primitive::U8)],
                    },
                    Variant { matches: vec![], mode: TagMode::ReadOnly, fields: vec![] },
                ],
            })
        );
    }
}

#[test]
fn a_default_without_fields_is_read_from_its_discriminant_alone() {
    let schema = resolve(&with_empty_default(FieldsDecl::Unit)).unwrap();
    assert_eq!(schema.check(), Ok(()));
    let other = Value::Variant(1, vec![]);
    let nothing = Value::List(vec![]);
    let big = plod::ByteOrder::Big;
    assert_eq!(schema.decode_with(&[9], big, &nothing), Ok((Value::Variant(1, vec![]), 1)));
    assert_eq!(schema.decode_with(&[0, 7, 7], big, &nothing), Ok((Value::Variant(1, vec![]), 1)));
    assert_eq!(schema.decode_with(&[255], big, &nothing), Ok((Value::Variant(1, vec![]), 1)));
    // the variant with a rule still takes its own discriminant
    assert_eq!(
        schema.decode_with(&[1, 5], big, &nothing),
        Ok((Value::Variant(0, vec![Value::Scalar(Scalar::U8(5))]), 2))
    );
    assert_eq!(schema.decode_with(&[], big, &nothing), Err(plod::Error::IoFailure));
    // its size is that of the discriminant
    assert!(schema.admits(&other));
    assert_eq!(schema.encoded_size(&other), Some(1));
    // the discriminant that was read is gone, so none is written
    let mut out = vec![0xaa];
    let mut ctx = Value::List(vec![]);
    assert_eq!(
        schema.encode_with(&other, big, &mut out, &mut ctx),
        Err(plod::Error::UnencodableVariant)
    );
}

#[test]
fn a_default_without_fields_comes_last_too() {
    let unit = |name: &str, items: Vec<MetaItem>| variant(name, plod(items), FieldsDecl::Unit);
    let tagged = || plod(vec![word("tag_type", "u8")]);
    assert_eq!(
        resolve(&declare_enum(tagged(), vec![unit("Other", vec![]), unit("A", vec![tag(&[(1, 1)])])])),
        Err(SchemaError::DefaultNotLast)
    );
    assert_eq!(
        resolve(&declare_enum(tagged(), vec![unit("Other", vec![]), unit("Rest", vec![])])),
        Err(SchemaError::MultipleDefaults)
    );
    assert_eq!(
        resolve(&declare_enum(tagged(), vec![unit("Other", vec![]), unit("Never", vec![flag("skip")])])),
        Ok(Schema::Sum {
            endianness: None,
            tag_type: Primitive::U8,
            variants: vec![
                Variant { matches: vec![], mode: TagMode::ReadOnly, fields: vec![] },
                Variant { matches: vec![], mode: TagMode::Excluded, fields: vec![] },
            ],
        })
    );
    // a default with fields must keep its discriminant
    assert_eq!(
        resolve(&declare_enum(
            tagged(),
            vec![variant(
                "Rest",
                vec![],
                FieldsDecl::Unnamed(vec![field("field_0", named("u8"))])
            )]
        )),
        Err(SchemaError::MissingTag)
    );
}
