use enum_filter::{
    CrateRef, Enum, FieldShape, GenerationError, PathError, TypeBody, TypeDef, VariantDef, crate_path,
    derive_enum_component, derive_schema_in, filters_namespace, get_mod_ident, marker_path_with,
};

fn variant(name: &str, shape: FieldShape) -> VariantDef {
    VariantDef { name: String::from(name), shape }
}

fn test_enum() -> TypeDef {
    TypeDef {
        name: String::from("TestEnum"),
        body: TypeBody::Enum(vec![
            variant("A", FieldShape::Unit),
            variant("B", FieldShape::Named),
            variant("C", FieldShape::Tuple),
        ]),
    }
}

fn strings(items: &[&str]) -> Vec<String> {
    items.iter().map(|s| String::from(*s)).collect()
}

#[test]
fn namespace_is_snake_case_with_suffix() {
    assert_eq!(get_mod_ident("MyEnum"), "my_enum_filters");
    assert_eq!(get_mod_ident("TestEnum"), "test_enum_filters");
    assert_eq!(get_mod_ident("Foo"), "foo_filters");
    assert_eq!(get_mod_ident("HTTPState"), "http_state_filters");
}

#[test]
fn derive_schema_of_enum() {
    let schema = derive_enum_component(test_enum(), &Vec::new()).unwrap();
    assert_eq!(schema.union_name(), "TestEnum");
    assert_eq!(schema.namespace(), "test_enum_filters");
    assert_eq!(schema.variant_count(), 3);
    assert_eq!(schema.marker_name(0), "A");
    assert_eq!(schema.marker_name(1), "B");
    assert_eq!(schema.marker_name(2), "C");
    assert_eq!(schema.shape(1), FieldShape::Named);
    assert_eq!(schema.marker_path(2), "test_enum_filters::C");
    assert_eq!(schema.arm_pattern(0), "TestEnum::A");
    assert_eq!(schema.arm_pattern(1), "TestEnum::B { .. }");
    assert_eq!(schema.arm_pattern(2), "TestEnum::C(..)");
    assert_eq!(schema.marker_doc(1), "Marker component for [`TestEnum::B`][super::TestEnum::B]");
    assert_eq!(schema.namespace_doc(), "Marker components, one for each variant of [`TestEnum`][super::TestEnum]");
}

#[test]
fn marker_lookup_by_name() {
    let schema = derive_enum_component(test_enum(), &Vec::new()).unwrap();
    assert_eq!(schema.marker_index(&String::from("A")), Some(0));
    assert_eq!(schema.marker_index(&String::from("C")), Some(2));
    assert_eq!(schema.marker_index(&String::from("D")), None);
}

#[test]
fn shapes_do_not_change_markers() {
    let shaped = derive_enum_component(test_enum(), &Vec::new()).unwrap();
    let plain = TypeDef {
        name: String::from("TestEnum"),
        body: TypeBody::Enum(vec![
            variant("A", FieldShape::Tuple),
            variant("B", FieldShape::Unit),
            variant("C", FieldShape::Named),
        ]),
    };
    let plain = derive_enum_component(plain, &Vec::new()).unwrap();
    assert_eq!(shaped.namespace(), plain.namespace());
    for i in 0..3 {
        assert_eq!(shaped.marker_path(i), plain.marker_path(i));
        assert_eq!(shaped.marker_doc(i), plain.marker_doc(i));
    }
}

#[test]
fn struct_is_refused() {
    let def = TypeDef { name: String::from("Point"), body: TypeBody::Struct };
    let err = derive_enum_component(def, &Vec::new()).err().unwrap();
    assert_eq!(err, GenerationError::StructType);
    assert_eq!(err.message(), "Cannot derive `EnumTrait` on struct type");
}

#[test]
fn union_is_refused() {
    let def = TypeDef { name: String::from("Raw"), body: TypeBody::Union };
    let err = derive_enum_component(def, &Vec::new()).err().unwrap();
    assert_eq!(err, GenerationError::UnionType);
    assert_eq!(err.message(), "Cannot derive `EnumTrait` on union type");
}

#[test]
fn enum_without_variants_is_refused() {
    let def = TypeDef { name: String::from("Never"), body: TypeBody::Enum(Vec::new()) };
    let err = derive_enum_component(def, &Vec::new()).err().unwrap();
    assert_eq!(err, GenerationError::NoVariants);
    assert_eq!(err.message(), "Cannot derive `EnumTrait` on an enum without variants");
}

#[test]
fn taken_namespace_is_refused() {
    let taken = strings(&["Other", "test_enum_filters"]);
    assert_eq!(
        derive_enum_component(test_enum(), &taken).err(),
        Some(GenerationError::NamespaceCollision)
    );
    assert_eq!(
        GenerationError::NamespaceCollision.message(),
        "The marker namespace of this enum is already taken"
    );
    let free = strings(&["TestEnum", "test_enum"]);
    assert!(derive_enum_component(test_enum(), &free).is_ok());
}

#[test]
fn variant_path_resolves_to_marker() {
    assert_eq!(Enum(&strings(&["TestEnum", "B"])), Ok(strings(&["test_enum_filters", "B"])));
    assert_eq!(
        Enum(&strings(&["crate", "model", "MyEnum", "Variant"])),
        Ok(strings(&["crate", "model", "my_enum_filters", "Variant"]))
    );
}

#[test]
fn short_path_is_refused() {
    assert_eq!(Enum(&strings(&["TestEnum"])), Err(PathError::NotAVariantPath));
    assert_eq!(Enum(&Vec::new()), Err(PathError::NotAVariantPath));
    assert_eq!(PathError::NotAVariantPath.message(), "expected a valid enum expression (i.e. `Foo::Bar`)");
}

#[test]
fn host_crate_path() {
    assert_eq!(crate_path(&CrateRef::Itself), "crate");
    assert_eq!(crate_path(&CrateRef::Named(String::from("bevy_ecs"))), "bevy_ecs");
}

#[test]
fn namespace_from_snake_case_name() {
    assert_eq!(filters_namespace(String::from("my_enum")), "my_enum_filters");
    assert_eq!(filters_namespace(String::new()), "_filters");
}

#[test]
fn variant_path_in_given_namespace() {
    assert_eq!(
        marker_path_with(&strings(&["a", "Foo", "Bar"]), String::from("x_filters")),
        Ok(strings(&["a", "x_filters", "Bar"]))
    );
    assert_eq!(marker_path_with(&strings(&["Bar"]), String::from("x_filters")), Err(PathError::NotAVariantPath));
}

#[test]
fn schema_in_given_namespace() {
    let schema = derive_schema_in(test_enum(), String::from("custom"), &Vec::new()).unwrap();
    assert_eq!(schema.namespace(), "custom");
    assert_eq!(schema.marker_path(0), "custom::A");
    assert_eq!(
        derive_schema_in(test_enum(), String::from("custom"), &strings(&["custom"])).err(),
        Some(GenerationError::NamespaceCollision)
    );
    let def = TypeDef { name: String::from("P"), body: TypeBody::Struct };
    assert_eq!(derive_schema_in(def, String::from("p_filters"), &Vec::new()).err(), Some(GenerationError::StructType));
}
