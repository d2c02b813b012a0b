use zenoh_jni::error::CodecError;
use zenoh_jni::handle::SubscriptionHandle;
use zenoh_jni::resolve::resolve;
use zenoh_jni::resolve::TypeArgs;
use zenoh_jni::resolve::TypeDescriptor;
use zenoh_jni::tag::TypeTag;

fn scalar_descriptor(name: &str) -> TypeDescriptor {
    TypeDescriptor {
        qualified_name: name.to_string(),
        is_map_subtype: false,
        is_list_subtype: false,
        args: TypeArgs::Empty,
    }
}

fn list_descriptor(name: &str, elem: TypeDescriptor) -> TypeDescriptor {
    TypeDescriptor {
        qualified_name: name.to_string(),
        is_map_subtype: false,
        is_list_subtype: true,
        args: TypeArgs::One(Box::new(elem)),
    }
}

fn map_descriptor(name: &str, key: TypeDescriptor, value: TypeDescriptor) -> TypeDescriptor {
    TypeDescriptor {
        qualified_name: name.to_string(),
        is_map_subtype: true,
        is_list_subtype: false,
        args: TypeArgs::Two(Box::new(key), Box::new(value)),
    }
}

#[test]
fn every_scalar_name_resolves_to_its_leaf_tag() {
    let table = [
        ("java.lang.Boolean", TypeTag::Boolean),
        ("java.lang.String", TypeTag::Text),
        ("byte[]", TypeTag::ByteArray),
        ("java.lang.Byte", TypeTag::Byte),
        ("java.lang.Short", TypeTag::Short),
        ("java.lang.Integer", TypeTag::Int),
        ("java.lang.Long", TypeTag::Long),
        ("java.lang.Float", TypeTag::Float),
        ("java.lang.Double", TypeTag::Double),
    ];
    for (name, tag) in table {
        assert_eq!(resolve(&scalar_descriptor(name)), Ok(tag));
    }
}

#[test]
fn generic_nesting_resolves_recursively() {
    let d = list_descriptor(
        "java.util.List<java.util.Map<java.lang.String, java.util.List<java.lang.Integer>>>",
        map_descriptor(
            "java.util.Map<java.lang.String, java.util.List<java.lang.Integer>>",
            scalar_descriptor("java.lang.String"),
            list_descriptor(
                "java.util.List<java.lang.Integer>",
                scalar_descriptor("java.lang.Integer"),
            ),
        ),
    );
    let tag = resolve(&d).unwrap();
    assert_eq!(
        tag,
        TypeTag::List(Box::new(TypeTag::MapOf(
            Box::new(TypeTag::Text),
            Box::new(TypeTag::List(Box::new(TypeTag::Int))),
        )))
    );
}

#[test]
fn unrecognized_class_is_rejected_by_name() {
    let d = scalar_descriptor("com.example.Widget");
    assert_eq!(
        resolve(&d),
        Err(CodecError::UnsupportedType("com.example.Widget".to_string()))
    );
}

#[test]
fn list_subtype_checked_before_map_subtype() {
    let mut d = map_descriptor(
        "com.example.ListLikeMap<java.lang.Integer, java.lang.Long>",
        scalar_descriptor("java.lang.Integer"),
        scalar_descriptor("java.lang.Long"),
    );
    d.is_list_subtype = true;
    assert_eq!(
        resolve(&d),
        Ok(TypeTag::List(Box::new(TypeTag::Int)))
    );
}

#[test]
fn composite_without_type_arguments_is_a_reflection_failure() {
    let mut d = scalar_descriptor("java.util.Map");
    d.is_map_subtype = true;
    assert_eq!(resolve(&d), Err(CodecError::ReflectionCall));

    let mut l = scalar_descriptor("java.util.List");
    l.is_list_subtype = true;
    assert_eq!(resolve(&l), Err(CodecError::ReflectionCall));
}

#[test]
fn nested_unsupported_argument_fails_whole_resolution() {
    let d = list_descriptor(
        "java.util.List<com.example.Widget>",
        scalar_descriptor("com.example.Widget"),
    );
    assert_eq!(
        resolve(&d),
        Err(CodecError::UnsupportedType("com.example.Widget".to_string()))
    );
}

#[test]
fn resolving_twice_yields_structurally_equal_trees() {
    let d = list_descriptor(
        "java.util.List<java.lang.Integer>",
        scalar_descriptor("java.lang.Integer"),
    );
    let first = resolve(&d).unwrap();
    let second = resolve(&d).unwrap();
    assert_eq!(first, second);
}

#[test]
fn handle_release_hands_the_raw_token_back_once() {
    let h = SubscriptionHandle::new(0x1234_5678_9abc_def0);
    assert_eq!(h.release(), 0x1234_5678_9abc_def0);
}
