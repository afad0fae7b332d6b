use jit_core::bytecode::{ByteCode, ConstValue, Expression, Identifier, TypeId, TypeTag, Value};

#[test]
fn identifier_keeps_its_number() {
    assert_eq!(Identifier::new(7).as_u32(), 7);
    assert_eq!(Identifier::new(0).as_u32(), 0);
}

#[test]
fn tag_bytes_decode_to_tags() {
    assert_eq!(TypeTag::from_value(0), Some(TypeTag::Primitive));
    assert_eq!(TypeTag::from_value(16), Some(TypeTag::U64));
    assert_eq!(TypeTag::from_value(128), Some(TypeTag::FunctionSignature));
}

#[test]
fn unknown_tag_bytes_are_refused() {
    assert_eq!(TypeTag::from_value(1), None);
    assert_eq!(TypeTag::from_value(17), None);
    assert_eq!(TypeTag::from_value(255), None);
}

#[test]
fn tags_encode_to_their_bytes() {
    assert_eq!(TypeTag::Primitive.as_u8(), 0);
    assert_eq!(TypeTag::U64.as_u8(), 16);
    assert_eq!(TypeTag::FunctionSignature.as_u8(), 128);
}

#[test]
fn type_id_of_builtin_tag() {
    let id: TypeId = TypeTag::U64.into();
    assert_eq!(id.as_u32(), 16);
    assert_eq!(TypeId::of_tag(TypeTag::FunctionSignature).as_u32(), 128);
    assert_eq!(id.builtin_tag(), Some(TypeTag::U64));
}

#[test]
fn registered_type_ids_are_no_builtin_tag() {
    assert_eq!(TypeId(256).builtin_tag(), None);
    assert_eq!(TypeId(1024).builtin_tag(), None);
    assert_eq!(TypeId(3).builtin_tag(), None);
}

#[test]
fn example_program_has_three_instructions() {
    let bytecode = ByteCode::new();
    assert_eq!(bytecode.instructions.len(), 3);
    match &bytecode.instructions[0] {
        Expression::Assignment(id, Value::Literal(ConstValue::U64(v))) => {
            assert_eq!(id.as_u32(), 1);
            assert_eq!(*v, 100);
        }
        _ => panic!("first instruction is not x <- 100"),
    }
    match &bytecode.instructions[2] {
        Expression::Add(Value::Literal(ConstValue::U64(1)), Value::Computed(inner)) => {
            assert!(matches!(
                **inner,
                Expression::Add(Value::Local(Identifier(1)), Value::Local(Identifier(2)))
            ));
        }
        _ => panic!("last instruction is not 1 + (x + y)"),
    }
}
