use jit_core::bytecode::{ConstValue, TypeTag};
use jit_core::object::{
    function_signature_layout, value_layout, ClassId, FunctionArgument, FunctionSignature,
    TaggedValue,
};
use jit_core::bytecode::{Identifier, TypeId};

#[test]
fn literal_round_trips_through_memory() {
    for v in [0u64, 1, 110, 0xdead_beef, u64::MAX] {
        let value = TaggedValue::literal(ConstValue::U64(v));
        let bytes = value.materialize();
        assert_eq!(bytes.len(), 16);
        let back = TaggedValue::read_back(&bytes).unwrap();
        assert_eq!(back.raw, v);
        assert_eq!(back.tag, TypeTag::U64);
        assert_eq!(back.class_id, ClassId::none());
    }
}

#[test]
fn materialized_bytes_follow_the_layout() {
    let value = TaggedValue { tag: TypeTag::U64, class_id: ClassId(0x0102), raw: 0x1122334455667788 };
    let bytes = value.materialize();
    assert_eq!(
        bytes,
        vec![16, 0, 0x02, 0x01, 0, 0, 0, 0, 0x88, 0x77, 0x66, 0x55, 0x44, 0x33, 0x22, 0x11]
    );
}

#[test]
fn any_value_round_trips() {
    let value = TaggedValue::signature(0x7fff_0000_1000);
    let back = TaggedValue::read_back(&value.materialize()).unwrap();
    assert_eq!(back, value);
    let prim = TaggedValue::primitive(TypeTag::U64);
    assert_eq!(prim.raw, 16);
    assert_eq!(TaggedValue::read_back(&prim.materialize()), Some(prim));
    assert_eq!(prim.primitive_of(), Some(TypeTag::U64));
}

#[test]
fn read_back_refuses_unknown_tag_and_wrong_length() {
    let mut bytes = TaggedValue::literal(ConstValue::U64(5)).materialize();
    bytes[0] = 3;
    assert_eq!(TaggedValue::read_back(&bytes), None);
    assert_eq!(TaggedValue::read_back(&vec![16u8; 15]), None);
    assert_eq!(TaggedValue::read_back(&vec![16u8; 17]), None);
}

#[test]
fn value_layout_offsets_and_size() {
    let layout = value_layout();
    assert_eq!(layout.offsets(), vec![0, 1, 2, 4, 8]);
    assert_eq!(layout.size(), 16);
    assert_eq!(layout.alignment(), 8);
}

#[test]
fn signature_counts_its_arguments() {
    let args = vec![FunctionArgument { name: Identifier(1), type_id: TypeId::of_tag(TypeTag::U64) }];
    let sig = FunctionSignature::new(TypeId::of_tag(TypeTag::U64), args).unwrap();
    assert_eq!(sig.argument_count, 1);
    assert_eq!(sig.arguments.len(), 1);
    assert_eq!(sig.class_id.as_u16(), 0);
    let layout = function_signature_layout();
    assert_eq!(layout.offsets(), vec![0, 2, 4, 8]);
    assert_eq!(layout.size(), 16);
}

#[test]
fn signature_refuses_too_many_arguments() {
    let arg = FunctionArgument { name: Identifier(1), type_id: TypeId(16) };
    let args = vec![arg; 0x1_0000];
    assert!(FunctionSignature::new(TypeId(16), args).is_none());
}
