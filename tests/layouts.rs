use jit_core::layout::{FieldKind, FieldValue, LayoutError, LayoutRegistry, StructLayout};
use jit_core::type_store::{type_store_layout, type_value_layout};
use jit_core::constructors::global_constructor_layout;

fn layout(name: &str, fields: Vec<FieldKind>) -> StructLayout {
    StructLayout::new(name.to_string(), fields).unwrap()
}

#[test]
fn fields_are_padded_to_their_alignment() {
    let l = layout("Padded", vec![FieldKind::U8, FieldKind::U32, FieldKind::U16, FieldKind::U64]);
    assert_eq!(l.offsets(), vec![0, 4, 8, 16]);
    assert_eq!(l.size(), 24);
    assert_eq!(l.alignment(), 8);
}

#[test]
fn trailing_padding_rounds_to_alignment() {
    let l = layout("Tail", vec![FieldKind::U32, FieldKind::U8]);
    assert_eq!(l.size(), 8);
    let empty = layout("Empty", vec![]);
    assert_eq!(empty.size(), 0);
    assert_eq!(empty.alignment(), 1);
}

#[test]
fn fill_in_stores_every_field() {
    let l = layout("Pair", vec![FieldKind::U8, FieldKind::U32]);
    let mem = l
        .fill_in(&vec![FieldValue::Scalar(0xab), FieldValue::Scalar(0x01020304)])
        .unwrap();
    assert_eq!(mem, vec![0xab, 0, 0, 0, 0x04, 0x03, 0x02, 0x01]);
}

#[test]
fn fill_in_refuses_a_value_too_wide() {
    let l = layout("Pair", vec![FieldKind::U8, FieldKind::U16]);
    let r = l.fill_in(&vec![FieldValue::Scalar(1), FieldValue::Scalar(0x1_0000)]);
    assert_eq!(r, Err(LayoutError::WidthMismatch { field: 1 }));
    let r = l.fill_in(&vec![FieldValue::Scalar(256), FieldValue::Scalar(0x1_0000)]);
    assert_eq!(r, Err(LayoutError::WidthMismatch { field: 0 }));
}

#[test]
fn fill_in_refuses_a_wrong_field_count() {
    let l = layout("Pair", vec![FieldKind::U8, FieldKind::U16]);
    assert_eq!(l.fill_in(&vec![FieldValue::Scalar(1)]), Err(LayoutError::FieldCountMismatch));
}

#[test]
fn embedded_by_value_takes_the_inner_bytes() {
    let inner = layout("Inner", vec![FieldKind::U16, FieldKind::U16]);
    let kind = inner.as_embedded().unwrap();
    assert_eq!(kind, FieldKind::Embedded { size: 4, align: 2 });
    let outer = layout("Outer", vec![FieldKind::U8, kind]);
    assert_eq!(outer.offsets(), vec![0, 2]);
    let inner_bytes = inner.fill_in(&vec![FieldValue::Scalar(1), FieldValue::Scalar(2)]).unwrap();
    let mem = outer.fill_in(&vec![FieldValue::Scalar(9), FieldValue::Bytes(inner_bytes)]).unwrap();
    assert_eq!(mem, vec![9, 0, 1, 0, 2, 0]);
    let r = outer.fill_in(&vec![FieldValue::Scalar(9), FieldValue::Scalar(5)]);
    assert_eq!(r, Err(LayoutError::WidthMismatch { field: 1 }));
}

#[test]
fn embedded_by_pointer_stores_the_address() {
    let l = layout("Holder", vec![FieldKind::U32, FieldKind::Pointer]);
    let mem = l.fill_in(&vec![FieldValue::Scalar(1), FieldValue::Scalar(0x1000)]).unwrap();
    assert_eq!(mem.len(), 16);
    assert_eq!(&mem[8..16], &[0, 0x10, 0, 0, 0, 0, 0, 0]);
    let r = l.fill_in(&vec![FieldValue::Scalar(1), FieldValue::Bytes(vec![0; 8])]);
    assert_eq!(r, Err(LayoutError::WidthMismatch { field: 1 }));
}

#[test]
fn malformed_embedded_kind_is_refused() {
    assert!(StructLayout::new("Bad".to_string(), vec![FieldKind::Embedded { size: 4, align: 3 }]).is_none());
}

#[test]
fn accepts_bits_matches_width() {
    assert!(FieldKind::U32.accepts_bits(32));
    assert!(!FieldKind::U32.accepts_bits(64));
    assert!(FieldKind::Pointer.accepts_bits(64));
    assert!(FieldKind::Embedded { size: 16, align: 8 }.accepts_bits(128));
}

#[test]
fn registry_deduplicates_by_name() {
    let mut reg = LayoutRegistry::new();
    let a = reg.declare(layout("Value", vec![FieldKind::U8, FieldKind::U64])).unwrap();
    let b = reg.declare(layout("Other", vec![FieldKind::U8])).unwrap();
    let again = reg.declare(layout("Value", vec![FieldKind::U8, FieldKind::U64])).unwrap();
    assert_eq!(a, 0);
    assert_eq!(b, 1);
    assert_eq!(again, 0);
    assert_eq!(reg.layouts.len(), 2);
}

#[test]
fn registry_refuses_conflicting_redeclaration() {
    let mut reg = LayoutRegistry::new();
    reg.declare(layout("Value", vec![FieldKind::U8, FieldKind::U64])).unwrap();
    let r = reg.declare(layout("Value", vec![FieldKind::U64]));
    assert_eq!(r, Err(LayoutError::ConflictingLayout));
    assert_eq!(reg.layouts.len(), 1);
    assert_eq!(reg.get(0).unwrap().fields, vec![FieldKind::U8, FieldKind::U64]);
    assert!(reg.get(1).is_none());
}

#[test]
fn runtime_struct_layouts() {
    let tv = type_value_layout();
    assert_eq!(tv.offsets(), vec![0, 8]);
    assert_eq!(tv.size(), 24);
    let store = type_store_layout();
    assert_eq!(store.offsets(), vec![0, 8, 12]);
    assert_eq!(store.size(), 16);
    let ctor = global_constructor_layout();
    assert_eq!(ctor.offsets(), vec![0, 8, 16]);
    assert_eq!(ctor.size(), 24);
}

#[test]
fn load_field_reads_back_what_fill_in_stored() {
    let l = layout("Mixed", vec![FieldKind::U8, FieldKind::U16, FieldKind::U32, FieldKind::Pointer]);
    let values = vec![
        FieldValue::Scalar(0x7f),
        FieldValue::Scalar(0xbeef),
        FieldValue::Scalar(0xdead_beef),
        FieldValue::Scalar(0x1234_5678_9abc),
    ];
    let mem = l.fill_in(&values).unwrap();
    assert_eq!(l.load_field(&mem, 0), Some(0x7f));
    assert_eq!(l.load_field(&mem, 1), Some(0xbeef));
    assert_eq!(l.load_field(&mem, 2), Some(0xdead_beef));
    assert_eq!(l.load_field(&mem, 3), Some(0x1234_5678_9abc));
    assert_eq!(l.load_field(&mem, 4), None);
    assert_eq!(l.load_field(&mem[..8].to_vec(), 3), None);
}

#[test]
fn load_field_refuses_embedded_structs() {
    let inner = layout("Inner", vec![FieldKind::U16]);
    let outer = layout("Outer", vec![FieldKind::U8, inner.as_embedded().unwrap()]);
    assert_eq!(outer.load_field(&vec![0; 4], 1), None);
    assert_eq!(outer.load_field(&vec![5; 4], 0), Some(5));
}
