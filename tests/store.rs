use jit_core::bytecode::{ConstValue, TypeTag};
use jit_core::object::TaggedValue;
use jit_core::type_store::{StoreError, TypeRecord, TypeStore};

#[test]
fn three_additions_grow_by_doubling() {
    let mut store = TypeStore::initialize();
    assert_eq!(store.length(), 0);
    assert_eq!(store.capacity(), 1);
    let values: Vec<TaggedValue> =
        (1..=3).map(|v| TaggedValue::literal(ConstValue::U64(v * 10))).collect();
    let mut capacities = vec![];
    for (i, v) in values.iter().enumerate() {
        store.add(256 + i as u32, *v).unwrap();
        capacities.push(store.capacity());
        for (j, earlier) in values[..=i].iter().enumerate() {
            assert_eq!(store.get(j as u64), Ok(*earlier));
            assert_eq!(store.record(j as u64), Some(TypeRecord { id: 256 + j as u32, value: *earlier }));
        }
    }
    assert_eq!(capacities, vec![1, 2, 4]);
    assert_eq!(store.length(), 3);
    assert!(store.capacity() >= 3);
}

#[test]
fn get_past_the_end_is_refused() {
    let mut store = TypeStore::initialize();
    assert_eq!(store.get(0), Err(StoreError::IndexOutOfRange));
    store.add(1024, TaggedValue::signature(0x1000)).unwrap();
    assert_eq!(store.get(0).unwrap().tag, TypeTag::FunctionSignature);
    assert_eq!(store.get(1), Err(StoreError::IndexOutOfRange));
    assert_eq!(store.record(1), None);
}

#[test]
fn capacity_doubles_only_when_full() {
    let mut store = TypeStore::initialize();
    let mut seen = vec![];
    for i in 0..9u32 {
        store.add(i, TaggedValue::literal(ConstValue::U64(i as u64))).unwrap();
        seen.push(store.capacity());
    }
    assert_eq!(seen, vec![1, 2, 4, 4, 8, 8, 8, 8, 16]);
    for i in 0..9u64 {
        assert_eq!(store.get(i).unwrap().raw, i);
    }
}
