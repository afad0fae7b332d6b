use vstd::prelude::*;
use crate::bytecode::TypeTag;
use crate::layout::{FieldKind, StructLayout, layout_size, max_align};
use crate::object::{ClassId, TaggedValue, value_fields, value_layout};

verus! {

/// One registered type: its id and the value that describes it.
#[derive(Debug, Clone, Copy, PartialEq, Eq, Structural)]
pub struct TypeRecord {
    pub id: u32,
    pub value: TaggedValue,
}

/// What a store holds: the records added so far, in order, and the size of its backing array.
pub struct StoreState {
    pub entries: Seq<TypeRecord>,
    pub capacity: nat,
}

impl StoreState {
    pub open spec fn wf(self) -> bool {
        &&& self.capacity >= 1
        &&& self.entries.len() <= self.capacity
    }

    /// A store as its constructor leaves it: empty, room for one record.
    pub open spec fn initial() -> StoreState {
        StoreState { entries: Seq::empty(), capacity: 1 }
    }

    /// The store after one more record: a full store first doubles its capacity.
    pub open spec fn added(self, r: TypeRecord) -> StoreState {
        StoreState {
            entries: self.entries.push(r),
            capacity: if self.entries.len() == self.capacity {
                2 * self.capacity
            } else {
                self.capacity
            },
        }
    }
}

#[derive(Debug, Clone, Copy, PartialEq, Eq, Structural)]
pub enum StoreError {
    /// No record at that position.
    IndexOutOfRange,
    /// The store is full and doubling its capacity would overflow a 32-bit count.
    CapacityExhausted,
}

/// The catalog of registered types: a growable array of records that doubles when full.
/// Slots at and past `length` are allocated but hold no record.
pub struct TypeStore {
    slots: Vec<TypeRecord>,
    length: u32,
    capacity: u32,
}

/// A slot that holds no record yet.
pub open spec fn empty_record() -> TypeRecord {
    TypeRecord { id: 0, value: TaggedValue { tag: TypeTag::Primitive, class_id: ClassId(0), raw: 0 } }
}

fn empty_slot() -> (r: TypeRecord)
    ensures
        r == empty_record(),
{
    TypeRecord { id: 0, value: TaggedValue { tag: TypeTag::Primitive, class_id: ClassId(0), raw: 0 } }
}

impl View for TypeStore {
    type V = StoreState;

    closed spec fn view(&self) -> StoreState {
        StoreState {
            entries: self.slots@.subrange(0, self.length as int),
            capacity: self.capacity as nat,
        }
    }
}

impl TypeStore {
    #[verifier::type_invariant]
    closed spec fn inv(&self) -> bool {
        &&& self.slots@.len() == self.capacity
        &&& self.length <= self.capacity
        &&& self.capacity >= 1
    }

    /// The store as the one-time initializer sets it up: a backing array of one slot, no records.
    pub fn initialize() -> (r: TypeStore)
        ensures
            r@ == StoreState::initial(),
    {
        let mut slots: Vec<TypeRecord> = Vec::new();
        slots.push(empty_slot());
        let r = TypeStore { slots, length: 0, capacity: 1 };
        assert(r@.entries =~= Seq::<TypeRecord>::empty());
        r
    }

    pub fn length(&self) -> (r: u32)
        ensures
            r == self@.entries.len(),
            self@.wf(),
    {
        proof {
            use_type_invariant(self);
        }
        self.length
    }

    pub fn capacity(&self) -> (r: u32)
        ensures
            r == self@.capacity,
    {
        self.capacity
    }

    /// Replaces the backing array by one of twice the size, holding the same records.
    fn expand_capacity(&mut self)
        requires
            old(self).capacity <= 0x7fff_ffff,
        ensures
            final(self)@.entries == old(self)@.entries,
            final(self)@.capacity == 2 * old(self)@.capacity,
            final(self).length == old(self).length,
    {
        proof {
            use_type_invariant(&*self);
        }
        let new_capacity = self.capacity * 2;
        let mut grown: Vec<TypeRecord> = Vec::new();
        let mut i: usize = 0;
        while i < self.capacity as usize
            invariant
                self.slots@.len() == self.capacity,
                i <= self.capacity,
                grown@ == self.slots@.subrange(0, i as int),
            decreases self.capacity - i,
        {
            grown.push(self.slots[i]);
            i = i + 1;
            assert(grown@ =~= self.slots@.subrange(0, i as int));
        }
        while i < new_capacity as usize
            invariant
                self.capacity <= i <= new_capacity,
                new_capacity == 2 * self.capacity,
                grown@.len() == i,
                grown@.subrange(0, self.capacity as int) == self.slots@,
            decreases new_capacity - i,
        {
            let ghost before = grown@;
            grown.push(empty_slot());
            i = i + 1;
            assert(grown@.subrange(0, self.capacity as int) =~= before.subrange(0, self.capacity as int));
        }
        let ghost entries = self@.entries;
        let length = self.length;
        *self = TypeStore { slots: grown, length, capacity: new_capacity };
        assert(self@.entries =~= entries);
    }

    /// Adds a record at the end; a full store first doubles its capacity.
    pub fn add(&mut self, id: u32, value: TaggedValue) -> (r: Result<(), StoreError>)
        ensures
            r is Err <==> (old(self)@.entries.len() == old(self)@.capacity && old(self)@.capacity
                > 0x7fff_ffff),
            r is Ok ==> final(self)@ == old(self)@.added(TypeRecord { id, value }),
            r is Err ==> r == Err::<(), StoreError>(StoreError::CapacityExhausted) && final(self)@
                == old(self)@,
    {
        proof {
            use_type_invariant(&*self);
        }
        if self.length == self.capacity {
            if self.capacity > 0x7fff_ffff {
                return Err(StoreError::CapacityExhausted);
            }
            self.expand_capacity();
        }
        proof {
            use_type_invariant(&*self);
        }
        let ghost entries = self@.entries;
        let index = self.length as usize;
        self.slots[index] = TypeRecord { id, value };
        self.length = self.length + 1;
        assert(self@.entries =~= entries.push(TypeRecord { id, value }));
        Ok(())
    }

    /// The value of the record at a position; positions past the last record are refused.
    pub fn get(&self, index: u64) -> (r: Result<TaggedValue, StoreError>)
        ensures
            index < self@.entries.len() ==> r == Ok::<TaggedValue, StoreError>(
                self@.entries[index as int].value,
            ),
            index >= self@.entries.len() ==> r == Err::<TaggedValue, StoreError>(
                StoreError::IndexOutOfRange,
            ),
    {
        proof {
            use_type_invariant(self);
        }
        if index < self.length as u64 {
            Ok(self.slots[index as usize].value)
        } else {
            Err(StoreError::IndexOutOfRange)
        }
    }

    /// The whole record at a position.
    pub fn record(&self, index: u64) -> (r: Option<TypeRecord>)
        ensures
            index < self@.entries.len() ==> r == Some(self@.entries[index as int]),
            index >= self@.entries.len() ==> r is None,
    {
        proof {
            use_type_invariant(self);
        }
        if index < self.length as u64 {
            Some(self.slots[index as usize])
        } else {
            None
        }
    }
}

/// Adding never loses or reorders a record: what was at each position stays there,
/// the new record comes last, and capacity doubles exactly when the store was full.
pub proof fn lemma_add_keeps_entries(s: StoreState, r: TypeRecord)
    requires
        s.wf(),
    ensures
        s.added(r).wf(),
        s.added(r).entries.len() == s.entries.len() + 1,
        forall|i: int| 0 <= i < s.entries.len() ==> s.added(r).entries[i] == s.entries[i],
        s.added(r).entries.last() == r,
        s.entries.len() == s.capacity ==> s.added(r).capacity == 2 * s.capacity,
        s.entries.len() < s.capacity ==> s.added(r).capacity == s.capacity,
{
}

/// From the initial store, three additions give three records, in order, and a capacity
/// that went 1, 2, 4.
pub proof fn lemma_three_additions(a: TypeRecord, b: TypeRecord, c: TypeRecord)
    ensures
        StoreState::initial().added(a).capacity == 1,
        StoreState::initial().added(a).added(b).capacity == 2,
        StoreState::initial().added(a).added(b).added(c).capacity == 4,
        StoreState::initial().added(a).added(b).added(c).entries == seq![a, b, c],
        StoreState::initial().added(a).added(b).added(c).capacity >= 3,
{
    let s3 = StoreState::initial().added(a).added(b).added(c);
    assert(s3.entries =~= seq![a, b, c]);
}

/// The layout of a store slot: the type id, then the value embedded by value.
pub fn type_value_layout() -> (r: StructLayout)
    ensures
        r.fields@ == seq![
            FieldKind::U32,
            FieldKind::Embedded {
                size: layout_size(value_fields()) as u64,
                align: max_align(value_fields(), value_fields().len()) as u64,
            },
        ],
        r.wf(),
{
    let value = value_layout();
    proof {
        crate::object::lemma_value_layout();
        crate::layout::lemma_max_align(value_fields(), value_fields().len());
    }
    let embedded = value.as_embedded();
    let mut fields: Vec<FieldKind> = Vec::new();
    fields.push(FieldKind::U32);
    match embedded {
        Some(k) => fields.push(k),
        None => {
            proof {
                assert(false);
            }
        },
    }
    let r = StructLayout { name: "TypeValue".to_string(), fields };
    assert(r.fields@ =~= seq![
        FieldKind::U32,
        FieldKind::Embedded {
            size: layout_size(value_fields()) as u64,
            align: max_align(value_fields(), value_fields().len()) as u64,
        },
    ]);
    r
}

/// The layout of the store itself: the slot array by pointer, the length, the capacity.
pub fn type_store_layout() -> (r: StructLayout)
    ensures
        r.fields@ == seq![FieldKind::Pointer, FieldKind::U32, FieldKind::U32],
        r.wf(),
{
    let mut fields: Vec<FieldKind> = Vec::new();
    fields.push(FieldKind::Pointer);
    fields.push(FieldKind::U32);
    fields.push(FieldKind::U32);
    assert(fields@ =~= seq![FieldKind::Pointer, FieldKind::U32, FieldKind::U32]);
    StructLayout { name: "TypeStore".to_string(), fields }
}

} // verus!
