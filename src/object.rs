use vstd::prelude::*;
use crate::bytecode::{ConstValue, Identifier, TypeId, TypeTag, tag_byte, tag_of_byte};
use crate::bytes::{byte_range, le_bytes, le_value, read_le, lemma_byte_range_widths, lemma_le_bytes_len, lemma_le_round_trip};
use crate::layout::{align_up, FieldKind, FieldValue, StructLayout, end_of, field_offset, field_slice, fields_ok, field_bytes, kind_width, layout_size, max_align};

verus! {

/// Names a user-defined class; zero means "no class".
#[derive(Debug, Clone, Copy, PartialEq, Eq, Structural)]
pub struct ClassId(pub u16);

impl ClassId {
    pub fn none() -> (r: Self)
        ensures
            r.0 == 0,
    {
        ClassId(0)
    }

    pub fn as_u16(self) -> (r: u16)
        ensures
            r == self.0,
    {
        self.0
    }
}

/// The representation of every runtime value: a type tag, a class id and a 64-bit payload
/// whose meaning the tag decides. In memory it is 16 bytes: the tag byte, a reserved byte,
/// the class id, a reserved word and the payload.
#[derive(Debug, Clone, Copy, PartialEq, Eq, Structural)]
pub struct TaggedValue {
    pub tag: TypeTag,
    pub class_id: ClassId,
    pub raw: u64,
}

/// The value that a literal materializes to.
pub open spec fn literal_value(c: ConstValue) -> TaggedValue {
    match c {
        ConstValue::U64(v) => TaggedValue { tag: TypeTag::U64, class_id: ClassId(0), raw: v },
    }
}

/// The field kinds of a value in memory, in order.
pub open spec fn value_fields() -> Seq<FieldKind> {
    seq![FieldKind::U8, FieldKind::U8, FieldKind::U16, FieldKind::U32, FieldKind::U64]
}

/// The 16 bytes of a value in memory.
pub open spec fn value_bytes(v: TaggedValue) -> Seq<u8> {
    le_bytes(tag_byte(v.tag) as nat, 1) + le_bytes(0, 1) + le_bytes(v.class_id.0 as nat, 2)
        + le_bytes(0, 4) + le_bytes(v.raw as nat, 8)
}

/// The value that 16 bytes hold, if their tag byte is a known tag.
pub open spec fn decode_value(s: Seq<u8>) -> Option<TaggedValue> {
    if s.len() == 16 && tag_of_byte(s[0]) is Some {
        Some(
            TaggedValue {
                tag: tag_of_byte(s[0])->0,
                class_id: ClassId(le_value(s.subrange(2, 4)) as u16),
                raw: le_value(s.subrange(8, 16)) as u64,
            },
        )
    } else {
        None
    }
}

/// Where the fields of a value lie.
pub proof fn lemma_value_layout()
    ensures
        fields_ok(value_fields()),
        field_offset(value_fields(), 0) == 0,
        field_offset(value_fields(), 1) == 1,
        field_offset(value_fields(), 2) == 2,
        field_offset(value_fields(), 3) == 4,
        field_offset(value_fields(), 4) == 8,
        layout_size(value_fields()) == 16,
{
    let f = value_fields();
    reveal_with_fuel(end_of, 6);
    reveal_with_fuel(max_align, 6);
    assert(f[0] == FieldKind::U8 && f[1] == FieldKind::U8 && f[2] == FieldKind::U16 && f[3]
        == FieldKind::U32 && f[4] == FieldKind::U64);
    assert(align_up(0, 1) == 0 && align_up(1, 1) == 1 && align_up(2, 2) == 2 && align_up(4, 4)
        == 4 && align_up(8, 8) == 8 && align_up(16, 8) == 16);
    assert(end_of(f, 0) == 0);
    assert(end_of(f, 1) == 1);
    assert(end_of(f, 2) == 2);
    assert(end_of(f, 3) == 4);
    assert(end_of(f, 4) == 8);
    assert(end_of(f, 5) == 16);
    assert(max_align(f, 5) == 8);
}

/// Materializing a value and reading it back gives the same value.
pub proof fn lemma_value_round_trip(v: TaggedValue)
    ensures
        decode_value(value_bytes(v)) == Some(v),
{
    let b = value_bytes(v);
    let t = le_bytes(tag_byte(v.tag) as nat, 1);
    let c = le_bytes(v.class_id.0 as nat, 2);
    let r = le_bytes(v.raw as nat, 8);
    lemma_le_bytes_len(tag_byte(v.tag) as nat, 1);
    lemma_le_bytes_len(0, 1);
    lemma_le_bytes_len(v.class_id.0 as nat, 2);
    lemma_le_bytes_len(0, 4);
    lemma_le_bytes_len(v.raw as nat, 8);
    lemma_le_round_trip(tag_byte(v.tag) as nat, 1);
    lemma_le_round_trip(v.class_id.0 as nat, 2);
    lemma_le_round_trip(v.raw as nat, 8);
    lemma_byte_range_widths();
    vstd::arithmetic::div_mod::lemma_small_mod(v.class_id.0 as nat, 0x1_0000);
    vstd::arithmetic::div_mod::lemma_small_mod(v.raw as nat, 0x1_0000_0000_0000_0000);
    assert(b.subrange(2, 4) =~= c);
    assert(b.subrange(8, 16) =~= r);
    assert(t == seq![(tag_byte(v.tag) as nat % 256) as u8] + le_bytes(
        tag_byte(v.tag) as nat / 256,
        0,
    ));
    assert(b[0] == t[0]);
    crate::bytecode::lemma_tag_byte_round_trip(v.tag);
}

/// A literal materializes to a value tagged `U64` whose payload reads back as the literal.
pub proof fn lemma_literal_round_trip(x: u64)
    ensures
        decode_value(value_bytes(literal_value(ConstValue::U64(x)))) matches Some(v) && v.tag
            == TypeTag::U64 && v.raw == x && v.class_id.0 == 0,
{
    lemma_value_round_trip(literal_value(ConstValue::U64(x)));
}

/// The layout of a value: tag, reserved byte, class id, reserved word, payload.
pub fn value_layout() -> (r: StructLayout)
    ensures
        r.fields@ == value_fields(),
        r.wf(),
{
    let mut fields: Vec<FieldKind> = Vec::new();
    fields.push(FieldKind::U8);
    fields.push(FieldKind::U8);
    fields.push(FieldKind::U16);
    fields.push(FieldKind::U32);
    fields.push(FieldKind::U64);
    proof {
        assert(fields@ =~= value_fields());
        lemma_value_layout();
    }
    StructLayout { name: "Value".to_string(), fields }
}

impl TaggedValue {
    /// The value of a literal: tagged `U64`, no class, the literal as payload.
    pub fn literal(c: ConstValue) -> (r: Self)
        ensures
            r == literal_value(c),
    {
        match c {
            ConstValue::U64(v) => TaggedValue { tag: TypeTag::U64, class_id: ClassId(0), raw: v },
        }
    }

    /// A type-of-type value: tagged `Primitive`, its payload another tag.
    pub fn primitive(of: TypeTag) -> (r: Self)
        ensures
            r.tag == TypeTag::Primitive,
            r.class_id.0 == 0,
            r.raw == tag_byte(of) as u64,
    {
        TaggedValue { tag: TypeTag::Primitive, class_id: ClassId(0), raw: of.as_u8() as u64 }
    }

    /// A function signature value; its payload is the signature record's address.
    pub fn signature(address: u64) -> (r: Self)
        ensures
            r.tag == TypeTag::FunctionSignature,
            r.class_id.0 == 0,
            r.raw == address,
    {
        TaggedValue { tag: TypeTag::FunctionSignature, class_id: ClassId(0), raw: address }
    }

    /// The tag that a `Primitive` value stands for.
    pub fn primitive_of(&self) -> (r: Option<TypeTag>)
        ensures
            self.tag != TypeTag::Primitive ==> r is None,
            self.tag == TypeTag::Primitive ==> r == (if self.raw < 256 {
                tag_of_byte(self.raw as u8)
            } else {
                None
            }),
    {
        match self.tag {
            TypeTag::Primitive => if self.raw < 256 {
                TypeTag::from_value(self.raw as u8)
            } else {
                None
            },
            _ => None,
        }
    }

    /// Writes the value into memory through its layout; every field is set.
    pub fn materialize(&self) -> (r: Vec<u8>)
        ensures
            r@ == value_bytes(*self),
    {
        let layout = value_layout();
        let mut values: Vec<FieldValue> = Vec::new();
        values.push(FieldValue::Scalar(self.tag.as_u8() as u64));
        values.push(FieldValue::Scalar(0));
        values.push(FieldValue::Scalar(self.class_id.0 as u64));
        values.push(FieldValue::Scalar(0));
        values.push(FieldValue::Scalar(self.raw));
        proof {
            lemma_value_layout();
            lemma_byte_range_widths();
        }
        let filled = layout.fill_in(&values);
        match filled {
            Ok(mem) => {
                proof {
                    let f = value_fields();
                    lemma_le_bytes_len(tag_byte(self.tag) as nat, 1);
                    lemma_le_bytes_len(0, 1);
                    lemma_le_bytes_len(self.class_id.0 as nat, 2);
                    lemma_le_bytes_len(0, 4);
                    lemma_le_bytes_len(self.raw as nat, 8);
                    assert(field_slice(mem@, f, 0) == field_bytes(f[0], values@[0]));
                    assert(field_slice(mem@, f, 1) == field_bytes(f[1], values@[1]));
                    assert(field_slice(mem@, f, 2) == field_bytes(f[2], values@[2]));
                    assert(field_slice(mem@, f, 3) == field_bytes(f[3], values@[3]));
                    assert(field_slice(mem@, f, 4) == field_bytes(f[4], values@[4]));
                    assert(mem@ =~= mem@.subrange(0, 1) + mem@.subrange(1, 2) + mem@.subrange(2, 4)
                        + mem@.subrange(4, 8) + mem@.subrange(8, 16));
                }
                mem
            },
            Err(_) => {
                proof {
                    assert(false);
                }
                Vec::new()
            },
        }
    }

    /// Reads a value back from its 16 bytes; fails on another length or an unknown tag byte.
    pub fn read_back(mem: &Vec<u8>) -> (r: Option<TaggedValue>)
        ensures
            r == decode_value(mem@),
    {
        if mem.len() != 16 {
            return None;
        }
        let tag = TypeTag::from_value(mem[0]);
        match tag {
            None => None,
            Some(tag) => {
                let class_id = read_le(mem, 2, 2);
                let raw = read_le(mem, 8, 8);
                proof {
                    crate::bytes::lemma_le_value_bound(mem@.subrange(2, 4));
                    lemma_byte_range_widths();
                }
                Some(TaggedValue { tag, class_id: ClassId(class_id as u16), raw })
            },
        }
    }
}

/// One argument of a function signature.
#[derive(Debug, Clone, Copy, PartialEq, Eq, Structural)]
pub struct FunctionArgument {
    pub name: Identifier,
    pub type_id: TypeId,
}

/// A function signature: its argument array has exactly `argument_count` entries.
#[derive(Debug)]
pub struct FunctionSignature {
    pub class_id: ClassId,
    pub argument_count: u16,
    pub return_type_id: TypeId,
    pub arguments: Vec<FunctionArgument>,
}

impl FunctionSignature {
    pub open spec fn wf(&self) -> bool {
        self.argument_count as nat == self.arguments@.len()
    }

    /// A signature of no class; fails if there are more arguments than a count can hold.
    pub fn new(return_type_id: TypeId, arguments: Vec<FunctionArgument>) -> (r: Option<Self>)
        ensures
            r is Some <==> arguments@.len() <= u16::MAX,
            r matches Some(s) ==> s.wf() && s.class_id.0 == 0 && s.return_type_id
                == return_type_id && s.arguments@ == arguments@,
    {
        if arguments.len() > 0xffff {
            return None;
        }
        Some(
            FunctionSignature {
                class_id: ClassId(0),
                argument_count: arguments.len() as u16,
                return_type_id,
                arguments,
            },
        )
    }
}

/// The layout of a function argument record: name, type id.
pub fn function_argument_layout() -> (r: StructLayout)
    ensures
        r.fields@ == seq![FieldKind::U32, FieldKind::U32],
        r.wf(),
{
    let mut fields: Vec<FieldKind> = Vec::new();
    fields.push(FieldKind::U32);
    fields.push(FieldKind::U32);
    assert(fields@ =~= seq![FieldKind::U32, FieldKind::U32]);
    StructLayout { name: "FunctionArgument".to_string(), fields }
}

/// The layout of a function signature record: class id, argument count, return type id,
/// and the argument array, held by pointer.
pub fn function_signature_layout() -> (r: StructLayout)
    ensures
        r.fields@ == seq![FieldKind::U16, FieldKind::U16, FieldKind::U32, FieldKind::Pointer],
        r.wf(),
{
    let mut fields: Vec<FieldKind> = Vec::new();
    fields.push(FieldKind::U16);
    fields.push(FieldKind::U16);
    fields.push(FieldKind::U32);
    fields.push(FieldKind::Pointer);
    assert(fields@ =~= seq![FieldKind::U16, FieldKind::U16, FieldKind::U32, FieldKind::Pointer]);
    StructLayout { name: "FunctionSignature".to_string(), fields }
}

} // verus!
