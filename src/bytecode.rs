use vstd::prelude::*;

verus! {

/// Names a local binding within one evaluation scope.
/// Zero is the "no identifier" sentinel and is never a valid binding.
#[derive(Debug, Clone, Copy, PartialEq, Eq, Structural)]
pub struct Identifier(pub u32);

impl Identifier {
    pub fn new(id: u32) -> (r: Self)
        ensures
            r.0 == id,
    {
        Identifier(id)
    }

    pub fn as_u32(self) -> (r: u32)
        ensures
            r == self.0,
    {
        self.0
    }
}

/// The closed set of built-in type tags; each occupies one byte of a value's header.
#[derive(Debug, Clone, Copy, PartialEq, Eq, Structural)]
pub enum TypeTag {
    Primitive,
    U64,
    FunctionSignature,
}

/// The byte that encodes a tag.
pub open spec fn tag_byte(tag: TypeTag) -> u8 {
    match tag {
        TypeTag::Primitive => 0,
        TypeTag::U64 => 16,
        TypeTag::FunctionSignature => 128,
    }
}

/// The tag that a byte encodes, if any.
pub open spec fn tag_of_byte(b: u8) -> Option<TypeTag> {
    if b == 0 {
        Some(TypeTag::Primitive)
    } else if b == 16 {
        Some(TypeTag::U64)
    } else if b == 128 {
        Some(TypeTag::FunctionSignature)
    } else {
        None
    }
}

/// Decoding the encoding of a tag gives the tag back.
pub proof fn lemma_tag_byte_round_trip(tag: TypeTag)
    ensures
        tag_of_byte(tag_byte(tag)) == Some(tag),
{
}

impl TypeTag {
    pub fn as_u8(self) -> (r: u8)
        ensures
            r == tag_byte(self),
    {
        match self {
            TypeTag::Primitive => 0,
            TypeTag::U64 => 16,
            TypeTag::FunctionSignature => 128,
        }
    }

    pub fn from_value(value: u8) -> (r: Option<Self>)
        ensures
            r == tag_of_byte(value),
    {
        match value {
            0 => Some(TypeTag::Primitive),
            16 => Some(TypeTag::U64),
            128 => Some(TypeTag::FunctionSignature),
            _ => None,
        }
    }
}

/// Number of type ids reserved for built-in tags; registered types start here.
pub const BUILTIN_TYPE_IDS: u32 = 256;

/// Names a type. Ids below 256 are built-in tags, the rest are registered at run time.
#[derive(Debug, Clone, Copy, PartialEq, Eq, Structural)]
pub struct TypeId(pub u32);

/// The built-in tag that a type id stands for, if any.
pub open spec fn builtin_tag(id: u32) -> Option<TypeTag> {
    if id < 256 {
        tag_of_byte(id as u8)
    } else {
        None
    }
}

impl From<TypeTag> for TypeId {
    fn from(value: TypeTag) -> (r: TypeId)
        ensures
            r.0 == tag_byte(value) as u32,
    {
        TypeId(value.as_u8() as u32)
    }
}

impl vstd::std_specs::convert::FromSpecImpl<TypeTag> for TypeId {
    open spec fn obeys_from_spec() -> bool {
        true
    }

    open spec fn from_spec(v: TypeTag) -> TypeId {
        TypeId(tag_byte(v) as u32)
    }
}

impl TypeId {
    pub fn as_u32(self) -> (r: u32)
        ensures
            r == self.0,
    {
        self.0
    }

    /// The id of a built-in tag.
    pub fn of_tag(tag: TypeTag) -> (r: TypeId)
        ensures
            r.0 == tag_byte(tag) as u32,
            builtin_tag(r.0) == Some(tag),
    {
        TypeId(tag.as_u8() as u32)
    }

    /// Decodes the id back to a built-in tag; fails for registered and unused ids.
    pub fn builtin_tag(self) -> (r: Option<TypeTag>)
        ensures
            r == builtin_tag(self.0),
    {
        if self.0 < BUILTIN_TYPE_IDS {
            TypeTag::from_value(self.0 as u8)
        } else {
            None
        }
    }
}

/// A compile-time constant.
#[derive(Debug, Clone, Copy, PartialEq, Eq, Structural)]
pub enum ConstValue {
    U64(u64),
}

/// An operand: a literal, a reference to a binding, or a nested expression.
#[derive(Debug)]
pub enum Value {
    Literal(ConstValue),
    Local(Identifier),
    Computed(Box<Expression>),
}

#[derive(Debug)]
pub enum Expression {
    Assignment(Identifier, Value),
    Add(Value, Value),
}

/// A flat instruction stream; the last instruction's result is the program's result.
#[derive(Debug)]
pub struct ByteCode {
    pub instructions: Vec<Expression>,
}

/// The canonical example program:
/// `x <- 100; y <- 10; 1 + (x + y)`, with `x` and `y` the identifiers 1 and 2.
pub open spec fn example_program() -> Seq<Expression> {
    seq![
        Expression::Assignment(Identifier(1), Value::Literal(ConstValue::U64(100))),
        Expression::Assignment(Identifier(2), Value::Literal(ConstValue::U64(10))),
        Expression::Add(
            Value::Literal(ConstValue::U64(1)),
            Value::Computed(
                Box::new(Expression::Add(Value::Local(Identifier(1)), Value::Local(Identifier(2)))),
            ),
        ),
    ]
}

impl ByteCode {
    pub fn new() -> (r: Self)
        ensures
            r.instructions@ == example_program(),
    {
        let mut instructions: Vec<Expression> = Vec::new();
        instructions.push(
            Expression::Assignment(Identifier(1), Value::Literal(ConstValue::U64(100))),
        );
        instructions.push(
            Expression::Assignment(Identifier(2), Value::Literal(ConstValue::U64(10))),
        );
        instructions.push(
            Expression::Add(
                Value::Literal(ConstValue::U64(1)),
                Value::Computed(
                    Box::new(
                        Expression::Add(Value::Local(Identifier(1)), Value::Local(Identifier(2))),
                    ),
                ),
            ),
        );
        assert(instructions@ =~= example_program());
        ByteCode { instructions }
    }
}

} // verus!
