use vstd::prelude::*;

pub use crate::bytecode::ConstValue;

verus! {

/// A value computed by the generated code: the result of an earlier instruction.
#[derive(Debug, Clone, Copy, PartialEq, Eq, Structural)]
pub struct ResultId(pub usize);

/// What fills a field when code is generated: a constant known now,
/// or a value that the generated code computes.
#[derive(Debug, Clone, Copy, PartialEq, Eq, Structural)]
pub enum Value {
    Const(ConstValue),
    Opaque(ResultId),
}

} // verus!
