//! Runtime object model and code generation core of a small dynamically typed language.
//!
//! - `bytecode`: identifiers, type tags and ids, and the instruction stream.
//! - `bytes`, `layout`: little-endian fields and native struct layouts, filled in and read back.
//! - `object`: the tagged value representation and function signature records.
//! - `type_store`: the growable catalog of registered types.
//! - `constructors`: one-time initializers, ordered by priority.
//! - `types`, `codegen`: lowering expressions into instructions, and what those compute.
//! - `emit`: handing generated instructions to LLVM.
pub mod bytecode;
pub mod bytes;
pub mod codegen;
pub mod constructors;
pub mod emit;
pub mod layout;
pub mod object;
pub mod type_store;
pub mod types;
