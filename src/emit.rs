use vstd::prelude::*;
use inkwell::builder::{Builder, BuilderError};
use inkwell::context::Context;
use inkwell::types::{AnyTypeEnum, IntType, StructType};
use inkwell::values::{BasicValueEnum, IntValue, PointerValue};
use crate::bytecode::{ConstValue, TypeTag, tag_byte};
use crate::codegen::{Instruction, Program, Slot, gives_int, instructions_ok, lemma_run_len, lemma_run_push, native_add, operands_ok, program_output, run, step, well_formed};
use crate::layout::kind_width;
use crate::object::{ClassId, value_fields};
use crate::types::{ResultId, Value as Operand};

verus! {

#[verifier::external_type_specification]
#[verifier::external_body]
pub struct ExContext(Context);

#[verifier::external_type_specification]
#[verifier::external_body]
pub struct ExBuilder<'ctx>(Builder<'ctx>);

#[verifier::external_type_specification]
#[verifier::external_body]
pub struct ExBuilderError(BuilderError);

#[verifier::external_type_specification]
#[verifier::external_body]
pub struct ExIntType<'ctx>(IntType<'ctx>);

#[verifier::external_type_specification]
#[verifier::external_body]
pub struct ExStructType<'ctx>(StructType<'ctx>);

#[verifier::external_type_specification]
#[verifier::external_body]
pub struct ExIntValue<'ctx>(IntValue<'ctx>);

#[verifier::external_type_specification]
#[verifier::external_body]
pub struct ExPointerValue<'ctx>(PointerValue<'ctx>);

/// Relies on `Context::custom_width_int_type`: the integer type of that many bits.
#[verifier::external_body]
fn int_type<'ctx>(context: &'ctx Context, bits: u32) -> IntType<'ctx>
    requires
        bits == 8 || bits == 16 || bits == 32 || bits == 64,
{
    context.custom_width_int_type(bits)
}

/// Relies on `IntType::const_int`: an integer constant, not sign-extended.
#[verifier::external_body]
fn const_int<'ctx>(ty: IntType<'ctx>, value: u64) -> IntValue<'ctx> {
    ty.const_int(value, false)
}

/// Relies on `Builder::build_malloc`: a heap allocation of one `ty`; an error when the
/// builder has no position or the type is unsized.
#[verifier::external_body]
fn build_malloc<'ctx>(builder: &Builder<'ctx>, ty: StructType<'ctx>, name: &str) -> Result<
    PointerValue<'ctx>,
    BuilderError,
> {
    builder.build_malloc(ty, name)
}

/// Relies on `Builder::build_struct_gep`: the address of a field; an error when the builder
/// has no position, the pointer is not to a struct, or the struct has no such field.
#[verifier::external_body]
fn build_struct_gep<'ctx>(
    builder: &Builder<'ctx>,
    ptr: PointerValue<'ctx>,
    index: u32,
    name: &str,
) -> Result<PointerValue<'ctx>, BuilderError> {
    builder.build_struct_gep(ptr, index, name)
}

/// Relies on `Builder::build_store`: a store of `value` at `ptr`; an error when the builder
/// has no position.
#[verifier::external_body]
fn build_store<'ctx>(builder: &Builder<'ctx>, ptr: PointerValue<'ctx>, value: IntValue<'ctx>) -> Result<
    (),
    BuilderError,
> {
    match builder.build_store(ptr, value) {
        Ok(_) => Ok(()),
        Err(e) => Err(e),
    }
}

/// Relies on `PointerType::get_element_type` and `Builder::build_load`: a load from `ptr`
/// when it points to an integer, `None` without a load otherwise; an error when the builder
/// has no position.
#[verifier::external_body]
fn build_load_int<'ctx>(builder: &Builder<'ctx>, ptr: PointerValue<'ctx>, name: &str) -> Result<
    Option<IntValue<'ctx>>,
    BuilderError,
> {
    match ptr.get_type().get_element_type() {
        AnyTypeEnum::IntType(_) => match builder.build_load(ptr, name) {
            Ok(BasicValueEnum::IntValue(v)) => Ok(Some(v)),
            Ok(_) => Ok(None),
            Err(e) => Err(e),
        },
        _ => Ok(None),
    }
}

/// Relies on `Builder::build_int_add`: a wrapping integer addition; an error when the
/// builder has no position.
#[verifier::external_body]
fn build_int_add<'ctx>(
    builder: &Builder<'ctx>,
    lhs: IntValue<'ctx>,
    rhs: IntValue<'ctx>,
    name: &str,
) -> Result<IntValue<'ctx>, BuilderError> {
    builder.build_int_add(lhs, rhs, name)
}

/// Why generated instructions could not be handed to the backend.
#[derive(Debug)]
pub enum EmitError {
    /// The backend refused a call, with its own diagnostic.
    Backend(BuilderError),
    /// An operand does not name an earlier result of the kind its instruction reads.
    Malformed,
    /// A load of a payload did not give an integer.
    NotAnInteger,
}

fn backend<T>(r: Result<T, BuilderError>) -> (o: Result<T, EmitError>)
    ensures
        r is Ok <==> o is Ok,
        r matches Ok(v) ==> o == Ok::<T, EmitError>(v),
        o matches Err(e) ==> e is Backend,
{
    match r {
        Ok(v) => Ok(v),
        Err(e) => Err(EmitError::Backend(e)),
    }
}

/// One call into the backend, as plain values. Results are numbered in the order that the
/// ops making them run; stores go to the value allocated last.
#[derive(Debug, Clone, Copy, PartialEq, Eq, Structural)]
pub enum BackendOp {
    /// Allocates a value: the next result, and the value that the stores after it fill in.
    Allocate,
    /// Stores a constant of `bits` bits into field `field` of the value being filled in.
    StoreConst { field: u32, bits: u32, value: u64 },
    /// Stores an integer result into field `field` of the value being filled in.
    StoreResult { field: u32, source: ResultId },
    /// Loads the payload of a value result: the next result.
    LoadRaw { source: ResultId },
    /// Adds two integer results: the next result.
    Add { lhs: ResultId, rhs: ResultId },
}

/// The kind of a result: a pointer to a value, or an integer.
#[derive(Debug, Clone, Copy, PartialEq, Eq, Structural)]
pub enum ResultKind {
    Value,
    Integer,
}

/// The header fields of a value before its payload: tag, reserved byte, class id,
/// reserved word.
pub open spec fn header_of(tag: TypeTag, class_id: ClassId) -> Seq<u64> {
    seq![tag_byte(tag) as u64, 0, class_id.0 as u64, 0]
}

/// The ops that make a value: allocate it, then store all five fields.
pub open spec fn value_ops_of(tag: TypeTag, class_id: ClassId, raw: Operand) -> Seq<BackendOp> {
    seq![
        BackendOp::Allocate,
        BackendOp::StoreConst { field: 0, bits: 8, value: tag_byte(tag) as u64 },
        BackendOp::StoreConst { field: 1, bits: 8, value: 0 },
        BackendOp::StoreConst { field: 2, bits: 16, value: class_id.0 as u64 },
        BackendOp::StoreConst { field: 3, bits: 32, value: 0 },
        match raw {
            Operand::Const(ConstValue::U64(c)) => BackendOp::StoreConst {
                field: 4,
                bits: 64,
                value: c,
            },
            Operand::Opaque(r) => BackendOp::StoreResult { field: 4, source: r },
        },
    ]
}

/// The ops that one instruction becomes; its result is the first op's.
pub open spec fn ops_of(i: Instruction) -> Seq<BackendOp> {
    match i {
        Instruction::MakeValue { tag, class_id, raw } => value_ops_of(tag, class_id, raw),
        Instruction::LoadRaw(r) => seq![BackendOp::LoadRaw { source: r }],
        Instruction::IntAdd(a, b) => seq![BackendOp::Add { lhs: a, rhs: b }],
    }
}

/// The ops of the first `n` instructions, in order.
pub open spec fn flat_ops(instructions: Seq<Instruction>, n: nat) -> Seq<BackendOp>
    decreases n,
{
    if n == 0 {
        seq![]
    } else {
        flat_ops(instructions, (n - 1) as nat) + ops_of(instructions[n - 1])
    }
}

/// The ops of a whole program: every instruction's, then a load of the result's payload,
/// which the entry point returns.
pub open spec fn plan_of(instructions: Seq<Instruction>, result: ResultId) -> Seq<BackendOp> {
    flat_ops(instructions, instructions.len()).push(BackendOp::LoadRaw { source: result })
}

/// The kinds of the results after one op.
pub open spec fn step_kinds(k: Seq<ResultKind>, op: BackendOp) -> Seq<ResultKind> {
    match op {
        BackendOp::Allocate => k.push(ResultKind::Value),
        BackendOp::LoadRaw { .. } => k.push(ResultKind::Integer),
        BackendOp::Add { .. } => k.push(ResultKind::Integer),
        _ => k,
    }
}

/// The kinds of the results after running `ops` on results of kinds `init`.
pub open spec fn kinds_after(init: Seq<ResultKind>, ops: Seq<BackendOp>) -> Seq<ResultKind>
    decreases ops.len(),
{
    if ops.len() == 0 {
        init
    } else {
        step_kinds(kinds_after(init, ops.drop_last()), ops.last())
    }
}

pub open spec fn is_kind(k: Seq<ResultKind>, r: ResultId, kind: ResultKind) -> bool {
    r.0 < k.len() && k[r.0 as int] == kind
}

/// An op may run after results of kinds `k`: what it reads exists and is of its kind.
pub open spec fn op_ok(k: Seq<ResultKind>, op: BackendOp) -> bool {
    match op {
        BackendOp::Allocate => true,
        BackendOp::StoreConst { bits, .. } => k.len() > 0 && k.last() == ResultKind::Value && (
        bits == 8 || bits == 16 || bits == 32 || bits == 64),
        BackendOp::StoreResult { source, .. } => k.len() > 0 && k.last() == ResultKind::Value
            && is_kind(k, source, ResultKind::Integer),
        BackendOp::LoadRaw { source } => is_kind(k, source, ResultKind::Value),
        BackendOp::Add { lhs, rhs } => is_kind(k, lhs, ResultKind::Integer) && is_kind(
            k,
            rhs,
            ResultKind::Integer,
        ),
    }
}

/// Every op may run where it stands.
pub open spec fn ops_ok(init: Seq<ResultKind>, ops: Seq<BackendOp>) -> bool {
    forall|i: int| 0 <= i < ops.len() ==> #[trigger] op_ok(kinds_after(init, ops.take(i)), ops[i])
}

proof fn lemma_ops_push(init: Seq<ResultKind>, ops: Seq<BackendOp>, op: BackendOp)
    ensures
        kinds_after(init, ops.push(op)) == step_kinds(kinds_after(init, ops), op),
        ops_ok(init, ops.push(op)) == (ops_ok(init, ops) && op_ok(kinds_after(init, ops), op)),
{
    let n = ops.push(op);
    assert(n.drop_last() =~= ops);
    assert(n.take(ops.len() as int) =~= ops);
    assert forall|i: int| 0 <= i < ops.len() implies n.take(i) == ops.take(i) && n[i] == ops[i] by {
        assert(n.take(i) =~= ops.take(i));
    }
    if ops_ok(init, ops) && op_ok(kinds_after(init, ops), op) {
        assert forall|i: int| 0 <= i < n.len() implies #[trigger] op_ok(
            kinds_after(init, n.take(i)),
            n[i],
        ) by {
            if i < ops.len() {
                assert(n.take(i) == ops.take(i));
            }
        }
    }
    if ops_ok(init, n) {
        assert forall|i: int| 0 <= i < ops.len() implies #[trigger] op_ok(
            kinds_after(init, ops.take(i)),
            ops[i],
        ) by {
            assert(op_ok(kinds_after(init, n.take(i)), n[i]));
        }
        assert(op_ok(kinds_after(init, n.take(ops.len() as int)), n[ops.len() as int]));
    }
}

proof fn lemma_ops_append(init: Seq<ResultKind>, a: Seq<BackendOp>, b: Seq<BackendOp>)
    requires
        ops_ok(init, a),
        ops_ok(kinds_after(init, a), b),
    ensures
        ops_ok(init, a + b),
        kinds_after(init, a + b) == kinds_after(kinds_after(init, a), b),
    decreases b.len(),
{
    if b.len() == 0 {
        assert(a + b =~= a);
    } else {
        let c = b.drop_last();
        let o = b.last();
        assert(c.push(o) =~= b);
        lemma_ops_push(kinds_after(init, a), c, o);
        lemma_ops_append(init, a, c);
        assert((a + c).push(o) =~= a + b);
        lemma_ops_push(init, a + c, o);
    }
}

/// What instruction results are, as seen by the ops.
pub open spec fn instr_kind(i: Instruction) -> ResultKind {
    if i is MakeValue {
        ResultKind::Value
    } else {
        ResultKind::Integer
    }
}

/// The operands of `i` are results among `k` of the kinds it reads.
pub open spec fn reads_ok(k: Seq<ResultKind>, i: Instruction) -> bool {
    match i {
        Instruction::MakeValue { raw, .. } => match raw {
            Operand::Opaque(r) => is_kind(k, r, ResultKind::Integer),
            Operand::Const(_) => true,
        },
        Instruction::LoadRaw(r) => is_kind(k, r, ResultKind::Value),
        Instruction::IntAdd(a, b) => is_kind(k, a, ResultKind::Integer) && is_kind(
            k,
            b,
            ResultKind::Integer,
        ),
    }
}

proof fn lemma_group(k: Seq<ResultKind>, i: Instruction)
    requires
        reads_ok(k, i),
    ensures
        ops_ok(k, ops_of(i)),
        kinds_after(k, ops_of(i)) == k.push(instr_kind(i)),
{
    let ops = ops_of(i);
    let e = Seq::<BackendOp>::empty();
    assert(ops_ok(k, e));
    assert(kinds_after(k, e) == k);
    match i {
        Instruction::MakeValue { tag, class_id, raw } => {
            let mut s = e;
            let mut j: int = 0;
            let kv = k.push(ResultKind::Value);
            assert(kv.last() == ResultKind::Value);
            lemma_ops_push(k, s, ops[0]);
            s = s.push(ops[0]);
            lemma_ops_push(k, s, ops[1]);
            s = s.push(ops[1]);
            lemma_ops_push(k, s, ops[2]);
            s = s.push(ops[2]);
            lemma_ops_push(k, s, ops[3]);
            s = s.push(ops[3]);
            lemma_ops_push(k, s, ops[4]);
            s = s.push(ops[4]);
            match raw {
                Operand::Opaque(r) => {
                    assert(is_kind(kv, r, ResultKind::Integer));
                },
                _ => {},
            }
            lemma_ops_push(k, s, ops[5]);
            s = s.push(ops[5]);
            assert(s =~= ops);
        },
        _ => {
            lemma_ops_push(k, e, ops[0]);
            assert(e.push(ops[0]) =~= ops);
        },
    }
}

proof fn lemma_flat_ops(instructions: Seq<Instruction>, n: nat)
    requires
        instructions_ok(instructions),
        n <= instructions.len(),
    ensures
        ops_ok(seq![], flat_ops(instructions, n)),
        kinds_after(seq![], flat_ops(instructions, n)) == instructions.take(n as int).map_values(
            |i: Instruction| instr_kind(i),
        ),
    decreases n,
{
    let e = Seq::<BackendOp>::empty();
    if n == 0 {
        assert(flat_ops(instructions, 0) =~= e);
        assert(instructions.take(0).map_values(|i: Instruction| instr_kind(i)) =~= seq![]);
    } else {
        let m = (n - 1) as nat;
        lemma_flat_ops(instructions, m);
        let k = instructions.take(m as int).map_values(|i: Instruction| instr_kind(i));
        let i = instructions[m as int];
        assert(operands_ok(instructions, m as int));
        assert(reads_ok(k, i)) by {
            match i {
                Instruction::MakeValue { raw, .. } => match raw {
                    Operand::Opaque(r) => {
                        assert(k[r.0 as int] == instr_kind(instructions[r.0 as int]));
                    },
                    _ => {},
                },
                Instruction::LoadRaw(r) => {
                    assert(k[r.0 as int] == instr_kind(instructions[r.0 as int]));
                },
                Instruction::IntAdd(a, b) => {
                    assert(k[a.0 as int] == instr_kind(instructions[a.0 as int]));
                    assert(k[b.0 as int] == instr_kind(instructions[b.0 as int]));
                },
            }
        }
        lemma_group(k, i);
        lemma_ops_append(seq![], flat_ops(instructions, m), ops_of(i));
        assert(k.push(instr_kind(i)) =~= instructions.take(n as int).map_values(
            |i: Instruction| instr_kind(i),
        ));
    }
}

/// Every op of a well-formed program's plan reads results that exist and are of its kind,
/// and the plan ends with an integer: the payload that the entry point returns.
pub proof fn lemma_plan_ok(instructions: Seq<Instruction>, result: ResultId)
    requires
        well_formed(instructions, result),
    ensures
        ops_ok(seq![], plan_of(instructions, result)),
        kinds_after(seq![], plan_of(instructions, result)).len() > 0,
        kinds_after(seq![], plan_of(instructions, result)).last() == ResultKind::Integer,
{
    let n = instructions.len();
    lemma_flat_ops(instructions, n);
    let k = instructions.take(n as int).map_values(|i: Instruction| instr_kind(i));
    assert(k[result.0 as int] == instr_kind(instructions[result.0 as int]));
    lemma_ops_push(seq![], flat_ops(instructions, n), BackendOp::LoadRaw { source: result });
}

/// What an op leaves in memory: a value as its five fields, or an integer.
#[derive(Debug, Clone, Copy, PartialEq, Eq, Structural)]
pub enum Cell {
    Fields(u64, u64, u64, u64, u64),
    Int(u64),
}

/// A value's fields after storing `v` into field `f`.
pub open spec fn store_field(c: Cell, f: u32, v: u64) -> Cell {
    match c {
        Cell::Fields(a, b, x, y, z) => if f == 0 {
            Cell::Fields(v, b, x, y, z)
        } else if f == 1 {
            Cell::Fields(a, v, x, y, z)
        } else if f == 2 {
            Cell::Fields(a, b, v, y, z)
        } else if f == 3 {
            Cell::Fields(a, b, x, v, z)
        } else {
            Cell::Fields(a, b, x, y, v)
        },
        Cell::Int(_) => c,
    }
}

/// What one op does to memory: an allocation is a fresh value (its contents are never
/// read before every field is stored), stores fill in the value allocated last.
pub open spec fn op_effect(m: Seq<Cell>, op: BackendOp) -> Seq<Cell> {
    match op {
        BackendOp::Allocate => m.push(Cell::Fields(0, 0, 0, 0, 0)),
        BackendOp::StoreConst { field, value, .. } => m.update(
            m.len() - 1,
            store_field(m.last(), field, value),
        ),
        BackendOp::StoreResult { field, source } => m.update(
            m.len() - 1,
            store_field(m.last(), field, m[source.0 as int]->Int_0),
        ),
        BackendOp::LoadRaw { source } => m.push(Cell::Int(m[source.0 as int]->Fields_4)),
        BackendOp::Add { lhs, rhs } => m.push(
            Cell::Int(native_add(m[lhs.0 as int]->Int_0, m[rhs.0 as int]->Int_0)),
        ),
    }
}

/// Memory after running `ops` from `init`.
pub open spec fn cells_after(init: Seq<Cell>, ops: Seq<BackendOp>) -> Seq<Cell>
    decreases ops.len(),
{
    if ops.len() == 0 {
        init
    } else {
        op_effect(cells_after(init, ops.drop_last()), ops.last())
    }
}

/// The cell that an instruction result stands for: a value's five fields, or the integer.
pub open spec fn cell_of(s: Slot) -> Cell {
    match s {
        Slot::Record(v) => Cell::Fields(tag_byte(v.tag) as u64, 0, v.class_id.0 as u64, 0, v.raw),
        Slot::Int(x) => Cell::Int(x),
        Slot::Invalid => Cell::Int(0),
    }
}

proof fn lemma_cells_push(init: Seq<Cell>, ops: Seq<BackendOp>, op: BackendOp)
    ensures
        cells_after(init, ops.push(op)) == op_effect(cells_after(init, ops), op),
{
    assert(ops.push(op).drop_last() =~= ops);
}

proof fn lemma_cells_append(init: Seq<Cell>, a: Seq<BackendOp>, b: Seq<BackendOp>)
    ensures
        cells_after(init, a + b) == cells_after(cells_after(init, a), b),
    decreases b.len(),
{
    if b.len() == 0 {
        assert(a + b =~= a);
    } else {
        let c = b.drop_last();
        let o = b.last();
        assert(c.push(o) =~= b);
        lemma_cells_append(init, a, c);
        assert((a + c).push(o) =~= a + b);
        lemma_cells_push(init, a + c, o);
        lemma_cells_push(cells_after(init, a), c, o);
    }
}

/// Under well-formed instructions, each result of `run` is a value exactly where the
/// instruction makes one, and an integer elsewhere.
proof fn lemma_run_kinds(instructions: Seq<Instruction>)
    requires
        instructions_ok(instructions),
    ensures
        run(instructions).len() == instructions.len(),
        forall|j: int|
            0 <= j < instructions.len() ==> (#[trigger] run(instructions)[j] is Record
                <==> instructions[j] is MakeValue) && (run(instructions)[j] is Int <==> gives_int(
                instructions[j],
            )),
    decreases instructions.len(),
{
    lemma_run_len(instructions);
    if instructions.len() > 0 {
        let prev = instructions.drop_last();
        assert(instructions_ok(prev)) by {
            assert forall|k: int| 0 <= k < prev.len() implies #[trigger] operands_ok(prev, k) by {
                assert(operands_ok(instructions, k));
            }
        }
        lemma_run_kinds(prev);
        lemma_run_len(prev);
        assert(operands_ok(instructions, instructions.len() - 1));
    }
}

proof fn lemma_group_cells(m: Seq<Cell>, slots: Seq<Slot>, i: Instruction)
    requires
        m == slots.map_values(|s: Slot| cell_of(s)),
        step(slots, i) !is Invalid,
        match i {
            Instruction::MakeValue { raw, .. } => match raw {
                Operand::Opaque(r) => r.0 < slots.len() && slots[r.0 as int] is Int,
                Operand::Const(_) => true,
            },
            Instruction::LoadRaw(r) => r.0 < slots.len() && slots[r.0 as int] is Record,
            Instruction::IntAdd(a, b) => a.0 < slots.len() && b.0 < slots.len()
                && slots[a.0 as int] is Int && slots[b.0 as int] is Int,
        },
    ensures
        cells_after(m, ops_of(i)) == slots.push(step(slots, i)).map_values(|s: Slot| cell_of(s)),
{
    let ops = ops_of(i);
    let e = Seq::<BackendOp>::empty();
    let target = slots.push(step(slots, i)).map_values(|s: Slot| cell_of(s));
    match i {
        Instruction::MakeValue { tag, class_id, raw } => {
            let mut s = e;
            lemma_cells_push(m, s, ops[0]);
            s = s.push(ops[0]);
            lemma_cells_push(m, s, ops[1]);
            s = s.push(ops[1]);
            lemma_cells_push(m, s, ops[2]);
            s = s.push(ops[2]);
            lemma_cells_push(m, s, ops[3]);
            s = s.push(ops[3]);
            lemma_cells_push(m, s, ops[4]);
            s = s.push(ops[4]);
            lemma_cells_push(m, s, ops[5]);
            s = s.push(ops[5]);
            assert(s =~= ops);
            match raw {
                Operand::Opaque(r) => {
                    assert(m[r.0 as int] == cell_of(slots[r.0 as int]));
                },
                _ => {},
            }
            assert(cells_after(m, ops) =~= target);
        },
        Instruction::LoadRaw(r) => {
            lemma_cells_push(m, e, ops[0]);
            assert(e.push(ops[0]) =~= ops);
            assert(m[r.0 as int] == cell_of(slots[r.0 as int]));
            assert(cells_after(m, ops) =~= target);
        },
        Instruction::IntAdd(a, b) => {
            lemma_cells_push(m, e, ops[0]);
            assert(e.push(ops[0]) =~= ops);
            assert(m[a.0 as int] == cell_of(slots[a.0 as int]));
            assert(m[b.0 as int] == cell_of(slots[b.0 as int]));
            assert(cells_after(m, ops) =~= target);
        },
    }
}

proof fn lemma_flat_cells(instructions: Seq<Instruction>, n: nat)
    requires
        instructions_ok(instructions),
        n <= instructions.len(),
    ensures
        cells_after(seq![], flat_ops(instructions, n)) == run(instructions.take(n as int)).map_values(
            |s: Slot| cell_of(s),
        ),
    decreases n,
{
    if n == 0 {
        assert(flat_ops(instructions, 0) =~= Seq::<BackendOp>::empty());
        assert(instructions.take(0) =~= Seq::<Instruction>::empty());
        assert(run(instructions.take(0)).map_values(|s: Slot| cell_of(s)) =~= seq![]);
    } else {
        let m = (n - 1) as nat;
        lemma_flat_cells(instructions, m);
        let pre = instructions.take(m as int);
        let i = instructions[m as int];
        assert(instructions.take(n as int) =~= pre.push(i));
        assert(instructions_ok(pre)) by {
            assert forall|k: int| 0 <= k < pre.len() implies #[trigger] operands_ok(pre, k) by {
                assert(operands_ok(instructions, k));
            }
        }
        lemma_run_kinds(pre);
        assert(operands_ok(instructions, m as int));
        let slots = run(pre);
        match i {
            Instruction::MakeValue { raw, .. } => match raw {
                Operand::Opaque(r) => {
                    assert(slots[r.0 as int] is Int);
                },
                _ => {},
            },
            Instruction::LoadRaw(r) => {
                assert(slots[r.0 as int] is Record);
            },
            Instruction::IntAdd(a, b) => {
                assert(slots[a.0 as int] is Int);
                assert(slots[b.0 as int] is Int);
            },
        }
        lemma_group_cells(slots.map_values(|s: Slot| cell_of(s)), slots, i);
        lemma_cells_append(seq![], flat_ops(instructions, m), ops_of(i));
        lemma_run_push(pre, i);
    }
}

/// The ops of a well-formed program compute what its instructions do under `run`: every
/// value the backend allocates ends with all five fields set, to the tag's byte, zero, the
/// class id, zero and the payload, and the last op loads the payload that the program
/// returns.
pub proof fn lemma_plan_computes_run(instructions: Seq<Instruction>, result: ResultId)
    requires
        well_formed(instructions, result),
    ensures
        cells_after(seq![], flat_ops(instructions, instructions.len())) == run(instructions).map_values(
            |s: Slot| cell_of(s),
        ),
        program_output(instructions, result) is Some,
        cells_after(seq![], plan_of(instructions, result)).last() == Cell::Int(
            program_output(instructions, result)->0,
        ),
{
    let n = instructions.len();
    lemma_flat_cells(instructions, n);
    assert(instructions.take(n as int) =~= instructions);
    lemma_run_kinds(instructions);
    lemma_cells_push(seq![], flat_ops(instructions, n), BackendOp::LoadRaw { source: result });
    let slots = run(instructions);
    assert(slots.map_values(|s: Slot| cell_of(s))[result.0 as int] == cell_of(slots[result.0 as int]));
}

/// The header fields of a value, in field order.
pub fn value_header(tag: TypeTag, class_id: ClassId) -> (r: [u64; 4])
    ensures
        r@ == header_of(tag, class_id),
{
    let r: [u64; 4] = [tag.as_u8() as u64, 0, class_id.as_u16() as u64, 0];
    assert(r@ =~= header_of(tag, class_id));
    r
}

/// The bits of each header field of a value: tag, reserved byte, class id, reserved word.
fn header_bits(index: u32) -> (r: u32)
    requires
        index < 4,
    ensures
        r == 8 * kind_width(value_fields()[index as int]),
        r == value_ops_of(TypeTag::U64, ClassId(0), Operand::Opaque(ResultId(0)))[index + 1]->bits,
{
    if index < 2 {
        8
    } else if index == 2 {
        16
    } else {
        32
    }
}

/// The ops that make a value with this tag, class and payload.
pub fn value_ops(tag: TypeTag, class_id: ClassId, raw: Operand) -> (r: Vec<BackendOp>)
    ensures
        r@ == value_ops_of(tag, class_id, raw),
{
    let header = value_header(tag, class_id);
    let mut r: Vec<BackendOp> = Vec::new();
    r.push(BackendOp::Allocate);
    let mut field: u32 = 0;
    while field < 4
        invariant
            field <= 4,
            header@ == header_of(tag, class_id),
            r@ == value_ops_of(tag, class_id, raw).take(field + 1),
        decreases 4 - field,
    {
        r.push(
            BackendOp::StoreConst {
                field,
                bits: header_bits(field),
                value: header[field as usize],
            },
        );
        field = field + 1;
        assert(r@ =~= value_ops_of(tag, class_id, raw).take(field + 1));
    }
    match raw {
        Operand::Const(ConstValue::U64(c)) => r.push(
            BackendOp::StoreConst { field: 4, bits: 64, value: c },
        ),
        Operand::Opaque(s) => r.push(BackendOp::StoreResult { field: 4, source: s }),
    }
    assert(r@ =~= value_ops_of(tag, class_id, raw));
    r
}

/// The ops that one instruction becomes.
pub fn instruction_ops(i: Instruction) -> (r: Vec<BackendOp>)
    ensures
        r@ == ops_of(i),
{
    match i {
        Instruction::MakeValue { tag, class_id, raw } => value_ops(tag, class_id, raw),
        Instruction::LoadRaw(s) => {
            let mut r: Vec<BackendOp> = Vec::new();
            r.push(BackendOp::LoadRaw { source: s });
            assert(r@ =~= ops_of(i));
            r
        },
        Instruction::IntAdd(a, b) => {
            let mut r: Vec<BackendOp> = Vec::new();
            r.push(BackendOp::Add { lhs: a, rhs: b });
            assert(r@ =~= ops_of(i));
            r
        },
    }
}

/// The backend calls that a program becomes, in order.
pub fn backend_plan(p: &Program) -> (r: Vec<BackendOp>)
    ensures
        r@ == plan_of(p.instructions@, p.result),
{
    let mut plan: Vec<BackendOp> = Vec::new();
    let mut k: usize = 0;
    while k < p.instructions.len()
        invariant
            k <= p.instructions@.len(),
            plan@ == flat_ops(p.instructions@, k as nat),
        decreases p.instructions@.len() - k,
    {
        let ops = instruction_ops(p.instructions[k]);
        let ghost before = plan@;
        let mut j: usize = 0;
        while j < ops.len()
            invariant
                j <= ops@.len(),
                plan@ == before + ops@.take(j as int),
            decreases ops@.len() - j,
        {
            plan.push(ops[j]);
            j = j + 1;
            assert(plan@ =~= before + ops@.take(j as int));
        }
        assert(ops@.take(ops@.len() as int) =~= ops@);
        k = k + 1;
    }
    plan.push(BackendOp::LoadRaw { source: p.result });
    plan
}

/// What an op made: a pointer to a value, an integer, or nothing (a store).
pub enum Emitted<'ctx> {
    Record(PointerValue<'ctx>),
    Int(IntValue<'ctx>),
}

pub open spec fn kind_of<'ctx>(e: Emitted<'ctx>) -> ResultKind {
    match e {
        Emitted::Record(_) => ResultKind::Value,
        Emitted::Int(_) => ResultKind::Integer,
    }
}

pub open spec fn kinds<'ctx>(results: Seq<Emitted<'ctx>>) -> Seq<ResultKind> {
    results.map_values(|e: Emitted<'ctx>| kind_of(e))
}

fn record_at<'ctx>(results: &Vec<Emitted<'ctx>>, id: ResultId) -> (r: Option<PointerValue<'ctx>>)
    ensures
        r is Some <==> is_kind(kinds(results@), id, ResultKind::Value),
{
    if id.0 < results.len() {
        match &results[id.0] {
            Emitted::Record(p) => Some(*p),
            Emitted::Int(_) => None,
        }
    } else {
        None
    }
}

fn int_at<'ctx>(results: &Vec<Emitted<'ctx>>, id: ResultId) -> (r: Option<IntValue<'ctx>>)
    ensures
        r is Some <==> is_kind(kinds(results@), id, ResultKind::Integer),
{
    if id.0 < results.len() {
        match &results[id.0] {
            Emitted::Int(v) => Some(*v),
            Emitted::Record(_) => None,
        }
    } else {
        None
    }
}

fn last_record<'ctx>(results: &Vec<Emitted<'ctx>>) -> (r: Option<PointerValue<'ctx>>)
    ensures
        r is Some <==> (results@.len() > 0 && kinds(results@).last() == ResultKind::Value),
{
    if results.len() == 0 {
        None
    } else {
        record_at(results, ResultId(results.len() - 1))
    }
}

fn valid_bits(bits: u32) -> (r: bool)
    ensures
        r == (bits == 8 || bits == 16 || bits == 32 || bits == 64),
{
    bits == 8 || bits == 16 || bits == 32 || bits == 64
}

/// Hands one op to the backend. An op that reads a missing result or one of the wrong kind
/// is refused before any backend call.
fn apply_op<'ctx>(
    builder: &Builder<'ctx>,
    context: &'ctx Context,
    value_type: StructType<'ctx>,
    results: &mut Vec<Emitted<'ctx>>,
    op: BackendOp,
) -> (r: Result<(), EmitError>)
    ensures
        !op_ok(kinds(old(results)@), op) <==> r matches Err(EmitError::Malformed),
        r is Ok ==> kinds(final(results)@) == step_kinds(kinds(old(results)@), op),
{
    let ghost k = kinds(results@);
    match op {
        BackendOp::Allocate => {
            let p = backend(build_malloc(builder, value_type, "Value"))?;
            results.push(Emitted::Record(p));
            assert(kinds(results@) =~= k.push(ResultKind::Value));
            Ok(())
        },
        BackendOp::StoreConst { field, bits, value } => {
            let target = match last_record(results) {
                Some(t) => t,
                None => {
                    return Err(EmitError::Malformed);
                },
            };
            if !valid_bits(bits) {
                return Err(EmitError::Malformed);
            }
            let v = const_int(int_type(context, bits), value);
            let gep = backend(build_struct_gep(builder, target, field, "value_field"))?;
            backend(build_store(builder, gep, v))
        },
        BackendOp::StoreResult { field, source } => {
            let target = match last_record(results) {
                Some(t) => t,
                None => {
                    return Err(EmitError::Malformed);
                },
            };
            let v = match int_at(results, source) {
                Some(v) => v,
                None => {
                    return Err(EmitError::Malformed);
                },
            };
            let gep = backend(build_struct_gep(builder, target, field, "value_field"))?;
            backend(build_store(builder, gep, v))
        },
        BackendOp::LoadRaw { source } => {
            let p = match record_at(results, source) {
                Some(p) => p,
                None => {
                    return Err(EmitError::Malformed);
                },
            };
            let gep = backend(build_struct_gep(builder, p, 4, "raw_gep"))?;
            match backend(build_load_int(builder, gep, "raw"))? {
                Some(v) => {
                    results.push(Emitted::Int(v));
                    assert(kinds(results@) =~= k.push(ResultKind::Integer));
                    Ok(())
                },
                None => Err(EmitError::NotAnInteger),
            }
        },
        BackendOp::Add { lhs, rhs } => {
            let (x, y) = match (int_at(results, lhs), int_at(results, rhs)) {
                (Some(x), Some(y)) => (x, y),
                _ => {
                    return Err(EmitError::Malformed);
                },
            };
            let v = backend(build_int_add(builder, x, y, "sum_value"))?;
            results.push(Emitted::Int(v));
            assert(kinds(results@) =~= k.push(ResultKind::Integer));
            Ok(())
        },
    }
}

/// Hands the ops to the backend one at a time, in order. If every op may run where it
/// stands, none is refused as malformed; otherwise the run fails.
pub fn apply_ops<'ctx>(
    builder: &Builder<'ctx>,
    context: &'ctx Context,
    value_type: StructType<'ctx>,
    results: &mut Vec<Emitted<'ctx>>,
    ops: &Vec<BackendOp>,
) -> (r: Result<(), EmitError>)
    ensures
        ops_ok(kinds(old(results)@), ops@) ==> !(r matches Err(EmitError::Malformed)),
        !ops_ok(kinds(old(results)@), ops@) ==> r is Err,
        r is Ok ==> kinds(final(results)@) == kinds_after(kinds(old(results)@), ops@),
{
    let ghost init = kinds(results@);
    let mut i: usize = 0;
    while i < ops.len()
        invariant
            i <= ops@.len(),
            init == kinds(old(results)@),
            kinds(results@) == kinds_after(init, ops@.take(i as int)),
            ops_ok(init, ops@.take(i as int)),
        decreases ops@.len() - i,
    {
        let ghost before = ops@.take(i as int);
        proof {
            lemma_ops_push(init, before, ops@[i as int]);
            assert(before.push(ops@[i as int]) =~= ops@.take(i + 1));
            if !op_ok(kinds_after(init, before), ops@[i as int]) {
                assert(!ops_ok(init, ops@)) by {
                    assert(ops@.take(i as int) == before);
                }
            }
        }
        apply_op(builder, context, value_type, results, ops[i])?;
        i = i + 1;
    }
    assert(ops@.take(ops@.len() as int) =~= ops@);
    Ok(())
}

/// Makes a value with this tag and class whose payload is `raw`, by handing the backend
/// exactly `value_ops(tag, class_id, ...)` with `raw` as the stored payload.
pub fn make_value<'ctx>(
    builder: &Builder<'ctx>,
    context: &'ctx Context,
    value_type: StructType<'ctx>,
    tag: TypeTag,
    class_id: ClassId,
    raw: IntValue<'ctx>,
) -> (r: Result<PointerValue<'ctx>, EmitError>)
    ensures
        r matches Err(e) ==> e is Backend || e is NotAnInteger,
{
    let mut results: Vec<Emitted<'ctx>> = Vec::new();
    results.push(Emitted::Int(raw));
    let ops = value_ops(tag, class_id, Operand::Opaque(ResultId(0)));
    proof {
        let k = kinds(results@);
        assert(k =~= seq![ResultKind::Integer]);
        assert(reads_ok(k, Instruction::MakeValue { tag, class_id, raw: Operand::Opaque(ResultId(0)) }));
        lemma_group(k, Instruction::MakeValue { tag, class_id, raw: Operand::Opaque(ResultId(0)) });
    }
    apply_ops(builder, context, value_type, &mut results, &ops)?;
    match record_at(&results, ResultId(1)) {
        Some(p) => Ok(p),
        None => {
            proof {
                assert(false);
            }
            Err(EmitError::Malformed)
        },
    }
}

/// Emits a program: hands the backend exactly the ops of `backend_plan`, one at a time, and
/// gives the payload that the last one loads, which the entry point returns. A program that
/// is not well formed is refused before any backend call; a well-formed one, which is what
/// lowering produces, is never refused as malformed, so only the backend can fail it.
pub fn emit_program<'ctx>(
    builder: &Builder<'ctx>,
    context: &'ctx Context,
    value_type: StructType<'ctx>,
    program: &Program,
) -> (r: Result<IntValue<'ctx>, EmitError>)
    ensures
        !well_formed(program.instructions@, program.result) <==> r matches Err(
            EmitError::Malformed,
        ),
{
    if !program.is_well_formed() {
        return Err(EmitError::Malformed);
    }
    let plan = backend_plan(program);
    proof {
        lemma_plan_ok(program.instructions@, program.result);
        assert(kinds(Seq::<Emitted<'ctx>>::empty()) =~= seq![]);
    }
    let mut results: Vec<Emitted<'ctx>> = Vec::new();
    apply_ops(builder, context, value_type, &mut results, &plan)?;
    if results.len() == 0 {
        proof {
            assert(false);
        }
        return Err(EmitError::Malformed);
    }
    match int_at(&results, ResultId(results.len() - 1)) {
        Some(v) => Ok(v),
        None => {
            proof {
                assert(false);
            }
            Err(EmitError::Malformed)
        },
    }
}

} // verus!
