use jit_core::bytecode::{ByteCode, ConstValue, Expression, Identifier, TypeTag, Value};
use jit_core::codegen::{CodeGen, Instruction, ProgramError, Slot};
use jit_core::object::{ClassId, TaggedValue};
use jit_core::types::{ResultId, Value as Operand};

fn lit(v: u64) -> Value {
    Value::Literal(ConstValue::U64(v))
}

fn local(id: u32) -> Value {
    Value::Local(Identifier::new(id))
}

fn run(instructions: Vec<Expression>) -> Result<u64, ProgramError> {
    CodeGen::new().execute(ByteCode { instructions })
}

#[test]
fn adding_two_literals() {
    assert_eq!(run(vec![Expression::Add(lit(100), lit(10))]), Ok(110));
    let program = CodeGen::new()
        .generate(ByteCode { instructions: vec![Expression::Add(lit(100), lit(10))] })
        .unwrap();
    let slots = program.run_instructions();
    assert_eq!(
        slots[program.result.0],
        Slot::Record(TaggedValue { tag: TypeTag::U64, class_id: ClassId(0), raw: 110 })
    );
}

#[test]
fn adding_two_locals() {
    let program = vec![
        Expression::Assignment(Identifier::new(1), lit(100)),
        Expression::Assignment(Identifier::new(2), lit(10)),
        Expression::Add(local(1), local(2)),
    ];
    assert_eq!(run(program), Ok(110));
}

#[test]
fn example_program_returns_111() {
    assert_eq!(CodeGen::new().execute(ByteCode::new()), Ok(111));
}

#[test]
fn assignment_yields_and_binds_its_value() {
    assert_eq!(run(vec![Expression::Assignment(Identifier::new(3), lit(42))]), Ok(42));
    let program = vec![
        Expression::Assignment(Identifier::new(3), lit(42)),
        Expression::Add(local(3), lit(0)),
    ];
    assert_eq!(run(program), Ok(42));
}

#[test]
fn reassignment_takes_the_latest_value() {
    let program = vec![
        Expression::Assignment(Identifier::new(1), lit(1)),
        Expression::Assignment(Identifier::new(1), lit(2)),
        Expression::Add(local(1), lit(0)),
    ];
    assert_eq!(run(program), Ok(2));
}

#[test]
fn reading_an_unassigned_local_fails() {
    let program = vec![
        Expression::Assignment(Identifier::new(1), lit(1)),
        Expression::Add(local(1), local(2)),
    ];
    assert_eq!(run(program), Err(ProgramError::UnboundIdentifier(Identifier::new(2))));
}

#[test]
fn assignment_inside_an_addition_binds() {
    let nested = Value::Computed(Box::new(Expression::Assignment(Identifier::new(5), lit(7))));
    let program = vec![Expression::Add(nested, local(5))];
    assert_eq!(run(program), Ok(14));
}

#[test]
fn assigning_the_reserved_identifier_fails() {
    let program = vec![Expression::Assignment(Identifier::new(0), lit(1))];
    assert_eq!(run(program), Err(ProgramError::ReservedIdentifier));
}

#[test]
fn empty_program_has_no_result() {
    assert_eq!(run(vec![]), Err(ProgramError::EmptyProgram));
}

#[test]
fn addition_wraps_like_native_code() {
    assert_eq!(run(vec![Expression::Add(lit(u64::MAX), lit(2))]), Ok(1));
}

#[test]
fn first_error_stops_the_program() {
    let program = vec![
        Expression::Add(local(9), lit(1)),
        Expression::Assignment(Identifier::new(0), lit(1)),
    ];
    assert_eq!(run(program), Err(ProgramError::UnboundIdentifier(Identifier::new(9))));
}

#[test]
fn literal_lowers_to_one_make_value() {
    let program = CodeGen::new()
        .generate(ByteCode { instructions: vec![Expression::Assignment(Identifier::new(1), lit(5))] })
        .unwrap();
    assert_eq!(
        program.instructions,
        vec![Instruction::MakeValue {
            tag: TypeTag::U64,
            class_id: ClassId(0),
            raw: Operand::Const(ConstValue::U64(5)),
        }]
    );
    assert_eq!(program.result, ResultId(0));
    assert_eq!(program.evaluate(), Some(5));
}

#[test]
fn addition_lowers_to_loads_add_and_make_value() {
    let program = CodeGen::new()
        .generate(ByteCode { instructions: vec![Expression::Add(lit(1), lit(2))] })
        .unwrap();
    assert_eq!(program.instructions.len(), 6);
    assert_eq!(program.instructions[2], Instruction::LoadRaw(ResultId(0)));
    assert_eq!(program.instructions[3], Instruction::LoadRaw(ResultId(1)));
    assert_eq!(program.instructions[4], Instruction::IntAdd(ResultId(2), ResultId(3)));
    assert_eq!(
        program.instructions[5],
        Instruction::MakeValue {
            tag: TypeTag::U64,
            class_id: ClassId(0),
            raw: Operand::Opaque(ResultId(4)),
        }
    );
    assert_eq!(program.evaluate(), Some(3));
}
