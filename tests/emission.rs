use inkwell::context::Context;
use inkwell::types::StructType;
use jit_core::bytecode::{ByteCode, ConstValue, Expression, TypeTag, Value};
use jit_core::codegen::{CodeGen, Instruction, Program};
use jit_core::emit::{backend_plan, emit_program, value_header, value_ops, BackendOp, EmitError};
use jit_core::object::ClassId;
use jit_core::types::{ResultId, Value as Operand};

fn value_type(context: &Context) -> StructType<'_> {
    let value = context.opaque_struct_type("Value");
    value.set_body(
        &[
            context.i8_type().into(),
            context.i8_type().into(),
            context.i16_type().into(),
            context.i32_type().into(),
            context.i64_type().into(),
        ],
        false,
    );
    value
}

#[test]
fn example_program_emits_valid_llvm() {
    let context = Context::create();
    let module = context.create_module("main");
    let builder = context.create_builder();
    let main = module.add_function("main", context.i64_type().fn_type(&[], false), None);
    builder.position_at_end(context.append_basic_block(main, "entry"));

    let program = CodeGen::new().generate(ByteCode::new()).unwrap();
    let result = emit_program(&builder, &context, value_type(&context), &program).unwrap();
    builder.build_return(Some(&result)).unwrap();

    assert!(module.verify().is_ok());
    let ir = module.print_to_string().to_string();
    assert_eq!(ir.matches("add i64").count(), 2);
    assert_eq!(ir.matches("@malloc").count(), 6);
}

#[test]
fn unpositioned_builder_is_a_backend_error() {
    let context = Context::create();
    let builder = context.create_builder();
    let program = CodeGen::new().generate(ByteCode::new()).unwrap();
    let r = emit_program(&builder, &context, value_type(&context), &program);
    assert!(matches!(r, Err(EmitError::Backend(_))));
}

#[test]
fn malformed_program_is_refused() {
    let context = Context::create();
    let module = context.create_module("main");
    let builder = context.create_builder();
    let main = module.add_function("main", context.i64_type().fn_type(&[], false), None);
    builder.position_at_end(context.append_basic_block(main, "entry"));

    let program = Program { instructions: vec![Instruction::LoadRaw(ResultId(3))], result: ResultId(0) };
    let r = emit_program(&builder, &context, value_type(&context), &program);
    assert!(matches!(r, Err(EmitError::Malformed)));

    let program = Program {
        instructions: vec![Instruction::MakeValue {
            tag: TypeTag::U64,
            class_id: ClassId(0),
            raw: Operand::Const(ConstValue::U64(1)),
        }],
        result: ResultId(1),
    };
    let r = emit_program(&builder, &context, value_type(&context), &program);
    assert!(matches!(r, Err(EmitError::Malformed)));
}

#[test]
fn value_header_and_ops_store_every_field() {
    assert_eq!(value_header(TypeTag::U64, ClassId(7)), [16, 0, 7, 0]);
    let ops = value_ops(TypeTag::FunctionSignature, ClassId(3), Operand::Opaque(ResultId(9)));
    assert_eq!(
        ops,
        vec![
            BackendOp::Allocate,
            BackendOp::StoreConst { field: 0, bits: 8, value: 128 },
            BackendOp::StoreConst { field: 1, bits: 8, value: 0 },
            BackendOp::StoreConst { field: 2, bits: 16, value: 3 },
            BackendOp::StoreConst { field: 3, bits: 32, value: 0 },
            BackendOp::StoreResult { field: 4, source: ResultId(9) },
        ]
    );
}

#[test]
fn backend_plan_of_an_addition() {
    let program = CodeGen::new()
        .generate(ByteCode {
            instructions: vec![Expression::Add(
                Value::Literal(ConstValue::U64(100)),
                Value::Literal(ConstValue::U64(10)),
            )],
        })
        .unwrap();
    let plan = backend_plan(&program);
    let literal = |v: u64| {
        vec![
            BackendOp::Allocate,
            BackendOp::StoreConst { field: 0, bits: 8, value: 16 },
            BackendOp::StoreConst { field: 1, bits: 8, value: 0 },
            BackendOp::StoreConst { field: 2, bits: 16, value: 0 },
            BackendOp::StoreConst { field: 3, bits: 32, value: 0 },
            BackendOp::StoreConst { field: 4, bits: 64, value: v },
        ]
    };
    let mut expected = literal(100);
    expected.extend(literal(10));
    expected.push(BackendOp::LoadRaw { source: ResultId(0) });
    expected.push(BackendOp::LoadRaw { source: ResultId(1) });
    expected.push(BackendOp::Add { lhs: ResultId(2), rhs: ResultId(3) });
    expected.extend(vec![
        BackendOp::Allocate,
        BackendOp::StoreConst { field: 0, bits: 8, value: 16 },
        BackendOp::StoreConst { field: 1, bits: 8, value: 0 },
        BackendOp::StoreConst { field: 2, bits: 16, value: 0 },
        BackendOp::StoreConst { field: 3, bits: 32, value: 0 },
        BackendOp::StoreResult { field: 4, source: ResultId(4) },
    ]);
    expected.push(BackendOp::LoadRaw { source: ResultId(5) });
    assert_eq!(plan, expected);
}

#[test]
fn program_is_well_formed_check() {
    let program = CodeGen::new().generate(ByteCode::new()).unwrap();
    assert!(program.is_well_formed());
    let bad = Program { instructions: vec![Instruction::LoadRaw(ResultId(0))], result: ResultId(0) };
    assert!(!bad.is_well_formed());
}
