use inkwell::context::Context;
use inkwell::targets::{InitializationConfig, Target};
use inkwell::types::{BasicType, BasicTypeEnum, StructType};
use inkwell::AddressSpace;
use inkwell::OptimizationLevel;
use jit_core::constructors::global_constructor_layout;
use jit_core::layout::{FieldKind, StructLayout};
use jit_core::object::{function_argument_layout, function_signature_layout, value_layout};
use jit_core::type_store::{type_store_layout, type_value_layout};

fn llvm_struct<'ctx>(context: &'ctx Context, layout: &StructLayout, embedded: &[StructType<'ctx>]) -> StructType<'ctx> {
    let mut embedded = embedded.iter();
    let fields: Vec<BasicTypeEnum<'ctx>> = layout
        .fields
        .iter()
        .map(|kind| match kind {
            FieldKind::U8 => context.i8_type().into(),
            FieldKind::U16 => context.i16_type().into(),
            FieldKind::U32 => context.i32_type().into(),
            FieldKind::U64 => context.i64_type().into(),
            FieldKind::Pointer => context.i8_type().ptr_type(AddressSpace::default()).into(),
            FieldKind::Embedded { .. } => embedded.next().unwrap().as_basic_type_enum(),
        })
        .collect();
    context.struct_type(&fields, false)
}

#[test]
fn layout_offsets_match_the_native_data_layout() {
    Target::initialize_native(&InitializationConfig::default()).unwrap();
    let context = Context::create();
    let module = context.create_module("layouts");
    let engine = module.create_jit_execution_engine(OptimizationLevel::None).unwrap();
    let data = engine.get_target_data();

    let value = value_layout();
    let value_ty = llvm_struct(&context, &value, &[]);
    let cases: Vec<(StructLayout, StructType)> = vec![
        (type_value_layout(), llvm_struct(&context, &type_value_layout(), &[value_ty])),
        (type_store_layout(), llvm_struct(&context, &type_store_layout(), &[])),
        (function_argument_layout(), llvm_struct(&context, &function_argument_layout(), &[])),
        (function_signature_layout(), llvm_struct(&context, &function_signature_layout(), &[])),
        (global_constructor_layout(), llvm_struct(&context, &global_constructor_layout(), &[])),
        (value, value_ty),
    ];
    for (layout, ty) in &cases {
        let offsets = layout.offsets();
        for (index, offset) in offsets.iter().enumerate() {
            assert_eq!(data.offset_of_element(ty, index as u32), Some(*offset), "{} field {}", layout.name, index);
        }
        assert_eq!(data.get_abi_size(ty), layout.size(), "{}", layout.name);
    }
}
