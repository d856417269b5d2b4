use midenc::builders::OpBuilder;
use midenc::ir::{Attributes, Context, Immediate, OpKind, Operation, OperationRef, Overflow, Type, ValueRef};
use midenc::ops::{Add, Breakpoint, GlobalSymbol, MemCpy, MemGrow, MemSet, MemSize, Load, MemoryEffect, Module, Store, TestOpBuilder};
use midenc::variables::{DeclareVariableError, UseVariableError, Variable};

fn setup() -> (Context, OpBuilder, OperationRef) {
    let mut ctx = Context::new();
    let func = ctx.push_op(Operation {
        kind: OpKind::Function,
        name: "f".to_string(),
        parent: None,
        has_entry_block: true,
        symbols: Vec::new(),
        operands: Vec::new(),
        results: Vec::new(),
        attrs: Attributes::none(),
    });
    let mut builder = OpBuilder::new();
    builder.set_insertion_point_to_end(func);
    (ctx, builder, func)
}

fn argument(ctx: &mut Context, ty: Type) -> ValueRef {
    let v = ValueRef { index: ctx.values.len() };
    ctx.values.push(ty);
    v
}

#[test]
fn constant_result_has_the_immediate_type() {
    let (mut ctx, mut builder, func) = setup();
    let v = builder.u32(&mut ctx, 7).unwrap();
    assert_eq!(ctx.values[v.index], Type::U32);
    let op = ctx.ops.last().unwrap();
    assert_eq!(op.kind, OpKind::Constant);
    assert_eq!(op.parent, Some(func));
    assert_eq!(op.attrs.immediate, Some(Immediate::U32(7)));
    assert_eq!(op.results, vec![v]);
}

#[test]
fn arithmetic_results_take_the_type_of_lhs() {
    let (mut ctx, mut builder, _) = setup();
    let a = argument(&mut ctx, Type::I64);
    let b = argument(&mut ctx, Type::I64);
    let sum = builder.add(&mut ctx, a, b).unwrap();
    assert_eq!(ctx.values[sum.index], Type::I64);
    assert_eq!(ctx.ops.last().unwrap().attrs.overflow, Some(Overflow::Checked));
    assert_eq!(ctx.ops.last().unwrap().operands, vec![a, b]);

    let w = builder.add_wrapping(&mut ctx, a, b).unwrap();
    assert_eq!(ctx.ops.last().unwrap().attrs.overflow, Some(Overflow::Wrapping));
    let u = builder.add_unchecked(&mut ctx, w, b).unwrap();
    assert_eq!(ctx.ops.last().unwrap().attrs.overflow, Some(Overflow::Unchecked));
    assert_eq!(ctx.values[u.index], Type::I64);

    let p = builder.mul(&mut ctx, a, b).unwrap();
    assert_eq!(ctx.ops.last().unwrap().kind, OpKind::Mul);
    assert_eq!(ctx.values[p.index], Type::I64);
    builder.mul_wrapping(&mut ctx, a, b).unwrap();
    assert_eq!(ctx.ops.last().unwrap().attrs.overflow, Some(Overflow::Wrapping));
    builder.mul_unchecked(&mut ctx, a, b).unwrap();
    assert_eq!(ctx.ops.last().unwrap().attrs.overflow, Some(Overflow::Unchecked));

    let shift = argument(&mut ctx, Type::U32);
    let s = builder.shl(&mut ctx, a, shift).unwrap();
    assert_eq!(ctx.values[s.index], Type::I64);
}

#[test]
fn comparisons_and_global_symbols_infer_fixed_types() {
    let (mut ctx, builder, _) = setup();
    let a = argument(&mut ctx, Type::U8);
    let b = argument(&mut ctx, Type::U8);
    let op = builder.create_value_op(&mut ctx, OpKind::Eq, vec![a, b], true, Attributes::none());
    midenc::ops::Eq { op }.infer_return_types(&mut ctx).unwrap();
    let result = ctx.ops[op.index].results[0];
    assert_eq!(ctx.values[result.index], Type::I1);
    assert!(midenc::ops::Eq { op }.effects().is_empty());

    let g = builder.create_value_op(&mut ctx, OpKind::GlobalSymbol, vec![], true, Attributes::none());
    GlobalSymbol { op: g }.infer_return_types(&mut ctx).unwrap();
    let addr = ctx.ops[g.index].results[0];
    assert_eq!(ctx.values[addr.index], Type::Ptr(Box::new(Type::U8)));
    assert!(GlobalSymbol { op: g }.has_no_effect());
    assert!(Add { op }.has_no_effect());
}

#[test]
fn loads_and_stores() {
    let (mut ctx, mut builder, _) = setup();
    let ptr = argument(&mut ctx, Type::Ptr(Box::new(Type::U16)));
    let loaded = builder.load(&mut ctx, ptr).unwrap();
    assert_eq!(ctx.values[loaded.index], Type::U16);
    let load_op = OperationRef { index: ctx.ops.len() - 1 };
    let effects = Load { op: load_op }.effects(&ctx);
    assert_eq!(effects.len(), 1);
    assert_eq!(effects[0].effect, MemoryEffect::Read);
    assert_eq!(effects[0].value, Some(ptr));

    let not_ptr = argument(&mut ctx, Type::U32);
    let unknown = builder.load(&mut ctx, not_ptr).unwrap();
    assert_eq!(ctx.values[unknown.index], Type::Unknown);

    let store = builder.store(&mut ctx, ptr, loaded).unwrap();
    assert!(ctx.ops[store.op.index].results.is_empty());
    let effects = Store { op: store.op }.effects(&ctx);
    assert_eq!(effects[0].effect, MemoryEffect::Write);
    assert_eq!(effects[0].value, Some(ptr));
}

#[test]
fn symbol_tables_answer_lookups() {
    let mut ctx = Context::new();
    let module = ctx.push_op(Operation {
        kind: OpKind::Module,
        name: "m".to_string(),
        parent: None,
        has_entry_block: true,
        symbols: Vec::new(),
        operands: Vec::new(),
        results: Vec::new(),
        attrs: Attributes::none(),
    });
    let mut builder = OpBuilder::new();
    builder.set_insertion_point_to_end(module);
    let f = builder
        .create_symbol(&mut ctx, OpKind::Function, "f", Attributes::none(), Some(module))
        .unwrap();
    assert_eq!(Module { op: module }.get(&ctx, "f"), Some(f));
    assert_eq!(Module { op: module }.get(&ctx, "g"), None);
}

#[test]
fn variable_error_messages() {
    assert_eq!(Variable(3).to_text(), "var3");
    assert_eq!(
        UseVariableError::UsedBeforeDeclared(Variable(12)).message(),
        "variable var12 is used before the declaration"
    );
    assert_eq!(
        DeclareVariableError::DeclaredMultipleTimes(Variable(0)).message(),
        "variable var0 is already declared"
    );
}

#[test]
fn primitive_memory_operation_effects() {
    let (mut ctx, builder, _) = setup();
    let pages = argument(&mut ctx, Type::U32);
    let grow = builder.create_value_op(&mut ctx, OpKind::MemGrow, vec![pages], true, Attributes::none());
    MemGrow { op: grow }.infer_return_types(&mut ctx).unwrap();
    let prev = ctx.ops[grow.index].results[0];
    assert_eq!(ctx.values[prev.index], Type::U32);
    let effects = MemGrow { op: grow }.effects();
    assert_eq!(effects.len(), 2);
    assert_eq!(effects[0].effect, MemoryEffect::Read);
    assert_eq!(effects[1].effect, MemoryEffect::Write);
    assert_eq!(effects[0].value, None);

    let size = builder.create_value_op(&mut ctx, OpKind::MemSize, vec![], true, Attributes::none());
    MemSize { op: size }.infer_return_types(&mut ctx).unwrap();
    assert_eq!(MemSize { op: size }.effects().len(), 1);

    let src = argument(&mut ctx, Type::Ptr(Box::new(Type::U8)));
    let dst = argument(&mut ctx, Type::Ptr(Box::new(Type::U8)));
    let count = argument(&mut ctx, Type::U32);
    let copy = builder.create_value_op(&mut ctx, OpKind::MemCpy, vec![src, dst, count], false, Attributes::none());
    let effects = MemCpy { op: copy }.effects(&ctx);
    assert_eq!((effects[0].effect, effects[0].value), (MemoryEffect::Read, Some(src)));
    assert_eq!((effects[1].effect, effects[1].value), (MemoryEffect::Write, Some(dst)));

    let value = argument(&mut ctx, Type::U8);
    let set = builder.create_value_op(&mut ctx, OpKind::MemSet, vec![dst, count, value], false, Attributes::none());
    let effects = MemSet { op: set }.effects(&ctx);
    assert_eq!(effects.len(), 1);
    assert_eq!(effects[0].value, Some(dst));

    let brk = builder.create_value_op(&mut ctx, OpKind::Breakpoint, vec![], false, Attributes::none());
    assert_eq!(Breakpoint { op: brk }.effects().len(), 2);
}

#[test]
fn unary_arith_operations_infer_their_result_types() {
    let (mut ctx, builder, _) = setup();
    let a = argument(&mut ctx, Type::I64);

    let neg = builder.create_value_op(&mut ctx, OpKind::Neg, vec![a], true, Attributes::none());
    midenc::arith::Neg { op: neg }.infer_return_types(&mut ctx).unwrap();
    assert_eq!(ctx.values[ctx.ops[neg.index].results[0].index], Type::I64);
    assert!(midenc::arith::Neg { op: neg }.effects().is_empty());
    assert!(midenc::arith::Neg { op: neg }.has_no_effect());

    let incr = builder.create_value_op(&mut ctx, OpKind::Incr, vec![a], true, Attributes::none());
    midenc::arith::Incr { op: incr }.infer_return_types(&mut ctx).unwrap();
    assert_eq!(ctx.values[ctx.ops[incr.index].results[0].index], Type::I64);

    let popcnt = builder.create_value_op(&mut ctx, OpKind::Popcnt, vec![a], true, Attributes::none());
    midenc::arith::Popcnt { op: popcnt }.infer_return_types(&mut ctx).unwrap();
    assert_eq!(ctx.values[ctx.ops[popcnt.index].results[0].index], Type::U32);

    let clz = builder.create_value_op(&mut ctx, OpKind::Clz, vec![a], true, Attributes::none());
    midenc::arith::Clz { op: clz }.infer_return_types(&mut ctx).unwrap();
    assert_eq!(ctx.values[ctx.ops[clz.index].results[0].index], Type::U32);

    let odd = builder.create_value_op(&mut ctx, OpKind::IsOdd, vec![a], true, Attributes::none());
    midenc::arith::IsOdd { op: odd }.infer_return_types(&mut ctx).unwrap();
    assert_eq!(ctx.values[ctx.ops[odd.index].results[0].index], Type::I1);

    let flag = argument(&mut ctx, Type::I1);
    let not = builder.create_value_op(&mut ctx, OpKind::Not, vec![flag], true, Attributes::none());
    midenc::arith::Not { op: not }.infer_return_types(&mut ctx).unwrap();
    assert_eq!(ctx.values[ctx.ops[not.index].results[0].index], Type::I1);
}
