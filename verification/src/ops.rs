//! Operations of the builtin and test dialects, as typed handles on operations of the arena:
//! how each infers the types of its results, and which memory effects it has; and the
//! builder methods that create the test dialect's operations.
use vstd::prelude::*;
use crate::builders::OpBuilder;
use crate::ir::{
    Attributes, Context, Immediate, OpKind, Operation, OperationRef, Overflow, Type, ValueRef,
    immediate_type, op_is, valid_op,
};

verus! {

/// Whether `v` refers to a value of `ctx`.
pub open spec fn valid_value(ctx: &Context, v: ValueRef) -> bool {
    v.index < ctx.values@.len()
}

/// Operation `r` of `ctx` has kind `k`, `n_operands` operands and `n_results` results, all of
/// them values of `ctx`.
pub open spec fn has_shape(ctx: &Context, r: OperationRef, k: OpKind, n_operands: nat, n_results: nat) -> bool {
    &&& op_is(ctx, r, k)
    &&& ctx.ops@[r.index as int].operands@.len() == n_operands
    &&& ctx.ops@[r.index as int].results@.len() == n_results
    &&& forall|i: int|
        0 <= i < n_operands ==> valid_value(ctx, #[trigger] ctx.ops@[r.index as int].operands@[i])
    &&& forall|i: int|
        0 <= i < n_results ==> valid_value(ctx, #[trigger] ctx.ops@[r.index as int].results@[i])
}

/// Operand `i` of operation `r`.
pub open spec fn operand(ctx: &Context, r: OperationRef, i: int) -> ValueRef {
    ctx.ops@[r.index as int].operands@[i]
}

/// The (first) result of operation `r`.
pub open spec fn result_of(ctx: &Context, r: OperationRef) -> ValueRef {
    ctx.ops@[r.index as int].results@[0]
}

/// The type of value `v`.
pub open spec fn type_of(ctx: &Context, v: ValueRef) -> Type {
    ctx.values@[v.index as int]
}

/// `c2` is `c1` with operation `r` appended: of kind `k`, unnamed, child of `parent`, with
/// `operands`, and one new result of type `result_ty` when given (none otherwise).
pub open spec fn adds_value_op(
    c1: &Context,
    c2: &Context,
    r: OperationRef,
    k: OpKind,
    parent: OperationRef,
    operands: Seq<ValueRef>,
    result_ty: Option<Type>,
) -> bool {
    &&& c2.ops@.len() == c1.ops@.len() + 1
    &&& r.index == c1.ops@.len()
    &&& forall|i: int| 0 <= i < c1.ops@.len() ==> #[trigger] c2.ops@[i] == c1.ops@[i]
    &&& c2.ops@[r.index as int].kind == k
    &&& c2.ops@[r.index as int].name@.len() == 0
    &&& c2.ops@[r.index as int].parent == Some(parent)
    &&& c2.ops@[r.index as int].symbols@.len() == 0
    &&& c2.ops@[r.index as int].operands@ == operands
    &&& match result_ty {
        Some(t) => {
            &&& c2.values@ == c1.values@.push(t)
            &&& c2.ops@[r.index as int].results@ == seq![ValueRef { index: c1.values@.len() as usize }]
        },
        None => {
            &&& c2.values@ == c1.values@
            &&& c2.ops@[r.index as int].results@.len() == 0
        },
    }
}

impl OpBuilder {
    /// Create an unnamed operation of kind `kind` with `operands` and attributes `attrs` at
    /// the insertion point, with one result, of unknown type, when `with_result`.
    pub fn create_value_op(
        &self,
        ctx: &mut Context,
        kind: OpKind,
        operands: Vec<ValueRef>,
        with_result: bool,
        attrs: Attributes,
    ) -> (r: OperationRef)
        requires
            old(ctx).wf(),
            match self@ {
                Some(p) => valid_op(old(ctx), p),
                None => false,
            },
            !crate::ir::is_symbol_table_kind(kind),
            forall|i: int| 0 <= i < operands@.len() ==> valid_value(old(ctx), #[trigger] operands@[i]),
            old(ctx).ops@.len() < usize::MAX,
            old(ctx).values@.len() < usize::MAX,
        ensures
            final(ctx).wf(),
            adds_value_op(
                old(ctx),
                final(ctx),
                r,
                kind,
                self@->Some_0,
                operands@,
                if with_result {
                    Some(Type::Unknown)
                } else {
                    None
                },
            ),
            final(ctx).ops@[r.index as int].attrs == attrs,
            has_shape(
                final(ctx),
                r,
                kind,
                operands@.len(),
                if with_result {
                    1
                } else {
                    0
                },
            ),
    {
        let parent = match self.insertion_block() {
            Some(p) => p,
            None => OperationRef { index: 0 },
        };
        let mut results: Vec<ValueRef> = Vec::new();
        if with_result {
            results.push(ValueRef { index: ctx.values.len() });
            ctx.values.push(Type::Unknown);
        }
        let op = Operation {
            kind,
            name: String::new(),
            parent: Some(parent),
            has_entry_block: false,
            symbols: Vec::new(),
            operands,
            results,
            attrs,
        };
        proof {
            crate::ir::lemma_wf_ops_only(old(ctx), ctx);
        }
        let ghost c1 = *ctx;
        let r = ctx.push_op(op);
        proof {
            assert forall|i: int| 0 <= i < c1.ops@.len() implies #[trigger] ctx.ops@[i] == c1.ops@[i] by {}
        }
        r
    }
}

/// A kind of memory effect.
#[derive(Clone, Copy, Debug, PartialEq, Eq, Structural)]
pub enum MemoryEffect {
    Read,
    Write,
    Allocate,
    Free,
}

/// A memory effect, on the value it applies to when there is one.
#[derive(Clone, Copy, Debug, PartialEq, Eq, Structural)]
pub struct EffectInstance {
    pub effect: MemoryEffect,
    pub value: Option<ValueRef>,
}

/// Set the type of value `v` to `ty`.
fn set_value_type(ctx: &mut Context, v: ValueRef, ty: Type)
    requires
        valid_value(old(ctx), v),
    ensures
        final(ctx).ops == old(ctx).ops,
        final(ctx).values@ == old(ctx).values@.update(v.index as int, ty),
{
    ctx.values.set(v.index, ty);
}

/// The result type of an operation whose result has the type of its first operand.
fn infer_same_as_lhs(ctx: &mut Context, r: OperationRef, k: OpKind)
    requires
        has_shape(old(ctx), r, k, 2, 1),
    ensures
        final(ctx).ops == old(ctx).ops,
        final(ctx).values@ == old(ctx).values@.update(
            result_of(old(ctx), r).index as int,
            type_of(old(ctx), operand(old(ctx), r, 0)),
        ),
{
    assert(valid_value(ctx, ctx.ops@[r.index as int].operands@[0]));
    assert(valid_value(ctx, ctx.ops@[r.index as int].results@[0]));
    let lhs = ctx.ops[r.index].operands[0];
    let result = ctx.ops[r.index].results[0];
    let ty = ctx.values[lhs.index].clone();
    set_value_type(ctx, result, ty);
}

/// Set the result type of an operation with one result to `ty`.
pub(crate) fn infer_fixed(ctx: &mut Context, r: OperationRef, k: OpKind, n_operands: Ghost<nat>, ty: Type)
    requires
        has_shape(old(ctx), r, k, n_operands@, 1),
    ensures
        final(ctx).ops == old(ctx).ops,
        final(ctx).values@ == old(ctx).values@.update(result_of(old(ctx), r).index as int, ty),
{
    assert(valid_value(ctx, ctx.ops@[r.index as int].results@[0]));
    let result = ctx.ops[r.index].results[0];
    set_value_type(ctx, result, ty);
}

/// Two's complement sum of its operands `lhs` and `rhs`, with an overflow mode; the result
/// has the type of `lhs`.
#[derive(Clone, Copy, Debug)]
pub struct Add {
    pub op: OperationRef,
}

/// Two's complement product of its operands `lhs` and `rhs`, with an overflow mode; the
/// result has the type of `lhs`.
#[derive(Clone, Copy, Debug)]
pub struct Mul {
    pub op: OperationRef,
}

/// Bitwise shift-left of its operand `lhs` by `shift`; the result has the type of `lhs`.
#[derive(Clone, Copy, Debug)]
pub struct Shl {
    pub op: OperationRef,
}

/// Equality comparison of its operands; the result is a boolean.
#[derive(Clone, Copy, Debug)]
pub struct Eq {
    pub op: OperationRef,
}

/// Inequality comparison of its operands; the result is a boolean.
#[derive(Clone, Copy, Debug)]
pub struct Neq {
    pub op: OperationRef,
}

/// A constant immediate value; the result has the immediate's type.
#[derive(Clone, Copy, Debug)]
pub struct Constant {
    pub op: OperationRef,
}

/// Store of its operand `value` at the address `addr`.
#[derive(Clone, Copy, Debug)]
pub struct Store {
    pub op: OperationRef,
}

/// Load from the address `addr`; the result has the type `addr` points to.
#[derive(Clone, Copy, Debug)]
pub struct Load {
    pub op: OperationRef,
}

/// The address of a global variable, at a signed offset, as a pointer to bytes.
#[derive(Clone, Copy, Debug)]
pub struct GlobalSymbol {
    pub op: OperationRef,
}

/// An operation that holds a symbol table.
#[derive(Clone, Copy, Debug)]
pub struct SymbolTableHolder {
    pub op: OperationRef,
}

/// Return from the enclosing function with its operands as results.
#[derive(Clone, Copy, Debug)]
pub struct Ret {
    pub op: OperationRef,
}

/// Return from the enclosing function with an immediate value as result.
#[derive(Clone, Copy, Debug)]
pub struct RetImm {
    pub op: OperationRef,
}

/// A named, typed location in memory.
#[derive(Clone, Copy, Debug)]
pub struct GlobalVariable {
    pub op: OperationRef,
}

/// A module: a symbol table of functions, global variables and nested modules.
#[derive(Clone, Copy, Debug)]
pub struct Module {
    pub op: OperationRef,
}

/// A world: the outermost symbol table, of components and modules.
#[derive(Clone, Copy, Debug)]
pub struct World {
    pub op: OperationRef,
}

impl Add {
    /// Set the type of the result to the type of `lhs`.
    pub fn infer_return_types(&self, ctx: &mut Context) -> (r: Result<(), String>)
        requires
            has_shape(old(ctx), self.op, OpKind::Add, 2, 1),
        ensures
            r is Ok,
            final(ctx).ops == old(ctx).ops,
            final(ctx).values@ == old(ctx).values@.update(
                result_of(old(ctx), self.op).index as int,
                type_of(old(ctx), operand(old(ctx), self.op, 0)),
            ),
    {
        infer_same_as_lhs(ctx, self.op, OpKind::Add);
        Ok(())
    }

    /// The operation has no memory effect.
    pub fn effects(&self) -> (r: Vec<EffectInstance>)
        ensures
            r@.len() == 0,
    {
        Vec::new()
    }

    /// The operation has no memory effect.
    pub fn has_no_effect(&self) -> (r: bool)
        ensures
            r,
    {
        true
    }
}

impl Mul {
    /// Set the type of the result to the type of `lhs`.
    pub fn infer_return_types(&self, ctx: &mut Context) -> (r: Result<(), String>)
        requires
            has_shape(old(ctx), self.op, OpKind::Mul, 2, 1),
        ensures
            r is Ok,
            final(ctx).ops == old(ctx).ops,
            final(ctx).values@ == old(ctx).values@.update(
                result_of(old(ctx), self.op).index as int,
                type_of(old(ctx), operand(old(ctx), self.op, 0)),
            ),
    {
        infer_same_as_lhs(ctx, self.op, OpKind::Mul);
        Ok(())
    }

    /// The operation has no memory effect.
    pub fn effects(&self) -> (r: Vec<EffectInstance>)
        ensures
            r@.len() == 0,
    {
        Vec::new()
    }

    /// The operation has no memory effect.
    pub fn has_no_effect(&self) -> (r: bool)
        ensures
            r,
    {
        true
    }
}

impl Shl {
    /// Set the type of the result to the type of `lhs`.
    pub fn infer_return_types(&self, ctx: &mut Context) -> (r: Result<(), String>)
        requires
            has_shape(old(ctx), self.op, OpKind::Shl, 2, 1),
        ensures
            r is Ok,
            final(ctx).ops == old(ctx).ops,
            final(ctx).values@ == old(ctx).values@.update(
                result_of(old(ctx), self.op).index as int,
                type_of(old(ctx), operand(old(ctx), self.op, 0)),
            ),
    {
        infer_same_as_lhs(ctx, self.op, OpKind::Shl);
        Ok(())
    }

    /// The operation has no memory effect.
    pub fn effects(&self) -> (r: Vec<EffectInstance>)
        ensures
            r@.len() == 0,
    {
        Vec::new()
    }

    /// The operation has no memory effect.
    pub fn has_no_effect(&self) -> (r: bool)
        ensures
            r,
    {
        true
    }
}

impl Eq {
    /// Set the type of the result to the boolean type.
    pub fn infer_return_types(&self, ctx: &mut Context) -> (r: Result<(), String>)
        requires
            has_shape(old(ctx), self.op, OpKind::Eq, 2, 1),
        ensures
            r is Ok,
            final(ctx).ops == old(ctx).ops,
            final(ctx).values@ == old(ctx).values@.update(
                result_of(old(ctx), self.op).index as int,
                Type::I1,
            ),
    {
        infer_fixed(ctx, self.op, OpKind::Eq, Ghost(2), Type::I1);
        Ok(())
    }

    /// The operation has no memory effect.
    pub fn effects(&self) -> (r: Vec<EffectInstance>)
        ensures
            r@.len() == 0,
    {
        Vec::new()
    }

    /// The operation has no memory effect.
    pub fn has_no_effect(&self) -> (r: bool)
        ensures
            r,
    {
        true
    }
}

impl Neq {
    /// Set the type of the result to the boolean type.
    pub fn infer_return_types(&self, ctx: &mut Context) -> (r: Result<(), String>)
        requires
            has_shape(old(ctx), self.op, OpKind::Neq, 2, 1),
        ensures
            r is Ok,
            final(ctx).ops == old(ctx).ops,
            final(ctx).values@ == old(ctx).values@.update(
                result_of(old(ctx), self.op).index as int,
                Type::I1,
            ),
    {
        infer_fixed(ctx, self.op, OpKind::Neq, Ghost(2), Type::I1);
        Ok(())
    }

    /// The operation has no memory effect.
    pub fn effects(&self) -> (r: Vec<EffectInstance>)
        ensures
            r@.len() == 0,
    {
        Vec::new()
    }

    /// The operation has no memory effect.
    pub fn has_no_effect(&self) -> (r: bool)
        ensures
            r,
    {
        true
    }
}

impl Constant {
    /// Set the type of the result to the type of the immediate value.
    pub fn infer_return_types(&self, ctx: &mut Context) -> (r: Result<(), String>)
        requires
            has_shape(old(ctx), self.op, OpKind::Constant, 0, 1),
            old(ctx).ops@[self.op.index as int].attrs.immediate is Some,
        ensures
            r is Ok,
            final(ctx).ops == old(ctx).ops,
            final(ctx).values@ == old(ctx).values@.update(
                result_of(old(ctx), self.op).index as int,
                immediate_type(old(ctx).ops@[self.op.index as int].attrs.immediate->Some_0),
            ),
    {
        let ty = match &ctx.ops[self.op.index].attrs.immediate {
            Some(imm) => imm.ty(),
            None => Type::Unknown,
        };
        infer_fixed(ctx, self.op, OpKind::Constant, Ghost(0), ty);
        Ok(())
    }

    /// The operation has no memory effect.
    pub fn effects(&self) -> (r: Vec<EffectInstance>)
        ensures
            r@.len() == 0,
    {
        Vec::new()
    }
}

impl Store {
    /// The operation writes to its address operand.
    pub fn effects(&self, ctx: &Context) -> (r: Vec<EffectInstance>)
        requires
            has_shape(ctx, self.op, OpKind::Store, 2, 0),
        ensures
            r@ == seq![EffectInstance { effect: MemoryEffect::Write, value: Some(operand(ctx, self.op, 0)) }],
    {
        let addr = ctx.ops[self.op.index].operands[0];
        vec![EffectInstance { effect: MemoryEffect::Write, value: Some(addr) }]
    }
}

impl Load {
    /// Set the type of the result to the type that `addr` points to; the result keeps its
    /// type when `addr` is not a pointer.
    pub fn infer_return_types(&self, ctx: &mut Context) -> (r: Result<(), String>)
        requires
            has_shape(old(ctx), self.op, OpKind::Load, 1, 1),
        ensures
            r is Ok,
            final(ctx).ops == old(ctx).ops,
            final(ctx).values@ == match type_of(old(ctx), operand(old(ctx), self.op, 0)) {
                Type::Ptr(t) => old(ctx).values@.update(
                    result_of(old(ctx), self.op).index as int,
                    *t,
                ),
                _ => old(ctx).values@,
            },
    {
        assert(valid_value(ctx, ctx.ops@[self.op.index as int].operands@[0]));
        let addr = ctx.ops[self.op.index].operands[0];
        match ctx.values[addr.index].pointee() {
            Some(pointee) => {
                infer_fixed(ctx, self.op, OpKind::Load, Ghost(1), pointee);
            },
            None => {},
        }
        Ok(())
    }

    /// The operation reads from its address operand.
    pub fn effects(&self, ctx: &Context) -> (r: Vec<EffectInstance>)
        requires
            has_shape(ctx, self.op, OpKind::Load, 1, 1),
        ensures
            r@ == seq![EffectInstance { effect: MemoryEffect::Read, value: Some(operand(ctx, self.op, 0)) }],
    {
        let addr = ctx.ops[self.op.index].operands[0];
        vec![EffectInstance { effect: MemoryEffect::Read, value: Some(addr) }]
    }
}

impl GlobalSymbol {
    /// Set the type of the result to a pointer to bytes.
    pub fn infer_return_types(&self, ctx: &mut Context) -> (r: Result<(), String>)
        requires
            has_shape(old(ctx), self.op, OpKind::GlobalSymbol, 0, 1),
        ensures
            r is Ok,
            final(ctx).ops == old(ctx).ops,
            final(ctx).values@ == old(ctx).values@.update(
                result_of(old(ctx), self.op).index as int,
                Type::Ptr(Box::new(Type::U8)),
            ),
    {
        infer_fixed(ctx, self.op, OpKind::GlobalSymbol, Ghost(0), Type::Ptr(Box::new(Type::U8)));
        Ok(())
    }

    /// The operation has no memory effect.
    pub fn effects(&self) -> (r: Vec<EffectInstance>)
        ensures
            r@.len() == 0,
    {
        Vec::new()
    }

    /// The operation has no memory effect.
    pub fn has_no_effect(&self) -> (r: bool)
        ensures
            r,
    {
        true
    }
}

} // verus!

verus! {

/// A builder with insertion point `insertion` can create a valued operation in `ctx`.
pub open spec fn can_create(ctx: &Context, insertion: Option<OperationRef>) -> bool {
    &&& ctx.wf()
    &&& match insertion {
        Some(p) => valid_op(ctx, p),
        None => false,
    }
    &&& ctx.ops@.len() < usize::MAX
    &&& ctx.values@.len() < usize::MAX
}

/// The operation a builder creates next in `ctx`.
pub open spec fn next_op(ctx: &Context) -> OperationRef {
    OperationRef { index: ctx.ops@.len() as usize }
}

/// The value a builder creates next in `ctx`.
pub open spec fn next_value(ctx: &Context) -> ValueRef {
    ValueRef { index: ctx.values@.len() as usize }
}

/// The type `load` gives its result, from the type of its address: the pointee type of a
/// pointer, unknown otherwise.
pub open spec fn loaded_type(addr_ty: Type) -> Type {
    match addr_ty {
        Type::Ptr(t) => *t,
        _ => Type::Unknown,
    }
}

/// Attributes carrying an immediate value and an overflow mode, and nothing else.
fn value_attrs(immediate: Option<Immediate>, overflow: Option<Overflow>) -> (r: Attributes)
    ensures
        r.immediate == immediate,
        r.overflow == overflow,
{
    let mut attrs = Attributes::none();
    attrs.immediate = immediate;
    attrs.overflow = overflow;
    attrs
}

/// Builders of the operations of the test dialect. Each method creates one operation at the
/// builder's insertion point and returns its result.
pub trait TestOpBuilder {
    /// The insertion point of the underlying operation builder.
    spec fn insertion_of(&self) -> Option<OperationRef>;

    /// The underlying operation builder.
    fn builder(&self) -> (r: &OpBuilder)
        ensures
            r@ == self.insertion_of(),
    ;

    /// A constant `u32` of `value`.
    fn u32(&mut self, ctx: &mut Context, value: u32) -> (r: Result<ValueRef, String>)
        requires
            can_create(old(ctx), old(self).insertion_of()),
        ensures
            final(self).insertion_of() == old(self).insertion_of(),
            final(ctx).wf(),
            r == Ok::<ValueRef, String>(next_value(old(ctx))),
            adds_value_op(
                old(ctx),
                final(ctx),
                next_op(old(ctx)),
                OpKind::Constant,
                old(self).insertion_of()->Some_0,
                Seq::empty(),
                Some(Type::U32),
            ),
            final(ctx).ops@[next_op(old(ctx)).index as int].attrs.immediate == Some(
                Immediate::U32(value),
            ),
    {
        let next = ValueRef { index: ctx.values.len() };
        let op = self.builder().create_value_op(
            ctx,
            OpKind::Constant,
            Vec::new(),
            true,
            value_attrs(Some(Immediate::U32(value)), None),
        );
        let ghost c1 = *ctx;
        let constant = Constant { op };
        match constant.infer_return_types(ctx) {
            Ok(()) => {},
            Err(e) => {
                return Err(e);
            },
        }
        proof {
            crate::ir::lemma_wf_ops_only(&c1, ctx);
            assert(ctx.values@ =~= old(ctx).values@.push(Type::U32));
        }
        Ok(next)
    }

    /// Two's complement addition which traps on overflow.
    fn add(&mut self, ctx: &mut Context, lhs: ValueRef, rhs: ValueRef) -> (r: Result<
        ValueRef,
        String,
    >)
        requires
            can_create(old(ctx), old(self).insertion_of()),
            valid_value(old(ctx), lhs),
            valid_value(old(ctx), rhs),
        ensures
            final(self).insertion_of() == old(self).insertion_of(),
            final(ctx).wf(),
            r == Ok::<ValueRef, String>(next_value(old(ctx))),
            adds_value_op(
                old(ctx),
                final(ctx),
                next_op(old(ctx)),
                OpKind::Add,
                old(self).insertion_of()->Some_0,
                seq![lhs, rhs],
                Some(type_of(old(ctx), lhs)),
            ),
            final(ctx).ops@[next_op(old(ctx)).index as int].attrs.overflow == Some(
                Overflow::Checked,
            ),
    {
        build_add(self.builder(), ctx, lhs, rhs, Overflow::Checked)
    }

    /// Unchecked two's complement addition; its behavior is undefined if the result
    /// overflows.
    fn add_unchecked(&mut self, ctx: &mut Context, lhs: ValueRef, rhs: ValueRef) -> (r: Result<
        ValueRef,
        String,
    >)
        requires
            can_create(old(ctx), old(self).insertion_of()),
            valid_value(old(ctx), lhs),
            valid_value(old(ctx), rhs),
        ensures
            final(self).insertion_of() == old(self).insertion_of(),
            final(ctx).wf(),
            r == Ok::<ValueRef, String>(next_value(old(ctx))),
            adds_value_op(
                old(ctx),
                final(ctx),
                next_op(old(ctx)),
                OpKind::Add,
                old(self).insertion_of()->Some_0,
                seq![lhs, rhs],
                Some(type_of(old(ctx), lhs)),
            ),
            final(ctx).ops@[next_op(old(ctx)).index as int].attrs.overflow == Some(
                Overflow::Unchecked,
            ),
    {
        build_add(self.builder(), ctx, lhs, rhs, Overflow::Unchecked)
    }

    /// Two's complement addition which wraps around on overflow.
    fn add_wrapping(&mut self, ctx: &mut Context, lhs: ValueRef, rhs: ValueRef) -> (r: Result<
        ValueRef,
        String,
    >)
        requires
            can_create(old(ctx), old(self).insertion_of()),
            valid_value(old(ctx), lhs),
            valid_value(old(ctx), rhs),
        ensures
            final(self).insertion_of() == old(self).insertion_of(),
            final(ctx).wf(),
            r == Ok::<ValueRef, String>(next_value(old(ctx))),
            adds_value_op(
                old(ctx),
                final(ctx),
                next_op(old(ctx)),
                OpKind::Add,
                old(self).insertion_of()->Some_0,
                seq![lhs, rhs],
                Some(type_of(old(ctx), lhs)),
            ),
            final(ctx).ops@[next_op(old(ctx)).index as int].attrs.overflow == Some(
                Overflow::Wrapping,
            ),
    {
        build_add(self.builder(), ctx, lhs, rhs, Overflow::Wrapping)
    }

    /// Two's complement multiplication which traps on overflow.
    fn mul(&mut self, ctx: &mut Context, lhs: ValueRef, rhs: ValueRef) -> (r: Result<
        ValueRef,
        String,
    >)
        requires
            can_create(old(ctx), old(self).insertion_of()),
            valid_value(old(ctx), lhs),
            valid_value(old(ctx), rhs),
        ensures
            final(self).insertion_of() == old(self).insertion_of(),
            final(ctx).wf(),
            r == Ok::<ValueRef, String>(next_value(old(ctx))),
            adds_value_op(
                old(ctx),
                final(ctx),
                next_op(old(ctx)),
                OpKind::Mul,
                old(self).insertion_of()->Some_0,
                seq![lhs, rhs],
                Some(type_of(old(ctx), lhs)),
            ),
            final(ctx).ops@[next_op(old(ctx)).index as int].attrs.overflow == Some(
                Overflow::Checked,
            ),
    {
        build_mul(self.builder(), ctx, lhs, rhs, Overflow::Checked)
    }

    /// Unchecked two's complement multiplication; its behavior is undefined if the result
    /// overflows.
    fn mul_unchecked(&mut self, ctx: &mut Context, lhs: ValueRef, rhs: ValueRef) -> (r: Result<
        ValueRef,
        String,
    >)
        requires
            can_create(old(ctx), old(self).insertion_of()),
            valid_value(old(ctx), lhs),
            valid_value(old(ctx), rhs),
        ensures
            final(self).insertion_of() == old(self).insertion_of(),
            final(ctx).wf(),
            r == Ok::<ValueRef, String>(next_value(old(ctx))),
            adds_value_op(
                old(ctx),
                final(ctx),
                next_op(old(ctx)),
                OpKind::Mul,
                old(self).insertion_of()->Some_0,
                seq![lhs, rhs],
                Some(type_of(old(ctx), lhs)),
            ),
            final(ctx).ops@[next_op(old(ctx)).index as int].attrs.overflow == Some(
                Overflow::Unchecked,
            ),
    {
        build_mul(self.builder(), ctx, lhs, rhs, Overflow::Unchecked)
    }

    /// Two's complement multiplication which wraps around on overflow.
    fn mul_wrapping(&mut self, ctx: &mut Context, lhs: ValueRef, rhs: ValueRef) -> (r: Result<
        ValueRef,
        String,
    >)
        requires
            can_create(old(ctx), old(self).insertion_of()),
            valid_value(old(ctx), lhs),
            valid_value(old(ctx), rhs),
        ensures
            final(self).insertion_of() == old(self).insertion_of(),
            final(ctx).wf(),
            r == Ok::<ValueRef, String>(next_value(old(ctx))),
            adds_value_op(
                old(ctx),
                final(ctx),
                next_op(old(ctx)),
                OpKind::Mul,
                old(self).insertion_of()->Some_0,
                seq![lhs, rhs],
                Some(type_of(old(ctx), lhs)),
            ),
            final(ctx).ops@[next_op(old(ctx)).index as int].attrs.overflow == Some(
                Overflow::Wrapping,
            ),
    {
        build_mul(self.builder(), ctx, lhs, rhs, Overflow::Wrapping)
    }

    /// Bitwise shift-left of `lhs` by `rhs`.
    fn shl(&mut self, ctx: &mut Context, lhs: ValueRef, rhs: ValueRef) -> (r: Result<
        ValueRef,
        String,
    >)
        requires
            can_create(old(ctx), old(self).insertion_of()),
            valid_value(old(ctx), lhs),
            valid_value(old(ctx), rhs),
        ensures
            final(self).insertion_of() == old(self).insertion_of(),
            final(ctx).wf(),
            r == Ok::<ValueRef, String>(next_value(old(ctx))),
            adds_value_op(
                old(ctx),
                final(ctx),
                next_op(old(ctx)),
                OpKind::Shl,
                old(self).insertion_of()->Some_0,
                seq![lhs, rhs],
                Some(type_of(old(ctx), lhs)),
            ),
    {
        let next = ValueRef { index: ctx.values.len() };
        let op = self.builder().create_value_op(
            ctx,
            OpKind::Shl,
            vec![lhs, rhs],
            true,
            value_attrs(None, None),
        );
        let ghost c1 = *ctx;
        let shl = Shl { op };
        match shl.infer_return_types(ctx) {
            Ok(()) => {},
            Err(e) => {
                return Err(e);
            },
        }
        proof {
            crate::ir::lemma_wf_ops_only(&c1, ctx);
            assert(ctx.values@ =~= old(ctx).values@.push(type_of(old(ctx), lhs)));
        }
        Ok(next)
    }

    /// A load of the value `addr` points to.
    fn load(&mut self, ctx: &mut Context, addr: ValueRef) -> (r: Result<ValueRef, String>)
        requires
            can_create(old(ctx), old(self).insertion_of()),
            valid_value(old(ctx), addr),
        ensures
            final(self).insertion_of() == old(self).insertion_of(),
            final(ctx).wf(),
            r == Ok::<ValueRef, String>(next_value(old(ctx))),
            adds_value_op(
                old(ctx),
                final(ctx),
                next_op(old(ctx)),
                OpKind::Load,
                old(self).insertion_of()->Some_0,
                seq![addr],
                Some(loaded_type(type_of(old(ctx), addr))),
            ),
    {
        let next = ValueRef { index: ctx.values.len() };
        let operands = vec![addr];
        assert(operands@ =~= seq![addr]);
        let op = self.builder().create_value_op(
            ctx,
            OpKind::Load,
            operands,
            true,
            value_attrs(None, None),
        );
        let ghost c1 = *ctx;
        assert(operand(&c1, op, 0) == addr);
        assert(type_of(&c1, addr) == type_of(old(ctx), addr));
        let load = Load { op };
        match load.infer_return_types(ctx) {
            Ok(()) => {},
            Err(e) => {
                return Err(e);
            },
        }
        proof {
            crate::ir::lemma_wf_ops_only(&c1, ctx);
            assert(ctx.values@ =~= old(ctx).values@.push(loaded_type(type_of(old(ctx), addr))));
        }
        Ok(next)
    }

    /// A store of `value` at the address `ptr`.
    fn store(&mut self, ctx: &mut Context, ptr: ValueRef, value: ValueRef) -> (r: Result<
        Store,
        String,
    >)
        requires
            can_create(old(ctx), old(self).insertion_of()),
            valid_value(old(ctx), ptr),
            valid_value(old(ctx), value),
        ensures
            final(self).insertion_of() == old(self).insertion_of(),
            final(ctx).wf(),
            r == Ok::<Store, String>(Store { op: next_op(old(ctx)) }),
            adds_value_op(
                old(ctx),
                final(ctx),
                next_op(old(ctx)),
                OpKind::Store,
                old(self).insertion_of()->Some_0,
                seq![ptr, value],
                None,
            ),
    {
        let next = ValueRef { index: ctx.values.len() };
        let op = self.builder().create_value_op(
            ctx,
            OpKind::Store,
            vec![ptr, value],
            false,
            value_attrs(None, None),
        );
        Ok(Store { op })
    }
}

/// Create an addition with the overflow mode `overflow` and infer its result type.
fn build_add(
    builder: &OpBuilder,
    ctx: &mut Context,
    lhs: ValueRef,
    rhs: ValueRef,
    overflow: Overflow,
) -> (r: Result<ValueRef, String>)
    requires
        can_create(old(ctx), builder@),
        valid_value(old(ctx), lhs),
        valid_value(old(ctx), rhs),
    ensures
        final(ctx).wf(),
        r == Ok::<ValueRef, String>(next_value(old(ctx))),
        adds_value_op(
            old(ctx),
            final(ctx),
            next_op(old(ctx)),
            OpKind::Add,
            builder@->Some_0,
            seq![lhs, rhs],
            Some(type_of(old(ctx), lhs)),
        ),
        final(ctx).ops@[next_op(old(ctx)).index as int].attrs.overflow == Some(overflow),
{
    let next = ValueRef { index: ctx.values.len() };
    let op = builder.create_value_op(
        ctx,
        OpKind::Add,
        vec![lhs, rhs],
        true,
        value_attrs(None, Some(overflow)),
    );
    let ghost c1 = *ctx;
    let add = Add { op };
    match add.infer_return_types(ctx) {
        Ok(()) => {},
        Err(e) => {
            return Err(e);
        },
    }
    proof {
        crate::ir::lemma_wf_ops_only(&c1, ctx);
        assert(ctx.values@ =~= old(ctx).values@.push(type_of(old(ctx), lhs)));
    }
    Ok(next)
}

/// Create a multiplication with the overflow mode `overflow` and infer its result type.
fn build_mul(
    builder: &OpBuilder,
    ctx: &mut Context,
    lhs: ValueRef,
    rhs: ValueRef,
    overflow: Overflow,
) -> (r: Result<ValueRef, String>)
    requires
        can_create(old(ctx), builder@),
        valid_value(old(ctx), lhs),
        valid_value(old(ctx), rhs),
    ensures
        final(ctx).wf(),
        r == Ok::<ValueRef, String>(next_value(old(ctx))),
        adds_value_op(
            old(ctx),
            final(ctx),
            next_op(old(ctx)),
            OpKind::Mul,
            builder@->Some_0,
            seq![lhs, rhs],
            Some(type_of(old(ctx), lhs)),
        ),
        final(ctx).ops@[next_op(old(ctx)).index as int].attrs.overflow == Some(overflow),
{
    let next = ValueRef { index: ctx.values.len() };
    let op = builder.create_value_op(
        ctx,
        OpKind::Mul,
        vec![lhs, rhs],
        true,
        value_attrs(None, Some(overflow)),
    );
    let ghost c1 = *ctx;
    let mul = Mul { op };
    match mul.infer_return_types(ctx) {
        Ok(()) => {},
        Err(e) => {
            return Err(e);
        },
    }
    proof {
        crate::ir::lemma_wf_ops_only(&c1, ctx);
        assert(ctx.values@ =~= old(ctx).values@.push(type_of(old(ctx), lhs)));
    }
    Ok(next)
}

impl TestOpBuilder for OpBuilder {
    open spec fn insertion_of(&self) -> Option<OperationRef> {
        self@
    }

    fn builder(&self) -> (r: &OpBuilder) {
        self
    }
}

} // verus!

verus! {

/// The symbol named `name` in the table of `t`.
fn get_symbol(ctx: &Context, t: OperationRef, name: &str) -> (r: Option<OperationRef>)
    requires
        ctx.wf(),
        valid_op(ctx, t),
    ensures
        r == crate::ir::lookup(ctx, t, name@),
{
    proof {
        assert(crate::ir::table_wf(ctx, t.index as int));
    }
    let owned = name.to_owned();
    ctx.lookup(t, &owned)
}

impl SymbolTableHolder {
    /// The symbol named `name` in this operation's table, if any.
    pub fn get(&self, ctx: &Context, name: &str) -> (r: Option<OperationRef>)
        requires
            ctx.wf(),
            op_is(ctx, self.op, OpKind::SymbolTableHolder),
        ensures
            r == crate::ir::lookup(ctx, self.op, name@),
    {
        get_symbol(ctx, self.op, name)
    }
}

impl Module {
    /// The symbol named `name` in this module, if any.
    pub fn get(&self, ctx: &Context, name: &str) -> (r: Option<OperationRef>)
        requires
            ctx.wf(),
            op_is(ctx, self.op, OpKind::Module),
        ensures
            r == crate::ir::lookup(ctx, self.op, name@),
    {
        get_symbol(ctx, self.op, name)
    }
}

impl World {
    /// The symbol named `name` in this world, if any.
    pub fn get(&self, ctx: &Context, name: &str) -> (r: Option<OperationRef>)
        requires
            ctx.wf(),
            op_is(ctx, self.op, OpKind::World),
        ensures
            r == crate::ir::lookup(ctx, self.op, name@),
    {
        get_symbol(ctx, self.op, name)
    }
}

} // verus!

verus! {

/// Grows the heap by a number of pages; the result is the previous size, a `u32`.
#[derive(Clone, Copy, Debug)]
pub struct MemGrow {
    pub op: OperationRef,
}

/// The size of the heap in pages, a `u32`.
#[derive(Clone, Copy, Debug)]
pub struct MemSize {
    pub op: OperationRef,
}

/// Sets `count` values at `addr` to `value`.
#[derive(Clone, Copy, Debug)]
pub struct MemSet {
    pub op: OperationRef,
}

/// Copies `count` values from `source` to `destination`.
#[derive(Clone, Copy, Debug)]
pub struct MemCpy {
    pub op: OperationRef,
}

/// Stops execution for a debugger.
#[derive(Clone, Copy, Debug)]
pub struct Breakpoint {
    pub op: OperationRef,
}

impl MemGrow {
    /// Set the type of the result to `u32`.
    pub fn infer_return_types(&self, ctx: &mut Context) -> (r: Result<(), String>)
        requires
            has_shape(old(ctx), self.op, OpKind::MemGrow, 1, 1),
        ensures
            r is Ok,
            final(ctx).ops == old(ctx).ops,
            final(ctx).values@ == old(ctx).values@.update(
                result_of(old(ctx), self.op).index as int,
                Type::U32,
            ),
    {
        infer_fixed(ctx, self.op, OpKind::MemGrow, Ghost(1), Type::U32);
        Ok(())
    }

    /// The operation reads and writes memory.
    pub fn effects(&self) -> (r: Vec<EffectInstance>)
        ensures
            r@ == seq![
                EffectInstance { effect: MemoryEffect::Read, value: None },
                EffectInstance { effect: MemoryEffect::Write, value: None },
            ],
    {
        let r = vec![
            EffectInstance { effect: MemoryEffect::Read, value: None },
            EffectInstance { effect: MemoryEffect::Write, value: None },
        ];
        assert(r@ =~= seq![
            EffectInstance { effect: MemoryEffect::Read, value: None },
            EffectInstance { effect: MemoryEffect::Write, value: None },
        ]);
        r
    }
}

impl MemSize {
    /// Set the type of the result to `u32`.
    pub fn infer_return_types(&self, ctx: &mut Context) -> (r: Result<(), String>)
        requires
            has_shape(old(ctx), self.op, OpKind::MemSize, 0, 1),
        ensures
            r is Ok,
            final(ctx).ops == old(ctx).ops,
            final(ctx).values@ == old(ctx).values@.update(
                result_of(old(ctx), self.op).index as int,
                Type::U32,
            ),
    {
        infer_fixed(ctx, self.op, OpKind::MemSize, Ghost(0), Type::U32);
        Ok(())
    }

    /// The operation reads memory.
    pub fn effects(&self) -> (r: Vec<EffectInstance>)
        ensures
            r@ == seq![EffectInstance { effect: MemoryEffect::Read, value: None }],
    {
        let r = vec![EffectInstance { effect: MemoryEffect::Read, value: None }];
        assert(r@ =~= seq![EffectInstance { effect: MemoryEffect::Read, value: None }]);
        r
    }
}

impl MemSet {
    /// The operation writes at its address operand.
    pub fn effects(&self, ctx: &Context) -> (r: Vec<EffectInstance>)
        requires
            has_shape(ctx, self.op, OpKind::MemSet, 3, 0),
        ensures
            r@ == seq![
                EffectInstance { effect: MemoryEffect::Write, value: Some(operand(ctx, self.op, 0)) },
            ],
    {
        let addr = ctx.ops[self.op.index].operands[0];
        let r = vec![EffectInstance { effect: MemoryEffect::Write, value: Some(addr) }];
        assert(r@ =~= seq![EffectInstance { effect: MemoryEffect::Write, value: Some(addr) }]);
        r
    }
}

impl MemCpy {
    /// The operation reads at its source and writes at its destination.
    pub fn effects(&self, ctx: &Context) -> (r: Vec<EffectInstance>)
        requires
            has_shape(ctx, self.op, OpKind::MemCpy, 3, 0),
        ensures
            r@ == seq![
                EffectInstance { effect: MemoryEffect::Read, value: Some(operand(ctx, self.op, 0)) },
                EffectInstance { effect: MemoryEffect::Write, value: Some(operand(ctx, self.op, 1)) },
            ],
    {
        let source = ctx.ops[self.op.index].operands[0];
        let destination = ctx.ops[self.op.index].operands[1];
        let r = vec![
            EffectInstance { effect: MemoryEffect::Read, value: Some(source) },
            EffectInstance { effect: MemoryEffect::Write, value: Some(destination) },
        ];
        assert(r@ =~= seq![
            EffectInstance { effect: MemoryEffect::Read, value: Some(source) },
            EffectInstance { effect: MemoryEffect::Write, value: Some(destination) },
        ]);
        r
    }
}

impl Breakpoint {
    /// The operation reads and writes memory.
    pub fn effects(&self) -> (r: Vec<EffectInstance>)
        ensures
            r@ == seq![
                EffectInstance { effect: MemoryEffect::Read, value: None },
                EffectInstance { effect: MemoryEffect::Write, value: None },
            ],
    {
        let r = vec![
            EffectInstance { effect: MemoryEffect::Read, value: None },
            EffectInstance { effect: MemoryEffect::Write, value: None },
        ];
        assert(r@ =~= seq![
            EffectInstance { effect: MemoryEffect::Read, value: None },
            EffectInstance { effect: MemoryEffect::Write, value: None },
        ]);
        r
    }
}

} // verus!
