//! The unary operations of the arithmetic dialect, as typed handles on operations of the
//! arena: how each infers the type of its result, and that none has a memory effect.
use vstd::prelude::*;
use crate::ir::{Context, OpKind, OperationRef, Type};
use crate::ops::{has_shape, infer_fixed, operand, result_of, type_of, valid_value, EffectInstance};

verus! {

/// Set the type of the result of an operation with one operand and one result to the type of
/// that operand.
fn infer_same_as_operand(ctx: &mut Context, r: OperationRef, k: OpKind)
    requires
        has_shape(old(ctx), r, k, 1, 1),
    ensures
        final(ctx).ops == old(ctx).ops,
        final(ctx).values@ == old(ctx).values@.update(
            result_of(old(ctx), r).index as int,
            type_of(old(ctx), operand(old(ctx), r, 0)),
        ),
{
    assert(valid_value(ctx, ctx.ops@[r.index as int].operands@[0]));
    assert(valid_value(ctx, ctx.ops@[r.index as int].results@[0]));
    let arg = ctx.ops[r.index].operands[0];
    let result = ctx.ops[r.index].results[0];
    let ty = ctx.values[arg.index].clone();
    ctx.values.set(result.index, ty);
}

/// Increment of its integer operand by one.
#[derive(Clone, Copy, Debug)]
pub struct Incr {
    pub op: OperationRef,
}

/// Negation of its integer operand.
#[derive(Clone, Copy, Debug)]
pub struct Neg {
    pub op: OperationRef,
}

/// Modular inverse of its integer or field element operand.
#[derive(Clone, Copy, Debug)]
pub struct Inv {
    pub op: OperationRef,
}

/// Base-2 logarithm of its integer or field element operand.
#[derive(Clone, Copy, Debug)]
pub struct Ilog2 {
    pub op: OperationRef,
}

/// Two to the power of its integer operand.
#[derive(Clone, Copy, Debug)]
pub struct Pow2 {
    pub op: OperationRef,
}

/// Logical negation of its boolean operand.
#[derive(Clone, Copy, Debug)]
pub struct Not {
    pub op: OperationRef,
}

/// Bitwise negation of its integer operand.
#[derive(Clone, Copy, Debug)]
pub struct Bnot {
    pub op: OperationRef,
}

/// Whether its integer operand is odd; the result is a boolean.
#[derive(Clone, Copy, Debug)]
pub struct IsOdd {
    pub op: OperationRef,
}

/// Number of set bits of its integer operand; the result is a 32-bit unsigned integer.
#[derive(Clone, Copy, Debug)]
pub struct Popcnt {
    pub op: OperationRef,
}

/// Number of leading zero bits of its integer operand; the result is a 32-bit unsigned integer.
#[derive(Clone, Copy, Debug)]
pub struct Clz {
    pub op: OperationRef,
}

/// Number of trailing zero bits of its integer operand; the result is a 32-bit unsigned integer.
#[derive(Clone, Copy, Debug)]
pub struct Ctz {
    pub op: OperationRef,
}

/// Number of leading one bits of its integer operand; the result is a 32-bit unsigned integer.
#[derive(Clone, Copy, Debug)]
pub struct Clo {
    pub op: OperationRef,
}

/// Number of trailing one bits of its integer operand; the result is a 32-bit unsigned integer.
#[derive(Clone, Copy, Debug)]
pub struct Cto {
    pub op: OperationRef,
}

impl Incr {
    /// Set the type of the result to the type of the operand.
    pub fn infer_return_types(&self, ctx: &mut Context) -> (r: Result<(), String>)
        requires
            has_shape(old(ctx), self.op, OpKind::Incr, 1, 1),
        ensures
            r is Ok,
            final(ctx).ops == old(ctx).ops,
            final(ctx).values@ == old(ctx).values@.update(
                result_of(old(ctx), self.op).index as int,
                type_of(old(ctx), operand(old(ctx), self.op, 0)),
            ),
    {
        infer_same_as_operand(ctx, self.op, OpKind::Incr);
        Ok(())
    }

    /// The operation has no memory effect.
    pub fn effects(&self) -> (r: Vec<EffectInstance>)
        ensures
            r@.len() == 0,
    {
        Vec::new()
    }

    /// The operation has no memory effect.
    pub fn has_no_effect(&self) -> (r: bool)
        ensures
            r,
    {
        true
    }
}

impl Neg {
    /// Set the type of the result to the type of the operand.
    pub fn infer_return_types(&self, ctx: &mut Context) -> (r: Result<(), String>)
        requires
            has_shape(old(ctx), self.op, OpKind::Neg, 1, 1),
        ensures
            r is Ok,
            final(ctx).ops == old(ctx).ops,
            final(ctx).values@ == old(ctx).values@.update(
                result_of(old(ctx), self.op).index as int,
                type_of(old(ctx), operand(old(ctx), self.op, 0)),
            ),
    {
        infer_same_as_operand(ctx, self.op, OpKind::Neg);
        Ok(())
    }

    /// The operation has no memory effect.
    pub fn effects(&self) -> (r: Vec<EffectInstance>)
        ensures
            r@.len() == 0,
    {
        Vec::new()
    }

    /// The operation has no memory effect.
    pub fn has_no_effect(&self) -> (r: bool)
        ensures
            r,
    {
        true
    }
}

impl Inv {
    /// Set the type of the result to the type of the operand.
    pub fn infer_return_types(&self, ctx: &mut Context) -> (r: Result<(), String>)
        requires
            has_shape(old(ctx), self.op, OpKind::Inv, 1, 1),
        ensures
            r is Ok,
            final(ctx).ops == old(ctx).ops,
            final(ctx).values@ == old(ctx).values@.update(
                result_of(old(ctx), self.op).index as int,
                type_of(old(ctx), operand(old(ctx), self.op, 0)),
            ),
    {
        infer_same_as_operand(ctx, self.op, OpKind::Inv);
        Ok(())
    }

    /// The operation has no memory effect.
    pub fn effects(&self) -> (r: Vec<EffectInstance>)
        ensures
            r@.len() == 0,
    {
        Vec::new()
    }

    /// The operation has no memory effect.
    pub fn has_no_effect(&self) -> (r: bool)
        ensures
            r,
    {
        true
    }
}

impl Ilog2 {
    /// Set the type of the result to the type of the operand.
    pub fn infer_return_types(&self, ctx: &mut Context) -> (r: Result<(), String>)
        requires
            has_shape(old(ctx), self.op, OpKind::Ilog2, 1, 1),
        ensures
            r is Ok,
            final(ctx).ops == old(ctx).ops,
            final(ctx).values@ == old(ctx).values@.update(
                result_of(old(ctx), self.op).index as int,
                type_of(old(ctx), operand(old(ctx), self.op, 0)),
            ),
    {
        infer_same_as_operand(ctx, self.op, OpKind::Ilog2);
        Ok(())
    }

    /// The operation has no memory effect.
    pub fn effects(&self) -> (r: Vec<EffectInstance>)
        ensures
            r@.len() == 0,
    {
        Vec::new()
    }

    /// The operation has no memory effect.
    pub fn has_no_effect(&self) -> (r: bool)
        ensures
            r,
    {
        true
    }
}

impl Pow2 {
    /// Set the type of the result to the type of the operand.
    pub fn infer_return_types(&self, ctx: &mut Context) -> (r: Result<(), String>)
        requires
            has_shape(old(ctx), self.op, OpKind::Pow2, 1, 1),
        ensures
            r is Ok,
            final(ctx).ops == old(ctx).ops,
            final(ctx).values@ == old(ctx).values@.update(
                result_of(old(ctx), self.op).index as int,
                type_of(old(ctx), operand(old(ctx), self.op, 0)),
            ),
    {
        infer_same_as_operand(ctx, self.op, OpKind::Pow2);
        Ok(())
    }

    /// The operation has no memory effect.
    pub fn effects(&self) -> (r: Vec<EffectInstance>)
        ensures
            r@.len() == 0,
    {
        Vec::new()
    }

    /// The operation has no memory effect.
    pub fn has_no_effect(&self) -> (r: bool)
        ensures
            r,
    {
        true
    }
}

impl Not {
    /// Set the type of the result to the type of the operand.
    pub fn infer_return_types(&self, ctx: &mut Context) -> (r: Result<(), String>)
        requires
            has_shape(old(ctx), self.op, OpKind::Not, 1, 1),
        ensures
            r is Ok,
            final(ctx).ops == old(ctx).ops,
            final(ctx).values@ == old(ctx).values@.update(
                result_of(old(ctx), self.op).index as int,
                type_of(old(ctx), operand(old(ctx), self.op, 0)),
            ),
    {
        infer_same_as_operand(ctx, self.op, OpKind::Not);
        Ok(())
    }

    /// The operation has no memory effect.
    pub fn effects(&self) -> (r: Vec<EffectInstance>)
        ensures
            r@.len() == 0,
    {
        Vec::new()
    }

    /// The operation has no memory effect.
    pub fn has_no_effect(&self) -> (r: bool)
        ensures
            r,
    {
        true
    }
}

impl Bnot {
    /// Set the type of the result to the type of the operand.
    pub fn infer_return_types(&self, ctx: &mut Context) -> (r: Result<(), String>)
        requires
            has_shape(old(ctx), self.op, OpKind::Bnot, 1, 1),
        ensures
            r is Ok,
            final(ctx).ops == old(ctx).ops,
            final(ctx).values@ == old(ctx).values@.update(
                result_of(old(ctx), self.op).index as int,
                type_of(old(ctx), operand(old(ctx), self.op, 0)),
            ),
    {
        infer_same_as_operand(ctx, self.op, OpKind::Bnot);
        Ok(())
    }

    /// The operation has no memory effect.
    pub fn effects(&self) -> (r: Vec<EffectInstance>)
        ensures
            r@.len() == 0,
    {
        Vec::new()
    }

    /// The operation has no memory effect.
    pub fn has_no_effect(&self) -> (r: bool)
        ensures
            r,
    {
        true
    }
}

impl IsOdd {
    /// Set the type of the result to the boolean type.
    pub fn infer_return_types(&self, ctx: &mut Context) -> (r: Result<(), String>)
        requires
            has_shape(old(ctx), self.op, OpKind::IsOdd, 1, 1),
        ensures
            r is Ok,
            final(ctx).ops == old(ctx).ops,
            final(ctx).values@ == old(ctx).values@.update(result_of(old(ctx), self.op).index as int, Type::I1),
    {
        infer_fixed(ctx, self.op, OpKind::IsOdd, Ghost(1), Type::I1);
        Ok(())
    }

    /// The operation has no memory effect.
    pub fn effects(&self) -> (r: Vec<EffectInstance>)
        ensures
            r@.len() == 0,
    {
        Vec::new()
    }

    /// The operation has no memory effect.
    pub fn has_no_effect(&self) -> (r: bool)
        ensures
            r,
    {
        true
    }
}

impl Popcnt {
    /// Set the type of the result to the 32-bit unsigned integer type.
    pub fn infer_return_types(&self, ctx: &mut Context) -> (r: Result<(), String>)
        requires
            has_shape(old(ctx), self.op, OpKind::Popcnt, 1, 1),
        ensures
            r is Ok,
            final(ctx).ops == old(ctx).ops,
            final(ctx).values@ == old(ctx).values@.update(result_of(old(ctx), self.op).index as int, Type::U32),
    {
        infer_fixed(ctx, self.op, OpKind::Popcnt, Ghost(1), Type::U32);
        Ok(())
    }

    /// The operation has no memory effect.
    pub fn effects(&self) -> (r: Vec<EffectInstance>)
        ensures
            r@.len() == 0,
    {
        Vec::new()
    }

    /// The operation has no memory effect.
    pub fn has_no_effect(&self) -> (r: bool)
        ensures
            r,
    {
        true
    }
}

impl Clz {
    /// Set the type of the result to the 32-bit unsigned integer type.
    pub fn infer_return_types(&self, ctx: &mut Context) -> (r: Result<(), String>)
        requires
            has_shape(old(ctx), self.op, OpKind::Clz, 1, 1),
        ensures
            r is Ok,
            final(ctx).ops == old(ctx).ops,
            final(ctx).values@ == old(ctx).values@.update(result_of(old(ctx), self.op).index as int, Type::U32),
    {
        infer_fixed(ctx, self.op, OpKind::Clz, Ghost(1), Type::U32);
        Ok(())
    }

    /// The operation has no memory effect.
    pub fn effects(&self) -> (r: Vec<EffectInstance>)
        ensures
            r@.len() == 0,
    {
        Vec::new()
    }

    /// The operation has no memory effect.
    pub fn has_no_effect(&self) -> (r: bool)
        ensures
            r,
    {
        true
    }
}

impl Ctz {
    /// Set the type of the result to the 32-bit unsigned integer type.
    pub fn infer_return_types(&self, ctx: &mut Context) -> (r: Result<(), String>)
        requires
            has_shape(old(ctx), self.op, OpKind::Ctz, 1, 1),
        ensures
            r is Ok,
            final(ctx).ops == old(ctx).ops,
            final(ctx).values@ == old(ctx).values@.update(result_of(old(ctx), self.op).index as int, Type::U32),
    {
        infer_fixed(ctx, self.op, OpKind::Ctz, Ghost(1), Type::U32);
        Ok(())
    }

    /// The operation has no memory effect.
    pub fn effects(&self) -> (r: Vec<EffectInstance>)
        ensures
            r@.len() == 0,
    {
        Vec::new()
    }

    /// The operation has no memory effect.
    pub fn has_no_effect(&self) -> (r: bool)
        ensures
            r,
    {
        true
    }
}

impl Clo {
    /// Set the type of the result to the 32-bit unsigned integer type.
    pub fn infer_return_types(&self, ctx: &mut Context) -> (r: Result<(), String>)
        requires
            has_shape(old(ctx), self.op, OpKind::Clo, 1, 1),
        ensures
            r is Ok,
            final(ctx).ops == old(ctx).ops,
            final(ctx).values@ == old(ctx).values@.update(result_of(old(ctx), self.op).index as int, Type::U32),
    {
        infer_fixed(ctx, self.op, OpKind::Clo, Ghost(1), Type::U32);
        Ok(())
    }

    /// The operation has no memory effect.
    pub fn effects(&self) -> (r: Vec<EffectInstance>)
        ensures
            r@.len() == 0,
    {
        Vec::new()
    }

    /// The operation has no memory effect.
    pub fn has_no_effect(&self) -> (r: bool)
        ensures
            r,
    {
        true
    }
}

impl Cto {
    /// Set the type of the result to the 32-bit unsigned integer type.
    pub fn infer_return_types(&self, ctx: &mut Context) -> (r: Result<(), String>)
        requires
            has_shape(old(ctx), self.op, OpKind::Cto, 1, 1),
        ensures
            r is Ok,
            final(ctx).ops == old(ctx).ops,
            final(ctx).values@ == old(ctx).values@.update(result_of(old(ctx), self.op).index as int, Type::U32),
    {
        infer_fixed(ctx, self.op, OpKind::Cto, Ghost(1), Type::U32);
        Ok(())
    }

    /// The operation has no memory effect.
    pub fn effects(&self) -> (r: Vec<EffectInstance>)
        ensures
            r@.len() == 0,
    {
        Vec::new()
    }

    /// The operation has no memory effect.
    pub fn has_no_effect(&self) -> (r: bool)
        ensures
            r,
    {
        true
    }
}

} // verus!
