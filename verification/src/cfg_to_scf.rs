//! Preparing a region's control flow for lifting to structured form: the region's blocks with
//! their arguments, the operands passed along each edge and each block's terminator; the
//! transformation context that creates blocks, block arguments and the constants the
//! transformation needs; the combination of return-like exits; and the edge multiplexer, which
//! routes a set of edges through one new block that dispatches to their original targets.
use vstd::prelude::*;
use crate::cfg::{Cfg, CycleEdges, Edge, calculate_cycle_edges, is_back_edge, is_edge, is_entry_edge, is_exit_edge, target};
use crate::ir::{Type, ValueRef};

verus! {

/// A constant the transformation places at the start of the region's entry block.
#[derive(Debug)]
pub enum ConstantDef {
    /// A `u32` constant, used as a switch or branch flag.
    Switch(u32),
    /// A poison value of the given type, passed where an argument is not used.
    Poison(Type),
}

/// Where a value is defined.
#[derive(Debug)]
pub enum ValueDef {
    /// The `index`-th argument of `block`.
    Arg { block: usize, index: usize },
    /// A constant made by the transformation.
    Constant(ConstantDef),
    /// The result of some other operation of the region, of no block in particular.
    Result,
    /// A value whose defining operation was erased.
    Erased,
    /// A result of an operation in the given block.
    BlockResult(usize),
}

/// A value: its type and where it is defined.
#[derive(Debug)]
pub struct ValueInfo {
    pub ty: Type,
    pub def: ValueDef,
}

/// The kinds of return-like operations.
#[derive(Clone, Copy, Debug, PartialEq, Eq, Structural)]
pub enum ReturnKind {
    Return,
    Unreachable,
}

/// The terminator of a block. The block's successors are those of the region's graph, in the
/// order this type gives them.
#[derive(Debug)]
pub enum Terminator {
    /// No terminator yet: a block just created.
    Unterminated,
    /// An unconditional branch to the single successor.
    Br,
    /// A branch to the first successor when `condition` is non-zero, else to the second.
    CondBr { condition: ValueRef },
    /// A switch on `selector`: the first successor is the default, and successor `i + 1` is
    /// taken when the selector equals `case_values[i]` (the first such `i`).
    Switch { selector: ValueRef, case_values: Vec<u32> },
    /// A return-like operation of the given kind, with its operands. It has no successors.
    ReturnLike { kind: ReturnKind, operands: Vec<ValueRef> },
}

/// A region: its control-flow graph, the operands passed along each of its edges, the
/// arguments and the terminator of each block, and each value with its type and definition,
/// by index.
#[derive(Debug)]
pub struct Region {
    pub cfg: Cfg,
    pub operands: Vec<Vec<Vec<ValueRef>>>,
    pub args: Vec<Vec<ValueRef>>,
    pub terminators: Vec<Terminator>,
    pub values: Vec<ValueInfo>,
}

/// The number of blocks of `r`.
pub open spec fn num_blocks(r: &Region) -> nat {
    r.cfg.successors@.len()
}

/// The successors of block `b`.
pub open spec fn succs(r: &Region, b: int) -> Seq<usize> {
    r.cfg.successors@[b]@
}

/// The operands passed along the `s`-th successor edge of block `b`.
pub open spec fn edge_ops(r: &Region, b: int, s: int) -> Seq<ValueRef> {
    r.operands@[b]@[s]@
}

/// The arguments of block `b`.
pub open spec fn block_args(r: &Region, b: int) -> Seq<ValueRef> {
    r.args@[b]@
}

/// `v` is a value of `r`.
pub open spec fn valid_value(r: &Region, v: ValueRef) -> bool {
    v.index < r.values@.len()
}

/// The definition of value `v`.
pub open spec fn value_def(r: &Region, v: ValueRef) -> ValueDef {
    r.values@[v.index as int].def
}

/// The type of value `v`.
pub open spec fn value_type(r: &Region, v: ValueRef) -> Type {
    r.values@[v.index as int].ty
}

/// The terminator `t` has `n` successors.
pub open spec fn arity_ok(t: Terminator, n: nat) -> bool {
    match t {
        Terminator::Unterminated => n == 0,
        Terminator::Br => n == 1,
        Terminator::CondBr { .. } => n == 2,
        Terminator::Switch { case_values, .. } => n == case_values@.len() + 1,
        Terminator::ReturnLike { .. } => n == 0,
    }
}

/// The values the terminator `t` uses are values of `r`.
pub open spec fn terminator_values_ok(r: &Region, t: Terminator) -> bool {
    match t {
        Terminator::CondBr { condition } => valid_value(r, condition),
        Terminator::Switch { selector, .. } => valid_value(r, selector),
        Terminator::ReturnLike { operands, .. } => forall|k: int|
            0 <= k < operands@.len() ==> valid_value(r, #[trigger] operands@[k]),
        _ => true,
    }
}

/// The region is well formed: one operand list per edge, every edge leads to a block of the
/// region, every value used is a value of the region, each block argument is defined as that
/// argument, and each terminator has as many successors as its kind says.
pub open spec fn wf(r: &Region) -> bool {
    let n = num_blocks(r);
    &&& r.operands@.len() == n
    &&& r.args@.len() == n
    &&& r.terminators@.len() == n
    &&& forall|b: int| 0 <= b < n ==> (#[trigger] r.operands@[b])@.len() == succs(r, b).len()
    &&& forall|b: int, s: int|
        0 <= b < n && 0 <= s < succs(r, b).len() ==> #[trigger] succs(r, b)[s] < n
    &&& forall|b: int, s: int, k: int|
        0 <= b < n && 0 <= s < succs(r, b).len() && 0 <= k < edge_ops(r, b, s).len()
            ==> valid_value(r, #[trigger] edge_ops(r, b, s)[k])
    &&& forall|b: int, k: int|
        0 <= b < n && 0 <= k < block_args(r, b).len() ==> {
            &&& valid_value(r, #[trigger] block_args(r, b)[k])
            &&& value_def(r, block_args(r, b)[k]) == (ValueDef::Arg {
                block: b as usize,
                index: k as usize,
            })
        }
    &&& forall|b: int|
        0 <= b < n ==> arity_ok(#[trigger] r.terminators@[b], succs(r, b).len())
            && terminator_values_ok(r, r.terminators@[b])
}

/// The blocks of `r2` below `n` are those of `r1`, but for their arguments, and the values of
/// `r1` keep their types and definitions in `r2`.
pub open spec fn blocks_kept(r1: &Region, r2: &Region, n: int) -> bool {
    &&& num_blocks(r2) >= n
    &&& forall|b: int| 0 <= b < n ==> #[trigger] succs(r2, b) == succs(r1, b)
    &&& forall|b: int| 0 <= b < n ==> #[trigger] r2.operands@[b]@ == r1.operands@[b]@
    &&& forall|b: int| 0 <= b < n ==> #[trigger] r2.terminators@[b] == r1.terminators@[b]
    &&& r2.values@.len() >= r1.values@.len()
    &&& forall|i: int| 0 <= i < r1.values@.len() ==> #[trigger] r2.values@[i] == r1.values@[i]
}

/// Every block of `r1` keeps its successors, operands, arguments and terminator in `r2`, and
/// the values of `r1` keep their types and definitions.
pub open spec fn region_kept(r1: &Region, r2: &Region) -> bool {
    &&& blocks_kept(r1, r2, num_blocks(r1) as int)
    &&& forall|b: int| 0 <= b < num_blocks(r1) ==> #[trigger] block_args(r2, b) == block_args(r1, b)
}

/// When a region's graph, operands and terminators stay as they are and its values only grow,
/// the graph stays well formed.
proof fn lemma_graph_kept(r0: &Region, r: &Region)
    requires
        wf(r0),
        blocks_kept(r0, r, num_blocks(r0) as int),
        num_blocks(r) == num_blocks(r0),
        r.operands@.len() == num_blocks(r0),
        r.terminators@.len() == num_blocks(r0),
    ensures
        forall|b: int| 0 <= b < num_blocks(r) ==> (#[trigger] r.operands@[b])@.len() == succs(r, b).len(),
        forall|b: int, s: int|
            0 <= b < num_blocks(r) && 0 <= s < succs(r, b).len() ==> #[trigger] succs(r, b)[s] < num_blocks(r),
        forall|b: int, s: int, k: int|
            0 <= b < num_blocks(r) && 0 <= s < succs(r, b).len() && 0 <= k < edge_ops(r, b, s).len()
                ==> valid_value(r, #[trigger] edge_ops(r, b, s)[k]),
        forall|b: int|
            0 <= b < num_blocks(r) ==> arity_ok(#[trigger] r.terminators@[b], succs(r, b).len())
                && terminator_values_ok(r, r.terminators@[b]),
{
    assert forall|b: int| 0 <= b < num_blocks(r) implies (#[trigger] r.operands@[b])@.len() == succs(r, b).len() by {
        assert(r.operands@[b]@ == r0.operands@[b]@);
        assert(succs(r, b) == succs(r0, b));
    }
    assert forall|b: int, s: int|
        0 <= b < num_blocks(r) && 0 <= s < succs(r, b).len() implies #[trigger] succs(r, b)[s] < num_blocks(r) by {
        assert(succs(r, b) == succs(r0, b));
    }
    assert forall|b: int, s: int, k: int|
        0 <= b < num_blocks(r) && 0 <= s < succs(r, b).len() && 0 <= k < edge_ops(r, b, s).len()
            implies valid_value(r, #[trigger] edge_ops(r, b, s)[k]) by {
        assert(succs(r, b) == succs(r0, b));
        assert(r.operands@[b]@ == r0.operands@[b]@);
        assert(edge_ops(r, b, s) == edge_ops(r0, b, s));
        assert(valid_value(r0, edge_ops(r0, b, s)[k]));
    }
    assert forall|b: int| 0 <= b < num_blocks(r) implies arity_ok(#[trigger] r.terminators@[b], succs(r, b).len())
        && terminator_values_ok(r, r.terminators@[b]) by {
        assert(r.terminators@[b] == r0.terminators@[b]);
        assert(succs(r, b) == succs(r0, b));
        assert(terminator_values_ok(r0, r0.terminators@[b]));
    }
}

/// Whether `a` and `b` are the same type.
fn type_eq(a: &Type, b: &Type) -> (r: bool)
    ensures
        r == (*a == *b),
    decreases a,
{
    match a {
        Type::Unknown => matches!(b, Type::Unknown),
        Type::I1 => matches!(b, Type::I1),
        Type::I8 => matches!(b, Type::I8),
        Type::U8 => matches!(b, Type::U8),
        Type::I16 => matches!(b, Type::I16),
        Type::U16 => matches!(b, Type::U16),
        Type::I32 => matches!(b, Type::I32),
        Type::U32 => matches!(b, Type::U32),
        Type::I64 => matches!(b, Type::I64),
        Type::U64 => matches!(b, Type::U64),
        Type::I128 => matches!(b, Type::I128),
        Type::U128 => matches!(b, Type::U128),
        Type::Felt => matches!(b, Type::Felt),
        Type::Ptr(x) => match b {
            Type::Ptr(y) => type_eq(x, y),
            _ => false,
        },
    }
}

/// The arguments `block` gets when those of `other` are copied onto it in `r`: one new value
/// per argument of `other`, of the same type, defined as an argument of `block`.
pub open spec fn copied_arg_values(r: &Region, block: usize, other: usize) -> Seq<ValueInfo> {
    Seq::new(
        block_args(r, other as int).len(),
        |j: int|
            ValueInfo {
                ty: value_type(r, block_args(r, other as int)[j]),
                def: ValueDef::Arg { block, index: (block_args(r, block as int).len() + j) as usize },
            },
    )
}

/// The values numbered from `first`, `n` of them.
pub open spec fn value_range(first: nat, n: nat) -> Seq<ValueRef> {
    Seq::new(n, |j: int| ValueRef { index: (first + j) as usize })
}

/// The context of the transformation of a region: the region, its entry block, and the
/// constants and exits made so far.
pub struct TransformationContext {
    pub region: Region,
    pub entry: usize,
    /// The `u32` constants made so far, by value.
    pub switch_value_cache: Vec<Option<ValueRef>>,
    /// The poison values made so far, with their types.
    pub typed_undef_cache: Vec<(Type, ValueRef)>,
    /// For each kind of return-like operation and types of its operands, the block that all
    /// such operations were combined into.
    pub return_like_to_combined_exit: Vec<(ReturnKind, Vec<Type>, usize)>,
}

impl TransformationContext {
    /// The `u32` constant `d` made so far, if any.
    pub open spec fn switch_cached(&self, d: u32) -> Option<ValueRef> {
        if (d as int) < self.switch_value_cache@.len() {
            self.switch_value_cache@[d as int]
        } else {
            None
        }
    }

    /// The context is well formed: the region is, the entry is one of its blocks, and each
    /// constant made so far is a value defined as that constant.
    pub open spec fn wf(&self) -> bool {
        &&& wf(&self.region)
        &&& self.entry < num_blocks(&self.region)
        &&& forall|i: int|
            0 <= i < self.switch_value_cache@.len() ==> match #[trigger] self.switch_value_cache@[i] {
                Some(v) => valid_value(&self.region, v) && value_def(&self.region, v) == ValueDef::Constant(ConstantDef::Switch(i as u32)) && value_type(&self.region, v) == Type::U32,
                None => true,
            }
        &&& self.switch_value_cache@.len() <= u32::MAX + 1
        &&& forall|j: int|
            0 <= j < self.typed_undef_cache@.len() ==> {
                let (t, v) = #[trigger] self.typed_undef_cache@[j];
                &&& valid_value(&self.region, v)
                &&& value_def(&self.region, v) == ValueDef::Constant(ConstantDef::Poison(t))
                &&& value_type(&self.region, v) == t
            }
        &&& forall|i: int, j: int|
            0 <= i < j < self.typed_undef_cache@.len() ==> (#[trigger] self.typed_undef_cache@[i]).0
                != (#[trigger] self.typed_undef_cache@[j]).0
        &&& forall|i: int| 0 <= i < self.return_like_to_combined_exit@.len() ==> (#[trigger] self.return_like_to_combined_exit@[i]).2 < num_blocks(&self.region)
        &&& forall|i: int, j: int| 0 <= i < j < self.return_like_to_combined_exit@.len() ==>
            !((#[trigger] self.return_like_to_combined_exit@[i]).0 == (#[trigger] self.return_like_to_combined_exit@[j]).0
                && self.return_like_to_combined_exit@[i].1@ == self.return_like_to_combined_exit@[j].1@)
    }

    /// The block that return-like operations of kind `kind` with operands of types `types`
    /// were combined into, if any.
    pub open spec fn combined_exit(&self, kind: ReturnKind, types: Seq<Type>) -> Option<usize> {
        let x = self.return_like_to_combined_exit@;
        if exists|i: int| 0 <= i < x.len() && (#[trigger] x[i]).0 == kind && x[i].1@ == types {
            let i = choose|i: int| 0 <= i < x.len() && (#[trigger] x[i]).0 == kind && x[i].1@ == types;
            Some(x[i].2)
        } else {
            None
        }
    }

    /// The poison value of type `t` made so far, if any.
    pub open spec fn undef_cached(&self, t: Type) -> Option<ValueRef> {
        if exists|j: int| 0 <= j < self.typed_undef_cache@.len() && (#[trigger] self.typed_undef_cache@[j]).0 == t {
            let j = choose|j: int| 0 <= j < self.typed_undef_cache@.len() && (#[trigger] self.typed_undef_cache@[j]).0 == t;
            Some(self.typed_undef_cache@[j].1)
        } else {
            None
        }
    }

    /// The caches of `self` hold what those of `c` hold.
    pub open spec fn caches_extend(&self, c: &TransformationContext) -> bool {
        &&& forall|d: u32| #[trigger] c.switch_cached(d) is Some ==> self.switch_cached(d) == c.switch_cached(d)
        &&& forall|t: Type| #[trigger] c.undef_cached(t) is Some ==> self.undef_cached(t) == c.undef_cached(t)
    }

    /// A new block at the end of the region, with no arguments, successors or terminator.
    pub fn create_block(&mut self) -> (b: usize)
        requires
            old(self).wf(),
            num_blocks(&old(self).region) < usize::MAX,
        ensures
            final(self).wf(),
            b == num_blocks(&old(self).region),
            num_blocks(&final(self).region) == b + 1,
            region_kept(&old(self).region, &final(self).region),
            final(self).region.values@ == old(self).region.values@,
            succs(&final(self).region, b as int).len() == 0,
            block_args(&final(self).region, b as int).len() == 0,
            final(self).region.terminators@[b as int] == Terminator::Unterminated,
            final(self).entry == old(self).entry,
            final(self).switch_value_cache@ == old(self).switch_value_cache@,
            final(self).typed_undef_cache@ == old(self).typed_undef_cache@,
            final(self).return_like_to_combined_exit@ == old(self).return_like_to_combined_exit@,
    {
        let b = self.region.cfg.successors.len();
        self.region.cfg.successors.push(Vec::new());
        self.region.operands.push(Vec::new());
        self.region.args.push(Vec::new());
        self.region.terminators.push(Terminator::Unterminated);
        proof {
            let r = &self.region;
            let r0 = &old(self).region;
            assert forall|b2: int, s: int|
                0 <= b2 < num_blocks(r) && 0 <= s < succs(r, b2).len() implies #[trigger] succs(r, b2)[s] < num_blocks(r) by {
                assert(succs(r, b2) == succs(r0, b2));
            }
            assert forall|b2: int, s: int, k: int|
                0 <= b2 < num_blocks(r) && 0 <= s < succs(r, b2).len() && 0 <= k < edge_ops(r, b2, s).len()
                    implies valid_value(r, #[trigger] edge_ops(r, b2, s)[k]) by {
                assert(succs(r, b2) == succs(r0, b2));
                assert(edge_ops(r, b2, s) == edge_ops(r0, b2, s));
            }
            assert forall|b2: int, k: int| 0 <= b2 < num_blocks(r) && 0 <= k < block_args(r, b2).len() implies {
                &&& valid_value(r, #[trigger] block_args(r, b2)[k])
                &&& value_def(r, block_args(r, b2)[k]) == (ValueDef::Arg {
                    block: b2 as usize,
                    index: k as usize,
                })
            } by {
                if b2 < b {
                    assert(block_args(r, b2) == block_args(&old(self).region, b2));
                }
            }
        }
        b
    }

    /// A new argument of type `ty` at the end of `block`'s arguments: a new value, defined as
    /// that argument.
    pub fn append_block_argument(&mut self, block: usize, ty: Type) -> (v: ValueRef)
        requires
            old(self).wf(),
            block < num_blocks(&old(self).region),
        ensures
            final(self).wf(),
            v.index == old(self).region.values@.len(),
            final(self).region.values@ == old(self).region.values@.push(ValueInfo {
                ty,
                def: ValueDef::Arg { block, index: block_args(&old(self).region, block as int).len() as usize },
            }),
            blocks_kept(&old(self).region, &final(self).region, num_blocks(&old(self).region) as int),
            num_blocks(&final(self).region) == num_blocks(&old(self).region),
            block_args(&final(self).region, block as int) == block_args(&old(self).region, block as int).push(v),
            forall|b: int| 0 <= b < num_blocks(&old(self).region) && b != block ==> #[trigger] block_args(&final(self).region, b) == block_args(&old(self).region, b),
            final(self).entry == old(self).entry,
            final(self).switch_value_cache@ == old(self).switch_value_cache@,
            final(self).typed_undef_cache@ == old(self).typed_undef_cache@,
            final(self).return_like_to_combined_exit@ == old(self).return_like_to_combined_exit@,
    {
        let index = self.region.args[block].len();
        let v = ValueRef { index: self.region.values.len() };
        self.region.values.push(ValueInfo { ty, def: ValueDef::Arg { block, index } });
        self.region.args[block].push(v);
        proof {
            let r = &self.region;
            let r0 = &old(self).region;
            lemma_graph_kept(r0, r);
            assert forall|b2: int, k: int| 0 <= b2 < num_blocks(r) && 0 <= k < block_args(r, b2).len() implies {
                &&& valid_value(r, #[trigger] block_args(r, b2)[k])
                &&& value_def(r, block_args(r, b2)[k]) == (ValueDef::Arg {
                    block: b2 as usize,
                    index: k as usize,
                })
            } by {
                if b2 != block || k < index {
                    assert(block_args(r, b2)[k] == block_args(r0, b2)[k]);
                    assert(valid_value(r0, block_args(r0, b2)[k]));
                }
            }
            assert forall|i: int| 0 <= i < self.switch_value_cache@.len() implies match #[trigger] self.switch_value_cache@[i] {
                Some(v) => valid_value(r, v) && value_def(r, v) == ValueDef::Constant(ConstantDef::Switch(i as u32)) && value_type(r, v) == Type::U32,
                None => true,
            } by {
                assert(old(self).switch_value_cache@[i] == self.switch_value_cache@[i]);
            }
            assert forall|j: int| 0 <= j < self.typed_undef_cache@.len() implies {
                let (t, v) = #[trigger] self.typed_undef_cache@[j];
                &&& valid_value(r, v)
                &&& value_def(r, v) == ValueDef::Constant(ConstantDef::Poison(t))
                &&& value_type(r, v) == t
            } by {
                assert(old(self).typed_undef_cache@[j] == self.typed_undef_cache@[j]);
            }
        }
        v
    }

    /// Copy the arguments of `other` onto the end of `block`'s arguments: one new argument of
    /// the same type for each.
    pub fn add_block_arguments_from_other(&mut self, block: usize, other: usize)
        requires
            old(self).wf(),
            block < num_blocks(&old(self).region),
            other < num_blocks(&old(self).region),
            block != other,
        ensures
            final(self).wf(),
            final(self).region.values@ == old(self).region.values@ + copied_arg_values(&old(self).region, block, other),
            block_args(&final(self).region, block as int) == block_args(&old(self).region, block as int)
                + value_range(old(self).region.values@.len(), block_args(&old(self).region, other as int).len()),
            blocks_kept(&old(self).region, &final(self).region, num_blocks(&old(self).region) as int),
            num_blocks(&final(self).region) == num_blocks(&old(self).region),
            forall|b: int| 0 <= b < num_blocks(&old(self).region) && b != block ==> #[trigger] block_args(&final(self).region, b) == block_args(&old(self).region, b),
            final(self).entry == old(self).entry,
            final(self).switch_value_cache@ == old(self).switch_value_cache@,
            final(self).typed_undef_cache@ == old(self).typed_undef_cache@,
            final(self).return_like_to_combined_exit@ == old(self).return_like_to_combined_exit@,
    {
        let ghost r0 = self.region;
        let n = self.region.args[other].len();
        let mut j: usize = 0;
        while j < n
            invariant
                self.wf(),
                block < num_blocks(&r0),
                other < num_blocks(&r0),
                block != other,
                n == block_args(&r0, other as int).len(),
                j <= n,
                self.region.values@ == r0.values@ + copied_arg_values(&r0, block, other).take(j as int),
                block_args(&self.region, block as int) == block_args(&r0, block as int) + value_range(r0.values@.len(), j as nat),
                block_args(&self.region, other as int) == block_args(&r0, other as int),
                blocks_kept(&r0, &self.region, num_blocks(&r0) as int),
                num_blocks(&self.region) == num_blocks(&r0),
                forall|b: int| 0 <= b < num_blocks(&r0) && b != block ==> #[trigger] block_args(&self.region, b) == block_args(&r0, b),
                self.entry == old(self).entry,
                self.return_like_to_combined_exit@ == old(self).return_like_to_combined_exit@,
                self.switch_value_cache@ == old(self).switch_value_cache@,
                self.typed_undef_cache@ == old(self).typed_undef_cache@,
                r0 == old(self).region,
            decreases n - j,
        {
            let a = self.region.args[other][j];
            let ty = self.region.values[a.index].ty.clone();
            let ghost before = self.region;
            proof {
                assert(block_args(&self.region, other as int)[j as int] == a);
                assert(a == block_args(&r0, other as int)[j as int]);
                assert(valid_value(&r0, a));
                assert(self.region.values@[a.index as int] == r0.values@[a.index as int]);
            }
            let v = self.append_block_argument(block, ty);
            proof {
                let r = &self.region;
                assert(block_args(&before, block as int).len() == block_args(&r0, block as int).len() + j);
                assert(copied_arg_values(&r0, block, other).take(j + 1) =~= copied_arg_values(&r0, block, other).take(j as int).push(copied_arg_values(&r0, block, other)[j as int]));
                assert(r.values@ =~= r0.values@ + copied_arg_values(&r0, block, other).take(j + 1));
                assert(value_range(r0.values@.len(), (j + 1) as nat) =~= value_range(r0.values@.len(), j as nat).push(v));
                assert(block_args(r, block as int) =~= block_args(&r0, block as int) + value_range(r0.values@.len(), (j + 1) as nat));
                assert forall|i: int| 0 <= i < r0.values@.len() implies #[trigger] r.values@[i] == r0.values@[i] by {
                    assert(before.values@[i] == r0.values@[i]);
                }
            }
            j = j + 1;
        }
        proof {
            assert(copied_arg_values(&r0, block, other).take(n as int) =~= copied_arg_values(&r0, block, other));
        }
    }

    /// A new value defined as the constant `def`, of type `ty`.
    fn define_constant(&mut self, ty: Type, def: ConstantDef) -> (v: ValueRef)
        requires
            old(self).wf(),
        ensures
            final(self).wf(),
            v.index == old(self).region.values@.len(),
            final(self).region.values@ == old(self).region.values@.push(ValueInfo { ty, def: ValueDef::Constant(def) }),
            region_kept(&old(self).region, &final(self).region),
            num_blocks(&final(self).region) == num_blocks(&old(self).region),
            final(self).entry == old(self).entry,
            final(self).switch_value_cache@ == old(self).switch_value_cache@,
            final(self).typed_undef_cache@ == old(self).typed_undef_cache@,
            final(self).return_like_to_combined_exit@ == old(self).return_like_to_combined_exit@,
    {
        let v = ValueRef { index: self.region.values.len() };
        self.region.values.push(ValueInfo { ty, def: ValueDef::Constant(def) });
        proof {
            let r = &self.region;
            let r0 = &old(self).region;
            lemma_graph_kept(r0, r);
            assert forall|b2: int, k: int| 0 <= b2 < num_blocks(r) && 0 <= k < block_args(r, b2).len() implies {
                &&& valid_value(r, #[trigger] block_args(r, b2)[k])
                &&& value_def(r, block_args(r, b2)[k]) == (ValueDef::Arg {
                    block: b2 as usize,
                    index: k as usize,
                })
            } by {
                assert(valid_value(r0, block_args(r0, b2)[k]));
            }
            assert forall|i: int| 0 <= i < self.switch_value_cache@.len() implies match #[trigger] self.switch_value_cache@[i] {
                Some(v) => valid_value(r, v) && value_def(r, v) == ValueDef::Constant(ConstantDef::Switch(i as u32)) && value_type(r, v) == Type::U32,
                None => true,
            } by {
                assert(old(self).switch_value_cache@[i] == self.switch_value_cache@[i]);
            }
            assert forall|j: int| 0 <= j < self.typed_undef_cache@.len() implies {
                let (t, v) = #[trigger] self.typed_undef_cache@[j];
                &&& valid_value(r, v)
                &&& value_def(r, v) == ValueDef::Constant(ConstantDef::Poison(t))
                &&& value_type(r, v) == t
            } by {
                assert(old(self).typed_undef_cache@[j] == self.typed_undef_cache@[j]);
            }
        }
        v
    }

    /// The `u32` constant `discriminant`, placed at the start of the entry block the first time
    /// it is asked for and given back from then on.
    pub fn get_switch_value(&mut self, discriminant: u32) -> (v: ValueRef)
        requires
            old(self).wf(),
            (discriminant as int) < usize::MAX,
        ensures
            final(self).wf(),
            final(self).switch_cached(discriminant) == Some(v),
            value_def(&final(self).region, v) == ValueDef::Constant(ConstantDef::Switch(discriminant)),
            value_type(&final(self).region, v) == Type::U32,
            valid_value(&final(self).region, v),
            old(self).switch_cached(discriminant) is Some ==> v == old(self).switch_cached(discriminant)->0
                && final(self).region == old(self).region,
            old(self).switch_cached(discriminant) is None ==> v.index == old(self).region.values@.len()
                && final(self).region.values@ == old(self).region.values@.push(ValueInfo {
                    ty: Type::U32,
                    def: ValueDef::Constant(ConstantDef::Switch(discriminant)),
                }),
            region_kept(&old(self).region, &final(self).region),
            num_blocks(&final(self).region) == num_blocks(&old(self).region),
            final(self).entry == old(self).entry,
            forall|d: u32| d != discriminant ==> #[trigger] final(self).switch_cached(d) == old(self).switch_cached(d),
            final(self).typed_undef_cache@ == old(self).typed_undef_cache@,
            final(self).return_like_to_combined_exit@ == old(self).return_like_to_combined_exit@,
    {
        let index = discriminant as usize;
        if index < self.switch_value_cache.len() {
            if let Some(val) = self.switch_value_cache[index] {
                return val;
            }
        }
        let ghost c0 = self.switch_value_cache@;
        while self.switch_value_cache.len() < index + 1
            invariant
                self.wf(),
                index == discriminant,
                index < usize::MAX,
                self.switch_value_cache@.len() >= c0.len(),
                forall|i: int| 0 <= i < c0.len() ==> #[trigger] self.switch_value_cache@[i] == c0[i],
                forall|i: int| c0.len() <= i < self.switch_value_cache@.len() ==> #[trigger] self.switch_value_cache@[i] is None,
                self.region == old(self).region,
                self.entry == old(self).entry,
                self.return_like_to_combined_exit@ == old(self).return_like_to_combined_exit@,
                self.typed_undef_cache@ == old(self).typed_undef_cache@,
                c0 == old(self).switch_value_cache@,
                old(self).switch_cached(discriminant) is None,
            decreases index + 1 - self.switch_value_cache@.len(),
        {
            self.switch_value_cache.push(None);
        }
        let v = self.define_constant(Type::U32, ConstantDef::Switch(discriminant));
        self.switch_value_cache.set(index, Some(v));
        proof {
            let r = &self.region;
            assert forall|i: int| 0 <= i < self.switch_value_cache@.len() implies match #[trigger] self.switch_value_cache@[i] {
                Some(w) => valid_value(r, w) && value_def(r, w) == ValueDef::Constant(ConstantDef::Switch(i as u32)) && value_type(r, w) == Type::U32,
                None => true,
            } by {
                if i != index && i < c0.len() {
                    assert(old(self).switch_value_cache@[i] == self.switch_value_cache@[i]);
                    match self.switch_value_cache@[i] {
                        Some(w) => {
                            assert(old(self).region.values@[w.index as int] == r.values@[w.index as int]);
                        }
                        None => {}
                    }
                }
            }
            assert forall|d: u32| d != discriminant implies #[trigger] self.switch_cached(d) == old(self).switch_cached(d) by {
                if (d as int) < c0.len() {
                    assert(self.switch_value_cache@[d as int] == c0[d as int]);
                }
            }
        }
        v
    }

    /// A poison value of type `ty`, placed at the start of the entry block the first time one
    /// of that type is asked for and given back from then on.
    pub fn get_undef_value(&mut self, ty: &Type) -> (v: ValueRef)
        requires
            old(self).wf(),
        ensures
            final(self).wf(),
            final(self).undef_cached(*ty) == Some(v),
            value_def(&final(self).region, v) == ValueDef::Constant(ConstantDef::Poison(*ty)),
            value_type(&final(self).region, v) == *ty,
            valid_value(&final(self).region, v),
            old(self).undef_cached(*ty) is Some ==> v == old(self).undef_cached(*ty)->0
                && final(self).region == old(self).region,
            old(self).undef_cached(*ty) is None ==> v.index == old(self).region.values@.len()
                && final(self).region.values@ == old(self).region.values@.push(ValueInfo {
                    ty: *ty,
                    def: ValueDef::Constant(ConstantDef::Poison(*ty)),
                }),
            region_kept(&old(self).region, &final(self).region),
            num_blocks(&final(self).region) == num_blocks(&old(self).region),
            final(self).entry == old(self).entry,
            forall|t: Type| t != *ty ==> #[trigger] final(self).undef_cached(t) == old(self).undef_cached(t),
            final(self).switch_value_cache@ == old(self).switch_value_cache@,
            final(self).return_like_to_combined_exit@ == old(self).return_like_to_combined_exit@,
    {
        let mut j: usize = 0;
        while j < self.typed_undef_cache.len()
            invariant
                self.wf(),
                j <= self.typed_undef_cache@.len(),
                forall|i: int| 0 <= i < j ==> (#[trigger] self.typed_undef_cache@[i]).0 != *ty,
                self == old(self),
            decreases self.typed_undef_cache@.len() - j,
        {
            if type_eq(&self.typed_undef_cache[j].0, ty) {
                let v = self.typed_undef_cache[j].1;
                proof {
                    let k = choose|k: int| 0 <= k < self.typed_undef_cache@.len() && (#[trigger] self.typed_undef_cache@[k]).0 == *ty;
                    if k != j {
                        assert(self.typed_undef_cache@[j as int].0 != self.typed_undef_cache@[k].0);
                    }
                }
                return v;
            }
            j = j + 1;
        }
        proof {
            assert(!exists|k: int| 0 <= k < self.typed_undef_cache@.len() && (#[trigger] self.typed_undef_cache@[k]).0 == *ty);
        }
        let v = self.define_constant(ty.clone(), ConstantDef::Poison(ty.clone()));
        let ghost c0 = self.typed_undef_cache@;
        self.typed_undef_cache.push((ty.clone(), v));
        proof {
            let r = &self.region;
            let c = self.typed_undef_cache@;
            assert(c == c0.push((*ty, v)));
            assert forall|k: int| 0 <= k < c.len() implies {
                let (t, w) = #[trigger] c[k];
                &&& valid_value(r, w)
                &&& value_def(r, w) == ValueDef::Constant(ConstantDef::Poison(t))
                &&& value_type(r, w) == t
            } by {
                if k < c0.len() {
                    assert(c[k] == c0[k]);
                    assert(old(self).typed_undef_cache@[k] == c0[k]);
                    assert(old(self).region.values@[c0[k].1.index as int] == r.values@[c0[k].1.index as int]);
                }
            }
            assert forall|i: int, k: int| 0 <= i < k < c.len() implies (#[trigger] c[i]).0 != (#[trigger] c[k]).0 by {
                if k == c0.len() {
                    assert(c[i] == c0[i]);
                    assert(c0[i].0 != *ty);
                } else {
                    assert(c[i] == c0[i] && c[k] == c0[k]);
                }
            }
            assert(c[c0.len() as int].0 == *ty);
            assert(self.undef_cached(*ty) == Some(v)) by {
                let k = choose|k: int| 0 <= k < c.len() && (#[trigger] c[k]).0 == *ty;
                if k != c0.len() {
                    assert(c[k] == c0[k]);
                }
            }
            assert forall|t: Type| t != *ty implies #[trigger] self.undef_cached(t) == old(self).undef_cached(t) by {
                if exists|k: int| 0 <= k < c0.len() && (#[trigger] c0[k]).0 == t {
                    let k0 = choose|k: int| 0 <= k < c0.len() && (#[trigger] c0[k]).0 == t;
                    assert(c[k0] == c0[k0]);
                    let k1 = choose|k: int| 0 <= k < c.len() && (#[trigger] c[k]).0 == t;
                    if k1 != k0 {
                        if k1 < c0.len() {
                            assert(c[k1] == c0[k1]);
                            if k1 < k0 {
                                assert(c[k1].0 != c[k0].0);
                            } else {
                                assert(c[k0].0 != c[k1].0);
                            }
                        }
                    }
                } else {
                    if exists|k: int| 0 <= k < c.len() && (#[trigger] c[k]).0 == t {
                        let k1 = choose|k: int| 0 <= k < c.len() && (#[trigger] c[k]).0 == t;
                        if k1 < c0.len() {
                            assert(c[k1] == c0[k1]);
                        }
                    }
                }
            }
        }
        v
    }
}

/// The blocks of a multiplexer's argument mapping, in order.
pub open spec fn mapping_keys(m: Seq<(usize, usize)>) -> Seq<usize> {
    m.map_values(|p: (usize, usize)| p.0)
}

/// Where the arguments of the last block of a mapping end among the multiplexer's arguments.
pub open spec fn mapped_end(r: &Region, m: Seq<(usize, usize)>) -> nat {
    if m.len() == 0 {
        0
    } else {
        (m.last().1 + block_args(r, m.last().0 as int).len()) as nat
    }
}

/// The argument mapping of a multiplexer for the blocks `blocks`: each distinct block, in the
/// order of its first occurrence, with the offset at which its arguments start among the
/// multiplexer's arguments, one block's arguments after the other's.
pub open spec fn arg_mapping(r: &Region, blocks: Seq<usize>) -> Seq<(usize, usize)>
    decreases blocks.len(),
{
    if blocks.len() == 0 {
        seq![]
    } else {
        let m = arg_mapping(r, blocks.drop_last());
        if mapping_keys(m).contains(blocks.last()) {
            m
        } else {
            m.push((blocks.last(), mapped_end(r, m) as usize))
        }
    }
}

/// The position of `b` among the blocks of the mapping `m`, if it is one of them.
fn mapping_position(m: &Vec<(usize, usize)>, b: usize) -> (r: Option<usize>)
    ensures
        r is Some <==> mapping_keys(m@).contains(b),
        r matches Some(i) ==> i < m@.len() && m@[i as int].0 == b && forall|j: int| 0 <= j < i ==> (#[trigger] m@[j]).0 != b,
{
    let mut i: usize = 0;
    while i < m.len()
        invariant
            i <= m@.len(),
            forall|j: int| 0 <= j < i ==> (#[trigger] m@[j]).0 != b,
        decreases m@.len() - i,
    {
        if m[i].0 == b {
            proof {
                assert(mapping_keys(m@)[i as int] == b);
            }
            return Some(i);
        }
        i = i + 1;
    }
    proof {
        if mapping_keys(m@).contains(b) {
            let j = choose|j: int| 0 <= j < mapping_keys(m@).len() && mapping_keys(m@)[j] == b;
            assert(m@[j].0 == b);
        }
    }
    None
}

/// The position of block `b` in the mapping `m`.
pub open spec fn key_position(m: Seq<(usize, usize)>, b: usize) -> int {
    choose|i: int| 0 <= i < m.len() && (#[trigger] m[i]).0 == b
}

/// `v` is what redirecting an edge to the multiplexer `mux` passes for the multiplexer's
/// `k`-th argument, when the edge led to the `pos`-th target of the mapping with the operands
/// `orig`, and `extras` are the extra operands: the original operands where that target's
/// arguments lie, the `u32` constant `pos` for the discriminator, the extra operands last, and
/// a poison value of the argument's type for every other argument.
pub open spec fn redirected_operand_ok(
    r: &Region,
    mux: &EdgeMultiplexer,
    pos: int,
    extras: Seq<ValueRef>,
    orig: Seq<ValueRef>,
    k: int,
    v: ValueRef,
) -> bool {
    let mb = mux.multiplexer_block as int;
    let off = mux.block_arg_mapping@[pos].1 as int;
    let eb = block_args(r, mb).len() - extras.len();
    &&& valid_value(r, v)
    &&& if off <= k < off + orig.len() {
        v == orig[k - off]
    } else if mux.discriminator is Some && k == eb - 1 {
        value_def(r, v) == ValueDef::Constant(ConstantDef::Switch(pos as u32))
    } else if k >= eb {
        v == extras[k - eb]
    } else {
        value_def(r, v) == ValueDef::Constant(ConstantDef::Poison(value_type(r, block_args(r, mb)[k])))
    }
}

/// A multiplexer that fits a region still fits it when the region's blocks stay as they are
/// and its values only grow.
proof fn lemma_valid_kept(mux: &EdgeMultiplexer, c0: &TransformationContext, c1: &TransformationContext)
    requires
        mux.valid(c0),
        wf(&c0.region),
        num_blocks(&c1.region) >= num_blocks(&c0.region),
        forall|b: int| 0 <= b < num_blocks(&c0.region) ==> #[trigger] block_args(&c1.region, b) == block_args(&c0.region, b),
        c1.region.values@.len() >= c0.region.values@.len(),
        forall|i: int| 0 <= i < c0.region.values@.len() ==> #[trigger] c1.region.values@[i] == c0.region.values@[i],
    ensures
        mux.valid(c1),
{
    let r0 = &c0.region;
    let r1 = &c1.region;
    let m = mux.block_arg_mapping@;
    assert forall|j: int| 0 <= j <= m.len() implies #[trigger] mapped_end(r1, m.take(j)) == mapped_end(r0, m.take(j)) by {
        if j > 0 {
            assert(m.take(j).last() == m[j - 1]);
            assert(block_args(r1, m[j - 1].0 as int) == block_args(r0, m[j - 1].0 as int));
        }
    }
    assert(m.take(m.len() as int) =~= m);
    assert(block_args(r1, mux.multiplexer_block as int) == block_args(r0, mux.multiplexer_block as int));
    match mux.discriminator {
        Some(d) => {
            assert(d == block_args(r0, mux.multiplexer_block as int)[mapped_end(r0, m) as int]);
            assert(valid_value(r0, d));
            assert(r1.values@[d.index as int] == r0.values@[d.index as int]);
        }
        None => {}
    }
}

/// The targets of the mapping `m` that a switch dispatches to when the blocks `excluded` are
/// left out: each with its position in the mapping, its block and the offset of its
/// arguments, in the mapping's order.
pub open spec fn switch_entries(m: Seq<(usize, usize)>, excluded: Seq<usize>) -> Seq<(int, usize, usize)>
    decreases m.len(),
{
    if m.len() == 0 {
        seq![]
    } else {
        let rest = switch_entries(m.drop_last(), excluded);
        if excluded.contains(m.last().0) {
            rest
        } else {
            rest.push(((m.len() - 1) as int, m.last().0, m.last().1))
        }
    }
}

/// The arguments of the multiplexer block `mb` that lie where the arguments of `block` do,
/// from `offset`.
pub open spec fn forwarded_args(r: &Region, mb: usize, block: usize, offset: usize) -> Seq<ValueRef> {
    block_args(r, mb as int).subrange(offset as int, offset + block_args(r, block as int).len())
}

/// The arguments a mapping gives its blocks end where the mapping's arguments end, or before.
proof fn lemma_mapped_end_mono(r: &Region, m: Seq<(usize, usize)>, i: int)
    requires
        0 <= i <= m.len(),
        forall|j: int| 0 <= j < m.len() ==> (#[trigger] m[j]).1 == mapped_end(r, m.take(j)),
    ensures
        mapped_end(r, m.take(i)) <= mapped_end(r, m),
    decreases m.len() - i,
{
    if i < m.len() {
        lemma_mapped_end_mono(r, m, i + 1);
        assert(m.take(i + 1).last() == m[i]);
    } else {
        assert(m.take(i) =~= m);
    }
}

/// Each entry of a switch's entries names a target of the mapping, by its position, block and
/// offset, and is not left out.
proof fn lemma_switch_entries(m: Seq<(usize, usize)>, excluded: Seq<usize>)
    ensures
        forall|i: int| 0 <= i < switch_entries(m, excluded).len() ==> {
            let x = #[trigger] switch_entries(m, excluded)[i];
            &&& 0 <= x.0 < m.len()
            &&& x.1 == m[x.0].0
            &&& x.2 == m[x.0].1
            &&& !excluded.contains(x.1)
        },
        forall|i: int, j: int| 0 <= i < j < switch_entries(m, excluded).len() ==> (#[trigger] switch_entries(m, excluded)[i]).0 < (#[trigger] switch_entries(m, excluded)[j]).0,
        forall|p: int| 0 <= p < m.len() && !excluded.contains(#[trigger] m[p].0) ==> exists|i: int| 0 <= i < switch_entries(m, excluded).len() && (#[trigger] switch_entries(m, excluded)[i]).0 == p,
    decreases m.len(),
{
    if m.len() > 0 {
        lemma_switch_entries(m.drop_last(), excluded);
        let rest = switch_entries(m.drop_last(), excluded);
        let e = switch_entries(m, excluded);
        assert forall|i: int| 0 <= i < rest.len() implies (#[trigger] rest[i]).0 < m.len() - 1 by {
        }
        assert forall|p: int| 0 <= p < m.len() && !excluded.contains(#[trigger] m[p].0) implies exists|i: int| 0 <= i < e.len() && (#[trigger] e[i]).0 == p by {
            if p < m.len() - 1 {
                assert(m.drop_last()[p] == m[p]);
                let i = choose|i: int| 0 <= i < rest.len() && (#[trigger] rest[i]).0 == p;
                assert(e[i] == rest[i]);
            } else {
                assert(e[rest.len() as int].0 == p);
            }
        }
    }
}

/// The position of the first of `case_values` equal to `c`, or `-1` when none is.
pub open spec fn case_index(case_values: Seq<u32>, c: u32) -> int
    decreases case_values.len(),
{
    if case_values.len() == 0 {
        -1
    } else {
        let i = case_index(case_values.drop_last(), c);
        if i >= 0 {
            i
        } else if case_values.last() == c {
            case_values.len() - 1
        } else {
            -1
        }
    }
}

/// The `u32` constant that `v` is, if it is one.
pub open spec fn const_value(r: &Region, v: ValueRef) -> Option<u32> {
    if valid_value(r, v) {
        match value_def(r, v) {
            ValueDef::Constant(ConstantDef::Switch(c)) => Some(c),
            _ => None,
        }
    } else {
        None
    }
}

/// `v`, where the arguments of block `m` hold the values `env`.
pub open spec fn bind(r: &Region, m: usize, env: Seq<ValueRef>, v: ValueRef) -> ValueRef {
    if valid_value(r, v) {
        match value_def(r, v) {
            ValueDef::Arg { block, index } => if block == m && index < env.len() {
                env[index as int]
            } else {
                v
            },
            _ => v,
        }
    } else {
        v
    }
}

/// The successor that block `b`'s terminator takes, where the arguments of block `m` hold the
/// values `env` and flags are `u32` constants: a branch takes its successor, a conditional
/// branch its first when the flag is non-zero, and a switch the case equal to the selector,
/// else the default.
pub open spec fn taken_successor(r: &Region, m: usize, env: Seq<ValueRef>, b: int) -> Option<int> {
    match r.terminators@[b] {
        Terminator::Br => Some(0),
        Terminator::CondBr { condition } => match const_value(r, bind(r, m, env, condition)) {
            Some(c) => Some(if c != 0 { 0int } else { 1int }),
            None => None,
        },
        Terminator::Switch { selector, case_values } => match const_value(r, bind(r, m, env, selector)) {
            Some(c) => Some(case_index(case_values@, c) + 1),
            None => None,
        },
        _ => None,
    }
}

/// Where control goes from block `b`, where the arguments of block `m` hold the values `env`:
/// the successor taken and the values passed to its arguments.
pub open spec fn hop(r: &Region, m: usize, env: Seq<ValueRef>, b: int) -> Option<(usize, Seq<ValueRef>)> {
    match taken_successor(r, m, env, b) {
        Some(s) => Some((succs(r, b)[s], edge_ops(r, b, s).map_values(|v: ValueRef| bind(r, m, env, v)))),
        None => None,
    }
}

/// Where control goes from block `b` stays so in a region that keeps `b`'s terminator,
/// successors and operands, and whose values extend those of `r1`, for values of `r1` in the
/// arguments of block `m`.
pub(crate) proof fn lemma_hop_kept(r1: &Region, r2: &Region, m: usize, env: Seq<ValueRef>, b: int)
    requires
        wf(r1),
        0 <= b < num_blocks(r1),
        b < num_blocks(r2),
        r2.terminators@[b] == r1.terminators@[b],
        succs(r2, b) == succs(r1, b),
        forall|s: int| 0 <= s < succs(r1, b).len() ==> #[trigger] edge_ops(r2, b, s) == edge_ops(r1, b, s),
        r2.values@.len() >= r1.values@.len(),
        forall|i: int| 0 <= i < r1.values@.len() ==> #[trigger] r2.values@[i] == r1.values@[i],
        forall|k: int| 0 <= k < env.len() ==> valid_value(r1, #[trigger] env[k]),
    ensures
        hop(r2, m, env, b) == hop(r1, m, env, b),
{
    assert forall|v: ValueRef| valid_value(r1, v) implies #[trigger] bind(r2, m, env, v) == bind(r1, m, env, v)
        && valid_value(r1, bind(r1, m, env, v)) by {
        assert(r2.values@[v.index as int] == r1.values@[v.index as int]);
    }
    assert forall|v: ValueRef| valid_value(r1, v) implies #[trigger] const_value(r2, v) == const_value(r1, v) by {
        assert(r2.values@[v.index as int] == r1.values@[v.index as int]);
    }
    match r1.terminators@[b] {
        Terminator::CondBr { condition } => {
            assert(valid_value(r1, condition));
            assert(const_value(r2, bind(r2, m, env, condition)) == const_value(r1, bind(r1, m, env, condition)));
        },
        Terminator::Switch { selector, case_values } => {
            assert(valid_value(r1, selector));
            assert(const_value(r2, bind(r2, m, env, selector)) == const_value(r1, bind(r1, m, env, selector)));
            match const_value(r1, bind(r1, m, env, selector)) {
                Some(c) => lemma_case_index(case_values@, c),
                None => {},
            }
        },
        _ => {},
    }
    assert(taken_successor(r2, m, env, b) == taken_successor(r1, m, env, b));
    match taken_successor(r1, m, env, b) {
        Some(s) => {
            assert(arity_ok(r1.terminators@[b], succs(r1, b).len()));
            assert(0 <= s < succs(r1, b).len());
            let o1 = edge_ops(r1, b, s);
            assert(edge_ops(r2, b, s) == o1);
            assert(o1.map_values(|v: ValueRef| bind(r2, m, env, v)) =~= o1.map_values(|v: ValueRef| bind(r1, m, env, v))) by {
                assert forall|k: int| 0 <= k < o1.len() implies bind(r2, m, env, #[trigger] o1[k]) == bind(r1, m, env, o1[k]) by {
                    assert(valid_value(r1, edge_ops(r1, b, s)[k]));
                }
            }
        },
        None => {},
    }
}

/// The case index of `c` is the position of the first case equal to it, or `-1` when no case is.
proof fn lemma_case_index(cv: Seq<u32>, c: u32)
    ensures
        -1 <= case_index(cv, c) < cv.len(),
        case_index(cv, c) == -1 <==> !cv.contains(c),
        case_index(cv, c) >= 0 ==> cv[case_index(cv, c)] == c,
    decreases cv.len(),
{
    if cv.len() > 0 {
        lemma_case_index(cv.drop_last(), c);
        if cv.contains(c) {
            let j = choose|j: int| 0 <= j < cv.len() && cv[j] == c;
            if j < cv.len() - 1 {
                assert(cv.drop_last()[j] == c);
            }
        }
        if cv.drop_last().contains(c) {
            let j = choose|j: int| 0 <= j < cv.drop_last().len() && cv.drop_last()[j] == c;
            assert(cv[j] == c);
        }
    }
}

/// A copy of the values of `v` from `lo` up to `hi`.
pub(crate) fn copy_range(v: &Vec<ValueRef>, lo: usize, hi: usize) -> (r: Vec<ValueRef>)
    requires
        lo <= hi <= v@.len(),
    ensures
        r@ == v@.subrange(lo as int, hi as int),
{
    let mut r: Vec<ValueRef> = Vec::new();
    let mut i = lo;
    while i < hi
        invariant
            lo <= i <= hi <= v@.len(),
            r@ == v@.subrange(lo as int, i as int),
        decreases hi - i,
    {
        r.push(v[i]);
        proof {
            assert(r@ =~= v@.subrange(lo as int, i + 1));
        }
        i = i + 1;
    }
    r
}

/// Whether `b` is one of `blocks`.
pub(crate) fn contains_block(blocks: &[usize], b: usize) -> (r: bool)
    ensures
        r == blocks@.contains(b),
{
    let mut k: usize = 0;
    while k < blocks.len()
        invariant
            k <= blocks@.len(),
            forall|j: int| 0 <= j < k ==> blocks@[j] != b,
        decreases blocks@.len() - k,
    {
        if blocks[k] == b {
            proof {
                assert(blocks@[k as int] == b);
            }
            return true;
        }
        k = k + 1;
    }
    false
}

/// The cases of a switch that passes on to the targets of the mapping `m`, leaving out
/// `excluded`: for each entry, its position, its block, and the arguments of the multiplexer
/// block `mb` that lie where the block's arguments do.
fn switch_cases(m: &Vec<(usize, usize)>, r: &Region, mb: usize, excluded: &[usize]) -> (cases: (Vec<u32>, Vec<usize>, Vec<Vec<ValueRef>>))
    requires
        wf(r),
        mb < num_blocks(r),
        m@.len() <= u32::MAX,
        forall|j: int| 0 <= j < m@.len() ==> (#[trigger] m@[j]).0 < num_blocks(r) && m@[j].1 == mapped_end(r, m@.take(j)),
        mapped_end(r, m@) <= block_args(r, mb as int).len(),
    ensures
        ({
            let e = switch_entries(m@, excluded@);
            &&& cases.0@.len() == e.len()
            &&& cases.1@.len() == e.len()
            &&& cases.2@.len() == e.len()
            &&& forall|i: int| 0 <= i < e.len() ==> {
                let x = #[trigger] e[i];
                &&& cases.0@[i] == x.0 as u32
                &&& cases.1@[i] == x.1
                &&& cases.2@[i]@ == forwarded_args(r, mb, x.1, x.2)
            }
        }),
{
    let mut case_values: Vec<u32> = Vec::new();
    let mut dests: Vec<usize> = Vec::new();
    let mut case_args: Vec<Vec<ValueRef>> = Vec::new();
    let mut index: usize = 0;
    while index < m.len()
        invariant
            wf(r),
            mb < num_blocks(r),
            m@.len() <= u32::MAX,
            forall|j: int| 0 <= j < m@.len() ==> (#[trigger] m@[j]).0 < num_blocks(r) && m@[j].1 == mapped_end(r, m@.take(j)),
            mapped_end(r, m@) <= block_args(r, mb as int).len(),
            index <= m@.len(),
            case_values@.len() == switch_entries(m@.take(index as int), excluded@).len(),
            dests@.len() == case_values@.len(),
            case_args@.len() == case_values@.len(),
            forall|i: int| 0 <= i < case_values@.len() ==> {
                let x = #[trigger] switch_entries(m@.take(index as int), excluded@)[i];
                &&& case_values@[i] == x.0 as u32
                &&& dests@[i] == x.1
                &&& case_args@[i]@ == forwarded_args(r, mb, x.1, x.2)
            },
        decreases m@.len() - index,
    {
        let succ = m[index].0;
        let offset = m[index].1;
        let ghost before = switch_entries(m@.take(index as int), excluded@);
        proof {
            assert(m@.take(index + 1).drop_last() =~= m@.take(index as int));
            assert(m@.take(index + 1).last() == m@[index as int]);
            assert(m@.take(index + 1).len() == index + 1);
        }
        if !contains_block(excluded, succ) {
            let n = r.args[succ].len();
            let argc_mb = r.args[mb].len();
            proof {
                lemma_mapped_end_mono(r, m@, index + 1);
                assert(m@.take(index + 1).last() == m@[index as int]);
                assert(offset + n == mapped_end(r, m@.take(index + 1)));
            }
            let args = copy_range(&r.args[mb], offset, offset + n);
            case_values.push(index as u32);
            dests.push(succ);
            case_args.push(args);
            proof {
                let after = switch_entries(m@.take(index + 1), excluded@);
                assert(after == before.push((index as int, succ, offset)));
                assert forall|i: int| 0 <= i < case_values@.len() implies {
                    let x = #[trigger] after[i];
                    &&& case_values@[i] == x.0 as u32
                    &&& dests@[i] == x.1
                    &&& case_args@[i]@ == forwarded_args(r, mb, x.1, x.2)
                } by {
                    if i < before.len() {
                        assert(after[i] == before[i]);
                    }
                }
            }
        } else {
            proof {
                assert(switch_entries(m@.take(index + 1), excluded@) == before);
            }
        }
        index = index + 1;
    }
    proof {
        assert(m@.take(m@.len() as int) =~= m@);
    }
    (case_values, dests, case_args)
}

/// A multiplexer's mapping has a target for each of the blocks it was made for, and no more
/// targets than blocks.
proof fn lemma_arg_mapping_keys(r: &Region, blocks: Seq<usize>)
    ensures
        arg_mapping(r, blocks).len() <= blocks.len(),
        forall|i: int| 0 <= i < blocks.len() ==> mapping_keys(arg_mapping(r, blocks)).contains(#[trigger] blocks[i]),
    decreases blocks.len(),
{
    if blocks.len() > 0 {
        let m0 = arg_mapping(r, blocks.drop_last());
        lemma_arg_mapping_keys(r, blocks.drop_last());
        let m = arg_mapping(r, blocks);
        assert forall|i: int| 0 <= i < blocks.len() implies mapping_keys(m).contains(#[trigger] blocks[i]) by {
            if i < blocks.len() - 1 {
                assert(blocks.drop_last()[i] == blocks[i]);
                assert(mapping_keys(m0).contains(blocks[i]));
                if m != m0 {
                    let k = choose|k: int| 0 <= k < mapping_keys(m0).len() && mapping_keys(m0)[k] == blocks[i];
                    assert(mapping_keys(m)[k] == blocks[i]);
                }
            } else {
                if m != m0 {
                    assert(mapping_keys(m)[m0.len() as int] == blocks[i]);
                }
            }
        }
    }
}

/// Whether `e` is one of `edges`.
pub open spec fn edge_in(edges: Seq<Edge>, b: int, s: int) -> bool {
    exists|j: int| 0 <= j < edges.len() && (#[trigger] edges[j]).from_block == b && edges[j].successor_index == s
}

/// What a redirected operand is stays so while the multiplexer's arguments stay as they are
/// and the region's values only grow.
proof fn lemma_redirected_ok_kept(r0: &Region, r1: &Region, mux: &EdgeMultiplexer, pos: int, extras: Seq<ValueRef>, orig: Seq<ValueRef>, k: int, v: ValueRef)
    requires
        redirected_operand_ok(r0, mux, pos, extras, orig, k, v),
        0 <= k < block_args(r0, mux.multiplexer_block as int).len(),
        block_args(r1, mux.multiplexer_block as int) == block_args(r0, mux.multiplexer_block as int),
        forall|a: int| 0 <= a < block_args(r0, mux.multiplexer_block as int).len() ==> valid_value(r0, #[trigger] block_args(r0, mux.multiplexer_block as int)[a]),
        r1.values@.len() >= r0.values@.len(),
        forall|x: int| 0 <= x < r0.values@.len() ==> #[trigger] r1.values@[x] == r0.values@[x],
    ensures
        redirected_operand_ok(r1, mux, pos, extras, orig, k, v),
{
    let mb = mux.multiplexer_block as int;
    assert(r1.values@[v.index as int] == r0.values@[v.index as int]);
    if 0 <= k < block_args(r0, mb).len() {
        let a = block_args(r0, mb)[k];
        assert(r1.values@[a.index as int] == r0.values@[a.index as int]);
    }
}

/// `r` is `r0` with `edge` redirected to the multiplexer `mux`: the edge leads to the
/// multiplexer and passes what `redirected_operand_ok` says, and nothing else of the region
/// changes but that its values may grow.
pub open spec fn edge_redirected(r0: &Region, r: &Region, mux: &EdgeMultiplexer, edge: Edge, extras: Seq<ValueRef>) -> bool {
    let from = edge.from_block as int;
    let si = edge.successor_index as int;
    let pos = key_position(mux.block_arg_mapping@, target(&r0.cfg, edge));
    &&& num_blocks(r) == num_blocks(r0)
    &&& succs(r, from) == succs(r0, from).update(si, mux.multiplexer_block)
    &&& edge_ops(r, from, si).len() == block_args(r0, mux.multiplexer_block as int).len()
    &&& forall|k: int| 0 <= k < edge_ops(r, from, si).len() ==> redirected_operand_ok(r, mux, pos, extras, edge_ops(r0, from, si), k, #[trigger] edge_ops(r, from, si)[k])
    &&& forall|s: int| 0 <= s < succs(r0, from).len() && s != si ==> #[trigger] edge_ops(r, from, s) == edge_ops(r0, from, s)
    &&& forall|b: int| 0 <= b < num_blocks(r0) && b != from ==> #[trigger] succs(r, b) == succs(r0, b) && r.operands@[b]@ == r0.operands@[b]@
    &&& forall|b: int| 0 <= b < num_blocks(r0) ==> #[trigger] block_args(r, b) == block_args(r0, b) && r.terminators@[b] == r0.terminators@[b]
    &&& r.values@.len() >= r0.values@.len()
    &&& forall|i: int| 0 <= i < r0.values@.len() ==> #[trigger] r.values@[i] == r0.values@[i]
}

/// The first `j` of `edges` are redirected to the multiplexer `mux` in `r`: each leads to the
/// multiplexer and passes what `redirected_operand_ok` says for its original target, its
/// operands in `r0` and its extra operands `extras[k]`.
pub open spec fn entries_redirected(r0: &Region, r: &Region, mux: &EdgeMultiplexer, edges: Seq<Edge>, extras: Seq<Seq<ValueRef>>, j: int) -> bool {
    forall|k: int| 0 <= k < j ==> {
        let e = #[trigger] edges[k];
        let env = edge_ops(r, e.from_block as int, e.successor_index as int);
        &&& target(&r.cfg, e) == mux.multiplexer_block
        &&& env.len() == block_args(r, mux.multiplexer_block as int).len()
        &&& forall|x: int| 0 <= x < env.len() ==> redirected_operand_ok(r, mux, key_position(mux.block_arg_mapping@, target(&r0.cfg, e)), extras[k], edge_ops(r0, e.from_block as int, e.successor_index as int), x, #[trigger] env[x])
    }
}

/// Every edge of `r0` but the first `j` of `edges` leads where it did and passes what it did
/// in `r`, and the blocks of `r0` keep their number of successors, arguments and terminators.
pub open spec fn others_kept(r0: &Region, r: &Region, edges: Seq<Edge>, j: int) -> bool {
    &&& forall|b: int, s: int| 0 <= b < num_blocks(r0) && 0 <= s < succs(r0, b).len() && !edge_in(edges.take(j), b, s)
        ==> #[trigger] succs(r, b)[s] == succs(r0, b)[s] && edge_ops(r, b, s) == edge_ops(r0, b, s)
    &&& forall|b: int| 0 <= b < num_blocks(r0) ==> #[trigger] succs(r, b).len() == succs(r0, b).len()
    &&& forall|b: int| 0 <= b < num_blocks(r0) ==> #[trigger] block_args(r, b) == block_args(r0, b)
    &&& forall|b: int| 0 <= b < num_blocks(r0) ==> #[trigger] r.terminators@[b] == r0.terminators@[b]
}

/// Redirecting one more of the entry edges keeps the earlier ones redirected and the others
/// as they were.
#[verifier::spinoff_prover]
proof fn lemma_redirect_step(r0: &Region, rb: &Region, r: &Region, mux: &EdgeMultiplexer, edges: Seq<Edge>, extras: Seq<Seq<ValueRef>>, j: int)
    requires
        0 <= j < edges.len(),
        forall|k: int| 0 <= k < edges.len() ==> is_edge(&r0.cfg, #[trigger] edges[k]),
        forall|a: int, c: int| 0 <= a < c < edges.len() ==> #[trigger] edges[a] != #[trigger] edges[c],
        mux.multiplexer_block >= num_blocks(r0),
        num_blocks(rb) > mux.multiplexer_block,
        forall|a: int| 0 <= a < block_args(rb, mux.multiplexer_block as int).len() ==> valid_value(rb, #[trigger] block_args(rb, mux.multiplexer_block as int)[a]),
        entries_redirected(r0, rb, mux, edges, extras, j),
        others_kept(r0, rb, edges, j),
        edge_redirected(rb, r, mux, edges[j], extras[j]),
    ensures
        entries_redirected(r0, r, mux, edges, extras, j + 1),
        others_kept(r0, r, edges, j + 1),
        block_args(r, mux.multiplexer_block as int) == block_args(rb, mux.multiplexer_block as int),
{
    let mb = mux.multiplexer_block;
    let m = mux.block_arg_mapping@;
    let e = edges[j];
    let f = e.from_block as int;
    let si = e.successor_index as int;
    assert(is_edge(&r0.cfg, e));
    assert(!edge_in(edges.take(j), f, si)) by {
        if edge_in(edges.take(j), f, si) {
            let k = choose|k: int| 0 <= k < edges.take(j).len() && (#[trigger] edges.take(j)[k]).from_block == f && edges.take(j)[k].successor_index == si;
            assert(edges[k] == edges[j]);
        }
    }
    assert(succs(rb, f)[si] == succs(r0, f)[si]);
    assert(edge_ops(rb, f, si) == edge_ops(r0, f, si));
    assert(block_args(r, mb as int) == block_args(rb, mb as int));
    assert(edges.take(j + 1) =~= edges.take(j).push(e));
    assert forall|k: int| 0 <= k < j + 1 implies {
        let ek = #[trigger] edges[k];
        let env = edge_ops(r, ek.from_block as int, ek.successor_index as int);
        &&& target(&r.cfg, ek) == mb
        &&& env.len() == block_args(r, mb as int).len()
        &&& forall|x: int| 0 <= x < env.len() ==> redirected_operand_ok(r, mux, key_position(m, target(&r0.cfg, ek)), extras[k], edge_ops(r0, ek.from_block as int, ek.successor_index as int), x, #[trigger] env[x])
    } by {
        let ek = edges[k];
        let fk = ek.from_block as int;
        let sk = ek.successor_index as int;
        if k < j {
            assert(ek != e);
            assert(is_edge(&r0.cfg, ek));
            let envb = edge_ops(rb, fk, sk);
            if fk != f {
                assert(succs(r, fk) == succs(rb, fk));
                assert(r.operands@[fk]@ == rb.operands@[fk]@);
            } else {
                assert(sk != si);
                assert(succs(rb, fk).len() == succs(r0, fk).len());
                assert(edge_ops(r, fk, sk) == edge_ops(rb, fk, sk));
            }
            assert forall|x: int| 0 <= x < envb.len() implies redirected_operand_ok(r, mux, key_position(m, target(&r0.cfg, ek)), extras[k], edge_ops(r0, fk, sk), x, #[trigger] envb[x]) by {
                assert(redirected_operand_ok(rb, mux, key_position(m, target(&r0.cfg, ek)), extras[k], edge_ops(r0, fk, sk), x, envb[x]));
                lemma_redirected_ok_kept(rb, r, mux, key_position(m, target(&r0.cfg, ek)), extras[k], edge_ops(r0, fk, sk), x, envb[x]);
            }
        }
    }
    assert forall|b: int, s: int| 0 <= b < num_blocks(r0) && 0 <= s < succs(r0, b).len() && !edge_in(edges.take(j + 1), b, s)
        implies #[trigger] succs(r, b)[s] == succs(r0, b)[s] && edge_ops(r, b, s) == edge_ops(r0, b, s) by {
        assert(!edge_in(edges.take(j), b, s)) by {
            if edge_in(edges.take(j), b, s) {
                let k = choose|k: int| 0 <= k < edges.take(j).len() && (#[trigger] edges.take(j)[k]).from_block == b && edges.take(j)[k].successor_index == s;
                assert(edges.take(j + 1)[k] == edges.take(j)[k]);
            }
        }
        assert(!(b == f && s == si)) by {
            if b == f && s == si {
                assert(edges.take(j + 1)[j] == e);
            }
        }
        assert(succs(rb, b)[s] == succs(r0, b)[s]);
        if b != f {
            assert(succs(r, b) == succs(rb, b));
            assert(r.operands@[b]@ == rb.operands@[b]@);
        } else {
            assert(succs(rb, b).len() == succs(r0, b).len());
            assert(edge_ops(r, b, s) == edge_ops(rb, b, s));
        }
    }
    assert forall|b: int| 0 <= b < num_blocks(r0) implies #[trigger] succs(r, b).len() == succs(r0, b).len() by {
        assert(succs(rb, b).len() == succs(r0, b).len());
        if b != f {
            assert(succs(r, b) == succs(rb, b));
        }
    }
    assert forall|b: int| 0 <= b < num_blocks(r0) implies #[trigger] block_args(r, b) == block_args(r0, b) by {
        assert(block_args(rb, b) == block_args(r0, b));
    }
    assert forall|b: int| 0 <= b < num_blocks(r0) implies #[trigger] r.terminators@[b] == r0.terminators@[b] by {
        assert(rb.terminators@[b] == r0.terminators@[b]);
        assert(block_args(r, b) == block_args(rb, b));
    }
}

/// The types of the values `ops`.
pub open spec fn operand_types(r: &Region, ops: Seq<ValueRef>) -> Seq<Type> {
    ops.map_values(|v: ValueRef| value_type(r, v))
}

/// Whether `a` and `b` hold the same types, in the same order.
fn types_eq(a: &Vec<Type>, b: &Vec<Type>) -> (r: bool)
    ensures
        r == (a@ == b@),
{
    if a.len() != b.len() {
        return false;
    }
    let mut i: usize = 0;
    while i < a.len()
        invariant
            a@.len() == b@.len(),
            i <= a@.len(),
            forall|j: int| 0 <= j < i ==> a@[j] == b@[j],
        decreases a@.len() - i,
    {
        if !type_eq(&a[i], &b[i]) {
            return false;
        }
        i = i + 1;
    }
    proof {
        assert(a@ =~= b@);
    }
    true
}

/// A copy of the values `v`.
pub(crate) fn copy_values(v: &Vec<ValueRef>) -> (r: Vec<ValueRef>)
    ensures
        r@ == v@,
{
    let r = copy_range(v, 0, v.len());
    proof {
        assert(v@.subrange(0, v@.len() as int) =~= v@);
    }
    r
}

/// The types of the values `ops` of `r`.
fn operand_type_list(r: &Region, ops: &Vec<ValueRef>) -> (t: Vec<Type>)
    requires
        forall|k: int| 0 <= k < ops@.len() ==> valid_value(r, #[trigger] ops@[k]),
    ensures
        t@ == operand_types(r, ops@),
{
    let mut t: Vec<Type> = Vec::new();
    let mut i: usize = 0;
    while i < ops.len()
        invariant
            forall|k: int| 0 <= k < ops@.len() ==> valid_value(r, #[trigger] ops@[k]),
            i <= ops@.len(),
            t@ == operand_types(r, ops@.take(i as int)),
        decreases ops@.len() - i,
    {
        let v = ops[i];
        proof {
            assert(valid_value(r, ops@[i as int]));
        }
        t.push(r.values[v.index].ty.clone());
        proof {
            assert(operand_types(r, ops@.take(i + 1)) =~= operand_types(r, ops@.take(i as int)).push(value_type(r, v)));
        }
        i = i + 1;
    }
    proof {
        assert(ops@.take(i as int) =~= ops@);
    }
    t
}

/// A copy of the types `v`.
fn clone_types(v: &Vec<Type>) -> (r: Vec<Type>)
    ensures
        r@ == v@,
{
    let mut r: Vec<Type> = Vec::new();
    let mut i: usize = 0;
    while i < v.len()
        invariant
            i <= v@.len(),
            r@ == v@.take(i as int),
        decreases v@.len() - i,
    {
        r.push(v[i].clone());
        proof {
            assert(r@ =~= v@.take(i + 1));
        }
        i = i + 1;
    }
    proof {
        assert(v@.take(i as int) =~= v@);
    }
    r
}

/// Ending block `b` with a branch to block `x` that passes `ops` keeps a context well formed.
#[verifier::spinoff_prover]
proof fn lemma_branch_wf(c1: &TransformationContext, c: &TransformationContext, b: usize, x: usize, ops: Seq<ValueRef>)
    requires
        c1.wf(),
        b < num_blocks(&c1.region),
        x < num_blocks(&c1.region),
        forall|k: int| 0 <= k < ops.len() ==> valid_value(&c1.region, #[trigger] ops[k]),
        num_blocks(&c.region) == num_blocks(&c1.region),
        c.region.operands@.len() == c1.region.operands@.len(),
        c.region.terminators@.len() == c1.region.terminators@.len(),
        c.region.args@ == c1.region.args@,
        c.region.values@ == c1.region.values@,
        forall|d: int| 0 <= d < num_blocks(&c1.region) && d != b ==> #[trigger] succs(&c.region, d) == succs(&c1.region, d)
            && c.region.operands@[d]@ == c1.region.operands@[d]@ && c.region.terminators@[d] == c1.region.terminators@[d],
        succs(&c.region, b as int) == seq![x],
        c.region.operands@[b as int]@.len() == 1,
        edge_ops(&c.region, b as int, 0) == ops,
        c.region.terminators@[b as int] == Terminator::Br,
        c.entry == c1.entry,
        c.switch_value_cache@ == c1.switch_value_cache@,
        c.typed_undef_cache@ == c1.typed_undef_cache@,
        c.return_like_to_combined_exit@ == c1.return_like_to_combined_exit@,
    ensures
        c.wf(),
{
    let r = &c.region;
    let r1 = &c1.region;
    assert forall|d: int| 0 <= d < num_blocks(r) implies (#[trigger] r.operands@[d])@.len() == succs(r, d).len() by {
        if d != b {
            assert(r1.operands@[d]@.len() == succs(r1, d).len());
        }
    }
    assert forall|d: int, s: int| 0 <= d < num_blocks(r) && 0 <= s < succs(r, d).len() implies #[trigger] succs(r, d)[s] < num_blocks(r) by {
        if d != b {
            assert(succs(r, d) == succs(r1, d));
        }
    }
    assert forall|d: int, s: int, k: int|
        0 <= d < num_blocks(r) && 0 <= s < succs(r, d).len() && 0 <= k < edge_ops(r, d, s).len()
            implies valid_value(r, #[trigger] edge_ops(r, d, s)[k]) by {
        if d != b {
            assert(succs(r, d) == succs(r1, d));
            assert(edge_ops(r, d, s) == edge_ops(r1, d, s));
        }
    }
    assert forall|d: int, k: int| 0 <= d < num_blocks(r) && 0 <= k < block_args(r, d).len() implies {
        &&& valid_value(r, #[trigger] block_args(r, d)[k])
        &&& value_def(r, block_args(r, d)[k]) == (ValueDef::Arg { block: d as usize, index: k as usize })
    } by {
        assert(block_args(r, d) == block_args(r1, d));
    }
    assert forall|d: int| 0 <= d < num_blocks(r) implies arity_ok(#[trigger] r.terminators@[d], succs(r, d).len()) by {
        if d != b {
            assert(succs(r, d) == succs(r1, d));
            assert(arity_ok(r1.terminators@[d], succs(r1, d).len()));
        }
    }
    assert forall|d: int| 0 <= d < num_blocks(r) implies terminator_values_ok(r, #[trigger] r.terminators@[d]) by {
        if d != b {
            assert(terminator_values_ok(r1, r1.terminators@[d]));
        }
    }
}

/// Ending block `x`, which has no successors, with a return-like operation on values of the
/// region keeps a context well formed.
#[verifier::spinoff_prover]
proof fn lemma_return_like_wf(c1: &TransformationContext, c: &TransformationContext, x: usize, kind: ReturnKind, ops: Seq<ValueRef>)
    requires
        c1.wf(),
        x < num_blocks(&c1.region),
        succs(&c1.region, x as int).len() == 0,
        forall|k: int| 0 <= k < ops.len() ==> valid_value(&c1.region, #[trigger] ops[k]),
        c.region.cfg == c1.region.cfg,
        c.region.operands@ == c1.region.operands@,
        c.region.terminators@.len() == c1.region.terminators@.len(),
        c.region.args@ == c1.region.args@,
        c.region.values@ == c1.region.values@,
        forall|d: int| 0 <= d < num_blocks(&c1.region) && d != x ==> #[trigger] c.region.terminators@[d] == c1.region.terminators@[d],
        c.region.terminators@[x as int] matches Terminator::ReturnLike { kind: k2, operands } && k2 == kind && operands@ == ops,
        c.entry == c1.entry,
        c.switch_value_cache@ == c1.switch_value_cache@,
        c.typed_undef_cache@ == c1.typed_undef_cache@,
        c.return_like_to_combined_exit@ == c1.return_like_to_combined_exit@,
    ensures
        c.wf(),
{
    let r = &c.region;
    let r1 = &c1.region;
    assert forall|d: int| 0 <= d < num_blocks(r) implies arity_ok(#[trigger] r.terminators@[d], succs(r, d).len()) by {
        assert(succs(r, d) == succs(r1, d));
        if d != x {
            assert(arity_ok(r1.terminators@[d], succs(r1, d).len()));
        }
    }
    assert forall|d: int| 0 <= d < num_blocks(r) implies terminator_values_ok(r, #[trigger] r.terminators@[d]) by {
        if d != x {
            assert(terminator_values_ok(r1, r1.terminators@[d]));
        } else {
            match r.terminators@[d] {
                Terminator::ReturnLike { operands, .. } => {
                    assert forall|k: int| 0 <= k < operands@.len() implies valid_value(r, #[trigger] operands@[k]) by {
                        assert(operands@[k] == ops[k]);
                    }
                }
                _ => {}
            }
        }
    }
    assert forall|d: int| 0 <= d < num_blocks(r) implies (#[trigger] r.operands@[d])@.len() == succs(r, d).len() by {
        assert(r1.operands@[d]@.len() == succs(r1, d).len());
    }
    assert forall|d: int, s: int| 0 <= d < num_blocks(r) && 0 <= s < succs(r, d).len() implies #[trigger] succs(r, d)[s] < num_blocks(r) by {
        assert(succs(r, d) == succs(r1, d));
    }
    assert forall|d: int, k: int| 0 <= d < num_blocks(r) && 0 <= k < block_args(r, d).len() implies {
        &&& valid_value(r, #[trigger] block_args(r, d)[k])
        &&& value_def(r, block_args(r, d)[k]) == (ValueDef::Arg { block: d as usize, index: k as usize })
    } by {
        assert(block_args(r, d) == block_args(r1, d));
    }
    assert forall|d: int, s: int, k: int|
        0 <= d < num_blocks(r) && 0 <= s < succs(r, d).len() && 0 <= k < edge_ops(r, d, s).len()
            implies valid_value(r, #[trigger] edge_ops(r, d, s)[k]) by {
        assert(edge_ops(r, d, s) == edge_ops(r1, d, s));
    }
}

/// The combined exits of `ctx` are the blocks from `n0` on, one per entry of its map, in
/// order: each ends with the return-like operation of its entry's kind on its own arguments,
/// whose types are the entry's, and has no successors.
pub open spec fn exits_ok(ctx: &TransformationContext, n0: nat) -> bool {
    let mm = ctx.return_like_to_combined_exit@;
    let r = &ctx.region;
    &&& num_blocks(r) == n0 + mm.len()
    &&& forall|j: int| 0 <= j < mm.len() ==> {
        let x = n0 + j;
        &&& (#[trigger] mm[j]).2 == x
        &&& r.terminators@[x] matches Terminator::ReturnLike { kind, operands } && kind == mm[j].0 && operands@ == block_args(r, x)
        &&& operand_types(r, block_args(r, x)) == mm[j].1@
        &&& succs(r, x).len() == 0
    }
}

/// Block `b` of `r0` is as combining return-like exits leaves it in `ctx`: a return-like block
/// now branches, with the operation's operands, to the combined exit of its kind and operand
/// types; any other block is as it was.
pub open spec fn exit_combined(r0: &Region, ctx: &TransformationContext, b: int) -> bool {
    let r = &ctx.region;
    match r0.terminators@[b] {
        Terminator::ReturnLike { kind, operands } => {
            &&& ctx.combined_exit(kind, operand_types(r0, operands@)) is Some
            &&& r.terminators@[b] == Terminator::Br
            &&& succs(r, b) == seq![ctx.combined_exit(kind, operand_types(r0, operands@))->0]
            &&& edge_ops(r, b, 0) == operands@
        },
        _ => {
            &&& succs(r, b) == succs(r0, b)
            &&& r.operands@[b]@ == r0.operands@[b]@
            &&& r.terminators@[b] == r0.terminators@[b]
        },
    }
}

/// Adding an entry for a new kind and operand types to the combined exits keeps the others.
proof fn lemma_combined_exit_push(c0: &TransformationContext, c1: &TransformationContext, kind: ReturnKind, types: Seq<Type>, x: usize)
    requires
        c0.combined_exit(kind, types) is None,
        c1.return_like_to_combined_exit@.len() == c0.return_like_to_combined_exit@.len() + 1,
        c1.return_like_to_combined_exit@.drop_last() == c0.return_like_to_combined_exit@,
        c1.return_like_to_combined_exit@.last().0 == kind,
        c1.return_like_to_combined_exit@.last().1@ == types,
        c1.return_like_to_combined_exit@.last().2 == x,
        forall|i: int, j: int| 0 <= i < j < c1.return_like_to_combined_exit@.len() ==>
            !((#[trigger] c1.return_like_to_combined_exit@[i]).0 == (#[trigger] c1.return_like_to_combined_exit@[j]).0
                && c1.return_like_to_combined_exit@[i].1@ == c1.return_like_to_combined_exit@[j].1@),
    ensures
        c1.combined_exit(kind, types) == Some(x),
        forall|k: ReturnKind, t: Seq<Type>| c0.combined_exit(k, t) is Some ==> #[trigger] c1.combined_exit(k, t) == c0.combined_exit(k, t),
{
    let m0 = c0.return_like_to_combined_exit@;
    let m1 = c1.return_like_to_combined_exit@;
    let n = m0.len() as int;
    assert(m1[n].0 == kind && m1[n].1@ == types);
    let i = choose|i: int| 0 <= i < m1.len() && (#[trigger] m1[i]).0 == kind && m1[i].1@ == types;
    if i != n {
        assert(m1[i] == m0[i]);
        assert(exists|k: int| 0 <= k < m0.len() && (#[trigger] m0[k]).0 == kind && m0[k].1@ == types);
    }
    assert forall|k: ReturnKind, t: Seq<Type>| c0.combined_exit(k, t) is Some implies #[trigger] c1.combined_exit(k, t) == c0.combined_exit(k, t) by {
        let i0 = choose|i: int| 0 <= i < m0.len() && (#[trigger] m0[i]).0 == k && m0[i].1@ == t;
        assert(m1[i0] == m0[i0]);
        let i1 = choose|i: int| 0 <= i < m1.len() && (#[trigger] m1[i]).0 == k && m1[i].1@ == t;
        if i1 != i0 {
            if i1 < i0 {
                assert(!(m1[i1].0 == m1[i0].0 && m1[i1].1@ == m1[i0].1@));
            } else {
                assert(!(m1[i0].0 == m1[i1].0 && m1[i0].1@ == m1[i1].1@));
            }
        }
    }
}

/// No two blocks of `r` end with return-like operations of the same kind on operands of the
/// same types.
pub open spec fn single_exit_per_kind(r: &Region) -> bool {
    forall|b1: int, b2: int| 0 <= b1 < num_blocks(r) && 0 <= b2 < num_blocks(r) ==> {
        (#[trigger] r.terminators@[b1] matches Terminator::ReturnLike { kind: k1, operands: o1 } &&
        #[trigger] r.terminators@[b2] matches Terminator::ReturnLike { kind: k2, operands: o2 } &&
        k1 == k2 && operand_types(r, o1@) == operand_types(r, o2@)) ==> b1 == b2
    }
}

/// `c` is `c0` after combining the return-like exit of block `b`: if `b` is the combined exit
/// of its kind and operand types already, nothing changes; if another block is, `b` branches
/// to it with the operation's operands; else `b` branches so to a new block with one argument
/// per operand, which ends with the operation on those arguments and becomes the combined
/// exit. Nothing else changes but that the region's values may grow.
pub open spec fn exit_combine_result(c0: &TransformationContext, c: &TransformationContext, b: usize) -> bool {
    let r0 = &c0.region;
    let r = &c.region;
    let kind = r0.terminators@[b as int]->ReturnLike_kind;
    let ops = r0.terminators@[b as int]->ReturnLike_operands@;
    let types = operand_types(r0, ops);
    match c0.combined_exit(kind, types) {
        Some(x) => if x == b {
            *c == *c0
        } else {
            &&& num_blocks(r) == num_blocks(r0)
            &&& r.terminators@[b as int] == Terminator::Br
            &&& succs(r, b as int) == seq![x]
            &&& edge_ops(r, b as int, 0) == ops
            &&& c.return_like_to_combined_exit@ == c0.return_like_to_combined_exit@
            &&& forall|d: int| 0 <= d < num_blocks(r0) && d != b ==> #[trigger] succs(r, d) == succs(r0, d)
                && r.operands@[d]@ == r0.operands@[d]@ && r.terminators@[d] == r0.terminators@[d]
            &&& forall|d: int| 0 <= d < num_blocks(r0) ==> #[trigger] block_args(r, d) == block_args(r0, d)
            &&& r.values@.len() >= r0.values@.len()
            &&& forall|i: int| 0 <= i < r0.values@.len() ==> #[trigger] r.values@[i] == r0.values@[i]
        },
        None => {
            let x = num_blocks(r0) as usize;
            &&& num_blocks(r) == num_blocks(r0) + 1
            &&& block_args(r, x as int) == value_range(r0.values@.len(), types.len())
            &&& operand_types(r, block_args(r, x as int)) == types
            &&& succs(r, x as int).len() == 0
            &&& r.terminators@[x as int] matches Terminator::ReturnLike { kind: k2, operands } && k2 == kind && operands@ == block_args(r, x as int)
            &&& r.terminators@[b as int] == Terminator::Br
            &&& succs(r, b as int) == seq![x]
            &&& edge_ops(r, b as int, 0) == ops
            &&& c.return_like_to_combined_exit@.len() == c0.return_like_to_combined_exit@.len() + 1
            &&& c.return_like_to_combined_exit@.drop_last() == c0.return_like_to_combined_exit@
            &&& c.return_like_to_combined_exit@.last().0 == kind
            &&& c.return_like_to_combined_exit@.last().1@ == types
            &&& c.return_like_to_combined_exit@.last().2 == x
            &&& forall|d: int| 0 <= d < num_blocks(r0) && d != b ==> #[trigger] succs(r, d) == succs(r0, d)
                && r.operands@[d]@ == r0.operands@[d]@ && r.terminators@[d] == r0.terminators@[d]
            &&& forall|d: int| 0 <= d < num_blocks(r0) ==> #[trigger] block_args(r, d) == block_args(r0, d)
            &&& r.values@.len() >= r0.values@.len()
            &&& forall|i: int| 0 <= i < r0.values@.len() ==> #[trigger] r.values@[i] == r0.values@[i]
        },
    }
}

/// The first target of a multiplexer's mapping is the first block it was made for, with its
/// arguments first.
proof fn lemma_arg_mapping_first(r: &Region, blocks: Seq<usize>)
    requires
        blocks.len() >= 1,
    ensures
        arg_mapping(r, blocks).len() >= 1,
        arg_mapping(r, blocks)[0] == (blocks[0], 0usize),
    decreases blocks.len(),
{
    if blocks.len() == 1 {
        assert(blocks.drop_last().len() == 0);
        assert(!mapping_keys(arg_mapping(r, blocks.drop_last())).contains(blocks.last()));
    } else {
        lemma_arg_mapping_first(r, blocks.drop_last());
        assert(blocks.drop_last()[0] == blocks[0]);
    }
}

/// The properties of a loop given a single exiting latch: the latch holds the only back edge
/// and the only exit edge, `condition` is the flag it branches on, and `exit_block` is the only
/// successor of the loop.
#[derive(Clone, Copy, Debug)]
pub struct StructuredLoopProperties {
    pub latch: usize,
    pub condition: ValueRef,
    pub exit_block: usize,
}

/// The latch of a loop: block `latch` ends with a branch on its last argument, to `header`
/// with its first arguments, as many as `header` has, else to `exit_block` with none.
pub open spec fn latch_branch(r: &Region, latch: usize, header: usize, exit_block: usize) -> bool {
    let args = block_args(r, latch as int);
    &&& args.len() >= 1
    &&& r.terminators@[latch as int] == (Terminator::CondBr { condition: args.last() })
    &&& succs(r, latch as int) == seq![header, exit_block]
    &&& edge_ops(r, latch as int, 0) == args.subrange(0, block_args(r, header as int).len() as int)
    &&& edge_ops(r, latch as int, 1) == Seq::<ValueRef>::empty()
}

/// From the latch of a loop, an edge redirected with the flag `1` goes on to the loop header
/// with its original operands, and one redirected with the flag `0` goes to the exit block.
proof fn lemma_latch_hop(r: &Region, mux: &EdgeMultiplexer, header: usize, exit_block: usize, env: Seq<ValueRef>, pos: int, flag: ValueRef, orig: Seq<ValueRef>)
    requires
        multiplexer_facts(r, mux),
        latch_branch(r, mux.multiplexer_block, header, exit_block),
        mux.block_arg_mapping@[0] == (header, 0usize),
        redirected_env(r, mux, env, pos, seq![flag], orig),
        const_value(r, flag) is Some,
        const_value(r, flag)->0 != 0 ==> pos == 0,
    ensures
        const_value(r, flag)->0 != 0 ==> hop(r, mux.multiplexer_block, env, mux.multiplexer_block as int) == Some((header, orig)),
        const_value(r, flag)->0 == 0 ==> hop(r, mux.multiplexer_block, env, mux.multiplexer_block as int) == Some((exit_block, Seq::<ValueRef>::empty())),
{
    let mb = mux.multiplexer_block;
    let args = block_args(r, mb as int);
    let last = (args.len() - 1) as int;
    assert(valid_value(r, args[last]) && value_def(r, args[last]) == (ValueDef::Arg { block: mb, index: last as usize }));
    assert(bind(r, mb, env, args.last()) == env[last]);
    assert(redirected_operand_ok(r, mux, pos, seq![flag], orig, last, env[last]));
    lemma_mapped_end_mono(r, mux.block_arg_mapping@, pos + 1);
    assert(mux.block_arg_mapping@.take(pos + 1).last() == mux.block_arg_mapping@[pos]);
    assert(env[last] == flag);
    if const_value(r, flag)->0 != 0 {
        lemma_forwarded_bound(r, mux, env, pos, seq![flag], orig);
        assert(forwarded_args(r, mb, header, 0) == args.subrange(0, block_args(r, header as int).len() as int));
    } else {
        let e = edge_ops(r, mb as int, 1);
        assert(e.map_values(|v: ValueRef| bind(r, mb, env, v)) =~= Seq::<ValueRef>::empty());
    }
}

/// Ending block `b`, which has neither successors nor terminator yet, with the terminator `t`,
/// the successors `targets` and the operands `ops` keeps a context well formed, when they fit.
proof fn lemma_set_terminator_wf(c1: &TransformationContext, c: &TransformationContext, b: usize, t: Terminator, targets: Seq<usize>, ops: Seq<Seq<ValueRef>>)
    requires
        c1.wf(),
        b < num_blocks(&c1.region),
        forall|i: int| 0 <= i < targets.len() ==> #[trigger] targets[i] < num_blocks(&c1.region),
        ops.len() == targets.len(),
        forall|i: int, k: int| 0 <= i < ops.len() && 0 <= k < ops[i].len() ==> valid_value(&c1.region, #[trigger] ops[i][k]),
        arity_ok(t, targets.len()),
        terminator_values_ok(&c1.region, t),
        num_blocks(&c.region) == num_blocks(&c1.region),
        c.region.operands@.len() == c1.region.operands@.len(),
        c.region.terminators@.len() == c1.region.terminators@.len(),
        c.region.args@ == c1.region.args@,
        c.region.values@ == c1.region.values@,
        forall|d: int| 0 <= d < num_blocks(&c1.region) && d != b ==> #[trigger] succs(&c.region, d) == succs(&c1.region, d)
            && c.region.operands@[d]@ == c1.region.operands@[d]@ && c.region.terminators@[d] == c1.region.terminators@[d],
        succs(&c.region, b as int) == targets,
        c.region.operands@[b as int]@.len() == ops.len(),
        forall|i: int| 0 <= i < ops.len() ==> #[trigger] edge_ops(&c.region, b as int, i) == ops[i],
        c.region.terminators@[b as int] == t,
        c.entry == c1.entry,
        c.switch_value_cache@ == c1.switch_value_cache@,
        c.typed_undef_cache@ == c1.typed_undef_cache@,
        c.return_like_to_combined_exit@ == c1.return_like_to_combined_exit@,
    ensures
        c.wf(),
{
    let r = &c.region;
    let r1 = &c1.region;
    assert forall|d: int| 0 <= d < num_blocks(r) implies (#[trigger] r.operands@[d])@.len() == succs(r, d).len() by {
        if d != b {
            assert(r1.operands@[d]@.len() == succs(r1, d).len());
        }
    }
    assert forall|d: int, s: int| 0 <= d < num_blocks(r) && 0 <= s < succs(r, d).len() implies #[trigger] succs(r, d)[s] < num_blocks(r) by {
        if d != b {
            assert(succs(r, d) == succs(r1, d));
        } else {
            assert(targets[s] < num_blocks(r1));
        }
    }
    assert forall|d: int, s: int, k: int|
        0 <= d < num_blocks(r) && 0 <= s < succs(r, d).len() && 0 <= k < edge_ops(r, d, s).len()
            implies valid_value(r, #[trigger] edge_ops(r, d, s)[k]) by {
        if d != b {
            assert(succs(r, d) == succs(r1, d));
            assert(edge_ops(r, d, s) == edge_ops(r1, d, s));
        } else {
            assert(edge_ops(r, d, s) == ops[s]);
            assert(valid_value(r1, ops[s][k]));
        }
    }
    assert forall|d: int, k: int| 0 <= d < num_blocks(r) && 0 <= k < block_args(r, d).len() implies {
        &&& valid_value(r, #[trigger] block_args(r, d)[k])
        &&& value_def(r, block_args(r, d)[k]) == (ValueDef::Arg { block: d as usize, index: k as usize })
    } by {
        assert(block_args(r, d) == block_args(r1, d));
    }
    assert forall|d: int| 0 <= d < num_blocks(r) implies arity_ok(#[trigger] r.terminators@[d], succs(r, d).len()) by {
        if d != b {
            assert(succs(r, d) == succs(r1, d));
            assert(arity_ok(r1.terminators@[d], succs(r1, d).len()));
        }
    }
    assert forall|d: int| 0 <= d < num_blocks(r) implies terminator_values_ok(r, #[trigger] r.terminators@[d]) by {
        if d != b {
            assert(terminator_values_ok(r1, r1.terminators@[d]));
        } else {
            match t {
                Terminator::ReturnLike { operands, .. } => {
                    assert forall|k: int| 0 <= k < operands@.len() implies valid_value(r, #[trigger] operands@[k]) by {
                        assert(valid_value(r1, operands@[k]));
                    }
                }
                _ => {}
            }
        }
    }
}

/// The extra operands of the edges of a loop redirected to its latch: the flag each passed.
pub open spec fn flag_extras(flags: Seq<ValueRef>) -> Seq<Seq<ValueRef>> {
    Seq::new(flags.len(), |k: int| seq![flags[k]])
}

/// Redirecting one more edge of a loop to its latch, with the flag `v`, keeps the earlier ones
/// redirected and the others as they were.
proof fn lemma_latch_step(r0: &Region, rb: &Region, r: &Region, mux: &EdgeMultiplexer, edges: Seq<Edge>, flags: Seq<ValueRef>, v: ValueRef)
    requires
        flags.len() < edges.len(),
        forall|k: int| 0 <= k < edges.len() ==> is_edge(&r0.cfg, #[trigger] edges[k]),
        forall|a: int, c: int| 0 <= a < c < edges.len() ==> #[trigger] edges[a] != #[trigger] edges[c],
        mux.multiplexer_block >= num_blocks(r0),
        num_blocks(rb) > mux.multiplexer_block,
        forall|a: int| 0 <= a < block_args(rb, mux.multiplexer_block as int).len() ==> valid_value(rb, #[trigger] block_args(rb, mux.multiplexer_block as int)[a]),
        entries_redirected(r0, rb, mux, edges, flag_extras(flags), flags.len() as int),
        others_kept(r0, rb, edges, flags.len() as int),
        edge_redirected(rb, r, mux, edges[flags.len() as int], seq![v]),
    ensures
        entries_redirected(r0, r, mux, edges, flag_extras(flags.push(v)), flags.len() + 1int),
        others_kept(r0, r, edges, flags.len() + 1int),
        block_args(r, mux.multiplexer_block as int) == block_args(rb, mux.multiplexer_block as int),
{
    let j = flags.len() as int;
    let ex = flag_extras(flags.push(v));
    assert forall|k: int| 0 <= k < j implies #[trigger] ex[k] == flag_extras(flags)[k] by {
        assert(flags.push(v)[k] == flags[k]);
    }
    assert(ex[j] == seq![v]);
    assert(entries_redirected(r0, rb, mux, edges, ex, j)) by {
        assert forall|k: int| 0 <= k < j implies {
            let e = #[trigger] edges[k];
            let env = edge_ops(rb, e.from_block as int, e.successor_index as int);
            &&& target(&rb.cfg, e) == mux.multiplexer_block
            &&& env.len() == block_args(rb, mux.multiplexer_block as int).len()
            &&& forall|x: int| 0 <= x < env.len() ==> redirected_operand_ok(rb, mux, key_position(mux.block_arg_mapping@, target(&r0.cfg, e)), ex[k], edge_ops(r0, e.from_block as int, e.successor_index as int), x, #[trigger] env[x])
        } by {
            assert(ex[k] == flag_extras(flags)[k]);
        }
    }
    lemma_redirect_step(r0, rb, r, mux, edges, ex, j);
}

/// Redirected edges stay so while the blocks they leave keep their successors and operands,
/// the multiplexer keeps its arguments and the region's values only grow.
proof fn lemma_entries_kept(r0: &Region, r1: &Region, r2: &Region, mux: &EdgeMultiplexer, edges: Seq<Edge>, extras: Seq<Seq<ValueRef>>, j: int)
    requires
        entries_redirected(r0, r1, mux, edges, extras, j),
        0 <= j <= edges.len(),
        forall|k: int| 0 <= k < edges.len() ==> is_edge(&r0.cfg, #[trigger] edges[k]),
        forall|b: int| 0 <= b < num_blocks(r0) ==> #[trigger] succs(r2, b) == succs(r1, b) && r2.operands@[b]@ == r1.operands@[b]@,
        block_args(r2, mux.multiplexer_block as int) == block_args(r1, mux.multiplexer_block as int),
        forall|a: int| 0 <= a < block_args(r1, mux.multiplexer_block as int).len() ==> valid_value(r1, #[trigger] block_args(r1, mux.multiplexer_block as int)[a]),
        r2.values@.len() >= r1.values@.len(),
        forall|x: int| 0 <= x < r1.values@.len() ==> #[trigger] r2.values@[x] == r1.values@[x],
    ensures
        entries_redirected(r0, r2, mux, edges, extras, j),
{
    let m = mux.block_arg_mapping@;
    assert forall|k: int| 0 <= k < j implies {
        let e = #[trigger] edges[k];
        let env = edge_ops(r2, e.from_block as int, e.successor_index as int);
        &&& target(&r2.cfg, e) == mux.multiplexer_block
        &&& env.len() == block_args(r2, mux.multiplexer_block as int).len()
        &&& forall|x: int| 0 <= x < env.len() ==> redirected_operand_ok(r2, mux, key_position(m, target(&r0.cfg, e)), extras[k], edge_ops(r0, e.from_block as int, e.successor_index as int), x, #[trigger] env[x])
    } by {
        let e = edges[k];
        let f = e.from_block as int;
        assert(is_edge(&r0.cfg, e));
        assert(succs(r2, f) == succs(r1, f));
        assert(r2.operands@[f]@ == r1.operands@[f]@);
        let env = edge_ops(r1, f, e.successor_index as int);
        assert(edge_ops(r2, f, e.successor_index as int) == env);
        assert forall|x: int| 0 <= x < env.len() implies redirected_operand_ok(r2, mux, key_position(m, target(&r0.cfg, e)), extras[k], edge_ops(r0, f, e.successor_index as int), x, #[trigger] env[x]) by {
            lemma_redirected_ok_kept(r1, r2, mux, key_position(m, target(&r0.cfg, e)), extras[k], edge_ops(r0, f, e.successor_index as int), x, env[x]);
        }
    }
}

/// Where the edges of a loop are redirected to its latch, each back edge goes on from the latch
/// to the loop header with its original operands, and each exit edge goes from the latch to the
/// exit block and on from there to its original target with its original operands.
#[verifier::spinoff_prover]
proof fn lemma_latch_laws(r0: &Region, r: &Region, mux: &EdgeMultiplexer, back_edges: Seq<Edge>, exit_edges: Seq<Edge>, flags: Seq<ValueRef>, header: usize, exit_block: usize)
    requires
        multiplexer_facts(r, mux),
        latch_branch(r, mux.multiplexer_block, header, exit_block),
        mux.block_arg_mapping@.len() >= 1,
        mux.block_arg_mapping@[0] == (header, 0usize),
        mux.block_arg_mapping@.len() <= u32::MAX,
        forall|i: int, j: int| 0 <= i < j < mux.block_arg_mapping@.len() ==> (#[trigger] mux.block_arg_mapping@[i]).0 != (#[trigger] mux.block_arg_mapping@[j]).0,
        flags.len() == back_edges.len() + exit_edges.len(),
        entries_redirected(r0, r, mux, back_edges + exit_edges, flag_extras(flags), flags.len() as int),
        forall|k: int| 0 <= k < flags.len() ==> const_value(r, #[trigger] flags[k]) == Some(if k < back_edges.len() { 1u32 } else { 0u32 }),
        forall|k: int| 0 <= k < back_edges.len() + exit_edges.len() ==> mapping_keys(mux.block_arg_mapping@).contains(target(&r0.cfg, #[trigger] (back_edges + exit_edges)[k])),
        forall|k: int| 0 <= k < back_edges.len() ==> target(&r0.cfg, #[trigger] back_edges[k]) == header,
        forall|k: int| 0 <= k < exit_edges.len() ==> target(&r0.cfg, #[trigger] exit_edges[k]) != header,
        forall|b: int| 0 <= b < num_blocks(r0) ==> #[trigger] block_args(r, b) == block_args(r0, b),
        forall|k: int| 0 <= k < back_edges.len() + exit_edges.len() ==> target(&r0.cfg, #[trigger] (back_edges + exit_edges)[k]) < num_blocks(r0),
        block_args(r, mux.multiplexer_block as int).len() == mapped_end(r, mux.block_arg_mapping@) + (if mux.discriminator is Some { 1int } else { 0int }) + 1,
        exit_edges.len() > 0 ==> multiplexer_switch(r, mux, exit_block, seq![header]),
    ensures
        forall|k: int| 0 <= k < back_edges.len() ==> {
            let e = #[trigger] back_edges[k];
            let orig = edge_ops(r0, e.from_block as int, e.successor_index as int);
            orig.len() == block_args(r0, header as int).len()
                ==> hop(r, mux.multiplexer_block, edge_ops(r, e.from_block as int, e.successor_index as int), mux.multiplexer_block as int) == Some((header, orig))
        },
        forall|k: int| 0 <= k < exit_edges.len() ==> {
            let e = #[trigger] exit_edges[k];
            let orig = edge_ops(r0, e.from_block as int, e.successor_index as int);
            let env = edge_ops(r, e.from_block as int, e.successor_index as int);
            orig.len() == block_args(r0, target(&r0.cfg, e) as int).len() ==> {
                &&& hop(r, mux.multiplexer_block, env, mux.multiplexer_block as int) == Some((exit_block, Seq::<ValueRef>::empty()))
                &&& hop(r, mux.multiplexer_block, env, exit_block as int) == Some((target(&r0.cfg, e), orig))
            }
        },
{
    let all = back_edges + exit_edges;
    let m = mux.block_arg_mapping@;
    let nb = back_edges.len();
    assert forall|k: int| 0 <= k < back_edges.len() implies {
        let e = #[trigger] back_edges[k];
        let orig = edge_ops(r0, e.from_block as int, e.successor_index as int);
        orig.len() == block_args(r0, header as int).len()
            ==> hop(r, mux.multiplexer_block, edge_ops(r, e.from_block as int, e.successor_index as int), mux.multiplexer_block as int) == Some((header, orig))
    } by {
        let e = back_edges[k];
        let orig = edge_ops(r0, e.from_block as int, e.successor_index as int);
        assert(all[k] == e);
        if orig.len() == block_args(r0, header as int).len() {
            let pos = key_position(m, target(&r0.cfg, e));
            assert(mapping_keys(m).contains(target(&r0.cfg, all[k])));
            assert(pos == 0) by {
                let i0 = choose|i: int| 0 <= i < mapping_keys(m).len() && mapping_keys(m)[i] == header;
                assert(m[i0].0 == header);
                if pos != 0 {
                    assert(m[pos].0 == header);
                }
            }
            let env = edge_ops(r, e.from_block as int, e.successor_index as int);
            assert(flag_extras(flags)[k] == seq![flags[k]]);
            assert(block_args(r, header as int) == block_args(r0, header as int));
            assert(redirected_env(r, mux, env, 0, seq![flags[k]], orig));
            lemma_latch_hop(r, mux, header, exit_block, env, 0, flags[k], orig);
        }
    }
    assert forall|k: int| 0 <= k < exit_edges.len() implies {
        let e = #[trigger] exit_edges[k];
        let orig = edge_ops(r0, e.from_block as int, e.successor_index as int);
        let env = edge_ops(r, e.from_block as int, e.successor_index as int);
        orig.len() == block_args(r0, target(&r0.cfg, e) as int).len() ==> {
            &&& hop(r, mux.multiplexer_block, env, mux.multiplexer_block as int) == Some((exit_block, Seq::<ValueRef>::empty()))
            &&& hop(r, mux.multiplexer_block, env, exit_block as int) == Some((target(&r0.cfg, e), orig))
        }
    } by {
        let e = exit_edges[k];
        let orig = edge_ops(r0, e.from_block as int, e.successor_index as int);
        let env = edge_ops(r, e.from_block as int, e.successor_index as int);
        let t = target(&r0.cfg, e);
        assert(all[nb + k] == e);
        if orig.len() == block_args(r0, t as int).len() {
            assert(mapping_keys(m).contains(target(&r0.cfg, all[nb + k])));
            let i0 = choose|i: int| 0 <= i < mapping_keys(m).len() && mapping_keys(m)[i] == t;
            assert(m[i0].0 == t);
            let pos = key_position(m, t);
            assert(0 <= pos < m.len() && m[pos].0 == t);
            assert(pos != 0);
            assert(flag_extras(flags)[nb + k] == seq![flags[nb + k]]);
            assert(t < num_blocks(r0));
            assert(block_args(r, t as int) == block_args(r0, t as int));
            assert(redirected_env(r, mux, env, pos, seq![flags[nb + k]], orig));
            lemma_latch_hop(r, mux, header, exit_block, env, pos, flags[nb + k], orig);
            assert(!seq![header].contains(m[pos].0));
            lemma_switch_forwards(r, mux, exit_block, seq![header], env, pos, seq![flags[nb + k]], orig);
        }
    }
}

/// `r` is `r0` with block `at` ended by the switch that passes on to the targets of the
/// multiplexer `mux` but `excluded`, as `create_switch` makes it; nothing else changes but that
/// the region's values may grow.
pub open spec fn switch_created(r0: &Region, r: &Region, mux: &EdgeMultiplexer, at: usize, excluded: Seq<usize>) -> bool {
    let e = switch_entries(mux.block_arg_mapping@, excluded);
    let l = e.len() - 1;
    let mb = mux.multiplexer_block;
    &&& num_blocks(r) == num_blocks(r0)
    &&& r.terminators@[at as int] matches Terminator::Switch { selector, case_values } && {
        &&& case_values@ == e.take(l).map_values(|x: (int, usize, usize)| x.0 as u32)
        &&& if mux.discriminator is None || l == 0 {
            valid_value(r, selector) && value_def(r, selector) == ValueDef::Constant(ConstantDef::Switch(0))
        } else {
            selector == mux.discriminator->0
        }
    }
    &&& succs(r, at as int) == seq![e[l].1] + e.take(l).map_values(|x: (int, usize, usize)| x.1)
    &&& edge_ops(r, at as int, 0) == forwarded_args(r0, mb, e[l].1, e[l].2)
    &&& forall|i: int| 0 <= i < l ==> #[trigger] edge_ops(r, at as int, i + 1) == forwarded_args(r0, mb, e[i].1, e[i].2)
    &&& forall|b: int| 0 <= b < num_blocks(r0) && b != at ==> #[trigger] succs(r, b) == succs(r0, b) && r.operands@[b]@ == r0.operands@[b]@ && r.terminators@[b] == r0.terminators@[b]
    &&& forall|b: int| 0 <= b < num_blocks(r0) ==> #[trigger] block_args(r, b) == block_args(r0, b)
    &&& r.values@.len() >= r0.values@.len()
    &&& forall|i: int| 0 <= i < r0.values@.len() ==> #[trigger] r.values@[i] == r0.values@[i]
}

/// What giving a loop a single exiting latch promises, from the facts its steps leave: the
/// edges redirected to the latch, the latch's branch, and the exit block's switch or, for a
/// loop with no exit edge, its combined unreachable exit.
#[verifier::spinoff_prover]
#[verifier::rlimit(100)]
proof fn lemma_latch_final(
    c0: &TransformationContext,
    cm: &TransformationContext,
    rl: &Region,
    cx: &TransformationContext,
    c: &TransformationContext,
    mux: &EdgeMultiplexer,
    back_edges: Seq<Edge>,
    exit_edges: Seq<Edge>,
    flags: Seq<ValueRef>,
    successors: Seq<usize>,
    loop_header: usize,
    exit_block: usize,
    condition: ValueRef,
)
    requires
        c0.wf(),
        cm.wf(),
        c.wf(),
        mux.valid(cm),
        mux.multiplexer_block == num_blocks(&c0.region),
        exit_block == num_blocks(&c0.region) + 1,
        num_blocks(&cm.region) == num_blocks(&c0.region) + 2,
        mux.block_arg_mapping@.len() >= 1,
        mux.block_arg_mapping@[0] == (loop_header, 0usize),
        mux.block_arg_mapping@.len() <= u32::MAX,
        successors.len() == back_edges.len() + exit_edges.len(),
        forall|k: int| 0 <= k < successors.len() ==> #[trigger] successors[k] == target(&c0.region.cfg, (back_edges + exit_edges)[k]),
        forall|k: int| 0 <= k < successors.len() ==> mapping_keys(mux.block_arg_mapping@).contains(#[trigger] successors[k]),
        forall|k: int| 0 <= k < back_edges.len() + exit_edges.len() ==> is_edge(&c0.region.cfg, #[trigger] (back_edges + exit_edges)[k]),
        back_edges.len() >= 1,
        loop_header == target(&c0.region.cfg, back_edges[0]),
        forall|k: int| 0 <= k < back_edges.len() ==> target(&c0.region.cfg, #[trigger] back_edges[k]) == loop_header,
        forall|k: int| 0 <= k < exit_edges.len() ==> target(&c0.region.cfg, #[trigger] exit_edges[k]) != loop_header,
        block_args(&cm.region, mux.multiplexer_block as int).len() == mapped_end(&cm.region, mux.block_arg_mapping@) + (if mux.discriminator is Some { 1int } else { 0int }) + 1,
        flags.len() == back_edges.len() + exit_edges.len(),
        forall|k: int| 0 <= k < flags.len() ==> const_value(&cm.region, #[trigger] flags[k]) == Some(if k < back_edges.len() { 1u32 } else { 0u32 }),
        entries_redirected(&c0.region, &cm.region, mux, back_edges + exit_edges, flag_extras(flags), flags.len() as int),
        others_kept(&c0.region, &cm.region, back_edges + exit_edges, flags.len() as int),
        latch_branch(rl, mux.multiplexer_block, loop_header, exit_block),
        condition == block_args(rl, mux.multiplexer_block as int).last(),
        num_blocks(rl) == num_blocks(&cm.region),
        rl.args@ == cm.region.args@,
        rl.values@ == cm.region.values@,
        forall|b: int| 0 <= b < num_blocks(rl) && b != mux.multiplexer_block ==> #[trigger] succs(rl, b) == succs(&cm.region, b)
            && rl.operands@[b]@ == cm.region.operands@[b]@ && rl.terminators@[b] == cm.region.terminators@[b],
        exit_edges.len() == 0 ==> {
            &&& cx.wf()
            &&& cx.region.cfg == rl.cfg
            &&& cx.region.operands@ == rl.operands@
            &&& cx.region.args@ == rl.args@
            &&& cx.region.values@ == rl.values@
            &&& cx.region.terminators@.len() == rl.terminators@.len()
            &&& forall|b: int| 0 <= b < num_blocks(rl) && b != exit_block ==> #[trigger] cx.region.terminators@[b] == rl.terminators@[b]
            &&& cx.region.terminators@[exit_block as int] matches Terminator::ReturnLike { kind, operands } && kind == ReturnKind::Unreachable && operands@.len() == 0
            &&& cx.return_like_to_combined_exit@ == c0.return_like_to_combined_exit@
            &&& exit_combine_result(cx, c, exit_block)
        },
        exit_edges.len() > 0 ==> switch_created(rl, &c.region, mux, exit_block, seq![loop_header]) && mux.valid(c),
        block_args(&c.region, mux.multiplexer_block as int).len() <= usize::MAX,
        cm.region.values@.len() >= c0.region.values@.len(),
        forall|i: int| 0 <= i < c0.region.values@.len() ==> #[trigger] cm.region.values@[i] == c0.region.values@[i],
    ensures
        latch_branch(&c.region, mux.multiplexer_block, loop_header, exit_block),
        condition == block_args(&c.region, mux.multiplexer_block as int).last(),
        forall|k: int| 0 <= k < back_edges.len() + exit_edges.len() ==> target(&c.region.cfg, #[trigger] loop_edge(back_edges, exit_edges, k)) == mux.multiplexer_block,
        forall|k: int| 0 <= k < back_edges.len() ==> {
            let e = #[trigger] back_edges[k];
            let r0 = &c0.region;
            let orig = edge_ops(r0, e.from_block as int, e.successor_index as int);
            orig.len() == block_args(r0, target(&r0.cfg, e) as int).len()
                ==> hop(&c.region, mux.multiplexer_block, edge_ops(&c.region, e.from_block as int, e.successor_index as int), mux.multiplexer_block as int)
                    == Some((target(&r0.cfg, e), orig))
        },
        forall|k: int| 0 <= k < exit_edges.len() ==> {
            let e = #[trigger] exit_edges[k];
            let r0 = &c0.region;
            let orig = edge_ops(r0, e.from_block as int, e.successor_index as int);
            let env = edge_ops(&c.region, e.from_block as int, e.successor_index as int);
            orig.len() == block_args(r0, target(&r0.cfg, e) as int).len() ==> {
                &&& hop(&c.region, mux.multiplexer_block, env, mux.multiplexer_block as int) == Some((exit_block, Seq::<ValueRef>::empty()))
                &&& hop(&c.region, mux.multiplexer_block, env, exit_block as int) == Some((target(&r0.cfg, e), orig))
            }
        },
        exit_edges.len() == 0 ==> (c.combined_exit(ReturnKind::Unreachable, Seq::empty()) matches Some(u)
            && c.region.terminators@[exit_block as int] == Terminator::Br
            && succs(&c.region, exit_block as int) == seq![u]
            && edge_ops(&c.region, exit_block as int, 0) == Seq::<ValueRef>::empty()),
        forall|b: int, s: int| 0 <= b < num_blocks(&c0.region) && 0 <= s < succs(&c0.region, b).len() && !edge_in(back_edges + exit_edges, b, s)
            ==> #[trigger] succs(&c.region, b)[s] == succs(&c0.region, b)[s] && edge_ops(&c.region, b, s) == edge_ops(&c0.region, b, s),
        forall|b: int| 0 <= b < num_blocks(&c0.region) ==> #[trigger] block_args(&c.region, b) == block_args(&c0.region, b),
        forall|b: int| 0 <= b < num_blocks(&c0.region) ==> #[trigger] succs(&c.region, b).len() == succs(&c0.region, b).len()
            && c.region.terminators@[b] == c0.region.terminators@[b],
        c.region.values@.len() >= c0.region.values@.len(),
        forall|i: int| 0 <= i < c0.region.values@.len() ==> #[trigger] c.region.values@[i] == c0.region.values@[i],
        num_blocks(&c.region) >= num_blocks(&c0.region) + 2,
{
    let r0 = &c0.region;
    let rm = &cm.region;
    let r = &c.region;
    let all = back_edges + exit_edges;
    let n0 = num_blocks(r0);
    let latch = mux.multiplexer_block;
    let m = mux.block_arg_mapping@;
    let nb = back_edges.len();
    let ne = exit_edges.len();
    // What the exit part leaves of the blocks other than the exit block.
    assert(forall|b: int| 0 <= b < n0 + 2 && b != exit_block ==> #[trigger] succs(r, b) == succs(rl, b)
        && r.operands@[b]@ == rl.operands@[b]@ && r.terminators@[b] == rl.terminators@[b]) by {
        if ne == 0 {
            let kind = cx.region.terminators@[exit_block as int]->ReturnLike_kind;
            let types = operand_types(&cx.region, cx.region.terminators@[exit_block as int]->ReturnLike_operands@);
            if cx.combined_exit(kind, types) is Some {
                let x = cx.return_like_to_combined_exit@;
                let i = choose|i: int| 0 <= i < x.len() && (#[trigger] x[i]).0 == kind && x[i].1@ == types;
                assert(c0.return_like_to_combined_exit@[i].2 < n0);
            }
            assert forall|b: int| 0 <= b < n0 + 2 && b != exit_block implies #[trigger] succs(r, b) == succs(rl, b)
                && r.operands@[b]@ == rl.operands@[b]@ && r.terminators@[b] == rl.terminators@[b] by {
                assert(succs(&cx.region, b) == succs(rl, b));
                assert(cx.region.terminators@[b] == rl.terminators@[b]);
            }
        }
    }
    assert(forall|b: int| 0 <= b < n0 + 2 ==> #[trigger] block_args(r, b) == block_args(rl, b)) by {
        if ne == 0 {
            let kind = cx.region.terminators@[exit_block as int]->ReturnLike_kind;
            let types = operand_types(&cx.region, cx.region.terminators@[exit_block as int]->ReturnLike_operands@);
            if cx.combined_exit(kind, types) is Some {
                let x = cx.return_like_to_combined_exit@;
                let i = choose|i: int| 0 <= i < x.len() && (#[trigger] x[i]).0 == kind && x[i].1@ == types;
                assert(c0.return_like_to_combined_exit@[i].2 < n0);
            }
            assert forall|b: int| 0 <= b < n0 + 2 implies #[trigger] block_args(r, b) == block_args(rl, b) by {
                assert(block_args(&cx.region, b) == block_args(rl, b));
            }
        }
    }
    assert(r.values@.len() >= rl.values@.len() && forall|x: int| 0 <= x < rl.values@.len() ==> #[trigger] r.values@[x] == rl.values@[x]) by {
        if ne == 0 {
            let kind = cx.region.terminators@[exit_block as int]->ReturnLike_kind;
            let types = operand_types(&cx.region, cx.region.terminators@[exit_block as int]->ReturnLike_operands@);
            if cx.combined_exit(kind, types) is Some {
                let x = cx.return_like_to_combined_exit@;
                let i = choose|i: int| 0 <= i < x.len() && (#[trigger] x[i]).0 == kind && x[i].1@ == types;
                assert(c0.return_like_to_combined_exit@[i].2 < n0);
            }
        }
    }
    assert forall|b: int| 0 <= b < n0 implies #[trigger] succs(r, b) == succs(rm, b) && r.operands@[b]@ == rm.operands@[b]@ by {
        assert(succs(rl, b) == succs(rm, b));
    }
    assert(block_args(r, latch as int) == block_args(rm, latch as int));
    assert forall|x: int| 0 <= x < rm.values@.len() implies #[trigger] r.values@[x] == rm.values@[x] by {
        assert(rl.values@[x] == rm.values@[x]);
    }
    assert forall|k: int| 0 <= k < all.len() implies is_edge(&r0.cfg, #[trigger] all[k]) by {
    }
    lemma_entries_kept(r0, rm, r, mux, all, flag_extras(flags), flags.len() as int);
    assert(mux.valid(c)) by {
        if ne == 0 {
            assert forall|b: int| 0 <= b < num_blocks(rm) implies #[trigger] block_args(r, b) == block_args(rm, b) by {
                assert(block_args(rl, b) == block_args(rm, b));
            }
            lemma_valid_kept(mux, cm, c);
        }
    }
    assert(latch_branch(r, latch, loop_header, exit_block)) by {
        assert(succs(r, latch as int) == succs(rl, latch as int));
        assert(block_args(r, loop_header as int) == block_args(rl, loop_header as int));
    }
    assert(mapped_end(r, m) == mapped_end(rm, m)) by {
        let lk = m[m.len() - 1].0;
        assert(block_args(r, lk as int) == block_args(rl, lk as int));
        assert(block_args(rl, lk as int) == block_args(rm, lk as int));
    }
    assert(multiplexer_facts(r, mux));
    assert forall|k: int| 0 <= k < flags.len() implies const_value(r, #[trigger] flags[k]) == Some(if k < nb { 1u32 } else { 0u32 }) by {
        assert(const_value(rm, flags[k]) == Some(if k < nb { 1u32 } else { 0u32 }));
        assert(r.values@[flags[k].index as int] == rm.values@[flags[k].index as int]);
    }
    assert forall|k: int| 0 <= k < nb + ne implies mapping_keys(m).contains(target(&r0.cfg, #[trigger] all[k])) by {
        assert(successors[k] == target(&r0.cfg, all[k]));
    }
    assert forall|k: int| 0 <= k < nb + ne implies target(&r0.cfg, #[trigger] all[k]) < n0 by {
        assert(is_edge(&r0.cfg, all[k]));
        assert(succs(r0, all[k].from_block as int)[all[k].successor_index as int] < n0);
    }
    assert forall|b: int| 0 <= b < n0 implies #[trigger] block_args(r, b) == block_args(r0, b) by {
        assert(block_args(rm, b) == block_args(r0, b));
        assert(block_args(r, b) == block_args(rl, b));
        assert(block_args(rl, b) == block_args(rm, b));
    }
    assert(ne > 0 ==> multiplexer_switch(r, mux, exit_block, seq![loop_header])) by {
        if ne > 0 {
            let e = switch_entries(m, seq![loop_header]);
            let l = e.len() - 1;
            lemma_switch_entries(m, seq![loop_header]);
            assert(e.len() >= 1) by {
                let t0 = successors[nb as int];
                assert(all[nb as int] == exit_edges[0]);
                assert(t0 != loop_header);
                assert(mapping_keys(m).contains(t0));
                let p0 = choose|i: int| 0 <= i < mapping_keys(m).len() && mapping_keys(m)[i] == t0;
                assert(m[p0].0 == t0);
                assert(!seq![loop_header].contains(m[p0].0));
            }
            assert forall|i: int| 0 <= i < e.len() implies #[trigger] forwarded_args(rl, latch, e[i].1, e[i].2) == forwarded_args(r, latch, e[i].1, e[i].2) by {
                assert(e[i].1 == m[e[i].0].0);
                assert(m[e[i].0].0 < num_blocks(rm));
                assert(block_args(r, e[i].1 as int) == block_args(rl, e[i].1 as int));
                assert(block_args(r, latch as int) == block_args(rl, latch as int));
            }
            assert forall|i: int| 0 <= i < l implies #[trigger] edge_ops(r, exit_block as int, i + 1) == forwarded_args(r, latch, e[i].1, e[i].2) by {
                assert(forwarded_args(rl, latch, e[i].1, e[i].2) == forwarded_args(r, latch, e[i].1, e[i].2));
            }
            assert(forwarded_args(rl, latch, e[l].1, e[l].2) == forwarded_args(r, latch, e[l].1, e[l].2));
            assert(multiplexer_switch(r, mux, exit_block, seq![loop_header]));
        }
    }
    assert forall|k: int| 0 <= k < nb implies target(&r0.cfg, #[trigger] back_edges[k]) < n0 by {
        assert(all[k] == back_edges[k]);
    }
    lemma_latch_laws(r0, r, mux, back_edges, exit_edges, flags, loop_header, exit_block);
    assert forall|k: int| 0 <= k < nb + ne implies target(&r.cfg, #[trigger] loop_edge(back_edges, exit_edges, k)) == latch by {
        assert(all[k] == loop_edge(back_edges, exit_edges, k));
    }
    assert forall|b: int, s2: int| 0 <= b < n0 && 0 <= s2 < succs(r0, b).len() && !edge_in(all, b, s2)
        implies #[trigger] succs(r, b)[s2] == succs(r0, b)[s2] && edge_ops(r, b, s2) == edge_ops(r0, b, s2) by {
        assert(all.take(flags.len() as int) =~= all);
        assert(succs(rm, b)[s2] == succs(r0, b)[s2]);
    }
    assert forall|b: int| 0 <= b < n0 implies #[trigger] succs(r, b).len() == succs(r0, b).len()
        && r.terminators@[b] == r0.terminators@[b] by {
        assert(succs(r, b) == succs(rl, b) && r.terminators@[b] == rl.terminators@[b]);
        assert(succs(rm, b).len() == succs(r0, b).len());
        assert(rm.terminators@[b] == r0.terminators@[b]);
    }
    assert forall|i: int| 0 <= i < r0.values@.len() implies #[trigger] r.values@[i] == r0.values@[i] by {
        assert(rm.values@[i] == r0.values@[i]);
    }
    if ne == 0 {
        let kind = cx.region.terminators@[exit_block as int]->ReturnLike_kind;
        let ops = cx.region.terminators@[exit_block as int]->ReturnLike_operands@;
        let types = operand_types(&cx.region, ops);
        assert(types =~= Seq::<Type>::empty());
        match cx.combined_exit(kind, types) {
            Some(x) => {
                let xs = cx.return_like_to_combined_exit@;
                let i = choose|i: int| 0 <= i < xs.len() && (#[trigger] xs[i]).0 == kind && xs[i].1@ == types;
                assert(c0.return_like_to_combined_exit@[i].2 < n0);
                assert(x != exit_block);
                assert forall|k2: ReturnKind, t: Seq<Type>| #[trigger] c.combined_exit(k2, t) == cx.combined_exit(k2, t) by {
                }
            }
            None => {
                let x = num_blocks(&cx.region) as usize;
                lemma_combined_exit_push(cx, c, kind, types, x);
            }
        }
    }
}

/// The terminator `t` uses the value `v`.
pub open spec fn terminator_uses(t: Terminator, v: ValueRef) -> bool {
    match t {
        Terminator::CondBr { condition } => condition == v,
        Terminator::Switch { selector, .. } => selector == v,
        Terminator::ReturnLike { operands, .. } => operands@.contains(v),
        _ => false,
    }
}

/// Some edge or terminator of `r` uses the value `v`.
pub open spec fn value_used(r: &Region, v: ValueRef) -> bool {
    ||| exists|b: int, s: int| 0 <= b < num_blocks(r) && 0 <= s < succs(r, b).len() && #[trigger] edge_ops(r, b, s).contains(v)
    ||| exists|b: int| 0 <= b < num_blocks(r) && terminator_uses(#[trigger] r.terminators@[b], v)
}

/// Whether some edge or terminator of `r` uses the value `v`.
fn is_used(r: &Region, v: ValueRef) -> (used: bool)
    requires
        wf(r),
    ensures
        used == value_used(r, v),
{
    let n = r.terminators.len();
    let mut b: usize = 0;
    while b < n
        invariant
            wf(r),
            n == num_blocks(r),
            b <= n,
            forall|c: int, s: int| 0 <= c < b && 0 <= s < succs(r, c).len() ==> !(#[trigger] edge_ops(r, c, s).contains(v)),
            forall|c: int| 0 <= c < b ==> !terminator_uses(#[trigger] r.terminators@[c], v),
        decreases n - b,
    {
        let uses = match &r.terminators[b] {
            Terminator::CondBr { condition } => *condition == v,
            Terminator::Switch { selector, .. } => *selector == v,
            Terminator::ReturnLike { operands, .. } => {
                let mut found = false;
                let mut k: usize = 0;
                while k < operands.len()
                    invariant
                        k <= operands@.len(),
                        found == operands@.take(k as int).contains(v),
                    decreases operands@.len() - k,
                {
                    let ghost before = operands@.take(k as int);
                    let ghost after = operands@.take(k + 1);
                    proof {
                        assert(after =~= before.push(operands@[k as int]));
                    }
                    if operands[k] == v {
                        found = true;
                        proof {
                            assert(after[k as int] == v);
                        }
                    } else {
                        proof {
                            if after.contains(v) {
                                let j = choose|j: int| 0 <= j < after.len() && after[j] == v;
                                assert(j < k);
                                assert(before[j] == v);
                            }
                        }
                    }
                    proof {
                        if before.contains(v) {
                            let j = choose|j: int| 0 <= j < before.len() && before[j] == v;
                            assert(after[j] == v);
                        }
                    }
                    k = k + 1;
                }
                proof {
                    assert(operands@.take(k as int) =~= operands@);
                }
                found
            },
            _ => false,
        };
        if uses {
            proof {
                assert(terminator_uses(r.terminators@[b as int], v));
            }
            return true;
        }
        let m = r.operands[b].len();
        let mut s: usize = 0;
        while s < m
            invariant
                wf(r),
                b < n == num_blocks(r),
                m == succs(r, b as int).len(),
                s <= m,
                forall|s2: int| 0 <= s2 < s ==> !(#[trigger] edge_ops(r, b as int, s2).contains(v)),
            decreases m - s,
        {
            let ops = &r.operands[b][s];
            let mut k: usize = 0;
            while k < ops.len()
                invariant
                    ops@ == edge_ops(r, b as int, s as int),
                    b < n == num_blocks(r),
                    s < m == succs(r, b as int).len(),
                    k <= ops@.len(),
                    forall|j: int| 0 <= j < k ==> ops@[j] != v,
                decreases ops@.len() - k,
            {
                if ops[k] == v {
                    proof {
                        assert(edge_ops(r, b as int, s as int)[k as int] == v);
                        assert(edge_ops(r, b as int, s as int).contains(v));
                    }
                    return true;
                }
                k = k + 1;
            }
            proof {
                assert(!edge_ops(r, b as int, s as int).contains(v));
            }
            s = s + 1;
        }
        b = b + 1;
    }
    false
}

/// Among the first `i` `u32` constants that `cache` holds is the value `v`.
pub open spec fn switch_cached_before(cache: Seq<Option<ValueRef>>, i: int, v: ValueRef) -> bool {
    exists|d: int| 0 <= d < i && #[trigger] cache[d] == Some(v)
}

/// Among the first `j` poison values that `cache` holds is the value `v`.
pub open spec fn undef_cached_before(cache: Seq<(Type, ValueRef)>, j: int, v: ValueRef) -> bool {
    exists|k: int| 0 <= k < j && (#[trigger] cache[k]).1 == v
}

/// The values of `r`, with those of `r0` for which `gone` holds erased.
pub open spec fn values_erased(r0: &Region, r: &Region, gone: spec_fn(ValueRef) -> bool) -> bool {
    &&& r.values@.len() == r0.values@.len()
    &&& forall|x: int| 0 <= x < r0.values@.len() ==> #[trigger] r.values@[x] == if gone(ValueRef { index: x as usize }) {
        ValueInfo { ty: r0.values@[x].ty, def: ValueDef::Erased }
    } else {
        r0.values@[x]
    }
}

/// Whether a value is used depends on the region's graph, operands and terminators alone.
proof fn lemma_value_used_same(r1: &Region, r2: &Region, v: ValueRef)
    requires
        r1.cfg == r2.cfg,
        r1.operands@ == r2.operands@,
        r1.terminators@ == r2.terminators@,
    ensures
        value_used(r1, v) == value_used(r2, v),
{
    if value_used(r1, v) {
        if exists|b: int, s: int| 0 <= b < num_blocks(r1) && 0 <= s < succs(r1, b).len() && #[trigger] edge_ops(r1, b, s).contains(v) {
            let (b, s) = choose|b: int, s: int| 0 <= b < num_blocks(r1) && 0 <= s < succs(r1, b).len() && #[trigger] edge_ops(r1, b, s).contains(v);
            assert(edge_ops(r2, b, s) == edge_ops(r1, b, s));
        } else {
            let b = choose|b: int| 0 <= b < num_blocks(r1) && terminator_uses(#[trigger] r1.terminators@[b], v);
            assert(r2.terminators@[b] == r1.terminators@[b]);
        }
    }
    if value_used(r2, v) {
        if exists|b: int, s: int| 0 <= b < num_blocks(r2) && 0 <= s < succs(r2, b).len() && #[trigger] edge_ops(r2, b, s).contains(v) {
            let (b, s) = choose|b: int, s: int| 0 <= b < num_blocks(r2) && 0 <= s < succs(r2, b).len() && #[trigger] edge_ops(r2, b, s).contains(v);
            assert(edge_ops(r1, b, s) == edge_ops(r2, b, s));
        } else {
            let b = choose|b: int| 0 <= b < num_blocks(r2) && terminator_uses(#[trigger] r2.terminators@[b], v);
            assert(r1.terminators@[b] == r2.terminators@[b]);
        }
    }
}

/// An edge multiplexer: a block that edges are redirected to, which passes on to each edge's
/// original target. Its arguments are those of each distinct target, one after the other as
/// the mapping gives them, then a discriminator when there is more than one target, then the
/// extra arguments.
pub struct EdgeMultiplexer {
    /// The multiplexer block.
    pub multiplexer_block: usize,
    /// Each distinct target, with the offset of its arguments among those of the multiplexer.
    pub block_arg_mapping: Vec<(usize, usize)>,
    /// The argument that tells which target to pass on to, when there is more than one.
    pub discriminator: Option<ValueRef>,
}

impl EdgeMultiplexer {
    /// The multiplexer fits the region of `ctx`: its block and its targets are blocks, the
    /// targets are distinct and other than the multiplexer, their arguments lie one after the
    /// other among the multiplexer's arguments, and the discriminator, if any, is the argument
    /// after them.
    pub open spec fn valid(&self, ctx: &TransformationContext) -> bool {
        let r = &ctx.region;
        let m = self.block_arg_mapping@;
        let mb = self.multiplexer_block;
        &&& mb < num_blocks(r)
        &&& m.len() >= 1
        &&& forall|i: int| 0 <= i < m.len() ==> (#[trigger] m[i]).0 < num_blocks(r) && m[i].0 != mb
        &&& forall|i: int, j: int| 0 <= i < j < m.len() ==> (#[trigger] m[i]).0 != (#[trigger] m[j]).0
        &&& forall|i: int| 0 <= i < m.len() ==> (#[trigger] m[i]).1 == mapped_end(r, m.take(i))
        &&& (self.discriminator is Some <==> m.len() > 1)
        &&& block_args(r, mb as int).len() >= mapped_end(r, m) + (if self.discriminator is Some { 1int } else { 0int })
        &&& match self.discriminator {
            Some(d) => d == block_args(r, mb as int)[mapped_end(r, m) as int] && value_type(r, d) == Type::U32,
            None => true,
        }
    }

    /// A new multiplexer block for edges into the blocks `entry_blocks`, with the arguments of
    /// each distinct one, a discriminator when there is more than one, and one argument for
    /// each of the types `extra_args`. No edge is redirected to it yet.
    #[verifier::spinoff_prover]
    pub fn create(ctx: &mut TransformationContext, entry_blocks: &[usize], extra_args: &[Type]) -> (mux: EdgeMultiplexer)
        requires
            old(ctx).wf(),
            entry_blocks@.len() >= 1,
            forall|i: int| 0 <= i < entry_blocks@.len() ==> #[trigger] entry_blocks@[i] < num_blocks(&old(ctx).region),
            num_blocks(&old(ctx).region) < usize::MAX,
        ensures
            final(ctx).wf(),
            mux.valid(final(ctx)),
            mux.multiplexer_block == num_blocks(&old(ctx).region),
            num_blocks(&final(ctx).region) == num_blocks(&old(ctx).region) + 1,
            region_kept(&old(ctx).region, &final(ctx).region),
            mux.block_arg_mapping@ == arg_mapping(&old(ctx).region, entry_blocks@),
            block_args(&final(ctx).region, mux.multiplexer_block as int).len() == mapped_end(&old(ctx).region, mux.block_arg_mapping@)
                + (if mux.discriminator is Some { 1int } else { 0int }) + extra_args@.len(),
            forall|k: int| 0 <= k < extra_args@.len() ==> value_type(&final(ctx).region,
                #[trigger] block_args(&final(ctx).region, mux.multiplexer_block as int)[block_args(&final(ctx).region, mux.multiplexer_block as int).len() - extra_args@.len() + k]) == extra_args@[k],
            succs(&final(ctx).region, mux.multiplexer_block as int).len() == 0,
            final(ctx).region.terminators@[mux.multiplexer_block as int] == Terminator::Unterminated,
            final(ctx).entry == old(ctx).entry,
            final(ctx).caches_extend(old(ctx)),
            final(ctx).return_like_to_combined_exit@ == old(ctx).return_like_to_combined_exit@,
    {
        let ghost r0 = ctx.region;
        let mb = ctx.create_block();
        let mut mapping: Vec<(usize, usize)> = Vec::new();
        let mut i: usize = 0;
        while i < entry_blocks.len()
            invariant
                ctx.wf(),
                mb == num_blocks(&r0),
                num_blocks(&ctx.region) == mb + 1,
                region_kept(&r0, &ctx.region),
                succs(&ctx.region, mb as int).len() == 0,
                ctx.region.terminators@[mb as int] == Terminator::Unterminated,
                forall|j: int| 0 <= j < entry_blocks@.len() ==> #[trigger] entry_blocks@[j] < num_blocks(&r0),
                i <= entry_blocks@.len(),
                mapping@ == arg_mapping(&r0, entry_blocks@.take(i as int)),
                block_args(&ctx.region, mb as int).len() == mapped_end(&r0, mapping@),
                forall|j: int| 0 <= j < mapping@.len() ==> (#[trigger] mapping@[j]).0 < num_blocks(&r0),
                forall|j: int, k: int| 0 <= j < k < mapping@.len() ==> (#[trigger] mapping@[j]).0 != (#[trigger] mapping@[k]).0,
                forall|j: int| 0 <= j < mapping@.len() ==> (#[trigger] mapping@[j]).1 == mapped_end(&r0, mapping@.take(j)),
                ctx.entry == old(ctx).entry,
                ctx.return_like_to_combined_exit@ == old(ctx).return_like_to_combined_exit@,
                ctx.switch_value_cache@ == old(ctx).switch_value_cache@,
                ctx.typed_undef_cache@ == old(ctx).typed_undef_cache@,
                r0 == old(ctx).region,
            decreases entry_blocks@.len() - i,
        {
            let b = entry_blocks[i];
            let found = mapping_position(&mapping, b);
            proof {
                assert(entry_blocks@.take(i + 1).drop_last() =~= entry_blocks@.take(i as int));
                assert(entry_blocks@.take(i + 1).last() == b);
            }
            if found.is_none() {
                let offset = ctx.region.args[mb].len();
                let ghost m0 = mapping@;
                mapping.push((b, offset));
                let ghost before = ctx.region;
                ctx.add_block_arguments_from_other(mb, b);
                proof {
                    assert(mapping@.take(m0.len() as int) =~= m0);
                    assert(block_args(&before, b as int) == block_args(&r0, b as int));
                    assert forall|j: int| 0 <= j < mapping@.len() implies (#[trigger] mapping@[j]).1 == mapped_end(&r0, mapping@.take(j)) by {
                        if j < m0.len() {
                            assert(mapping@.take(j) =~= m0.take(j));
                        }
                    }
                    assert forall|b2: int| 0 <= b2 < num_blocks(&r0) implies #[trigger] block_args(&ctx.region, b2) == block_args(&r0, b2) by {
                        assert(block_args(&before, b2) == block_args(&r0, b2));
                    }
                    assert forall|k: int| 0 <= k < r0.values@.len() implies #[trigger] ctx.region.values@[k] == r0.values@[k] by {
                        assert(before.values@[k] == r0.values@[k]);
                    }
                    assert forall|j: int, k: int| 0 <= j < k < mapping@.len() implies (#[trigger] mapping@[j]).0 != (#[trigger] mapping@[k]).0 by {
                        if k == m0.len() {
                            assert(mapping_keys(m0)[j] == m0[j].0);
                        }
                    }
                }
            }
            i = i + 1;
        }
        proof {
            assert(entry_blocks@.take(i as int) =~= entry_blocks@);
        }
        let ghost r1 = ctx.region;
        let ghost c1 = *ctx;
        proof {
            assert(c1.switch_value_cache@ == old(ctx).switch_value_cache@);
        }
        let discriminator = if mapping.len() > 1 {
            let val = ctx.get_switch_value(0);
            let ghost c2 = *ctx;
            let ty = ctx.region.values[val.index].ty.clone();
            let d = ctx.append_block_argument(mb, ty);
            proof {
                assert forall|d: u32| #[trigger] c1.switch_cached(d) is Some implies ctx.switch_cached(d) == c1.switch_cached(d) by {
                    assert(ctx.switch_value_cache@ == c2.switch_value_cache@);
                    assert(ctx.switch_cached(d) == c2.switch_cached(d));
                }
            }
            Some(d)
        } else {
            None
        };
        let ghost r2 = ctx.region;
        proof {
            assert(ctx.caches_extend(old(ctx))) by {
                assert forall|d: u32| #[trigger] old(ctx).switch_cached(d) is Some implies ctx.switch_cached(d) == old(ctx).switch_cached(d) by {
                    assert(c1.switch_cached(d) == old(ctx).switch_cached(d));
                }
                assert forall|t: Type| #[trigger] old(ctx).undef_cached(t) is Some implies ctx.undef_cached(t) == old(ctx).undef_cached(t) by {
                    assert(ctx.typed_undef_cache@ == old(ctx).typed_undef_cache@);
                }
            }
            assert(region_kept(&r0, &r2)) by {
                assert forall|b2: int| 0 <= b2 < num_blocks(&r0) implies #[trigger] block_args(&r2, b2) == block_args(&r0, b2) by {
                    assert(block_args(&r1, b2) == block_args(&r0, b2));
                }
                assert forall|k: int| 0 <= k < r0.values@.len() implies #[trigger] r2.values@[k] == r0.values@[k] by {
                    assert(r1.values@[k] == r0.values@[k]);
                }
            }
        }
        let base = ctx.region.args[mb].len();
        let mut k: usize = 0;
        while k < extra_args.len()
            invariant
                ctx.wf(),
                mb == num_blocks(&r0),
                num_blocks(&ctx.region) == mb + 1,
                region_kept(&r0, &ctx.region),
                succs(&ctx.region, mb as int).len() == 0,
                ctx.region.terminators@[mb as int] == Terminator::Unterminated,
                k <= extra_args@.len(),
                base == block_args(&r2, mb as int).len(),
                block_args(&ctx.region, mb as int).len() == base + k,
                forall|j: int| 0 <= j < base ==> #[trigger] block_args(&ctx.region, mb as int)[j] == block_args(&r2, mb as int)[j],
                forall|j: int| 0 <= j < base ==> #[trigger] ctx.region.values@[block_args(&r2, mb as int)[j].index as int] == r2.values@[block_args(&r2, mb as int)[j].index as int],
                forall|j: int| 0 <= j < k ==> value_type(&ctx.region, #[trigger] block_args(&ctx.region, mb as int)[base + j]) == extra_args@[j],
                ctx.entry == old(ctx).entry,
                ctx.return_like_to_combined_exit@ == old(ctx).return_like_to_combined_exit@,
                ctx.caches_extend(old(ctx)),
                wf(&r2),
                r0 == old(ctx).region,
            decreases extra_args@.len() - k,
        {
            let ghost before = ctx.region;
            ctx.append_block_argument(mb, extra_args[k].clone());
            proof {
                assert forall|b2: int| 0 <= b2 < num_blocks(&r0) implies #[trigger] block_args(&ctx.region, b2) == block_args(&r0, b2) by {
                    assert(block_args(&before, b2) == block_args(&r0, b2));
                }
                assert forall|j: int| 0 <= j < r0.values@.len() implies #[trigger] ctx.region.values@[j] == r0.values@[j] by {
                    assert(before.values@[j] == r0.values@[j]);
                }
                assert forall|j: int| 0 <= j < base implies #[trigger] ctx.region.values@[block_args(&r2, mb as int)[j].index as int] == r2.values@[block_args(&r2, mb as int)[j].index as int] by {
                    assert(valid_value(&before, block_args(&before, mb as int)[j]));
                }
                assert forall|j: int| 0 <= j < k + 1 implies value_type(&ctx.region, #[trigger] block_args(&ctx.region, mb as int)[base + j]) == extra_args@[j] by {
                    if j < k {
                        assert(valid_value(&before, block_args(&before, mb as int)[base + j]));
                    }
                }
            }
            k = k + 1;
        }
        let mux = EdgeMultiplexer { multiplexer_block: mb, block_arg_mapping: mapping, discriminator };
        proof {
            let r = &ctx.region;
            let m = mapping@;
            assert forall|j: int| 0 <= j <= m.len() implies #[trigger] mapped_end(r, m.take(j)) == mapped_end(&r0, m.take(j)) by {
                if j > 0 {
                    assert(m.take(j).last() == m[j - 1]);
                    assert(block_args(r, m[j - 1].0 as int) == block_args(&r0, m[j - 1].0 as int));
                }
            }
            assert(m.take(m.len() as int) =~= m);
            assert forall|j: int| 0 <= j < m.len() implies (#[trigger] m[j]).1 == mapped_end(r, m.take(j)) by {
            }
            match discriminator {
                Some(d) => {
                    assert(block_args(&r2, mb as int)[mapped_end(&r0, m) as int] == d);
                    assert(valid_value(&r2, d));
                    assert(value_type(&r2, d) == Type::U32);
                }
                None => {}
            }
        }
        mux
    }

    /// Redirect `edge` to the multiplexer block, passing along its operands where its
    /// target's arguments lie among the multiplexer's, the discriminator that names its
    /// target, `extra_args` last, and poison values for the other arguments.
    #[verifier::spinoff_prover]
    pub fn redirect_edge(&self, ctx: &mut TransformationContext, edge: &Edge, extra_args: &[ValueRef])
        requires
            old(ctx).wf(),
            self.valid(old(ctx)),
            is_edge(&old(ctx).region.cfg, *edge),
            mapping_keys(self.block_arg_mapping@).contains(target(&old(ctx).region.cfg, *edge)),
            block_args(&old(ctx).region, self.multiplexer_block as int).len() == mapped_end(&old(ctx).region, self.block_arg_mapping@)
                + (if self.discriminator is Some { 1int } else { 0int }) + extra_args@.len(),
            forall|k: int| 0 <= k < extra_args@.len() ==> valid_value(&old(ctx).region, #[trigger] extra_args@[k]),
            self.block_arg_mapping@.len() <= u32::MAX,
        ensures
            final(ctx).wf(),
            self.valid(final(ctx)),
            edge_redirected(&old(ctx).region, &final(ctx).region, self, *edge, extra_args@),
            final(ctx).entry == old(ctx).entry,
            final(ctx).caches_extend(old(ctx)),
            final(ctx).return_like_to_combined_exit@ == old(ctx).return_like_to_combined_exit@,
    {
        let ghost r0 = ctx.region;
        let from = edge.from_block;
        let si = edge.successor_index;
        let succ_block = ctx.region.cfg.successors[from][si];
        let pos = match mapping_position(&self.block_arg_mapping, succ_block) {
            Some(p) => p,
            None => {
                proof {
                    assert(false);
                }
                0
            }
        };
        let ghost gpos = key_position(self.block_arg_mapping@, succ_block);
        proof {
            assert(gpos == pos as int) by {
                if gpos != pos as int {
                    assert(self.block_arg_mapping@[gpos].0 == self.block_arg_mapping@[pos as int].0);
                }
            }
        }
        let offset = self.block_arg_mapping[pos].1;
        let mb = self.multiplexer_block;
        let argc = ctx.region.args[mb].len();
        let n_orig = ctx.region.operands[from][si].len();
        let extra_begin = argc - extra_args.len();
        let has_disc = self.discriminator.is_some();
        let mut new_ops: Vec<ValueRef> = Vec::new();
        let mut index: usize = 0;
        while index < argc
            invariant
                ctx.wf(),
                self.valid(ctx),
                region_kept(&r0, &ctx.region),
                num_blocks(&ctx.region) == num_blocks(&r0),
                r0 == old(ctx).region,
                wf(&r0),
                ctx.entry == old(ctx).entry,
                ctx.return_like_to_combined_exit@ == old(ctx).return_like_to_combined_exit@,
                ctx.caches_extend(old(ctx)),
                is_edge(&r0.cfg, *edge),
                from == edge.from_block,
                si == edge.successor_index,
                pos == gpos,
                0 <= gpos < self.block_arg_mapping@.len(),
                self.block_arg_mapping@.len() <= u32::MAX,
                offset == self.block_arg_mapping@[gpos].1,
                mb == self.multiplexer_block,
                argc == block_args(&r0, mb as int).len(),
                n_orig == edge_ops(&r0, from as int, si as int).len(),
                extra_begin == argc - extra_args@.len(),
                has_disc == self.discriminator is Some,
                has_disc ==> extra_begin >= 1,
                forall|k: int| 0 <= k < extra_args@.len() ==> valid_value(&r0, #[trigger] extra_args@[k]),
                index <= argc,
                new_ops@.len() == index,
                forall|k: int| 0 <= k < index ==> redirected_operand_ok(&ctx.region, self, gpos, extra_args@, edge_ops(&r0, from as int, si as int), k, #[trigger] new_ops@[k]),
            decreases argc - index,
        {
            let ghost before = *ctx;
            if index >= offset && index - offset < n_orig {
                let v = ctx.region.operands[from][si][index - offset];
                proof {
                    assert(edge_ops(&ctx.region, from as int, si as int) == edge_ops(&r0, from as int, si as int));
                    assert(valid_value(&r0, v));
                }
                new_ops.push(v);
            } else if has_disc && index == extra_begin - 1 {
                let v = ctx.get_switch_value(pos as u32);
                new_ops.push(v);
            } else if index >= extra_begin {
                let v = extra_args[index - extra_begin];
                new_ops.push(v);
            } else {
                let a = ctx.region.args[mb][index];
                proof {
                    assert(block_args(&ctx.region, mb as int) == block_args(&r0, mb as int));
                    assert(valid_value(&ctx.region, a));
                }
                let ty = ctx.region.values[a.index].ty.clone();
                let v = ctx.get_undef_value(&ty);
                new_ops.push(v);
            }
            proof {
                lemma_valid_kept(self, &before, ctx);
                assert forall|k: int| 0 <= k < index + 1 implies redirected_operand_ok(&ctx.region, self, gpos, extra_args@, edge_ops(&r0, from as int, si as int), k, #[trigger] new_ops@[k]) by {
                    assert(block_args(&ctx.region, mb as int) == block_args(&before.region, mb as int));
                    if k < index {
                        assert(redirected_operand_ok(&before.region, self, gpos, extra_args@, edge_ops(&r0, from as int, si as int), k, new_ops@[k]));
                        assert(ctx.region.values@[new_ops@[k].index as int] == before.region.values@[new_ops@[k].index as int]);
                        assert(block_args(&before.region, mb as int) == block_args(&r0, mb as int));
                        let a = block_args(&r0, mb as int)[k];
                        if k < argc {
                            assert(valid_value(&r0, a));
                            assert(ctx.region.values@[a.index as int] == before.region.values@[a.index as int]);
                        }
                    } else {
                        if index >= offset && index - offset < n_orig {
                        } else if has_disc && index == extra_begin - 1 {
                        } else if index >= extra_begin {
                            assert(ctx.region.values@[extra_args@[k - extra_begin].index as int] == r0.values@[extra_args@[k - extra_begin].index as int]);
                        } else {
                            assert(block_args(&before.region, mb as int) == block_args(&r0, mb as int));
                        }
                    }
                }
                assert forall|b2: int| 0 <= b2 < num_blocks(&r0) implies #[trigger] block_args(&ctx.region, b2) == block_args(&r0, b2) by {
                    assert(block_args(&before.region, b2) == block_args(&r0, b2));
                }
                assert forall|i: int| 0 <= i < r0.values@.len() implies #[trigger] ctx.region.values@[i] == r0.values@[i] by {
                    assert(before.region.values@[i] == r0.values@[i]);
                }
                assert(ctx.caches_extend(old(ctx))) by {
                    assert forall|d: u32| #[trigger] old(ctx).switch_cached(d) is Some implies ctx.switch_cached(d) == old(ctx).switch_cached(d) by {
                        assert(before.switch_cached(d) == old(ctx).switch_cached(d));
                    }
                    assert forall|t: Type| #[trigger] old(ctx).undef_cached(t) is Some implies ctx.undef_cached(t) == old(ctx).undef_cached(t) by {
                        assert(before.undef_cached(t) == old(ctx).undef_cached(t));
                    }
                }
            }
            index = index + 1;
        }
        let ghost r1 = ctx.region;
        proof {
            assert(succs(&ctx.region, from as int) == succs(&r0, from as int));
            assert(ctx.region.operands@[from as int]@ == r0.operands@[from as int]@);
        }
        ctx.region.cfg.successors[from].set(si, mb);
        ctx.region.operands[from].set(si, new_ops);
        proof {
            let r = &ctx.region;
            assert forall|b: int| 0 <= b < num_blocks(r) implies (#[trigger] r.operands@[b])@.len() == succs(r, b).len() by {
                assert(r1.operands@[b]@.len() == succs(&r1, b).len());
            }
            assert forall|b: int, s: int|
                0 <= b < num_blocks(r) && 0 <= s < succs(r, b).len() implies #[trigger] succs(r, b)[s] < num_blocks(r) by {
                if !(b == from && s == si) {
                    assert(succs(r, b)[s] == succs(&r1, b)[s]);
                }
            }
            assert forall|b: int, s: int, k: int|
                0 <= b < num_blocks(r) && 0 <= s < succs(r, b).len() && 0 <= k < edge_ops(r, b, s).len()
                    implies valid_value(r, #[trigger] edge_ops(r, b, s)[k]) by {
                if b == from && s == si {
                    assert(redirected_operand_ok(&r1, self, gpos, extra_args@, edge_ops(&r0, from as int, si as int), k, new_ops@[k]));
                } else {
                    assert(edge_ops(r, b, s) == edge_ops(&r1, b, s));
                }
            }
            assert forall|b: int| 0 <= b < num_blocks(r) implies arity_ok(#[trigger] r.terminators@[b], succs(r, b).len())
                && terminator_values_ok(r, r.terminators@[b]) by {
                assert(terminator_values_ok(&r1, r1.terminators@[b]));
            }
            assert forall|b: int, k: int| 0 <= b < num_blocks(r) && 0 <= k < block_args(r, b).len() implies {
                &&& valid_value(r, #[trigger] block_args(r, b)[k])
                &&& value_def(r, block_args(r, b)[k]) == (ValueDef::Arg {
                    block: b as usize,
                    index: k as usize,
                })
            } by {
                assert(block_args(r, b) == block_args(&r1, b));
            }
            assert(ctx.wf());
            assert forall|b: int| 0 <= b < num_blocks(&r0) implies #[trigger] block_args(r, b) == block_args(&r0, b) && r.terminators@[b] == r0.terminators@[b] by {
                assert(block_args(&r1, b) == block_args(&r0, b));
                assert(r1.terminators@[b] == r0.terminators@[b]);
            }
            assert forall|i: int| 0 <= i < r0.values@.len() implies #[trigger] r.values@[i] == r0.values@[i] by {
                assert(r1.values@[i] == r0.values@[i]);
            }
            assert(succs(r, from as int) =~= succs(&r0, from as int).update(si as int, mb));
            lemma_valid_kept(self, &*old(ctx), ctx);
            assert forall|s: int| 0 <= s < succs(&r0, from as int).len() && s != si implies #[trigger] edge_ops(r, from as int, s) == edge_ops(&r0, from as int, s) by {
                assert(edge_ops(&r1, from as int, s) == edge_ops(&r0, from as int, s));
            }
            assert forall|b: int| 0 <= b < num_blocks(&r0) && b != from implies #[trigger] succs(r, b) == succs(&r0, b) && r.operands@[b]@ == r0.operands@[b]@ by {
                assert(succs(&r1, b) == succs(&r0, b));
            }
        }
    }

    /// End the block `at` with a switch that passes on to the multiplexer's targets, leaving
    /// out `excluded`: the discriminator selects the target, the last one is the default, and
    /// each target gets the multiplexer arguments where its own arguments lie. With a single
    /// target, or no discriminator, the switch is on the constant `0` and always takes the
    /// default.
    #[verifier::rlimit(90)]
    #[verifier::spinoff_prover]
    pub fn create_switch(&self, ctx: &mut TransformationContext, at: usize, excluded: &[usize])
        requires
            old(ctx).wf(),
            self.valid(old(ctx)),
            at < num_blocks(&old(ctx).region),
            old(ctx).region.terminators@[at as int] == Terminator::Unterminated,
            exists|b: int, s: int| 0 <= b < num_blocks(&old(ctx).region) && 0 <= s < succs(&old(ctx).region, b).len() && #[trigger] succs(&old(ctx).region, b)[s] == at,
            switch_entries(self.block_arg_mapping@, excluded@).len() >= 1,
            self.block_arg_mapping@.len() <= u32::MAX,
        ensures
            final(ctx).wf(),
            self.valid(final(ctx)),
            switch_created(&old(ctx).region, &final(ctx).region, self, at, excluded@),
            final(ctx).entry == old(ctx).entry,
            final(ctx).caches_extend(old(ctx)),
            final(ctx).return_like_to_combined_exit@ == old(ctx).return_like_to_combined_exit@,
    {
        let ghost r0 = ctx.region;
        let ghost m = self.block_arg_mapping@;
        let mb = self.multiplexer_block;
        proof {
            assert(m.take(m.len() as int) =~= m);
            assert(block_args(&r0, mb as int).len() >= mapped_end(&r0, m));
        }
        let (mut case_values, mut dests, mut case_args) = switch_cases(&self.block_arg_mapping, &ctx.region, mb, excluded);
        let ghost e = switch_entries(m, excluded@);
        let ghost l = e.len() - 1;
        let ghost c1 = *ctx;
        let single = self.discriminator.is_none() || case_args.len() == 1;
        let real_discriminator = if single {
            ctx.get_switch_value(0)
        } else {
            match self.discriminator {
                Some(d) => d,
                None => ctx.get_switch_value(0),
            }
        };
        let ghost r1 = ctx.region;
        proof {
            assert(ctx.caches_extend(old(ctx))) by {
                assert forall|d: u32| #[trigger] old(ctx).switch_cached(d) is Some implies ctx.switch_cached(d) == old(ctx).switch_cached(d) by {
                    assert(c1.switch_cached(d) == old(ctx).switch_cached(d));
                }
                assert forall|t: Type| #[trigger] old(ctx).undef_cached(t) is Some implies ctx.undef_cached(t) == old(ctx).undef_cached(t) by {
                    assert(c1.undef_cached(t) == old(ctx).undef_cached(t));
                }
            }
        }
        let ghost cv0 = case_values@;
        let ghost d0 = dests@;
        let ghost a0 = case_args@;
        case_values.pop();
        let default_dest = match dests.pop() {
            Some(d) => d,
            None => {
                proof {
                    assert(false);
                }
                0
            }
        };
        let default_args = match case_args.pop() {
            Some(a) => a,
            None => {
                proof {
                    assert(false);
                }
                Vec::new()
            }
        };
        let mut succ_list: Vec<usize> = Vec::new();
        let mut ops_list: Vec<Vec<ValueRef>> = Vec::new();
        succ_list.push(default_dest);
        ops_list.push(default_args);
        let mut i: usize = 0;
        while i < dests.len()
            invariant
                i <= dests@.len(),
                dests@ == d0.drop_last(),
                case_args@ == a0.drop_last(),
                d0.len() == a0.len(),
                d0.len() >= 1,
                succ_list@.len() == i + 1,
                ops_list@.len() == i + 1,
                succ_list@[0] == d0.last(),
                ops_list@[0]@ == a0.last()@,
                forall|j: int| 1 <= j <= i ==> #[trigger] succ_list@[j] == d0[j - 1] && ops_list@[j]@ == a0[j - 1]@,
            decreases dests@.len() - i,
        {
            succ_list.push(dests[i]);
            let copy = copy_range(&case_args[i], 0, case_args[i].len());
            proof {
                assert(copy@ =~= case_args@[i as int]@);
            }
            ops_list.push(copy);
            proof {
                assert forall|j: int| 1 <= j <= i + 1 implies #[trigger] succ_list@[j] == d0[j - 1] && ops_list@[j]@ == a0[j - 1]@ by {
                    if j <= i {
                        assert(succ_list@[j] == d0[j - 1]);
                        assert(ops_list@[j]@ == a0[j - 1]@);
                    } else {
                        assert(succ_list@[j] == d0[j - 1]);
                        assert(ops_list@[j]@ == a0[j - 1]@);
                    }
                }
            }
            i = i + 1;
        }
        let ghost ops_seq = ops_list@;
        proof {
            assert forall|j: int| 1 <= j <= dests@.len() implies #[trigger] ops_seq[j]@ == a0[j - 1]@ by {
                assert(succ_list@[j] == d0[j - 1]);
            }
        }
        ctx.region.cfg.successors.set(at, succ_list);
        ctx.region.operands.set(at, ops_list);
        ctx.region.terminators.set(at, Terminator::Switch { selector: real_discriminator, case_values });
        proof {
            let r = &ctx.region;
            assert(d0.len() == e.len());
            assert(succs(r, at as int) =~= seq![e[l].1] + e.take(l).map_values(|x: (int, usize, usize)| x.1)) by {
                assert forall|j: int| 0 <= j < succs(r, at as int).len() implies succs(r, at as int)[j] == (seq![e[l].1] + e.take(l).map_values(|x: (int, usize, usize)| x.1))[j] by {
                    if j > 0 {
                        assert(succ_list@[j] == d0[j - 1]);
                    }
                }
            }
            assert forall|b: int| 0 <= b < num_blocks(r) implies (#[trigger] r.operands@[b])@.len() == succs(r, b).len() by {
                if b != at {
                    assert(r1.operands@[b]@.len() == succs(&r1, b).len());
                }
            }
            lemma_switch_entries(m, excluded@);
            assert forall|j: int| 0 <= j < e.len() implies (#[trigger] e[j]).1 < num_blocks(&r0) && e[j].2 + block_args(&r0, e[j].1 as int).len() <= block_args(&r0, mb as int).len() by {
                let p = e[j].0;
                assert(m[p].0 < num_blocks(&r0));
                lemma_mapped_end_mono(&r0, m, p + 1);
                assert(m.take(p + 1).last() == m[p]);
            }
            assert forall|b: int, s: int|
                0 <= b < num_blocks(r) && 0 <= s < succs(r, b).len() implies #[trigger] succs(r, b)[s] < num_blocks(r) by {
                if b == at {
                    if s > 0 {
                        assert(succ_list@[s] == d0[s - 1]);
                        assert(e[s - 1].1 < num_blocks(&r0));
                    } else {
                        assert(e[l].1 < num_blocks(&r0));
                    }
                } else {
                    assert(succs(r, b) == succs(&r1, b));
                }
            }
            assert forall|j: int| 0 <= j < e.len() implies forall|k: int| 0 <= k < (#[trigger] a0[j])@.len() ==> valid_value(r, a0[j]@[k]) by {
                assert forall|k: int| 0 <= k < a0[j]@.len() implies valid_value(r, a0[j]@[k]) by {
                    let x = e[j];
                    assert(a0[j]@ == forwarded_args(&r0, mb, x.1, x.2));
                    assert(a0[j]@[k] == block_args(&r0, mb as int)[x.2 + k]);
                    assert(valid_value(&r0, block_args(&r0, mb as int)[x.2 + k]));
                }
            }
            assert forall|b: int, s: int, k: int|
                0 <= b < num_blocks(r) && 0 <= s < succs(r, b).len() && 0 <= k < edge_ops(r, b, s).len()
                    implies valid_value(r, #[trigger] edge_ops(r, b, s)[k]) by {
                if b == at {
                    if s > 0 {
                        assert(ops_seq[s]@ == a0[s - 1]@);
                        assert(a0[s - 1]@.len() > k);
                    } else {
                        assert(a0.last() == a0[a0.len() - 1]);
                    }
                } else {
                    assert(edge_ops(r, b, s) == edge_ops(&r1, b, s));
                }
            }
            assert(cv0 =~= e.map_values(|x: (int, usize, usize)| x.0 as u32));
            assert(case_values@ =~= e.take(l).map_values(|x: (int, usize, usize)| x.0 as u32));
            assert forall|b: int| 0 <= b < num_blocks(r) implies arity_ok(#[trigger] r.terminators@[b], succs(r, b).len())
                && terminator_values_ok(r, r.terminators@[b]) by {
                if b != at {
                    assert(terminator_values_ok(&r1, r1.terminators@[b]));
                } else {
                    match self.discriminator {
                        Some(d) => {
                            assert(valid_value(&r0, block_args(&r0, mb as int)[mapped_end(&r0, m) as int]));
                        }
                        None => {}
                    }
                }
            }
            assert forall|b: int, k: int| 0 <= b < num_blocks(r) && 0 <= k < block_args(r, b).len() implies {
                &&& valid_value(r, #[trigger] block_args(r, b)[k])
                &&& value_def(r, block_args(r, b)[k]) == (ValueDef::Arg {
                    block: b as usize,
                    index: k as usize,
                })
            } by {
                assert(block_args(r, b) == block_args(&r1, b));
            }
            assert(ctx.wf());
            assert forall|b: int| 0 <= b < num_blocks(&r0) implies #[trigger] block_args(r, b) == block_args(&r0, b) by {
                assert(block_args(&r1, b) == block_args(&r0, b));
            }
            assert forall|i: int| 0 <= i < r0.values@.len() implies #[trigger] r.values@[i] == r0.values@[i] by {
                assert(r1.values@[i] == r0.values@[i]);
            }
            lemma_valid_kept(self, &*old(ctx), ctx);
            assert forall|i: int| 0 <= i < l implies #[trigger] edge_ops(r, at as int, i + 1) == forwarded_args(&r0, mb, e[i].1, e[i].2) by {
                assert(ops_seq[i + 1]@ == a0[(i + 1) - 1]@);
            }
            assert(edge_ops(r, at as int, 0) == forwarded_args(&r0, mb, e[l].1, e[l].2)) by {
                assert(a0.last() == a0[l]);
            }
            assert forall|b: int| 0 <= b < num_blocks(&r0) && b != at implies #[trigger] succs(r, b) == succs(&r0, b) && r.operands@[b]@ == r0.operands@[b]@ && r.terminators@[b] == r0.terminators@[b] by {
                assert(succs(&r1, b) == succs(&r0, b));
            }
        }
    }
}




/// The facts about a multiplexer block's arguments and mapping that its switch relies on.
pub open spec fn multiplexer_facts(r: &Region, mux: &EdgeMultiplexer) -> bool {
    let m = mux.block_arg_mapping@;
    let mb = mux.multiplexer_block;
    &&& block_args(r, mb as int).len() <= usize::MAX
    &&& forall|k: int| 0 <= k < block_args(r, mb as int).len() ==> valid_value(r, #[trigger] block_args(r, mb as int)[k])
        && value_def(r, block_args(r, mb as int)[k]) == (ValueDef::Arg { block: mb, index: k as usize })
    &&& forall|j: int| 0 <= j < m.len() ==> (#[trigger] m[j]).1 == mapped_end(r, m.take(j))
    &&& (mux.discriminator is Some <==> m.len() > 1)
    &&& block_args(r, mb as int).len() >= mapped_end(r, m) + (if mux.discriminator is Some { 1int } else { 0int })
    &&& match mux.discriminator {
        Some(d) => d == block_args(r, mb as int)[mapped_end(r, m) as int],
        None => true,
    }
}

/// The switch ending block `at`, as `create_switch` makes it for the multiplexer `mux`.
pub open spec fn multiplexer_switch(r: &Region, mux: &EdgeMultiplexer, at: usize, excluded: Seq<usize>) -> bool {
    let e = switch_entries(mux.block_arg_mapping@, excluded);
    let l = e.len() - 1;
    let mb = mux.multiplexer_block;
    &&& e.len() >= 1
    &&& r.terminators@[at as int] matches Terminator::Switch { selector, case_values } && {
        &&& case_values@ == e.take(l).map_values(|x: (int, usize, usize)| x.0 as u32)
        &&& if mux.discriminator is None || l == 0 {
            valid_value(r, selector) && value_def(r, selector) == ValueDef::Constant(ConstantDef::Switch(0))
        } else {
            selector == mux.discriminator->0
        }
    }
    &&& succs(r, at as int) == seq![e[l].1] + e.take(l).map_values(|x: (int, usize, usize)| x.1)
    &&& edge_ops(r, at as int, 0) == forwarded_args(r, mb, e[l].1, e[l].2)
    &&& forall|i: int| 0 <= i < l ==> #[trigger] edge_ops(r, at as int, i + 1) == forwarded_args(r, mb, e[i].1, e[i].2)
}

/// The operands `env` are those a redirected edge passes to the multiplexer: for the
/// `pos`-th target, with the original operands `orig` and the extra operands `extras`.
pub open spec fn redirected_env(r: &Region, mux: &EdgeMultiplexer, env: Seq<ValueRef>, pos: int, extras: Seq<ValueRef>, orig: Seq<ValueRef>) -> bool {
    let m = mux.block_arg_mapping@;
    &&& 0 <= pos < m.len()
    &&& orig.len() == block_args(r, m[pos].0 as int).len()
    &&& env.len() == block_args(r, mux.multiplexer_block as int).len()
    &&& block_args(r, mux.multiplexer_block as int).len() == mapped_end(r, m)
        + (if mux.discriminator is Some { 1int } else { 0int }) + extras.len()
    &&& forall|k: int| 0 <= k < env.len() ==> redirected_operand_ok(r, mux, pos, extras, orig, k, #[trigger] env[k])
}

/// The switch of a multiplexer takes the case of a redirected edge's target.
#[verifier::rlimit(80)]
#[verifier::spinoff_prover]
proof fn lemma_switch_takes(r: &Region, mux: &EdgeMultiplexer, at: usize, excluded: Seq<usize>, env: Seq<ValueRef>, pos: int, extras: Seq<ValueRef>, orig: Seq<ValueRef>)
    requires
        multiplexer_facts(r, mux),
        multiplexer_switch(r, mux, at, excluded),
        mux.block_arg_mapping@.len() <= u32::MAX,
        redirected_env(r, mux, env, pos, extras, orig),
        !excluded.contains(mux.block_arg_mapping@[pos].0),
    ensures
        ({
            let e = switch_entries(mux.block_arg_mapping@, excluded);
            let l = e.len() - 1;
            &&& taken_successor(r, mux.multiplexer_block, env, at as int) matches Some(ts)
            &&& 0 <= ts <= l
            &&& (if ts == 0 { e[l] } else { e[ts - 1] }).0 == pos
        }),
{
    let m = mux.block_arg_mapping@;
    let e = switch_entries(m, excluded);
    let l = e.len() - 1;
    let mb = mux.multiplexer_block;
    lemma_switch_entries(m, excluded);
    let idx = choose|i: int| 0 <= i < e.len() && (#[trigger] e[i]).0 == pos;
    let cv = e.take(l).map_values(|x: (int, usize, usize)| x.0 as u32);
    match r.terminators@[at as int] {
        Terminator::Switch { selector, case_values } => {
            assert(case_values@ == cv);
            if l == 0 {
                assert(idx == 0);
                assert(bind(r, mb, env, selector) == selector);
                lemma_case_index(cv, const_value(r, selector)->0);
            } else {
                assert(mux.discriminator is Some) by {
                    if mux.discriminator is None {
                        assert(m.len() <= 1);
                        assert(e[0].0 < e[1].0);
                    }
                }
                let me = mapped_end(r, m) as int;
                let d = mux.discriminator->0;
                assert(selector == d);
                assert(valid_value(r, block_args(r, mb as int)[me]));
                assert(bind(r, mb, env, selector) == env[me]);
                lemma_mapped_end_mono(r, m, pos + 1);
                assert(m.take(pos + 1).last() == m[pos]);
                assert(redirected_operand_ok(r, mux, pos, extras, orig, me, env[me]));
                assert(const_value(r, env[me]) == Some(pos as u32));
                lemma_case_index(cv, pos as u32);
                if idx < l {
                    assert(cv[idx] == pos as u32);
                    assert(cv.contains(pos as u32));
                    let ci = case_index(cv, pos as u32);
                    assert(e[ci].0 as u32 == pos as u32);
                    assert(e[ci].0 == pos);
                    if ci != idx {
                        if ci < idx {
                            assert(e[ci].0 < e[idx].0);
                        } else {
                            assert(e[idx].0 < e[ci].0);
                        }
                    }
                } else {
                    assert(!cv.contains(pos as u32)) by {
                        if cv.contains(pos as u32) {
                            let j = choose|j: int| 0 <= j < cv.len() && cv[j] == pos as u32;
                            assert(e[j].0 < e[idx].0);
                            assert(e[j].0 as u32 == pos as u32);
                        }
                    }
                }
            }
        }
        _ => {}
    }
}

/// The arguments of the multiplexer that lie where a redirected edge's target's arguments do
/// hold the edge's original operands.
#[verifier::spinoff_prover]
proof fn lemma_forwarded_bound(r: &Region, mux: &EdgeMultiplexer, env: Seq<ValueRef>, pos: int, extras: Seq<ValueRef>, orig: Seq<ValueRef>)
    requires
        multiplexer_facts(r, mux),
        redirected_env(r, mux, env, pos, extras, orig),
    ensures
        forwarded_args(r, mux.multiplexer_block, mux.block_arg_mapping@[pos].0, mux.block_arg_mapping@[pos].1).map_values(
            |v: ValueRef| bind(r, mux.multiplexer_block, env, v)) == orig,
{
    let m = mux.block_arg_mapping@;
    let mb = mux.multiplexer_block;
    let off = m[pos].1 as int;
    lemma_mapped_end_mono(r, m, pos + 1);
    assert(m.take(pos + 1).last() == m[pos]);
    let fw = forwarded_args(r, mb, m[pos].0, m[pos].1);
    let bound = fw.map_values(|v: ValueRef| bind(r, mb, env, v));
    assert forall|j: int| 0 <= j < orig.len() implies #[trigger] bound[j] == orig[j] by {
        let a = block_args(r, mb as int)[off + j];
        assert(fw[j] == a);
        assert(bound[j] == bind(r, mb, env, a));
        assert(valid_value(r, a) && value_def(r, a) == (ValueDef::Arg { block: mb, index: (off + j) as usize }));
        assert(off + j < env.len());
        assert(bind(r, mb, env, a) == env[off + j]);
        assert(redirected_operand_ok(r, mux, pos, extras, orig, off + j, env[off + j]));
        assert(off <= off + j < off + orig.len());
    }
    assert(bound =~= orig);
}

/// The switch a multiplexer ends with passes each redirected edge on to its original target
/// with its original operands: where the multiplexer's arguments hold the operands the edge
/// now passes, the switch takes the case of the edge's target, and that case passes on the
/// arguments that hold the edge's original operands.
pub proof fn lemma_switch_forwards(r: &Region, mux: &EdgeMultiplexer, at: usize, excluded: Seq<usize>, env: Seq<ValueRef>, pos: int, extras: Seq<ValueRef>, orig: Seq<ValueRef>)
    requires
        multiplexer_facts(r, mux),
        multiplexer_switch(r, mux, at, excluded),
        mux.block_arg_mapping@.len() <= u32::MAX,
        redirected_env(r, mux, env, pos, extras, orig),
        !excluded.contains(mux.block_arg_mapping@[pos].0),
    ensures
        hop(r, mux.multiplexer_block, env, at as int) == Some((mux.block_arg_mapping@[pos].0, orig)),
{
    let m = mux.block_arg_mapping@;
    let e = switch_entries(m, excluded);
    let l = e.len() - 1;
    let mb = mux.multiplexer_block;
    lemma_switch_takes(r, mux, at, excluded, env, pos, extras, orig);
    lemma_switch_entries(m, excluded);
    lemma_forwarded_bound(r, mux, env, pos, extras, orig);
    let ts = taken_successor(r, mb, env, at as int)->0;
    let x = if ts == 0 { e[l] } else { e[ts - 1] };
    assert(x.1 == m[pos].0 && x.2 == m[pos].1);
    if ts > 0 {
        assert(edge_ops(r, at as int, (ts - 1) + 1) == forwarded_args(r, mb, e[ts - 1].1, e[ts - 1].2));
    }
    assert(succs(r, at as int)[ts] == m[pos].0);
}


impl TransformationContext {
    /// Give the edges `entry_edges` a single entry: a new multiplexer block that they are all
    /// redirected to, ending with a switch that passes each on to its original target with its
    /// original operands.
    #[verifier::rlimit(100)]
    #[verifier::spinoff_prover]
    pub fn create_single_entry_block(&mut self, entry_edges: &[Edge]) -> (mux: EdgeMultiplexer)
        requires
            old(self).wf(),
            entry_edges@.len() >= 1,
            entry_edges@.len() <= u32::MAX,
            num_blocks(&old(self).region) < usize::MAX,
            forall|j: int| 0 <= j < entry_edges@.len() ==> is_edge(&old(self).region.cfg, #[trigger] entry_edges@[j]),
            forall|i: int, j: int| 0 <= i < j < entry_edges@.len() ==> #[trigger] entry_edges@[i] != #[trigger] entry_edges@[j],
        ensures
            final(self).wf(),
            mux.valid(final(self)),
            mux.multiplexer_block == num_blocks(&old(self).region),
            num_blocks(&final(self).region) == num_blocks(&old(self).region) + 1,
            forall|j: int| 0 <= j < entry_edges@.len() ==> target(&final(self).region.cfg, #[trigger] entry_edges@[j]) == mux.multiplexer_block,
            forall|j: int| 0 <= j < entry_edges@.len() ==> {
                let e = #[trigger] entry_edges@[j];
                edge_ops(&final(self).region, e.from_block as int, e.successor_index as int).len()
                    == block_args(&final(self).region, mux.multiplexer_block as int).len()
            },
            forall|j: int| 0 <= j < entry_edges@.len() ==> {
                let e = #[trigger] entry_edges@[j];
                let r0 = &old(self).region;
                edge_ops(r0, e.from_block as int, e.successor_index as int).len() == block_args(r0, target(&r0.cfg, e) as int).len()
                    ==> hop(&final(self).region, mux.multiplexer_block, edge_ops(&final(self).region, e.from_block as int, e.successor_index as int), mux.multiplexer_block as int)
                        == Some((target(&r0.cfg, e), edge_ops(r0, e.from_block as int, e.successor_index as int)))
            },
            forall|b: int, s: int| 0 <= b < num_blocks(&old(self).region) && 0 <= s < succs(&old(self).region, b).len() && !edge_in(entry_edges@, b, s)
                ==> #[trigger] succs(&final(self).region, b)[s] == succs(&old(self).region, b)[s] && edge_ops(&final(self).region, b, s) == edge_ops(&old(self).region, b, s),
            forall|b: int| 0 <= b < num_blocks(&old(self).region) ==> #[trigger] succs(&final(self).region, b).len() == succs(&old(self).region, b).len()
                && block_args(&final(self).region, b) == block_args(&old(self).region, b)
                && final(self).region.terminators@[b] == old(self).region.terminators@[b],
            final(self).entry == old(self).entry,
            final(self).caches_extend(old(self)),
            final(self).return_like_to_combined_exit@ == old(self).return_like_to_combined_exit@,
    {
        let ghost r0 = self.region;
        let mut entry_blocks: Vec<usize> = Vec::new();
        let mut i: usize = 0;
        while i < entry_edges.len()
            invariant
                self.region == r0,
                wf(&r0),
                i <= entry_edges@.len(),
                forall|j: int| 0 <= j < entry_edges@.len() ==> is_edge(&r0.cfg, #[trigger] entry_edges@[j]),
                entry_blocks@.len() == i,
                forall|j: int| 0 <= j < i ==> #[trigger] entry_blocks@[j] == target(&r0.cfg, entry_edges@[j]),
            decreases entry_edges@.len() - i,
        {
            let b = entry_edges[i].get_successor(&self.region.cfg);
            entry_blocks.push(b);
            i = i + 1;
        }
        proof {
            assert forall|j: int| 0 <= j < entry_blocks@.len() implies #[trigger] entry_blocks@[j] < num_blocks(&r0) by {
                let e = entry_edges@[j];
                assert(is_edge(&r0.cfg, e));
                assert(succs(&r0, e.from_block as int)[e.successor_index as int] < num_blocks(&r0));
            }
            lemma_arg_mapping_keys(&r0, entry_blocks@);
        }
        let mux = EdgeMultiplexer::create(self, &entry_blocks, &[]);
        let ghost r1 = self.region;
        let ghost m = mux.block_arg_mapping@;
        let mb = mux.multiplexer_block;
        let no_extras: Vec<ValueRef> = Vec::new();
        let mut j: usize = 0;
        while j < entry_edges.len()
            invariant
                self.wf(),
                mux.valid(self),
                mb == mux.multiplexer_block,
                mb == num_blocks(&r0),
                m == mux.block_arg_mapping@,
                m == arg_mapping(&r0, entry_blocks@),
                m.len() <= u32::MAX,
                wf(&r0),
                num_blocks(&self.region) == num_blocks(&r0) + 1,
                block_args(&self.region, mb as int).len() == mapped_end(&r0, m) + (if mux.discriminator is Some { 1int } else { 0int }),
                succs(&self.region, mb as int).len() == 0,
                self.region.terminators@[mb as int] == Terminator::Unterminated,
                j <= entry_edges@.len(),
                entry_blocks@.len() == entry_edges@.len(),
                forall|k: int| 0 <= k < entry_edges@.len() ==> #[trigger] entry_blocks@[k] == target(&r0.cfg, entry_edges@[k]),
                forall|k: int| 0 <= k < entry_edges@.len() ==> mapping_keys(m).contains(#[trigger] entry_blocks@[k]),
                forall|k: int| 0 <= k < entry_edges@.len() ==> is_edge(&r0.cfg, #[trigger] entry_edges@[k]),
                forall|a: int, c: int| 0 <= a < c < entry_edges@.len() ==> #[trigger] entry_edges@[a] != #[trigger] entry_edges@[c],
                entries_redirected(&r0, &self.region, &mux, entry_edges@, Seq::new(entry_edges@.len(), |k: int| Seq::<ValueRef>::empty()), j as int),
                others_kept(&r0, &self.region, entry_edges@, j as int),
                forall|b: int| 0 <= b < num_blocks(&self.region) ==> #[trigger] block_args(&self.region, b) == block_args(&r1, b),
                self.region.values@.len() >= r1.values@.len(),
                forall|x: int| 0 <= x < r1.values@.len() ==> #[trigger] self.region.values@[x] == r1.values@[x],
                self.entry == old(self).entry,
                self.return_like_to_combined_exit@ == old(self).return_like_to_combined_exit@,
                self.caches_extend(old(self)),
                no_extras@ == Seq::<ValueRef>::empty(),
            decreases entry_edges@.len() - j,
        {
            let ghost before = *self;
            let e = &entry_edges[j];
            proof {
                assert(!edge_in(entry_edges@.take(j as int), e.from_block as int, e.successor_index as int)) by {
                    if edge_in(entry_edges@.take(j as int), e.from_block as int, e.successor_index as int) {
                        let k = choose|k: int| 0 <= k < entry_edges@.take(j as int).len() && (#[trigger] entry_edges@.take(j as int)[k]).from_block == e.from_block as int && entry_edges@.take(j as int)[k].successor_index == e.successor_index as int;
                        assert(entry_edges@[k] == entry_edges@[j as int]);
                    }
                }
                assert(is_edge(&r0.cfg, *e));
                assert(succs(&self.region, e.from_block as int).len() == succs(&r0, e.from_block as int).len());
                assert(succs(&self.region, e.from_block as int)[e.successor_index as int] == succs(&r0, e.from_block as int)[e.successor_index as int]);
                assert(target(&self.region.cfg, *e) == target(&r0.cfg, *e));
                assert(entry_blocks@[j as int] == target(&r0.cfg, *e));
                assert(mapping_keys(m).contains(entry_blocks@[j as int]));
                assert(is_edge(&self.region.cfg, *e));
                assert(mapped_end(&self.region, m) == mapped_end(&r0, m)) by {
                    let lk = m[m.len() - 1].0;
                    assert(lk < num_blocks(&self.region) && lk != mb);
                    assert(succs(&self.region, lk as int).len() == succs(&r0, lk as int).len());
                    assert(block_args(&self.region, lk as int) == block_args(&r0, lk as int));
                }
            }
            mux.redirect_edge(self, e, no_extras.as_slice());
            proof {
                let r = &self.region;
                let rb = &before.region;
                assert(no_extras@ =~= seq![]);
                lemma_redirect_step(&r0, rb, r, &mux, entry_edges@, Seq::new(entry_edges@.len(), |k: int| Seq::<ValueRef>::empty()), j as int);
                assert forall|b: int| 0 <= b < num_blocks(r) implies #[trigger] block_args(r, b) == block_args(&r1, b) by {
                    assert(block_args(rb, b) == block_args(&r1, b));
                }
                assert forall|x: int| 0 <= x < r1.values@.len() implies #[trigger] r.values@[x] == r1.values@[x] by {
                    assert(rb.values@[x] == r1.values@[x]);
                }
                assert(succs(r, mb as int) == succs(rb, mb as int));
                assert(self.caches_extend(old(self))) by {
                    assert forall|d: u32| #[trigger] old(self).switch_cached(d) is Some implies self.switch_cached(d) == old(self).switch_cached(d) by {
                        assert(before.switch_cached(d) == old(self).switch_cached(d));
                    }
                    assert forall|t: Type| #[trigger] old(self).undef_cached(t) is Some implies self.undef_cached(t) == old(self).undef_cached(t) by {
                        assert(before.undef_cached(t) == old(self).undef_cached(t));
                    }
                }
            }
            j = j + 1;
        }
        let ghost r2 = self.region;
        let no_exclusions: Vec<usize> = Vec::new();
        proof {
            assert(no_exclusions@ =~= seq![]);
            assert(entry_edges@.take(j as int) =~= entry_edges@);
            lemma_switch_entries(m, seq![]);
            assert(m[0].0 == m[0].0);
            assert(!seq![].contains(m[0].0));
            let e0 = entry_edges@[0];
            assert(succs(&r2, e0.from_block as int)[e0.successor_index as int] == mb);
            assert(is_edge(&r0.cfg, e0));
            assert(succs(&r2, e0.from_block as int).len() == succs(&r0, e0.from_block as int).len());
        }
        mux.create_switch(self, mb, no_exclusions.as_slice());
        let argc_mb = self.region.args[mb].len();
        proof {
            let r = &self.region;
            assert(no_exclusions@ =~= seq![]);
            assert forall|x: int| 0 <= x < block_args(r, mb as int).len() implies valid_value(r, #[trigger] block_args(r, mb as int)[x])
                && value_def(r, block_args(r, mb as int)[x]) == (ValueDef::Arg { block: mb, index: x as usize }) by {
            }
            assert(mapped_end(r, m) == mapped_end(&r0, m)) by {
                assert(block_args(r, m.last().0 as int) == block_args(&r0, m.last().0 as int));
            }
            assert forall|k: int| 0 <= k < m.len() implies (#[trigger] m[k]).1 == mapped_end(r, m.take(k)) by {
            }
            assert(multiplexer_facts(r, &mux));
            assert(block_args(r, mb as int) == block_args(&r2, mb as int));
            assert forall|i: int| 0 <= i < switch_entries(m, seq![]).len() implies #[trigger] forwarded_args(&r2, mb, switch_entries(m, seq![])[i].1, switch_entries(m, seq![])[i].2)
                == forwarded_args(r, mb, switch_entries(m, seq![])[i].1, switch_entries(m, seq![])[i].2) by {
                let x = switch_entries(m, seq![])[i];
                assert(block_args(r, x.1 as int) == block_args(&r2, x.1 as int));
            }
            assert(multiplexer_switch(r, &mux, mb, seq![])) by {
                let e = switch_entries(m, seq![]);
                let l = e.len() - 1;
                assert forall|i: int| 0 <= i < l implies #[trigger] edge_ops(r, mb as int, i + 1) == forwarded_args(r, mb, e[i].1, e[i].2) by {
                    assert(forwarded_args(&r2, mb, e[i].1, e[i].2) == forwarded_args(r, mb, e[i].1, e[i].2));
                }
                assert(forwarded_args(&r2, mb, e[l].1, e[l].2) == forwarded_args(r, mb, e[l].1, e[l].2));
            }
            assert forall|k: int| 0 <= k < entry_edges@.len() implies {
                let e = #[trigger] entry_edges@[k];
                edge_ops(&r0, e.from_block as int, e.successor_index as int).len() == block_args(&r0, target(&r0.cfg, e) as int).len()
                    ==> hop(r, mb, edge_ops(r, e.from_block as int, e.successor_index as int), mb as int)
                        == Some((target(&r0.cfg, e), edge_ops(&r0, e.from_block as int, e.successor_index as int)))
            } by {
                let e = entry_edges@[k];
                let f = e.from_block as int;
                let si = e.successor_index as int;
                let orig = edge_ops(&r0, f, si);
                if orig.len() == block_args(&r0, target(&r0.cfg, e) as int).len() {
                    let b = entry_blocks@[k];
                    let pos = key_position(m, b);
                    assert(mapping_keys(m).contains(b));
                    let i0 = choose|i: int| 0 <= i < mapping_keys(m).len() && mapping_keys(m)[i] == b;
                    assert(m[i0].0 == b);
                    assert(0 <= pos < m.len() && m[pos].0 == b);
                    assert(f < num_blocks(&r0));
                    assert(succs(r, f) == succs(&r2, f));
                    assert(r.operands@[f]@ == r2.operands@[f]@);
                    let env = edge_ops(r, f, si);
                    assert(env == edge_ops(&r2, f, si));
                    assert(block_args(r, b as int) == block_args(&r0, b as int));
                    assert forall|x: int| 0 <= x < env.len() implies redirected_operand_ok(r, &mux, pos, seq![], orig, x, #[trigger] env[x]) by {
                        assert(redirected_operand_ok(&r2, &mux, pos, seq![], orig, x, env[x]));
                        lemma_redirected_ok_kept(&r2, r, &mux, pos, seq![], orig, x, env[x]);
                    }
                    assert(redirected_env(r, &mux, env, pos, seq![], orig));
                    assert(!seq![].contains(m[pos].0));
                    lemma_switch_forwards(r, &mux, mb, seq![], env, pos, seq![], orig);
                    assert(succs(&r2, f)[si] == mb);
                }
            }
            assert forall|k: int| 0 <= k < entry_edges@.len() implies target(&r.cfg, #[trigger] entry_edges@[k]) == mb by {
                let e = entry_edges@[k];
                assert(is_edge(&r0.cfg, e));
                assert(succs(r, e.from_block as int) == succs(&r2, e.from_block as int));
            }
            assert forall|k: int| 0 <= k < entry_edges@.len() implies {
                let e = #[trigger] entry_edges@[k];
                edge_ops(r, e.from_block as int, e.successor_index as int).len() == block_args(r, mb as int).len()
            } by {
                let e = entry_edges@[k];
                assert(is_edge(&r0.cfg, e));
                assert(succs(r, e.from_block as int) == succs(&r2, e.from_block as int));
                assert(r.operands@[e.from_block as int]@ == r2.operands@[e.from_block as int]@);
            }
            assert forall|b: int, s: int| 0 <= b < num_blocks(&r0) && 0 <= s < succs(&r0, b).len() && !edge_in(entry_edges@, b, s)
                implies #[trigger] succs(r, b)[s] == succs(&r0, b)[s] && edge_ops(r, b, s) == edge_ops(&r0, b, s) by {
                assert(succs(r, b) == succs(&r2, b));
                assert(r.operands@[b]@ == r2.operands@[b]@);
                assert(succs(&r2, b)[s] == succs(&r0, b)[s]);
            }
            assert forall|b: int| 0 <= b < num_blocks(&r0) implies #[trigger] succs(r, b).len() == succs(&r0, b).len()
                && block_args(r, b) == block_args(&r0, b)
                && r.terminators@[b] == r0.terminators@[b] by {
                assert(succs(r, b) == succs(&r2, b));
                assert(succs(&r2, b).len() == succs(&r0, b).len());
            }
        }
        mux
    }
}


impl TransformationContext {
    /// The block return-like operations of kind `kind` with operands of types `types` were
    /// combined into, if any.
    fn find_combined_exit(&self, kind: ReturnKind, types: &Vec<Type>) -> (r: Option<usize>)
        requires
            self.wf(),
        ensures
            r == self.combined_exit(kind, types@),
    {
        let mut i: usize = 0;
        while i < self.return_like_to_combined_exit.len()
            invariant
                self.wf(),
                i <= self.return_like_to_combined_exit@.len(),
                forall|j: int| 0 <= j < i ==> !((#[trigger] self.return_like_to_combined_exit@[j]).0 == kind && self.return_like_to_combined_exit@[j].1@ == types@),
            decreases self.return_like_to_combined_exit@.len() - i,
        {
            if self.return_like_to_combined_exit[i].0 == kind && types_eq(&self.return_like_to_combined_exit[i].1, types) {
                proof {
                    let x = self.return_like_to_combined_exit@;
                    let k = choose|k: int| 0 <= k < x.len() && (#[trigger] x[k]).0 == kind && x[k].1@ == types@;
                    if k != i {
                        if k < i {
                            assert(!(x[k].0 == x[i as int].0 && x[k].1@ == x[i as int].1@));
                        } else {
                            assert(!(x[i as int].0 == x[k].0 && x[i as int].1@ == x[k].1@));
                        }
                    }
                }
                return Some(self.return_like_to_combined_exit[i].2);
            }
            i = i + 1;
        }
        None
    }

    /// Turn the return-like operation ending block `b` into a branch to the one block holding
    /// return-like operations of its kind and operand types, passing its operands: the block
    /// found so far for that kind, or a new block with one argument per operand, which the
    /// operation moves to, with those arguments as its operands. Nothing changes when `b` is
    /// that block already.
    #[verifier::spinoff_prover]
    pub fn combine_exit(&mut self, b: usize)
        requires
            old(self).wf(),
            b < num_blocks(&old(self).region),
            old(self).region.terminators@[b as int] is ReturnLike,
            num_blocks(&old(self).region) < usize::MAX,
        ensures
            final(self).wf(),
            final(self).entry == old(self).entry,
            final(self).caches_extend(old(self)),
            exit_combine_result(old(self), final(self), b),
    {
        let ghost r0 = self.region;
        let (kind, ops) = match &self.region.terminators[b] {
            Terminator::ReturnLike { kind, operands } => (*kind, copy_values(operands)),
            _ => {
                proof {
                    assert(false);
                }
                (ReturnKind::Unreachable, Vec::new())
            }
        };
        proof {
            assert(terminator_values_ok(&r0, r0.terminators@[b as int]));
        }
        let types = operand_type_list(&self.region, &ops);
        match self.find_combined_exit(kind, &types) {
            Some(x) => {
                if x == b {
                    return;
                }
                let ghost c0 = *self;
                self.get_switch_value(0);
                let ghost c1 = *self;
                let ghost r1 = self.region;
                let ghost gops = ops@;
                self.region.terminators.set(b, Terminator::Br);
                self.region.cfg.successors.set(b, vec![x]);
                self.region.operands.set(b, vec![ops]);
                proof {
                    let r = &self.region;
                    assert(succs(r, b as int) =~= seq![x]);
                    assert forall|k: int| 0 <= k < gops.len() implies valid_value(&r1, #[trigger] gops[k]) by {
                        assert(valid_value(&r0, gops[k]));
                    }
                    assert forall|d: int| 0 <= d < num_blocks(&r1) && d != b implies #[trigger] succs(r, d) == succs(&r1, d)
                        && r.operands@[d]@ == r1.operands@[d]@ && r.terminators@[d] == r1.terminators@[d] by {
                    }
                    assert(c1.return_like_to_combined_exit@ == c0.return_like_to_combined_exit@);
                    lemma_branch_wf(&c1, self, b, x, gops);
                    assert(self.caches_extend(old(self))) by {
                        assert forall|d: u32| #[trigger] old(self).switch_cached(d) is Some implies self.switch_cached(d) == old(self).switch_cached(d) by {
                            assert(c1.switch_cached(d) == self.switch_cached(d));
                        }
                        assert forall|t: Type| #[trigger] old(self).undef_cached(t) is Some implies self.undef_cached(t) == old(self).undef_cached(t) by {
                            assert(c1.undef_cached(t) == self.undef_cached(t));
                        }
                    }
                    assert forall|c: int| 0 <= c < num_blocks(&r0) && c != b implies #[trigger] succs(r, c) == succs(&r0, c)
                        && r.operands@[c]@ == r0.operands@[c]@ && r.terminators@[c] == r0.terminators@[c] by {
                        assert(succs(&r1, c) == succs(&r0, c));
                    }
                    assert forall|c: int| 0 <= c < num_blocks(&r0) implies #[trigger] block_args(r, c) == block_args(&r0, c) by {
                        assert(block_args(&r1, c) == block_args(&r0, c));
                    }
                    assert forall|i: int| 0 <= i < r0.values@.len() implies #[trigger] r.values@[i] == r0.values@[i] by {
                        assert(r1.values@[i] == r0.values@[i]);
                    }
                }
            }
            None => {
                let ghost c0 = *self;
                let x = self.create_block();
                let mut k: usize = 0;
                while k < types.len()
                    invariant
                        self.wf(),
                        x == num_blocks(&r0),
                        num_blocks(&self.region) == x + 1,
                        k <= types@.len(),
                        block_args(&self.region, x as int) == value_range(r0.values@.len(), k as nat),
                        operand_types(&self.region, block_args(&self.region, x as int)) == types@.take(k as int),
                        self.region.values@.len() == r0.values@.len() + k,
                        forall|i: int| 0 <= i < r0.values@.len() ==> #[trigger] self.region.values@[i] == r0.values@[i],
                        blocks_kept(&r0, &self.region, num_blocks(&r0) as int),
                        forall|c: int| 0 <= c < num_blocks(&r0) ==> #[trigger] block_args(&self.region, c) == block_args(&r0, c),
                        succs(&self.region, x as int).len() == 0,
                        self.region.terminators@[x as int] == Terminator::Unterminated,
                        self.entry == old(self).entry,
                self.return_like_to_combined_exit@ == old(self).return_like_to_combined_exit@,
                        self.switch_value_cache@ == old(self).switch_value_cache@,
                        self.typed_undef_cache@ == old(self).typed_undef_cache@,
                        self.return_like_to_combined_exit@ == old(self).return_like_to_combined_exit@,
                        r0 == old(self).region,
                    decreases types@.len() - k,
                {
                    let ghost before = self.region;
                    let v = self.append_block_argument(x, types[k].clone());
                    proof {
                        let r = &self.region;
                        assert(value_range(r0.values@.len(), (k + 1) as nat) =~= value_range(r0.values@.len(), k as nat).push(v));
                        assert(operand_types(r, block_args(r, x as int)) =~= types@.take(k + 1)) by {
                            assert forall|j: int| 0 <= j < k + 1 implies #[trigger] operand_types(r, block_args(r, x as int))[j] == types@.take(k + 1)[j] by {
                                if j < k {
                                    let a = block_args(r, x as int)[j];
                                    assert(a == block_args(&before, x as int)[j]);
                                    assert(valid_value(&before, a));
                                    assert(r.values@[a.index as int] == before.values@[a.index as int]);
                                    assert(operand_types(&before, block_args(&before, x as int))[j] == types@.take(k as int)[j]);
                                }
                            }
                        }
                        assert forall|i: int| 0 <= i < r0.values@.len() implies #[trigger] r.values@[i] == r0.values@[i] by {
                            assert(before.values@[i] == r0.values@[i]);
                        }
                        assert forall|c: int| 0 <= c < num_blocks(&r0) implies #[trigger] block_args(r, c) == block_args(&r0, c) by {
                            assert(block_args(&before, c) == block_args(&r0, c));
                        }
                    }
                    k = k + 1;
                }
                proof {
                    assert(types@.take(k as int) =~= types@);
                }
                let types_copy = clone_types(&types);
                let ghost m0 = self.return_like_to_combined_exit@;
                self.return_like_to_combined_exit.push((kind, types_copy, x));
                proof {
                    let mm = self.return_like_to_combined_exit@;
                    assert(mm == m0.push((kind, types_copy, x)));
                    assert(old(self).combined_exit(kind, types@) is None);
                    assert forall|i: int, j: int| 0 <= i < j < mm.len() implies
                        !((#[trigger] mm[i]).0 == (#[trigger] mm[j]).0 && mm[i].1@ == mm[j].1@) by {
                        if j == m0.len() {
                            assert(mm[i] == m0[i]);
                            if m0[i].0 == kind && m0[i].1@ == types@ {
                                assert(exists|k: int| 0 <= k < m0.len() && (#[trigger] m0[k]).0 == kind && m0[k].1@ == types@);
                            }
                        } else {
                            assert(mm[i] == m0[i] && mm[j] == m0[j]);
                        }
                    }
                    assert forall|i: int| 0 <= i < mm.len() implies (#[trigger] mm[i]).2 < num_blocks(&self.region) by {
                        if i < m0.len() {
                            assert(mm[i] == m0[i]);
                        }
                    }
                }
                let ghost c1 = *self;
                self.get_switch_value(0);
                let ghost c1s = *self;
                let ghost r1 = self.region;
                let exit_args = copy_values(&self.region.args[x]);
                let ghost gops = ops@;
                let ghost gargs = exit_args@;
                self.region.terminators.set(b, Terminator::Br);
                self.region.cfg.successors.set(b, vec![x]);
                self.region.operands.set(b, vec![ops]);
                let ghost c2 = *self;
                proof {
                    let r = &self.region;
                    assert(succs(r, b as int) =~= seq![x]);
                    assert forall|k: int| 0 <= k < gops.len() implies valid_value(&r1, #[trigger] gops[k]) by {
                        assert(valid_value(&r0, gops[k]));
                    }
                    assert forall|d: int| 0 <= d < num_blocks(&r1) && d != b implies #[trigger] succs(r, d) == succs(&r1, d)
                        && r.operands@[d]@ == r1.operands@[d]@ && r.terminators@[d] == r1.terminators@[d] by {
                    }
                    lemma_branch_wf(&c1s, self, b, x, gops);
                }
                self.region.terminators.set(x, Terminator::ReturnLike { kind, operands: exit_args });
                proof {
                    let r = &self.region;
                    assert(gargs == block_args(&r1, x as int));
                    assert(block_args(&c2.region, x as int) == block_args(&r1, x as int));
                    assert forall|k: int| 0 <= k < gargs.len() implies valid_value(&c2.region, #[trigger] gargs[k]) by {
                        assert(gargs[k] == block_args(&c2.region, x as int)[k]);
                    }
                    lemma_return_like_wf(&c2, self, x, kind, gargs);
                    assert(self.caches_extend(old(self))) by {
                        assert forall|d: u32| #[trigger] old(self).switch_cached(d) is Some implies self.switch_cached(d) == old(self).switch_cached(d) by {
                            assert(c1.switch_cached(d) == old(self).switch_cached(d));
                            assert(c1s.switch_cached(d) == self.switch_cached(d));
                        }
                        assert forall|t: Type| #[trigger] old(self).undef_cached(t) is Some implies self.undef_cached(t) == old(self).undef_cached(t) by {
                            assert(c1.undef_cached(t) == old(self).undef_cached(t));
                            assert(c1s.undef_cached(t) == self.undef_cached(t));
                        }
                    }
                    assert(block_args(r, x as int) == block_args(&r1, x as int));
                    assert(operand_types(r, block_args(r, x as int)) =~= operand_types(&r1, block_args(&r1, x as int))) by {
                        assert forall|j: int| 0 <= j < block_args(r, x as int).len() implies #[trigger] operand_types(r, block_args(r, x as int))[j] == operand_types(&r1, block_args(&r1, x as int))[j] by {
                            assert(r.values@ == r1.values@);
                        }
                    }
                    assert(block_args(&r1, x as int) == block_args(&c1.region, x as int));
                    assert(operand_types(&r1, block_args(&r1, x as int)) =~= operand_types(&c1.region, block_args(&c1.region, x as int))) by {
                        assert forall|j: int| 0 <= j < block_args(&r1, x as int).len() implies #[trigger] operand_types(&r1, block_args(&r1, x as int))[j] == operand_types(&c1.region, block_args(&c1.region, x as int))[j] by {
                            let a = block_args(&c1.region, x as int)[j];
                            assert(valid_value(&c1.region, a));
                            assert(r1.values@[a.index as int] == c1.region.values@[a.index as int]);
                        }
                    }
                    assert(succs(r, x as int) == succs(&c1.region, x as int));
                    assert(succs(r, b as int) =~= seq![x]);
                    assert forall|c: int| 0 <= c < num_blocks(&r0) && c != b implies #[trigger] succs(r, c) == succs(&r0, c)
                        && r.operands@[c]@ == r0.operands@[c]@ && r.terminators@[c] == r0.terminators@[c] by {
                        assert(succs(&r1, c) == succs(&c1.region, c));
                        assert(succs(&c1.region, c) == succs(&r0, c));
                        assert(r1.operands@[c]@ == c1.region.operands@[c]@);
                        assert(r1.terminators@[c] == c1.region.terminators@[c]);
                    }
                    assert forall|c: int| 0 <= c < num_blocks(&r0) implies #[trigger] block_args(r, c) == block_args(&r0, c) by {
                        assert(block_args(&r1, c) == block_args(&c1.region, c));
                    }
                    assert forall|i: int| 0 <= i < r0.values@.len() implies #[trigger] r.values@[i] == r0.values@[i] by {
                        assert(r1.values@[i] == c1.region.values@[i]);
                    }
                    let mm = self.return_like_to_combined_exit@;
                    assert(mm.drop_last() =~= old(self).return_like_to_combined_exit@);
                }
            }
        }
    }
}


impl TransformationContext {
    /// Give the region a single block for each kind of return-like operation and types of its
    /// operands: every block ending with such an operation branches, passing its operands, to
    /// one new block that ends with it.
    #[verifier::spinoff_prover]
    fn create_single_exit_blocks_for_return_like(&mut self)
        requires
            old(self).wf(),
            old(self).return_like_to_combined_exit@.len() == 0,
            2 * num_blocks(&old(self).region) < usize::MAX,
        ensures
            final(self).wf(),
            exits_ok(final(self), num_blocks(&old(self).region)),
            forall|b: int| 0 <= b < num_blocks(&old(self).region) ==> exit_combined(&old(self).region, final(self), b),
            forall|b: int| 0 <= b < num_blocks(&old(self).region) ==> #[trigger] block_args(&final(self).region, b) == block_args(&old(self).region, b),
            final(self).region.values@.len() >= old(self).region.values@.len(),
            forall|i: int| 0 <= i < old(self).region.values@.len() ==> #[trigger] final(self).region.values@[i] == old(self).region.values@[i],
            single_exit_per_kind(&final(self).region),
            final(self).entry == old(self).entry,
            final(self).caches_extend(old(self)),
    {
        let ghost r0 = self.region;
        let n0 = self.region.terminators.len();
        let mut b: usize = 0;
        while b < n0
            invariant
                self.wf(),
                r0 == old(self).region,
                wf(&r0),
                n0 == num_blocks(&r0),
                2 * n0 < usize::MAX,
                b <= n0,
                exits_ok(self, n0 as nat),
                self.return_like_to_combined_exit@.len() <= b,
                forall|c: int| 0 <= c < b ==> exit_combined(&r0, self, c),
                forall|c: int| b <= c < n0 ==> #[trigger] succs(&self.region, c) == succs(&r0, c)
                    && self.region.operands@[c]@ == r0.operands@[c]@ && self.region.terminators@[c] == r0.terminators@[c],
                forall|c: int| 0 <= c < n0 ==> #[trigger] block_args(&self.region, c) == block_args(&r0, c),
                self.region.values@.len() >= r0.values@.len(),
                forall|i: int| 0 <= i < r0.values@.len() ==> #[trigger] self.region.values@[i] == r0.values@[i],
                self.entry == old(self).entry,
                self.caches_extend(old(self)),
            decreases n0 - b,
        {
            let is_return_like = match &self.region.terminators[b] {
                Terminator::ReturnLike { .. } => true,
                _ => false,
            };
            if is_return_like {
                let ghost before = *self;
                proof {
                    assert(succs(&self.region, b as int) == succs(&r0, b as int));
                }
                self.combine_exit(b);
                proof {
                    self.lemma_combine_step(&before, &r0, n0 as nat, b as int);
                }
            }
            b = b + 1;
        }
        proof {
            let r = &self.region;
            let mm = self.return_like_to_combined_exit@;
            assert forall|b1: int, b2: int| 0 <= b1 < num_blocks(r) && 0 <= b2 < num_blocks(r) implies {
                (#[trigger] r.terminators@[b1] matches Terminator::ReturnLike { kind: k1, operands: o1 } &&
                #[trigger] r.terminators@[b2] matches Terminator::ReturnLike { kind: k2, operands: o2 } &&
                k1 == k2 && operand_types(r, o1@) == operand_types(r, o2@)) ==> b1 == b2
            } by {
                if b1 < n0 {
                    assert(exit_combined(&r0, self, b1));
                }
                if b2 < n0 {
                    assert(exit_combined(&r0, self, b2));
                }
                if b1 >= n0 && b2 >= n0 && b1 != b2 {
                    let j1 = b1 - n0;
                    let j2 = b2 - n0;
                    assert(mm[j1].2 == b1 && mm[j2].2 == b2);
                    if j1 < j2 {
                        assert(!(mm[j1].0 == mm[j2].0 && mm[j1].1@ == mm[j2].1@));
                    } else {
                        assert(!(mm[j2].0 == mm[j1].0 && mm[j2].1@ == mm[j1].1@));
                    }
                }
            }
        }
    }
}


impl TransformationContext {
    /// Combining the exit of one more block keeps what combining return-like exits promises
    /// for the blocks before it, and the exits well formed.
    #[verifier::spinoff_prover]
    proof fn lemma_combine_step(&self, before: &TransformationContext, r0: &Region, n0: nat, b: int)
        requires
            before.wf(),
            self.wf(),
            wf(r0),
            n0 == num_blocks(r0),
            2 * n0 < usize::MAX,
            0 <= b < n0,
            exits_ok(before, n0),
            before.return_like_to_combined_exit@.len() <= b,
            forall|c: int| 0 <= c < b ==> exit_combined(r0, before, c),
            forall|c: int| b <= c < n0 ==> #[trigger] succs(&before.region, c) == succs(r0, c)
                && before.region.operands@[c]@ == r0.operands@[c]@ && before.region.terminators@[c] == r0.terminators@[c],
            forall|c: int| 0 <= c < n0 ==> #[trigger] block_args(&before.region, c) == block_args(r0, c),
            before.region.values@.len() >= r0.values@.len(),
            forall|i: int| 0 <= i < r0.values@.len() ==> #[trigger] before.region.values@[i] == r0.values@[i],
            before.region.terminators@[b] is ReturnLike,
            exit_combine_result(before, self, b as usize),
        ensures
            exits_ok(self, n0),
            self.return_like_to_combined_exit@.len() <= b + 1,
            forall|c: int| 0 <= c < b + 1 ==> exit_combined(r0, self, c),
            forall|c: int| b + 1 <= c < n0 ==> #[trigger] succs(&self.region, c) == succs(r0, c)
                && self.region.operands@[c]@ == r0.operands@[c]@ && self.region.terminators@[c] == r0.terminators@[c],
            forall|c: int| 0 <= c < n0 ==> #[trigger] block_args(&self.region, c) == block_args(r0, c),
            self.region.values@.len() >= r0.values@.len(),
            forall|i: int| 0 <= i < r0.values@.len() ==> #[trigger] self.region.values@[i] == r0.values@[i],
    {
        let rb = &before.region;
        let r = &self.region;
        let mb = before.return_like_to_combined_exit@;
        let kind = rb.terminators@[b]->ReturnLike_kind;
        let ops = rb.terminators@[b]->ReturnLike_operands@;
        assert(succs(rb, b) == succs(r0, b));
        assert(rb.terminators@[b] == r0.terminators@[b]);
        assert(terminator_values_ok(r0, r0.terminators@[b]));
        assert(operand_types(rb, ops) =~= operand_types(r0, ops)) by {
            assert forall|k: int| 0 <= k < ops.len() implies #[trigger] operand_types(rb, ops)[k] == operand_types(r0, ops)[k] by {
                assert(valid_value(r0, ops[k]));
                assert(rb.values@[ops[k].index as int] == r0.values@[ops[k].index as int]);
            }
        }
        let types = operand_types(r0, ops);
        match before.combined_exit(kind, types) {
            Some(x) => {
                let i = choose|i: int| 0 <= i < mb.len() && (#[trigger] mb[i]).0 == kind && mb[i].1@ == types;
                assert(mb[i].2 == n0 + i);
                assert(x != b);
                assert(self.return_like_to_combined_exit@ == mb);
                assert forall|k: ReturnKind, t: Seq<Type>| #[trigger] self.combined_exit(k, t) == before.combined_exit(k, t) by {
                }
                assert forall|j: int| 0 <= j < mb.len() implies {
                    let x2 = n0 + j;
                    &&& (#[trigger] mb[j]).2 == x2
                    &&& r.terminators@[x2] matches Terminator::ReturnLike { kind, operands } && kind == mb[j].0 && operands@ == block_args(r, x2)
                    &&& operand_types(r, block_args(r, x2)) == mb[j].1@
                    &&& succs(r, x2).len() == 0
                } by {
                    let x2 = n0 + j;
                    assert(succs(r, x2) == succs(rb, x2));
                    assert(block_args(r, x2) == block_args(rb, x2));
                    assert(operand_types(r, block_args(r, x2)) =~= operand_types(rb, block_args(rb, x2))) by {
                        assert forall|k: int| 0 <= k < block_args(rb, x2).len() implies #[trigger] operand_types(r, block_args(r, x2))[k] == operand_types(rb, block_args(rb, x2))[k] by {
                            let a = block_args(rb, x2)[k];
                            assert(valid_value(rb, a));
                            assert(r.values@[a.index as int] == rb.values@[a.index as int]);
                        }
                    }
                }
                assert forall|c: int| 0 <= c < b + 1 implies exit_combined(r0, self, c) by {
                    if c < b {
                        assert(exit_combined(r0, before, c));
                        assert(succs(r, c) == succs(rb, c));
                    }
                }
                assert forall|c: int| b + 1 <= c < n0 implies #[trigger] succs(r, c) == succs(r0, c)
                    && r.operands@[c]@ == r0.operands@[c]@ && r.terminators@[c] == r0.terminators@[c] by {
                    assert(succs(rb, c) == succs(r0, c));
                }
                assert forall|c: int| 0 <= c < n0 implies #[trigger] block_args(r, c) == block_args(r0, c) by {
                    assert(block_args(rb, c) == block_args(r0, c));
                }
                assert forall|i2: int| 0 <= i2 < r0.values@.len() implies #[trigger] r.values@[i2] == r0.values@[i2] by {
                    assert(rb.values@[i2] == r0.values@[i2]);
                }
            }
            None => {
                let x = num_blocks(rb) as usize;
                let trb = operand_types(rb, ops);
                assert(trb == types);
                assert(before.combined_exit(kind, trb) is None);
                assert(self.return_like_to_combined_exit@.last().1@ == trb);
                lemma_combined_exit_push(before, self, kind, types, x);
                let m1 = self.return_like_to_combined_exit@;
                assert forall|j: int| 0 <= j < m1.len() implies {
                    let x2 = n0 + j;
                    &&& (#[trigger] m1[j]).2 == x2
                    &&& r.terminators@[x2] matches Terminator::ReturnLike { kind, operands } && kind == m1[j].0 && operands@ == block_args(r, x2)
                    &&& operand_types(r, block_args(r, x2)) == m1[j].1@
                    &&& succs(r, x2).len() == 0
                } by {
                    let x2 = n0 + j;
                    if j == mb.len() {
                        assert(x2 == x);
                        assert(m1[j] == m1.last());
                    } else {
                        assert(m1[j] == m1.drop_last()[j]);
                        assert(succs(r, x2) == succs(rb, x2));
                        assert(block_args(r, x2) == block_args(rb, x2));
                        assert(operand_types(r, block_args(r, x2)) =~= operand_types(rb, block_args(rb, x2))) by {
                            assert forall|k: int| 0 <= k < block_args(rb, x2).len() implies #[trigger] operand_types(r, block_args(r, x2))[k] == operand_types(rb, block_args(rb, x2))[k] by {
                                let a = block_args(rb, x2)[k];
                                assert(valid_value(rb, a));
                                assert(r.values@[a.index as int] == rb.values@[a.index as int]);
                            }
                        }
                    }
                }
                assert forall|c: int| 0 <= c < b + 1 implies exit_combined(r0, self, c) by {
                    if c < b {
                        assert(exit_combined(r0, before, c));
                        assert(succs(r, c) == succs(rb, c));
                        match r0.terminators@[c] {
                            Terminator::ReturnLike { kind: k, operands } => {
                                assert(before.combined_exit(k, operand_types(r0, operands@)) is Some);
                                assert(self.combined_exit(k, operand_types(r0, operands@)) == before.combined_exit(k, operand_types(r0, operands@)));
                            }
                            _ => {}
                        }
                    }
                }
                assert forall|c: int| b + 1 <= c < n0 implies #[trigger] succs(r, c) == succs(r0, c)
                    && r.operands@[c]@ == r0.operands@[c]@ && r.terminators@[c] == r0.terminators@[c] by {
                    assert(succs(rb, c) == succs(r0, c));
                }
                assert forall|c: int| 0 <= c < n0 implies #[trigger] block_args(r, c) == block_args(r0, c) by {
                    assert(block_args(rb, c) == block_args(r0, c));
                }
                assert forall|i2: int| 0 <= i2 < r0.values@.len() implies #[trigger] r.values@[i2] == r0.values@[i2] by {
                    assert(rb.values@[i2] == r0.values@[i2]);
                }
            }
        }
    }
}


impl TransformationContext {
    /// The context of the transformation of `region`, whose entry block is `entry`. Making it
    /// gives the region a single block for each kind of return-like operation and types of its
    /// operands, which every block that ended with such an operation now branches to.
    pub fn new(region: Region, entry: usize) -> (ctx: TransformationContext)
        requires
            wf(&region),
            entry < num_blocks(&region),
            2 * num_blocks(&region) < usize::MAX,
        ensures
            ctx.wf(),
            ctx.entry == entry,
            exits_ok(&ctx, num_blocks(&region)),
            forall|b: int| 0 <= b < num_blocks(&region) ==> exit_combined(&region, &ctx, b),
            forall|b: int| 0 <= b < num_blocks(&region) ==> #[trigger] block_args(&ctx.region, b) == block_args(&region, b),
            ctx.region.values@.len() >= region.values@.len(),
            forall|i: int| 0 <= i < region.values@.len() ==> #[trigger] ctx.region.values@[i] == region.values@[i],
            single_exit_per_kind(&ctx.region),
    {
        let ghost r0 = region;
        let mut ctx = TransformationContext {
            region,
            entry,
            switch_value_cache: Vec::new(),
            typed_undef_cache: Vec::new(),
            return_like_to_combined_exit: Vec::new(),
        };
        ctx.create_single_exit_blocks_for_return_like();
        ctx
    }
}


impl TransformationContext {
    /// Redirect the back edges and then the exit edges of a loop to the multiplexer `mux` of
    /// its latch, each passing a flag that is `1` for a back edge and `0` for an exit edge, and
    /// give back those flags in the order of the edges.
    #[verifier::spinoff_prover]
    fn redirect_loop_edges(
        &mut self,
        mux: &EdgeMultiplexer,
        back_edges: &[Edge],
        exit_edges: &[Edge],
        successors: &Vec<usize>,
        exit_block: usize,
        Ghost(r0): Ghost<Region>,
    ) -> (flags_out: Ghost<Seq<ValueRef>>)
        requires
            old(self).wf(),
            mux.valid(old(self)),
            wf(&r0),
            back_edges@.len() + exit_edges@.len() <= u32::MAX,
            mux.multiplexer_block == num_blocks(&r0),
            exit_block == mux.multiplexer_block + 1,
            num_blocks(&old(self).region) == num_blocks(&r0) + 2,
            mux.block_arg_mapping@.len() <= back_edges@.len() + exit_edges@.len(),
            successors@.len() == back_edges@.len() + exit_edges@.len(),
            forall|k: int| 0 <= k < successors@.len() ==> #[trigger] successors@[k] == target(&r0.cfg, (back_edges@ + exit_edges@)[k]),
            forall|k: int| 0 <= k < successors@.len() ==> mapping_keys(mux.block_arg_mapping@).contains(#[trigger] successors@[k]),
            forall|k: int| 0 <= k < successors@.len() ==> is_edge(&r0.cfg, #[trigger] loop_edge(back_edges@, exit_edges@, k)),
            forall|a: int, c: int| 0 <= a < c < successors@.len() ==> #[trigger] loop_edge(back_edges@, exit_edges@, a) != #[trigger] loop_edge(back_edges@, exit_edges@, c),
            block_args(&old(self).region, mux.multiplexer_block as int).len() == mapped_end(&old(self).region, mux.block_arg_mapping@) + (if mux.discriminator is Some { 1int } else { 0int }) + 1,
            succs(&old(self).region, mux.multiplexer_block as int).len() == 0,
            old(self).region.terminators@[mux.multiplexer_block as int] == Terminator::Unterminated,
            succs(&old(self).region, exit_block as int).len() == 0,
            old(self).region.terminators@[exit_block as int] == Terminator::Unterminated,
            block_args(&old(self).region, exit_block as int).len() == 0,
            others_kept(&r0, &old(self).region, back_edges@ + exit_edges@, 0),
        ensures
            final(self).wf(),
            mux.valid(final(self)),
            num_blocks(&final(self).region) == num_blocks(&r0) + 2,
            block_args(&final(self).region, mux.multiplexer_block as int).len() == mapped_end(&final(self).region, mux.block_arg_mapping@) + (if mux.discriminator is Some { 1int } else { 0int }) + 1,
            succs(&final(self).region, mux.multiplexer_block as int).len() == 0,
            final(self).region.terminators@[mux.multiplexer_block as int] == Terminator::Unterminated,
            succs(&final(self).region, exit_block as int).len() == 0,
            final(self).region.terminators@[exit_block as int] == Terminator::Unterminated,
            block_args(&final(self).region, exit_block as int).len() == 0,
            flags_out@.len() == back_edges@.len() + exit_edges@.len(),
            forall|k: int| 0 <= k < flags_out@.len() ==> const_value(&final(self).region, #[trigger] flags_out@[k]) == Some(if k < back_edges@.len() { 1u32 } else { 0u32 }),
            entries_redirected(&r0, &final(self).region, mux, back_edges@ + exit_edges@, flag_extras(flags_out@), flags_out@.len() as int),
            others_kept(&r0, &final(self).region, back_edges@ + exit_edges@, flags_out@.len() as int),
            final(self).entry == old(self).entry,
            final(self).caches_extend(old(self)),
            final(self).return_like_to_combined_exit@ == old(self).return_like_to_combined_exit@,
            final(self).region.values@.len() >= old(self).region.values@.len(),
            forall|i: int| 0 <= i < old(self).region.values@.len() ==> #[trigger] final(self).region.values@[i] == old(self).region.values@[i],
    {
        let ghost all = back_edges@ + exit_edges@;
        let nb = back_edges.len();
        let ne = exit_edges.len();
        let latch = mux.multiplexer_block;
        let ghost m = mux.block_arg_mapping@;
        let ghost mut flags: Seq<ValueRef> = Seq::empty();
        let mut j: usize = 0;
        while j < nb + ne
            invariant
                self.wf(),
                mux.valid(self),
                all == back_edges@ + exit_edges@,
                nb == back_edges@.len(),
                ne == exit_edges@.len(),
                nb + ne <= u32::MAX,
                j <= nb + ne,
                wf(&r0),
                latch == mux.multiplexer_block,
                latch == num_blocks(&r0),
                exit_block == latch + 1,
                num_blocks(&self.region) == num_blocks(&r0) + 2,
                m == mux.block_arg_mapping@,
                m.len() <= nb + ne,
                successors@.len() == nb + ne,
                forall|k: int| 0 <= k < nb + ne ==> #[trigger] successors@[k] == target(&r0.cfg, all[k]),
                forall|k: int| 0 <= k < nb + ne ==> mapping_keys(m).contains(#[trigger] successors@[k]),
                forall|k: int| 0 <= k < nb + ne ==> is_edge(&r0.cfg, #[trigger] loop_edge(back_edges@, exit_edges@, k)),
                forall|a: int, c: int| 0 <= a < c < nb + ne ==> #[trigger] loop_edge(back_edges@, exit_edges@, a) != #[trigger] loop_edge(back_edges@, exit_edges@, c),
                block_args(&self.region, latch as int).len() == mapped_end(&self.region, m) + (if mux.discriminator is Some { 1int } else { 0int }) + 1,
                succs(&self.region, latch as int).len() == 0,
                self.region.terminators@[latch as int] == Terminator::Unterminated,
                succs(&self.region, exit_block as int).len() == 0,
                self.region.terminators@[exit_block as int] == Terminator::Unterminated,
                block_args(&self.region, exit_block as int).len() == 0,
                flags.len() == j,
                forall|k: int| 0 <= k < j ==> const_value(&self.region, #[trigger] flags[k]) == Some(if k < nb { 1u32 } else { 0u32 }),
                entries_redirected(&r0, &self.region, mux, all, flag_extras(flags), j as int),
                others_kept(&r0, &self.region, all, j as int),
                self.entry == old(self).entry,
                self.caches_extend(old(self)),
                self.return_like_to_combined_exit@ == old(self).return_like_to_combined_exit@,
                self.region.values@.len() >= old(self).region.values@.len(),
                forall|i: int| 0 <= i < old(self).region.values@.len() ==> #[trigger] self.region.values@[i] == old(self).region.values@[i],
            decreases nb + ne - j,
        {
            let ghost before = *self;
            let e = if j < nb { &back_edges[j] } else { &exit_edges[j - nb] };
            proof {
                assert(*e == all[j as int]);
                assert(*e == loop_edge(back_edges@, exit_edges@, j as int));
                assert(is_edge(&r0.cfg, *e));
                assert(!edge_in(all.take(j as int), e.from_block as int, e.successor_index as int)) by {
                    if edge_in(all.take(j as int), e.from_block as int, e.successor_index as int) {
                        let k = choose|k: int| 0 <= k < all.take(j as int).len() && (#[trigger] all.take(j as int)[k]).from_block == e.from_block as int && all.take(j as int)[k].successor_index == e.successor_index as int;
                        assert(loop_edge(back_edges@, exit_edges@, k) == all[k]);
                        assert(all[k] == all[j as int]);
                    }
                }
                assert(succs(&self.region, e.from_block as int).len() == succs(&r0, e.from_block as int).len());
                assert(succs(&self.region, e.from_block as int)[e.successor_index as int] == succs(&r0, e.from_block as int)[e.successor_index as int]);
                assert(successors@[j as int] == target(&r0.cfg, all[j as int]));
            }
            let flag = self.get_switch_value(if j < nb { 1 } else { 0 });
            let extra = vec![flag];
            let ghost bs = *self;
            proof {
                assert(extra@ =~= seq![flag]);
                assert(mapped_end(&self.region, m) == mapped_end(&before.region, m)) by {
                    let lk = m[m.len() - 1].0;
                    assert(block_args(&self.region, lk as int) == block_args(&before.region, lk as int));
                }
                lemma_valid_kept(mux, &before, self);
                assert(succs(&self.region, e.from_block as int) == succs(&before.region, e.from_block as int));
            }
            mux.redirect_edge(self, e, extra.as_slice());
            proof {
                let r = &self.region;
                let rb = &bs.region;
                assert(entries_redirected(&r0, rb, mux, all, flag_extras(flags), j as int)) by {
                    assert forall|k: int| 0 <= k < j implies {
                        let ek = #[trigger] all[k];
                        let env = edge_ops(rb, ek.from_block as int, ek.successor_index as int);
                        &&& target(&rb.cfg, ek) == mux.multiplexer_block
                        &&& env.len() == block_args(rb, mux.multiplexer_block as int).len()
                        &&& forall|x: int| 0 <= x < env.len() ==> redirected_operand_ok(rb, mux, key_position(m, target(&r0.cfg, ek)), flag_extras(flags)[k], edge_ops(&r0, ek.from_block as int, ek.successor_index as int), x, #[trigger] env[x])
                    } by {
                        let ek = all[k];
                        let fk = ek.from_block as int;
                        assert(ek == loop_edge(back_edges@, exit_edges@, k));
                        assert(is_edge(&r0.cfg, ek));
                        assert(fk < num_blocks(&before.region));
                        assert(succs(rb, fk) == succs(&before.region, fk));
                        assert(rb.operands@[fk]@ == before.region.operands@[fk]@);
                        let env = edge_ops(rb, fk, ek.successor_index as int);
                        assert forall|x: int| 0 <= x < env.len() implies redirected_operand_ok(rb, mux, key_position(m, target(&r0.cfg, ek)), flag_extras(flags)[k], edge_ops(&r0, fk, ek.successor_index as int), x, #[trigger] env[x]) by {
                            lemma_redirected_ok_kept(&before.region, rb, mux, key_position(m, target(&r0.cfg, ek)), flag_extras(flags)[k], edge_ops(&r0, fk, ek.successor_index as int), x, env[x]);
                        }
                    }
                }
                assert(others_kept(&r0, rb, all, j as int)) by {
                    assert forall|b: int, s: int| 0 <= b < num_blocks(&r0) && 0 <= s < succs(&r0, b).len() && !edge_in(all.take(j as int), b, s)
                        implies #[trigger] succs(rb, b)[s] == succs(&r0, b)[s] && edge_ops(rb, b, s) == edge_ops(&r0, b, s) by {
                        assert(succs(rb, b) == succs(&before.region, b));
                        assert(rb.operands@[b]@ == before.region.operands@[b]@);
                        assert(succs(&before.region, b)[s] == succs(&r0, b)[s]);
                    }
                    assert forall|b: int| 0 <= b < num_blocks(&r0) implies #[trigger] succs(rb, b).len() == succs(&r0, b).len() by {
                        assert(succs(rb, b) == succs(&before.region, b));
                    }
                    assert forall|b: int| 0 <= b < num_blocks(&r0) implies #[trigger] block_args(rb, b) == block_args(&r0, b) by {
                        assert(block_args(&before.region, b) == block_args(&r0, b));
                    }
                    assert forall|b: int| 0 <= b < num_blocks(&r0) implies #[trigger] rb.terminators@[b] == r0.terminators@[b] by {
                        assert(before.region.terminators@[b] == r0.terminators@[b]);
                    }
                }
                assert(all[flags.len() as int] == *e);
                assert forall|k: int| 0 <= k < all.len() implies is_edge(&r0.cfg, #[trigger] all[k]) by {
                    assert(all[k] == loop_edge(back_edges@, exit_edges@, k));
                }
                assert forall|a: int, c: int| 0 <= a < c < all.len() implies #[trigger] all[a] != #[trigger] all[c] by {
                    assert(all[a] == loop_edge(back_edges@, exit_edges@, a));
                    assert(all[c] == loop_edge(back_edges@, exit_edges@, c));
                }
                lemma_latch_step(&r0, rb, r, mux, all, flags, flag);
                assert forall|i: int| 0 <= i < old(self).region.values@.len() implies #[trigger] r.values@[i] == old(self).region.values@[i] by {
                    assert(before.region.values@[i] == old(self).region.values@[i]);
                    assert(rb.values@[i] == before.region.values@[i]);
                }
                assert forall|k: int| 0 <= k < j + 1 implies const_value(r, #[trigger] flags.push(flag)[k]) == Some(if k < nb { 1u32 } else { 0u32 }) by {
                    if k < j {
                        assert(flags.push(flag)[k] == flags[k]);
                        assert(const_value(&before.region, flags[k]) == Some(if k < nb { 1u32 } else { 0u32 }));
                        assert(valid_value(&before.region, flags[k]));
                        assert(r.values@[flags[k].index as int] == before.region.values@[flags[k].index as int]);
                    } else {
                        assert(r.values@[flag.index as int] == rb.values@[flag.index as int]);
                    }
                }
                assert(mapped_end(r, m) == mapped_end(rb, m)) by {
                    let lk = m[m.len() - 1].0;
                    assert(block_args(r, lk as int) == block_args(rb, lk as int));
                }
                assert(succs(r, latch as int) == succs(rb, latch as int));
                assert(succs(r, exit_block as int) == succs(rb, exit_block as int));
                assert(block_args(r, exit_block as int) == block_args(rb, exit_block as int));
                assert(self.caches_extend(old(self))) by {
                    assert forall|d: u32| #[trigger] old(self).switch_cached(d) is Some implies self.switch_cached(d) == old(self).switch_cached(d) by {
                        assert(before.switch_cached(d) == old(self).switch_cached(d));
                        assert(bs.switch_cached(d) == before.switch_cached(d));
                    }
                    assert forall|t: Type| #[trigger] old(self).undef_cached(t) is Some implies self.undef_cached(t) == old(self).undef_cached(t) by {
                        assert(before.undef_cached(t) == old(self).undef_cached(t));
                        assert(bs.undef_cached(t) == before.undef_cached(t));
                    }
                }
            }
            proof {
                flags = flags.push(flag);
            }
            j = j + 1;
        }
        Ghost(flags)
    }
}


/// The `k`-th of the back edges followed by the exit edges.
pub open spec fn loop_edge(back_edges: Seq<Edge>, exit_edges: Seq<Edge>, k: int) -> Edge {
    (back_edges + exit_edges)[k]
}

impl TransformationContext {
    /// Give a loop a single latch: a new block that its back edges and exit edges are all
    /// redirected to, passing a flag that is `1` for a back edge and `0` for an exit edge. The
    /// latch branches on that flag to the loop header, or to a new exit block that switches on
    /// to the original targets of the exit edges, or, for a loop with no exit edge, ends with
    /// an unreachable operation that is combined with the others of its kind.
    #[verifier::rlimit(100)]
    #[verifier::spinoff_prover]
    pub fn create_single_exiting_latch(&mut self, back_edges: &[Edge], exit_edges: &[Edge]) -> (p: StructuredLoopProperties)
        requires
            old(self).wf(),
            back_edges@.len() >= 1,
            back_edges@.len() + exit_edges@.len() <= u32::MAX,
            num_blocks(&old(self).region) + 3 < usize::MAX,
            forall|k: int| 0 <= k < back_edges@.len() + exit_edges@.len() ==> is_edge(&old(self).region.cfg, #[trigger] loop_edge(back_edges@, exit_edges@, k)),
            forall|i: int, j: int| 0 <= i < j < back_edges@.len() + exit_edges@.len() ==> #[trigger] loop_edge(back_edges@, exit_edges@, i) != #[trigger] loop_edge(back_edges@, exit_edges@, j),
            forall|k: int| 0 <= k < back_edges@.len() ==> target(&old(self).region.cfg, #[trigger] back_edges@[k]) == target(&old(self).region.cfg, back_edges@[0]),
            forall|k: int| 0 <= k < exit_edges@.len() ==> target(&old(self).region.cfg, #[trigger] exit_edges@[k]) != target(&old(self).region.cfg, back_edges@[0]),
        ensures
            final(self).wf(),
            p.latch == num_blocks(&old(self).region),
            p.exit_block == p.latch + 1,
            latch_branch(&final(self).region, p.latch, target(&old(self).region.cfg, back_edges@[0]), p.exit_block),
            p.condition == block_args(&final(self).region, p.latch as int).last(),
            forall|k: int| 0 <= k < back_edges@.len() + exit_edges@.len() ==> target(&final(self).region.cfg, #[trigger] loop_edge(back_edges@, exit_edges@, k)) == p.latch,
            forall|k: int| 0 <= k < back_edges@.len() ==> {
                let e = #[trigger] back_edges@[k];
                let r0 = &old(self).region;
                let orig = edge_ops(r0, e.from_block as int, e.successor_index as int);
                orig.len() == block_args(r0, target(&r0.cfg, e) as int).len()
                    ==> hop(&final(self).region, p.latch, edge_ops(&final(self).region, e.from_block as int, e.successor_index as int), p.latch as int)
                        == Some((target(&r0.cfg, e), orig))
            },
            forall|k: int| 0 <= k < exit_edges@.len() ==> {
                let e = #[trigger] exit_edges@[k];
                let r0 = &old(self).region;
                let orig = edge_ops(r0, e.from_block as int, e.successor_index as int);
                let env = edge_ops(&final(self).region, e.from_block as int, e.successor_index as int);
                orig.len() == block_args(r0, target(&r0.cfg, e) as int).len() ==> {
                    &&& hop(&final(self).region, p.latch, env, p.latch as int) == Some((p.exit_block, Seq::<ValueRef>::empty()))
                    &&& hop(&final(self).region, p.latch, env, p.exit_block as int) == Some((target(&r0.cfg, e), orig))
                }
            },
            exit_edges@.len() == 0 ==> (final(self).combined_exit(ReturnKind::Unreachable, Seq::empty()) matches Some(u)
                && final(self).region.terminators@[p.exit_block as int] == Terminator::Br
                && succs(&final(self).region, p.exit_block as int) == seq![u]
                && edge_ops(&final(self).region, p.exit_block as int, 0) == Seq::<ValueRef>::empty()),
            forall|b: int, s: int| 0 <= b < num_blocks(&old(self).region) && 0 <= s < succs(&old(self).region, b).len() && !edge_in(back_edges@ + exit_edges@, b, s)
                ==> #[trigger] succs(&final(self).region, b)[s] == succs(&old(self).region, b)[s] && edge_ops(&final(self).region, b, s) == edge_ops(&old(self).region, b, s),
            forall|b: int| 0 <= b < num_blocks(&old(self).region) ==> #[trigger] block_args(&final(self).region, b) == block_args(&old(self).region, b),
            forall|b: int| 0 <= b < num_blocks(&old(self).region) ==> #[trigger] succs(&final(self).region, b).len() == succs(&old(self).region, b).len()
                && final(self).region.terminators@[b] == old(self).region.terminators@[b],
            final(self).region.values@.len() >= old(self).region.values@.len(),
            forall|i: int| 0 <= i < old(self).region.values@.len() ==> #[trigger] final(self).region.values@[i] == old(self).region.values@[i],
            num_blocks(&final(self).region) >= num_blocks(&old(self).region) + 2,
            final(self).entry == old(self).entry,
            final(self).caches_extend(old(self)),
    {
        let ghost r0 = self.region;
        let ghost all = back_edges@ + exit_edges@;
        let nb = back_edges.len();
        let ne = exit_edges.len();
        let mut successors: Vec<usize> = Vec::new();
        let mut i: usize = 0;
        while i < nb + ne
            invariant
                self.region == r0,
                wf(&r0),
                all == back_edges@ + exit_edges@,
                nb == back_edges@.len(),
                ne == exit_edges@.len(),
                i <= nb + ne,
                nb + ne <= u32::MAX,
                forall|k: int| 0 <= k < nb + ne ==> is_edge(&r0.cfg, #[trigger] loop_edge(back_edges@, exit_edges@, k)),
                successors@.len() == i,
                forall|k: int| 0 <= k < i ==> #[trigger] successors@[k] == target(&r0.cfg, all[k]),
            decreases nb + ne - i,
        {
            let e = if i < nb { &back_edges[i] } else { &exit_edges[i - nb] };
            proof {
                assert(*e == all[i as int]);
                assert(is_edge(&r0.cfg, loop_edge(back_edges@, exit_edges@, i as int)));
            }
            successors.push(e.get_successor(&self.region.cfg));
            i = i + 1;
        }
        proof {
            assert forall|k: int| 0 <= k < successors@.len() implies #[trigger] successors@[k] < num_blocks(&r0) by {
                let e = all[k];
                assert(is_edge(&r0.cfg, loop_edge(back_edges@, exit_edges@, k)));
                assert(succs(&r0, e.from_block as int)[e.successor_index as int] < num_blocks(&r0));
            }
            lemma_arg_mapping_keys(&r0, successors@);
            lemma_arg_mapping_first(&r0, successors@);
        }
        let flag_zero = self.get_switch_value(0);
        let ghost c_sw = *self;
        let flag_type = self.region.values[flag_zero.index].ty.clone();
        let extra_types = vec![flag_type];
        proof {
            lemma_arg_mapping_keys(&self.region, successors@);
            lemma_arg_mapping_first(&self.region, successors@);
        }
        let mux = EdgeMultiplexer::create(self, successors.as_slice(), extra_types.as_slice());
        let ghost c_cr = *self;
        let latch = mux.multiplexer_block;
        let ghost ra = self.region;
        let ghost m = mux.block_arg_mapping@;
        let ghost rb0 = self.region;
        proof {
            assert(target(&self.region.cfg, back_edges@[0]) == target(&r0.cfg, back_edges@[0])) by {
                assert(is_edge(&r0.cfg, loop_edge(back_edges@, exit_edges@, 0)));
                assert(all[0] == back_edges@[0]);
                let e = back_edges@[0];
                assert(succs(&self.region, e.from_block as int) == succs(&r0, e.from_block as int));
            }
        }
        let exit_block = self.create_block();
        proof {
            assert(is_edge(&r0.cfg, loop_edge(back_edges@, exit_edges@, 0)));
            assert(all[0] == back_edges@[0]);
            let e = back_edges@[0];
            assert(succs(&self.region, e.from_block as int) == succs(&r0, e.from_block as int));
        }
        let loop_header = back_edges[0].get_successor(&self.region.cfg);
        proof {
            assert(self.caches_extend(old(self))) by {
                assert forall|d: u32| #[trigger] old(self).switch_cached(d) is Some implies self.switch_cached(d) == old(self).switch_cached(d) by {
                    assert(c_sw.switch_cached(d) == old(self).switch_cached(d));
                    assert(c_cr.switch_cached(d) == c_sw.switch_cached(d));
                    assert(self.switch_cached(d) == c_cr.switch_cached(d));
                }
                assert forall|t: Type| #[trigger] old(self).undef_cached(t) is Some implies self.undef_cached(t) == old(self).undef_cached(t) by {
                    assert(c_sw.undef_cached(t) == old(self).undef_cached(t));
                    assert(c_cr.undef_cached(t) == c_sw.undef_cached(t));
                    assert(self.typed_undef_cache@ == c_cr.typed_undef_cache@);
                }
            }
        }
        let ghost pre = *self;
        let ghost_flags = self.redirect_loop_edges(&mux, back_edges, exit_edges, &successors, exit_block, Ghost(r0));
        let ghost flags: Seq<ValueRef> = ghost_flags@;
        proof {
            assert(self.caches_extend(old(self))) by {
                assert forall|d: u32| #[trigger] old(self).switch_cached(d) is Some implies self.switch_cached(d) == old(self).switch_cached(d) by {
                    assert(pre.switch_cached(d) == old(self).switch_cached(d));
                }
                assert forall|t: Type| #[trigger] old(self).undef_cached(t) is Some implies self.undef_cached(t) == old(self).undef_cached(t) by {
                    assert(pre.undef_cached(t) == old(self).undef_cached(t));
                }
            }
        }
        let ghost rm = self.region;
        let ghost cm = *self;
        let argc = self.region.args[latch].len();
        let should_repeat = self.region.args[latch][argc - 1];
        let nh = self.region.args[loop_header].len();
        proof {
            assert(m[0] == (successors@[0], 0usize));
            assert(successors@[0] == target(&r0.cfg, all[0]));
            assert(all[0] == back_edges@[0]);
            assert(loop_header == successors@[0]);
            lemma_mapped_end_mono(&self.region, m, 1);
            assert(m.take(1).last() == m[0]);
            assert(nh <= argc);
            assert(valid_value(&self.region, block_args(&self.region, latch as int)[argc - 1]));
        }
        let latch_args = copy_range(&self.region.args[latch], 0, nh);
        let ghost latch_ops = latch_args@;
        self.region.terminators.set(latch, Terminator::CondBr { condition: should_repeat });
        self.region.cfg.successors.set(latch, vec![loop_header, exit_block]);
        self.region.operands.set(latch, vec![latch_args, Vec::new()]);
        proof {
            let r = &self.region;
            assert(succs(r, latch as int) =~= seq![loop_header, exit_block]);
            assert(edge_ops(r, latch as int, 1) =~= Seq::<ValueRef>::empty());
            let ops = seq![latch_ops, Seq::<ValueRef>::empty()];
            assert forall|i: int| 0 <= i < ops.len() implies #[trigger] edge_ops(r, latch as int, i) == ops[i] by {
            }
            assert forall|i: int, k: int| 0 <= i < ops.len() && 0 <= k < ops[i].len() implies valid_value(&rm, #[trigger] ops[i][k]) by {
                assert(ops[i][k] == block_args(&rm, latch as int)[k]);
            }
            let tg = seq![loop_header, exit_block];
            assert forall|i: int| 0 <= i < tg.len() implies #[trigger] tg[i] < num_blocks(&rm) by {
                assert(loop_header < num_blocks(&r0));
            }
            assert forall|d: int| 0 <= d < num_blocks(&rm) && d != latch implies #[trigger] succs(r, d) == succs(&rm, d)
                && r.operands@[d]@ == rm.operands@[d]@ && r.terminators@[d] == rm.terminators@[d] by {
            }
            lemma_set_terminator_wf(&cm, self, latch, Terminator::CondBr { condition: should_repeat }, tg, ops);
        }
        let ghost rl = self.region;
        let ghost cl = *self;
        let ghost mut cx_unreachable = *self;
        if ne == 0 {
            let ghost cx = *self;
            self.region.terminators.set(exit_block, Terminator::ReturnLike { kind: ReturnKind::Unreachable, operands: Vec::new() });
            proof {
                lemma_return_like_wf(&cx, self, exit_block, ReturnKind::Unreachable, Seq::empty());
                cx_unreachable = *self;
            }
            self.combine_exit(exit_block);
        } else {
            let excluded = vec![loop_header];
            proof {
                let r = &self.region;
                assert(excluded@ =~= seq![loop_header]);
                let t0 = successors@[nb as int];
                assert(all[nb as int] == exit_edges@[0]);
                assert(t0 != loop_header);
                assert(mapping_keys(m).contains(t0));
                let p0 = choose|i: int| 0 <= i < mapping_keys(m).len() && mapping_keys(m)[i] == t0;
                assert(m[p0].0 == t0);
                assert(!excluded@.contains(t0));
                lemma_switch_entries(m, excluded@);
                assert(succs(r, latch as int)[1] == exit_block);
            }
            mux.create_switch(self, exit_block, excluded.as_slice());
        }
        let argc_final = self.region.args[latch].len();
        proof {
            assert forall|k: int| 0 <= k < nb + ne implies is_edge(&r0.cfg, #[trigger] all[k]) by {
                assert(all[k] == loop_edge(back_edges@, exit_edges@, k));
            }
            let cxv = if ne == 0 { cx_unreachable } else { cm };
            assert(self.caches_extend(old(self))) by {
                assert forall|d: u32| #[trigger] old(self).switch_cached(d) is Some implies self.switch_cached(d) == old(self).switch_cached(d) by {
                    assert(cm.switch_cached(d) == old(self).switch_cached(d));
                    assert(cl.switch_cached(d) == cm.switch_cached(d));
                    assert(cx_unreachable.switch_cached(d) == cl.switch_cached(d));
                }
                assert forall|t: Type| #[trigger] old(self).undef_cached(t) is Some implies self.undef_cached(t) == old(self).undef_cached(t) by {
                    assert(cm.undef_cached(t) == old(self).undef_cached(t));
                    assert(cl.undef_cached(t) == cm.undef_cached(t));
                    assert(cx_unreachable.undef_cached(t) == cl.undef_cached(t));
                }
            }
            assert forall|i: int| 0 <= i < old(self).region.values@.len() implies #[trigger] cm.region.values@[i] == old(self).region.values@[i] by {
                assert(c_sw.region.values@[i] == old(self).region.values@[i]);
                assert(c_cr.region.values@[i] == c_sw.region.values@[i]);
                assert(pre.region.values@[i] == c_cr.region.values@[i]);
            }
            lemma_latch_final(&*old(self), &cm, &rl, &cxv, self, &mux, back_edges@, exit_edges@, flags, successors@, loop_header, exit_block, should_repeat);
        }
        StructuredLoopProperties { latch, condition: should_repeat, exit_block }
    }
}


impl EdgeMultiplexer {
    /// The multiplexer block.
    pub fn get_multiplexer_block(&self) -> (b: usize)
        ensures
            b == self.multiplexer_block,
    {
        self.multiplexer_block
    }
}

/// Whether all of `edges` lead to the same block.
pub fn all_same_block(cfg: &Cfg, edges: &[Edge]) -> (r: bool)
    requires
        forall|k: int| 0 <= k < edges@.len() ==> is_edge(cfg, #[trigger] edges@[k]),
    ensures
        r == forall|k: int| 0 <= k < edges@.len() ==> target(cfg, #[trigger] edges@[k]) == target(cfg, edges@[0]),
{
    if edges.len() == 0 {
        return true;
    }
    let expected = edges[0].get_successor(cfg);
    let mut k: usize = 1;
    while k < edges.len()
        invariant
            1 <= k <= edges@.len(),
            forall|j: int| 0 <= j < edges@.len() ==> is_edge(cfg, #[trigger] edges@[j]),
            expected == target(cfg, edges@[0]),
            forall|j: int| 0 <= j < k ==> target(cfg, #[trigger] edges@[j]) == expected,
        decreases edges@.len() - k,
    {
        if edges[k].get_successor(cfg) != expected {
            return false;
        }
        k = k + 1;
    }
    true
}


impl TransformationContext {
    /// Erase the definition of a value that nothing uses.
    fn erase_value(&mut self, v: ValueRef)
        requires
            wf(&old(self).region),
            valid_value(&old(self).region, v),
            old(self).region.values@[v.index as int].def is Constant,
        ensures
            wf(&final(self).region),
            final(self).region.cfg == old(self).region.cfg,
            final(self).region.operands@ == old(self).region.operands@,
            final(self).region.args@ == old(self).region.args@,
            final(self).region.terminators@ == old(self).region.terminators@,
            final(self).region.values@ == old(self).region.values@.update(v.index as int, ValueInfo {
                ty: old(self).region.values@[v.index as int].ty,
                def: ValueDef::Erased,
            }),
            final(self).switch_value_cache@ == old(self).switch_value_cache@,
            final(self).typed_undef_cache@ == old(self).typed_undef_cache@,
            final(self).return_like_to_combined_exit@ == old(self).return_like_to_combined_exit@,
            final(self).entry == old(self).entry,
    {
        let ty = self.region.values[v.index].ty.clone();
        self.region.values.set(v.index, ValueInfo { ty, def: ValueDef::Erased });
        proof {
            let r = &self.region;
            let r0 = &old(self).region;
            assert forall|b: int, k: int| 0 <= b < num_blocks(r) && 0 <= k < block_args(r, b).len() implies {
                &&& valid_value(r, #[trigger] block_args(r, b)[k])
                &&& value_def(r, block_args(r, b)[k]) == (ValueDef::Arg { block: b as usize, index: k as usize })
            } by {
                assert(block_args(r, b) == block_args(r0, b));
                assert(value_def(r0, block_args(r0, b)[k]) == (ValueDef::Arg { block: b as usize, index: k as usize }));
            }
            assert forall|b: int, s2: int, k: int|
                0 <= b < num_blocks(r) && 0 <= s2 < succs(r, b).len() && 0 <= k < edge_ops(r, b, s2).len()
                    implies valid_value(r, #[trigger] edge_ops(r, b, s2)[k]) by {
                assert(edge_ops(r, b, s2) == edge_ops(r0, b, s2));
            }
            assert forall|b: int, s2: int|
                0 <= b < num_blocks(r) && 0 <= s2 < succs(r, b).len() implies #[trigger] succs(r, b)[s2] < num_blocks(r) by {
                assert(succs(r, b) == succs(r0, b));
            }
            assert forall|b: int| 0 <= b < num_blocks(r) implies (#[trigger] r.operands@[b])@.len() == succs(r, b).len() by {
                assert(r0.operands@[b]@.len() == succs(r0, b).len());
            }
            assert forall|b: int| 0 <= b < num_blocks(r) implies arity_ok(#[trigger] r.terminators@[b], succs(r, b).len()) by {
                assert(arity_ok(r0.terminators@[b], succs(r0, b).len()));
            }
            assert forall|b: int| 0 <= b < num_blocks(r) implies terminator_values_ok(r, #[trigger] r.terminators@[b]) by {
                assert(terminator_values_ok(r0, r0.terminators@[b]));
            }
        }
    }

    /// Erase the constants made by the transformation that nothing in the region uses, and
    /// forget the constants made so far.
    pub fn garbage_collect(&mut self)
        requires
            old(self).wf(),
        ensures
            final(self).wf(),
            final(self).switch_value_cache@.len() == 0,
            final(self).typed_undef_cache@.len() == 0,
            final(self).region.cfg == old(self).region.cfg,
            final(self).region.operands@ == old(self).region.operands@,
            final(self).region.args@ == old(self).region.args@,
            final(self).region.terminators@ == old(self).region.terminators@,
            values_erased(&old(self).region, &final(self).region, |v: ValueRef|
                (switch_cached_before(old(self).switch_value_cache@, old(self).switch_value_cache@.len() as int, v)
                    || undef_cached_before(old(self).typed_undef_cache@, old(self).typed_undef_cache@.len() as int, v))
                    && !value_used(&old(self).region, v)),
            final(self).return_like_to_combined_exit@ == old(self).return_like_to_combined_exit@,
            final(self).entry == old(self).entry,
    {
        let ghost c0 = *self;
        let ghost r0 = self.region;
        let nvals = self.region.values.len();
        let ghost sw = c0.switch_value_cache@;
        let ghost un = c0.typed_undef_cache@;
        proof {
            assert(values_erased(&r0, &self.region, |v: ValueRef| switch_cached_before(sw, 0, v) && !value_used(&r0, v)));
        }
        let mut i: usize = 0;
        while i < self.switch_value_cache.len()
            invariant
                c0.wf(),
                r0 == c0.region,
                sw == c0.switch_value_cache@,
                un == c0.typed_undef_cache@,
                wf(&self.region),
                self.switch_value_cache@ == sw,
                self.typed_undef_cache@ == un,
                self.return_like_to_combined_exit@ == c0.return_like_to_combined_exit@,
                self.entry == c0.entry,
                self.region.cfg == r0.cfg,
                self.region.operands@ == r0.operands@,
                self.region.args@ == r0.args@,
                self.region.terminators@ == r0.terminators@,
                i <= sw.len(),
                nvals == r0.values@.len(),
                values_erased(&r0, &self.region, |v: ValueRef| switch_cached_before(sw, i as int, v) && !value_used(&r0, v)),
            decreases sw.len() - i,
        {
            let ghost before = self.region;
            match self.switch_value_cache[i] {
                Some(v) => {
                    proof {
                        assert(sw[i as int] == Some(v));
                        assert(valid_value(&r0, v) && value_def(&r0, v) == ValueDef::Constant(ConstantDef::Switch(i as u32)));
                        assert(!switch_cached_before(sw, i as int, v)) by {
                            if switch_cached_before(sw, i as int, v) {
                                let d = choose|d: int| 0 <= d < i && #[trigger] sw[d] == Some(v);
                                assert(value_def(&r0, v) == ValueDef::Constant(ConstantDef::Switch(d as u32)));
                            }
                        }
                        assert(self.region.values@[v.index as int] == r0.values@[v.index as int]);
                    }
                    let used = is_used(&self.region, v);
                    proof {
                        lemma_value_used_same(&self.region, &r0, v);
                    }
                    if !used {
                        self.erase_value(v);
                    }
                    proof {
                        let gone = |x: ValueRef| switch_cached_before(sw, i + 1, x) && !value_used(&r0, x);
                        assert forall|x: int| 0 <= x < r0.values@.len() implies #[trigger] self.region.values@[x] == if gone(ValueRef { index: x as usize }) {
                            ValueInfo { ty: r0.values@[x].ty, def: ValueDef::Erased }
                        } else {
                            r0.values@[x]
                        } by {
                            let xv = ValueRef { index: x as usize };
                            let g_old = switch_cached_before(sw, i as int, xv) && !value_used(&r0, xv);
                            let g_new = switch_cached_before(sw, i + 1, xv) && !value_used(&r0, xv);
                            assert(before.values@[x] == if g_old {
                                ValueInfo { ty: r0.values@[x].ty, def: ValueDef::Erased }
                            } else {
                                r0.values@[x]
                            });
                            if x == v.index as int {
                                assert(xv == v);
                                assert(!g_old);
                                assert(sw[i as int] == Some(xv));
                                assert(switch_cached_before(sw, i + 1, xv));
                                assert(g_new == !used);
                                if !used {
                                    assert(self.region.values@[x] == ValueInfo { ty: before.values@[x].ty, def: ValueDef::Erased });
                                } else {
                                    assert(self.region.values@[x] == before.values@[x]);
                                }
                            } else {
                                assert(xv != v);
                                assert(self.region.values@[x] == before.values@[x]);
                                if switch_cached_before(sw, i as int, xv) {
                                    let d = choose|d: int| 0 <= d < i && #[trigger] sw[d] == Some(xv);
                                    assert(switch_cached_before(sw, i + 1, xv));
                                }
                                if switch_cached_before(sw, i + 1, xv) {
                                    let d = choose|d: int| 0 <= d < i + 1 && #[trigger] sw[d] == Some(xv);
                                    assert(d != i);
                                    assert(switch_cached_before(sw, i as int, xv));
                                }
                                assert(g_new == g_old);
                            }
                            assert(gone(xv) == g_new);
                        }
                    }
                }
                None => {
                    proof {
                        let gone = |x: ValueRef| switch_cached_before(sw, i + 1, x) && !value_used(&r0, x);
                        assert forall|x: int| 0 <= x < r0.values@.len() implies #[trigger] self.region.values@[x] == if gone(ValueRef { index: x as usize }) {
                            ValueInfo { ty: r0.values@[x].ty, def: ValueDef::Erased }
                        } else {
                            r0.values@[x]
                        } by {
                            let xv = ValueRef { index: x as usize };
                            if switch_cached_before(sw, i + 1, xv) {
                                let d = choose|d: int| 0 <= d < i + 1 && #[trigger] sw[d] == Some(xv);
                                assert(d != i);
                                assert(switch_cached_before(sw, i as int, xv));
                            }
                            if switch_cached_before(sw, i as int, xv) {
                                let d = choose|d: int| 0 <= d < i && #[trigger] sw[d] == Some(xv);
                                assert(switch_cached_before(sw, i + 1, xv));
                            }
                        }
                    }
                }
            }
            i = i + 1;
        }
        self.switch_value_cache = Vec::new();
        let mut j: usize = 0;
        while j < self.typed_undef_cache.len()
            invariant
                c0.wf(),
                r0 == c0.region,
                sw == c0.switch_value_cache@,
                un == c0.typed_undef_cache@,
                wf(&self.region),
                self.switch_value_cache@.len() == 0,
                self.typed_undef_cache@ == un,
                self.return_like_to_combined_exit@ == c0.return_like_to_combined_exit@,
                self.entry == c0.entry,
                self.region.cfg == r0.cfg,
                self.region.operands@ == r0.operands@,
                self.region.args@ == r0.args@,
                self.region.terminators@ == r0.terminators@,
                j <= un.len(),
                nvals == r0.values@.len(),
                values_erased(&r0, &self.region, |v: ValueRef| (switch_cached_before(sw, sw.len() as int, v) || undef_cached_before(un, j as int, v)) && !value_used(&r0, v)),
            decreases un.len() - j,
        {
            let ghost before = self.region;
            let v = self.typed_undef_cache[j].1;
            proof {
                let t = un[j as int].0;
                assert(valid_value(&r0, v) && value_def(&r0, v) == ValueDef::Constant(ConstantDef::Poison(t)));
                assert(!switch_cached_before(sw, sw.len() as int, v)) by {
                    if switch_cached_before(sw, sw.len() as int, v) {
                        let d = choose|d: int| 0 <= d < sw.len() && #[trigger] sw[d] == Some(v);
                        assert(value_def(&r0, v) == ValueDef::Constant(ConstantDef::Switch(d as u32)));
                    }
                }
                assert(!undef_cached_before(un, j as int, v)) by {
                    if undef_cached_before(un, j as int, v) {
                        let k = choose|k: int| 0 <= k < j && (#[trigger] un[k]).1 == v;
                        assert(value_def(&r0, v) == ValueDef::Constant(ConstantDef::Poison(un[k].0)));
                        assert(un[k].0 != un[j as int].0);
                    }
                }
                assert(self.region.values@[v.index as int] == r0.values@[v.index as int]);
            }
            let used = is_used(&self.region, v);
            proof {
                lemma_value_used_same(&self.region, &r0, v);
            }
            if !used {
                self.erase_value(v);
            }
            proof {
                let gone = |x: ValueRef| (switch_cached_before(sw, sw.len() as int, x) || undef_cached_before(un, j + 1, x)) && !value_used(&r0, x);
                assert forall|x: int| 0 <= x < r0.values@.len() implies #[trigger] self.region.values@[x] == if gone(ValueRef { index: x as usize }) {
                    ValueInfo { ty: r0.values@[x].ty, def: ValueDef::Erased }
                } else {
                    r0.values@[x]
                } by {
                    let xv = ValueRef { index: x as usize };
                    let sc = switch_cached_before(sw, sw.len() as int, xv);
                    let g_old = (sc || undef_cached_before(un, j as int, xv)) && !value_used(&r0, xv);
                    let g_new = (sc || undef_cached_before(un, j + 1, xv)) && !value_used(&r0, xv);
                    assert(before.values@[x] == if g_old {
                        ValueInfo { ty: r0.values@[x].ty, def: ValueDef::Erased }
                    } else {
                        r0.values@[x]
                    });
                    if x == v.index as int {
                        assert(xv == v);
                        assert(!g_old);
                        assert(un[j as int].1 == xv);
                        assert(undef_cached_before(un, j + 1, xv));
                        assert(g_new == !used);
                        if !used {
                            assert(self.region.values@[x] == ValueInfo { ty: before.values@[x].ty, def: ValueDef::Erased });
                        } else {
                            assert(self.region.values@[x] == before.values@[x]);
                        }
                    } else {
                        assert(xv != v);
                        assert(self.region.values@[x] == before.values@[x]);
                        if undef_cached_before(un, j as int, xv) {
                            let k = choose|k: int| 0 <= k < j && (#[trigger] un[k]).1 == xv;
                            assert(undef_cached_before(un, j + 1, xv));
                        }
                        if undef_cached_before(un, j + 1, xv) {
                            let k = choose|k: int| 0 <= k < j + 1 && (#[trigger] un[k]).1 == xv;
                            assert(k != j);
                            assert(undef_cached_before(un, j as int, xv));
                        }
                        assert(g_new == g_old);
                    }
                    assert(gone(xv) == g_new);
                }
            }
            j = j + 1;
        }
        self.typed_undef_cache = Vec::new();
        proof {
            assert(self.region.cfg.successors@.len() == r0.cfg.successors@.len());
        }
    }
}

/// `e` passes as many operands in `r0` as its target has arguments.
pub open spec fn well_typed_edge(r0: &Region, e: Edge) -> bool {
    edge_ops(r0, e.from_block as int, e.successor_index as int).len() == block_args(r0, target(&r0.cfg, e) as int).len()
}

/// `e` leads in `r` where it led in `r0`, passing what it passed there.
pub open spec fn edge_unchanged(r0: &Region, r: &Region, e: Edge) -> bool {
    &&& target(&r.cfg, e) == target(&r0.cfg, e)
    &&& edge_ops(r, e.from_block as int, e.successor_index as int) == edge_ops(r0, e.from_block as int, e.successor_index as int)
}

/// `e` leads in `r` to block `via`, from where it goes on where it led in `r0`, with the
/// operands it passed there.
pub open spec fn reaches_through(r0: &Region, r: &Region, e: Edge, via: usize) -> bool {
    &&& target(&r.cfg, e) == via
    &&& hop(r, via, edge_ops(r, e.from_block as int, e.successor_index as int), via as int)
        == Some((target(&r0.cfg, e), edge_ops(r0, e.from_block as int, e.successor_index as int)))
}

/// A cycle made ready to become a structured loop: its single entry block, whether the
/// entries were routed through a new block, and its single exiting latch.
#[derive(Clone, Copy, Debug)]
pub struct PreparedLoop {
    pub header: usize,
    pub multiplexed: bool,
    pub latch: StructuredLoopProperties,
}

/// The back edge `e` leads in `r` to the latch of `p`, which passes it on to the header; from
/// there it goes where it led in `r0`, with the operands it passed there: through the
/// header's dispatch when the entries were routed through a new block, else directly, the
/// header being its target.
pub open spec fn back_edge_preserved(r0: &Region, r: &Region, e: Edge, p: PreparedLoop) -> bool {
    let latch = p.latch.latch;
    let orig = edge_ops(r0, e.from_block as int, e.successor_index as int);
    &&& target(&r.cfg, e) == latch
    &&& match hop(r, latch, edge_ops(r, e.from_block as int, e.successor_index as int), latch as int) {
        Some((h, x)) => h == p.header && if p.multiplexed {
            hop(r, p.header, x, p.header as int) == Some((target(&r0.cfg, e), orig))
        } else {
            x == orig && target(&r0.cfg, e) == p.header
        },
        None => false,
    }
}

/// The exit edge `e` leads in `r` to the latch of `p`, which goes to the exit block when the
/// flag `e` passes says so; from the exit block it goes where it led in `r0`, with the
/// operands it passed there.
pub open spec fn exit_edge_preserved(r0: &Region, r: &Region, e: Edge, p: PreparedLoop) -> bool {
    let latch = p.latch.latch;
    let env = edge_ops(r, e.from_block as int, e.successor_index as int);
    &&& target(&r.cfg, e) == latch
    &&& hop(r, latch, env, latch as int) == Some((p.latch.exit_block, Seq::<ValueRef>::empty()))
    &&& hop(r, latch, env, p.latch.exit_block as int)
        == Some((target(&r0.cfg, e), edge_ops(r0, e.from_block as int, e.successor_index as int)))
}

/// Edges of different kinds of a cycle differ: an entry edge leaves a block outside the
/// cycle, and a back edge leads into the cycle while an exit edge leads out of it.
proof fn lemma_cycle_edge_kinds(cfg: &Cfg, cycle: Seq<usize>, e: Edge)
    ensures
        is_entry_edge(cfg, cycle, e) ==> !is_back_edge(cfg, cycle, e) && !is_exit_edge(cfg, cycle, e),
        is_back_edge(cfg, cycle, e) ==> !is_exit_edge(cfg, cycle, e) && cycle.contains(target(cfg, e)),
{
    if is_back_edge(cfg, cycle, e) {
        let f = choose|f: Edge| #[trigger] is_entry_edge(cfg, cycle, f) && target(cfg, f) == target(cfg, e);
    }
}


/// What preparing a cycle promises, for the region `r0` before and `r` after, the cycle's
/// blocks `cycle`, its edges `edges` and the result `p`: the header and latch are where the
/// steps put them; each entry edge reaches its target through the header's dispatch, or is
/// unchanged where it is the only one; each back and exit edge goes through the latch and
/// on where it led; and every other edge of `r0` is unchanged.
pub open spec fn prepared_loop_laws(r0: &Region, r: &Region, cycle: Seq<usize>, edges: CycleEdges, p: PreparedLoop) -> bool {
    let n0 = num_blocks(r0);
    &&& p.multiplexed == (edges.entry_edges@.len() > 1)
    &&& p.multiplexed ==> p.header == n0
    &&& !p.multiplexed ==> p.header == target(&r0.cfg, edges.entry_edges@[0])
    &&& p.latch.latch == n0 + (if p.multiplexed { 1int } else { 0int })
    &&& p.latch.exit_block == p.latch.latch + 1
    &&& latch_branch(r, p.latch.latch, p.header, p.latch.exit_block)
    &&& p.latch.condition == block_args(r, p.latch.latch as int).last()
    &&& forall|e: Edge| #[trigger] is_entry_edge(&r0.cfg, cycle, e) && well_typed_edge(r0, e)
        ==> if p.multiplexed { reaches_through(r0, r, e, p.header) } else { edge_unchanged(r0, r, e) }
    &&& forall|e: Edge| #[trigger] is_back_edge(&r0.cfg, cycle, e) && well_typed_edge(r0, e) ==> back_edge_preserved(r0, r, e, p)
    &&& forall|e: Edge| #[trigger] is_exit_edge(&r0.cfg, cycle, e) && well_typed_edge(r0, e) ==> exit_edge_preserved(r0, r, e, p)
    &&& forall|e: Edge| #[trigger] is_edge(&r0.cfg, e) && !is_entry_edge(&r0.cfg, cycle, e) && !is_back_edge(&r0.cfg, cycle, e)
        && !is_exit_edge(&r0.cfg, cycle, e) ==> edge_unchanged(r0, r, e)
}

/// What the first step of preparing a cycle leaves in `rm`, from `r0`: with more than one
/// entry edge, the entry and back edges lead to the new block `header`, which dispatches each
/// where it led; with one, nothing changes and `header` is its target.
pub open spec fn entry_stage(r0: &Region, rm: &Region, cycle: Seq<usize>, edges: CycleEdges, header: usize, multiplexed: bool) -> bool {
    let n0 = num_blocks(r0);
    let routed = edges.entry_edges@ + edges.back_edges@;
    &&& wf(rm)
    &&& multiplexed == (edges.entry_edges@.len() > 1)
    &&& num_blocks(rm) == n0 + (if multiplexed { 1int } else { 0int })
    &&& multiplexed ==> header == n0
    &&& !multiplexed ==> header == target(&r0.cfg, edges.entry_edges@[0]) && *rm == *r0
    &&& multiplexed ==> forall|k: int| 0 <= k < routed.len() ==> {
        let e = #[trigger] routed[k];
        &&& target(&rm.cfg, e) == header
        &&& edge_ops(rm, e.from_block as int, e.successor_index as int).len() == block_args(rm, header as int).len()
        &&& well_typed_edge(r0, e) ==> hop(rm, header, edge_ops(rm, e.from_block as int, e.successor_index as int), header as int)
            == Some((target(&r0.cfg, e), edge_ops(r0, e.from_block as int, e.successor_index as int)))
    }
    &&& multiplexed ==> forall|b: int, s: int| 0 <= b < n0 && 0 <= s < succs(r0, b).len() && !edge_in(routed, b, s)
        ==> #[trigger] succs(rm, b)[s] == succs(r0, b)[s] && edge_ops(rm, b, s) == edge_ops(r0, b, s)
    &&& forall|b: int| 0 <= b < n0 ==> #[trigger] succs(rm, b).len() == succs(r0, b).len()
        && block_args(rm, b) == block_args(r0, b)
}

impl TransformationContext {
    /// Make the cycle made of the blocks `cycle` ready to become a structured loop: compute
    /// its entry, exit and back edges; where more than one edge enters it, route the entry
    /// and back edges through a new single entry block, its header (else the target of its
    /// one entry edge is); then give it a single exiting latch. Gives back the cycle's edges,
    /// and what preparing it made, or `None`, with nothing changed, where the edges routed
    /// through one block are more than a 32-bit switch can tell apart.
    #[verifier::spinoff_prover]
    pub fn prepare_cycle_loop(&mut self, cycle: &[usize]) -> (res: (CycleEdges, Option<PreparedLoop>))
        requires
            old(self).wf(),
            forall|k: int| 0 <= k < cycle@.len() ==> #[trigger] cycle@[k] < num_blocks(&old(self).region),
            cycle@.no_duplicates(),
            exists|e: Edge| #[trigger] is_entry_edge(&old(self).region.cfg, cycle@, e),
            exists|e: Edge| #[trigger] is_back_edge(&old(self).region.cfg, cycle@, e),
            num_blocks(&old(self).region) + 4 < usize::MAX,
        ensures
            final(self).wf(),
            forall|e: Edge| res.0.entry_edges@.contains(e) <==> is_entry_edge(&old(self).region.cfg, cycle@, e),
            forall|e: Edge| res.0.exit_edges@.contains(e) <==> is_exit_edge(&old(self).region.cfg, cycle@, e),
            forall|e: Edge| res.0.back_edges@.contains(e) <==> is_back_edge(&old(self).region.cfg, cycle@, e),
            res.1 is None <==> ((res.0.entry_edges@.len() > 1 && res.0.entry_edges@.len() + res.0.back_edges@.len() > u32::MAX)
                || res.0.back_edges@.len() + res.0.exit_edges@.len() > u32::MAX),
            res.1 is None ==> *final(self) == *old(self),
            res.1 matches Some(p) ==> prepared_loop_laws(&old(self).region, &final(self).region, cycle@, res.0, p),
    {
        let ghost r0 = self.region;
        let edges = calculate_cycle_edges(&self.region.cfg, cycle);
        let n_entry = edges.entry_edges.len();
        let n_back = edges.back_edges.len();
        let n_exit = edges.exit_edges.len();
        let limit: usize = u32::MAX as usize;
        let multiplexed = n_entry > 1;
        if (multiplexed && (n_back > limit || n_entry > limit - n_back)) || n_exit > limit || n_back > limit - n_exit {
            return (edges, None);
        }
        let ghost entry = edges.entry_edges@;
        let ghost back = edges.back_edges@;
        let ghost exit = edges.exit_edges@;
        proof {
            let e0 = choose|e: Edge| #[trigger] is_entry_edge(&r0.cfg, cycle@, e);
            assert(entry.contains(e0));
            let b0 = choose|e: Edge| #[trigger] is_back_edge(&r0.cfg, cycle@, e);
            assert(back.contains(b0));
            assert forall|k: int| 0 <= k < entry.len() implies is_entry_edge(&r0.cfg, cycle@, #[trigger] entry[k]) by {
                assert(entry.contains(entry[k]));
            }
            assert forall|k: int| 0 <= k < back.len() implies is_back_edge(&r0.cfg, cycle@, #[trigger] back[k]) by {
                assert(back.contains(back[k]));
            }
            assert forall|k: int| 0 <= k < exit.len() implies is_exit_edge(&r0.cfg, cycle@, #[trigger] exit[k]) by {
                assert(exit.contains(exit[k]));
            }
        }
        let header: usize;
        if multiplexed {
            let mut routed: Vec<Edge> = Vec::new();
            let mut i: usize = 0;
            while i < n_entry
                invariant
                    i <= n_entry,
                    n_entry == entry.len(),
                    entry == edges.entry_edges@,
                    routed@ == entry.take(i as int),
                decreases n_entry - i,
            {
                routed.push(edges.entry_edges[i]);
                proof {
                    assert(routed@ =~= entry.take(i + 1));
                }
                i = i + 1;
            }
            let mut j: usize = 0;
            while j < n_back
                invariant
                    j <= n_back,
                    n_back == back.len(),
                    back == edges.back_edges@,
                    routed@ == entry + back.take(j as int),
                decreases n_back - j,
            {
                routed.push(edges.back_edges[j]);
                proof {
                    assert(routed@ =~= entry + back.take(j + 1));
                }
                j = j + 1;
            }
            proof {
                assert(entry.take(n_entry as int) =~= entry);
                assert(back.take(n_back as int) =~= back);
                assert(routed@ =~= entry + back);
                lemma_routed_edges(&r0, cycle@, entry, back);
            }
            let mux = self.create_single_entry_block(routed.as_slice());
            header = mux.multiplexer_block;
            proof {
                let rt = edges.entry_edges@ + edges.back_edges@;
                assert(routed@ == rt);
                assert forall|k: int| 0 <= k < rt.len() implies {
                    let e = #[trigger] rt[k];
                    &&& target(&self.region.cfg, e) == header
                    &&& edge_ops(&self.region, e.from_block as int, e.successor_index as int).len() == block_args(&self.region, header as int).len()
                    &&& well_typed_edge(&r0, e) ==> hop(&self.region, header, edge_ops(&self.region, e.from_block as int, e.successor_index as int), header as int)
                        == Some((target(&r0.cfg, e), edge_ops(&r0, e.from_block as int, e.successor_index as int)))
                } by {
                    assert(routed@[k] == rt[k]);
                }
                assert forall|b: int, s: int| 0 <= b < num_blocks(&r0) && 0 <= s < succs(&r0, b).len() && !edge_in(rt, b, s)
                    implies #[trigger] succs(&self.region, b)[s] == succs(&r0, b)[s] && edge_ops(&self.region, b, s) == edge_ops(&r0, b, s) by {
                    assert(!edge_in(routed@, b, s));
                }
                assert(entry_stage(&r0, &self.region, cycle@, edges, header, multiplexed));
            }
        } else {
            header = edges.entry_edges[0].get_successor(&self.region.cfg);
            proof {
                assert(entry.len() == 1);
            }
        }
        let ghost rm = self.region;
        proof {
            assert(entry_stage(&r0, &rm, cycle@, edges, header, multiplexed));
            lemma_latch_inputs(&r0, &rm, cycle@, edges, header, multiplexed);
        }
        let latch = self.create_single_exiting_latch(edges.back_edges.as_slice(), edges.exit_edges.as_slice());
        let p = PreparedLoop { header, multiplexed, latch };
        proof {
            assert(latch_stage(&rm, &self.region, back, exit, latch, header));
            lemma_prepared_laws(&r0, &rm, &self.region, cycle@, edges, p);
        }
        (edges, Some(p))
    }
}

/// What giving a loop a single exiting latch leaves in `r`, from `rm`, for the back edges
/// `back`, the exit edges `exit`, the result `l` and the loop header `header`.
pub open spec fn latch_stage(rm: &Region, r: &Region, back: Seq<Edge>, exit: Seq<Edge>, l: StructuredLoopProperties, header: usize) -> bool {
    &&& wf(r)
    &&& num_blocks(r) >= num_blocks(rm) + 2
    &&& l.latch == num_blocks(rm)
    &&& l.exit_block == l.latch + 1
    &&& latch_branch(r, l.latch, header, l.exit_block)
    &&& l.condition == block_args(r, l.latch as int).last()
    &&& forall|k: int| 0 <= k < back.len() + exit.len() ==> target(&r.cfg, #[trigger] loop_edge(back, exit, k)) == l.latch
    &&& forall|k: int| 0 <= k < back.len() ==> {
        let e = #[trigger] back[k];
        let orig = edge_ops(rm, e.from_block as int, e.successor_index as int);
        orig.len() == block_args(rm, target(&rm.cfg, e) as int).len()
            ==> hop(r, l.latch, edge_ops(r, e.from_block as int, e.successor_index as int), l.latch as int)
                == Some((target(&rm.cfg, e), orig))
    }
    &&& forall|k: int| 0 <= k < exit.len() ==> {
        let e = #[trigger] exit[k];
        let orig = edge_ops(rm, e.from_block as int, e.successor_index as int);
        let env = edge_ops(r, e.from_block as int, e.successor_index as int);
        orig.len() == block_args(rm, target(&rm.cfg, e) as int).len() ==> {
            &&& hop(r, l.latch, env, l.latch as int) == Some((l.exit_block, Seq::<ValueRef>::empty()))
            &&& hop(r, l.latch, env, l.exit_block as int) == Some((target(&rm.cfg, e), orig))
        }
    }
    &&& forall|b: int, s: int| 0 <= b < num_blocks(rm) && 0 <= s < succs(rm, b).len() && !edge_in(back + exit, b, s)
        ==> #[trigger] succs(r, b)[s] == succs(rm, b)[s] && edge_ops(r, b, s) == edge_ops(rm, b, s)
    &&& forall|b: int| 0 <= b < num_blocks(rm) ==> #[trigger] block_args(r, b) == block_args(rm, b)
    &&& forall|b: int| 0 <= b < num_blocks(rm) ==> #[trigger] succs(r, b).len() == succs(rm, b).len()
        && r.terminators@[b] == rm.terminators@[b]
    &&& r.values@.len() >= rm.values@.len()
    &&& forall|i: int| 0 <= i < rm.values@.len() ==> #[trigger] r.values@[i] == rm.values@[i]
}

/// The entry edges followed by the back edges of a cycle are edges, none twice.
proof fn lemma_routed_edges(r0: &Region, cycle: Seq<usize>, entry: Seq<Edge>, back: Seq<Edge>)
    requires
        forall|k: int| 0 <= k < entry.len() ==> is_entry_edge(&r0.cfg, cycle, #[trigger] entry[k]),
        forall|k: int| 0 <= k < back.len() ==> is_back_edge(&r0.cfg, cycle, #[trigger] back[k]),
        entry.no_duplicates(),
        back.no_duplicates(),
    ensures
        forall|j: int| 0 <= j < (entry + back).len() ==> is_edge(&r0.cfg, #[trigger] (entry + back)[j]),
        forall|i: int, j: int| 0 <= i < j < (entry + back).len() ==> #[trigger] (entry + back)[i] != #[trigger] (entry + back)[j],
{
    let routed = entry + back;
    assert forall|j: int| 0 <= j < routed.len() implies is_edge(&r0.cfg, #[trigger] routed[j]) by {
        if j < entry.len() {
            assert(routed[j] == entry[j]);
            assert(is_entry_edge(&r0.cfg, cycle, entry[j]));
        } else {
            assert(routed[j] == back[j - entry.len()]);
            assert(is_back_edge(&r0.cfg, cycle, back[j - entry.len()]));
        }
    }
    assert forall|i: int, j: int| 0 <= i < j < routed.len() implies #[trigger] routed[i] != #[trigger] routed[j] by {
        if j < entry.len() {
            assert(routed[i] == entry[i] && routed[j] == entry[j]);
        } else if i >= entry.len() {
            assert(routed[i] == back[i - entry.len()] && routed[j] == back[j - entry.len()]);
        } else {
            assert(routed[i] == entry[i] && routed[j] == back[j - entry.len()]);
            assert(is_entry_edge(&r0.cfg, cycle, entry[i]));
            lemma_cycle_edge_kinds(&r0.cfg, cycle, entry[i]);
        }
    }
}

/// After the first step, the back and exit edges of the cycle meet what giving the loop a
/// single exiting latch asks of them, with `header` the target of every back edge.
proof fn lemma_latch_inputs(r0: &Region, rm: &Region, cycle: Seq<usize>, edges: CycleEdges, header: usize, multiplexed: bool)
    requires
        wf(r0),
        entry_stage(r0, rm, cycle, edges, header, multiplexed),
        forall|k: int| 0 <= k < cycle.len() ==> #[trigger] cycle[k] < num_blocks(r0),
        forall|e: Edge| edges.entry_edges@.contains(e) <==> is_entry_edge(&r0.cfg, cycle, e),
        forall|e: Edge| edges.exit_edges@.contains(e) <==> is_exit_edge(&r0.cfg, cycle, e),
        forall|e: Edge| edges.back_edges@.contains(e) <==> is_back_edge(&r0.cfg, cycle, e),
        edges.entry_edges@.no_duplicates(),
        edges.exit_edges@.no_duplicates(),
        edges.back_edges@.no_duplicates(),
        edges.entry_edges@.len() >= 1,
        edges.back_edges@.len() >= 1,
    ensures
        forall|k: int| 0 <= k < edges.back_edges@.len() + edges.exit_edges@.len()
            ==> is_edge(&rm.cfg, #[trigger] loop_edge(edges.back_edges@, edges.exit_edges@, k)),
        forall|i: int, j: int| 0 <= i < j < edges.back_edges@.len() + edges.exit_edges@.len()
            ==> #[trigger] loop_edge(edges.back_edges@, edges.exit_edges@, i) != #[trigger] loop_edge(edges.back_edges@, edges.exit_edges@, j),
        forall|k: int| 0 <= k < edges.back_edges@.len() ==> target(&rm.cfg, #[trigger] edges.back_edges@[k]) == header,
        forall|k: int| 0 <= k < edges.exit_edges@.len() ==> target(&rm.cfg, #[trigger] edges.exit_edges@[k]) != header,
        forall|k: int| 0 <= k < edges.exit_edges@.len() ==> #[trigger] edge_unchanged(r0, rm, edges.exit_edges@[k]),
{
    let entry = edges.entry_edges@;
    let back = edges.back_edges@;
    let exit = edges.exit_edges@;
    let n0 = num_blocks(r0);
    let routed = entry + back;
    assert forall|k: int| 0 <= k < entry.len() implies is_entry_edge(&r0.cfg, cycle, #[trigger] entry[k]) by {
        assert(entry.contains(entry[k]));
    }
    assert forall|k: int| 0 <= k < back.len() implies is_back_edge(&r0.cfg, cycle, #[trigger] back[k]) by {
        assert(back.contains(back[k]));
    }
    assert forall|k: int| 0 <= k < exit.len() implies is_exit_edge(&r0.cfg, cycle, #[trigger] exit[k]) by {
        assert(exit.contains(exit[k]));
    }
    // Exit edges are not routed, so they stay as they were.
    assert forall|k: int| 0 <= k < exit.len() implies #[trigger] edge_unchanged(r0, rm, exit[k]) by {
        let e = exit[k];
        assert(is_exit_edge(&r0.cfg, cycle, e));
        if multiplexed {
            assert(!edge_in(routed, e.from_block as int, e.successor_index as int)) by {
                if edge_in(routed, e.from_block as int, e.successor_index as int) {
                    let j = choose|j: int| 0 <= j < routed.len() && (#[trigger] routed[j]).from_block == e.from_block as int && routed[j].successor_index == e.successor_index as int;
                    assert(routed[j] == e);
                    if j < entry.len() {
                        assert(routed[j] == entry[j]);
                        assert(is_entry_edge(&r0.cfg, cycle, entry[j]));
                    } else {
                        assert(routed[j] == back[j - entry.len()]);
                        assert(is_back_edge(&r0.cfg, cycle, back[j - entry.len()]));
                        lemma_cycle_edge_kinds(&r0.cfg, cycle, e);
                    }
                }
            }
            assert(succs(rm, e.from_block as int)[e.successor_index as int] == succs(r0, e.from_block as int)[e.successor_index as int]);
        }
    }
    assert forall|k: int| 0 <= k < back.len() implies target(&rm.cfg, #[trigger] back[k]) == header by {
        let e = back[k];
        assert(is_back_edge(&r0.cfg, cycle, e));
        if multiplexed {
            assert(routed[entry.len() + k] == e);
        } else {
            let f = choose|f: Edge| #[trigger] is_entry_edge(&r0.cfg, cycle, f) && target(&r0.cfg, f) == target(&r0.cfg, e);
            assert(entry.contains(f));
            let j = choose|j: int| 0 <= j < entry.len() && entry[j] == f;
            assert(j == 0);
        }
    }
    assert(cycle.contains(target(&r0.cfg, entry[0]))) by {
        assert(is_entry_edge(&r0.cfg, cycle, entry[0]));
    }
    assert forall|k: int| 0 <= k < exit.len() implies target(&rm.cfg, #[trigger] exit[k]) != header by {
        let e = exit[k];
        assert(edge_unchanged(r0, rm, e));
        assert(is_exit_edge(&r0.cfg, cycle, e));
        assert(succs(r0, e.from_block as int)[e.successor_index as int] < n0);
    }
    assert forall|k: int| 0 <= k < back.len() + exit.len() implies is_edge(&rm.cfg, #[trigger] loop_edge(back, exit, k)) by {
        let e = loop_edge(back, exit, k);
        if k < back.len() {
            assert(e == back[k]);
            assert(is_back_edge(&r0.cfg, cycle, back[k]));
        } else {
            assert(e == exit[k - back.len()]);
            assert(is_exit_edge(&r0.cfg, cycle, exit[k - back.len()]));
        }
        assert(succs(rm, e.from_block as int).len() == succs(r0, e.from_block as int).len());
    }
    assert forall|i: int, j: int| 0 <= i < j < back.len() + exit.len()
        implies #[trigger] loop_edge(back, exit, i) != #[trigger] loop_edge(back, exit, j) by {
        let a = loop_edge(back, exit, i);
        let c = loop_edge(back, exit, j);
        if j < back.len() {
            assert(a == back[i] && c == back[j]);
        } else if i >= back.len() {
            assert(a == exit[i - back.len()] && c == exit[j - back.len()]);
        } else {
            assert(a == back[i] && c == exit[j - back.len()]);
            assert(is_back_edge(&r0.cfg, cycle, back[i]));
            lemma_cycle_edge_kinds(&r0.cfg, cycle, a);
        }
    }
}

/// No back or exit edge of a cycle leaves block `b` when `b` is not a block of the cycle.
proof fn lemma_not_loop_edge(r0: &Region, cycle: Seq<usize>, back: Seq<Edge>, exit: Seq<Edge>, b: int, s: int)
    requires
        forall|k: int| 0 <= k < back.len() ==> is_back_edge(&r0.cfg, cycle, #[trigger] back[k]),
        forall|k: int| 0 <= k < exit.len() ==> is_exit_edge(&r0.cfg, cycle, #[trigger] exit[k]),
        !cycle.contains(b as usize) || b < 0,
    ensures
        !edge_in(back + exit, b, s),
{
    if edge_in(back + exit, b, s) {
        let all = back + exit;
        let j = choose|j: int| 0 <= j < all.len() && (#[trigger] all[j]).from_block == b && all[j].successor_index == s;
        if j < back.len() {
            assert(all[j] == back[j]);
            assert(is_back_edge(&r0.cfg, cycle, back[j]));
        } else {
            assert(all[j] == exit[j - back.len()]);
            assert(is_exit_edge(&r0.cfg, cycle, exit[j - back.len()]));
        }
    }
}

/// An edge that is neither a back nor an exit edge of the cycle is no edge of `back + exit`.
proof fn lemma_not_in_loop_edges(r0: &Region, cycle: Seq<usize>, back: Seq<Edge>, exit: Seq<Edge>, e: Edge)
    requires
        forall|k: int| 0 <= k < back.len() ==> is_back_edge(&r0.cfg, cycle, #[trigger] back[k]),
        forall|k: int| 0 <= k < exit.len() ==> is_exit_edge(&r0.cfg, cycle, #[trigger] exit[k]),
        !is_back_edge(&r0.cfg, cycle, e),
        !is_exit_edge(&r0.cfg, cycle, e),
    ensures
        !edge_in(back + exit, e.from_block as int, e.successor_index as int),
{
    if edge_in(back + exit, e.from_block as int, e.successor_index as int) {
        let all = back + exit;
        let j = choose|j: int| 0 <= j < all.len() && (#[trigger] all[j]).from_block == e.from_block as int && all[j].successor_index == e.successor_index as int;
        assert(all[j] == e);
        if j < back.len() {
            assert(all[j] == back[j]);
        } else {
            assert(all[j] == exit[j - back.len()]);
        }
    }
}

/// An edge that is neither an entry nor a back edge of the cycle is no edge of
/// `entry + back`.
proof fn lemma_not_routed(r0: &Region, cycle: Seq<usize>, entry: Seq<Edge>, back: Seq<Edge>, e: Edge)
    requires
        forall|k: int| 0 <= k < entry.len() ==> is_entry_edge(&r0.cfg, cycle, #[trigger] entry[k]),
        forall|k: int| 0 <= k < back.len() ==> is_back_edge(&r0.cfg, cycle, #[trigger] back[k]),
        !is_entry_edge(&r0.cfg, cycle, e),
        !is_back_edge(&r0.cfg, cycle, e),
    ensures
        !edge_in(entry + back, e.from_block as int, e.successor_index as int),
{
    if edge_in(entry + back, e.from_block as int, e.successor_index as int) {
        let all = entry + back;
        let j = choose|j: int| 0 <= j < all.len() && (#[trigger] all[j]).from_block == e.from_block as int && all[j].successor_index == e.successor_index as int;
        assert(all[j] == e);
        if j < entry.len() {
            assert(all[j] == entry[j]);
        } else {
            assert(all[j] == back[j - entry.len()]);
        }
    }
}

/// The laws of a prepared loop follow from what its two steps leave.
#[verifier::spinoff_prover]
proof fn lemma_prepared_laws(r0: &Region, rm: &Region, r: &Region, cycle: Seq<usize>, edges: CycleEdges, p: PreparedLoop)
    requires
        wf(r0),
        entry_stage(r0, rm, cycle, edges, p.header, p.multiplexed),
        latch_stage(rm, r, edges.back_edges@, edges.exit_edges@, p.latch, p.header),
        forall|k: int| 0 <= k < cycle.len() ==> #[trigger] cycle[k] < num_blocks(r0),
        forall|e: Edge| edges.entry_edges@.contains(e) <==> is_entry_edge(&r0.cfg, cycle, e),
        forall|e: Edge| edges.exit_edges@.contains(e) <==> is_exit_edge(&r0.cfg, cycle, e),
        forall|e: Edge| edges.back_edges@.contains(e) <==> is_back_edge(&r0.cfg, cycle, e),
        forall|k: int| 0 <= k < edges.back_edges@.len() ==> target(&rm.cfg, #[trigger] edges.back_edges@[k]) == p.header,
        forall|k: int| 0 <= k < edges.exit_edges@.len() ==> #[trigger] edge_unchanged(r0, rm, edges.exit_edges@[k]),
    ensures
        prepared_loop_laws(r0, r, cycle, edges, p),
{
    let entry = edges.entry_edges@;
    let back = edges.back_edges@;
    let exit = edges.exit_edges@;
    let n0 = num_blocks(r0);
    let h = p.header;
    let latch = p.latch.latch;
    assert forall|k: int| 0 <= k < entry.len() implies is_entry_edge(&r0.cfg, cycle, #[trigger] entry[k]) by {
        assert(entry.contains(entry[k]));
    }
    assert forall|k: int| 0 <= k < back.len() implies is_back_edge(&r0.cfg, cycle, #[trigger] back[k]) by {
        assert(back.contains(back[k]));
    }
    assert forall|k: int| 0 <= k < exit.len() implies is_exit_edge(&r0.cfg, cycle, #[trigger] exit[k]) by {
        assert(exit.contains(exit[k]));
    }
    // With a new header, the latch step keeps it as it was.
    if p.multiplexed {
        assert(!cycle.contains(h)) by {
            if cycle.contains(h) {
                let j = choose|j: int| 0 <= j < cycle.len() && cycle[j] == h;
            }
        }
        assert forall|s: int| 0 <= s < succs(rm, h as int).len() implies #[trigger] succs(r, h as int)[s] == succs(rm, h as int)[s] by {
            lemma_not_loop_edge(r0, cycle, back, exit, h as int, s);
        }
        assert forall|s: int| 0 <= s < succs(rm, h as int).len() implies #[trigger] edge_ops(r, h as int, s) == edge_ops(rm, h as int, s) by {
            lemma_not_loop_edge(r0, cycle, back, exit, h as int, s);
            assert(succs(r, h as int)[s] == succs(rm, h as int)[s]);
        }
        assert(succs(r, h as int) =~= succs(rm, h as int));
    }
    // Entry edges.
    assert forall|e: Edge| #[trigger] is_entry_edge(&r0.cfg, cycle, e) && well_typed_edge(r0, e)
        implies if p.multiplexed { reaches_through(r0, r, e, h) } else { edge_unchanged(r0, r, e) } by {
        let f = e.from_block as int;
        let si = e.successor_index as int;
        lemma_cycle_edge_kinds(&r0.cfg, cycle, e);
        lemma_not_in_loop_edges(r0, cycle, back, exit, e);
        assert(is_edge(&r0.cfg, e));
        assert(f < num_blocks(rm));
        assert(succs(rm, f).len() == succs(r0, f).len());
        assert(0 <= si < succs(rm, f).len());
        assert(!edge_in(back + exit, f, si));
        assert(succs(r, f)[si] == succs(rm, f)[si]);
        assert(edge_ops(r, f, si) == edge_ops(rm, f, si));
        if p.multiplexed {
            assert(entry.contains(e));
            let j = choose|j: int| 0 <= j < entry.len() && entry[j] == e;
            assert((entry + back)[j] == e);
            let x = edge_ops(rm, f, si);
            assert forall|k: int| 0 <= k < x.len() implies valid_value(rm, #[trigger] x[k]) by {
            }
            lemma_hop_kept(rm, r, h, x, h as int);
        }
    }
    // Back edges.
    assert forall|e: Edge| #[trigger] is_back_edge(&r0.cfg, cycle, e) && well_typed_edge(r0, e)
        implies back_edge_preserved(r0, r, e, p) by {
        let f = e.from_block as int;
        let si = e.successor_index as int;
        assert(back.contains(e));
        let k = choose|k: int| 0 <= k < back.len() && back[k] == e;
        assert(loop_edge(back, exit, k) == e);
        assert(target(&rm.cfg, back[k]) == h);
        let x = edge_ops(rm, f, si);
        if p.multiplexed {
            assert((entry + back)[entry.len() + k] == e);
            assert forall|i: int| 0 <= i < x.len() implies valid_value(rm, #[trigger] x[i]) by {
            }
            lemma_hop_kept(rm, r, h, x, h as int);
        }
    }
    // Exit edges.
    assert forall|e: Edge| #[trigger] is_exit_edge(&r0.cfg, cycle, e) && well_typed_edge(r0, e)
        implies exit_edge_preserved(r0, r, e, p) by {
        assert(exit.contains(e));
        let k = choose|k: int| 0 <= k < exit.len() && exit[k] == e;
        assert(loop_edge(back, exit, back.len() + k) == e);
        assert(edge_unchanged(r0, rm, exit[k]));
        let t0 = target(&r0.cfg, e);
        assert(t0 < n0);
        assert(succs(rm, t0 as int).len() == succs(r0, t0 as int).len());
        assert(block_args(rm, t0 as int) == block_args(r0, t0 as int));
    }
    // Every other edge.
    assert forall|e: Edge| #[trigger] is_edge(&r0.cfg, e) && !is_entry_edge(&r0.cfg, cycle, e) && !is_back_edge(&r0.cfg, cycle, e)
        && !is_exit_edge(&r0.cfg, cycle, e) implies edge_unchanged(r0, r, e) by {
        let f = e.from_block as int;
        let si = e.successor_index as int;
        lemma_not_in_loop_edges(r0, cycle, back, exit, e);
        if p.multiplexed {
            lemma_not_routed(r0, cycle, entry, back, e);
            assert(succs(rm, f)[si] == succs(r0, f)[si]);
        }
        assert(f < num_blocks(rm));
        assert(succs(rm, f).len() == succs(r0, f).len());
        assert(0 <= si < succs(rm, f).len());
        assert(!edge_in(back + exit, f, si));
        assert(succs(r, f)[si] == succs(rm, f)[si]);
        assert(edge_ops(r, f, si) == edge_ops(rm, f, si));
    }
}

/// `e` is an edge of `r` from one of the blocks `branch` to the block `continuation`.
pub open spec fn edge_to_continuation(r: &Region, branch: Seq<usize>, continuation: usize, e: Edge) -> bool {
    branch.contains(e.from_block) && is_edge(&r.cfg, e) && target(&r.cfg, e) == continuation
}

/// Two different edges lead from the blocks `branch` to the block `continuation`.
pub open spec fn several_edges_to_continuation(r: &Region, branch: Seq<usize>, continuation: usize) -> bool {
    exists|e1: Edge, e2: Edge| e1 != e2 && #[trigger] edge_to_continuation(r, branch, continuation, e1)
        && #[trigger] edge_to_continuation(r, branch, continuation, e2)
}

/// Making `e` lead to block `x` keeps the region well formed.
proof fn lemma_retarget_wf(r1: &Region, r2: &Region, e: Edge, x: usize)
    requires
        wf(r1),
        is_edge(&r1.cfg, e),
        x < num_blocks(r1),
        num_blocks(r2) == num_blocks(r1),
        succs(r2, e.from_block as int) == succs(r1, e.from_block as int).update(e.successor_index as int, x),
        forall|b: int| 0 <= b < num_blocks(r1) && b != e.from_block ==> #[trigger] succs(r2, b) == succs(r1, b),
        r2.operands == r1.operands,
        r2.args == r1.args,
        r2.terminators == r1.terminators,
        r2.values == r1.values,
    ensures
        wf(r2),
{
    let n = num_blocks(r1);
    let f = e.from_block as int;
    assert forall|b: int| 0 <= b < n implies (#[trigger] r2.operands@[b])@.len() == succs(r2, b).len() by {
        assert(r1.operands@[b]@.len() == succs(r1, b).len());
    }
    assert forall|b: int, s: int| 0 <= b < n && 0 <= s < succs(r2, b).len() implies #[trigger] succs(r2, b)[s] < n by {
        if !(b == f && s == e.successor_index) {
            assert(succs(r2, b)[s] == succs(r1, b)[s]);
        }
    }
    assert forall|b: int, s: int, k: int| 0 <= b < n && 0 <= s < succs(r2, b).len() && 0 <= k < edge_ops(r2, b, s).len()
        implies valid_value(r2, #[trigger] edge_ops(r2, b, s)[k]) by {
        assert(succs(r2, b).len() == succs(r1, b).len());
        assert(edge_ops(r2, b, s) == edge_ops(r1, b, s));
        assert(valid_value(r1, edge_ops(r1, b, s)[k]));
    }
    assert forall|b: int, k: int| 0 <= b < n && 0 <= k < block_args(r2, b).len() implies {
        &&& valid_value(r2, #[trigger] block_args(r2, b)[k])
        &&& value_def(r2, block_args(r2, b)[k]) == (ValueDef::Arg { block: b as usize, index: k as usize })
    } by {
        assert(block_args(r2, b) == block_args(r1, b));
    }
    assert forall|b: int| 0 <= b < n implies arity_ok(#[trigger] r2.terminators@[b], succs(r2, b).len())
        && terminator_values_ok(r2, r2.terminators@[b]) by {
        assert(succs(r2, b).len() == succs(r1, b).len());
        assert(arity_ok(r1.terminators@[b], succs(r1, b).len()));
        assert(terminator_values_ok(r1, r1.terminators@[b]));
    }
}

/// In `r`, from `r0`, block `x` with arguments `args` is the single exit of the branch
/// region made of the blocks `branch`: it is new, with arguments of the types of
/// `continuation`'s and no terminator yet; every edge from the branch region to `continuation`
/// leads to it, passing what it passed; every other edge and every block of `r0` stays as it
/// was, and the values of `r0` are kept.
pub open spec fn single_exit_made(r0: &Region, r: &Region, branch: Seq<usize>, continuation: usize, x: usize, args: Seq<ValueRef>) -> bool {
    let n0 = num_blocks(r0);
    &&& x == n0
    &&& num_blocks(r) == n0 + 1
    &&& args == block_args(r, x as int)
    &&& args.len() == block_args(r0, continuation as int).len()
    &&& forall|k: int| 0 <= k < args.len() ==> #[trigger] value_type(r, args[k]) == value_type(r0, block_args(r0, continuation as int)[k])
    &&& succs(r, x as int).len() == 0
    &&& r.terminators@[x as int] == Terminator::Unterminated
    &&& forall|e: Edge| #[trigger] edge_to_continuation(r0, branch, continuation, e)
        ==> target(&r.cfg, e) == x && edge_ops(r, e.from_block as int, e.successor_index as int) == edge_ops(r0, e.from_block as int, e.successor_index as int)
    &&& forall|e: Edge| #[trigger] is_edge(&r0.cfg, e) && !edge_to_continuation(r0, branch, continuation, e)
        ==> edge_unchanged(r0, r, e)
    &&& forall|b: int| 0 <= b < n0 ==> #[trigger] succs(r, b).len() == succs(r0, b).len()
        && block_args(r, b) == block_args(r0, b) && r.terminators@[b] == r0.terminators@[b]
    &&& r.values@.len() >= r0.values@.len()
    &&& forall|i: int| 0 <= i < r0.values@.len() ==> #[trigger] r.values@[i] == r0.values@[i]
}

impl TransformationContext {
    /// Give the branch region made of the blocks `branch` a single exit: where more than one
    /// edge leads from its blocks to the block `continuation`, a new block, with arguments of
    /// the types of `continuation`'s, takes their place as their target, and is given back
    /// with its arguments; its terminator is left to be made. Nothing changes where at most one
    /// edge leads there.
    #[verifier::spinoff_prover]
    pub fn create_single_exit_branch_region(&mut self, branch: &[usize], continuation: usize) -> (res: Option<(usize, Vec<ValueRef>)>)
        requires
            old(self).wf(),
            forall|k: int| 0 <= k < branch@.len() ==> #[trigger] branch@[k] < num_blocks(&old(self).region),
            branch@.no_duplicates(),
            continuation < num_blocks(&old(self).region),
            num_blocks(&old(self).region) < usize::MAX,
        ensures
            final(self).wf(),
            res is Some <==> several_edges_to_continuation(&old(self).region, branch@, continuation),
            res is None ==> *final(self) == *old(self),
            res matches Some((x, args)) ==> single_exit_made(&old(self).region, &final(self).region, branch@, continuation, x, args@),
            final(self).entry == old(self).entry,
            final(self).switch_value_cache@ == old(self).switch_value_cache@,
            final(self).typed_undef_cache@ == old(self).typed_undef_cache@,
            final(self).return_like_to_combined_exit@ == old(self).return_like_to_combined_exit@,
    {
        let ghost r0 = self.region;
        let ghost n0 = num_blocks(&r0);
        // The edges to the continuation, in the order of the blocks and their successors.
        let mut to_cont: Vec<Edge> = Vec::new();
        let mut k: usize = 0;
        while k < branch.len()
            invariant
                self.region == r0,
                wf(&r0),
                k <= branch@.len(),
                branch@.no_duplicates(),
                forall|j: int| 0 <= j < branch@.len() ==> #[trigger] branch@[j] < n0,
                n0 == num_blocks(&r0),
                to_cont@.no_duplicates(),
                forall|e: Edge| #[trigger] to_cont@.contains(e) <==> edge_to_continuation(&r0, branch@.take(k as int), continuation, e),
            decreases branch@.len() - k,
        {
            let b = branch[k];
            let m = self.region.cfg.successors[b].len();
            let mut i: usize = 0;
            while i < m
                invariant
                    self.region == r0,
                    k < branch@.len(),
                    b == branch@[k as int],
                    b < n0,
                    n0 == num_blocks(&r0),
                    branch@.no_duplicates(),
                    m == succs(&r0, b as int).len(),
                    i <= m,
                    to_cont@.no_duplicates(),
                    forall|e: Edge| #[trigger] to_cont@.contains(e) <==> (edge_to_continuation(&r0, branch@.take(k as int), continuation, e)
                        || (e.from_block == b && e.successor_index < i && is_edge(&r0.cfg, e) && target(&r0.cfg, e) == continuation)),
                decreases m - i,
            {
                if self.region.cfg.successors[b][i] == continuation {
                    let e = Edge { from_block: b, successor_index: i };
                    let ghost before = to_cont@;
                    proof {
                        assert(!before.contains(e)) by {
                            if before.contains(e) {
                                assert(branch@.take(k as int).contains(b));
                                let j = choose|j: int| 0 <= j < k && branch@.take(k as int)[j] == b;
                                assert(branch@[j] == branch@[k as int]);
                            }
                        }
                    }
                    to_cont.push(e);
                    proof {
                        assert forall|x: int, y: int| 0 <= x < to_cont@.len() && 0 <= y < to_cont@.len() && x != y implies to_cont@[x] != to_cont@[y] by {
                            if x < before.len() && y < before.len() {
                                assert(to_cont@[x] == before[x] && to_cont@[y] == before[y]);
                            } else if x < before.len() {
                                assert(before.contains(to_cont@[x]));
                            } else if y < before.len() {
                                assert(before.contains(to_cont@[y]));
                            }
                        }
                        assert forall|f: Edge| #[trigger] to_cont@.contains(f) <==> (edge_to_continuation(&r0, branch@.take(k as int), continuation, f)
                            || (f.from_block == b && f.successor_index < i + 1 && is_edge(&r0.cfg, f) && target(&r0.cfg, f) == continuation)) by {
                            if f == e {
                                assert(to_cont@[before.len() as int] == e);
                            } else if before.contains(f) {
                                let j = choose|j: int| 0 <= j < before.len() && before[j] == f;
                                assert(to_cont@[j] == f);
                            } else if to_cont@.contains(f) {
                                let j = choose|j: int| 0 <= j < to_cont@.len() && to_cont@[j] == f;
                                if j < before.len() {
                                    assert(before[j] == f);
                                }
                            }
                        }
                    }
                }
                i = i + 1;
            }
            proof {
                assert forall|e: Edge| #[trigger] to_cont@.contains(e) <==> edge_to_continuation(&r0, branch@.take(k + 1), continuation, e) by {
                    let t1 = branch@.take(k + 1);
                    let t0 = branch@.take(k as int);
                    if t0.contains(e.from_block) {
                        let j = choose|j: int| 0 <= j < t0.len() && t0[j] == e.from_block;
                        assert(t1[j] == e.from_block);
                    }
                    if e.from_block == b {
                        assert(t1[k as int] == b);
                    }
                    if t1.contains(e.from_block) {
                        let j = choose|j: int| 0 <= j < t1.len() && t1[j] == e.from_block;
                        if j < k {
                            assert(t0[j] == e.from_block);
                        }
                    }
                }
            }
            k = k + 1;
        }
        proof {
            assert(branch@.take(k as int) =~= branch@);
            assert(several_edges_to_continuation(&r0, branch@, continuation) <==> to_cont@.len() >= 2) by {
                if to_cont@.len() >= 2 {
                    assert(to_cont@.contains(to_cont@[0]));
                    assert(to_cont@.contains(to_cont@[1]));
                    assert(edge_to_continuation(&r0, branch@, continuation, to_cont@[0]));
                    assert(edge_to_continuation(&r0, branch@, continuation, to_cont@[1]));
                }
                if several_edges_to_continuation(&r0, branch@, continuation) {
                    let (e1, e2) = choose|e1: Edge, e2: Edge| e1 != e2 && #[trigger] edge_to_continuation(&r0, branch@, continuation, e1)
                        && #[trigger] edge_to_continuation(&r0, branch@, continuation, e2);
                    assert(to_cont@.contains(e1) && to_cont@.contains(e2));
                    let j1 = choose|j: int| 0 <= j < to_cont@.len() && to_cont@[j] == e1;
                    let j2 = choose|j: int| 0 <= j < to_cont@.len() && to_cont@[j] == e2;
                    assert(j1 != j2);
                }
            }
        }
        if to_cont.len() < 2 {
            return None;
        }
        let x = self.create_block();
        let ghost rc = self.region;
        self.add_block_arguments_from_other(x, continuation);
        let ghost r1 = self.region;
        let args = copy_range(&self.region.args[x], 0, self.region.args[x].len());
        proof {
            assert(args@ =~= block_args(&r1, x as int));
        }
        let mut j: usize = 0;
        while j < to_cont.len()
            invariant
                self.wf(),
                wf(&r0),
                n0 == num_blocks(&r0),
                x == n0,
                num_blocks(&r1) == n0 + 1,
                num_blocks(&self.region) == n0 + 1,
                j <= to_cont@.len(),
                to_cont@.no_duplicates(),
                forall|e: Edge| #[trigger] to_cont@.contains(e) <==> edge_to_continuation(&r0, branch@, continuation, e),
                self.region.operands == r1.operands,
                self.region.args == r1.args,
                self.region.terminators == r1.terminators,
                self.region.values == r1.values,
                forall|b: int| 0 <= b < n0 ==> #[trigger] succs(&r1, b) == succs(&r0, b),
                succs(&self.region, x as int) == succs(&r1, x as int),
                forall|q: int| 0 <= q < j ==> target(&self.region.cfg, #[trigger] to_cont@[q]) == x,
                forall|b: int, s: int| 0 <= b < n0 && 0 <= s < succs(&r0, b).len()
                    && !edge_in(to_cont@.take(j as int), b, s) ==> #[trigger] succs(&self.region, b)[s] == succs(&r0, b)[s],
                forall|b: int| 0 <= b < n0 ==> #[trigger] succs(&self.region, b).len() == succs(&r0, b).len(),
                self.entry == old(self).entry,
                self.switch_value_cache@ == old(self).switch_value_cache@,
                self.typed_undef_cache@ == old(self).typed_undef_cache@,
                self.return_like_to_combined_exit@ == old(self).return_like_to_combined_exit@,
            decreases to_cont@.len() - j,
        {
            let e = to_cont[j];
            let ghost before = self.region;
            proof {
                assert(to_cont@.contains(e));
                assert(!edge_in(to_cont@.take(j as int), e.from_block as int, e.successor_index as int)) by {
                    if edge_in(to_cont@.take(j as int), e.from_block as int, e.successor_index as int) {
                        let q = choose|q: int| 0 <= q < to_cont@.take(j as int).len()
                            && (#[trigger] to_cont@.take(j as int)[q]).from_block == e.from_block as int
                            && to_cont@.take(j as int)[q].successor_index == e.successor_index as int;
                        assert(to_cont@[q] == to_cont@[j as int]);
                    }
                }
                assert(succs(&self.region, e.from_block as int).len() == succs(&r0, e.from_block as int).len());
            }
            e.set_successor(&mut self.region.cfg, x);
            proof {
                lemma_retarget_wf(&before, &self.region, e, x);
                assert forall|q: int| 0 <= q < j + 1 implies target(&self.region.cfg, #[trigger] to_cont@[q]) == x by {
                    if q < j {
                        let eq = to_cont@[q];
                        assert(eq != e);
                        assert(to_cont@.contains(eq));
                        assert(is_edge(&r0.cfg, eq));
                        if eq.from_block != e.from_block {
                            assert(succs(&self.region, eq.from_block as int) == succs(&before, eq.from_block as int));
                        }
                    }
                }
                assert forall|b: int, s: int| 0 <= b < n0 && 0 <= s < succs(&r0, b).len()
                    && !edge_in(to_cont@.take(j + 1), b, s) implies #[trigger] succs(&self.region, b)[s] == succs(&r0, b)[s] by {
                    assert(!edge_in(to_cont@.take(j as int), b, s)) by {
                        if edge_in(to_cont@.take(j as int), b, s) {
                            let q = choose|q: int| 0 <= q < to_cont@.take(j as int).len()
                                && (#[trigger] to_cont@.take(j as int)[q]).from_block == b
                                && to_cont@.take(j as int)[q].successor_index == s;
                            assert(to_cont@.take(j + 1)[q] == to_cont@.take(j as int)[q]);
                        }
                    }
                    if b == e.from_block && s == e.successor_index {
                        assert(to_cont@.take(j + 1)[j as int] == e);
                    }
                    assert(succs(&before, b)[s] == succs(&r0, b)[s]);
                }
                assert forall|b: int| 0 <= b < n0 implies #[trigger] succs(&self.region, b).len() == succs(&r0, b).len() by {
                    assert(succs(&before, b).len() == succs(&r0, b).len());
                }
            }
            j = j + 1;
        }
        proof {
            let r = &self.region;
            assert(to_cont@.take(j as int) =~= to_cont@);
            assert forall|e: Edge| #[trigger] edge_to_continuation(&r0, branch@, continuation, e)
                implies target(&r.cfg, e) == x && edge_ops(r, e.from_block as int, e.successor_index as int) == edge_ops(&r0, e.from_block as int, e.successor_index as int) by {
                assert(to_cont@.contains(e));
                let q = choose|q: int| 0 <= q < to_cont@.len() && to_cont@[q] == e;
                assert(target(&r.cfg, to_cont@[q]) == x);
                assert(r1.operands@[e.from_block as int]@ == r0.operands@[e.from_block as int]@);
            }
            assert forall|e: Edge| #[trigger] is_edge(&r0.cfg, e) && !edge_to_continuation(&r0, branch@, continuation, e)
                implies edge_unchanged(&r0, r, e) by {
                let b = e.from_block as int;
                let s = e.successor_index as int;
                assert(!edge_in(to_cont@, b, s)) by {
                    if edge_in(to_cont@, b, s) {
                        let q = choose|q: int| 0 <= q < to_cont@.len() && (#[trigger] to_cont@[q]).from_block == b && to_cont@[q].successor_index == s;
                        assert(to_cont@.contains(to_cont@[q]));
                        assert(to_cont@[q] == e);
                    }
                }
                assert(succs(r, b)[s] == succs(&r0, b)[s]);
                assert(r1.operands@[b]@ == r0.operands@[b]@);
            }
            assert forall|b: int| 0 <= b < n0 implies #[trigger] succs(r, b).len() == succs(&r0, b).len()
                && block_args(r, b) == block_args(&r0, b) && r.terminators@[b] == r0.terminators@[b] by {
                assert(block_args(&r1, b) == block_args(&rc, b));
                assert(block_args(&rc, b) == block_args(&r0, b));
                assert(rc.terminators@[b] == r0.terminators@[b]);
                assert(r1.terminators@[b] == rc.terminators@[b]);
            }
            assert(block_args(&rc, x as int).len() == 0);
            assert(block_args(&rc, continuation as int) == block_args(&r0, continuation as int));
            assert(args@.len() == block_args(&r0, continuation as int).len());
            assert forall|q: int| 0 <= q < args@.len() implies #[trigger] value_type(r, args@[q]) == value_type(&r0, block_args(&r0, continuation as int)[q]) by {
                let cv = copied_arg_values(&rc, x, continuation);
                assert(args@[q] == value_range(rc.values@.len(), block_args(&rc, continuation as int).len())[q]);
                assert(r.values@.len() == rc.values@.len() + cv.len());
                assert(r.values@.len() <= usize::MAX) by {
                    assert(r.values@.len() == self.region.values.len());
                }
                assert(args@[q].index == rc.values@.len() + q);
                assert(r.values@[rc.values@.len() + q] == cv[q]);
                let a = block_args(&r0, continuation as int)[q];
                assert(valid_value(&r0, a));
                assert(rc.values@[a.index as int] == r0.values@[a.index as int]);
            }
            assert forall|i: int| 0 <= i < r0.values@.len() implies #[trigger] r.values@[i] == r0.values@[i] by {
                assert(rc.values@[i] == r0.values@[i]);
            }
            assert(single_exit_made(&r0, r, branch@, continuation, x, args@));
        }
        Some((x, args))
    }
}

} // verus!
