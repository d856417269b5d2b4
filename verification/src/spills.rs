//! Splitting control-flow edges, the first step of inserting spills and reloads: each edge
//! along which a spill or reload is needed gets a block of its own, which the edge now leads
//! to and which branches on to the edge's target with the edge's operands.
use vstd::prelude::*;
use crate::cfg::{Edge, is_edge, target};
use crate::cfg_to_scf::{
    Region, Terminator, arity_ok, bind, block_args, copy_range, edge_ops, hop, lemma_hop_kept,
    num_blocks, succs, terminator_values_ok, valid_value, value_def, wf,
};
use crate::ir::ValueRef;

verus! {

/// In `r`, edge `e` of `r0` is split by the new block `s`: `s` ends with an unconditional
/// branch to the target of `e` passing the operands of `e`, and `e` leads to `s` passing
/// nothing; every other edge and every block of `r0` stays as it was.
pub open spec fn edge_split(r0: &Region, r: &Region, e: Edge, s: usize) -> bool {
    let f = e.from_block as int;
    let i = e.successor_index as int;
    let n0 = num_blocks(r0);
    &&& r.terminators@[s as int] == Terminator::Br
    &&& succs(r, s as int) == seq![target(&r0.cfg, e)]
    &&& edge_ops(r, s as int, 0) == edge_ops(r0, f, i)
    &&& block_args(r, s as int).len() == 0
    &&& succs(r, f) == succs(r0, f).update(i, s)
    &&& edge_ops(r, f, i).len() == 0
    &&& forall|j: int| 0 <= j < succs(r0, f).len() && j != i ==> #[trigger] edge_ops(r, f, j) == edge_ops(r0, f, j)
    &&& forall|b: int| 0 <= b < n0 && b != f ==> #[trigger] succs(r, b) == succs(r0, b) && r.operands@[b]@ == r0.operands@[b]@
    &&& forall|b: int| 0 <= b < n0 ==> #[trigger] block_args(r, b) == block_args(r0, b) && r.terminators@[b] == r0.terminators@[b]
    &&& r.values@ == r0.values@
}

/// Control goes from block `s`, which has no arguments, to block `t`, passing `ops`.
pub open spec fn passes_on(r: &Region, s: usize, t: usize, ops: Seq<ValueRef>) -> bool {
    hop(r, s, Seq::empty(), s as int) == Some((t, ops))
}

/// A block that ends with an unconditional branch passing values of the region, and has no
/// arguments, passes them on unchanged.
proof fn lemma_branch_hop(r: &Region, s: int)
    requires
        wf(r),
        0 <= s < num_blocks(r),
        r.terminators@[s] == Terminator::Br,
        block_args(r, s).len() == 0,
    ensures
        hop(r, s as usize, Seq::empty(), s) == Some((succs(r, s)[0], edge_ops(r, s, 0))),
{
    let ops = edge_ops(r, s, 0);
    assert(arity_ok(r.terminators@[s], succs(r, s).len()));
    assert(ops.map_values(|v: ValueRef| bind(r, s as usize, Seq::empty(), v)) =~= ops) by {
        assert forall|k: int| 0 <= k < ops.len() implies bind(r, s as usize, Seq::empty(), #[trigger] ops[k]) == ops[k] by {
            assert(valid_value(r, edge_ops(r, s, 0)[k]));
        }
    }
}

/// Split edge `e` of `r` (see `edge_split`), and give back the new block. The new block
/// passes the edge on to where it led, with the operands it passed.
pub fn split_edge(r: &mut Region, e: Edge) -> (s: usize)
    requires
        wf(old(r)),
        is_edge(&old(r).cfg, e),
        num_blocks(old(r)) < usize::MAX,
    ensures
        wf(final(r)),
        s == num_blocks(old(r)),
        num_blocks(final(r)) == s + 1,
        edge_split(old(r), final(r), e, s),
        hop(final(r), s, Seq::empty(), s as int)
            == Some((target(&old(r).cfg, e), edge_ops(old(r), e.from_block as int, e.successor_index as int))),
{
    let ghost r0 = *r;
    let f = e.from_block;
    let i = e.successor_index;
    let s = r.cfg.successors.len();
    let dest = r.cfg.successors[f][i];
    let moved = copy_range(&r.operands[f][i], 0, r.operands[f][i].len());
    proof {
        assert(moved@ =~= edge_ops(&r0, f as int, i as int));
    }
    r.cfg.successors.push(vec![dest]);
    r.operands.push(vec![moved]);
    r.args.push(Vec::new());
    r.terminators.push(Terminator::Br);
    r.cfg.successors[f].set(i, s);
    r.operands[f].set(i, Vec::new());
    proof {
        let r1 = &*r;
        let n = num_blocks(r1);
        assert(succs(r1, s as int) =~= seq![dest]);
        assert(forall|b: int| 0 <= b < num_blocks(&r0) && b != f ==> #[trigger] succs(r1, b) == succs(&r0, b)
            && r1.operands@[b]@ == r0.operands@[b]@);
        assert(succs(r1, f as int) =~= succs(&r0, f as int).update(i as int, s));
        assert forall|b: int| 0 <= b < n implies (#[trigger] r1.operands@[b])@.len() == succs(r1, b).len() by {
            if b < num_blocks(&r0) {
                assert(r0.operands@[b]@.len() == succs(&r0, b).len());
            }
        }
        assert forall|b: int, j: int| 0 <= b < n && 0 <= j < succs(r1, b).len() implies #[trigger] succs(r1, b)[j] < n by {
            if b < num_blocks(&r0) && !(b == f && j == i) {
                assert(succs(r1, b)[j] == succs(&r0, b)[j]);
            }
        }
        assert forall|b: int, j: int, k: int| 0 <= b < n && 0 <= j < succs(r1, b).len() && 0 <= k < edge_ops(r1, b, j).len()
            implies valid_value(r1, #[trigger] edge_ops(r1, b, j)[k]) by {
            if b == s {
                assert(edge_ops(r1, b, j) == edge_ops(&r0, f as int, i as int));
            } else if !(b == f && j == i) {
                assert(edge_ops(r1, b, j) == edge_ops(&r0, b, j));
            }
        }
        assert forall|b: int, k: int| 0 <= b < n && 0 <= k < block_args(r1, b).len() implies {
            &&& valid_value(r1, #[trigger] block_args(r1, b)[k])
            &&& value_def(r1, block_args(r1, b)[k]) == (crate::cfg_to_scf::ValueDef::Arg { block: b as usize, index: k as usize })
        } by {
            assert(block_args(r1, b) == block_args(&r0, b));
        }
        assert forall|b: int| 0 <= b < n implies arity_ok(#[trigger] r1.terminators@[b], succs(r1, b).len())
            && terminator_values_ok(r1, r1.terminators@[b]) by {
            if b < num_blocks(&r0) {
                assert(arity_ok(r0.terminators@[b], succs(&r0, b).len()));
                assert(terminator_values_ok(&r0, r0.terminators@[b]));
            }
        }
        assert forall|j: int| 0 <= j < succs(&r0, f as int).len() && j != i implies #[trigger] edge_ops(r1, f as int, j) == edge_ops(&r0, f as int, j) by {
        }
        assert forall|b: int| 0 <= b < num_blocks(&r0) implies #[trigger] block_args(r1, b) == block_args(&r0, b)
            && r1.terminators@[b] == r0.terminators@[b] by {
        }
        assert(wf(r1));
        lemma_branch_hop(r1, s as int);
    }
    s
}

/// Split each of `edges`, in order, and give back the new blocks: the `k`-th edge now leads
/// to the `k`-th new block, passing nothing, and that block passes it on to where it led with
/// the operands it passed. Every other edge stays as it was.
#[verifier::spinoff_prover]
pub fn split_edges(r: &mut Region, edges: &[Edge]) -> (splits: Vec<usize>)
    requires
        wf(old(r)),
        forall|k: int| 0 <= k < edges@.len() ==> is_edge(&old(r).cfg, #[trigger] edges@[k]),
        forall|i: int, j: int| 0 <= i < j < edges@.len() ==> #[trigger] edges@[i] != #[trigger] edges@[j],
        num_blocks(old(r)) + edges@.len() < usize::MAX,
    ensures
        wf(final(r)),
        num_blocks(final(r)) == num_blocks(old(r)) + edges@.len(),
        splits@.len() == edges@.len(),
        forall|k: int| 0 <= k < edges@.len() ==> {
            let e = #[trigger] edges@[k];
            let s = splits@[k];
            &&& s == num_blocks(old(r)) + k
            &&& target(&final(r).cfg, e) == s
            &&& edge_ops(final(r), e.from_block as int, e.successor_index as int).len() == 0
            &&& passes_on(final(r), s, target(&old(r).cfg, e), edge_ops(old(r), e.from_block as int, e.successor_index as int))
        },
        forall|b: int, j: int| 0 <= b < num_blocks(old(r)) && 0 <= j < succs(old(r), b).len()
            && !crate::cfg_to_scf::edge_in(edges@, b, j)
            ==> #[trigger] succs(final(r), b)[j] == succs(old(r), b)[j] && edge_ops(final(r), b, j) == edge_ops(old(r), b, j),
        forall|b: int| 0 <= b < num_blocks(old(r)) ==> #[trigger] succs(final(r), b).len() == succs(old(r), b).len()
            && block_args(final(r), b) == block_args(old(r), b) && final(r).terminators@[b] == old(r).terminators@[b],
        final(r).values@ == old(r).values@,
{
    let ghost r0 = *r;
    let ghost n0 = num_blocks(&r0);
    let mut splits: Vec<usize> = Vec::new();
    let mut k: usize = 0;
    while k < edges.len()
        invariant
            wf(&r0),
            wf(r),
            n0 == num_blocks(&r0),
            k <= edges@.len(),
            n0 + edges@.len() < usize::MAX,
            num_blocks(r) == n0 + k,
            splits@.len() == k,
            forall|j: int| 0 <= j < edges@.len() ==> is_edge(&r0.cfg, #[trigger] edges@[j]),
            forall|a: int, c: int| 0 <= a < c < edges@.len() ==> #[trigger] edges@[a] != #[trigger] edges@[c],
            forall|j: int| 0 <= j < k ==> #[trigger] splits@[j] == n0 + j,
            forall|j: int| 0 <= j < k ==> target(&r.cfg, #[trigger] edges@[j]) == n0 + j,
            forall|j: int| 0 <= j < k ==> edge_ops(r, (#[trigger] edges@[j]).from_block as int, edges@[j].successor_index as int).len() == 0,
            forall|j: int| 0 <= j < k ==> passes_on(r, (n0 + j) as usize, target(&r0.cfg, #[trigger] edges@[j]), edge_ops(&r0, edges@[j].from_block as int, edges@[j].successor_index as int)),
            forall|b: int, j: int| 0 <= b < n0 && 0 <= j < succs(&r0, b).len()
                && !crate::cfg_to_scf::edge_in(edges@.take(k as int), b, j)
                ==> #[trigger] succs(r, b)[j] == succs(&r0, b)[j] && edge_ops(r, b, j) == edge_ops(&r0, b, j),
            forall|b: int| 0 <= b < n0 ==> #[trigger] succs(r, b).len() == succs(&r0, b).len()
                && block_args(r, b) == block_args(&r0, b) && r.terminators@[b] == r0.terminators@[b],
            r.values@ == r0.values@,
        decreases edges@.len() - k,
    {
        let e = edges[k];
        let ghost before = *r;
        proof {
            assert(is_edge(&r0.cfg, e));
            assert(!crate::cfg_to_scf::edge_in(edges@.take(k as int), e.from_block as int, e.successor_index as int)) by {
                if crate::cfg_to_scf::edge_in(edges@.take(k as int), e.from_block as int, e.successor_index as int) {
                    let j = choose|j: int| 0 <= j < edges@.take(k as int).len()
                        && (#[trigger] edges@.take(k as int)[j]).from_block == e.from_block as int
                        && edges@.take(k as int)[j].successor_index == e.successor_index as int;
                    assert(edges@[j] == edges@[k as int]);
                }
            }
            assert(succs(r, e.from_block as int).len() == succs(&r0, e.from_block as int).len());
            assert(succs(r, e.from_block as int)[e.successor_index as int] == succs(&r0, e.from_block as int)[e.successor_index as int]);
        }
        let s = split_edge(r, e);
        splits.push(s);
        proof {
            let f = e.from_block as int;
            let i = e.successor_index as int;
            assert forall|j: int| 0 <= j < k + 1 implies #[trigger] splits@[j] == n0 + j by {
            }
            assert forall|j: int| 0 <= j < k + 1 implies {
                let e2 = #[trigger] edges@[j];
                let s2 = (n0 + j) as usize;
                &&& target(&r.cfg, e2) == s2
                &&& edge_ops(r, e2.from_block as int, e2.successor_index as int).len() == 0
                &&& passes_on(r, s2, target(&r0.cfg, e2), edge_ops(&r0, e2.from_block as int, e2.successor_index as int))
            } by {
                let e2 = edges@[j];
                if j < k {
                    let s2 = (n0 + j) as usize;
                    assert(is_edge(&r0.cfg, e2));
                    assert(e2 != e);
                    let f2 = e2.from_block as int;
                    let i2 = e2.successor_index as int;
                    if f2 == f {
                        assert(i2 != i);
                        assert(succs(r, f2)[i2] == succs(&before, f2)[i2]);
                        assert(edge_ops(r, f2, i2) == edge_ops(&before, f2, i2));
                    } else {
                        assert(succs(r, f2) == succs(&before, f2));
                        assert(r.operands@[f2]@ == before.operands@[f2]@);
                    }
                    // The earlier split block is kept.
                    assert(s2 < num_blocks(&before));
                    assert(succs(r, s2 as int) == succs(&before, s2 as int));
                    assert(r.operands@[s2 as int]@ == before.operands@[s2 as int]@);
                    assert(block_args(r, s2 as int) == block_args(&before, s2 as int));
                    assert(r.terminators@[s2 as int] == before.terminators@[s2 as int]);
                    assert forall|x: int| 0 <= x < succs(&before, s2 as int).len() implies #[trigger] edge_ops(r, s2 as int, x) == edge_ops(&before, s2 as int, x) by {
                    }
                    lemma_hop_kept(&before, r, s2, Seq::empty(), s2 as int);
                } else {
                    assert(succs(r, f) == succs(&before, f).update(i, s));
                }
            }
            assert forall|b: int, j: int| 0 <= b < n0 && 0 <= j < succs(&r0, b).len()
                && !crate::cfg_to_scf::edge_in(edges@.take(k + 1), b, j)
                implies #[trigger] succs(r, b)[j] == succs(&r0, b)[j] && edge_ops(r, b, j) == edge_ops(&r0, b, j) by {
                assert(!crate::cfg_to_scf::edge_in(edges@.take(k as int), b, j)) by {
                    if crate::cfg_to_scf::edge_in(edges@.take(k as int), b, j) {
                        let x = choose|x: int| 0 <= x < edges@.take(k as int).len()
                            && (#[trigger] edges@.take(k as int)[x]).from_block == b
                            && edges@.take(k as int)[x].successor_index == j;
                        assert(edges@.take(k + 1)[x] == edges@.take(k as int)[x]);
                    }
                }
                assert(!(b == f && j == i)) by {
                    if b == f && j == i {
                        assert(edges@.take(k + 1)[k as int] == e);
                    }
                }
                assert(succs(&before, b)[j] == succs(&r0, b)[j]);
                if b == f {
                    assert(succs(r, b)[j] == succs(&before, b)[j]);
                    assert(edge_ops(r, b, j) == edge_ops(&before, b, j));
                } else {
                    assert(succs(r, b) == succs(&before, b));
                    assert(r.operands@[b]@ == before.operands@[b]@);
                }
            }
            assert forall|b: int| 0 <= b < n0 implies #[trigger] succs(r, b).len() == succs(&r0, b).len()
                && block_args(r, b) == block_args(&r0, b) && r.terminators@[b] == r0.terminators@[b] by {
                assert(succs(&before, b).len() == succs(&r0, b).len());
                if b != f {
                    assert(succs(r, b) == succs(&before, b));
                }
            }
        }
        k = k + 1;
    }
    proof {
        assert(edges@.take(k as int) =~= edges@);
    }
    splits
}

} // verus!

verus! {

/// An instruction of a straight-line block, as spilling sees it: an ordinary operation with
/// its operands, a spill of a value into that value's slot (with the operand that it stores,
/// the value itself or a reload of it), a reload of a spilled value giving a new value, and
/// the store and load that spills and reloads become.
#[derive(Debug)]
pub enum Inst {
    Op { operands: Vec<ValueRef> },
    Spill { value: ValueRef, operand: ValueRef },
    Reload { value: ValueRef, result: ValueRef },
    Store { value: ValueRef, operand: ValueRef },
    Load { value: ValueRef, result: ValueRef },
}

/// What an instruction is, with its operands as a sequence.
pub enum InstView {
    Op(Seq<ValueRef>),
    Spill(ValueRef, ValueRef),
    Reload(ValueRef, ValueRef),
    Store(ValueRef, ValueRef),
    Load(ValueRef, ValueRef),
}

impl View for Inst {
    type V = InstView;

    open spec fn view(&self) -> InstView {
        match self {
            Inst::Op { operands } => InstView::Op(operands@),
            Inst::Spill { value, operand } => InstView::Spill(*value, *operand),
            Inst::Reload { value, result } => InstView::Reload(*value, *result),
            Inst::Store { value, operand } => InstView::Store(*value, *operand),
            Inst::Load { value, result } => InstView::Load(*value, *result),
        }
    }
}

/// The instructions of a block, as what they are.
pub open spec fn insts_view(b: Seq<Inst>) -> Seq<InstView> {
    Seq::new(b.len(), |i: int| b[i]@)
}

/// The value that stands for `v` just before instruction `i`: the result of the last reload
/// of `v` before `i`; `None` where no reload does.
pub open spec fn replacement(s: Seq<InstView>, i: int, v: ValueRef) -> Option<ValueRef>
    decreases i,
{
    if i <= 0 {
        None
    } else {
        match s[i - 1] {
            InstView::Reload(x, r) => if x == v {
                Some(r)
            } else {
                replacement(s, i - 1, v)
            },
            _ => replacement(s, i - 1, v),
        }
    }
}

/// The operand `u` of instruction `i`, rewritten to the reload that stands for it there.
pub open spec fn rewritten_operand(s: Seq<InstView>, i: int, u: ValueRef) -> ValueRef {
    match replacement(s, i, u) {
        Some(r) => r,
        None => u,
    }
}

/// The block `s` with every use of a spilled value after its reload, by an operation or by
/// a spill, rewritten to use the reload's result; the reloads themselves stay.
pub open spec fn reloads_used(s: Seq<InstView>) -> Seq<InstView> {
    Seq::new(s.len(), |i: int| match s[i] {
        InstView::Op(o) => InstView::Op(o.map_values(|u: ValueRef| rewritten_operand(s, i, u))),
        InstView::Spill(v, o) => InstView::Spill(v, rewritten_operand(s, i, o)),
        x => x,
    })
}

/// Find the value that stands for `v` before instruction `i` (see `replacement`).
fn find_replacement(block: &Vec<Inst>, i: usize, v: ValueRef) -> (r: Option<ValueRef>)
    requires
        i <= block@.len(),
    ensures
        r == replacement(insts_view(block@), i as int, v),
{
    let ghost s = insts_view(block@);
    let mut j = i;
    while j > 0
        invariant
            j <= i <= block@.len(),
            s == insts_view(block@),
            replacement(s, i as int, v) == replacement(s, j as int, v),
        decreases j,
    {
        match &block[j - 1] {
            Inst::Reload { value, result } => {
                if *value == v {
                    return Some(*result);
                }
            },
            _ => {},
        }
        j = j - 1;
    }
    None
}

/// Rewrite every use of a spilled value that follows a reload of it, by an operation or by a
/// spill, to use the result of the last such reload (see `reloads_used`).
pub fn rewrite_single_block_spills(block: &mut Vec<Inst>)
    ensures
        insts_view(final(block)@) == reloads_used(insts_view(old(block)@)),
{
    let ghost s = insts_view(block@);
    let mut out: Vec<Inst> = Vec::new();
    let mut i: usize = 0;
    while i < block.len()
        invariant
            i <= block@.len(),
            s == insts_view(block@),
            block@ == old(block)@,
            out@.len() == i,
            forall|k: int| 0 <= k < i ==> #[trigger] out@[k]@ == reloads_used(s)[k],
        decreases block@.len() - i,
    {
        let inst = match &block[i] {
            Inst::Op { operands } => {
                let mut ops: Vec<ValueRef> = Vec::new();
                let mut k: usize = 0;
                while k < operands.len()
                    invariant
                        k <= operands@.len(),
                        i < block@.len(),
                        s == insts_view(block@),
                        block@[i as int]@ == InstView::Op(operands@),
                        ops@.len() == k,
                        forall|q: int| 0 <= q < k ==> #[trigger] ops@[q] == rewritten_operand(s, i as int, operands@[q]),
                    decreases operands@.len() - k,
                {
                    let u = operands[k];
                    let r = find_replacement(block, i, u);
                    let w = match r {
                        Some(x) => x,
                        None => u,
                    };
                    ops.push(w);
                    k = k + 1;
                }
                proof {
                    assert(ops@ =~= operands@.map_values(|u: ValueRef| rewritten_operand(s, i as int, u)));
                }
                Inst::Op { operands: ops }
            },
            Inst::Spill { value, operand } => {
                let w = match find_replacement(block, i, *operand) {
                    Some(x) => x,
                    None => *operand,
                };
                Inst::Spill { value: *value, operand: w }
            },
            Inst::Reload { value, result } => Inst::Reload { value: *value, result: *result },
            Inst::Store { value, operand } => Inst::Store { value: *value, operand: *operand },
            Inst::Load { value, result } => Inst::Load { value: *value, result: *result },
        };
        proof {
            assert(s[i as int] == block@[i as int]@);
        }
        out.push(inst);
        i = i + 1;
    }
    proof {
        assert(insts_view(out@) =~= reloads_used(s));
    }
    *block = out;
}

/// `x` reloads `v`.
pub open spec fn reloads(x: InstView, v: ValueRef) -> bool {
    match x {
        InstView::Reload(y, _) => y == v,
        _ => false,
    }
}

/// `x` uses `r`: an operation with `r` among its operands, or a spill or store of `r`.
pub open spec fn inst_uses(x: InstView, r: ValueRef) -> bool {
    match x {
        InstView::Op(o) => o.contains(r),
        InstView::Spill(_, o) => o == r,
        InstView::Store(_, o) => o == r,
        _ => false,
    }
}

/// The spill at `i` of `v` is used: a reload of `v` comes after it.
pub open spec fn spill_used(s: Seq<InstView>, i: int, v: ValueRef) -> bool {
    exists|j: int| i < j < s.len() && reloads(#[trigger] s[j], v)
}

/// The result `r` of a reload is used by some instruction of the block.
pub open spec fn reload_used(s: Seq<InstView>, r: ValueRef) -> bool {
    exists|j: int| 0 <= j < s.len() && inst_uses(#[trigger] s[j], r)
}

/// What instruction `i` of `s` becomes: a used spill becomes a store and an unused one goes;
/// a used reload becomes a load and an unused one goes; any other instruction stays.
pub open spec fn lowered_inst(s: Seq<InstView>, i: int) -> Seq<InstView> {
    match s[i] {
        InstView::Spill(v, o) => if spill_used(s, i, v) {
            seq![InstView::Store(v, o)]
        } else {
            Seq::empty()
        },
        InstView::Reload(v, r) => if reload_used(s, r) {
            seq![InstView::Load(v, r)]
        } else {
            Seq::empty()
        },
        x => seq![x],
    }
}

/// The first `n` instructions of `s`, each lowered (see `lowered_inst`).
pub open spec fn lowered(s: Seq<InstView>, n: int) -> Seq<InstView>
    decreases n,
{
    if n <= 0 {
        Seq::empty()
    } else {
        lowered(s, n - 1) + lowered_inst(s, n - 1)
    }
}

/// Whether a reload of `v` comes after instruction `i`.
fn spill_is_used(block: &Vec<Inst>, i: usize, v: ValueRef) -> (r: bool)
    requires
        i < block@.len(),
    ensures
        r == spill_used(insts_view(block@), i as int, v),
{
    let ghost s = insts_view(block@);
    let n = block.len();
    let mut j = i + 1;
    while j < block.len()
        invariant
            i < j <= block@.len(),
            s == insts_view(block@),
            forall|q: int| i < q < j ==> !reloads(#[trigger] s[q], v),
        decreases block@.len() - j,
    {
        match &block[j] {
            Inst::Reload { value, .. } => {
                if *value == v {
                    assert(reloads(s[j as int], v));
                    return true;
                }
            },
            _ => {},
        }
        assert(s[j as int] == block@[j as int]@);
        j = j + 1;
    }
    false
}

/// Whether some instruction of the block uses `r`.
fn reload_is_used(block: &Vec<Inst>, r: ValueRef) -> (b: bool)
    ensures
        b == reload_used(insts_view(block@), r),
{
    let ghost s = insts_view(block@);
    let mut j: usize = 0;
    while j < block.len()
        invariant
            j <= block@.len(),
            s == insts_view(block@),
            forall|q: int| 0 <= q < j ==> !inst_uses(#[trigger] s[q], r),
        decreases block@.len() - j,
    {
        assert(s[j as int] == block@[j as int]@);
        match &block[j] {
            Inst::Op { operands } => {
                let mut k: usize = 0;
                while k < operands.len()
                    invariant
                        k <= operands@.len(),
                        j < block@.len(),
                        s == insts_view(block@),
                        block@[j as int]@ == InstView::Op(operands@),
                        forall|q: int| 0 <= q < k ==> operands@[q] != r,
                    decreases operands@.len() - k,
                {
                    if operands[k] == r {
                        assert(operands@[k as int] == r);
                        assert(inst_uses(s[j as int], r));
                        return true;
                    }
                    k = k + 1;
                }
                assert(!operands@.contains(r));
            },
            Inst::Spill { operand, .. } => {
                if *operand == r {
                    return true;
                }
            },
            Inst::Store { operand, .. } => {
                if *operand == r {
                    return true;
                }
            },
            _ => {},
        }
        j = j + 1;
    }
    false
}

/// Turn each spill whose value is reloaded later into a store, and each reload whose result
/// is used into a load; erase the other spills and reloads (see `lowered`).
pub fn rewrite_spill_pseudo_instructions(block: &mut Vec<Inst>)
    ensures
        insts_view(final(block)@) == lowered(insts_view(old(block)@), old(block)@.len() as int),
{
    let ghost s = insts_view(block@);
    let mut out: Vec<Inst> = Vec::new();
    let mut i: usize = 0;
    while i < block.len()
        invariant
            i <= block@.len(),
            s == insts_view(block@),
            block@ == old(block)@,
            insts_view(out@) == lowered(s, i as int),
        decreases block@.len() - i,
    {
        let ghost before = out@;
        assert(s[i as int] == block@[i as int]@);
        match &block[i] {
            Inst::Spill { value, operand } => {
                if spill_is_used(block, i, *value) {
                    out.push(Inst::Store { value: *value, operand: *operand });
                }
            },
            Inst::Reload { value, result } => {
                if reload_is_used(block, *result) {
                    out.push(Inst::Load { value: *value, result: *result });
                }
            },
            Inst::Op { operands } => {
                let ops = crate::cfg_to_scf::copy_range(operands, 0, operands.len());
                proof {
                    assert(ops@ =~= operands@);
                }
                out.push(Inst::Op { operands: ops });
            },
            Inst::Store { value, operand } => {
                out.push(Inst::Store { value: *value, operand: *operand });
            },
            Inst::Load { value, result } => {
                out.push(Inst::Load { value: *value, result: *result });
            },
        }
        proof {
            assert(insts_view(out@) =~= insts_view(before) + lowered_inst(s, i as int));
        }
        i = i + 1;
    }
    *block = out;
}

/// Where spill analysis placed spills and reloads in a straight-line block: `placed[i]` holds
/// the pseudo-instructions that go right before instruction `i`, and the last entry those
/// that go at the end.
pub struct SpillAnalysis {
    pub placed: Vec<Vec<Inst>>,
}

/// The placements of `a`, as what they are.
pub open spec fn placed_view(a: &SpillAnalysis) -> Seq<Seq<InstView>> {
    Seq::new(a.placed@.len(), |i: int| insts_view(a.placed@[i]@))
}

/// The first `n` instructions of `s`, each preceded by what `p` places before it, and then
/// what `p` places before instruction `n`.
pub open spec fn with_placed(s: Seq<InstView>, p: Seq<Seq<InstView>>, n: int) -> Seq<InstView>
    decreases n,
{
    if n <= 0 {
        p[0]
    } else {
        with_placed(s, p, n - 1) + seq![s[n - 1]] + p[n]
    }
}

/// A copy of an instruction.
fn copy_inst(x: &Inst) -> (r: Inst)
    ensures
        r@ == x@,
{
    match x {
        Inst::Op { operands } => {
            let ops = crate::cfg_to_scf::copy_range(operands, 0, operands.len());
            assert(ops@ =~= operands@);
            Inst::Op { operands: ops }
        },
        Inst::Spill { value, operand } => Inst::Spill { value: *value, operand: *operand },
        Inst::Reload { value, result } => Inst::Reload { value: *value, result: *result },
        Inst::Store { value, operand } => Inst::Store { value: *value, operand: *operand },
        Inst::Load { value, result } => Inst::Load { value: *value, result: *result },
    }
}

/// Append copies of `xs` to `out`.
fn append_copies(out: &mut Vec<Inst>, xs: &Vec<Inst>)
    ensures
        insts_view(final(out)@) == insts_view(old(out)@) + insts_view(xs@),
{
    let mut k: usize = 0;
    while k < xs.len()
        invariant
            k <= xs@.len(),
            insts_view(out@) == insts_view(old(out)@) + insts_view(xs@).take(k as int),
        decreases xs@.len() - k,
    {
        let ghost before = out@;
        let c = copy_inst(&xs[k]);
        out.push(c);
        proof {
            assert(insts_view(out@) =~= insts_view(before) + seq![xs@[k as int]@]);
            assert(insts_view(xs@).take(k + 1) =~= insts_view(xs@).take(k as int) + seq![xs@[k as int]@]);
        }
        k = k + 1;
    }
    assert(insts_view(xs@).take(xs@.len() as int) =~= insts_view(xs@));
}

/// Spill values in a straight-line block as `analysis` placed them: insert the spills and
/// reloads before the instructions they were placed before, make every use after a reload use
/// its result (see `reloads_used`), and turn the spills and reloads into stores and loads, or
/// erase those no one needs (see `lowered`). The block has changed.
pub fn transform_spills(block: &mut Vec<Inst>, analysis: &SpillAnalysis) -> (status: crate::pass::PostPassStatus)
    requires
        analysis.placed@.len() == old(block)@.len() + 1,
    ensures
        status == crate::pass::PostPassStatus::IRChanged,
        ({
            let placed = with_placed(insts_view(old(block)@), placed_view(analysis), old(block)@.len() as int);
            let used = reloads_used(placed);
            insts_view(final(block)@) == lowered(used, used.len() as int)
        }),
{
    let ghost s = insts_view(block@);
    let ghost p = placed_view(analysis);
    let mut out: Vec<Inst> = Vec::new();
    append_copies(&mut out, &analysis.placed[0]);
    proof {
        assert(insts_view(out@) =~= with_placed(s, p, 0));
    }
    let mut i: usize = 0;
    while i < block.len()
        invariant
            i <= block@.len(),
            s == insts_view(block@),
            p == placed_view(analysis),
            analysis.placed@.len() == block@.len() + 1,
            insts_view(out@) == with_placed(s, p, i as int),
        decreases block@.len() - i,
    {
        let ghost before = out@;
        let c = copy_inst(&block[i]);
        out.push(c);
        append_copies(&mut out, &analysis.placed[i + 1]);
        proof {
            assert(insts_view(before.push(c)) =~= insts_view(before) + seq![s[i as int]]);
        }
        i = i + 1;
    }
    let ghost placed = insts_view(out@);
    rewrite_single_block_spills(&mut out);
    let ghost used = insts_view(out@);
    rewrite_spill_pseudo_instructions(&mut out);
    proof {
        assert(reloads_used(placed).len() == placed.len());
    }
    *block = out;
    crate::pass::PostPassStatus::IRChanged
}

} // verus!
