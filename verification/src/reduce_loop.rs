//! Bringing a structured loop into reduce form: no value defined in the loop body is used
//! outside it, and the exit block takes as arguments exactly what the back edge passes to the
//! loop header, so that the values of the last iteration are the results of the loop.
use vstd::prelude::*;
use crate::cfg::{Edge, is_edge, target};
use crate::cfg_to_scf::{
    ConstantDef, Region, Terminator, TransformationContext, ValueDef, block_args, contains_block, copy_values,
    edge_ops, num_blocks, succs, terminator_uses, valid_value, value_def, value_type, wf,
};
use crate::ir::{Type, ValueRef};

verus! {

/// The block in which `v` is defined: the block it is an argument of, or the block of the
/// operation it is a result of.
pub open spec fn defining_block(r: &Region, v: ValueRef) -> Option<usize> {
    match value_def(r, v) {
        ValueDef::Arg { block, .. } => Some(block),
        ValueDef::BlockResult(block) => Some(block),
        _ => None,
    }
}

/// `v` is defined in one of `blocks`.
pub open spec fn defined_in(r: &Region, v: ValueRef, blocks: Seq<usize>) -> bool {
    match defining_block(r, v) {
        Some(b) => blocks.contains(b),
        None => false,
    }
}

/// Block `b` of `r` uses `v`, along one of its edges or in its terminator.
pub open spec fn used_in_block(r: &Region, b: int, v: ValueRef) -> bool {
    ||| exists|s: int| 0 <= s < succs(r, b).len() && #[trigger] edge_ops(r, b, s).contains(v)
    ||| terminator_uses(r.terminators@[b], v)
}

/// Some block of `r` other than `blocks` uses `v`.
pub open spec fn used_outside(r: &Region, blocks: Seq<usize>, v: ValueRef) -> bool {
    exists|b: int| 0 <= b < num_blocks(r) && !blocks.contains(b as usize) && #[trigger] used_in_block(r, b, v)
}

/// No value defined in one of `blocks` is used outside them.
pub open spec fn values_stay_inside(r: &Region, blocks: Seq<usize>) -> bool {
    forall|v: ValueRef| valid_value(r, v) && #[trigger] defined_in(r, v, blocks) ==> !used_outside(r, blocks, v)
}

/// `s` with each occurrence of `v` replaced by `new`.
pub open spec fn replaced(s: Seq<ValueRef>, v: ValueRef, new: ValueRef) -> Seq<ValueRef> {
    s.map_values(|x: ValueRef| if x == v { new } else { x })
}

/// `t1` is the terminator `t0` with each use of `v` replaced by `new`.
pub open spec fn terminator_replaced(t0: Terminator, t1: Terminator, v: ValueRef, new: ValueRef) -> bool {
    match t0 {
        Terminator::CondBr { condition } => t1 == Terminator::CondBr { condition: if condition == v { new } else { condition } },
        Terminator::Switch { selector, case_values } => t1 == Terminator::Switch {
            selector: if selector == v { new } else { selector },
            case_values,
        },
        Terminator::ReturnLike { kind, operands } => match t1 {
            Terminator::ReturnLike { kind: k1, operands: o1 } => k1 == kind && o1@ == replaced(operands@, v, new),
            _ => false,
        },
        _ => t1 == t0,
    }
}

/// The context `c1` is `c0` with only the region's edges and terminators changed, into a
/// well-formed region.
proof fn lemma_context_wf(c0: &TransformationContext, c1: &TransformationContext)
    requires
        c0.wf(),
        wf(&c1.region),
        c1.region.values == c0.region.values,
        num_blocks(&c1.region) == num_blocks(&c0.region),
        c1.entry == c0.entry,
        c1.switch_value_cache == c0.switch_value_cache,
        c1.typed_undef_cache == c0.typed_undef_cache,
        c1.return_like_to_combined_exit == c0.return_like_to_combined_exit,
    ensures
        c1.wf(),
        c1.caches_extend(c0),
{
    assert forall|i: int| 0 <= i < c1.switch_value_cache@.len() implies match #[trigger] c1.switch_value_cache@[i] {
        Some(v) => valid_value(&c1.region, v) && value_def(&c1.region, v) == ValueDef::Constant(ConstantDef::Switch(i as u32)) && value_type(&c1.region, v) == Type::U32,
        None => true,
    } by {
        assert(c0.switch_value_cache@[i] == c1.switch_value_cache@[i]);
    }
    assert forall|j: int| 0 <= j < c1.typed_undef_cache@.len() implies {
        let (t, v) = #[trigger] c1.typed_undef_cache@[j];
        &&& valid_value(&c1.region, v)
        &&& value_def(&c1.region, v) == ValueDef::Constant(ConstantDef::Poison(t))
        &&& value_type(&c1.region, v) == t
    } by {
        assert(c0.typed_undef_cache@[j] == c1.typed_undef_cache@[j]);
    }
    assert forall|i: int| 0 <= i < c1.return_like_to_combined_exit@.len() implies (#[trigger] c1.return_like_to_combined_exit@[i]).2 < num_blocks(&c1.region) by {
        assert(c0.return_like_to_combined_exit@[i] == c1.return_like_to_combined_exit@[i]);
    }
    assert forall|d: u32| #[trigger] c0.switch_cached(d) is Some implies c1.switch_cached(d) == c0.switch_cached(d) by {}
    assert forall|t: Type| #[trigger] c0.undef_cached(t) is Some implies c1.undef_cached(t) == c0.undef_cached(t) by {}
}

/// Caches that extend caches that extend `c0` extend `c0`.
proof fn lemma_caches_extend_trans(c0: &TransformationContext, c1: &TransformationContext, c2: &TransformationContext)
    requires
        c1.caches_extend(c0),
        c2.caches_extend(c1),
    ensures
        c2.caches_extend(c0),
{
    assert forall|d: u32| #[trigger] c0.switch_cached(d) is Some implies c2.switch_cached(d) == c0.switch_cached(d) by {
        assert(c1.switch_cached(d) == c0.switch_cached(d));
    }
    assert forall|t: Type| #[trigger] c0.undef_cached(t) is Some implies c2.undef_cached(t) == c0.undef_cached(t) by {
        assert(c1.undef_cached(t) == c0.undef_cached(t));
    }
}

/// Pass `v` as one more operand along the `s`-th successor edge of block `b`.
fn push_edge_operand(r: &mut Region, b: usize, s: usize, v: ValueRef)
    requires
        wf(old(r)),
        b < num_blocks(old(r)),
        s < succs(old(r), b as int).len(),
        valid_value(old(r), v),
    ensures
        wf(final(r)),
        final(r).cfg == old(r).cfg,
        final(r).args == old(r).args,
        final(r).terminators == old(r).terminators,
        final(r).values == old(r).values,
        edge_ops(final(r), b as int, s as int) == edge_ops(old(r), b as int, s as int).push(v),
        forall|b2: int, s2: int| 0 <= b2 < num_blocks(old(r)) && 0 <= s2 < succs(old(r), b2).len() && (b2 != b || s2 != s)
            ==> #[trigger] edge_ops(final(r), b2, s2) == edge_ops(old(r), b2, s2),
{
    let ghost r0 = *r;
    r.operands[b][s].push(v);
    proof {
        let n = num_blocks(r);
        assert(r.operands@ == r0.operands@.update(b as int, r.operands@[b as int]));
        assert(r.operands@[b as int]@ == r0.operands@[b as int]@.update(s as int, r.operands@[b as int]@[s as int]));
        assert(edge_ops(r, b as int, s as int) == edge_ops(&r0, b as int, s as int).push(v));
        assert(r.operands@.len() == n);
        assert forall|b2: int, s2: int| 0 <= b2 < n && 0 <= s2 < succs(r, b2).len() implies #[trigger] succs(r, b2)[s2] < n by {
            assert(succs(&r0, b2)[s2] < n);
        }
        assert forall|b2: int| 0 <= b2 < n implies (#[trigger] r.operands@[b2])@.len() == succs(r, b2).len() by {
            assert(r0.operands@[b2]@.len() == succs(&r0, b2).len());
        }
        assert forall|b2: int, s2: int, k: int|
            0 <= b2 < n && 0 <= s2 < succs(r, b2).len() && 0 <= k < edge_ops(r, b2, s2).len()
                implies valid_value(r, #[trigger] edge_ops(r, b2, s2)[k]) by {
            if b2 == b && s2 == s {
                if k < edge_ops(&r0, b2, s2).len() {
                    assert(edge_ops(r, b2, s2)[k] == edge_ops(&r0, b2, s2)[k]);
                }
            } else {
                assert(edge_ops(r, b2, s2) == edge_ops(&r0, b2, s2));
            }
        }
        assert forall|b2: int| 0 <= b2 < n implies crate::cfg_to_scf::arity_ok(#[trigger] r.terminators@[b2], succs(r, b2).len())
            && crate::cfg_to_scf::terminator_values_ok(r, r.terminators@[b2]) by {
            assert(crate::cfg_to_scf::terminator_values_ok(&r0, r0.terminators@[b2]));
        }
        assert forall|b2: int, k: int| 0 <= b2 < n && 0 <= k < block_args(r, b2).len() implies {
            &&& valid_value(r, #[trigger] block_args(r, b2)[k])
            &&& value_def(r, block_args(r, b2)[k]) == (ValueDef::Arg { block: b2 as usize, index: k as usize })
        } by {
            assert(block_args(r, b2) == block_args(&r0, b2));
        }
        assert forall|b2: int, s2: int| 0 <= b2 < num_blocks(&r0) && 0 <= s2 < succs(&r0, b2).len() && (b2 != b || s2 != s)
            implies #[trigger] edge_ops(r, b2, s2) == edge_ops(&r0, b2, s2) by {}
    }
}

/// A copy of `ops` with each occurrence of `v` replaced by `new`.
fn replaced_vec(ops: &Vec<ValueRef>, v: ValueRef, new: ValueRef) -> (res: Vec<ValueRef>)
    ensures
        res@ == replaced(ops@, v, new),
{
    let mut res: Vec<ValueRef> = Vec::new();
    let mut k: usize = 0;
    while k < ops.len()
        invariant
            k <= ops@.len(),
            res@ == replaced(ops@.take(k as int), v, new),
        decreases ops@.len() - k,
    {
        let x = ops[k];
        res.push(if x == v { new } else { x });
        proof {
            assert(ops@.take(k + 1) =~= ops@.take(k as int).push(x));
            assert(res@ =~= replaced(ops@.take(k + 1), v, new));
        }
        k = k + 1;
    }
    proof {
        assert(ops@.take(k as int) =~= ops@);
    }
    res
}

/// Replace each use of `v` by block `b`, along its edges and in its terminator, by `new`.
fn replace_in_block(r: &mut Region, b: usize, v: ValueRef, new: ValueRef)
    requires
        wf(old(r)),
        b < num_blocks(old(r)),
        valid_value(old(r), new),
    ensures
        wf(final(r)),
        final(r).cfg == old(r).cfg,
        final(r).args == old(r).args,
        final(r).values == old(r).values,
        final(r).terminators@.len() == old(r).terminators@.len(),
        terminator_replaced(old(r).terminators@[b as int], final(r).terminators@[b as int], v, new),
        forall|b2: int| 0 <= b2 < num_blocks(old(r)) && b2 != b ==> #[trigger] final(r).terminators@[b2] == old(r).terminators@[b2],
        forall|s: int| 0 <= s < succs(old(r), b as int).len() ==> #[trigger] edge_ops(final(r), b as int, s) == replaced(edge_ops(old(r), b as int, s), v, new),
        forall|b2: int, s: int| 0 <= b2 < num_blocks(old(r)) && b2 != b && 0 <= s < succs(old(r), b2).len()
            ==> #[trigger] edge_ops(final(r), b2, s) == edge_ops(old(r), b2, s),
{
    let ghost r0 = *r;
    let m = r.operands[b].len();
    let mut row: Vec<Vec<ValueRef>> = Vec::new();
    let mut s: usize = 0;
    while s < m
        invariant
            *r == r0,
            wf(&r0),
            b < num_blocks(&r0),
            m == succs(&r0, b as int).len(),
            m == r0.operands@[b as int]@.len(),
            s <= m,
            row@.len() == s,
            forall|s2: int| 0 <= s2 < s ==> #[trigger] row@[s2]@ == replaced(edge_ops(&r0, b as int, s2), v, new),
        decreases m - s,
    {
        let ops = replaced_vec(&r.operands[b][s], v, new);
        row.push(ops);
        s = s + 1;
    }
    r.operands.set(b, row);
    let mut t = Terminator::Unterminated;
    std::mem::swap(&mut t, &mut r.terminators[b]);
    let t1 = match t {
        Terminator::CondBr { condition } => Terminator::CondBr { condition: if condition == v { new } else { condition } },
        Terminator::Switch { selector, case_values } => Terminator::Switch {
            selector: if selector == v { new } else { selector },
            case_values,
        },
        Terminator::ReturnLike { kind, operands } => Terminator::ReturnLike { kind, operands: replaced_vec(&operands, v, new) },
        other => other,
    };
    r.terminators.set(b, t1);
    proof {
        let n = num_blocks(r);
        assert(r.terminators@[b as int] == t1);
        assert forall|b2: int| 0 <= b2 < num_blocks(&r0) && b2 != b implies #[trigger] r.terminators@[b2] == r0.terminators@[b2] by {}
        assert forall|s2: int| 0 <= s2 < succs(&r0, b as int).len() implies #[trigger] edge_ops(r, b as int, s2) == replaced(edge_ops(&r0, b as int, s2), v, new) by {
            assert(row@[s2]@ == replaced(edge_ops(&r0, b as int, s2), v, new));
        }
        assert forall|b2: int, s2: int| 0 <= b2 < n && 0 <= s2 < succs(r, b2).len() implies #[trigger] succs(r, b2)[s2] < n by {
            assert(succs(&r0, b2)[s2] < n);
        }
        assert forall|b2: int| 0 <= b2 < n implies (#[trigger] r.operands@[b2])@.len() == succs(r, b2).len() by {
            assert(r0.operands@[b2]@.len() == succs(&r0, b2).len());
        }
        assert forall|b2: int, s2: int, k: int|
            0 <= b2 < n && 0 <= s2 < succs(r, b2).len() && 0 <= k < edge_ops(r, b2, s2).len()
                implies valid_value(r, #[trigger] edge_ops(r, b2, s2)[k]) by {
            if b2 == b {
                let o = edge_ops(&r0, b2, s2);
                assert(edge_ops(r, b2, s2) == replaced(o, v, new));
                assert(valid_value(&r0, o[k]));
            } else {
                assert(edge_ops(r, b2, s2) == edge_ops(&r0, b2, s2));
            }
        }
        assert forall|b2: int| 0 <= b2 < n implies crate::cfg_to_scf::arity_ok(#[trigger] r.terminators@[b2], succs(r, b2).len())
            && crate::cfg_to_scf::terminator_values_ok(r, r.terminators@[b2]) by {
            assert(crate::cfg_to_scf::terminator_values_ok(&r0, r0.terminators@[b2]));
            assert(crate::cfg_to_scf::arity_ok(r0.terminators@[b2], succs(&r0, b2).len()));
            if b2 == b {
                match r0.terminators@[b2] {
                    Terminator::ReturnLike { kind, operands } => {
                        match r.terminators@[b2] {
                            Terminator::ReturnLike { kind: k1, operands: o1 } => {
                                assert forall|k: int| 0 <= k < o1@.len() implies valid_value(r, #[trigger] o1@[k]) by {
                                    assert(valid_value(&r0, operands@[k]));
                                }
                            },
                            _ => {},
                        }
                    },
                    _ => {},
                }
            }
        }
        assert forall|b2: int, k: int| 0 <= b2 < n && 0 <= k < block_args(r, b2).len() implies {
            &&& valid_value(r, #[trigger] block_args(r, b2)[k])
            &&& value_def(r, block_args(r, b2)[k]) == (ValueDef::Arg { block: b2 as usize, index: k as usize })
        } by {
            assert(block_args(r, b2) == block_args(&r0, b2));
        }
    }
}

/// Whether block `b` of `r` uses `v`.
fn block_uses(r: &Region, b: usize, v: ValueRef) -> (used: bool)
    requires
        wf(r),
        b < num_blocks(r),
    ensures
        used == used_in_block(r, b as int, v),
{
    let in_terminator = match &r.terminators[b] {
        Terminator::CondBr { condition } => *condition == v,
        Terminator::Switch { selector, .. } => *selector == v,
        Terminator::ReturnLike { operands, .. } => contains_value(operands, v),
        _ => false,
    };
    if in_terminator {
        return true;
    }
    let m = r.operands[b].len();
    let mut s: usize = 0;
    while s < m
        invariant
            wf(r),
            b < num_blocks(r),
            m == succs(r, b as int).len(),
            s <= m,
            !terminator_uses(r.terminators@[b as int], v),
            forall|s2: int| 0 <= s2 < s ==> !(#[trigger] edge_ops(r, b as int, s2).contains(v)),
        decreases m - s,
    {
        if contains_value(&r.operands[b][s], v) {
            proof {
                assert(edge_ops(r, b as int, s as int).contains(v));
            }
            return true;
        }
        s = s + 1;
    }
    false
}

/// Whether `v` is one of `ops`.
fn contains_value(ops: &Vec<ValueRef>, v: ValueRef) -> (r: bool)
    ensures
        r == ops@.contains(v),
{
    let mut k: usize = 0;
    while k < ops.len()
        invariant
            k <= ops@.len(),
            forall|j: int| 0 <= j < k ==> ops@[j] != v,
        decreases ops@.len() - k,
    {
        if ops[k] == v {
            proof {
                assert(ops@[k as int] == v);
            }
            return true;
        }
        k = k + 1;
    }
    false
}

/// Whether some block of `r` other than `blocks` uses `v`.
fn is_used_outside(r: &Region, blocks: &[usize], v: ValueRef) -> (used: bool)
    requires
        wf(r),
    ensures
        used == used_outside(r, blocks@, v),
{
    let n = r.terminators.len();
    let mut b: usize = 0;
    while b < n
        invariant
            wf(r),
            n == num_blocks(r),
            b <= n,
            forall|c: int| 0 <= c < b && !blocks@.contains(c as usize) ==> !(#[trigger] used_in_block(r, c, v)),
        decreases n - b,
    {
        if !contains_block(blocks, b) && block_uses(r, b, v) {
            return true;
        }
        b = b + 1;
    }
    false
}

/// The edges of `r` into block `t`.
fn edges_into(r: &Region, t: usize) -> (es: Vec<Edge>)
    requires
        wf(r),
    ensures
        forall|e: Edge| #[trigger] es@.contains(e) <==> is_edge(&r.cfg, e) && target(&r.cfg, e) == t,
        es@.no_duplicates(),
{
    let n = r.cfg.successors.len();
    let mut es: Vec<Edge> = Vec::new();
    let mut b: usize = 0;
    while b < n
        invariant
            n == num_blocks(r),
            b <= n,
            forall|e: Edge| #[trigger] es@.contains(e) <==> is_edge(&r.cfg, e) && target(&r.cfg, e) == t && e.from_block < b,
            es@.no_duplicates(),
        decreases n - b,
    {
        let m = r.cfg.successors[b].len();
        let mut s: usize = 0;
        while s < m
            invariant
                n == num_blocks(r),
                b < n,
                m == succs(r, b as int).len(),
                s <= m,
                forall|e: Edge| #[trigger] es@.contains(e) <==> is_edge(&r.cfg, e) && target(&r.cfg, e) == t
                    && (e.from_block < b || (e.from_block == b && e.successor_index < s)),
                es@.no_duplicates(),
            decreases m - s,
        {
            if r.cfg.successors[b][s] == t {
                let ghost before = es@;
                let e = Edge { from_block: b, successor_index: s };
                proof {
                    assert(!before.contains(e));
                }
                es.push(e);
                proof {
                    assert forall|x: int, y: int| 0 <= x < es@.len() && 0 <= y < es@.len() && x != y implies es@[x] != es@[y] by {
                        if x < before.len() && y < before.len() {
                            assert(es@[x] == before[x] && es@[y] == before[y]);
                        } else if x < before.len() {
                            assert(before.contains(es@[x]));
                        } else if y < before.len() {
                            assert(before.contains(es@[y]));
                        }
                    }
                    assert forall|f: Edge| #[trigger] es@.contains(f) <==> is_edge(&r.cfg, f) && target(&r.cfg, f) == t
                        && (f.from_block < b || (f.from_block == b && f.successor_index < s + 1)) by {
                        if f == e {
                            assert(es@[before.len() as int] == e);
                        } else {
                            if before.contains(f) {
                                let j = choose|j: int| 0 <= j < before.len() && before[j] == f;
                                assert(es@[j] == f);
                            }
                            if es@.contains(f) {
                                let j = choose|j: int| 0 <= j < es@.len() && es@[j] == f;
                                if j < before.len() {
                                    assert(before[j] == f);
                                }
                            }
                        }
                    }
                }
            }
            s = s + 1;
        }
        b = b + 1;
    }
    es
}

/// A value that a well-formed region uses is one of its values.
proof fn lemma_used_valid(r: &Region, b: int, x: ValueRef)
    requires
        wf(r),
        0 <= b < num_blocks(r),
        used_in_block(r, b, x),
    ensures
        valid_value(r, x),
{
    if exists|s: int| 0 <= s < succs(r, b).len() && #[trigger] edge_ops(r, b, s).contains(x) {
        let s = choose|s: int| 0 <= s < succs(r, b).len() && #[trigger] edge_ops(r, b, s).contains(x);
        let k = choose|k: int| 0 <= k < edge_ops(r, b, s).len() && edge_ops(r, b, s)[k] == x;
        assert(valid_value(r, edge_ops(r, b, s)[k]));
    } else {
        assert(crate::cfg_to_scf::terminator_values_ok(r, r.terminators@[b]));
        match r.terminators@[b] {
            Terminator::ReturnLike { operands, .. } => {
                let k = choose|k: int| 0 <= k < operands@.len() && operands@[k] == x;
                assert(valid_value(r, operands@[k]));
            },
            _ => {},
        }
    }
}

/// After replacing `v` by `new` in block `b`, the block uses `new` or what it used before, but
/// for `v`.
proof fn lemma_replaced_uses(r0: &Region, r1: &Region, b: int, v: ValueRef, new: ValueRef, x: ValueRef)
    requires
        0 <= b < num_blocks(r0),
        succs(r1, b) == succs(r0, b),
        terminator_replaced(r0.terminators@[b], r1.terminators@[b], v, new),
        forall|s: int| 0 <= s < succs(r0, b).len() ==> #[trigger] edge_ops(r1, b, s) == replaced(edge_ops(r0, b, s), v, new),
        used_in_block(r1, b, x),
    ensures
        x == new || (x != v && used_in_block(r0, b, x)),
{
    if x != new {
        if exists|s: int| 0 <= s < succs(r1, b).len() && #[trigger] edge_ops(r1, b, s).contains(x) {
            let s = choose|s: int| 0 <= s < succs(r1, b).len() && #[trigger] edge_ops(r1, b, s).contains(x);
            let k = choose|k: int| 0 <= k < edge_ops(r1, b, s).len() && edge_ops(r1, b, s)[k] == x;
            assert(edge_ops(r0, b, s)[k] == x);
            assert(edge_ops(r0, b, s).contains(x));
        } else {
            match r0.terminators@[b] {
                Terminator::ReturnLike { kind, operands } => {
                    match r1.terminators@[b] {
                        Terminator::ReturnLike { operands: o1, .. } => {
                            let k = choose|k: int| 0 <= k < o1@.len() && o1@[k] == x;
                            assert(operands@[k] == x);
                            assert(operands@.contains(x));
                        },
                        _ => {},
                    }
                },
                _ => {},
            }
        }
    }
}

impl TransformationContext {
    /// Replace each use of `v` outside the blocks `blocks` by `new`.
    fn replace_uses_outside(&mut self, v: ValueRef, new: ValueRef, blocks: &[usize])
        requires
            old(self).wf(),
            valid_value(&old(self).region, new),
            new != v,
        ensures
            final(self).wf(),
            final(self).caches_extend(old(self)),
            final(self).entry == old(self).entry,
            final(self).switch_value_cache == old(self).switch_value_cache,
            final(self).typed_undef_cache == old(self).typed_undef_cache,
            final(self).return_like_to_combined_exit == old(self).return_like_to_combined_exit,
            final(self).region.cfg == old(self).region.cfg,
            final(self).region.args == old(self).region.args,
            final(self).region.values == old(self).region.values,
            forall|b: int, s: int| 0 <= b < num_blocks(&old(self).region) && 0 <= s < succs(&old(self).region, b).len()
                ==> (#[trigger] edge_ops(&final(self).region, b, s)).len() == edge_ops(&old(self).region, b, s).len(),
            forall|b: int, s: int| 0 <= b < num_blocks(&old(self).region) && 0 <= s < succs(&old(self).region, b).len()
                && blocks@.contains(b as usize) ==> #[trigger] edge_ops(&final(self).region, b, s) == edge_ops(&old(self).region, b, s),
            forall|b: int, x: ValueRef| 0 <= b < num_blocks(&old(self).region) && #[trigger] used_in_block(&final(self).region, b, x)
                ==> if blocks@.contains(b as usize) { used_in_block(&old(self).region, b, x) } else { x == new || (x != v && used_in_block(&old(self).region, b, x)) },
            !used_outside(&final(self).region, blocks@, v),
            forall|b: int, s: int| 0 <= b < num_blocks(&old(self).region) && !blocks@.contains(b as usize) && 0 <= s < succs(&old(self).region, b).len()
                ==> #[trigger] edge_ops(&final(self).region, b, s) == replaced(edge_ops(&old(self).region, b, s), v, new),
            forall|b: int| 0 <= b < num_blocks(&old(self).region) && !blocks@.contains(b as usize)
                ==> terminator_replaced(old(self).region.terminators@[b], #[trigger] final(self).region.terminators@[b], v, new),
    {
        let ghost c0 = *self;
        let ghost r0 = self.region;
        let n = self.region.terminators.len();
        let mut b: usize = 0;
        while b < n
            invariant
                self.wf(),
                c0.wf(),
                r0 == c0.region,
                valid_value(&self.region, new),
                new != v,
                n == num_blocks(&r0),
                b <= n,
                self.entry == c0.entry,
                self.switch_value_cache == c0.switch_value_cache,
                self.typed_undef_cache == c0.typed_undef_cache,
                self.return_like_to_combined_exit == c0.return_like_to_combined_exit,
                self.region.cfg == r0.cfg,
                self.region.args == r0.args,
                self.region.values == r0.values,
                self.region.terminators@.len() == n,
                forall|c: int, s: int| 0 <= c < n && 0 <= s < succs(&r0, c).len()
                    ==> (#[trigger] edge_ops(&self.region, c, s)).len() == edge_ops(&r0, c, s).len(),
                forall|c: int, s: int| 0 <= c < n && 0 <= s < succs(&r0, c).len() && (c >= b || blocks@.contains(c as usize))
                    ==> #[trigger] edge_ops(&self.region, c, s) == edge_ops(&r0, c, s),
                forall|c: int| 0 <= c < n && (c >= b || blocks@.contains(c as usize))
                    ==> #[trigger] self.region.terminators@[c] == r0.terminators@[c],
                forall|c: int| 0 <= c < b && !blocks@.contains(c as usize) ==> {
                    &&& terminator_replaced(r0.terminators@[c], #[trigger] self.region.terminators@[c], v, new)
                    &&& forall|s: int| 0 <= s < succs(&r0, c).len() ==> #[trigger] edge_ops(&self.region, c, s) == replaced(edge_ops(&r0, c, s), v, new)
                },
            decreases n - b,
        {
            if !contains_block(blocks, b) {
                let ghost c1 = *self;
                replace_in_block(&mut self.region, b, v, new);
                proof {
                    lemma_context_wf(&c1, self);
                    assert forall|c: int, s: int| 0 <= c < n && 0 <= s < succs(&r0, c).len()
                        implies (#[trigger] edge_ops(&self.region, c, s)).len() == edge_ops(&r0, c, s).len() by {
                        assert(edge_ops(&c1.region, c, s).len() == edge_ops(&r0, c, s).len());
                        if c == b {
                            assert(edge_ops(&self.region, c, s) == replaced(edge_ops(&c1.region, c, s), v, new));
                        }
                    }
                    assert forall|c: int, s: int| 0 <= c < n && 0 <= s < succs(&r0, c).len() && (c >= b + 1 || blocks@.contains(c as usize))
                        implies #[trigger] edge_ops(&self.region, c, s) == edge_ops(&r0, c, s) by {
                        assert(edge_ops(&c1.region, c, s) == edge_ops(&r0, c, s));
                    }
                    assert forall|c: int| 0 <= c < b + 1 && !blocks@.contains(c as usize) implies {
                        &&& terminator_replaced(r0.terminators@[c], #[trigger] self.region.terminators@[c], v, new)
                        &&& forall|s: int| 0 <= s < succs(&r0, c).len() ==> #[trigger] edge_ops(&self.region, c, s) == replaced(edge_ops(&r0, c, s), v, new)
                    } by {
                        if c == b {
                            assert(c1.region.terminators@[c] == r0.terminators@[c]);
                            assert forall|s: int| 0 <= s < succs(&r0, c).len() implies #[trigger] edge_ops(&self.region, c, s) == replaced(edge_ops(&r0, c, s), v, new) by {
                                assert(edge_ops(&c1.region, c, s) == edge_ops(&r0, c, s));
                            }
                        } else {
                            assert(self.region.terminators@[c] == c1.region.terminators@[c]);
                            assert forall|s: int| 0 <= s < succs(&r0, c).len() implies #[trigger] edge_ops(&self.region, c, s) == replaced(edge_ops(&r0, c, s), v, new) by {
                                assert(edge_ops(&self.region, c, s) == edge_ops(&c1.region, c, s));
                            }
                        }
                    }
                }
            }
            b = b + 1;
        }
        proof {
            lemma_context_wf(&c0, self);
            let r = &self.region;
            assert forall|c: int, x: ValueRef| 0 <= c < n && #[trigger] used_in_block(r, c, x)
                implies if blocks@.contains(c as usize) { used_in_block(&r0, c, x) } else { x == new || (x != v && used_in_block(&r0, c, x)) } by {
                if blocks@.contains(c as usize) {
                    if exists|s: int| 0 <= s < succs(r, c).len() && #[trigger] edge_ops(r, c, s).contains(x) {
                        let s = choose|s: int| 0 <= s < succs(r, c).len() && #[trigger] edge_ops(r, c, s).contains(x);
                        assert(edge_ops(&r0, c, s) == edge_ops(r, c, s));
                    } else {
                        assert(r.terminators@[c] == r0.terminators@[c]);
                    }
                } else {
                    assert(terminator_replaced(r0.terminators@[c], r.terminators@[c], v, new));
                    lemma_replaced_uses(&r0, r, c, v, new, x);
                }
            }
            assert forall|c: int, s2: int| 0 <= c < n && !blocks@.contains(c as usize) && 0 <= s2 < succs(&r0, c).len()
                implies #[trigger] edge_ops(r, c, s2) == replaced(edge_ops(&r0, c, s2), v, new) by {
                assert(terminator_replaced(r0.terminators@[c], r.terminators@[c], v, new));
            }
            assert(!used_outside(r, blocks@, v)) by {
                if used_outside(r, blocks@, v) {
                    let c = choose|c: int| 0 <= c < num_blocks(r) && !blocks@.contains(c as usize) && #[trigger] used_in_block(r, c, v);
                    assert(terminator_replaced(r0.terminators@[c], r.terminators@[c], v, new));
                    lemma_replaced_uses(&r0, r, c, v, new, v);
                }
            }
        }
    }
}

/// The latch `latch` ends a structured loop with header `loop_header` and blocks
/// `loop_blocks` in `r`: its `hidx`-th successor is the header and its other one the exit
/// block `exit_block`, which lies outside the loop; every edge into the latch comes from a
/// block of the loop; and where the latch is the header, it is the loop's only block.
pub open spec fn latch_shape(r: &Region, loop_header: usize, exit_block: usize, loop_blocks: Seq<usize>, latch: usize, hidx: usize) -> bool {
    &&& loop_header < num_blocks(r)
    &&& exit_block < num_blocks(r)
    &&& latch < num_blocks(r)
    &&& forall|k: int| 0 <= k < loop_blocks.len() ==> #[trigger] loop_blocks[k] < num_blocks(r)
    &&& loop_blocks.contains(loop_header)
    &&& loop_blocks.contains(latch)
    &&& !loop_blocks.contains(exit_block)
    &&& hidx < 2
    &&& succs(r, latch as int).len() == 2
    &&& succs(r, latch as int)[hidx as int] == loop_header
    &&& succs(r, latch as int)[1 - hidx] == exit_block
    &&& forall|e: Edge| #[trigger] is_edge(&r.cfg, e) && target(&r.cfg, e) == latch ==> loop_blocks.contains(e.from_block)
    &&& latch == loop_header ==> forall|k: int| 0 <= k < loop_blocks.len() ==> #[trigger] loop_blocks[k] == latch
}

/// `r1` and `r2` have the same blocks with the same successors.
pub open spec fn same_graph(r1: &Region, r2: &Region) -> bool {
    &&& num_blocks(r1) == num_blocks(r2)
    &&& forall|b: int| 0 <= b < num_blocks(r1) ==> #[trigger] succs(r1, b) == succs(r2, b)
}

/// Regions with the same graph have the same edges, with the same targets.
proof fn lemma_same_edges(r1: &Region, r2: &Region, e: Edge)
    requires
        same_graph(r1, r2),
    ensures
        is_edge(&r1.cfg, e) == is_edge(&r2.cfg, e),
        is_edge(&r1.cfg, e) ==> target(&r1.cfg, e) == target(&r2.cfg, e),
{
    if e.from_block < num_blocks(r1) {
        assert(succs(r1, e.from_block as int) == succs(r2, e.from_block as int));
    }
}

/// `dominance` gives, for each of the `n` blocks, which blocks it dominates.
pub open spec fn dominance_ok(dominance: Seq<Vec<bool>>, n: nat) -> bool {
    &&& dominance.len() == n
    &&& forall|k: int| 0 <= k < n ==> (#[trigger] dominance[k])@.len() == n
}

/// Whether a block uses a value depends on its edges and terminator alone.
proof fn lemma_block_uses_same(r1: &Region, r2: &Region, b: int, x: ValueRef)
    requires
        succs(r1, b) == succs(r2, b),
        forall|s: int| 0 <= s < succs(r1, b).len() ==> #[trigger] edge_ops(r1, b, s) == edge_ops(r2, b, s),
        r1.terminators@[b] == r2.terminators@[b],
    ensures
        used_in_block(r1, b, x) == used_in_block(r2, b, x),
{
    if exists|s: int| 0 <= s < succs(r1, b).len() && #[trigger] edge_ops(r1, b, s).contains(x) {
        let s = choose|s: int| 0 <= s < succs(r1, b).len() && #[trigger] edge_ops(r1, b, s).contains(x);
        assert(edge_ops(r2, b, s) == edge_ops(r1, b, s));
    }
    if exists|s: int| 0 <= s < succs(r2, b).len() && #[trigger] edge_ops(r2, b, s).contains(x) {
        let s = choose|s: int| 0 <= s < succs(r2, b).len() && #[trigger] edge_ops(r2, b, s).contains(x);
        assert(edge_ops(r2, b, s) == edge_ops(r1, b, s));
    }
}

/// Whether some edge of `preds` comes from a block that `lb` does not dominate.
fn some_not_dominated(preds: &Vec<Edge>, dominance: &[Vec<bool>], lb: usize) -> (r: bool)
    requires
        lb < dominance@.len(),
        forall|k: int| 0 <= k < preds@.len() ==> (#[trigger] preds@[k]).from_block < dominance@[lb as int]@.len(),
    ensures
        r == exists|k: int| 0 <= k < preds@.len() && !dominance@[lb as int]@[(#[trigger] preds@[k]).from_block as int],
{
    let mut k: usize = 0;
    while k < preds.len()
        invariant
            lb < dominance@.len(),
            forall|j: int| 0 <= j < preds@.len() ==> (#[trigger] preds@[j]).from_block < dominance@[lb as int]@.len(),
            k <= preds@.len(),
            forall|j: int| 0 <= j < k ==> dominance@[lb as int]@[(#[trigger] preds@[j]).from_block as int],
        decreases preds@.len() - k,
    {
        if !dominance[lb][preds[k].from_block] {
            proof {
                assert(!dominance@[lb as int]@[preds@[k as int].from_block as int]);
            }
            return true;
        }
        k = k + 1;
    }
    false
}

impl TransformationContext {
    /// Keep the value `v`, defined in the loop block `lb`, from escaping the loop: a new
    /// argument of the exit block takes its place outside the loop, the loop header gets an
    /// argument of its type, and the latch passes it, or a latch argument standing for it, to
    /// both its successors. Where `lb` does not dominate some block with an edge into the latch,
    /// that latch argument is made, and each such edge passes `v` where `lb` dominates the
    /// block it comes from and a poison value elsewhere.
    #[verifier::rlimit(40)]
    fn escape_loop_value(
        &mut self,
        v: ValueRef,
        lb: usize,
        loop_header: usize,
        exit_block: usize,
        loop_blocks: &[usize],
        latch: usize,
        hidx: usize,
        dominance: &[Vec<bool>],
        iteration_values: &mut Vec<ValueRef>,
        Ghost(rs): Ghost<Region>,
    )
        requires
            old(self).wf(),
            latch_shape(&old(self).region, loop_header, exit_block, loop_blocks@, latch, hidx),
            dominance_ok(dominance@, num_blocks(&old(self).region)),
            outside_uses_replaced(&rs, &old(self).region, loop_blocks@, exit_block, latch, old(iteration_values)@),
            same_graph(&old(self).region, &rs),
            latch_entries_match(&old(self).region, loop_header, latch),
            block_args(&old(self).region, exit_block as int).len() == old(iteration_values)@.len(),
            valid_value(&old(self).region, v),
            defining_block(&old(self).region, v) == Some(lb),
            loop_blocks@.contains(lb),
            edge_ops(&old(self).region, latch as int, hidx as int) == old(iteration_values)@,
            edge_ops(&old(self).region, latch as int, 1 - hidx) == old(iteration_values)@,
        ensures
            final(self).wf(),
            final(self).caches_extend(old(self)),
            final(self).entry == old(self).entry,
            same_graph(&final(self).region, &old(self).region),
            final(self).region.values@.len() >= old(self).region.values@.len(),
            forall|i: int| 0 <= i < old(self).region.values@.len() ==> #[trigger] final(self).region.values@[i] == old(self).region.values@[i],
            final(iteration_values)@.len() == old(iteration_values)@.len() + 1,
            final(iteration_values)@.drop_last() == old(iteration_values)@,
            value_type(&final(self).region, final(iteration_values)@.last()) == value_type(&old(self).region, v),
            edge_ops(&final(self).region, latch as int, hidx as int) == final(iteration_values)@,
            edge_ops(&final(self).region, latch as int, 1 - hidx) == final(iteration_values)@,
            block_args(&final(self).region, exit_block as int).len() == block_args(&old(self).region, exit_block as int).len() + 1,
            block_args(&final(self).region, exit_block as int).drop_last() == block_args(&old(self).region, exit_block as int),
            value_type(&final(self).region, block_args(&final(self).region, exit_block as int).last()) == value_type(&old(self).region, v),
            block_args(&final(self).region, loop_header as int).len() == block_args(&old(self).region, loop_header as int).len() + 1,
            forall|e: Edge| #[trigger] is_edge(&old(self).region.cfg, e) && target(&old(self).region.cfg, e) == loop_header && e.from_block != latch
                ==> edge_ops(&final(self).region, e.from_block as int, e.successor_index as int).len()
                    == edge_ops(&old(self).region, e.from_block as int, e.successor_index as int).len(),
            !used_outside(&final(self).region, loop_blocks@, v),
            forall|b: int, x: ValueRef| 0 <= b < num_blocks(&old(self).region) && !loop_blocks@.contains(b as usize)
                && #[trigger] used_in_block(&final(self).region, b, x)
                ==> used_in_block(&old(self).region, b, x) || !defined_in(&final(self).region, x, loop_blocks@),
            outside_uses_replaced(&rs, &final(self).region, loop_blocks@, exit_block, latch, final(iteration_values)@),
            latch_entries_match(&final(self).region, loop_header, latch),
    {
        let ghost c0 = *self;
        let ghost r0 = self.region;
        let ghost n = num_blocks(&r0);
        let ghost it0 = iteration_values@;
        let ty = self.region.values[v.index].ty.clone();
        let exit_arg = self.append_block_argument(exit_block, ty.clone());
        let ghost c1 = *self;
        let _header_arg = self.append_block_argument(loop_header, ty.clone());
        let ghost c2 = *self;
        proof {
            assert(c1.caches_extend(&c0)) by { lemma_context_caches_same(&c0, &c1); }
            assert(c2.caches_extend(&c1)) by { lemma_context_caches_same(&c1, &c2); }
            lemma_caches_extend_trans(&c0, &c1, &c2);
            assert forall|i: int| 0 <= i < r0.values@.len() implies #[trigger] self.region.values@[i] == r0.values@[i] by {
                assert(c1.region.values@[i] == r0.values@[i]);
            }
            assert forall|b: int| 0 <= b < n implies #[trigger] self.region.operands@[b]@ == r0.operands@[b]@
                && self.region.terminators@[b] == r0.terminators@[b] by {
                assert(c1.region.operands@[b]@ == r0.operands@[b]@);
                assert(c1.region.terminators@[b] == r0.terminators@[b]);
            }
            assert forall|b: int| 0 <= b < n implies #[trigger] succs(&self.region, b) == succs(&r0, b) by {
                assert(succs(&c1.region, b) == succs(&r0, b));
                assert(succs(&c2.region, b) == succs(&c1.region, b));
            }
            assert(latch != exit_block);
            if latch != loop_header {
                assert(block_args(&c1.region, latch as int) == block_args(&r0, latch as int));
                assert(block_args(&c2.region, latch as int) == block_args(&c1.region, latch as int));
            }
            assert(block_args(&c2.region, exit_block as int) == block_args(&c1.region, exit_block as int));
        }
        let mut argument = v;
        if lb != latch {
            let preds = edges_into(&self.region, latch);
            proof {
                assert forall|e: Edge| #[trigger] preds@.contains(e) <==> is_edge(&r0.cfg, e) && target(&r0.cfg, e) == latch by {
                    lemma_same_edges(&self.region, &r0, e);
                }
                assert forall|k: int| 0 <= k < preds@.len() implies (#[trigger] preds@[k]).from_block < dominance@[lb as int]@.len() by {
                    assert(preds@.contains(preds@[k]));
                }
            }
            if some_not_dominated(&preds, dominance, lb) {
                proof {
                    if latch == loop_header {
                        let j = choose|j: int| 0 <= j < loop_blocks@.len() && loop_blocks@[j] == lb;
                        assert(loop_blocks@[j] == latch);
                    }
                }
                let j = self.region.args[latch].len();
                argument = self.append_block_argument(latch, ty.clone());
                let ghost c3 = *self;
                proof {
                    assert(c3.caches_extend(&c2)) by { lemma_context_caches_same(&c2, &c3); }
                    lemma_caches_extend_trans(&c0, &c2, &c3);
                    assert forall|i: int| 0 <= i < r0.values@.len() implies #[trigger] self.region.values@[i] == r0.values@[i] by {
                        assert(c2.region.values@[i] == r0.values@[i]);
                    }
                    assert forall|b: int| 0 <= b < n implies #[trigger] self.region.operands@[b]@ == r0.operands@[b]@
                        && self.region.terminators@[b] == r0.terminators@[b] by {
                        assert(c2.region.operands@[b]@ == r0.operands@[b]@);
                        assert(c2.region.terminators@[b] == r0.terminators@[b]);
                    }
                    assert forall|b: int| 0 <= b < n implies #[trigger] succs(&self.region, b) == succs(&r0, b) by {
                        assert(succs(&c3.region, b) == succs(&c2.region, b));
                    }
                }
                let mut q: usize = 0;
                while q < preds.len()
                    invariant
                        self.wf(),
                        self.caches_extend(&c0),
                        self.entry == c0.entry,
                        same_graph(&self.region, &r0),
                        r0 == c0.region,
                        n == num_blocks(&r0),
                        latch_shape(&r0, loop_header, exit_block, loop_blocks@, latch, hidx),
                        dominance_ok(dominance@, n),
                        lb < n,
                        lb != latch,
                        latch != loop_header,
                        q <= preds@.len(),
                        forall|e: Edge| #[trigger] preds@.contains(e) <==> is_edge(&r0.cfg, e) && target(&r0.cfg, e) == latch,
                        valid_value(&self.region, v),
                        valid_value(&self.region, argument),
                        valid_value(&self.region, exit_arg),
                        value_type(&self.region, argument) == ty,
                        value_type(&self.region, exit_arg) == ty,
                        value_def(&self.region, exit_arg) == (ValueDef::Arg { block: exit_block, index: block_args(&r0, exit_block as int).len() as usize }),
                        self.region.values@.len() >= c3.region.values@.len(),
                        forall|i: int| 0 <= i < c3.region.values@.len() ==> #[trigger] self.region.values@[i] == c3.region.values@[i],
                        forall|i: int| 0 <= i < r0.values@.len() ==> #[trigger] c3.region.values@[i] == r0.values@[i],
                        block_args(&self.region, exit_block as int) == block_args(&c3.region, exit_block as int),
                        block_args(&self.region, loop_header as int) == block_args(&c3.region, loop_header as int),
                        forall|b: int, s: int| 0 <= b < n && !loop_blocks@.contains(b as usize) && 0 <= s < succs(&r0, b).len()
                            ==> #[trigger] edge_ops(&self.region, b, s) == edge_ops(&r0, b, s),
                        forall|b: int| 0 <= b < n && !loop_blocks@.contains(b as usize) ==> #[trigger] self.region.terminators@[b] == r0.terminators@[b],
                        forall|s: int| 0 <= s < 2 ==> #[trigger] edge_ops(&self.region, latch as int, s) == edge_ops(&r0, latch as int, s),
                        forall|e: Edge| #[trigger] is_edge(&r0.cfg, e) && target(&r0.cfg, e) == loop_header
                            ==> edge_ops(&self.region, e.from_block as int, e.successor_index as int) == edge_ops(&r0, e.from_block as int, e.successor_index as int),
                        latch_entries_match(&r0, loop_header, latch),
                        j == block_args(&r0, latch as int).len(),
                        block_args(&self.region, latch as int) == block_args(&c3.region, latch as int),
                        block_args(&c3.region, latch as int).len() == j + 1,
                        value_def(&self.region, argument) == (ValueDef::Arg { block: latch, index: j }),
                        preds@.no_duplicates(),
                        forall|e: Edge| #[trigger] is_edge(&r0.cfg, e) && target(&r0.cfg, e) == latch
                            ==> edge_extends(&r0, &self.region, e.from_block as int, e.successor_index as int),
                        forall|e: Edge| #[trigger] is_edge(&r0.cfg, e) && target(&r0.cfg, e) == latch
                            ==> if preds@.take(q as int).contains(e) {
                                let o = edge_ops(&self.region, e.from_block as int, e.successor_index as int);
                                o.len() == j + 1 && (o[j as int] == v || is_poison_value(&self.region, o[j as int]))
                            } else {
                                edge_ops(&self.region, e.from_block as int, e.successor_index as int) == edge_ops(&r0, e.from_block as int, e.successor_index as int)
                            },
                    decreases preds@.len() - q,
                {
                    let e = preds[q];
                    proof {
                        assert(preds@.contains(e));
                        assert(succs(&self.region, e.from_block as int) == succs(&r0, e.from_block as int));
                    }
                    let ghost cb = *self;
                    let op = if dominance[lb][e.from_block] {
                        v
                    } else {
                        self.get_undef_value(&ty)
                    };
                    let ghost cu = *self;
                    proof {
                        lemma_caches_extend_trans(&c0, &cb, &cu);
                        assert forall|i: int| 0 <= i < c3.region.values@.len() implies #[trigger] self.region.values@[i] == c3.region.values@[i] by {
                            assert(cb.region.values@[i] == c3.region.values@[i]);
                        }
                        assert forall|b: int| 0 <= b < n implies #[trigger] self.region.operands@[b]@ == cb.region.operands@[b]@
                            && self.region.terminators@[b] == cb.region.terminators@[b] by {}
                        assert(block_args(&cu.region, exit_block as int) == block_args(&cb.region, exit_block as int));
                        assert(block_args(&cu.region, loop_header as int) == block_args(&cb.region, loop_header as int));
                    }
                    push_edge_operand(&mut self.region, e.from_block, e.successor_index, op);
                    proof {
                        lemma_context_wf(&cu, self);
                        lemma_caches_extend_trans(&c0, &cu, self);
                        assert(loop_blocks@.contains(e.from_block));
                        assert forall|b: int, s2: int| 0 <= b < n && !loop_blocks@.contains(b as usize) && 0 <= s2 < succs(&r0, b).len()
                            implies #[trigger] edge_ops(&self.region, b, s2) == edge_ops(&r0, b, s2) by {
                            assert(b != e.from_block);
                            assert(edge_ops(&cb.region, b, s2) == edge_ops(&r0, b, s2));
                            assert(edge_ops(&cu.region, b, s2) == edge_ops(&cb.region, b, s2));
                        }
                        assert forall|b: int| 0 <= b < n && !loop_blocks@.contains(b as usize) implies #[trigger] self.region.terminators@[b] == r0.terminators@[b] by {
                            assert(cb.region.terminators@[b] == r0.terminators@[b]);
                        }
                        assert forall|b: int| 0 <= b < n implies #[trigger] succs(&self.region, b) == succs(&r0, b) by {
                            assert(succs(&cu.region, b) == succs(&cb.region, b));
                            assert(succs(&cb.region, b) == succs(&r0, b));
                        }
                        assert forall|s: int| 0 <= s < 2 implies #[trigger] edge_ops(&self.region, latch as int, s) == edge_ops(&r0, latch as int, s) by {
                            assert(edge_ops(&cb.region, latch as int, s) == edge_ops(&r0, latch as int, s));
                            if e.from_block == latch && e.successor_index == s {
                                assert(target(&r0.cfg, e) == latch);
                            }
                        }
                        assert forall|f: Edge| #[trigger] is_edge(&r0.cfg, f) && target(&r0.cfg, f) == loop_header
                            implies edge_ops(&self.region, f.from_block as int, f.successor_index as int) == edge_ops(&r0, f.from_block as int, f.successor_index as int) by {
                            assert(edge_ops(&cb.region, f.from_block as int, f.successor_index as int) == edge_ops(&r0, f.from_block as int, f.successor_index as int));
                            assert(f != e);
                        }
                        assert forall|i: int| 0 <= i < c3.region.values@.len() implies #[trigger] self.region.values@[i] == c3.region.values@[i] by {
                            assert(cu.region.values@[i] == c3.region.values@[i]);
                        }
                        lemma_take_push(preds@, q as int);
                        assert(!preds@.take(q as int).contains(e)) by {
                            if preds@.take(q as int).contains(e) {
                                let k = choose|k: int| 0 <= k < preds@.take(q as int).len() && preds@.take(q as int)[k] == e;
                                assert(preds@[k] == preds@[q as int]);
                            }
                        }
                        assert(is_edge(&r0.cfg, e) && target(&r0.cfg, e) == latch);
                        assert(edge_ops(&cb.region, e.from_block as int, e.successor_index as int) == edge_ops(&r0, e.from_block as int, e.successor_index as int));
                        assert(edge_ops(&cu.region, e.from_block as int, e.successor_index as int) == edge_ops(&cb.region, e.from_block as int, e.successor_index as int));
                        assert(op == v || is_poison_value(&self.region, op)) by {
                            if op != v {
                                assert(self.region.values@[op.index as int] == cu.region.values@[op.index as int]);
                            }
                        }
                        assert forall|f: Edge| #[trigger] is_edge(&r0.cfg, f) && target(&r0.cfg, f) == latch
                            implies edge_extends(&r0, &self.region, f.from_block as int, f.successor_index as int) by {
                            assert(edge_extends(&r0, &cb.region, f.from_block as int, f.successor_index as int));
                            assert(edge_ops(&cu.region, f.from_block as int, f.successor_index as int) == edge_ops(&cb.region, f.from_block as int, f.successor_index as int));
                            if f == e {
                                assert(edge_extends(&cu.region, &self.region, f.from_block as int, f.successor_index as int));
                            } else {
                                assert(edge_ops(&self.region, f.from_block as int, f.successor_index as int) == edge_ops(&cu.region, f.from_block as int, f.successor_index as int));
                            }
                            lemma_extends_trans(&r0, &cu.region, &self.region, f.from_block as int, f.successor_index as int);
                        }
                        assert forall|f: Edge| #[trigger] is_edge(&r0.cfg, f) && target(&r0.cfg, f) == latch
                            implies if preds@.take(q + 1).contains(f) {
                                let o = edge_ops(&self.region, f.from_block as int, f.successor_index as int);
                                o.len() == j + 1 && (o[j as int] == v || is_poison_value(&self.region, o[j as int]))
                            } else {
                                edge_ops(&self.region, f.from_block as int, f.successor_index as int) == edge_ops(&r0, f.from_block as int, f.successor_index as int)
                            } by {
                            assert(edge_ops(&cu.region, f.from_block as int, f.successor_index as int) == edge_ops(&cb.region, f.from_block as int, f.successor_index as int));
                            if f == e {
                                assert(edge_ops(&r0, f.from_block as int, f.successor_index as int).len() == j);
                            } else {
                                assert(edge_ops(&self.region, f.from_block as int, f.successor_index as int) == edge_ops(&cu.region, f.from_block as int, f.successor_index as int));
                                if preds@.take(q as int).contains(f) {
                                    let o = edge_ops(&cb.region, f.from_block as int, f.successor_index as int);
                                    if o[j as int] != v {
                                        assert(is_poison_value(&cb.region, o[j as int]));
                                        assert(self.region.values@[o[j as int].index as int] == cb.region.values@[o[j as int].index as int]);
                                    }
                                }
                            }
                        }
                        assert(block_args(&cu.region, latch as int) == block_args(&cb.region, latch as int));
                        assert(block_args(&self.region, latch as int) == block_args(&cu.region, latch as int));
                    }
                    q = q + 1;
                }
                proof {
                    let r = &self.region;
                    assert(preds@.take(q as int) =~= preds@);
                    assert(valid_value(r, argument));
                    assert forall|f: Edge| #[trigger] is_edge(&r.cfg, f) && target(&r.cfg, f) == latch implies {
                        let o = edge_ops(r, f.from_block as int, f.successor_index as int);
                        &&& j < o.len()
                        &&& (o[j as int] == v || is_poison_value(r, o[j as int]))
                    } by {
                        lemma_same_edges(r, &r0, f);
                        assert(preds@.contains(f));
                    }
                    assert(stands_for(r, latch, argument, v));
                    assert forall|f: Edge| #[trigger] is_edge(&r.cfg, f) && target(&r.cfg, f) == latch
                        implies edge_ops(r, f.from_block as int, f.successor_index as int).len() == block_args(r, latch as int).len() by {
                        lemma_same_edges(r, &r0, f);
                        assert(preds@.contains(f));
                    }
                }
            }
        }
        let ghost c4 = *self;
        proof {
            let r = &self.region;
            assert(stands_for(r, latch, argument, v));
            assert(latch_entries_match(r, loop_header, latch)) by {
                if latch != loop_header {
                    assert forall|f: Edge| #[trigger] is_edge(&r.cfg, f) && target(&r.cfg, f) == latch
                        implies edge_ops(r, f.from_block as int, f.successor_index as int).len() == block_args(r, latch as int).len() by {
                        lemma_same_edges(r, &r0, f);
                        lemma_same_edges(&c2.region, &r0, f);
                        if argument == v {
                            assert(edge_ops(r, f.from_block as int, f.successor_index as int) == edge_ops(&r0, f.from_block as int, f.successor_index as int));
                        }
                    }
                }
            }
            assert forall|f: Edge| #[trigger] is_edge(&r0.cfg, f) && target(&r0.cfg, f) == latch
                implies edge_extends(&r0, r, f.from_block as int, f.successor_index as int) by {
                if argument == v {
                    assert(edge_ops(r, f.from_block as int, f.successor_index as int) == edge_ops(&r0, f.from_block as int, f.successor_index as int));
                }
            }
        }
        iteration_values.push(argument);
        push_edge_operand(&mut self.region, latch, hidx, argument);
        let ghost c5 = *self;
        proof {
            lemma_context_wf(&c4, &c5);
        }
        push_edge_operand(&mut self.region, latch, 1 - hidx, argument);
        let ghost c6 = *self;
        proof {
            lemma_context_wf(&c5, &c6);
            lemma_caches_extend_trans(&c0, &c4, &c5);
            lemma_caches_extend_trans(&c0, &c5, &c6);
        }
        self.replace_uses_outside(v, exit_arg, loop_blocks);
        proof {
            lemma_caches_extend_trans(&c0, &c6, self);
            let r = &self.region;
            assert(!loop_blocks@.contains(exit_block));
            assert forall|b: int| 0 <= b < n implies #[trigger] succs(r, b) == succs(&r0, b) by {
                assert(succs(&c4.region, b) == succs(&r0, b));
            }
            assert forall|b: int, x: ValueRef| 0 <= b < n && !loop_blocks@.contains(b as usize) && #[trigger] used_in_block(r, b, x)
                implies used_in_block(&r0, b, x) || !defined_in(r, x, loop_blocks@) by {
                if x != exit_arg {
                    assert(b != latch);
                    assert forall|s2: int| 0 <= s2 < succs(&c6.region, b).len() implies #[trigger] edge_ops(&c6.region, b, s2) == edge_ops(&r0, b, s2) by {
                        assert(succs(&c4.region, b) == succs(&r0, b));
                        assert(edge_ops(&c4.region, b, s2) == edge_ops(&r0, b, s2));
                        assert(edge_ops(&c5.region, b, s2) == edge_ops(&c4.region, b, s2));
                    }
                    assert(c4.region.terminators@[b] == r0.terminators@[b]);
                    assert(succs(&c6.region, b) == succs(&r0, b)) by {
                        assert(succs(&c4.region, b) == succs(&r0, b));
                    }
                    lemma_block_uses_same(&c6.region, &r0, b, x);
                } else {
                    assert(value_def(r, exit_arg) == value_def(&c4.region, exit_arg));
                }
            }
            assert forall|e: Edge| #[trigger] is_edge(&r0.cfg, e) && target(&r0.cfg, e) == loop_header && e.from_block != latch
                implies edge_ops(r, e.from_block as int, e.successor_index as int).len() == edge_ops(&r0, e.from_block as int, e.successor_index as int).len() by {
                let b = e.from_block as int;
                let s2 = e.successor_index as int;
                assert(succs(&c4.region, b) == succs(&r0, b));
                assert(edge_ops(&c4.region, b, s2) == edge_ops(&r0, b, s2));
                assert(edge_ops(&c5.region, b, s2) == edge_ops(&c4.region, b, s2));
                assert(edge_ops(&c6.region, b, s2) == edge_ops(&c5.region, b, s2));
            }
            assert(iteration_values@ =~= it0.push(argument));
            assert(block_args(r, exit_block as int) == block_args(&c4.region, exit_block as int));
            // What the exit block's new argument stands for, and what replaced the uses of `v`.
            let it2 = iteration_values@;
            let lbs = loop_blocks@;
            assert(lbs.contains(latch));
            assert(latch != exit_block);
            assert forall|b: int| 0 <= b < n implies #[trigger] succs(&c6.region, b) == succs(&r0, b) by {
                assert(succs(&c4.region, b) == succs(&r0, b));
            }
            assert(same_graph(&c6.region, &r0));
            let lh = Edge { from_block: latch, successor_index: hidx };
            let lx = Edge { from_block: latch, successor_index: (1 - hidx) as usize };
            assert forall|f: Edge| #[trigger] is_edge(&c4.region.cfg, f) && target(&c4.region.cfg, f) == latch
                implies edge_extends(&c4.region, &c6.region, f.from_block as int, f.successor_index as int) by {
                lemma_same_edges(&c4.region, &r0, f);
                if f == lh {
                    assert(edge_extends(&c4.region, &c5.region, f.from_block as int, f.successor_index as int));
                    assert(edge_ops(&c6.region, f.from_block as int, f.successor_index as int) == edge_ops(&c5.region, f.from_block as int, f.successor_index as int));
                } else if f == lx {
                    assert(target(&r0.cfg, f) == exit_block);
                } else {
                    assert(edge_ops(&c5.region, f.from_block as int, f.successor_index as int) == edge_ops(&c4.region, f.from_block as int, f.successor_index as int));
                    assert(edge_ops(&c6.region, f.from_block as int, f.successor_index as int) == edge_ops(&c5.region, f.from_block as int, f.successor_index as int));
                }
                assert(edge_extends(&c4.region, &c6.region, f.from_block as int, f.successor_index as int));
            }
            assert forall|i: int| 0 <= i < c4.region.values@.len() implies #[trigger] c6.region.values@[i] == c4.region.values@[i] by {}
            assert forall|b: int| 0 <= b < n implies #[trigger] succs(&c6.region, b) == succs(&c4.region, b) by {
                assert(succs(&c4.region, b) == succs(&r0, b));
            }
            lemma_stands_kept(&c4.region, &c6.region, latch);
            assert forall|f: Edge| #[trigger] is_edge(&r0.cfg, f) && target(&r0.cfg, f) == latch
                implies edge_extends(&r0, &c6.region, f.from_block as int, f.successor_index as int) by {
                lemma_same_edges(&c4.region, &r0, f);
                assert(edge_extends(&r0, &c4.region, f.from_block as int, f.successor_index as int));
                assert(edge_extends(&c4.region, &c6.region, f.from_block as int, f.successor_index as int));
                lemma_extends_trans(&r0, &c4.region, &c6.region, f.from_block as int, f.successor_index as int);
            }
            assert forall|i: int| 0 <= i < r0.values@.len() implies #[trigger] c6.region.values@[i] == r0.values@[i] by {
                assert(c4.region.values@[i] == r0.values@[i]);
            }
            lemma_stands_kept(&r0, &c6.region, latch);
            assert forall|b: int, s2: int| 0 <= b < n && !lbs.contains(b as usize) && 0 <= s2 < succs(&r0, b).len()
                implies #[trigger] edge_extends(&r0, &c6.region, b, s2) by {
                assert(b != latch);
                assert(edge_ops(&c4.region, b, s2) == edge_ops(&r0, b, s2));
                assert(edge_ops(&c5.region, b, s2) == edge_ops(&c4.region, b, s2));
            }
            assert forall|b: int| 0 <= b < n && !lbs.contains(b as usize) implies #[trigger] c6.region.terminators@[b] == r0.terminators@[b] by {
                assert(c4.region.terminators@[b] == r0.terminators@[b]);
            }
            assert(block_args(&c6.region, exit_block as int) == block_args(&c4.region, exit_block as int));
            assert(block_args(&c4.region, exit_block as int) == block_args(&r0, exit_block as int).push(exit_arg));
            lemma_outside_kept(&rs, &r0, &c6.region, lbs, exit_block, latch, it0, it2);
            assert(same_graph(&c6.region, &rs));
            assert forall|f: Edge| #[trigger] is_edge(&c6.region.cfg, f) && target(&c6.region.cfg, f) == latch
                implies edge_extends(&c6.region, r, f.from_block as int, f.successor_index as int) by {
                lemma_same_edges(&c6.region, &r0, f);
                assert(lbs.contains(f.from_block));
            }
            assert forall|b: int| 0 <= b < n implies #[trigger] succs(r, b) == succs(&c6.region, b) by {}
            lemma_stands_kept(&c6.region, r, latch);
            assert forall|q2: int| 0 <= q2 < block_args(&c6.region, exit_block as int).len()
                implies #[trigger] block_args(&c6.region, exit_block as int)[q2] != v by {
                let w = block_args(&c6.region, exit_block as int)[q2];
                assert(value_def(&c6.region, w) == (ValueDef::Arg { block: exit_block, index: q2 as usize }));
                assert(c6.region.values@[v.index as int] == r0.values@[v.index as int]);
            }
            assert(it2[it0.len() as int] == argument);
            assert(block_args(&c6.region, exit_block as int)[it0.len() as int] == exit_arg);
            lemma_outside_replace(&rs, &c6.region, r, lbs, exit_block, latch, it2, v, exit_arg, it0.len() as int);
            assert(latch_entries_match(r, loop_header, latch)) by {
                if latch != loop_header {
                    assert forall|f: Edge| #[trigger] is_edge(&r.cfg, f) && target(&r.cfg, f) == latch
                        implies edge_ops(r, f.from_block as int, f.successor_index as int).len() == block_args(r, latch as int).len() by {
                        lemma_same_edges(r, &r0, f);
                        lemma_same_edges(&c4.region, &r0, f);
                        assert(lbs.contains(f.from_block));
                        assert(f != lh && f != lx);
                        assert(edge_ops(&c5.region, f.from_block as int, f.successor_index as int) == edge_ops(&c4.region, f.from_block as int, f.successor_index as int));
                        assert(edge_ops(&c6.region, f.from_block as int, f.successor_index as int) == edge_ops(&c5.region, f.from_block as int, f.successor_index as int));
                        assert(block_args(r, latch as int) == block_args(&c4.region, latch as int));
                    }
                }
            }
            assert(block_args(r, loop_header as int) == block_args(&c4.region, loop_header as int));
        }
    }
}

/// A context whose caches are those of `c0` extends them.
proof fn lemma_context_caches_same(c0: &TransformationContext, c1: &TransformationContext)
    requires
        c1.switch_value_cache@ == c0.switch_value_cache@,
        c1.typed_undef_cache@ == c0.typed_undef_cache@,
    ensures
        c1.caches_extend(c0),
{
    assert forall|d: u32| #[trigger] c0.switch_cached(d) is Some implies c1.switch_cached(d) == c0.switch_cached(d) by {}
    assert forall|t: Type| #[trigger] c0.undef_cached(t) is Some implies c1.undef_cached(t) == c0.undef_cached(t) by {}
}

/// Every edge into block `b` of `r` comes from block `p`, and one does.
pub open spec fn sole_predecessor(r: &Region, b: usize, p: usize) -> bool {
    &&& exists|e: Edge| #[trigger] is_edge(&r.cfg, e) && target(&r.cfg, e) == b && e.from_block == p
    &&& forall|e: Edge| #[trigger] is_edge(&r.cfg, e) && target(&r.cfg, e) == b ==> e.from_block == p
}

/// The latch of the loop that exits to `exit_block`: the block that all edges into the exit
/// block come from.
pub open spec fn loop_latch(r: &Region, exit_block: usize) -> usize {
    choose|p: usize| sole_predecessor(r, exit_block, p)
}

/// Which of the latch's two successor edges leads to the loop header.
pub open spec fn header_edge_index(r: &Region, latch: usize, loop_header: usize) -> usize {
    if succs(r, latch as int)[0] == loop_header { 0 } else { 1 }
}

/// The structured loop with header `loop_header`, blocks `loop_blocks` and exit block
/// `exit_block` is ready to be brought into reduce form: its latch, the sole predecessor of
/// the exit block, is shaped as `latch_shape` says, the exit block has no arguments and is
/// passed no operands, the back edge passes the header one operand per argument, and, unless
/// the latch is the header, every edge into the latch passes one operand per latch argument.
pub open spec fn reduce_ready(r: &Region, loop_header: usize, exit_block: usize, loop_blocks: Seq<usize>, latch: usize) -> bool {
    let hidx = header_edge_index(r, latch, loop_header);
    &&& sole_predecessor(r, exit_block, latch)
    &&& latch_shape(r, loop_header, exit_block, loop_blocks, latch, hidx)
    &&& block_args(r, exit_block as int).len() == 0
    &&& edge_ops(r, latch as int, 1 - hidx).len() == 0
    &&& edge_ops(r, latch as int, hidx as int).len() == block_args(r, loop_header as int).len()
    &&& latch_entries_match(r, loop_header, latch)
}

/// `p` is a path of `r`'s graph: blocks of `r`, each a successor of the one before it.
pub open spec fn is_path(r: &Region, p: Seq<usize>) -> bool {
    &&& p.len() >= 1
    &&& forall|i: int| 0 <= i < p.len() ==> #[trigger] p[i] < num_blocks(r)
    &&& forall|i: int, j: int| 0 <= i && j == i + 1 && j < p.len() ==> succs(r, #[trigger] p[i] as int).contains(#[trigger] p[j])
}

/// Block `a` dominates block `b` of `r`, whose entry block is `entry`: every path from the
/// entry to `b` passes through `a`.
pub open spec fn dominates(r: &Region, entry: usize, a: usize, b: usize) -> bool {
    forall|p: Seq<usize>| is_path(r, p) && p[0] == entry && p.last() == b ==> #[trigger] p.contains(a)
}

/// In `r`, from `r0`, the edge `e` into the loop header `h` passes one operand per argument
/// of the header: those it passed in `r0`, then a poison value of the type of each argument
/// it passed nothing for.
pub open spec fn header_entry_padded(r0: &Region, r: &Region, e: Edge, h: usize) -> bool {
    let o = edge_ops(r0, e.from_block as int, e.successor_index as int).len();
    let f = edge_ops(r, e.from_block as int, e.successor_index as int);
    let args = block_args(r, h as int);
    &&& f.len() == if o < args.len() { args.len() } else { o }
    &&& forall|k: int| o <= k < args.len() ==> #[trigger] value_def(r, f[k]) == ValueDef::Constant(ConstantDef::Poison(value_type(r, args[k])))
}

proof fn lemma_take_contains(s: Seq<usize>, j: int, b: usize)
    requires
        0 <= j < s.len(),
    ensures
        s.take(j + 1).contains(b) <==> s.take(j).contains(b) || s[j] == b,
{
    if s.take(j + 1).contains(b) {
        let t = s.take(j + 1);
        let k = choose|k: int| 0 <= k < t.len() && t[k] == b;
        if k < j {
            assert(s.take(j)[k] == b);
        }
    }
    if s.take(j).contains(b) {
        let t = s.take(j);
        let k = choose|k: int| 0 <= k < t.len() && t[k] == b;
        assert(s.take(j + 1)[k] == b);
    }
    if s[j] == b {
        assert(s.take(j + 1)[j] == b);
    }
}

impl TransformationContext {
    /// Give the exit block one argument per operand that the back edge passes to the loop
    /// header, of its type, have the latch pass those operands to the exit block too, and
    /// replace each use of them outside the loop by the matching exit block argument. Gives
    /// back the operands.
    fn pass_iteration_values_to_exit(
        &mut self,
        loop_header: usize,
        exit_block: usize,
        loop_blocks: &[usize],
        latch: usize,
        hidx: usize,
    ) -> (iteration_values: Vec<ValueRef>)
        requires
            old(self).wf(),
            latch_shape(&old(self).region, loop_header, exit_block, loop_blocks@, latch, hidx),
            block_args(&old(self).region, exit_block as int).len() == 0,
            edge_ops(&old(self).region, latch as int, 1 - hidx).len() == 0,
        ensures
            final(self).wf(),
            final(self).caches_extend(old(self)),
            final(self).entry == old(self).entry,
            same_graph(&final(self).region, &old(self).region),
            final(self).region.values@.len() >= old(self).region.values@.len(),
            forall|i: int| 0 <= i < old(self).region.values@.len() ==> #[trigger] final(self).region.values@[i] == old(self).region.values@[i],
            iteration_values@ == edge_ops(&old(self).region, latch as int, hidx as int),
            edge_ops(&final(self).region, latch as int, hidx as int) == iteration_values@,
            edge_ops(&final(self).region, latch as int, 1 - hidx) == iteration_values@,
            block_args(&final(self).region, exit_block as int).len() == iteration_values@.len(),
            forall|q: int| 0 <= q < iteration_values@.len() ==> #[trigger] value_type(&final(self).region, block_args(&final(self).region, exit_block as int)[q])
                == value_type(&final(self).region, iteration_values@[q]),
            block_args(&final(self).region, loop_header as int) == block_args(&old(self).region, loop_header as int),
            forall|e: Edge| #[trigger] is_edge(&old(self).region.cfg, e) && target(&old(self).region.cfg, e) == loop_header && e.from_block != latch
                ==> edge_ops(&final(self).region, e.from_block as int, e.successor_index as int).len()
                    == edge_ops(&old(self).region, e.from_block as int, e.successor_index as int).len(),
            outside_uses_replaced(&old(self).region, &final(self).region, loop_blocks@, exit_block, latch, iteration_values@),
            block_args(&final(self).region, latch as int) == block_args(&old(self).region, latch as int),
            forall|e: Edge| #[trigger] is_edge(&old(self).region.cfg, e) && target(&old(self).region.cfg, e) == latch
                ==> edge_ops(&final(self).region, e.from_block as int, e.successor_index as int)
                    == edge_ops(&old(self).region, e.from_block as int, e.successor_index as int),
    {
        let ghost c0 = *self;
        let ghost r0 = self.region;
        let ghost n = num_blocks(&r0);
        let ghost lbs = loop_blocks@;
        let eidx: usize = 1 - hidx;
        let header_ops = copy_values(&self.region.operands[latch][hidx]);
        let mut k: usize = 0;
        proof {
            assert(edge_ops(&r0, latch as int, eidx as int) =~= header_ops@.take(0));
            lemma_context_caches_same(&c0, self);
            lemma_outside_refl(&r0, lbs, exit_block, latch, header_ops@.take(0));
        }
        while k < header_ops.len()
            invariant
                self.wf(),
                c0.wf(),
                self.caches_extend(&c0),
                self.entry == c0.entry,
                r0 == c0.region,
                n == num_blocks(&r0),
                same_graph(&self.region, &r0),
                latch_shape(&r0, loop_header, exit_block, loop_blocks@, latch, hidx),
                eidx == 1 - hidx,
                header_ops@ == edge_ops(&r0, latch as int, hidx as int),
                k <= header_ops@.len(),
                self.region.values@.len() >= r0.values@.len(),
                forall|i: int| 0 <= i < r0.values@.len() ==> #[trigger] self.region.values@[i] == r0.values@[i],
                edge_ops(&self.region, latch as int, hidx as int) == header_ops@,
                edge_ops(&self.region, latch as int, eidx as int) == header_ops@.take(k as int),
                block_args(&self.region, exit_block as int).len() == k,
                forall|q: int| 0 <= q < k ==> #[trigger] value_type(&self.region, block_args(&self.region, exit_block as int)[q])
                    == value_type(&self.region, header_ops@[q]),
                block_args(&self.region, loop_header as int) == block_args(&r0, loop_header as int),
                forall|e: Edge| #[trigger] is_edge(&r0.cfg, e) && target(&r0.cfg, e) == loop_header && e.from_block != latch
                    ==> edge_ops(&self.region, e.from_block as int, e.successor_index as int).len()
                        == edge_ops(&r0, e.from_block as int, e.successor_index as int).len(),
                lbs == loop_blocks@,
                outside_uses_replaced(&r0, &self.region, lbs, exit_block, latch, header_ops@.take(k as int)),
                forall|q: int| 0 <= q < k ==> (#[trigger] block_args(&self.region, exit_block as int)[q]).index >= r0.values@.len(),
                block_args(&self.region, latch as int) == block_args(&r0, latch as int),
                forall|e: Edge| #[trigger] is_edge(&r0.cfg, e) && target(&r0.cfg, e) == latch
                    ==> edge_ops(&self.region, e.from_block as int, e.successor_index as int)
                        == edge_ops(&r0, e.from_block as int, e.successor_index as int),
            decreases header_ops@.len() - k,
        {
            let a = header_ops[k];
            proof {
                assert(valid_value(&r0, edge_ops(&r0, latch as int, hidx as int)[k as int]));
                assert(self.region.values@[a.index as int] == r0.values@[a.index as int]);
            }
            let ty = self.region.values[a.index].ty.clone();
            let ghost ca = *self;
            let exit_arg = self.append_block_argument(exit_block, ty);
            let ghost cb = *self;
            proof {
                lemma_context_caches_same(&ca, &cb);
                assert(succs(&cb.region, latch as int) == succs(&ca.region, latch as int));
                assert(edge_ops(&cb.region, latch as int, eidx as int) == edge_ops(&ca.region, latch as int, eidx as int));
            }
            push_edge_operand(&mut self.region, latch, eidx, a);
            let ghost cc = *self;
            proof {
                lemma_context_wf(&cb, &cc);
                assert(exit_arg != a);
            }
            self.replace_uses_outside(a, exit_arg, loop_blocks);
            proof {
                let r = &self.region;
                let it1 = header_ops@.take(k as int);
                let it2 = header_ops@.take(k + 1);
                assert(it2 =~= it1.push(a));
                assert(!lbs.contains(exit_block));
                assert(lbs.contains(latch));
                // From the start of this step to just before the replacement.
                assert forall|b: int| 0 <= b < n implies #[trigger] succs(&cc.region, b) == succs(&ca.region, b) by {
                    assert(succs(&cb.region, b) == succs(&ca.region, b));
                }
                assert(same_graph(&cc.region, &ca.region));
                assert forall|e: Edge| #[trigger] is_edge(&ca.region.cfg, e) && target(&ca.region.cfg, e) == latch
                    implies edge_extends(&ca.region, &cc.region, e.from_block as int, e.successor_index as int) by {
                    lemma_same_edges(&ca.region, &r0, e);
                    assert(e.from_block != latch || e.successor_index != eidx);
                    assert(edge_ops(&cb.region, e.from_block as int, e.successor_index as int) == edge_ops(&ca.region, e.from_block as int, e.successor_index as int));
                }
                assert forall|i: int| 0 <= i < ca.region.values@.len() implies #[trigger] cc.region.values@[i] == ca.region.values@[i] by {}
                lemma_stands_kept(&ca.region, &cc.region, latch);
                assert(same_graph(&ca.region, &r0));
                assert forall|b: int, s2: int| 0 <= b < n && !lbs.contains(b as usize) && 0 <= s2 < succs(&r0, b).len()
                    implies #[trigger] edge_extends(&ca.region, &cc.region, b, s2) by {
                    assert(b != latch);
                    assert(edge_ops(&cb.region, b, s2) == edge_ops(&ca.region, b, s2));
                }
                assert forall|b: int| 0 <= b < n && !lbs.contains(b as usize) implies #[trigger] cc.region.terminators@[b] == ca.region.terminators@[b] by {}
                assert(block_args(&cc.region, exit_block as int) == block_args(&ca.region, exit_block as int).push(exit_arg));
                lemma_outside_kept(&r0, &ca.region, &cc.region, lbs, exit_block, latch, it1, it2);
                // The replacement.
                assert forall|b: int| 0 <= b < n implies #[trigger] succs(r, b) == succs(&cc.region, b) by {}
                assert forall|e: Edge| #[trigger] is_edge(&cc.region.cfg, e) && target(&cc.region.cfg, e) == latch
                    implies edge_extends(&cc.region, r, e.from_block as int, e.successor_index as int) by {
                    lemma_same_edges(&cc.region, &r0, e);
                    assert(lbs.contains(e.from_block));
                }
                lemma_stands_kept(&cc.region, r, latch);
                assert forall|q2: int| 0 <= q2 < block_args(&cc.region, exit_block as int).len()
                    implies #[trigger] block_args(&cc.region, exit_block as int)[q2] != a by {
                    assert(valid_value(&r0, edge_ops(&r0, latch as int, hidx as int)[k as int]));
                    if q2 < k {
                        assert(block_args(&cc.region, exit_block as int)[q2] == block_args(&ca.region, exit_block as int)[q2]);
                    }
                }
                assert(same_graph(&cc.region, &r0));
                lemma_outside_replace(&r0, &cc.region, r, lbs, exit_block, latch, it2, a, exit_arg, k as int);
                assert forall|q: int| 0 <= q < k + 1 implies (#[trigger] block_args(r, exit_block as int)[q]).index >= r0.values@.len() by {
                    if q < k {
                        assert(block_args(r, exit_block as int)[q] == block_args(&ca.region, exit_block as int)[q]);
                    }
                }
                assert(block_args(&cb.region, latch as int) == block_args(&ca.region, latch as int));
                assert forall|e: Edge| #[trigger] is_edge(&r0.cfg, e) && target(&r0.cfg, e) == latch
                    implies edge_ops(r, e.from_block as int, e.successor_index as int) == edge_ops(&r0, e.from_block as int, e.successor_index as int) by {
                    assert(lbs.contains(e.from_block));
                    assert(e.from_block != latch || e.successor_index != eidx);
                    assert(edge_ops(&cb.region, e.from_block as int, e.successor_index as int) == edge_ops(&ca.region, e.from_block as int, e.successor_index as int));
                }
                lemma_caches_extend_trans(&c0, &ca, &cb);
                lemma_caches_extend_trans(&c0, &cb, &cc);
                lemma_caches_extend_trans(&c0, &cc, self);
                assert forall|b: int| 0 <= b < n implies #[trigger] succs(r, b) == succs(&r0, b) by {
                    assert(succs(&ca.region, b) == succs(&r0, b));
                    assert(succs(&cb.region, b) == succs(&ca.region, b));
                }
                assert forall|i: int| 0 <= i < r0.values@.len() implies #[trigger] r.values@[i] == r0.values@[i] by {
                    assert(ca.region.values@[i] == r0.values@[i]);
                    assert(cb.region.values@[i] == ca.region.values@[i]);
                }
                assert(edge_ops(&cb.region, latch as int, hidx as int) == edge_ops(&ca.region, latch as int, hidx as int));
                assert(edge_ops(&cc.region, latch as int, hidx as int) == edge_ops(&cb.region, latch as int, hidx as int));
                assert(header_ops@.take(k + 1) =~= header_ops@.take(k as int).push(a));
                assert(block_args(r, exit_block as int) == block_args(&ca.region, exit_block as int).push(exit_arg));
                assert forall|q: int| 0 <= q < k + 1 implies #[trigger] value_type(r, block_args(r, exit_block as int)[q])
                    == value_type(r, header_ops@[q]) by {
                    let xq = block_args(r, exit_block as int)[q];
                    let aq = header_ops@[q];
                    assert(valid_value(&r0, edge_ops(&r0, latch as int, hidx as int)[q]));
                    assert(ca.region.values@[aq.index as int] == r0.values@[aq.index as int]);
                    assert(r.values@[aq.index as int] == ca.region.values@[aq.index as int]);
                    if q < k {
                        assert(xq == block_args(&ca.region, exit_block as int)[q]);
                        assert(valid_value(&ca.region, xq));
                        assert(r.values@[xq.index as int] == ca.region.values@[xq.index as int]);
                        assert(value_type(&ca.region, block_args(&ca.region, exit_block as int)[q]) == value_type(&ca.region, header_ops@[q]));
                    } else {
                        assert(xq == exit_arg);
                        assert(r.values@ == cb.region.values@);
                        assert(cb.region.values@[exit_arg.index as int].ty == ty);
                    }
                }
                assert(block_args(&cb.region, loop_header as int) == block_args(&ca.region, loop_header as int));
                assert forall|e: Edge| #[trigger] is_edge(&r0.cfg, e) && target(&r0.cfg, e) == loop_header && e.from_block != latch
                    implies edge_ops(r, e.from_block as int, e.successor_index as int).len()
                        == edge_ops(&r0, e.from_block as int, e.successor_index as int).len() by {
                    let b = e.from_block as int;
                    let s2 = e.successor_index as int;
                    assert(succs(&ca.region, b) == succs(&r0, b));
                    assert(edge_ops(&cb.region, b, s2) == edge_ops(&ca.region, b, s2));
                    assert(edge_ops(&cc.region, b, s2) == edge_ops(&cb.region, b, s2));
                }
            }
            k = k + 1;
        }
        proof {
            assert(header_ops@.take(k as int) =~= header_ops@);
        }
        header_ops
    }
}

impl TransformationContext {
    /// Keep each value defined in a loop block from escaping the loop, going over the loop
    /// blocks in order and over the values there were before, in order.
    #[verifier::rlimit(60)]
    fn escape_loop_values(
        &mut self,
        loop_header: usize,
        exit_block: usize,
        loop_blocks: &[usize],
        latch: usize,
        hidx: usize,
        dominance: &[Vec<bool>],
        iteration_values: &mut Vec<ValueRef>,
        Ghost(rs): Ghost<Region>,
    )
        requires
            old(self).wf(),
            latch_shape(&old(self).region, loop_header, exit_block, loop_blocks@, latch, hidx),
            dominance_ok(dominance@, num_blocks(&old(self).region)),
            outside_uses_replaced(&rs, &old(self).region, loop_blocks@, exit_block, latch, old(iteration_values)@),
            same_graph(&old(self).region, &rs),
            latch_entries_match(&old(self).region, loop_header, latch),
            edge_ops(&old(self).region, latch as int, hidx as int) == old(iteration_values)@,
            edge_ops(&old(self).region, latch as int, 1 - hidx) == old(iteration_values)@,
            block_args(&old(self).region, exit_block as int).len() == old(iteration_values)@.len(),
            block_args(&old(self).region, loop_header as int).len() == old(iteration_values)@.len(),
            forall|q: int| 0 <= q < old(iteration_values)@.len() ==> #[trigger] value_type(&old(self).region, block_args(&old(self).region, exit_block as int)[q])
                == value_type(&old(self).region, old(iteration_values)@[q]),
        ensures
            final(self).wf(),
            final(self).caches_extend(old(self)),
            final(self).entry == old(self).entry,
            same_graph(&final(self).region, &old(self).region),
            final(self).region.values@.len() >= old(self).region.values@.len(),
            forall|i: int| 0 <= i < old(self).region.values@.len() ==> #[trigger] final(self).region.values@[i] == old(self).region.values@[i],
            edge_ops(&final(self).region, latch as int, hidx as int) == final(iteration_values)@,
            edge_ops(&final(self).region, latch as int, 1 - hidx) == final(iteration_values)@,
            block_args(&final(self).region, exit_block as int).len() == final(iteration_values)@.len(),
            block_args(&final(self).region, loop_header as int).len() == final(iteration_values)@.len(),
            forall|q: int| 0 <= q < final(iteration_values)@.len() ==> #[trigger] value_type(&final(self).region, block_args(&final(self).region, exit_block as int)[q])
                == value_type(&final(self).region, final(iteration_values)@[q]),
            forall|e: Edge| #[trigger] is_edge(&old(self).region.cfg, e) && target(&old(self).region.cfg, e) == loop_header && e.from_block != latch
                ==> edge_ops(&final(self).region, e.from_block as int, e.successor_index as int).len()
                    == edge_ops(&old(self).region, e.from_block as int, e.successor_index as int).len(),
            values_stay_inside(&final(self).region, loop_blocks@),
            outside_uses_replaced(&rs, &final(self).region, loop_blocks@, exit_block, latch, final(iteration_values)@),
            latch_entries_match(&final(self).region, loop_header, latch),
    {
        let ghost c0 = *self;
        let ghost r0 = self.region;
        let ghost n = num_blocks(&r0);
        let ghost lbs = loop_blocks@;
        let nv = self.region.values.len();
        proof {
            lemma_context_caches_same(&c0, self);
        }
        let mut j: usize = 0;
        while j < loop_blocks.len()
            invariant
                self.wf(),
                self.caches_extend(&c0),
                self.entry == c0.entry,
                r0 == c0.region,
                n == num_blocks(&r0),
                lbs == loop_blocks@,
                nv == r0.values@.len(),
                same_graph(&self.region, &r0),
                latch_shape(&r0, loop_header, exit_block, lbs, latch, hidx),
                dominance_ok(dominance@, n),
                j <= lbs.len(),
                self.region.values@.len() >= nv,
                forall|i: int| 0 <= i < nv ==> #[trigger] self.region.values@[i] == r0.values@[i],
                edge_ops(&self.region, latch as int, hidx as int) == iteration_values@,
                edge_ops(&self.region, latch as int, 1 - hidx) == iteration_values@,
                block_args(&self.region, exit_block as int).len() == iteration_values@.len(),
                block_args(&self.region, loop_header as int).len() == iteration_values@.len(),
                forall|q: int| 0 <= q < iteration_values@.len() ==> #[trigger] value_type(&self.region, block_args(&self.region, exit_block as int)[q])
                    == value_type(&self.region, iteration_values@[q]),
                forall|e: Edge| #[trigger] is_edge(&r0.cfg, e) && target(&r0.cfg, e) == loop_header && e.from_block != latch
                    ==> edge_ops(&self.region, e.from_block as int, e.successor_index as int).len()
                        == edge_ops(&r0, e.from_block as int, e.successor_index as int).len(),
                forall|x: ValueRef| valid_value(&self.region, x) && #[trigger] defined_in(&self.region, x, lbs)
                    && (x.index >= nv || defined_in(&self.region, x, lbs.take(j as int)))
                    ==> !used_outside(&self.region, lbs, x),
                outside_uses_replaced(&rs, &self.region, lbs, exit_block, latch, iteration_values@),
                same_graph(&self.region, &rs),
                latch_entries_match(&self.region, loop_header, latch),
            decreases lbs.len() - j,
        {
            let lb = loop_blocks[j];
            let mut i: usize = 0;
            while i < nv
                invariant
                    self.wf(),
                    self.caches_extend(&c0),
                    self.entry == c0.entry,
                    r0 == c0.region,
                    n == num_blocks(&r0),
                    lbs == loop_blocks@,
                    nv == r0.values@.len(),
                    same_graph(&self.region, &r0),
                    latch_shape(&r0, loop_header, exit_block, lbs, latch, hidx),
                    dominance_ok(dominance@, n),
                    j < lbs.len(),
                    lb == lbs[j as int],
                    i <= nv,
                    self.region.values@.len() >= nv,
                    forall|i2: int| 0 <= i2 < nv ==> #[trigger] self.region.values@[i2] == r0.values@[i2],
                    edge_ops(&self.region, latch as int, hidx as int) == iteration_values@,
                    edge_ops(&self.region, latch as int, 1 - hidx) == iteration_values@,
                    block_args(&self.region, exit_block as int).len() == iteration_values@.len(),
                    block_args(&self.region, loop_header as int).len() == iteration_values@.len(),
                    forall|q: int| 0 <= q < iteration_values@.len() ==> #[trigger] value_type(&self.region, block_args(&self.region, exit_block as int)[q])
                        == value_type(&self.region, iteration_values@[q]),
                    forall|e: Edge| #[trigger] is_edge(&r0.cfg, e) && target(&r0.cfg, e) == loop_header && e.from_block != latch
                        ==> edge_ops(&self.region, e.from_block as int, e.successor_index as int).len()
                            == edge_ops(&r0, e.from_block as int, e.successor_index as int).len(),
                    forall|x: ValueRef| valid_value(&self.region, x) && #[trigger] defined_in(&self.region, x, lbs)
                        && (x.index >= nv || defined_in(&self.region, x, lbs.take(j as int)) || (defining_block(&self.region, x) == Some(lb) && x.index < i))
                        ==> !used_outside(&self.region, lbs, x),
                    outside_uses_replaced(&rs, &self.region, lbs, exit_block, latch, iteration_values@),
                    same_graph(&self.region, &rs),
                    latch_entries_match(&self.region, loop_header, latch),
                decreases nv - i,
            {
                let v = ValueRef { index: i };
                let in_lb = match &self.region.values[i].def {
                    ValueDef::Arg { block, .. } => *block == lb,
                    ValueDef::BlockResult(block) => *block == lb,
                    _ => false,
                };
                proof {
                    assert(in_lb == (defining_block(&self.region, v) == Some(lb)));
                }
                if in_lb && is_used_outside(&self.region, loop_blocks, v) {
                    let ghost cb = *self;
                    let ghost itb = iteration_values@;
                    proof {
                        assert(lbs.contains(lb)) by {
                            assert(lbs[j as int] == lb);
                        }
                        assert forall|b: int| 0 <= b < n implies #[trigger] succs(&cb.region, b) == succs(&r0, b) by {}
                        assert(latch_shape(&cb.region, loop_header, exit_block, lbs, latch, hidx)) by {
                            assert forall|e: Edge| #[trigger] is_edge(&cb.region.cfg, e) && target(&cb.region.cfg, e) == latch
                                implies lbs.contains(e.from_block) by {
                                lemma_same_edges(&cb.region, &r0, e);
                            }
                        }
                    }
                    self.escape_loop_value(v, lb, loop_header, exit_block, loop_blocks, latch, hidx, dominance, iteration_values, Ghost(rs));
                    proof {
                        let r = &self.region;
                        lemma_caches_extend_trans(&c0, &cb, self);
                        assert forall|b: int| 0 <= b < n implies #[trigger] succs(r, b) == succs(&r0, b) by {
                            assert(succs(&cb.region, b) == succs(&r0, b));
                        }
                        assert forall|b: int| 0 <= b < n implies #[trigger] succs(r, b) == succs(&rs, b) by {
                            assert(succs(&cb.region, b) == succs(&r0, b));
                            assert(succs(&cb.region, b) == succs(&rs, b));
                        }
                        assert forall|i2: int| 0 <= i2 < nv implies #[trigger] r.values@[i2] == r0.values@[i2] by {
                            assert(cb.region.values@[i2] == r0.values@[i2]);
                        }
                        assert forall|q: int| 0 <= q < iteration_values@.len() implies #[trigger] value_type(r, block_args(r, exit_block as int)[q])
                            == value_type(r, iteration_values@[q]) by {
                            if q < itb.len() {
                                let xq = block_args(&cb.region, exit_block as int)[q];
                                assert(block_args(r, exit_block as int)[q] == xq) by {
                                    assert(block_args(r, exit_block as int).drop_last()[q] == xq);
                                }
                                assert(iteration_values@[q] == itb[q]) by {
                                    assert(iteration_values@.drop_last()[q] == itb[q]);
                                }
                                assert(valid_value(&cb.region, xq));
                                assert(valid_value(&cb.region, edge_ops(&cb.region, latch as int, hidx as int)[q]));
                                assert(value_type(&cb.region, block_args(&cb.region, exit_block as int)[q]) == value_type(&cb.region, itb[q]));
                                assert(r.values@[xq.index as int] == cb.region.values@[xq.index as int]);
                                assert(r.values@[itb[q].index as int] == cb.region.values@[itb[q].index as int]);
                            }
                        }
                        assert forall|e: Edge| #[trigger] is_edge(&r0.cfg, e) && target(&r0.cfg, e) == loop_header && e.from_block != latch
                            implies edge_ops(r, e.from_block as int, e.successor_index as int).len()
                                == edge_ops(&r0, e.from_block as int, e.successor_index as int).len() by {
                            lemma_same_edges(&cb.region, &r0, e);
                        }
                        assert forall|x: ValueRef| valid_value(r, x) && #[trigger] defined_in(r, x, lbs)
                            && (x.index >= nv || defined_in(r, x, lbs.take(j as int)) || (defining_block(r, x) == Some(lb) && x.index < i + 1))
                            implies !used_outside(r, lbs, x) by {
                            if x != v {
                                if x.index < cb.region.values@.len() {
                                    assert(r.values@[x.index as int] == cb.region.values@[x.index as int]);
                                    assert(defined_in(&cb.region, x, lbs));
                                    if x.index < nv {
                                        assert(defining_block(&cb.region, x) == defining_block(r, x));
                                        assert(defined_in(&cb.region, x, lbs.take(j as int)) == defined_in(r, x, lbs.take(j as int)));
                                    }
                                    assert(!used_outside(&cb.region, lbs, x));
                                    if used_outside(r, lbs, x) {
                                        let b = choose|b: int| 0 <= b < num_blocks(r) && !lbs.contains(b as usize) && #[trigger] used_in_block(r, b, x);
                                        assert(used_in_block(&cb.region, b, x));
                                    }
                                } else {
                                    if used_outside(r, lbs, x) {
                                        let b = choose|b: int| 0 <= b < num_blocks(r) && !lbs.contains(b as usize) && #[trigger] used_in_block(r, b, x);
                                        if used_in_block(&cb.region, b, x) {
                                            lemma_used_valid(&cb.region, b, x);
                                        }
                                    }
                                }
                            }
                        }
                    }
                }
                i = i + 1;
            }
            proof {
                let r = &self.region;
                assert forall|x: ValueRef| valid_value(r, x) && #[trigger] defined_in(r, x, lbs)
                    && (x.index >= nv || defined_in(r, x, lbs.take(j + 1)))
                    implies !used_outside(r, lbs, x) by {
                    if x.index < nv {
                        let b = defining_block(r, x)->0;
                        lemma_take_contains(lbs, j as int, b);
                    }
                }
            }
            j = j + 1;
        }
        proof {
            let r = &self.region;
            assert(lbs.take(j as int) =~= lbs);
            assert forall|x: ValueRef| valid_value(r, x) && #[trigger] defined_in(r, x, lbs) implies !used_outside(r, lbs, x) by {
                assert(defined_in(r, x, lbs.take(j as int)));
            }
        }
    }
}

/// After `u` is passed along one more edge, a block uses what it used before, or `u`.
proof fn lemma_push_uses(r0: &Region, r1: &Region, b0: int, s0: int, u: ValueRef, b: int, x: ValueRef)
    requires
        r1.cfg == r0.cfg,
        r1.terminators == r0.terminators,
        0 <= b0 < num_blocks(r0),
        0 <= s0 < succs(r0, b0).len(),
        edge_ops(r1, b0, s0) == edge_ops(r0, b0, s0).push(u),
        forall|b2: int, s2: int| 0 <= b2 < num_blocks(r0) && 0 <= s2 < succs(r0, b2).len() && (b2 != b0 || s2 != s0)
            ==> #[trigger] edge_ops(r1, b2, s2) == edge_ops(r0, b2, s2),
        0 <= b < num_blocks(r0),
        used_in_block(r1, b, x),
        x != u,
    ensures
        used_in_block(r0, b, x),
{
    if exists|s: int| 0 <= s < succs(r1, b).len() && #[trigger] edge_ops(r1, b, s).contains(x) {
        let s = choose|s: int| 0 <= s < succs(r1, b).len() && #[trigger] edge_ops(r1, b, s).contains(x);
        if b == b0 && s == s0 {
            let k = choose|k: int| 0 <= k < edge_ops(r1, b, s).len() && edge_ops(r1, b, s)[k] == x;
            assert(edge_ops(r0, b, s)[k] == x);
            assert(edge_ops(r0, b, s).contains(x));
        } else {
            assert(edge_ops(r0, b, s) == edge_ops(r1, b, s));
        }
    }
}

impl TransformationContext {
    /// Have each edge into the loop header, but those from the latch, pass a poison value of
    /// the right type for each header argument it passes nothing for.
    #[verifier::rlimit(80)]
    fn pad_header_entries(&mut self, loop_header: usize, latch: usize, loop_blocks: &[usize])
        requires
            old(self).wf(),
            loop_header < num_blocks(&old(self).region),
            values_stay_inside(&old(self).region, loop_blocks@),
        ensures
            final(self).wf(),
            final(self).caches_extend(old(self)),
            final(self).entry == old(self).entry,
            same_graph(&final(self).region, &old(self).region),
            forall|b: int| 0 <= b < num_blocks(&old(self).region) ==> #[trigger] block_args(&final(self).region, b) == block_args(&old(self).region, b),
            final(self).region.values@.len() >= old(self).region.values@.len(),
            forall|i: int| 0 <= i < old(self).region.values@.len() ==> #[trigger] final(self).region.values@[i] == old(self).region.values@[i],
            forall|e: Edge| #[trigger] is_edge(&old(self).region.cfg, e) && target(&old(self).region.cfg, e) == loop_header && e.from_block != latch
                ==> header_entry_padded(&old(self).region, &final(self).region, e, loop_header),
            forall|e: Edge| #[trigger] is_edge(&old(self).region.cfg, e) && !(target(&old(self).region.cfg, e) == loop_header && e.from_block != latch)
                ==> edge_ops(&final(self).region, e.from_block as int, e.successor_index as int)
                    == edge_ops(&old(self).region, e.from_block as int, e.successor_index as int),
            values_stay_inside(&final(self).region, loop_blocks@),
            forall|b: int| 0 <= b < num_blocks(&old(self).region) ==> #[trigger] final(self).region.terminators@[b] == old(self).region.terminators@[b],
            forall|b: int, s: int| 0 <= b < num_blocks(&old(self).region) && 0 <= s < succs(&old(self).region, b).len()
                ==> #[trigger] edge_extends(&old(self).region, &final(self).region, b, s),
    {
        let ghost c0 = *self;
        let ghost r0 = self.region;
        let ghost n = num_blocks(&r0);
        let ghost lbs = loop_blocks@;
        let preds = edges_into(&self.region, loop_header);
        let hl = self.region.args[loop_header].len();
        proof {
            lemma_context_caches_same(&c0, self);
        }
        let mut q: usize = 0;
        while q < preds.len()
            invariant
                self.wf(),
                self.caches_extend(&c0),
                self.entry == c0.entry,
                r0 == c0.region,
                n == num_blocks(&r0),
                lbs == loop_blocks@,
                loop_header < n,
                hl == block_args(&r0, loop_header as int).len(),
                forall|e: Edge| #[trigger] preds@.contains(e) <==> is_edge(&r0.cfg, e) && target(&r0.cfg, e) == loop_header,
                q <= preds@.len(),
                same_graph(&self.region, &r0),
                forall|b: int| 0 <= b < n ==> #[trigger] block_args(&self.region, b) == block_args(&r0, b),
                forall|b: int| 0 <= b < n ==> #[trigger] self.region.terminators@[b] == r0.terminators@[b],
                self.region.values@.len() >= r0.values@.len(),
                forall|i: int| 0 <= i < r0.values@.len() ==> #[trigger] self.region.values@[i] == r0.values@[i],
                forall|e: Edge| #[trigger] is_edge(&r0.cfg, e) && target(&r0.cfg, e) == loop_header && e.from_block != latch
                    ==> if preds@.take(q as int).contains(e) { header_entry_padded(&r0, &self.region, e, loop_header) }
                        else { edge_ops(&self.region, e.from_block as int, e.successor_index as int) == edge_ops(&r0, e.from_block as int, e.successor_index as int) },
                forall|e: Edge| #[trigger] is_edge(&r0.cfg, e) && !(target(&r0.cfg, e) == loop_header && e.from_block != latch)
                    ==> edge_ops(&self.region, e.from_block as int, e.successor_index as int)
                        == edge_ops(&r0, e.from_block as int, e.successor_index as int),
                values_stay_inside(&self.region, lbs),
                forall|b: int, s: int| 0 <= b < n && 0 <= s < succs(&r0, b).len() ==> #[trigger] edge_extends(&r0, &self.region, b, s),
            decreases preds@.len() - q,
        {
            let e = preds[q];
            proof {
                assert(preds@.contains(e));
                assert forall|f: Edge| #[trigger] preds@.take(q + 1).contains(f) <==> preds@.take(q as int).contains(f) || f == e by {
                    let t1 = preds@.take(q + 1);
                    let t0 = preds@.take(q as int);
                    if t1.contains(f) {
                        let k = choose|k: int| 0 <= k < t1.len() && t1[k] == f;
                        if k < q {
                            assert(t0[k] == f);
                        }
                    }
                    if t0.contains(f) {
                        let k = choose|k: int| 0 <= k < t0.len() && t0[k] == f;
                        assert(t1[k] == f);
                    }
                    if f == e {
                        assert(t1[q as int] == e);
                    }
                }
            }
            let ghost cq = *self;
            if e.from_block != latch {
                let ghost o = edge_ops(&r0, e.from_block as int, e.successor_index as int).len();
                proof {
                    assert(succs(&self.region, e.from_block as int) == succs(&r0, e.from_block as int));
                    if preds@.take(q as int).contains(e) {
                        assert(header_entry_padded(&r0, &self.region, e, loop_header));
                    }
                }
                while self.region.operands[e.from_block][e.successor_index].len() < hl
                    invariant
                        self.wf(),
                        self.caches_extend(&c0),
                        self.entry == c0.entry,
                        r0 == c0.region,
                        n == num_blocks(&r0),
                        lbs == loop_blocks@,
                        loop_header < n,
                        hl == block_args(&r0, loop_header as int).len(),
                        is_edge(&r0.cfg, e),
                        target(&r0.cfg, e) == loop_header,
                        e.from_block != latch,
                        o == edge_ops(&r0, e.from_block as int, e.successor_index as int).len(),
                        same_graph(&self.region, &r0),
                        forall|b: int| 0 <= b < n ==> #[trigger] block_args(&self.region, b) == block_args(&r0, b),
                        forall|b: int| 0 <= b < n ==> #[trigger] self.region.terminators@[b] == r0.terminators@[b],
                        self.region.values@.len() >= cq.region.values@.len(),
                        cq.region.values@.len() >= r0.values@.len(),
                        forall|i: int| 0 <= i < cq.region.values@.len() ==> #[trigger] self.region.values@[i] == cq.region.values@[i],
                        forall|i: int| 0 <= i < r0.values@.len() ==> #[trigger] cq.region.values@[i] == r0.values@[i],
                        ({
                            let f = edge_ops(&self.region, e.from_block as int, e.successor_index as int);
                            &&& f.len() == o || (o < f.len() <= hl)
                            &&& forall|k: int| o <= k < f.len() ==> #[trigger] value_def(&self.region, f[k])
                                == ValueDef::Constant(ConstantDef::Poison(value_type(&self.region, block_args(&self.region, loop_header as int)[k])))
                        }),
                        forall|f: Edge| #[trigger] is_edge(&r0.cfg, f) && f != e
                            ==> edge_ops(&self.region, f.from_block as int, f.successor_index as int) == edge_ops(&cq.region, f.from_block as int, f.successor_index as int),
                        values_stay_inside(&self.region, lbs),
                        forall|b: int, s: int| 0 <= b < n && 0 <= s < succs(&r0, b).len() ==> #[trigger] edge_extends(&r0, &self.region, b, s),
                    decreases hl - self.region.operands@[e.from_block as int]@[e.successor_index as int]@.len(),
                {
                    let idx = self.region.operands[e.from_block][e.successor_index].len();
                    proof {
                        assert(block_args(&self.region, loop_header as int) == block_args(&r0, loop_header as int));
                    }
                    let a = self.region.args[loop_header][idx];
                    proof {
                        assert(valid_value(&self.region, a));
                    }
                    let ty = self.region.values[a.index].ty.clone();
                    let ghost cu0 = *self;
                    let u = self.get_undef_value(&ty);
                    let ghost cu = *self;
                    proof {
                        lemma_caches_extend_trans(&c0, &cu0, &cu);
                        assert(succs(&cu.region, e.from_block as int) == succs(&r0, e.from_block as int)) by {
                            assert(succs(&cu0.region, e.from_block as int) == succs(&r0, e.from_block as int));
                        }
                    }
                    push_edge_operand(&mut self.region, e.from_block, e.successor_index, u);
                    proof {
                        let r = &self.region;
                        let fb = e.from_block as int;
                        let fs = e.successor_index as int;
                        lemma_context_wf(&cu, self);
                        lemma_caches_extend_trans(&c0, &cu, self);
                        assert forall|b: int| 0 <= b < n implies #[trigger] succs(r, b) == succs(&r0, b) by {
                            assert(succs(&cu0.region, b) == succs(&r0, b));
                            assert(succs(&cu.region, b) == succs(&cu0.region, b));
                        }
                        assert forall|b: int| 0 <= b < n implies #[trigger] block_args(r, b) == block_args(&r0, b) by {
                            assert(block_args(&cu0.region, b) == block_args(&r0, b));
                            assert(block_args(&cu.region, b) == block_args(&cu0.region, b));
                        }
                        assert forall|b: int| 0 <= b < n implies #[trigger] r.terminators@[b] == r0.terminators@[b] by {
                            assert(cu0.region.terminators@[b] == r0.terminators@[b]);
                            assert(cu.region.terminators@[b] == cu0.region.terminators@[b]);
                        }
                        assert forall|i: int| 0 <= i < cq.region.values@.len() implies #[trigger] r.values@[i] == cq.region.values@[i] by {
                            assert(cu0.region.values@[i] == cq.region.values@[i]);
                        }
                        let f0 = edge_ops(&cu0.region, fb, fs);
                        assert(edge_ops(&cu.region, fb, fs) == f0);
                        assert(idx == f0.len());
                        let f = edge_ops(r, fb, fs);
                        assert(f == f0.push(u));
                        assert(value_type(&cu0.region, a) == ty);
                        assert(r.values@[a.index as int] == cu0.region.values@[a.index as int]);
                        assert forall|k: int| o <= k < f.len() implies #[trigger] value_def(r, f[k])
                            == ValueDef::Constant(ConstantDef::Poison(value_type(r, block_args(r, loop_header as int)[k]))) by {
                            if k < f0.len() {
                                assert(f[k] == f0[k]);
                                assert(value_def(&cu0.region, f0[k]) == ValueDef::Constant(ConstantDef::Poison(value_type(&cu0.region, block_args(&cu0.region, loop_header as int)[k]))));
                                assert(valid_value(&cu0.region, f0[k]));
                                assert(r.values@[f0[k].index as int] == cu0.region.values@[f0[k].index as int]);
                                let ak = block_args(&cu0.region, loop_header as int)[k];
                                assert(valid_value(&cu0.region, ak));
                                assert(r.values@[ak.index as int] == cu0.region.values@[ak.index as int]);
                            } else {
                                assert(f[k] == u);
                                assert(block_args(r, loop_header as int)[k] == a);
                            }
                        }
                        assert forall|b: int, s2: int| 0 <= b < n && 0 <= s2 < succs(&r0, b).len() implies #[trigger] edge_extends(&r0, r, b, s2) by {
                            assert(edge_extends(&r0, &cu0.region, b, s2));
                            assert(succs(&cu0.region, b) == succs(&r0, b));
                            assert(edge_ops(&cu.region, b, s2) == edge_ops(&cu0.region, b, s2));
                            if b == fb && s2 == fs {
                                assert(edge_extends(&cu0.region, r, b, s2));
                            } else {
                                assert(edge_ops(r, b, s2) == edge_ops(&cu.region, b, s2));
                            }
                            lemma_extends_trans(&r0, &cu0.region, r, b, s2);
                        }
                        assert forall|g: Edge| #[trigger] is_edge(&r0.cfg, g) && g != e
                            implies edge_ops(r, g.from_block as int, g.successor_index as int) == edge_ops(&cq.region, g.from_block as int, g.successor_index as int) by {
                            lemma_same_edges(&r0, &cu0.region, g);
                            assert(edge_ops(&cu.region, g.from_block as int, g.successor_index as int) == edge_ops(&cu0.region, g.from_block as int, g.successor_index as int));
                        }
                        assert forall|x: ValueRef| valid_value(r, x) && #[trigger] defined_in(r, x, lbs) implies !used_outside(r, lbs, x) by {
                            assert(x != u) by {
                                if x == u {
                                    assert(value_def(r, u) == value_def(&cu.region, u));
                                }
                            }
                            if x.index < cu0.region.values@.len() {
                                assert(r.values@[x.index as int] == cu0.region.values@[x.index as int]);
                                assert(defined_in(&cu0.region, x, lbs));
                                assert(!used_outside(&cu0.region, lbs, x));
                                if used_outside(r, lbs, x) {
                                    let b = choose|b: int| 0 <= b < num_blocks(r) && !lbs.contains(b as usize) && #[trigger] used_in_block(r, b, x);
                                    lemma_push_uses(&cu.region, r, fb, fs, u, b, x);
                                    assert forall|s2: int| 0 <= s2 < succs(&cu.region, b).len() implies #[trigger] edge_ops(&cu.region, b, s2) == edge_ops(&cu0.region, b, s2) by {}
                                    lemma_block_uses_same(&cu.region, &cu0.region, b, x);
                                }
                            } else {
                                assert(cu.region.values@.len() == cu0.region.values@.len() + 1);
                                assert(x.index == cu0.region.values@.len());
                                assert(value_def(r, x) == value_def(&cu.region, x));
                            }
                        }
                    }
                }
            }
            proof {
                let r = &self.region;
                assert forall|f: Edge| #[trigger] is_edge(&r0.cfg, f) && target(&r0.cfg, f) == loop_header && f.from_block != latch
                    implies if preds@.take(q + 1).contains(f) { header_entry_padded(&r0, r, f, loop_header) }
                        else { edge_ops(r, f.from_block as int, f.successor_index as int) == edge_ops(&r0, f.from_block as int, f.successor_index as int) } by {
                    if f != e {
                        assert(edge_ops(r, f.from_block as int, f.successor_index as int) == edge_ops(&cq.region, f.from_block as int, f.successor_index as int));
                        if preds@.take(q as int).contains(f) {
                            assert(header_entry_padded(&r0, &cq.region, f, loop_header));
                            let g = edge_ops(r, f.from_block as int, f.successor_index as int);
                            let o2 = edge_ops(&r0, f.from_block as int, f.successor_index as int).len();
                            assert forall|k: int| o2 <= k < block_args(r, loop_header as int).len() implies #[trigger] value_def(r, g[k])
                                == ValueDef::Constant(ConstantDef::Poison(value_type(r, block_args(r, loop_header as int)[k]))) by {
                                assert(value_def(&cq.region, g[k]) == ValueDef::Constant(ConstantDef::Poison(value_type(&cq.region, block_args(&cq.region, loop_header as int)[k]))));
                                assert(valid_value(&cq.region, g[k]));
                                assert(r.values@[g[k].index as int] == cq.region.values@[g[k].index as int]);
                                let ak = block_args(&cq.region, loop_header as int)[k];
                                assert(valid_value(&cq.region, ak));
                                assert(r.values@[ak.index as int] == cq.region.values@[ak.index as int]);
                            }
                        }
                    }
                }
                assert forall|f: Edge| #[trigger] is_edge(&r0.cfg, f) && !(target(&r0.cfg, f) == loop_header && f.from_block != latch)
                    implies edge_ops(r, f.from_block as int, f.successor_index as int) == edge_ops(&r0, f.from_block as int, f.successor_index as int) by {
                    if e.from_block != latch {
                        assert(f != e);
                    }
                }
            }
            q = q + 1;
        }
        proof {
            assert(preds@.take(q as int) =~= preds@);
        }
    }
}
/// The shape of a loop depends on the region's graph alone.
proof fn lemma_latch_shape_same(r1: &Region, r2: &Region, loop_header: usize, exit_block: usize, loop_blocks: Seq<usize>, latch: usize, hidx: usize)
    requires
        same_graph(r1, r2),
        latch_shape(r1, loop_header, exit_block, loop_blocks, latch, hidx),
    ensures
        latch_shape(r2, loop_header, exit_block, loop_blocks, latch, hidx),
{
    assert(succs(r1, latch as int) == succs(r2, latch as int));
    assert forall|e: Edge| #[trigger] is_edge(&r2.cfg, e) && target(&r2.cfg, e) == latch implies loop_blocks.contains(e.from_block) by {
        lemma_same_edges(r1, r2, e);
    }
}

impl TransformationContext {
    /// Bring the structured loop with header `loop_header`, blocks `loop_blocks` and exit
    /// block `exit_block` into reduce form, given the region's dominance relation
    /// (`dominance[a][b]` holds when block `a` dominates block `b`): no value defined in the
    /// loop blocks is used outside them any more, each such use now using the exit block
    /// argument that takes the value passed back for it, and the exit block takes as arguments
    /// exactly the values the latch passes back to the loop header, which are given back.
    ///
    /// The exit block first gets one argument per operand of the back edge, which takes that
    /// operand's place outside the loop. Then each value defined in a loop block and still used
    /// outside the loop gets an exit block argument that takes its place there, and a loop
    /// header argument; the latch passes it, or, where the loop block does not dominate some
    /// block with an edge into the latch, a new latch argument standing for it, along both its
    /// edges. Last, each other edge into the loop header passes a poison value for each header
    /// argument it passes nothing for.
    pub fn transform_to_reduce_loop(
        &mut self,
        loop_header: usize,
        exit_block: usize,
        loop_blocks: &[usize],
        dominance: &[Vec<bool>],
    ) -> (iteration_values: Vec<ValueRef>)
        requires
            old(self).wf(),
            exists|latch: usize| reduce_ready(&old(self).region, loop_header, exit_block, loop_blocks@, latch),
            dominance_ok(dominance@, num_blocks(&old(self).region)),
            forall|a: int, b: int| 0 <= a < num_blocks(&old(self).region) && 0 <= b < num_blocks(&old(self).region)
                ==> #[trigger] dominance@[a]@[b] == dominates(&old(self).region, old(self).entry, a as usize, b as usize),
        ensures
            final(self).wf(),
            final(self).caches_extend(old(self)),
            final(self).entry == old(self).entry,
            same_graph(&final(self).region, &old(self).region),
            final(self).region.values@.len() >= old(self).region.values@.len(),
            forall|i: int| 0 <= i < old(self).region.values@.len() ==> #[trigger] final(self).region.values@[i] == old(self).region.values@[i],
            values_stay_inside(&final(self).region, loop_blocks@),
            block_args(&final(self).region, exit_block as int).len() == iteration_values@.len(),
            block_args(&final(self).region, loop_header as int).len() == iteration_values@.len(),
            forall|q: int| 0 <= q < iteration_values@.len() ==> #[trigger] value_type(&final(self).region, block_args(&final(self).region, exit_block as int)[q])
                == value_type(&final(self).region, iteration_values@[q]),
            ({
                let latch = loop_latch(&old(self).region, exit_block);
                let hidx = header_edge_index(&old(self).region, latch, loop_header);
                &&& edge_ops(&final(self).region, latch as int, hidx as int) == iteration_values@
                &&& edge_ops(&final(self).region, latch as int, 1 - hidx) == iteration_values@
                &&& outside_uses_replaced(&old(self).region, &final(self).region, loop_blocks@, exit_block, latch, iteration_values@)
                &&& forall|e: Edge| #[trigger] is_edge(&old(self).region.cfg, e) && target(&old(self).region.cfg, e) == loop_header && e.from_block != latch
                    ==> header_entry_padded(&old(self).region, &final(self).region, e, loop_header)
            }),
    {
        let ghost c0 = *self;
        let ghost r0 = self.region;
        let ghost lbs = loop_blocks@;
        let ghost lg = choose|latch: usize| reduce_ready(&r0, loop_header, exit_block, lbs, latch);
        let into_exit = edges_into(&self.region, exit_block);
        proof {
            let e0 = choose|e: Edge| #[trigger] is_edge(&r0.cfg, e) && target(&r0.cfg, e) == exit_block && e.from_block == lg;
            assert(into_exit@.contains(e0));
            let p = loop_latch(&r0, exit_block);
            assert(sole_predecessor(&r0, exit_block, p));
            let ep = choose|e: Edge| #[trigger] is_edge(&r0.cfg, e) && target(&r0.cfg, e) == exit_block && e.from_block == p;
            assert(ep.from_block == lg);
        }
        let latch = into_exit[0].from_block;
        proof {
            assert(into_exit@.contains(into_exit@[0]));
            assert(latch == lg);
        }
        let hidx: usize = if self.region.cfg.successors[latch][0] == loop_header { 0 } else { 1 };
        proof {
            assert(hidx == header_edge_index(&r0, latch, loop_header));
        }
        let mut iteration_values = self.pass_iteration_values_to_exit(loop_header, exit_block, loop_blocks, latch, hidx);
        let ghost c3 = *self;
        proof {
            lemma_latch_shape_same(&r0, &c3.region, loop_header, exit_block, lbs, latch, hidx);
            assert forall|b: int| 0 <= b < num_blocks(&r0) implies #[trigger] succs(&r0, b) == succs(&c3.region, b) by {}
            assert(same_graph(&r0, &c3.region));
        }
        proof {
            assert forall|b: int| 0 <= b < num_blocks(&r0) implies #[trigger] succs(&c3.region, b) == succs(&r0, b) by {}
            assert(same_graph(&c3.region, &r0));
            assert(latch_entries_match(&c3.region, loop_header, latch)) by {
                if latch != loop_header {
                    assert forall|f: Edge| #[trigger] is_edge(&c3.region.cfg, f) && target(&c3.region.cfg, f) == latch
                        implies edge_ops(&c3.region, f.from_block as int, f.successor_index as int).len() == block_args(&c3.region, latch as int).len() by {
                        lemma_same_edges(&c3.region, &r0, f);
                    }
                }
            }
        }
        self.escape_loop_values(loop_header, exit_block, loop_blocks, latch, hidx, dominance, &mut iteration_values, Ghost(r0));
        let ghost c4 = *self;
        proof {
            assert forall|b: int| 0 <= b < num_blocks(&r0) implies #[trigger] succs(&c4.region, b) == succs(&r0, b) by {
                assert(succs(&c3.region, b) == succs(&r0, b));
            }
            assert(same_graph(&c4.region, &r0));
            lemma_caches_extend_trans(&c0, &c3, &c4);
        }
        self.pad_header_entries(loop_header, latch, loop_blocks);
        proof {
            let r = &self.region;
            lemma_caches_extend_trans(&c0, &c4, self);
            assert forall|b: int| 0 <= b < num_blocks(&r0) implies #[trigger] succs(&self.region, b) == succs(&c4.region, b) by {
                assert(succs(&c4.region, b) == succs(&r0, b));
            }
            assert forall|f: Edge| #[trigger] is_edge(&c4.region.cfg, f) && target(&c4.region.cfg, f) == latch
                implies edge_extends(&c4.region, &self.region, f.from_block as int, f.successor_index as int) by {
                lemma_same_edges(&c4.region, &r0, f);
            }
            assert forall|i: int| 0 <= i < c4.region.values@.len() implies #[trigger] self.region.values@[i] == c4.region.values@[i] by {}
            lemma_stands_kept(&c4.region, &self.region, latch);
            assert forall|b: int, s2: int| 0 <= b < num_blocks(&r0) && !lbs.contains(b as usize) && 0 <= s2 < succs(&r0, b).len()
                implies #[trigger] edge_extends(&c4.region, &self.region, b, s2) by {
                assert(succs(&c4.region, b) == succs(&r0, b));
            }
            assert(block_args(&self.region, exit_block as int) == block_args(&c4.region, exit_block as int));
            lemma_outside_kept(&r0, &c4.region, &self.region, lbs, exit_block, latch, iteration_values@, iteration_values@);
            assert forall|b: int| 0 <= b < num_blocks(&r0) implies #[trigger] succs(r, b) == succs(&r0, b) by {
                assert(succs(&c4.region, b) == succs(&r0, b));
            }
            assert forall|i: int| 0 <= i < r0.values@.len() implies #[trigger] r.values@[i] == r0.values@[i] by {
                assert(c3.region.values@[i] == r0.values@[i]);
                assert(c4.region.values@[i] == c3.region.values@[i]);
            }
            let le = Edge { from_block: latch, successor_index: hidx };
            let lx = Edge { from_block: latch, successor_index: (1 - hidx) as usize };
            lemma_same_edges(&c4.region, &r0, le);
            lemma_same_edges(&c4.region, &r0, lx);
            assert(edge_ops(r, latch as int, hidx as int) == edge_ops(&c4.region, latch as int, hidx as int));
            assert(edge_ops(r, latch as int, 1 - hidx) == edge_ops(&c4.region, latch as int, 1 - hidx));
            assert(block_args(r, exit_block as int) == block_args(&c4.region, exit_block as int));
            assert(block_args(r, loop_header as int) == block_args(&c4.region, loop_header as int));
            assert forall|q: int| 0 <= q < iteration_values@.len() implies #[trigger] value_type(r, block_args(r, exit_block as int)[q])
                == value_type(r, iteration_values@[q]) by {
                let xq = block_args(&c4.region, exit_block as int)[q];
                assert(valid_value(&c4.region, xq));
                assert(r.values@[xq.index as int] == c4.region.values@[xq.index as int]);
                assert(valid_value(&c4.region, edge_ops(&c4.region, latch as int, hidx as int)[q]));
                assert(r.values@[iteration_values@[q].index as int] == c4.region.values@[iteration_values@[q].index as int]);
                assert(value_type(&c4.region, block_args(&c4.region, exit_block as int)[q]) == value_type(&c4.region, iteration_values@[q]));
            }
            assert forall|e: Edge| #[trigger] is_edge(&r0.cfg, e) && target(&r0.cfg, e) == loop_header && e.from_block != latch
                implies header_entry_padded(&r0, r, e, loop_header) by {
                lemma_same_edges(&c4.region, &r0, e);
                lemma_same_edges(&c3.region, &r0, e);
                assert(header_entry_padded(&c4.region, r, e, loop_header));
            }
        }
        iteration_values
    }
}

/// `w`, one of the values the latch passes back to the header, stands for `x`: it is `x`, or
/// it is an argument of the latch that every edge into the latch passes `x` or a poison value
/// for.
pub open spec fn stands_for(r: &Region, latch: usize, w: ValueRef, x: ValueRef) -> bool {
    ||| w == x
    ||| valid_value(r, w) && match value_def(r, w) {
        ValueDef::Arg { block, index } => block == latch && forall|e: Edge| #[trigger] is_edge(&r.cfg, e) && target(&r.cfg, e) == latch ==> {
            let o = edge_ops(r, e.from_block as int, e.successor_index as int);
            &&& index < o.len()
            &&& (o[index as int] == x || is_poison_value(r, o[index as int]))
        },
        _ => false,
    }
}

/// `x` is a poison value of `r`.
pub open spec fn is_poison_value(r: &Region, x: ValueRef) -> bool {
    valid_value(r, x) && value_def(r, x) matches ValueDef::Constant(ConstantDef::Poison(_))
}

/// Unless the latch is the loop header, every edge into the latch passes one operand per
/// argument of the latch.
pub open spec fn latch_entries_match(r: &Region, loop_header: usize, latch: usize) -> bool {
    latch != loop_header ==> forall|e: Edge| #[trigger] is_edge(&r.cfg, e) && target(&r.cfg, e) == latch
        ==> edge_ops(r, e.from_block as int, e.successor_index as int).len() == block_args(r, latch as int).len()
}

/// Operands added to an edge after operands added to it are added to it.
proof fn lemma_extends_trans(r1: &Region, r2: &Region, r3: &Region, b: int, s: int)
    requires
        edge_extends(r1, r2, b, s),
        edge_extends(r2, r3, b, s),
    ensures
        edge_extends(r1, r3, b, s),
{
    assert forall|k: int| 0 <= k < edge_ops(r1, b, s).len() implies #[trigger] edge_ops(r3, b, s)[k] == edge_ops(r1, b, s)[k] by {
        assert(edge_ops(r2, b, s)[k] == edge_ops(r1, b, s)[k]);
        assert(edge_ops(r3, b, s)[k] == edge_ops(r2, b, s)[k]);
    }
}

/// The first `q + 1` items of `s` are the first `q` and the `q`-th.
proof fn lemma_take_push<A>(s: Seq<A>, q: int)
    requires
        0 <= q < s.len(),
    ensures
        forall|f: A| #[trigger] s.take(q + 1).contains(f) <==> s.take(q).contains(f) || f == s[q],
{
    assert forall|f: A| #[trigger] s.take(q + 1).contains(f) <==> s.take(q).contains(f) || f == s[q] by {
        let t1 = s.take(q + 1);
        let t0 = s.take(q);
        if t1.contains(f) {
            let k = choose|k: int| 0 <= k < t1.len() && t1[k] == f;
            if k < q {
                assert(t0[k] == f);
            }
        }
        if t0.contains(f) {
            let k = choose|k: int| 0 <= k < t0.len() && t0[k] == f;
            assert(t1[k] == f);
        }
        if f == s[q] {
            assert(t1[q] == f);
        }
    }
}

/// A use of `x` outside the loop became a use of `y`: the same value, or the exit block
/// argument that takes the `q`-th value the latch passes back, which stands for `x`.
pub open spec fn use_replaced(r: &Region, exit_block: usize, latch: usize, it: Seq<ValueRef>, x: ValueRef, y: ValueRef) -> bool {
    ||| y == x
    ||| exists|q: int| 0 <= q < it.len() && q < block_args(r, exit_block as int).len()
        && y == #[trigger] block_args(r, exit_block as int)[q] && stands_for(r, latch, it[q], x)
}

/// The terminator `t1` uses what `t0` did, each use replaced as `use_replaced` allows.
pub open spec fn terminator_uses_replaced(t0: Terminator, t1: Terminator, r: &Region, exit_block: usize, latch: usize, it: Seq<ValueRef>) -> bool {
    match t0 {
        Terminator::CondBr { condition } => match t1 {
            Terminator::CondBr { condition: c1 } => use_replaced(r, exit_block, latch, it, condition, c1),
            _ => false,
        },
        Terminator::Switch { selector, case_values } => match t1 {
            Terminator::Switch { selector: s1, case_values: v1 } => v1 == case_values && use_replaced(r, exit_block, latch, it, selector, s1),
            _ => false,
        },
        Terminator::ReturnLike { kind, operands } => match t1 {
            Terminator::ReturnLike { kind: k1, operands: o1 } => k1 == kind && o1@.len() == operands@.len()
                && forall|k: int| 0 <= k < operands@.len() ==> #[trigger] use_replaced(r, exit_block, latch, it, operands@[k], o1@[k]),
            _ => false,
        },
        _ => t1 == t0,
    }
}

/// In `r`, from `r0`, each use by a block outside `blocks`, along an edge or in its
/// terminator, was kept or replaced as `use_replaced` allows; edges may have gained operands.
pub open spec fn outside_uses_replaced(r0: &Region, r: &Region, blocks: Seq<usize>, exit_block: usize, latch: usize, it: Seq<ValueRef>) -> bool {
    &&& forall|b: int, s: int| 0 <= b < num_blocks(r0) && !blocks.contains(b as usize) && 0 <= s < succs(r0, b).len()
        ==> (#[trigger] edge_ops(r, b, s)).len() >= edge_ops(r0, b, s).len()
    &&& forall|b: int, s: int, k: int| 0 <= b < num_blocks(r0) && !blocks.contains(b as usize) && 0 <= s < succs(r0, b).len()
        && 0 <= k < edge_ops(r0, b, s).len() ==> #[trigger] use_replaced(r, exit_block, latch, it, edge_ops(r0, b, s)[k], edge_ops(r, b, s)[k])
    &&& forall|b: int| 0 <= b < num_blocks(r0) && !blocks.contains(b as usize)
        ==> #[trigger] terminator_uses_replaced(r0.terminators@[b], r.terminators@[b], r, exit_block, latch, it)
}

/// The operands of the `s`-th edge of block `b` in `r2` are those of `r1`, maybe with more
/// after them.
pub open spec fn edge_extends(r1: &Region, r2: &Region, b: int, s: int) -> bool {
    let o1 = edge_ops(r1, b, s);
    let o2 = edge_ops(r2, b, s);
    o2.len() >= o1.len() && forall|k: int| 0 <= k < o1.len() ==> #[trigger] o2[k] == o1[k]
}

/// What `stands_for` says in `r1` it still says in `r2`, when `r2` keeps the graph and the
/// values of `r1` and only adds operands to the edges into the latch.
proof fn lemma_stands_kept(r1: &Region, r2: &Region, latch: usize)
    requires
        wf(r1),
        same_graph(r2, r1),
        r2.values@.len() >= r1.values@.len(),
        forall|i: int| 0 <= i < r1.values@.len() ==> #[trigger] r2.values@[i] == r1.values@[i],
        forall|e: Edge| #[trigger] is_edge(&r1.cfg, e) && target(&r1.cfg, e) == latch ==> {
            let o1 = edge_ops(r1, e.from_block as int, e.successor_index as int);
            let o2 = edge_ops(r2, e.from_block as int, e.successor_index as int);
            o2.len() >= o1.len() && forall|k: int| 0 <= k < o1.len() ==> #[trigger] o2[k] == o1[k]
        },
    ensures
        forall|w: ValueRef, x: ValueRef| #[trigger] stands_for(r1, latch, w, x) ==> stands_for(r2, latch, w, x),
{
    assert forall|w: ValueRef, x: ValueRef| #[trigger] stands_for(r1, latch, w, x) implies stands_for(r2, latch, w, x) by {
        if w != x {
            assert(r2.values@[w.index as int] == r1.values@[w.index as int]);
            match value_def(r1, w) {
                ValueDef::Arg { block, index } => {
                    assert forall|e: Edge| #[trigger] is_edge(&r2.cfg, e) && target(&r2.cfg, e) == latch implies {
                        let o = edge_ops(r2, e.from_block as int, e.successor_index as int);
                        &&& index < o.len()
                        &&& (o[index as int] == x || is_poison_value(r2, o[index as int]))
                    } by {
                        lemma_same_edges(r2, r1, e);
                        let o1 = edge_ops(r1, e.from_block as int, e.successor_index as int);
                        let o2 = edge_ops(r2, e.from_block as int, e.successor_index as int);
                        assert(o2[index as int] == o1[index as int]);
                        if o1[index as int] != x {
                            assert(r2.values@[o1[index as int].index as int] == r1.values@[o1[index as int].index as int]);
                            assert(is_poison_value(r2, o2[index as int]));
                        }
                    }
                },
                _ => {},
            }
        }
    }
}

/// A replacement allowed in `r1` stays allowed in `r2`, when `r2` keeps the exit block's
/// arguments and the values the latch passes back, adding to them, and what they stand for.
proof fn lemma_use_replaced_kept(r1: &Region, r2: &Region, exit_block: usize, latch: usize, it1: Seq<ValueRef>, it2: Seq<ValueRef>, x: ValueRef, y: ValueRef)
    requires
        use_replaced(r1, exit_block, latch, it1, x, y),
        it2.len() >= it1.len(),
        forall|q: int| 0 <= q < it1.len() ==> #[trigger] it2[q] == it1[q],
        block_args(r2, exit_block as int).len() >= block_args(r1, exit_block as int).len(),
        forall|q: int| 0 <= q < block_args(r1, exit_block as int).len() ==> #[trigger] block_args(r2, exit_block as int)[q] == block_args(r1, exit_block as int)[q],
        forall|w: ValueRef, z: ValueRef| #[trigger] stands_for(r1, latch, w, z) ==> stands_for(r2, latch, w, z),
    ensures
        use_replaced(r2, exit_block, latch, it2, x, y),
{
    if y != x {
        let q = choose|q: int| 0 <= q < it1.len() && q < block_args(r1, exit_block as int).len()
            && y == #[trigger] block_args(r1, exit_block as int)[q] && stands_for(r1, latch, it1[q], x);
        assert(stands_for(r2, latch, it1[q], x));
        assert(y == block_args(r2, exit_block as int)[q]);
    }
}

/// `outside_uses_replaced` carries over from `r1` to `r2` under the same conditions, when the
/// blocks outside keep their terminators and their edges only gain operands.
proof fn lemma_outside_kept(r0: &Region, r1: &Region, r2: &Region, blocks: Seq<usize>, exit_block: usize, latch: usize, it1: Seq<ValueRef>, it2: Seq<ValueRef>)
    requires
        outside_uses_replaced(r0, r1, blocks, exit_block, latch, it1),
        same_graph(r1, r0),
        it2.len() >= it1.len(),
        forall|q: int| 0 <= q < it1.len() ==> #[trigger] it2[q] == it1[q],
        block_args(r2, exit_block as int).len() >= block_args(r1, exit_block as int).len(),
        forall|q: int| 0 <= q < block_args(r1, exit_block as int).len() ==> #[trigger] block_args(r2, exit_block as int)[q] == block_args(r1, exit_block as int)[q],
        forall|w: ValueRef, z: ValueRef| #[trigger] stands_for(r1, latch, w, z) ==> stands_for(r2, latch, w, z),
        forall|b: int, s: int| 0 <= b < num_blocks(r0) && !blocks.contains(b as usize) && 0 <= s < succs(r0, b).len()
            ==> #[trigger] edge_extends(r1, r2, b, s),
        forall|b: int| 0 <= b < num_blocks(r0) && !blocks.contains(b as usize) ==> #[trigger] r2.terminators@[b] == r1.terminators@[b],
    ensures
        outside_uses_replaced(r0, r2, blocks, exit_block, latch, it2),
{
    assert forall|b: int, s: int| 0 <= b < num_blocks(r0) && !blocks.contains(b as usize) && 0 <= s < succs(r0, b).len()
        implies (#[trigger] edge_ops(r2, b, s)).len() >= edge_ops(r0, b, s).len() by {
        assert(edge_ops(r1, b, s).len() >= edge_ops(r0, b, s).len());
        assert(edge_extends(r1, r2, b, s));
    }
    assert forall|b: int, s: int, k: int| 0 <= b < num_blocks(r0) && !blocks.contains(b as usize) && 0 <= s < succs(r0, b).len()
        && 0 <= k < edge_ops(r0, b, s).len() implies #[trigger] use_replaced(r2, exit_block, latch, it2, edge_ops(r0, b, s)[k], edge_ops(r2, b, s)[k]) by {
        assert(use_replaced(r1, exit_block, latch, it1, edge_ops(r0, b, s)[k], edge_ops(r1, b, s)[k]));
        assert(edge_ops(r1, b, s).len() >= edge_ops(r0, b, s).len());
        assert(k < edge_ops(r1, b, s).len());
        assert(edge_extends(r1, r2, b, s));
        assert(edge_ops(r2, b, s).len() >= edge_ops(r1, b, s).len());
        assert(edge_ops(r2, b, s)[k] == edge_ops(r1, b, s)[k]);
        lemma_use_replaced_kept(r1, r2, exit_block, latch, it1, it2, edge_ops(r0, b, s)[k], edge_ops(r1, b, s)[k]);
    }
    assert forall|b: int| 0 <= b < num_blocks(r0) && !blocks.contains(b as usize)
        implies #[trigger] terminator_uses_replaced(r0.terminators@[b], r2.terminators@[b], r2, exit_block, latch, it2) by {
        assert(terminator_uses_replaced(r0.terminators@[b], r1.terminators@[b], r1, exit_block, latch, it1));
        match r0.terminators@[b] {
            Terminator::CondBr { condition } => match r1.terminators@[b] {
                Terminator::CondBr { condition: c1 } => lemma_use_replaced_kept(r1, r2, exit_block, latch, it1, it2, condition, c1),
                _ => {},
            },
            Terminator::Switch { selector, case_values } => match r1.terminators@[b] {
                Terminator::Switch { selector: s1, .. } => lemma_use_replaced_kept(r1, r2, exit_block, latch, it1, it2, selector, s1),
                _ => {},
            },
            Terminator::ReturnLike { kind, operands } => match r1.terminators@[b] {
                Terminator::ReturnLike { operands: o1, .. } => {
                    assert forall|k: int| 0 <= k < operands@.len() implies #[trigger] use_replaced(r2, exit_block, latch, it2, operands@[k], o1@[k]) by {
                        assert(use_replaced(r1, exit_block, latch, it1, operands@[k], o1@[k]));
                        lemma_use_replaced_kept(r1, r2, exit_block, latch, it1, it2, operands@[k], o1@[k]);
                    }
                },
                _ => {},
            },
            _ => {},
        }
    }
}

/// Replacing `v` by the exit block argument `e` outside the loop keeps what
/// `outside_uses_replaced` says, when `e` takes a value passed back that stands for `v` and
/// `v` is none of the exit block's arguments.
proof fn lemma_outside_replace(r0: &Region, r1: &Region, r2: &Region, blocks: Seq<usize>, exit_block: usize, latch: usize, it: Seq<ValueRef>, v: ValueRef, e: ValueRef, q: int)
    requires
        outside_uses_replaced(r0, r1, blocks, exit_block, latch, it),
        same_graph(r1, r0),
        0 <= q < it.len(),
        q < block_args(r1, exit_block as int).len(),
        e == block_args(r1, exit_block as int)[q],
        stands_for(r2, latch, it[q], v),
        forall|q2: int| 0 <= q2 < block_args(r1, exit_block as int).len() ==> #[trigger] block_args(r1, exit_block as int)[q2] != v,
        block_args(r2, exit_block as int) == block_args(r1, exit_block as int),
        forall|w: ValueRef, z: ValueRef| #[trigger] stands_for(r1, latch, w, z) ==> stands_for(r2, latch, w, z),
        forall|b: int, s: int| 0 <= b < num_blocks(r0) && !blocks.contains(b as usize) && 0 <= s < succs(r0, b).len()
            ==> #[trigger] edge_ops(r2, b, s) == replaced(edge_ops(r1, b, s), v, e),
        forall|b: int| 0 <= b < num_blocks(r0) && !blocks.contains(b as usize)
            ==> terminator_replaced(r1.terminators@[b], #[trigger] r2.terminators@[b], v, e),
    ensures
        outside_uses_replaced(r0, r2, blocks, exit_block, latch, it),
{
    assert forall|x: ValueRef, y: ValueRef| #[trigger] use_replaced(r1, exit_block, latch, it, x, y)
        implies use_replaced(r2, exit_block, latch, it, x, if y == v { e } else { y }) by {
        if y == v {
            if y != x {
                let q2 = choose|q2: int| 0 <= q2 < it.len() && q2 < block_args(r1, exit_block as int).len()
                    && y == #[trigger] block_args(r1, exit_block as int)[q2] && stands_for(r1, latch, it[q2], x);
                assert(block_args(r1, exit_block as int)[q2] != v);
            }
            assert(e == block_args(r2, exit_block as int)[q]);
        } else {
            lemma_use_replaced_kept(r1, r2, exit_block, latch, it, it, x, y);
        }
    }
    assert forall|b: int, s: int| 0 <= b < num_blocks(r0) && !blocks.contains(b as usize) && 0 <= s < succs(r0, b).len()
        implies (#[trigger] edge_ops(r2, b, s)).len() >= edge_ops(r0, b, s).len() by {
        assert(edge_ops(r1, b, s).len() >= edge_ops(r0, b, s).len());
        assert(edge_ops(r2, b, s) == replaced(edge_ops(r1, b, s), v, e));
    }
    assert forall|b: int, s: int, k: int| 0 <= b < num_blocks(r0) && !blocks.contains(b as usize) && 0 <= s < succs(r0, b).len()
        && 0 <= k < edge_ops(r0, b, s).len() implies #[trigger] use_replaced(r2, exit_block, latch, it, edge_ops(r0, b, s)[k], edge_ops(r2, b, s)[k]) by {
        assert(use_replaced(r1, exit_block, latch, it, edge_ops(r0, b, s)[k], edge_ops(r1, b, s)[k]));
        assert(edge_ops(r1, b, s).len() >= edge_ops(r0, b, s).len());
        assert(edge_ops(r2, b, s) == replaced(edge_ops(r1, b, s), v, e));
        let y = edge_ops(r1, b, s)[k];
        assert(edge_ops(r2, b, s)[k] == if y == v { e } else { y });
    }
    assert forall|b: int| 0 <= b < num_blocks(r0) && !blocks.contains(b as usize)
        implies #[trigger] terminator_uses_replaced(r0.terminators@[b], r2.terminators@[b], r2, exit_block, latch, it) by {
        assert(terminator_uses_replaced(r0.terminators@[b], r1.terminators@[b], r1, exit_block, latch, it));
        assert(terminator_replaced(r1.terminators@[b], r2.terminators@[b], v, e));
        match r0.terminators@[b] {
            Terminator::CondBr { condition } => match r1.terminators@[b] {
                Terminator::CondBr { condition: c1 } => {
                    assert(use_replaced(r1, exit_block, latch, it, condition, c1));
                },
                _ => {},
            },
            Terminator::Switch { selector, case_values } => match r1.terminators@[b] {
                Terminator::Switch { selector: s1, .. } => {
                    assert(use_replaced(r1, exit_block, latch, it, selector, s1));
                },
                _ => {},
            },
            Terminator::ReturnLike { kind, operands } => match r1.terminators@[b] {
                Terminator::ReturnLike { operands: o1, .. } => {
                    match r2.terminators@[b] {
                        Terminator::ReturnLike { operands: o2, .. } => {
                            assert forall|k: int| 0 <= k < operands@.len() implies #[trigger] use_replaced(r2, exit_block, latch, it, operands@[k], o2@[k]) by {
                                assert(use_replaced(r1, exit_block, latch, it, operands@[k], o1@[k]));
                                assert(o2@ == replaced(o1@, v, e));
                                assert(o2@[k] == if o1@[k] == v { e } else { o1@[k] });
                            }
                        },
                        _ => {},
                    }
                },
                _ => {},
            },
            _ => {},
        }
    }
}

/// Nothing replaced yet: every use is kept.
proof fn lemma_outside_refl(r0: &Region, blocks: Seq<usize>, exit_block: usize, latch: usize, it: Seq<ValueRef>)
    ensures
        outside_uses_replaced(r0, r0, blocks, exit_block, latch, it),
{
    assert forall|b: int| 0 <= b < num_blocks(r0) && !blocks.contains(b as usize)
        implies #[trigger] terminator_uses_replaced(r0.terminators@[b], r0.terminators@[b], r0, exit_block, latch, it) by {
        match r0.terminators@[b] {
            Terminator::ReturnLike { operands, .. } => {
                assert forall|k: int| 0 <= k < operands@.len() implies #[trigger] use_replaced(r0, exit_block, latch, it, operands@[k], operands@[k]) by {}
            },
            _ => {},
        }
    }
}

} // verus!
