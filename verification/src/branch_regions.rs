//! What turning the conditional control flow at the end of a region entry block into
//! structured form decides, before any operation is built: the branch region that follows
//! each successor edge, the edges that lead on to the continuation after them, whether the
//! continuation follows every branch region, and which of the cases applies.
use vstd::prelude::*;
use crate::cfg::{Edge, is_edge, target};
use crate::cfg_to_scf::{Region, TransformationContext, num_blocks, succs, wf};
use crate::reduce_loop::{dominance_ok, dominates};

verus! {

/// The `i`-th successor edge of `entry` is the only edge into its target.
pub open spec fn only_edge_into(r: &Region, entry: usize, i: int) -> bool {
    forall|e: Edge| #[trigger] is_edge(&r.cfg, e) && target(&r.cfg, e) == succs(r, entry as int)[i]
        ==> e == (Edge { from_block: entry, successor_index: i as usize })
}

/// The blocks below `k` that `row` marks, in order.
pub open spec fn marked_blocks(row: Seq<bool>, k: int) -> Seq<usize>
    decreases k,
{
    if k <= 0 {
        Seq::empty()
    } else {
        marked_blocks(row, k - 1) + if row[k - 1] { seq![(k - 1) as usize] } else { Seq::empty() }
    }
}

/// The branch region that follows the `i`-th successor edge of `entry`: where that edge is
/// the only one into its target, the blocks that the target dominates, in order; else none.
pub open spec fn branch_region(r: &Region, entry: usize, dom: Seq<Vec<bool>>, i: int) -> Seq<usize> {
    if only_edge_into(r, entry, i) {
        marked_blocks(dom[succs(r, entry as int)[i] as int]@, num_blocks(r) as int)
    } else {
        Seq::empty()
    }
}

/// Block `b` is the entry or lies in a branch region: it is not part of the continuation.
pub open spec fn before_continuation(r: &Region, entry: usize, dom: Seq<Vec<bool>>, b: usize) -> bool {
    ||| b == entry
    ||| exists|i: int| 0 <= i < succs(r, entry as int).len() && #[trigger] branch_region(r, entry, dom, i).contains(b)
}

/// The edges out of the first `m` successor edges of block `b` that lead to the continuation.
pub open spec fn edges_to_continuation(r: &Region, entry: usize, dom: Seq<Vec<bool>>, b: int, m: int) -> Seq<Edge>
    decreases m,
{
    if m <= 0 {
        Seq::empty()
    } else {
        edges_to_continuation(r, entry, dom, b, m - 1) + if !before_continuation(r, entry, dom, succs(r, b)[m - 1]) {
            seq![Edge { from_block: b as usize, successor_index: (m - 1) as usize }]
        } else {
            Seq::empty()
        }
    }
}

/// The edges into `t` out of the first `m` successor edges of block `b`.
pub open spec fn edges_from_into(r: &Region, b: int, t: usize, m: int) -> Seq<Edge>
    decreases m,
{
    if m <= 0 {
        Seq::empty()
    } else {
        edges_from_into(r, b, t, m - 1) + if succs(r, b)[m - 1] == t {
            seq![Edge { from_block: b as usize, successor_index: (m - 1) as usize }]
        } else {
            Seq::empty()
        }
    }
}

/// The edges into `t` out of the blocks below `k`, by block and then successor index.
pub open spec fn edges_into_below(r: &Region, t: usize, k: int) -> Seq<Edge>
    decreases k,
{
    if k <= 0 {
        Seq::empty()
    } else {
        edges_into_below(r, t, k - 1) + edges_from_into(r, k - 1, t, succs(r, k - 1).len() as int)
    }
}

/// The continuation edges that block `b` of a branch region gives: every edge into it, where
/// it ends the region (it has no successors, so the continuation does not follow the region);
/// else its edges that lead to the continuation.
pub open spec fn block_continuation_edges(r: &Region, entry: usize, dom: Seq<Vec<bool>>, b: usize) -> Seq<Edge> {
    if succs(r, b as int).len() == 0 {
        edges_into_below(r, b, num_blocks(r) as int)
    } else {
        edges_to_continuation(r, entry, dom, b as int, succs(r, b as int).len() as int)
    }
}

/// The continuation edges that the first `k` blocks of the branch region `blocks` give.
pub open spec fn region_continuation_edges(r: &Region, entry: usize, dom: Seq<Vec<bool>>, blocks: Seq<usize>, k: int) -> Seq<Edge>
    decreases k,
{
    if k <= 0 {
        Seq::empty()
    } else {
        region_continuation_edges(r, entry, dom, blocks, k - 1) + block_continuation_edges(r, entry, dom, blocks[k - 1])
    }
}

/// The continuation edges of the first `i` successor edges of `entry`: the edge itself where
/// its branch region is empty, else those that its region's blocks give.
pub open spec fn continuation_edges(r: &Region, entry: usize, dom: Seq<Vec<bool>>, i: int) -> Seq<Edge>
    decreases i,
{
    if i <= 0 {
        Seq::empty()
    } else {
        let reg = branch_region(r, entry, dom, i - 1);
        continuation_edges(r, entry, dom, i - 1) + if reg.len() == 0 {
            seq![Edge { from_block: entry, successor_index: (i - 1) as usize }]
        } else {
            region_continuation_edges(r, entry, dom, reg, reg.len() as int)
        }
    }
}

/// One of the first `k` blocks of `reg` has no successors.
pub open spec fn region_ends(r: &Region, reg: Seq<usize>, k: int) -> bool {
    exists|k2: int| 0 <= k2 < k && succs(r, #[trigger] reg[k2] as int).len() == 0
}

/// One of the first `k` blocks of `reg` has successors and an edge to the continuation.
pub open spec fn region_reaches(r: &Region, entry: usize, dom: Seq<Vec<bool>>, reg: Seq<usize>, k: int) -> bool {
    exists|k2: int| 0 <= k2 < k && succs(r, reg[k2] as int).len() > 0
        && (#[trigger] edges_to_continuation(r, entry, dom, reg[k2] as int, succs(r, reg[k2] as int).len() as int)).len() > 0
}

/// Some block of a branch region among those of the first `i` successor edges has no
/// successors, so the continuation does not follow every branch region.
pub open spec fn some_region_ends(r: &Region, entry: usize, dom: Seq<Vec<bool>>, i: int) -> bool {
    exists|i2: int| 0 <= i2 < i && {
        let reg = #[trigger] branch_region(r, entry, dom, i2);
        region_ends(r, reg, reg.len() as int)
    }
}

/// One of the first `i` successor edges reaches the continuation: its branch region is empty,
/// or a block of it with successors has an edge to the continuation.
pub open spec fn some_edge_reaches_continuation(r: &Region, entry: usize, dom: Seq<Vec<bool>>, i: int) -> bool {
    exists|i2: int| 0 <= i2 < i && {
        let reg = #[trigger] branch_region(r, entry, dom, i2);
        reg.len() == 0 || region_reaches(r, entry, dom, reg, reg.len() as int)
    }
}

/// The block that all of `es` lead to, where there is at least one and they agree.
pub open spec fn common_target(r: &Region, es: Seq<Edge>) -> Option<usize> {
    if es.len() > 0 && forall|k: int| 0 <= k < es.len() ==> target(&r.cfg, #[trigger] es[k]) == target(&r.cfg, es[0]) {
        Some(target(&r.cfg, es[0]))
    } else {
        None
    }
}

/// What structuring the conditional control flow at the end of a region entry block is to do.
#[derive(Debug)]
pub enum BranchPlan {
    /// The entry has no successors: there is nothing to structure.
    NoBranch,
    /// The entry has a single successor, which is to be merged into it.
    MergeSuccessor(usize),
    /// No successor edge reaches the continuation: the branch stays, and each of these
    /// successors is processed on its own.
    KeepBranch(Vec<usize>),
    /// Structure the branch: the branch region of each successor edge, the edges into the
    /// continuation, the block they all lead to if they agree, and whether the continuation
    /// follows every branch region. A single entry block must be made for the continuation
    /// where they do not agree or it does not follow every region, and the entry is to be
    /// processed again where it does not.
    Structure {
        regions: Vec<Vec<usize>>,
        continuation_edges: Vec<Edge>,
        continuation: Option<usize>,
        continuation_follows_all: bool,
    },
}

/// The blocks below `n` that `row` marks, in order.
fn marked(row: &Vec<bool>, n: usize) -> (res: Vec<usize>)
    requires
        n <= row@.len(),
    ensures
        res@ == marked_blocks(row@, n as int),
{
    let mut res: Vec<usize> = Vec::new();
    let mut k: usize = 0;
    while k < n
        invariant
            k <= n <= row@.len(),
            res@ == marked_blocks(row@, k as int),
        decreases n - k,
    {
        if row[k] {
            res.push(k);
        }
        proof {
            assert(marked_blocks(row@, k + 1) == marked_blocks(row@, k as int) + if row@[k as int] { seq![k] } else { Seq::<usize>::empty() });
            assert(res@ =~= marked_blocks(row@, k + 1));
        }
        k = k + 1;
    }
    res
}

/// Whether the `i`-th successor edge of `entry` is the only edge into its target.
fn is_only_edge_into(r: &Region, entry: usize, i: usize) -> (res: bool)
    requires
        wf(r),
        entry < num_blocks(r),
        i < succs(r, entry as int).len(),
    ensures
        res == only_edge_into(r, entry, i as int),
{
    let t = r.cfg.successors[entry][i];
    let n = r.cfg.successors.len();
    let mut b: usize = 0;
    while b < n
        invariant
            n == num_blocks(r),
            b <= n,
            entry < n,
            i < succs(r, entry as int).len(),
            t == succs(r, entry as int)[i as int],
            forall|e: Edge| #[trigger] is_edge(&r.cfg, e) && target(&r.cfg, e) == t && e.from_block < b
                ==> e == (Edge { from_block: entry, successor_index: i }),
        decreases n - b,
    {
        let m = r.cfg.successors[b].len();
        let mut s: usize = 0;
        while s < m
            invariant
                n == num_blocks(r),
                b < n,
                m == succs(r, b as int).len(),
                s <= m,
                t == succs(r, entry as int)[i as int],
                forall|e: Edge| #[trigger] is_edge(&r.cfg, e) && target(&r.cfg, e) == t
                    && (e.from_block < b || (e.from_block == b && e.successor_index < s))
                    ==> e == (Edge { from_block: entry, successor_index: i }),
            decreases m - s,
        {
            if r.cfg.successors[b][s] == t && !(b == entry && s == i) {
                proof {
                    let e = Edge { from_block: b, successor_index: s };
                    assert(is_edge(&r.cfg, e) && target(&r.cfg, e) == t);
                }
                return false;
            }
            s = s + 1;
        }
        b = b + 1;
    }
    true
}

/// Whether `b` is the entry or one of the blocks of `regions`.
fn is_before_continuation(regions: &Vec<Vec<usize>>, entry: usize, b: usize) -> (res: bool)
    ensures
        res == (b == entry || exists|i: int| 0 <= i < regions@.len() && #[trigger] regions@[i]@.contains(b)),
{
    if b == entry {
        return true;
    }
    let mut i: usize = 0;
    while i < regions.len()
        invariant
            i <= regions@.len(),
            forall|j: int| 0 <= j < i ==> !(#[trigger] regions@[j]@.contains(b)),
        decreases regions@.len() - i,
    {
        if contains_block(regions[i].as_slice(), b) {
            proof {
                assert(regions@[i as int]@ == regions[i as int]@);
            }
            return true;
        }
        i = i + 1;
    }
    false
}

/// Whether `b` is one of `blocks`.
fn contains_block(blocks: &[usize], b: usize) -> (r: bool)
    ensures
        r == blocks@.contains(b),
{
    let mut k: usize = 0;
    while k < blocks.len()
        invariant
            k <= blocks@.len(),
            forall|j: int| 0 <= j < k ==> blocks@[j] != b,
        decreases blocks@.len() - k,
    {
        if blocks[k] == b {
            proof {
                assert(blocks@[k as int] == b);
            }
            return true;
        }
        k = k + 1;
    }
    false
}

/// The edges into `t`, by block and then successor index.
fn edges_into_in_order(r: &Region, t: usize) -> (es: Vec<Edge>)
    requires
        wf(r),
    ensures
        es@ == edges_into_below(r, t, num_blocks(r) as int),
        forall|k: int| 0 <= k < es@.len() ==> is_edge(&r.cfg, #[trigger] es@[k]),
{
    let n = r.cfg.successors.len();
    let mut es: Vec<Edge> = Vec::new();
    let mut b: usize = 0;
    while b < n
        invariant
            n == num_blocks(r),
            b <= n,
            es@ == edges_into_below(r, t, b as int),
            forall|k: int| 0 <= k < es@.len() ==> is_edge(&r.cfg, #[trigger] es@[k]),
        decreases n - b,
    {
        let m = r.cfg.successors[b].len();
        let ghost base = es@;
        let mut s: usize = 0;
        while s < m
            invariant
                n == num_blocks(r),
                b < n,
                m == succs(r, b as int).len(),
                s <= m,
                base == edges_into_below(r, t, b as int),
                es@ == base + edges_from_into(r, b as int, t, s as int),
                forall|k: int| 0 <= k < es@.len() ==> is_edge(&r.cfg, #[trigger] es@[k]),
            decreases m - s,
        {
            if r.cfg.successors[b][s] == t {
                es.push(Edge { from_block: b, successor_index: s });
            }
            proof {
                assert(es@ =~= base + edges_from_into(r, b as int, t, s + 1));
            }
            s = s + 1;
        }
        proof {
            assert(es@ =~= edges_into_below(r, t, b + 1));
        }
        b = b + 1;
    }
    es
}

/// The edges of block `b` that lead to the continuation, given the branch regions.
fn block_exits(r: &Region, regions: &Vec<Vec<usize>>, entry: usize, b: usize, Ghost(dom): Ghost<Seq<Vec<bool>>>) -> (es: Vec<Edge>)
    requires
        wf(r),
        b < num_blocks(r),
        entry < num_blocks(r),
        regions@.len() == succs(r, entry as int).len(),
        forall|i: int| 0 <= i < regions@.len() ==> #[trigger] regions@[i]@ == branch_region(r, entry, dom, i),
    ensures
        es@ == edges_to_continuation(r, entry, dom, b as int, succs(r, b as int).len() as int),
        forall|k: int| 0 <= k < es@.len() ==> is_edge(&r.cfg, #[trigger] es@[k]),
{
    let m = r.cfg.successors[b].len();
    let mut es: Vec<Edge> = Vec::new();
    let mut s: usize = 0;
    while s < m
        invariant
            wf(r),
            b < num_blocks(r),
            m == succs(r, b as int).len(),
            s <= m,
            regions@.len() == succs(r, entry as int).len(),
            forall|i: int| 0 <= i < regions@.len() ==> #[trigger] regions@[i]@ == branch_region(r, entry, dom, i),
            es@ == edges_to_continuation(r, entry, dom, b as int, s as int),
            forall|k: int| 0 <= k < es@.len() ==> is_edge(&r.cfg, #[trigger] es@[k]),
        decreases m - s,
    {
        let t = r.cfg.successors[b][s];
        let before = is_before_continuation(regions, entry, t);
        proof {
            assert(before == before_continuation(r, entry, dom, t)) by {
                if before && t != entry {
                    let i = choose|i: int| 0 <= i < regions@.len() && #[trigger] regions@[i]@.contains(t);
                    assert(branch_region(r, entry, dom, i).contains(t));
                }
                if before_continuation(r, entry, dom, t) && t != entry {
                    let i = choose|i: int| 0 <= i < succs(r, entry as int).len() && #[trigger] branch_region(r, entry, dom, i).contains(t);
                    assert(regions@[i]@.contains(t));
                }
            }
        }
        if !before {
            es.push(Edge { from_block: b, successor_index: s });
        }
        proof {
            assert(es@ =~= edges_to_continuation(r, entry, dom, b as int, s + 1));
        }
        s = s + 1;
    }
    es
}

impl TransformationContext {
    /// Decide how to structure the conditional control flow at the end of `region_entry`,
    /// given the region's dominance relation (`dominance[a][b]` holds when block `a`
    /// dominates block `b`): with no successor there is nothing to do; a single successor is
    /// merged into the entry; otherwise each successor edge that is the only edge into its
    /// target leads to the branch region of the blocks that target dominates, and the edges
    /// from those regions to the rest of the region are the continuation edges. Where no
    /// successor edge reaches the continuation the branch stays and its successors are
    /// processed on their own; else the branch is structured.
    pub fn plan_structured_cf_branches(&self, region_entry: usize, dominance: &[Vec<bool>]) -> (p: BranchPlan)
        requires
            self.wf(),
            region_entry < num_blocks(&self.region),
            dominance_ok(dominance@, num_blocks(&self.region)),
            forall|a: int, b: int| 0 <= a < num_blocks(&self.region) && 0 <= b < num_blocks(&self.region)
                ==> #[trigger] dominance@[a]@[b] == dominates(&self.region, self.entry, a as usize, b as usize),
        ensures
            ({
                let r = &self.region;
                let m = succs(r, region_entry as int).len() as int;
                let dom = dominance@;
                &&& (m == 0 <==> p is NoBranch)
                &&& m == 1 ==> p == BranchPlan::MergeSuccessor(succs(r, region_entry as int)[0])
                &&& m >= 2 && !some_edge_reaches_continuation(r, region_entry, dom, m)
                    ==> (p matches BranchPlan::KeepBranch(v) && v@ == succs(r, region_entry as int))
                &&& m >= 2 && some_edge_reaches_continuation(r, region_entry, dom, m) ==> (p matches BranchPlan::Structure {
                        regions, continuation_edges: ce, continuation, continuation_follows_all }
                    && regions@.len() == m
                    && (forall|i: int| 0 <= i < m ==> #[trigger] regions@[i]@ == branch_region(r, region_entry, dom, i))
                    && ce@ == continuation_edges(r, region_entry, dom, m)
                    && continuation == common_target(r, ce@)
                    && continuation_follows_all == !some_region_ends(r, region_entry, dom, m))
            }),
    {
        let r = &self.region;
        let ghost dom = dominance@;
        let entry = region_entry;
        let m = r.cfg.successors[entry].len();
        if m == 0 {
            return BranchPlan::NoBranch;
        }
        if m == 1 {
            return BranchPlan::MergeSuccessor(r.cfg.successors[entry][0]);
        }
        let n = r.cfg.successors.len();
        // The branch region of each successor edge.
        let mut regions: Vec<Vec<usize>> = Vec::new();
        let mut i: usize = 0;
        while i < m
            invariant
                wf(r),
                entry < num_blocks(r),
                n == num_blocks(r),
                m == succs(r, entry as int).len(),
                dominance_ok(dom, n as nat),
                dom == dominance@,
                i <= m,
                regions@.len() == i,
                forall|j: int| 0 <= j < i ==> #[trigger] regions@[j]@ == branch_region(r, entry, dom, j),
            decreases m - i,
        {
            let reg = if is_only_edge_into(r, entry, i) {
                let d = r.cfg.successors[entry][i];
                marked(&dominance[d], n)
            } else {
                Vec::new()
            };
            regions.push(reg);
            i = i + 1;
        }
        // The continuation edges, and whether some region ends or some edge reaches the
        // continuation.
        let mut ce: Vec<Edge> = Vec::new();
        let mut ends = false;
        let mut reaches = false;
        let mut i: usize = 0;
        while i < m
            invariant
                wf(r),
                entry < num_blocks(r),
                n == num_blocks(r),
                m == succs(r, entry as int).len(),
                i <= m,
                regions@.len() == m,
                forall|j: int| 0 <= j < m ==> #[trigger] regions@[j]@ == branch_region(r, entry, dom, j),
                ce@ == continuation_edges(r, entry, dom, i as int),
                forall|k: int| 0 <= k < ce@.len() ==> is_edge(&r.cfg, #[trigger] ce@[k]),
                ends == some_region_ends(r, entry, dom, i as int),
                reaches == some_edge_reaches_continuation(r, entry, dom, i as int),
            decreases m - i,
        {
            let ghost reg = branch_region(r, entry, dom, i as int);
            let ghost base = ce@;
            let k_len = regions[i].len();
            proof {
                assert(regions@[i as int]@ == reg);
            }
            let mut region_end = false;
            let mut region_reach = false;
            if k_len == 0 {
                ce.push(Edge { from_block: entry, successor_index: i });
                proof {
                    assert forall|k2: int| 0 <= k2 < ce@.len() implies is_edge(&r.cfg, #[trigger] ce@[k2]) by {
                        if k2 < base.len() {
                            assert(ce@[k2] == base[k2]);
                        }
                    }
                }
            } else {
                let mut k: usize = 0;
                while k < k_len
                    invariant
                        wf(r),
                        entry < num_blocks(r),
                        n == num_blocks(r),
                        m == succs(r, entry as int).len(),
                        i < m,
                        regions@.len() == m,
                        forall|j: int| 0 <= j < m ==> #[trigger] regions@[j]@ == branch_region(r, entry, dom, j),
                        reg == regions@[i as int]@,
                        k_len == reg.len(),
                        k <= k_len,
                        ce@ == base + region_continuation_edges(r, entry, dom, reg, k as int),
                        forall|k2: int| 0 <= k2 < ce@.len() ==> is_edge(&r.cfg, #[trigger] ce@[k2]),
                        region_end == region_ends(r, reg, k as int),
                        region_reach == region_reaches(r, entry, dom, reg, k as int),
                    decreases k_len - k,
                {
                    let b = regions[i][k];
                    proof {
                        assert(b == reg[k as int]);
                        if only_edge_into(r, entry, i as int) {
                            let d = succs(r, entry as int)[i as int];
                            lemma_marked_below(dom[d as int]@, n as int, k as int);
                        }
                    }
                    let ghost ce0 = ce@;
                    let ghost end0 = region_end;
                    let ghost reach0 = region_reach;
                    if r.cfg.successors[b].len() == 0 {
                        let mut into = edges_into_in_order(r, b);
                        let ghost added = into@;
                        ce.append(&mut into);
                        region_end = true;
                        proof {
                            assert forall|k2: int| 0 <= k2 < ce@.len() implies is_edge(&r.cfg, #[trigger] ce@[k2]) by {
                                if k2 >= ce0.len() {
                                    assert(ce@[k2] == added[k2 - ce0.len()]);
                                } else {
                                    assert(ce@[k2] == ce0[k2]);
                                }
                            }
                        }
                    } else {
                        let mut exits = block_exits(r, &regions, entry, b, Ghost(dom));
                        let ghost added = exits@;
                        if exits.len() > 0 {
                            region_reach = true;
                        }
                        ce.append(&mut exits);
                        proof {
                            assert forall|k2: int| 0 <= k2 < ce@.len() implies is_edge(&r.cfg, #[trigger] ce@[k2]) by {
                                if k2 >= ce0.len() {
                                    assert(ce@[k2] == added[k2 - ce0.len()]);
                                } else {
                                    assert(ce@[k2] == ce0[k2]);
                                }
                            }
                        }
                    }
                    proof {
                        assert(ce@ =~= base + region_continuation_edges(r, entry, dom, reg, k + 1));
                        assert(region_end == region_ends(r, reg, k + 1)) by {
                            if region_ends(r, reg, k + 1) && !end0 {
                                let k2 = choose|k2: int| 0 <= k2 < k + 1 && succs(r, #[trigger] reg[k2] as int).len() == 0;
                                assert(k2 == k);
                            }
                            if region_end && end0 {
                                let k2 = choose|k2: int| 0 <= k2 < k && succs(r, #[trigger] reg[k2] as int).len() == 0;
                                assert(succs(r, reg[k2] as int).len() == 0);
                            }
                        }
                        assert(region_reach == region_reaches(r, entry, dom, reg, k + 1)) by {
                            let ek = edges_to_continuation(r, entry, dom, reg[k as int] as int, succs(r, reg[k as int] as int).len() as int);
                            if region_reaches(r, entry, dom, reg, k + 1) && !reach0 {
                                let k2 = choose|k2: int| 0 <= k2 < k + 1 && succs(r, reg[k2] as int).len() > 0
                                    && (#[trigger] edges_to_continuation(r, entry, dom, reg[k2] as int, succs(r, reg[k2] as int).len() as int)).len() > 0;
                                assert(k2 == k);
                            }
                            if region_reach && reach0 {
                                let k2 = choose|k2: int| 0 <= k2 < k && succs(r, reg[k2] as int).len() > 0
                                    && (#[trigger] edges_to_continuation(r, entry, dom, reg[k2] as int, succs(r, reg[k2] as int).len() as int)).len() > 0;
                                assert(0 <= k2 < k + 1);
                            }
                            if region_reach && !reach0 {
                                assert(succs(r, reg[k as int] as int).len() > 0 && ek.len() > 0);
                            }
                        }
                    }
                    k = k + 1;
                }
            }
            proof {
                let ghost_reg_ends = region_ends(r, reg, reg.len() as int);
                assert(ce@ =~= continuation_edges(r, entry, dom, i + 1));
                assert(k_len == 0 ==> !region_end && !region_reach);
                assert((ends || region_end) == some_region_ends(r, entry, dom, i + 1)) by {
                    if some_region_ends(r, entry, dom, i + 1) {
                        let i2 = choose|i2: int| 0 <= i2 < i + 1 && {
                            let rg = #[trigger] branch_region(r, entry, dom, i2);
                            region_ends(r, rg, rg.len() as int)
                        };
                        if i2 < i {
                            assert(some_region_ends(r, entry, dom, i as int));
                        } else if k_len == 0 {
                            assert(region_ends(r, reg, reg.len() as int));
                            let k2 = choose|k2: int| 0 <= k2 < reg.len() && succs(r, #[trigger] reg[k2] as int).len() == 0;
                        }
                    }
                    if ends {
                        let i2 = choose|i2: int| 0 <= i2 < i && {
                            let rg = #[trigger] branch_region(r, entry, dom, i2);
                            region_ends(r, rg, rg.len() as int)
                        };
                        assert(0 <= i2 < i + 1);
                    }
                    if region_end {
                        assert(branch_region(r, entry, dom, i as int) == reg);
                    }
                }
                let now_reach = k_len == 0 || region_reach;
                assert((reaches || now_reach) == some_edge_reaches_continuation(r, entry, dom, i + 1)) by {
                    if some_edge_reaches_continuation(r, entry, dom, i + 1) {
                        let i2 = choose|i2: int| 0 <= i2 < i + 1 && {
                            let rg = #[trigger] branch_region(r, entry, dom, i2);
                            rg.len() == 0 || region_reaches(r, entry, dom, rg, rg.len() as int)
                        };
                        if i2 < i {
                            assert(some_edge_reaches_continuation(r, entry, dom, i as int));
                        }
                    }
                    if reaches {
                        let i2 = choose|i2: int| 0 <= i2 < i && {
                            let rg = #[trigger] branch_region(r, entry, dom, i2);
                            rg.len() == 0 || region_reaches(r, entry, dom, rg, rg.len() as int)
                        };
                        assert(0 <= i2 < i + 1);
                    }
                    if now_reach {
                        assert(branch_region(r, entry, dom, i as int) == reg);
                    }
                }
            }
            ends = ends || region_end;
            reaches = reaches || k_len == 0 || region_reach;
            i = i + 1;
        }
        if !reaches {
            let succ = copy_blocks(&r.cfg.successors[entry]);
            return BranchPlan::KeepBranch(succ);
        }
        // The block the continuation edges all lead to, if they agree.
        let mut continuation: Option<usize> = None;
        if ce.len() > 0 {
            proof {
                assert(is_edge(&r.cfg, ce@[0]));
            }
            let t0 = r.cfg.successors[ce[0].from_block][ce[0].successor_index];
            let mut agree = true;
            let mut q: usize = 1;
            while q < ce.len()
                invariant
                    1 <= q <= ce@.len(),
                    forall|k: int| 0 <= k < ce@.len() ==> is_edge(&r.cfg, #[trigger] ce@[k]),
                    t0 == target(&r.cfg, ce@[0]),
                    agree == forall|k: int| 0 <= k < q ==> target(&r.cfg, #[trigger] ce@[k]) == t0,
                decreases ce@.len() - q,
            {
                let e = ce[q];
                proof {
                    assert(is_edge(&r.cfg, ce@[q as int]));
                }
                if r.cfg.successors[e.from_block][e.successor_index] != t0 {
                    agree = false;
                }
                proof {
                    if !agree {
                        if target(&r.cfg, ce@[q as int]) == t0 {
                            let k = choose|k: int| 0 <= k < q && target(&r.cfg, #[trigger] ce@[k]) != t0;
                        }
                    }
                }
                q = q + 1;
            }
            if agree {
                continuation = Some(t0);
            }
        }
        BranchPlan::Structure { regions, continuation_edges: ce, continuation, continuation_follows_all: !ends }
    }
}

/// A copy of `v`.
fn copy_blocks(v: &Vec<usize>) -> (res: Vec<usize>)
    ensures
        res@ == v@,
{
    let mut res: Vec<usize> = Vec::new();
    let mut k: usize = 0;
    while k < v.len()
        invariant
            k <= v@.len(),
            res@ == v@.take(k as int),
        decreases v@.len() - k,
    {
        res.push(v[k]);
        proof {
            assert(res@ =~= v@.take(k + 1));
        }
        k = k + 1;
    }
    proof {
        assert(v@.take(k as int) =~= v@);
    }
    res
}

/// Each block that `marked_blocks` gives is below the bound.
proof fn lemma_marked_below(row: Seq<bool>, n: int, k: int)
    requires
        0 <= k < marked_blocks(row, n).len(),
    ensures
        marked_blocks(row, n)[k] < n,
    decreases n,
{
    if n > 0 {
        let prev = marked_blocks(row, n - 1);
        if k < prev.len() {
            lemma_marked_below(row, n - 1, k);
        }
    }
}

} // verus!
