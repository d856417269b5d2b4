//! The control-flow graph of a region, its edges, and the classification of the edges of a
//! cycle into entry, exit and back edges.
use vstd::prelude::*;

verus! {

/// The control-flow graph of a region: for each block, the successors its terminator names,
/// in order.
#[derive(Debug, Clone)]
pub struct Cfg {
    pub successors: Vec<Vec<usize>>,
}

/// An edge of the graph: a block and the index of one of its terminator's successors.
#[derive(Clone, Copy, Debug, PartialEq, Eq, Structural)]
pub struct Edge {
    pub from_block: usize,
    pub successor_index: usize,
}

/// The entry, exit and back edges of a cycle.
#[derive(Debug, Clone)]
pub struct CycleEdges {
    /// Every edge from a block outside the cycle to a block inside it.
    pub entry_edges: Vec<Edge>,
    /// Every edge from a block inside the cycle to a block outside it.
    pub exit_edges: Vec<Edge>,
    /// Every edge from a block inside the cycle to an entry block of the cycle.
    pub back_edges: Vec<Edge>,
}

/// Block `a` comes before block `b` in `blocks`.
pub open spec fn comes_before(blocks: Seq<usize>, a: usize, b: usize) -> bool {
    exists|p: int, q: int| 0 <= p < q < blocks.len() && blocks[p] == a && blocks[q] == b
}

/// Edge `e1` leaves before edge `e2` in the order of the cycle `cycle`: its block comes first,
/// or, from the same block, its successor index is smaller.
pub open spec fn leaving_order(cycle: Seq<usize>, e1: Edge, e2: Edge) -> bool {
    comes_before(cycle, e1.from_block, e2.from_block) || (e1.from_block == e2.from_block
        && e1.successor_index < e2.successor_index)
}

/// Edge `e1` enters before edge `e2` in the order of the cycle `cycle`: its target comes
/// first, or, into the same block, it leaves a block of smaller number, or the same block at a
/// smaller successor index.
pub open spec fn entering_order(cfg: &Cfg, cycle: Seq<usize>, e1: Edge, e2: Edge) -> bool {
    comes_before(cycle, target(cfg, e1), target(cfg, e2)) || (target(cfg, e1) == target(cfg, e2)
        && (e1.from_block < e2.from_block || (e1.from_block == e2.from_block
        && e1.successor_index < e2.successor_index)))
}

/// Whether `e` is an edge of `cfg`.
pub open spec fn is_edge(cfg: &Cfg, e: Edge) -> bool {
    e.from_block < cfg.successors@.len() && e.successor_index
        < cfg.successors@[e.from_block as int]@.len()
}

/// The block edge `e` leads to.
pub open spec fn target(cfg: &Cfg, e: Edge) -> usize {
    cfg.successors@[e.from_block as int]@[e.successor_index as int]
}

/// `e` enters the cycle made of the blocks `cycle`.
pub open spec fn is_entry_edge(cfg: &Cfg, cycle: Seq<usize>, e: Edge) -> bool {
    is_edge(cfg, e) && !cycle.contains(e.from_block) && cycle.contains(target(cfg, e))
}

/// `e` leaves the cycle made of the blocks `cycle`.
pub open spec fn is_exit_edge(cfg: &Cfg, cycle: Seq<usize>, e: Edge) -> bool {
    is_edge(cfg, e) && cycle.contains(e.from_block) && !cycle.contains(target(cfg, e))
}

/// `b` is an entry block of the cycle: some entry edge leads to it.
pub open spec fn is_entry_block(cfg: &Cfg, cycle: Seq<usize>, b: usize) -> bool {
    exists|e: Edge| #[trigger] is_entry_edge(cfg, cycle, e) && target(cfg, e) == b
}

/// `e` goes from a block of the cycle back to one of its entry blocks.
pub open spec fn is_back_edge(cfg: &Cfg, cycle: Seq<usize>, e: Edge) -> bool {
    is_edge(cfg, e) && cycle.contains(e.from_block) && is_entry_block(cfg, cycle, target(cfg, e))
}

impl Edge {
    /// The block this edge leaves.
    pub fn get_from_block(&self) -> (r: usize)
        ensures
            r == self.from_block,
    {
        self.from_block
    }

    /// The block this edge leads to.
    pub fn get_successor(&self, cfg: &Cfg) -> (r: usize)
        requires
            is_edge(cfg, *self),
        ensures
            r == target(cfg, *self),
    {
        cfg.successors[self.from_block][self.successor_index]
    }

    /// Make this edge lead to `block`, changing the successor in its block's terminator.
    pub fn set_successor(&self, cfg: &mut Cfg, block: usize)
        requires
            is_edge(old(cfg), *self),
        ensures
            final(cfg).successors@.len() == old(cfg).successors@.len(),
            final(cfg).successors@[self.from_block as int]@ == old(cfg).successors@[self.from_block as int]@.update(
                self.successor_index as int,
                block,
            ),
            forall|b: int|
                0 <= b < old(cfg).successors@.len() && b != self.from_block
                    ==> final(cfg).successors@[b] == old(cfg).successors@[b],
    {
        cfg.successors[self.from_block].set(self.successor_index, block);
    }
}

/// The edges from a block to each of its successors, handed out one at a time in order.
#[derive(Clone, Copy, Debug)]
pub struct SuccessorEdges {
    pub block: usize,
    pub num_successors: usize,
    pub current: usize,
}

impl SuccessorEdges {
    /// The edges from `block`, starting at its first successor.
    pub fn new(cfg: &Cfg, block: usize) -> (r: SuccessorEdges)
        requires
            block < cfg.successors@.len(),
        ensures
            r.block == block,
            r.num_successors == cfg.successors@[block as int]@.len(),
            r.current == 0,
    {
        SuccessorEdges { block, num_successors: cfg.successors[block].len(), current: 0 }
    }

    /// The next edge, or `None` once the edge to the last successor has been handed out.
    pub fn next(&mut self) -> (r: Option<Edge>)
        ensures
            old(self).current < old(self).num_successors ==> {
                &&& r == Some(Edge { from_block: old(self).block, successor_index: old(self).current })
                &&& *final(self) == (SuccessorEdges { current: (old(self).current + 1) as usize, ..*old(self) })
            },
            old(self).current >= old(self).num_successors ==> r is None && *final(self) == *old(self),
    {
        let successor_index = self.current;
        if successor_index >= self.num_successors {
            return None;
        }
        self.current = self.current + 1;
        Some(Edge { from_block: self.block, successor_index })
    }
}

/// The edges from `block` to each of its successors, in order.
pub fn successor_edges(cfg: &Cfg, block: usize) -> (r: Vec<Edge>)
    requires
        block < cfg.successors@.len(),
    ensures
        r@.len() == cfg.successors@[block as int]@.len(),
        forall|i: int|
            0 <= i < r@.len() ==> #[trigger] r@[i] == (Edge {
                from_block: block,
                successor_index: i as usize,
            }),
{
    let n = cfg.successors[block].len();
    let mut edges: Vec<Edge> = Vec::new();
    let mut i: usize = 0;
    while i < n
        invariant
            n == cfg.successors@[block as int]@.len(),
            i <= n,
            edges@.len() == i,
            forall|k: int|
                0 <= k < i ==> #[trigger] edges@[k] == (Edge {
                    from_block: block,
                    successor_index: k as usize,
                }),
        decreases n - i,
    {
        edges.push(Edge { from_block: block, successor_index: i });
        i = i + 1;
    }
    edges
}

/// Whether `b` is one of `blocks`.
fn block_in(blocks: &[usize], b: usize) -> (r: bool)
    ensures
        r == blocks@.contains(b),
{
    let mut k: usize = 0;
    while k < blocks.len()
        invariant
            k <= blocks@.len(),
            forall|j: int| 0 <= j < k ==> blocks@[j] != b,
        decreases blocks@.len() - k,
    {
        if blocks[k] == b {
            assert(blocks@[k as int] == b);
            return true;
        }
        k = k + 1;
    }
    false
}

/// Whether some edge of `edges` leads to `b`.
fn leads_to(cfg: &Cfg, edges: &Vec<Edge>, b: usize) -> (r: bool)
    requires
        forall|j: int| 0 <= j < edges@.len() ==> is_edge(cfg, #[trigger] edges@[j]),
    ensures
        r == exists|j: int| 0 <= j < edges@.len() && target(cfg, #[trigger] edges@[j]) == b,
{
    let mut k: usize = 0;
    while k < edges.len()
        invariant
            k <= edges@.len(),
            forall|j: int| 0 <= j < edges@.len() ==> is_edge(cfg, #[trigger] edges@[j]),
            forall|j: int| 0 <= j < k ==> target(cfg, #[trigger] edges@[j]) != b,
        decreases edges@.len() - k,
    {
        let e = edges[k];
        if cfg.successors[e.from_block][e.successor_index] == b {
            return true;
        }
        k = k + 1;
    }
    false
}

/// Appending an edge that a list without repetitions lacks keeps it without repetitions.
proof fn lemma_push_new(s: Seq<Edge>, e: Edge)
    requires
        s.no_duplicates(),
        !s.contains(e),
    ensures
        s.push(e).no_duplicates(),
{
    let t = s.push(e);
    assert forall|i: int, j: int| 0 <= i < t.len() && 0 <= j < t.len() && i != j implies t[i] != t[j] by {
        if i < s.len() && j < s.len() {
            assert(t[i] == s[i] && t[j] == s[j]);
        } else if i < s.len() {
            assert(t[i] == s[i]);
        } else if j < s.len() {
            assert(t[j] == s[j]);
        }
    }
}

/// In a sequence without repetitions, no element occurs before its own position.
proof fn lemma_prefix_excludes(s: Seq<usize>, k: int)
    requires
        s.no_duplicates(),
        0 <= k < s.len(),
    ensures
        !s.take(k).contains(s[k]),
{
    if s.take(k).contains(s[k]) {
        let j = choose|j: int| 0 <= j < k && s.take(k)[j] == s[k];
        assert(s[j] == s[k]);
    }
}

/// A prefix grown by one element holds what it held, and that element.
proof fn lemma_take_one_more(s: Seq<usize>, k: int, x: usize)
    requires
        0 <= k < s.len(),
    ensures
        s.take(k + 1).contains(x) <==> (s.take(k).contains(x) || x == s[k]),
{
    let t0 = s.take(k);
    let t1 = s.take(k + 1);
    if t0.contains(x) {
        let j = choose|j: int| 0 <= j < t0.len() && t0[j] == x;
        assert(t1[j] == x);
    }
    if x == s[k] {
        assert(t1[k] == x);
    }
    if t1.contains(x) {
        let j = choose|j: int| 0 <= j < t1.len() && t1[j] == x;
        if j < k {
            assert(t0[j] == x);
        }
    }
}

/// The entry edges of the cycle `cycles` found so far: those into the cycle's first `k`
/// blocks, and those into block `k` from a block before `u`, or from block `u` at a successor
/// index before `i`.
pub open spec fn entry_edges_so_far(
    cfg: &Cfg,
    cycles: Seq<usize>,
    e: Edge,
    k: int,
    u: int,
    i: int,
) -> bool {
    is_entry_edge(cfg, cycles, e) && (cycles.take(k).contains(target(cfg, e)) || (k < cycles.len()
        && target(cfg, e) == cycles[k] && (e.from_block < u || (e.from_block == u
        && e.successor_index < i))))
}

/// Calculate the entry, exit and back edges of the cycle made of the blocks `cycles`.
pub fn calculate_cycle_edges(cfg: &Cfg, cycles: &[usize]) -> (r: CycleEdges)
    requires
        forall|k: int| 0 <= k < cycles@.len() ==> #[trigger] cycles@[k] < cfg.successors@.len(),
    ensures
        forall|e: Edge| r.entry_edges@.contains(e) <==> is_entry_edge(cfg, cycles@, e),
        forall|e: Edge| r.exit_edges@.contains(e) <==> is_exit_edge(cfg, cycles@, e),
        forall|e: Edge| r.back_edges@.contains(e) <==> is_back_edge(cfg, cycles@, e),
        cycles@.no_duplicates() ==> r.entry_edges@.no_duplicates() && r.exit_edges@.no_duplicates()
            && r.back_edges@.no_duplicates(),
        forall|x: int, y: int| 0 <= x < y < r.entry_edges@.len() ==> entering_order(cfg, cycles@, #[trigger] r.entry_edges@[x], #[trigger] r.entry_edges@[y]),
        forall|x: int, y: int| 0 <= x < y < r.exit_edges@.len() ==> leaving_order(cycles@, #[trigger] r.exit_edges@[x], #[trigger] r.exit_edges@[y]),
        forall|x: int, y: int| 0 <= x < y < r.back_edges@.len() ==> leaving_order(cycles@, #[trigger] r.back_edges@[x], #[trigger] r.back_edges@[y]),
{
    let n = cfg.successors.len();
    let mut entry_edges: Vec<Edge> = Vec::new();
    let mut exit_edges: Vec<Edge> = Vec::new();

    // Entry and exit edges: the edges into and out of each block of the cycle.
    let mut k: usize = 0;
    while k < cycles.len()
        invariant
            cycles@.no_duplicates() ==> entry_edges@.no_duplicates(),
            forall|x: int, y: int| 0 <= x < y < entry_edges@.len() ==> entering_order(cfg, cycles@, #[trigger] entry_edges@[x], #[trigger] entry_edges@[y]),
            cycles@.no_duplicates() ==> exit_edges@.no_duplicates(),
            forall|x: int, y: int| 0 <= x < y < exit_edges@.len() ==> leaving_order(cycles@, #[trigger] exit_edges@[x], #[trigger] exit_edges@[y]),
            n == cfg.successors@.len(),
            k <= cycles@.len(),
            forall|j: int| 0 <= j < cycles@.len() ==> #[trigger] cycles@[j] < cfg.successors@.len(),
            forall|e: Edge|
                #[trigger] entry_edges@.contains(e) <==> entry_edges_so_far(
                    cfg,
                    cycles@,
                    e,
                    k as int,
                    0,
                    0,
                ),
            forall|e: Edge|
                #[trigger] exit_edges@.contains(e) <==> (is_exit_edge(cfg, cycles@, e)
                    && cycles@.take(k as int).contains(e.from_block)),
        decreases cycles@.len() - k,
    {
        let b = cycles[k];
        let mut u: usize = 0;
        while u < n
            invariant
                cycles@.no_duplicates() ==> entry_edges@.no_duplicates(),
                forall|x: int, y: int| 0 <= x < y < entry_edges@.len() ==> entering_order(cfg, cycles@, #[trigger] entry_edges@[x], #[trigger] entry_edges@[y]),
                n == cfg.successors@.len(),
                k < cycles@.len(),
                b == cycles@[k as int],
                u <= n,
                forall|e: Edge|
                    #[trigger] entry_edges@.contains(e) <==> entry_edges_so_far(
                        cfg,
                        cycles@,
                        e,
                        k as int,
                        u as int,
                        0,
                    ),
            decreases n - u,
        {
            let from_outside = !block_in(cycles, u);
            let m = cfg.successors[u].len();
            let mut i: usize = 0;
            while i < m
                invariant
                    cycles@.no_duplicates() ==> entry_edges@.no_duplicates(),
                    forall|x: int, y: int| 0 <= x < y < entry_edges@.len() ==> entering_order(cfg, cycles@, #[trigger] entry_edges@[x], #[trigger] entry_edges@[y]),
                    n == cfg.successors@.len(),
                    k < cycles@.len(),
                    b == cycles@[k as int],
                    u < n,
                    m == cfg.successors@[u as int]@.len(),
                    from_outside == !cycles@.contains(u),
                    i <= m,
                    forall|e: Edge|
                        #[trigger] entry_edges@.contains(e) <==> entry_edges_so_far(
                            cfg,
                            cycles@,
                            e,
                            k as int,
                            u as int,
                            i as int,
                        ),
                decreases m - i,
            {
                if from_outside && cfg.successors[u][i] == b {
                    let e = Edge { from_block: u, successor_index: i };
                    let ghost before = entry_edges@;
                    entry_edges.push(e);
                    proof {
                        assert forall|x: int, y: int| 0 <= x < y < entry_edges@.len()
                            implies entering_order(cfg, cycles@, #[trigger] entry_edges@[x], #[trigger] entry_edges@[y]) by {
                            if y == before.len() {
                                let f = before[x];
                                assert(before.contains(f));
                                assert(entry_edges_so_far(cfg, cycles@, f, k as int, u as int, i as int));
                                if cycles@.take(k as int).contains(target(cfg, f)) {
                                    let pp = choose|pp: int| 0 <= pp < k && cycles@.take(k as int)[pp] == target(cfg, f);
                                    assert(cycles@[pp] == target(cfg, f));
                                    assert(cycles@[k as int] == b);
                                }
                            } else {
                                assert(entry_edges@[x] == before[x] && entry_edges@[y] == before[y]);
                            }
                        }
                        if cycles@.no_duplicates() {
                            lemma_prefix_excludes(cycles@, k as int);
                            assert(!entry_edges_so_far(cfg, cycles@, e, k as int, u as int, i as int));
                            lemma_push_new(before, e);
                        }
                        assert(cycles@[k as int] == b);
                        assert forall|f: Edge| #[trigger] entry_edges@.contains(f) <==> entry_edges_so_far(
                            cfg,
                            cycles@,
                            f,
                            k as int,
                            u as int,
                            i + 1,
                        ) by {
                            if f == e {
                                assert(entry_edges@[before.len() as int] == e);
                            } else if before.contains(f) {
                                let j = choose|j: int| 0 <= j < before.len() && before[j] == f;
                                assert(entry_edges@[j] == f);
                            } else if entry_edges@.contains(f) {
                                let j = choose|j: int| 0 <= j < entry_edges@.len() && entry_edges@[j] == f;
                                if j < before.len() {
                                    assert(before[j] == f);
                                }
                            }
                        }
                    }
                }
                i = i + 1;
            }
            u = u + 1;
        }
        proof {
            assert forall|e: Edge| #[trigger] entry_edges@.contains(e) <==> entry_edges_so_far(
                cfg,
                cycles@,
                e,
                k + 1,
                0,
                0,
            ) by {
                if is_edge(cfg, e) {
                    assert(e.from_block < n);
                    lemma_take_one_more(cycles@, k as int, target(cfg, e));
                }
            }
        }

        let m = cfg.successors[b].len();
        let mut i: usize = 0;
        while i < m
            invariant
                cycles@.no_duplicates() ==> exit_edges@.no_duplicates(),
                forall|x: int, y: int| 0 <= x < y < exit_edges@.len() ==> leaving_order(cycles@, #[trigger] exit_edges@[x], #[trigger] exit_edges@[y]),
                n == cfg.successors@.len(),
                k < cycles@.len(),
                b == cycles@[k as int],
                b < n,
                m == cfg.successors@[b as int]@.len(),
                i <= m,
                forall|e: Edge|
                    #[trigger] exit_edges@.contains(e) <==> ((is_exit_edge(cfg, cycles@, e)
                        && cycles@.take(k as int).contains(e.from_block)) || (is_exit_edge(
                        cfg,
                        cycles@,
                        e,
                    ) && e.from_block == b && e.successor_index < i)),
            decreases m - i,
        {
            let s = cfg.successors[b][i];
            if !block_in(cycles, s) {
                let e = Edge { from_block: b, successor_index: i };
                let ghost before = exit_edges@;
                exit_edges.push(e);
                proof {
                    assert forall|x: int, y: int| 0 <= x < y < exit_edges@.len()
                        implies leaving_order(cycles@, #[trigger] exit_edges@[x], #[trigger] exit_edges@[y]) by {
                        if y == before.len() {
                            let f = before[x];
                            assert(before.contains(f));
                            if cycles@.take(k as int).contains(f.from_block) {
                                let pp = choose|pp: int| 0 <= pp < k && cycles@.take(k as int)[pp] == f.from_block;
                                assert(cycles@[pp] == f.from_block);
                                assert(cycles@[k as int] == b);
                            }
                        } else {
                            assert(exit_edges@[x] == before[x] && exit_edges@[y] == before[y]);
                        }
                    }
                    if cycles@.no_duplicates() {
                        lemma_prefix_excludes(cycles@, k as int);
                        assert(!before.contains(e));
                        lemma_push_new(before, e);
                    }
                    assert(cycles@.contains(b)) by {
                        assert(cycles@[k as int] == b);
                    }
                    assert forall|f: Edge| #[trigger] exit_edges@.contains(f) <==> ((is_exit_edge(
                        cfg,
                        cycles@,
                        f,
                    ) && cycles@.take(k as int).contains(f.from_block)) || (is_exit_edge(
                        cfg,
                        cycles@,
                        f,
                    ) && f.from_block == b && f.successor_index < i + 1)) by {
                        if f == e {
                            assert(exit_edges@[before.len() as int] == e);
                        } else if before.contains(f) {
                            let j = choose|j: int| 0 <= j < before.len() && before[j] == f;
                            assert(exit_edges@[j] == f);
                        } else if exit_edges@.contains(f) {
                            let j = choose|j: int| 0 <= j < exit_edges@.len() && exit_edges@[j] == f;
                            if j < before.len() {
                                assert(before[j] == f);
                            }
                        }
                    }
                }
            }
            i = i + 1;
        }
        proof {
            assert forall|e: Edge| #[trigger] exit_edges@.contains(e) <==> (is_exit_edge(
                cfg,
                cycles@,
                e,
            ) && cycles@.take(k + 1).contains(e.from_block)) by {
                lemma_take_one_more(cycles@, k as int, e.from_block);
            }
        }
        k = k + 1;
    }
    proof {
        assert(cycles@.take(k as int) =~= cycles@);
        assert forall|e: Edge| #[trigger] entry_edges@.contains(e) <==> is_entry_edge(
            cfg,
            cycles@,
            e,
        ) by {
            assert(entry_edges_so_far(cfg, cycles@, e, k as int, 0, 0) == (is_entry_edge(
                cfg,
                cycles@,
                e,
            ) && cycles@.contains(target(cfg, e))));
        }
        assert forall|j: int| 0 <= j < entry_edges@.len() implies is_edge(
            cfg,
            #[trigger] entry_edges@[j],
        ) by {
            assert(entry_edges@.contains(entry_edges@[j]));
        }
    }

    // Back edges: the edges from a block of the cycle to an entry block.
    let mut back_edges: Vec<Edge> = Vec::new();
    let mut k: usize = 0;
    while k < cycles.len()
        invariant
            cycles@.no_duplicates() ==> back_edges@.no_duplicates(),
            forall|x: int, y: int| 0 <= x < y < back_edges@.len() ==> leaving_order(cycles@, #[trigger] back_edges@[x], #[trigger] back_edges@[y]),
            n == cfg.successors@.len(),
            k <= cycles@.len(),
            forall|j: int| 0 <= j < cycles@.len() ==> #[trigger] cycles@[j] < cfg.successors@.len(),
            forall|e: Edge| #[trigger] entry_edges@.contains(e) <==> is_entry_edge(cfg, cycles@, e),
            forall|j: int| 0 <= j < entry_edges@.len() ==> is_edge(cfg, #[trigger] entry_edges@[j]),
            forall|e: Edge|
                #[trigger] back_edges@.contains(e) <==> (is_back_edge(cfg, cycles@, e)
                    && cycles@.take(k as int).contains(e.from_block)),
        decreases cycles@.len() - k,
    {
        let b = cycles[k];
        let m = cfg.successors[b].len();
        let mut i: usize = 0;
        while i < m
            invariant
                cycles@.no_duplicates() ==> back_edges@.no_duplicates(),
                forall|x: int, y: int| 0 <= x < y < back_edges@.len() ==> leaving_order(cycles@, #[trigger] back_edges@[x], #[trigger] back_edges@[y]),
                n == cfg.successors@.len(),
                k < cycles@.len(),
                b == cycles@[k as int],
                b < n,
                m == cfg.successors@[b as int]@.len(),
                i <= m,
                forall|e: Edge|
                    #[trigger] entry_edges@.contains(e) <==> is_entry_edge(cfg, cycles@, e),
                forall|j: int|
                    0 <= j < entry_edges@.len() ==> is_edge(cfg, #[trigger] entry_edges@[j]),
                forall|e: Edge|
                    #[trigger] back_edges@.contains(e) <==> ((is_back_edge(cfg, cycles@, e)
                        && cycles@.take(k as int).contains(e.from_block)) || (is_back_edge(
                        cfg,
                        cycles@,
                        e,
                    ) && e.from_block == b && e.successor_index < i)),
            decreases m - i,
        {
            let s = cfg.successors[b][i];
            let is_entry = leads_to(cfg, &entry_edges, s);
            proof {
                if is_entry {
                    let j = choose|j: int|
                        0 <= j < entry_edges@.len() && target(cfg, #[trigger] entry_edges@[j]) == s;
                    assert(entry_edges@.contains(entry_edges@[j]));
                    assert(is_entry_edge(cfg, cycles@, entry_edges@[j]));
                    assert(is_entry_block(cfg, cycles@, s));
                } else {
                    if is_entry_block(cfg, cycles@, s) {
                        let e = choose|e: Edge| #[trigger] is_entry_edge(cfg, cycles@, e) && target(
                            cfg,
                            e,
                        ) == s;
                        assert(entry_edges@.contains(e));
                        let j = choose|j: int| 0 <= j < entry_edges@.len() && entry_edges@[j] == e;
                        assert(target(cfg, entry_edges@[j]) == s);
                    }
                }
            }
            if is_entry {
                let e = Edge { from_block: b, successor_index: i };
                let ghost before = back_edges@;
                back_edges.push(e);
                proof {
                    assert forall|x: int, y: int| 0 <= x < y < back_edges@.len()
                        implies leaving_order(cycles@, #[trigger] back_edges@[x], #[trigger] back_edges@[y]) by {
                        if y == before.len() {
                            let f = before[x];
                            assert(before.contains(f));
                            if cycles@.take(k as int).contains(f.from_block) {
                                let pp = choose|pp: int| 0 <= pp < k && cycles@.take(k as int)[pp] == f.from_block;
                                assert(cycles@[pp] == f.from_block);
                                assert(cycles@[k as int] == b);
                            }
                        } else {
                            assert(back_edges@[x] == before[x] && back_edges@[y] == before[y]);
                        }
                    }
                    if cycles@.no_duplicates() {
                        lemma_prefix_excludes(cycles@, k as int);
                        assert(!before.contains(e));
                        lemma_push_new(before, e);
                    }
                    assert(cycles@.contains(b)) by {
                        assert(cycles@[k as int] == b);
                    }
                    assert forall|f: Edge| #[trigger] back_edges@.contains(f) <==> ((is_back_edge(
                        cfg,
                        cycles@,
                        f,
                    ) && cycles@.take(k as int).contains(f.from_block)) || (is_back_edge(
                        cfg,
                        cycles@,
                        f,
                    ) && f.from_block == b && f.successor_index < i + 1)) by {
                        if f == e {
                            assert(back_edges@[before.len() as int] == e);
                        } else if before.contains(f) {
                            let j = choose|j: int| 0 <= j < before.len() && before[j] == f;
                            assert(back_edges@[j] == f);
                        } else if back_edges@.contains(f) {
                            let j = choose|j: int| 0 <= j < back_edges@.len() && back_edges@[j] == f;
                            if j < before.len() {
                                assert(before[j] == f);
                            }
                        }
                    }
                }
            }
            i = i + 1;
        }
        proof {
            assert forall|e: Edge| #[trigger] back_edges@.contains(e) <==> (is_back_edge(
                cfg,
                cycles@,
                e,
            ) && cycles@.take(k + 1).contains(e.from_block)) by {
                lemma_take_one_more(cycles@, k as int, e.from_block);
            }
        }
        k = k + 1;
    }
    proof {
        assert(cycles@.take(k as int) =~= cycles@);
    }
    CycleEdges { entry_edges, exit_edges, back_edges }
}

} // verus!
