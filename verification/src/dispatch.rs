//! The binary search that lowers a switch over case values: a tree of nested branches on the
//! selector value, whose leaves are the cases and the fallback.
//!
//! The planner partitions the cases around their midpoint into two runs `a` (below the
//! partition point) and `b` (the rest), and branches on the selector until a single
//! comparison with a case decides.
use vstd::prelude::*;

verus! {

/// A tree of nested branches on the selector value.
#[derive(Debug, PartialEq, Eq)]
pub enum Dispatch {
    /// `if selector == value { then_branch } else { else_branch }`
    IfEq { value: u32, then_branch: Box<Dispatch>, else_branch: Box<Dispatch> },
    /// `if selector <= bound { then_branch } else { else_branch }`
    IfLte { bound: u32, then_branch: Box<Dispatch>, else_branch: Box<Dispatch> },
    /// The region of this case value.
    Case(u32),
    /// The fallback region.
    Fallback,
}

/// The case the selector `s` reaches in `d`, or `None` for the fallback.
pub open spec fn route(d: Dispatch, s: u32) -> Option<u32>
    decreases d,
{
    match d {
        Dispatch::IfEq { value, then_branch, else_branch } => if s == value {
            route(*then_branch, s)
        } else {
            route(*else_branch, s)
        },
        Dispatch::IfLte { bound, then_branch, else_branch } => if s <= bound {
            route(*then_branch, s)
        } else {
            route(*else_branch, s)
        },
        Dispatch::Case(c) => Some(c),
        Dispatch::Fallback => None,
    }
}

/// The midpoint of `x` and `y`, rounded down.
pub open spec fn mid_of(x: u32, y: u32) -> u32 {
    ((x + y) / 2) as u32
}

/// The number of leading elements of `s` below `m`: for a sorted `s`, the partition point of
/// the predicate "below `m`".
pub open spec fn count_below(s: Seq<u32>, m: u32) -> nat
    decreases s.len(),
{
    if s.len() == 0 {
        0
    } else if s[0] < m {
        1 + count_below(s.drop_first(), m)
    } else {
        0
    }
}

/// `n` rounded up to an even number.
pub open spec fn round_up_even(n: nat) -> nat {
    if n % 2 == 1 {
        n + 1
    } else {
        n
    }
}

/// The midpoint of the first and last elements of `s`.
pub open spec fn split_mid(s: Seq<u32>) -> u32
    recommends
        s.len() > 0,
{
    mid_of(s[0], s.last())
}

/// Where `s` is partitioned: the partition point of its midpoint, rounded up to an even
/// number, and at most the length of `s`.
pub open spec fn split_index(s: Seq<u32>) -> int
    recommends
        s.len() > 0,
{
    let p = round_up_even(count_below(s, split_mid(s)));
    if p < s.len() {
        p as int
    } else {
        s.len() as int
    }
}

/// The number of cases at or above which the search emits no fallback for a run of two
/// cases: any number greater than two.
pub open spec fn more_than_two() -> int {
    usize::MAX as int
}

/// The search over the runs `a` and `b`, derived from the midpoint `midpoint`, out of
/// `num` cases in all:
/// - no `a` and one case in `b`: compare with it, else fallback;
/// - no `a` and two cases in `b`: if at most the second, search them, else fallback;
/// - two cases in `a`, no `b`, two cases in all: likewise;
/// - two cases in `a`, no `b`, more cases in all: compare with the first, else the second;
/// - two cases in `a` and some in `b`: if at most the second of `a`, search `a`, else
///   partition and search `b`;
/// - otherwise: if at most the last case of `a`, the partition value that `midpoint` gave,
///   partition and search `a`, else `b`.
pub open spec fn plan(a: Seq<u32>, b: Seq<u32>, midpoint: u32, num: int) -> Dispatch
    decreases a.len() + b.len(), if a.len() == 0 {
        2int
    } else if num == 2 {
        1int
    } else {
        0int
    },
{
    if a.len() == 0 {
        if b.len() == 1 {
            Dispatch::IfEq {
                value: b[0],
                then_branch: Box::new(Dispatch::Case(b[0])),
                else_branch: Box::new(Dispatch::Fallback),
            }
        } else if b.len() == 2 {
            Dispatch::IfLte {
                bound: b[1],
                then_branch: Box::new(plan(b, Seq::empty(), midpoint, more_than_two())),
                else_branch: Box::new(Dispatch::Fallback),
            }
        } else {
            Dispatch::Fallback
        }
    } else if a.len() == 2 && b.len() == 0 && num == 2 {
        Dispatch::IfLte {
            bound: a[1],
            then_branch: Box::new(plan(a, Seq::empty(), midpoint, more_than_two())),
            else_branch: Box::new(Dispatch::Fallback),
        }
    } else if a.len() == 2 && b.len() == 0 && num > 2 {
        Dispatch::IfEq {
            value: a[0],
            then_branch: Box::new(Dispatch::Case(a[0])),
            else_branch: Box::new(Dispatch::Case(a[1])),
        }
    } else if b.len() == 0 {
        Dispatch::Fallback
    } else if a.len() == 2 {
        let pb = split_index(b);
        Dispatch::IfLte {
            bound: a[1],
            then_branch: Box::new(plan(a, Seq::empty(), midpoint, more_than_two())),
            else_branch: Box::new(
                plan(b.take(pb), b.skip(pb), split_mid(b), b.len() as int),
            ),
        }
    } else {
        let pa = split_index(a);
        let pb = split_index(b);
        Dispatch::IfLte {
            bound: a.last(),
            then_branch: Box::new(
                plan(a.take(pa), a.skip(pa), split_mid(a), a.len() as int),
            ),
            else_branch: Box::new(
                plan(b.take(pb), b.skip(pb), split_mid(b), b.len() as int),
            ),
        }
    }
}

/// The search over `a` and `b` completes: every run it meets has a shape the search handles
/// (no `a` and one or two cases in `b`; two cases in `a` and no `b` with at least two cases
/// in all; otherwise some `b`).
pub open spec fn plan_ok(a: Seq<u32>, b: Seq<u32>, num: int) -> bool
    decreases a.len() + b.len(), if a.len() == 0 {
        2int
    } else if num == 2 {
        1int
    } else {
        0int
    },
{
    if a.len() == 0 {
        b.len() == 1 || (b.len() == 2 && plan_ok(b, Seq::empty(), more_than_two()))
    } else if a.len() == 2 && b.len() == 0 && num == 2 {
        plan_ok(a, Seq::empty(), more_than_two())
    } else if a.len() == 2 && b.len() == 0 && num > 2 {
        true
    } else if b.len() == 0 {
        false
    } else if a.len() == 2 {
        let pb = split_index(b);
        plan_ok(b.take(pb), b.skip(pb), b.len() as int)
    } else {
        let pa = split_index(a);
        let pb = split_index(b);
        plan_ok(a.take(pa), a.skip(pa), a.len() as int) && plan_ok(
            b.take(pb),
            b.skip(pb),
            b.len() as int,
        )
    }
}

/// The search over all of `cases`, partitioned at their split point.
pub open spec fn plan_switch(cases: Seq<u32>) -> Dispatch {
    let p = split_index(cases);
    plan(cases.take(p), cases.skip(p), split_mid(cases), cases.len() as int)
}

/// The search over all of `cases` completes.
pub open spec fn plan_switch_ok(cases: Seq<u32>) -> bool {
    let p = split_index(cases);
    cases.len() > 0 && plan_ok(cases.take(p), cases.skip(p), cases.len() as int)
}

/// The midpoint of `x` and `y`, rounded down.
fn midpoint_of(x: u32, y: u32) -> (r: u32)
    ensures
        r == mid_of(x, y),
{
    ((x as u64 + y as u64) / 2) as u32
}

/// The split point and the midpoint of `s`.
fn split(s: &[u32]) -> (r: (usize, u32))
    requires
        s@.len() > 0,
    ensures
        r.0 == split_index(s@),
        r.1 == split_mid(s@),
{
    let mid = midpoint_of(s[0], s[s.len() - 1]);
    let mut count: usize = 0;
    assert(s@.skip(0) =~= s@);
    while count < s.len() && s[count] < mid
        invariant
            count <= s@.len(),
            count_below(s@, mid) == count + count_below(s@.skip(count as int), mid),
        decreases s@.len() - count,
    {
        proof {
            assert(s@.skip(count as int).drop_first() =~= s@.skip(count + 1));
        }
        count = count + 1;
    }
    proof {
        if count < s@.len() {
            assert(s@.skip(count as int)[0] == s@[count as int]);
        }
        assert(count_below(s@.skip(count as int), mid) == 0);
    }
    let p = if count % 2 == 1 {
        if count < s.len() {
            count + 1
        } else {
            s.len()
        }
    } else {
        count
    };
    (p, mid)
}

/// The tree of nested branches that the binary search over the runs `a` and `b` emits (see
/// `plan`): `midpoint` is the midpoint the partition into `a` and `b` was derived from, and
/// `num_cases` the number of cases partitioned.
pub fn emit_binary_search(a: &[u32], b: &[u32], midpoint: u32, num_cases: usize) -> (r: Dispatch)
    requires
        plan_ok(a@, b@, num_cases as int),
    ensures
        r == plan(a@, b@, midpoint, num_cases as int),
    decreases a@.len() + b@.len(), if a@.len() == 0 {
        2int
    } else if num_cases == 2 {
        1int
    } else {
        0int
    },
{
    let empty: &[u32] = &[];
    assert(empty@ =~= Seq::<u32>::empty());
    if a.len() == 0 {
        if b.len() == 1 {
            Dispatch::IfEq {
                value: b[0],
                then_branch: Box::new(Dispatch::Case(b[0])),
                else_branch: Box::new(Dispatch::Fallback),
            }
        } else {
            let then_branch = emit_binary_search(b, empty, midpoint, usize::MAX);
            Dispatch::IfLte {
                bound: b[1],
                then_branch: Box::new(then_branch),
                else_branch: Box::new(Dispatch::Fallback),
            }
        }
    } else if a.len() == 2 && b.len() == 0 && num_cases == 2 {
        let then_branch = emit_binary_search(a, empty, midpoint, usize::MAX);
        Dispatch::IfLte {
            bound: a[1],
            then_branch: Box::new(then_branch),
            else_branch: Box::new(Dispatch::Fallback),
        }
    } else if a.len() == 2 && b.len() == 0 && num_cases > 2 {
        Dispatch::IfEq {
            value: a[0],
            then_branch: Box::new(Dispatch::Case(a[0])),
            else_branch: Box::new(Dispatch::Case(a[1])),
        }
    } else if a.len() == 2 {
        let then_branch = emit_binary_search(a, empty, midpoint, usize::MAX);
        let (pb, mid_b) = split(b);
        let (b_then, b_else) = b.split_at(pb);
        let else_branch = emit_binary_search(b_then, b_else, mid_b, b.len());
        Dispatch::IfLte {
            bound: a[1],
            then_branch: Box::new(then_branch),
            else_branch: Box::new(else_branch),
        }
    } else {
        let (pa, mid_a) = split(a);
        let (a_then, a_else) = a.split_at(pa);
        let then_branch = emit_binary_search(a_then, a_else, mid_a, a.len());
        let (pb, mid_b) = split(b);
        let (b_then, b_else) = b.split_at(pb);
        let else_branch = emit_binary_search(b_then, b_else, mid_b, b.len());
        Dispatch::IfLte {
            bound: a[a.len() - 1],
            then_branch: Box::new(then_branch),
            else_branch: Box::new(else_branch),
        }
    }
}

/// The tree of nested branches that the binary search over all of `cases` emits (see
/// `plan_switch`).
///
/// Over consecutive case values, every selector from the first case on reaches its own case
/// when it is one, and the fallback otherwise.
pub fn emit_switch(cases: &[u32]) -> (r: Dispatch)
    requires
        plan_switch_ok(cases@),
    ensures
        r == plan_switch(cases@),
        contiguous(cases@) ==> forall|s: u32| cases@[0] <= s ==> #[trigger] route(r, s) == if s <= cases@.last() {
            Some(s)
        } else {
            None
        },
{
    proof {
        if contiguous(cases@) {
            assert forall|s: u32| cases@[0] <= s implies #[trigger] route(plan_switch(cases@), s) == if s <= cases@.last() {
                Some(s)
            } else {
                None
            } by {
                lemma_switch_routes(cases@, s);
            }
        }
    }
    let (p, mid) = split(cases);
    let (a, b) = cases.split_at(p);
    emit_binary_search(a, b, mid, cases.len())
}

/// The case the selector `s` reaches in `d`, or `None` for the fallback.
pub fn route_selector(d: &Dispatch, s: u32) -> (r: Option<u32>)
    ensures
        r == route(*d, s),
    decreases d,
{
    match d {
        Dispatch::IfEq { value, then_branch, else_branch } => if s == *value {
            route_selector(then_branch, s)
        } else {
            route_selector(else_branch, s)
        },
        Dispatch::IfLte { bound, then_branch, else_branch } => if s <= *bound {
            route_selector(then_branch, s)
        } else {
            route_selector(else_branch, s)
        },
        Dispatch::Case(c) => Some(*c),
        Dispatch::Fallback => None,
    }
}

} // verus!

verus! {

/// Consecutive case values: each is one more than the one before.
pub open spec fn contiguous(s: Seq<u32>) -> bool {
    forall|i: int| 0 <= i < s.len() ==> #[trigger] s[i] == s[0] + i
}

/// The number of leading elements of consecutive values below `m`, for `m` within their
/// range, is the distance from the first to `m`.
proof fn lemma_count_below_contiguous(c: Seq<u32>, m: u32)
    requires
        contiguous(c),
        c.len() > 0,
        c[0] <= m <= c[0] + c.len(),
    ensures
        count_below(c, m) == m - c[0],
    decreases c.len(),
{
    if c[0] < m {
        let d = c.drop_first();
        assert(count_below(c, m) == 1 + count_below(d, m));
        if d.len() == 0 {
            assert(count_below(d, m) == 0);
        } else {
            assert forall|i: int| 0 <= i < d.len() implies #[trigger] d[i] == d[0] + i by {
                assert(d[i] == c[i + 1]);
                assert(c[i + 1] == c[0] + i + 1);
                assert(c[1] == c[0] + 1);
            }
            assert(d[0] == c[1]);
            assert(c[1] == c[0] + 1);
            lemma_count_below_contiguous(d, m);
        }
    }
}

/// A run of consecutive values stays one when cut.
proof fn lemma_contiguous_cut(c: Seq<u32>, p: int)
    requires
        contiguous(c),
        0 <= p <= c.len(),
    ensures
        contiguous(c.take(p)),
        contiguous(c.skip(p)),
        c.take(p) + c.skip(p) == c,
{
    let t = c.take(p);
    let k = c.skip(p);
    assert forall|i: int| 0 <= i < t.len() implies #[trigger] t[i] == t[0] + i by {
        assert(t[i] == c[i]);
        assert(t[0] == c[0]);
    }
    assert forall|i: int| 0 <= i < k.len() implies #[trigger] k[i] == k[0] + i by {
        assert(k[i] == c[p + i]);
        assert(k[0] == c[p]);
        assert(c[p + i] == c[0] + p + i);
        assert(c[p] == c[0] + p);
    }
    assert(t + k =~= c);
}

/// Runs `a` and `b` that together are consecutive are each consecutive, and `b` starts right
/// after `a`.
proof fn lemma_contiguous_parts(a: Seq<u32>, b: Seq<u32>)
    requires
        contiguous(a + b),
    ensures
        contiguous(a),
        contiguous(b),
        a.len() > 0 && b.len() > 0 ==> b[0] == a.last() + 1,
        a.len() > 0 ==> (a + b)[0] == a[0],
        a.len() == 0 && b.len() > 0 ==> (a + b)[0] == b[0],
        b.len() > 0 ==> (a + b).last() == b.last(),
        b.len() == 0 && a.len() > 0 ==> (a + b).last() == a.last(),
{
    let c = a + b;
    lemma_contiguous_cut(c, a.len() as int);
    assert(c.take(a.len() as int) =~= a);
    assert(c.skip(a.len() as int) =~= b);
    if a.len() > 0 && b.len() > 0 {
        assert(c[a.len() as int] == b[0]);
        assert(c[a.len() - 1] == a.last());
        assert(c[a.len() as int] == c[0] + a.len());
        assert(c[a.len() - 1] == c[0] + a.len() - 1);
    }
}

/// How a run of consecutive values is split: around the middle, into an even number of
/// values (none for one or two values, at least two for more) and a non-empty rest, which
/// starts at most one past the midpoint.
pub proof fn lemma_split_contiguous(c: Seq<u32>)
    requires
        contiguous(c),
        c.len() > 0,
    ensures
        split_mid(c) == c[0] + (c.len() - 1) / 2,
        c.len() <= 2 ==> split_index(c) == 0,
        c.len() >= 2 ==> split_index(c) < c.len(),
        c.len() >= 3 ==> split_index(c) >= 2,
        split_index(c) % 2 == 0,
        0 <= split_index(c) <= c.len(),
        split_index(c) < c.len() ==> c[split_index(c)] <= split_mid(c) + 1,
        split_index(c) < c.len() ==> (c[split_index(c)] == split_mid(c) + 1 <==> ((c.len() - 1)
            / 2) % 2 == 1),
{
    let n = c.len();
    assert(c[n - 1] == c[0] + n - 1);
    let m = split_mid(c);
    assert(m == c[0] + (n - 1) / 2);
    lemma_count_below_contiguous(c, m);
    let k = count_below(c, m);
    assert(k == (n - 1) / 2);
    let p = split_index(c);
    if p < n {
        assert(c[p] == c[0] + p);
    }
}

/// The searches over consecutive case values complete.
pub proof fn lemma_contiguous_plan_ok(c: Seq<u32>)
    requires
        contiguous(c),
        c.len() > 0,
    ensures
        plan_switch_ok(c),
    decreases c.len(),
{
    let p = split_index(c);
    lemma_split_contiguous(c);
    lemma_contiguous_cut(c, p);
    let a = c.take(p);
    let b = c.skip(p);
    if c.len() <= 2 {
        assert(a.len() == 0);
        assert(b =~= c);
        if c.len() == 2 {
            assert(plan_ok(b, Seq::empty(), more_than_two()));
        }
    } else if p == 2 {
        assert(a.len() == 2 && b.len() > 0);
        lemma_contiguous_plan_ok(b);
    } else {
        assert(a.len() == p && p != 2 && p != 0 && b.len() > 0);
        lemma_contiguous_plan_ok(a);
        lemma_contiguous_plan_ok(b);
    }
}

/// The search over consecutive runs `a` and `b`, in a context where the selector is at
/// least the first case, reaches the selector's case for every case value and the fallback
/// for every value past the last case.
pub proof fn lemma_plan_routes(
    a: Seq<u32>,
    b: Seq<u32>,
    midpoint: u32,
    num: int,
    s: u32,
    lo: int,
    hi: int,
)
    requires
        plan_ok(a, b, num),
        contiguous(a + b),
        (a + b).len() > 0,
        (a + b)[0] <= lo <= s <= hi,
        a.len() == 2 && b.len() == 0 && num > 2 ==> hi <= a[1],
    ensures
        route(plan(a, b, midpoint, num), s) == if s <= (a + b).last() {
            Some(s)
        } else {
            None
        },
    decreases a.len() + b.len(), if a.len() == 0 {
        2int
    } else if num == 2 {
        1int
    } else {
        0int
    },
{
    reveal_with_fuel(route, 3);
    lemma_contiguous_parts(a, b);
    let empty = Seq::<u32>::empty();
    if a.len() == 0 {
        if b.len() == 2 {
            assert(b + empty =~= b);
            assert(b[1] == b[0] + 1);
            let h = if hi < b[1] {
                hi
            } else {
                b[1] as int
            };
            if s <= b[1] {
                lemma_plan_routes(b, empty, midpoint, more_than_two(), s, lo, h);
            }
        }
    } else if a.len() == 2 && b.len() == 0 && num == 2 {
        assert(a + empty =~= a);
        let h = if hi < a[1] {
            hi
        } else {
            a[1] as int
        };
        if s <= a[1] {
            lemma_plan_routes(a, empty, midpoint, more_than_two(), s, lo, h);
        }
    } else if a.len() == 2 && b.len() == 0 && num > 2 {
        assert(a[1] == a[0] + 1);
    } else if b.len() == 0 {
    } else if a.len() == 2 {
        assert(a + empty =~= a);
        let pb = split_index(b);
        lemma_split_contiguous(b);
        lemma_contiguous_cut(b, pb);
        if s <= a[1] {
            let h = if hi < a[1] {
                hi
            } else {
                a[1] as int
            };
            lemma_plan_routes(a, empty, midpoint, more_than_two(), s, lo, h);
        } else {
            let l = if lo < a[1] + 1 {
                a[1] + 1
            } else {
                lo
            };
            lemma_plan_routes(b.take(pb), b.skip(pb), split_mid(b), b.len() as int, s, l, hi);
        }
    } else {
        let pa = split_index(a);
        let pb = split_index(b);
        lemma_split_contiguous(a);
        lemma_contiguous_cut(a, pa);
        lemma_split_contiguous(b);
        lemma_contiguous_cut(b, pb);
        let bound = a.last();
        if s <= bound {
            let h = if hi < bound {
                hi
            } else {
                bound as int
            };
            lemma_plan_routes(a.take(pa), a.skip(pa), split_mid(a), a.len() as int, s, lo, h);
        } else {
            let l = if lo < bound + 1 {
                bound + 1
            } else {
                lo
            };
            lemma_plan_routes(b.take(pb), b.skip(pb), split_mid(b), b.len() as int, s, l, hi);
        }
    }
}

/// The search over consecutive case values sends each case value to its case and each
/// value past the last case to the fallback.
pub proof fn lemma_switch_routes(cases: Seq<u32>, s: u32)
    requires
        contiguous(cases),
        cases.len() > 0,
        cases[0] <= s,
    ensures
        plan_switch_ok(cases),
        route(plan_switch(cases), s) == if s <= cases.last() {
            Some(s)
        } else {
            None
        },
{
    lemma_contiguous_plan_ok(cases);
    let p = split_index(cases);
    lemma_split_contiguous(cases);
    lemma_contiguous_cut(cases, p);
    lemma_plan_routes(
        cases.take(p),
        cases.skip(p),
        split_mid(cases),
        cases.len() as int,
        s,
        cases[0] as int,
        u32::MAX as int,
    );
}

/// The cases `0, 1, ..., n - 1`.
pub open spec fn first_cases(n: nat) -> Seq<u32> {
    Seq::new(n, |i: int| i as u32)
}

/// The search over the cases `0` to `n - 1` sends every selector below `n` to its own case and
/// every other selector to the fallback.
pub proof fn lemma_first_cases_route(n: nat, s: u32)
    requires
        0 < n <= u32::MAX as nat + 1,
    ensures
        plan_switch_ok(first_cases(n)),
        route(plan_switch(first_cases(n)), s) == if s < n {
            Some(s)
        } else {
            None
        },
{
    let c = first_cases(n);
    assert(contiguous(c));
    lemma_switch_routes(c, s);
}

} // verus!
