use midenc::branch_regions::BranchPlan;
use midenc::cfg::{Cfg, Edge};
use midenc::cfg_to_scf::{Region, ReturnKind, Terminator, TransformationContext, ValueDef, ValueInfo};
use midenc::ir::{Type, ValueRef};

fn v(index: usize) -> ValueRef {
    ValueRef { index }
}

fn context(successors: Vec<Vec<usize>>) -> TransformationContext {
    let n = successors.len();
    let operands = successors.iter().map(|s| vec![vec![]; s.len()]).collect();
    let terminators = successors
        .iter()
        .map(|s| match s.len() {
            0 => Terminator::ReturnLike { kind: ReturnKind::Return, operands: vec![] },
            1 => Terminator::Br,
            _ => Terminator::CondBr { condition: v(0) },
        })
        .collect();
    TransformationContext {
        region: Region {
            cfg: Cfg { successors },
            operands,
            args: vec![vec![]; n],
            terminators,
            values: vec![ValueInfo { ty: Type::I1, def: ValueDef::Result }],
        },
        entry: 0,
        switch_value_cache: vec![],
        typed_undef_cache: vec![],
        return_like_to_combined_exit: vec![],
    }
}

/// Block 0 dominates every block and each block dominates itself; `extra` lists the other
/// pairs (dominator, dominated).
fn dominance(n: usize, extra: &[(usize, usize)]) -> Vec<Vec<bool>> {
    let mut d = vec![vec![false; n]; n];
    for b in 0..n {
        d[b][b] = true;
        d[0][b] = true;
    }
    for &(a, b) in extra {
        d[a][b] = true;
    }
    d
}

fn e(from_block: usize, successor_index: usize) -> Edge {
    Edge { from_block, successor_index }
}

#[test]
fn a_diamond_is_structured_with_its_join_as_continuation() {
    let ctx = context(vec![vec![1, 2], vec![3], vec![3], vec![]]);
    let plan = ctx.plan_structured_cf_branches(0, &dominance(4, &[]));
    match plan {
        BranchPlan::Structure { regions, continuation_edges, continuation, continuation_follows_all } => {
            assert_eq!(regions, vec![vec![1], vec![2]]);
            assert_eq!(continuation_edges, vec![e(1, 0), e(2, 0)]);
            assert_eq!(continuation, Some(3));
            assert!(continuation_follows_all);
        }
        other => panic!("unexpected plan {other:?}"),
    }
}

#[test]
fn branches_that_each_return_are_kept() {
    let ctx = context(vec![vec![1, 2], vec![], vec![]]);
    let plan = ctx.plan_structured_cf_branches(0, &dominance(3, &[]));
    assert!(matches!(plan, BranchPlan::KeepBranch(ref s) if *s == vec![1, 2]));
}

#[test]
fn a_successor_with_other_predecessors_has_an_empty_branch_region() {
    let ctx = context(vec![vec![1, 2], vec![2], vec![]]);
    let plan = ctx.plan_structured_cf_branches(0, &dominance(3, &[]));
    match plan {
        BranchPlan::Structure { regions, continuation_edges, continuation, continuation_follows_all } => {
            assert_eq!(regions, vec![vec![1], vec![]]);
            assert_eq!(continuation_edges, vec![e(1, 0), e(0, 1)]);
            assert_eq!(continuation, Some(2));
            assert!(continuation_follows_all);
        }
        other => panic!("unexpected plan {other:?}"),
    }
}

#[test]
fn branches_that_only_end_in_returns_are_kept() {
    // Block 1 returns; block 2 goes on to block 3, which returns.
    let ctx = context(vec![vec![1, 2], vec![], vec![3], vec![]]);
    let plan = ctx.plan_structured_cf_branches(0, &dominance(4, &[(2, 3)]));
    assert!(matches!(plan, BranchPlan::KeepBranch(ref s) if *s == vec![1, 2]));
}

#[test]
fn a_returning_block_means_the_continuation_does_not_follow_every_region() {
    // Block 1 goes on to the returning block 3 or to block 4; block 2 goes to block 4.
    let ctx = context(vec![vec![1, 2], vec![3, 4], vec![4], vec![], vec![]]);
    let plan = ctx.plan_structured_cf_branches(0, &dominance(5, &[(1, 3)]));
    match plan {
        BranchPlan::Structure { regions, continuation_edges, continuation, continuation_follows_all } => {
            assert_eq!(regions, vec![vec![1, 3], vec![2]]);
            assert_eq!(continuation_edges, vec![e(1, 1), e(1, 0), e(2, 0)]);
            assert_eq!(continuation, None);
            assert!(!continuation_follows_all);
        }
        other => panic!("unexpected plan {other:?}"),
    }
}

#[test]
fn no_successor_and_one_successor() {
    let ctx = context(vec![vec![]]);
    assert!(matches!(ctx.plan_structured_cf_branches(0, &dominance(1, &[])), BranchPlan::NoBranch));
    let ctx = context(vec![vec![1], vec![]]);
    assert!(matches!(ctx.plan_structured_cf_branches(0, &dominance(2, &[])), BranchPlan::MergeSuccessor(1)));
}
