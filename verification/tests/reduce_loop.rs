use midenc::cfg::Cfg;
use midenc::cfg_to_scf::{ConstantDef, Region, ReturnKind, Terminator, TransformationContext, ValueDef, ValueInfo};
use midenc::ir::{Type, ValueRef};

fn v(index: usize) -> ValueRef {
    ValueRef { index }
}

fn result(ty: Type, block: usize) -> ValueInfo {
    ValueInfo { ty, def: ValueDef::BlockResult(block) }
}

fn arg(ty: Type, block: usize, index: usize) -> ValueInfo {
    ValueInfo { ty, def: ValueDef::Arg { block, index } }
}

fn context(region: Region) -> TransformationContext {
    TransformationContext {
        region,
        entry: 0,
        switch_value_cache: vec![],
        typed_undef_cache: vec![],
        return_like_to_combined_exit: vec![],
    }
}

fn poison_of(region: &Region, value: ValueRef) -> Option<Type> {
    match &region.values[value.index].def {
        ValueDef::Constant(ConstantDef::Poison(t)) => Some(t.clone()),
        _ => None,
    }
}

/// Every block dominates itself and block 0 dominates every block; `extra` lists the other
/// pairs (dominator, dominated).
fn dominance(n: usize, extra: &[(usize, usize)]) -> Vec<Vec<bool>> {
    let mut d = vec![vec![false; n]; n];
    for b in 0..n {
        d[b][b] = true;
        d[0][b] = true;
    }
    for &(a, b) in extra {
        d[a][b] = true;
    }
    d
}

/// Block 0 enters the loop made of the header 1 and the latch 2, which repeats or leaves to
/// the exit block 3; the exit block passes on a value defined in the latch to block 4, which
/// returns it.
fn loop_with_escaping_value() -> Region {
    Region {
        cfg: Cfg { successors: vec![vec![1], vec![2], vec![1, 3], vec![4], vec![]] },
        operands: vec![vec![vec![v(0)]], vec![vec![]], vec![vec![v(1)], vec![]], vec![vec![v(3)]], vec![]],
        args: vec![vec![], vec![v(1)], vec![], vec![], vec![v(4)]],
        terminators: vec![
            Terminator::Br,
            Terminator::Br,
            Terminator::CondBr { condition: v(2) },
            Terminator::Br,
            Terminator::ReturnLike { kind: ReturnKind::Return, operands: vec![v(4)] },
        ],
        values: vec![
            result(Type::U32, 0),
            arg(Type::U32, 1, 0),
            result(Type::I1, 2),
            result(Type::U64, 2),
            arg(Type::U64, 4, 0),
        ],
    }
}

#[test]
fn reduce_loop_routes_escaping_values_through_the_exit_block() {
    let mut ctx = context(loop_with_escaping_value());
    let d = dominance(5, &[(1, 2), (1, 3), (1, 4), (2, 3), (2, 4), (3, 4)]);
    let iteration = ctx.transform_to_reduce_loop(1, 3, &[1, 2], &d);
    let r = &ctx.region;
    assert_eq!(iteration, vec![v(1), v(3)]);
    assert_eq!(r.operands[2][0], vec![v(1), v(3)]);
    assert_eq!(r.operands[2][1], vec![v(1), v(3)]);
    assert_eq!(r.args[3].len(), 2);
    assert_eq!(r.values[r.args[3][0].index].ty, Type::U32);
    assert_eq!(r.values[r.args[3][1].index].ty, Type::U64);
    // The use of the latch's value outside the loop now goes through the exit block.
    assert_eq!(r.operands[3][0], vec![r.args[3][1]]);
    // The header has an argument for the escaping value, and the entry edge passes poison.
    assert_eq!(r.args[1].len(), 2);
    assert_eq!(r.values[r.args[1][1].index].ty, Type::U64);
    assert_eq!(r.operands[0][0].len(), 2);
    assert_eq!(r.operands[0][0][0], v(0));
    assert_eq!(poison_of(r, r.operands[0][0][1]), Some(Type::U64));
    assert_eq!(r.cfg.successors, vec![vec![1], vec![2], vec![1, 3], vec![4], vec![]]);
}

#[test]
fn reduce_loop_without_escaping_values_only_passes_the_iteration_values_out() {
    let mut region = loop_with_escaping_value();
    region.operands[3][0] = vec![v(0)];
    region.values[4] = arg(Type::U32, 4, 0);
    let mut ctx = context(region);
    let d = dominance(5, &[(1, 2), (1, 3), (1, 4), (2, 3), (2, 4), (3, 4)]);
    let iteration = ctx.transform_to_reduce_loop(1, 3, &[1, 2], &d);
    let r = &ctx.region;
    assert_eq!(iteration, vec![v(1)]);
    assert_eq!(r.operands[2][1], vec![v(1)]);
    assert_eq!(r.args[3].len(), 1);
    assert_eq!(r.args[1], vec![v(1)]);
    assert_eq!(r.operands[0][0], vec![v(0)]);
    assert_eq!(r.operands[3][0], vec![v(0)]);
}

/// The header 1 branches to block 2 or block 5, which both go to the latch 6; block 2 defines
/// a value used after the loop's exit block 3.
fn loop_with_value_from_one_branch() -> Region {
    Region {
        cfg: Cfg { successors: vec![vec![1], vec![2, 5], vec![6], vec![4], vec![], vec![6], vec![1, 3]] },
        operands: vec![
            vec![vec![]],
            vec![vec![], vec![]],
            vec![vec![]],
            vec![vec![v(2)]],
            vec![],
            vec![vec![]],
            vec![vec![], vec![]],
        ],
        args: vec![vec![], vec![], vec![], vec![], vec![v(3)], vec![], vec![]],
        terminators: vec![
            Terminator::Br,
            Terminator::CondBr { condition: v(0) },
            Terminator::Br,
            Terminator::Br,
            Terminator::ReturnLike { kind: ReturnKind::Return, operands: vec![v(3)] },
            Terminator::Br,
            Terminator::CondBr { condition: v(1) },
        ],
        values: vec![
            result(Type::I1, 1),
            result(Type::I1, 6),
            result(Type::Felt, 2),
            arg(Type::Felt, 4, 0),
        ],
    }
}

#[test]
fn reduce_loop_gives_the_latch_an_argument_where_the_value_may_be_undefined() {
    let mut ctx = context(loop_with_value_from_one_branch());
    let d = dominance(7, &[(1, 2), (1, 3), (1, 4), (1, 5), (1, 6), (6, 3), (6, 4), (3, 4)]);
    let iteration = ctx.transform_to_reduce_loop(1, 3, &[1, 2, 5, 6], &d);
    let r = &ctx.region;
    assert_eq!(iteration.len(), 1);
    let latch_arg = r.args[6][0];
    assert_eq!(iteration, vec![latch_arg]);
    assert!(matches!(r.values[latch_arg.index].def, ValueDef::Arg { block: 6, index: 0 }));
    assert_eq!(r.values[latch_arg.index].ty, Type::Felt);
    // Block 2 defines the value and passes it; block 5 passes poison.
    assert_eq!(r.operands[2][0], vec![v(2)]);
    assert_eq!(r.operands[5][0].len(), 1);
    assert_eq!(poison_of(r, r.operands[5][0][0]), Some(Type::Felt));
    assert_eq!(r.operands[6][0], vec![latch_arg]);
    assert_eq!(r.operands[6][1], vec![latch_arg]);
    assert_eq!(r.operands[3][0], vec![r.args[3][0]]);
    assert_eq!(r.args[1].len(), 1);
    assert_eq!(poison_of(r, r.operands[0][0][0]), Some(Type::Felt));
}
