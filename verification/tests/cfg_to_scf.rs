use midenc::cfg::{Cfg, Edge};
use midenc::cfg_to_scf::{
    ConstantDef, EdgeMultiplexer, Region, ReturnKind, Terminator, TransformationContext, ValueDef, ValueInfo,
};
use midenc::ir::{Type, ValueRef};

fn v(index: usize) -> ValueRef {
    ValueRef { index }
}

fn result(ty: Type) -> ValueInfo {
    ValueInfo { ty, def: ValueDef::Result }
}

fn arg(ty: Type, block: usize, index: usize) -> ValueInfo {
    ValueInfo { ty, def: ValueDef::Arg { block, index } }
}

fn switch_const(region: &Region, value: ValueRef) -> Option<u32> {
    match &region.values[value.index].def {
        ValueDef::Constant(ConstantDef::Switch(c)) => Some(*c),
        _ => None,
    }
}

fn is_poison(region: &Region, value: ValueRef, ty: &Type) -> bool {
    match &region.values[value.index].def {
        ValueDef::Constant(ConstantDef::Poison(t)) => t == ty,
        _ => false,
    }
}

/// Two blocks that return a `u32`, reached from a conditional branch.
fn two_returns() -> Region {
    Region {
        cfg: Cfg { successors: vec![vec![1, 2], vec![], vec![]] },
        operands: vec![vec![vec![], vec![]], vec![], vec![]],
        args: vec![vec![], vec![], vec![]],
        terminators: vec![
            Terminator::CondBr { condition: v(0) },
            Terminator::ReturnLike { kind: ReturnKind::Return, operands: vec![v(1)] },
            Terminator::ReturnLike { kind: ReturnKind::Return, operands: vec![v(2)] },
        ],
        values: vec![result(Type::I1), result(Type::U32), result(Type::U32)],
    }
}

#[test]
fn return_like_exits_are_combined_into_one_block() {
    let ctx = TransformationContext::new(two_returns(), 0);
    let r = &ctx.region;
    assert_eq!(r.cfg.successors.len(), 4);
    assert!(matches!(r.terminators[1], Terminator::Br));
    assert!(matches!(r.terminators[2], Terminator::Br));
    assert_eq!(r.cfg.successors[1], vec![3]);
    assert_eq!(r.cfg.successors[2], vec![3]);
    assert_eq!(r.operands[1], vec![vec![v(1)]]);
    assert_eq!(r.operands[2], vec![vec![v(2)]]);
    assert_eq!(r.args[3].len(), 1);
    let exit_arg = r.args[3][0];
    assert!(matches!(r.values[exit_arg.index].def, ValueDef::Arg { block: 3, index: 0 }));
    assert_eq!(r.values[exit_arg.index].ty, Type::U32);
    match &r.terminators[3] {
        Terminator::ReturnLike { kind, operands } => {
            assert_eq!(*kind, ReturnKind::Return);
            assert_eq!(operands, &vec![exit_arg]);
        }
        other => panic!("unexpected terminator {other:?}"),
    }
    assert_eq!(ctx.return_like_to_combined_exit.len(), 1);
}

#[test]
fn return_like_exits_of_other_types_stay_apart() {
    let mut region = two_returns();
    region.values[2] = result(Type::I64);
    let ctx = TransformationContext::new(region, 0);
    let r = &ctx.region;
    assert_eq!(r.cfg.successors.len(), 5);
    assert_eq!(r.cfg.successors[1], vec![3]);
    assert_eq!(r.cfg.successors[2], vec![4]);
    assert_eq!(ctx.return_like_to_combined_exit.len(), 2);
}

#[test]
fn switch_and_poison_values_are_made_once() {
    let mut ctx = TransformationContext::new(two_returns(), 0);
    let a = ctx.get_switch_value(7);
    let b = ctx.get_switch_value(7);
    let c = ctx.get_switch_value(8);
    assert_eq!(a, b);
    assert_ne!(a, c);
    assert_eq!(switch_const(&ctx.region, a), Some(7));
    assert_eq!(switch_const(&ctx.region, c), Some(8));
    assert_eq!(ctx.region.values[a.index].ty, Type::U32);
    let p = ctx.get_undef_value(&Type::I64);
    let q = ctx.get_undef_value(&Type::I64);
    let w = ctx.get_undef_value(&Type::Felt);
    assert_eq!(p, q);
    assert_ne!(p, w);
    assert!(is_poison(&ctx.region, p, &Type::I64));
    assert!(is_poison(&ctx.region, w, &Type::Felt));
}

#[test]
fn block_arguments_are_copied_with_their_types() {
    let mut region = two_returns();
    region.args[1] = vec![v(3), v(4)];
    region.values.push(arg(Type::U8, 1, 0));
    region.values.push(arg(Type::Felt, 1, 1));
    let mut ctx = TransformationContext::new(region, 0);
    let b = ctx.create_block();
    let before = ctx.region.values.len();
    ctx.add_block_arguments_from_other(b, 1);
    assert_eq!(ctx.region.args[b], vec![v(before), v(before + 1)]);
    assert_eq!(ctx.region.values[before].ty, Type::U8);
    assert_eq!(ctx.region.values[before + 1].ty, Type::Felt);
    assert!(matches!(ctx.region.values[before + 1].def, ValueDef::Arg { block, index: 1 } if block == b));
}

/// Block 0 branches to block 1 (one `u32` argument) with `v1`, or to block 2; block 1 goes on
/// to block 2, which returns.
fn two_entries() -> Region {
    Region {
        cfg: Cfg { successors: vec![vec![1, 2], vec![2], vec![]] },
        operands: vec![vec![vec![v(1)], vec![]], vec![vec![]], vec![]],
        args: vec![vec![], vec![v(2)], vec![]],
        terminators: vec![
            Terminator::CondBr { condition: v(0) },
            Terminator::Br,
            Terminator::ReturnLike { kind: ReturnKind::Return, operands: vec![] },
        ],
        values: vec![result(Type::I1), result(Type::U32), arg(Type::U32, 1, 0)],
    }
}

#[test]
fn single_entry_block_dispatches_to_each_entry() {
    let mut ctx = TransformationContext::new(two_entries(), 0);
    let n = ctx.region.cfg.successors.len();
    let edges = [
        Edge { from_block: 0, successor_index: 0 },
        Edge { from_block: 0, successor_index: 1 },
    ];
    let mux: EdgeMultiplexer = ctx.create_single_entry_block(&edges);
    let m = mux.multiplexer_block;
    let r = &ctx.region;
    assert_eq!(m, n);
    assert_eq!(mux.block_arg_mapping, vec![(1, 0), (2, 1)]);
    let disc = mux.discriminator.expect("two targets need a discriminator");
    assert_eq!(r.args[m].len(), 2);
    assert_eq!(r.args[m][1], disc);
    assert_eq!(r.cfg.successors[0], vec![m, m]);
    // The edge to block 1 passes its operand, then the discriminator 0.
    let ops0 = &r.operands[0][0];
    assert_eq!(ops0[0], v(1));
    assert_eq!(switch_const(r, ops0[1]), Some(0));
    // The edge to block 2 passes a poison value for block 1's argument, then the discriminator 1.
    let ops1 = &r.operands[0][1];
    assert!(is_poison(r, ops1[0], &Type::U32));
    assert_eq!(switch_const(r, ops1[1]), Some(1));
    match &r.terminators[m] {
        Terminator::Switch { selector, case_values } => {
            assert_eq!(*selector, disc);
            assert_eq!(case_values, &vec![0]);
        }
        other => panic!("unexpected terminator {other:?}"),
    }
    // Default (the last target) first, then the cases.
    assert_eq!(r.cfg.successors[m], vec![2, 1]);
    assert_eq!(r.operands[m], vec![vec![], vec![r.args[m][0]]]);
}

#[test]
fn single_entry_block_for_one_target_switches_on_a_constant() {
    let mut ctx = TransformationContext::new(two_entries(), 0);
    let edges = [Edge { from_block: 0, successor_index: 0 }, Edge { from_block: 1, successor_index: 0 }];
    let before = ctx.region.cfg.successors[1].clone();
    assert_eq!(before, vec![2]);
    let mux = ctx.create_single_entry_block(&edges[..1]);
    let m = mux.multiplexer_block;
    let r = &ctx.region;
    assert!(mux.discriminator.is_none());
    assert_eq!(r.args[m].len(), 1);
    assert_eq!(r.operands[0][0], vec![v(1)]);
    match &r.terminators[m] {
        Terminator::Switch { selector, case_values } => {
            assert_eq!(switch_const(r, *selector), Some(0));
            assert!(case_values.is_empty());
        }
        other => panic!("unexpected terminator {other:?}"),
    }
    assert_eq!(r.cfg.successors[m], vec![1]);
    assert_eq!(r.operands[m], vec![vec![r.args[m][0]]]);
    // Other edges stay as they were.
    assert_eq!(r.cfg.successors[1], vec![2]);
    assert_eq!(r.cfg.successors[0][1], 2);
}

/// Block 0 enters the loop header 1, which branches to the body 2 or leaves to block 3; the body
/// goes back to the header; block 3 returns.
fn simple_loop() -> Region {
    Region {
        cfg: Cfg { successors: vec![vec![1], vec![2, 3], vec![1], vec![]] },
        operands: vec![vec![vec![]], vec![vec![], vec![]], vec![vec![]], vec![]],
        args: vec![vec![], vec![], vec![], vec![]],
        terminators: vec![
            Terminator::Br,
            Terminator::CondBr { condition: v(0) },
            Terminator::Br,
            Terminator::ReturnLike { kind: ReturnKind::Return, operands: vec![] },
        ],
        values: vec![result(Type::I1)],
    }
}

#[test]
fn exiting_latch_repeats_or_leaves_the_loop() {
    let mut ctx = TransformationContext::new(simple_loop(), 0);
    let n = ctx.region.cfg.successors.len();
    let back = [Edge { from_block: 2, successor_index: 0 }];
    let exits = [Edge { from_block: 1, successor_index: 1 }];
    let p = ctx.create_single_exiting_latch(&back, &exits);
    let r = &ctx.region;
    assert_eq!(p.latch, n);
    assert_eq!(p.exit_block, n + 1);
    assert_eq!(r.cfg.successors[2], vec![p.latch]);
    assert_eq!(r.cfg.successors[1], vec![2, p.latch]);
    // The latch branches on its last argument, the flag.
    let latch_args = &r.args[p.latch];
    assert_eq!(*latch_args.last().unwrap(), p.condition);
    assert!(matches!(r.terminators[p.latch], Terminator::CondBr { condition } if condition == p.condition));
    assert_eq!(r.cfg.successors[p.latch], vec![1, p.exit_block]);
    // The back edge passes the flag 1, the exit edge the flag 0.
    let back_ops = &r.operands[2][0];
    let exit_ops = &r.operands[1][1];
    assert_eq!(switch_const(r, *back_ops.last().unwrap()), Some(1));
    assert_eq!(switch_const(r, *exit_ops.last().unwrap()), Some(0));
    // Their discriminators name the header and the exit target.
    assert_eq!(switch_const(r, back_ops[0]), Some(0));
    assert_eq!(switch_const(r, exit_ops[0]), Some(1));
    // The exit block goes on to the original exit target.
    match &r.terminators[p.exit_block] {
        Terminator::Switch { selector, case_values } => {
            assert_eq!(switch_const(r, *selector), Some(0));
            assert!(case_values.is_empty());
        }
        other => panic!("unexpected terminator {other:?}"),
    }
    assert_eq!(r.cfg.successors[p.exit_block], vec![3]);
}

#[test]
fn latch_without_exit_ends_in_combined_unreachable() {
    let mut region = simple_loop();
    region.cfg.successors[1] = vec![2];
    region.operands[1] = vec![vec![]];
    region.terminators[1] = Terminator::Br;
    region.terminators[3] = Terminator::ReturnLike { kind: ReturnKind::Unreachable, operands: vec![] };
    let mut ctx = TransformationContext::new(region, 0);
    let unreachable_exit = ctx.region.cfg.successors[3][0];
    let back = [Edge { from_block: 2, successor_index: 0 }];
    let p = ctx.create_single_exiting_latch(&back, &[]);
    let r = &ctx.region;
    assert!(matches!(r.terminators[p.exit_block], Terminator::Br));
    assert_eq!(r.cfg.successors[p.exit_block], vec![unreachable_exit]);
    assert_eq!(r.operands[p.exit_block], vec![vec![]]);
    assert_eq!(r.cfg.successors[p.latch], vec![1, p.exit_block]);
}

#[test]
fn all_same_block_compares_edge_targets() {
    let cfg = Cfg { successors: vec![vec![2, 3], vec![2], vec![], vec![]] };
    let to_two = [Edge { from_block: 0, successor_index: 0 }, Edge { from_block: 1, successor_index: 0 }];
    let mixed = [Edge { from_block: 0, successor_index: 1 }, Edge { from_block: 1, successor_index: 0 }];
    assert!(midenc::cfg_to_scf::all_same_block(&cfg, &to_two));
    assert!(!midenc::cfg_to_scf::all_same_block(&cfg, &mixed));
    assert!(midenc::cfg_to_scf::all_same_block(&cfg, &[]));
}

#[test]
fn garbage_collect_erases_unused_constants_only() {
    let mut ctx = TransformationContext::new(two_entries(), 0);
    let edges = [
        Edge { from_block: 0, successor_index: 0 },
        Edge { from_block: 0, successor_index: 1 },
    ];
    ctx.create_single_entry_block(&edges);
    let unused = ctx.get_switch_value(9);
    let used_zero = ctx.region.operands[0][0][1];
    let used_poison = ctx.region.operands[0][1][0];
    ctx.garbage_collect();
    assert!(ctx.switch_value_cache.is_empty());
    assert!(ctx.typed_undef_cache.is_empty());
    assert!(matches!(ctx.region.values[unused.index].def, ValueDef::Erased));
    assert_eq!(ctx.region.values[unused.index].ty, Type::U32);
    assert_eq!(switch_const(&ctx.region, used_zero), Some(0));
    assert!(is_poison(&ctx.region, used_poison, &Type::U32));
}

#[test]
fn preparing_a_loop_with_one_entry_keeps_its_header() {
    let mut ctx = TransformationContext::new(simple_loop(), 0);
    let n = ctx.region.cfg.successors.len();
    let (edges, prepared) = ctx.prepare_cycle_loop(&[1, 2]);
    assert_eq!(edges.entry_edges, vec![Edge { from_block: 0, successor_index: 0 }]);
    assert_eq!(edges.back_edges, vec![Edge { from_block: 2, successor_index: 0 }]);
    assert_eq!(edges.exit_edges, vec![Edge { from_block: 1, successor_index: 1 }]);
    let p = prepared.expect("a small loop fits a switch");
    assert!(!p.multiplexed);
    assert_eq!(p.header, 1);
    assert_eq!(p.latch.latch, n);
    assert_eq!(p.latch.exit_block, n + 1);
    let r = &ctx.region;
    assert_eq!(r.cfg.successors[0], vec![1]);
    assert_eq!(r.cfg.successors[2], vec![p.latch.latch]);
    assert_eq!(r.cfg.successors[1], vec![2, p.latch.latch]);
    assert_eq!(r.cfg.successors[p.latch.latch], vec![1, p.latch.exit_block]);
    assert_eq!(r.cfg.successors[p.latch.exit_block], vec![3]);
}

/// Block 0 enters the cycle of blocks 1 and 2 at either; block 1 goes to block 2, which goes
/// back to block 1 or leaves to block 3, which returns.
fn two_entry_cycle() -> Region {
    Region {
        cfg: Cfg { successors: vec![vec![1, 2], vec![2], vec![1, 3], vec![]] },
        operands: vec![vec![vec![], vec![]], vec![vec![]], vec![vec![], vec![]], vec![]],
        args: vec![vec![], vec![], vec![], vec![]],
        terminators: vec![
            Terminator::CondBr { condition: v(0) },
            Terminator::Br,
            Terminator::CondBr { condition: v(1) },
            Terminator::ReturnLike { kind: ReturnKind::Return, operands: vec![] },
        ],
        values: vec![result(Type::I1), result(Type::I1)],
    }
}

#[test]
fn preparing_a_loop_with_two_entries_routes_them_through_a_new_header() {
    let mut ctx = TransformationContext::new(two_entry_cycle(), 0);
    let n = ctx.region.cfg.successors.len();
    let (edges, prepared) = ctx.prepare_cycle_loop(&[1, 2]);
    assert_eq!(edges.entry_edges.len(), 2);
    assert_eq!(edges.back_edges.len(), 2);
    assert_eq!(edges.exit_edges, vec![Edge { from_block: 2, successor_index: 1 }]);
    let p = prepared.expect("a small loop fits a switch");
    assert!(p.multiplexed);
    assert_eq!(p.header, n);
    assert_eq!(p.latch.latch, n + 1);
    let r = &ctx.region;
    // Both entries lead to the new header; the back and exit edges to the latch.
    assert_eq!(r.cfg.successors[0], vec![p.header, p.header]);
    assert_eq!(r.cfg.successors[1], vec![p.latch.latch]);
    assert_eq!(r.cfg.successors[2], vec![p.latch.latch, p.latch.latch]);
    assert_eq!(r.cfg.successors[p.latch.latch], vec![p.header, p.latch.exit_block]);
    // The header dispatches to the two original entry blocks; the exit block to block 3.
    let mut header_targets = r.cfg.successors[p.header].clone();
    header_targets.sort();
    assert_eq!(header_targets, vec![1, 2]);
    assert_eq!(r.cfg.successors[p.latch.exit_block], vec![3]);
}

#[test]
fn split_edges_insert_a_branch_block_on_each_edge() {
    let mut region = simple_loop();
    let n = region.cfg.successors.len();
    region.operands[1][1] = vec![v(0)];
    region.args[3] = vec![v(1)];
    region.values.push(arg(Type::I1, 3, 0));
    let edges = [Edge { from_block: 1, successor_index: 1 }, Edge { from_block: 2, successor_index: 0 }];
    let splits = midenc::spills::split_edges(&mut region, &edges);
    assert_eq!(splits, vec![n, n + 1]);
    assert_eq!(region.cfg.successors[1], vec![2, n]);
    assert_eq!(region.cfg.successors[2], vec![n + 1]);
    assert!(region.operands[1][1].is_empty());
    assert!(matches!(region.terminators[n], Terminator::Br));
    assert_eq!(region.cfg.successors[n], vec![3]);
    assert_eq!(region.operands[n], vec![vec![v(0)]]);
    assert!(region.args[n].is_empty());
    assert_eq!(region.cfg.successors[n + 1], vec![1]);
    assert_eq!(region.operands[n + 1], vec![vec![]]);
    // Untouched edges stay as they were.
    assert_eq!(region.cfg.successors[0], vec![1]);
    assert_eq!(region.cfg.successors[1][0], 2);
}

/// Block 0 branches to block 1 or block 2, which both go on to block 3 with a `u32`.
fn diamond() -> Region {
    Region {
        cfg: Cfg { successors: vec![vec![1, 2], vec![3], vec![3], vec![]] },
        operands: vec![vec![vec![], vec![]], vec![vec![v(1)]], vec![vec![v(2)]], vec![]],
        args: vec![vec![], vec![], vec![], vec![v(3)]],
        terminators: vec![
            Terminator::CondBr { condition: v(0) },
            Terminator::Br,
            Terminator::Br,
            Terminator::ReturnLike { kind: ReturnKind::Return, operands: vec![v(3)] },
        ],
        values: vec![result(Type::I1), result(Type::U32), result(Type::U32), arg(Type::U32, 3, 0)],
    }
}

#[test]
fn branch_region_exits_are_merged_into_one_block() {
    let mut ctx = TransformationContext::new(diamond(), 0);
    let n = ctx.region.cfg.successors.len();
    let continuation = ctx.region.cfg.successors[1][0];
    let (x, args) = ctx.create_single_exit_branch_region(&[1, 2], continuation).expect("two edges reach the continuation");
    let r = &ctx.region;
    assert_eq!(x, n);
    assert_eq!(args.len(), r.args[continuation].len());
    assert_eq!(r.args[x], args);
    for (a, c) in args.iter().zip(r.args[continuation].iter()) {
        assert_eq!(r.values[a.index].ty, r.values[c.index].ty);
    }
    assert!(r.cfg.successors[x].is_empty());
    assert!(matches!(r.terminators[x], Terminator::Unterminated));
    assert_eq!(r.cfg.successors[1], vec![x]);
    assert_eq!(r.cfg.successors[2], vec![x]);
    assert_eq!(r.operands[1], vec![vec![v(1)]]);
    assert_eq!(r.operands[2], vec![vec![v(2)]]);
    assert_eq!(r.cfg.successors[0], vec![1, 2]);
}

#[test]
fn branch_region_with_one_exit_is_left_alone() {
    let mut ctx = TransformationContext::new(diamond(), 0);
    let continuation = ctx.region.cfg.successors[1][0];
    let before = ctx.region.cfg.successors.clone();
    assert!(ctx.create_single_exit_branch_region(&[1], continuation).is_none());
    assert_eq!(ctx.region.cfg.successors, before);
}
