use midenc::ir::ValueRef;
use midenc::pass::PostPassStatus;
use midenc::spills::{
    rewrite_single_block_spills, rewrite_spill_pseudo_instructions, transform_spills, Inst, SpillAnalysis,
};

fn v(index: usize) -> ValueRef {
    ValueRef { index }
}

fn op(operands: &[usize]) -> Inst {
    Inst::Op { operands: operands.iter().map(|&i| v(i)).collect() }
}

fn spill(i: usize) -> Inst {
    Inst::Spill { value: v(i), operand: v(i) }
}

fn operands(inst: &Inst) -> Vec<usize> {
    match inst {
        Inst::Op { operands } => operands.iter().map(|x| x.index).collect(),
        other => panic!("expected an operation, got {other:?}"),
    }
}

#[test]
fn uses_after_a_reload_use_its_result() {
    let mut block = vec![
        op(&[1]),
        spill(1),
        op(&[1, 2]),
        Inst::Reload { value: v(1), result: v(9) },
        op(&[1, 2]),
        spill(1),
        op(&[1]),
    ];
    rewrite_single_block_spills(&mut block);
    assert_eq!(operands(&block[0]), vec![1]);
    assert_eq!(operands(&block[2]), vec![1, 2]);
    assert_eq!(operands(&block[4]), vec![9, 2]);
    // A spill after the reload stores the reload's result, and a use after that spill still
    // uses the reload's result.
    assert!(matches!(block[5], Inst::Spill { value, operand } if value == v(1) && operand == v(9)));
    assert_eq!(operands(&block[6]), vec![9]);
    assert!(matches!(block[3], Inst::Reload { value, result } if value == v(1) && result == v(9)));
    assert!(matches!(block[1], Inst::Spill { value, operand } if value == v(1) && operand == v(1)));
}

#[test]
fn used_spills_and_reloads_become_stores_and_loads() {
    let mut block = vec![
        spill(1),
        spill(2),
        Inst::Reload { value: v(1), result: v(8) },
        Inst::Reload { value: v(1), result: v(9) },
        op(&[8]),
    ];
    rewrite_spill_pseudo_instructions(&mut block);
    assert_eq!(block.len(), 3);
    assert!(matches!(block[0], Inst::Store { value, operand } if value == v(1) && operand == v(1)));
    assert!(matches!(block[1], Inst::Load { value, result } if value == v(1) && result == v(8)));
    assert_eq!(operands(&block[2]), vec![8]);
}

#[test]
fn transform_spills_places_rewrites_and_lowers() {
    let mut block = vec![op(&[1]), op(&[2]), op(&[1])];
    let analysis = SpillAnalysis {
        placed: vec![
            vec![],
            vec![spill(1)],
            vec![Inst::Reload { value: v(1), result: v(7) }],
            vec![],
        ],
    };
    assert_eq!(transform_spills(&mut block, &analysis), PostPassStatus::IRChanged);
    assert_eq!(block.len(), 5);
    assert_eq!(operands(&block[0]), vec![1]);
    assert!(matches!(block[1], Inst::Store { value, operand } if value == v(1) && operand == v(1)));
    assert_eq!(operands(&block[2]), vec![2]);
    assert!(matches!(block[3], Inst::Load { value, result } if value == v(1) && result == v(7)));
    assert_eq!(operands(&block[4]), vec![7]);
}

#[test]
fn a_spill_between_a_reload_and_a_use_does_not_hide_the_reload() {
    let mut block = vec![
        Inst::Reload { value: v(1), result: v(9) },
        spill(1),
        op(&[1, 3]),
        Inst::Reload { value: v(1), result: v(10) },
        op(&[1]),
    ];
    rewrite_single_block_spills(&mut block);
    assert!(matches!(block[1], Inst::Spill { value, operand } if value == v(1) && operand == v(9)));
    assert_eq!(operands(&block[2]), vec![9, 3]);
    assert_eq!(operands(&block[4]), vec![10]);
    rewrite_spill_pseudo_instructions(&mut block);
    assert_eq!(block.len(), 5);
    assert!(matches!(block[1], Inst::Store { value, operand } if value == v(1) && operand == v(9)));
}
