use midenc::builders::SymbolNameComponent;
use midenc::cfg::{calculate_cycle_edges, successor_edges, Cfg, Edge};
use midenc::intrinsics::Intrinsic;
use midenc::miden_abi::{recover_imported_masm_function_id, recover_imported_masm_module, ImportedModule, RecoveredModule};

fn edge(from_block: usize, successor_index: usize) -> Edge {
    Edge { from_block, successor_index }
}

fn sorted(mut v: Vec<Edge>) -> Vec<(usize, usize)> {
    let mut out: Vec<(usize, usize)> = v.drain(..).map(|e| (e.from_block, e.successor_index)).collect();
    out.sort();
    out
}

#[test]
fn cycle_edges_of_a_simple_loop() {
    // 0 -> 1; 1 -> 2; 2 -> 1 | 3; 3 has no successor.
    let cfg = Cfg { successors: vec![vec![1], vec![2], vec![1, 3], vec![]] };
    let edges = calculate_cycle_edges(&cfg, &[1, 2]);
    assert_eq!(sorted(edges.entry_edges), vec![(0, 0)]);
    assert_eq!(sorted(edges.exit_edges), vec![(2, 1)]);
    assert_eq!(sorted(edges.back_edges), vec![(2, 0)]);
}

#[test]
fn cycle_edges_with_two_entries() {
    // 0 -> 1 | 2; 1 -> 2; 2 -> 1 | 3.
    let cfg = Cfg { successors: vec![vec![1, 2], vec![2], vec![1, 3], vec![]] };
    let edges = calculate_cycle_edges(&cfg, &[1, 2]);
    assert_eq!(sorted(edges.entry_edges), vec![(0, 0), (0, 1)]);
    assert_eq!(sorted(edges.exit_edges), vec![(2, 1)]);
    assert_eq!(sorted(edges.back_edges), vec![(1, 0), (2, 0)]);
}

#[test]
fn edges_name_and_change_successors() {
    let mut cfg = Cfg { successors: vec![vec![1, 2], vec![], vec![]] };
    let edges = successor_edges(&cfg, 0);
    assert_eq!(edges, vec![edge(0, 0), edge(0, 1)]);
    assert_eq!(edges[1].get_successor(&cfg), 2);
    assert_eq!(edges[1].get_from_block(), 0);
    edges[1].set_successor(&mut cfg, 1);
    assert_eq!(cfg.successors[0], vec![1, 1]);
    assert!(successor_edges(&cfg, 1).is_empty());
}

fn path(parts: &[&str], leaf: &str, rooted: bool) -> Vec<SymbolNameComponent> {
    let mut p = Vec::new();
    if rooted {
        p.push(SymbolNameComponent::Root);
    }
    for part in parts {
        p.push(SymbolNameComponent::Component(part.to_string()));
    }
    p.push(SymbolNameComponent::Leaf(leaf.to_string()));
    p
}

#[test]
fn intrinsics_are_recognized_from_paths() {
    let mem = Intrinsic::try_from_path(&path(&["intrinsics", "mem"], "heap_base", true)).unwrap();
    assert_eq!(mem, Intrinsic::Mem("heap_base".to_string()));
    assert_eq!(mem.module_name(), "mem");
    assert_eq!(mem.function_name(), "heap_base");
    assert!(!mem.is_native_instruction());

    let felt = Intrinsic::try_from_path(&path(&["intrinsics", "felt"], "add", false)).unwrap();
    assert_eq!(felt, Intrinsic::Felt("add".to_string()));
    assert!(felt.is_native_instruction());

    let debug = Intrinsic::try_from_path(&path(&["intrinsics", "debug"], "break", true)).unwrap();
    assert_eq!(debug.module_name(), "debug");
}

#[test]
fn unknown_intrinsics_are_rejected() {
    let p = path(&["intrinsics", "io"], "print", true);
    let err = Intrinsic::try_from_path(&p).unwrap_err();
    assert_eq!(err.0.len(), p.len());
    assert!(Intrinsic::try_from_path(&path(&["std", "mem"], "x", false)).is_err());
    assert!(Intrinsic::try_from_path(&path(&["intrinsics"], "mem", false)).is_err());
    let not_leaf = vec![
        SymbolNameComponent::Component("intrinsics".to_string()),
        SymbolNameComponent::Component("mem".to_string()),
        SymbolNameComponent::Component("f".to_string()),
    ];
    assert!(Intrinsic::try_from_path(&not_leaf).is_err());
}

#[test]
fn imported_modules_are_recovered_from_their_ids() {
    assert_eq!(
        recover_imported_masm_module("miden:core-intrinsics/intrinsics-mem@1.0.0"),
        Ok(ImportedModule::IntrinsicsMem)
    );
    assert_eq!(
        recover_imported_masm_module("miden:core-import/stdlib-crypto-hashes-blake3@1.0.0"),
        Ok(ImportedModule::Blake3)
    );
    assert_eq!(recover_imported_masm_module("miden:core-base/account@1.0.0"), Ok(ImportedModule::Account));
    assert_eq!(recover_imported_masm_module("wasi:cli/env"), Err("wasi:cli/env".to_string()));

    assert_eq!(
        recover_imported_masm_function_id("miden:core-import/stdlib-crypto-hashes-blake3@1.0.0", "hash-one-to-one"),
        Some((RecoveredModule::Miden(ImportedModule::Blake3), "hash_1to1".to_string()))
    );
    assert_eq!(
        recover_imported_masm_function_id("miden:core-import/tx@1.0.0", "get-block-number"),
        Some((RecoveredModule::Miden(ImportedModule::Tx), "get_block_number".to_string()))
    );
    assert_eq!(
        recover_imported_masm_function_id("other:pkg/iface", "f-g"),
        Some((RecoveredModule::Given("other:pkg/iface".to_string()), "f-g".to_string()))
    );
    assert_eq!(
        recover_imported_masm_function_id("env", "foo"),
        Some((RecoveredModule::Given("env".to_string()), "foo".to_string()))
    );
}

#[test]
fn intrinsic_paths_are_recognized_again() {
    for intrinsic in [
        Intrinsic::Debug("break".to_string()),
        Intrinsic::Mem("heap_base".to_string()),
        Intrinsic::Felt("from_u32".to_string()),
    ] {
        let path = intrinsic.into_symbol_path();
        assert_eq!(path.len(), 4);
        assert!(matches!(path[0], SymbolNameComponent::Root));
        assert_eq!(intrinsic.module_symbol_path().len(), 3);
        assert_eq!(Intrinsic::try_from_path(&path).unwrap(), intrinsic);
    }
}

#[test]
fn successor_edges_are_handed_out_in_order() {
    let cfg = Cfg { successors: vec![vec![1, 2], vec![]] };
    let mut edges = midenc::cfg::SuccessorEdges::new(&cfg, 0);
    assert_eq!(edges.next(), Some(Edge { from_block: 0, successor_index: 0 }));
    assert_eq!(edges.next(), Some(Edge { from_block: 0, successor_index: 1 }));
    assert_eq!(edges.next(), None);
    assert_eq!(edges.next(), None);
    let mut none = midenc::cfg::SuccessorEdges::new(&cfg, 1);
    assert_eq!(none.next(), None);
}
