use midenc::dispatch::{emit_binary_search, emit_switch, route_selector, Dispatch};

/// Check that every selector below `limit` reaches its case when it is one of `0..n`, and
/// the fallback otherwise.
fn assert_routes_all(n: u32, limit: u32) {
    let cases: Vec<u32> = (0..n).collect();
    let tree = emit_switch(&cases);
    for s in 0..limit {
        let expected = if s < n { Some(s) } else { None };
        assert_eq!(route_selector(&tree, s), expected, "{n} cases, selector {s}");
    }
}

#[test]
fn util_emit_binary_search_single_case_test() {
    let cases: Vec<u32> = (0..1).collect();
    let tree = emit_switch(&cases);
    assert_eq!(
        tree,
        Dispatch::IfEq {
            value: 0,
            then_branch: Box::new(Dispatch::Case(0)),
            else_branch: Box::new(Dispatch::Fallback),
        }
    );
    assert_routes_all(1, 5);
}

#[test]
fn util_emit_binary_search_two_cases_test() {
    let cases: Vec<u32> = (0..2).collect();
    let tree = emit_switch(&cases);
    assert_eq!(
        tree,
        Dispatch::IfLte {
            bound: 1,
            then_branch: Box::new(Dispatch::IfEq {
                value: 0,
                then_branch: Box::new(Dispatch::Case(0)),
                else_branch: Box::new(Dispatch::Case(1)),
            }),
            else_branch: Box::new(Dispatch::Fallback),
        }
    );
    assert_routes_all(2, 6);
}

#[test]
fn util_emit_binary_search_three_cases_test() {
    assert_routes_all(3, 8);
}

#[test]
fn util_emit_binary_search_four_cases_test() {
    assert_routes_all(4, 8);
}

#[test]
fn util_emit_binary_search_five_cases_test() {
    assert_routes_all(5, 10);
}

#[test]
fn util_emit_binary_search_seven_cases_test() {
    assert_routes_all(7, 12);
}

#[test]
fn eight_cases_route_correctly() {
    assert_routes_all(8, 12);
}

#[test]
fn nine_cases_send_the_midpoint_case_to_its_case() {
    let cases: Vec<u32> = (0..9).collect();
    let tree = emit_switch(&cases);
    assert_eq!(route_selector(&tree, 4), Some(4));
    assert_routes_all(9, 12);
}

#[test]
fn many_case_counts_route_every_selector() {
    for n in 1..40u32 {
        assert_routes_all(n, n + 5);
    }
}

#[test]
fn binary_search_over_explicit_runs() {
    let a = [0u32, 1];
    let b = [2u32, 3];
    let tree = emit_binary_search(&a, &b, 1, 4);
    match &tree {
        Dispatch::IfLte { bound, .. } => assert_eq!(*bound, 1),
        _ => panic!("expected a branch on the end of the first run"),
    }
    for s in 0..6u32 {
        let expected = if s < 4 { Some(s) } else { None };
        assert_eq!(route_selector(&tree, s), expected);
    }
    let pair = emit_binary_search(&a, &[], 0, 5);
    assert_eq!(route_selector(&pair, 0), Some(0));
    assert_eq!(route_selector(&pair, 1), Some(1));
}

#[test]
fn cases_that_start_above_zero() {
    let cases: Vec<u32> = (10..15).collect();
    let tree = emit_switch(&cases);
    for s in 10..20u32 {
        let expected = if s < 15 { Some(s) } else { None };
        assert_eq!(route_selector(&tree, s), expected);
    }
}
