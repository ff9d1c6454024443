use meadow::scc::hir::{Bind, Decl, Expr, Module};
use meadow::scc::order::{group_module, module_order};
use meadow::scc::tarjan::scc;

#[test]
fn independent_nodes_keep_source_order() {
    // 0, 1, 2 with no edges at all.
    let comps = scc(&[vec![], vec![], vec![]]);
    assert_eq!(comps, vec![vec![0], vec![1], vec![2]]);
}

#[test]
fn a_dependency_is_emitted_first() {
    // 0 -> 1: `0` mentions `1`, so `1` must be typed first.
    let comps = scc(&[vec![1], vec![]]);
    assert_eq!(comps, vec![vec![1], vec![0]]);
}

#[test]
fn a_cycle_becomes_one_component() {
    // 0 -> 1 -> 0, and 2 depends on the pair.
    let comps = scc(&[vec![1], vec![0], vec![0]]);
    assert_eq!(comps, vec![vec![0, 1], vec![2]]);
}

#[test]
fn a_self_edge_is_its_own_component() {
    let comps = scc(&[vec![0]]);
    assert_eq!(comps, vec![vec![0]]);
}

#[test]
fn a_chain_comes_out_deepest_first() {
    // 0 -> 1 -> 2
    let comps = scc(&[vec![1], vec![2], vec![]]);
    assert_eq!(comps, vec![vec![2], vec![1], vec![0]]);
}

#[test]
fn separate_cycles_stay_separate() {
    // {0,1} and {2,3}, with 0 depending on 2.
    let comps = scc(&[vec![1, 2], vec![0], vec![3], vec![2]]);
    assert_eq!(comps, vec![vec![2, 3], vec![0, 1]]);
}

fn val(v: u32, e: Expr) -> Decl {
    Decl::Bind(Bind::Fun(v, vec![], e))
}

#[test]
fn a_recursive_binding_is_grouped_behind_what_it_mentions() {
    let mut m = Module {
        decls: vec![
            Decl::Use("std".to_string()),
            val(1, Expr::App(Box::new(Expr::Var(1)), vec![Expr::Var(2)])),
            val(2, Expr::Lit),
        ],
        groups: vec![],
    };
    group_module(&mut m);
    assert_eq!(m.groups.len(), 2);
    assert_eq!(m.groups[0].members, vec![1]);
    assert!(!m.groups[0].recursive);
    assert_eq!(m.groups[1].members, vec![2]);
    assert!(m.groups[1].recursive);
}

#[test]
fn a_module_comes_behind_the_ones_it_mentions() {
    let first = Module { decls: vec![val(1, Expr::Var(2))], groups: vec![] };
    let second = Module { decls: vec![val(2, Expr::Unit)], groups: vec![] };
    assert_eq!(module_order(&vec![first, second]), vec![1, 0]);
}
