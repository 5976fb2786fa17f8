use rumoca_lower::alias::{
    any_name_in_set, oriented_discrete_alias_equations, should_reorient_discrete_alias, AliasEdge,
    OrientedAlias,
};
use rumoca_lower::span::{SourceId, Span};

fn edge(lhs: u64, rhs: u64) -> AliasEdge {
    AliasEdge { lhs, rhs, span: Span::from_offsets(SourceId::new(9), 1, 2) }
}

fn oriented(edge: usize, source: u64, target: u64) -> OrientedAlias {
    OrientedAlias { edge, source, target }
}

#[test]
fn alias_chain_roots_at_first_seen_name() {
    let out = oriented_discrete_alias_equations(&[edge(1, 2), edge(2, 3)], &[]).unwrap();
    assert_eq!(out, vec![oriented(0, 1, 2), oriented(1, 2, 3)]);
}

#[test]
fn alias_chain_roots_at_forced_name() {
    let out = oriented_discrete_alias_equations(&[edge(1, 2), edge(2, 3)], &[3]).unwrap();
    assert_eq!(out, vec![oriented(0, 2, 1), oriented(1, 3, 2)]);
}

#[test]
fn alias_groups_are_oriented_independently() {
    let out = oriented_discrete_alias_equations(&[edge(1, 2), edge(3, 4)], &[4]).unwrap();
    assert_eq!(out, vec![oriented(0, 1, 2), oriented(1, 4, 3)]);
}

#[test]
fn alias_cycle_leaves_one_edge_unoriented_and_writes_each_name_once() {
    let out = oriented_discrete_alias_equations(&[edge(1, 2), edge(2, 3), edge(3, 1)], &[]).unwrap();
    assert_eq!(out, vec![oriented(0, 1, 2), oriented(2, 1, 3)]);
}

#[test]
fn alias_with_two_forced_names_never_writes_them() {
    let out = oriented_discrete_alias_equations(&[edge(1, 2), edge(2, 3)], &[1, 3]).unwrap();
    assert_eq!(out, vec![oriented(0, 1, 2)]);
}

#[test]
fn alias_without_edges_orients_nothing() {
    let out = oriented_discrete_alias_equations(&[], &[7]).unwrap();
    assert!(out.is_empty());
}

#[test]
fn alias_self_loop_is_not_oriented() {
    let out = oriented_discrete_alias_equations(&[edge(5, 5)], &[]).unwrap();
    assert!(out.is_empty());
}

fn name_set(names: &[&str]) -> indexmap::IndexMap<String, ()> {
    let mut set = rumoca_lower::collections::name_set_new();
    for name in names {
        rumoca_lower::collections::name_set_insert(&mut set, name.to_string());
    }
    set
}

#[test]
fn reorientation_never_writes_inputs_and_prefers_protected_free_sides() {
    let lhs = vec!["x".to_string()];
    let target = vec!["y".to_string(), "y[1]".to_string()];
    let empty = name_set(&[]);
    assert!(any_name_in_set(&target, &name_set(&["y[1]"])));
    assert!(!any_name_in_set(&lhs, &name_set(&["y[1]"])));
    // The target is an input: keep the orientation even when the lhs is one too.
    assert!(!should_reorient_discrete_alias(&lhs, &target, true, true, &empty, &empty));
    // The lhs is an input: always turn round.
    assert!(should_reorient_discrete_alias(&lhs, &target, true, false, &empty, &empty));
    // Only the lhs side is protected: turn round so the protected side is written.
    assert!(should_reorient_discrete_alias(&lhs, &target, false, false, &name_set(&["x"]), &empty));
    // Only the target side is protected: keep.
    assert!(!should_reorient_discrete_alias(&lhs, &target, false, false, &name_set(&["y[1]"]), &empty));
    // Neither protected: turn round when the lhs is already written and the target is free.
    assert!(should_reorient_discrete_alias(&lhs, &target, false, false, &empty, &name_set(&["x"])));
    assert!(!should_reorient_discrete_alias(&lhs, &target, false, false, &empty, &name_set(&["x", "y"])));
}

#[test]
fn alias_parallel_edges_orient_one_tree_edge() {
    let out = oriented_discrete_alias_equations(&[edge(1, 2), edge(2, 3), edge(3, 2)], &[]).unwrap();
    assert_eq!(out, vec![oriented(0, 1, 2), oriented(1, 2, 3)]);
}
