//! Structural mutations of the entity graph: attachment, reparenting,
//! detaching, cascading removal, and their error cases.

use scene_hierarchy::Entity;
use scene_hierarchy::HierarchyError;
use scene_hierarchy::graph::EntityGraph;

#[test]
fn add_root_allocates_fresh_roots() {
    let mut g = EntityGraph::new();
    let a = g.add_root();
    let b = g.add_root();
    assert_ne!(a, b);
    assert!(g.contains(a));
    assert!(g.contains(b));
    assert_eq!(g.roots(), vec![a, b]);
    assert_eq!(g.parent_of(a), None);
    assert_eq!(g.parent_of(b), None);
    assert_eq!(g.len(), 2);
}

#[test]
fn add_child_attaches_and_severs_previous_parent() {
    let mut g = EntityGraph::new();
    let p1 = g.add_root();
    let p2 = g.add_root();
    let c = g.add_root();
    assert_eq!(g.add_child(p1, c), Ok(()));
    assert_eq!(g.parent_of(c), Some(p1));
    assert_eq!(g.children_of(p1), vec![c]);
    // a node only ever has one parent: attaching under p2 severs p1's link
    assert_eq!(g.add_child(p2, c), Ok(()));
    assert_eq!(g.parent_of(c), Some(p2));
    assert_eq!(g.children_of(p1), vec![]);
    assert_eq!(g.children_of(p2), vec![c]);
}

#[test]
fn add_child_rejects_missing_entities() {
    let mut g = EntityGraph::new();
    let a = g.add_root();
    let stranger = Entity { id: 999 };
    assert!(!g.contains(stranger));
    assert_eq!(g.add_child(stranger, a), Err(HierarchyError::InvalidParent));
    assert_eq!(g.add_child(a, stranger), Err(HierarchyError::InvalidParent));
    assert_eq!(g.parent_of(a), None);
}

#[test]
fn reparent_moves_a_subtree() {
    let mut g = EntityGraph::new();
    let a = g.add_root();
    let b = g.add_root();
    let c = g.add_root();
    g.add_child(a, b).unwrap();
    g.add_child(b, c).unwrap();
    assert_eq!(g.reparent(b, a), Ok(()));
    assert_eq!(g.parent_of(b), Some(a));
    assert_eq!(g.parent_of(c), Some(b));
    let other = g.add_root();
    assert_eq!(g.reparent(b, other), Ok(()));
    assert_eq!(g.parent_of(b), Some(other));
    // the inner edge of the moved subtree is untouched
    assert_eq!(g.parent_of(c), Some(b));
    assert_eq!(g.len(), 4);
}

#[test]
fn reparent_under_descendant_fails_with_cycle_detected() {
    let mut g = EntityGraph::new();
    let a = g.add_root();
    let b = g.add_root();
    let d = g.add_root();
    g.add_child(a, b).unwrap();
    g.add_child(b, d).unwrap();
    // d is a descendant of a: the graph must stay exactly as it was
    assert_eq!(g.reparent(a, d), Err(HierarchyError::CycleDetected));
    assert_eq!(g.parent_of(a), None);
    assert_eq!(g.parent_of(b), Some(a));
    assert_eq!(g.parent_of(d), Some(b));
    assert_eq!(g.children_of(a), vec![b]);
    assert_eq!(g.children_of(b), vec![d]);
    assert_eq!(g.roots(), vec![a]);
}

#[test]
fn reparent_under_itself_fails_with_cycle_detected() {
    let mut g = EntityGraph::new();
    let a = g.add_root();
    assert_eq!(g.reparent(a, a), Err(HierarchyError::CycleDetected));
    assert_eq!(g.parent_of(a), None);
}

#[test]
fn reparent_missing_entity_fails_with_invalid_parent() {
    let mut g = EntityGraph::new();
    let a = g.add_root();
    let stranger = Entity { id: 999 };
    assert_eq!(g.reparent(stranger, a), Err(HierarchyError::InvalidParent));
    assert_eq!(g.reparent(a, stranger), Err(HierarchyError::InvalidParent));
}

#[test]
fn detach_turns_a_child_into_a_root() {
    let mut g = EntityGraph::new();
    let a = g.add_root();
    let b = g.add_root();
    g.add_child(a, b).unwrap();
    assert_eq!(g.detach(b), Ok(()));
    assert_eq!(g.parent_of(b), None);
    assert!(g.roots().contains(&b));
    // no-op on a root, error on a missing entity
    assert_eq!(g.detach(b), Ok(()));
    assert_eq!(g.detach(Entity { id: 999 }), Err(HierarchyError::InvalidParent));
}

#[test]
fn remove_subtree_destroys_every_descendant() {
    let mut g = EntityGraph::new();
    let a = g.add_root();
    let b = g.add_root();
    let c = g.add_root();
    let d = g.add_root();
    let keep = g.add_root();
    g.add_child(a, b).unwrap();
    g.add_child(a, c).unwrap();
    g.add_child(b, d).unwrap();
    let destroyed = g.remove_subtree(a).unwrap();
    assert_eq!(destroyed.len(), 4);
    for e in [a, b, c, d] {
        assert!(destroyed.contains(&e));
        assert!(!g.contains(e));
    }
    assert!(g.contains(keep));
    assert_eq!(g.len(), 1);
}

#[test]
fn remove_subtree_of_missing_entity_fails() {
    let mut g = EntityGraph::new();
    g.add_root();
    assert_eq!(g.remove_subtree(Entity { id: 999 }), Err(HierarchyError::InvalidParent));
    assert_eq!(g.len(), 1);
}

#[test]
fn identifiers_are_never_reused_after_removal() {
    let mut g = EntityGraph::new();
    let a = g.add_root();
    g.remove_subtree(a).unwrap();
    let b = g.add_root();
    assert_ne!(a, b);
    assert!(!g.contains(a));
}

#[test]
fn parent_chains_reach_a_root_after_any_mutations() {
    // a mix of attachments and reparents that all succeed: every parent
    // chain must still terminate within the number of live entities
    let mut g = EntityGraph::new();
    let mut all = Vec::new();
    for _ in 0..6 {
        all.push(g.add_root());
    }
    g.add_child(all[0], all[1]).unwrap();
    g.add_child(all[1], all[2]).unwrap();
    g.add_child(all[0], all[3]).unwrap();
    g.reparent(all[3], all[2]).unwrap();
    g.add_child(all[3], all[4]).unwrap();
    g.reparent(all[1], all[5]).unwrap();
    assert_eq!(g.reparent(all[5], all[4]), Err(HierarchyError::CycleDetected));
    for e in &all {
        let mut cur = *e;
        let mut steps = 0;
        while let Some(p) = g.parent_of(cur) {
            cur = p;
            steps += 1;
            assert!(steps <= g.len(), "parent chain does not terminate");
        }
    }
}
