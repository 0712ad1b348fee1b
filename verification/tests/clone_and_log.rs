//! The clone engine and the change-log discipline, driven through the
//! controller: topology preservation, identity remapping, placeholder
//! handling, and exactly-one-record pairing.

use scene_hierarchy::Entity;
use scene_hierarchy::change::ChangeRecord;
use scene_hierarchy::clone_engine::AllEditable;
use scene_hierarchy::clone_engine::EditableSet;
use scene_hierarchy::clone_engine::RecordingCapability;
use scene_hierarchy::clone_engine::clone_subtree;
use scene_hierarchy::controller::HierarchyController;
use scene_hierarchy::graph::EntityGraph;

fn added_count(log: &[ChangeRecord], e: Entity) -> usize {
    log.iter()
        .filter(|r| matches!(r, ChangeRecord::EntityAdded { entity } if *entity == e))
        .count()
}

fn removed_count(log: &[ChangeRecord], e: Entity) -> usize {
    log.iter()
        .filter(|r| matches!(r, ChangeRecord::EntityRemoved { entity } if *entity == e))
        .count()
}

#[test]
fn clone_of_a_root_subtree_preserves_topology() {
    // root A with children B, C; B has child D
    let mut c = HierarchyController::new();
    let a = c.spawn_root();
    let b = c.spawn_child(a).unwrap();
    let c_ent = c.spawn_child(a).unwrap();
    let d = c.spawn_child(b).unwrap();
    let _ = c.take_changes();

    c.enqueue_clone(a);
    let mut cap = RecordingCapability::new();
    c.process_pending_clones(&mut cap, &AllEditable {});
    assert_eq!(c.pending_count(), 0);

    // four new entities, all distinct from the originals
    let originals = [a, b, c_ent, d];
    let roots = c.roots();
    assert_eq!(roots.len(), 2);
    let new_root = *roots.iter().find(|r| **r != a).unwrap();
    assert!(!originals.contains(&new_root));
    // A's parent was none, so the duplicate is itself a root
    assert_eq!(c.parent_of(new_root), None);

    // isomorphic shape: new root has two children, exactly one of which
    // has one child, which is a leaf
    let kids = c.children_of(new_root);
    assert_eq!(kids.len(), 2);
    let with_child: Vec<Entity> = kids
        .iter()
        .copied()
        .filter(|k| c.children_of(*k).len() == 1)
        .collect();
    let leaves: Vec<Entity> = kids
        .iter()
        .copied()
        .filter(|k| c.children_of(*k).is_empty())
        .collect();
    assert_eq!(with_child.len(), 1);
    assert_eq!(leaves.len(), 1);
    let grandchild = c.children_of(with_child[0])[0];
    assert!(c.children_of(grandchild).is_empty());
    for e in kids.iter().chain(std::iter::once(&grandchild)) {
        assert!(!originals.contains(e));
    }

    // four EntityAdded records, one per produced entity
    let log = c.take_changes();
    assert_eq!(log.len(), 4);
    for e in [new_root, kids[0], kids[1], grandchild] {
        assert_eq!(added_count(&log, e), 1);
    }
    // component data was copied once per source node
    assert_eq!(cap.copies.len(), 4);
}

#[test]
fn clone_of_an_inner_subtree_attaches_to_the_original_parent() {
    let mut c = HierarchyController::new();
    let a = c.spawn_root();
    let b = c.spawn_child(a).unwrap();
    let d = c.spawn_child(b).unwrap();
    let _ = c.take_changes();

    c.enqueue_clone(b);
    let mut cap = RecordingCapability::new();
    c.process_pending_clones(&mut cap, &AllEditable {});

    // the duplicate of B hangs under A, the original parent
    let a_kids = c.children_of(a);
    assert_eq!(a_kids.len(), 2);
    let new_b = *a_kids.iter().find(|k| **k != b).unwrap();
    assert_eq!(c.parent_of(new_b), Some(a));
    // the duplicate of D hangs under the duplicate of B, not under B
    let new_b_kids = c.children_of(new_b);
    assert_eq!(new_b_kids.len(), 1);
    assert_ne!(new_b_kids[0], d);
    assert_eq!(c.parent_of(new_b_kids[0]), Some(new_b));
    assert_eq!(c.children_of(b), vec![d]);
    let log = c.take_changes();
    assert_eq!(log.len(), 2);
}

#[test]
fn clone_map_remaps_sources_to_fresh_destinations() {
    let mut g = EntityGraph::new();
    let a = g.add_root();
    let b = g.add_root();
    g.add_child(a, b).unwrap();
    let mut cap = RecordingCapability::new();
    let out = clone_subtree(&mut g, &mut cap, &AllEditable {}, a);
    assert_eq!(out.mapping.len(), 2);
    // the subtree root is processed first
    assert_eq!(out.mapping[0].0, a);
    let (src_b, dst_b) = out.mapping[1];
    assert_eq!(src_b, b);
    let dst_a = out.mapping[0].1;
    assert!(!([a, b].contains(&dst_a)) && !([a, b].contains(&dst_b)));
    assert_eq!(g.parent_of(dst_b), Some(dst_a));
    assert_eq!(g.parent_of(dst_a), None);
    assert_eq!(g.len(), 4);
    assert_eq!(cap.copies, vec![(a, dst_a), (b, dst_b)]);
}

#[test]
fn ineligible_node_becomes_detached_placeholder() {
    // a -> b -> d with b not editable: b still gets an allocated
    // duplicate, but it is an empty unattached placeholder — no
    // component copy, no parent link — and b's children are not walked,
    // so d is not cloned at all
    let mut g = EntityGraph::new();
    let a = g.add_root();
    let b = g.add_root();
    let d = g.add_root();
    g.add_child(a, b).unwrap();
    g.add_child(b, d).unwrap();
    let policy = EditableSet { members: vec![a, d] };
    let mut cap = RecordingCapability::new();
    let out = clone_subtree(&mut g, &mut cap, &policy, a);
    // only a and b are reached: d sits behind the ineligible b
    assert_eq!(out.mapping.len(), 2);
    assert_eq!(g.len(), 5);
    let dst_a = out.mapping[0].1;
    assert_eq!(out.mapping[0].0, a);
    let (src_b, dst_b) = out.mapping[1];
    assert_eq!(src_b, b);
    // a's duplicate keeps a's (absent) parent; b's placeholder is an
    // unattached root, not a child of a's duplicate
    assert_eq!(g.parent_of(dst_a), None);
    assert_eq!(g.parent_of(dst_b), None);
    assert!(g.children_of(dst_a).is_empty());
    // no duplicate of d exists
    assert!(!out.mapping.iter().any(|p| p.0 == d));
    // component data was copied only for the editable reached source
    assert_eq!(out.copied, vec![(a, dst_a)]);
    assert_eq!(cap.copies, out.copied);
}

#[test]
fn ineligible_clone_root_yields_one_detached_placeholder() {
    let mut g = EntityGraph::new();
    let p = g.add_root();
    let r = g.add_root();
    let c = g.add_root();
    g.add_child(p, r).unwrap();
    g.add_child(r, c).unwrap();
    // r itself is not editable: one placeholder, nothing walked, and the
    // placeholder is not attached to r's original parent
    let policy = EditableSet { members: vec![p, c] };
    let mut cap = RecordingCapability::new();
    let out = clone_subtree(&mut g, &mut cap, &policy, r);
    assert_eq!(out.mapping.len(), 1);
    assert_eq!(out.mapping[0].0, r);
    let dst_r = out.mapping[0].1;
    assert_eq!(g.parent_of(dst_r), None);
    assert_eq!(g.children_of(p), vec![r]);
    assert!(g.children_of(dst_r).is_empty());
    assert!(out.copied.is_empty());
    assert!(cap.copies.is_empty());
    assert_eq!(g.len(), 4);
}

#[test]
fn clone_request_for_a_destroyed_root_is_discarded() {
    let mut c = HierarchyController::new();
    let a = c.spawn_root();
    let b = c.spawn_root();
    c.enqueue_clone(a);
    c.delete(a).unwrap();
    let _ = c.take_changes();
    let mut cap = RecordingCapability::new();
    c.process_pending_clones(&mut cap, &AllEditable {});
    assert_eq!(c.pending_count(), 0);
    assert!(c.take_changes().is_empty());
    assert!(c.contains(b));
    assert_eq!(c.roots(), vec![b]);
}

#[test]
fn spawned_entities_are_logged_exactly_once() {
    let mut c = HierarchyController::new();
    let a = c.spawn_root();
    let b = c.spawn_child(a).unwrap();
    let log = c.take_changes();
    assert_eq!(log.len(), 2);
    assert_eq!(log[0], ChangeRecord::EntityAdded { entity: a });
    assert_eq!(log[1], ChangeRecord::EntityAdded { entity: b });
    assert_eq!(added_count(&log, a), 1);
    assert_eq!(added_count(&log, b), 1);
    // the log was handed over: nothing is retained
    assert!(c.take_changes().is_empty());
}

#[test]
fn cascading_delete_logs_one_removal_per_destroyed_entity() {
    let mut c = HierarchyController::new();
    let a = c.spawn_root();
    let b = c.spawn_child(a).unwrap();
    let d = c.spawn_child(b).unwrap();
    let keep = c.spawn_root();
    let _ = c.take_changes();
    let destroyed = c.delete(a).unwrap();
    assert_eq!(destroyed.len(), 3);
    let log = c.take_changes();
    assert_eq!(log.len(), 3);
    for e in [a, b, d] {
        assert_eq!(removed_count(&log, e), 1);
        assert!(!c.contains(e));
    }
    assert_eq!(removed_count(&log, keep), 0);
    assert!(c.contains(keep));
}

#[test]
fn failed_mutations_emit_no_record() {
    let mut c = HierarchyController::new();
    let a = c.spawn_root();
    let d = c.spawn_child(a).unwrap();
    let _ = c.take_changes();
    // cycle and invalid-parent failures leave the log untouched
    assert!(c.reparent(a, d).is_err());
    assert!(c.delete(Entity { id: 999 }).is_err());
    assert!(c.spawn_child(Entity { id: 999 }).is_err());
    // reparent, detach and selection changes are not logged either
    c.reparent(d, a).unwrap();
    c.detach(d).unwrap();
    c.toggle_select(a, true);
    assert!(c.take_changes().is_empty());
}

#[test]
fn clear_all_entities_removes_everything_with_one_record_each() {
    let mut c = HierarchyController::new();
    let a = c.spawn_root();
    let b = c.spawn_child(a).unwrap();
    let d = c.spawn_child(b).unwrap();
    let e = c.spawn_root();
    c.toggle_select(d, true);
    let _ = c.take_changes();
    let destroyed = c.clear_all_entities();
    assert_eq!(destroyed.len(), 4);
    let log = c.take_changes();
    assert_eq!(log.len(), 4);
    for x in [a, b, d, e] {
        assert!(destroyed.contains(&x));
        assert!(!c.contains(x));
        assert!(!c.is_selected(x));
        assert_eq!(removed_count(&log, x), 1);
    }
    assert!(c.roots().is_empty());
    assert!(c.selected_entities().is_empty());
}
