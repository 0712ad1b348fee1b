//! Selection semantics and their consistency with entity destruction.

use scene_hierarchy::controller::HierarchyController;
use scene_hierarchy::selection::SelectionSet;

#[test]
fn exclusive_then_additive_then_exclusive() {
    // select A exclusively, B additively, then C exclusively
    let mut c = HierarchyController::new();
    let a = c.spawn_root();
    let b = c.spawn_root();
    let c_ent = c.spawn_root();
    assert!(c.toggle_select(a, true));
    assert!(c.is_selected(a));
    assert_eq!(c.selected_entities(), vec![a]);
    assert!(c.toggle_select(b, false));
    assert!(c.is_selected(a) && c.is_selected(b));
    assert_eq!(c.selected_entities().len(), 2);
    assert!(c.toggle_select(c_ent, true));
    assert!(c.is_selected(c_ent));
    assert!(!c.is_selected(a) && !c.is_selected(b));
    assert_eq!(c.selected_entities(), vec![c_ent]);
}

#[test]
fn toggling_a_selected_entity_deselects_it() {
    let mut c = HierarchyController::new();
    let a = c.spawn_root();
    c.toggle_select(a, false);
    assert!(c.is_selected(a));
    c.toggle_select(a, false);
    assert!(!c.is_selected(a));
    // exclusive toggle of a selected entity also just deselects
    c.toggle_select(a, true);
    assert!(c.is_selected(a));
    c.toggle_select(a, true);
    assert!(!c.is_selected(a));
}

#[test]
fn toggling_a_missing_entity_is_a_no_op() {
    let mut c = HierarchyController::new();
    let a = c.spawn_root();
    c.toggle_select(a, true);
    let stranger = scene_hierarchy::Entity { id: 999 };
    assert!(!c.toggle_select(stranger, true));
    assert_eq!(c.selected_entities(), vec![a]);
}

#[test]
fn destroyed_entities_never_stay_selected() {
    let mut c = HierarchyController::new();
    let a = c.spawn_root();
    let b = c.spawn_child(a).unwrap();
    let d = c.spawn_child(b).unwrap();
    let keep = c.spawn_root();
    c.toggle_select(d, true);
    c.toggle_select(keep, false);
    c.delete(a).unwrap();
    assert!(!c.is_selected(a));
    assert!(!c.is_selected(b));
    assert!(!c.is_selected(d));
    assert!(c.is_selected(keep));
    assert_eq!(c.selected_entities(), vec![keep]);
}

#[test]
fn clear_all_empties_the_selection() {
    let mut s = SelectionSet::new();
    let mut c = HierarchyController::new();
    let a = c.spawn_root();
    let b = c.spawn_root();
    s.toggle(a, false);
    s.toggle(b, false);
    assert!(s.contains(a) && s.contains(b));
    assert_eq!(s.iter().len(), 2);
    s.clear_all();
    assert!(!s.contains(a) && !s.contains(b));
    assert!(s.iter().is_empty());
}

#[test]
fn selection_has_set_semantics() {
    let mut s = SelectionSet::new();
    let mut c = HierarchyController::new();
    let a = c.spawn_root();
    s.toggle(a, false);
    s.toggle(a, false);
    s.toggle(a, false);
    // membership flips each time: no duplicates accumulate
    assert!(s.contains(a));
    assert_eq!(s.iter(), vec![a]);
}
