//! Top-level orchestration: graph mutation, selection upkeep, the clone
//! queue, and change-log emission.
//!
//! The controller owns the graph and the selection exclusively; records are
//! appended only after the corresponding mutation has succeeded, and never
//! for a failed or no-op mutation. Reparent and detach are not paired with
//! records: they are not undo-able in the current record taxonomy.

use vstd::prelude::*;

use crate::Entity;
use crate::HierarchyError;
use crate::change::ChangeRecord;
use crate::change::added_records;
use crate::change::count_of;
use crate::change::removed_records;
use crate::clone_engine::CloneOutcome;
use crate::clone_engine::ComponentCloneCapability;
use crate::clone_engine::EditabilityPredicate;
use crate::clone_engine::clone_subtree;
use crate::clone_engine::eligible_reach;
use crate::clone_engine::vals_of;
use crate::graph::EntityGraph;
use crate::graph::Node;
use crate::graph::children_in;
use crate::graph::has_id;
use crate::graph::ids_of;
use crate::graph::lemma_subtree_absent;
use crate::graph::parent_in;
use crate::graph::roots_in;
use crate::graph::subtree_in;
use crate::selection::SelectionSet;

verus! {

/// One user request to duplicate the subtree below `root`; consumed once
/// the clone engine has materialized the duplicate.
#[derive(Clone, Copy, PartialEq, Eq, Structural, Debug)]
pub struct CloneRequest {
    pub root: Entity,
}

/// Owns graph, selection, pending clone requests and the outgoing change
/// log for one editing session.
pub struct HierarchyController {
    graph: EntityGraph,
    selection: SelectionSet,
    changes: Vec<ChangeRecord>,
    pending: Vec<CloneRequest>,
}

impl HierarchyController {
    /// The entity graph, for specification purposes.
    pub closed spec fn graph(&self) -> EntityGraph {
        self.graph
    }

    /// The selected entities, for specification purposes.
    pub closed spec fn selected(&self) -> Seq<Entity> {
        self.selection@
    }

    /// The emitted change records not yet taken by the consumer.
    pub closed spec fn log(&self) -> Seq<ChangeRecord> {
        self.changes@
    }

    /// The pending clone requests, oldest first.
    pub closed spec fn queue(&self) -> Seq<CloneRequest> {
        self.pending@
    }

    /// The graph is well-formed and only live entities are selected.
    pub open spec fn wf(&self) -> bool {
        &&& self.graph().wf()
        &&& self.selected().no_duplicates()
        &&& forall|e: Entity| self.selected().contains(e) ==> has_id(self.graph()@, e)
    }

    /// A fresh session: empty graph, empty selection, empty log and queue.
    pub fn new() -> (c: HierarchyController)
        ensures
            c.wf(),
            c.graph()@ == Seq::<Node>::empty(),
            c.graph().next_id() == 0,
            c.selected() == Seq::<Entity>::empty(),
            c.log() == Seq::<ChangeRecord>::empty(),
            c.queue() == Seq::<CloneRequest>::empty(),
    {
        HierarchyController {
            graph: EntityGraph::new(),
            selection: SelectionSet::new(),
            changes: Vec::new(),
            pending: Vec::new(),
        }
    }

    /// Creates a new root entity and logs its creation. Always succeeds
    /// while the identifier space lasts.
    pub fn spawn_root(&mut self) -> (e: Entity)
        requires
            old(self).wf(),
            old(self).graph().next_id() < u64::MAX,
        ensures
            final(self).wf(),
            e.id == old(self).graph().next_id(),
            !has_id(old(self).graph()@, e),
            final(self).graph()@ == old(self).graph()@.push((Node { entity: e, parent: None })),
            final(self).graph().next_id() == old(self).graph().next_id() + 1,
            final(self).log() == old(self).log().push((ChangeRecord::EntityAdded { entity: e })),
            final(self).selected() == old(self).selected(),
            final(self).queue() == old(self).queue(),
    {
        let e = self.graph.add_root();
        self.changes.push(ChangeRecord::EntityAdded { entity: e });
        proof {
            assert forall|x: Entity| self.selected().contains(x) implies has_id(
                self.graph()@,
                x,
            ) by {
                let i = choose|i: int|
                    0 <= i < old(self).graph()@.len() && (#[trigger] old(self).graph()@[i]).entity
                        == x;
                assert(self.graph()@[i].entity == x);
            }
        }
        e
    }

    /// Creates a new entity as a child of `parent` and logs its creation.
    /// Fails with `InvalidParent`, with no effect, exactly when `parent`
    /// is not live.
    pub fn spawn_child(&mut self, parent: Entity) -> (r: Result<Entity, HierarchyError>)
        requires
            old(self).wf(),
            old(self).graph().next_id() < u64::MAX,
        ensures
            final(self).wf(),
            final(self).selected() == old(self).selected(),
            final(self).queue() == old(self).queue(),
            r is Err <==> !has_id(old(self).graph()@, parent),
            r is Err ==> r == Err::<Entity, HierarchyError>(HierarchyError::InvalidParent)
                && final(self).graph() == old(self).graph() && final(self).log() == old(
                self,
            ).log(),
            r is Ok ==> {
                let e = r->Ok_0;
                &&& e.id == old(self).graph().next_id()
                &&& !has_id(old(self).graph()@, e)
                &&& (forall|x: Entity|
                    has_id(final(self).graph()@, x) <==> (has_id(old(self).graph()@, x) || x
                        == e))
                &&& parent_in(final(self).graph()@, e) == Some(parent)
                &&& (forall|x: Entity|
                    has_id(old(self).graph()@, x) && x != e ==> parent_in(final(self).graph()@, x)
                        == parent_in(old(self).graph()@, x))
                &&& final(self).graph().next_id() == old(self).graph().next_id() + 1
                &&& final(self).log() == old(self).log().push(
                    (ChangeRecord::EntityAdded { entity: e }),
                )
            },
    {
        if !self.graph.contains(parent) {
            return Err(HierarchyError::InvalidParent);
        }
        let ghost s_old = self.graph()@;
        let e = self.graph.add_root();
        proof {
            // the fresh root's subtree is itself alone, so attaching it
            // under a live parent cannot close a cycle
            lemma_subtree_absent(s_old, e);
            let s1 = self.graph()@;
            assert(s1.drop_last() =~= s_old);
            assert(subtree_in(s1, e) == subtree_in(s_old, e).push(e));
            assert(!subtree_in(s1, e).contains(parent)) by {
                if subtree_in(s1, e).contains(parent) {
                    assert(subtree_in(s_old, e).push(e)[0] == e);
                    let k = choose|k: int|
                        0 <= k < subtree_in(s1, e).len() && subtree_in(s1, e)[k] == parent;
                    assert(subtree_in(s1, e) =~= Seq::<Entity>::empty().push(e));
                    assert(parent == e);
                    assert(has_id(s_old, e));
                }
            }
            let i = choose|i: int| 0 <= i < s_old.len() && (#[trigger] s_old[i]).entity == parent;
            assert(s1[i].entity == parent);
            assert(has_id(s1, parent));
        }
        let attached = self.graph.add_child(parent, e);
        match attached {
            Ok(_) => {
                self.changes.push(ChangeRecord::EntityAdded { entity: e });
                proof {
                    assert forall|x: Entity|
                        has_id(self.graph()@, x) <==> (has_id(s_old, x) || x == e) by {
                        if has_id(s_old, x) {
                            let i = choose|i: int|
                                0 <= i < s_old.len() && (#[trigger] s_old[i]).entity == x;
                            assert(s_old.push((Node { entity: e, parent: None }))[i].entity == x);
                            assert(has_id(s_old.push((Node { entity: e, parent: None })), x));
                        }
                        if x == e {
                            assert(has_id(s_old.push((Node { entity: e, parent: None })), e)) by {
                                assert(s_old.push((Node { entity: e, parent: None }))[s_old.len() as int].entity
                                    == e);
                            }
                        }
                        if has_id(self.graph()@, x) && x != e {
                            assert(has_id(s_old.push((Node { entity: e, parent: None })), x));
                            let i = choose|i: int|
                                0 <= i < s_old.len() + 1 && (#[trigger] s_old.push(
                                    (Node { entity: e, parent: None }),
                                )[i]).entity == x;
                            assert(i < s_old.len());
                            assert(s_old[i].entity == x);
                        }
                    }
                    assert forall|x: Entity| self.selected().contains(x) implies has_id(
                        self.graph()@,
                        x,
                    ) by {
                        assert(has_id(s_old, x));
                    }
                    assert forall|x: Entity|
                        has_id(s_old, x) && x != e implies parent_in(self.graph()@, x)
                        == parent_in(s_old, x) by {
                        let s1 = s_old.push((Node { entity: e, parent: None }));
                        assert(has_id(s1, x)) by {
                            let i = choose|i: int|
                                0 <= i < s_old.len() && (#[trigger] s_old[i]).entity == x;
                            assert(s1[i].entity == x);
                        }
                        assert(parent_in(s1, x) == parent_in(s_old, x)) by {
                            let i = choose|i: int|
                                0 <= i < s_old.len() && (#[trigger] s_old[i]).entity == x;
                            crate::graph::lemma_parent_in_at(s1, i);
                            crate::graph::lemma_parent_in_at(s_old, i);
                        }
                    }
                }
                Ok(e)
            },
            Err(err) => {
                proof {
                    assert(false);
                }
                Err(err)
            },
        }
    }

    /// Destroys `target` and its whole subtree, atomically: prunes them
    /// from the selection and logs one `EntityRemoved` record per
    /// destroyed entity, in the order the graph reported them. Fails with
    /// `InvalidParent`, with no effect, exactly when `target` is not
    /// live.
    pub fn delete(&mut self, target: Entity) -> (r: Result<Vec<Entity>, HierarchyError>)
        requires
            old(self).wf(),
        ensures
            final(self).wf(),
            final(self).queue() == old(self).queue(),
            final(self).graph().next_id() == old(self).graph().next_id(),
            r is Err <==> !has_id(old(self).graph()@, target),
            r is Err ==> r == Err::<Vec<Entity>, HierarchyError>(HierarchyError::InvalidParent)
                && final(self).graph()@ == old(self).graph()@ && final(self).log() == old(
                self,
            ).log() && final(self).selected() == old(self).selected(),
            r is Ok ==> final(self).graph()@.len() < old(self).graph()@.len(),
            r is Ok ==> (forall|x: Entity|
                has_id(final(self).graph()@, x) <==> (has_id(old(self).graph()@, x)
                    && !r->Ok_0@.contains(x))),
            r is Ok ==> {
                let destroyed = r->Ok_0@;
                &&& destroyed == subtree_in(old(self).graph()@, target)
                &&& destroyed.no_duplicates()
                &&& destroyed.contains(target)
                &&& (forall|x: Entity|
                    has_id(final(self).graph()@, x) <==> (has_id(old(self).graph()@, x)
                        && !destroyed.contains(x)))
                &&& final(self).log() == old(self).log() + removed_records(destroyed)
                &&& (forall|x: Entity|
                    final(self).selected().contains(x) <==> (old(self).selected().contains(x)
                        && !destroyed.contains(x)))
            },
    {
        let removed = self.graph.remove_subtree(target);
        match removed {
            Err(_) => Err(HierarchyError::InvalidParent),
            Ok(destroyed) => {
                self.selection.prune(&destroyed);
                let ghost log0 = self.changes@;
                let ghost g_snap = self.graph;
                let ghost sel_snap = self.selection;
                let ghost pend_snap = self.pending;
                let mut i: usize = 0;
                while i < destroyed.len()
                    invariant
                        0 <= i <= destroyed@.len(),
                        self.graph == g_snap,
                        self.selection == sel_snap,
                        self.pending == pend_snap,
                        self.changes@ == log0 + removed_records(
                            destroyed@.subrange(0, i as int),
                        ),
                    decreases destroyed@.len() - i,
                {
                    let d = destroyed[i];
                    self.changes.push(ChangeRecord::EntityRemoved { entity: d });
                    proof {
                        let pre = destroyed@.subrange(0, i as int);
                        let cur = destroyed@.subrange(0, i + 1 as int);
                        assert(cur.drop_last() =~= pre);
                        assert(removed_records(cur) =~= removed_records(pre).push(
                            (ChangeRecord::EntityRemoved { entity: d }),
                        ));
                        assert(self.changes@ =~= log0 + removed_records(cur));
                    }
                    i += 1;
                }
                proof {
                    assert(destroyed@.subrange(0, destroyed@.len() as int) =~= destroyed@);
                }
                Ok(destroyed)
            },
        }
    }

    /// Destroys every entity, subtree by subtree, logging one
    /// `EntityRemoved` record per destroyed entity (the clear-all
    /// command). Returns every destroyed entity exactly once; afterwards
    /// the graph and the selection are empty.
    pub fn clear_all_entities(&mut self) -> (r: Vec<Entity>)
        requires
            old(self).wf(),
        ensures
            final(self).wf(),
            final(self).graph()@.len() == 0,
            final(self).graph().next_id() == old(self).graph().next_id(),
            final(self).queue() == old(self).queue(),
            r@.no_duplicates(),
            forall|x: Entity| #[trigger] r@.contains(x) <==> has_id(old(self).graph()@, x),
            final(self).log() == old(self).log() + removed_records(r@),
            final(self).selected() == Seq::<Entity>::empty(),
    {
        let ghost s_old = self.graph()@;
        let ghost log_old = self.log();
        let mut destroyed_all: Vec<Entity> = Vec::new();
        while self.graph.len() > 0
            invariant
                self.wf(),
                self.graph().next_id() == old(self).graph().next_id(),
                self.queue() == old(self).queue(),
                self.log() == log_old + removed_records(destroyed_all@),
                destroyed_all@.no_duplicates(),
                forall|x: Entity|
                    has_id(s_old, x) <==> (#[trigger] destroyed_all@.contains(x) || has_id(
                        self.graph()@,
                        x,
                    )),
                forall|x: Entity| #[trigger]
                    destroyed_all@.contains(x) ==> !has_id(self.graph()@, x),
            decreases self.graph()@.len(),
        {
            let root0 = self.graph.first_root().unwrap();
            let ghost g_mid = self.graph()@;
            let ghost acc_mid = destroyed_all@;
            let ghost log_mid = self.log();
            let deleted = self.delete(root0);
            proof {
                assert(deleted is Ok);
            }
            let destroyed = match deleted {
                Ok(v) => v,
                Err(_) => {
                    proof {
                        assert(false);
                    }
                    Vec::new()
                },
            };
            proof {
                assert(destroyed@ == subtree_in(g_mid, root0));
                assert forall|x: Entity|
                    has_id(self.graph()@, x) <==> (has_id(g_mid, x)
                        && !destroyed@.contains(x)) by {
                    // name the term the contract's quantifier matches on
                    assert(destroyed@ == deleted->Ok_0@);
                    let in_removed = deleted->Ok_0@.contains(x);
                    assert(has_id(self.graph()@, x) <==> (has_id(g_mid, x) && !in_removed));
                }
            }
            let ghost self_after = *self;
            let mut j: usize = 0;
            while j < destroyed.len()
                invariant
                    0 <= j <= destroyed@.len(),
                    *self == self_after,
                    destroyed_all@ == acc_mid + destroyed@.subrange(0, j as int),
                decreases destroyed@.len() - j,
            {
                destroyed_all.push(destroyed[j]);
                proof {
                    assert(destroyed_all@ =~= acc_mid + destroyed@.subrange(0, j + 1 as int));
                }
                j += 1;
            }
            proof {
                assert(destroyed@.subrange(0, destroyed@.len() as int) =~= destroyed@);
                assert(destroyed_all@ == acc_mid + destroyed@);
                // the log grows by exactly the new removal records
                assert(removed_records(acc_mid + destroyed@) =~= removed_records(acc_mid)
                    + removed_records(destroyed@));
                assert(self.log() =~= log_old + removed_records(destroyed_all@)) by {
                    assert(self.log() == log_mid + removed_records(destroyed@));
                    assert(log_mid == log_old + removed_records(acc_mid));
                }
                // the destroyed entities were live, so they are new to the
                // accumulator, which stays duplicate-free
                assert forall|a: int, b: int|
                    0 <= a < b < destroyed_all@.len() implies destroyed_all@[a]
                    != destroyed_all@[b] by {
                    if a < acc_mid.len() && b >= acc_mid.len() {
                        assert(destroyed_all@[a] == acc_mid[a]);
                        assert(destroyed_all@[b] == destroyed@[b - acc_mid.len()]);
                        if destroyed_all@[a] == destroyed_all@[b] {
                            assert(acc_mid.contains(destroyed_all@[a]));
                            assert(destroyed@.contains(destroyed_all@[a]));
                            assert(has_id(g_mid, destroyed_all@[a])) by {
                                crate::graph::lemma_subtree_member_live(
                                    g_mid,
                                    root0,
                                    destroyed_all@[a],
                                );
                            }
                        }
                    } else if b < acc_mid.len() {
                        assert(destroyed_all@[a] == acc_mid[a]
                            && destroyed_all@[b] == acc_mid[b]);
                    } else {
                        assert(destroyed_all@[a] == destroyed@[a - acc_mid.len()]
                            && destroyed_all@[b] == destroyed@[b - acc_mid.len()]);
                    }
                }
                // the partition of the original live set is maintained
                assert forall|x: Entity|
                    has_id(s_old, x) <==> (#[trigger] destroyed_all@.contains(x) || has_id(
                        self.graph()@,
                        x,
                    )) by {
                    assert(has_id(self.graph()@, x) <==> (has_id(g_mid, x)
                        && !destroyed@.contains(x)));
                    if destroyed@.contains(x) {
                        crate::graph::lemma_subtree_member_live(g_mid, root0, x);
                    }
                    assert(destroyed_all@.contains(x) <==> (acc_mid.contains(x)
                        || destroyed@.contains(x))) by {
                        if destroyed_all@.contains(x) {
                            let k = choose|k: int|
                                0 <= k < destroyed_all@.len() && destroyed_all@[k] == x;
                            if k < acc_mid.len() {
                                assert(acc_mid[k] == x);
                            } else {
                                assert(destroyed@[k - acc_mid.len()] == x);
                            }
                        }
                        if acc_mid.contains(x) {
                            let k = choose|k: int| 0 <= k < acc_mid.len() && acc_mid[k] == x;
                            assert(destroyed_all@[k] == x);
                        }
                        if destroyed@.contains(x) {
                            let k = choose|k: int| 0 <= k < destroyed@.len() && destroyed@[k] == x;
                            assert(destroyed_all@[acc_mid.len() + k] == x);
                        }
                    }
                }
                assert forall|x: Entity| #[trigger]
                    destroyed_all@.contains(x) implies !has_id(self.graph()@, x) by {
                    assert(destroyed_all@.contains(x) <==> (acc_mid.contains(x)
                        || destroyed@.contains(x)));
                    assert(has_id(self.graph()@, x) <==> (has_id(g_mid, x)
                        && !destroyed@.contains(x)));
                    if acc_mid.contains(x) {
                        assert(!has_id(g_mid, x));
                    }
                }
            }
        }
        proof {
            assert forall|x: Entity| #[trigger] destroyed_all@.contains(x) <==> has_id(
                s_old,
                x,
            ) by {
                if has_id(self.graph()@, x) {
                    let i = choose|i: int|
                        0 <= i < self.graph()@.len() && (#[trigger] self.graph()@[i]).entity == x;
                }
            }
            // an empty graph leaves nothing selected
            assert(self.selected() =~= Seq::<Entity>::empty()) by {
                if self.selected().len() > 0 {
                    assert(self.selected().contains(self.selected()[0]));
                    assert(has_id(self.graph()@, self.selected()[0]));
                    let i = choose|i: int|
                        0 <= i < self.graph()@.len() && (#[trigger] self.graph()@[i]).entity
                            == self.selected()[0];
                }
            }
        }
        destroyed_all
    }

    /// Re-hangs `entity` under `new_parent`; not logged (not undo-able in
    /// the current record taxonomy). Same error contract as the graph.
    pub fn reparent(&mut self, entity: Entity, new_parent: Entity) -> (r: Result<
        (),
        HierarchyError,
    >)
        requires
            old(self).wf(),
        ensures
            final(self).wf(),
            final(self).log() == old(self).log(),
            final(self).selected() == old(self).selected(),
            final(self).queue() == old(self).queue(),
            final(self).graph().next_id() == old(self).graph().next_id(),
            r is Err ==> final(self).graph()@ == old(self).graph()@,
            r == Err::<(), HierarchyError>(HierarchyError::InvalidParent) <==> (!has_id(
                old(self).graph()@,
                entity,
            ) || !has_id(old(self).graph()@, new_parent)),
            r == Err::<(), HierarchyError>(HierarchyError::CycleDetected) <==> (has_id(
                old(self).graph()@,
                entity,
            ) && has_id(old(self).graph()@, new_parent) && subtree_in(
                old(self).graph()@,
                entity,
            ).contains(new_parent)),
            r is Ok ==> (forall|x: Entity|
                has_id(final(self).graph()@, x) == has_id(old(self).graph()@, x)) && parent_in(
                final(self).graph()@,
                entity,
            ) == Some(new_parent) && (forall|x: Entity|
                has_id(old(self).graph()@, x) && x != entity ==> parent_in(
                    final(self).graph()@,
                    x,
                ) == parent_in(old(self).graph()@, x)),
    {
        let r = self.graph.reparent(entity, new_parent);
        proof {
            if r is Ok {
                assert forall|x: Entity| self.selected().contains(x) implies has_id(
                    self.graph()@,
                    x,
                ) by {
                    assert(has_id(old(self).graph()@, x));
                }
            }
        }
        r
    }

    /// Attaches the existing entity `child` under `parent`, severing its
    /// previous parent link; not logged (not undo-able in the current
    /// record taxonomy). Same error contract as the graph.
    pub fn attach_child(&mut self, parent: Entity, child: Entity) -> (r: Result<
        (),
        HierarchyError,
    >)
        requires
            old(self).wf(),
        ensures
            final(self).wf(),
            final(self).log() == old(self).log(),
            final(self).selected() == old(self).selected(),
            final(self).queue() == old(self).queue(),
            final(self).graph().next_id() == old(self).graph().next_id(),
            r is Err ==> final(self).graph()@ == old(self).graph()@,
            r == Err::<(), HierarchyError>(HierarchyError::InvalidParent) <==> (!has_id(
                old(self).graph()@,
                parent,
            ) || !has_id(old(self).graph()@, child)),
            r == Err::<(), HierarchyError>(HierarchyError::CycleDetected) <==> (has_id(
                old(self).graph()@,
                parent,
            ) && has_id(old(self).graph()@, child) && subtree_in(
                old(self).graph()@,
                child,
            ).contains(parent)),
            r is Ok ==> (forall|x: Entity|
                has_id(final(self).graph()@, x) == has_id(old(self).graph()@, x)) && parent_in(
                final(self).graph()@,
                child,
            ) == Some(parent) && (forall|x: Entity|
                has_id(old(self).graph()@, x) && x != child ==> parent_in(
                    final(self).graph()@,
                    x,
                ) == parent_in(old(self).graph()@, x)),
    {
        let r = self.graph.add_child(parent, child);
        proof {
            if r is Ok {
                assert forall|x: Entity| self.selected().contains(x) implies has_id(
                    self.graph()@,
                    x,
                ) by {
                    assert(has_id(old(self).graph()@, x));
                }
            }
        }
        r
    }

    /// Severs the parent link of `entity`; not logged. Same error
    /// contract as the graph.
    pub fn detach(&mut self, entity: Entity) -> (r: Result<(), HierarchyError>)
        requires
            old(self).wf(),
        ensures
            final(self).wf(),
            final(self).log() == old(self).log(),
            final(self).selected() == old(self).selected(),
            final(self).queue() == old(self).queue(),
            final(self).graph().next_id() == old(self).graph().next_id(),
            r is Err <==> !has_id(old(self).graph()@, entity),
            r is Err ==> r == Err::<(), HierarchyError>(HierarchyError::InvalidParent)
                && final(self).graph()@ == old(self).graph()@,
            r is Ok ==> (forall|x: Entity|
                has_id(final(self).graph()@, x) == has_id(old(self).graph()@, x)) && parent_in(
                final(self).graph()@,
                entity,
            ) is None && (forall|x: Entity|
                has_id(old(self).graph()@, x) && x != entity ==> parent_in(
                    final(self).graph()@,
                    x,
                ) == parent_in(old(self).graph()@, x)),
    {
        let r = self.graph.detach(entity);
        proof {
            if r is Ok {
                assert forall|x: Entity| self.selected().contains(x) implies has_id(
                    self.graph()@,
                    x,
                ) by {
                    assert(has_id(old(self).graph()@, x));
                }
            }
        }
        r
    }

    /// Flips selection membership of a live entity (`exclusive` clears
    /// every other selection first); a no-op on an entity that is not
    /// live. Selection changes emit no change record.
    pub fn toggle_select(&mut self, entity: Entity, exclusive: bool) -> (applied: bool)
        requires
            old(self).wf(),
        ensures
            final(self).wf(),
            final(self).graph() == old(self).graph(),
            final(self).log() == old(self).log(),
            final(self).queue() == old(self).queue(),
            applied == has_id(old(self).graph()@, entity),
            !applied ==> final(self).selected() == old(self).selected(),
            applied && exclusive ==> forall|x: Entity|
                final(self).selected().contains(x) <==> (x == entity && !old(
                    self,
                ).selected().contains(entity)),
            applied && !exclusive ==> forall|x: Entity|
                final(self).selected().contains(x) <==> (if x == entity {
                    !old(self).selected().contains(entity)
                } else {
                    old(self).selected().contains(x)
                }),
    {
        if self.graph.contains(entity) {
            self.selection.toggle(entity, exclusive);
            true
        } else {
            false
        }
    }

    /// Queues one clone request; nothing happens until the next
    /// processing pass.
    pub fn enqueue_clone(&mut self, root: Entity)
        requires
            old(self).wf(),
        ensures
            final(self).wf(),
            final(self).graph() == old(self).graph(),
            final(self).log() == old(self).log(),
            final(self).selected() == old(self).selected(),
            final(self).queue() == old(self).queue().push((CloneRequest { root: root })),
    {
        self.pending.push(CloneRequest { root });
    }

    /// Dequeues and runs the oldest clone request, logging one
    /// `EntityAdded` record per produced entity, after the clone has
    /// fully completed. A request whose root has since been destroyed is
    /// discarded without effect. Returns what the engine produced, or
    /// `None` when the queue was empty or the request was discarded.
    pub fn process_next_clone<C: ComponentCloneCapability, P: EditabilityPredicate>(
        &mut self,
        cap: &mut C,
        policy: &P,
    ) -> (out: Option<CloneOutcome>)
        requires
            old(self).wf(),
            old(self).graph().next_id() + old(self).graph()@.len() < u64::MAX,
        ensures
            final(self).wf(),
            final(self).selected() == old(self).selected(),
            final(self).graph()@.len() >= old(self).graph()@.len(),
            old(self).queue().len() == 0 ==> out is None && final(self).graph() == old(
                self,
            ).graph() && final(self).log() == old(self).log() && final(self).queue() == old(
                self,
            ).queue(),
            old(self).queue().len() > 0 ==> final(self).queue() == old(self).queue().drop_first(),
            old(self).queue().len() > 0 && !has_id(old(self).graph()@, old(self).queue()[0].root)
                ==> out is None && final(self).graph() == old(self).graph() && final(self).log()
                == old(self).log(),
            old(self).queue().len() > 0 && has_id(old(self).graph()@, old(self).queue()[0].root)
                ==> {
                let o = out->0;
                &&& out is Some
                &&& o.mapping@.len() == eligible_reach(
                    *policy,
                    old(self).graph()@,
                    old(self).queue()[0].root,
                ).len()
                &&& o.mapping@.len() > 0
                &&& vals_of(o.mapping@).no_duplicates()
                &&& (forall|x: Entity|
                    has_id(final(self).graph()@, x) <==> (has_id(old(self).graph()@, x)
                        || vals_of(o.mapping@).contains(x)))
                &&& (forall|x: Entity|
                    vals_of(o.mapping@).contains(x) ==> !has_id(old(self).graph()@, x))
                &&& (forall|i: int|
                    0 <= i < old(self).graph()@.len() ==> final(self).graph()@[i] == old(
                        self,
                    ).graph()@[i])
                &&& final(self).graph()@.len() == old(self).graph()@.len() + o.mapping@.len()
                &&& (forall|k: int|
                    0 <= k < o.mapping@.len() ==> (#[trigger] final(self).graph()@[old(
                        self,
                    ).graph()@.len() + k]).entity == o.mapping@[k].1)
                &&& final(self).log() == old(self).log() + added_records(vals_of(o.mapping@))
            },
    {
        if self.pending.len() == 0 {
            return None;
        }
        let request = self.pending.remove(0);
        proof {
            assert(self.pending@ == old(self).queue().drop_first());
            assert(request == old(self).queue()[0]);
        }
        if !self.graph.contains(request.root) {
            return None;
        }
        let outcome = clone_subtree(&mut self.graph, cap, policy, request.root);
        let ghost log0 = self.changes@;
        let ghost m = outcome.mapping@;
        let ghost g_snap = self.graph;
        let ghost sel_snap = self.selection;
        let ghost pend_snap = self.pending;
        let mut i: usize = 0;
        while i < outcome.mapping.len()
            invariant
                0 <= i <= m.len(),
                outcome.mapping@ == m,
                self.graph == g_snap,
                self.selection == sel_snap,
                self.pending == pend_snap,
                self.changes@ == log0 + added_records(vals_of(m).subrange(0, i as int)),
            decreases m.len() - i,
        {
            let d = outcome.mapping[i].1;
            self.changes.push(ChangeRecord::EntityAdded { entity: d });
            proof {
                let pre = vals_of(m).subrange(0, i as int);
                let cur = vals_of(m).subrange(0, i + 1 as int);
                assert(cur.drop_last() =~= pre);
                assert(cur.last() == vals_of(m)[i as int]);
                assert(vals_of(m)[i as int] == m[i as int].1);
                assert(added_records(cur) =~= added_records(pre).push(
                    (ChangeRecord::EntityAdded { entity: d }),
                ));
                assert(self.changes@ =~= log0 + added_records(cur));
            }
            i += 1;
        }
        proof {
            assert(vals_of(m).subrange(0, vals_of(m).len() as int) =~= vals_of(m));
            assert(vals_of(m).no_duplicates()) by {
                assert forall|a: int, b: int|
                    0 <= a < b < vals_of(m).len() implies vals_of(m)[a] != vals_of(m)[b] by {
                    assert(vals_of(m)[a] == m[a].1 && vals_of(m)[b] == m[b].1);
                }
            }
            assert forall|x: Entity| vals_of(m).contains(x) implies !has_id(
                old(self).graph()@,
                x,
            ) by {
                let k = choose|k: int| 0 <= k < vals_of(m).len() && vals_of(m)[k] == x;
                assert(m[k].1 == x);
            }
            assert forall|x: Entity| self.selected().contains(x) implies has_id(
                self.graph()@,
                x,
            ) by {
                assert(old(self).selected().contains(x));
                assert(has_id(old(self).graph()@, x));
            }
        }
        Some(outcome)
    }

    /// Drains the clone queue, oldest request first, running each clone
    /// to completion before the next and logging every produced entity
    /// exactly once. Entities existing before the pass are untouched. A
    /// request is discarded without effect when its root is no longer
    /// live or the identifier space could not cover another duplicate of
    /// the graph.
    pub fn process_pending_clones<C: ComponentCloneCapability, P: EditabilityPredicate>(
        &mut self,
        cap: &mut C,
        policy: &P,
    )
        requires
            old(self).wf(),
        ensures
            final(self).wf(),
            final(self).queue().len() == 0,
            final(self).selected() == old(self).selected(),
            final(self).graph()@.len() >= old(self).graph()@.len(),
            forall|i: int|
                0 <= i < old(self).graph()@.len() ==> final(self).graph()@[i] == old(
                    self,
                ).graph()@[i],
            final(self).log() == old(self).log() + added_records(
                ids_of(
                    final(self).graph()@.subrange(
                        old(self).graph()@.len() as int,
                        final(self).graph()@.len() as int,
                    ),
                ),
            ),
            ids_of(
                final(self).graph()@.subrange(
                    old(self).graph()@.len() as int,
                    final(self).graph()@.len() as int,
                ),
            ).no_duplicates(),
            forall|x: Entity|
                has_id(final(self).graph()@, x) <==> (has_id(old(self).graph()@, x) || ids_of(
                    final(self).graph()@.subrange(
                        old(self).graph()@.len() as int,
                        final(self).graph()@.len() as int,
                    ),
                ).contains(x)),
            forall|x: Entity|
                ids_of(
                    final(self).graph()@.subrange(
                        old(self).graph()@.len() as int,
                        final(self).graph()@.len() as int,
                    ),
                ).contains(x) ==> !has_id(old(self).graph()@, x),
            // the drain is not allowed to discard work: the oldest request
            // with a live root is run whenever the identifier space allows
            (old(self).queue().len() > 0 && has_id(old(self).graph()@, old(self).queue()[0].root)
                && old(self).graph()@.len() < u64::MAX - old(self).graph().next_id())
                ==> final(self).graph()@.len() >= old(self).graph()@.len() + eligible_reach(
                *policy,
                old(self).graph()@,
                old(self).queue()[0].root,
            ).len(),
    {
        let ghost s_old = self.graph()@;
        let ghost n_old = self.graph()@.len() as int;
        let ghost log_old = self.log();
        let ghost q0 = self.queue();
        let ghost g0 = self.graph();
        let ghost next0c = self.graph().next_id();
        while self.pending.len() > 0
            invariant
                self.wf(),
                n_old == s_old.len(),
                self.graph()@.len() >= n_old,
                forall|i: int| 0 <= i < n_old ==> self.graph()@[i] == s_old[i],
                self.log() == log_old + added_records(
                    ids_of(self.graph()@.subrange(n_old, self.graph()@.len() as int)),
                ),
                self.selected() == old(self).selected(),
                self.queue().len() <= q0.len(),
                g0@ == s_old,
                g0.next_id() == next0c,
                self.queue().len() == q0.len() ==> (self.queue() == q0 && self.graph() == g0),
                self.queue().len() < q0.len() ==> ((q0.len() > 0 && has_id(s_old, q0[0].root)
                    && s_old.len() < u64::MAX - next0c) ==> self.graph()@.len() >= n_old
                    + eligible_reach(*policy, s_old, q0[0].root).len()),
            decreases self.pending@.len(),
        {
            let ghost q_pre = self.queue();
            let ghost s_pre = self.graph()@;
            let ghost created_pre = ids_of(s_pre.subrange(n_old, s_pre.len() as int));
            let budget_left = u64::MAX - self.graph.allocation_cursor();
            let live = self.graph.len();
            if (live as u64) < budget_left {
                let ghost log_pre = self.log();
                let stepped = self.process_next_clone(cap, policy);
                proof {
                    // the very first iteration settles the first request
                    if q_pre.len() == q0.len() && q0.len() > 0 && has_id(s_old, q0[0].root)
                        && s_old.len() < u64::MAX - next0c {
                        assert(q_pre == q0);
                        assert(s_pre == s_old);
                        assert(q_pre[0] == q0[0]);
                        assert(has_id(s_pre, q_pre[0].root));
                        assert(stepped is Some);
                        assert(self.graph()@.len() == s_old.len() + stepped->0.mapping@.len());
                        assert(stepped->0.mapping@.len() == eligible_reach(
                            *policy,
                            s_old,
                            q0[0].root,
                        ).len());
                    }
                }
                proof {
                    let s_new = self.graph()@;
                    let created_new = ids_of(s_new.subrange(n_old, s_new.len() as int));
                    assert forall|i: int| 0 <= i < n_old implies s_new[i] == s_old[i] by {
                        assert(s_new[i] == s_pre[i]);
                    }
                    if stepped is Some {
                        let m = stepped->0.mapping@;
                        assert(created_new =~= created_pre + vals_of(m)) by {
                            assert(s_new.len() == s_pre.len() + m.len());
                            assert forall|i: int|
                                0 <= i < created_new.len() implies created_new[i] == (created_pre
                                + vals_of(m))[i] by {
                                if i < created_pre.len() {
                                    assert(s_new[n_old + i] == s_pre[n_old + i]);
                                } else {
                                    let k = i - created_pre.len();
                                    assert(s_new[s_pre.len() as int + k].entity == m[k].1);
                                    assert(created_new[i] == s_new[n_old + i].entity);
                                    assert(vals_of(m)[k] == m[k].1);
                                }
                            }
                        }
                        assert(added_records(created_new) =~= added_records(created_pre)
                            + added_records(vals_of(m)));
                        assert(self.log() =~= log_old + added_records(created_new)) by {
                            assert(self.log() == log_pre + added_records(vals_of(m)));
                            assert(log_pre == log_old + added_records(created_pre));
                        }
                    } else {
                        assert(s_new == s_pre);
                        assert(self.log() == log_pre);
                    }
                }
            } else {
                // the identifier space cannot cover another duplicate of
                // the whole graph: discard the request
                let _dropped = self.pending.remove(0);
            }
        }
        proof {
            let s_new = self.graph()@;
            let created = ids_of(s_new.subrange(n_old, s_new.len() as int));
            assert(created.no_duplicates()) by {
                assert forall|a: int, b: int| 0 <= a < b < created.len() implies created[a]
                    != created[b] by {
                    assert(created[a] == s_new[n_old + a].entity);
                    assert(created[b] == s_new[n_old + b].entity);
                }
            }
            assert forall|x: Entity|
                has_id(s_new, x) <==> (has_id(s_old, x) || created.contains(x)) by {
                if has_id(s_new, x) {
                    let i = choose|i: int| 0 <= i < s_new.len() && (#[trigger] s_new[i]).entity
                        == x;
                    if i < n_old {
                        assert(s_old[i].entity == x);
                    } else {
                        assert(created[i - n_old] == x);
                    }
                }
                if has_id(s_old, x) {
                    let i = choose|i: int| 0 <= i < s_old.len() && (#[trigger] s_old[i]).entity
                        == x;
                    assert(s_new[i].entity == x);
                }
                if created.contains(x) {
                    let k = choose|k: int| 0 <= k < created.len() && created[k] == x;
                    assert(s_new[n_old + k].entity == x);
                }
            }
            assert forall|x: Entity| created.contains(x) implies !has_id(s_old, x) by {
                let k = choose|k: int| 0 <= k < created.len() && created[k] == x;
                assert(s_new[n_old + k].entity == x);
                if has_id(s_old, x) {
                    let i = choose|i: int| 0 <= i < s_old.len() && (#[trigger] s_old[i]).entity
                        == x;
                    assert(s_new[i].entity == x);
                    assert(crate::graph::distinct_ids(s_new));
                }
            }
        }
    }

    /// The current root entities, in display order; the traversal entry
    /// point for the (out-of-scope) rendering layer.
    pub fn roots(&self) -> (r: Vec<Entity>)
        ensures
            r@ == roots_in(self.graph()@),
    {
        self.graph.roots()
    }

    /// The children of `entity`, in display order.
    pub fn children_of(&self, entity: Entity) -> (r: Vec<Entity>)
        ensures
            r@ == children_in(self.graph()@, entity),
    {
        self.graph.children_of(entity)
    }

    /// The parent of `entity`, `None` for a root or non-live entity.
    pub fn parent_of(&self, entity: Entity) -> (r: Option<Entity>)
        requires
            self.wf(),
        ensures
            r == if has_id(self.graph()@, entity) {
                parent_in(self.graph()@, entity)
            } else {
                None::<Entity>
            },
    {
        self.graph.parent_of(entity)
    }

    /// Whether `entity` is live.
    pub fn contains(&self, entity: Entity) -> (r: bool)
        ensures
            r == has_id(self.graph()@, entity),
    {
        self.graph.contains(entity)
    }

    /// Whether `entity` is selected.
    pub fn is_selected(&self, entity: Entity) -> (r: bool)
        ensures
            r == self.selected().contains(entity),
    {
        self.selection.contains(entity)
    }

    /// A copy of the current selection.
    pub fn selected_entities(&self) -> (r: Vec<Entity>)
        ensures
            r@ == self.selected(),
    {
        self.selection.iter()
    }

    /// Number of pending clone requests.
    pub fn pending_count(&self) -> (n: usize)
        ensures
            n == self.queue().len(),
    {
        self.pending.len()
    }

    /// Hands the accumulated change records to the undo/redo consumer,
    /// in emission order, leaving the log empty. Ownership of the records
    /// passes to the caller; the core retains nothing.
    pub fn take_changes(&mut self) -> (r: Vec<ChangeRecord>)
        requires
            old(self).wf(),
        ensures
            final(self).wf(),
            r@ == old(self).log(),
            final(self).log() == Seq::<ChangeRecord>::empty(),
            final(self).graph() == old(self).graph(),
            final(self).selected() == old(self).selected(),
            final(self).queue() == old(self).queue(),
    {
        let mut r: Vec<ChangeRecord> = Vec::new();
        let mut i: usize = 0;
        while i < self.changes.len()
            invariant
                0 <= i <= self.changes@.len(),
                self.changes@ == old(self).log(),
                r@ == self.changes@.subrange(0, i as int),
                self.graph == old(self).graph,
                self.selection == old(self).selection,
                self.pending == old(self).pending,
            decreases self.changes@.len() - i,
        {
            r.push(self.changes[i]);
            proof {
                assert(r@ =~= self.changes@.subrange(0, i + 1 as int));
            }
            i += 1;
        }
        proof {
            assert(self.changes@.subrange(0, self.changes@.len() as int) =~= self.changes@);
        }
        self.changes.clear();
        r
    }
}

/// Change-log pairing: when a processing pass extends the log with one
/// `EntityAdded` record per member of the duplicate-free list of entities
/// it created, every entity that exists afterwards and did not exist
/// before has exactly one `EntityAdded` record in that extension, and no
/// other entity has any.
pub proof fn lemma_change_log_pairing(
    old_graph: Seq<Node>,
    new_graph: Seq<Node>,
    created: Seq<Entity>,
    log_delta: Seq<ChangeRecord>,
    e: Entity,
)
    requires
        created.no_duplicates(),
        log_delta == added_records(created),
        forall|x: Entity| has_id(new_graph, x) <==> (has_id(old_graph, x) || created.contains(x)),
        forall|x: Entity| created.contains(x) ==> !has_id(old_graph, x),
    ensures
        (has_id(new_graph, e) && !has_id(old_graph, e)) ==> count_of(
            log_delta,
            (ChangeRecord::EntityAdded { entity: e }),
        ) == 1,
        !(has_id(new_graph, e) && !has_id(old_graph, e)) ==> count_of(
            log_delta,
            (ChangeRecord::EntityAdded { entity: e }),
        ) == 0,
{
    crate::change::lemma_added_pairing(created, e);
    if has_id(new_graph, e) && !has_id(old_graph, e) {
        assert(created.contains(e));
    } else {
        if created.contains(e) {
            assert(has_id(new_graph, e) && !has_id(old_graph, e));
        }
    }
}

/// Selection consistency: in a well-formed controller a destroyed (or
/// never-created) entity is never selected, whatever mutation produced
/// the state.
pub proof fn lemma_selection_consistency(c: HierarchyController, e: Entity)
    requires
        c.wf(),
        !has_id(c.graph()@, e),
    ensures
        !c.selected().contains(e),
{
}

} // verus!
