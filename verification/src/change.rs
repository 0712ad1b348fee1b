//! Structural change records for the undo/redo consumer.
//!
//! The core is a producer only: every structural mutation that must be
//! undo-able appends exactly one record, in mutation order, and the records
//! are handed over wholesale to the external consumer.

use vstd::prelude::*;

use crate::Entity;

verus! {

/// One immutable fact about a structural mutation.
#[derive(Clone, Copy, PartialEq, Eq, Structural, Debug)]
pub enum ChangeRecord {
    /// `entity` came into existence (manual add, clone product, spawn).
    EntityAdded { entity: Entity },
    /// `entity` was destroyed (one record per destroyed entity, not one
    /// per subtree).
    EntityRemoved { entity: Entity },
}

/// One `EntityAdded` record per entity of `ids`, in order.
pub open spec fn added_records(ids: Seq<Entity>) -> Seq<ChangeRecord> {
    ids.map_values(|e: Entity| (ChangeRecord::EntityAdded { entity: e }))
}

/// One `EntityRemoved` record per entity of `ids`, in order.
pub open spec fn removed_records(ids: Seq<Entity>) -> Seq<ChangeRecord> {
    ids.map_values(|e: Entity| (ChangeRecord::EntityRemoved { entity: e }))
}

/// How often record `r` occurs in `log`.
pub open spec fn count_of(log: Seq<ChangeRecord>, r: ChangeRecord) -> nat
    decreases log.len(),
{
    if log.len() == 0 {
        0
    } else {
        count_of(log.drop_last(), r) + if log.last() == r {
            1nat
        } else {
            0nat
        }
    }
}

/// Change-log pairing for creation: a log extension consisting of one
/// `EntityAdded` record per member of a duplicate-free list mentions each
/// member exactly once, and no other entity at all.
pub proof fn lemma_added_pairing(ids: Seq<Entity>, e: Entity)
    requires
        ids.no_duplicates(),
    ensures
        ids.contains(e) ==> count_of(added_records(ids), (ChangeRecord::EntityAdded {
            entity: e,
        })) == 1,
        !ids.contains(e) ==> count_of(added_records(ids), (ChangeRecord::EntityAdded {
            entity: e,
        })) == 0,
    decreases ids.len(),
{
    let r = (ChangeRecord::EntityAdded { entity: e });
    if ids.len() == 0 {
    } else {
        let rest = ids.drop_last();
        assert(rest.no_duplicates());
        lemma_added_pairing(rest, e);
        assert(added_records(ids).drop_last() =~= added_records(rest));
        assert(added_records(ids).last() == (ChangeRecord::EntityAdded { entity: ids.last() }));
        if ids.contains(e) {
            if ids.last() == e {
                assert(!rest.contains(e)) by {
                    if rest.contains(e) {
                        let k = choose|k: int| 0 <= k < rest.len() && rest[k] == e;
                        assert(ids[k] == e && ids[ids.len() - 1] == e);
                    }
                }
            } else {
                let k = choose|k: int| 0 <= k < ids.len() && ids[k] == e;
                assert(rest[k] == e);
            }
        } else {
            assert(!rest.contains(e)) by {
                if rest.contains(e) {
                    let k = choose|k: int| 0 <= k < rest.len() && rest[k] == e;
                    assert(ids[k] == e);
                }
            }
        }
    }
}

/// Change-log pairing for destruction: a log extension consisting of one
/// `EntityRemoved` record per member of a duplicate-free list mentions each
/// member exactly once, and no other entity at all.
pub proof fn lemma_removed_pairing(ids: Seq<Entity>, e: Entity)
    requires
        ids.no_duplicates(),
    ensures
        ids.contains(e) ==> count_of(removed_records(ids), (ChangeRecord::EntityRemoved {
            entity: e,
        })) == 1,
        !ids.contains(e) ==> count_of(removed_records(ids), (ChangeRecord::EntityRemoved {
            entity: e,
        })) == 0,
    decreases ids.len(),
{
    let r = (ChangeRecord::EntityRemoved { entity: e });
    if ids.len() == 0 {
    } else {
        let rest = ids.drop_last();
        assert(rest.no_duplicates());
        lemma_removed_pairing(rest, e);
        assert(removed_records(ids).drop_last() =~= removed_records(rest));
        assert(removed_records(ids).last() == (ChangeRecord::EntityRemoved {
            entity: ids.last(),
        }));
        if ids.contains(e) {
            if ids.last() == e {
                assert(!rest.contains(e)) by {
                    if rest.contains(e) {
                        let k = choose|k: int| 0 <= k < rest.len() && rest[k] == e;
                        assert(ids[k] == e && ids[ids.len() - 1] == e);
                    }
                }
            } else {
                let k = choose|k: int| 0 <= k < ids.len() && ids[k] == e;
                assert(rest[k] == e);
            }
        } else {
            assert(!rest.contains(e)) by {
                if rest.contains(e) {
                    let k = choose|k: int| 0 <= k < rest.len() && rest[k] == e;
                    assert(ids[k] == e);
                }
            }
        }
    }
}

} // verus!
