//! The set of currently selected entities.
//!
//! Membership is the only semantics; the order of the backing vector is
//! never promised. The controller keeps the set consistent with the graph
//! by pruning destroyed entities.

use vstd::prelude::*;

use crate::Entity;
use crate::graph::lemma_push_no_dup;

verus! {

broadcast use vstd::seq_lib::lemma_seq_contains_after_push;

/// A duplicate-free set of selected entities.
pub struct SelectionSet {
    items: Vec<Entity>,
}

impl View for SelectionSet {
    type V = Seq<Entity>;

    closed spec fn view(&self) -> Seq<Entity> {
        self.items@
    }
}

impl SelectionSet {
    /// No entity is recorded twice.
    pub open spec fn wf(&self) -> bool {
        self@.no_duplicates()
    }

    /// An empty selection.
    pub fn new() -> (s: SelectionSet)
        ensures
            s.wf(),
            s@ == Seq::<Entity>::empty(),
    {
        SelectionSet { items: Vec::new() }
    }

    /// Whether `e` is currently selected.
    pub fn contains(&self, e: Entity) -> (r: bool)
        ensures
            r == self@.contains(e),
    {
        let mut i: usize = 0;
        while i < self.items.len()
            invariant
                0 <= i <= self@.len(),
                forall|k: int| 0 <= k < i ==> self@[k] != e,
            decreases self@.len() - i,
        {
            if self.items[i].id == e.id {
                assert(self@[i as int] == e);
                return true;
            }
            i += 1;
        }
        false
    }

    /// Flips membership of `e`. With `exclusive` every *other* selection is
    /// cleared first, modelling "replace selection unless a modifier key is
    /// held": an unselected entity becomes the sole selection, a selected
    /// one is simply deselected.
    pub fn toggle(&mut self, e: Entity, exclusive: bool)
        requires
            old(self).wf(),
        ensures
            final(self).wf(),
            exclusive ==> forall|x: Entity|
                final(self)@.contains(x) <==> (x == e && !old(self)@.contains(e)),
            !exclusive ==> forall|x: Entity|
                final(self)@.contains(x) <==> (if x == e {
                    !old(self)@.contains(e)
                } else {
                    old(self)@.contains(x)
                }),
    {
        let was = self.contains(e);
        if exclusive {
            self.items.clear();
            if !was {
                self.items.push(e);
                proof {
                    assert(self@ =~= Seq::<Entity>::empty().push(e));
                }
            }
        } else {
            if was {
                self.remove_entity(e);
            } else {
                self.items.push(e);
                proof {
                    lemma_push_no_dup(old(self)@, e);
                }
            }
        }
    }

    /// Removes `e` from the selection; reports whether it was present.
    fn remove_entity(&mut self, e: Entity) -> (r: bool)
        requires
            old(self).wf(),
        ensures
            final(self).wf(),
            r == old(self)@.contains(e),
            forall|x: Entity| #[trigger]
                final(self)@.contains(x) <==> (old(self)@.contains(x) && x != e),
    {
        let mut kept: Vec<Entity> = Vec::new();
        let mut found = false;
        let mut i: usize = 0;
        while i < self.items.len()
            invariant
                0 <= i <= self@.len(),
                self@ == old(self)@,
                self@.no_duplicates(),
                found == self@.subrange(0, i as int).contains(e),
                forall|x: Entity| #[trigger]
                    kept@.contains(x) <==> (self@.subrange(0, i as int).contains(x) && x != e),
                kept@.no_duplicates(),
            decreases self@.len() - i,
        {
            let ghost pre = self@.subrange(0, i as int);
            let ghost cur = self@.subrange(0, i + 1 as int);
            proof {
                assert(cur =~= pre.push(self@[i as int]));
            }
            let it = self.items[i];
            if it.id != e.id {
                proof {
                    assert(!kept@.contains(it)) by {
                        if kept@.contains(it) {
                            let k = choose|k: int| 0 <= k < i && self@[k] == it;
                            assert(self@[k] == self@[i as int]);
                        }
                    }
                    lemma_push_no_dup(kept@, it);
                }
                kept.push(it);
            } else {
                proof {
                    assert(self@[i as int] == e);
                    assert(cur.contains(e));
                }
                found = true;
            }
            i += 1;
        }
        proof {
            assert(self@.subrange(0, self@.len() as int) =~= self@);
        }
        self.items = kept;
        found
    }

    /// Empties the selection.
    pub fn clear_all(&mut self)
        ensures
            final(self).wf(),
            final(self)@ == Seq::<Entity>::empty(),
    {
        self.items.clear();
    }

    /// Removes every entity of `destroyed` from the selection, so that a
    /// destroyed entity never appears selected.
    pub fn prune(&mut self, destroyed: &Vec<Entity>)
        requires
            old(self).wf(),
        ensures
            final(self).wf(),
            forall|x: Entity| #[trigger]
                final(self)@.contains(x) <==> (old(self)@.contains(x) && !destroyed@.contains(x)),
    {
        let mut kept: Vec<Entity> = Vec::new();
        let mut i: usize = 0;
        while i < self.items.len()
            invariant
                0 <= i <= self@.len(),
                self@ == old(self)@,
                self@.no_duplicates(),
                forall|x: Entity| #[trigger]
                    kept@.contains(x) <==> (self@.subrange(0, i as int).contains(x)
                        && !destroyed@.contains(x)),
                kept@.no_duplicates(),
            decreases self@.len() - i,
        {
            let ghost pre = self@.subrange(0, i as int);
            let ghost cur = self@.subrange(0, i + 1 as int);
            proof {
                assert(cur =~= pre.push(self@[i as int]));
            }
            let it = self.items[i];
            let mut hit = false;
            let mut j: usize = 0;
            while j < destroyed.len()
                invariant
                    0 <= j <= destroyed@.len(),
                    hit == exists|k: int| 0 <= k < j && destroyed@[k] == it,
                decreases destroyed@.len() - j,
            {
                if destroyed[j].id == it.id {
                    assert(destroyed@[j as int] == it);
                    hit = true;
                }
                j += 1;
            }
            proof {
                assert(hit == destroyed@.contains(it));
            }
            if !hit {
                proof {
                    assert(!kept@.contains(it)) by {
                        if kept@.contains(it) {
                            let k = choose|k: int| 0 <= k < i && self@[k] == it;
                            assert(self@[k] == self@[i as int]);
                        }
                    }
                    lemma_push_no_dup(kept@, it);
                }
                kept.push(it);
            }
            i += 1;
        }
        proof {
            assert(self@.subrange(0, self@.len() as int) =~= self@);
        }
        self.items = kept;
    }

    /// A copy of the selection as a vector of entities.
    pub fn iter(&self) -> (r: Vec<Entity>)
        ensures
            r@ == self@,
    {
        let mut r: Vec<Entity> = Vec::new();
        let mut i: usize = 0;
        while i < self.items.len()
            invariant
                0 <= i <= self@.len(),
                r@ == self@.subrange(0, i as int),
            decreases self@.len() - i,
        {
            r.push(self.items[i]);
            proof {
                assert(r@ =~= self@.subrange(0, i + 1 as int));
            }
            i += 1;
        }
        proof {
            assert(self@.subrange(0, self@.len() as int) =~= self@);
        }
        r
    }
}

} // verus!
