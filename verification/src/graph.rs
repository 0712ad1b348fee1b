//! The parent/child adjacency of all live entities.
//!
//! Nodes are stored in a vector that is always *topologically sorted*: a
//! node's parent occurs at a strictly smaller index. That single structural
//! invariant rules out cycles (an ancestor chain climbs to ever smaller
//! indices), keeps every parent pointer pointing at a live entity, and lets
//! one forward scan collect a whole subtree.

use vstd::prelude::*;

use crate::Entity;
use crate::HierarchyError;

verus! {

/// One entry of the adjacency vector: an entity and its optional parent.
#[derive(Clone, Copy, Debug)]
pub struct Node {
    pub entity: Entity,
    pub parent: Option<Entity>,
}

/// `e` is the identifier of some node of `s`.
pub open spec fn has_id(s: Seq<Node>, e: Entity) -> bool {
    exists|i: int| 0 <= i < s.len() && (#[trigger] s[i]).entity == e
}

/// No identifier occurs twice in `s`.
pub open spec fn distinct_ids(s: Seq<Node>) -> bool {
    forall|i: int, j: int|
        0 <= i < j < s.len() ==> (#[trigger] s[i]).entity != (#[trigger] s[j]).entity
}

/// Every parent pointer refers to a node at a strictly smaller index.
pub open spec fn topo_sorted(s: Seq<Node>) -> bool {
    forall|i: int|
        0 <= i < s.len() && (#[trigger] s[i]).parent is Some ==> parent_before(s, i)
}

/// The parent of the node at index `i` occurs at some smaller index.
pub open spec fn parent_before(s: Seq<Node>, i: int) -> bool {
    exists|j: int| 0 <= j < i && (#[trigger] s[j]).entity == s[i].parent->0
}

/// Every identifier in `s` is below `bound`.
pub open spec fn ids_below(s: Seq<Node>, bound: u64) -> bool {
    forall|i: int| 0 <= i < s.len() ==> (#[trigger] s[i]).entity.id < bound
}

/// The parent recorded for entity `e` in `s` (meaningful when `e` is live
/// and identifiers are distinct).
pub open spec fn parent_in(s: Seq<Node>, e: Entity) -> Option<Entity>
    recommends
        has_id(s, e),
{
    let i = choose|i: int| 0 <= i < s.len() && (#[trigger] s[i]).entity == e;
    s[i].parent
}

/// The children of `e`, in display order (vector order).
pub open spec fn children_in(s: Seq<Node>, e: Entity) -> Seq<Entity>
    decreases s.len(),
{
    if s.len() == 0 {
        Seq::empty()
    } else {
        let rest = children_in(s.drop_last(), e);
        if s.last().parent == Some(e) {
            rest.push(s.last().entity)
        } else {
            rest
        }
    }
}

/// The entities with no parent, in display order.
pub open spec fn roots_in(s: Seq<Node>) -> Seq<Entity>
    decreases s.len(),
{
    if s.len() == 0 {
        Seq::empty()
    } else {
        let rest = roots_in(s.drop_last());
        if s.last().parent is None {
            rest.push(s.last().entity)
        } else {
            rest
        }
    }
}

/// The subtree rooted at `root`: `root` itself plus every node whose parent
/// already belongs to the subtree. Because the vector is topologically
/// sorted, one left-to-right pass decides membership, and that pass is what
/// this recursion (from the right) describes. Members appear in vector
/// order, so the subtree root is first and every member's parent precedes
/// it.
pub open spec fn subtree_in(s: Seq<Node>, root: Entity) -> Seq<Entity>
    decreases s.len(),
{
    if s.len() == 0 {
        Seq::empty()
    } else {
        let rest = subtree_in(s.drop_last(), root);
        let n = s.last();
        if n.entity == root || (n.parent is Some && rest.contains(n.parent->0)) {
            rest.push(n.entity)
        } else {
            rest
        }
    }
}

/// The nodes of `s` whose identifier is not in `removed`, in order.
pub open spec fn keep_outside(s: Seq<Node>, removed: Seq<Entity>) -> Seq<Node>
    decreases s.len(),
{
    if s.len() == 0 {
        Seq::empty()
    } else {
        let rest = keep_outside(s.drop_last(), removed);
        if removed.contains(s.last().entity) {
            rest
        } else {
            rest.push(s.last())
        }
    }
}

/// The nodes of `s` whose identifier is in `moved`, in order, with the node
/// for `root` retargeted at parent `p`.
pub open spec fn moved_nodes(s: Seq<Node>, moved: Seq<Entity>, root: Entity, p: Entity) -> Seq<
    Node,
>
    decreases s.len(),
{
    if s.len() == 0 {
        Seq::empty()
    } else {
        let rest = moved_nodes(s.drop_last(), moved, root, p);
        let n = s.last();
        if moved.contains(n.entity) {
            if n.entity == root {
                rest.push((Node { entity: n.entity, parent: Some(p) }))
            } else {
                rest.push(n)
            }
        } else {
            rest
        }
    }
}

/// The parent/child adjacency for all live entities.
pub struct EntityGraph {
    nodes: Vec<Node>,
    next: u64,
}

impl View for EntityGraph {
    type V = Seq<Node>;

    closed spec fn view(&self) -> Seq<Node> {
        self.nodes@
    }
}

impl EntityGraph {
    /// The next identifier the allocator would hand out; identifiers of
    /// live nodes are always below it, so destroyed identifiers are never
    /// reused.
    pub closed spec fn next_id(&self) -> u64 {
        self.next
    }

    /// Structural well-formedness: distinct identifiers, every parent at a
    /// smaller index (hence live, hence no cycles), all identifiers below
    /// the allocation counter.
    pub open spec fn wf(&self) -> bool {
        &&& distinct_ids(self@)
        &&& topo_sorted(self@)
        &&& ids_below(self@, self.next_id())
    }

    /// An empty graph.
    pub fn new() -> (g: EntityGraph)
        ensures
            g.wf(),
            g@ == Seq::<Node>::empty(),
            g.next_id() == 0,
    {
        EntityGraph { nodes: Vec::new(), next: 0 }
    }

    /// Number of live entities.
    pub fn len(&self) -> (n: usize)
        ensures
            n == self@.len(),
    {
        self.nodes.len()
    }

    /// Whether `e` is a live entity of this graph.
    pub fn contains(&self, e: Entity) -> (r: bool)
        ensures
            r == has_id(self@, e),
    {
        let mut i: usize = 0;
        while i < self.nodes.len()
            invariant
                0 <= i <= self@.len(),
                forall|k: int| 0 <= k < i ==> (#[trigger] self@[k]).entity != e,
            decreases self@.len() - i,
        {
            if self.nodes[i].entity.id == e.id {
                assert(self@[i as int].entity == e);
                return true;
            }
            i += 1;
        }
        false
    }

    /// Some live root entity (the first node, which the topological
    /// order forces to be parentless), or `None` on an empty graph.
    pub fn first_root(&self) -> (r: Option<Entity>)
        requires
            self.wf(),
        ensures
            r is None <==> self@.len() == 0,
            r is Some ==> (has_id(self@, r->0) && r->0 == self@[0].entity),
    {
        if self.nodes.len() == 0 {
            None
        } else {
            let n = self.nodes[0];
            proof {
                assert(self@[0].entity == n.entity);
            }
            Some(n.entity)
        }
    }

    /// Index of the node for `e`, if `e` is live.
    fn find_index(&self, e: Entity) -> (r: Option<usize>)
        ensures
            match r {
                Some(i) => i < self@.len() && self@[i as int].entity == e,
                None => !has_id(self@, e),
            },
    {
        let mut i: usize = 0;
        while i < self.nodes.len()
            invariant
                0 <= i <= self@.len(),
                forall|k: int| 0 <= k < i ==> (#[trigger] self@[k]).entity != e,
            decreases self@.len() - i,
        {
            if self.nodes[i].entity.id == e.id {
                return Some(i);
            }
            i += 1;
        }
        None
    }

    /// Allocates a fresh entity with no parent. Always succeeds while the
    /// identifier space lasts (the only limit the machine imposes).
    pub fn add_root(&mut self) -> (e: Entity)
        requires
            old(self).wf(),
            old(self).next_id() < u64::MAX,
        ensures
            final(self).wf(),
            e.id == old(self).next_id(),
            !has_id(old(self)@, e),
            final(self)@ == old(self)@.push((Node { entity: e, parent: None })),
            final(self).next_id() == old(self).next_id() + 1,
    {
        let e = Entity { id: self.next };
        proof {
            assert(!has_id(self@, e));
        }
        self.nodes.push(Node { entity: e, parent: None });
        self.next = self.next + 1;
        proof {
            let s = self@;
            let olds = old(self)@;
            assert forall|i: int, j: int| 0 <= i < j < s.len() implies (#[trigger] s[i]).entity
                != (#[trigger] s[j]).entity by {
                if j < olds.len() {
                } else {
                    assert(s[j].entity == e);
                    assert(olds[i].entity.id < e.id);
                }
            }
            assert forall|i: int|
                0 <= i < s.len() && (#[trigger] s[i]).parent is Some implies parent_before(
                s,
                i,
            ) by {
                assert(i < olds.len());
                assert(parent_before(olds, i));
                let j = choose|j: int| 0 <= j < i && (#[trigger] olds[j]).entity == olds[i].parent->0;
                assert(s[j].entity == olds[i].parent->0);
            }
        }
        e
    }

    /// The value of the allocation counter: every identifier ever handed
    /// out is below it.
    pub fn allocation_cursor(&self) -> (n: u64)
        ensures
            n == self.next_id(),
    {
        self.next
    }

    /// Allocates a fresh identifier without creating a node yet: a clone
    /// destination exists in the graph only once its parent has been
    /// resolved.
    pub(crate) fn alloc_id(&mut self) -> (e: Entity)
        requires
            old(self).wf(),
            old(self).next_id() < u64::MAX,
        ensures
            final(self).wf(),
            final(self)@ == old(self)@,
            e.id == old(self).next_id(),
            !has_id(old(self)@, e),
            final(self).next_id() == old(self).next_id() + 1,
    {
        let e = Entity { id: self.next };
        proof {
            assert(!has_id(self@, e));
        }
        self.next = self.next + 1;
        e
    }

    /// Appends a node for an already-allocated fresh identifier whose
    /// parent, if any, is live.
    pub(crate) fn append_node(&mut self, e: Entity, parent: Option<Entity>)
        requires
            old(self).wf(),
            !has_id(old(self)@, e),
            e.id < old(self).next_id(),
            parent is Some ==> has_id(old(self)@, parent->0),
        ensures
            final(self).wf(),
            final(self)@ == old(self)@.push((Node { entity: e, parent: parent })),
            final(self).next_id() == old(self).next_id(),
    {
        self.nodes.push(Node { entity: e, parent });
        proof {
            let s = self@;
            let olds = old(self)@;
            assert forall|i: int, j: int| 0 <= i < j < s.len() implies (#[trigger] s[i]).entity
                != (#[trigger] s[j]).entity by {
                if j == s.len() - 1 {
                    if s[i].entity == e {
                        assert(has_id(olds, e));
                    }
                }
            }
            assert forall|i: int|
                0 <= i < s.len() && (#[trigger] s[i]).parent is Some implies parent_before(
                s,
                i,
            ) by {
                if i < olds.len() {
                    assert(parent_before(olds, i));
                    let j = choose|j: int|
                        0 <= j < i && (#[trigger] olds[j]).entity == olds[i].parent->0;
                    assert(s[j].entity == s[i].parent->0);
                } else {
                    let p = parent->0;
                    let j = choose|j: int| 0 <= j < olds.len() && (#[trigger] olds[j]).entity == p;
                    assert(s[j].entity == s[i].parent->0);
                }
            }
        }
    }

    /// The parent of `e`: `None` both for a root and for an entity that is
    /// not live (`contains` tells the two apart).
    pub fn parent_of(&self, e: Entity) -> (r: Option<Entity>)
        requires
            self.wf(),
        ensures
            r == if has_id(self@, e) {
                parent_in(self@, e)
            } else {
                None::<Entity>
            },
    {
        match self.find_index(e) {
            Some(i) => {
                proof {
                    lemma_parent_in_at(self@, i as int);
                }
                self.nodes[i].parent
            },
            None => None,
        }
    }

    /// The children of `e`, in display order.
    pub fn children_of(&self, e: Entity) -> (r: Vec<Entity>)
        ensures
            r@ == children_in(self@, e),
    {
        let mut r: Vec<Entity> = Vec::new();
        let mut i: usize = 0;
        while i < self.nodes.len()
            invariant
                0 <= i <= self@.len(),
                r@ == children_in(self@.subrange(0, i as int), e),
            decreases self@.len() - i,
        {
            let ghost pre = self@.subrange(0, i as int);
            let ghost cur = self@.subrange(0, i + 1 as int);
            proof {
                assert(cur.drop_last() =~= pre);
                assert(cur.last() == self@[i as int]);
            }
            let n = self.nodes[i];
            let is_child = match n.parent {
                Some(p) => p.id == e.id,
                None => false,
            };
            if is_child {
                proof {
                    assert(self@[i as int].parent == Some(e));
                }
                r.push(n.entity);
            } else {
                proof {
                    assert(self@[i as int].parent != Some(e));
                }
            }
            i += 1;
        }
        proof {
            assert(self@.subrange(0, self@.len() as int) =~= self@);
        }
        r
    }

    /// Collects the subtree rooted at `root` (the root first, every
    /// member behind its parent) in one forward pass over the
    /// topologically sorted vector.
    fn collect_subtree(&self, root: Entity) -> (r: Vec<Entity>)
        ensures
            r@ == subtree_in(self@, root),
    {
        let mut r: Vec<Entity> = Vec::new();
        let mut i: usize = 0;
        while i < self.nodes.len()
            invariant
                0 <= i <= self@.len(),
                r@ == subtree_in(self@.subrange(0, i as int), root),
            decreases self@.len() - i,
        {
            let ghost pre = self@.subrange(0, i as int);
            let ghost cur = self@.subrange(0, i + 1 as int);
            proof {
                assert(cur.drop_last() =~= pre);
                assert(cur.last() == self@[i as int]);
            }
            let n = self.nodes[i];
            let inside = if n.entity.id == root.id {
                proof {
                    assert(n.entity == root);
                }
                true
            } else {
                match n.parent {
                    Some(p) => vec_contains(&r, p),
                    None => false,
                }
            };
            if inside {
                r.push(n.entity);
            }
            i += 1;
        }
        proof {
            assert(self@.subrange(0, self@.len() as int) =~= self@);
        }
        r
    }

    /// Destroys `root` and, transitively, every descendant, atomically
    /// from the caller's point of view, and returns every destroyed
    /// entity exactly once (for change-log emission). Fails with
    /// `InvalidParent`, leaving the graph unchanged, exactly when `root`
    /// is not live.
    pub fn remove_subtree(&mut self, root: Entity) -> (r: Result<
        Vec<Entity>,
        HierarchyError,
    >)
        requires
            old(self).wf(),
        ensures
            final(self).wf(),
            final(self).next_id() == old(self).next_id(),
            r is Err <==> !has_id(old(self)@, root),
            r is Err ==> r == Err::<Vec<Entity>, HierarchyError>(
                HierarchyError::InvalidParent,
            ) && final(self)@ == old(self)@,
            r is Ok ==> final(self)@.len() < old(self)@.len(),
            r is Ok ==> r->Ok_0@ == subtree_in(old(self)@, root) && r->Ok_0@.no_duplicates()
                && r->Ok_0@.contains(root) && final(self)@ == keep_outside(
                old(self)@,
                subtree_in(old(self)@, root),
            ) && (forall|x: Entity|
                has_id(final(self)@, x) <==> (has_id(old(self)@, x) && !r->Ok_0@.contains(x))),
    {
        if !self.contains(root) {
            return Err(HierarchyError::InvalidParent);
        }
        let sub = self.collect_subtree(root);
        let ghost s = self@;
        let ghost r_seq = subtree_in(s, root);
        let mut kept: Vec<Node> = Vec::new();
        let mut i: usize = 0;
        while i < self.nodes.len()
            invariant
                0 <= i <= self@.len(),
                self@ == s,
                sub@ == r_seq,
                r_seq == subtree_in(s, root),
                kept@ == keep_outside(self@.subrange(0, i as int), sub@),
            decreases self@.len() - i,
        {
            let ghost pre = self@.subrange(0, i as int);
            let ghost cur = self@.subrange(0, i + 1 as int);
            proof {
                assert(cur.drop_last() =~= pre);
                assert(cur.last() == self@[i as int]);
            }
            let n = self.nodes[i];
            if !vec_contains(&sub, n.entity) {
                kept.push(n);
            }
            i += 1;
        }
        proof {
            assert(self@.subrange(0, self@.len() as int) =~= self@);
        }
        self.nodes = kept;
        proof {
            lemma_subtree_no_dup(s, root);
            lemma_subtree_contains_root(s, root);
            lemma_keep_len_lt(s, r_seq, root);
            lemma_keep_distinct(s, r_seq);
            lemma_keep_below(s, r_seq, self.next);
            assert forall|i2: int|
                0 <= i2 < s.len() && !r_seq.contains((#[trigger] s[i2]).entity) && s[i2].parent
                    is Some implies !r_seq.contains(s[i2].parent->0) by {
                if r_seq.contains(s[i2].parent->0) {
                    lemma_subtree_closed(s, root, i2);
                }
            }
            lemma_keep_topo(s, r_seq);
            assert forall|x: Entity| has_id(self@, x) <==> (has_id(s, x)
                && !r_seq.contains(x)) by {
                lemma_keep_has(s, r_seq, x);
            }
        }
        Ok(sub)
    }

    /// Moves the subtree of `e` (given as `sub`) to the back of the
    /// vector and hangs its root under `new_parent`, which must lie
    /// outside the subtree.
    fn move_subtree(&mut self, e: Entity, new_parent: Entity, sub: &Vec<Entity>)
        requires
            old(self).wf(),
            has_id(old(self)@, e),
            has_id(old(self)@, new_parent),
            sub@ == subtree_in(old(self)@, e),
            !sub@.contains(new_parent),
        ensures
            final(self).wf(),
            final(self).next_id() == old(self).next_id(),
            final(self)@ == keep_outside(old(self)@, subtree_in(old(self)@, e)) + moved_nodes(
                old(self)@,
                subtree_in(old(self)@, e),
                e,
                new_parent,
            ),
            forall|x: Entity| has_id(final(self)@, x) == has_id(old(self)@, x),
            parent_in(final(self)@, e) == Some(new_parent),
            forall|x: Entity|
                has_id(old(self)@, x) && x != e ==> parent_in(final(self)@, x) == parent_in(
                    old(self)@,
                    x,
                ),
    {
        let ghost s = self@;
        let ghost r_seq = sub@;
        let mut kept: Vec<Node> = Vec::new();
        let mut taken: Vec<Node> = Vec::new();
        let mut i: usize = 0;
        while i < self.nodes.len()
            invariant
                0 <= i <= self@.len(),
                self@ == s,
                sub@ == r_seq,
                kept@ == keep_outside(self@.subrange(0, i as int), r_seq),
                taken@ == moved_nodes(self@.subrange(0, i as int), r_seq, e, new_parent),
            decreases self@.len() - i,
        {
            let ghost pre = self@.subrange(0, i as int);
            let ghost cur = self@.subrange(0, i + 1 as int);
            proof {
                assert(cur.drop_last() =~= pre);
                assert(cur.last() == self@[i as int]);
            }
            let n = self.nodes[i];
            if vec_contains(sub, n.entity) {
                if n.entity.id == e.id {
                    proof {
                        assert(n.entity == e);
                    }
                    taken.push(Node { entity: n.entity, parent: Some(new_parent) });
                } else {
                    taken.push(n);
                }
            } else {
                kept.push(n);
            }
            i += 1;
        }
        proof {
            assert(self@.subrange(0, self@.len() as int) =~= self@);
        }
        kept.append(&mut taken);
        self.nodes = kept;
        proof {
            lemma_move_wf(s, e, new_parent, self.next);
            lemma_move_parents(s, e, new_parent, self.next);
        }
    }

    /// Re-hangs `entity` under `new_parent`, severing its previous
    /// parent link. Fails with `InvalidParent` when either entity is not
    /// live, and with `CycleDetected` when `new_parent` is `entity`
    /// itself or one of its descendants (the attachment that would make
    /// `entity` its own ancestor); a failed call leaves the graph
    /// unchanged.
    pub fn reparent(&mut self, entity: Entity, new_parent: Entity) -> (r: Result<
        (),
        HierarchyError,
    >)
        requires
            old(self).wf(),
        ensures
            final(self).wf(),
            final(self).next_id() == old(self).next_id(),
            r is Err ==> final(self)@ == old(self)@,
            r == Err::<(), HierarchyError>(HierarchyError::InvalidParent) <==> (!has_id(
                old(self)@,
                entity,
            ) || !has_id(old(self)@, new_parent)),
            r == Err::<(), HierarchyError>(HierarchyError::CycleDetected) <==> (has_id(
                old(self)@,
                entity,
            ) && has_id(old(self)@, new_parent) && subtree_in(old(self)@, entity).contains(
                new_parent,
            )),
            r is Ok ==> (forall|x: Entity| has_id(final(self)@, x) == has_id(old(self)@, x))
                && parent_in(final(self)@, entity) == Some(new_parent) && (forall|x: Entity|
                has_id(old(self)@, x) && x != entity ==> parent_in(final(self)@, x) == parent_in(
                    old(self)@,
                    x,
                )) && final(self)@ == keep_outside(old(self)@, subtree_in(old(self)@, entity))
                + moved_nodes(old(self)@, subtree_in(old(self)@, entity), entity, new_parent),
    {
        if !self.contains(entity) || !self.contains(new_parent) {
            return Err(HierarchyError::InvalidParent);
        }
        let sub = self.collect_subtree(entity);
        if vec_contains(&sub, new_parent) {
            return Err(HierarchyError::CycleDetected);
        }
        self.move_subtree(entity, new_parent, &sub);
        Ok(())
    }

    /// Attaches `new` under `parent`, severing `new`'s previous parent
    /// link first (a node only ever has one parent). Fails with
    /// `InvalidParent` when either entity is not live, and with
    /// `CycleDetected` when the attachment would make `new` its own
    /// ancestor (`parent` inside `new`'s subtree); a failed call leaves
    /// the graph unchanged.
    pub fn add_child(&mut self, parent: Entity, new: Entity) -> (r: Result<(), HierarchyError>)
        requires
            old(self).wf(),
        ensures
            final(self).wf(),
            final(self).next_id() == old(self).next_id(),
            r is Err ==> final(self)@ == old(self)@,
            r == Err::<(), HierarchyError>(HierarchyError::InvalidParent) <==> (!has_id(
                old(self)@,
                parent,
            ) || !has_id(old(self)@, new)),
            r == Err::<(), HierarchyError>(HierarchyError::CycleDetected) <==> (has_id(
                old(self)@,
                parent,
            ) && has_id(old(self)@, new) && subtree_in(old(self)@, new).contains(parent)),
            r is Ok ==> (forall|x: Entity| has_id(final(self)@, x) == has_id(old(self)@, x))
                && parent_in(final(self)@, new) == Some(parent) && (forall|x: Entity|
                has_id(old(self)@, x) && x != new ==> parent_in(final(self)@, x) == parent_in(
                    old(self)@,
                    x,
                )),
    {
        self.reparent(new, parent)
    }

    /// Severs the parent link of `e` without destroying anything; a
    /// no-op if `e` is already a root. Fails with `InvalidParent`, with
    /// no effect, exactly when `e` is not live.
    pub fn detach(&mut self, e: Entity) -> (r: Result<(), HierarchyError>)
        requires
            old(self).wf(),
        ensures
            final(self).wf(),
            final(self).next_id() == old(self).next_id(),
            r is Err <==> !has_id(old(self)@, e),
            r is Err ==> r == Err::<(), HierarchyError>(HierarchyError::InvalidParent)
                && final(self)@ == old(self)@,
            r is Ok ==> final(self)@.len() == old(self)@.len() && (forall|x: Entity|
                has_id(final(self)@, x) == has_id(old(self)@, x)) && parent_in(final(self)@, e)
                is None && (forall|x: Entity|
                has_id(old(self)@, x) && x != e ==> parent_in(final(self)@, x) == parent_in(
                    old(self)@,
                    x,
                )),
    {
        let ghost s = self@;
        match self.find_index(e) {
            None => Err(HierarchyError::InvalidParent),
            Some(i) => {
                let n = self.nodes[i];
                self.nodes.set(i, Node { entity: n.entity, parent: None });
                proof {
                    let s2 = self@;
                    assert(s2 == s.update(i as int, (Node { entity: e, parent: None })));
                    assert(forall|j: int|
                        0 <= j < s2.len() ==> (#[trigger] s2[j]).entity == s[j].entity);
                    assert(distinct_ids(s2));
                    assert(ids_below(s2, self.next));
                    assert forall|j: int|
                        0 <= j < s2.len() && (#[trigger] s2[j]).parent is Some implies
                        parent_before(s2, j) by {
                        assert(j != i);
                        assert(s2[j] == s[j]);
                        assert(parent_before(s, j));
                        let k = choose|k: int|
                            0 <= k < j && (#[trigger] s[k]).entity == s[j].parent->0;
                        assert(s2[k].entity == s2[j].parent->0);
                    }
                    assert forall|x: Entity| has_id(s2, x) == has_id(s, x) by {
                        if has_id(s2, x) {
                            let k = choose|k: int|
                                0 <= k < s2.len() && (#[trigger] s2[k]).entity == x;
                            assert(s[k].entity == x);
                        }
                        if has_id(s, x) {
                            let k = choose|k: int|
                                0 <= k < s.len() && (#[trigger] s[k]).entity == x;
                            assert(s2[k].entity == x);
                        }
                    }
                    lemma_parent_in_at(s2, i as int);
                    assert forall|x: Entity| has_id(s, x) && x != e implies parent_in(s2, x)
                        == parent_in(s, x) by {
                        let k = choose|k: int| 0 <= k < s.len() && (#[trigger] s[k]).entity == x;
                        assert(k != i);
                        assert(s2[k] == s[k]);
                        lemma_parent_in_at(s2, k);
                        lemma_parent_in_at(s, k);
                    }
                }
                Ok(())
            },
        }
    }

    /// The entities with no parent, in display order; traversal starts
    /// here.
    pub fn roots(&self) -> (r: Vec<Entity>)
        ensures
            r@ == roots_in(self@),
    {
        let mut r: Vec<Entity> = Vec::new();
        let mut i: usize = 0;
        while i < self.nodes.len()
            invariant
                0 <= i <= self@.len(),
                r@ == roots_in(self@.subrange(0, i as int)),
            decreases self@.len() - i,
        {
            let ghost pre = self@.subrange(0, i as int);
            let ghost cur = self@.subrange(0, i + 1 as int);
            proof {
                assert(cur.drop_last() =~= pre);
                assert(cur.last() == self@[i as int]);
            }
            let n = self.nodes[i];
            match n.parent {
                Some(_) => {},
                None => {
                    r.push(n.entity);
                },
            }
            i += 1;
        }
        proof {
            assert(self@.subrange(0, self@.len() as int) =~= self@);
        }
        r
    }
}

/// Whether `v` holds `e`.
fn vec_contains(v: &Vec<Entity>, e: Entity) -> (b: bool)
    ensures
        b == v@.contains(e),
{
    let mut i: usize = 0;
    while i < v.len()
        invariant
            0 <= i <= v@.len(),
            forall|k: int| 0 <= k < i ==> v@[k] != e,
        decreases v@.len() - i,
    {
        if v[i].id == e.id {
            assert(v@[i as int] == e);
            return true;
        }
        i += 1;
    }
    false
}

/// Membership of a pushed node sequence.
proof fn lemma_has_id_push(s: Seq<Node>, n: Node, x: Entity)
    ensures
        has_id(s.push(n), x) <==> (has_id(s, x) || n.entity == x),
{
    if has_id(s, x) {
        let i = choose|i: int| 0 <= i < s.len() && (#[trigger] s[i]).entity == x;
        assert(s.push(n)[i].entity == x);
    }
    assert(s.push(n)[s.len() as int] == n);
    if has_id(s.push(n), x) {
        let i = choose|i: int| 0 <= i < s.push(n).len() && (#[trigger] s.push(n)[i]).entity == x;
        if i < s.len() {
            assert(s[i].entity == x);
        }
    }
}

/// Pushing a fresh entity keeps an entity sequence duplicate-free.
pub(crate) proof fn lemma_push_no_dup(s: Seq<Entity>, v: Entity)
    requires
        s.no_duplicates(),
        !s.contains(v),
    ensures
        s.push(v).no_duplicates(),
{
    assert forall|a: int, b: int| 0 <= a < b < s.push(v).len() implies s.push(v)[a] != s.push(v)[b]
        by {
        if b == s.len() {
            if s.push(v)[a] == v {
                assert(s[a] == v);
            }
        }
    }
}

/// Every subtree member is a live entity.
pub proof fn lemma_subtree_member_live(s: Seq<Node>, root: Entity, x: Entity)
    requires
        subtree_in(s, root).contains(x),
    ensures
        has_id(s, x),
    decreases s.len(),
{
    broadcast use vstd::seq_lib::lemma_seq_contains_after_push;

    if s.len() > 0 {
        let rest = subtree_in(s.drop_last(), root);
        if x == s.last().entity {
            assert(s[s.len() - 1].entity == x);
        } else {
            assert(rest.contains(x));
            lemma_subtree_member_live(s.drop_last(), root, x);
            let i = choose|i: int|
                0 <= i < s.drop_last().len() && (#[trigger] s.drop_last()[i]).entity == x;
            assert(s[i].entity == x);
        }
    }
}

/// An absent root has an empty subtree.
pub proof fn lemma_subtree_absent(s: Seq<Node>, root: Entity)
    requires
        !has_id(s, root),
    ensures
        subtree_in(s, root) == Seq::<Entity>::empty(),
    decreases s.len(),
{
    if s.len() > 0 {
        assert(!has_id(s.drop_last(), root)) by {
            if has_id(s.drop_last(), root) {
                let i = choose|i: int|
                    0 <= i < s.drop_last().len() && (#[trigger] s.drop_last()[i]).entity == root;
                assert(s[i].entity == root);
            }
        }
        lemma_subtree_absent(s.drop_last(), root);
        assert(s[s.len() - 1] == s.last());
        assert(s.last().entity != root);
    }
}

/// With distinct identifiers a subtree lists no entity twice.
pub proof fn lemma_subtree_no_dup(s: Seq<Node>, root: Entity)
    requires
        distinct_ids(s),
    ensures
        subtree_in(s, root).no_duplicates(),
    decreases s.len(),
{
    if s.len() > 0 {
        assert(distinct_ids(s.drop_last()));
        lemma_subtree_no_dup(s.drop_last(), root);
        let rest = subtree_in(s.drop_last(), root);
        let n = s.last();
        if n.entity == root || (n.parent is Some && rest.contains(n.parent->0)) {
            assert(!rest.contains(n.entity)) by {
                if rest.contains(n.entity) {
                    lemma_subtree_member_live(s.drop_last(), root, n.entity);
                    let i = choose|i: int|
                        0 <= i < s.drop_last().len() && (#[trigger] s.drop_last()[i]).entity
                            == n.entity;
                    assert(s[i].entity == s[s.len() - 1].entity);
                }
            }
            lemma_push_no_dup(rest, n.entity);
        }
    }
}

/// Subtree membership over a prefix survives extending the prefix.
pub proof fn lemma_subtree_mono(s: Seq<Node>, root: Entity, x: Entity, k1: int, k2: int)
    requires
        0 <= k1 <= k2 <= s.len(),
        subtree_in(s.subrange(0, k1), root).contains(x),
    ensures
        subtree_in(s.subrange(0, k2), root).contains(x),
    decreases k2 - k1,
{
    broadcast use vstd::seq_lib::lemma_seq_contains_after_push;

    if k2 > k1 {
        lemma_subtree_mono(s, root, x, k1, k2 - 1);
        assert(s.subrange(0, k2).drop_last() =~= s.subrange(0, k2 - 1));
    }
}

/// A subtree member is already a member of the prefix that ends just
/// behind its own node.
pub proof fn lemma_subtree_at_index(s: Seq<Node>, root: Entity, x: Entity, j: int)
    requires
        distinct_ids(s),
        0 <= j < s.len(),
        s[j].entity == x,
        subtree_in(s, root).contains(x),
    ensures
        subtree_in(s.subrange(0, j + 1), root).contains(x),
    decreases s.len(),
{
    broadcast use vstd::seq_lib::lemma_seq_contains_after_push;

    if j == s.len() - 1 {
        assert(s.subrange(0, j + 1) =~= s);
    } else {
        let rest = subtree_in(s.drop_last(), root);
        assert(s.last().entity != x);
        assert(rest.contains(x));
        assert(distinct_ids(s.drop_last()));
        assert(s.drop_last()[j] == s[j]);
        lemma_subtree_at_index(s.drop_last(), root, x, j);
        assert(s.drop_last().subrange(0, j + 1) =~= s.subrange(0, j + 1));
    }
}

/// A node whose parent belongs to the subtree belongs to it too.
pub proof fn lemma_subtree_closed(s: Seq<Node>, root: Entity, i: int)
    requires
        distinct_ids(s),
        topo_sorted(s),
        0 <= i < s.len(),
        s[i].parent is Some,
        subtree_in(s, root).contains(s[i].parent->0),
    ensures
        subtree_in(s, root).contains(s[i].entity),
{
    broadcast use vstd::seq_lib::lemma_seq_contains_after_push;

    let p = s[i].parent->0;
    assert(parent_before(s, i));
    let j = choose|j: int| 0 <= j < i && (#[trigger] s[j]).entity == p;
    lemma_subtree_at_index(s, root, p, j);
    lemma_subtree_mono(s, root, p, j + 1, i);
    let cur = s.subrange(0, i + 1);
    assert(cur.drop_last() =~= s.subrange(0, i));
    assert(cur.last() == s[i]);
    assert(subtree_in(cur, root).contains(s[i].entity));
    lemma_subtree_mono(s, root, s[i].entity, i + 1, s.len() as int);
    assert(s.subrange(0, s.len() as int) =~= s);
}

/// A live root is a member of its own subtree.
pub proof fn lemma_subtree_contains_root(s: Seq<Node>, root: Entity)
    requires
        has_id(s, root),
    ensures
        subtree_in(s, root).contains(root),
    decreases s.len(),
{
    broadcast use vstd::seq_lib::lemma_seq_contains_after_push;

    if s.len() > 0 {
        if s.last().entity == root {
        } else {
            assert(has_id(s.drop_last(), root)) by {
                let i = choose|i: int| 0 <= i < s.len() && (#[trigger] s[i]).entity == root;
                assert(s.drop_last()[i].entity == root);
            }
            lemma_subtree_contains_root(s.drop_last(), root);
        }
    }
}

/// Subtree members sit at or behind the root's own index.
pub proof fn lemma_subtree_index_ge(s: Seq<Node>, root: Entity, r_idx: int, x: Entity, j: int)
    requires
        distinct_ids(s),
        0 <= r_idx < s.len(),
        s[r_idx].entity == root,
        subtree_in(s, root).contains(x),
        0 <= j < s.len(),
        s[j].entity == x,
    ensures
        j >= r_idx,
    decreases s.len(),
{
    broadcast use vstd::seq_lib::lemma_seq_contains_after_push;

    if s.last().entity == x {
        assert(j == s.len() - 1);
    } else {
        let rest = subtree_in(s.drop_last(), root);
        assert(rest.contains(x));
        if r_idx == s.len() - 1 {
            assert(!has_id(s.drop_last(), root)) by {
                if has_id(s.drop_last(), root) {
                    let i = choose|i: int|
                        0 <= i < s.drop_last().len() && (#[trigger] s.drop_last()[i]).entity
                            == root;
                    assert(s[i].entity == s[s.len() - 1].entity);
                }
            }
            lemma_subtree_absent(s.drop_last(), root);
            assert(false);
        } else {
            assert(j < s.len() - 1);
            assert(s.drop_last()[j] == s[j]);
            assert(s.drop_last()[r_idx] == s[r_idx]);
            lemma_subtree_index_ge(s.drop_last(), root, r_idx, x, j);
        }
    }
}

/// The parent of the subtree's own root lies outside the subtree: that is
/// what keeps reattachment of a moved subtree acyclic.
pub proof fn lemma_root_parent_outside(s: Seq<Node>, root: Entity, r_idx: int)
    requires
        distinct_ids(s),
        topo_sorted(s),
        0 <= r_idx < s.len(),
        s[r_idx].entity == root,
        s[r_idx].parent is Some,
    ensures
        !subtree_in(s, root).contains(s[r_idx].parent->0),
{
    let p = s[r_idx].parent->0;
    if subtree_in(s, root).contains(p) {
        assert(parent_before(s, r_idx));
        let j = choose|j: int| 0 <= j < r_idx && (#[trigger] s[j]).entity == p;
        lemma_subtree_index_ge(s, root, r_idx, p, j);
    }
}

/// Filtering keeps exactly the identifiers outside the removed list.
pub proof fn lemma_keep_has(s: Seq<Node>, removed: Seq<Entity>, x: Entity)
    ensures
        has_id(keep_outside(s, removed), x) <==> (has_id(s, x) && !removed.contains(x)),
    decreases s.len(),
{
    if s.len() > 0 {
        lemma_keep_has(s.drop_last(), removed, x);
        assert(has_id(s.drop_last(), x) ==> has_id(s, x)) by {
            if has_id(s.drop_last(), x) {
                let i = choose|i: int|
                    0 <= i < s.drop_last().len() && (#[trigger] s.drop_last()[i]).entity == x;
                assert(s[i].entity == x);
            }
        }
        let rest = keep_outside(s.drop_last(), removed);
        if !removed.contains(s.last().entity) {
            lemma_has_id_push(rest, s.last(), x);
        }
        if has_id(s, x) && !removed.contains(x) && s.last().entity != x {
            assert(has_id(s.drop_last(), x)) by {
                let i = choose|i: int| 0 <= i < s.len() && (#[trigger] s[i]).entity == x;
                assert(i < s.len() - 1);
                assert(s.drop_last()[i].entity == x);
            }
        }
    }
}

/// Every filtered node is a node of the original sequence.
pub proof fn lemma_keep_records(s: Seq<Node>, removed: Seq<Entity>)
    ensures
        forall|i: int|
            0 <= i < keep_outside(s, removed).len() ==> exists|j: int|
                0 <= j < s.len() && #[trigger] keep_outside(s, removed)[i] == s[j],
    decreases s.len(),
{
    if s.len() > 0 {
        lemma_keep_records(s.drop_last(), removed);
        let rest = keep_outside(s.drop_last(), removed);
        let res = keep_outside(s, removed);
        assert forall|i: int| 0 <= i < res.len() implies exists|j: int|
            0 <= j < s.len() && #[trigger] res[i] == s[j] by {
            if i < rest.len() {
                let j = choose|j: int| 0 <= j < s.drop_last().len() && #[trigger] rest[i] == s
                    .drop_last()[j];
                assert(res[i] == s[j]);
            } else {
                assert(res[i] == s[s.len() - 1]);
            }
        }
    }
}

/// Filtering never lengthens a sequence.
pub proof fn lemma_keep_len_le(s: Seq<Node>, removed: Seq<Entity>)
    ensures
        keep_outside(s, removed).len() <= s.len(),
    decreases s.len(),
{
    if s.len() > 0 {
        lemma_keep_len_le(s.drop_last(), removed);
    }
}

/// Filtering away a live identifier strictly shortens the sequence.
pub proof fn lemma_keep_len_lt(s: Seq<Node>, removed: Seq<Entity>, x: Entity)
    requires
        has_id(s, x),
        removed.contains(x),
    ensures
        keep_outside(s, removed).len() < s.len(),
    decreases s.len(),
{
    if s.last().entity == x {
        lemma_keep_len_le(s.drop_last(), removed);
    } else {
        assert(has_id(s.drop_last(), x)) by {
            let i = choose|i: int| 0 <= i < s.len() && (#[trigger] s[i]).entity == x;
            assert(i < s.len() - 1);
            assert(s.drop_last()[i].entity == x);
        }
        lemma_keep_len_lt(s.drop_last(), removed, x);
    }
}

/// Filtering keeps identifiers distinct.
pub proof fn lemma_keep_distinct(s: Seq<Node>, removed: Seq<Entity>)
    requires
        distinct_ids(s),
    ensures
        distinct_ids(keep_outside(s, removed)),
    decreases s.len(),
{
    if s.len() > 0 {
        assert(distinct_ids(s.drop_last()));
        lemma_keep_distinct(s.drop_last(), removed);
        let rest = keep_outside(s.drop_last(), removed);
        let res = keep_outside(s, removed);
        if !removed.contains(s.last().entity) {
            assert(!has_id(rest, s.last().entity)) by {
                lemma_keep_has(s.drop_last(), removed, s.last().entity);
                if has_id(s.drop_last(), s.last().entity) {
                    let i = choose|i: int|
                        0 <= i < s.drop_last().len() && (#[trigger] s.drop_last()[i]).entity
                            == s.last().entity;
                    assert(s[i].entity == s[s.len() - 1].entity);
                }
            }
            assert forall|a: int, b: int| 0 <= a < b < res.len() implies (#[trigger] res[a]).entity
                != (#[trigger] res[b]).entity by {
                if b == res.len() - 1 {
                    assert(res[b] == s.last());
                    if res[a].entity == s.last().entity {
                        assert(rest[a].entity == s.last().entity);
                        assert(has_id(rest, s.last().entity));
                    }
                } else {
                    assert(res[a] == rest[a] && res[b] == rest[b]);
                }
            }
        }
    }
}

/// Filtering keeps every identifier below the same bound.
pub proof fn lemma_keep_below(s: Seq<Node>, removed: Seq<Entity>, bound: u64)
    requires
        ids_below(s, bound),
    ensures
        ids_below(keep_outside(s, removed), bound),
{
    lemma_keep_records(s, removed);
    let res = keep_outside(s, removed);
    assert forall|i: int| 0 <= i < res.len() implies (#[trigger] res[i]).entity.id < bound by {
        let jj = choose|jj: int| 0 <= jj < s.len() && res[i] == s[jj];
        assert(s[jj].entity.id < bound);
    }
}

/// Filtering a downward-closed removal keeps the order topological.
pub proof fn lemma_keep_topo(s: Seq<Node>, removed: Seq<Entity>)
    requires
        distinct_ids(s),
        topo_sorted(s),
        forall|i: int|
            0 <= i < s.len() && !removed.contains((#[trigger] s[i]).entity) && s[i].parent is Some
                ==> !removed.contains(s[i].parent->0),
    ensures
        topo_sorted(keep_outside(s, removed)),
    decreases s.len(),
{
    if s.len() > 0 {
        assert(distinct_ids(s.drop_last()));
        assert(topo_sorted(s.drop_last())) by {
            assert forall|i: int|
                0 <= i < s.drop_last().len() && (#[trigger] s.drop_last()[i]).parent
                    is Some implies parent_before(s.drop_last(), i) by {
                assert(s[i] == s.drop_last()[i]);
                assert(parent_before(s, i));
                let j = choose|j: int| 0 <= j < i && (#[trigger] s[j]).entity == s[i].parent->0;
                assert(s.drop_last()[j].entity == s.drop_last()[i].parent->0);
            }
        }
        lemma_keep_topo(s.drop_last(), removed);
        let rest = keep_outside(s.drop_last(), removed);
        let res = keep_outside(s, removed);
        if !removed.contains(s.last().entity) {
            assert forall|i: int|
                0 <= i < res.len() && (#[trigger] res[i]).parent is Some implies parent_before(
                res,
                i,
            ) by {
                if i < rest.len() {
                    assert(res[i] == rest[i]);
                    assert(parent_before(rest, i));
                    let j = choose|j: int|
                        0 <= j < i && (#[trigger] rest[j]).entity == rest[i].parent->0;
                    assert(res[j].entity == res[i].parent->0);
                } else {
                    assert(res[i] == s.last());
                    let p = s.last().parent->0;
                    assert(!removed.contains(p));
                    assert(s[s.len() - 1].parent is Some);
                    assert(parent_before(s, s.len() - 1));
                    let j = choose|j: int|
                        0 <= j < s.len() - 1 && (#[trigger] s[j]).entity == s[s.len() - 1].parent
                            ->0;
                    assert(has_id(s.drop_last(), p)) by {
                        assert(s.drop_last()[j].entity == p);
                    }
                    lemma_keep_has(s.drop_last(), removed, p);
                    let k = choose|k: int|
                        0 <= k < rest.len() && (#[trigger] rest[k]).entity == p;
                    assert(res[k].entity == p);
                }
            }
        }
    }
}

/// Membership of a concatenation of node sequences.
proof fn lemma_has_id_concat(a: Seq<Node>, b: Seq<Node>, x: Entity)
    ensures
        has_id(a + b, x) <==> (has_id(a, x) || has_id(b, x)),
{
    if has_id(a, x) {
        let i = choose|i: int| 0 <= i < a.len() && (#[trigger] a[i]).entity == x;
        assert((a + b)[i].entity == x);
    }
    if has_id(b, x) {
        let i = choose|i: int| 0 <= i < b.len() && (#[trigger] b[i]).entity == x;
        assert((a + b)[a.len() + i].entity == x);
    }
    if has_id(a + b, x) {
        let i = choose|i: int| 0 <= i < (a + b).len() && (#[trigger] (a + b)[i]).entity == x;
        if i < a.len() {
            assert(a[i].entity == x);
        } else {
            assert(b[i - a.len()].entity == x);
        }
    }
}

/// The moved slice keeps exactly the identifiers of the moved list.
pub proof fn lemma_moved_has(s: Seq<Node>, mv: Seq<Entity>, root: Entity, p: Entity, x: Entity)
    ensures
        has_id(moved_nodes(s, mv, root, p), x) <==> (has_id(s, x) && mv.contains(x)),
    decreases s.len(),
{
    if s.len() > 0 {
        lemma_moved_has(s.drop_last(), mv, root, p, x);
        assert(has_id(s.drop_last(), x) ==> has_id(s, x)) by {
            if has_id(s.drop_last(), x) {
                let i = choose|i: int|
                    0 <= i < s.drop_last().len() && (#[trigger] s.drop_last()[i]).entity == x;
                assert(s[i].entity == x);
            }
        }
        let rest = moved_nodes(s.drop_last(), mv, root, p);
        let n = s.last();
        if mv.contains(n.entity) {
            if n.entity == root {
                lemma_has_id_push(rest, (Node { entity: n.entity, parent: Some(p) }), x);
            } else {
                lemma_has_id_push(rest, n, x);
            }
        }
        if has_id(s, x) && mv.contains(x) && n.entity != x {
            assert(has_id(s.drop_last(), x)) by {
                let i = choose|i: int| 0 <= i < s.len() && (#[trigger] s[i]).entity == x;
                assert(i < s.len() - 1);
                assert(s.drop_last()[i].entity == x);
            }
        }
    }
}

/// Every moved node is a node of the original sequence, the subtree root
/// retargeted at `p` and all others verbatim.
pub proof fn lemma_moved_records(s: Seq<Node>, mv: Seq<Entity>, root: Entity, p: Entity)
    ensures
        forall|i: int|
            0 <= i < moved_nodes(s, mv, root, p).len() ==> exists|j: int|
                0 <= j < s.len() && (#[trigger] moved_nodes(s, mv, root, p)[i]).entity == s[
                    j
                ].entity && (moved_nodes(s, mv, root, p)[i].entity != root ==> moved_nodes(
                    s,
                    mv,
                    root,
                    p,
                )[i] == s[j]) && (moved_nodes(s, mv, root, p)[i].entity == root ==> moved_nodes(
                    s,
                    mv,
                    root,
                    p,
                )[i].parent == Some(p)),
    decreases s.len(),
{
    if s.len() > 0 {
        lemma_moved_records(s.drop_last(), mv, root, p);
        let rest = moved_nodes(s.drop_last(), mv, root, p);
        let res = moved_nodes(s, mv, root, p);
        assert forall|i: int| 0 <= i < res.len() implies exists|j: int|
            0 <= j < s.len() && (#[trigger] res[i]).entity == s[j].entity && (res[i].entity != root
                ==> res[i] == s[j]) && (res[i].entity == root ==> res[i].parent == Some(p)) by {
            if i < rest.len() {
                assert(res[i] == rest[i]);
                let j = choose|j: int|
                    0 <= j < s.drop_last().len() && (#[trigger] rest[i]).entity == s.drop_last()[
                        j
                    ].entity && (rest[i].entity != root ==> rest[i] == s.drop_last()[j]) && (
                    rest[i].entity == root ==> rest[i].parent == Some(p));
                assert(s[j] == s.drop_last()[j]);
            } else {
                let j = s.len() - 1;
                assert(res[i].entity == s[j].entity && (res[i].entity != root ==> res[i] == s[j])
                    && (res[i].entity == root ==> res[i].parent == Some(p)));
            }
        }
    }
}

/// The moved slice keeps identifiers distinct.
pub proof fn lemma_moved_distinct(s: Seq<Node>, mv: Seq<Entity>, root: Entity, p: Entity)
    requires
        distinct_ids(s),
    ensures
        distinct_ids(moved_nodes(s, mv, root, p)),
    decreases s.len(),
{
    if s.len() > 0 {
        assert(distinct_ids(s.drop_last()));
        lemma_moved_distinct(s.drop_last(), mv, root, p);
        let rest = moved_nodes(s.drop_last(), mv, root, p);
        let res = moved_nodes(s, mv, root, p);
        let n = s.last();
        if mv.contains(n.entity) {
            assert(!has_id(rest, n.entity)) by {
                lemma_moved_has(s.drop_last(), mv, root, p, n.entity);
                if has_id(s.drop_last(), n.entity) {
                    let i = choose|i: int|
                        0 <= i < s.drop_last().len() && (#[trigger] s.drop_last()[i]).entity
                            == n.entity;
                    assert(s[i].entity == s[s.len() - 1].entity);
                }
            }
            assert forall|a: int, b: int| 0 <= a < b < res.len() implies (#[trigger] res[a]).entity
                != (#[trigger] res[b]).entity by {
                if b == res.len() - 1 {
                    if res[a].entity == n.entity {
                        assert(rest[a].entity == n.entity);
                        assert(has_id(rest, n.entity));
                    }
                } else {
                    assert(res[a] == rest[a] && res[b] == rest[b]);
                }
            }
        }
    }
}

/// The moved list of a subtree is downward-closed towards the root: every
/// member but the root has its parent in the list, at a smaller index.
pub open spec fn moved_closed(s: Seq<Node>, mv: Seq<Entity>, root: Entity) -> bool {
    forall|i: int|
        0 <= i < s.len() && mv.contains((#[trigger] s[i]).entity) && s[i].entity != root ==> (
        s[i].parent is Some && mv.contains(s[i].parent->0) && parent_before(s, i))
}

/// A subtree is downward-closed towards its root.
pub proof fn lemma_subtree_cond(s: Seq<Node>, root: Entity)
    requires
        distinct_ids(s),
        topo_sorted(s),
    ensures
        moved_closed(s, subtree_in(s, root), root),
{
    broadcast use vstd::seq_lib::lemma_seq_contains_after_push;

    let r_seq = subtree_in(s, root);
    assert forall|i: int|
        0 <= i < s.len() && r_seq.contains((#[trigger] s[i]).entity) && s[i].entity
            != root implies (s[i].parent is Some && r_seq.contains(s[i].parent->0)
        && parent_before(s, i)) by {
        let x = s[i].entity;
        lemma_subtree_at_index(s, root, x, i);
        let cur = s.subrange(0, i + 1);
        let pre = s.subrange(0, i);
        assert(cur.drop_last() =~= pre);
        assert(cur.last() == s[i]);
        let rest = subtree_in(pre, root);
        assert(!rest.contains(x)) by {
            if rest.contains(x) {
                lemma_subtree_member_live(pre, root, x);
                let j = choose|j: int| 0 <= j < pre.len() && (#[trigger] pre[j]).entity == x;
                assert(s[j].entity == s[i].entity);
            }
        }
        assert(s[i].parent is Some && rest.contains(s[i].parent->0));
        lemma_subtree_mono(s, root, s[i].parent->0, i, s.len() as int);
        assert(s.subrange(0, s.len() as int) =~= s);
        assert(parent_before(s, i)) by {
            lemma_subtree_member_live(pre, root, s[i].parent->0);
            let j = choose|j: int|
                0 <= j < pre.len() && (#[trigger] pre[j]).entity == s[i].parent->0;
            assert(s[j].entity == s[i].parent->0);
        }
    }
}

/// Within the moved slice, every node but the root follows its parent.
pub proof fn lemma_moved_parent_before(s: Seq<Node>, mv: Seq<Entity>, root: Entity, p: Entity)
    requires
        distinct_ids(s),
        moved_closed(s, mv, root),
    ensures
        forall|k: int|
            0 <= k < moved_nodes(s, mv, root, p).len() && (#[trigger] moved_nodes(
                s,
                mv,
                root,
                p,
            )[k]).entity != root ==> (moved_nodes(s, mv, root, p)[k].parent is Some && exists|
                j: int,
            |
                0 <= j < k && (#[trigger] moved_nodes(s, mv, root, p)[j]).entity == moved_nodes(
                    s,
                    mv,
                    root,
                    p,
                )[k].parent->0),
    decreases s.len(),
{
    if s.len() > 0 {
        assert(distinct_ids(s.drop_last()));
        assert(moved_closed(s.drop_last(), mv, root)) by {
            assert forall|i: int|
                0 <= i < s.drop_last().len() && mv.contains(
                    (#[trigger] s.drop_last()[i]).entity,
                ) && s.drop_last()[i].entity != root implies (s.drop_last()[i].parent is Some
                && mv.contains(s.drop_last()[i].parent->0) && parent_before(s.drop_last(), i)) by {
                assert(s.drop_last()[i] == s[i]);
                assert(parent_before(s, i));
                let j = choose|j: int| 0 <= j < i && (#[trigger] s[j]).entity == s[i].parent->0;
                assert(s.drop_last()[j].entity == s.drop_last()[i].parent->0);
            }
        }
        lemma_moved_parent_before(s.drop_last(), mv, root, p);
        let rest = moved_nodes(s.drop_last(), mv, root, p);
        let res = moved_nodes(s, mv, root, p);
        let n = s.last();
        if mv.contains(n.entity) {
            assert forall|k: int|
                0 <= k < res.len() && (#[trigger] res[k]).entity != root implies (res[k].parent
                is Some && exists|j: int|
                0 <= j < k && (#[trigger] res[j]).entity == res[k].parent->0) by {
                if k < rest.len() {
                    assert(res[k] == rest[k]);
                    let j = choose|j: int|
                        0 <= j < k && (#[trigger] rest[j]).entity == rest[k].parent->0;
                    assert(res[j].entity == res[k].parent->0);
                } else {
                    assert(res[k] == if n.entity == root {
                        (Node { entity: n.entity, parent: Some(p) })
                    } else {
                        n
                    });
                    assert(n.entity != root);
                    let i = s.len() - 1;
                    assert(mv.contains((s[i]).entity));
                    assert(s[i].parent is Some && mv.contains(s[i].parent->0) && parent_before(
                        s,
                        i,
                    ));
                    let q = s[i].parent->0;
                    let j = choose|j: int| 0 <= j < i && (#[trigger] s[j]).entity == q;
                    assert(has_id(s.drop_last(), q)) by {
                        assert(s.drop_last()[j].entity == q);
                    }
                    lemma_moved_has(s.drop_last(), mv, root, p, q);
                    let jm = choose|jm: int|
                        0 <= jm < rest.len() && (#[trigger] rest[jm]).entity == q;
                    assert(res[jm].entity == q);
                    assert(res[k].parent == Some(q));
                }
            }
        }
    }
}

/// Moving a subtree under a live entity outside it preserves
/// well-formedness, the live set, and every other parent link.
/// The rebuilt vector (kept nodes, then the moved subtree retargeted at
/// `p`) stays topologically sorted.
#[verifier::rlimit(100)]
proof fn lemma_move_topo(s: Seq<Node>, root: Entity, p: Entity)
    requires
        distinct_ids(s),
        topo_sorted(s),
        has_id(s, root),
        has_id(s, p),
        !subtree_in(s, root).contains(p),
    ensures
        topo_sorted(
            keep_outside(s, subtree_in(s, root)) + moved_nodes(s, subtree_in(s, root), root, p),
        ),
{
    let r_seq = subtree_in(s, root);
    let keep = keep_outside(s, r_seq);
    let mvd = moved_nodes(s, r_seq, root, p);
    let res = keep + mvd;
    lemma_subtree_cond(s, root);
    lemma_keep_distinct(s, r_seq);
    lemma_moved_distinct(s, r_seq, root, p);
    lemma_keep_records(s, r_seq);
    lemma_moved_records(s, r_seq, root, p);
    lemma_moved_parent_before(s, r_seq, root, p);
    assert forall|i: int|
        0 <= i < s.len() && !r_seq.contains((#[trigger] s[i]).entity) && s[i].parent
            is Some implies !r_seq.contains(s[i].parent->0) by {
        if r_seq.contains(s[i].parent->0) {
            lemma_subtree_closed(s, root, i);
        }
    }
    lemma_keep_topo(s, r_seq);
    // the concatenation stays topologically sorted
    assert forall|i: int| 0 <= i < res.len() && (#[trigger] res[i]).parent is Some implies
        parent_before(res, i) by {
        if i < keep.len() {
            assert(res[i] == keep[i]);
            assert(parent_before(keep, i));
            let j = choose|j: int| 0 <= j < i && (#[trigger] keep[j]).entity == keep[i].parent->0;
            assert(res[j].entity == res[i].parent->0);
        } else {
            let k = i - keep.len();
            assert(res[i] == mvd[k]);
            if mvd[k].entity == root {
                let j0 = choose|j0: int|
                    0 <= j0 < s.len() && (#[trigger] mvd[k]).entity == s[j0].entity && (mvd[
                        k
                    ].entity != root ==> mvd[k] == s[j0]) && (mvd[k].entity == root ==> mvd[
                        k
                    ].parent == Some(p));
                assert(mvd[k].parent == Some(p));
                lemma_keep_has(s, r_seq, p);
                let j = choose|j: int| 0 <= j < keep.len() && (#[trigger] keep[j]).entity == p;
                assert(res[j].entity == res[i].parent->0);
            } else {
                let j = choose|j: int|
                    0 <= j < k && (#[trigger] mvd[j]).entity == mvd[k].parent->0;
                assert(res[keep.len() + j].entity == res[i].parent->0);
            }
        }
    }
}

#[verifier::rlimit(100)]
pub proof fn lemma_move_wf(s: Seq<Node>, root: Entity, p: Entity, bound: u64)
    requires
        distinct_ids(s),
        topo_sorted(s),
        ids_below(s, bound),
        has_id(s, root),
        has_id(s, p),
        !subtree_in(s, root).contains(p),
    ensures
        distinct_ids(
            keep_outside(s, subtree_in(s, root)) + moved_nodes(s, subtree_in(s, root), root, p),
        ),
        topo_sorted(
            keep_outside(s, subtree_in(s, root)) + moved_nodes(s, subtree_in(s, root), root, p),
        ),
        ids_below(
            keep_outside(s, subtree_in(s, root)) + moved_nodes(s, subtree_in(s, root), root, p),
            bound,
        ),
        forall|x: Entity|
            has_id(
                keep_outside(s, subtree_in(s, root)) + moved_nodes(
                    s,
                    subtree_in(s, root),
                    root,
                    p,
                ),
                x,
            ) == has_id(s, x),
{
    let r_seq = subtree_in(s, root);
    let keep = keep_outside(s, r_seq);
    let mvd = moved_nodes(s, r_seq, root, p);
    let res = keep + mvd;
    lemma_subtree_cond(s, root);
    lemma_keep_distinct(s, r_seq);
    lemma_moved_distinct(s, r_seq, root, p);
    lemma_keep_records(s, r_seq);
    lemma_moved_records(s, r_seq, root, p);
    lemma_moved_parent_before(s, r_seq, root, p);
    // the removal list is downward-closed seen from the kept side
    assert forall|i: int|
        0 <= i < s.len() && !r_seq.contains((#[trigger] s[i]).entity) && s[i].parent
            is Some implies !r_seq.contains(s[i].parent->0) by {
        if r_seq.contains(s[i].parent->0) {
            lemma_subtree_closed(s, root, i);
        }
    }
    lemma_keep_topo(s, r_seq);
    lemma_keep_below(s, r_seq, bound);
    // membership of the two halves
    assert forall|x: Entity| has_id(res, x) == has_id(s, x) by {
        lemma_has_id_concat(keep, mvd, x);
        lemma_keep_has(s, r_seq, x);
        lemma_moved_has(s, r_seq, root, p, x);
    }
    // distinct identifiers across the concatenation
    assert forall|a: int, b: int| 0 <= a < b < res.len() implies (#[trigger] res[a]).entity != (
    #[trigger] res[b]).entity by {
        if a < keep.len() && b >= keep.len() {
            assert(res[a] == keep[a]);
            assert(res[b] == mvd[b - keep.len()]);
            if res[a].entity == res[b].entity {
                let x = res[a].entity;
                assert(has_id(keep, x));
                assert(has_id(mvd, x));
                lemma_keep_has(s, r_seq, x);
                lemma_moved_has(s, r_seq, root, p, x);
            }
        } else if b < keep.len() {
            assert(res[a] == keep[a] && res[b] == keep[b]);
        } else {
            assert(res[a] == mvd[a - keep.len()] && res[b] == mvd[b - keep.len()]);
        }
    }
    // identifiers of both halves are original identifiers
    assert forall|i: int| 0 <= i < res.len() implies (#[trigger] res[i]).entity.id < bound by {
        if i < keep.len() {
            assert(res[i] == keep[i]);
        } else {
            let k = i - keep.len();
            let j0 = choose|j0: int|
                0 <= j0 < s.len() && (#[trigger] mvd[k]).entity == s[j0].entity && (mvd[k].entity
                    != root ==> mvd[k] == s[j0]) && (mvd[k].entity == root ==> mvd[k].parent
                    == Some(p));
            assert(s[j0].entity.id < bound);
        }
    }
    lemma_move_topo(s, root, p);
}

/// Pointwise reading of a move: the subtree root now hangs under `p`,
/// every other live entity keeps its parent.
pub proof fn lemma_move_parents(s: Seq<Node>, root: Entity, p: Entity, bound: u64)
    requires
        distinct_ids(s),
        topo_sorted(s),
        ids_below(s, bound),
        has_id(s, root),
        has_id(s, p),
        !subtree_in(s, root).contains(p),
    ensures
        parent_in(
            keep_outside(s, subtree_in(s, root)) + moved_nodes(s, subtree_in(s, root), root, p),
            root,
        ) == Some(p),
        forall|x: Entity|
            has_id(s, x) && x != root ==> parent_in(
                keep_outside(s, subtree_in(s, root)) + moved_nodes(
                    s,
                    subtree_in(s, root),
                    root,
                    p,
                ),
                x,
            ) == parent_in(s, x),
{
    let r_seq = subtree_in(s, root);
    let keep = keep_outside(s, r_seq);
    let mvd = moved_nodes(s, r_seq, root, p);
    let res = keep + mvd;
    lemma_move_wf(s, root, p, bound);
    lemma_keep_records(s, r_seq);
    lemma_moved_records(s, r_seq, root, p);
    lemma_subtree_contains_root(s, root);
    lemma_moved_has(s, r_seq, root, p, root);
    let km = choose|km: int| 0 <= km < mvd.len() && (#[trigger] mvd[km]).entity == root;
    let j0 = choose|j0: int|
        0 <= j0 < s.len() && (#[trigger] mvd[km]).entity == s[j0].entity && (mvd[km].entity != root
            ==> mvd[km] == s[j0]) && (mvd[km].entity == root ==> mvd[km].parent == Some(p));
    assert(res[keep.len() + km] == mvd[km]);
    lemma_parent_in_at(res, keep.len() + km);
    assert(parent_in(res, root) == Some(p));
    assert forall|x: Entity| has_id(s, x) && x != root implies parent_in(res, x) == parent_in(
        s,
        x,
    ) by {
        lemma_keep_has(s, r_seq, x);
        lemma_moved_has(s, r_seq, root, p, x);
        if r_seq.contains(x) {
            let k = choose|k: int| 0 <= k < mvd.len() && (#[trigger] mvd[k]).entity == x;
            let j = choose|j: int|
                0 <= j < s.len() && (#[trigger] mvd[k]).entity == s[j].entity && (mvd[k].entity
                    != root ==> mvd[k] == s[j]) && (mvd[k].entity == root ==> mvd[k].parent
                    == Some(p));
            assert(res[keep.len() + k] == mvd[k]);
            lemma_parent_in_at(res, keep.len() + k);
            lemma_parent_in_at(s, j);
        } else {
            let k = choose|k: int| 0 <= k < keep.len() && (#[trigger] keep[k]).entity == x;
            let j = choose|j: int| 0 <= j < s.len() && #[trigger] keep[k] == s[j];
            assert(res[k] == keep[k]);
            lemma_parent_in_at(res, k);
            lemma_parent_in_at(s, j);
        }
    }
}

/// A duplicate-free list of members of a duplicate-free list is no longer
/// than it.
pub(crate) proof fn lemma_distinct_members_bound(c: Seq<Entity>, s: Seq<Entity>)
    requires
        c.no_duplicates(),
        s.no_duplicates(),
        forall|i: int| 0 <= i < c.len() ==> s.contains(#[trigger] c[i]),
    ensures
        c.len() <= s.len(),
{
    c.unique_seq_to_set();
    s.unique_seq_to_set();
    assert(c.to_set().subset_of(s.to_set())) by {
        assert forall|x: Entity| c.to_set().contains(x) implies s.to_set().contains(x) by {
            let i = choose|i: int| 0 <= i < c.len() && c[i] == x;
            assert(s.contains(c[i]));
        }
    }
    vstd::set_lib::lemma_len_subset(c.to_set(), s.to_set());
}

/// The identifiers of `s`, in order.
pub open spec fn ids_of(s: Seq<Node>) -> Seq<Entity> {
    Seq::new(s.len(), |i: int| s[i].entity)
}

/// A subtree has at most as many members as the graph has nodes.
pub proof fn lemma_subtree_len(s: Seq<Node>, root: Entity)
    requires
        distinct_ids(s),
    ensures
        subtree_in(s, root).len() <= s.len(),
{
    lemma_subtree_no_dup(s, root);
    let sub = subtree_in(s, root);
    assert(ids_of(s).no_duplicates());
    assert forall|i: int| 0 <= i < sub.len() implies ids_of(s).contains(#[trigger] sub[i]) by {
        lemma_subtree_member_live(s, root, sub[i]);
        let j = choose|j: int| 0 <= j < s.len() && (#[trigger] s[j]).entity == sub[i];
        assert(ids_of(s)[j] == sub[i]);
    }
    lemma_distinct_members_bound(sub, ids_of(s));
}

/// Membership of the child list: exactly the live entities whose parent
/// is `e`.
pub proof fn lemma_children_iff(s: Seq<Node>, e: Entity, x: Entity)
    requires
        distinct_ids(s),
    ensures
        children_in(s, e).contains(x) <==> (has_id(s, x) && parent_in(s, x) == Some(e)),
    decreases s.len(),
{
    broadcast use vstd::seq_lib::lemma_seq_contains_after_push;

    if s.len() > 0 {
        assert(distinct_ids(s.drop_last()));
        lemma_children_iff(s.drop_last(), e, x);
        let rest = children_in(s.drop_last(), e);
        let n = s.last();
        // transfer of the characterization from the prefix to the whole
        if has_id(s.drop_last(), x) {
            let i = choose|i: int|
                0 <= i < s.drop_last().len() && (#[trigger] s.drop_last()[i]).entity == x;
            assert(s[i].entity == x);
            lemma_parent_in_at(s, i);
            lemma_parent_in_at(s.drop_last(), i);
            assert(has_id(s, x) && parent_in(s, x) == parent_in(s.drop_last(), x));
        }
        if has_id(s, x) && x != n.entity {
            let i = choose|i: int| 0 <= i < s.len() && (#[trigger] s[i]).entity == x;
            assert(i < s.len() - 1);
            assert(s.drop_last()[i].entity == x);
            assert(has_id(s.drop_last(), x));
        }
        if x == n.entity {
            lemma_parent_in_at(s, s.len() - 1);
            assert(parent_in(s, x) == n.parent);
            assert(!has_id(s.drop_last(), x)) by {
                if has_id(s.drop_last(), x) {
                    let i = choose|i: int|
                        0 <= i < s.drop_last().len() && (#[trigger] s.drop_last()[i]).entity == x;
                    assert(s[i].entity == s[s.len() - 1].entity);
                }
            }
        }
    }
}

/// With distinct identifiers a child list has no duplicates.
pub proof fn lemma_children_no_dup(s: Seq<Node>, e: Entity)
    requires
        distinct_ids(s),
    ensures
        children_in(s, e).no_duplicates(),
    decreases s.len(),
{
    if s.len() > 0 {
        assert(distinct_ids(s.drop_last()));
        lemma_children_no_dup(s.drop_last(), e);
        let rest = children_in(s.drop_last(), e);
        let n = s.last();
        if n.parent == Some(e) {
            assert(!rest.contains(n.entity)) by {
                if rest.contains(n.entity) {
                    lemma_children_iff(s.drop_last(), e, n.entity);
                    let i = choose|i: int|
                        0 <= i < s.drop_last().len() && (#[trigger] s.drop_last()[i]).entity
                            == n.entity;
                    assert(s[i].entity == s[s.len() - 1].entity);
                }
            }
            lemma_push_no_dup(rest, n.entity);
        }
    }
}

/// Appending nodes that do not name `e` as parent leaves `e`'s child
/// list unchanged.
pub proof fn lemma_children_extend(a: Seq<Node>, b: Seq<Node>, e: Entity)
    requires
        forall|i: int| 0 <= i < b.len() ==> (#[trigger] b[i]).parent != Some(e),
    ensures
        children_in(a + b, e) == children_in(a, e),
    decreases b.len(),
{
    if b.len() == 0 {
        assert(a + b =~= a);
    } else {
        assert((a + b).drop_last() =~= a + b.drop_last());
        lemma_children_extend(a, b.drop_last(), e);
        assert((a + b).last() == b[b.len() - 1]);
    }
}

/// Identifiers present in a prefix keep their parent when nodes are
/// appended behind.
pub proof fn lemma_parent_in_prefix(a: Seq<Node>, b: Seq<Node>, x: Entity)
    requires
        distinct_ids(a + b),
        has_id(a, x),
    ensures
        has_id(a + b, x),
        parent_in(a + b, x) == parent_in(a, x),
{
    let i = choose|i: int| 0 <= i < a.len() && (#[trigger] a[i]).entity == x;
    assert((a + b)[i] == a[i]);
    lemma_parent_in_at(a + b, i);
    assert(distinct_ids(a)) by {
        assert forall|p: int, q: int| 0 <= p < q < a.len() implies (#[trigger] a[p]).entity != (
        #[trigger] a[q]).entity by {
            assert((a + b)[p] == a[p] && (a + b)[q] == a[q]);
        }
    }
    lemma_parent_in_at(a, i);
}

/// `a` is an ancestor of `e`, reached by one to `k` parent steps.
pub open spec fn ancestor_within(s: Seq<Node>, a: Entity, e: Entity, k: nat) -> bool
    decreases k,
{
    k > 0 && has_id(s, e) && match parent_in(s, e) {
        Some(p) => p == a || ancestor_within(s, a, p, (k - 1) as nat),
        None => false,
    }
}

/// An ancestor's node stands strictly before the descendant's node.
proof fn lemma_ancestor_index(s: Seq<Node>, a: Entity, e: Entity, k: nat, ie: int)
    requires
        distinct_ids(s),
        topo_sorted(s),
        ancestor_within(s, a, e, k),
        0 <= ie < s.len(),
        s[ie].entity == e,
    ensures
        exists|ia: int| 0 <= ia < ie && (#[trigger] s[ia]).entity == a,
    decreases k,
{
    lemma_parent_in_at(s, ie);
    let p = parent_in(s, e)->0;
    assert(s[ie].parent is Some);
    assert(parent_before(s, ie));
    let jp = choose|jp: int| 0 <= jp < ie && (#[trigger] s[jp]).entity == s[ie].parent->0;
    if p == a {
    } else {
        lemma_ancestor_index(s, a, p, (k - 1) as nat, jp);
        let ia = choose|ia: int| 0 <= ia < jp && (#[trigger] s[ia]).entity == a;
        assert(0 <= ia < ie && s[ia].entity == a);
    }
}

/// Acyclicity: in a well-formed graph no entity is its own ancestor,
/// however many parent steps are taken. Since every graph this crate
/// hands out is well-formed, any sequence of non-failing mutations
/// preserves this.
pub proof fn lemma_acyclic(g: EntityGraph, e: Entity, k: nat)
    requires
        g.wf(),
    ensures
        !ancestor_within(g@, e, e, k),
{
    if ancestor_within(g@, e, e, k) {
        let s = g@;
        assert(has_id(s, e));
        let ie = choose|ie: int| 0 <= ie < s.len() && (#[trigger] s[ie]).entity == e;
        lemma_ancestor_index(s, e, e, k, ie);
        let ia = choose|ia: int| 0 <= ia < ie && (#[trigger] s[ia]).entity == e;
        assert(s[ia].entity == s[ie].entity);
    }
}

/// With distinct identifiers, the parent recorded at any index of `e`'s
/// node is `parent_in`.
pub proof fn lemma_parent_in_at(s: Seq<Node>, i: int)
    requires
        distinct_ids(s),
        0 <= i < s.len(),
    ensures
        has_id(s, s[i].entity),
        parent_in(s, s[i].entity) == s[i].parent,
{
    let e = s[i].entity;
    assert(has_id(s, e));
    let j = choose|j: int| 0 <= j < s.len() && (#[trigger] s[j]).entity == e;
    if i < j {
        assert(s[i].entity != s[j].entity);
    } else if j < i {
        assert(s[j].entity != s[i].entity);
    }
}

} // verus!
