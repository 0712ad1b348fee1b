//! Deep duplication of a subtree with identity remapping.
//!
//! The engine drains an explicit work stack (no recursion, so stack depth
//! stays bounded on deep trees). Popping a pair records it in the clone
//! map *before* the pair's children are scheduled, so a later-processed
//! node always finds its cloned ancestor in the map: the only legal
//! inner-subtree parent is an ancestor, and ancestors are popped first.

use vstd::prelude::*;

use crate::Entity;
use crate::graph::EntityGraph;
use crate::graph::Node;
use crate::graph::children_in;
use crate::graph::distinct_ids;
use crate::graph::has_id;
use crate::graph::ids_below;
use crate::graph::lemma_children_extend;
use crate::graph::lemma_children_iff;
use crate::graph::lemma_children_no_dup;
use crate::graph::lemma_distinct_members_bound;
use crate::graph::lemma_parent_in_at;
use crate::graph::lemma_parent_in_prefix;
use crate::graph::lemma_root_parent_outside;
use crate::graph::lemma_subtree_closed;
use crate::graph::lemma_subtree_contains_root;
use crate::graph::lemma_subtree_len;
use crate::graph::lemma_subtree_member_live;
use crate::graph::lemma_subtree_no_dup;
use crate::graph::parent_in;
use crate::graph::subtree_in;
use crate::graph::topo_sorted;

verus! {

/// Injected capability that copies all registered component data from one
/// entity to another. The component store itself is an external
/// collaborator: this core only calls through this narrow interface, and a
/// per-component failure is the capability's business (skip and continue),
/// so nothing is assumed about the call here.
pub trait ComponentCloneCapability {
    /// Copies every registered component of `source` onto `destination`.
    fn clone_components(&mut self, source: Entity, destination: Entity);
}

/// Injected policy that decides which entities are eligible for hierarchy
/// operations (user-authored rather than editor-internal ones). An
/// ineligible node reached by a clone still yields an allocated (and
/// logged) placeholder duplicate, but that placeholder is left unattached,
/// no component data is copied onto it, and the node's children are not
/// walked.
pub trait EditabilityPredicate {
    /// The predicate as a mathematical function of the entity.
    spec fn editable_spec(&self, entity: Entity) -> bool;

    /// Whether `entity` is eligible.
    fn is_editable(&self, entity: Entity) -> (r: bool)
        ensures
            r == self.editable_spec(entity),
    ;
}

/// A policy under which every entity is editable.
pub struct AllEditable {}

impl EditabilityPredicate for AllEditable {
    open spec fn editable_spec(&self, entity: Entity) -> bool {
        true
    }

    fn is_editable(&self, entity: Entity) -> (r: bool) {
        true
    }
}

/// A policy that accepts exactly a listed set of entities (the shape a
/// registry of user-authored entities takes once its answers are data).
pub struct EditableSet {
    pub members: Vec<Entity>,
}

impl EditabilityPredicate for EditableSet {
    open spec fn editable_spec(&self, entity: Entity) -> bool {
        self.members@.contains(entity)
    }

    fn is_editable(&self, entity: Entity) -> (r: bool) {
        let mut i: usize = 0;
        while i < self.members.len()
            invariant
                0 <= i <= self.members@.len(),
                forall|k: int| 0 <= k < i ==> self.members@[k] != entity,
            decreases self.members@.len() - i,
        {
            if self.members[i].id == entity.id {
                assert(self.members@[i as int] == entity);
                return true;
            }
            i += 1;
        }
        false
    }
}

/// A capability that records each requested copy instead of touching any
/// component store.
pub struct RecordingCapability {
    pub copies: Vec<(Entity, Entity)>,
}

impl RecordingCapability {
    /// A recorder with no copies yet.
    pub fn new() -> (c: RecordingCapability)
        ensures
            c.copies@ == Seq::<(Entity, Entity)>::empty(),
    {
        RecordingCapability { copies: Vec::new() }
    }
}

impl ComponentCloneCapability for RecordingCapability {
    fn clone_components(&mut self, source: Entity, destination: Entity) {
        self.copies.push((source, destination));
    }
}

/// `x` is a source in the clone map `m`.
pub open spec fn map_has(m: Seq<(Entity, Entity)>, x: Entity) -> bool {
    exists|i: int| 0 <= i < m.len() && (#[trigger] m[i]).0 == x
}

/// The destination recorded for source `x` (meaningful when sources are
/// distinct and `x` is present).
pub open spec fn map_get(m: Seq<(Entity, Entity)>, x: Entity) -> Entity {
    let i = choose|i: int| 0 <= i < m.len() && (#[trigger] m[i]).0 == x;
    m[i].1
}

/// The sources of `m`, in order.
pub open spec fn keys_of(m: Seq<(Entity, Entity)>) -> Seq<Entity> {
    Seq::new(m.len(), |i: int| m[i].0)
}

/// The destinations of `m`, in order.
pub open spec fn vals_of(m: Seq<(Entity, Entity)>) -> Seq<Entity> {
    Seq::new(m.len(), |i: int| m[i].1)
}

/// With distinct sources, any entry determines `map_get`.
pub proof fn lemma_map_get_at(m: Seq<(Entity, Entity)>, i: int)
    requires
        forall|a: int, b: int| 0 <= a < b < m.len() ==> (#[trigger] m[a]).0 != (#[trigger] m[b]).0,
        0 <= i < m.len(),
    ensures
        map_has(m, m[i].0),
        map_get(m, m[i].0) == m[i].1,
{
    assert(map_has(m, m[i].0));
    let j = choose|j: int| 0 <= j < m.len() && (#[trigger] m[j]).0 == m[i].0;
    if i < j {
        assert(m[i].0 != m[j].0);
    } else if j < i {
        assert(m[j].0 != m[i].0);
    }
}

/// First (only) destination recorded for `x`, if any.
fn map_lookup(m: &Vec<(Entity, Entity)>, x: Entity) -> (r: Option<Entity>)
    requires
        forall|a: int, b: int|
            0 <= a < b < m@.len() ==> (#[trigger] m@[a]).0 != (#[trigger] m@[b]).0,
    ensures
        r is Some <==> map_has(m@, x),
        r is Some ==> r->0 == map_get(m@, x),
{
    let mut i: usize = 0;
    while i < m.len()
        invariant
            0 <= i <= m@.len(),
            forall|a: int, b: int|
                0 <= a < b < m@.len() ==> (#[trigger] m@[a]).0 != (#[trigger] m@[b]).0,
            forall|k: int| 0 <= k < i ==> (#[trigger] m@[k]).0 != x,
        decreases m@.len() - i,
    {
        if m[i].0.id == x.id {
            proof {
                assert(m@[i as int].0 == x);
                lemma_map_get_at(m@, i as int);
            }
            return Some(m[i].1);
        }
        i += 1;
    }
    None
}

/// The pairs of `m` whose source the policy accepts, in order.
pub open spec fn editable_pairs<P: EditabilityPredicate>(
    policy: P,
    m: Seq<(Entity, Entity)>,
) -> Seq<(Entity, Entity)>
    decreases m.len(),
{
    if m.len() == 0 {
        Seq::empty()
    } else {
        let rest = editable_pairs(policy, m.drop_last());
        if policy.editable_spec(m.last().0) {
            rest.push(m.last())
        } else {
            rest
        }
    }
}

/// The node sequence with every edge out of an ineligible parent severed:
/// a clone walk never schedules the children of an ineligible node, so
/// under `policy` it can only cross edges whose parent end is editable.
#[verifier::opaque]
pub open spec fn gated_nodes<P: EditabilityPredicate>(policy: P, s: Seq<Node>) -> Seq<Node> {
    Seq::new(
        s.len(),
        |i: int|
            (Node {
                entity: s[i].entity,
                parent: if s[i].parent is Some && policy.editable_spec(s[i].parent->0) {
                    s[i].parent
                } else {
                    None
                },
            }),
    )
}

/// The part of `root`'s subtree a clone walk under `policy` reaches:
/// `root` itself, plus every node whose parent is reached *and* editable.
/// This is exactly the subtree of `root` in the gated sequence.
#[verifier::opaque]
pub open spec fn eligible_reach<P: EditabilityPredicate>(
    policy: P,
    s: Seq<Node>,
    root: Entity,
) -> Seq<Entity> {
    subtree_in(gated_nodes(policy, s), root)
}

/// Severing edges preserves the node identities, well-formedness and
/// liveness of the sequence.
pub proof fn lemma_gated_facts<P: EditabilityPredicate>(policy: P, s: Seq<Node>, bound: u64)
    ensures
        gated_nodes(policy, s).len() == s.len(),
        forall|i: int|
            0 <= i < s.len() ==> (#[trigger] gated_nodes(policy, s)[i]).entity == s[i].entity,
        forall|i: int|
            0 <= i < s.len() ==> (#[trigger] gated_nodes(policy, s)[i]).parent == (
            if s[i].parent is Some && policy.editable_spec(s[i].parent->0) {
                s[i].parent
            } else {
                None::<Entity>
            }),
        forall|x: Entity| has_id(gated_nodes(policy, s), x) == has_id(s, x),
        distinct_ids(s) ==> distinct_ids(gated_nodes(policy, s)),
        topo_sorted(s) ==> topo_sorted(gated_nodes(policy, s)),
        ids_below(s, bound) ==> ids_below(gated_nodes(policy, s), bound),
{
    reveal(gated_nodes);
    let sg = gated_nodes(policy, s);
    assert forall|x: Entity| has_id(sg, x) == has_id(s, x) by {
        if has_id(sg, x) {
            let i = choose|i: int| 0 <= i < sg.len() && (#[trigger] sg[i]).entity == x;
            assert(s[i].entity == x);
        }
        if has_id(s, x) {
            let i = choose|i: int| 0 <= i < s.len() && (#[trigger] s[i]).entity == x;
            assert(sg[i].entity == x);
        }
    }
    if topo_sorted(s) {
        assert forall|i: int|
            0 <= i < sg.len() && (#[trigger] sg[i]).parent is Some implies
            crate::graph::parent_before(sg, i) by {
            assert(sg[i].parent == s[i].parent);
            assert(crate::graph::parent_before(s, i));
            let j = choose|j: int| 0 <= j < i && (#[trigger] s[j]).entity == s[i].parent->0;
            assert(sg[j].entity == sg[i].parent->0);
        }
    }
}

/// With distinct identifiers, a live entity's parent in the gated
/// sequence is its real parent when that parent is editable, and nothing
/// otherwise.
pub proof fn lemma_gated_parent_in<P: EditabilityPredicate>(policy: P, s: Seq<Node>, x: Entity)
    requires
        distinct_ids(s),
        has_id(s, x),
    ensures
        parent_in(gated_nodes(policy, s), x) == (if parent_in(s, x) is Some
            && policy.editable_spec(parent_in(s, x)->0) {
            parent_in(s, x)
        } else {
            None::<Entity>
        }),
{
    lemma_gated_facts(policy, s, 0);
    let sg = gated_nodes(policy, s);
    let i = choose|i: int| 0 <= i < s.len() && (#[trigger] s[i]).entity == x;
    assert(sg[i].entity == x);
    lemma_parent_in_at(s, i);
    assert(distinct_ids(sg));
    lemma_parent_in_at(sg, i);
}

/// Under a policy that accepts every parent in the sequence, the eligible
/// reach of a root is its whole subtree.
pub proof fn lemma_eligible_reach_full<P: EditabilityPredicate>(
    policy: P,
    s: Seq<Node>,
    root: Entity,
)
    requires
        forall|i: int|
            0 <= i < s.len() && (#[trigger] s[i]).parent is Some ==> policy.editable_spec(
                s[i].parent->0,
            ),
    ensures
        eligible_reach(policy, s, root) == subtree_in(s, root),
{
    reveal(eligible_reach);
    reveal(gated_nodes);
    assert(gated_nodes(policy, s) =~= s);
}

/// Every reached member is a live entity.
proof fn lemma_reach_member_live<P: EditabilityPredicate>(
    policy: P,
    s: Seq<Node>,
    root: Entity,
    x: Entity,
)
    requires
        eligible_reach(policy, s, root).contains(x),
    ensures
        has_id(s, x),
{
    reveal(eligible_reach);
    lemma_gated_facts(policy, s, 0);
    lemma_subtree_member_live(gated_nodes(policy, s), root, x);
}

/// The real parent of the reach's root is itself never reached.
proof fn lemma_reach_root_parent_outside<P: EditabilityPredicate>(
    policy: P,
    s: Seq<Node>,
    root: Entity,
    ir: int,
)
    requires
        distinct_ids(s),
        topo_sorted(s),
        0 <= ir < s.len(),
        s[ir].entity == root,
        s[ir].parent is Some,
    ensures
        !eligible_reach(policy, s, root).contains(s[ir].parent->0),
{
    reveal(eligible_reach);
    lemma_gated_facts(policy, s, 0);
    let sg = gated_nodes(policy, s);
    let q = s[ir].parent->0;
    assert(crate::graph::parent_before(s, ir));
    let jq = choose|jq: int| 0 <= jq < ir && (#[trigger] s[jq]).entity == q;
    if eligible_reach(policy, s, root).contains(q) {
        assert(sg[ir].entity == root);
        assert(sg[jq].entity == q);
        crate::graph::lemma_subtree_index_ge(sg, root, ir, q, jq);
    }
}

/// A reached member other than the root hangs under an editable parent:
/// the walk crossed that edge, so its parent end was accepted.
proof fn lemma_reach_member_parent_editable<P: EditabilityPredicate>(
    policy: P,
    s: Seq<Node>,
    root: Entity,
    x: Entity,
    p: Entity,
)
    requires
        distinct_ids(s),
        topo_sorted(s),
        eligible_reach(policy, s, root).contains(x),
        x != root,
        parent_in(s, x) == Some(p),
    ensures
        policy.editable_spec(p),
        has_id(s, x),
{
    reveal(eligible_reach);
    lemma_gated_facts(policy, s, 0);
    let sg = gated_nodes(policy, s);
    crate::graph::lemma_subtree_cond(sg, root);
    lemma_subtree_member_live(sg, root, x);
    let ix = choose|ix: int| 0 <= ix < s.len() && (#[trigger] s[ix]).entity == x;
    assert(sg[ix].entity == x);
    assert(eligible_reach(policy, s, root).contains(sg[ix].entity));
    assert(sg[ix].parent is Some);
    lemma_parent_in_at(s, ix);
    assert(s[ix].parent == Some(p));
}

/// What one clone operation produced.
pub struct CloneOutcome {
    /// Source entity to freshly allocated duplicate, in processing
    /// order: the subtree root first, every entry behind the entry of
    /// its (remapped) parent.
    pub mapping: Vec<(Entity, Entity)>,
    /// The pairs that were handed to the component-clone capability:
    /// exactly those whose source the editability policy accepted.
    pub copied: Vec<(Entity, Entity)>,
}

/// The state shared between the clone loop's iterations: the original
/// graph untouched as a prefix, one appended duplicate per processed
/// pair, distinct fresh destinations, parents remapped through the
/// processed pairs, and every subtree member processed, pending, or
/// waiting behind a pending ancestor.
pub open spec fn step_inv<P: EditabilityPredicate>(
    g: EntityGraph,
    policy: P,
    s0: Seq<Node>,
    n0: int,
    next0: u64,
    sub: Seq<Entity>,
    src_root: Entity,
    d0: Entity,
    mapping: Seq<(Entity, Entity)>,
    stack: Seq<(Entity, Entity)>,
    copied: Seq<(Entity, Entity)>,
) -> bool {
    &&& (g.wf())
    &&& (n0 == s0.len())
    &&& (distinct_ids(s0))
    &&& (topo_sorted(s0))
    &&& (ids_below(s0, next0))
    &&& (has_id(s0, src_root))
    &&& (next0 + s0.len() < u64::MAX)
    &&& (sub == eligible_reach(policy, s0, src_root))
    &&& (sub.no_duplicates())
    &&& (sub.contains(src_root))
    &&& (sub.len() <= s0.len())
    &&& (d0.id == next0)
    &&& (// the old graph is a prefix; one appended node per map entry
            g@.len() == n0 + mapping.len())
    &&& (forall|i: int| 0 <= i < n0 ==> g@[i] == s0[i])
    &&& (g.next_id() == next0 + mapping.len() + stack.len())
    &&& (// all processed and pending sources lie in the subtree
            forall|i: int| 0 <= i < mapping.len() ==> sub.contains((#[trigger] mapping[i]).0))
    &&& (forall|i: int| 0 <= i < stack.len() ==> sub.contains((#[trigger] stack[i]).0))
    &&& (// no source is processed or scheduled twice
            forall|a: int, b: int|
                0 <= a < b < mapping.len() ==> (#[trigger] mapping[a]).0 != (
                #[trigger] mapping[b]).0)
    &&& (forall|a: int, b: int|
                0 <= a < b < stack.len() ==> (#[trigger] stack[a]).0 != (
                #[trigger] stack[b]).0)
    &&& (forall|a: int, b: int|
                0 <= a < mapping.len() && 0 <= b < stack.len() ==> (#[trigger] mapping[a]).0
                    != (#[trigger] stack[b]).0)
    &&& (// destinations are fresh and pairwise distinct
            forall|a: int, b: int|
                0 <= a < b < mapping.len() ==> (#[trigger] mapping[a]).1 != (
                #[trigger] mapping[b]).1)
    &&& (forall|a: int, b: int|
                0 <= a < b < stack.len() ==> (#[trigger] stack[a]).1 != (
                #[trigger] stack[b]).1)
    &&& (forall|a: int, b: int|
                0 <= a < mapping.len() && 0 <= b < stack.len() ==> (#[trigger] mapping[a]).1
                    != (#[trigger] stack[b]).1)
    &&& (forall|i: int|
                0 <= i < mapping.len() ==> next0 <= (#[trigger] mapping[i]).1.id
                    < g.next_id())
    &&& (forall|i: int|
                0 <= i < stack.len() ==> next0 <= (#[trigger] stack[i]).1.id < g.next_id())
    &&& (// appended node k realizes map entry k
            forall|k: int|
                0 <= k < mapping.len() ==> (#[trigger] g@[n0 + k]).entity == mapping[k].1)
    &&& (forall|k: int|
                0 <= k < mapping.len() && (#[trigger] mapping[k]).0 == src_root ==> g@[n0
                    + k].parent == (if policy.editable_spec(src_root) {
                    parent_in(s0, src_root)
                } else {
                    None::<Entity>
                }))
    &&& (forall|k: int|
                0 <= k < mapping.len() && (#[trigger] mapping[k]).0 != src_root ==> (
                parent_in(s0, mapping[k].0) is Some && policy.editable_spec(
                    parent_in(s0, mapping[k].0)->0,
                ) && map_has(mapping, parent_in(s0, mapping[k].0)->0) && g@[n0 + k].parent == (
                if policy.editable_spec(mapping[k].0) {
                    Some(map_get(mapping, parent_in(s0, mapping[k].0)->0))
                } else {
                    None::<Entity>
                })))
    &&& (// appended parents point outside the source subtree
            forall|k: int|
                0 <= k < mapping.len() && (#[trigger] g@[n0 + k]).parent is Some
                    ==> !sub.contains(g@[n0 + k].parent->0))
    &&& (// a pending source's parent is already processed and editable
            forall|i: int|
                0 <= i < stack.len() ==> ((#[trigger] stack[i]).0 == src_root || (parent_in(
                    s0,
                    stack[i].0,
                ) is Some && policy.editable_spec(parent_in(s0, stack[i].0)->0) && map_has(
                    mapping,
                    parent_in(s0, stack[i].0)->0,
                ))))
    &&& (// every subtree member whose parent is processed is covered
            map_has(mapping, src_root) || map_has(stack, src_root))
    &&& (forall|x: Entity|
                sub.contains(x) && x != src_root && parent_in(s0, x) is Some && map_has(
                    mapping,
                    parent_in(s0, x)->0,
                ) ==> (map_has(mapping, x) || #[trigger] map_has(stack, x)))
    &&& (// the root's duplicate is processed first
            mapping.len() == 0 ==> stack.len() == 1 && stack[0] == (src_root, d0))
    &&& (mapping.len() > 0 ==> mapping[0] == (src_root, d0))
    &&& (copied == editable_pairs(policy, mapping))
}

/// Processed and pending sources are that many distinct subtree members,
/// so the drain terminates.
pub proof fn lemma_pending_budget(
    sub: Seq<Entity>,
    mapping: Seq<(Entity, Entity)>,
    stack: Seq<(Entity, Entity)>,
)
    requires
        sub.no_duplicates(),
        forall|i: int| 0 <= i < mapping.len() ==> sub.contains((#[trigger] mapping[i]).0),
        forall|i: int| 0 <= i < stack.len() ==> sub.contains((#[trigger] stack[i]).0),
        forall|a: int, b: int|
            0 <= a < b < mapping.len() ==> (#[trigger] mapping[a]).0 != (#[trigger] mapping[b]).0,
        forall|a: int, b: int|
            0 <= a < b < stack.len() ==> (#[trigger] stack[a]).0 != (#[trigger] stack[b]).0,
        forall|a: int, b: int|
            0 <= a < mapping.len() && 0 <= b < stack.len() ==> (#[trigger] mapping[a]).0 != (
            #[trigger] stack[b]).0,
    ensures
        mapping.len() + stack.len() <= sub.len(),
{
    let combined = keys_of(mapping) + keys_of(stack);
    assert(combined.no_duplicates()) by {
        assert forall|a: int, b: int| 0 <= a < b < combined.len() implies combined[a]
            != combined[b] by {
            if b < mapping.len() {
                assert(combined[a] == mapping[a].0 && combined[b] == mapping[b].0);
            } else if a < mapping.len() {
                assert(combined[a] == mapping[a].0 && combined[b] == stack[b - mapping.len()].0);
            } else {
                assert(combined[a] == stack[a - mapping.len()].0 && combined[b] == stack[b
                    - mapping.len()].0);
            }
        }
    }
    assert forall|i: int| 0 <= i < combined.len() implies sub.contains(#[trigger] combined[i]) by {
        if i < mapping.len() {
            assert(combined[i] == mapping[i].0);
        } else {
            assert(combined[i] == stack[i - mapping.len()].0);
        }
    }
    lemma_distinct_members_bound(combined, sub);
}

/// What one pop needs to know: the popped source is a live subtree
/// member, its duplicate's parent resolves to a live entity outside the
/// subtree, and the allocated destination is still fresh.
#[verifier::rlimit(100)]
proof fn lemma_pop_setup<P: EditabilityPredicate>(
    g_pre: EntityGraph,
    policy: P,
    s0: Seq<Node>,
    n0: int,
    next0: u64,
    sub: Seq<Entity>,
    src_root: Entity,
    d0: Entity,
    map_pre: Seq<(Entity, Entity)>,
    stack_pre: Seq<(Entity, Entity)>,
    copied_pre: Seq<(Entity, Entity)>,
    top: (Entity, Entity),
)
    requires
        step_inv(g_pre, policy, s0, n0, next0, sub, src_root, d0, map_pre, stack_pre, copied_pre),
        stack_pre.len() > 0,
        top == stack_pre.last(),
    ensures
        sub.contains(top.0),
        has_id(s0, top.0),
        has_id(g_pre@, top.0),
        parent_in(g_pre@, top.0) == parent_in(s0, top.0),
        has_id(g_pre@, src_root),
        parent_in(g_pre@, src_root) == parent_in(s0, src_root),
        parent_in(s0, src_root) is Some ==> (has_id(g_pre@, parent_in(s0, src_root)->0)
            && !sub.contains(parent_in(s0, src_root)->0)),
        top.0 != src_root ==> (parent_in(s0, top.0) is Some && map_has(
            map_pre,
            parent_in(s0, top.0)->0,
        ) && has_id(g_pre@, map_get(map_pre, parent_in(s0, top.0)->0)) && !sub.contains(
            map_get(map_pre, parent_in(s0, top.0)->0),
        )),
        !has_id(g_pre@, top.1),
        top.1.id < g_pre.next_id(),
{
    let src_e = top.0;
    let app = g_pre@.subrange(n0, g_pre@.len() as int);
    assert(g_pre@ =~= s0 + app);
    assert(sub.contains(src_e));
    lemma_reach_member_live(policy, s0, src_root, src_e);
    lemma_parent_in_prefix(s0, app, src_e);
    lemma_parent_in_prefix(s0, app, src_root);
    if parent_in(s0, src_root) is Some {
        let q = parent_in(s0, src_root)->0;
        let ir = choose|ir: int| 0 <= ir < s0.len() && (#[trigger] s0[ir]).entity == src_root;
        lemma_parent_in_at(s0, ir);
        assert(s0[ir].parent == Some(q));
        assert(crate::graph::parent_before(s0, ir));
        let jq = choose|jq: int| 0 <= jq < ir && (#[trigger] s0[jq]).entity == s0[ir].parent->0;
        assert(g_pre@[jq] == s0[jq]);
        assert(has_id(g_pre@, q));
        lemma_reach_root_parent_outside(policy, s0, src_root, ir);
    }
    if src_e != src_root {
        assert(map_has(map_pre, parent_in(s0, src_e)->0));
        let q = parent_in(s0, src_e)->0;
        let jq = choose|jq: int| 0 <= jq < map_pre.len() && (#[trigger] map_pre[jq]).0 == q;
        lemma_map_get_at(map_pre, jq);
        assert(g_pre@[n0 + jq].entity == map_pre[jq].1);
        assert(has_id(g_pre@, map_get(map_pre, q)));
        assert(map_get(map_pre, q).id >= next0);
        if sub.contains(map_get(map_pre, q)) {
            lemma_reach_member_live(policy, s0, src_root, map_get(map_pre, q));
            let iq2 = choose|iq2: int|
                0 <= iq2 < s0.len() && (#[trigger] s0[iq2]).entity == map_get(map_pre, q);
            assert(s0[iq2].entity.id < next0);
        }
    }
    assert(!has_id(g_pre@, top.1)) by {
        if has_id(g_pre@, top.1) {
            let i = choose|i: int| 0 <= i < g_pre@.len() && (#[trigger] g_pre@[i]).entity == top.1;
            if i < n0 {
                assert(g_pre@[i] == s0[i]);
                assert(s0[i].entity.id < next0);
                assert(top.1.id >= next0);
            } else {
                assert(g_pre@[i].entity == map_pre[i - n0].1);
                assert(map_pre[i - n0].1 != stack_pre[stack_pre.len() - 1].1);
            }
        }
    }
}

/// Appending duplicates whose parents lie outside the subtree leaves a
/// subtree member's child list as it was in the original graph.
#[verifier::rlimit(100)]
proof fn lemma_children_after_append(
    g2: EntityGraph,
    g_pre: EntityGraph,
    s0: Seq<Node>,
    n0: int,
    sub: Seq<Entity>,
    src_e: Entity,
    dst_e: Entity,
    dst_parent: Option<Entity>,
)
    requires
        distinct_ids(s0),
        n0 == s0.len(),
        g_pre@.len() >= n0,
        forall|i: int| 0 <= i < n0 ==> g_pre@[i] == s0[i],
        forall|k: int|
            n0 <= k < g_pre@.len() && (#[trigger] g_pre@[k]).parent is Some ==> !sub.contains(
                g_pre@[k].parent->0,
            ),
        g2@ == g_pre@.push((Node { entity: dst_e, parent: dst_parent })),
        dst_parent is Some ==> !sub.contains(dst_parent->0),
        sub.contains(src_e),
    ensures
        children_in(g2@, src_e) == children_in(s0, src_e),
        children_in(s0, src_e).no_duplicates(),
{
    let app = g2@.subrange(n0, g2@.len() as int);
    assert forall|i: int| 0 <= i < app.len() implies (#[trigger] app[i]).parent != Some(src_e) by {
        assert(app[i] == g2@[n0 + i]);
        if i < app.len() - 1 {
            assert(g2@[n0 + i] == g_pre@[n0 + i]);
        } else {
            assert(g2@[n0 + i] == (Node { entity: dst_e, parent: dst_parent }));
        }
    }
    assert(g2@ =~= s0 + app);
    lemma_children_extend(s0, app, src_e);
    lemma_children_no_dup(s0, src_e);
}

/// The children of a just-processed source are fresh work: subtree
/// members hanging under it, none of them processed or pending yet, and
/// together with the processed and pending sources they stay within the
/// subtree's budget.
#[verifier::rlimit(100)]
proof fn lemma_kid_facts<P: EditabilityPredicate>(
    g_pre: EntityGraph,
    policy: P,
    s0: Seq<Node>,
    n0: int,
    next0: u64,
    sub: Seq<Entity>,
    src_root: Entity,
    d0: Entity,
    map_pre: Seq<(Entity, Entity)>,
    stack_pre: Seq<(Entity, Entity)>,
    copied_pre: Seq<(Entity, Entity)>,
    top: (Entity, Entity),
    src_e: Entity,
    mapping: Seq<(Entity, Entity)>,
    stack: Seq<(Entity, Entity)>,
    kids: Seq<Entity>,
)
    requires
        step_inv(g_pre, policy, s0, n0, next0, sub, src_root, d0, map_pre, stack_pre, copied_pre),
        stack_pre.len() > 0,
        top == stack_pre.last(),
        src_e == top.0,
        mapping == map_pre.push(top),
        stack == stack_pre.drop_last(),
        kids == children_in(s0, src_e),
        policy.editable_spec(src_e),
    ensures
        kids.no_duplicates(),
        forall|x: Entity| #[trigger]
            kids.contains(x) ==> (sub.contains(x) && parent_in(s0, x) == Some(src_e) && has_id(
                s0,
                x,
            ) && x != src_root && x != src_e && !map_has(map_pre, x) && !map_has(
                stack_pre.drop_last(),
                x,
            )),
        (keys_of(mapping) + keys_of(stack) + kids).no_duplicates(),
        mapping.len() + stack.len() + kids.len() <= sub.len(),
{
    reveal(eligible_reach);
    lemma_children_no_dup(s0, src_e);
    lemma_gated_facts(policy, s0, next0);
    let sg = gated_nodes(policy, s0);
    crate::graph::lemma_subtree_cond(sg, src_root);

            assert(kids == children_in(s0, src_e));
            // each child is reached (its parent src_e is reached and
            // editable), hangs under src_e, and is live
            assert forall|x: Entity| kids.contains(x) implies (sub.contains(x) && parent_in(
                s0,
                x,
            ) == Some(src_e) && has_id(s0, x)) by {
                lemma_children_iff(s0, src_e, x);
                let ix = choose|ix: int| 0 <= ix < s0.len() && (#[trigger] s0[ix]).entity == x;
                lemma_parent_in_at(s0, ix);
                assert(s0[ix].parent == Some(src_e));
                assert(sg[ix].parent == Some(src_e));
                assert(sub.contains(mapping[mapping.len() - 1].0));
                lemma_subtree_closed(sg, src_root, ix);
            }
            assert forall|x: Entity| kids.contains(x) implies x != src_root by {
                if x == src_root {
                    let ir = choose|ir: int|
                        0 <= ir < s0.len() && (#[trigger] s0[ir]).entity == src_root;
                    lemma_parent_in_at(s0, ir);
                    assert(sg[ir].entity == src_root);
                    assert(sg[ir].parent == Some(src_e));
                    lemma_root_parent_outside(sg, src_root, ir);
                    assert(!sub.contains(src_e));
                    assert(sub.contains(src_e));
                }
            }
            assert forall|x: Entity| kids.contains(x) implies (!map_has(map_pre, x) && !map_has(
                stack_pre.drop_last(),
                x,
            ) && x != src_e) by {
                assert(parent_in(s0, x) == Some(src_e));
                if x == src_e {
                    let ix = choose|ix: int| 0 <= ix < s0.len() && (#[trigger] s0[ix]).entity == x;
                    lemma_parent_in_at(s0, ix);
                    assert(s0[ix].parent == Some(x));
                    assert(crate::graph::parent_before(s0, ix));
                    let jx = choose|jx: int|
                        0 <= jx < ix && (#[trigger] s0[jx]).entity == s0[ix].parent->0;
                    assert(s0[jx].entity == s0[ix].entity);
                }
                if map_has(map_pre, x) {
                    let k = choose|k: int| 0 <= k < map_pre.len() && (#[trigger] map_pre[k]).0 == x;
                    assert(map_pre[k].0 != src_root);
                    assert(map_has(map_pre, parent_in(s0, map_pre[k].0)->0));
                    let k2 = choose|k2: int|
                        0 <= k2 < map_pre.len() && (#[trigger] map_pre[k2]).0 == src_e;
                    assert(map_pre[k2].0 != stack_pre[stack_pre.len() - 1].0);
                }
                if map_has(stack_pre.drop_last(), x) {
                    let k = choose|k: int|
                        0 <= k < stack_pre.drop_last().len() && (#[trigger] stack_pre.drop_last()[
                            k
                        ]).0 == x;
                    assert(stack_pre[k].0 == x);
                    assert(stack_pre[k].0 != src_root);
                    assert(map_has(map_pre, parent_in(s0, stack_pre[k].0)->0));
                    let k2 = choose|k2: int|
                        0 <= k2 < map_pre.len() && (#[trigger] map_pre[k2]).0 == src_e;
                    assert(map_pre[k2].0 != stack_pre[stack_pre.len() - 1].0);
                }
            }
            // budget for the fresh identifiers of all children
            let combined2 = keys_of(mapping) + keys_of(stack) + kids;
            assert(combined2.no_duplicates()) by {
                assert forall|a: int, b: int|
                    0 <= a < b < combined2.len() implies combined2[a] != combined2[b] by {
                    let ml = mapping.len() as int;
                    let sl = stack.len() as int;
                    assert(forall|i: int|
                        0 <= i < ml ==> combined2[i] == (#[trigger] mapping[i]).0);
                    assert(forall|i: int|
                        ml <= i < ml + sl ==> combined2[i] == (#[trigger] stack[i - ml]).0);
                    assert(forall|i: int|
                        ml + sl <= i < combined2.len() ==> combined2[i] == kids[i - ml - sl]);
                    if a < ml && b < ml {
                    } else if a < ml && b < ml + sl {
                        assert(mapping[a].0 != stack[b - ml].0) by {
                            if a < ml - 1 {
                                assert(map_pre[a].0 != stack_pre[b - ml].0);
                            } else {
                                assert(mapping[a].0 == src_e);
                                assert(stack[b - ml].0 != src_e) by {
                                    assert(stack_pre[b - ml].0 != stack_pre[stack_pre.len()
                                        - 1].0);
                                }
                            }
                        }
                    } else if a < ml {
                        assert(!map_has(mapping, combined2[b])) by {
                            assert(kids.contains(kids[b - ml - sl]));
                            assert(!map_has(map_pre, combined2[b]) && combined2[b] != src_e);
                            if map_has(mapping, combined2[b]) {
                                let k = choose|k: int|
                                    0 <= k < mapping.len() && (#[trigger] mapping[k]).0
                                        == combined2[b];
                                if k < ml - 1 {
                                    assert(map_pre[k].0 == combined2[b]);
                                }
                            }
                        }
                    } else if a < ml + sl && b < ml + sl {
                        assert(stack_pre[a - ml].0 != stack_pre[b - ml].0);
                    } else if a < ml + sl {
                        assert(kids.contains(kids[b - ml - sl]));
                        assert(!map_has(stack_pre.drop_last(), combined2[b]));
                        if combined2[a] == combined2[b] {
                            assert(stack_pre[a - ml].0 == combined2[b]);
                            assert(map_has(stack_pre.drop_last(), combined2[b]));
                        }
                    } else {
                        assert(kids.no_duplicates());
                    }
                }
            }
            assert forall|i: int| 0 <= i < combined2.len() implies sub.contains(
                #[trigger] combined2[i],
            ) by {
                let ml = mapping.len() as int;
                let sl = stack.len() as int;
                if i < ml {
                    assert(combined2[i] == mapping[i].0);
                } else if i < ml + sl {
                    assert(combined2[i] == stack[i - ml].0);
                } else {
                    assert(combined2[i] == kids[i - ml - sl]);
                    assert(kids.contains(kids[i - ml - sl]));
                }
            }
            lemma_distinct_members_bound(combined2, sub);
            assert(mapping.len() + stack.len() + kids.len() <= sub.len());
        
}

/// First half of re-establishing the drain invariant: the extended
/// stack's sources and destinations.
#[verifier::rlimit(100)]
proof fn lemma_restore_stack_facts<P: EditabilityPredicate>(
    g: EntityGraph,
    g_pre: EntityGraph,
    policy: P,
    s0: Seq<Node>,
    n0: int,
    next0: u64,
    sub: Seq<Entity>,
    src_root: Entity,
    d0: Entity,
    map_pre: Seq<(Entity, Entity)>,
    stack_pre: Seq<(Entity, Entity)>,
    copied_pre: Seq<(Entity, Entity)>,
    stack_mid: Seq<(Entity, Entity)>,
    top: (Entity, Entity),
    src_e: Entity,
    dst_parent: Option<Entity>,
    kids: Seq<Entity>,
    next_mid: u64,
    mapping: Seq<(Entity, Entity)>,
    stack: Seq<(Entity, Entity)>,
    copied: Seq<(Entity, Entity)>,
)
    requires
        step_inv(g_pre, policy, s0, n0, next0, sub, src_root, d0, map_pre, stack_pre, copied_pre),
        stack_pre.len() > 0,
        top == stack_pre.last(),
        src_e == top.0,
        stack_mid == stack_pre.drop_last(),
        mapping == map_pre.push(top),
        copied == editable_pairs(policy, mapping),
        g@ == g_pre@.push((Node { entity: top.1, parent: dst_parent })),
        g.wf(),
        next_mid == g_pre.next_id(),
        g.next_id() == next_mid + kids.len(),
        next_mid + kids.len() <= u64::MAX,
        !policy.editable_spec(src_e) ==> dst_parent is None,
        policy.editable_spec(src_e) && src_e == src_root ==> dst_parent == parent_in(
            s0,
            src_root,
        ),
        policy.editable_spec(src_e) && src_e != src_root ==> (parent_in(s0, src_e) is Some
            && map_has(map_pre, parent_in(s0, src_e)->0) && dst_parent == Some(
            map_get(map_pre, parent_in(s0, src_e)->0),
        )),
        dst_parent is Some ==> !sub.contains(dst_parent->0),
        policy.editable_spec(src_e) ==> kids == children_in(s0, src_e),
        !policy.editable_spec(src_e) ==> kids == Seq::<Entity>::empty(),
        kids.no_duplicates(),
        forall|x: Entity| #[trigger]
            kids.contains(x) ==> (sub.contains(x) && parent_in(s0, x) == Some(src_e) && has_id(
                s0,
                x,
            ) && x != src_root && x != src_e && !map_has(map_pre, x) && !map_has(stack_mid, x)),
        (keys_of(map_pre.push(top)) + keys_of(stack_mid) + kids).no_duplicates(),
        stack.len() == stack_mid.len() + kids.len(),
        forall|i: int| 0 <= i < stack_mid.len() ==> stack[i] == stack_mid[i],
        forall|jj: int|
            0 <= jj < kids.len() ==> #[trigger] stack[stack_mid.len() + jj] == (kids[jj], (Entity {
                id: (next_mid + jj) as u64,
            })),
    ensures
        forall|i: int| 0 <= i < stack.len() ==> sub.contains((#[trigger] stack[i]).0),
        forall|a: int, b: int|
            0 <= a < b < stack.len() ==> (#[trigger] stack[a]).0 != (#[trigger] stack[b]).0,
        forall|a: int, b: int|
            0 <= a < mapping.len() && 0 <= b < stack.len() ==> (#[trigger] mapping[a]).0 != (
            #[trigger] stack[b]).0,
{
            let ml = mapping.len() as int;
            assert(mapping[ml - 1] == top);
            assert(forall|i: int| 0 <= i < ml - 1 ==> mapping[i] == map_pre[i]);
            assert forall|i: int| 0 <= i < stack.len() implies sub.contains(
                (#[trigger] stack[i]).0,
            ) by {
                if i < stack_mid.len() {
                    assert(stack[i] == stack_mid[i]);
                } else {
                    let jj = i - stack_mid.len();
                    assert(stack[stack_mid.len() + jj] == (kids[jj], (Entity {
                        id: (next_mid + jj) as u64,
                    })));
                    assert(kids.contains(kids[jj]));
                }
            }
            // distinct sources across map, stack and the new children
            assert forall|a: int, b: int| 0 <= a < b < stack.len() implies (
            #[trigger] stack[a]).0 != (#[trigger] stack[b]).0 by {
                let combined2 = keys_of(map_pre.push(top)) + keys_of(stack_mid) + kids;
                let sl = stack_mid.len() as int;
                if b < sl {
                    assert(stack[a] == stack_mid[a] && stack[b] == stack_mid[b]);
                    assert(stack_mid[a] == stack_pre[a] && stack_mid[b] == stack_pre[b]);
                } else if a < sl {
                    let jb = b - sl;
                    assert(stack[sl + jb] == (kids[jb], (Entity { id: (next_mid + jb) as u64 })));
                    assert(stack[a] == stack_mid[a]);
                    assert(combined2[ml + a] == stack[a].0);
                    assert(combined2[ml + sl + jb] == kids[jb]);
                } else {
                    let ja = a - sl;
                    let jb = b - sl;
                    assert(stack[sl + ja] == (kids[ja], (Entity { id: (next_mid + ja) as u64 })));
                    assert(stack[sl + jb] == (kids[jb], (Entity { id: (next_mid + jb) as u64 })));
                    assert(combined2[ml + sl + ja] == kids[ja]);
                    assert(combined2[ml + sl + jb] == kids[jb]);
                }
            }
            assert forall|a: int, b: int|
                0 <= a < mapping.len() && 0 <= b < stack.len() implies (
            #[trigger] mapping[a]).0 != (#[trigger] stack[b]).0 by {
                let combined2 = keys_of(map_pre.push(top)) + keys_of(stack_mid) + kids;
                let sl = stack_mid.len() as int;
                assert(combined2[a] == mapping[a].0);
                if b < sl {
                    assert(stack[b] == stack_mid[b]);
                    assert(combined2[ml + b] == stack[b].0);
                } else {
                    let jb = b - sl;
                    assert(stack[sl + jb] == (kids[jb], (Entity { id: (next_mid + jb) as u64 })));
                    assert(combined2[ml + sl + jb] == kids[jb]);
                }
            }
}

/// Companion to the stack-sources part: every pending source still has
/// a processed, editable parent (or is the clone root).
#[verifier::rlimit(100)]
proof fn lemma_restore_pending<P: EditabilityPredicate>(
    g: EntityGraph,
    g_pre: EntityGraph,
    policy: P,
    s0: Seq<Node>,
    n0: int,
    next0: u64,
    sub: Seq<Entity>,
    src_root: Entity,
    d0: Entity,
    map_pre: Seq<(Entity, Entity)>,
    stack_pre: Seq<(Entity, Entity)>,
    copied_pre: Seq<(Entity, Entity)>,
    stack_mid: Seq<(Entity, Entity)>,
    top: (Entity, Entity),
    src_e: Entity,
    dst_parent: Option<Entity>,
    kids: Seq<Entity>,
    next_mid: u64,
    mapping: Seq<(Entity, Entity)>,
    stack: Seq<(Entity, Entity)>,
    copied: Seq<(Entity, Entity)>,
)
    requires
        step_inv(g_pre, policy, s0, n0, next0, sub, src_root, d0, map_pre, stack_pre, copied_pre),
        stack_pre.len() > 0,
        top == stack_pre.last(),
        src_e == top.0,
        stack_mid == stack_pre.drop_last(),
        mapping == map_pre.push(top),
        copied == editable_pairs(policy, mapping),
        g@ == g_pre@.push((Node { entity: top.1, parent: dst_parent })),
        g.wf(),
        next_mid == g_pre.next_id(),
        g.next_id() == next_mid + kids.len(),
        next_mid + kids.len() <= u64::MAX,
        !policy.editable_spec(src_e) ==> dst_parent is None,
        policy.editable_spec(src_e) && src_e == src_root ==> dst_parent == parent_in(
            s0,
            src_root,
        ),
        policy.editable_spec(src_e) && src_e != src_root ==> (parent_in(s0, src_e) is Some
            && map_has(map_pre, parent_in(s0, src_e)->0) && dst_parent == Some(
            map_get(map_pre, parent_in(s0, src_e)->0),
        )),
        dst_parent is Some ==> !sub.contains(dst_parent->0),
        policy.editable_spec(src_e) ==> kids == children_in(s0, src_e),
        !policy.editable_spec(src_e) ==> kids == Seq::<Entity>::empty(),
        kids.no_duplicates(),
        forall|x: Entity| #[trigger]
            kids.contains(x) ==> (sub.contains(x) && parent_in(s0, x) == Some(src_e) && has_id(
                s0,
                x,
            ) && x != src_root && x != src_e && !map_has(map_pre, x) && !map_has(stack_mid, x)),
        (keys_of(map_pre.push(top)) + keys_of(stack_mid) + kids).no_duplicates(),
        stack.len() == stack_mid.len() + kids.len(),
        forall|i: int| 0 <= i < stack_mid.len() ==> stack[i] == stack_mid[i],
        forall|jj: int|
            0 <= jj < kids.len() ==> #[trigger] stack[stack_mid.len() + jj] == (kids[jj], (Entity {
                id: (next_mid + jj) as u64,
            })),
    ensures
        forall|i: int|
            0 <= i < stack.len() ==> ((#[trigger] stack[i]).0 == src_root || (parent_in(
                s0,
                stack[i].0,
            ) is Some && policy.editable_spec(parent_in(s0, stack[i].0)->0) && map_has(
                mapping,
                parent_in(s0, stack[i].0)->0,
            ))),
{
            let ml = mapping.len() as int;
            assert(mapping[ml - 1] == top);
            assert(forall|i: int| 0 <= i < ml - 1 ==> mapping[i] == map_pre[i]);
            assert forall|i: int| 0 <= i < stack.len() implies ((#[trigger] stack[i]).0
                == src_root || (parent_in(s0, stack[i].0) is Some && policy.editable_spec(
                parent_in(s0, stack[i].0)->0,
            ) && map_has(mapping, parent_in(s0, stack[i].0)->0))) by {
                if i < stack_mid.len() {
                    assert(stack[i] == stack_mid[i]);
                    assert(stack_mid[i] == stack_pre[i]);
                    if stack_pre[i].0 != src_root {
                        assert(map_has(map_pre, parent_in(s0, stack_pre[i].0)->0));
                        let k = choose|k: int|
                            0 <= k < map_pre.len() && (#[trigger] map_pre[k]).0 == parent_in(
                                s0,
                                stack_pre[i].0,
                            )->0;
                        assert(mapping[k].0 == map_pre[k].0);
                        assert(map_has(mapping, parent_in(s0, stack_pre[i].0)->0));
                    }
                } else {
                    let jj = i - stack_mid.len();
                    assert(stack[stack_mid.len() + jj] == (kids[jj], (Entity {
                        id: (next_mid + jj) as u64,
                    })));
                    let x = stack[i].0;
                    assert(kids.contains(kids[jj]));
                    assert(policy.editable_spec(src_e)) by {
                        if !policy.editable_spec(src_e) {
                            assert(kids.len() == 0);
                        }
                    }
                    assert(parent_in(s0, x) == Some(src_e));
                    assert(mapping[ml - 1].0 == src_e);
                    assert(map_has(mapping, src_e));
                }
            }
}

/// Companion to the stack-sources part: the extended stack's
/// destinations stay fresh and pairwise distinct.
#[verifier::rlimit(100)]
proof fn lemma_restore_stack_dests<P: EditabilityPredicate>(
    g: EntityGraph,
    g_pre: EntityGraph,
    policy: P,
    s0: Seq<Node>,
    n0: int,
    next0: u64,
    sub: Seq<Entity>,
    src_root: Entity,
    d0: Entity,
    map_pre: Seq<(Entity, Entity)>,
    stack_pre: Seq<(Entity, Entity)>,
    copied_pre: Seq<(Entity, Entity)>,
    stack_mid: Seq<(Entity, Entity)>,
    top: (Entity, Entity),
    src_e: Entity,
    dst_parent: Option<Entity>,
    kids: Seq<Entity>,
    next_mid: u64,
    mapping: Seq<(Entity, Entity)>,
    stack: Seq<(Entity, Entity)>,
    copied: Seq<(Entity, Entity)>,
)
    requires
        step_inv(g_pre, policy, s0, n0, next0, sub, src_root, d0, map_pre, stack_pre, copied_pre),
        stack_pre.len() > 0,
        top == stack_pre.last(),
        src_e == top.0,
        stack_mid == stack_pre.drop_last(),
        mapping == map_pre.push(top),
        copied == editable_pairs(policy, mapping),
        g@ == g_pre@.push((Node { entity: top.1, parent: dst_parent })),
        g.wf(),
        next_mid == g_pre.next_id(),
        g.next_id() == next_mid + kids.len(),
        next_mid + kids.len() <= u64::MAX,
        !policy.editable_spec(src_e) ==> dst_parent is None,
        policy.editable_spec(src_e) && src_e == src_root ==> dst_parent == parent_in(
            s0,
            src_root,
        ),
        policy.editable_spec(src_e) && src_e != src_root ==> (parent_in(s0, src_e) is Some
            && map_has(map_pre, parent_in(s0, src_e)->0) && dst_parent == Some(
            map_get(map_pre, parent_in(s0, src_e)->0),
        )),
        dst_parent is Some ==> !sub.contains(dst_parent->0),
        policy.editable_spec(src_e) ==> kids == children_in(s0, src_e),
        !policy.editable_spec(src_e) ==> kids == Seq::<Entity>::empty(),
        kids.no_duplicates(),
        forall|x: Entity| #[trigger]
            kids.contains(x) ==> (sub.contains(x) && parent_in(s0, x) == Some(src_e) && has_id(
                s0,
                x,
            ) && x != src_root && x != src_e && !map_has(map_pre, x) && !map_has(stack_mid, x)),
        (keys_of(map_pre.push(top)) + keys_of(stack_mid) + kids).no_duplicates(),
        stack.len() == stack_mid.len() + kids.len(),
        forall|i: int| 0 <= i < stack_mid.len() ==> stack[i] == stack_mid[i],
        forall|jj: int|
            0 <= jj < kids.len() ==> #[trigger] stack[stack_mid.len() + jj] == (kids[jj], (Entity {
                id: (next_mid + jj) as u64,
            })),
    ensures
        forall|i: int|
            0 <= i < stack.len() ==> next0 <= (#[trigger] stack[i]).1.id < g.next_id(),
        forall|a: int, b: int|
            0 <= a < b < stack.len() ==> (#[trigger] stack[a]).1 != (#[trigger] stack[b]).1,
        forall|a: int, b: int|
            0 <= a < mapping.len() && 0 <= b < stack.len() ==> (#[trigger] mapping[a]).1 != (
            #[trigger] stack[b]).1,
{
            let ml = mapping.len() as int;
            assert(mapping[ml - 1] == top);
            assert(forall|i: int| 0 <= i < ml - 1 ==> mapping[i] == map_pre[i]);
            // fresh, distinct destinations
            assert forall|i: int| 0 <= i < stack.len() implies next0 <= (
            #[trigger] stack[i]).1.id < g.next_id() by {
                if i < stack_mid.len() {
                    assert(stack[i] == stack_mid[i]);
                    assert(stack_mid[i] == stack_pre[i]);
                } else {
                    let jj = i - stack_mid.len();
                    assert(stack[stack_mid.len() + jj] == (kids[jj], (Entity {
                        id: (next_mid + jj) as u64,
                    })));
                }
            }
            assert forall|a: int, b: int| 0 <= a < b < stack.len() implies (
            #[trigger] stack[a]).1 != (#[trigger] stack[b]).1 by {
                if b < stack_mid.len() {
                    assert(stack[a] == stack_mid[a] && stack[b] == stack_mid[b]);
                    assert(stack_mid[a] == stack_pre[a] && stack_mid[b] == stack_pre[b]);
                } else if a < stack_mid.len() {
                    let jb = b - stack_mid.len();
                    assert(stack[stack_mid.len() + jb] == (kids[jb], (Entity {
                        id: (next_mid + jb) as u64,
                    })));
                    assert(stack[a] == stack_mid[a]);
                    assert(stack[a].1.id < next_mid);
                } else {
                    let ja = a - stack_mid.len();
                    let jb = b - stack_mid.len();
                    assert(stack[stack_mid.len() + ja] == (kids[ja], (Entity {
                        id: (next_mid + ja) as u64,
                    })));
                    assert(stack[stack_mid.len() + jb] == (kids[jb], (Entity {
                        id: (next_mid + jb) as u64,
                    })));
                }
            }
            assert forall|a: int, b: int|
                0 <= a < mapping.len() && 0 <= b < stack.len() implies (
            #[trigger] mapping[a]).1 != (#[trigger] stack[b]).1 by {
                assert(mapping[a].1.id < next_mid);
                if b < stack_mid.len() {
                    assert(stack[b] == stack_mid[b]);
                    assert(stack_mid[b] == stack_pre[b]);
                    if a < ml - 1 {
                        assert(map_pre[a].1 != stack_pre[b].1);
                    } else {
                        assert(mapping[a].1 == stack_pre[stack_pre.len() - 1].1);
                        assert(stack_pre[b].1 != stack_pre[stack_pre.len() - 1].1);
                    }
                } else {
                    let jb = b - stack_mid.len();
                    assert(stack[stack_mid.len() + jb] == (kids[jb], (Entity {
                        id: (next_mid + jb) as u64,
                    })));
                }
            }
}

/// Second half of re-establishing the drain invariant: the extended
/// map's parent rules and the coverage of reached members.
#[verifier::rlimit(100)]
proof fn lemma_restore_map_facts<P: EditabilityPredicate>(
    g: EntityGraph,
    g_pre: EntityGraph,
    policy: P,
    s0: Seq<Node>,
    n0: int,
    next0: u64,
    sub: Seq<Entity>,
    src_root: Entity,
    d0: Entity,
    map_pre: Seq<(Entity, Entity)>,
    stack_pre: Seq<(Entity, Entity)>,
    copied_pre: Seq<(Entity, Entity)>,
    stack_mid: Seq<(Entity, Entity)>,
    top: (Entity, Entity),
    src_e: Entity,
    dst_parent: Option<Entity>,
    kids: Seq<Entity>,
    next_mid: u64,
    mapping: Seq<(Entity, Entity)>,
    stack: Seq<(Entity, Entity)>,
    copied: Seq<(Entity, Entity)>,
)
    requires
        step_inv(g_pre, policy, s0, n0, next0, sub, src_root, d0, map_pre, stack_pre, copied_pre),
        stack_pre.len() > 0,
        top == stack_pre.last(),
        src_e == top.0,
        stack_mid == stack_pre.drop_last(),
        mapping == map_pre.push(top),
        copied == editable_pairs(policy, mapping),
        g@ == g_pre@.push((Node { entity: top.1, parent: dst_parent })),
        g.wf(),
        next_mid == g_pre.next_id(),
        g.next_id() == next_mid + kids.len(),
        next_mid + kids.len() <= u64::MAX,
        !policy.editable_spec(src_e) ==> dst_parent is None,
        policy.editable_spec(src_e) && src_e == src_root ==> dst_parent == parent_in(
            s0,
            src_root,
        ),
        policy.editable_spec(src_e) && src_e != src_root ==> (parent_in(s0, src_e) is Some
            && map_has(map_pre, parent_in(s0, src_e)->0) && dst_parent == Some(
            map_get(map_pre, parent_in(s0, src_e)->0),
        )),
        dst_parent is Some ==> !sub.contains(dst_parent->0),
        policy.editable_spec(src_e) ==> kids == children_in(s0, src_e),
        !policy.editable_spec(src_e) ==> kids == Seq::<Entity>::empty(),
        kids.no_duplicates(),
        forall|x: Entity| #[trigger]
            kids.contains(x) ==> (sub.contains(x) && parent_in(s0, x) == Some(src_e) && has_id(
                s0,
                x,
            ) && x != src_root && x != src_e && !map_has(map_pre, x) && !map_has(stack_mid, x)),
        (keys_of(map_pre.push(top)) + keys_of(stack_mid) + kids).no_duplicates(),
        stack.len() == stack_mid.len() + kids.len(),
        forall|i: int| 0 <= i < stack_mid.len() ==> stack[i] == stack_mid[i],
        forall|jj: int|
            0 <= jj < kids.len() ==> #[trigger] stack[stack_mid.len() + jj] == (kids[jj], (Entity {
                id: (next_mid + jj) as u64,
            })),
    ensures
        forall|k: int|
            0 <= k < mapping.len() && (#[trigger] mapping[k]).0 == src_root ==> g@[n0
                + k].parent == (if policy.editable_spec(src_root) {
                parent_in(s0, src_root)
            } else {
                None::<Entity>
            }),
        forall|k: int|
            0 <= k < mapping.len() && (#[trigger] mapping[k]).0 != src_root ==> (parent_in(
                s0,
                mapping[k].0,
            ) is Some && policy.editable_spec(parent_in(s0, mapping[k].0)->0) && map_has(
                mapping,
                parent_in(s0, mapping[k].0)->0,
            ) && g@[n0 + k].parent == (if policy.editable_spec(mapping[k].0) {
                Some(map_get(mapping, parent_in(s0, mapping[k].0)->0))
            } else {
                None::<Entity>
            })),
        forall|k: int|
            0 <= k < mapping.len() && (#[trigger] g@[n0 + k]).parent is Some ==> !sub.contains(
                g@[n0 + k].parent->0,
            ),
{
            let ml = mapping.len() as int;
            assert(mapping[ml - 1] == top);
            assert(forall|i: int| 0 <= i < ml - 1 ==> mapping[i] == map_pre[i]);
            assert(g@[n0 + ml - 1] == (Node { entity: top.1, parent: dst_parent }));
            assert forall|k: int| 0 <= k < ml - 1 implies #[trigger] g@[n0 + k] == g_pre@[n0 + k]
                by {}
            // parent rules for the extended map
            assert forall|k: int|
                0 <= k < mapping.len() && (#[trigger] mapping[k]).0 == src_root implies g@[n0
                + k].parent == (if policy.editable_spec(src_root) {
                parent_in(s0, src_root)
            } else {
                None::<Entity>
            }) by {
                if k < ml - 1 {
                    assert(mapping[k] == map_pre[k]);
                    assert(g@[n0 + k] == g_pre@[n0 + k]);
                } else {
                    assert(g@[n0 + k].parent == dst_parent);
                }
            }
            assert forall|k: int|
                0 <= k < mapping.len() && (#[trigger] mapping[k]).0 != src_root implies (
            parent_in(s0, mapping[k].0) is Some && policy.editable_spec(
                parent_in(s0, mapping[k].0)->0,
            ) && map_has(mapping, parent_in(s0, mapping[k].0)->0) && g@[n0 + k].parent == (
            if policy.editable_spec(mapping[k].0) {
                Some(map_get(mapping, parent_in(s0, mapping[k].0)->0))
            } else {
                None::<Entity>
            })) by {
                if k < ml - 1 {
                    assert(mapping[k] == map_pre[k]);
                    assert(g@[n0 + k] == g_pre@[n0 + k]);
                    let q = parent_in(s0, map_pre[k].0)->0;
                    assert(map_has(map_pre, q));
                    let jq = choose|jq: int|
                        0 <= jq < map_pre.len() && (#[trigger] map_pre[jq]).0 == q;
                    lemma_map_get_at(map_pre, jq);
                    assert(mapping[jq] == map_pre[jq]);
                    lemma_map_get_at(mapping, jq);
                    assert(map_get(mapping, q) == map_get(map_pre, q));
                } else {
                    if src_e != src_root {
                        assert(g@[n0 + k].parent == dst_parent);
                        let q = parent_in(s0, src_e)->0;
                        assert(map_has(map_pre, q));
                        let jq = choose|jq: int|
                            0 <= jq < map_pre.len() && (#[trigger] map_pre[jq]).0 == q;
                        lemma_map_get_at(map_pre, jq);
                        assert(mapping[jq] == map_pre[jq]);
                        lemma_map_get_at(mapping, jq);
                        assert(map_get(mapping, q) == map_get(map_pre, q));
                    }
                }
            }
            // appended parents still point outside the reached set
            assert forall|k: int|
                0 <= k < mapping.len() && (#[trigger] g@[n0 + k]).parent is Some implies
                !sub.contains(g@[n0 + k].parent->0) by {
                if k == ml - 1 {
                    assert(g@[n0 + k].parent == dst_parent);
                }
            }
}

/// Third part of re-establishing the drain invariant: every reached
/// member whose parent is processed is itself processed or pending.
#[verifier::rlimit(100)]
proof fn lemma_restore_coverage<P: EditabilityPredicate>(
    g: EntityGraph,
    g_pre: EntityGraph,
    policy: P,
    s0: Seq<Node>,
    n0: int,
    next0: u64,
    sub: Seq<Entity>,
    src_root: Entity,
    d0: Entity,
    map_pre: Seq<(Entity, Entity)>,
    stack_pre: Seq<(Entity, Entity)>,
    copied_pre: Seq<(Entity, Entity)>,
    stack_mid: Seq<(Entity, Entity)>,
    top: (Entity, Entity),
    src_e: Entity,
    dst_parent: Option<Entity>,
    kids: Seq<Entity>,
    next_mid: u64,
    mapping: Seq<(Entity, Entity)>,
    stack: Seq<(Entity, Entity)>,
    copied: Seq<(Entity, Entity)>,
)
    requires
        step_inv(g_pre, policy, s0, n0, next0, sub, src_root, d0, map_pre, stack_pre, copied_pre),
        stack_pre.len() > 0,
        top == stack_pre.last(),
        src_e == top.0,
        stack_mid == stack_pre.drop_last(),
        mapping == map_pre.push(top),
        copied == editable_pairs(policy, mapping),
        g@ == g_pre@.push((Node { entity: top.1, parent: dst_parent })),
        g.wf(),
        next_mid == g_pre.next_id(),
        g.next_id() == next_mid + kids.len(),
        next_mid + kids.len() <= u64::MAX,
        !policy.editable_spec(src_e) ==> dst_parent is None,
        policy.editable_spec(src_e) && src_e == src_root ==> dst_parent == parent_in(
            s0,
            src_root,
        ),
        policy.editable_spec(src_e) && src_e != src_root ==> (parent_in(s0, src_e) is Some
            && map_has(map_pre, parent_in(s0, src_e)->0) && dst_parent == Some(
            map_get(map_pre, parent_in(s0, src_e)->0),
        )),
        dst_parent is Some ==> !sub.contains(dst_parent->0),
        policy.editable_spec(src_e) ==> kids == children_in(s0, src_e),
        !policy.editable_spec(src_e) ==> kids == Seq::<Entity>::empty(),
        kids.no_duplicates(),
        forall|x: Entity| #[trigger]
            kids.contains(x) ==> (sub.contains(x) && parent_in(s0, x) == Some(src_e) && has_id(
                s0,
                x,
            ) && x != src_root && x != src_e && !map_has(map_pre, x) && !map_has(stack_mid, x)),
        (keys_of(map_pre.push(top)) + keys_of(stack_mid) + kids).no_duplicates(),
        stack.len() == stack_mid.len() + kids.len(),
        forall|i: int| 0 <= i < stack_mid.len() ==> stack[i] == stack_mid[i],
        forall|jj: int|
            0 <= jj < kids.len() ==> #[trigger] stack[stack_mid.len() + jj] == (kids[jj], (Entity {
                id: (next_mid + jj) as u64,
            })),
    ensures
        map_has(mapping, src_root) || map_has(stack, src_root),
        forall|x: Entity|
            sub.contains(x) && x != src_root && parent_in(s0, x) is Some && map_has(
                mapping,
                parent_in(s0, x)->0,
            ) ==> (map_has(mapping, x) || #[trigger] map_has(stack, x)),
{
            let ml = mapping.len() as int;
            assert(mapping[ml - 1] == top);
            assert(forall|i: int| 0 <= i < ml - 1 ==> mapping[i] == map_pre[i]);
            // coverage of subtree members by map or stack
            assert(map_has(mapping, src_root) || map_has(stack, src_root)) by {
                if map_has(map_pre, src_root) {
                    let k = choose|k: int|
                        0 <= k < map_pre.len() && (#[trigger] map_pre[k]).0 == src_root;
                    assert(mapping[k].0 == src_root);
                } else {
                    assert(map_has(stack_pre, src_root));
                    let k = choose|k: int|
                        0 <= k < stack_pre.len() && (#[trigger] stack_pre[k]).0 == src_root;
                    if k == stack_pre.len() - 1 {
                        assert(mapping[ml - 1].0 == src_root);
                    } else {
                        assert(stack[k] == stack_mid[k]);
                        assert(stack_mid[k] == stack_pre[k]);
                        assert(map_has(stack, src_root));
                    }
                }
            }
            assert forall|x: Entity|
                sub.contains(x) && x != src_root && parent_in(s0, x) is Some && map_has(
                    mapping,
                    parent_in(s0, x)->0,
                ) implies (map_has(mapping, x) || #[trigger] map_has(stack, x)) by {
                let q = parent_in(s0, x)->0;
                let kq = choose|kq: int|
                    0 <= kq < mapping.len() && (#[trigger] mapping[kq]).0 == q;
                if kq < ml - 1 {
                    // the parent was processed before this pop
                    assert(map_pre[kq].0 == q);
                    assert(map_has(map_pre, q));
                    assert(map_has(map_pre, x) || map_has(stack_pre, x));
                    if map_has(map_pre, x) {
                        let k = choose|k: int|
                            0 <= k < map_pre.len() && (#[trigger] map_pre[k]).0 == x;
                        assert(mapping[k].0 == x);
                    } else {
                        let k = choose|k: int|
                            0 <= k < stack_pre.len() && (#[trigger] stack_pre[k]).0 == x;
                        if k == stack_pre.len() - 1 {
                            assert(mapping[ml - 1].0 == x);
                        } else {
                            assert(stack[k] == stack_mid[k]);
                            assert(stack_mid[k] == stack_pre[k]);
                            assert(map_has(stack, x));
                        }
                    }
                } else {
                    // the parent is the source popped in this iteration;
                    // a reached member below it proves it editable
                    assert(q == src_e);
                    lemma_reach_member_parent_editable(policy, s0, src_root, x, src_e);
                    assert(policy.editable_spec(src_e));
                    lemma_children_iff(s0, src_e, x);
                    assert(kids.contains(x));
                    let jx = choose|jx: int| 0 <= jx < kids.len() && kids[jx] == x;
                    assert(stack[stack_mid.len() + jx].0 == x);
                    assert(map_has(stack, x));
                }
            }
}

/// Re-establishes the drain invariant after one step: the popped pair is
/// recorded, its duplicate appended, and its children scheduled with
/// fresh destinations.
#[verifier::rlimit(100)]
proof fn lemma_step_restore<P: EditabilityPredicate>(
    g: EntityGraph,
    g_pre: EntityGraph,
    policy: P,
    s0: Seq<Node>,
    n0: int,
    next0: u64,
    sub: Seq<Entity>,
    src_root: Entity,
    d0: Entity,
    map_pre: Seq<(Entity, Entity)>,
    stack_pre: Seq<(Entity, Entity)>,
    copied_pre: Seq<(Entity, Entity)>,
    stack_mid: Seq<(Entity, Entity)>,
    top: (Entity, Entity),
    src_e: Entity,
    dst_parent: Option<Entity>,
    kids: Seq<Entity>,
    next_mid: u64,
    mapping: Seq<(Entity, Entity)>,
    stack: Seq<(Entity, Entity)>,
    copied: Seq<(Entity, Entity)>,
)
    requires
        step_inv(g_pre, policy, s0, n0, next0, sub, src_root, d0, map_pre, stack_pre, copied_pre),
        stack_pre.len() > 0,
        top == stack_pre.last(),
        src_e == top.0,
        stack_mid == stack_pre.drop_last(),
        mapping == map_pre.push(top),
        copied == editable_pairs(policy, mapping),
        g@ == g_pre@.push((Node { entity: top.1, parent: dst_parent })),
        g.wf(),
        next_mid == g_pre.next_id(),
        g.next_id() == next_mid + kids.len(),
        next_mid + kids.len() <= u64::MAX,
        !policy.editable_spec(src_e) ==> dst_parent is None,
        policy.editable_spec(src_e) && src_e == src_root ==> dst_parent == parent_in(
            s0,
            src_root,
        ),
        policy.editable_spec(src_e) && src_e != src_root ==> (parent_in(s0, src_e) is Some
            && map_has(map_pre, parent_in(s0, src_e)->0) && dst_parent == Some(
            map_get(map_pre, parent_in(s0, src_e)->0),
        )),
        dst_parent is Some ==> !sub.contains(dst_parent->0),
        policy.editable_spec(src_e) ==> kids == children_in(s0, src_e),
        !policy.editable_spec(src_e) ==> kids == Seq::<Entity>::empty(),
        kids.no_duplicates(),
        forall|x: Entity| #[trigger]
            kids.contains(x) ==> (sub.contains(x) && parent_in(s0, x) == Some(src_e) && has_id(
                s0,
                x,
            ) && x != src_root && x != src_e && !map_has(map_pre, x) && !map_has(stack_mid, x)),
        (keys_of(map_pre.push(top)) + keys_of(stack_mid) + kids).no_duplicates(),
        stack.len() == stack_mid.len() + kids.len(),
        forall|i: int| 0 <= i < stack_mid.len() ==> stack[i] == stack_mid[i],
        forall|jj: int|
            0 <= jj < kids.len() ==> #[trigger] stack[stack_mid.len() + jj] == (kids[jj], (Entity {
                id: (next_mid + jj) as u64,
            })),
    ensures
        step_inv(g, policy, s0, n0, next0, sub, src_root, d0, mapping, stack, copied),
{
            let ml = mapping.len() as int;
            assert(mapping[ml - 1] == top);
            assert(forall|i: int| 0 <= i < ml - 1 ==> mapping[i] == map_pre[i]);
            lemma_restore_stack_facts(
                g,
                g_pre,
                policy,
                s0,
                n0,
                next0,
                sub,
                src_root,
                d0,
                map_pre,
                stack_pre,
                copied_pre,
                stack_mid,
                top,
                src_e,
                dst_parent,
                kids,
                next_mid,
                mapping,
                stack,
                copied,
            );
            lemma_restore_pending(
                g,
                g_pre,
                policy,
                s0,
                n0,
                next0,
                sub,
                src_root,
                d0,
                map_pre,
                stack_pre,
                copied_pre,
                stack_mid,
                top,
                src_e,
                dst_parent,
                kids,
                next_mid,
                mapping,
                stack,
                copied,
            );
            lemma_restore_stack_dests(
                g,
                g_pre,
                policy,
                s0,
                n0,
                next0,
                sub,
                src_root,
                d0,
                map_pre,
                stack_pre,
                copied_pre,
                stack_mid,
                top,
                src_e,
                dst_parent,
                kids,
                next_mid,
                mapping,
                stack,
                copied,
            );
            lemma_restore_map_facts(
                g,
                g_pre,
                policy,
                s0,
                n0,
                next0,
                sub,
                src_root,
                d0,
                map_pre,
                stack_pre,
                copied_pre,
                stack_mid,
                top,
                src_e,
                dst_parent,
                kids,
                next_mid,
                mapping,
                stack,
                copied,
            );
            lemma_restore_coverage(
                g,
                g_pre,
                policy,
                s0,
                n0,
                next0,
                sub,
                src_root,
                d0,
                map_pre,
                stack_pre,
                copied_pre,
                stack_mid,
                top,
                src_e,
                dst_parent,
                kids,
                next_mid,
                mapping,
                stack,
                copied,
            );
            assert(g.next_id() == next0 + mapping.len() + stack.len());
    // the remaining clauses of the invariant
    assert(g@.len() == n0 + mapping.len());
    assert forall|i: int| 0 <= i < n0 implies g@[i] == s0[i] by {
        assert(g@[i] == g_pre@[i]);
    }
    assert(g@[n0 + mapping.len() - 1] == (Node { entity: top.1, parent: dst_parent }));
    assert forall|k: int| 0 <= k < mapping.len() implies (#[trigger] g@[n0 + k]).entity
        == mapping[k].1 by {
        if k < mapping.len() - 1 {
            assert(g@[n0 + k] == g_pre@[n0 + k]);
            assert(mapping[k] == map_pre[k]);
        }
    }
    assert forall|i: int| 0 <= i < mapping.len() implies sub.contains(
        (#[trigger] mapping[i]).0,
    ) by {
        if i < mapping.len() - 1 {
            assert(mapping[i] == map_pre[i]);
        } else {
            assert(mapping[i].0 == stack_pre[stack_pre.len() - 1].0);
        }
    }
    assert forall|a: int, b: int| 0 <= a < b < mapping.len() implies (#[trigger] mapping[a]).0
        != (#[trigger] mapping[b]).0 by {
        if b < mapping.len() - 1 {
            assert(mapping[a] == map_pre[a] && mapping[b] == map_pre[b]);
        } else {
            assert(mapping[a] == map_pre[a]);
            assert(map_pre[a].0 != stack_pre[stack_pre.len() - 1].0);
        }
    }
    assert forall|a: int, b: int| 0 <= a < b < mapping.len() implies (#[trigger] mapping[a]).1
        != (#[trigger] mapping[b]).1 by {
        if b < mapping.len() - 1 {
            assert(mapping[a] == map_pre[a] && mapping[b] == map_pre[b]);
        } else {
            assert(mapping[a] == map_pre[a]);
            assert(map_pre[a].1 != stack_pre[stack_pre.len() - 1].1);
        }
    }
    assert forall|i: int| 0 <= i < mapping.len() implies next0 <= (#[trigger] mapping[i]).1.id
        < g.next_id() by {
        if i < mapping.len() - 1 {
            assert(mapping[i] == map_pre[i]);
        } else {
            assert(mapping[i].1 == stack_pre[stack_pre.len() - 1].1);
        }
    }
    if map_pre.len() == 0 {
        assert(stack_pre.len() == 1 && stack_pre[0] == (src_root, d0));
        assert(mapping[0] == (src_root, d0));
    } else {
        assert(mapping[0] == map_pre[0]);
    }
    assert(step_inv(g, policy, s0, n0, next0, sub, src_root, d0, mapping, stack, copied));
}

/// One drain step: pops a pending pair, records it in the clone map,
/// appends the duplicate under its remapped parent, copies component
/// data for an eligible source, and schedules the source's children.
#[verifier::rlimit(100)]
fn clone_step<C: ComponentCloneCapability, P: EditabilityPredicate>(
    g: &mut EntityGraph,
    cap: &mut C,
    policy: &P,
    src_root: Entity,
    stack: &mut Vec<(Entity, Entity)>,
    mapping: &mut Vec<(Entity, Entity)>,
    copied: &mut Vec<(Entity, Entity)>,
    Ghost(s0): Ghost<Seq<Node>>,
    Ghost(n0): Ghost<int>,
    Ghost(next0): Ghost<u64>,
    Ghost(sub): Ghost<Seq<Entity>>,
    Ghost(d0): Ghost<Entity>,
)
    requires
        step_inv(*old(g), *policy, s0, n0, next0, sub, src_root, d0, old(mapping)@, old(stack)@, old(copied)@),
        old(stack)@.len() > 0,
    ensures
        step_inv(*final(g), *policy, s0, n0, next0, sub, src_root, d0, final(mapping)@, final(stack)@, final(copied)@),
        final(mapping)@.len() == old(mapping)@.len() + 1,
{
        let ghost stack_pre = stack@;
        let ghost map_pre = mapping@;
        proof {
            lemma_pending_budget(sub, map_pre, stack_pre);
        }
        let top = stack.pop().unwrap();
        let src_e = top.0;
        let dst_e = top.1;
        proof {
            assert(top == stack_pre.last());
            assert(stack@ == stack_pre.drop_last());
        }
        proof {
            lemma_pop_setup(
                *old(g),
                *policy,
                s0,
                n0,
                next0,
                sub,
                src_root,
                d0,
                map_pre,
                stack_pre,
                old(copied)@,
                top,
            );
        }
        let ed = policy.is_editable(src_e);
        // resolve the duplicate's parent: an ineligible source keeps an
        // unattached placeholder
        let dst_parent: Option<Entity>;
        if !ed {
            dst_parent = None;
        } else if src_e.id == src_root.id {
            proof {
                assert(src_e == src_root);
            }
            dst_parent = g.parent_of(src_root);
        } else {
            let p = g.parent_of(src_e);
            let q = p.unwrap();
            let looked = map_lookup(&mapping, q);
            dst_parent = Some(looked.unwrap());
        }
        // record the pair before any descendant needs it
        mapping.push(top);
        proof {
            assert(mapping@ == map_pre.push(top));
            assert(dst_e.id < g.next_id());
        }
        g.append_node(dst_e, dst_parent);
        proof {
            assert(g@[n0 + mapping@.len() - 1] == (Node { entity: dst_e, parent: dst_parent }));
            assert(dst_parent is Some ==> !sub.contains(dst_parent->0));
        }
        // copy component data for an eligible source
        if ed {
            cap.clone_components(src_e, dst_e);
            copied.push(top);
        }
        proof {
            assert(editable_pairs(*policy, mapping@) == copied@) by {
                assert(mapping@.drop_last() =~= map_pre);
                assert(mapping@.last() == top);
            }
        }
        if ed {
            // schedule the children of the eligible popped source
            proof {
                assert forall|k: int|
                    n0 <= k < old(g)@.len() && (#[trigger] old(g)@[k]).parent is Some implies
                    !sub.contains(old(g)@[k].parent->0) by {
                    assert(old(g)@[n0 + (k - n0)].parent == old(g)@[k].parent);
                }
                lemma_children_after_append(*g, *old(g), s0, n0, sub, src_e, dst_e, dst_parent);
            }
            let kids = g.children_of(src_e);
            proof {
                assert(kids@ == children_in(s0, src_e));
                lemma_kid_facts(
                    *old(g),
                    *policy,
                    s0,
                    n0,
                    next0,
                    sub,
                    src_root,
                    d0,
                    map_pre,
                    stack_pre,
                    old(copied)@,
                    top,
                    src_e,
                    mapping@,
                    stack@,
                    kids@,
                );
                assert(mapping@.len() + stack@.len() + kids@.len() <= sub.len());
            }
            let ghost g_mid = g@;
            let ghost next_mid = g.next_id();
            let ghost stack_mid = stack@;
            let mut j: usize = 0;
            while j < kids.len()
                invariant
                    0 <= j <= kids@.len(),
                    g@ == g_mid,
                    g.wf(),
                    g.next_id() == next_mid + j,
                    next_mid + kids@.len() <= next0 + sub.len(),
                    next0 + s0.len() < u64::MAX,
                    sub.len() <= s0.len(),
                    stack@.len() == stack_mid.len() + j,
                    forall|i: int| 0 <= i < stack_mid.len() ==> stack@[i] == stack_mid[i],
                    forall|jj: int|
                        0 <= jj < j ==> #[trigger] stack@[stack_mid.len() + jj] == (kids@[jj], (Entity {
                            id: (next_mid + jj) as u64,
                        })),
                decreases kids@.len() - j,
            {
                let d = g.alloc_id();
                stack.push((kids[j], d));
                j += 1;
            }
            proof {
                lemma_step_restore(
                    *g,
                    *old(g),
                    *policy,
                    s0,
                    n0,
                    next0,
                    sub,
                    src_root,
                    d0,
                    map_pre,
                    stack_pre,
                    old(copied)@,
                    stack_mid,
                    top,
                    src_e,
                    dst_parent,
                    kids@,
                    next_mid,
                    mapping@,
                    stack@,
                    copied@,
                );
            }
        } else {
            // an ineligible source schedules nothing
            proof {
                let kids_e = Seq::<Entity>::empty();
                let ckeys = keys_of(map_pre.push(top)) + keys_of(stack@) + kids_e;
                let ml = map_pre.len() as int + 1;
                assert(ckeys.no_duplicates()) by {
                    assert forall|a: int, b: int| 0 <= a < b < ckeys.len() implies ckeys[a]
                        != ckeys[b] by {
                        assert(forall|i: int|
                            0 <= i < ml ==> ckeys[i] == (#[trigger] map_pre.push(top)[i]).0);
                        assert(forall|i: int|
                            ml <= i < ckeys.len() ==> ckeys[i] == (#[trigger] stack@[i - ml]).0);
                        if b < ml {
                            if b == ml - 1 {
                                assert(ckeys[b] == top.0);
                                assert(map_pre[a].0 != stack_pre[stack_pre.len() - 1].0);
                            } else {
                                assert(map_pre[a].0 != map_pre[b].0);
                            }
                        } else if a < ml {
                            assert(stack@[b - ml] == stack_pre[b - ml]);
                            if a == ml - 1 {
                                assert(stack_pre[b - ml].0 != stack_pre[stack_pre.len() - 1].0);
                            } else {
                                assert(map_pre[a].0 != stack_pre[b - ml].0);
                            }
                        } else {
                            assert(stack@[a - ml] == stack_pre[a - ml]);
                            assert(stack@[b - ml] == stack_pre[b - ml]);
                            assert(stack_pre[a - ml].0 != stack_pre[b - ml].0);
                        }
                    }
                }
                lemma_step_restore(
                    *g,
                    *old(g),
                    *policy,
                    s0,
                    n0,
                    next0,
                    sub,
                    src_root,
                    d0,
                    map_pre,
                    stack_pre,
                    old(copied)@,
                    stack@,
                    top,
                    src_e,
                    dst_parent,
                    kids_e,
                    g.next_id(),
                    mapping@,
                    stack@,
                    copied@,
                );
            }
        }
}

/// Deep-duplicates the eligible reach of `src_root`, preserving topology
/// over it: one fresh duplicate per reached member, the duplicate of an
/// eligible inner node attached under the duplicate of its parent, and
/// the duplicate of an eligible subtree root attached under the root's
/// *original* parent (so it is a root exactly when the source was).
/// Component data is copied through `cap` for exactly the eligible
/// sources. An ineligible reached node still yields an allocated
/// duplicate, but that placeholder stays an unattached empty root and the
/// node's children are not walked. Under a policy that accepts every
/// entity the reach is the whole subtree (`lemma_eligible_reach_full`).
/// The operation never fails; the identifier-space bound in the
/// `requires` is the one limit the machine imposes (one fresh identifier
/// per live node at most).
#[verifier::rlimit(100)]
pub fn clone_subtree<C: ComponentCloneCapability, P: EditabilityPredicate>(
    g: &mut EntityGraph,
    cap: &mut C,
    policy: &P,
    src_root: Entity,
) -> (out: CloneOutcome)
    requires
        old(g).wf(),
        has_id(old(g)@, src_root),
        old(g).next_id() + old(g)@.len() < u64::MAX,
    ensures
        final(g).wf(),
        final(g).next_id() == old(g).next_id() + out.mapping@.len(),
        final(g)@.len() == old(g)@.len() + out.mapping@.len(),
        forall|i: int| 0 <= i < old(g)@.len() ==> final(g)@[i] == old(g)@[i],
        out.mapping@.len() == eligible_reach(*policy, old(g)@, src_root).len(),
        forall|x: Entity|
            map_has(out.mapping@, x) == eligible_reach(*policy, old(g)@, src_root).contains(x),
        forall|a: int, b: int|
            0 <= a < b < out.mapping@.len() ==> (#[trigger] out.mapping@[a]).0 != (
            #[trigger] out.mapping@[b]).0,
        forall|a: int, b: int|
            0 <= a < b < out.mapping@.len() ==> (#[trigger] out.mapping@[a]).1 != (
            #[trigger] out.mapping@[b]).1,
        forall|k: int|
            0 <= k < out.mapping@.len() ==> !has_id(old(g)@, (#[trigger] out.mapping@[k]).1),
        forall|k: int|
            0 <= k < out.mapping@.len() ==> (#[trigger] final(g)@[old(g)@.len() + k]).entity
                == out.mapping@[k].1,
        forall|k: int|
            0 <= k < out.mapping@.len() && (#[trigger] out.mapping@[k]).0 == src_root ==> final(g)@[old(g)@.len() + k].parent == (if policy.editable_spec(src_root) {
                parent_in(old(g)@, src_root)
            } else {
                None::<Entity>
            }),
        forall|k: int|
            0 <= k < out.mapping@.len() && (#[trigger] out.mapping@[k]).0 != src_root ==> (
            parent_in(old(g)@, out.mapping@[k].0) is Some && policy.editable_spec(
                parent_in(old(g)@, out.mapping@[k].0)->0,
            ) && map_has(out.mapping@, parent_in(old(g)@, out.mapping@[k].0)->0)
                && final(g)@[old(g)@.len() + k].parent == (if policy.editable_spec(
                out.mapping@[k].0,
            ) {
                Some(map_get(out.mapping@, parent_in(old(g)@, out.mapping@[k].0)->0))
            } else {
                None::<Entity>
            })),
        out.mapping@.len() > 0,
        out.mapping@[0].0 == src_root,
        out.mapping@[0].1.id == old(g).next_id(),
        forall|x: Entity|
            has_id(final(g)@, x) <==> (has_id(old(g)@, x) || vals_of(out.mapping@).contains(x)),
        out.copied@ == editable_pairs(*policy, out.mapping@),
{
    let ghost s0 = g@;
    let ghost n0 = g@.len() as int;
    let ghost next0 = g.next_id();
    let ghost sg = gated_nodes(*policy, s0);
    let ghost sub = eligible_reach(*policy, s0, src_root);
    proof {
        reveal(eligible_reach);
        lemma_gated_facts(*policy, s0, next0);
        assert(has_id(sg, src_root));
        lemma_subtree_no_dup(sg, src_root);
        lemma_subtree_contains_root(sg, src_root);
        lemma_subtree_len(sg, src_root);
    }
    let d0 = g.alloc_id();
    let mut stack: Vec<(Entity, Entity)> = Vec::new();
    stack.push((src_root, d0));
    let mut mapping: Vec<(Entity, Entity)> = Vec::new();
    let mut copied: Vec<(Entity, Entity)> = Vec::new();
    proof {
        assert(stack@.len() == 1 && stack@[0] == (src_root, d0));
        assert(map_has(stack@, src_root));
        assert(editable_pairs(*policy, mapping@) == copied@);
    }
    while stack.len() > 0
        invariant
            step_inv(*g, *policy, s0, n0, next0, sub, src_root, d0, mapping@, stack@, copied@),
        decreases sub.len() - mapping@.len(),
    {
        proof {
            lemma_pending_budget(sub, mapping@, stack@);
        }
        clone_step(
            g,
            cap,
            policy,
            src_root,
            &mut stack,
            &mut mapping,
            &mut copied,
            Ghost(s0),
            Ghost(n0),
            Ghost(next0),
            Ghost(sub),
            Ghost(d0),
        );
    }
    proof {
        // an empty stack means the whole subtree is processed
        assert(stack@.len() == 0);
        assert forall|y: Entity|
            sub.contains(y) && y != src_root && parent_in(s0, y) is Some && map_has(
                mapping@,
                parent_in(s0, y)->0,
            ) implies #[trigger] map_has(mapping@, y) by {
            assert(map_has(mapping@, y) || map_has(stack@, y));
            if map_has(stack@, y) {
                let k = choose|k: int| 0 <= k < stack@.len() && (#[trigger] stack@[k]).0 == y;
            }
        }
        reveal(eligible_reach);
        lemma_gated_facts(*policy, s0, next0);
        assert forall|y: Entity|
            sub.contains(y) && y != src_root && parent_in(sg, y) is Some && map_has(
                mapping@,
                parent_in(sg, y)->0,
            ) implies #[trigger] map_has(mapping@, y) by {
            lemma_subtree_member_live(sg, src_root, y);
            assert(has_id(s0, y));
            lemma_gated_parent_in(*policy, s0, y);
            assert(parent_in(s0, y) == parent_in(sg, y));
        }
        assert forall|x: Entity| sub.contains(x) implies map_has(mapping@, x) by {
            lemma_subtree_member_live(sg, src_root, x);
            assert(has_id(s0, x));
            let ix = choose|ix: int| 0 <= ix < s0.len() && (#[trigger] s0[ix]).entity == x;
            assert(sg[ix].entity == x);
            lemma_subtree_complete_at(sg, sub, src_root, mapping@, x, ix);
        }
        assert forall|x: Entity| map_has(mapping@, x) implies sub.contains(x) by {
            let k = choose|k: int| 0 <= k < mapping@.len() && (#[trigger] mapping@[k]).0 == x;
        }
        // counting: distinct sources that exhaust the subtree
        assert(keys_of(mapping@).no_duplicates()) by {
            assert forall|a: int, b: int|
                0 <= a < b < keys_of(mapping@).len() implies keys_of(mapping@)[a] != keys_of(
                mapping@,
            )[b] by {
                assert(keys_of(mapping@)[a] == mapping@[a].0);
                assert(keys_of(mapping@)[b] == mapping@[b].0);
            }
        }
        assert forall|i: int| 0 <= i < keys_of(mapping@).len() implies sub.contains(
            #[trigger] keys_of(mapping@)[i],
        ) by {
            assert(keys_of(mapping@)[i] == mapping@[i].0);
        }
        lemma_distinct_members_bound(keys_of(mapping@), sub);
        assert forall|i: int| 0 <= i < sub.len() implies keys_of(mapping@).contains(
            #[trigger] sub[i],
        ) by {
            assert(sub.contains(sub[i]));
            assert(map_has(mapping@, sub[i]));
            let k = choose|k: int| 0 <= k < mapping@.len() && (#[trigger] mapping@[k]).0 == sub[i];
            assert(keys_of(mapping@)[k] == sub[i]);
        }
        lemma_distinct_members_bound(sub, keys_of(mapping@));
        assert(mapping@.len() == sub.len());
        assert(mapping@.len() > 0) by {
            assert(sub.contains(src_root));
            assert(sub.len() > 0);
        }
        // freshness of the duplicates against the original graph
        assert forall|k: int| 0 <= k < mapping@.len() implies !has_id(
            s0,
            (#[trigger] mapping@[k]).1,
        ) by {
            if has_id(s0, mapping@[k].1) {
                let i = choose|i: int| 0 <= i < s0.len() && (#[trigger] s0[i]).entity == mapping@[
                    k
                ].1;
                assert(s0[i].entity.id < next0);
                assert(mapping@[k].1.id >= next0);
            }
        }
        // the live set grows by exactly the duplicates
        assert forall|x: Entity| has_id(g@, x) <==> (has_id(s0, x) || vals_of(mapping@).contains(
            x,
        )) by {
            if has_id(g@, x) {
                let i = choose|i: int| 0 <= i < g@.len() && (#[trigger] g@[i]).entity == x;
                if i < n0 {
                    assert(s0[i].entity == x);
                } else {
                    assert(g@[i].entity == mapping@[i - n0].1);
                    assert(vals_of(mapping@)[i - n0] == x);
                }
            }
            if has_id(s0, x) {
                let i = choose|i: int| 0 <= i < s0.len() && (#[trigger] s0[i]).entity == x;
                assert(g@[i].entity == x);
            }
            if vals_of(mapping@).contains(x) {
                let i = choose|i: int|
                    0 <= i < vals_of(mapping@).len() && vals_of(mapping@)[i] == x;
                assert(g@[n0 + i].entity == mapping@[i].1);
                assert(g@[n0 + i].entity == x);
            }
        }
    }
    CloneOutcome { mapping, copied }
}

/// On an empty work stack, coverage closes the completeness argument:
/// every subtree member is processed. The induction descends on the index
/// of the member's node, since a member's parent inside the subtree
/// stands at a smaller index.
proof fn lemma_subtree_complete_at(
    s0: Seq<Node>,
    sub: Seq<Entity>,
    src_root: Entity,
    m: Seq<(Entity, Entity)>,
    x: Entity,
    ix: int,
)
    requires
        distinct_ids(s0),
        topo_sorted(s0),
        sub == subtree_in(s0, src_root),
        sub.contains(x),
        0 <= ix < s0.len(),
        s0[ix].entity == x,
        map_has(m, src_root),
        forall|y: Entity|
            sub.contains(y) && y != src_root && parent_in(s0, y) is Some && map_has(
                m,
                parent_in(s0, y)->0,
            ) ==> #[trigger] map_has(m, y),
    ensures
        map_has(m, x),
    decreases ix,
{
    crate::graph::lemma_subtree_cond(s0, src_root);
    if x == src_root {
    } else {
        assert(sub.contains(s0[ix].entity));
        assert(s0[ix].parent is Some && sub.contains(s0[ix].parent->0)
            && crate::graph::parent_before(s0, ix));
        lemma_parent_in_at(s0, ix);
        let q = s0[ix].parent->0;
        let jq = choose|jq: int| 0 <= jq < ix && (#[trigger] s0[jq]).entity == s0[ix].parent->0;
        lemma_subtree_complete_at(s0, sub, src_root, m, q, jq);
        assert(map_has(m, parent_in(s0, x)->0));
    }
}

} // verus!
