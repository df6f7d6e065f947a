//! The bookkeeping of the layout tree: which node is a child of which, which nodes must be
//! measured, and which cached sizes must be computed again.
//!
//! Nodes are stored in a slot map; a node is named by the 64 bits of its slot map key.
use vstd::prelude::*;
use crate::layout::{Entity, NodeId, TaffyError};

verus! {

/// The number of cached sizes kept for each node.
pub const CACHE_SIZE: usize = 7;

/// The layout data of one node.
///
/// The style and the cached sizes themselves are floating point and stay with the layout
/// algorithm; a node here records whether it must be measured and which of its cache slots
/// hold a computed size.
#[derive(Clone, Copy, Debug)]
pub struct UiNodeData {
    /// Should we try and measure this node?
    pub needs_measure: bool,
    /// Whether each cache slot holds a computed size.
    pub size_cache: [bool; 7],
}

/// No cache slot of `d` holds a size.
pub open spec fn cache_is_empty(d: UiNodeData) -> bool {
    forall|i: int| 0 <= i < CACHE_SIZE ==> !d.size_cache@[i]
}

/// `new` is `old` marked dirty: the same measuring flag and an empty cache.
pub open spec fn dirtied(old: UiNodeData, new: UiNodeData) -> bool {
    new.needs_measure == old.needs_measure && cache_is_empty(new)
}

impl UiNodeData {
    /// The data of a new node: nothing cached, nothing to measure.
    pub fn new() -> (r: Self)
        ensures
            !r.needs_measure,
            cache_is_empty(r),
    {
        UiNodeData { needs_measure: false, size_cache: [false, false, false, false, false, false, false] }
    }

    /// Clears the cached sizes, so that they must be computed again.
    pub fn mark_dirty(&mut self)
        ensures
            dirtied(*old(self), *final(self)),
    {
        self.size_cache = [false, false, false, false, false, false, false];
    }
}

/// A node of the tree: its data, its children in order, and its parent.
pub struct LayoutNode {
    pub data: UiNodeData,
    pub children: Vec<NodeId>,
    pub parent: Option<NodeId>,
}

/// The slot map that holds the nodes of a tree.
#[verifier::external_body]
pub struct NodeSlots {
    map: slotmap::SlotMap<slotmap::DefaultKey, LayoutNode>,
}

/// The slot map that holds the entity of each node of a tree.
#[verifier::external_body]
pub struct EntitySlots {
    map: slotmap::SlotMap<slotmap::DefaultKey, Entity>,
}

/// What a slot map of layout nodes holds, by the bits of each key.
pub uninterp spec fn node_slots(m: NodeSlots) -> Map<u64, LayoutNode>;

/// What a slot map of entities holds, by the bits of each key.
pub uninterp spec fn entity_slots(m: EntitySlots) -> Map<u64, Entity>;

/// The key that the bits `bits` name in a slot map: a key's version is odd, and the bits of
/// an even version name the slot of the next odd one.
pub open spec fn slot_key(bits: u64) -> u64 {
    bits | 0x1_0000_0000
}

/// `n` is the bits of a slot map key, as every key handed out by a slot map is.
pub open spec fn is_key(n: NodeId) -> bool {
    slot_key(n.0) == n.0
}

/// Calls `SlotMap::new`: an empty map.
#[verifier::external_body]
fn node_slots_new() -> (r: NodeSlots)
    ensures
        node_slots(r).dom() == Set::<u64>::empty(),
{
    NodeSlots { map: slotmap::SlotMap::new() }
}

/// Calls `SlotMap::new`: an empty map.
#[verifier::external_body]
fn entity_slots_new() -> (r: EntitySlots)
    ensures
        entity_slots(r).dom() == Set::<u64>::empty(),
{
    EntitySlots { map: slotmap::SlotMap::new() }
}

/// Calls `SlotMap::insert` and returns the bits of the new key: a key that the map did not
/// hold, with an odd version and an index below `u32::MAX`, now holding `value`. The map
/// panics when it holds `u32::MAX - 1` values in all of its slots, which the bound on the
/// number of values rules out.
#[verifier::external_body]
fn node_slots_insert(m: &mut NodeSlots, value: LayoutNode) -> (k: u64)
    requires
        node_slots(*old(m)).dom().finite(),
        node_slots(*old(m)).dom().len() + 2 < u32::MAX,
    ensures
        !node_slots(*old(m)).contains_key(k),
        slot_key(k) == k,
        k != NodeId::NULL_BITS,
        node_slots(*final(m)) == node_slots(*old(m)).insert(k, value),
{
    slotmap::Key::data(&m.map.insert(value)).as_ffi()
}

/// Calls `SlotMap::insert` and returns the bits of the new key: a key that the map did not
/// hold, now holding `value`.
#[verifier::external_body]
fn entity_slots_insert(m: &mut EntitySlots, value: Entity) -> (k: u64)
    requires
        entity_slots(*old(m)).dom().finite(),
        entity_slots(*old(m)).dom().len() + 2 < u32::MAX,
    ensures
        !entity_slots(*old(m)).contains_key(k),
        slot_key(k) == k,
        entity_slots(*final(m)) == entity_slots(*old(m)).insert(k, value),
{
    slotmap::Key::data(&m.map.insert(value)).as_ffi()
}

/// Calls `SlotMap::remove` with the key of the bits `k`: the value it held, if any, which
/// the map no longer holds.
#[verifier::external_body]
fn node_slots_remove(m: &mut NodeSlots, k: u64) -> (r: Option<LayoutNode>)
    ensures
        node_slots(*final(m)) == node_slots(*old(m)).remove(slot_key(k)),
        r.is_some() == node_slots(*old(m)).contains_key(slot_key(k)),
{
    m.map.remove(slotmap::DefaultKey::from(slotmap::KeyData::from_ffi(k)))
}

/// Calls `SlotMap::get` with the key of the bits `k`: the value it holds, if any.
#[verifier::external_body]
fn node_slots_get(m: &NodeSlots, k: u64) -> (r: Option<&LayoutNode>)
    ensures
        match r {
            Some(v) => node_slots(*m).contains_key(slot_key(k)) && *v == node_slots(*m)[slot_key(k)],
            None => !node_slots(*m).contains_key(slot_key(k)),
        },
{
    m.map.get(slotmap::DefaultKey::from(slotmap::KeyData::from_ffi(k)))
}

/// Calls `IndexMut::index_mut` with the key of the bits `k`, which the map holds (it panics
/// otherwise): the value, which the map holds as it is when the borrow ends.
#[verifier::external_body]
fn node_slots_index_mut(m: &mut NodeSlots, k: u64) -> (r: &mut LayoutNode)
    requires
        node_slots(*old(m)).contains_key(slot_key(k)),
    ensures
        *r == node_slots(*old(m))[slot_key(k)],
        node_slots(*final(m)) == node_slots(*old(m)).insert(slot_key(k), *final(r)),
{
    &mut m.map[slotmap::DefaultKey::from(slotmap::KeyData::from_ffi(k))]
}

/// The parent links of the nodes of `nodes`.
pub open spec fn links_of(nodes: Map<u64, LayoutNode>) -> Map<u64, Option<NodeId>> {
    nodes.map_values(|n: LayoutNode| n.parent)
}

/// `new` is `old` with the measuring flag of `x` set to `flag`, and `x` and its ancestors
/// marked dirty.
pub open spec fn measure_set(old: Map<u64, LayoutNode>, new: Map<u64, LayoutNode>, x: u64, flag: bool) -> bool {
    &&& new.dom() == old.dom()
    &&& forall|k: u64| #[trigger] new.contains_key(k) ==> {
        &&& new[k].children == old[k].children
        &&& new[k].parent == old[k].parent
        &&& if on_chain(links_of(old), x, k) {
            &&& cache_is_empty(new[k].data)
            &&& new[k].data.needs_measure == if k == x { flag } else { old[k].data.needs_measure }
        } else {
            new[k].data == old[k].data
        }
    }
}

/// Following parent links `i` times from `x`: the node reached, or `None` where a node on the
/// way has no parent or is not in `links`.
pub open spec fn ancestor(links: Map<u64, Option<NodeId>>, x: u64, i: nat) -> Option<u64>
    decreases i,
{
    if i == 0 {
        Some(x)
    } else {
        match ancestor(links, x, (i - 1) as nat) {
            Some(a) => if links.contains_key(a) {
                match links[a] {
                    Some(p) => Some(slot_key(p.0)),
                    None => None,
                }
            } else {
                None
            },
            None => None,
        }
    }
}

/// `k` is `x` or one of its ancestors.
pub open spec fn on_chain(links: Map<u64, Option<NodeId>>, x: u64, k: u64) -> bool {
    exists|i: nat| ancestor(links, x, i) == Some(k)
}

/// The parent links from `x` lead, through nodes of `links` only, to a node without a parent.
pub open spec fn chain_ends(links: Map<u64, Option<NodeId>>, x: u64) -> bool {
    &&& forall|i: nat| #[trigger] ancestor(links, x, i) matches Some(a) ==> links.contains_key(a)
    &&& exists|n: nat| #[trigger] ancestor(links, x, n) is None
}

/// `new` is `old` with `x` and its ancestors marked dirty, and nothing else changed.
pub open spec fn dirtied_from(old: Map<u64, LayoutNode>, new: Map<u64, LayoutNode>, x: u64) -> bool {
    &&& new.dom() == old.dom()
    &&& forall|k: u64| #[trigger] new.contains_key(k) ==> {
        &&& new[k].children == old[k].children
        &&& new[k].parent == old[k].parent
        &&& if on_chain(links_of(old), x, k) {
            dirtied(old[k].data, new[k].data)
        } else {
            new[k].data == old[k].data
        }
    }
}

/// Once the chain of ancestors has ended, it stays ended.
pub(crate) proof fn lemma_ancestor_ended(links: Map<u64, Option<NodeId>>, x: u64, i: nat, j: nat)
    requires
        i <= j,
        ancestor(links, x, i) is None,
    ensures
        ancestor(links, x, j) is None,
    decreases j - i,
{
    if i < j {
        lemma_ancestor_ended(links, x, i, (j - 1) as nat);
    }
}

/// One step up from `x` is its parent: the chain from `x` after its first step is the chain
/// from its parent.
pub proof fn lemma_ancestor_shift(links: Map<u64, Option<NodeId>>, x: u64, q: NodeId, i: nat)
    requires
        links.contains_key(x),
        links[x] == Some(q),
    ensures
        ancestor(links, x, i + 1) == ancestor(links, slot_key(q.0), i),
    decreases i,
{
    if i > 0 {
        lemma_ancestor_shift(links, x, q, (i - 1) as nat);
        assert(ancestor(links, x, i) == ancestor(links, slot_key(q.0), (i - 1) as nat));
    } else {
        assert(ancestor(links, x, 0) == Some(x));
        assert(ancestor(links, x, 1) == Some(slot_key(q.0)));
    }
}

/// The chain from a node ends where the chain from its parent ends.
pub proof fn lemma_chain_from_parent(links: Map<u64, Option<NodeId>>, x: u64, q: NodeId)
    requires
        links.contains_key(x),
        links[x] == Some(q),
        chain_ends(links, slot_key(q.0)),
    ensures
        chain_ends(links, x),
{
    let p = slot_key(q.0);
    let n = choose|n: nat| #[trigger] ancestor(links, p, n) is None;
    lemma_ancestor_shift(links, x, q, n);
    assert(ancestor(links, x, n + 1) is None);
    assert forall|i: nat| (#[trigger] ancestor(links, x, i)) is Some implies links.contains_key(ancestor(links, x, i)->0) by {
        if i > 0 {
            lemma_ancestor_shift(links, x, q, (i - 1) as nat);
            assert(ancestor(links, p, (i - 1) as nat) == ancestor(links, x, i));
        }
    }
}

/// The chain from a node's parent ends where the chain from the node ends, a step sooner.
pub proof fn lemma_chain_to_parent(links: Map<u64, Option<NodeId>>, x: u64, q: NodeId, n: nat)
    requires
        links.contains_key(x),
        links[x] == Some(q),
        chain_ends(links, x),
        ancestor(links, x, n) is None,
    ensures
        n >= 1,
        ancestor(links, slot_key(q.0), (n - 1) as nat) is None,
        chain_ends(links, slot_key(q.0)),
        links.contains_key(slot_key(q.0)),
{
    let p = slot_key(q.0);
    assert(ancestor(links, x, 0) == Some(x));
    lemma_ancestor_shift(links, x, q, (n - 1) as nat);
    lemma_ancestor_shift(links, x, q, 0);
    assert(ancestor(links, x, 1) == Some(p));
    assert forall|i: nat| (#[trigger] ancestor(links, p, i)) is Some implies links.contains_key(ancestor(links, p, i)->0) by {
        lemma_ancestor_shift(links, x, q, i);
        assert(ancestor(links, x, i + 1) == ancestor(links, p, i));
    }
}

/// Every node's chain of parents ends.
pub open spec fn acyclic(links: Map<u64, Option<NodeId>>) -> bool {
    forall|k: u64| #[trigger] links.contains_key(k) ==> chain_ends(links, k)
}

/// Changing parent links keeps the chains ending where each node of `new` either has no
/// parent, keeps the parent it had in `old` (which is still a node), or gets a parent whose
/// chain ends.
pub open spec fn links_kept_ending(old: Map<u64, Option<NodeId>>, new: Map<u64, Option<NodeId>>) -> bool {
    forall|y: u64| #[trigger] new.contains_key(y) ==> {
        ||| new[y] is None
        ||| old.contains_key(y) && new[y] == old[y] && (new[y] matches Some(q) ==> new.contains_key(slot_key(q.0)))
        ||| new[y] matches Some(q) && chain_ends(new, slot_key(q.0))
    }
}

proof fn lemma_chain_kept_from(old: Map<u64, Option<NodeId>>, new: Map<u64, Option<NodeId>>, x: u64, n: nat)
    requires
        acyclic(old),
        links_kept_ending(old, new),
        new.contains_key(x),
        old.contains_key(x) ==> ancestor(old, x, n) is None,
    ensures
        chain_ends(new, x),
    decreases n,
{
    if new[x] is None {
        lemma_root_chain(new, x);
    } else if old.contains_key(x) && new[x] == old[x] && (new[x] matches Some(q) ==> new.contains_key(slot_key(q.0))) {
        let q = old[x]->0;
        assert(chain_ends(old, x));
        lemma_chain_to_parent(old, x, q, n);
        lemma_chain_kept_from(old, new, slot_key(q.0), (n - 1) as nat);
        lemma_chain_from_parent(new, x, q);
    } else {
        let q = new[x]->0;
        lemma_chain_from_parent(new, x, q);
    }
}

/// Changing parent links as [`links_kept_ending`] allows keeps every chain ending.
pub proof fn lemma_acyclic_kept(old: Map<u64, Option<NodeId>>, new: Map<u64, Option<NodeId>>)
    requires
        acyclic(old),
        links_kept_ending(old, new),
    ensures
        acyclic(new),
{
    assert forall|k: u64| #[trigger] new.contains_key(k) implies chain_ends(new, k) by {
        if old.contains_key(k) {
            assert(chain_ends(old, k));
            let n = choose|n: nat| #[trigger] ancestor(old, k, n) is None;
            lemma_chain_kept_from(old, new, k, n);
        } else {
            lemma_chain_kept_from(old, new, k, 0);
        }
    }
}

/// The parent links of `nodes` once the children of `parent` are `cs`: the nodes of `cs` have
/// the parent `parent`, the other former children of `parent` have none, and every other
/// node keeps its parent.
pub open spec fn relinked(nodes: Map<u64, LayoutNode>, parent: NodeId, cs: Seq<NodeId>) -> Map<u64, Option<NodeId>> {
    Map::new(
        |k: u64| nodes.contains_key(k),
        |k: u64|
            if cs.contains(NodeId(k)) {
                Some(parent)
            } else if nodes[parent.0].children@.contains(NodeId(k)) {
                None
            } else {
                nodes[k].parent
            },
    )
}

/// `new` is `old` with the children of `parent` set to `cs`, the links `relinked`, and
/// `parent` and its ancestors (by the new links) marked dirty.
pub open spec fn children_set(old: Map<u64, LayoutNode>, new: Map<u64, LayoutNode>, parent: NodeId, cs: Seq<NodeId>) -> bool {
    &&& new.dom() == old.dom()
    &&& links_of(new) == relinked(old, parent, cs)
    &&& forall|k: u64| #[trigger] new.contains_key(k) ==> {
        &&& new[k].children@ == if k == parent.0 { cs } else { old[k].children@ }
        &&& if on_chain(relinked(old, parent, cs), parent.0, k) {
            dirtied(old[k].data, new[k].data)
        } else {
            new[k].data == old[k].data
        }
    }
}

/// Keeps the nodes other than `x`.
pub open spec fn other_than(x: NodeId) -> spec_fn(NodeId) -> bool {
    |c: NodeId| c != x
}

/// `new` is `old` without `node`, which its parent no longer lists among its children; the
/// nodes that `node` listed as its children no longer have a parent.
pub open spec fn node_removed(old: Map<u64, LayoutNode>, new: Map<u64, LayoutNode>, node: NodeId) -> bool {
    &&& new.dom() == old.dom().remove(node.0)
    &&& forall|k: u64| #[trigger] new.contains_key(k) ==> {
        &&& new[k].data == old[k].data
        &&& new[k].parent == if old[node.0].children@.contains(NodeId(k)) {
            None
        } else {
            old[k].parent
        }
        &&& new[k].children@ == if old[node.0].parent == Some(NodeId(k)) {
            old[k].children@.filter(other_than(node))
        } else {
            old[k].children@
        }
    }
}

/// The layout nodes of the entities of `es` that have one, in order.
pub open spec fn mapped_nodes(nodes_of: Map<u64, NodeId>, es: Seq<Entity>) -> Seq<NodeId>
    decreases es.len(),
{
    if es.len() == 0 {
        Seq::empty()
    } else {
        let front = mapped_nodes(nodes_of, es.drop_last());
        if nodes_of.contains_key(es.last().0) {
            front.push(nodes_of[es.last().0])
        } else {
            front
        }
    }
}

/// What `set_children(parent, cs)` needs of `nodes`: `parent` and `cs` are in the tree, and
/// the new chain of parents from `parent` ends.
pub open spec fn can_set_children(nodes: Map<u64, LayoutNode>, parent: NodeId, cs: Seq<NodeId>) -> bool {
    &&& is_key(parent)
    &&& nodes.contains_key(parent.0)
    &&& forall|i: int| 0 <= i < cs.len() ==> is_key(#[trigger] cs[i]) && nodes.contains_key(cs[i].0)
    &&& chain_ends(relinked(nodes, parent, cs), parent.0)
}

/// Removes every `x` from `v`, keeping the order of the rest.
fn remove_all(v: &mut Vec<NodeId>, x: NodeId)
    ensures
        final(v)@ == old(v)@.filter(other_than(x)),
{
    let ghost s = v@;
    let mut kept: Vec<NodeId> = Vec::new();
    let mut i: usize = 0;
    assert(s.take(0) =~= Seq::<NodeId>::empty());
    assert(Seq::<NodeId>::empty().filter(other_than(x)) =~= Seq::<NodeId>::empty()) by {
        reveal(Seq::filter);
    }
    while i < v.len()
        invariant
            v@ == s,
            i <= s.len(),
            kept@ == s.take(i as int).filter(other_than(x)),
        decreases s.len() - i,
    {
        let c = v[i];
        proof {
            assert(s.take(i + 1) =~= s.take(i as int).push(c));
            s.take(i as int).lemma_filter_push(c, other_than(x));
        }
        if c != x {
            kept.push(c);
        }
        i = i + 1;
    }
    assert(s.take(s.len() as int) =~= s);
    *v = kept;
}

/// A node without a parent is the only node of its chain.
pub(crate) proof fn lemma_root_chain(links: Map<u64, Option<NodeId>>, x: u64)
    requires
        links.contains_key(x),
        links[x] is None,
    ensures
        chain_ends(links, x),
        forall|k: u64| on_chain(links, x, k) ==> k == x,
{
    assert(ancestor(links, x, 0) == Some(x));
    assert(ancestor(links, x, 1) is None);
    assert forall|i: nat| (#[trigger] ancestor(links, x, i)) is Some implies links.contains_key(ancestor(links, x, i)->0) by {
        if i >= 1 {
            lemma_ancestor_ended(links, x, 1, i);
        }
    }
    assert forall|k: u64| on_chain(links, x, k) implies k == x by {
        let i = choose|i: nat| ancestor(links, x, i) == Some(k);
        if i >= 1 {
            lemma_ancestor_ended(links, x, 1, i);
        }
    }
}

/// `new` is `old` with the first `i` nodes of the chain from `x` marked dirty.
spec fn dirty_prefix(old: Map<u64, LayoutNode>, new: Map<u64, LayoutNode>, x: u64, i: nat) -> bool {
    &&& new.dom() == old.dom()
    &&& forall|k: u64| #[trigger] new.contains_key(k) ==> {
        &&& new[k].children == old[k].children
        &&& new[k].parent == old[k].parent
        &&& if exists|j: nat| j < i && ancestor(links_of(old), x, j) == Some(k) {
            dirtied(old[k].data, new[k].data)
        } else {
            new[k].data == old[k].data
        }
    }
}

proof fn lemma_dirty_prefix_start(old: Map<u64, LayoutNode>, x: u64)
    ensures
        dirty_prefix(old, old, x, 0),
{
}

proof fn lemma_dirty_step(old: Map<u64, LayoutNode>, before: Map<u64, LayoutNode>, after: Map<u64, LayoutNode>, x: u64, i: nat, c: u64)
    requires
        dirty_prefix(old, before, x, i),
        ancestor(links_of(old), x, i) == Some(c),
        before.contains_key(c),
        after.dom() == before.dom(),
        forall|k: u64| #[trigger] after.contains_key(k) && k != c ==> after[k] == before[k],
        after[c].children == before[c].children,
        after[c].parent == before[c].parent,
        dirtied(before[c].data, after[c].data),
    ensures
        dirty_prefix(old, after, x, i + 1),
        links_of(after) == links_of(old),
{
    assert forall|k: u64| #[trigger] after.contains_key(k) implies {
        &&& after[k].children == old[k].children
        &&& after[k].parent == old[k].parent
        &&& if exists|j: nat| j < i + 1 && ancestor(links_of(old), x, j) == Some(k) {
            dirtied(old[k].data, after[k].data)
        } else {
            after[k].data == old[k].data
        }
    } by {
        assert(before.contains_key(k));
        if k != c {
            if exists|j: nat| j < i + 1 && ancestor(links_of(old), x, j) == Some(k) {
                let j = choose|j: nat| j < i + 1 && ancestor(links_of(old), x, j) == Some(k);
                assert(j < i);
            }
        } else {
            assert(ancestor(links_of(old), x, i) == Some(k));
        }
    }
    assert(links_of(after) =~= links_of(old));
}

proof fn lemma_dirty_prefix_done(old: Map<u64, LayoutNode>, new: Map<u64, LayoutNode>, x: u64, i: nat)
    requires
        dirty_prefix(old, new, x, i),
        ancestor(links_of(old), x, i) is None,
    ensures
        dirtied_from(old, new, x),
{
    assert forall|k: u64| #[trigger] new.contains_key(k) implies
        (on_chain(links_of(old), x, k) <==> exists|j: nat| j < i && ancestor(links_of(old), x, j) == Some(k)) by {
        if on_chain(links_of(old), x, k) {
            let j = choose|j: nat| ancestor(links_of(old), x, j) == Some(k);
            if j >= i {
                lemma_ancestor_ended(links_of(old), x, i, j);
            }
        }
    }
}

/// After the children of `parent` are set to `cs`, they are listed in that order, each has
/// `parent` as its parent, and each former child that is not among them has no parent.
pub proof fn lemma_set_children_links(old: Map<u64, LayoutNode>, new: Map<u64, LayoutNode>, parent: NodeId, cs: Seq<NodeId>)
    requires
        children_set(old, new, parent, cs),
        old.contains_key(parent.0),
        forall|i: int| 0 <= i < cs.len() ==> old.contains_key(#[trigger] cs[i].0),
    ensures
        new[parent.0].children@ == cs,
        forall|i: int| 0 <= i < cs.len() ==> new[#[trigger] cs[i].0].parent == Some(parent),
        forall|i: int| 0 <= i < old[parent.0].children@.len() && !cs.contains(#[trigger] old[parent.0].children@[i])
            && new.contains_key(old[parent.0].children@[i].0) ==> new[old[parent.0].children@[i].0].parent is None,
{
    assert forall|i: int| 0 <= i < cs.len() implies new[#[trigger] cs[i].0].parent == Some(parent) by {
        assert(links_of(new)[cs[i].0] == relinked(old, parent, cs)[cs[i].0]);
        assert(cs.contains(NodeId(cs[i].0)));
    }
    assert forall|i: int| 0 <= i < old[parent.0].children@.len() && !cs.contains(#[trigger] old[parent.0].children@[i])
        && new.contains_key(old[parent.0].children@[i].0) implies new[old[parent.0].children@[i].0].parent is None by {
        let c = old[parent.0].children@[i];
        assert(links_of(new)[c.0] == relinked(old, parent, cs)[c.0]);
        assert(NodeId(c.0) == c);
        assert(old[parent.0].children@.contains(c));
    }
}

/// A removed node is no longer in the tree, its parent, if still in the tree, no longer
/// lists it among its children, and no node that it listed as a child keeps a parent.
pub proof fn lemma_removed_node_unlisted(old: Map<u64, LayoutNode>, new: Map<u64, LayoutNode>, node: NodeId)
    requires
        node_removed(old, new, node),
    ensures
        !new.contains_key(node.0),
        match old[node.0].parent {
            Some(p) => new.contains_key(p.0) ==> !new[p.0].children@.contains(node),
            None => true,
        },
        forall|i: int| 0 <= i < old[node.0].children@.len() && new.contains_key(#[trigger] old[node.0].children@[i].0)
            ==> new[old[node.0].children@[i].0].parent is None,
{
    if let Some(p) = old[node.0].parent {
        if new.contains_key(p.0) && new[p.0].children@.contains(node) {
            assert(NodeId(p.0) == p);
            old[p.0].children@.lemma_filter_contains_rev(other_than(node), node);
        }
    }
    assert forall|i: int| 0 <= i < old[node.0].children@.len() && new.contains_key(#[trigger] old[node.0].children@[i].0)
        implies new[old[node.0].children@[i].0].parent is None by {
        let c = old[node.0].children@[i];
        assert(NodeId(c.0) == c);
        assert(old[node.0].children@.contains(c));
    }
}

/// Marking `x` dirty marks `x`, and marks the parent of every node that it marks.
pub proof fn lemma_dirty_reaches_parents(old: Map<u64, LayoutNode>, new: Map<u64, LayoutNode>, x: u64, k: u64)
    requires
        dirtied_from(old, new, x),
        old.contains_key(x),
        old.contains_key(k),
        on_chain(links_of(old), x, k),
    ensures
        cache_is_empty(new[x].data),
        match old[k].parent {
            Some(p) => is_key(p) && old.contains_key(p.0) ==> cache_is_empty(new[p.0].data),
            None => true,
        },
{
    assert(ancestor(links_of(old), x, 0) == Some(x));
    if let Some(p) = old[k].parent {
        if is_key(p) && old.contains_key(p.0) {
            let i = choose|i: nat| ancestor(links_of(old), x, i) == Some(k);
            assert(ancestor(links_of(old), x, i + 1) == Some(p.0));
            assert(on_chain(links_of(old), x, p.0));
        }
    }
}

/// The layout tree: the nodes, the entity of each node, the node of each entity, and the
/// node of the window.
pub struct UiLayoutTree {
    pub config: crate::layout::UiLayoutConfig,
    nodes: NodeSlots,
    node_to_entity: EntitySlots,
    /// The layout node of each entity, by the entity's bits.
    entity_to_node: std::collections::HashMap<u64, NodeId>,
    window_node: NodeId,
}

impl UiLayoutTree {
    /// The nodes, by the bits of their keys.
    pub closed spec fn nodes(&self) -> Map<u64, LayoutNode> {
        node_slots(self.nodes)
    }

    /// The entity recorded for each node key.
    pub closed spec fn entities(&self) -> Map<u64, Entity> {
        entity_slots(self.node_to_entity)
    }

    /// The node of the window.
    pub closed spec fn window(&self) -> NodeId {
        self.window_node
    }

    /// The layout node of each entity, by the entity's bits.
    pub closed spec fn entity_nodes(&self) -> Map<u64, NodeId> {
        self.entity_to_node@
    }

    /// Whether layouts are rounded to whole pixels.
    pub closed spec fn rounds(&self) -> bool {
        self.config.use_rounding
    }

    /// The parent links of the nodes.
    pub open spec fn links(&self) -> Map<u64, Option<NodeId>> {
        links_of(self.nodes())
    }

    /// The maps are finite, and every node, child, parent and the window are named by key bits.
    pub open spec fn wf(&self) -> bool {
        &&& self.nodes().dom().finite()
        &&& self.entities().dom().finite()
        &&& is_key(self.window())
        &&& forall|k: u64| #[trigger] self.nodes().contains_key(k) ==> {
            &&& slot_key(k) == k
            &&& forall|i: int| 0 <= i < self.nodes()[k].children@.len() ==> is_key(#[trigger] self.nodes()[k].children@[i])
            &&& self.nodes()[k].parent matches Some(p) ==> is_key(p)
        }
    }

    /// An empty tree whose window has no node yet.
    pub fn new() -> (r: Self)
        ensures
            r.wf(),
            r.nodes().dom() == Set::<u64>::empty(),
            r.entities().dom() == Set::<u64>::empty(),
            r.entity_nodes() == Map::<u64, NodeId>::empty(),
            r.window().0 == NodeId::NULL_BITS,
            r.rounds(),
    {
        let r = UiLayoutTree {
            config: crate::layout::UiLayoutConfig { use_rounding: true },
            nodes: node_slots_new(),
            node_to_entity: entity_slots_new(),
            entity_to_node: std::collections::HashMap::new(),
            window_node: NodeId::null(),
        };
        assert(0x1_ffff_ffffu64 | 0x1_0000_0000u64 == 0x1_ffff_ffffu64) by (bit_vector);
        r
    }

    /// The layout node of `entity`, if it has one.
    pub fn entity_node(&self, entity: Entity) -> (r: Option<NodeId>)
        ensures
            r == (if self.entity_nodes().contains_key(entity.0) { Some(self.entity_nodes()[entity.0]) } else { None }),
    {
        broadcast use vstd::std_specs::hash::group_hash_axioms;
        match self.entity_to_node.get(&entity.0) {
            Some(n) => Some(*n),
            None => None,
        }
    }

    /// Records `node` as the layout node of `entity`.
    pub fn set_entity_node(&mut self, entity: Entity, node: NodeId)
        ensures
            final(self).entity_nodes() == old(self).entity_nodes().insert(entity.0, node),
            final(self).nodes() == old(self).nodes(),
            final(self).entities() == old(self).entities(),
            final(self).window() == old(self).window(),
            final(self).rounds() == old(self).rounds(),
            old(self).wf() ==> final(self).wf(),
    {
        broadcast use vstd::std_specs::hash::group_hash_axioms;
        self.entity_to_node.insert(entity.0, node);
    }

    /// Forgets the layout node of `entity` and returns it, if it had one.
    pub fn remove_entity_node(&mut self, entity: Entity) -> (r: Option<NodeId>)
        ensures
            r == (if old(self).entity_nodes().contains_key(entity.0) { Some(old(self).entity_nodes()[entity.0]) } else { None }),
            final(self).entity_nodes() == old(self).entity_nodes().remove(entity.0),
            final(self).nodes() == old(self).nodes(),
            final(self).entities() == old(self).entities(),
            final(self).window() == old(self).window(),
            final(self).rounds() == old(self).rounds(),
            old(self).wf() ==> final(self).wf(),
    {
        broadcast use vstd::std_specs::hash::group_hash_axioms;
        self.entity_to_node.remove(&entity.0)
    }

    /// The children of `node`, in order.
    pub fn children(&self, node: NodeId) -> (r: &Vec<NodeId>)
        requires
            self.nodes().contains_key(slot_key(node.0)),
        ensures
            r@ == self.nodes()[slot_key(node.0)].children@,
    {
        &node_slots_get(&self.nodes, node.0).unwrap().children
    }

    /// The number of children of `node`.
    pub fn child_count(&self, node: NodeId) -> (r: usize)
        requires
            self.nodes().contains_key(slot_key(node.0)),
        ensures
            r == self.nodes()[slot_key(node.0)].children@.len(),
    {
        self.children(node).len()
    }

    /// Whether `node` has no children.
    pub fn is_childless(&self, node: NodeId) -> (r: bool)
        requires
            self.nodes().contains_key(slot_key(node.0)),
        ensures
            r == (self.nodes()[slot_key(node.0)].children@.len() == 0),
    {
        self.children(node).len() == 0
    }

    /// The child of `node` at `index`.
    pub fn child(&self, node: NodeId, index: usize) -> (r: NodeId)
        requires
            self.nodes().contains_key(slot_key(node.0)),
            index < self.nodes()[slot_key(node.0)].children@.len(),
        ensures
            r == self.nodes()[slot_key(node.0)].children@[index as int],
    {
        self.children(node)[index]
    }

    /// The parent of `node`; `None` for a node without a parent or not in the tree.
    pub fn parent(&self, node: NodeId) -> (r: Option<NodeId>)
        ensures
            r == (if self.nodes().contains_key(slot_key(node.0)) {
                self.nodes()[slot_key(node.0)].parent
            } else {
                None
            }),
    {
        match node_slots_get(&self.nodes, node.0) {
            Some(n) => n.parent,
            None => None,
        }
    }

    /// Whether `node` must be measured.
    pub fn needs_measure(&self, node: NodeId) -> (r: bool)
        requires
            self.nodes().contains_key(slot_key(node.0)),
        ensures
            r == self.nodes()[slot_key(node.0)].data.needs_measure,
    {
        node_slots_get(&self.nodes, node.0).unwrap().data.needs_measure
    }

    /// The cache slot `index` of `node`: whether it holds a computed size. The layout
    /// algorithm fills it; marking the node dirty empties it.
    pub fn cache_mut(&mut self, node: NodeId, index: usize) -> (r: &mut bool)
        requires
            old(self).wf(),
            old(self).nodes().contains_key(slot_key(node.0)),
            index < CACHE_SIZE,
        ensures
            *r == old(self).nodes()[slot_key(node.0)].data.size_cache@[index as int],
            final(self).nodes().dom() == old(self).nodes().dom(),
            final(self).nodes()[slot_key(node.0)].data.size_cache@ == old(self).nodes()[slot_key(node.0)].data.size_cache@.update(index as int, *final(r)),
            final(self).nodes()[slot_key(node.0)].data.needs_measure == old(self).nodes()[slot_key(node.0)].data.needs_measure,
            final(self).nodes()[slot_key(node.0)].children == old(self).nodes()[slot_key(node.0)].children,
            final(self).nodes()[slot_key(node.0)].parent == old(self).nodes()[slot_key(node.0)].parent,
            forall|k: u64| k != slot_key(node.0) ==> final(self).nodes().contains_key(k) ==> final(self).nodes()[k] == old(self).nodes()[k],
            final(self).wf(),
            final(self).entities() == old(self).entities(),
            final(self).entity_nodes() == old(self).entity_nodes(),
            final(self).window() == old(self).window(),
            final(self).rounds() == old(self).rounds(),
    {
        let entry = node_slots_index_mut(&mut self.nodes, node.0);
        &mut entry.data.size_cache[index]
    }

    /// Marks `node` and its ancestors dirty. The chain of parents from `node` must end: on a
    /// cycle the walk would not return.
    #[verifier::rlimit(40)]
    #[verifier::spinoff_prover]
    fn mark_dirty_internal(&mut self, node: NodeId)
        requires
            old(self).wf(),
            is_key(node),
            chain_ends(old(self).links(), node.0),
        ensures
            final(self).wf(),
            dirtied_from(old(self).nodes(), final(self).nodes(), node.0),
            final(self).entities() == old(self).entities(),
            final(self).entity_nodes() == old(self).entity_nodes(),
            final(self).window() == old(self).window(),
            final(self).rounds() == old(self).rounds(),
    {
        let ghost links = old(self).links();
        let ghost old_nodes = old(self).nodes();
        let ghost n: nat = choose|n: nat| #[trigger] ancestor(links, node.0, n) is None;
        assert(ancestor(links, node.0, 0) == Some(node.0));
        proof {
            if n == 0 {
                assert(false);
            }
            lemma_dirty_prefix_start(old_nodes, node.0);
        }
        let mut next: Option<NodeId> = Some(node);
        let ghost mut i: nat = 0;
        while next.is_some()
            invariant
                self.wf(),
                chain_ends(links, node.0),
                ancestor(links, node.0, n) is None,
                i <= n,
                match next {
                    Some(c) => is_key(c) && i < n && ancestor(links, node.0, i) == Some(c.0),
                    None => ancestor(links, node.0, i) is None,
                },
                links == links_of(old_nodes),
                dirty_prefix(old_nodes, self.nodes(), node.0, i),
                self.entities() == old(self).entities(),
                self.entity_nodes() == old(self).entity_nodes(),
                self.window() == old(self).window(),
                self.rounds() == old(self).rounds(),
            decreases n - i,
        {
            let c = next.unwrap();
            assert(links.contains_key(c.0));
            let ghost before = self.nodes();
            let entry = node_slots_index_mut(&mut self.nodes, c.0);
            entry.data.mark_dirty();
            next = entry.parent;
            proof {
                assert(self.nodes().dom() =~= before.dom());
                lemma_dirty_step(old_nodes, before, self.nodes(), node.0, i, c.0);
                assert(ancestor(links, node.0, i + 1) == match next {
                    Some(p) => Some(p.0),
                    None => None::<u64>,
                });
                if next is Some && i + 1 >= n {
                    lemma_ancestor_ended(links, node.0, n, i + 1);
                }
                i = i + 1;
            }
        }
        proof {
            lemma_dirty_prefix_done(old_nodes, self.nodes(), node.0, i);
        }
    }

    /// Sets whether `node` must be measured, and marks it and its ancestors dirty.
    pub fn set_needs_measure(&mut self, node: NodeId, flag: bool)
        requires
            old(self).wf(),
            is_key(node),
            old(self).nodes().contains_key(node.0),
            chain_ends(old(self).links(), node.0),
        ensures
            final(self).wf(),
            measure_set(old(self).nodes(), final(self).nodes(), node.0, flag),
            final(self).entities() == old(self).entities(),
            final(self).entity_nodes() == old(self).entity_nodes(),
            final(self).window() == old(self).window(),
            final(self).rounds() == old(self).rounds(),
    {
        let ghost o = self.nodes();
        let entry = node_slots_index_mut(&mut self.nodes, node.0);
        entry.data.needs_measure = flag;
        let ghost mid = self.nodes();
        proof {
            assert(mid.dom() =~= o.dom());
            assert(links_of(mid) =~= links_of(o));
        }
        self.mark_dirty_internal(node);
        proof {
            let n = self.nodes();
            assert(ancestor(links_of(o), node.0, 0) == Some(node.0));
            assert forall|k: u64| #[trigger] n.contains_key(k) implies {
                &&& n[k].children == o[k].children
                &&& n[k].parent == o[k].parent
                &&& if on_chain(links_of(o), node.0, k) {
                    &&& cache_is_empty(n[k].data)
                    &&& n[k].data.needs_measure == if k == node.0 { flag } else { o[k].data.needs_measure }
                } else {
                    n[k].data == o[k].data
                }
            } by {
                assert(mid.contains_key(k));
            }
        }
    }

    /// Marks `node` and its ancestors dirty, so that their sizes are computed again.
    pub fn mark_dirty(&mut self, node: NodeId) -> (r: Result<(), TaffyError>)
        requires
            old(self).wf(),
            is_key(node),
            chain_ends(old(self).links(), node.0),
        ensures
            r is Ok,
            final(self).wf(),
            dirtied_from(old(self).nodes(), final(self).nodes(), node.0),
            final(self).entities() == old(self).entities(),
            final(self).entity_nodes() == old(self).entity_nodes(),
            final(self).window() == old(self).window(),
            final(self).rounds() == old(self).rounds(),
    {
        self.mark_dirty_internal(node);
        Ok(())
    }

    /// Makes `children` the children of `parent`, in order: the former children of `parent`
    /// lose their parent, then each of `children` gets `parent`, and `parent` and its
    /// ancestors are marked dirty. The former children of a new child's former parent are
    /// left as they are.
    pub fn set_children(&mut self, parent: NodeId, children: &[NodeId]) -> (r: Result<(), TaffyError>)
        requires
            old(self).wf(),
            is_key(parent),
            old(self).nodes().contains_key(parent.0),
            forall|i: int| 0 <= i < children@.len()
                ==> is_key(#[trigger] children@[i]) && old(self).nodes().contains_key(children@[i].0),
            chain_ends(relinked(old(self).nodes(), parent, children@), parent.0),
        ensures
            r is Ok,
            final(self).wf(),
            children_set(old(self).nodes(), final(self).nodes(), parent, children@),
            final(self).entities() == old(self).entities(),
            final(self).entity_nodes() == old(self).entity_nodes(),
            final(self).window() == old(self).window(),
            final(self).rounds() == old(self).rounds(),
    {
        let ghost old_nodes = self.nodes();
        let ghost old_children = old_nodes[parent.0].children@;
        let old_count = self.child_count(parent);
        let mut i: usize = 0;
        while i < old_count
            invariant
                self.wf(),
                is_key(parent),
                old_nodes.contains_key(parent.0),
                old_children == old_nodes[parent.0].children@,
                old_count == old_children.len(),
                i <= old_count,
                forall|j: int| 0 <= j < old_children.len() ==> is_key(#[trigger] old_children[j]),
                self.nodes().dom() == old_nodes.dom(),
                forall|k: u64| #[trigger] self.nodes().contains_key(k) ==> {
                    &&& self.nodes()[k].children@ == old_nodes[k].children@
                    &&& self.nodes()[k].data == old_nodes[k].data
                    &&& self.nodes()[k].parent == if exists|j: int| 0 <= j < i && old_children[j] == NodeId(k) {
                        None
                    } else {
                        old_nodes[k].parent
                    }
                },
                self.entities() == old(self).entities(),
                self.entity_nodes() == old(self).entity_nodes(),
                self.window() == old(self).window(),
                self.rounds() == old(self).rounds(),
            decreases old_count - i,
        {
            let c = self.child(parent, i);
            assert(c == old_children[i as int]);
            assert(is_key(c));
            if node_slots_get(&self.nodes, c.0).is_none() {
                proof {
                    assert forall|k: u64| #[trigger] self.nodes().contains_key(k) implies
                        self.nodes()[k].parent == if exists|j: int| 0 <= j < i + 1 && old_children[j] == NodeId(k) {
                            None
                        } else {
                            old_nodes[k].parent
                        } by {
                        if exists|j: int| 0 <= j < i + 1 && old_children[j] == NodeId(k) {
                            let j = choose|j: int| 0 <= j < i + 1 && old_children[j] == NodeId(k);
                            if j == i {
                                assert(c == NodeId(k));
                                assert(slot_key(c.0) == k);
                            }
                        }
                    }
                }
                i = i + 1;
                continue;
            }
            let ghost before = self.nodes();
            let entry = node_slots_index_mut(&mut self.nodes, c.0);
            entry.parent = None;
            proof {
                assert(self.nodes().dom() =~= before.dom());
                assert forall|k: u64| #[trigger] self.nodes().contains_key(k) implies {
                    &&& self.nodes()[k].children@ == old_nodes[k].children@
                    &&& self.nodes()[k].data == old_nodes[k].data
                    &&& self.nodes()[k].parent == if exists|j: int| 0 <= j < i + 1 && old_children[j] == NodeId(k) {
                        None
                    } else {
                        old_nodes[k].parent
                    }
                } by {
                    if k == slot_key(c.0) {
                        assert(old_children[i as int] == NodeId(k));
                    } else if exists|j: int| 0 <= j < i + 1 && old_children[j] == NodeId(k) {
                        let j = choose|j: int| 0 <= j < i + 1 && old_children[j] == NodeId(k);
                        assert(j < i);
                    }
                }
            }
            i = i + 1;
        }
        let mut j: usize = 0;
        while j < children.len()
            invariant
                self.wf(),
                is_key(parent),
                old_nodes.contains_key(parent.0),
                old_children == old_nodes[parent.0].children@,
                i == old_children.len(),
                j <= children@.len(),
                forall|m: int| 0 <= m < children@.len()
                    ==> is_key(#[trigger] children@[m]) && old_nodes.contains_key(children@[m].0),
                self.nodes().dom() == old_nodes.dom(),
                forall|k: u64| #[trigger] self.nodes().contains_key(k) ==> {
                    &&& self.nodes()[k].children@ == old_nodes[k].children@
                    &&& self.nodes()[k].data == old_nodes[k].data
                    &&& self.nodes()[k].parent == if exists|m: int| 0 <= m < j && children@[m] == NodeId(k) {
                        Some(parent)
                    } else if exists|m: int| 0 <= m < i && old_children[m] == NodeId(k) {
                        None
                    } else {
                        old_nodes[k].parent
                    }
                },
                self.entities() == old(self).entities(),
                self.entity_nodes() == old(self).entity_nodes(),
                self.window() == old(self).window(),
                self.rounds() == old(self).rounds(),
            decreases children@.len() - j,
        {
            let c = children[j];
            let ghost before = self.nodes();
            let entry = node_slots_index_mut(&mut self.nodes, c.0);
            entry.parent = Some(parent);
            proof {
                assert(self.nodes().dom() =~= before.dom());
                assert forall|k: u64| #[trigger] self.nodes().contains_key(k) implies {
                    &&& self.nodes()[k].children@ == old_nodes[k].children@
                    &&& self.nodes()[k].data == old_nodes[k].data
                    &&& self.nodes()[k].parent == if exists|m: int| 0 <= m < j + 1 && children@[m] == NodeId(k) {
                        Some(parent)
                    } else if exists|m: int| 0 <= m < i && old_children[m] == NodeId(k) {
                        None
                    } else {
                        old_nodes[k].parent
                    }
                } by {
                    if k == c.0 {
                        assert(children@[j as int] == NodeId(k));
                    } else if exists|m: int| 0 <= m < j + 1 && children@[m] == NodeId(k) {
                        let m = choose|m: int| 0 <= m < j + 1 && children@[m] == NodeId(k);
                        assert(m < j);
                    }
                }
            }
            j = j + 1;
        }
        let mut list: Vec<NodeId> = Vec::new();
        let mut m: usize = 0;
        while m < children.len()
            invariant
                m <= children@.len(),
                list@ == children@.take(m as int),
            decreases children@.len() - m,
        {
            list.push(children[m]);
            m = m + 1;
            assert(list@ =~= children@.take(m as int));
        }
        assert(list@ =~= children@);
        let ghost before = self.nodes();
        let entry = node_slots_index_mut(&mut self.nodes, parent.0);
        entry.children = list;
        proof {
            assert(self.nodes().dom() =~= before.dom());
            let rl = relinked(old_nodes, parent, children@);
            assert forall|k: u64| #[trigger] self.nodes().contains_key(k) implies self.links()[k] == rl[k] by {
                assert(before.contains_key(k));
                assert(self.nodes()[k].parent == before[k].parent);
                assert(self.links()[k] == self.nodes()[k].parent);
                assert(rl.contains_key(k));
                if children@.contains(NodeId(k)) {
                    let m = choose|m: int| 0 <= m < children@.len() && children@[m] == NodeId(k);
                    assert(0 <= m < j);
                } else if old_children.contains(NodeId(k)) {
                    let m = choose|m: int| 0 <= m < old_children.len() && old_children[m] == NodeId(k);
                    assert(0 <= m < i);
                }
            }
            assert(self.links() =~= rl);
        }
        let ghost mid = self.nodes();
        self.mark_dirty_internal(parent);
        proof {
            let rl = relinked(old_nodes, parent, children@);
            assert(links_of(self.nodes()) =~= rl);
            assert forall|k: u64| #[trigger] self.nodes().contains_key(k) implies {
                &&& self.nodes()[k].children@ == if k == parent.0 { children@ } else { old_nodes[k].children@ }
                &&& if on_chain(rl, parent.0, k) {
                    dirtied(old_nodes[k].data, self.nodes()[k].data)
                } else {
                    self.nodes()[k].data == old_nodes[k].data
                }
            } by {
                assert(mid.contains_key(k));
            }
        }
        Ok(())
    }

    /// Removes `node` from the tree and from the children of its parent, and drops it: the
    /// nodes it listed as its children no longer have a parent. Returns `node`.
    pub fn remove(&mut self, node: NodeId) -> (r: Result<NodeId, TaffyError>)
        requires
            old(self).wf(),
            old(self).nodes().contains_key(node.0),
        ensures
            r == Ok::<NodeId, TaffyError>(node),
            final(self).wf(),
            node_removed(old(self).nodes(), final(self).nodes(), node),
            final(self).entities() == old(self).entities(),
            final(self).entity_nodes() == old(self).entity_nodes(),
            final(self).window() == old(self).window(),
            final(self).rounds() == old(self).rounds(),
    {
        let ghost old_nodes = self.nodes();
        let kids_src = &node_slots_get(&self.nodes, node.0).unwrap().children;
        let mut kids: Vec<NodeId> = Vec::new();
        let mut m: usize = 0;
        while m < kids_src.len()
            invariant
                m <= kids_src@.len(),
                kids@ == kids_src@.take(m as int),
            decreases kids_src@.len() - m,
        {
            kids.push(kids_src[m]);
            m = m + 1;
            assert(kids@ =~= kids_src@.take(m as int));
        }
        assert(kids@ =~= old_nodes[node.0].children@);
        let parent = node_slots_get(&self.nodes, node.0).unwrap().parent;
        if let Some(p) = parent {
            if node_slots_get(&self.nodes, p.0).is_some() {
                let entry = node_slots_index_mut(&mut self.nodes, p.0);
                remove_all(&mut entry.children, node);
            }
        }
        let ghost mid = self.nodes();
        proof {
            assert forall|k: u64| #[trigger] mid.contains_key(k) implies {
                &&& mid[k].data == old_nodes[k].data
                &&& mid[k].parent == old_nodes[k].parent
                &&& mid[k].children@ == if old_nodes[node.0].parent == Some(NodeId(k)) {
                    old_nodes[k].children@.filter(other_than(node))
                } else {
                    old_nodes[k].children@
                }
            } by {
                if let Some(p) = parent {
                    if k == p.0 {
                        assert(slot_key(p.0) == p.0);
                    }
                }
            }
            assert forall|k: u64| #[trigger] mid.contains_key(k) implies
                forall|i: int| 0 <= i < mid[k].children@.len() ==> is_key(#[trigger] mid[k].children@[i]) by {
                if old_nodes[node.0].parent == Some(NodeId(k)) {
                    assert forall|i: int| 0 <= i < mid[k].children@.len() implies is_key(#[trigger] mid[k].children@[i]) by {
                        old_nodes[k].children@.lemma_filter_contains_rev(other_than(node), mid[k].children@[i]);
                        assert(mid[k].children@.contains(mid[k].children@[i]));
                    }
                }
            }
        }
        let mut j: usize = 0;
        while j < kids.len()
            invariant
                j <= kids@.len(),
                kids@ == old_nodes[node.0].children@,
                forall|i: int| 0 <= i < kids@.len() ==> is_key(#[trigger] kids@[i]),
                self.wf(),
                self.nodes().dom() == mid.dom(),
                forall|k: u64| #[trigger] self.nodes().contains_key(k) ==> {
                    &&& self.nodes()[k].data == mid[k].data
                    &&& self.nodes()[k].children == mid[k].children
                    &&& self.nodes()[k].parent == if exists|m: int| 0 <= m < j && kids@[m] == NodeId(k) {
                        None
                    } else {
                        mid[k].parent
                    }
                },
                self.entities() == old(self).entities(),
                self.entity_nodes() == old(self).entity_nodes(),
                self.window() == old(self).window(),
                self.rounds() == old(self).rounds(),
            decreases kids@.len() - j,
        {
            let c = kids[j];
            if node_slots_get(&self.nodes, c.0).is_some() {
                let ghost before = self.nodes();
                let entry = node_slots_index_mut(&mut self.nodes, c.0);
                entry.parent = None;
                proof {
                    assert(self.nodes().dom() =~= before.dom());
                    assert forall|k: u64| #[trigger] self.nodes().contains_key(k) implies {
                        &&& self.nodes()[k].data == mid[k].data
                        &&& self.nodes()[k].children == mid[k].children
                        &&& self.nodes()[k].parent == if exists|m: int| 0 <= m < j + 1 && kids@[m] == NodeId(k) {
                            None
                        } else {
                            mid[k].parent
                        }
                    } by {
                        if k == slot_key(c.0) {
                            assert(is_key(kids@[j as int]));
                            assert(kids@[j as int] == NodeId(k));
                        } else if exists|m: int| 0 <= m < j + 1 && kids@[m] == NodeId(k) {
                            let m = choose|m: int| 0 <= m < j + 1 && kids@[m] == NodeId(k);
                            if m == j {
                                assert(NodeId(k) == c);
                                assert(slot_key(c.0) == k);
                            }
                        }
                    }
                }
            } else {
                proof {
                    assert forall|k: u64| #[trigger] self.nodes().contains_key(k) implies
                        self.nodes()[k].parent == if exists|m: int| 0 <= m < j + 1 && kids@[m] == NodeId(k) {
                            None
                        } else {
                            mid[k].parent
                        } by {
                        if exists|m: int| 0 <= m < j + 1 && kids@[m] == NodeId(k) {
                            let m = choose|m: int| 0 <= m < j + 1 && kids@[m] == NodeId(k);
                            if m == j {
                                assert(NodeId(k) == c);
                                assert(slot_key(c.0) == k);
                            }
                        }
                    }
                }
            }
            j = j + 1;
        }
        let ghost before_remove = self.nodes();
        let _ = node_slots_remove(&mut self.nodes, node.0);
        proof {
            assert(slot_key(node.0) == node.0);
            assert(self.nodes().dom() =~= old_nodes.dom().remove(node.0));
            assert forall|k: u64| #[trigger] self.nodes().contains_key(k) implies {
                &&& self.nodes()[k].data == old_nodes[k].data
                &&& self.nodes()[k].parent == if old_nodes[node.0].children@.contains(NodeId(k)) {
                    None
                } else {
                    old_nodes[k].parent
                }
                &&& self.nodes()[k].children@ == if old_nodes[node.0].parent == Some(NodeId(k)) {
                    old_nodes[k].children@.filter(other_than(node))
                } else {
                    old_nodes[k].children@
                }
            } by {
                assert(before_remove.contains_key(k));
                assert(mid.contains_key(k));
            }
        }
        Ok(node)
    }

    /// Adds a new node for `entity`, without parent or children, and returns it.
    pub fn new_leaf(&mut self, entity: Entity) -> (r: Result<NodeId, TaffyError>)
        requires
            old(self).wf(),
            old(self).nodes().dom().len() + 2 < u32::MAX,
            old(self).entities().dom().len() + 2 < u32::MAX,
        ensures
            final(self).wf(),
            r matches Ok(id) && {
                &&& is_key(id)
                &&& id.0 != NodeId::NULL_BITS
                &&& !old(self).nodes().contains_key(id.0)
                &&& final(self).nodes().dom() == old(self).nodes().dom().insert(id.0)
                &&& forall|k: u64| #[trigger] old(self).nodes().contains_key(k) ==> final(self).nodes()[k] == old(self).nodes()[k]
                &&& final(self).nodes()[id.0].children@.len() == 0
                &&& final(self).nodes()[id.0].parent is None
                &&& !final(self).nodes()[id.0].data.needs_measure
                &&& cache_is_empty(final(self).nodes()[id.0].data)
            },
            exists|k: u64| !old(self).entities().contains_key(k) && final(self).entities() == old(self).entities().insert(k, entity),
            final(self).entity_nodes() == old(self).entity_nodes(),
            final(self).window() == old(self).window(),
            final(self).rounds() == old(self).rounds(),
    {
        let leaf = LayoutNode { data: UiNodeData::new(), children: Vec::new(), parent: None };
        let id = node_slots_insert(&mut self.nodes, leaf);
        let _ = entity_slots_insert(&mut self.node_to_entity, entity);
        Ok(NodeId(id))
    }

    /// Makes the nodes of the entities `children` that have one the children of `parent`, in
    /// order; the entities without a node are skipped.
    pub fn update_children(&mut self, parent: NodeId, children: &[Entity])
        requires
            old(self).wf(),
            can_set_children(old(self).nodes(), parent, mapped_nodes(old(self).entity_nodes(), children@)),
        ensures
            final(self).wf(),
            children_set(old(self).nodes(), final(self).nodes(), parent, mapped_nodes(old(self).entity_nodes(), children@)),
            final(self).entities() == old(self).entities(),
            final(self).entity_nodes() == old(self).entity_nodes(),
            final(self).window() == old(self).window(),
            final(self).rounds() == old(self).rounds(),
    {
        broadcast use vstd::std_specs::hash::group_hash_axioms;
        let ghost nodes_of = self.entity_nodes();
        let mut mapped: Vec<NodeId> = Vec::new();
        let mut i: usize = 0;
        while i < children.len()
            invariant
                nodes_of == self.entity_to_node@,
                i <= children@.len(),
                mapped@ == mapped_nodes(nodes_of, children@.take(i as int)),
            decreases children@.len() - i,
        {
            assert(children@.take(i + 1).drop_last() =~= children@.take(i as int));
            if let Some(n) = self.entity_to_node.get(&children[i].0) {
                mapped.push(*n);
            }
            i = i + 1;
        }
        assert(children@.take(children@.len() as int) =~= children@);
        self.set_children(parent, mapped.as_slice()).unwrap();
    }

    /// Removes the children of the node of `entity`, if it has one.
    pub fn try_remove_children(&mut self, entity: Entity)
        requires
            old(self).wf(),
            old(self).entity_nodes().contains_key(entity.0)
                ==> can_set_children(old(self).nodes(), old(self).entity_nodes()[entity.0], Seq::empty()),
        ensures
            final(self).wf(),
            if old(self).entity_nodes().contains_key(entity.0) {
                children_set(old(self).nodes(), final(self).nodes(), old(self).entity_nodes()[entity.0], Seq::empty())
            } else {
                final(self).nodes() == old(self).nodes()
            },
            final(self).entities() == old(self).entities(),
            final(self).entity_nodes() == old(self).entity_nodes(),
            final(self).window() == old(self).window(),
            final(self).rounds() == old(self).rounds(),
    {
        broadcast use vstd::std_specs::hash::group_hash_axioms;
        if let Some(n) = self.entity_to_node.get(&entity.0) {
            let node = *n;
            let none: Vec<NodeId> = Vec::new();
            assert(none@ =~= Seq::<NodeId>::empty());
            self.set_children(node, none.as_slice()).unwrap();
        }
    }

    /// Makes `children` the children of the window's node.
    pub fn set_window_children(&mut self, children: &[NodeId])
        requires
            old(self).wf(),
            can_set_children(old(self).nodes(), old(self).window(), children@),
        ensures
            final(self).wf(),
            children_set(old(self).nodes(), final(self).nodes(), old(self).window(), children@),
            final(self).entities() == old(self).entities(),
            final(self).entity_nodes() == old(self).entity_nodes(),
            final(self).window() == old(self).window(),
            final(self).rounds() == old(self).rounds(),
    {
        let window = self.window_node;
        self.set_children(window, children).unwrap();
    }

    /// Makes sure that the window has a node, adding one for `window_entity` where it has
    /// none, and marks the window's node and its ancestors dirty, as a new window size asks.
    pub fn update_window(&mut self, window_entity: Entity)
        requires
            old(self).wf(),
            old(self).window().0 == NodeId::NULL_BITS ==> {
                &&& old(self).nodes().dom().len() + 2 < u32::MAX
                &&& old(self).entities().dom().len() + 2 < u32::MAX
            },
            old(self).window().0 != NodeId::NULL_BITS ==> {
                &&& old(self).nodes().contains_key(old(self).window().0)
                &&& chain_ends(old(self).links(), old(self).window().0)
            },
        ensures
            final(self).wf(),
            old(self).window().0 == NodeId::NULL_BITS ==> {
                let w = final(self).window().0;
                &&& w != NodeId::NULL_BITS
                &&& !old(self).nodes().contains_key(w)
                &&& final(self).nodes().dom() == old(self).nodes().dom().insert(w)
                &&& forall|k: u64| #[trigger] old(self).nodes().contains_key(k) ==> final(self).nodes()[k] == old(self).nodes()[k]
                &&& final(self).nodes()[w].children@.len() == 0
                &&& final(self).nodes()[w].parent is None
                &&& !final(self).nodes()[w].data.needs_measure
                &&& cache_is_empty(final(self).nodes()[w].data)
                &&& exists|k: u64| !old(self).entities().contains_key(k) && final(self).entities() == old(self).entities().insert(k, window_entity)
            },
            old(self).window().0 != NodeId::NULL_BITS ==> {
                &&& final(self).window() == old(self).window()
                &&& dirtied_from(old(self).nodes(), final(self).nodes(), old(self).window().0)
                &&& final(self).entities() == old(self).entities()
            },
            final(self).entity_nodes() == old(self).entity_nodes(),
            final(self).rounds() == old(self).rounds(),
    {
        if self.window_node == NodeId::null() {
            let id = self.new_leaf(window_entity).unwrap();
            self.window_node = id;
            let ghost mid = self.nodes();
            proof {
                lemma_root_chain(self.links(), id.0);
            }
            self.mark_dirty_internal(id);
            proof {
                assert forall|k: u64| #[trigger] old(self).nodes().contains_key(k) implies self.nodes()[k] == old(self).nodes()[k] by {
                    assert(mid.contains_key(k));
                    assert(k != id.0);
                    assert(!on_chain(links_of(mid), id.0, k));
                    assert(self.nodes()[k].children == mid[k].children);
                    assert(self.nodes()[k].data == mid[k].data);
                    assert(self.nodes()[k].parent == mid[k].parent);
                }
                assert(on_chain(links_of(mid), id.0, id.0)) by {
                    assert(ancestor(links_of(mid), id.0, 0) == Some(id.0));
                }
            }
        } else {
            let window = self.window_node;
            self.mark_dirty_internal(window);
        }
    }
}

} // verus!
