//! The UI surface: the layout tree together with the node of each UI entity and the root node
//! of each UI root, kept in step as UI nodes are added, updated, attached to their root and
//! removed.
use crate::layout::{Entity, NodeId};
use crate::layout_tree::{
    acyclic, ancestor, chain_ends, children_set, dirtied_from, is_key, lemma_acyclic_kept, lemma_chain_from_parent,
    lemma_chain_to_parent, lemma_root_chain, lemma_set_children_links, links_of, mapped_nodes, measure_set,
    node_removed, other_than, relinked, slot_key, LayoutNode, UiLayoutTree,
};
use std::collections::HashMap;
use vstd::prelude::*;

verus! {

/// The layout tree of the UI, the layout node of each UI entity, and the root node of each UI
/// root, by the entities' bits.
pub struct UiSurface {
    tree: UiLayoutTree,
    root_nodes: HashMap<u64, NodeId>,
}

/// `p` is the node of no entity of `entity_nodes`.
pub open spec fn not_an_entity_node(entity_nodes: Map<u64, NodeId>, p: NodeId) -> bool {
    forall|e: u64| #[trigger] entity_nodes.contains_key(e) ==> entity_nodes[e] != p
}

/// Every node's parent is a node of the tree that lists it among its children.
pub open spec fn consistent(nodes: Map<u64, LayoutNode>) -> bool {
    forall|k: u64| #[trigger] nodes.contains_key(k) ==> match nodes[k].parent {
        Some(p) => is_key(p) && nodes.contains_key(p.0) && nodes[p.0].children@.contains(NodeId(k)),
        None => true,
    }
}

/// What the surface keeps true of `nodes`, the node of each entity and the root nodes: every
/// chain of parents ends, every parent lists its children, every entity's node and root node
/// is in the tree and named by key bits, no two entities or roots share a node, and a root
/// node is no entity's node and has no parent.
pub open spec fn surface_ok(nodes: Map<u64, LayoutNode>, entity_nodes: Map<u64, NodeId>, roots: Map<u64, NodeId>) -> bool {
    &&& acyclic(links_of(nodes))
    &&& consistent(nodes)
    &&& forall|e: u64| #[trigger] entity_nodes.contains_key(e) ==> is_key(entity_nodes[e]) && nodes.contains_key(entity_nodes[e].0)
    &&& forall|e1: u64, e2: u64| #[trigger] entity_nodes.contains_key(e1) && #[trigger] entity_nodes.contains_key(e2) && e1 != e2
        ==> entity_nodes[e1] != entity_nodes[e2]
    &&& forall|r: u64| #[trigger] roots.contains_key(r) ==> {
        &&& is_key(roots[r])
        &&& nodes.contains_key(roots[r].0)
        &&& nodes[roots[r].0].parent is None
        &&& not_an_entity_node(entity_nodes, roots[r])
    }
    &&& forall|r1: u64, r2: u64| #[trigger] roots.contains_key(r1) && #[trigger] roots.contains_key(r2) && r1 != r2
        ==> roots[r1] != roots[r2]
}

/// A new node without a parent keeps the chains ending and the parents listing their
/// children.
proof fn lemma_new_leaf_ok(o: Map<u64, LayoutNode>, n: Map<u64, LayoutNode>, id: u64)
    requires
        acyclic(links_of(o)),
        consistent(o),
        !o.contains_key(id),
        n.dom() == o.dom().insert(id),
        forall|k: u64| #[trigger] o.contains_key(k) ==> n[k] == o[k],
        n[id].parent is None,
    ensures
        acyclic(links_of(n)),
        consistent(n),
{
    let lo = links_of(o);
    let ln = links_of(n);
    assert forall|y: u64| #[trigger] ln.contains_key(y) implies {
        ||| ln[y] is None
        ||| lo.contains_key(y) && ln[y] == lo[y] && (ln[y] matches Some(q) ==> ln.contains_key(slot_key(q.0)))
        ||| ln[y] matches Some(q) && chain_ends(ln, slot_key(q.0))
    } by {
        if y != id {
            assert(o.contains_key(y));
            if let Some(q) = o[y].parent {
                assert(lo.contains_key(y));
                assert(chain_ends(lo, y));
                let m = choose|m: nat| #[trigger] ancestor(lo, y, m) is None;
                lemma_chain_to_parent(lo, y, q, m);
            }
        }
    }
    lemma_acyclic_kept(lo, ln);
    assert forall|k: u64| #[trigger] n.contains_key(k) implies match n[k].parent {
        Some(p) => is_key(p) && n.contains_key(p.0) && n[p.0].children@.contains(NodeId(k)),
        None => true,
    } by {
        if k != id {
            assert(o.contains_key(k));
            if let Some(p) = o[k].parent {
                assert(o.contains_key(p.0));
            }
        }
    }
}

/// Changing only the data of nodes keeps the chains ending and the parents listing their
/// children.
proof fn lemma_same_links_ok(o: Map<u64, LayoutNode>, n: Map<u64, LayoutNode>)
    requires
        acyclic(links_of(o)),
        consistent(o),
        n.dom() == o.dom(),
        forall|k: u64| #[trigger] n.contains_key(k) ==> n[k].parent == o[k].parent && n[k].children == o[k].children,
    ensures
        acyclic(links_of(n)),
        consistent(n),
{
    assert(links_of(n) =~= links_of(o));
}

/// Removing a node from a consistent tree keeps the chains ending and the parents listing
/// their children.
proof fn lemma_removed_ok(o: Map<u64, LayoutNode>, n: Map<u64, LayoutNode>, node: NodeId)
    requires
        acyclic(links_of(o)),
        consistent(o),
        o.contains_key(node.0),
        node_removed(o, n, node),
    ensures
        acyclic(links_of(n)),
        consistent(n),
{
    let lo = links_of(o);
    let ln = links_of(n);
    assert forall|k: u64| #[trigger] n.contains_key(k) implies match n[k].parent {
        Some(p) => is_key(p) && n.contains_key(p.0) && n[p.0].children@.contains(NodeId(k)),
        None => true,
    } by {
        assert(o.contains_key(k));
        if let Some(p) = n[k].parent {
            assert(!o[node.0].children@.contains(NodeId(k)));
            assert(o[k].parent == Some(p));
            assert(o.contains_key(p.0));
            assert(p.0 != node.0);
            assert(n.contains_key(p.0));
            if o[node.0].parent == Some(NodeId(p.0)) {
                let idx = choose|j: int| 0 <= j < o[p.0].children@.len() && o[p.0].children@[j] == NodeId(k);
                assert(NodeId(k) != node);
                o[p.0].children@.lemma_filter_contains(other_than(node), idx);
            }
        }
    }
    assert forall|y: u64| #[trigger] ln.contains_key(y) implies {
        ||| ln[y] is None
        ||| lo.contains_key(y) && ln[y] == lo[y] && (ln[y] matches Some(q) ==> ln.contains_key(slot_key(q.0)))
        ||| ln[y] matches Some(q) && chain_ends(ln, slot_key(q.0))
    } by {
        if let Some(q) = n[y].parent {
            assert(slot_key(q.0) == q.0);
        }
    }
    lemma_acyclic_kept(lo, ln);
}

/// Setting the children of `parent` to `cs`, where the new chain from `parent` ends, keeps the
/// chains ending and the parents listing their children.
proof fn lemma_set_ok(o: Map<u64, LayoutNode>, n: Map<u64, LayoutNode>, parent: NodeId, cs: Seq<NodeId>)
    requires
        acyclic(links_of(o)),
        consistent(o),
        is_key(parent),
        o.contains_key(parent.0),
        forall|i: int| 0 <= i < cs.len() ==> is_key(#[trigger] cs[i]) && o.contains_key(cs[i].0),
        chain_ends(relinked(o, parent, cs), parent.0),
        children_set(o, n, parent, cs),
    ensures
        acyclic(links_of(n)),
        consistent(n),
{
    let lo = links_of(o);
    let ln = links_of(n);
    let l = relinked(o, parent, cs);
    assert(ln =~= l);
    assert forall|k: u64| #[trigger] n.contains_key(k) implies match n[k].parent {
        Some(p) => is_key(p) && n.contains_key(p.0) && n[p.0].children@.contains(NodeId(k)),
        None => true,
    } by {
        assert(ln[k] == n[k].parent);
        if cs.contains(NodeId(k)) {
        } else if o[parent.0].children@.contains(NodeId(k)) {
        } else if let Some(p) = o[k].parent {
            assert(o.contains_key(p.0));
            assert(p.0 != parent.0);
        }
    }
    assert forall|y: u64| #[trigger] ln.contains_key(y) implies {
        ||| ln[y] is None
        ||| lo.contains_key(y) && ln[y] == lo[y] && (ln[y] matches Some(q) ==> ln.contains_key(slot_key(q.0)))
        ||| ln[y] matches Some(q) && chain_ends(ln, slot_key(q.0))
    } by {
        if cs.contains(NodeId(y)) {
            assert(slot_key(parent.0) == parent.0);
        } else if let Some(q) = n[y].parent {
            assert(o[y].parent == Some(q));
            assert(o.contains_key(q.0));
            assert(slot_key(q.0) == q.0);
        }
    }
    lemma_acyclic_kept(lo, ln);
}

/// The measuring flag of every node of `new` that was in `old` is as it was.
pub open spec fn measures_kept(old: Map<u64, LayoutNode>, new: Map<u64, LayoutNode>) -> bool {
    forall|k: u64| #[trigger] new.contains_key(k) && old.contains_key(k) ==> new[k].data.needs_measure == old[k].data.needs_measure
}

/// Every node of `new` that lists `x` among its children was in `old` and listed `x` there.
pub open spec fn lists_from(old: Map<u64, LayoutNode>, new: Map<u64, LayoutNode>) -> bool {
    forall|k: u64, x: NodeId| #[trigger] new.contains_key(k) && #[trigger] new[k].children@.contains(x)
        ==> old.contains_key(k) && old[k].children@.contains(x)
}

/// Runs of steps that only forget children do so too.
proof fn lemma_lists_from_trans(a: Map<u64, LayoutNode>, b: Map<u64, LayoutNode>, c: Map<u64, LayoutNode>)
    requires
        lists_from(a, b),
        lists_from(b, c),
    ensures
        lists_from(a, c),
{
    assert forall|k: u64, x: NodeId| #[trigger] c.contains_key(k) && #[trigger] c[k].children@.contains(x)
        implies a.contains_key(k) && a[k].children@.contains(x) by {
        assert(b.contains_key(k) && b[k].children@.contains(x));
    }
}

/// `p` is the node of a root of `roots`.
pub open spec fn is_root_node(roots: Map<u64, NodeId>, p: NodeId) -> bool {
    exists|r: u64| roots.contains_key(r) && #[trigger] roots[r] == p
}

/// Parent links between the nodes of entities go from a lower rank to a higher one: the parent
/// of an entity's node is a root node, or the node of an entity of lower rank.
pub open spec fn ranked_links(links: Map<u64, Option<NodeId>>, entity_nodes: Map<u64, NodeId>, roots: Map<u64, NodeId>, rank: spec_fn(u64) -> nat) -> bool {
    forall|e: u64| #[trigger] entity_nodes.contains_key(e) ==> match links[entity_nodes[e].0] {
        Some(p) => is_root_node(roots, p) || exists|f: u64| entity_nodes.contains_key(f) && #[trigger] entity_nodes[f] == p && rank(f) < rank(e),
        None => true,
    }
}

/// The surface's links are ranked by `rank`.
pub open spec fn ranked(nodes: Map<u64, LayoutNode>, entity_nodes: Map<u64, NodeId>, roots: Map<u64, NodeId>, rank: spec_fn(u64) -> nat) -> bool {
    ranked_links(links_of(nodes), entity_nodes, roots, rank)
}

/// Where the links are ranked, the chain of parents from an entity's node ends.
proof fn lemma_ranked_chain(
    links: Map<u64, Option<NodeId>>,
    en: Map<u64, NodeId>,
    roots: Map<u64, NodeId>,
    rank: spec_fn(u64) -> nat,
    e: u64,
    n: nat,
)
    requires
        ranked_links(links, en, roots, rank),
        forall|g: u64| #[trigger] en.contains_key(g) ==> is_key(en[g]) && links.contains_key(en[g].0),
        forall|r: u64| #[trigger] roots.contains_key(r) ==> is_key(roots[r]) && links.contains_key(roots[r].0) && links[roots[r].0] is None,
        en.contains_key(e),
        rank(e) <= n,
    ensures
        chain_ends(links, en[e].0),
    decreases n,
{
    let c = en[e].0;
    match links[c] {
        None => {
            lemma_root_chain(links, c);
        },
        Some(p) => {
            if is_root_node(roots, p) {
                let r = choose|r: u64| roots.contains_key(r) && #[trigger] roots[r] == p;
                lemma_root_chain(links, p.0);
                assert(slot_key(p.0) == p.0);
                lemma_chain_from_parent(links, c, p);
            } else {
                let f = choose|f: u64| en.contains_key(f) && #[trigger] en[f] == p && rank(f) < rank(e);
                lemma_ranked_chain(links, en, roots, rank, f, (n - 1) as nat);
                assert(slot_key(p.0) == p.0);
                lemma_chain_from_parent(links, c, p);
            }
        },
    }
}

/// A node that `mapped_nodes` lists is the node of one of the entities.
proof fn lemma_mapped_from(en: Map<u64, NodeId>, es: Seq<Entity>, x: NodeId)
    requires
        mapped_nodes(en, es).contains(x),
    ensures
        exists|j: int| 0 <= j < es.len() && en.contains_key(#[trigger] es[j].0) && en[es[j].0] == x,
    decreases es.len(),
{
    let front = mapped_nodes(en, es.drop_last());
    if front.contains(x) {
        lemma_mapped_from(en, es.drop_last(), x);
        let j = choose|j: int| 0 <= j < es.drop_last().len() && en.contains_key(#[trigger] es.drop_last()[j].0) && en[es.drop_last()[j].0] == x;
        assert(es[j] == es.drop_last()[j]);
    } else {
        let m = mapped_nodes(en, es);
        let i = choose|i: int| 0 <= i < m.len() && m[i] == x;
        assert(es.len() > 0);
        if !en.contains_key(es.last().0) {
            assert(m == front);
        } else {
            assert(m == front.push(en[es.last().0]));
            if i < front.len() {
                assert(front[i] == x);
            }
        }
    }
}

/// Every node that `mapped_nodes` lists is the node of an entity, in the tree.
proof fn lemma_mapped_live(nodes: Map<u64, LayoutNode>, en: Map<u64, NodeId>, es: Seq<Entity>)
    requires
        forall|e: u64| #[trigger] en.contains_key(e) ==> is_key(en[e]) && nodes.contains_key(en[e].0),
    ensures
        forall|i: int| 0 <= i < mapped_nodes(en, es).len() ==> is_key(#[trigger] mapped_nodes(en, es)[i]) && nodes.contains_key(mapped_nodes(en, es)[i].0),
{
    assert forall|i: int| 0 <= i < mapped_nodes(en, es).len() implies is_key(#[trigger] mapped_nodes(en, es)[i]) && nodes.contains_key(mapped_nodes(en, es)[i].0) by {
        let x = mapped_nodes(en, es)[i];
        lemma_mapped_from(en, es, x);
        let j = choose|j: int| 0 <= j < es.len() && en.contains_key(#[trigger] es[j].0) && en[es[j].0] == x;
    }
}

/// Setting a node's children keeps every measuring flag.
proof fn lemma_set_measures(o: Map<u64, LayoutNode>, n: Map<u64, LayoutNode>, p: NodeId, cs: Seq<NodeId>)
    requires
        children_set(o, n, p, cs),
    ensures
        measures_kept(o, n),
{
}

/// Setting the children of `p` to `cs` keeps the links ranked where each entity whose node is
/// among `cs` may have `p` as its parent.
proof fn lemma_set_ranked(
    o: Map<u64, LayoutNode>,
    n: Map<u64, LayoutNode>,
    p: NodeId,
    cs: Seq<NodeId>,
    en: Map<u64, NodeId>,
    roots: Map<u64, NodeId>,
    rank: spec_fn(u64) -> nat,
)
    requires
        children_set(o, n, p, cs),
        ranked(o, en, roots, rank),
        forall|g: u64| #[trigger] en.contains_key(g) ==> o.contains_key(en[g].0),
        forall|g: u64| #[trigger] en.contains_key(g) && cs.contains(en[g])
            ==> is_root_node(roots, p) || exists|f: u64| en.contains_key(f) && #[trigger] en[f] == p && rank(f) < rank(g),
    ensures
        ranked(n, en, roots, rank),
{
    let l = relinked(o, p, cs);
    assert forall|g: u64| #[trigger] en.contains_key(g) implies match links_of(n)[en[g].0] {
        Some(q) => is_root_node(roots, q) || exists|f: u64| en.contains_key(f) && #[trigger] en[f] == q && rank(f) < rank(g),
        None => true,
    } by {
        let c = en[g];
        assert(links_of(n)[c.0] == l[c.0]);
        if cs.contains(NodeId(c.0)) {
            assert(NodeId(c.0) == c);
        }
    }
}

/// Setting the children of `p` to `cs` gives ranked links where each entity whose node is
/// among `cs` may have `p` as its parent.
proof fn lemma_relinked_ranked(
    o: Map<u64, LayoutNode>,
    p: NodeId,
    cs: Seq<NodeId>,
    en: Map<u64, NodeId>,
    roots: Map<u64, NodeId>,
    rank: spec_fn(u64) -> nat,
)
    requires
        ranked(o, en, roots, rank),
        forall|g: u64| #[trigger] en.contains_key(g) ==> o.contains_key(en[g].0),
        forall|g: u64| #[trigger] en.contains_key(g) && cs.contains(en[g])
            ==> is_root_node(roots, p) || exists|f: u64| en.contains_key(f) && #[trigger] en[f] == p && rank(f) < rank(g),
    ensures
        ranked_links(relinked(o, p, cs), en, roots, rank),
{
    let l = relinked(o, p, cs);
    assert forall|g: u64| #[trigger] en.contains_key(g) implies match l[en[g].0] {
        Some(q) => is_root_node(roots, q) || exists|f: u64| en.contains_key(f) && #[trigger] en[f] == q && rank(f) < rank(g),
        None => true,
    } by {
        let c = en[g];
        assert(links_of(o)[c.0] == o[c.0].parent);
        if cs.contains(NodeId(c.0)) {
            assert(NodeId(c.0) == c);
        }
    }
}

/// The links are ranked by `rank`, and each change gives its entity's node children of
/// higher rank only.
pub open spec fn changes_ranked(
    nodes: Map<u64, LayoutNode>,
    entity_nodes: Map<u64, NodeId>,
    roots: Map<u64, NodeId>,
    changes: Seq<ChildrenChange>,
    rank: spec_fn(u64) -> nat,
) -> bool {
    &&& ranked(nodes, entity_nodes, roots, rank)
    &&& forall|m: int, k: int| 0 <= m < changes.len() && 0 <= k < changes[m].children@.len()
        ==> rank(changes[m].entity.0) < rank((#[trigger] changes[m].children@[k]).0)
}

/// The nodes of the entities `es`, in order.
pub open spec fn nodes_of(entity_nodes: Map<u64, NodeId>, es: Seq<Entity>) -> Seq<NodeId> {
    Seq::new(es.len(), |i: int| entity_nodes[es[i].0])
}

/// A UI entity whose children changed, with its new children in order.
pub struct ChildrenChange {
    pub entity: Entity,
    pub children: Vec<Entity>,
}

/// A node of a UI root's stack as the layout update sees it: its entity, whether it has a
/// style, and whether that style changed.
#[derive(PartialEq, Eq, Structural, Clone, Copy, Debug)]
pub struct StackNode {
    pub entity: Entity,
    pub has_style: bool,
    pub style_changed: bool,
}

/// A UI root as the layout update sees it: its entity, whether its layout context changed,
/// the nodes of its stack, and its stack's root nodes (the UI nodes without a parent).
pub struct LayoutRoot {
    pub entity: Entity,
    pub context_changed: bool,
    pub nodes: Vec<StackNode>,
    pub children: Vec<Entity>,
}

/// The stack node is updated in a layout pass of its root: it has a style, and its root's
/// layout context or its style changed.
pub open spec fn is_updated(root: LayoutRoot, n: StackNode) -> bool {
    n.has_style && (root.context_changed || n.style_changed)
}

/// The entity `e` is a stack node that a layout pass over `roots` updates.
pub open spec fn upserted(roots: Seq<LayoutRoot>, e: u64) -> bool {
    exists|i: int, j: int| 0 <= i < roots.len() && 0 <= j < roots[i].nodes@.len()
        && #[trigger] roots[i].nodes@[j].entity.0 == e && is_updated(roots[i], roots[i].nodes@[j])
}

/// The most nodes that a layout pass over `roots` adds: one per root and one per stack node.
pub open spec fn stack_work(roots: Seq<LayoutRoot>) -> nat
    decreases roots.len(),
{
    if roots.len() == 0 {
        0
    } else {
        stack_work(roots.drop_last()) + 1 + roots.last().nodes@.len()
    }
}

/// The work of a prefix of the roots grows with the prefix.
proof fn lemma_stack_work_prefix(roots: Seq<LayoutRoot>, i: int)
    requires
        0 <= i <= roots.len(),
    ensures
        stack_work(roots.take(i)) <= stack_work(roots),
        i > 0 ==> stack_work(roots.take(i)) == stack_work(roots.take(i - 1)) + 1 + roots[i - 1].nodes@.len(),
    decreases roots.len() - i,
{
    if i > 0 {
        assert(roots.take(i).drop_last() =~= roots.take(i - 1));
    }
    if i < roots.len() {
        lemma_stack_work_prefix(roots, i + 1);
        assert(roots.take(i + 1).drop_last() =~= roots.take(i));
    } else {
        assert(roots.take(i) =~= roots);
    }
}

/// Every root of `roots` that lists `x` among its children in `nodes` is a root of
/// `old_roots`, with the same node, that listed `x` in `old_nodes` already.
pub open spec fn root_lists_from(
    old_nodes: Map<u64, LayoutNode>,
    old_roots: Map<u64, NodeId>,
    nodes: Map<u64, LayoutNode>,
    roots: Map<u64, NodeId>,
) -> bool {
    forall|r: u64, x: NodeId| #[trigger] roots.contains_key(r) && #[trigger] nodes[roots[r].0].children@.contains(x) ==> {
        &&& old_roots.contains_key(r)
        &&& old_roots[r] == roots[r]
        &&& old_nodes[old_roots[r].0].children@.contains(x)
    }
}

impl UiSurface {
    /// The layout nodes, by the bits of their keys.
    pub closed spec fn nodes(&self) -> Map<u64, LayoutNode> {
        self.tree.nodes()
    }

    /// The layout node of each UI entity, by the entity's bits.
    pub closed spec fn entity_nodes(&self) -> Map<u64, NodeId> {
        self.tree.entity_nodes()
    }

    /// The entity recorded for each node key.
    pub closed spec fn entities(&self) -> Map<u64, crate::layout::Entity> {
        self.tree.entities()
    }

    /// The root node of each UI root, by the root entity's bits.
    pub closed spec fn roots(&self) -> Map<u64, NodeId> {
        self.root_nodes@
    }

    /// The tree is well formed and the surface's maps agree with it.
    pub closed spec fn wf(&self) -> bool {
        &&& self.tree.wf()
        &&& surface_ok(self.nodes(), self.entity_nodes(), self.roots())
    }

    /// An empty surface.
    pub fn new() -> (r: Self)
        ensures
            r.wf(),
            r.nodes().dom() == Set::<u64>::empty(),
            r.entities().dom() == Set::<u64>::empty(),
            r.entity_nodes() == Map::<u64, NodeId>::empty(),
            r.roots() == Map::<u64, NodeId>::empty(),
    {
        let r = UiSurface { tree: UiLayoutTree::new(), root_nodes: HashMap::new() };
        assert(r.roots() =~= Map::<u64, NodeId>::empty());
        r
    }

    /// The root node of the UI root `root`, if it has one.
    pub fn root_node(&self, root: Entity) -> (r: Option<NodeId>)
        ensures
            r == (if self.roots().contains_key(root.0) { Some(self.roots()[root.0]) } else { None }),
    {
        broadcast use vstd::std_specs::hash::group_hash_axioms;
        match self.root_nodes.get(&root.0) {
            Some(n) => Some(*n),
            None => None,
        }
    }

    /// The children of `node`, in order.
    pub fn children(&self, node: NodeId) -> (r: &Vec<NodeId>)
        requires
            self.nodes().contains_key(slot_key(node.0)),
        ensures
            r@ == self.nodes()[slot_key(node.0)].children@,
    {
        self.tree.children(node)
    }

    /// The parent of `node`; `None` for a node without a parent or not in the tree.
    pub fn parent(&self, node: NodeId) -> (r: Option<NodeId>)
        ensures
            r == (if self.nodes().contains_key(slot_key(node.0)) {
                self.nodes()[slot_key(node.0)].parent
            } else {
                None
            }),
    {
        self.tree.parent(node)
    }

    /// Whether `node` is measured when the layout is computed.
    pub fn needs_measure(&self, node: NodeId) -> (r: bool)
        requires
            self.nodes().contains_key(slot_key(node.0)),
        ensures
            r == self.nodes()[slot_key(node.0)].data.needs_measure,
    {
        self.tree.needs_measure(node)
    }

    /// The layout node of the UI entity `entity`, if it has one.
    pub fn entity_node(&self, entity: Entity) -> (r: Option<NodeId>)
        ensures
            r == (if self.entity_nodes().contains_key(entity.0) { Some(self.entity_nodes()[entity.0]) } else { None }),
    {
        self.tree.entity_node(entity)
    }

    /// Gives `entity` a layout node where it has none: a new node without parent or
    /// children. Where it has one, its style is updated, which marks the node and its
    /// ancestors dirty.
    pub fn upsert_node(&mut self, entity: Entity)
        requires
            old(self).wf(),
            old(self).nodes().dom().len() + 2 < u32::MAX,
            old(self).entities().dom().len() + 2 < u32::MAX,
        ensures
            final(self).wf(),
            final(self).roots() == old(self).roots(),
            final(self).entity_nodes().contains_key(entity.0),
            old(self).entity_nodes().contains_key(entity.0) ==> {
                &&& final(self).entity_nodes() == old(self).entity_nodes()
                &&& dirtied_from(old(self).nodes(), final(self).nodes(), old(self).entity_nodes()[entity.0].0)
                &&& final(self).entities() == old(self).entities()
            },
            !old(self).entity_nodes().contains_key(entity.0) ==> {
                let id = final(self).entity_nodes()[entity.0];
                &&& final(self).entity_nodes() == old(self).entity_nodes().insert(entity.0, id)
                &&& !old(self).nodes().contains_key(id.0)
                &&& final(self).nodes().dom() == old(self).nodes().dom().insert(id.0)
                &&& forall|k: u64| #[trigger] old(self).nodes().contains_key(k) ==> final(self).nodes()[k] == old(self).nodes()[k]
                &&& final(self).nodes()[id.0].parent is None
                &&& final(self).nodes()[id.0].children@.len() == 0
                &&& !final(self).nodes()[id.0].data.needs_measure
                &&& final(self).entities().dom().len() == old(self).entities().dom().len() + 1
            },
            measures_kept(old(self).nodes(), final(self).nodes()),
            lists_from(old(self).nodes(), final(self).nodes()),
            forall|rank: spec_fn(u64) -> nat| #[trigger] ranked(old(self).nodes(), old(self).entity_nodes(), old(self).roots(), rank)
                ==> ranked(final(self).nodes(), final(self).entity_nodes(), final(self).roots(), rank),
    {
        match self.tree.entity_node(entity) {
            Some(node) => {
                proof {
                    assert(links_of(self.nodes()).contains_key(node.0));
                }
                let _ = self.tree.mark_dirty(node);
                proof {
                    let o = old(self).nodes();
                    let n = self.nodes();
                    assert forall|k: u64| #[trigger] n.contains_key(k) implies n[k].parent == o[k].parent && n[k].children == o[k].children by {}
                    lemma_same_links_ok(o, n);
                    assert(links_of(n) =~= links_of(o));
                }
            },
            None => {
                let ghost old_ent = self.tree.entities();
                let id = self.tree.new_leaf(entity).unwrap();
                self.tree.set_entity_node(entity, id);
                proof {
                    let k = choose|k: u64| !old_ent.contains_key(k) && self.tree.entities() == old_ent.insert(k, entity);
                    assert(self.tree.entities().dom() =~= old_ent.dom().insert(k));
                    let o = old(self).nodes();
                    let n = self.nodes();
                    lemma_new_leaf_ok(o, n, id.0);
                    assert(self.entity_nodes()[entity.0] == id);
                    let en = old(self).entity_nodes();
                    let en2 = self.entity_nodes();
                    assert forall|rank: spec_fn(u64) -> nat| #[trigger] ranked(o, en, self.roots(), rank) implies ranked(n, en2, self.roots(), rank) by {
                        assert forall|g: u64| #[trigger] en2.contains_key(g) implies match links_of(n)[en2[g].0] {
                            Some(q) => is_root_node(self.roots(), q) || exists|f: u64| en2.contains_key(f) && #[trigger] en2[f] == q && rank(f) < rank(g),
                            None => true,
                        } by {
                            if g != entity.0 {
                                assert(en.contains_key(g));
                                assert(o.contains_key(en[g].0));
                                if let Some(q) = links_of(n)[en2[g].0] {
                                    if !is_root_node(self.roots(), q) {
                                        let f = choose|f: u64| en.contains_key(f) && #[trigger] en[f] == q && rank(f) < rank(g);
                                        assert(en2[f] == q);
                                    }
                                }
                            }
                        }
                    }
                    assert forall|r: u64| #[trigger] self.roots().contains_key(r) implies not_an_entity_node(self.entity_nodes(), self.roots()[r]) by {
                        assert(self.roots()[r] != id);
                        assert forall|e: u64| #[trigger] self.entity_nodes().contains_key(e) implies self.entity_nodes()[e] != self.roots()[r] by {
                            if e != entity.0 {
                                assert(old(self).entity_nodes().contains_key(e));
                            }
                        }
                    }
                }
            },
        }
    }

    /// Makes the nodes of `children` the children of the root node of `parent_window`, in
    /// order; each of them gets that root node as its parent.
    pub fn set_root_nodes_children(&mut self, parent_window: Entity, children: &[Entity])
        requires
            old(self).wf(),
            old(self).roots().contains_key(parent_window.0),
            forall|i: int| 0 <= i < children@.len() ==> old(self).entity_nodes().contains_key(#[trigger] children@[i].0),
        ensures
            final(self).wf(),
            final(self).roots() == old(self).roots(),
            final(self).entity_nodes() == old(self).entity_nodes(),
            final(self).entities() == old(self).entities(),
            children_set(old(self).nodes(), final(self).nodes(), old(self).roots()[parent_window.0], nodes_of(old(self).entity_nodes(), children@)),
            final(self).nodes()[old(self).roots()[parent_window.0].0].children@ == nodes_of(old(self).entity_nodes(), children@),
            forall|i: int| 0 <= i < children@.len() ==> final(self).nodes()[(#[trigger] old(self).entity_nodes()[children@[i].0]).0].parent
                == Some(old(self).roots()[parent_window.0]),
            measures_kept(old(self).nodes(), final(self).nodes()),
            forall|rank: spec_fn(u64) -> nat| #[trigger] ranked(old(self).nodes(), old(self).entity_nodes(), old(self).roots(), rank)
                ==> ranked(final(self).nodes(), final(self).entity_nodes(), final(self).roots(), rank),
    {
        broadcast use vstd::std_specs::hash::group_hash_axioms;
        let root = *self.root_nodes.get(&parent_window.0).unwrap();
        let ghost en = self.entity_nodes();
        let ghost cs = nodes_of(en, children@);
        let mut nodes: Vec<NodeId> = Vec::new();
        let mut i: usize = 0;
        while i < children.len()
            invariant
                i <= children@.len(),
                en == self.entity_nodes(),
                forall|j: int| 0 <= j < children@.len() ==> en.contains_key(#[trigger] children@[j].0),
                nodes@ == cs.take(i as int),
                cs == nodes_of(en, children@),
            decreases children@.len() - i,
        {
            let n = self.tree.entity_node(children[i]).unwrap();
            nodes.push(n);
            assert(nodes@ =~= cs.take(i + 1));
            i = i + 1;
        }
        assert(nodes@ =~= cs);
        let ghost o = self.nodes();
        let ghost ro = self.roots();
        proof {
            let l = relinked(o, root, cs);
            assert(!cs.contains(root)) by {
                if cs.contains(root) {
                    let j = choose|j: int| 0 <= j < cs.len() && cs[j] == root;
                    assert(en.contains_key(children@[j].0));
                }
            }
            assert(l.contains_key(root.0));
            assert(NodeId(root.0) == root);
            assert(l[root.0] is None);
            lemma_root_chain(l, root.0);
            assert forall|j: int| 0 <= j < cs.len() implies is_key(#[trigger] cs[j]) && o.contains_key(cs[j].0) by {
                assert(en.contains_key(children@[j].0));
            }
        }
        self.tree.set_children(root, nodes.as_slice()).unwrap();
        proof {
            let n = self.nodes();
            let l = relinked(o, root, cs);
            assert forall|j: int| 0 <= j < cs.len() implies is_key(#[trigger] cs[j]) && o.contains_key(cs[j].0) by {
                assert(en.contains_key(children@[j].0));
            }
            lemma_set_children_links(o, n, root, cs);
            lemma_set_ok(o, n, root, cs);
            assert forall|k: u64| #[trigger] n.contains_key(k) implies n[k].parent == l[k] by {
                assert(links_of(n)[k] == n[k].parent);
            }
            assert forall|j: int| 0 <= j < children@.len() implies n[(#[trigger] en[children@[j].0]).0].parent == Some(root) by {
                assert(cs[j] == en[children@[j].0]);
            }
            assert forall|r: u64| #[trigger] ro.contains_key(r) implies n[ro[r].0].parent is None by {
                let q = ro[r];
                assert(n[q.0].parent == l[q.0]);
                if cs.contains(NodeId(q.0)) {
                    let j = choose|j: int| 0 <= j < cs.len() && cs[j] == NodeId(q.0);
                    assert(NodeId(q.0) == q);
                    assert(en.contains_key(children@[j].0));
                }
            }
        }
    }

    /// Removes the layout node of `entity`, if it has one, from the tree and from the
    /// entity map; the node's parent no longer lists it and the nodes it listed lose their
    /// parent.
    pub fn remove_entity(&mut self, entity: Entity)
        requires
            old(self).wf(),
        ensures
            final(self).wf(),
            final(self).roots() == old(self).roots(),
            final(self).entities() == old(self).entities(),
            final(self).entity_nodes() == old(self).entity_nodes().remove(entity.0),
            old(self).entity_nodes().contains_key(entity.0)
                ==> node_removed(old(self).nodes(), final(self).nodes(), old(self).entity_nodes()[entity.0]),
            !old(self).entity_nodes().contains_key(entity.0) ==> final(self).nodes() == old(self).nodes(),
            root_lists_from(old(self).nodes(), old(self).roots(), final(self).nodes(), final(self).roots()),
            final(self).nodes().dom().len() <= old(self).nodes().dom().len(),
            measures_kept(old(self).nodes(), final(self).nodes()),
            lists_from(old(self).nodes(), final(self).nodes()),
            forall|rank: spec_fn(u64) -> nat| #[trigger] ranked(old(self).nodes(), old(self).entity_nodes(), old(self).roots(), rank)
                ==> ranked(final(self).nodes(), final(self).entity_nodes(), final(self).roots(), rank),
    {
        let ghost o = self.nodes();
        let ghost en = self.entity_nodes();
        let ghost ro = self.roots();
        match self.tree.remove_entity_node(entity) {
            Some(node) => {
                let _ = self.tree.remove(node);
                proof {
                    let n = self.nodes();
                    let en2 = self.entity_nodes();
                    assert(en.contains_key(entity.0));
                    lemma_removed_ok(o, n, node);
                    assert forall|r: u64| #[trigger] ro.contains_key(r) implies {
                        &&& n.contains_key(ro[r].0)
                        &&& n[ro[r].0].parent is None
                        &&& not_an_entity_node(en2, ro[r])
                    } by {
                        assert(ro[r] != node);
                        assert(ro[r].0 != node.0);
                        assert forall|e: u64| #[trigger] en2.contains_key(e) implies en2[e] != ro[r] by {
                            assert(en.contains_key(e));
                        }
                    }
                    assert forall|e: u64| #[trigger] en2.contains_key(e) implies n.contains_key(en2[e].0) by {
                        assert(en.contains_key(e));
                        assert(en[e] != node);
                        assert(en[e].0 != node.0);
                    }
                    assert forall|r: u64, x: NodeId| #[trigger] ro.contains_key(r) && #[trigger] n[ro[r].0].children@.contains(x)
                        implies o[ro[r].0].children@.contains(x) by {
                        let q = ro[r];
                        if o[node.0].parent == Some(NodeId(q.0)) {
                            o[q.0].children@.lemma_filter_contains_rev(other_than(node), x);
                        }
                    }
                    assert forall|k: u64, x: NodeId| #[trigger] n.contains_key(k) && #[trigger] n[k].children@.contains(x)
                        implies o.contains_key(k) && o[k].children@.contains(x) by {
                        if o[node.0].parent == Some(NodeId(k)) {
                            o[k].children@.lemma_filter_contains_rev(other_than(node), x);
                        }
                    }
                    assert forall|rank: spec_fn(u64) -> nat| #[trigger] ranked(o, en, ro, rank) implies ranked(n, en2, ro, rank) by {
                        assert forall|g: u64| #[trigger] en2.contains_key(g) implies match links_of(n)[en2[g].0] {
                            Some(q) => is_root_node(ro, q) || exists|f: u64| en2.contains_key(f) && #[trigger] en2[f] == q && rank(f) < rank(g),
                            None => true,
                        } by {
                            assert(en.contains_key(g));
                            let c = en[g];
                            assert(c.0 != node.0);
                            assert(n.contains_key(c.0));
                            assert(links_of(n)[c.0] == n[c.0].parent);
                            assert(NodeId(c.0) == c);
                            if let Some(q) = n[c.0].parent {
                                assert(o[c.0].parent == Some(q));
                                if !is_root_node(ro, q) {
                                    let f = choose|f: u64| en.contains_key(f) && #[trigger] en[f] == q && rank(f) < rank(g);
                                    assert(q != node) by {
                                        if q == node {
                                            assert(o[node.0].children@.contains(NodeId(c.0)));
                                        }
                                    }
                                    assert(f != entity.0);
                                    assert(en2[f] == q);
                                }
                            }
                        }
                    }
                }
            },
            None => {
                proof {
                    assert(self.entity_nodes() =~= en);
                }
            },
        }
    }

    /// Removes each entity of `entities` from the surface, as [`UiSurface::remove_entity`]
    /// does: none of them has a layout node afterwards.
    pub fn remove_entities(&mut self, entities: &[Entity])
        requires
            old(self).wf(),
        ensures
            final(self).wf(),
            final(self).roots() == old(self).roots(),
            final(self).entities() == old(self).entities(),
            forall|e: u64| #[trigger] final(self).entity_nodes().contains_key(e)
                <==> old(self).entity_nodes().contains_key(e) && !entities@.contains(Entity(e)),
            forall|e: u64| #[trigger] final(self).entity_nodes().contains_key(e) ==> final(self).entity_nodes()[e] == old(self).entity_nodes()[e],
            forall|i: int| 0 <= i < entities@.len() && old(self).entity_nodes().contains_key(#[trigger] entities@[i].0)
                ==> !final(self).nodes().contains_key(old(self).entity_nodes()[entities@[i].0].0),
            root_lists_from(old(self).nodes(), old(self).roots(), final(self).nodes(), final(self).roots()),
            final(self).nodes().dom().len() <= old(self).nodes().dom().len(),
            measures_kept(old(self).nodes(), final(self).nodes()),
            lists_from(old(self).nodes(), final(self).nodes()),
            final(self).nodes().dom().subset_of(old(self).nodes().dom()),
            forall|rank: spec_fn(u64) -> nat| #[trigger] ranked(old(self).nodes(), old(self).entity_nodes(), old(self).roots(), rank)
                ==> ranked(final(self).nodes(), final(self).entity_nodes(), final(self).roots(), rank),
    {
        let mut i: usize = 0;
        while i < entities.len()
            invariant
                i <= entities@.len(),
                self.wf(),
                self.roots() == old(self).roots(),
                self.entities() == old(self).entities(),
                forall|e: u64| #[trigger] self.entity_nodes().contains_key(e)
                    <==> old(self).entity_nodes().contains_key(e) && !entities@.take(i as int).contains(Entity(e)),
                forall|e: u64| #[trigger] self.entity_nodes().contains_key(e) ==> self.entity_nodes()[e] == old(self).entity_nodes()[e],
                forall|j: int| 0 <= j < i && old(self).entity_nodes().contains_key(#[trigger] entities@[j].0)
                    ==> !self.nodes().contains_key(old(self).entity_nodes()[entities@[j].0].0),
                self.nodes().dom().subset_of(old(self).nodes().dom()),
                root_lists_from(old(self).nodes(), old(self).roots(), self.nodes(), self.roots()),
                self.nodes().dom().len() <= old(self).nodes().dom().len(),
                measures_kept(old(self).nodes(), self.nodes()),
                lists_from(old(self).nodes(), self.nodes()),
                self.nodes().dom().subset_of(old(self).nodes().dom()),
                forall|rank: spec_fn(u64) -> nat| #[trigger] ranked(old(self).nodes(), old(self).entity_nodes(), old(self).roots(), rank)
                    ==> ranked(self.nodes(), self.entity_nodes(), self.roots(), rank),
            decreases entities@.len() - i,
        {
            let ghost before = *self;
            let e = entities[i];
            self.remove_entity(e);
            proof {
                assert(entities@.take(i + 1) =~= entities@.take(i as int).push(e));
                assert(Entity(e.0) == e);
                assert forall|x: u64| #[trigger] self.entity_nodes().contains_key(x)
                    <==> old(self).entity_nodes().contains_key(x) && !entities@.take(i + 1).contains(Entity(x)) by {
                    assert(self.entity_nodes().contains_key(x) <==> before.entity_nodes().contains_key(x) && x != e.0);
                    if entities@.take(i + 1).contains(Entity(x)) {
                        let j = choose|j: int| 0 <= j < i + 1 && #[trigger] entities@.take(i + 1)[j] == Entity(x);
                        if j < i {
                            assert(entities@.take(i as int)[j] == Entity(x));
                        } else {
                            assert(x == e.0);
                        }
                    }
                    if entities@.take(i as int).contains(Entity(x)) {
                        let j = choose|j: int| 0 <= j < i && entities@.take(i as int)[j] == Entity(x);
                        assert(entities@.take(i + 1)[j] == Entity(x));
                    }
                    if x == e.0 {
                        assert(entities@.take(i + 1)[i as int] == Entity(x));
                    }
                }
                assert forall|j: int| 0 <= j < i + 1 && old(self).entity_nodes().contains_key(#[trigger] entities@[j].0)
                    implies !self.nodes().contains_key(old(self).entity_nodes()[entities@[j].0].0) by {
                    if j == i {
                        if before.entity_nodes().contains_key(e.0) {
                            assert(before.entity_nodes()[e.0] == old(self).entity_nodes()[e.0]);
                        } else {
                            assert(entities@.take(i as int).contains(Entity(e.0)));
                            let m = choose|m: int| 0 <= m < i && entities@.take(i as int)[m] == Entity(e.0);
                            assert(entities@[m] == e);
                        }
                    }
                }
            }
            i = i + 1;
        }
        assert(entities@.take(entities@.len() as int) =~= entities@);
    }

    /// Gives the UI root `root` a root node: a new node without parent or children.
    pub fn insert_root_node(&mut self, root: Entity) -> (r: NodeId)
        requires
            old(self).wf(),
            !old(self).roots().contains_key(root.0),
            old(self).nodes().dom().len() + 2 < u32::MAX,
            old(self).entities().dom().len() + 2 < u32::MAX,
        ensures
            final(self).wf(),
            final(self).roots() == old(self).roots().insert(root.0, r),
            final(self).entity_nodes() == old(self).entity_nodes(),
            !old(self).nodes().contains_key(r.0),
            final(self).nodes().dom() == old(self).nodes().dom().insert(r.0),
            forall|k: u64| #[trigger] old(self).nodes().contains_key(k) ==> final(self).nodes()[k] == old(self).nodes()[k],
            final(self).nodes()[r.0].parent is None,
            final(self).nodes()[r.0].children@.len() == 0,
            final(self).entities().dom().len() == old(self).entities().dom().len() + 1,
            measures_kept(old(self).nodes(), final(self).nodes()),
            lists_from(old(self).nodes(), final(self).nodes()),
            forall|rank: spec_fn(u64) -> nat| #[trigger] ranked(old(self).nodes(), old(self).entity_nodes(), old(self).roots(), rank)
                ==> ranked(final(self).nodes(), final(self).entity_nodes(), final(self).roots(), rank),
    {
        broadcast use vstd::std_specs::hash::group_hash_axioms;
        let ghost old_ent = self.tree.entities();
        let id = self.tree.new_leaf(root).unwrap();
        self.root_nodes.insert(root.0, id);
        proof {
            let k = choose|k: u64| !old_ent.contains_key(k) && self.tree.entities() == old_ent.insert(k, root);
            assert(self.tree.entities().dom() =~= old_ent.dom().insert(k));
            let o = old(self).nodes();
            let n = self.nodes();
            let en = self.entity_nodes();
            lemma_new_leaf_ok(o, n, id.0);
            assert forall|e: u64| #[trigger] en.contains_key(e) implies en[e] != id by {}
            assert forall|rank: spec_fn(u64) -> nat| #[trigger] ranked(o, en, old(self).roots(), rank) implies ranked(n, en, self.roots(), rank) by {
                assert forall|g: u64| #[trigger] en.contains_key(g) implies match links_of(n)[en[g].0] {
                    Some(q) => is_root_node(self.roots(), q) || exists|f: u64| en.contains_key(f) && #[trigger] en[f] == q && rank(f) < rank(g),
                    None => true,
                } by {
                    assert(o.contains_key(en[g].0));
                    if let Some(q) = links_of(n)[en[g].0] {
                        if is_root_node(old(self).roots(), q) {
                            let r = choose|r: u64| old(self).roots().contains_key(r) && #[trigger] old(self).roots()[r] == q;
                            assert(r != root.0);
                            assert(self.roots()[r] == q);
                        }
                    }
                }
            }
            assert forall|r1: u64, r2: u64| #[trigger] self.roots().contains_key(r1) && #[trigger] self.roots().contains_key(r2) && r1 != r2
                implies self.roots()[r1] != self.roots()[r2] by {
                if r1 != root.0 && r2 != root.0 {
                    assert(old(self).roots().contains_key(r1) && old(self).roots().contains_key(r2));
                } else if r1 == root.0 {
                    assert(old(self).roots().contains_key(r2));
                } else {
                    assert(old(self).roots().contains_key(r1));
                }
            }
            assert forall|r1: u64| #[trigger] self.roots().contains_key(r1) implies {
                &&& is_key(self.roots()[r1])
                &&& n.contains_key(self.roots()[r1].0)
                &&& n[self.roots()[r1].0].parent is None
                &&& not_an_entity_node(en, self.roots()[r1])
            } by {
                if r1 != root.0 {
                    assert(old(self).roots().contains_key(r1));
                }
            }
        }
        id
    }

    /// Removes the root node of the UI root `root`, if it has one, from the tree and from the
    /// roots; the nodes it listed as children lose their parent.
    pub fn remove_root_node(&mut self, root: Entity)
        requires
            old(self).wf(),
        ensures
            final(self).wf(),
            final(self).roots() == old(self).roots().remove(root.0),
            final(self).entity_nodes() == old(self).entity_nodes(),
            final(self).entities() == old(self).entities(),
            old(self).roots().contains_key(root.0) ==> node_removed(old(self).nodes(), final(self).nodes(), old(self).roots()[root.0]),
            !old(self).roots().contains_key(root.0) ==> final(self).nodes() == old(self).nodes(),
            measures_kept(old(self).nodes(), final(self).nodes()),
            lists_from(old(self).nodes(), final(self).nodes()),
            forall|rank: spec_fn(u64) -> nat| #[trigger] ranked(old(self).nodes(), old(self).entity_nodes(), old(self).roots(), rank)
                ==> ranked(final(self).nodes(), final(self).entity_nodes(), final(self).roots(), rank),
    {
        broadcast use vstd::std_specs::hash::group_hash_axioms;
        let ghost o = self.nodes();
        let ghost ro = self.roots();
        let ghost en = self.entity_nodes();
        match self.root_nodes.remove(&root.0) {
            Some(node) => {
                let _ = self.tree.remove(node);
                proof {
                    let n = self.nodes();
                    lemma_removed_ok(o, n, node);
                    assert(o[node.0].parent is None);
                    assert forall|r1: u64| #[trigger] self.roots().contains_key(r1) implies {
                        &&& is_key(self.roots()[r1])
                        &&& n.contains_key(self.roots()[r1].0)
                        &&& n[self.roots()[r1].0].parent is None
                        &&& not_an_entity_node(en, self.roots()[r1])
                    } by {
                        assert(ro.contains_key(r1));
                        assert(ro[r1] != node);
                        assert(ro[r1].0 != node.0);
                    }
                    assert forall|r1: u64, r2: u64| #[trigger] self.roots().contains_key(r1) && #[trigger] self.roots().contains_key(r2) && r1 != r2
                        implies self.roots()[r1] != self.roots()[r2] by {
                        assert(ro.contains_key(r1) && ro.contains_key(r2));
                    }
                    assert forall|e: u64| #[trigger] en.contains_key(e) implies n.contains_key(en[e].0) by {
                        assert(en[e] != node);
                        assert(en[e].0 != node.0);
                    }
                    assert forall|rank: spec_fn(u64) -> nat| #[trigger] ranked(o, en, ro, rank) implies ranked(n, en, self.roots(), rank) by {
                        assert forall|g: u64| #[trigger] en.contains_key(g) implies match links_of(n)[en[g].0] {
                            Some(q) => is_root_node(self.roots(), q) || exists|f: u64| en.contains_key(f) && #[trigger] en[f] == q && rank(f) < rank(g),
                            None => true,
                        } by {
                            let c = en[g];
                            assert(c.0 != node.0);
                            assert(n.contains_key(c.0));
                            assert(links_of(n)[c.0] == n[c.0].parent);
                            assert(NodeId(c.0) == c);
                            if let Some(q) = n[c.0].parent {
                                assert(o[c.0].parent == Some(q));
                                if is_root_node(ro, q) {
                                    let r = choose|r: u64| ro.contains_key(r) && #[trigger] ro[r] == q;
                                    assert(q != node) by {
                                        if q == node {
                                            assert(o[node.0].children@.contains(NodeId(c.0)));
                                        }
                                    }
                                    assert(r != root.0);
                                    assert(self.roots()[r] == q);
                                }
                            }
                        }
                    }
                }
            },
            None => {
                proof {
                    assert(self.roots() =~= ro.remove(root.0));
                    assert(self.roots() =~= ro);
                }
            },
        }
    }

    /// Marks the root node of the UI root `root` dirty, as sizing it to its window does.
    pub fn update_root_node(&mut self, root: Entity)
        requires
            old(self).wf(),
            old(self).roots().contains_key(root.0),
        ensures
            final(self).wf(),
            final(self).roots() == old(self).roots(),
            final(self).entity_nodes() == old(self).entity_nodes(),
            final(self).entities() == old(self).entities(),
            dirtied_from(old(self).nodes(), final(self).nodes(), old(self).roots()[root.0].0),
            measures_kept(old(self).nodes(), final(self).nodes()),
            lists_from(old(self).nodes(), final(self).nodes()),
            forall|rank: spec_fn(u64) -> nat| #[trigger] ranked(old(self).nodes(), old(self).entity_nodes(), old(self).roots(), rank)
                ==> ranked(final(self).nodes(), final(self).entity_nodes(), final(self).roots(), rank),
    {
        broadcast use vstd::std_specs::hash::group_hash_axioms;
        let node = *self.root_nodes.get(&root.0).unwrap();
        proof {
            lemma_root_chain(links_of(self.nodes()), node.0);
        }
        let _ = self.tree.mark_dirty(node);
        proof {
            let o = old(self).nodes();
            let n = self.nodes();
            assert forall|k: u64| #[trigger] n.contains_key(k) implies n[k].parent == o[k].parent && n[k].children == o[k].children by {}
            lemma_same_links_ok(o, n);
        }
    }

    /// Removes the root nodes of the UI roots `roots`, as [`UiSurface::remove_root_node`] does.
    pub fn remove_root_nodes(&mut self, roots: &[Entity])
        requires
            old(self).wf(),
        ensures
            final(self).wf(),
            final(self).entity_nodes() == old(self).entity_nodes(),
            final(self).entities() == old(self).entities(),
            forall|r: u64| #[trigger] final(self).roots().contains_key(r)
                <==> old(self).roots().contains_key(r) && !roots@.contains(Entity(r)),
            root_lists_from(old(self).nodes(), old(self).roots(), final(self).nodes(), final(self).roots()),
            final(self).nodes().dom().len() <= old(self).nodes().dom().len(),
            measures_kept(old(self).nodes(), final(self).nodes()),
            lists_from(old(self).nodes(), final(self).nodes()),
            final(self).nodes().dom().subset_of(old(self).nodes().dom()),
            forall|rank: spec_fn(u64) -> nat| #[trigger] ranked(old(self).nodes(), old(self).entity_nodes(), old(self).roots(), rank)
                ==> ranked(final(self).nodes(), final(self).entity_nodes(), final(self).roots(), rank),
    {
        let mut i: usize = 0;
        while i < roots.len()
            invariant
                i <= roots@.len(),
                self.wf(),
                self.entity_nodes() == old(self).entity_nodes(),
                self.entities() == old(self).entities(),
                forall|r: u64| #[trigger] self.roots().contains_key(r)
                    <==> old(self).roots().contains_key(r) && !roots@.take(i as int).contains(Entity(r)),
                root_lists_from(old(self).nodes(), old(self).roots(), self.nodes(), self.roots()),
                self.nodes().dom().len() <= old(self).nodes().dom().len(),
                measures_kept(old(self).nodes(), self.nodes()),
                lists_from(old(self).nodes(), self.nodes()),
                self.nodes().dom().subset_of(old(self).nodes().dom()),
                forall|rank: spec_fn(u64) -> nat| #[trigger] ranked(old(self).nodes(), old(self).entity_nodes(), old(self).roots(), rank)
                    ==> ranked(self.nodes(), self.entity_nodes(), self.roots(), rank),
            decreases roots@.len() - i,
        {
            let ghost before = *self;
            let e = roots[i];
            self.remove_root_node(e);
            proof {
                assert(Entity(e.0) == e);
                assert forall|x: u64| #[trigger] self.roots().contains_key(x)
                    <==> old(self).roots().contains_key(x) && !roots@.take(i + 1).contains(Entity(x)) by {
                    if roots@.take(i + 1).contains(Entity(x)) {
                        let j = choose|j: int| 0 <= j < i + 1 && #[trigger] roots@.take(i + 1)[j] == Entity(x);
                        if j < i {
                            assert(roots@.take(i as int)[j] == Entity(x));
                        }
                    }
                    if roots@.take(i as int).contains(Entity(x)) {
                        let j = choose|j: int| 0 <= j < i && #[trigger] roots@.take(i as int)[j] == Entity(x);
                        assert(roots@.take(i + 1)[j] == Entity(x));
                    }
                    if x == e.0 {
                        assert(roots@.take(i + 1)[i as int] == Entity(x));
                    }
                }
                let o = before.nodes();
                let n = self.nodes();
                if before.roots().contains_key(e.0) {
                    let gone = before.roots()[e.0];
                    assert(o[gone.0].parent is None);
                    assert(o.dom().finite());
                    assert(n.dom() == o.dom().remove(gone.0));
                    assert forall|r: u64, x: NodeId| #[trigger] self.roots().contains_key(r) && #[trigger] n[self.roots()[r].0].children@.contains(x)
                        implies {
                        &&& old(self).roots().contains_key(r)
                        &&& old(self).roots()[r] == self.roots()[r]
                        &&& old(self).nodes()[old(self).roots()[r].0].children@.contains(x)
                    } by {
                        assert(before.roots().contains_key(r));
                        let q = before.roots()[r];
                        assert(n.contains_key(q.0));
                        assert(o[gone.0].parent != Some(NodeId(q.0)));
                        assert(n[q.0].children@ == o[q.0].children@);
                    }
                }
            }
            i = i + 1;
        }
        assert(roots@.take(roots@.len() as int) =~= roots@);
    }

    /// The first part of a layout pass: each root of `roots` gets a root node where it has
    /// none, its root node is sized to its window again (marked dirty), and the nodes of its
    /// stack that are updated get a layout node or have their style updated.
    pub fn update_layout_roots(&mut self, roots: &[LayoutRoot])
        requires
            old(self).wf(),
            old(self).nodes().dom().len() + stack_work(roots@) + 2 < u32::MAX,
            old(self).entities().dom().len() + stack_work(roots@) + 2 < u32::MAX,
        ensures
            final(self).wf(),
            forall|r: u64| #[trigger] final(self).roots().contains_key(r)
                <==> old(self).roots().contains_key(r) || exists|i: int| 0 <= i < roots@.len() && #[trigger] roots@[i].entity.0 == r,
            forall|e: u64| #[trigger] final(self).entity_nodes().contains_key(e)
                <==> old(self).entity_nodes().contains_key(e) || upserted(roots@, e),
            forall|e: u64| #[trigger] old(self).entity_nodes().contains_key(e) ==> final(self).entity_nodes()[e] == old(self).entity_nodes()[e],
            forall|e: u64| #[trigger] final(self).entity_nodes().contains_key(e) && !old(self).entity_nodes().contains_key(e)
                ==> !old(self).nodes().contains_key(final(self).entity_nodes()[e].0)
                    && !final(self).nodes()[final(self).entity_nodes()[e].0].data.needs_measure,
            root_lists_from(old(self).nodes(), old(self).roots(), final(self).nodes(), final(self).roots()),
            final(self).nodes().dom().len() <= old(self).nodes().dom().len() + stack_work(roots@),
            final(self).entities().dom().len() <= old(self).entities().dom().len() + stack_work(roots@),
            measures_kept(old(self).nodes(), final(self).nodes()),
            lists_from(old(self).nodes(), final(self).nodes()),
            old(self).nodes().dom().subset_of(final(self).nodes().dom()),
            forall|rank: spec_fn(u64) -> nat| #[trigger] ranked(old(self).nodes(), old(self).entity_nodes(), old(self).roots(), rank)
                ==> ranked(final(self).nodes(), final(self).entity_nodes(), final(self).roots(), rank),
    {
        let mut i: usize = 0;
        while i < roots.len()
            invariant
                i <= roots@.len(),
                self.wf(),
                old(self).nodes().dom().len() + stack_work(roots@) + 2 < u32::MAX,
                old(self).entities().dom().len() + stack_work(roots@) + 2 < u32::MAX,
                forall|r: u64| #[trigger] self.roots().contains_key(r)
                    <==> old(self).roots().contains_key(r) || exists|m: int| 0 <= m < i && #[trigger] roots@[m].entity.0 == r,
                forall|e: u64| #[trigger] self.entity_nodes().contains_key(e)
                    <==> old(self).entity_nodes().contains_key(e) || upserted(roots@.take(i as int), e),
                forall|e: u64| #[trigger] old(self).entity_nodes().contains_key(e) ==> self.entity_nodes()[e] == old(self).entity_nodes()[e],
                forall|e: u64| #[trigger] self.entity_nodes().contains_key(e) && !old(self).entity_nodes().contains_key(e)
                    ==> !old(self).nodes().contains_key(self.entity_nodes()[e].0)
                        && !self.nodes()[self.entity_nodes()[e].0].data.needs_measure,
                root_lists_from(old(self).nodes(), old(self).roots(), self.nodes(), self.roots()),
                self.nodes().dom().len() <= old(self).nodes().dom().len() + stack_work(roots@.take(i as int)),
                self.entities().dom().len() <= old(self).entities().dom().len() + stack_work(roots@.take(i as int)),
                measures_kept(old(self).nodes(), self.nodes()),
                lists_from(old(self).nodes(), self.nodes()),
                old(self).nodes().dom().subset_of(self.nodes().dom()),
                forall|rank: spec_fn(u64) -> nat| #[trigger] ranked(old(self).nodes(), old(self).entity_nodes(), old(self).roots(), rank)
                    ==> ranked(self.nodes(), self.entity_nodes(), self.roots(), rank),
            decreases roots@.len() - i,
        {
            let root = &roots[i];
            proof {
                lemma_stack_work_prefix(roots@, i as int + 1);
                assert(roots@.take(i + 1).drop_last() =~= roots@.take(i as int));
                assert(roots@.take(i + 1).last() == roots@[i as int]);
            }
            let ghost s0 = *self;
            if self.root_node(root.entity).is_none() {
                self.insert_root_node(root.entity);
            }
            let ghost sm = *self;
            proof {
                assert(s0.nodes().dom().subset_of(sm.nodes().dom()));
            }
            self.update_root_node(root.entity);
            let ghost s1 = *self;
            proof {
                assert forall|r: u64, x: NodeId| #[trigger] s1.roots().contains_key(r) && #[trigger] s1.nodes()[s1.roots()[r].0].children@.contains(x)
                    implies {
                    &&& old(self).roots().contains_key(r)
                    &&& old(self).roots()[r] == s1.roots()[r]
                    &&& old(self).nodes()[old(self).roots()[r].0].children@.contains(x)
                } by {
                    if s0.roots().contains_key(r) {
                        assert(s1.roots()[r] == s0.roots()[r]);
                        assert(s0.nodes().contains_key(s0.roots()[r].0));
                    }
                }
            }
            let mut j: usize = 0;
            while j < root.nodes.len()
                invariant
                    i < roots@.len(),
                    *root == roots@[i as int],
                    j <= root.nodes@.len(),
                    self.wf(),
                    self.roots() == s1.roots(),
                    forall|e: u64| #[trigger] self.entity_nodes().contains_key(e)
                        <==> s1.entity_nodes().contains_key(e) || exists|m: int| 0 <= m < j && #[trigger] root.nodes@[m].entity.0 == e
                            && is_updated(*root, root.nodes@[m]),
                    forall|e: u64| #[trigger] s1.entity_nodes().contains_key(e) ==> self.entity_nodes()[e] == s1.entity_nodes()[e],
                    forall|e: u64| #[trigger] self.entity_nodes().contains_key(e) && !s1.entity_nodes().contains_key(e)
                        ==> !s1.nodes().contains_key(self.entity_nodes()[e].0)
                            && !self.nodes()[self.entity_nodes()[e].0].data.needs_measure,
                    root_lists_from(s1.nodes(), s1.roots(), self.nodes(), self.roots()),
                    self.nodes().dom().len() <= s1.nodes().dom().len() + j,
                    self.entities().dom().len() <= s1.entities().dom().len() + j,
                    s1.nodes().dom().len() + root.nodes@.len() + 2 < u32::MAX,
                    s1.entities().dom().len() + root.nodes@.len() + 2 < u32::MAX,
                    measures_kept(s1.nodes(), self.nodes()),
                    lists_from(s1.nodes(), self.nodes()),
                    s1.nodes().dom().subset_of(self.nodes().dom()),
                    forall|rank: spec_fn(u64) -> nat| #[trigger] ranked(s1.nodes(), s1.entity_nodes(), s1.roots(), rank)
                        ==> ranked(self.nodes(), self.entity_nodes(), self.roots(), rank),
                decreases root.nodes@.len() - j,
            {
                let n = root.nodes[j];
                let ghost s2 = *self;
                if n.has_style && (root.context_changed || n.style_changed) {
                    self.upsert_node(n.entity);
                    proof {
                        assert forall|r: u64, x: NodeId| #[trigger] self.roots().contains_key(r) && #[trigger] self.nodes()[self.roots()[r].0].children@.contains(x)
                            implies s2.nodes()[s2.roots()[r].0].children@.contains(x) by {
                            assert(s2.nodes().contains_key(s2.roots()[r].0));
                        }
                    }
                }
                proof {
                    assert forall|e: u64| #[trigger] self.entity_nodes().contains_key(e)
                        <==> s1.entity_nodes().contains_key(e) || exists|m: int| 0 <= m < j + 1 && #[trigger] root.nodes@[m].entity.0 == e
                            && is_updated(*root, root.nodes@[m]) by {
                        if exists|m: int| 0 <= m < j + 1 && #[trigger] root.nodes@[m].entity.0 == e && is_updated(*root, root.nodes@[m]) {
                            let m = choose|m: int| 0 <= m < j + 1 && #[trigger] root.nodes@[m].entity.0 == e && is_updated(*root, root.nodes@[m]);
                            if m == j {
                                assert(self.entity_nodes().contains_key(e));
                            }
                        }
                    }
                }
                j = j + 1;
            }
            proof {
                assert forall|k: u64| #[trigger] self.nodes().contains_key(k) && old(self).nodes().contains_key(k)
                    implies self.nodes()[k].data.needs_measure == old(self).nodes()[k].data.needs_measure by {
                    assert(s0.nodes().contains_key(k));
                    assert(sm.nodes().contains_key(k));
                    assert(s1.nodes().contains_key(k));
                }
                assert(s1.entity_nodes() == s0.entity_nodes());
                assert forall|e: u64| #[trigger] old(self).entity_nodes().contains_key(e) implies self.entity_nodes()[e] == old(self).entity_nodes()[e] by {
                    assert(s0.entity_nodes().contains_key(e));
                    assert(s1.entity_nodes().contains_key(e));
                }
                assert forall|e: u64| #[trigger] self.entity_nodes().contains_key(e)
                    <==> old(self).entity_nodes().contains_key(e) || upserted(roots@.take(i + 1), e) by {
                    let t = roots@.take(i + 1);
                    if upserted(t, e) {
                        let (a, b) = choose|a: int, b: int| 0 <= a < t.len() && 0 <= b < t[a].nodes@.len()
                            && #[trigger] t[a].nodes@[b].entity.0 == e && is_updated(t[a], t[a].nodes@[b]);
                        if a < i {
                            assert(roots@.take(i as int)[a] == t[a]);
                            assert(upserted(roots@.take(i as int), e));
                        } else {
                            assert(root.nodes@[b].entity.0 == e);
                        }
                    }
                    if upserted(roots@.take(i as int), e) {
                        let (a, b) = choose|a: int, b: int| 0 <= a < roots@.take(i as int).len() && 0 <= b < roots@.take(i as int)[a].nodes@.len()
                            && #[trigger] roots@.take(i as int)[a].nodes@[b].entity.0 == e && is_updated(roots@.take(i as int)[a], roots@.take(i as int)[a].nodes@[b]);
                        assert(t[a] == roots@.take(i as int)[a]);
                        assert(t[a].nodes@[b].entity.0 == e);
                    }
                    if exists|m: int| 0 <= m < root.nodes@.len() && #[trigger] root.nodes@[m].entity.0 == e && is_updated(*root, root.nodes@[m]) {
                        let m = choose|m: int| 0 <= m < root.nodes@.len() && #[trigger] root.nodes@[m].entity.0 == e && is_updated(*root, root.nodes@[m]);
                        assert(t[i as int] == *root);
                        assert(t[i as int].nodes@[m].entity.0 == e);
                    }
                }
                assert forall|r: u64| #[trigger] self.roots().contains_key(r)
                    <==> old(self).roots().contains_key(r) || exists|m: int| 0 <= m < i + 1 && #[trigger] roots@[m].entity.0 == r by {
                    if r == root.entity.0 {
                        assert(self.roots().contains_key(r));
                    }
                }
                assert forall|r: u64, x: NodeId| #[trigger] self.roots().contains_key(r) && #[trigger] self.nodes()[self.roots()[r].0].children@.contains(x)
                    implies {
                    &&& old(self).roots().contains_key(r)
                    &&& old(self).roots()[r] == self.roots()[r]
                    &&& old(self).nodes()[old(self).roots()[r].0].children@.contains(x)
                } by {
                    assert(s1.nodes()[s1.roots()[r].0].children@.contains(x));
                }
            }
            i = i + 1;
        }
        assert(roots@.take(roots@.len() as int) =~= roots@);
    }

    /// The last part of a layout pass: the root node of each root of `roots` gets the nodes of
    /// its stack's root nodes as its children, root after root.
    pub fn set_all_root_nodes_children(&mut self, roots: &[LayoutRoot])
        requires
            old(self).wf(),
            forall|i: int, j: int| 0 <= i < j < roots@.len() ==> (#[trigger] roots@[i]).entity != (#[trigger] roots@[j]).entity,
            forall|i: int| 0 <= i < roots@.len() ==> old(self).roots().contains_key((#[trigger] roots@[i]).entity.0),
            forall|i: int, k: int| 0 <= i < roots@.len() && 0 <= k < roots@[i].children@.len()
                ==> old(self).entity_nodes().contains_key((#[trigger] roots@[i].children@[k]).0),
        ensures
            final(self).wf(),
            final(self).roots() == old(self).roots(),
            final(self).entity_nodes() == old(self).entity_nodes(),
            final(self).entities() == old(self).entities(),
            forall|i: int| 0 <= i < roots@.len() ==> final(self).nodes()[final(self).roots()[(#[trigger] roots@[i]).entity.0].0].children@
                == nodes_of(final(self).entity_nodes(), roots@[i].children@),
            forall|i: int, k: int| 0 <= i < roots@.len() && 0 <= k < roots@[i].children@.len()
                && (forall|j: int| 0 <= j < roots@.len() && j != i ==> !(#[trigger] roots@[j].children@).contains(roots@[i].children@[k]))
                && (forall|r: u64| #[trigger] old(self).roots().contains_key(r) && r != roots@[i].entity.0
                    ==> !old(self).nodes()[old(self).roots()[r].0].children@.contains(old(self).entity_nodes()[roots@[i].children@[k].0]))
                ==> final(self).nodes()[final(self).entity_nodes()[(#[trigger] roots@[i].children@[k]).0].0].parent
                    == Some(final(self).roots()[roots@[i].entity.0]),
            measures_kept(old(self).nodes(), final(self).nodes()),
            final(self).nodes().dom() == old(self).nodes().dom(),
            forall|k: u64| #[trigger] final(self).nodes().contains_key(k) && !is_root_node(old(self).roots(), NodeId(k))
                ==> final(self).nodes()[k].children@ == old(self).nodes()[k].children@,
            forall|rank: spec_fn(u64) -> nat| #[trigger] ranked(old(self).nodes(), old(self).entity_nodes(), old(self).roots(), rank)
                ==> ranked(final(self).nodes(), final(self).entity_nodes(), final(self).roots(), rank),
    {
        let ghost o = self.nodes();
        let ghost ro = self.roots();
        let ghost en = self.entity_nodes();
        let mut t: usize = 0;
        while t < roots.len()
            invariant
                t <= roots@.len(),
                self.wf(),
                self.roots() == ro,
                self.entity_nodes() == en,
                self.entities() == old(self).entities(),
                ro == old(self).roots(),
                en == old(self).entity_nodes(),
                o == old(self).nodes(),
                forall|i: int, j: int| 0 <= i < j < roots@.len() ==> (#[trigger] roots@[i]).entity != (#[trigger] roots@[j]).entity,
                forall|i: int| 0 <= i < roots@.len() ==> ro.contains_key((#[trigger] roots@[i]).entity.0),
                forall|i: int, k: int| 0 <= i < roots@.len() && 0 <= k < roots@[i].children@.len()
                    ==> en.contains_key((#[trigger] roots@[i].children@[k]).0),
                forall|i: int| 0 <= i < t ==> self.nodes()[ro[(#[trigger] roots@[i]).entity.0].0].children@
                    == nodes_of(en, roots@[i].children@),
                forall|j: int| t <= j < roots@.len() ==> self.nodes()[ro[(#[trigger] roots@[j]).entity.0].0].children@
                    == o[ro[roots@[j].entity.0].0].children@,
                forall|i: int, k: int| 0 <= i < t && 0 <= k < roots@[i].children@.len()
                    && (forall|j: int| 0 <= j < roots@.len() && j != i ==> !(#[trigger] roots@[j].children@).contains(roots@[i].children@[k]))
                    && (forall|r: u64| #[trigger] ro.contains_key(r) && r != roots@[i].entity.0
                        ==> !o[ro[r].0].children@.contains(en[roots@[i].children@[k].0]))
                    ==> self.nodes()[en[(#[trigger] roots@[i].children@[k]).0].0].parent == Some(ro[roots@[i].entity.0]),
                measures_kept(old(self).nodes(), self.nodes()),
                self.nodes().dom() == old(self).nodes().dom(),
                forall|k: u64| #[trigger] self.nodes().contains_key(k) && !is_root_node(ro, NodeId(k))
                    ==> self.nodes()[k].children@ == o[k].children@,
                forall|rank: spec_fn(u64) -> nat| #[trigger] ranked(o, en, ro, rank) ==> ranked(self.nodes(), en, ro, rank),
            decreases roots@.len() - t,
        {
            let root = &roots[t];
            let ghost before = self.nodes();
            proof {
                assert(ro.contains_key(roots@[t as int].entity.0));
                assert forall|k: int| 0 <= k < root.children@.len() implies en.contains_key((#[trigger] root.children@[k]).0) by {
                    assert(roots@[t as int].children@[k] == root.children@[k]);
                }
            }
            self.set_root_nodes_children(root.entity, root.children.as_slice());
            proof {
                let n = self.nodes();
                let rt = ro[root.entity.0];
                assert forall|k: u64| #[trigger] n.contains_key(k) && !is_root_node(ro, NodeId(k)) implies n[k].children@ == o[k].children@ by {
                    assert(before.contains_key(k));
                    if k == rt.0 {
                        assert(NodeId(k) == rt);
                        assert(ro[root.entity.0] == NodeId(k));
                    }
                }
                assert forall|k: u64| #[trigger] n.contains_key(k) && old(self).nodes().contains_key(k)
                    implies n[k].data.needs_measure == old(self).nodes()[k].data.needs_measure by {
                    assert(before.contains_key(k));
                }
                let cs = nodes_of(en, root.children@);
                assert forall|i: int| 0 <= i < roots@.len() && i != t implies ro[(#[trigger] roots@[i]).entity.0] != rt by {
                    if i < t {
                        assert(roots@[i].entity != roots@[t as int].entity);
                    } else {
                        assert(roots@[t as int].entity != roots@[i].entity);
                    }
                    assert(ro.contains_key(roots@[i].entity.0));
                }
                assert forall|i: int| 0 <= i < t + 1 implies n[ro[(#[trigger] roots@[i]).entity.0].0].children@ == nodes_of(en, roots@[i].children@) by {
                    if i < t {
                        assert(ro[roots@[i].entity.0] != rt);
                        assert(ro[roots@[i].entity.0].0 != rt.0);
                        assert(before.contains_key(ro[roots@[i].entity.0].0));
                    }
                }
                assert forall|j: int| t + 1 <= j < roots@.len() implies n[ro[(#[trigger] roots@[j]).entity.0].0].children@
                    == o[ro[roots@[j].entity.0].0].children@ by {
                    assert(ro[roots@[j].entity.0] != rt);
                    assert(ro[roots@[j].entity.0].0 != rt.0);
                    assert(before.contains_key(ro[roots@[j].entity.0].0));
                }
                let l = relinked(before, rt, cs);
                assert forall|k: u64| #[trigger] n.contains_key(k) implies n[k].parent == l[k] by {
                    assert(links_of(n)[k] == n[k].parent);
                }
                assert forall|i: int, k: int| 0 <= i < t + 1 && 0 <= k < roots@[i].children@.len()
                    && (forall|j: int| 0 <= j < roots@.len() && j != i ==> !(#[trigger] roots@[j].children@).contains(roots@[i].children@[k]))
                    && (forall|r: u64| #[trigger] ro.contains_key(r) && r != roots@[i].entity.0
                        ==> !o[ro[r].0].children@.contains(en[roots@[i].children@[k].0]))
                    implies n[en[(#[trigger] roots@[i].children@[k]).0].0].parent == Some(ro[roots@[i].entity.0]) by {
                    let ce = roots@[i].children@[k];
                    let c = en[ce.0];
                    assert(en.contains_key(ce.0));
                    if i < t {
                        assert(NodeId(c.0) == c);
                        assert(n[c.0].parent == l[c.0]);
                        assert(!roots@[t as int].children@.contains(ce));
                        assert(!cs.contains(c)) by {
                            if cs.contains(c) {
                                let m = choose|m: int| 0 <= m < cs.len() && cs[m] == c;
                                let ce2 = root.children@[m];
                                assert(en.contains_key(ce2.0));
                                assert(ce2.0 == ce.0);
                                assert(ce2 == ce);
                                assert(roots@[t as int].children@[m] == ce2);
                            }
                        }
                        assert(root.entity.0 != roots@[i].entity.0) by {
                            assert(roots@[i].entity != roots@[t as int].entity);
                        }
                        assert(ro.contains_key(root.entity.0));
                        assert(!o[ro[root.entity.0].0].children@.contains(c));
                        assert(before[rt.0].children@ == o[rt.0].children@);
                    } else {
                        assert(cs[k] == c);
                    }
                }
            }
            t = t + 1;
        }
    }

    /// Gives the node of `entity` a measure: it must be measured from now on, and it and its
    /// ancestors are marked dirty.
    pub fn update_measure(&mut self, entity: Entity)
        requires
            old(self).wf(),
            old(self).entity_nodes().contains_key(entity.0),
        ensures
            final(self).wf(),
            final(self).roots() == old(self).roots(),
            final(self).entity_nodes() == old(self).entity_nodes(),
            final(self).entities() == old(self).entities(),
            measure_set(old(self).nodes(), final(self).nodes(), old(self).entity_nodes()[entity.0].0, true),
            lists_from(old(self).nodes(), final(self).nodes()),
            links_of(final(self).nodes()) == links_of(old(self).nodes()),
    {
        let node = self.tree.entity_node(entity).unwrap();
        proof {
            assert(links_of(self.nodes()).contains_key(node.0));
        }
        self.tree.set_needs_measure(node, true);
        proof {
            let o = old(self).nodes();
            let n = self.nodes();
            lemma_same_links_ok(o, n);
            assert(links_of(n) =~= links_of(o));
        }
    }

    /// Takes the measure from the node of `entity`, if it has one: it is no longer measured,
    /// and it and its ancestors are marked dirty.
    pub fn try_remove_measure(&mut self, entity: Entity)
        requires
            old(self).wf(),
        ensures
            final(self).wf(),
            final(self).roots() == old(self).roots(),
            final(self).entity_nodes() == old(self).entity_nodes(),
            final(self).entities() == old(self).entities(),
            old(self).entity_nodes().contains_key(entity.0)
                ==> measure_set(old(self).nodes(), final(self).nodes(), old(self).entity_nodes()[entity.0].0, false),
            !old(self).entity_nodes().contains_key(entity.0) ==> final(self).nodes() == old(self).nodes(),
            lists_from(old(self).nodes(), final(self).nodes()),
            links_of(final(self).nodes()) == links_of(old(self).nodes()),
    {
        if let Some(node) = self.tree.entity_node(entity) {
            proof {
                assert(links_of(self.nodes()).contains_key(node.0));
            }
            self.tree.set_needs_measure(node, false);
            proof {
                let o = old(self).nodes();
                let n = self.nodes();
                lemma_same_links_ok(o, n);
                assert(links_of(n) =~= links_of(o));
            }
        }
    }

    /// Removes the children of the node of `entity`, if it has one: they lose their parent,
    /// and the node and its ancestors are marked dirty.
    pub fn try_remove_children(&mut self, entity: Entity)
        requires
            old(self).wf(),
        ensures
            final(self).wf(),
            final(self).roots() == old(self).roots(),
            final(self).entity_nodes() == old(self).entity_nodes(),
            final(self).entities() == old(self).entities(),
            old(self).entity_nodes().contains_key(entity.0)
                ==> children_set(old(self).nodes(), final(self).nodes(), old(self).entity_nodes()[entity.0], Seq::empty()),
            !old(self).entity_nodes().contains_key(entity.0) ==> final(self).nodes() == old(self).nodes(),
            measures_kept(old(self).nodes(), final(self).nodes()),
            forall|rank: spec_fn(u64) -> nat| #[trigger] ranked(old(self).nodes(), old(self).entity_nodes(), old(self).roots(), rank)
                ==> ranked(final(self).nodes(), final(self).entity_nodes(), final(self).roots(), rank),
    {
        let ghost o = self.nodes();
        let ghost en = self.entity_nodes();
        let ghost ro = self.roots();
        if let Some(node) = self.tree.entity_node(entity) {
            proof {
                let l = relinked(o, node, Seq::empty());
                let lo = links_of(o);
                assert forall|y: u64| #[trigger] l.contains_key(y) implies {
                    ||| l[y] is None
                    ||| lo.contains_key(y) && l[y] == lo[y] && (l[y] matches Some(q) ==> l.contains_key(slot_key(q.0)))
                    ||| l[y] matches Some(q) && chain_ends(l, slot_key(q.0))
                } by {
                    if let Some(q) = l[y] {
                        assert(o[y].parent == Some(q));
                        assert(o.contains_key(q.0));
                        assert(slot_key(q.0) == q.0);
                    }
                }
                lemma_acyclic_kept(lo, l);
                assert(l.contains_key(node.0));
            }
            self.tree.try_remove_children(entity);
            proof {
                let n = self.nodes();
                lemma_set_ok(o, n, node, Seq::empty());
                lemma_set_measures(o, n, node, Seq::empty());
                assert forall|r: u64| #[trigger] ro.contains_key(r) implies n[ro[r].0].parent is None by {
                    assert(links_of(n)[ro[r].0] == n[ro[r].0].parent);
                }
                assert forall|rank: spec_fn(u64) -> nat| #[trigger] ranked(o, en, ro, rank) implies ranked(n, en, ro, rank) by {
                    lemma_set_ranked(o, n, node, Seq::empty(), en, ro, rank);
                }
            }
        }
    }

    /// Makes the nodes of the entities `children` that have one the children of the node of
    /// `entity`, in order (the entities without a node are skipped); they get it as their
    /// parent, and it and its ancestors are marked dirty. The new chain of parents from the
    /// node must end: the UI hierarchy has no cycle.
    pub fn update_children(&mut self, entity: Entity, children: &[Entity])
        requires
            old(self).wf(),
            old(self).entity_nodes().contains_key(entity.0),
            chain_ends(
                relinked(old(self).nodes(), old(self).entity_nodes()[entity.0], mapped_nodes(old(self).entity_nodes(), children@)),
                old(self).entity_nodes()[entity.0].0,
            ),
        ensures
            final(self).wf(),
            final(self).roots() == old(self).roots(),
            final(self).entity_nodes() == old(self).entity_nodes(),
            final(self).entities() == old(self).entities(),
            children_set(old(self).nodes(), final(self).nodes(), old(self).entity_nodes()[entity.0], mapped_nodes(old(self).entity_nodes(), children@)),
            final(self).nodes()[old(self).entity_nodes()[entity.0].0].children@ == mapped_nodes(old(self).entity_nodes(), children@),
            measures_kept(old(self).nodes(), final(self).nodes()),
            forall|rank: spec_fn(u64) -> nat| #[trigger] ranked(old(self).nodes(), old(self).entity_nodes(), old(self).roots(), rank)
                && (forall|k: int| 0 <= k < children@.len() ==> rank(entity.0) < rank((#[trigger] children@[k]).0))
                ==> ranked(final(self).nodes(), final(self).entity_nodes(), final(self).roots(), rank),
    {
        let ghost o = self.nodes();
        let ghost en = self.entity_nodes();
        let ghost ro = self.roots();
        let node = self.tree.entity_node(entity).unwrap();
        let ghost cs = mapped_nodes(en, children@);
        proof {
            lemma_mapped_live(o, en, children@);
        }
        self.tree.update_children(node, children);
        proof {
            let n = self.nodes();
            lemma_set_ok(o, n, node, cs);
            lemma_set_measures(o, n, node, cs);
            lemma_set_children_links(o, n, node, cs);
            let l = relinked(o, node, cs);
            assert forall|r: u64| #[trigger] ro.contains_key(r) implies n[ro[r].0].parent is None by {
                assert(links_of(n)[ro[r].0] == n[ro[r].0].parent);
                if cs.contains(NodeId(ro[r].0)) {
                    lemma_mapped_from(en, children@, NodeId(ro[r].0));
                    assert(NodeId(ro[r].0) == ro[r]);
                }
            }
            assert forall|rank: spec_fn(u64) -> nat| #[trigger] ranked(o, en, ro, rank)
                && (forall|k: int| 0 <= k < children@.len() ==> rank(entity.0) < rank((#[trigger] children@[k]).0))
                implies ranked(n, en, ro, rank) by {
                assert forall|g: u64| #[trigger] en.contains_key(g) && cs.contains(en[g])
                    implies is_root_node(ro, node) || exists|f: u64| en.contains_key(f) && #[trigger] en[f] == node && rank(f) < rank(g) by {
                    lemma_mapped_from(en, children@, en[g]);
                    let j = choose|j: int| 0 <= j < children@.len() && en.contains_key(#[trigger] children@[j].0) && en[children@[j].0] == en[g];
                    assert(children@[j].0 == g);
                    assert(en[entity.0] == node);
                }
                lemma_set_ranked(o, n, node, cs, en, ro, rank);
            }
        }
    }

    /// Gives the node of each entity of `entities` a measure, as
    /// [`UiSurface::update_measure`] does.
    pub fn update_measures(&mut self, entities: &[Entity])
        requires
            old(self).wf(),
            forall|j: int| 0 <= j < entities@.len() ==> old(self).entity_nodes().contains_key((#[trigger] entities@[j]).0),
        ensures
            final(self).wf(),
            final(self).roots() == old(self).roots(),
            final(self).entity_nodes() == old(self).entity_nodes(),
            final(self).entities() == old(self).entities(),
            final(self).nodes().dom() == old(self).nodes().dom(),
            links_of(final(self).nodes()) == links_of(old(self).nodes()),
            lists_from(old(self).nodes(), final(self).nodes()),
            forall|e: u64| #[trigger] old(self).entity_nodes().contains_key(e) ==> final(self).nodes()[old(self).entity_nodes()[e].0].data.needs_measure
                == (entities@.contains(Entity(e)) || old(self).nodes()[old(self).entity_nodes()[e].0].data.needs_measure),
            forall|k: u64| #[trigger] final(self).nodes().contains_key(k) && not_an_entity_node(old(self).entity_nodes(), NodeId(k))
                ==> final(self).nodes()[k].data.needs_measure == old(self).nodes()[k].data.needs_measure,
    {
        let ghost en = self.entity_nodes();
        let mut t: usize = 0;
        while t < entities.len()
            invariant
                t <= entities@.len(),
                self.wf(),
                self.roots() == old(self).roots(),
                self.entity_nodes() == en,
                en == old(self).entity_nodes(),
                self.entities() == old(self).entities(),
                self.nodes().dom() == old(self).nodes().dom(),
                links_of(self.nodes()) == links_of(old(self).nodes()),
                lists_from(old(self).nodes(), self.nodes()),
                forall|j: int| 0 <= j < entities@.len() ==> en.contains_key((#[trigger] entities@[j]).0),
                forall|e: u64| #[trigger] en.contains_key(e) ==> self.nodes()[en[e].0].data.needs_measure
                    == (entities@.take(t as int).contains(Entity(e)) || old(self).nodes()[en[e].0].data.needs_measure),
                forall|k: u64| #[trigger] self.nodes().contains_key(k) && not_an_entity_node(en, NodeId(k))
                    ==> self.nodes()[k].data.needs_measure == old(self).nodes()[k].data.needs_measure,
            decreases entities@.len() - t,
        {
            let ghost before = self.nodes();
            let e = entities[t];
            self.update_measure(e);
            proof {
                let n = self.nodes();
                let x = en[e.0];
                assert(Entity(e.0) == e);
                assert(entities@.take(t + 1) =~= entities@.take(t as int).push(e));
                assert forall|g: u64| #[trigger] en.contains_key(g) implies n[en[g].0].data.needs_measure
                    == (entities@.take(t + 1).contains(Entity(g)) || old(self).nodes()[en[g].0].data.needs_measure) by {
                    assert(ancestor(links_of(before), x.0, 0) == Some(x.0));
                    if g == e.0 {
                        assert(entities@.take(t + 1)[t as int] == Entity(g));
                    } else {
                        assert(en[g] != x);
                        assert(en[g].0 != x.0);
                        if entities@.take(t + 1).contains(Entity(g)) {
                            let j = choose|j: int| 0 <= j < t + 1 && #[trigger] entities@.take(t + 1)[j] == Entity(g);
                            assert(entities@.take(t as int)[j] == Entity(g));
                        }
                        if entities@.take(t as int).contains(Entity(g)) {
                            let j = choose|j: int| 0 <= j < t && #[trigger] entities@.take(t as int)[j] == Entity(g);
                            assert(entities@.take(t + 1)[j] == Entity(g));
                        }
                    }
                }
                assert forall|k: u64| #[trigger] n.contains_key(k) && not_an_entity_node(en, NodeId(k))
                    implies n[k].data.needs_measure == old(self).nodes()[k].data.needs_measure by {
                    assert(en.contains_key(e.0));
                    assert(k != x.0);
                }
                assert forall|k: u64, y: NodeId| #[trigger] n.contains_key(k) && #[trigger] n[k].children@.contains(y)
                    implies old(self).nodes().contains_key(k) && old(self).nodes()[k].children@.contains(y) by {
                    assert(before.contains_key(k) && before[k].children@.contains(y));
                }
            }
            t = t + 1;
        }
        assert(entities@.take(entities@.len() as int) =~= entities@);
    }

    /// Takes the measure from the node of each entity of `entities` that has one, as
    /// [`UiSurface::try_remove_measure`] does.
    pub fn try_remove_measures(&mut self, entities: &[Entity])
        requires
            old(self).wf(),
        ensures
            final(self).wf(),
            final(self).roots() == old(self).roots(),
            final(self).entity_nodes() == old(self).entity_nodes(),
            final(self).entities() == old(self).entities(),
            final(self).nodes().dom() == old(self).nodes().dom(),
            links_of(final(self).nodes()) == links_of(old(self).nodes()),
            lists_from(old(self).nodes(), final(self).nodes()),
            forall|e: u64| #[trigger] old(self).entity_nodes().contains_key(e) ==> final(self).nodes()[old(self).entity_nodes()[e].0].data.needs_measure
                == (!entities@.contains(Entity(e)) && old(self).nodes()[old(self).entity_nodes()[e].0].data.needs_measure),
            forall|k: u64| #[trigger] final(self).nodes().contains_key(k) && not_an_entity_node(old(self).entity_nodes(), NodeId(k))
                ==> final(self).nodes()[k].data.needs_measure == old(self).nodes()[k].data.needs_measure,
    {
        let ghost en = self.entity_nodes();
        let mut t: usize = 0;
        while t < entities.len()
            invariant
                t <= entities@.len(),
                self.wf(),
                self.roots() == old(self).roots(),
                self.entity_nodes() == en,
                en == old(self).entity_nodes(),
                self.entities() == old(self).entities(),
                self.nodes().dom() == old(self).nodes().dom(),
                links_of(self.nodes()) == links_of(old(self).nodes()),
                lists_from(old(self).nodes(), self.nodes()),
                forall|e: u64| #[trigger] en.contains_key(e) ==> self.nodes()[en[e].0].data.needs_measure
                    == (!entities@.take(t as int).contains(Entity(e)) && old(self).nodes()[en[e].0].data.needs_measure),
                forall|k: u64| #[trigger] self.nodes().contains_key(k) && not_an_entity_node(en, NodeId(k))
                    ==> self.nodes()[k].data.needs_measure == old(self).nodes()[k].data.needs_measure,
            decreases entities@.len() - t,
        {
            let ghost before = self.nodes();
            let e = entities[t];
            self.try_remove_measure(e);
            proof {
                let n = self.nodes();
                assert(Entity(e.0) == e);
                assert(entities@.take(t + 1) =~= entities@.take(t as int).push(e));
                assert forall|g: u64| #[trigger] en.contains_key(g) implies n[en[g].0].data.needs_measure
                    == (!entities@.take(t + 1).contains(Entity(g)) && old(self).nodes()[en[g].0].data.needs_measure) by {
                    if en.contains_key(e.0) {
                        let x = en[e.0];
                        assert(ancestor(links_of(before), x.0, 0) == Some(x.0));
                        if g != e.0 {
                            assert(en[g] != x);
                            assert(en[g].0 != x.0);
                        }
                    }
                    if g == e.0 {
                        assert(entities@.take(t + 1)[t as int] == Entity(g));
                    } else {
                        if entities@.take(t + 1).contains(Entity(g)) {
                            let j = choose|j: int| 0 <= j < t + 1 && #[trigger] entities@.take(t + 1)[j] == Entity(g);
                            assert(entities@.take(t as int)[j] == Entity(g));
                        }
                        if entities@.take(t as int).contains(Entity(g)) {
                            let j = choose|j: int| 0 <= j < t && #[trigger] entities@.take(t as int)[j] == Entity(g);
                            assert(entities@.take(t + 1)[j] == Entity(g));
                        }
                    }
                }
                assert forall|k: u64| #[trigger] n.contains_key(k) && not_an_entity_node(en, NodeId(k))
                    implies n[k].data.needs_measure == old(self).nodes()[k].data.needs_measure by {
                    if en.contains_key(e.0) {
                        assert(k != en[e.0].0);
                    }
                }
                assert forall|k: u64, y: NodeId| #[trigger] n.contains_key(k) && #[trigger] n[k].children@.contains(y)
                    implies old(self).nodes().contains_key(k) && old(self).nodes()[k].children@.contains(y) by {
                    assert(before.contains_key(k) && before[k].children@.contains(y));
                }
            }
            t = t + 1;
        }
        assert(entities@.take(entities@.len() as int) =~= entities@);
    }

    /// Removes the children of the node of each entity of `entities` that has one, as
    /// [`UiSurface::try_remove_children`] does.
    pub fn try_remove_children_of(&mut self, entities: &[Entity])
        requires
            old(self).wf(),
        ensures
            final(self).wf(),
            final(self).roots() == old(self).roots(),
            final(self).entity_nodes() == old(self).entity_nodes(),
            final(self).entities() == old(self).entities(),
            final(self).nodes().dom() == old(self).nodes().dom(),
            measures_kept(old(self).nodes(), final(self).nodes()),
            lists_from(old(self).nodes(), final(self).nodes()),
            forall|rank: spec_fn(u64) -> nat| #[trigger] ranked(old(self).nodes(), old(self).entity_nodes(), old(self).roots(), rank)
                ==> ranked(final(self).nodes(), final(self).entity_nodes(), final(self).roots(), rank),
            forall|j: int| 0 <= j < entities@.len() && old(self).entity_nodes().contains_key((#[trigger] entities@[j]).0)
                ==> final(self).nodes()[old(self).entity_nodes()[entities@[j].0].0].children@.len() == 0,
            forall|k: u64| #[trigger] final(self).nodes().contains_key(k) && final(self).nodes()[k].parent != old(self).nodes()[k].parent
                ==> final(self).nodes()[k].parent is None && exists|j: int| 0 <= j < entities@.len()
                    && old(self).entity_nodes().contains_key(#[trigger] entities@[j].0)
                    && old(self).nodes()[old(self).entity_nodes()[entities@[j].0].0].children@.contains(NodeId(k)),
            forall|k: u64| #[trigger] final(self).nodes().contains_key(k) && not_an_entity_node(old(self).entity_nodes(), NodeId(k))
                ==> final(self).nodes()[k].children@ == old(self).nodes()[k].children@,
    {
        let ghost en = self.entity_nodes();
        let ghost o = self.nodes();
        let mut t: usize = 0;
        while t < entities.len()
            invariant
                t <= entities@.len(),
                self.wf(),
                self.roots() == old(self).roots(),
                self.entity_nodes() == en,
                en == old(self).entity_nodes(),
                o == old(self).nodes(),
                self.entities() == old(self).entities(),
                self.nodes().dom() == o.dom(),
                measures_kept(o, self.nodes()),
                lists_from(o, self.nodes()),
                forall|rank: spec_fn(u64) -> nat| #[trigger] ranked(o, en, old(self).roots(), rank)
                    ==> ranked(self.nodes(), en, old(self).roots(), rank),
                forall|j: int| 0 <= j < t && en.contains_key((#[trigger] entities@[j]).0)
                    ==> self.nodes()[en[entities@[j].0].0].children@.len() == 0,
                forall|k: u64| #[trigger] self.nodes().contains_key(k) && self.nodes()[k].parent != o[k].parent
                    ==> self.nodes()[k].parent is None && exists|j: int| 0 <= j < t && en.contains_key(#[trigger] entities@[j].0)
                        && o[en[entities@[j].0].0].children@.contains(NodeId(k)),
                forall|k: u64| #[trigger] self.nodes().contains_key(k) && not_an_entity_node(en, NodeId(k))
                    ==> self.nodes()[k].children@ == o[k].children@,
            decreases entities@.len() - t,
        {
            let ghost before = self.nodes();
            let e = entities[t];
            self.try_remove_children(e);
            proof {
                let n = self.nodes();
                if en.contains_key(e.0) {
                    let x = en[e.0];
                    let l = relinked(before, x, Seq::empty());
                    assert forall|j: int| 0 <= j < t + 1 && en.contains_key((#[trigger] entities@[j]).0)
                        implies n[en[entities@[j].0].0].children@.len() == 0 by {
                        if en[entities@[j].0] != x {
                            assert(en[entities@[j].0].0 != x.0);
                        }
                    }
                    assert forall|k: u64| #[trigger] n.contains_key(k) && n[k].parent != o[k].parent
                        implies n[k].parent is None && exists|j: int| 0 <= j < t + 1 && en.contains_key(#[trigger] entities@[j].0)
                            && o[en[entities@[j].0].0].children@.contains(NodeId(k)) by {
                        assert(links_of(n)[k] == n[k].parent);
                        if n[k].parent != before[k].parent {
                            assert(before[x.0].children@.contains(NodeId(k)));
                            assert(o[x.0].children@.contains(NodeId(k)));
                            assert(entities@[t as int] == e);
                        } else {
                            let j = choose|j: int| 0 <= j < t && en.contains_key(#[trigger] entities@[j].0)
                                && o[en[entities@[j].0].0].children@.contains(NodeId(k));
                        }
                    }
                    assert forall|k: u64, y: NodeId| #[trigger] n.contains_key(k) && #[trigger] n[k].children@.contains(y)
                        implies o.contains_key(k) && o[k].children@.contains(y) by {
                        assert(before.contains_key(k));
                        if k != x.0 {
                            assert(before[k].children@.contains(y));
                        }
                    }
                    assert forall|k: u64| #[trigger] n.contains_key(k) && o.contains_key(k)
                        implies n[k].data.needs_measure == o[k].data.needs_measure by {
                        assert(before.contains_key(k));
                    }
                    assert forall|k: u64| #[trigger] n.contains_key(k) && not_an_entity_node(en, NodeId(k))
                        implies n[k].children@ == o[k].children@ by {
                        assert(en[e.0] != NodeId(k));
                        assert(before.contains_key(k));
                    }
                }
            }
            t = t + 1;
        }
    }

    /// Sets the children of the node of each change's entity, as
    /// [`UiSurface::update_children`] does, change after change. The changes' entities are
    /// distinct and have nodes, and a rank of the entities orders every parent before its
    /// children: the UI hierarchy has no cycle.
    pub fn update_children_of(&mut self, changes: &[ChildrenChange])
        requires
            old(self).wf(),
            forall|m1: int, m2: int| 0 <= m1 < m2 < changes@.len() ==> (#[trigger] changes@[m1]).entity != (#[trigger] changes@[m2]).entity,
            forall|m: int| 0 <= m < changes@.len() ==> old(self).entity_nodes().contains_key((#[trigger] changes@[m]).entity.0),
            exists|rank: spec_fn(u64) -> nat| #[trigger] changes_ranked(old(self).nodes(), old(self).entity_nodes(), old(self).roots(), changes@, rank),
        ensures
            final(self).wf(),
            final(self).roots() == old(self).roots(),
            final(self).entity_nodes() == old(self).entity_nodes(),
            final(self).entities() == old(self).entities(),
            final(self).nodes().dom() == old(self).nodes().dom(),
            measures_kept(old(self).nodes(), final(self).nodes()),
            forall|rank: spec_fn(u64) -> nat| #[trigger] changes_ranked(old(self).nodes(), old(self).entity_nodes(), old(self).roots(), changes@, rank)
                ==> ranked(final(self).nodes(), final(self).entity_nodes(), final(self).roots(), rank),
            forall|m: int| 0 <= m < changes@.len() ==> final(self).nodes()[old(self).entity_nodes()[(#[trigger] changes@[m]).entity.0].0].children@
                == mapped_nodes(old(self).entity_nodes(), changes@[m].children@),
            forall|k: u64| #[trigger] final(self).nodes().contains_key(k)
                && (forall|m: int| 0 <= m < changes@.len() ==> old(self).entity_nodes()[(#[trigger] changes@[m]).entity.0].0 != k)
                ==> final(self).nodes()[k].children@ == old(self).nodes()[k].children@,
            forall|k: u64| #[trigger] final(self).nodes().contains_key(k) && final(self).nodes()[k].parent != old(self).nodes()[k].parent
                ==> exists|m: int| 0 <= m < changes@.len() && ({
                    let c = #[trigger] changes@[m];
                    ||| old(self).nodes()[old(self).entity_nodes()[c.entity.0].0].children@.contains(NodeId(k))
                    ||| mapped_nodes(old(self).entity_nodes(), c.children@).contains(NodeId(k))
                }),
    {
        let ghost en = self.entity_nodes();
        let ghost o = self.nodes();
        let ghost ro = self.roots();
        let mut t: usize = 0;
        while t < changes.len()
            invariant
                t <= changes@.len(),
                self.wf(),
                self.roots() == ro,
                ro == old(self).roots(),
                self.entity_nodes() == en,
                en == old(self).entity_nodes(),
                o == old(self).nodes(),
                self.entities() == old(self).entities(),
                self.nodes().dom() == o.dom(),
                measures_kept(o, self.nodes()),
                forall|m1: int, m2: int| 0 <= m1 < m2 < changes@.len() ==> (#[trigger] changes@[m1]).entity != (#[trigger] changes@[m2]).entity,
                forall|m: int| 0 <= m < changes@.len() ==> en.contains_key((#[trigger] changes@[m]).entity.0),
                exists|rank: spec_fn(u64) -> nat| #[trigger] changes_ranked(o, en, ro, changes@, rank),
                forall|rank: spec_fn(u64) -> nat| #[trigger] changes_ranked(o, en, ro, changes@, rank)
                    ==> ranked(self.nodes(), en, ro, rank),
                forall|m: int| 0 <= m < t ==> self.nodes()[en[(#[trigger] changes@[m]).entity.0].0].children@
                    == mapped_nodes(en, changes@[m].children@),
                forall|k: u64| #[trigger] self.nodes().contains_key(k)
                    && (forall|m: int| 0 <= m < t ==> en[(#[trigger] changes@[m]).entity.0].0 != k)
                    ==> self.nodes()[k].children@ == o[k].children@,
                forall|k: u64| #[trigger] self.nodes().contains_key(k) && self.nodes()[k].parent != o[k].parent
                    ==> exists|m: int| 0 <= m < t && ({
                        let c = #[trigger] changes@[m];
                        ||| o[en[c.entity.0].0].children@.contains(NodeId(k))
                        ||| mapped_nodes(en, c.children@).contains(NodeId(k))
                    }),
            decreases changes@.len() - t,
        {
            let ghost before = self.nodes();
            let ch = &changes[t];
            let ghost x = en[ch.entity.0];
            let ghost cs = mapped_nodes(en, ch.children@);
            proof {
                let rank = choose|rank: spec_fn(u64) -> nat| #[trigger] changes_ranked(o, en, ro, changes@, rank);
                assert(ranked(before, en, ro, rank));
                assert(changes@[t as int] == *ch);
                assert forall|g: u64| #[trigger] en.contains_key(g) && cs.contains(en[g])
                    implies is_root_node(ro, x) || exists|f: u64| en.contains_key(f) && #[trigger] en[f] == x && rank(f) < rank(g) by {
                    lemma_mapped_from(en, ch.children@, en[g]);
                    let j = choose|j: int| 0 <= j < ch.children@.len() && en.contains_key(#[trigger] ch.children@[j].0) && en[ch.children@[j].0] == en[g];
                    assert(ch.children@[j].0 == g);
                    assert(changes@[t as int].children@[j] == ch.children@[j]);
                }
                lemma_relinked_ranked(before, x, cs, en, ro, rank);
                let l = relinked(before, x, cs);
                assert forall|r: u64| #[trigger] ro.contains_key(r) implies is_key(ro[r]) && l.contains_key(ro[r].0) && l[ro[r].0] is None by {
                    if cs.contains(NodeId(ro[r].0)) {
                        lemma_mapped_from(en, ch.children@, NodeId(ro[r].0));
                        assert(NodeId(ro[r].0) == ro[r]);
                    }
                }
                lemma_ranked_chain(l, en, ro, rank, ch.entity.0, rank(ch.entity.0));
            }
            self.update_children(ch.entity, ch.children.as_slice());
            proof {
                let n = self.nodes();
                assert(changes@[t as int] == *ch);
                assert forall|rank: spec_fn(u64) -> nat| #[trigger] changes_ranked(o, en, ro, changes@, rank) implies ranked(n, en, ro, rank) by {
                    assert(ranked(before, en, ro, rank));
                    assert forall|k: int| 0 <= k < ch.children@.len() implies rank(ch.entity.0) < rank((#[trigger] ch.children@[k]).0) by {
                        assert(changes@[t as int].children@[k] == ch.children@[k]);
                    }
                }
                assert forall|m: int| 0 <= m < t + 1 implies n[en[(#[trigger] changes@[m]).entity.0].0].children@
                    == mapped_nodes(en, changes@[m].children@) by {
                    if m < t {
                        assert(changes@[m].entity != changes@[t as int].entity);
                        assert(en[changes@[m].entity.0] != x);
                        assert(en[changes@[m].entity.0].0 != x.0);
                    }
                }
                assert forall|k: u64| #[trigger] n.contains_key(k)
                    && (forall|m: int| 0 <= m < t + 1 ==> en[(#[trigger] changes@[m]).entity.0].0 != k)
                    implies n[k].children@ == o[k].children@ by {
                    assert(en[changes@[t as int].entity.0].0 != k);
                    assert(before.contains_key(k));
                }
                assert forall|k: u64| #[trigger] n.contains_key(k) && n[k].parent != o[k].parent
                    implies exists|m: int| 0 <= m < t + 1 && ({
                        let c = #[trigger] changes@[m];
                        ||| o[en[c.entity.0].0].children@.contains(NodeId(k))
                        ||| mapped_nodes(en, c.children@).contains(NodeId(k))
                    }) by {
                    assert(links_of(n)[k] == n[k].parent);
                    if n[k].parent != before[k].parent {
                        let l = relinked(before, x, cs);
                        if !cs.contains(NodeId(k)) {
                            assert(before[x.0].children@.contains(NodeId(k)));
                            assert(forall|m: int| 0 <= m < t ==> en[(#[trigger] changes@[m]).entity.0].0 != x.0) by {
                                assert forall|m: int| 0 <= m < t implies en[(#[trigger] changes@[m]).entity.0].0 != x.0 by {
                                    assert(changes@[m].entity != changes@[t as int].entity);
                                    assert(en[changes@[m].entity.0] != x);
                                }
                            }
                            assert(before[x.0].children@ == o[x.0].children@);
                        }
                        assert(changes@[t as int] == *ch);
                    } else {
                        let m = choose|m: int| 0 <= m < t && ({
                            let c = #[trigger] changes@[m];
                            ||| o[en[c.entity.0].0].children@.contains(NodeId(k))
                            ||| mapped_nodes(en, c.children@).contains(NodeId(k))
                        });
                    }
                }
                assert forall|k: u64| #[trigger] n.contains_key(k) && o.contains_key(k)
                    implies n[k].data.needs_measure == o[k].data.needs_measure by {
                    assert(before.contains_key(k));
                }
            }
            t = t + 1;
        }
    }
}

/// Updates the surface for a layout pass, step after step: the root nodes of the roots in
/// `removed_layouts` are removed; each root of `roots` gets a root node where it has none,
/// which is sized to its window again, and the nodes of its stack that are updated get a
/// layout node or a new style; the nodes of the entities in `new_measures` get a measure; the
/// entities in `removed_nodes` lose their layout nodes; the nodes of the entities in
/// `removed_measures` lose their measure; the root node of each root gets the nodes of its
/// stack's root nodes as its children; the nodes of the entities in `removed_children` lose
/// their children; and the node of each entity of `changed_children` gets the nodes of its
/// new children. Some rank of the entities orders every parent before its children: the UI
/// hierarchy has no cycle.
pub fn ui_layout_system(
    surface: &mut UiSurface,
    removed_layouts: &[Entity],
    roots: &[LayoutRoot],
    new_measures: &[Entity],
    removed_nodes: &[Entity],
    removed_measures: &[Entity],
    removed_children: &[Entity],
    changed_children: &[ChildrenChange],
)
    requires
        old(surface).wf(),
        old(surface).nodes().dom().len() + stack_work(roots@) + 2 < u32::MAX,
        old(surface).entities().dom().len() + stack_work(roots@) + 2 < u32::MAX,
        forall|i: int, j: int| 0 <= i < j < roots@.len() ==> (#[trigger] roots@[i]).entity != (#[trigger] roots@[j]).entity,
        forall|i: int, k: int| 0 <= i < roots@.len() && 0 <= k < roots@[i].children@.len() ==> {
            let c = #[trigger] roots@[i].children@[k];
            &&& old(surface).entity_nodes().contains_key(c.0) || upserted(roots@, c.0)
            &&& !removed_nodes@.contains(c)
        },
        forall|j: int| 0 <= j < new_measures@.len() ==> {
            let e = #[trigger] new_measures@[j];
            old(surface).entity_nodes().contains_key(e.0) || upserted(roots@, e.0)
        },
        forall|m1: int, m2: int| 0 <= m1 < m2 < changed_children@.len()
            ==> (#[trigger] changed_children@[m1]).entity != (#[trigger] changed_children@[m2]).entity,
        forall|m: int| 0 <= m < changed_children@.len() ==> {
            let e = (#[trigger] changed_children@[m]).entity;
            &&& old(surface).entity_nodes().contains_key(e.0) || upserted(roots@, e.0)
            &&& !removed_nodes@.contains(e)
        },
        exists|rank: spec_fn(u64) -> nat| #[trigger] changes_ranked(
            old(surface).nodes(), old(surface).entity_nodes(), old(surface).roots(), changed_children@, rank),
    ensures
        final(surface).wf(),
        forall|r: u64| #[trigger] final(surface).roots().contains_key(r)
            <==> (old(surface).roots().contains_key(r) && !removed_layouts@.contains(Entity(r)))
                || exists|i: int| 0 <= i < roots@.len() && #[trigger] roots@[i].entity.0 == r,
        forall|e: u64| #[trigger] final(surface).entity_nodes().contains_key(e)
            <==> (old(surface).entity_nodes().contains_key(e) || upserted(roots@, e)) && !removed_nodes@.contains(Entity(e)),
        forall|e: u64| #[trigger] final(surface).entity_nodes().contains_key(e) && old(surface).entity_nodes().contains_key(e)
            ==> final(surface).entity_nodes()[e] == old(surface).entity_nodes()[e],
        final(surface).nodes().dom().len() <= old(surface).nodes().dom().len() + stack_work(roots@),
        final(surface).entities().dom().len() <= old(surface).entities().dom().len() + stack_work(roots@),
        forall|rank: spec_fn(u64) -> nat| #[trigger] changes_ranked(
            old(surface).nodes(), old(surface).entity_nodes(), old(surface).roots(), changed_children@, rank)
            ==> ranked(final(surface).nodes(), final(surface).entity_nodes(), final(surface).roots(), rank),
        forall|i: int| 0 <= i < roots@.len() ==> final(surface).nodes()[final(surface).roots()[(#[trigger] roots@[i]).entity.0].0].children@
            == nodes_of(final(surface).entity_nodes(), roots@[i].children@),
        forall|i: int, k: int| 0 <= i < roots@.len() && 0 <= k < roots@[i].children@.len()
            && (forall|j: int| 0 <= j < roots@.len() && j != i ==> !(#[trigger] roots@[j].children@).contains(roots@[i].children@[k]))
            && (forall|m: int| 0 <= m < changed_children@.len() ==> !(#[trigger] changed_children@[m]).children@.contains(roots@[i].children@[k]))
            && (forall|q: u64| old(surface).nodes().contains_key(q)
                && #[trigger] old(surface).nodes()[q].children@.contains(final(surface).entity_nodes()[roots@[i].children@[k].0])
                ==> old(surface).roots().contains_key(roots@[i].entity.0) && q == old(surface).roots()[roots@[i].entity.0].0)
            ==> final(surface).nodes()[final(surface).entity_nodes()[(#[trigger] roots@[i].children@[k]).0].0].parent
                == Some(final(surface).roots()[roots@[i].entity.0]),
        forall|m: int| 0 <= m < changed_children@.len()
            ==> final(surface).nodes()[final(surface).entity_nodes()[(#[trigger] changed_children@[m]).entity.0].0].children@
                == mapped_nodes(final(surface).entity_nodes(), changed_children@[m].children@),
        forall|k: u64, x: NodeId| #[trigger] final(surface).nodes().contains_key(k) && #[trigger] final(surface).nodes()[k].children@.contains(x)
            && !is_root_node(final(surface).roots(), NodeId(k))
            && (forall|m: int| 0 <= m < changed_children@.len() ==> final(surface).entity_nodes()[(#[trigger] changed_children@[m]).entity.0].0 != k)
            ==> old(surface).nodes().contains_key(k) && old(surface).nodes()[k].children@.contains(x),
        forall|j: int| 0 <= j < removed_children@.len() && final(surface).entity_nodes().contains_key((#[trigger] removed_children@[j]).0)
            && (forall|m: int| 0 <= m < changed_children@.len() ==> (#[trigger] changed_children@[m]).entity != removed_children@[j])
            ==> final(surface).nodes()[final(surface).entity_nodes()[removed_children@[j].0].0].children@.len() == 0,
        forall|e: u64| #[trigger] final(surface).entity_nodes().contains_key(e) && removed_measures@.contains(Entity(e))
            ==> !final(surface).nodes()[final(surface).entity_nodes()[e].0].data.needs_measure,
        forall|e: u64| #[trigger] final(surface).entity_nodes().contains_key(e) && new_measures@.contains(Entity(e))
            && !removed_measures@.contains(Entity(e))
            ==> final(surface).nodes()[final(surface).entity_nodes()[e].0].data.needs_measure,
        forall|e: u64| #[trigger] final(surface).entity_nodes().contains_key(e) && old(surface).entity_nodes().contains_key(e)
            && !new_measures@.contains(Entity(e)) && !removed_measures@.contains(Entity(e))
            ==> final(surface).nodes()[final(surface).entity_nodes()[e].0].data.needs_measure
                == old(surface).nodes()[old(surface).entity_nodes()[e].0].data.needs_measure,
        forall|e: u64| #[trigger] final(surface).entity_nodes().contains_key(e) && !old(surface).entity_nodes().contains_key(e)
            && !new_measures@.contains(Entity(e))
            ==> !final(surface).nodes()[final(surface).entity_nodes()[e].0].data.needs_measure,
{
    let ghost s0 = *surface;
    let ghost rank0 = choose|rank: spec_fn(u64) -> nat| #[trigger] changes_ranked(s0.nodes(), s0.entity_nodes(), s0.roots(), changed_children@, rank);
    surface.remove_root_nodes(removed_layouts);
    let ghost s1 = *surface;
    surface.update_layout_roots(roots);
    let ghost s2 = *surface;
    proof {
        assert forall|j: int| 0 <= j < new_measures@.len() implies s2.entity_nodes().contains_key((#[trigger] new_measures@[j]).0) by {
            let e = new_measures@[j];
            assert(s1.entity_nodes().contains_key(e.0) || upserted(roots@, e.0));
        }
    }
    surface.update_measures(new_measures);
    let ghost s3 = *surface;
    surface.remove_entities(removed_nodes);
    let ghost s4 = *surface;
    surface.try_remove_measures(removed_measures);
    let ghost s5 = *surface;
    proof {
        assert forall|i: int| 0 <= i < roots@.len() implies s5.roots().contains_key((#[trigger] roots@[i]).entity.0) by {
            assert(s2.roots().contains_key(roots@[i].entity.0));
        }
        assert forall|i: int, k: int| 0 <= i < roots@.len() && 0 <= k < roots@[i].children@.len()
            implies s5.entity_nodes().contains_key((#[trigger] roots@[i].children@[k]).0) by {
            let c = roots@[i].children@[k];
            assert(Entity(c.0) == c);
            assert(s2.entity_nodes().contains_key(c.0));
        }
    }
    surface.set_all_root_nodes_children(roots);
    let ghost s6 = *surface;
    surface.try_remove_children_of(removed_children);
    let ghost s7 = *surface;
    proof {
        assert(ranked(s0.nodes(), s0.entity_nodes(), s0.roots(), rank0));
        assert(ranked(s1.nodes(), s1.entity_nodes(), s1.roots(), rank0));
        assert(ranked(s2.nodes(), s2.entity_nodes(), s2.roots(), rank0));
        assert(ranked(s3.nodes(), s3.entity_nodes(), s3.roots(), rank0));
        assert(ranked(s4.nodes(), s4.entity_nodes(), s4.roots(), rank0));
        assert(ranked(s5.nodes(), s5.entity_nodes(), s5.roots(), rank0));
        assert(ranked(s6.nodes(), s6.entity_nodes(), s6.roots(), rank0));
        assert(ranked(s7.nodes(), s7.entity_nodes(), s7.roots(), rank0));
        assert(changes_ranked(s7.nodes(), s7.entity_nodes(), s7.roots(), changed_children@, rank0));
        assert forall|m: int| 0 <= m < changed_children@.len() implies s7.entity_nodes().contains_key((#[trigger] changed_children@[m]).entity.0) by {
            let e = changed_children@[m].entity;
            assert(Entity(e.0) == e);
            assert(s2.entity_nodes().contains_key(e.0));
        }
    }
    surface.update_children_of(changed_children);
    proof {
        let s8 = *surface;
        assert forall|rank: spec_fn(u64) -> nat| #[trigger] changes_ranked(s0.nodes(), s0.entity_nodes(), s0.roots(), changed_children@, rank)
            implies ranked(s8.nodes(), s8.entity_nodes(), s8.roots(), rank) by {
            assert(ranked(s0.nodes(), s0.entity_nodes(), s0.roots(), rank));
            assert(ranked(s1.nodes(), s1.entity_nodes(), s1.roots(), rank));
            assert(ranked(s2.nodes(), s2.entity_nodes(), s2.roots(), rank));
            assert(ranked(s3.nodes(), s3.entity_nodes(), s3.roots(), rank));
            assert(ranked(s4.nodes(), s4.entity_nodes(), s4.roots(), rank));
            assert(ranked(s5.nodes(), s5.entity_nodes(), s5.roots(), rank));
            assert(ranked(s6.nodes(), s6.entity_nodes(), s6.roots(), rank));
            assert(ranked(s7.nodes(), s7.entity_nodes(), s7.roots(), rank));
            assert(changes_ranked(s7.nodes(), s7.entity_nodes(), s7.roots(), changed_children@, rank));
        }
        lemma_lists_from_trans(s1.nodes(), s2.nodes(), s3.nodes());
        lemma_lists_from_trans(s1.nodes(), s3.nodes(), s4.nodes());
        lemma_lists_from_trans(s1.nodes(), s4.nodes(), s5.nodes());
        lemma_lists_from_trans(s0.nodes(), s1.nodes(), s5.nodes());
        assert forall|k: u64, x: NodeId| #[trigger] s8.nodes().contains_key(k) && #[trigger] s8.nodes()[k].children@.contains(x)
            && !is_root_node(s8.roots(), NodeId(k))
            && (forall|m: int| 0 <= m < changed_children@.len() ==> s8.entity_nodes()[(#[trigger] changed_children@[m]).entity.0].0 != k)
            implies s0.nodes().contains_key(k) && s0.nodes()[k].children@.contains(x) by {
            assert(s7.nodes().contains_key(k));
            assert(s7.nodes()[k].children@ == s8.nodes()[k].children@);
            assert(s6.nodes()[k].children@.contains(x));
            assert(s5.nodes().contains_key(k));
            assert(s5.nodes()[k].children@.contains(x));
        }
        assert forall|i: int, k: int| 0 <= i < roots@.len() && 0 <= k < roots@[i].children@.len()
            && (forall|j: int| 0 <= j < roots@.len() && j != i ==> !(#[trigger] roots@[j].children@).contains(roots@[i].children@[k]))
            && (forall|m: int| 0 <= m < changed_children@.len() ==> !(#[trigger] changed_children@[m]).children@.contains(roots@[i].children@[k]))
            && (forall|q: u64| s0.nodes().contains_key(q)
                && #[trigger] s0.nodes()[q].children@.contains(s8.entity_nodes()[roots@[i].children@[k].0])
                ==> s0.roots().contains_key(roots@[i].entity.0) && q == s0.roots()[roots@[i].entity.0].0)
            implies s8.nodes()[s8.entity_nodes()[(#[trigger] roots@[i].children@[k]).0].0].parent
                == Some(s8.roots()[roots@[i].entity.0]) by {
            let ce = roots@[i].children@[k];
            let ri = roots@[i].entity.0;
            let c = s8.entity_nodes()[ce.0];
            assert(s5.entity_nodes().contains_key(ce.0));
            assert(s5.entity_nodes()[ce.0] == c);
            assert forall|r: u64| #[trigger] s5.roots().contains_key(r) && r != ri
                implies !s5.nodes()[s5.roots()[r].0].children@.contains(c) by {
                if s5.nodes()[s5.roots()[r].0].children@.contains(c) {
                    let q = s5.roots()[r].0;
                    assert(s4.nodes().contains_key(q) && s4.nodes()[q].children@.contains(c));
                    assert(s3.nodes()[s3.roots()[r].0].children@.contains(c));
                    assert(s2.nodes().contains_key(q) && s2.nodes()[q].children@.contains(c));
                    assert(s1.nodes()[s1.roots()[r].0].children@.contains(c));
                    assert(s0.roots().contains_key(r) && s0.roots()[r].0 == q);
                    assert(s0.nodes()[q].children@.contains(c));
                    assert(s0.roots()[r] == s0.roots()[ri]);
                }
            }
            assert(s6.nodes()[c.0].parent == Some(s6.roots()[ri]));
            assert forall|e: u64| #[trigger] s6.entity_nodes().contains_key(e)
                implies !s6.nodes()[s6.entity_nodes()[e].0].children@.contains(c) by {
                let q = s6.entity_nodes()[e].0;
                if s6.nodes()[q].children@.contains(c) {
                    assert(!is_root_node(s5.roots(), NodeId(q))) by {
                        if is_root_node(s5.roots(), NodeId(q)) {
                            let r = choose|r: u64| s5.roots().contains_key(r) && #[trigger] s5.roots()[r] == NodeId(q);
                            assert(s6.roots().contains_key(r));
                            assert(s6.entity_nodes()[e] == NodeId(q));
                        }
                    }
                    assert(s6.nodes().contains_key(q));
                    assert(s5.nodes()[q].children@.contains(c));
                    assert(s1.nodes().contains_key(q) && s1.nodes()[q].children@.contains(c));
                    assert(s0.nodes().contains_key(q) && s0.nodes()[q].children@.contains(c));
                    assert(s0.roots().contains_key(ri) && q == s0.roots()[ri].0);
                    assert(s4.entity_nodes().contains_key(e));
                    assert(s2.entity_nodes().contains_key(e));
                    assert(s4.entity_nodes()[e] == s2.entity_nodes()[e]);
                    if s0.entity_nodes().contains_key(e) {
                        assert(s2.entity_nodes()[e] == s0.entity_nodes()[e]);
                        assert(s0.entity_nodes()[e] == s0.roots()[ri]);
                    } else {
                        assert(!s1.nodes().contains_key(s2.entity_nodes()[e].0));
                    }
                }
            }
            if s7.nodes()[c.0].parent != s6.nodes()[c.0].parent {
                let j = choose|j: int| 0 <= j < removed_children@.len()
                    && s6.entity_nodes().contains_key(#[trigger] removed_children@[j].0)
                    && s6.nodes()[s6.entity_nodes()[removed_children@[j].0].0].children@.contains(NodeId(c.0));
                assert(NodeId(c.0) == c);
            }
            if s8.nodes()[c.0].parent != s7.nodes()[c.0].parent {
                let m = choose|m: int| 0 <= m < changed_children@.len() && ({
                    let ch = #[trigger] changed_children@[m];
                    ||| s7.nodes()[s7.entity_nodes()[ch.entity.0].0].children@.contains(NodeId(c.0))
                    ||| mapped_nodes(s7.entity_nodes(), ch.children@).contains(NodeId(c.0))
                });
                let ch = changed_children@[m];
                assert(NodeId(c.0) == c);
                if mapped_nodes(s7.entity_nodes(), ch.children@).contains(c) {
                    lemma_mapped_from(s7.entity_nodes(), ch.children@, c);
                    let j = choose|j: int| 0 <= j < ch.children@.len() && s7.entity_nodes().contains_key(#[trigger] ch.children@[j].0)
                        && s7.entity_nodes()[ch.children@[j].0] == c;
                    assert(ch.children@[j].0 == ce.0);
                    assert(ch.children@[j] == ce);
                } else {
                    let q = s7.entity_nodes()[ch.entity.0].0;
                    assert(s7.nodes().contains_key(q));
                    assert(s6.nodes()[q].children@.contains(c));
                }
            }
        }
    }
}

} // verus!
