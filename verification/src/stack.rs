//! The UI stack: every UI node, back to front, in the order in which it is drawn.
//!
//! Roots come in the order of their z-index, and after each node come its children's
//! subtrees, in the order of the children's z-indices; nodes with equal z-indices keep
//! their order.
use vstd::prelude::*;
use crate::layout::Entity;

verus! {

/// `s` is ordered by `key`.
pub open spec fn sorted_by_key<A>(s: Seq<A>, key: spec_fn(A) -> int) -> bool {
    forall|i: int, j: int| 0 <= i <= j < s.len() ==> key(s[i]) <= key(s[j])
}

/// Holds of the values whose key is `k`.
pub open spec fn key_is<A>(key: spec_fn(A) -> int, k: int) -> spec_fn(A) -> bool {
    |x: A| key(x) == k
}

/// The values of `s` whose key is `k`, in order.
pub open spec fn with_key<A>(s: Seq<A>, key: spec_fn(A) -> int, k: int) -> Seq<A> {
    s.filter(key_is(key, k))
}

/// `r` is `s` sorted by `key`, values with equal keys in the order they have in `s`.
pub open spec fn stable_sort_of<A>(r: Seq<A>, s: Seq<A>, key: spec_fn(A) -> int) -> bool {
    &&& sorted_by_key(r, key)
    &&& forall|k: int| #[trigger] with_key(r, key, k) == with_key(s, key, k)
}

/// The stable sort of `s` by `key`.
pub open spec fn stable_sorted<A>(s: Seq<A>, key: spec_fn(A) -> int) -> Seq<A> {
    choose|r: Seq<A>| stable_sort_of(r, s, key)
}

/// There is only one stable sort of a sequence.
pub proof fn lemma_stable_sort_unique<A>(r1: Seq<A>, r2: Seq<A>, key: spec_fn(A) -> int)
    requires
        sorted_by_key(r1, key),
        sorted_by_key(r2, key),
        forall|k: int| #[trigger] with_key(r1, key, k) == with_key(r2, key, k),
    ensures
        r1 == r2,
    decreases r1.len(),
{
    if r1.len() == 0 || r2.len() == 0 {
        if r1.len() != r2.len() {
            let (a, b) = if r1.len() == 0 { (r1, r2) } else { (r2, r1) };
            let x = b.last();
            b.lemma_filter_contains(key_is(key, key(x)), b.len() - 1);
            assert(with_key(a, key, key(x)) == with_key(b, key, key(x)));
            assert(a.filter(key_is(key, key(x))).len() == 0) by {
                reveal_with_fuel(Seq::filter, 1);
            }
        }
        assert(r1 =~= r2);
    } else {
        let x1 = r1.last();
        let x2 = r2.last();
        let d1 = r1.drop_last();
        let d2 = r2.drop_last();
        assert(r1 =~= d1.push(x1));
        assert(r2 =~= d2.push(x2));
        r1.lemma_filter_contains(key_is(key, key(x1)), r1.len() - 1);
        assert(with_key(r1, key, key(x1)) == with_key(r2, key, key(x1)));
        r2.lemma_filter_contains_rev(key_is(key, key(x1)), x1);
        let m1 = choose|m: int| 0 <= m < r2.len() && r2[m] == x1;
        assert(key(r2[m1]) <= key(x2));
        r2.lemma_filter_contains(key_is(key, key(x2)), r2.len() - 1);
        assert(with_key(r1, key, key(x2)) == with_key(r2, key, key(x2)));
        r1.lemma_filter_contains_rev(key_is(key, key(x2)), x2);
        let m2 = choose|m: int| 0 <= m < r1.len() && r1[m] == x2;
        assert(key(r1[m2]) <= key(x1));
        let kk = key(x1);
        d1.lemma_filter_push(x1, key_is(key, kk));
        d2.lemma_filter_push(x2, key_is(key, kk));
        assert(with_key(r1, key, kk) == with_key(d1, key, kk).push(x1));
        assert(with_key(r2, key, kk) == with_key(d2, key, kk).push(x2));
        assert(x1 == with_key(r1, key, kk).last());
        assert(x2 == with_key(r2, key, kk).last());
        assert(with_key(d1, key, kk) =~= with_key(r1, key, kk).drop_last());
        assert(with_key(d2, key, kk) =~= with_key(r2, key, kk).drop_last());
        assert forall|k: int| #[trigger] with_key(d1, key, k) == with_key(d2, key, k) by {
            d1.lemma_filter_push(x1, key_is(key, k));
            d2.lemma_filter_push(x2, key_is(key, k));
            assert(with_key(r1, key, k) == with_key(r2, key, k));
        }
        lemma_stable_sort_unique(d1, d2, key);
    }
}

/// Placing `x` after every value whose key is at most its own keeps `r` a stable sort of
/// `s` extended by `x`.
pub proof fn lemma_insert_stable<A>(r: Seq<A>, s: Seq<A>, x: A, p: int, key: spec_fn(A) -> int)
    requires
        stable_sort_of(r, s, key),
        0 <= p <= r.len(),
        forall|i: int| 0 <= i < p ==> key(r[i]) <= key(x),
        forall|i: int| p <= i < r.len() ==> key(r[i]) > key(x),
    ensures
        stable_sort_of(r.take(p) + seq![x] + r.skip(p), s.push(x), key),
{
    let r2 = r.take(p) + seq![x] + r.skip(p);
    assert(r =~= r.take(p) + r.skip(p));
    assert forall|k: int| #[trigger] with_key(r2, key, k) == with_key(s.push(x), key, k) by {
        let pred = key_is(key, k);
        Seq::filter_distributes_over_add(r.take(p) + seq![x], r.skip(p), pred);
        Seq::filter_distributes_over_add(r.take(p), seq![x], pred);
        Seq::filter_distributes_over_add(r.take(p), r.skip(p), pred);
        s.lemma_filter_push(x, pred);
        assert(seq![x] =~= Seq::<A>::empty().push(x));
        Seq::<A>::empty().lemma_filter_push(x, pred);
        assert(Seq::<A>::empty().filter(pred) =~= Seq::<A>::empty()) by {
            reveal_with_fuel(Seq::filter, 1);
        }
        if k == key(x) {
            r.skip(p).lemma_all_neg_filter_empty(pred);
            assert(r.skip(p).filter(pred) =~= Seq::<A>::empty());
            assert(with_key(r2, key, k) =~= with_key(r, key, k).push(x));
        } else {
            assert(with_key(r2, key, k) =~= with_key(r, key, k));
        }
    }
}

/// Stamping position `visited.len()` on `i` extends the stamps to `visited.push(i)`.
proof fn lemma_stamp_push(initial: Seq<u32>, before: Seq<u32>, after: Seq<u32>, visited: Seq<usize>, i: usize)
    requires
        stamped(initial, before, visited),
        i < before.len(),
        before.len() <= usize::MAX,
        after == before.update(i as int, visited.len() as u32),
    ensures
        stamped(initial, after, visited.push(i)),
{
    assert forall|j: int| 0 <= j < after.len() implies #[trigger] after[j] == if last_position(visited.push(i), j as usize) >= 0 {
        last_position(visited.push(i), j as usize) as u32
    } else {
        initial[j]
    } by {
        assert(visited.push(i).drop_last() =~= visited);
        assert((j as usize) as int == j);
        assert(before[j] == if last_position(visited, j as usize) >= 0 {
            last_position(visited, j as usize) as u32
        } else {
            initial[j]
        });
    }
}

/// The values of `r` before `p` have keys at most `k`, the others keys above `k`.
spec fn splits_at<A>(r: Seq<A>, key: spec_fn(A) -> int, k: int, p: int) -> bool {
    &&& 0 <= p <= r.len()
    &&& forall|i: int| 0 <= i < p ==> key(#[trigger] r[i]) <= k
    &&& forall|i: int| p <= i < r.len() ==> key(#[trigger] r[i]) > k
}

/// A sequence sorted by key splits into the values whose key is at most `k` and those after.
proof fn lemma_split_exists<A>(r: Seq<A>, key: spec_fn(A) -> int, k: int)
    requires
        sorted_by_key(r, key),
    ensures
        exists|p: int| #[trigger] splits_at(r, key, k, p),
    decreases r.len(),
{
    if r.len() == 0 {
        assert(splits_at(r, key, k, 0));
    } else if key(r.last()) <= k {
        let p = r.len() as int;
        assert forall|i: int| 0 <= i < p implies key(#[trigger] r[i]) <= k by {
            assert(key(r[i]) <= key(r[r.len() - 1]));
        }
        assert(splits_at(r, key, k, p));
    } else {
        let d = r.drop_last();
        lemma_split_exists(d, key, k);
        let p = choose|p: int| #[trigger] splits_at(d, key, k, p);
        assert forall|i: int| p <= i < r.len() implies key(#[trigger] r[i]) > k by {
            if i < d.len() {
                assert(r[i] == d[i]);
            }
        }
        assert forall|i: int| 0 <= i < p implies key(#[trigger] r[i]) <= k by {
            assert(r[i] == d[i]);
        }
        assert(splits_at(r, key, k, p));
    }
}

/// Every sequence has a stable sort, and `stable_sorted` is that sort.
pub proof fn lemma_stable_sort_exists<A>(s: Seq<A>, key: spec_fn(A) -> int)
    ensures
        stable_sort_of(stable_sorted(s, key), s, key),
    decreases s.len(),
{
    if s.len() == 0 {
        assert forall|k: int| #[trigger] with_key(s, key, k) == with_key(s, key, k) by {}
        assert(stable_sort_of(s, s, key));
    } else {
        let d = s.drop_last();
        let x = s.last();
        lemma_stable_sort_exists(d, key);
        let r = stable_sorted(d, key);
        lemma_split_exists(r, key, key(x));
        let p = choose|p: int| #[trigger] splits_at(r, key, key(x), p);
        lemma_insert_stable(r, d, x, p, key);
        assert(d.push(x) =~= s);
        assert(stable_sort_of(r.take(p) + seq![x] + r.skip(p), s, key));
    }
}

/// The key of a child paired with its z-index: the z-index.
pub open spec fn z_key() -> spec_fn((usize, i32)) -> int {
    |p: (usize, i32)| p.1 as int
}

/// Sorts `v` by z-index, keeping pairs with equal z-indices in their order.
pub fn sort_by_z(v: &mut Vec<(usize, i32)>)
    ensures
        stable_sort_of(final(v)@, old(v)@, z_key()),
{
    let ghost orig = v@;
    let mut sorted: Vec<(usize, i32)> = Vec::new();
    let mut i: usize = 0;
    let n = v.len();
    proof {
        assert forall|k: int| #[trigger] with_key(sorted@, z_key(), k) == with_key(orig.take(0), z_key(), k) by {
            reveal_with_fuel(Seq::filter, 1);
            assert(sorted@ =~= Seq::<(usize, i32)>::empty());
            assert(orig.take(0) =~= Seq::<(usize, i32)>::empty());
        }
    }
    while i < n
        invariant
            n == orig.len(),
            v@ == orig,
            0 <= i <= n,
            sorted@.len() == i,
            stable_sort_of(sorted@, orig.take(i as int), z_key()),
        decreases n - i,
    {
        let x = v[i];
        let mut p: usize = sorted.len();
        while p > 0 && sorted[p - 1].1 > x.1
            invariant
                0 <= p <= sorted@.len(),
                sorted_by_key(sorted@, z_key()),
                forall|j: int| p <= j < sorted@.len() ==> sorted@[j].1 > x.1,
            decreases p,
        {
            p = p - 1;
        }
        let ghost before = sorted@;
        sorted.insert(p, x);
        proof {
            assert forall|j: int| 0 <= j < p implies before[j].1 <= x.1 by {
                if p > 0 {
                    assert(before[p - 1].1 <= x.1);
                    assert(z_key()(before[j]) <= z_key()(before[p - 1]));
                }
            }
            lemma_insert_stable(before, orig.take(i as int), x, p as int, z_key());
            assert(sorted@ =~= before.take(p as int) + seq![x] + before.skip(p as int));
            assert(orig.take(i as int + 1) =~= orig.take(i as int).push(x));
        }
        i = i + 1;
    }
    proof {
        assert(orig.take(n as int) =~= orig);
    }
    *v = sorted;
}

/// A node of the entity hierarchy, as the stack reads it.
pub struct HierarchyNode {
    /// The entity.
    pub entity: Entity,
    /// Whether the entity is a UI node, with a computed layout.
    pub is_ui: bool,
    /// The entity's z-index, if it has one.
    pub z_index: Option<i32>,
    /// The positions in the hierarchy of the entity's children, in order.
    pub children: Vec<usize>,
}

/// The entity hierarchy: its nodes, and the positions of the entities without a parent in
/// the order in which they are found.
pub struct UiHierarchy {
    pub nodes: Vec<HierarchyNode>,
    pub roots: Vec<usize>,
}

/// The current UI stack: the UI nodes ordered back to front. The first is the furthest from
/// the camera and is drawn first; the last is the first to receive interactions.
pub struct UiStack {
    pub uinodes: Vec<Entity>,
}

/// Every root is a node, and every child comes after its parent, so that the hierarchy has
/// no cycle.
pub open spec fn hierarchy_wf(nodes: Seq<HierarchyNode>, roots: Seq<usize>) -> bool {
    &&& nodes.len() <= usize::MAX
    &&& forall|i: int| 0 <= i < roots.len() ==> #[trigger] roots[i] < nodes.len()
    &&& forall|i: int, k: int| 0 <= i < nodes.len() && 0 <= k < nodes[i].children@.len()
        ==> i < #[trigger] nodes[i].children@[k] < nodes.len()
}

/// The z-index by which node `c` is ordered: its own, or 0 without one.
pub open spec fn z_of(nodes: Seq<HierarchyNode>, c: usize) -> i32 {
    match nodes[c as int].z_index {
        Some(z) => z,
        None => 0,
    }
}

/// The nodes `cs` each paired with its z-index.
pub open spec fn with_z(nodes: Seq<HierarchyNode>, cs: Seq<usize>) -> Seq<(usize, i32)> {
    cs.map_values(|c: usize| (c, z_of(nodes, c)))
}

/// The nodes `cs` in the order of their z-indices, equal ones in their order.
pub open spec fn by_z(nodes: Seq<HierarchyNode>, cs: Seq<usize>) -> Seq<usize> {
    stable_sorted(with_z(nodes, cs), z_key()).map_values(|p: (usize, i32)| p.0)
}

/// The stack order of the subtree of node `i`: nothing if it is no UI node, else `i`, then
/// the subtrees of its children in the order of their z-indices.
pub open spec fn subtree_order(nodes: Seq<HierarchyNode>, i: int) -> Seq<usize>
    decreases nodes.len() - i, 1int, 0int,
{
    if 0 <= i < nodes.len() && nodes[i].is_ui {
        seq![i as usize] + forest_order(nodes, by_z(nodes, nodes[i].children@), i)
    } else {
        Seq::empty()
    }
}

/// The stack orders of the subtrees of `cs`, one after the other; the nodes of `cs` come
/// after `above`.
pub open spec fn forest_order(nodes: Seq<HierarchyNode>, cs: Seq<usize>, above: int) -> Seq<usize>
    decreases nodes.len() - above, 0int, cs.len(),
{
    if cs.len() == 0 || !(-1 <= above < nodes.len()) {
        Seq::empty()
    } else {
        let c = cs.last();
        forest_order(nodes, cs.drop_last(), above) + if above < c < nodes.len() {
            subtree_order(nodes, c as int)
        } else {
            Seq::empty()
        }
    }
}

/// The stack order of the whole hierarchy: the subtrees of the roots in the order of their
/// z-indices.
pub open spec fn stack_order(nodes: Seq<HierarchyNode>, roots: Seq<usize>) -> Seq<usize> {
    forest_order(nodes, by_z(nodes, roots), -1)
}

/// The entities of the nodes at the positions `order`.
pub open spec fn entities_at(nodes: Seq<HierarchyNode>, order: Seq<usize>) -> Seq<Entity> {
    order.map_values(|p: usize| nodes[p as int].entity)
}

/// The last position of `j` in `order`, or -1.
pub open spec fn last_position(order: Seq<usize>, j: usize) -> int
    decreases order.len(),
{
    if order.len() == 0 {
        -1
    } else if order.last() == j {
        order.len() - 1
    } else {
        last_position(order.drop_last(), j)
    }
}

/// The last position of `j`, where there is one, holds `j`.
pub proof fn lemma_last_position(order: Seq<usize>, j: usize)
    ensures
        -1 <= last_position(order, j) < order.len(),
        last_position(order, j) >= 0 ==> order[last_position(order, j)] == j,
        last_position(order, j) < 0 ==> !order.contains(j),
    decreases order.len(),
{
    if order.len() > 0 && order.last() != j {
        lemma_last_position(order.drop_last(), j);
        if last_position(order, j) < 0 && order.contains(j) {
            let m = choose|m: int| 0 <= m < order.len() && order[m] == j;
            assert(order.drop_last()[m] == j);
        }
    }
}

/// Each node of `order` has as its stack index the last position at which it comes; the
/// others keep theirs from `before`.
pub open spec fn stamped(before: Seq<u32>, after: Seq<u32>, order: Seq<usize>) -> bool {
    &&& after.len() == before.len()
    &&& forall|j: int| 0 <= j < after.len() ==> #[trigger] after[j] == if last_position(order, j as usize) >= 0 {
        last_position(order, j as usize) as u32
    } else {
        before[j]
    }
}

/// The nodes `cs`, each with its z-index, in order.
fn z_pairs(nodes: &Vec<HierarchyNode>, cs: &Vec<usize>) -> (r: Vec<(usize, i32)>)
    requires
        forall|k: int| 0 <= k < cs@.len() ==> #[trigger] cs@[k] < nodes@.len(),
    ensures
        r@ == with_z(nodes@, cs@),
{
    let mut r: Vec<(usize, i32)> = Vec::new();
    let mut k: usize = 0;
    while k < cs.len()
        invariant
            k <= cs@.len(),
            forall|m: int| 0 <= m < cs@.len() ==> #[trigger] cs@[m] < nodes@.len(),
            r@ == with_z(nodes@, cs@.take(k as int)),
        decreases cs@.len() - k,
    {
        let c = cs[k];
        let z: i32 = match nodes[c].z_index {
            Some(z) => z,
            None => 0,
        };
        r.push((c, z));
        k = k + 1;
        assert(r@ =~= with_z(nodes@, cs@.take(k as int)));
    }
    assert(cs@.take(cs@.len() as int) =~= cs@);
    r
}

/// `cs` sorted by z-index, as `by_z` says.
fn sorted_by_z(nodes: &Vec<HierarchyNode>, cs: &Vec<usize>) -> (r: Vec<(usize, i32)>)
    requires
        forall|k: int| 0 <= k < cs@.len() ==> #[trigger] cs@[k] < nodes@.len(),
    ensures
        r@.map_values(|p: (usize, i32)| p.0) == by_z(nodes@, cs@),
        r@ == stable_sorted(with_z(nodes@, cs@), z_key()),
        stable_sort_of(r@, with_z(nodes@, cs@), z_key()),
{
    let mut r = z_pairs(nodes, cs);
    let ghost unsorted = r@;
    sort_by_z(&mut r);
    proof {
        let chosen = stable_sorted(unsorted, z_key());
        assert(stable_sort_of(chosen, unsorted, z_key()));
        lemma_stable_sort_unique(r@, chosen, z_key());
    }
    r
}

/// The nodes that `by_z` orders are those it was given.
proof fn lemma_stable_sorted_from(nodes: Seq<HierarchyNode>, cs: Seq<usize>, m: int)
    requires
        0 <= m < stable_sorted(with_z(nodes, cs), z_key()).len(),
    ensures
        cs.contains(stable_sorted(with_z(nodes, cs), z_key())[m].0),
{
    lemma_stable_sort_exists(with_z(nodes, cs), z_key());
    let r = stable_sorted(with_z(nodes, cs), z_key());
    let x = r[m];
    r.lemma_filter_contains(key_is(z_key(), z_key()(x)), m);
    assert(with_key(r, z_key(), z_key()(x)) == with_key(with_z(nodes, cs), z_key(), z_key()(x)));
    with_z(nodes, cs).lemma_filter_contains_rev(key_is(z_key(), z_key()(x)), x);
    let j = choose|j: int| 0 <= j < with_z(nodes, cs).len() && with_z(nodes, cs)[j] == x;
    assert(cs[j] == x.0);
}

/// Pushes the stack order of the subtree of `i` onto `out`, and gives each of its nodes its
/// position as stack index.
fn push_subtree(
    nodes: &Vec<HierarchyNode>,
    i: usize,
    out: &mut Vec<Entity>,
    indices: &mut Vec<u32>,
    Ghost(visited): Ghost<Seq<usize>>,
    Ghost(initial): Ghost<Seq<u32>>,
)
    requires
        hierarchy_wf(nodes@, Seq::empty()),
        i < nodes@.len(),
        old(out)@ == entities_at(nodes@, visited),
        forall|m: int| 0 <= m < visited.len() ==> #[trigger] visited[m] < nodes@.len(),
        old(indices)@.len() == nodes@.len(),
        stamped(initial, old(indices)@, visited),
    ensures
        final(out)@ == entities_at(nodes@, visited + subtree_order(nodes@, i as int)),
        forall|m: int| 0 <= m < (visited + subtree_order(nodes@, i as int)).len()
            ==> #[trigger] (visited + subtree_order(nodes@, i as int))[m] < nodes@.len(),
        stamped(initial, final(indices)@, visited + subtree_order(nodes@, i as int)),
    decreases nodes@.len() - i,
{
    let ghost h = nodes@;
    if !nodes[i].is_ui {
        assert(visited + subtree_order(h, i as int) =~= visited);
        return;
    }
    let pos = out.len();
    assert(indices@.len() == indices.len());
    indices.set(i, pos as u32);
    out.push(nodes[i].entity);
    let ghost first = visited.push(i);
    proof {
        lemma_stamp_push(initial, old(indices)@, indices@, visited, i);
        assert(out@ =~= entities_at(h, first));
    }
    let order = sorted_by_z(nodes, &nodes[i].children);
    let ghost children_order = by_z(h, h[i as int].children@);
    proof {
        assert forall|m: int| 0 <= m < order@.len() implies i < #[trigger] order@[m].0 < h.len() by {
            lemma_stable_sorted_from(h, h[i as int].children@, m);
        }
    }
    let mut k: usize = 0;
    while k < order.len()
        invariant
            h == nodes@,
            hierarchy_wf(h, Seq::empty()),
            i < h.len(),
            h[i as int].is_ui,
            k <= order@.len(),
            order@.map_values(|p: (usize, i32)| p.0) == children_order,
            children_order.len() == order@.len(),
            forall|m: int| 0 <= m < order@.len() ==> i < #[trigger] order@[m].0 < h.len(),
            out@ == entities_at(h, first + forest_order(h, children_order.take(k as int), i as int)),
            forall|m: int| 0 <= m < (first + forest_order(h, children_order.take(k as int), i as int)).len()
                ==> #[trigger] (first + forest_order(h, children_order.take(k as int), i as int))[m] < h.len(),
            indices@.len() == h.len(),
            stamped(initial, indices@, first + forest_order(h, children_order.take(k as int), i as int)),
        decreases order@.len() - k,
    {
        let c = order[k].0;
        let ghost done = first + forest_order(h, children_order.take(k as int), i as int);
        assert(children_order[k as int] == c);
        push_subtree(nodes, c, out, indices, Ghost(done), Ghost(initial));
        proof {
            let t = children_order.take(k as int + 1);
            assert(t.drop_last() =~= children_order.take(k as int));
            assert(t.last() == c);
            assert(forest_order(h, t, i as int) == forest_order(h, children_order.take(k as int), i as int)
                + subtree_order(h, c as int));
            assert(done + subtree_order(h, c as int) =~= first + forest_order(h, t, i as int));
        }
        k = k + 1;
    }
    proof {
        assert(children_order.take(order@.len() as int) =~= children_order);
        assert(visited + subtree_order(h, i as int) =~= first + forest_order(h, children_order, i as int));
    }
}

/// Generates the UI stack: every UI node of `hierarchy`, back to front, and as the stack
/// index of each node its position in the stack.
pub fn ui_stack_system(ui_stack: &mut UiStack, hierarchy: &UiHierarchy, stack_indices: &mut Vec<u32>)
    requires
        hierarchy_wf(hierarchy.nodes@, hierarchy.roots@),
        old(stack_indices)@.len() == hierarchy.nodes@.len(),
    ensures
        final(ui_stack).uinodes@ == entities_at(hierarchy.nodes@, stack_order(hierarchy.nodes@, hierarchy.roots@)),
        stamped(old(stack_indices)@, final(stack_indices)@, stack_order(hierarchy.nodes@, hierarchy.roots@)),
{
    let ghost h = hierarchy.nodes@;
    let ghost initial = stack_indices@;
    let nodes = &hierarchy.nodes;
    ui_stack.uinodes = Vec::new();
    let order = sorted_by_z(nodes, &hierarchy.roots);
    let ghost roots_order = by_z(h, hierarchy.roots@);
    proof {
        assert forall|m: int| 0 <= m < order@.len() implies #[trigger] order@[m].0 < h.len() by {
            lemma_stable_sorted_from(h, hierarchy.roots@, m);
        }
        assert(ui_stack.uinodes@ =~= entities_at(h, Seq::<usize>::empty()));
        assert(roots_order.take(0) =~= Seq::<usize>::empty());
        assert(stamped(initial, stack_indices@, Seq::<usize>::empty()));
    }
    let mut k: usize = 0;
    while k < order.len()
        invariant
            h == nodes@,
            hierarchy_wf(h, hierarchy.roots@),
            k <= order@.len(),
            order@.map_values(|p: (usize, i32)| p.0) == roots_order,
            roots_order.len() == order@.len(),
            forall|m: int| 0 <= m < order@.len() ==> #[trigger] order@[m].0 < h.len(),
            ui_stack.uinodes@ == entities_at(h, forest_order(h, roots_order.take(k as int), -1)),
            forall|m: int| 0 <= m < forest_order(h, roots_order.take(k as int), -1).len()
                ==> #[trigger] forest_order(h, roots_order.take(k as int), -1)[m] < h.len(),
            stack_indices@.len() == h.len(),
            stamped(initial, stack_indices@, forest_order(h, roots_order.take(k as int), -1)),
        decreases order@.len() - k,
    {
        let c = order[k].0;
        let ghost done = forest_order(h, roots_order.take(k as int), -1);
        assert(roots_order[k as int] == c);
        push_subtree(nodes, c, &mut ui_stack.uinodes, stack_indices, Ghost(done), Ghost(initial));
        proof {
            let t = roots_order.take(k as int + 1);
            assert(t.drop_last() =~= roots_order.take(k as int));
            assert(t.last() == c);
            assert(forest_order(h, t, -1) == forest_order(h, roots_order.take(k as int), -1)
                + subtree_order(h, c as int));
        }
        k = k + 1;
    }
    proof {
        assert(roots_order.take(order@.len() as int) =~= roots_order);
    }
}

/// The UI stack holds, at the stack index of each node that it holds, that node's entity.
pub proof fn lemma_stack_index_points_back(
    nodes: Seq<HierarchyNode>,
    roots: Seq<usize>,
    before: Seq<u32>,
    after: Seq<u32>,
    j: int,
)
    requires
        stamped(before, after, stack_order(nodes, roots)),
        stack_order(nodes, roots).len() <= u32::MAX,
        0 <= j < after.len(),
        j <= usize::MAX,
        stack_order(nodes, roots).contains(j as usize),
    ensures
        entities_at(nodes, stack_order(nodes, roots))[after[j] as int] == nodes[j].entity,
{
    let order = stack_order(nodes, roots);
    lemma_last_position(order, j as usize);
    assert(after[j] == last_position(order, j as usize) as u32);
}

/// `path` leads from a root down through children to its last node, every node on it a UI
/// node.
pub open spec fn ui_path(nodes: Seq<HierarchyNode>, roots: Seq<usize>, path: Seq<usize>) -> bool {
    &&& path.len() >= 1
    &&& roots.contains(path[0])
    &&& forall|i: int| 0 <= i < path.len() ==> #[trigger] path[i] < nodes.len() && nodes[path[i] as int].is_ui
    &&& forall|i: int| 0 <= i < path.len() - 1 ==> nodes[#[trigger] path[i] as int].children@.contains(path[i + 1])
}

/// Ordering nodes by z-index keeps every one of them.
proof fn lemma_by_z_keeps(nodes: Seq<HierarchyNode>, cs: Seq<usize>, c: usize)
    requires
        cs.contains(c),
    ensures
        by_z(nodes, cs).contains(c),
{
    let pairs = with_z(nodes, cs);
    let sorted = stable_sorted(pairs, z_key());
    lemma_stable_sort_exists(pairs, z_key());
    let m = choose|m: int| 0 <= m < cs.len() && cs[m] == c;
    let x = pairs[m];
    pairs.lemma_filter_contains(key_is(z_key(), z_key()(x)), m);
    assert(with_key(sorted, z_key(), z_key()(x)) == with_key(pairs, z_key(), z_key()(x)));
    sorted.lemma_filter_contains_rev(key_is(z_key(), z_key()(x)), x);
    let k = choose|k: int| 0 <= k < sorted.len() && sorted[k] == x;
    assert(by_z(nodes, cs)[k] == c);
}

/// The stack order of a run of subtrees holds what the subtree of each of its nodes holds.
proof fn lemma_forest_holds_subtree(nodes: Seq<HierarchyNode>, cs: Seq<usize>, above: int, c: usize, j: usize)
    requires
        -1 <= above < nodes.len(),
        cs.contains(c),
        above < c < nodes.len(),
        subtree_order(nodes, c as int).contains(j),
    ensures
        forest_order(nodes, cs, above).contains(j),
    decreases cs.len(),
{
    let front = forest_order(nodes, cs.drop_last(), above);
    let last = cs.last();
    let tail = if above < last < nodes.len() { subtree_order(nodes, last as int) } else { Seq::empty() };
    assert(forest_order(nodes, cs, above) == front + tail);
    if last == c {
        let k = choose|k: int| 0 <= k < tail.len() && tail[k] == j;
        assert((front + tail)[front.len() + k] == j);
    } else {
        let m = choose|m: int| 0 <= m < cs.len() && cs[m] == c;
        assert(cs.drop_last()[m] == c);
        lemma_forest_holds_subtree(nodes, cs.drop_last(), above, c, j);
        let k = choose|k: int| 0 <= k < front.len() && front[k] == j;
        assert((front + tail)[k] == j);
    }
}

/// The subtree of the node at `k` on a path holds the path's last node.
proof fn lemma_subtree_holds_path_end(nodes: Seq<HierarchyNode>, roots: Seq<usize>, path: Seq<usize>, k: int)
    requires
        hierarchy_wf(nodes, roots),
        ui_path(nodes, roots, path),
        0 <= k < path.len(),
    ensures
        subtree_order(nodes, path[k] as int).contains(path.last()),
    decreases path.len() - k,
{
    let p = path[k];
    assert(p < nodes.len() && nodes[p as int].is_ui);
    let cs = by_z(nodes, nodes[p as int].children@);
    let rest = forest_order(nodes, cs, p as int);
    assert(subtree_order(nodes, p as int) == seq![p] + rest);
    if k == path.len() - 1 {
        assert((seq![p] + rest)[0] == p);
    } else {
        let c = path[k + 1];
        assert(nodes[p as int].children@.contains(c));
        let m = choose|m: int| 0 <= m < nodes[p as int].children@.len() && nodes[p as int].children@[m] == c;
        assert(p < nodes[p as int].children@[m] < nodes.len());
        lemma_subtree_holds_path_end(nodes, roots, path, k + 1);
        lemma_by_z_keeps(nodes, nodes[p as int].children@, c);
        lemma_forest_holds_subtree(nodes, cs, p as int, c, path.last());
        let q = choose|q: int| 0 <= q < rest.len() && rest[q] == path.last();
        assert((seq![p] + rest)[1 + q] == path.last());
    }
}

/// Every UI node that a path of UI nodes leads to from a root is in the UI stack.
pub proof fn lemma_reachable_ui_nodes_are_stacked(nodes: Seq<HierarchyNode>, roots: Seq<usize>, path: Seq<usize>)
    requires
        hierarchy_wf(nodes, roots),
        ui_path(nodes, roots, path),
    ensures
        stack_order(nodes, roots).contains(path.last()),
{
    let r = path[0];
    let m = choose|m: int| 0 <= m < roots.len() && roots[m] == r;
    assert(roots[m] < nodes.len());
    lemma_subtree_holds_path_end(nodes, roots, path, 0);
    lemma_by_z_keeps(nodes, roots, r);
    lemma_forest_holds_subtree(nodes, by_z(nodes, roots), -1, r, path.last());
}

/// The hierarchy is a forest: each node is a child of at most one node, at most once, no
/// root is a child, and each root is listed once.
pub open spec fn is_forest(nodes: Seq<HierarchyNode>, roots: Seq<usize>) -> bool {
    &&& roots.no_duplicates()
    &&& forall|p: int| 0 <= p < nodes.len() ==> (#[trigger] nodes[p]).children@.no_duplicates()
    &&& forall|p: int, q: int, c: usize|
        0 <= p < nodes.len() && 0 <= q < nodes.len() && #[trigger] nodes[p].children@.contains(c)
            && #[trigger] nodes[q].children@.contains(c) ==> p == q
    &&& forall|p: int, c: usize| 0 <= p < nodes.len() && #[trigger] nodes[p].children@.contains(c) ==> !roots.contains(c)
}

/// Filtering keeps a sequence free of duplicates.
proof fn lemma_filter_no_duplicates<A>(s: Seq<A>, p: spec_fn(A) -> bool)
    requires
        s.no_duplicates(),
    ensures
        s.filter(p).no_duplicates(),
    decreases s.len(),
{
    if s.len() == 0 {
        assert(s.filter(p).len() == 0) by {
            reveal_with_fuel(Seq::filter, 1);
        }
    } else {
        let d = s.drop_last();
        let x = s.last();
        assert(s =~= d.push(x));
        assert(d.no_duplicates());
        lemma_filter_no_duplicates(d, p);
        d.lemma_filter_push(x, p);
        if p(x) {
            assert forall|k: int| 0 <= k < d.filter(p).len() implies d.filter(p)[k] != x by {
                d.lemma_filter_contains_rev(p, d.filter(p)[k]);
                assert(d.filter(p).contains(d.filter(p)[k]));
                if d.filter(p)[k] == x {
                    let m = choose|m: int| 0 <= m < d.len() && d[m] == x;
                    assert(s[m] == s[s.len() - 1]);
                }
            }
        }
    }
}

/// Filtering by a predicate that holds of a repeated value keeps the repeat.
proof fn lemma_filter_keeps_repeat<A>(s: Seq<A>, p: spec_fn(A) -> bool, k1: int, k2: int)
    requires
        0 <= k1 < k2 < s.len(),
        s[k1] == s[k2],
        p(s[k1]),
    ensures
        !s.filter(p).no_duplicates(),
    decreases s.len(),
{
    let d = s.drop_last();
    let x = s.last();
    assert(s =~= d.push(x));
    d.lemma_filter_push(x, p);
    if k2 == s.len() - 1 {
        assert(d[k1] == x);
        d.lemma_filter_contains(p, k1);
        let m = choose|m: int| 0 <= m < d.filter(p).len() && d.filter(p)[m] == x;
        let f = s.filter(p);
        assert(f[m] == f[f.len() - 1]);
    } else {
        assert(d[k1] == d[k2]);
        lemma_filter_keeps_repeat(d, p, k1, k2);
        let f = d.filter(p);
        let (a, b) = choose|a: int, b: int| 0 <= a < f.len() && 0 <= b < f.len() && a != b && f[a] == f[b];
        if p(x) {
            assert(s.filter(p)[a] == s.filter(p)[b]);
        }
    }
}

/// Ordering nodes by z-index keeps them free of duplicates.
proof fn lemma_by_z_no_duplicates(nodes: Seq<HierarchyNode>, cs: Seq<usize>)
    requires
        cs.no_duplicates(),
    ensures
        by_z(nodes, cs).no_duplicates(),
{
    let pairs = with_z(nodes, cs);
    let f = |c: usize| (c, z_of(nodes, c));
    assert(pairs == cs.map_values(f));
    assert(vstd::relations::injective(f));
    cs.lemma_no_duplicates_injective(f);
    lemma_stable_sort_exists(pairs, z_key());
    let r = stable_sorted(pairs, z_key());
    assert forall|k1: int, k2: int| 0 <= k1 < by_z(nodes, cs).len() && 0 <= k2 < by_z(nodes, cs).len() && k1 != k2
        implies by_z(nodes, cs)[k1] != by_z(nodes, cs)[k2] by {
        if by_z(nodes, cs)[k1] == by_z(nodes, cs)[k2] {
            let (a, b) = if k1 < k2 { (k1, k2) } else { (k2, k1) };
            let key = z_key()(r[a]);
            r.lemma_filter_contains(key_is(z_key(), key), a);
            r.lemma_filter_contains(key_is(z_key(), z_key()(r[b])), b);
            assert(with_key(r, z_key(), key) == with_key(pairs, z_key(), key));
            assert(with_key(r, z_key(), z_key()(r[b])) == with_key(pairs, z_key(), z_key()(r[b])));
            pairs.lemma_filter_contains_rev(key_is(z_key(), key), r[a]);
            pairs.lemma_filter_contains_rev(key_is(z_key(), z_key()(r[b])), r[b]);
            let ia = choose|i: int| 0 <= i < pairs.len() && pairs[i] == r[a];
            let ib = choose|i: int| 0 <= i < pairs.len() && pairs[i] == r[b];
            assert(r[a] == r[b]);
            lemma_filter_keeps_repeat(r, key_is(z_key(), key), a, b);
            lemma_filter_no_duplicates(pairs, key_is(z_key(), key));
        }
    }
}

/// A node of the subtree of `i` is `i` or comes after it, and `i` is a UI node.
proof fn lemma_subtree_member(nodes: Seq<HierarchyNode>, i: int, x: usize)
    requires
        hierarchy_wf(nodes, Seq::empty()),
        subtree_order(nodes, i).contains(x),
    ensures
        0 <= i < nodes.len(),
        nodes[i].is_ui,
        i <= x < nodes.len(),
    decreases nodes.len() - i,
{
    if x != i {
        let c = lemma_subtree_step(nodes, i, x);
        lemma_subtree_member(nodes, c as int, x);
    } else {
        assert(0 <= i < nodes.len() && nodes[i].is_ui);
    }
}

/// A node of a run of subtrees is a node of the subtree of one node of the run.
proof fn lemma_forest_member(nodes: Seq<HierarchyNode>, cs: Seq<usize>, above: int, x: usize) -> (k: int)
    requires
        forest_order(nodes, cs, above).contains(x),
    ensures
        0 <= k < cs.len(),
        above < cs[k] < nodes.len(),
        subtree_order(nodes, cs[k] as int).contains(x),
    decreases cs.len(),
{
    let front = forest_order(nodes, cs.drop_last(), above);
    let last = cs.last();
    let tail = if above < last < nodes.len() { subtree_order(nodes, last as int) } else { Seq::empty() };
    assert(forest_order(nodes, cs, above) == front + tail);
    let m = choose|m: int| 0 <= m < (front + tail).len() && (front + tail)[m] == x;
    if m < front.len() {
        assert(front[m] == x);
        let k = lemma_forest_member(nodes, cs.drop_last(), above, x);
        assert(cs[k] == cs.drop_last()[k]);
        k
    } else {
        assert(tail[m - front.len()] == x);
        cs.len() - 1
    }
}

/// A node of the subtree of `i` other than `i` is in the subtree of a child of `i`.
proof fn lemma_subtree_step(nodes: Seq<HierarchyNode>, i: int, x: usize) -> (c: usize)
    requires
        hierarchy_wf(nodes, Seq::empty()),
        subtree_order(nodes, i).contains(x),
        x != i,
    ensures
        0 <= i < nodes.len(),
        nodes[i].is_ui,
        nodes[i].children@.contains(c),
        i < c < nodes.len(),
        subtree_order(nodes, c as int).contains(x),
{
    assert(0 <= i < nodes.len() && nodes[i].is_ui);
    let cs = by_z(nodes, nodes[i].children@);
    let rest = forest_order(nodes, cs, i);
    let whole = seq![i as usize] + rest;
    assert(subtree_order(nodes, i) == whole);
    let m = choose|m: int| 0 <= m < whole.len() && whole[m] == x;
    assert(rest[m - 1] == x);
    let k = lemma_forest_member(nodes, cs, i, x);
    lemma_stable_sorted_from(nodes, nodes[i].children@, k);
    cs[k]
}

/// The subtree of a UI node holds the subtrees of its children.
proof fn lemma_subtree_holds_child_subtree(nodes: Seq<HierarchyNode>, i: int, c: usize, y: usize)
    requires
        hierarchy_wf(nodes, Seq::empty()),
        0 <= i < nodes.len(),
        nodes[i].is_ui,
        nodes[i].children@.contains(c),
        subtree_order(nodes, c as int).contains(y),
    ensures
        subtree_order(nodes, i).contains(y),
{
    let m = choose|m: int| 0 <= m < nodes[i].children@.len() && nodes[i].children@[m] == c;
    assert(i < nodes[i].children@[m] < nodes.len());
    let cs = by_z(nodes, nodes[i].children@);
    let rest = forest_order(nodes, cs, i);
    lemma_by_z_keeps(nodes, nodes[i].children@, c);
    lemma_forest_holds_subtree(nodes, cs, i, c, y);
    assert(subtree_order(nodes, i) == seq![i as usize] + rest);
    let q = choose|q: int| 0 <= q < rest.len() && rest[q] == y;
    assert((seq![i as usize] + rest)[1 + q] == y);
}

/// A node of the subtree of `d` other than `d` has a parent in that subtree.
proof fn lemma_proper_descendant_parent(nodes: Seq<HierarchyNode>, d: int, y: usize) -> (p: int)
    requires
        hierarchy_wf(nodes, Seq::empty()),
        subtree_order(nodes, d).contains(y),
        y != d,
    ensures
        0 <= p < nodes.len(),
        nodes[p].children@.contains(y),
        subtree_order(nodes, d).contains(p as usize),
    decreases y - d,
{
    let c = lemma_subtree_step(nodes, d, y);
    lemma_subtree_member(nodes, c as int, y);
    if y == c {
        assert(subtree_order(nodes, d)[0] == d as usize);
        d
    } else {
        let p = lemma_proper_descendant_parent(nodes, c as int, y);
        lemma_subtree_holds_child_subtree(nodes, d, c, p as usize);
        p
    }
}

/// In a forest, two subtrees that share a node are nested.
proof fn lemma_subtrees_nested(nodes: Seq<HierarchyNode>, roots: Seq<usize>, a: int, b: int, x: usize)
    requires
        hierarchy_wf(nodes, roots),
        is_forest(nodes, roots),
        subtree_order(nodes, a).contains(x),
        subtree_order(nodes, b).contains(x),
    ensures
        subtree_order(nodes, b).contains(a as usize) || subtree_order(nodes, a).contains(b as usize),
    decreases (x - a) + (x - b),
{
    lemma_subtree_member(nodes, a, x);
    lemma_subtree_member(nodes, b, x);
    if x == a || x == b {
    } else {
        let e1 = lemma_subtree_step(nodes, a, x);
        let e2 = lemma_subtree_step(nodes, b, x);
        lemma_subtree_member(nodes, e1 as int, x);
        lemma_subtree_member(nodes, e2 as int, x);
        lemma_subtrees_nested(nodes, roots, e1 as int, e2 as int, x);
        if subtree_order(nodes, e2 as int).contains(e1) {
            if e1 == e2 {
                assert(a == b);
                assert(subtree_order(nodes, b)[0] == b as usize);
            } else {
                let p = lemma_proper_descendant_parent(nodes, e2 as int, e1);
                assert(p == a);
                lemma_subtree_holds_child_subtree(nodes, b, e2, a as usize);
            }
        } else {
            if e1 == e2 {
                assert(a == b);
                assert(subtree_order(nodes, a)[0] == a as usize);
            } else {
                let p = lemma_proper_descendant_parent(nodes, e1 as int, e2);
                assert(p == b);
                lemma_subtree_holds_child_subtree(nodes, a, e1, b as usize);
            }
        }
    }
}

/// In a forest, the subtrees of two different children of one node, or of two different
/// roots, share no node.
proof fn lemma_siblings_disjoint(nodes: Seq<HierarchyNode>, roots: Seq<usize>, parent: int, c1: usize, c2: usize, x: usize)
    requires
        hierarchy_wf(nodes, roots),
        is_forest(nodes, roots),
        c1 != c2,
        parent == -1 ==> roots.contains(c1) && roots.contains(c2),
        parent != -1 ==> 0 <= parent < nodes.len() && nodes[parent].children@.contains(c1)
            && nodes[parent].children@.contains(c2),
    ensures
        !(subtree_order(nodes, c1 as int).contains(x) && subtree_order(nodes, c2 as int).contains(x)),
{
    if subtree_order(nodes, c1 as int).contains(x) && subtree_order(nodes, c2 as int).contains(x) {
        lemma_subtrees_nested(nodes, roots, c1 as int, c2 as int, x);
        let (inner, outer) = if subtree_order(nodes, c2 as int).contains(c1) { (c1, c2) } else { (c2, c1) };
        let p = lemma_proper_descendant_parent(nodes, outer as int, inner);
        if parent == -1 {
            assert(!roots.contains(inner));
        } else {
            assert(p == parent);
            lemma_subtree_member(nodes, outer as int, p as usize);
            let m = choose|m: int| 0 <= m < nodes[parent].children@.len() && nodes[parent].children@[m] == outer;
            assert(parent < nodes[parent].children@[m]);
        }
    }
}

/// In a forest, the subtree of a node holds each node at most once.
proof fn lemma_subtree_no_duplicates(nodes: Seq<HierarchyNode>, roots: Seq<usize>, i: int)
    requires
        hierarchy_wf(nodes, roots),
        is_forest(nodes, roots),
    ensures
        subtree_order(nodes, i).no_duplicates(),
    decreases nodes.len() - i, 1int, 0int,
{
    if 0 <= i < nodes.len() && nodes[i].is_ui {
        let children = nodes[i].children@;
        let cs = by_z(nodes, children);
        assert(children.no_duplicates());
        lemma_by_z_no_duplicates(nodes, children);
        assert forall|k: int| 0 <= k < cs.len() implies children.contains(#[trigger] cs[k]) by {
            lemma_stable_sorted_from(nodes, children, k);
        }
        lemma_forest_no_duplicates(nodes, roots, cs, i);
        let rest = forest_order(nodes, cs, i);
        let head = seq![i as usize];
        assert forall|a: int, b: int| 0 <= a < head.len() && 0 <= b < rest.len() implies #[trigger] head[a] != #[trigger] rest[b] by {
            assert(rest.contains(rest[b]));
            let k = lemma_forest_member(nodes, cs, i, rest[b]);
            lemma_subtree_member(nodes, cs[k] as int, rest[b]);
        }
        vstd::seq_lib::lemma_no_dup_in_concat(head, rest);
    }
}

/// In a forest, a run of subtrees of distinct siblings holds each node at most once.
proof fn lemma_forest_no_duplicates(nodes: Seq<HierarchyNode>, roots: Seq<usize>, cs: Seq<usize>, above: int)
    requires
        hierarchy_wf(nodes, roots),
        is_forest(nodes, roots),
        cs.no_duplicates(),
        -1 <= above < nodes.len(),
        above == -1 ==> forall|k: int| 0 <= k < cs.len() ==> roots.contains(#[trigger] cs[k]),
        above != -1 ==> forall|k: int| 0 <= k < cs.len() ==> nodes[above].children@.contains(#[trigger] cs[k]),
    ensures
        forest_order(nodes, cs, above).no_duplicates(),
    decreases nodes.len() - above, 0int, cs.len(),
{
    if cs.len() > 0 {
        let d = cs.drop_last();
        let last = cs.last();
        assert(d.no_duplicates());
        lemma_forest_no_duplicates(nodes, roots, d, above);
        let front = forest_order(nodes, d, above);
        let tail = if above < last < nodes.len() { subtree_order(nodes, last as int) } else { Seq::empty() };
        if above < last < nodes.len() {
            lemma_subtree_no_duplicates(nodes, roots, last as int);
        }
        assert forall|a: int, b: int| 0 <= a < front.len() && 0 <= b < tail.len() implies #[trigger] front[a] != #[trigger] tail[b] by {
            if front[a] == tail[b] {
                assert(front.contains(front[a]));
                let k = lemma_forest_member(nodes, d, above, front[a]);
                assert(d[k] == cs[k]);
                assert(cs[k] != cs[cs.len() - 1]);
                assert(tail.contains(tail[b]));
                lemma_siblings_disjoint(nodes, roots, above, cs[k], last, front[a]);
            }
        }
        vstd::seq_lib::lemma_no_dup_in_concat(front, tail);
        assert(forest_order(nodes, cs, above) == front + tail);
    }
}

/// In a forest, the UI stack holds each node at most once.
pub proof fn lemma_stack_holds_each_node_once(nodes: Seq<HierarchyNode>, roots: Seq<usize>)
    requires
        hierarchy_wf(nodes, roots),
        is_forest(nodes, roots),
    ensures
        stack_order(nodes, roots).no_duplicates(),
{
    let cs = by_z(nodes, roots);
    lemma_by_z_no_duplicates(nodes, roots);
    assert forall|k: int| 0 <= k < cs.len() implies roots.contains(#[trigger] cs[k]) by {
        lemma_stable_sorted_from(nodes, roots, k);
    }
    lemma_forest_no_duplicates(nodes, roots, cs, -1);
}

/// In a forest, the stack index of each node in the UI stack is its position there.
pub proof fn lemma_stack_index_is_position(
    nodes: Seq<HierarchyNode>,
    roots: Seq<usize>,
    before: Seq<u32>,
    after: Seq<u32>,
    p: int,
)
    requires
        hierarchy_wf(nodes, roots),
        is_forest(nodes, roots),
        before.len() == nodes.len(),
        stamped(before, after, stack_order(nodes, roots)),
        stack_order(nodes, roots).len() <= u32::MAX,
        0 <= p < stack_order(nodes, roots).len(),
    ensures
        after[stack_order(nodes, roots)[p] as int] == p as u32,
{
    let order = stack_order(nodes, roots);
    let j = order[p];
    lemma_stack_holds_each_node_once(nodes, roots);
    assert(order.contains(j));
    let k = lemma_forest_member(nodes, by_z(nodes, roots), -1, j);
    lemma_subtree_member(nodes, by_z(nodes, roots)[k] as int, j);
    lemma_last_position(order, j);
    assert(after[j as int] == last_position(order, j) as u32);
}

} // verus!
