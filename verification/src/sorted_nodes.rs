//! Extracted UI nodes kept in buffers, each sorted by stack index, and the iterator that
//! merges them into a single stream in stack order.
use vstd::multiset::Multiset;
use vstd::prelude::*;

verus! {

/// The number of buffers that extracted nodes are collected into at first; more are added
/// when every one holds nodes.
pub const UI_NODES_BUFFERS: usize = 4;

/// A UI node taken out for rendering: its place in the UI stack and the render data it
/// stands for.
pub struct ExtractedUiNode {
    pub stack_index: usize,
    pub payload: u64,
}

/// Extracted UI nodes, collected into buffers.
pub struct ExtractedUiNodes {
    pub uinodes: Vec<Vec<ExtractedUiNode>>,
}

/// The stack index of the first node of `s`, or `usize::MAX` where `s` is empty.
pub open spec fn first_stack_index(s: Seq<ExtractedUiNode>) -> usize {
    if s.len() == 0 {
        usize::MAX
    } else {
        s[0].stack_index
    }
}

/// Every node of `s` comes no later in the stack than the nodes after it.
pub open spec fn sorted_by_stack(s: Seq<ExtractedUiNode>) -> bool {
    forall|i: int, j: int| 0 <= i <= j < s.len() ==> s[i].stack_index <= s[j].stack_index
}

/// The fold of [`index_min`] over the first `k` entries of `firsts`, starting from
/// `(usize::MAX, usize::MAX)`: the first position holding the smallest value below
/// `usize::MAX`, with that value.
pub open spec fn pick(firsts: Seq<usize>, k: int) -> (usize, usize)
    decreases k,
{
    if k <= 0 {
        (usize::MAX, usize::MAX)
    } else {
        let (mi, m) = pick(firsts, k - 1);
        if firsts[k - 1] < m {
            ((k - 1) as usize, firsts[k - 1])
        } else {
            (mi, m)
        }
    }
}

/// Keeps the smaller of the best entry so far and the entry `(i, value)`; on a tie the
/// earlier one stays.
pub fn index_min(best: (usize, usize), entry: (usize, &usize)) -> (r: (usize, usize))
    ensures
        *entry.1 < best.1 ==> r == (entry.0, *entry.1),
        *entry.1 >= best.1 ==> r == best,
{
    let (min_index, min) = best;
    let (i, value) = entry;
    if *value < min {
        (i, *value)
    } else {
        (min_index, min)
    }
}

/// The fold picks the smallest value, at its first position.
proof fn lemma_pick_bounds(firsts: Seq<usize>, k: int)
    requires
        0 <= k <= firsts.len(),
        k < usize::MAX,
    ensures
        pick(firsts, k).1 < usize::MAX ==> {
            &&& 0 <= pick(firsts, k).0 < k
            &&& firsts[pick(firsts, k).0 as int] == pick(firsts, k).1
        },
        pick(firsts, k).1 == usize::MAX ==> pick(firsts, k).0 == usize::MAX,
        forall|j: int| 0 <= j < k ==> pick(firsts, k).1 <= #[trigger] firsts[j],
        forall|j: int| 0 <= j < k && j < pick(firsts, k).0 && pick(firsts, k).1 < usize::MAX ==> pick(firsts, k).1 < #[trigger] firsts[j],
    decreases k,
{
    if k > 0 {
        lemma_pick_bounds(firsts, k - 1);
    }
}

/// An iterator over the nodes of all buffers that always takes the node with the smallest
/// stack index among the first nodes of the buffers.
pub struct ExtractedUiNodesIter {
    nodes: Vec<Vec<ExtractedUiNode>>,
    positions: Vec<usize>,
    firsts_stack: Vec<usize>,
}

impl ExtractedUiNodesIter {
    /// The number of buffers.
    pub closed spec fn buffers(&self) -> nat {
        self.nodes@.len()
    }

    /// The nodes of buffer `i` that are still to come.
    pub closed spec fn remaining(&self, i: int) -> Seq<ExtractedUiNode> {
        self.nodes@[i]@.skip(self.positions@[i] as int)
    }

    /// The stack index of the first remaining node of each buffer (`usize::MAX` for none).
    pub closed spec fn firsts(&self) -> Seq<usize> {
        self.firsts_stack@
    }

    /// The buffer that the next call takes a node from; past the last buffer where every
    /// buffer is empty.
    pub open spec fn chosen(&self) -> int {
        pick(self.firsts(), self.buffers() as int).0 as int
    }

    /// Every buffer's remaining nodes are sorted by stack index and none has the stack index
    /// `usize::MAX`, which the iterator reads as "no node".
    pub open spec fn sorted_no_max(&self) -> bool {
        forall|i: int|
            0 <= i < self.buffers() ==> {
                &&& sorted_by_stack(#[trigger] self.remaining(i))
                &&& forall|j: int| 0 <= j < self.remaining(i).len() ==> #[trigger] self.remaining(i)[j].stack_index < usize::MAX
            }
    }

    /// The recorded first stack indices match the remaining nodes.
    pub closed spec fn wf(&self) -> bool {
        &&& self.positions@.len() == self.nodes@.len()
        &&& self.firsts_stack@.len() == self.nodes@.len()
        &&& self.nodes@.len() < usize::MAX
        &&& forall|i: int| 0 <= i < self.nodes@.len() ==> #[trigger] self.buffer_ok(i)
    }

    /// Buffer `i` has its position in range and its first stack index recorded.
    pub closed spec fn buffer_ok(&self, i: int) -> bool {
        &&& self.positions@[i] <= self.nodes@[i]@.len()
        &&& self.firsts_stack@[i] == first_stack_index(self.nodes@[i]@.skip(self.positions@[i] as int))
    }

    /// Takes all nodes out of the buffers of `nodes`, leaving as many buffers, all empty, and
    /// returns an iterator over them.
    pub fn new(nodes: &mut Vec<Vec<ExtractedUiNode>>) -> (r: Self)
        requires
            old(nodes)@.len() < usize::MAX,
        ensures
            r.wf(),
            r.buffers() == old(nodes)@.len(),
            forall|i: int| 0 <= i < old(nodes)@.len() ==> #[trigger] r.remaining(i) == old(nodes)@[i]@,
            final(nodes)@.len() == old(nodes)@.len(),
            forall|i: int| 0 <= i < final(nodes)@.len() ==> (#[trigger] final(nodes)@[i])@.len() == 0,
    {
        let mut taken: Vec<Vec<ExtractedUiNode>> = Vec::new();
        core::mem::swap(nodes, &mut taken);
        let n = taken.len();
        let mut positions: Vec<usize> = Vec::new();
        let mut firsts: Vec<usize> = Vec::new();
        let mut i: usize = 0;
        while i < n
            invariant
                n == taken@.len(),
                taken@ == old(nodes)@,
                0 <= i <= n,
                nodes@.len() == i,
                positions@.len() == i,
                firsts@.len() == i,
                forall|j: int| 0 <= j < i ==> (#[trigger] nodes@[j])@.len() == 0,
                forall|j: int| 0 <= j < i ==> #[trigger] positions@[j] == 0,
                forall|j: int| 0 <= j < i ==> #[trigger] firsts@[j] == first_stack_index(taken@[j]@),
            decreases n - i,
        {
            let first = if taken[i].len() > 0 {
                taken[i][0].stack_index
            } else {
                usize::MAX
            };
            firsts.push(first);
            positions.push(0);
            nodes.push(Vec::new());
            i = i + 1;
        }
        let r = ExtractedUiNodesIter { nodes: taken, positions, firsts_stack: firsts };
        assert forall|i: int| 0 <= i < old(nodes)@.len() implies #[trigger] r.remaining(i) == old(nodes)@[i]@ by {
            assert(r.nodes@[i]@.skip(0) =~= r.nodes@[i]@);
        }
        assert forall|i: int| 0 <= i < r.nodes@.len() implies #[trigger] r.buffer_ok(i) by {
            assert(r.nodes@[i]@.skip(r.positions@[i] as int) =~= r.nodes@[i]@);
        }
        r
    }

    /// Yields the first remaining node of the buffer whose first node has the smallest
    /// stack index (the earliest such buffer on a tie). Yields nothing once every buffer's
    /// first stack index reads `usize::MAX`.
    pub fn next(&mut self) -> (r: Option<ExtractedUiNode>)
        requires
            old(self).wf(),
        ensures
            merge_step(*old(self), *final(self), r),
    {
        let mut best: (usize, usize) = (usize::MAX, usize::MAX);
        let mut i: usize = 0;
        while i < self.firsts_stack.len()
            invariant
                0 <= i <= self.firsts_stack@.len(),
                self == old(self),
                self.wf(),
                best == pick(self.firsts_stack@, i as int),
            decreases self.firsts_stack@.len() - i,
        {
            best = index_min(best, (i, &self.firsts_stack[i]));
            i = i + 1;
        }
        let n = best.0;
        proof {
            lemma_pick_bounds(self.firsts_stack@, self.nodes@.len() as int);
        }
        if n >= self.nodes.len() {
            proof {
                assert forall|i: int| 0 <= i < self.buffers() implies #[trigger] self.firsts()[i] == usize::MAX by {}
            }
            return None;
        }
        let pos = self.positions[n];
        let len = self.nodes[n].len();
        proof {
            assert(self.buffer_ok(n as int));
            assert(self.remaining(n as int).len() > 0);
            assert(self.remaining(n as int)[0] == self.nodes@[n as int]@[pos as int]);
        }
        let node = ExtractedUiNode {
            stack_index: self.nodes[n][pos].stack_index,
            payload: self.nodes[n][pos].payload,
        };
        self.positions.set(n, pos + 1);
        let next_first = if pos + 1 < len {
            self.nodes[n][pos + 1].stack_index
        } else {
            usize::MAX
        };
        self.firsts_stack.set(n, next_first);
        proof {
            let rest = self.nodes@[n as int]@.skip(pos + 1);
            if pos + 1 < len {
                assert(rest[0] == self.nodes@[n as int]@[pos + 1]);
            } else {
                assert(rest.len() == 0);
            }
            assert(self.firsts_stack@[n as int] == first_stack_index(rest));
            assert(self.remaining(n as int) =~= old(self).remaining(n as int).drop_first());
            assert forall|i: int| 0 <= i < self.buffers() && i != n implies #[trigger] self.remaining(i) == old(self).remaining(i) by {}
            assert forall|i: int| 0 <= i < self.nodes@.len() implies #[trigger] self.buffer_ok(i) by {
                assert(old(self).buffer_ok(i));
            }
            if old(self).sorted_no_max() {
                assert forall|i: int| 0 <= i < self.buffers() implies {
                    &&& sorted_by_stack(#[trigger] self.remaining(i))
                    &&& forall|j: int| 0 <= j < self.remaining(i).len() ==> #[trigger] self.remaining(i)[j].stack_index < usize::MAX
                } by {
                    assert(sorted_by_stack(old(self).remaining(i)));
                    if i == n {
                        assert forall|j: int| 0 <= j < self.remaining(i).len() implies #[trigger] self.remaining(i)[j] == old(self).remaining(i)[j + 1] by {}
                    }
                }
            }
        }
        Some(node)
    }
}

/// One call of [`ExtractedUiNodesIter::next`] took `before` to `after` and returned `r`, as its
/// contract states: it takes the first node of the chosen buffer (the earliest buffer whose
/// first node has the smallest stack index), and nothing once every buffer is empty.
pub open spec fn merge_step(before: ExtractedUiNodesIter, after: ExtractedUiNodesIter, r: Option<ExtractedUiNode>) -> bool {
    let n = before.chosen();
    &&& after.wf()
    &&& after.buffers() == before.buffers()
    &&& before.sorted_no_max() ==> after.sorted_no_max()
    &&& if n >= before.buffers() {
        &&& r.is_none()
        &&& forall|i: int| 0 <= i < before.buffers() ==> #[trigger] before.firsts()[i] == usize::MAX
        &&& forall|i: int| 0 <= i < before.buffers() ==> #[trigger] after.remaining(i) == before.remaining(i)
    } else {
        &&& before.remaining(n).len() > 0
        &&& r == Some(before.remaining(n)[0])
        &&& forall|i: int| 0 <= i < before.buffers() ==> before.firsts()[n] <= #[trigger] before.firsts()[i]
        &&& forall|i: int| 0 <= i < n ==> before.firsts()[n] < #[trigger] before.firsts()[i]
        &&& after.remaining(n) == before.remaining(n).drop_first()
        &&& forall|i: int| 0 <= i < before.buffers() && i != n ==> #[trigger] after.remaining(i) == before.remaining(i)
    }
}

/// Merge order: where every buffer is sorted by stack index and no node has the stack index
/// `usize::MAX`, the node that [`ExtractedUiNodesIter::next`] picks comes no later in the stack
/// than any remaining node of any buffer, and it picks nothing only once every buffer is empty.
pub proof fn lemma_merge_order(it: ExtractedUiNodesIter)
    requires
        it.wf(),
        it.sorted_no_max(),
    ensures
        ({
            let n = it.chosen();
            &&& n >= it.buffers() <==> forall|i: int| 0 <= i < it.buffers() ==> #[trigger] it.remaining(i).len() == 0
            &&& n < it.buffers() ==> forall|i: int, j: int|
                0 <= i < it.buffers() && 0 <= j < it.remaining(i).len() ==> it.remaining(n)[0].stack_index <= #[trigger] it.remaining(i)[j].stack_index
        }),
{
    let k = it.buffers() as int;
    lemma_pick_bounds(it.firsts(), k);
    let n = it.chosen();
    assert forall|i: int| 0 <= i < k implies #[trigger] it.firsts()[i] == first_stack_index(it.remaining(i)) by {
        assert(it.buffer_ok(i));
    }
    if n < k {
        assert forall|i: int, j: int|
            0 <= i < k && 0 <= j < it.remaining(i).len() implies it.remaining(n)[0].stack_index <= #[trigger] it.remaining(i)[j].stack_index by {
            assert(it.firsts()[i] == first_stack_index(it.remaining(i)));
            assert(it.firsts()[n] == first_stack_index(it.remaining(n)));
            assert(sorted_by_stack(it.remaining(i)));
        }
    }
    assert((forall|i: int| 0 <= i < k ==> #[trigger] it.remaining(i).len() == 0) ==> n >= k) by {
        if n < k {
            assert(it.firsts()[n] == first_stack_index(it.remaining(n)));
        }
    }
    assert(n >= k ==> forall|i: int| 0 <= i < k ==> #[trigger] it.remaining(i).len() == 0) by {
        if n >= k {
            assert forall|i: int| 0 <= i < k implies #[trigger] it.remaining(i).len() == 0 by {
                assert(it.firsts()[i] == first_stack_index(it.remaining(i)));
                if it.remaining(i).len() > 0 {
                    assert(it.remaining(i)[0].stack_index < usize::MAX);
                }
            }
        }
    }
}

/// The nodes still to come in the first `k` buffers, counted with their multiplicity.
pub open spec fn pending_upto(it: ExtractedUiNodesIter, k: int) -> Multiset<ExtractedUiNode>
    decreases k,
{
    if k <= 0 {
        Multiset::empty()
    } else {
        pending_upto(it, k - 1).add(it.remaining(k - 1).to_multiset())
    }
}

/// The nodes still to come in all buffers, counted with their multiplicity.
pub open spec fn pending(it: ExtractedUiNodesIter) -> Multiset<ExtractedUiNode> {
    pending_upto(it, it.buffers() as int)
}

/// The nodes that a run of calls yielded, in order.
pub open spec fn yielded(outs: Seq<Option<ExtractedUiNode>>) -> Seq<ExtractedUiNode>
    decreases outs.len(),
{
    if outs.len() == 0 {
        Seq::empty()
    } else {
        match outs.last() {
            Some(x) => yielded(outs.drop_last()).push(x),
            None => yielded(outs.drop_last()),
        }
    }
}

/// Taking `x` out of buffer `n` takes it out of what is pending.
proof fn lemma_pending_take(a: ExtractedUiNodesIter, z: ExtractedUiNodesIter, n: int, x: ExtractedUiNode, k: int)
    requires
        0 <= n,
        0 <= k,
        forall|i: int| 0 <= i < k && i != n ==> #[trigger] z.remaining(i) == a.remaining(i),
        a.remaining(n).to_multiset() == z.remaining(n).to_multiset().insert(x),
    ensures
        k > n ==> pending_upto(a, k) == pending_upto(z, k).insert(x),
        k <= n ==> pending_upto(a, k) == pending_upto(z, k),
    decreases k,
{
    broadcast use vstd::multiset::group_multiset_axioms;

    if k > 0 {
        lemma_pending_take(a, z, n, x, k - 1);
        if k - 1 == n {
            assert(pending_upto(a, k) =~= pending_upto(z, k).insert(x));
        } else if k > n {
            assert(z.remaining(k - 1) == a.remaining(k - 1));
            assert(pending_upto(a, k) =~= pending_upto(z, k).insert(x));
        } else {
            assert(z.remaining(k - 1) == a.remaining(k - 1));
        }
    }
}

/// Buffers that stay as they are leave what is pending as it is.
proof fn lemma_pending_same(a: ExtractedUiNodesIter, z: ExtractedUiNodesIter, k: int)
    requires
        forall|i: int| 0 <= i < k ==> #[trigger] z.remaining(i) == a.remaining(i),
    ensures
        pending_upto(a, k) == pending_upto(z, k),
    decreases k,
{
    if k > 0 {
        lemma_pending_same(a, z, k - 1);
        assert(z.remaining(k - 1) == a.remaining(k - 1));
    }
}

/// Each buffer's nodes still to come after a step are those before it, or those less the
/// first.
proof fn lemma_step_shrinks(before: ExtractedUiNodesIter, after: ExtractedUiNodesIter, r: Option<ExtractedUiNode>, b: int, k: int)
    requires
        merge_step(before, after, r),
        0 <= b < before.buffers(),
        0 <= k < after.remaining(b).len(),
    ensures
        0 <= k + 1 < before.remaining(b).len() && before.remaining(b)[k + 1] == after.remaining(b)[k]
            || 0 <= k < before.remaining(b).len() && before.remaining(b)[k] == after.remaining(b)[k],
{
    let n = before.chosen();
    if n < before.buffers() && b == n {
        assert(after.remaining(n) == before.remaining(n).drop_first());
        assert(before.remaining(b).drop_first()[k] == before.remaining(b)[k + 1]);
    } else {
        assert(after.remaining(b) == before.remaining(b));
    }
}

/// Every state of a run keeps the iterator's invariant, its number of buffers and the buffers
/// sorted.
proof fn lemma_run_wf(its: Seq<ExtractedUiNodesIter>, outs: Seq<Option<ExtractedUiNode>>, j: int)
    requires
        its.len() == outs.len() + 1,
        its[0].wf(),
        its[0].sorted_no_max(),
        forall|i: int| 0 <= i < outs.len() ==> merge_step(#[trigger] its[i], its[i + 1], outs[i]),
        0 <= j < its.len(),
    ensures
        its[j].wf(),
        its[j].sorted_no_max(),
        its[j].buffers() == its[0].buffers(),
    decreases j,
{
    if j > 0 {
        lemma_run_wf(its, outs, j - 1);
        assert(merge_step(its[j - 1], its[j], outs[j - 1]));
    }
}

/// A node yielded at step `i` comes no later in the stack than any node still to come at a
/// later step `j`.
proof fn lemma_run_bound(its: Seq<ExtractedUiNodesIter>, outs: Seq<Option<ExtractedUiNode>>, i: int, j: int, b: int, k: int)
    requires
        its.len() == outs.len() + 1,
        its[0].wf(),
        its[0].sorted_no_max(),
        forall|i: int| 0 <= i < outs.len() ==> merge_step(#[trigger] its[i], its[i + 1], outs[i]),
        0 <= i < j < its.len(),
        0 <= b < its[0].buffers(),
        0 <= k < its[j].remaining(b).len(),
        outs[i].is_some(),
    ensures
        outs[i].unwrap().stack_index <= its[j].remaining(b)[k].stack_index,
    decreases j,
{
    assert(merge_step(its[j - 1], its[j], outs[j - 1]));
    lemma_run_wf(its, outs, j - 1);
    lemma_step_shrinks(its[j - 1], its[j], outs[j - 1], b, k);
    let k2 = if 0 <= k + 1 < its[j - 1].remaining(b).len() && its[j - 1].remaining(b)[k + 1] == its[j].remaining(b)[k] {
        k + 1
    } else {
        k
    };
    if i < j - 1 {
        lemma_run_bound(its, outs, i, j - 1, b, k2);
    } else {
        let a = its[i];
        lemma_run_wf(its, outs, i);
        lemma_merge_order(a);
        assert(merge_step(a, its[i + 1], outs[i]));
        let n = a.chosen();
        assert(n < a.buffers());
        assert(outs[i].unwrap() == a.remaining(n)[0]);
        assert(a.remaining(b)[k2] == its[j].remaining(b)[k]);
    }
}

/// Once a step yields nothing every buffer is empty, and every later step yields nothing.
proof fn lemma_run_none(its: Seq<ExtractedUiNodesIter>, outs: Seq<Option<ExtractedUiNode>>, i: int, j: int)
    requires
        its.len() == outs.len() + 1,
        its[0].wf(),
        its[0].sorted_no_max(),
        forall|i: int| 0 <= i < outs.len() ==> merge_step(#[trigger] its[i], its[i + 1], outs[i]),
        0 <= i <= j < outs.len(),
        outs[i].is_none(),
    ensures
        forall|b: int| 0 <= b < its[0].buffers() ==> (#[trigger] its[j].remaining(b)).len() == 0,
        outs[j].is_none(),
    decreases j - i,
{
    lemma_run_wf(its, outs, j);
    if j > i {
        lemma_run_none(its, outs, i, j - 1);
        lemma_run_wf(its, outs, j - 1);
        assert(merge_step(its[j - 1], its[j], outs[j - 1]));
        assert forall|b: int| 0 <= b < its[0].buffers() implies (#[trigger] its[j].remaining(b)).len() == 0 by {
            assert(its[j].remaining(b) == its[j - 1].remaining(b));
        }
    } else {
        assert(merge_step(its[i], its[i + 1], outs[i]));
        lemma_merge_order(its[i]);
    }
    lemma_merge_order(its[j]);
    assert(merge_step(its[j], its[j + 1], outs[j]));
}

/// What a run yielded together with what is still to come are the nodes it started with.
proof fn lemma_run_pending(its: Seq<ExtractedUiNodesIter>, outs: Seq<Option<ExtractedUiNode>>, j: int)
    requires
        its.len() == outs.len() + 1,
        forall|i: int| 0 <= i < outs.len() ==> merge_step(#[trigger] its[i], its[i + 1], outs[i]),
        0 <= j < its.len(),
    ensures
        its[j].buffers() == its[0].buffers(),
        pending(its[0]) == yielded(outs.take(j)).to_multiset().add(pending(its[j])),
    decreases j,
{
    broadcast use vstd::multiset::group_multiset_axioms;
    broadcast use vstd::seq_lib::group_to_multiset_ensures;

    if j == 0 {
        assert(outs.take(0) =~= Seq::<Option<ExtractedUiNode>>::empty());
        assert(yielded(outs.take(0)) =~= Seq::<ExtractedUiNode>::empty());
        assert(pending(its[0]) =~= Seq::<ExtractedUiNode>::empty().to_multiset().add(pending(its[0])));
    } else {
        let m = j - 1;
        lemma_run_pending(its, outs, m);
        let a = its[m];
        let z = its[j];
        assert(merge_step(a, z, outs[m]));
        assert(outs.take(j).drop_last() =~= outs.take(m));
        assert(outs.take(j).last() == outs[m]);
        let n = a.chosen();
        let k = a.buffers() as int;
        if n < k {
            let x = a.remaining(n)[0];
            assert(a.remaining(n).remove(0) =~= z.remaining(n));
            assert(a.remaining(n).to_multiset() =~= z.remaining(n).to_multiset().insert(x));
            lemma_pending_take(a, z, n, x, k);
            assert(yielded(outs.take(j)) == yielded(outs.take(m)).push(x));
            assert(pending(its[0]) =~= yielded(outs.take(j)).to_multiset().add(pending(z)));
        } else {
            lemma_pending_same(a, z, k);
            assert(yielded(outs.take(j)) == yielded(outs.take(m)));
        }
    }
}

/// From step `i` to a later step `j` each buffer loses nodes from its front only, and at
/// least its first where step `i` takes from it.
proof fn lemma_run_suffix(its: Seq<ExtractedUiNodesIter>, outs: Seq<Option<ExtractedUiNode>>, i: int, j: int, b: int) -> (d: int)
    requires
        its.len() == outs.len() + 1,
        forall|i: int| 0 <= i < outs.len() ==> merge_step(#[trigger] its[i], its[i + 1], outs[i]),
        0 <= i <= j < its.len(),
        0 <= b < its[i].buffers(),
    ensures
        0 <= d <= its[i].remaining(b).len(),
        its[j].remaining(b) == its[i].remaining(b).skip(d),
        i < j && its[i].chosen() == b ==> d >= 1,
    decreases j - i,
{
    if i == j {
        assert(its[i].remaining(b).skip(0) =~= its[i].remaining(b));
        0
    } else {
        let d0 = lemma_run_suffix(its, outs, i, j - 1, b);
        lemma_run_pending(its, outs, i);
        lemma_run_pending(its, outs, j - 1);
        let a = its[j - 1];
        assert(merge_step(a, its[j], outs[j - 1]));
        if a.chosen() < a.buffers() && a.chosen() == b {
            assert(its[i].remaining(b).skip(d0).drop_first() =~= its[i].remaining(b).skip(d0 + 1));
            d0 + 1
        } else {
            if i == j - 1 && its[i].chosen() == b {
                assert(its[i].chosen() >= its[i].buffers());
            }
            assert(its[j].remaining(b) == a.remaining(b));
            d0
        }
    }
}

/// Merging a whole run: where every buffer is sorted by stack index and no node has the stack
/// index `usize::MAX`, a run of calls of [`ExtractedUiNodesIter::next`] yields its nodes in
/// stack order; once it yields nothing every buffer is empty and it yields nothing again; and
/// what it yielded together with what is still to come are the nodes it started with.
pub proof fn lemma_merge_run(its: Seq<ExtractedUiNodesIter>, outs: Seq<Option<ExtractedUiNode>>)
    requires
        its.len() == outs.len() + 1,
        its[0].wf(),
        its[0].sorted_no_max(),
        forall|i: int| 0 <= i < outs.len() ==> merge_step(#[trigger] its[i], its[i + 1], outs[i]),
    ensures
        forall|j: int| 0 <= j < its.len() ==> (#[trigger] its[j]).wf() && its[j].sorted_no_max() && its[j].buffers() == its[0].buffers(),
        forall|i: int, j: int| 0 <= i < j < outs.len() && (#[trigger] outs[i]).is_some() && (#[trigger] outs[j]).is_some()
            ==> outs[i].unwrap().stack_index <= outs[j].unwrap().stack_index,
        forall|i: int, j: int| 0 <= i <= j < outs.len() && (#[trigger] outs[i]).is_none()
            ==> (#[trigger] outs[j]).is_none() && forall|b: int| 0 <= b < its[0].buffers() ==> (#[trigger] its[j].remaining(b)).len() == 0,
        forall|j: int| 0 <= j < its.len() ==> pending(its[0]) == yielded(outs.take(j)).to_multiset().add(pending(#[trigger] its[j])),
{
    assert forall|j: int| 0 <= j < its.len() implies (#[trigger] its[j]).wf() && its[j].sorted_no_max() && its[j].buffers() == its[0].buffers() by {
        lemma_run_wf(its, outs, j);
    }
    assert forall|i: int, j: int| 0 <= i < j < outs.len() && (#[trigger] outs[i]).is_some() && (#[trigger] outs[j]).is_some()
        implies outs[i].unwrap().stack_index <= outs[j].unwrap().stack_index by {
        let a = its[j];
        lemma_run_wf(its, outs, j);
        lemma_merge_order(a);
        assert(merge_step(a, its[j + 1], outs[j]));
        let n = a.chosen();
        assert(n < a.buffers());
        lemma_run_bound(its, outs, i, j, n, 0);
    }
    assert forall|i: int, j: int| 0 <= i <= j < outs.len() && (#[trigger] outs[i]).is_none()
        implies (#[trigger] outs[j]).is_none() && forall|b: int| 0 <= b < its[0].buffers() ==> (#[trigger] its[j].remaining(b)).len() == 0 by {
        lemma_run_none(its, outs, i, j);
    }
    assert forall|j: int| 0 <= j < its.len() implies pending(its[0]) == yielded(outs.take(j)).to_multiset().add(pending(#[trigger] its[j])) by {
        lemma_run_pending(its, outs, j);
    }
}

/// Ties in a run: of two nodes with the same stack index, the one taken from an earlier buffer
/// comes first; and two nodes taken from the same buffer come in that buffer's order (the
/// later one stands behind the earlier one in what the buffer held at the earlier step).
pub proof fn lemma_merge_ties(its: Seq<ExtractedUiNodesIter>, outs: Seq<Option<ExtractedUiNode>>, i: int, j: int)
    requires
        its.len() == outs.len() + 1,
        its[0].wf(),
        its[0].sorted_no_max(),
        forall|i: int| 0 <= i < outs.len() ==> merge_step(#[trigger] its[i], its[i + 1], outs[i]),
        0 <= i < j < outs.len(),
        outs[i].is_some(),
        outs[j].is_some(),
    ensures
        outs[i].unwrap().stack_index == outs[j].unwrap().stack_index ==> its[i].chosen() <= its[j].chosen(),
        its[i].chosen() == its[j].chosen() ==> exists|k: int|
            1 <= k < its[i].remaining(its[i].chosen()).len() && its[i].remaining(its[i].chosen())[k] == outs[j].unwrap(),
{
    lemma_run_wf(its, outs, i);
    lemma_run_wf(its, outs, j);
    let a = its[i];
    let c = its[j];
    assert(merge_step(a, its[i + 1], outs[i]));
    assert(merge_step(c, its[j + 1], outs[j]));
    let ni = a.chosen();
    let nj = c.chosen();
    assert(ni < a.buffers());
    assert(nj < c.buffers());
    let dj = lemma_run_suffix(its, outs, i, j, nj);
    assert(outs[j].unwrap() == c.remaining(nj)[0]);
    assert(c.remaining(nj)[0] == a.remaining(nj)[dj]);
    if outs[i].unwrap().stack_index == outs[j].unwrap().stack_index && nj < ni {
        // buffer nj held, at step i, a node with the smallest stack index at its front
        lemma_merge_order(a);
        assert(a.buffer_ok(nj));
        assert(a.buffer_ok(ni));
        assert(sorted_by_stack(a.remaining(nj)));
        assert(a.remaining(nj)[0].stack_index <= a.remaining(nj)[dj].stack_index);
        assert(a.firsts()[nj] == a.remaining(nj)[0].stack_index);
        assert(a.firsts()[ni] == a.remaining(ni)[0].stack_index);
        assert(a.firsts()[ni] < a.firsts()[nj]);
        assert(false);
    }
    if ni == nj {
        assert(1 <= dj < a.remaining(ni).len() && a.remaining(ni)[dj] == outs[j].unwrap());
    }
}

impl ExtractedUiNodes {
    /// The buffers, all empty.
    pub fn new() -> (r: Self)
        ensures
            r.uinodes@.len() == UI_NODES_BUFFERS,
            forall|i: int| 0 <= i < UI_NODES_BUFFERS ==> (#[trigger] r.uinodes@[i])@.len() == 0,
    {
        let mut uinodes: Vec<Vec<ExtractedUiNode>> = Vec::new();
        let mut i: usize = 0;
        while i < UI_NODES_BUFFERS
            invariant
                i <= UI_NODES_BUFFERS,
                uinodes@.len() == i,
                forall|j: int| 0 <= j < i ==> (#[trigger] uinodes@[j])@.len() == 0,
            decreases UI_NODES_BUFFERS - i,
        {
            uinodes.push(Vec::new());
            i = i + 1;
        }
        ExtractedUiNodes { uinodes }
    }

    /// Takes all nodes out of the buffers and returns an iterator over them in stack order.
    pub fn into_iter(&mut self) -> (r: ExtractedUiNodesIter)
        requires
            old(self).uinodes@.len() < usize::MAX,
        ensures
            r.wf(),
            r.buffers() == old(self).uinodes@.len(),
            forall|i: int| 0 <= i < old(self).uinodes@.len() ==> #[trigger] r.remaining(i) == old(self).uinodes@[i]@,
            final(self).uinodes@.len() == old(self).uinodes@.len(),
            forall|i: int| 0 <= i < final(self).uinodes@.len() ==> (#[trigger] final(self).uinodes@[i])@.len() == 0,
    {
        ExtractedUiNodesIter::new(&mut self.uinodes)
    }

    /// Retrieves the first empty buffer; where every buffer holds nodes, a new empty buffer is
    /// added after them and returned.
    pub fn next_buffer(&mut self) -> (r: &mut Vec<ExtractedUiNode>)
        ensures
            r@.len() == 0,
            (forall|j: int| 0 <= j < old(self).uinodes@.len() ==> (#[trigger] old(self).uinodes@[j])@.len() > 0)
                ==> final(self).uinodes@ == old(self).uinodes@.push(*final(r)),
            !(forall|j: int| 0 <= j < old(self).uinodes@.len() ==> (#[trigger] old(self).uinodes@[j])@.len() > 0)
                ==> exists|k: int| {
                &&& 0 <= k < old(self).uinodes@.len()
                &&& (#[trigger] old(self).uinodes@[k])@.len() == 0
                &&& forall|j: int| 0 <= j < k ==> (#[trigger] old(self).uinodes@[j])@.len() > 0
                &&& final(self).uinodes@ == old(self).uinodes@.update(k, *final(r))
            },
    {
        let mut i: usize = 0;
        while i < self.uinodes.len()
            invariant
                0 <= i <= self.uinodes@.len(),
                self == old(self),
                forall|j: int| 0 <= j < i ==> (#[trigger] self.uinodes@[j])@.len() > 0,
            decreases self.uinodes@.len() - i,
        {
            if self.uinodes[i].len() == 0 {
                return &mut self.uinodes[i];
            }
            i = i + 1;
        }
        self.uinodes.push(Vec::new());
        let last = self.uinodes.len() - 1;
        let ghost mid = self.uinodes@;
        assert forall|f: Vec<ExtractedUiNode>| #[trigger] mid.update(last as int, f) == old(self).uinodes@.push(f) by {
            assert(mid.update(last as int, f) =~= old(self).uinodes@.push(f));
        }
        &mut self.uinodes[last]
    }
}

} // verus!
