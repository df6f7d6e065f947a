//! Render preparation of extracted UI items: sorting them into stack order and cutting them
//! into batches that share a pipeline and a texture, and the pipeline each batch is drawn with.
use core::ops::Range;
use vstd::prelude::*;

verus! {

/// The kind of instance an item is drawn as; the `C` kinds are clipped.
#[derive(PartialEq, Eq, Structural, Clone, Copy, Debug)]
pub enum BatchType {
    Node,
    Text,
    LinearGradient,
    RadialGradient,
    DashedBorder,
    CNode,
    CText,
    CLinearGradient,
    CRadialGradient,
    CDashedBorder,
}

/// The number of batch types.
pub const BATCH_TYPES: usize = 10;

impl BatchType {
    /// The position of the type among all batch types.
    pub open spec fn spec_index(self) -> nat {
        match self {
            BatchType::Node => 0,
            BatchType::Text => 1,
            BatchType::LinearGradient => 2,
            BatchType::RadialGradient => 3,
            BatchType::DashedBorder => 4,
            BatchType::CNode => 5,
            BatchType::CText => 6,
            BatchType::CLinearGradient => 7,
            BatchType::CRadialGradient => 8,
            BatchType::CDashedBorder => 9,
        }
    }

    /// The position of the type among all batch types.
    pub fn index(self) -> (r: usize)
        ensures
            r == self.spec_index(),
            r < BATCH_TYPES,
    {
        match self {
            BatchType::Node => 0,
            BatchType::Text => 1,
            BatchType::LinearGradient => 2,
            BatchType::RadialGradient => 3,
            BatchType::DashedBorder => 4,
            BatchType::CNode => 5,
            BatchType::CText => 6,
            BatchType::CLinearGradient => 7,
            BatchType::CRadialGradient => 8,
            BatchType::CDashedBorder => 9,
        }
    }
}

/// The shader variant a pipeline is specialized for.
#[derive(PartialEq, Eq, Structural, Clone, Copy, Debug)]
pub enum UiPipelineSpecialization {
    Node,
    Text,
    LinearGradient,
    RadialGradient,
    DashedBorder,
}

/// The pipeline that a batch of the given type is drawn with: its shader variant and
/// whether it clips.
pub fn batch_pipeline(batch_type: BatchType) -> (r: (UiPipelineSpecialization, bool))
    ensures
        r.1 == (batch_type.spec_index() >= 5),
        r.0 == match batch_type {
            BatchType::Node | BatchType::CNode => UiPipelineSpecialization::Node,
            BatchType::Text | BatchType::CText => UiPipelineSpecialization::Text,
            BatchType::LinearGradient | BatchType::CLinearGradient => UiPipelineSpecialization::LinearGradient,
            BatchType::RadialGradient | BatchType::CRadialGradient => UiPipelineSpecialization::RadialGradient,
            BatchType::DashedBorder | BatchType::CDashedBorder => UiPipelineSpecialization::DashedBorder,
        },
{
    match batch_type {
        BatchType::Node => (UiPipelineSpecialization::Node, false),
        BatchType::Text => (UiPipelineSpecialization::Text, false),
        BatchType::LinearGradient => (UiPipelineSpecialization::LinearGradient, false),
        BatchType::CNode => (UiPipelineSpecialization::Node, true),
        BatchType::CText => (UiPipelineSpecialization::Text, true),
        BatchType::CLinearGradient => (UiPipelineSpecialization::LinearGradient, true),
        BatchType::RadialGradient => (UiPipelineSpecialization::RadialGradient, false),
        BatchType::CRadialGradient => (UiPipelineSpecialization::RadialGradient, true),
        BatchType::DashedBorder => (UiPipelineSpecialization::DashedBorder, false),
        BatchType::CDashedBorder => (UiPipelineSpecialization::DashedBorder, true),
    }
}

/// An item extracted for rendering: its place in the UI stack, the texture it samples and
/// the kind of instance it is drawn as.
#[derive(PartialEq, Eq, Structural, Clone, Copy, Debug)]
pub struct ExtractedItem {
    pub stack_index: u32,
    pub image: u64,
    pub batch_type: BatchType,
}

/// A run of instances of one type drawn with one texture. `range` holds the instance
/// numbers within the instance buffer of the batch's type.
#[derive(PartialEq, Eq, Debug)]
pub struct UiBatch {
    pub batch_type: BatchType,
    pub range: Range<u32>,
    pub image: u64,
    pub stack_index: u32,
}

/// Items sorted by stack index.
pub open spec fn sorted_by_stack(s: Seq<ExtractedItem>) -> bool {
    forall|i: int, j: int| 0 <= i <= j < s.len() ==> s[i].stack_index <= s[j].stack_index
}

/// The items of `s` at stack index `k`, in order.
pub open spec fn at_stack(s: Seq<ExtractedItem>, k: u32) -> Seq<ExtractedItem> {
    s.filter(|x: ExtractedItem| x.stack_index == k)
}

/// `r` is `s` sorted stably by stack index: sorted, and at each stack index it holds the
/// items of `s` at that index in their order in `s`.
pub open spec fn stable_sorted(r: Seq<ExtractedItem>, s: Seq<ExtractedItem>) -> bool {
    &&& sorted_by_stack(r)
    &&& forall|k: u32| #[trigger] at_stack(r, k) == at_stack(s, k)
}

/// The number of items of `s` of the given type.
pub open spec fn count_type(s: Seq<ExtractedItem>, t: BatchType) -> nat {
    s.filter(|x: ExtractedItem| x.batch_type == t).len()
}

/// The batches of `s`, in order: each item opens a new batch unless the last batch has its
/// type and texture, in which case it extends that batch. An item is the `n`-th of its type
/// (counting from one) and takes instance number `n - 1`.
pub open spec fn batches_of(s: Seq<ExtractedItem>) -> Seq<UiBatch>
    decreases s.len(),
{
    if s.len() == 0 {
        Seq::empty()
    } else {
        let prev = batches_of(s.drop_last());
        let x = s.last();
        let index = count_type(s, x.batch_type);
        if prev.len() > 0 && prev.last().batch_type == x.batch_type && prev.last().image
            == x.image {
            prev.update(
                prev.len() - 1,
                UiBatch {
                    batch_type: prev.last().batch_type,
                    range: Range { start: prev.last().range.start, end: index as u32 },
                    image: prev.last().image,
                    stack_index: prev.last().stack_index,
                },
            )
        } else {
            prev.push(
                UiBatch {
                    batch_type: x.batch_type,
                    range: Range { start: (index - 1) as u32, end: index as u32 },
                    image: x.image,
                    stack_index: x.stack_index,
                },
            )
        }
    }
}

/// The count of a type grows by one with an item of that type and is bounded by the length.
proof fn lemma_count_type_step(s: Seq<ExtractedItem>, t: BatchType)
    requires
        s.len() > 0,
    ensures
        count_type(s, t) == count_type(s.drop_last(), t) + if s.last().batch_type == t { 1int } else { 0int },
        count_type(s, t) <= s.len(),
{
    reveal_with_fuel(Seq::filter, 1);
    s.lemma_filter_len(|y: ExtractedItem| y.batch_type == t);
}

/// Batches are non-empty runs: each holds at least one instance, its instance numbers stay
/// within the count of items of its type, and no two neighbouring batches share both type and
/// texture (a run is never split).
#[verifier::rlimit(100)]
#[verifier::spinoff_prover]
pub proof fn lemma_batches_are_maximal_runs(s: Seq<ExtractedItem>)
    requires
        s.len() < u32::MAX,
    ensures
        forall|i: int|
            0 <= i < batches_of(s).len() ==> {
                &&& (#[trigger] batches_of(s)[i]).range.start < batches_of(s)[i].range.end
                &&& batches_of(s)[i].range.end <= count_type(s, batches_of(s)[i].batch_type)
            },
        forall|i: int|
            0 <= i < batches_of(s).len() - 1 ==> !((#[trigger] batches_of(s)[i]).batch_type
                == batches_of(s)[i + 1].batch_type && batches_of(s)[i].image == batches_of(
                s,
            )[i + 1].image),
    decreases s.len(),
{
    if s.len() > 0 {
        let pre = s.drop_last();
        let x = s.last();
        lemma_batches_are_maximal_runs(pre);
        lemma_count_type_step(s, x.batch_type);
        let idx = count_type(s, x.batch_type);
        let prev = batches_of(pre);
        let b = batches_of(s);
        assert forall|i: int| 0 <= i < prev.len() implies #[trigger] prev[i].range.end <= count_type(s, prev[i].batch_type) by {
            lemma_count_type_step(s, prev[i].batch_type);
        }
        if prev.len() > 0 && prev.last().batch_type == x.batch_type && prev.last().image == x.image {
            let nb = UiBatch {
                batch_type: prev.last().batch_type,
                range: Range { start: prev.last().range.start, end: idx as u32 },
                image: prev.last().image,
                stack_index: prev.last().stack_index,
            };
            assert(b == prev.update(prev.len() - 1, nb));
            assert(prev.last().range.end <= idx - 1) by {
                lemma_count_type_step(s, x.batch_type);
            }
        } else {
            let nb = UiBatch {
                batch_type: x.batch_type,
                range: Range { start: (idx - 1) as u32, end: idx as u32 },
                image: x.image,
                stack_index: x.stack_index,
            };
            assert(b == prev.push(nb));
        }
    }
}

/// Counting items of a type over a prefix: a prefix holds no more than the whole, and strictly
/// fewer where the item right after the prefix has that type.
proof fn lemma_count_prefix(s: Seq<ExtractedItem>, p: int, t: BatchType)
    requires
        0 <= p <= s.len(),
    ensures
        count_type(s.take(p), t) <= count_type(s, t),
        p < s.len() && s[p].batch_type == t ==> count_type(s.take(p), t) < count_type(s, t),
    decreases s.len(),
{
    if p == s.len() {
        assert(s.take(p) =~= s);
    } else {
        let pre = s.drop_last();
        lemma_count_type_step(s, t);
        if p == s.len() - 1 {
            assert(s.take(p) =~= pre);
        } else {
            lemma_count_prefix(pre, p, t);
            assert(s.take(p) =~= pre.take(p));
            assert(pre[p] == s[p]);
        }
    }
}

/// Item `p` of `s` is drawn by batch `i` of `batches`: the batch has the item's type, and the
/// item's instance number (its place among the items of its type) lies in the batch's range.
pub open spec fn drawn_by(s: Seq<ExtractedItem>, batches: Seq<UiBatch>, i: int, p: int) -> bool {
    &&& s[p].batch_type == batches[i].batch_type
    &&& batches[i].range.start <= count_type(s.take(p), s[p].batch_type)
    &&& count_type(s.take(p), s[p].batch_type) < batches[i].range.end
}

/// Every item that a batch of `s` draws has that batch's texture, and the last batch reaches
/// to the count of items of its type.
pub open spec fn textures_kept(s: Seq<ExtractedItem>) -> bool {
    &&& forall|i: int, p: int| 0 <= i < batches_of(s).len() && 0 <= p < s.len() && #[trigger] drawn_by(s, batches_of(s), i, p)
        ==> s[p].image == batches_of(s)[i].image
    &&& batches_of(s).len() > 0 ==> batches_of(s).last().range.end == count_type(s, batches_of(s).last().batch_type)
}

/// One item of `s` and one batch: the item is drawn with the batch's texture, given that
/// this holds of the items before the last.
#[verifier::spinoff_prover]
proof fn lemma_share_point(s: Seq<ExtractedItem>, i: int, p: int)
    requires
        s.len() > 0,
        s.len() < u32::MAX,
        textures_kept(s.drop_last()),
        forall|k: int| 0 <= k < batches_of(s.drop_last()).len() ==> (#[trigger] batches_of(s.drop_last())[k]).range.end
            <= count_type(s.drop_last(), batches_of(s.drop_last())[k].batch_type),
        0 <= i < batches_of(s).len(),
        0 <= p < s.len(),
        drawn_by(s, batches_of(s), i, p),
    ensures
        s[p].image == batches_of(s)[i].image,
{
    let pre = s.drop_last();
    let x = s.last();
    let t = x.batch_type;
    let last = s.len() - 1;
    lemma_count_type_step(s, t);
    let idx = count_type(s, t);
    let prev = batches_of(pre);
    let b = batches_of(s);
    let extend = prev.len() > 0 && prev.last().batch_type == x.batch_type && prev.last().image == x.image;
    if p < last {
        assert(s.take(p) =~= pre.take(p));
        assert(s[p] == pre[p]);
        if extend {
            if i == prev.len() - 1 {
                if pre[p].batch_type == t {
                    lemma_count_prefix(pre, p, t);
                }
                assert(drawn_by(pre, prev, i, p));
            } else {
                assert(b[i] == prev[i]);
                assert(drawn_by(pre, prev, i, p));
            }
        } else {
            if i == prev.len() {
                lemma_count_prefix(pre, p, t);
            } else {
                assert(b[i] == prev[i]);
                assert(drawn_by(pre, prev, i, p));
            }
        }
    } else {
        assert(s[p] == x);
        assert(s.take(p) =~= pre);
        if extend {
            if i < prev.len() - 1 {
                assert(b[i] == prev[i]);
            }
        } else {
            if i < prev.len() {
                assert(b[i] == prev[i]);
            }
        }
    }
}

/// The last batch reaches to the count of items of its type.
#[verifier::spinoff_prover]
proof fn lemma_last_batch_reaches(s: Seq<ExtractedItem>)
    requires
        s.len() < u32::MAX,
        s.len() > 0,
    ensures
        batches_of(s).last().range.end == count_type(s, batches_of(s).last().batch_type),
{
    let pre = s.drop_last();
    let x = s.last();
    lemma_count_type_step(s, x.batch_type);
    let idx = count_type(s, x.batch_type);
    let prev = batches_of(pre);
    if prev.len() > 0 && prev.last().batch_type == x.batch_type && prev.last().image == x.image {
        let nb = UiBatch {
            batch_type: prev.last().batch_type,
            range: Range { start: prev.last().range.start, end: idx as u32 },
            image: prev.last().image,
            stack_index: prev.last().stack_index,
        };
        assert(batches_of(s) == prev.update(prev.len() - 1, nb));
    } else {
        let nb = UiBatch {
            batch_type: x.batch_type,
            range: Range { start: (idx - 1) as u32, end: idx as u32 },
            image: x.image,
            stack_index: x.stack_index,
        };
        assert(batches_of(s) == prev.push(nb));
    }
}

/// Batches never mix textures: every item whose instance number (its place among the items of
/// its type) lies in a batch of its type has that batch's texture. The last batch reaches to
/// the count of items of its type.
#[verifier::spinoff_prover]
pub proof fn lemma_batch_items_share_texture(s: Seq<ExtractedItem>)
    requires
        s.len() < u32::MAX,
    ensures
        textures_kept(s),
    decreases s.len(),
{
    if s.len() > 0 {
        let pre = s.drop_last();
        lemma_batch_items_share_texture(pre);
        lemma_batches_are_maximal_runs(pre);
        lemma_last_batch_reaches(s);
        lemma_share_all(s);
    }
}

/// Every item of `s` is drawn with the texture of the batches that draw it, given that this
/// holds of the items before the last.
#[verifier::spinoff_prover]
proof fn lemma_share_all(s: Seq<ExtractedItem>)
    requires
        s.len() > 0,
        s.len() < u32::MAX,
        textures_kept(s.drop_last()),
        forall|k: int| 0 <= k < batches_of(s.drop_last()).len() ==> (#[trigger] batches_of(s.drop_last())[k]).range.end
            <= count_type(s.drop_last(), batches_of(s.drop_last())[k].batch_type),
    ensures
        forall|i: int, p: int| 0 <= i < batches_of(s).len() && 0 <= p < s.len() && #[trigger] drawn_by(s, batches_of(s), i, p)
            ==> s[p].image == batches_of(s)[i].image,
{
    assert forall|i: int, p: int| 0 <= i < batches_of(s).len() && 0 <= p < s.len() && #[trigger] drawn_by(s, batches_of(s), i, p)
        implies s[p].image == batches_of(s)[i].image by {
        lemma_share_point(s, i, p);
    }
}

/// Item `p` of `s` is drawn by some batch of `s`.
pub open spec fn item_drawn(s: Seq<ExtractedItem>, p: int) -> bool {
    exists|i: int| 0 <= i < batches_of(s).len() && #[trigger] drawn_by(s, batches_of(s), i, p)
}

/// Every item is drawn: each item of `s` is drawn by some batch of `s`.
pub open spec fn all_drawn(s: Seq<ExtractedItem>) -> bool {
    forall|p: int| 0 <= p < s.len() ==> #[trigger] item_drawn(s, p)
}

/// One item of `s` is drawn by some batch, given that every item before the last is.
#[verifier::spinoff_prover]
proof fn lemma_drawn_point(s: Seq<ExtractedItem>, p: int)
    requires
        s.len() > 0,
        s.len() < u32::MAX,
        all_drawn(s.drop_last()),
        forall|k: int| 0 <= k < batches_of(s.drop_last()).len() ==> (#[trigger] batches_of(s.drop_last())[k]).range.start
            < batches_of(s.drop_last())[k].range.end,
        batches_of(s.drop_last()).len() > 0 ==> batches_of(s.drop_last()).last().range.end
            == count_type(s.drop_last(), batches_of(s.drop_last()).last().batch_type),
        0 <= p < s.len(),
    ensures
        item_drawn(s, p),
{
    let pre = s.drop_last();
    let x = s.last();
    let t = x.batch_type;
    let last = s.len() - 1;
    lemma_count_type_step(s, t);
    let idx = count_type(s, t);
    let prev = batches_of(pre);
    let b = batches_of(s);
    let extend = prev.len() > 0 && prev.last().batch_type == x.batch_type && prev.last().image == x.image;
    if p < last {
        assert(s.take(p) =~= pre.take(p));
        assert(s[p] == pre[p]);
        assert(item_drawn(pre, p));
        let i = choose|i: int| 0 <= i < prev.len() && #[trigger] drawn_by(pre, prev, i, p);
        if extend && i == prev.len() - 1 {
            lemma_count_type_step(s, pre[p].batch_type);
        } else {
            assert(b[i] == prev[i]);
        }
        assert(drawn_by(s, b, i, p));
    } else {
        assert(s[p] == x);
        assert(s.take(p) =~= pre);
        let i = b.len() - 1;
        if extend {
            assert(prev[prev.len() - 1] == prev.last());
        }
        assert(drawn_by(s, b, i, p));
    }
}

/// Every item is drawn: each item of `s` is drawn by some batch of `s`, with the batch's
/// texture (see [`lemma_batch_items_share_texture`]).
#[verifier::spinoff_prover]
pub proof fn lemma_every_item_is_drawn(s: Seq<ExtractedItem>)
    requires
        s.len() < u32::MAX,
    ensures
        all_drawn(s),
    decreases s.len(),
{
    if s.len() > 0 {
        let pre = s.drop_last();
        lemma_every_item_is_drawn(pre);
        lemma_batches_are_maximal_runs(pre);
        if pre.len() > 0 {
            lemma_last_batch_reaches(pre);
        }
        lemma_drawn_all(s);
    }
}

/// Every item of `s` is drawn by some batch, given that every item before the last is.
#[verifier::spinoff_prover]
proof fn lemma_drawn_all(s: Seq<ExtractedItem>)
    requires
        s.len() > 0,
        s.len() < u32::MAX,
        all_drawn(s.drop_last()),
        forall|k: int| 0 <= k < batches_of(s.drop_last()).len() ==> (#[trigger] batches_of(s.drop_last())[k]).range.start
            < batches_of(s.drop_last())[k].range.end,
        batches_of(s.drop_last()).len() > 0 ==> batches_of(s.drop_last()).last().range.end
            == count_type(s.drop_last(), batches_of(s.drop_last()).last().batch_type),
    ensures
        all_drawn(s),
{
    assert forall|p: int| 0 <= p < s.len() implies #[trigger] item_drawn(s, p) by {
        lemma_drawn_point(s, p);
    }
}

/// Batch `i` of `s` opens with an item it draws: the item whose instance number is the
/// batch's first, whose stack index the batch carries.
pub open spec fn opened_by_item(s: Seq<ExtractedItem>, i: int) -> bool {
    exists|p: int| 0 <= p < s.len() && #[trigger] drawn_by(s, batches_of(s), i, p)
        && count_type(s.take(p), s[p].batch_type) == batches_of(s)[i].range.start
        && s[p].stack_index == batches_of(s)[i].stack_index
}

/// Every batch of `s` is opened by an item.
pub open spec fn all_opened(s: Seq<ExtractedItem>) -> bool {
    forall|i: int| 0 <= i < batches_of(s).len() ==> #[trigger] opened_by_item(s, i)
}

/// One batch of `s` is opened by an item, given that every batch before the last item is.
#[verifier::spinoff_prover]
proof fn lemma_opened_point(s: Seq<ExtractedItem>, i: int)
    requires
        s.len() > 0,
        s.len() < u32::MAX,
        all_opened(s.drop_last()),
        forall|k: int| 0 <= k < batches_of(s.drop_last()).len() ==> (#[trigger] batches_of(s.drop_last())[k]).range.end
            <= count_type(s.drop_last(), batches_of(s.drop_last())[k].batch_type),
        0 <= i < batches_of(s).len(),
    ensures
        opened_by_item(s, i),
{
    let pre = s.drop_last();
    let x = s.last();
    let t = x.batch_type;
    let last = s.len() - 1;
    lemma_count_type_step(s, t);
    let idx = count_type(s, t);
    let prev = batches_of(pre);
    let b = batches_of(s);
    let extend = prev.len() > 0 && prev.last().batch_type == x.batch_type && prev.last().image == x.image;
    if i < prev.len() {
        assert(opened_by_item(pre, i));
        let p = choose|p: int| 0 <= p < pre.len() && #[trigger] drawn_by(pre, prev, i, p)
            && count_type(pre.take(p), pre[p].batch_type) == prev[i].range.start
            && pre[p].stack_index == prev[i].stack_index;
        assert(s.take(p) =~= pre.take(p));
        assert(s[p] == pre[p]);
        if extend && i == prev.len() - 1 {
            lemma_count_type_step(s, pre[p].batch_type);
            assert(prev[i] == prev.last());
        } else {
            assert(b[i] == prev[i]);
        }
        assert(drawn_by(s, b, i, p));
    } else {
        assert(s[last] == x);
        assert(s.take(last) =~= pre);
        assert(drawn_by(s, b, i, last));
    }
}

/// Every batch of `s` is opened by an item, given that every batch before the last item is.
#[verifier::spinoff_prover]
proof fn lemma_opened_all(s: Seq<ExtractedItem>)
    requires
        s.len() > 0,
        s.len() < u32::MAX,
        all_opened(s.drop_last()),
        forall|k: int| 0 <= k < batches_of(s.drop_last()).len() ==> (#[trigger] batches_of(s.drop_last())[k]).range.end
            <= count_type(s.drop_last(), batches_of(s.drop_last())[k].batch_type),
    ensures
        all_opened(s),
{
    assert forall|i: int| 0 <= i < batches_of(s).len() implies #[trigger] opened_by_item(s, i) by {
        lemma_opened_point(s, i);
    }
}

/// Every batch is opened by the first item it draws, and carries that item's stack index.
#[verifier::spinoff_prover]
pub proof fn lemma_batches_carry_first_stack_index(s: Seq<ExtractedItem>)
    requires
        s.len() < u32::MAX,
    ensures
        all_opened(s),
    decreases s.len(),
{
    if s.len() > 0 {
        let pre = s.drop_last();
        lemma_batches_carry_first_stack_index(pre);
        lemma_batches_are_maximal_runs(pre);
        lemma_opened_all(s);
    }
}

/// Inserting `x` after every element whose stack index is at most its own keeps `r` a
/// stable sort of `s` extended by `x`.
proof fn lemma_insert_stable(r: Seq<ExtractedItem>, s: Seq<ExtractedItem>, x: ExtractedItem, p: int)
    requires
        stable_sorted(r, s),
        0 <= p <= r.len(),
        forall|i: int| 0 <= i < p ==> r[i].stack_index <= x.stack_index,
        forall|i: int| p <= i < r.len() ==> r[i].stack_index > x.stack_index,
    ensures
        stable_sorted(r.take(p) + seq![x] + r.skip(p), s.push(x)),
{
    let r2 = r.take(p) + seq![x] + r.skip(p);
    assert(r =~= r.take(p) + r.skip(p));
    assert forall|k: u32| #[trigger] at_stack(r2, k) == at_stack(s.push(x), k) by {
        let pred = |y: ExtractedItem| y.stack_index == k;
        Seq::filter_distributes_over_add(r.take(p) + seq![x], r.skip(p), pred);
        Seq::filter_distributes_over_add(r.take(p), seq![x], pred);
        Seq::filter_distributes_over_add(r.take(p), r.skip(p), pred);
        reveal_with_fuel(Seq::filter, 2);
        assert(s.push(x).drop_last() =~= s);
        if k == x.stack_index {
            r.skip(p).lemma_all_neg_filter_empty(pred);
            assert(r.skip(p).filter(pred) =~= Seq::<ExtractedItem>::empty());
            assert(seq![x].drop_last() =~= Seq::<ExtractedItem>::empty());
            assert(seq![x].filter(pred) =~= seq![x]);
            assert(at_stack(r2, k) =~= at_stack(r, k).push(x));
        } else {
            assert(seq![x].drop_last() =~= Seq::<ExtractedItem>::empty());
            assert(seq![x].filter(pred) =~= Seq::<ExtractedItem>::empty());
            assert(at_stack(r2, k) =~= at_stack(r, k));
        }
    }
}

/// Sorts `items` by stack index, keeping items with equal stack indices in their order.
pub fn sort_by_stack_index(items: &mut Vec<ExtractedItem>)
    ensures
        stable_sorted(final(items)@, old(items)@),
        final(items)@.len() == old(items)@.len(),
{
    let ghost orig = items@;
    let mut sorted: Vec<ExtractedItem> = Vec::new();
    let mut i: usize = 0;
    let n = items.len();
    proof {
        assert forall|k: u32| #[trigger] at_stack(sorted@, k) == at_stack(orig.take(0), k) by {
            reveal_with_fuel(Seq::filter, 1);
            assert(sorted@ =~= Seq::<ExtractedItem>::empty());
            assert(orig.take(0) =~= Seq::<ExtractedItem>::empty());
        }
    }
    while i < n
        invariant
            n == orig.len(),
            items@ == orig,
            0 <= i <= n,
            sorted@.len() == i,
            stable_sorted(sorted@, orig.take(i as int)),
        decreases n - i,
    {
        let x = items[i];
        // find the position after every item with a stack index at most x's
        let mut p: usize = sorted.len();
        while p > 0 && sorted[p - 1].stack_index > x.stack_index
            invariant
                0 <= p <= sorted@.len(),
                sorted_by_stack(sorted@),
                forall|j: int| p <= j < sorted@.len() ==> sorted@[j].stack_index > x.stack_index,
            decreases p,
        {
            p = p - 1;
        }
        let ghost before = sorted@;
        sorted.insert(p, x);
        proof {
            assert forall|j: int| 0 <= j < p implies before[j].stack_index <= x.stack_index by {
                if p > 0 {
                    assert(before[p - 1].stack_index <= x.stack_index);
                }
            }
            lemma_insert_stable(before, orig.take(i as int), x, p as int);
            assert(sorted@ =~= before.take(p as int) + seq![x] + before.skip(p as int));
            assert(orig.take(i as int + 1) =~= orig.take(i as int).push(x));
        }
        i = i + 1;
    }
    proof {
        assert(orig.take(n as int) =~= orig);
    }
    *items = sorted;
}

/// Counts of instances pushed so far, one per batch type.
pub struct InstanceCounters {
    counts: [u32; BATCH_TYPES],
}

impl InstanceCounters {
    /// The count of instances of type `t` pushed so far.
    pub closed spec fn count(&self, t: BatchType) -> nat {
        self.counts@[t.spec_index() as int] as nat
    }

    /// No instances yet.
    pub fn new() -> (r: Self)
        ensures
            forall|t: BatchType| #[trigger] r.count(t) == 0,
    {
        InstanceCounters { counts: [0; BATCH_TYPES] }
    }

    /// Counts one more instance of type `t` and returns the new count.
    pub fn increment(&mut self, t: BatchType) -> (r: u32)
        requires
            old(self).count(t) < u32::MAX,
        ensures
            r == old(self).count(t) + 1,
            final(self).count(t) == r,
            forall|u: BatchType| u != t ==> #[trigger] final(self).count(u) == old(self).count(u),
    {
        let i = t.index();
        let c = self.counts[i] + 1;
        self.counts[i] = c;
        proof {
            assert forall|u: BatchType| u != t implies #[trigger] self.count(u) == old(self).count(u) by {
                assert(u.spec_index() != t.spec_index());
            }
        }
        c
    }
}

/// Cuts items, already in stack order, into batches.
pub fn batch_items(items: &Vec<ExtractedItem>) -> (r: Vec<UiBatch>)
    requires
        items@.len() < u32::MAX,
    ensures
        r@ == batches_of(items@),
{
    let mut counters = InstanceCounters::new();
    let mut batches: Vec<UiBatch> = Vec::new();
    let mut i: usize = 0;
    while i < items.len()
        invariant
            0 <= i <= items@.len(),
            items@.len() < u32::MAX,
            batches@ == batches_of(items@.take(i as int)),
            forall|t: BatchType| #[trigger] counters.count(t) == count_type(items@.take(i as int), t),
        decreases items@.len() - i,
    {
        let node = items[i];
        let ghost pre = items@.take(i as int);
        let ghost cur = items@.take(i as int + 1);
        proof {
            assert(cur.drop_last() =~= pre);
            assert(cur.last() == node);
            let pred = |x: ExtractedItem| x.batch_type == node.batch_type;
            reveal_with_fuel(Seq::filter, 1);
            assert(count_type(cur, node.batch_type) == count_type(pre, node.batch_type) + 1);
            assert(count_type(pre, node.batch_type) <= pre.len()) by {
                pre.lemma_filter_len(pred);
            }
            assert forall|t: BatchType| t != node.batch_type implies count_type(cur, t) == count_type(pre, t) by {}
        }
        let index = counters.increment(node.batch_type);
        let n = batches.len();
        let extend = n > 0 && batches[n - 1].batch_type == node.batch_type && batches[n - 1].image == node.image;
        if extend {
            let last = UiBatch {
                batch_type: batches[n - 1].batch_type,
                range: Range { start: batches[n - 1].range.start, end: index },
                image: batches[n - 1].image,
                stack_index: batches[n - 1].stack_index,
            };
            batches.set(n - 1, last);
        } else {
            batches.push(
                UiBatch {
                    batch_type: node.batch_type,
                    range: Range { start: index - 1, end: index },
                    image: node.image,
                    stack_index: node.stack_index,
                },
            );
        }
        proof {
            assert(batches@ =~= batches_of(cur));
            assert forall|t: BatchType| #[trigger] counters.count(t) == count_type(cur, t) by {
                if t != node.batch_type {
                }
            }
        }
        i = i + 1;
    }
    proof {
        assert(items@.take(items@.len() as int) =~= items@);
    }
    batches
}

/// Sorts the extracted items into stack order, cuts them into batches, and empties `items`:
/// every item is handed on in a batch.
pub fn prepare_batches(items: &mut Vec<ExtractedItem>) -> (r: Vec<UiBatch>)
    requires
        old(items)@.len() < u32::MAX,
    ensures
        exists|sorted: Seq<ExtractedItem>| stable_sorted(sorted, old(items)@) && r@ == batches_of(sorted),
        final(items)@.len() == 0,
{
    sort_by_stack_index(items);
    let ghost sorted = items@;
    let r = batch_items(items);
    items.clear();
    assert(stable_sorted(sorted, old(items)@) && r@ == batches_of(sorted));
    r
}

/// The flags of segment `i` of a gradient with `stops` stops, drawn over `base`: the first
/// segment fills from its start and the last one up to its end.
pub open spec fn segment_flags_spec(base: u32, i: nat, stops: nat) -> u32 {
    let with_start = if i == 0 { base | FILL_START } else { base };
    if i + 2 == stops { with_start | FILL_END } else { with_start }
}

/// Flag of an instance that is not textured.
pub const UNTEXTURED_QUAD: u32 = 0;
/// Flag of an instance that is textured.
pub const TEXTURED_QUAD: u32 = 1;
/// Flag of an instance that draws a border.
pub const BORDERED: u32 = 32;
/// Flag of a gradient segment that fills from its start.
pub const FILL_START: u32 = 64;
/// Flag of a gradient segment that fills up to its end.
pub const FILL_END: u32 = 128;

/// The flags of each segment of a gradient with `stops` stops, one segment between each pair
/// of neighbouring stops.
pub fn gradient_segment_flags(base: u32, stops: usize) -> (r: Vec<u32>)
    requires
        stops >= 1,
    ensures
        r@.len() == stops - 1,
        forall|i: int| 0 <= i < r@.len() ==> #[trigger] r@[i] == segment_flags_spec(base, i as nat, stops as nat),
{
    let mut out: Vec<u32> = Vec::new();
    let mut i: usize = 0;
    while i < stops - 1
        invariant
            0 <= i <= stops - 1,
            out@.len() == i,
            forall|j: int| 0 <= j < i ==> #[trigger] out@[j] == segment_flags_spec(base, j as nat, stops as nat),
        decreases stops - 1 - i,
    {
        let mut flags = base;
        if i == 0 {
            flags = flags | FILL_START;
        }
        if i + 2 == stops {
            flags = flags | FILL_END;
        }
        out.push(flags);
        i = i + 1;
    }
    out
}

/// One segment of a linear gradient as it is queued: the item drawn (stack index, texture and
/// instance kind), its flags, and the positions of the two stops it spans. The stops' colors
/// and lengths are floating point and are filled in where the instance is written.
#[derive(PartialEq, Eq, Structural, Clone, Copy, Debug)]
pub struct GradientSegment {
    pub item: ExtractedItem,
    pub flags: u32,
    pub start_stop: usize,
    pub end_stop: usize,
}

/// Segment `i` of a linear gradient with `stops` stops drawn for the node at `stack_index`
/// with `image` (or `default_image` where it has none), clipped where `clip` holds.
pub open spec fn linear_segment_spec(stack_index: u32, image: Option<u64>, default_image: u64, clip: bool, i: nat, stops: nat) -> GradientSegment {
    GradientSegment {
        item: ExtractedItem {
            stack_index,
            image: match image {
                Some(h) => h,
                None => default_image,
            },
            batch_type: if clip { BatchType::CLinearGradient } else { BatchType::LinearGradient },
        },
        flags: segment_flags_spec(if image is Some { TEXTURED_QUAD } else { UNTEXTURED_QUAD }, i, stops),
        start_stop: i as usize,
        end_stop: (i + 1) as usize,
    }
}

/// Appends the segments of a linear gradient with `stops` stops to `segments`: one per pair of
/// neighbouring stops, each drawn at `stack_index` with the node's image (or `default_image`),
/// the first filling from its start and the last up to its end.
pub fn push_node_with_linear_gradient(segments: &mut Vec<GradientSegment>, stack_index: u32, image: Option<u64>, default_image: u64, clip: bool, stops: usize)
    requires
        stops >= 1,
    ensures
        final(segments)@.len() == old(segments)@.len() + stops - 1,
        final(segments)@.take(old(segments)@.len() as int) == old(segments)@,
        forall|i: int| 0 <= i < stops - 1 ==> #[trigger] final(segments)@[old(segments)@.len() + i]
            == linear_segment_spec(stack_index, image, default_image, clip, i as nat, stops as nat),
{
    let tflag = if image.is_some() { TEXTURED_QUAD } else { UNTEXTURED_QUAD };
    let texture = match image {
        Some(h) => h,
        None => default_image,
    };
    let batch_type = if clip { BatchType::CLinearGradient } else { BatchType::LinearGradient };
    let flags = gradient_segment_flags(tflag, stops);
    let ghost start = old(segments)@;
    let mut i: usize = 0;
    while i < stops - 1
        invariant
            0 <= i <= stops - 1,
            flags@.len() == stops - 1,
            forall|j: int| 0 <= j < flags@.len() ==> #[trigger] flags@[j] == segment_flags_spec(tflag, j as nat, stops as nat),
            tflag == (if image is Some { TEXTURED_QUAD } else { UNTEXTURED_QUAD }),
            texture == (match image { Some(h) => h, None => default_image }),
            batch_type == (if clip { BatchType::CLinearGradient } else { BatchType::LinearGradient }),
            segments@.len() == start.len() + i,
            segments@.take(start.len() as int) == start,
            forall|j: int| 0 <= j < i ==> #[trigger] segments@[start.len() + j]
                == linear_segment_spec(stack_index, image, default_image, clip, j as nat, stops as nat),
        decreases stops - 1 - i,
    {
        segments.push(GradientSegment {
            item: ExtractedItem { stack_index, image: texture, batch_type },
            flags: flags[i],
            start_stop: i,
            end_stop: i + 1,
        });
        assert(segments@.take(start.len() as int) =~= start);
        i = i + 1;
    }
}

/// What the UI pipeline is specialized by.
#[derive(PartialEq, Eq, Structural, Clone, Copy, Debug)]
pub struct UiPipelineKey {
    pub hdr: bool,
    pub clip: bool,
    pub text: bool,
    pub node: bool,
}

/// A shader definition that a specialized pipeline sets.
#[derive(PartialEq, Eq, Structural, Clone, Copy, Debug)]
pub enum ShaderDef {
    Clip,
    Special,
    Text,
    Node,
}

/// The format of one attribute of an instance.
#[derive(PartialEq, Eq, Structural, Clone, Copy, Debug)]
pub enum VertexFormat {
    Float32x2,
    Float32x4,
    Uint32,
}

/// A bind group layout of the UI pipeline.
#[derive(PartialEq, Eq, Structural, Clone, Copy, Debug)]
pub enum BindGroupLayoutKind {
    View,
    Image,
    Clip,
}

/// The choices of a specialized UI pipeline: its shader definitions, the formats of its
/// instance attributes, whether it renders to an HDR target, and its bind group layouts in
/// order.
pub struct UiPipelineLayout {
    pub shader_defs: Vec<ShaderDef>,
    pub formats: Vec<VertexFormat>,
    pub hdr_target: bool,
    pub layouts: Vec<BindGroupLayoutKind>,
}

/// The shader definitions of the pipeline for `key`.
pub open spec fn shader_defs_spec(key: UiPipelineKey) -> Seq<ShaderDef> {
    (if key.clip { seq![ShaderDef::Clip] } else { Seq::empty() }) + if key.text {
        seq![ShaderDef::Special, ShaderDef::Text]
    } else if key.node {
        seq![ShaderDef::Special, ShaderDef::Node]
    } else {
        Seq::empty()
    }
}

/// The instance attribute formats of the pipeline for `key`: location, size, uv minimum, uv
/// size and color for text; location, size, uv border, color, radius and flags for nodes.
pub open spec fn formats_spec(key: UiPipelineKey) -> Seq<VertexFormat> {
    if key.text {
        seq![
            VertexFormat::Float32x2,
            VertexFormat::Float32x2,
            VertexFormat::Float32x2,
            VertexFormat::Float32x2,
            VertexFormat::Float32x4,
        ]
    } else if key.node {
        seq![
            VertexFormat::Float32x2,
            VertexFormat::Float32x2,
            VertexFormat::Float32x4,
            VertexFormat::Float32x4,
            VertexFormat::Float32x4,
            VertexFormat::Uint32,
        ]
    } else {
        Seq::empty()
    }
}

/// Specializes the UI pipeline for `key`.
pub fn specialize(key: UiPipelineKey) -> (r: UiPipelineLayout)
    ensures
        r.shader_defs@ == shader_defs_spec(key),
        r.formats@ == formats_spec(key),
        r.hdr_target == key.hdr,
        r.layouts@ == seq![BindGroupLayoutKind::View, BindGroupLayoutKind::Image, BindGroupLayoutKind::Clip],
{
    let mut shader_defs: Vec<ShaderDef> = Vec::new();
    let mut formats: Vec<VertexFormat> = Vec::new();
    if key.clip {
        shader_defs.push(ShaderDef::Clip);
    }
    if key.text {
        shader_defs.push(ShaderDef::Special);
        shader_defs.push(ShaderDef::Text);
        formats.push(VertexFormat::Float32x2);
        formats.push(VertexFormat::Float32x2);
        formats.push(VertexFormat::Float32x2);
        formats.push(VertexFormat::Float32x2);
        formats.push(VertexFormat::Float32x4);
    } else if key.node {
        shader_defs.push(ShaderDef::Special);
        shader_defs.push(ShaderDef::Node);
        formats.push(VertexFormat::Float32x2);
        formats.push(VertexFormat::Float32x2);
        formats.push(VertexFormat::Float32x4);
        formats.push(VertexFormat::Float32x4);
        formats.push(VertexFormat::Float32x4);
        formats.push(VertexFormat::Uint32);
    }
    assert(shader_defs@ =~= shader_defs_spec(key));
    assert(formats@ =~= formats_spec(key));
    let mut layouts: Vec<BindGroupLayoutKind> = Vec::new();
    layouts.push(BindGroupLayoutKind::View);
    layouts.push(BindGroupLayoutKind::Image);
    layouts.push(BindGroupLayoutKind::Clip);
    assert(layouts@ =~= seq![BindGroupLayoutKind::View, BindGroupLayoutKind::Image, BindGroupLayoutKind::Clip]);
    UiPipelineLayout { shader_defs, formats, hdr_target: key.hdr, layouts }
}

/// A shader input type: whether its components are floats (else 32-bit unsigned integers),
/// and how many components it has.
pub struct ShaderInput {
    pub float: bool,
    pub components: u8,
}

/// The shader input type that an attribute of the given format feeds.
pub open spec fn input_of(f: VertexFormat) -> ShaderInput {
    match f {
        VertexFormat::Float32x2 => ShaderInput { float: true, components: 2 },
        VertexFormat::Float32x4 => ShaderInput { float: true, components: 4 },
        VertexFormat::Uint32 => ShaderInput { float: false, components: 1 },
    }
}

/// The instance inputs of the text shader, by location: `i_location: vec2<f32>`,
/// `i_size: vec2<f32>`, `i_uv_min: vec2<f32>`, `i_uv_size: vec2<f32>`, `i_color: vec4<f32>`.
pub open spec fn text_shader_inputs() -> Seq<ShaderInput> {
    seq![
        ShaderInput { float: true, components: 2 },
        ShaderInput { float: true, components: 2 },
        ShaderInput { float: true, components: 2 },
        ShaderInput { float: true, components: 2 },
        ShaderInput { float: true, components: 4 },
    ]
}

/// The instance inputs of the node shader, by location: `i_location: vec2<f32>`,
/// `i_size: vec2<f32>`, `i_uv_border: vec4<f32>`, `i_color: vec4<f32>`,
/// `i_radius: vec4<f32>`, `i_flags: u32`.
pub open spec fn node_shader_inputs() -> Seq<ShaderInput> {
    seq![
        ShaderInput { float: true, components: 2 },
        ShaderInput { float: true, components: 2 },
        ShaderInput { float: true, components: 4 },
        ShaderInput { float: true, components: 4 },
        ShaderInput { float: true, components: 4 },
        ShaderInput { float: false, components: 1 },
    ]
}

/// The attribute formats of a specialized pipeline match its shader's instance inputs
/// location by location: the text pipeline feeds the text shader's inputs, the node pipeline
/// the node shader's, and each attribute has its input's component type and count.
pub proof fn lemma_formats_match_shader_inputs(key: UiPipelineKey)
    ensures
        key.text ==> formats_spec(key).len() == text_shader_inputs().len() && forall|i: int|
            0 <= i < formats_spec(key).len() ==> input_of(#[trigger] formats_spec(key)[i]) == text_shader_inputs()[i],
        !key.text && key.node ==> formats_spec(key).len() == node_shader_inputs().len() && forall|i: int|
            0 <= i < formats_spec(key).len() ==> input_of(#[trigger] formats_spec(key)[i]) == node_shader_inputs()[i],
{
    if key.text {
        assert forall|i: int| 0 <= i < formats_spec(key).len() implies input_of(#[trigger] formats_spec(key)[i]) == text_shader_inputs()[i] by {
            assert(0 <= i < 5);
            if i == 0 {} else if i == 1 {} else if i == 2 {} else if i == 3 {} else {}
        }
    } else if key.node {
        assert forall|i: int| 0 <= i < formats_spec(key).len() implies input_of(#[trigger] formats_spec(key)[i]) == node_shader_inputs()[i] by {
            assert(0 <= i < 6);
            if i == 0 {} else if i == 1 {} else if i == 2 {} else if i == 3 {} else if i == 4 {} else {}
        }
    }
}

/// The shader definitions follow the key: `CLIP` exactly where the key clips, and first;
/// `TEXT` exactly for text; `NODE` exactly for nodes that are not text; `SPECIAL` exactly for
/// text or nodes; and none twice.
pub proof fn lemma_shader_defs_follow_key(key: UiPipelineKey)
    ensures
        shader_defs_spec(key).contains(ShaderDef::Clip) == key.clip,
        shader_defs_spec(key).contains(ShaderDef::Text) == key.text,
        shader_defs_spec(key).contains(ShaderDef::Node) == (!key.text && key.node),
        shader_defs_spec(key).contains(ShaderDef::Special) == (key.text || key.node),
        key.clip ==> shader_defs_spec(key)[0] == ShaderDef::Clip,
        forall|i: int, j: int| 0 <= i < j < shader_defs_spec(key).len()
            ==> #[trigger] shader_defs_spec(key)[i] != #[trigger] shader_defs_spec(key)[j],
{
    let d = shader_defs_spec(key);
    let c: Seq<ShaderDef> = if key.clip { seq![ShaderDef::Clip] } else { Seq::empty() };
    let r: Seq<ShaderDef> = if key.text {
        seq![ShaderDef::Special, ShaderDef::Text]
    } else if key.node {
        seq![ShaderDef::Special, ShaderDef::Node]
    } else {
        Seq::empty()
    };
    assert(d == c + r);
    assert forall|x: ShaderDef| d.contains(x) <==> c.contains(x) || r.contains(x) by {
        if d.contains(x) {
            let i = choose|i: int| 0 <= i < d.len() && d[i] == x;
            if i < c.len() {
                assert(c[i] == x);
            } else {
                assert(r[i - c.len()] == x);
            }
        }
        if c.contains(x) {
            let i = choose|i: int| 0 <= i < c.len() && c[i] == x;
            assert(d[i] == x);
        }
        if r.contains(x) {
            let i = choose|i: int| 0 <= i < r.len() && r[i] == x;
            assert(d[c.len() + i] == x);
        }
    }
    if key.clip {
        assert(c[0] == ShaderDef::Clip);
    }
    if key.text {
        assert(r[0] == ShaderDef::Special && r[1] == ShaderDef::Text);
        assert(!r.contains(ShaderDef::Clip) && !r.contains(ShaderDef::Node));
    } else if key.node {
        assert(r[0] == ShaderDef::Special && r[1] == ShaderDef::Node);
        assert(!r.contains(ShaderDef::Clip) && !r.contains(ShaderDef::Text));
    } else {
        assert(!r.contains(ShaderDef::Special) && !r.contains(ShaderDef::Text) && !r.contains(ShaderDef::Node));
    }
    if key.clip {
        assert(c[0] == ShaderDef::Clip && !c.contains(ShaderDef::Text) && !c.contains(ShaderDef::Node) && !c.contains(ShaderDef::Special));
    } else {
        assert(!c.contains(ShaderDef::Clip) && !c.contains(ShaderDef::Text) && !c.contains(ShaderDef::Node) && !c.contains(ShaderDef::Special));
    }
}

/// The size in bytes of an instance attribute of the given format.
pub open spec fn format_size_spec(f: VertexFormat) -> nat {
    match f {
        VertexFormat::Float32x2 => 8,
        VertexFormat::Float32x4 => 16,
        VertexFormat::Uint32 => 4,
    }
}

/// The size in bytes of an instance attribute of the given format.
pub fn format_size(f: VertexFormat) -> (r: u64)
    ensures
        r == format_size_spec(f),
{
    match f {
        VertexFormat::Float32x2 => 8,
        VertexFormat::Float32x4 => 16,
        VertexFormat::Uint32 => 4,
    }
}

/// The bytes taken by the first `i` attributes of `formats`.
pub open spec fn prefix_size(formats: Seq<VertexFormat>, i: int) -> nat
    decreases i,
{
    if i <= 0 {
        0
    } else {
        prefix_size(formats, i - 1) + format_size_spec(formats[i - 1])
    }
}

proof fn lemma_prefix_size_bound(formats: Seq<VertexFormat>, i: int)
    requires
        0 <= i,
    ensures
        prefix_size(formats, i) <= 16 * i,
    decreases i,
{
    if i > 0 {
        lemma_prefix_size_bound(formats, i - 1);
    }
}

/// The layout of an instance buffer whose attributes have the formats `formats`, packed in
/// order: the offset of each attribute (the sizes of those before it) and the stride (the
/// sizes of all).
pub fn instance_buffer_layout(formats: &[VertexFormat]) -> (r: (Vec<u64>, u64))
    requires
        16 * formats@.len() <= u64::MAX,
    ensures
        r.0@.len() == formats@.len(),
        forall|i: int| 0 <= i < formats@.len() ==> #[trigger] r.0@[i] == prefix_size(formats@, i),
        r.1 == prefix_size(formats@, formats@.len() as int),
{
    let mut offsets: Vec<u64> = Vec::new();
    let mut stride: u64 = 0;
    let mut i: usize = 0;
    while i < formats.len()
        invariant
            i <= formats@.len(),
            16 * formats@.len() <= u64::MAX,
            offsets@.len() == i,
            forall|j: int| 0 <= j < i ==> #[trigger] offsets@[j] == prefix_size(formats@, j),
            stride == prefix_size(formats@, i as int),
        decreases formats@.len() - i,
    {
        proof {
            lemma_prefix_size_bound(formats@, i + 1);
        }
        offsets.push(stride);
        stride = stride + format_size(formats[i]);
        i = i + 1;
    }
    (offsets, stride)
}

/// The number of indices of the quad that every instance is drawn as.
pub const QUAD_INDEX_COUNT: usize = 6;

/// The indices of the quad that every instance is drawn as: two triangles over the corners
/// numbered by their two low bits (0 bottom left, 1 bottom right, 2 top left, 3 top right).
pub open spec fn quad_indices() -> Seq<u32> {
    seq![2u32, 0u32, 1u32, 1u32, 3u32, 2u32]
}

/// Makes `index_buffer` the quad's indices where it does not hold six already, as each
/// preparation pass does; a buffer of six indices is kept as it is.
pub fn prepare_index_buffer(index_buffer: &mut Vec<u32>)
    ensures
        old(index_buffer)@.len() == QUAD_INDEX_COUNT ==> final(index_buffer)@ == old(index_buffer)@,
        old(index_buffer)@.len() != QUAD_INDEX_COUNT ==> final(index_buffer)@ == quad_indices(),
{
    if index_buffer.len() != QUAD_INDEX_COUNT {
        index_buffer.clear();
        index_buffer.push(2);
        index_buffer.push(0);
        index_buffer.push(1);
        index_buffer.push(1);
        index_buffer.push(3);
        index_buffer.push(2);
        assert(index_buffer@ =~= quad_indices());
    }
}

/// What happened to an image asset, by the image's id.
#[derive(PartialEq, Eq, Structural, Clone, Copy, Debug)]
pub enum ImageEvent {
    Created(u64),
    Modified(u64),
    Removed(u64),
}

/// The pipeline a phase item is drawn with: the view's target, whether it clips, and its
/// shader variant.
#[derive(PartialEq, Eq, Structural, Clone, Copy, Debug)]
pub struct PipelineChoice {
    pub hdr: bool,
    pub clip: bool,
    pub specialization: UiPipelineSpecialization,
}

/// One item queued into a view's transparent phase: the view (by position), the batch's
/// entity, the key it is sorted by, and the pipeline it is drawn with.
#[derive(PartialEq, Eq, Structural, Clone, Copy, Debug)]
pub struct PhaseItem {
    pub view: usize,
    pub entity: u64,
    pub sort_key: u32,
    pub pipeline: PipelineChoice,
}

/// What a queueing pass does: the images whose bind groups are evicted, in order, the images
/// that get a new bind group, in order, and the phase items added to the views.
pub struct QueuePlan {
    pub evicted: Vec<u64>,
    pub created: Vec<u64>,
    pub items: Vec<PhaseItem>,
}

/// The images that have a bind group once the evictions are done: those of `cached` that no
/// event evicts.
pub open spec fn kept_images(cached: Seq<u64>, events: Seq<ImageEvent>) -> Set<u64> {
    Set::new(|h: u64| cached.contains(h) && !evicted_images(events).contains(h))
}

/// The images of `batches` that get a new bind group, in order of first use: those without
/// one in `have` and not given one by an earlier batch.
pub open spec fn new_bind_groups(have: Set<u64>, batches: Seq<(u64, UiBatch)>) -> Seq<u64>
    decreases batches.len(),
{
    if batches.len() == 0 {
        Seq::empty()
    } else {
        let front = new_bind_groups(have, batches.drop_last());
        let image = batches.last().1.image;
        if have.contains(image) || front.contains(image) {
            front
        } else {
            front.push(image)
        }
    }
}

/// Whether `v` holds `x`.
fn holds(v: &Vec<u64>, x: u64) -> (r: bool)
    ensures
        r == v@.contains(x),
{
    let mut i: usize = 0;
    while i < v.len()
        invariant
            i <= v@.len(),
            forall|j: int| 0 <= j < i ==> v@[j] != x,
        decreases v@.len() - i,
    {
        if v[i] == x {
            return true;
        }
        i = i + 1;
    }
    false
}

/// The shader variant of a batch type.
pub open spec fn specialization_of(t: BatchType) -> UiPipelineSpecialization {
    match t {
        BatchType::Node | BatchType::CNode => UiPipelineSpecialization::Node,
        BatchType::Text | BatchType::CText => UiPipelineSpecialization::Text,
        BatchType::LinearGradient | BatchType::CLinearGradient => UiPipelineSpecialization::LinearGradient,
        BatchType::RadialGradient | BatchType::CRadialGradient => UiPipelineSpecialization::RadialGradient,
        BatchType::DashedBorder | BatchType::CDashedBorder => UiPipelineSpecialization::DashedBorder,
    }
}

/// The pipeline of a batch of type `t` in a view whose target is HDR where `hdr` holds.
pub open spec fn pipeline_for(hdr: bool, t: BatchType) -> PipelineChoice {
    PipelineChoice { hdr, clip: t.spec_index() >= 5, specialization: specialization_of(t) }
}

/// The phase items of view `v`: one per batch, in the order of the batches.
pub open spec fn view_items(v: usize, hdr: bool, batches: Seq<(u64, UiBatch)>) -> Seq<PhaseItem> {
    Seq::new(
        batches.len(),
        |i: int|
            PhaseItem {
                view: v,
                entity: batches[i].0,
                sort_key: batches[i].1.stack_index,
                pipeline: pipeline_for(hdr, batches[i].1.batch_type),
            },
    )
}

/// The phase items of all views, view after view; `views` holds whether each view's target
/// is HDR.
pub open spec fn phase_items(views: Seq<bool>, batches: Seq<(u64, UiBatch)>) -> Seq<PhaseItem>
    decreases views.len(),
{
    if views.len() == 0 {
        Seq::empty()
    } else {
        phase_items(views.drop_last(), batches) + view_items((views.len() - 1) as usize, views.last(), batches)
    }
}

/// The images whose bind groups a run of asset events evicts, in order: those modified or
/// removed.
pub open spec fn evicted_images(events: Seq<ImageEvent>) -> Seq<u64>
    decreases events.len(),
{
    if events.len() == 0 {
        Seq::empty()
    } else {
        let front = evicted_images(events.drop_last());
        match events.last() {
            ImageEvent::Created(_) => front,
            ImageEvent::Modified(h) => front.push(h),
            ImageEvent::Removed(h) => front.push(h),
        }
    }
}

/// Decides a queueing pass: first the bind groups of modified or removed images are evicted;
/// then, where the views' uniforms have a binding, each view gets one phase item per batch,
/// sorted by the batch's stack index and drawn with the pipeline of the view's target and the
/// batch's type, and each batch's image gets a bind group where it has none (`cached` holds
/// the images that had one before the pass). Without a binding nothing is added.
pub fn queue_uinodes(
    view_hdr: &[bool],
    batches: &[(u64, UiBatch)],
    view_binding: bool,
    image_events: &[ImageEvent],
    cached: &[u64],
) -> (r: QueuePlan)
    ensures
        r.evicted@ == evicted_images(image_events@),
        r.items@ == if view_binding { phase_items(view_hdr@, batches@) } else { Seq::empty() },
        r.created@ == if view_binding && view_hdr@.len() > 0 {
            new_bind_groups(kept_images(cached@, image_events@), batches@)
        } else {
            Seq::empty()
        },
{
    let mut evicted: Vec<u64> = Vec::new();
    let mut e: usize = 0;
    while e < image_events.len()
        invariant
            e <= image_events@.len(),
            evicted@ == evicted_images(image_events@.take(e as int)),
        decreases image_events@.len() - e,
    {
        assert(image_events@.take(e + 1).drop_last() =~= image_events@.take(e as int));
        match image_events[e] {
            ImageEvent::Created(_) => {},
            ImageEvent::Modified(h) => evicted.push(h),
            ImageEvent::Removed(h) => evicted.push(h),
        }
        e = e + 1;
    }
    assert(image_events@.take(image_events@.len() as int) =~= image_events@);
    let mut items: Vec<PhaseItem> = Vec::new();
    let mut created: Vec<u64> = Vec::new();
    if !view_binding {
        assert(items@ =~= Seq::<PhaseItem>::empty());
        assert(created@ =~= Seq::<u64>::empty());
        return QueuePlan { evicted, created, items };
    }
    if view_hdr.len() > 0 {
        let ghost have = kept_images(cached@, image_events@);
        let mut kept: Vec<u64> = Vec::new();
        let mut c: usize = 0;
        while c < cached.len()
            invariant
                c <= cached@.len(),
                evicted@ == evicted_images(image_events@),
                forall|h: u64| kept@.contains(h) <==> cached@.take(c as int).contains(h) && !evicted@.contains(h),
            decreases cached@.len() - c,
        {
            let h = cached[c];
            let gone = holds(&evicted, h);
            let ghost kb = kept@;
            if !gone {
                kept.push(h);
            }
            proof {
                let t0 = cached@.take(c as int);
                let t1 = cached@.take(c + 1);
                assert(t1 =~= t0.push(h));
                assert forall|x: u64| kept@.contains(x) <==> t1.contains(x) && !evicted@.contains(x) by {
                    assert(t0.push(h).contains(x) <==> t0.contains(x) || x == h) by {
                        if t0.push(h).contains(x) && x != h {
                            let j = choose|j: int| 0 <= j < t0.len() + 1 && #[trigger] t0.push(h)[j] == x;
                            assert(t0[j] == x);
                        }
                        if t0.contains(x) {
                            let j = choose|j: int| 0 <= j < t0.len() && #[trigger] t0[j] == x;
                            assert(t0.push(h)[j] == x);
                        }
                        if x == h {
                            assert(t0.push(h)[t0.len() as int] == x);
                        }
                    }
                    if !gone {
                        assert(kept@ =~= kb.push(h));
                        assert(kb.push(h).contains(x) <==> kb.contains(x) || x == h) by {
                            if kb.push(h).contains(x) && x != h {
                                let j = choose|j: int| 0 <= j < kb.len() + 1 && #[trigger] kb.push(h)[j] == x;
                                assert(kb[j] == x);
                            }
                            if kb.contains(x) {
                                let j = choose|j: int| 0 <= j < kb.len() && #[trigger] kb[j] == x;
                                assert(kb.push(h)[j] == x);
                            }
                            if x == h {
                                assert(kb.push(h)[kb.len() as int] == x);
                            }
                        }
                    }
                }
            }
            c = c + 1;
        }
        assert(cached@.take(cached@.len() as int) =~= cached@);
        let mut b: usize = 0;
        while b < batches.len()
            invariant
                b <= batches@.len(),
                forall|h: u64| kept@.contains(h) <==> have.contains(h),
                created@ == new_bind_groups(have, batches@.take(b as int)),
            decreases batches@.len() - b,
        {
            let image = batches[b].1.image;
            proof {
                assert(batches@.take(b + 1).drop_last() =~= batches@.take(b as int));
                assert(batches@.take(b + 1).last().1.image == image);
            }
            if !holds(&kept, image) && !holds(&created, image) {
                created.push(image);
            }
            b = b + 1;
        }
        assert(batches@.take(batches@.len() as int) =~= batches@);
    } else {
        assert(created@ =~= Seq::<u64>::empty());
    }
    let mut v: usize = 0;
    while v < view_hdr.len()
        invariant
            v <= view_hdr@.len(),
            items@ == phase_items(view_hdr@.take(v as int), batches@),
        decreases view_hdr@.len() - v,
    {
        let hdr = view_hdr[v];
        let ghost front = items@;
        let mut i: usize = 0;
        while i < batches.len()
            invariant
                v < view_hdr@.len(),
                hdr == view_hdr@[v as int],
                i <= batches@.len(),
                items@ == front + view_items(v, hdr, batches@).take(i as int),
            decreases batches@.len() - i,
        {
            let (entity, batch) = &batches[i];
            let (specialization, clip) = batch_pipeline(batch.batch_type);
            items.push(PhaseItem {
                view: v,
                entity: *entity,
                sort_key: batch.stack_index,
                pipeline: PipelineChoice { hdr, clip, specialization },
            });
            assert(items@ =~= front + view_items(v, hdr, batches@).take(i + 1));
            i = i + 1;
        }
        proof {
            assert(view_items(v, hdr, batches@).take(batches@.len() as int) =~= view_items(v, hdr, batches@));
            let t = view_hdr@.take(v + 1);
            assert(t.drop_last() =~= view_hdr@.take(v as int));
            assert(t.last() == hdr);
        }
        v = v + 1;
    }
    assert(view_hdr@.take(view_hdr@.len() as int) =~= view_hdr@);
    QueuePlan { evicted, created, items }
}

/// How a node's background is colored.
#[derive(PartialEq, Eq, Structural, Clone, Copy, Debug)]
pub enum ColorKind {
    Color,
    LinearGradient,
    RadialGradient,
}

/// What extraction reads of the entity at one place of the UI stack: whether it is a UI node
/// at all, whether it and its color are visible, its image (by id) and whether that image is
/// loaded, how it is colored, and whether it is clipped.
#[derive(PartialEq, Eq, Structural, Clone, Copy, Debug)]
pub struct StackEntry {
    pub is_node: bool,
    pub visible: bool,
    pub color_visible: bool,
    pub image: Option<u64>,
    pub image_loaded: bool,
    pub kind: ColorKind,
    pub clipped: bool,
}

/// A node taken out for rendering: its place in the stack, its image, how it is colored and
/// whether it is clipped.
#[derive(PartialEq, Eq, Structural, Clone, Copy, Debug)]
pub struct Extraction {
    pub stack_index: usize,
    pub image: Option<u64>,
    pub kind: ColorKind,
    pub clipped: bool,
}

/// Whether the entry is extracted: a visible node with a visible color whose image, if it has
/// one, is loaded.
pub open spec fn is_extracted(e: StackEntry) -> bool {
    e.is_node && e.visible && e.color_visible && (e.image is None || e.image_loaded)
}

/// The extractions of the stack `stack`, in stack order.
pub open spec fn extractions(stack: Seq<StackEntry>) -> Seq<Extraction>
    decreases stack.len(),
{
    if stack.len() == 0 {
        Seq::empty()
    } else {
        let front = extractions(stack.drop_last());
        let e = stack.last();
        if is_extracted(e) {
            front.push(Extraction { stack_index: (stack.len() - 1) as usize, image: e.image, kind: e.kind, clipped: e.clipped })
        } else {
            front
        }
    }
}

/// Decides which entities of the UI stack are extracted for rendering, and with which stack
/// index (their place in the stack), image, coloring and clipping. Hidden nodes, nodes whose
/// color is invisible and nodes whose image is still loading are skipped.
pub fn extract_uinodes(stack: &[StackEntry]) -> (r: Vec<Extraction>)
    ensures
        r@ == extractions(stack@),
{
    let mut out: Vec<Extraction> = Vec::new();
    let mut i: usize = 0;
    while i < stack.len()
        invariant
            i <= stack@.len(),
            out@ == extractions(stack@.take(i as int)),
        decreases stack@.len() - i,
    {
        let e = stack[i];
        assert(stack@.take(i + 1).drop_last() =~= stack@.take(i as int));
        if e.is_node && e.visible && e.color_visible {
            let loaded = match e.image {
                Some(_) => e.image_loaded,
                None => true,
            };
            if loaded {
                out.push(Extraction { stack_index: i, image: e.image, kind: e.kind, clipped: e.clipped });
            }
        }
        i = i + 1;
    }
    assert(stack@.take(stack@.len() as int) =~= stack@);
    out
}

/// A texture atlas as atlas extraction reads it: its texture (by image id) and how many
/// rectangles it holds.
#[derive(PartialEq, Eq, Structural, Clone, Copy, Debug)]
pub struct AtlasInfo {
    pub texture: u64,
    pub rect_count: usize,
}

/// What atlas extraction reads of the entity at one place of the UI stack: whether it is a UI
/// node drawn from a texture atlas (and without an image of its own), whether it is visible,
/// its atlas if that is loaded, the index of its rectangle in the atlas, whether the atlas
/// texture is loaded, whether its background is a plain color, and whether it is clipped.
#[derive(PartialEq, Eq, Structural, Clone, Copy, Debug)]
pub struct AtlasEntry {
    pub is_atlas_node: bool,
    pub visible: bool,
    pub atlas: Option<AtlasInfo>,
    pub index: usize,
    pub texture_loaded: bool,
    pub plain_color: bool,
    pub clipped: bool,
}

/// An atlas node taken out for rendering: its place in the stack, the atlas texture, the index
/// of its rectangle, whether it keeps its plain color (else it is drawn with no color), and
/// whether it is clipped.
#[derive(PartialEq, Eq, Structural, Clone, Copy, Debug)]
pub struct AtlasExtraction {
    pub stack_index: usize,
    pub image: u64,
    pub rect_index: usize,
    pub plain_color: bool,
    pub clipped: bool,
}

/// Whether the entry is extracted: a visible atlas node whose atlas and atlas texture are
/// loaded.
pub open spec fn is_atlas_extracted(e: AtlasEntry) -> bool {
    e.is_atlas_node && e.visible && e.atlas is Some && e.texture_loaded
}

/// The atlas extractions of the stack `stack`, in stack order.
pub open spec fn atlas_extractions(stack: Seq<AtlasEntry>) -> Seq<AtlasExtraction>
    decreases stack.len(),
{
    if stack.len() == 0 {
        Seq::empty()
    } else {
        let front = atlas_extractions(stack.drop_last());
        let e = stack.last();
        if is_atlas_extracted(e) {
            front.push(AtlasExtraction {
                stack_index: (stack.len() - 1) as usize,
                image: e.atlas->0.texture,
                rect_index: e.index,
                plain_color: e.plain_color,
                clipped: e.clipped,
            })
        } else {
            front
        }
    }
}

/// Decides which atlas nodes of the UI stack are extracted for rendering, with their stack
/// index, atlas texture, rectangle, coloring and clipping. Hidden nodes, nodes whose atlas is
/// not loaded and nodes whose atlas texture is still loading are skipped. A visible node's
/// rectangle index must lie in its loaded atlas.
pub fn extract_atlas_uinodes(stack: &[AtlasEntry]) -> (r: Vec<AtlasExtraction>)
    requires
        forall|i: int| 0 <= i < stack@.len() && (#[trigger] stack@[i]).is_atlas_node && stack@[i].visible
            && stack@[i].atlas is Some ==> stack@[i].index < stack@[i].atlas->0.rect_count,
    ensures
        r@ == atlas_extractions(stack@),
{
    let mut out: Vec<AtlasExtraction> = Vec::new();
    let mut i: usize = 0;
    while i < stack.len()
        invariant
            i <= stack@.len(),
            out@ == atlas_extractions(stack@.take(i as int)),
        decreases stack@.len() - i,
    {
        let e = stack[i];
        assert(stack@.take(i + 1).drop_last() =~= stack@.take(i as int));
        if e.is_atlas_node && e.visible {
            if let Some(atlas) = e.atlas {
                if e.texture_loaded {
                    out.push(AtlasExtraction {
                        stack_index: i,
                        image: atlas.texture,
                        rect_index: e.index,
                        plain_color: e.plain_color,
                        clipped: e.clipped,
                    });
                }
            }
        }
        i = i + 1;
    }
    assert(stack@.take(stack@.len() as int) =~= stack@);
    out
}

/// The clipped batch types, those drawn with a clip rectangle.
pub open spec fn is_clipped_type(t: BatchType) -> bool {
    t is CNode || t is CText || t is CLinearGradient || t is CRadialGradient || t is CDashedBorder
}

/// A batch is drawn with the pipeline of its view's target, clipped exactly for the clipped
/// types, and with the shader variant of its kind: a clipped type and its unclipped
/// counterpart share the variant, which is the node, text, linear gradient, radial gradient
/// or dashed border variant.
pub proof fn lemma_pipeline_follows_type(hdr: bool, t: BatchType)
    ensures
        pipeline_for(hdr, t).hdr == hdr,
        pipeline_for(hdr, t).clip == is_clipped_type(t),
        (t is Node || t is CNode) <==> pipeline_for(hdr, t).specialization is Node,
        (t is Text || t is CText) <==> pipeline_for(hdr, t).specialization is Text,
        (t is LinearGradient || t is CLinearGradient) <==> pipeline_for(hdr, t).specialization is LinearGradient,
        (t is RadialGradient || t is CRadialGradient) <==> pipeline_for(hdr, t).specialization is RadialGradient,
        (t is DashedBorder || t is CDashedBorder) <==> pipeline_for(hdr, t).specialization is DashedBorder,
{
}

/// Every view gets one phase item per batch: the items of view `v` come `v`-th, in the order
/// of the batches, each for its batch's entity, sorted by the batch's stack index and drawn
/// with the pipeline of the view's target and the batch's type.
pub proof fn lemma_phase_items_per_view(views: Seq<bool>, batches: Seq<(u64, UiBatch)>)
    requires
        views.len() <= usize::MAX,
    ensures
        phase_items(views, batches).len() == views.len() * batches.len(),
        forall|v: int, i: int| 0 <= v < views.len() && 0 <= i < batches.len()
            ==> #[trigger] phase_items(views, batches)[v * batches.len() + i] == (PhaseItem {
                view: v as usize,
                entity: (#[trigger] batches[i]).0,
                sort_key: batches[i].1.stack_index,
                pipeline: pipeline_for(views[v], batches[i].1.batch_type),
            }),
    decreases views.len(),
{
    if views.len() > 0 {
        let pre = views.drop_last();
        lemma_phase_items_per_view(pre, batches);
        let n = batches.len();
        let last = views.len() - 1;
        assert(pre.len() * n + n == views.len() * n) by (nonlinear_arith)
            requires pre.len() + 1 == views.len();
        assert forall|v: int, i: int| 0 <= v < views.len() && 0 <= i < n
            implies #[trigger] phase_items(views, batches)[v * n + i] == (PhaseItem {
                view: v as usize,
                entity: (#[trigger] batches[i]).0,
                sort_key: batches[i].1.stack_index,
                pipeline: pipeline_for(views[v], batches[i].1.batch_type),
            }) by {
            assert(v * n + i < views.len() * n) by (nonlinear_arith)
                requires 0 <= v < views.len(), 0 <= i < n;
            if v < last {
                assert(v * n + i < pre.len() * n) by (nonlinear_arith)
                    requires 0 <= v < pre.len(), 0 <= i < n;
                assert(pre[v] == views[v]);
            } else {
                assert(v * n == pre.len() * n);
            }
        }
    }
}

/// An image's bind group is evicted exactly where some event modifies or removes it.
pub proof fn lemma_evicted_exactly_the_changed(events: Seq<ImageEvent>, h: u64)
    ensures
        evicted_images(events).contains(h) <==> exists|j: int| 0 <= j < events.len()
            && (#[trigger] events[j] == ImageEvent::Modified(h) || events[j] == ImageEvent::Removed(h)),
    decreases events.len(),
{
    if events.len() > 0 {
        let pre = events.drop_last();
        lemma_evicted_exactly_the_changed(pre, h);
        let front = evicted_images(pre);
        let last = events.len() - 1;
        let e = events.last();
        let hit = e == ImageEvent::Modified(h) || e == ImageEvent::Removed(h);
        let in_pre = exists|j: int| 0 <= j < pre.len() && (#[trigger] pre[j] == ImageEvent::Modified(h) || pre[j] == ImageEvent::Removed(h));
        let in_all = exists|j: int| 0 <= j < events.len() && (#[trigger] events[j] == ImageEvent::Modified(h) || events[j] == ImageEvent::Removed(h));
        assert(in_all <==> in_pre || hit) by {
            if in_all {
                let j = choose|j: int| 0 <= j < events.len() && (#[trigger] events[j] == ImageEvent::Modified(h) || events[j] == ImageEvent::Removed(h));
                if j < last {
                    assert(pre[j] == events[j]);
                }
            }
            if in_pre {
                let j = choose|j: int| 0 <= j < pre.len() && (#[trigger] pre[j] == ImageEvent::Modified(h) || pre[j] == ImageEvent::Removed(h));
                assert(events[j] == pre[j]);
            }
            if hit {
                assert(events[last] == e);
            }
        }
        match e {
            ImageEvent::Created(_) => {
                assert(evicted_images(events) == front);
            },
            ImageEvent::Modified(g) => {
                assert(evicted_images(events) == front.push(g));
                assert(front.push(g).contains(h) <==> front.contains(h) || g == h) by {
                    if front.push(g).contains(h) && g != h {
                        let k = choose|k: int| 0 <= k < front.len() + 1 && front.push(g)[k] == h;
                        assert(front[k] == h);
                    }
                    if front.contains(h) {
                        let k = choose|k: int| 0 <= k < front.len() && front[k] == h;
                        assert(front.push(g)[k] == h);
                    }
                    if g == h {
                        assert(front.push(g)[front.len() as int] == h);
                    }
                }
            },
            ImageEvent::Removed(g) => {
                assert(evicted_images(events) == front.push(g));
                assert(front.push(g).contains(h) <==> front.contains(h) || g == h) by {
                    if front.push(g).contains(h) && g != h {
                        let k = choose|k: int| 0 <= k < front.len() + 1 && front.push(g)[k] == h;
                        assert(front[k] == h);
                    }
                    if front.contains(h) {
                        let k = choose|k: int| 0 <= k < front.len() && front[k] == h;
                        assert(front.push(g)[k] == h);
                    }
                    if g == h {
                        assert(front.push(g)[front.len() as int] == h);
                    }
                }
            },
        }
    }
}

/// New bind groups: an image gets one exactly where a batch uses it and it has none, and no
/// image gets two.
pub proof fn lemma_new_bind_groups_once(have: Set<u64>, batches: Seq<(u64, UiBatch)>)
    ensures
        forall|x: u64| #[trigger] new_bind_groups(have, batches).contains(x)
            <==> !have.contains(x) && exists|i: int| 0 <= i < batches.len() && (#[trigger] batches[i]).1.image == x,
        forall|i: int, j: int| 0 <= i < j < new_bind_groups(have, batches).len()
            ==> #[trigger] new_bind_groups(have, batches)[i] != #[trigger] new_bind_groups(have, batches)[j],
    decreases batches.len(),
{
    if batches.len() > 0 {
        let pre = batches.drop_last();
        lemma_new_bind_groups_once(have, pre);
        let front = new_bind_groups(have, pre);
        let image = batches.last().1.image;
        let r = new_bind_groups(have, batches);
        assert forall|x: u64| #[trigger] r.contains(x)
            <==> !have.contains(x) && exists|i: int| 0 <= i < batches.len() && (#[trigger] batches[i]).1.image == x by {
            let in_pre = exists|i: int| 0 <= i < pre.len() && (#[trigger] pre[i]).1.image == x;
            let in_all = exists|i: int| 0 <= i < batches.len() && (#[trigger] batches[i]).1.image == x;
            assert(in_all <==> in_pre || image == x) by {
                if in_all {
                    let i = choose|i: int| 0 <= i < batches.len() && (#[trigger] batches[i]).1.image == x;
                    if i < batches.len() - 1 {
                        assert(pre[i] == batches[i]);
                    }
                }
                if in_pre {
                    let i = choose|i: int| 0 <= i < pre.len() && (#[trigger] pre[i]).1.image == x;
                    assert(batches[i] == pre[i]);
                }
                if image == x {
                    assert(batches[batches.len() - 1].1.image == x);
                }
            }
            assert(front.contains(x) <==> !have.contains(x) && in_pre);
            if have.contains(image) || front.contains(image) {
                assert(r == front);
                if x == image && front.contains(image) {
                    assert(front.contains(x));
                }
            } else {
                assert(r == front.push(image));
                assert(front.push(image).contains(x) <==> front.contains(x) || x == image) by {
                    if front.push(image).contains(x) && x != image {
                        let k = choose|k: int| 0 <= k < front.len() + 1 && front.push(image)[k] == x;
                        assert(front[k] == x);
                    }
                    if front.contains(x) {
                        let k = choose|k: int| 0 <= k < front.len() && front[k] == x;
                        assert(front.push(image)[k] == x);
                    }
                    if x == image {
                        assert(front.push(image)[front.len() as int] == x);
                    }
                }
            }
        }
        if !(have.contains(image) || front.contains(image)) {
            assert forall|i: int, j: int| 0 <= i < j < r.len() implies #[trigger] r[i] != #[trigger] r[j] by {
                if j == front.len() {
                    assert(front[i] == r[i]);
                }
            }
        }
    }
}

} // verus!
