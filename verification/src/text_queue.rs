//! The queue of text entities whose layout must be recomputed, and how a pass over it
//! decides which entities stay queued.
use crate::layout::Entity;
use vstd::prelude::*;

verus! {

/// The entities to queue at the start of a pass: while the scale factor stays the same,
/// each changed entity not queued yet, in order; once it changes, every text entity.
pub open spec fn enqueue_spec(queued: Seq<Entity>, changed: Seq<Entity>, all: Seq<Entity>, scale_factor_changed: bool) -> Seq<Entity>
    decreases changed.len(),
{
    if scale_factor_changed {
        queued + all
    } else if changed.len() == 0 {
        queued
    } else {
        let before = enqueue_spec(queued, changed.drop_last(), all, false);
        if before.contains(changed.last()) {
            before
        } else {
            before.push(changed.last())
        }
    }
}

/// Adds to `queued` the entities whose text must be laid out again: with an unchanged scale
/// factor, the `changed` entities that are not queued yet; after a change of the scale
/// factor, all `all_text_nodes`.
pub fn enqueue_text_entities(
    queued: &mut Vec<Entity>,
    changed: &[Entity],
    all_text_nodes: &[Entity],
    scale_factor_changed: bool,
)
    ensures
        final(queued)@ == enqueue_spec(old(queued)@, changed@, all_text_nodes@, scale_factor_changed),
{
    if !scale_factor_changed {
        let mut i: usize = 0;
        while i < changed.len()
            invariant
                0 <= i <= changed@.len(),
                queued@ == enqueue_spec(old(queued)@, changed@.take(i as int), all_text_nodes@, false),
            decreases changed@.len() - i,
        {
            let e = changed[i];
            let mut found = false;
            let mut j: usize = 0;
            while j < queued.len()
                invariant
                    0 <= j <= queued@.len(),
                    found == queued@.take(j as int).contains(e),
                decreases queued@.len() - j,
            {
                if queued[j] == e {
                    found = true;
                }
                proof {
                    assert(queued@.take(j as int + 1) =~= queued@.take(j as int).push(queued@[j as int]));
                    broadcast use vstd::seq_lib::lemma_seq_contains_after_push;
                }
                j = j + 1;
            }
            assert(queued@.take(queued@.len() as int) =~= queued@);
            if !found {
                queued.push(e);
            }
            proof {
                assert(changed@.take(i as int + 1).drop_last() =~= changed@.take(i as int));
            }
            i = i + 1;
        }
        assert(changed@.take(changed@.len() as int) =~= changed@);
    } else {
        let mut i: usize = 0;
        while i < all_text_nodes.len()
            invariant
                0 <= i <= all_text_nodes@.len(),
                queued@ == old(queued)@ + all_text_nodes@.take(i as int),
            decreases all_text_nodes@.len() - i,
        {
            queued.push(all_text_nodes[i]);
            assert(all_text_nodes@.take(i as int + 1) =~= all_text_nodes@.take(i as int).push(all_text_nodes@[i as int]));
            i = i + 1;
        }
        assert(all_text_nodes@.take(all_text_nodes@.len() as int) =~= all_text_nodes@);
    }
}

/// What laying out the text of a queued entity came to.
#[derive(PartialEq, Eq, Structural, Clone, Copy, Debug)]
pub enum TextOutcome {
    /// The entity no longer has text on a node.
    Gone,
    /// The text was laid out.
    Done,
    /// A font of the text is not loaded yet.
    NoSuchFont,
}

/// The entities that stay queued after a pass: those whose fonts were not loaded yet, in order.
pub open spec fn requeue_spec(outcomes: Seq<(Entity, TextOutcome)>) -> Seq<Entity>
    decreases outcomes.len(),
{
    if outcomes.len() == 0 {
        Seq::empty()
    } else {
        let before = requeue_spec(outcomes.drop_last());
        if outcomes.last().1 == TextOutcome::NoSuchFont {
            before.push(outcomes.last().0)
        } else {
            before
        }
    }
}

/// The new queue after a pass over the queued entities, given what each came to.
pub fn requeue_text_entities(outcomes: &[(Entity, TextOutcome)]) -> (r: Vec<Entity>)
    ensures
        r@ == requeue_spec(outcomes@),
{
    let mut out: Vec<Entity> = Vec::new();
    let mut i: usize = 0;
    while i < outcomes.len()
        invariant
            0 <= i <= outcomes@.len(),
            out@ == requeue_spec(outcomes@.take(i as int)),
        decreases outcomes@.len() - i,
    {
        let (e, o) = outcomes[i];
        if o == TextOutcome::NoSuchFont {
            out.push(e);
        }
        assert(outcomes@.take(i as int + 1).drop_last() =~= outcomes@.take(i as int));
        i = i + 1;
    }
    assert(outcomes@.take(outcomes@.len() as int) =~= outcomes@);
    out
}

} // verus!
