//! The nodes whose layout must be computed again, as the flex layout collects them.
use crate::layout::{Entity, UiState};
use std::collections::HashSet;
use vstd::prelude::*;
use vstd::set_lib::lemma_map_size;

verus! {

/// The set of nodes whose layout must be computed again, by the entities' bits.
pub struct DirtyNodes {
    nodes: HashSet<u64>,
}

/// The entity with the bits `b`.
pub open spec fn entity_of(b: u64) -> Entity {
    Entity(b)
}

impl DirtyNodes {
    /// The nodes held.
    pub closed spec fn view(&self) -> Set<Entity> {
        self.nodes@.map(|b: u64| entity_of(b))
    }

    /// The set held is finite.
    pub closed spec fn wf(&self) -> bool {
        self.nodes@.finite()
    }

    /// No dirty node.
    pub fn new() -> (r: Self)
        ensures
            r.wf(),
            r.view() == Set::<Entity>::empty(),
    {
        let r = DirtyNodes { nodes: HashSet::new() };
        assert(r.view() =~= Set::<Entity>::empty());
        r
    }

    /// The number of dirty nodes.
    pub fn len(&self) -> (n: usize)
        requires
            self.wf(),
        ensures
            n == self.view().len(),
    {
        broadcast use vstd::std_specs::hash::group_hash_axioms;
        proof {
            lemma_map_size(self.nodes@, self.view(), |b: u64| entity_of(b));
        }
        self.nodes.len()
    }

    /// Whether `entity` is dirty.
    pub fn contains(&self, entity: Entity) -> (r: bool)
        ensures
            r == self.view().contains(entity),
    {
        broadcast use vstd::std_specs::hash::group_hash_axioms;
        proof {
            if self.nodes@.contains(entity.0) {
                assert(self.view().contains(entity_of(entity.0)));
            }
        }
        self.nodes.contains(&entity.0)
    }

    /// Marks `entity` dirty.
    pub fn insert(&mut self, entity: Entity)
        requires
            old(self).wf(),
        ensures
            final(self).wf(),
            final(self).view() == old(self).view().insert(entity),
    {
        broadcast use vstd::std_specs::hash::group_hash_axioms;
        self.nodes.insert(entity.0);
        proof {
            assert(self.nodes@ == old(self).nodes@.insert(entity.0));
            assert(entity_of(entity.0) == entity);
            assert(self.view() =~= old(self).view().insert(entity)) by {
                assert forall|x: Entity| self.view().contains(x) <==> old(self).view().contains(x) || x == entity by {
                    assert(entity_of(x.0) == x);
                    if old(self).nodes@.contains(x.0) {
                        assert(self.nodes@.contains(x.0));
                        assert(self.view().contains(entity_of(x.0)));
                    }
                    if self.view().contains(x) {
                        let b = choose|b: u64| self.nodes@.contains(b) && entity_of(b) == x;
                        assert(b == x.0);
                        if b != entity.0 {
                            assert(old(self).nodes@.contains(b));
                            assert(old(self).view().contains(entity_of(b)));
                        }
                    }
                    if old(self).view().contains(x) {
                        let b = choose|b: u64| old(self).nodes@.contains(b) && entity_of(b) == x;
                        assert(self.nodes@.contains(b));
                        assert(self.view().contains(entity_of(b)));
                    }
                    if x == entity {
                        assert(self.nodes@.contains(entity.0));
                        assert(self.view().contains(entity_of(entity.0)));
                    }
                }
            }
        }
    }

    /// Marks each of `entities` dirty.
    pub fn extend(&mut self, entities: &[Entity])
        requires
            old(self).wf(),
        ensures
            final(self).wf(),
            final(self).view() == old(self).view().union(entities@.to_set()),
    {
        let mut i: usize = 0;
        while i < entities.len()
            invariant
                i <= entities@.len(),
                self.wf(),
                self.view() == old(self).view().union(entities@.take(i as int).to_set()),
            decreases entities@.len() - i,
        {
            self.insert(entities[i]);
            proof {
                let t0 = entities@.take(i as int);
                let t1 = entities@.take(i + 1);
                let e = entities@[i as int];
                assert(t1 =~= t0.push(e));
                assert(t1.to_set() =~= t0.to_set().insert(e)) by {
                    assert forall|x: Entity| t1.contains(x) <==> t0.contains(x) || x == e by {
                        if t1.contains(x) && x != e {
                            let k = choose|k: int| 0 <= k < t1.len() && t1[k] == x;
                            assert(t0[k] == x);
                        }
                        if x == e {
                            assert(t1[i as int] == x);
                        }
                        if t0.contains(x) {
                            let k = choose|k: int| 0 <= k < t0.len() && t0[k] == x;
                            assert(t1[k] == x);
                        }
                    }
                }
                assert(self.view() =~= old(self).view().union(t1.to_set()));
            }
            i = i + 1;
        }
        assert(entities@.take(entities@.len() as int) =~= entities@);
    }
}

/// The nodes marked dirty in an update of the UI nodes, given the UI state: the new nodes;
/// every node on a full update, else the nodes whose style changed; the nodes whose size
/// changed; the nodes whose children or parent changed; and the nodes without a parent.
pub open spec fn dirtied_by_update(
    full_update: bool,
    new_nodes: Seq<Entity>,
    all_nodes: Seq<Entity>,
    changed_style: Seq<Entity>,
    changed_size: Seq<Entity>,
    changed_relationships: Seq<Entity>,
    orphans: Seq<Entity>,
) -> Set<Entity> {
    new_nodes.to_set()
        .union(if full_update { all_nodes.to_set() } else { changed_style.to_set() })
        .union(changed_size.to_set())
        .union(changed_relationships.to_set())
        .union(orphans.to_set())
}

/// Marks the nodes that an update of the UI nodes leaves dirty, and returns the nodes to
/// attach to the root node: those without a parent. Without a UI state nothing happens.
pub fn update_ui_nodes(
    dirty: &mut DirtyNodes,
    ui_state: Option<UiState>,
    new_nodes: &[Entity],
    all_nodes: &[Entity],
    changed_style: &[Entity],
    changed_size: &[Entity],
    changed_relationships: &[Entity],
    orphans: &[Entity],
) -> (r: Vec<Entity>)
    requires
        old(dirty).wf(),
    ensures
        final(dirty).wf(),
        match ui_state {
            None => final(dirty).view() == old(dirty).view() && r@.len() == 0,
            Some(state) => {
                &&& final(dirty).view() == old(dirty).view().union(dirtied_by_update(
                    state.full_update,
                    new_nodes@,
                    all_nodes@,
                    changed_style@,
                    changed_size@,
                    changed_relationships@,
                    orphans@,
                ))
                &&& r@ == orphans@
            },
        },
{
    let state = match ui_state {
        Some(s) => s,
        None => {
            return Vec::new();
        },
    };
    dirty.extend(new_nodes);
    if state.full_update {
        dirty.extend(all_nodes);
    } else {
        dirty.extend(changed_style);
    }
    dirty.extend(changed_size);
    dirty.extend(changed_relationships);
    dirty.extend(orphans);
    proof {
        let a = new_nodes@.to_set();
        let b = if state.full_update { all_nodes@.to_set() } else { changed_style@.to_set() };
        assert(dirty.view() =~= old(dirty).view().union(a.union(b).union(changed_size@.to_set()).union(changed_relationships@.to_set()).union(orphans@.to_set())));
    }
    let mut out: Vec<Entity> = Vec::new();
    let mut i: usize = 0;
    while i < orphans.len()
        invariant
            i <= orphans@.len(),
            out@ == orphans@.take(i as int),
        decreases orphans@.len() - i,
    {
        out.push(orphans[i]);
        i = i + 1;
        assert(out@ =~= orphans@.take(i as int));
    }
    assert(orphans@.take(orphans@.len() as int) =~= orphans@);
    out
}

} // verus!
