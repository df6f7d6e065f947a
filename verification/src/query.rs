//! An enumerating query over a list of entities.
use crate::layout::Entity;
use vstd::prelude::*;

verus! {

/// Iterates over a list of entities and yields, with its position in the list, each entity
/// that the query accepts (it exists, its archetype matches the query, and it passes the
/// query's filter). Entities the query refuses are skipped but still counted.
pub struct QueryManyEnumeratedIter {
    entity_iter: Vec<Entity>,
    index: usize,
}

impl QueryManyEnumeratedIter {
    /// The entity list.
    pub closed spec fn entities(&self) -> Seq<Entity> {
        self.entity_iter@
    }

    /// How many entities of the list have been consumed.
    pub closed spec fn consumed(&self) -> nat {
        self.index as nat
    }

    /// The count of consumed entities stays within the list.
    pub closed spec fn wf(&self) -> bool {
        self.index <= self.entity_iter@.len()
    }

    /// An iterator over `entity_list` that has consumed nothing.
    pub fn new(entity_list: Vec<Entity>) -> (r: Self)
        ensures
            r.wf(),
            r.entities() == entity_list@,
            r.consumed() == 0,
    {
        QueryManyEnumeratedIter { entity_iter: entity_list, index: 0 }
    }

    /// Consumes entities until `accepts` holds of one, and yields its position in the list
    /// with the entity; yields nothing once the list is used up.
    pub fn fetch_next<F: Fn(Entity) -> bool>(&mut self, accepts: F) -> (r: Option<(usize, Entity)>)
        requires
            old(self).wf(),
            forall|e: Entity| accepts.requires((e,)),
        ensures
            final(self).wf(),
            final(self).entities() == old(self).entities(),
            match r {
                Some((i, e)) => {
                    &&& old(self).consumed() <= i < old(self).entities().len()
                    &&& e == old(self).entities()[i as int]
                    &&& accepts.ensures((e,), true)
                    &&& final(self).consumed() == i + 1
                    &&& forall|j: int| old(self).consumed() <= j < i ==> accepts.ensures((#[trigger] old(self).entities()[j],), false)
                },
                None => {
                    &&& final(self).consumed() == old(self).entities().len()
                    &&& forall|j: int| old(self).consumed() <= j < old(self).entities().len() ==> accepts.ensures((#[trigger] old(self).entities()[j],), false)
                },
            },
    {
        while self.index < self.entity_iter.len()
            invariant
                self.wf(),
                self.entity_iter == old(self).entity_iter,
                old(self).index <= self.index,
                forall|e: Entity| accepts.requires((e,)),
                forall|j: int| old(self).index <= j < self.index ==> accepts.ensures((#[trigger] old(self).entity_iter@[j],), false),
            decreases self.entity_iter@.len() - self.index,
        {
            let entity = self.entity_iter[self.index];
            self.index = self.index + 1;
            if accepts(entity) {
                return Some((self.index - 1, entity));
            }
        }
        None
    }

    /// The bounds on how many more entities can be yielded: none at least, and at most the
    /// entities of the list not consumed yet.
    pub fn size_hint(&self) -> (r: (usize, Option<usize>))
        requires
            self.wf(),
        ensures
            r.0 == 0,
            r.1 == Some((self.entities().len() - self.consumed()) as usize),
    {
        (0, Some(self.entity_iter.len() - self.index))
    }
}

} // verus!
