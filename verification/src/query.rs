//! Query views: a fixed, sorted tuple of component kinds, iterated over
//! every entity of a world that carries all of them.

use crate::component::TypeId;
use crate::component::strictly_sorted;
use crate::entity::Entity;
use crate::table::Row;
use crate::world::World;
use vstd::prelude::*;

verus! {

/// A query over a fixed set of component kinds.
#[derive(Debug)]
pub struct Query {
    ids: Vec<TypeId>,
}

impl Query {
    /// The queried kind identifiers, ascending.
    pub closed spec fn ids_view(self) -> Seq<TypeId> {
        self.ids@
    }

    pub open spec fn wf(self) -> bool {
        strictly_sorted(self.ids_view()) && self.ids_view().len() >= 1
    }

    /// A query over the given kinds, which must be sorted and distinct.
    pub fn new(ids: Vec<TypeId>) -> (r: Query)
        requires
            strictly_sorted(ids@),
            ids@.len() >= 1,
        ensures
            r.wf(),
            r.ids_view() == ids@,
    {
        Query { ids }
    }

    /// One row per live entity of the world that carries every queried
    /// kind: the entity and the bytes of each kind's value, in query
    /// order.
    pub fn iter(&self, world: &World) -> (r: Vec<Row>)
        requires
            self.wf(),
            world.wf(),
        ensures
            forall|m: int|
                0 <= m < r@.len() ==> world.live((#[trigger] r@[m]).entity) && r@[m].values@.len()
                    == self.ids_view().len(),
            forall|m: int, j: int|
                0 <= m < r@.len() && 0 <= j < self.ids_view().len() ==> world.comp_map(
                    (#[trigger] r@[m]).entity,
                ).dom().contains(#[trigger] self.ids_view()[j]) && r@[m].values@[j]@
                    == world.comp_map(r@[m].entity)[self.ids_view()[j]],
            forall|e: Entity|
                world.live(e) && (forall|j: int|
                    0 <= j < self.ids_view().len() ==> world.comp_map(e).dom().contains(
                        #[trigger] self.ids_view()[j],
                    )) ==> exists|m: int| 0 <= m < r@.len() && (#[trigger] r@[m]).entity == e,
            forall|m1: int, m2: int|
                0 <= m1 < m2 < r@.len() ==> (#[trigger] r@[m1]).entity != (
                #[trigger] r@[m2]).entity,
    {
        world.query(&self.ids)
    }
}

} // verus!
