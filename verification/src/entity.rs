//! Generational entity handles and their allocator.

use vstd::prelude::*;

verus! {

/// The number of distinct entity indices the allocator can hand out.
pub const MAX_ENTITIES: u16 = u16::MAX;

/// An opaque handle: an index together with the generation at which the
/// index was handed out.  A handle whose generation differs from the
/// allocator's current generation for its index is stale.
#[derive(Debug, Clone, Copy, Eq, PartialEq, Structural, Hash)]
pub struct Entity {
    pub id: u16,
    pub gen: u16,
}

impl Entity {
    pub fn from_raw(id: u16, gen: u16) -> (r: Entity)
        ensures
            r == (Entity { id, gen }),
    {
        Entity { id, gen }
    }
}

/// The entity allocator: one stored generation per index, and the indices
/// whose handles were deleted and wait for reuse.
#[derive(Debug)]
pub struct EntityGenerator {
    generations: Vec<u16>,
    pending: Vec<u16>,
}

impl EntityGenerator {
    pub closed spec fn generations_view(self) -> Seq<u16> {
        self.generations@
    }

    pub closed spec fn pending_view(self) -> Seq<u16> {
        self.pending@
    }

    pub open spec fn wf(self) -> bool {
        &&& forall|i: int|
            0 <= i < self.pending_view().len() ==> ((#[trigger] self.pending_view()[i]) as int)
                < self.generations_view().len()
        &&& forall|i: int, j: int|
            0 <= i < j < self.pending_view().len() ==> self.pending_view()[i]
                != self.pending_view()[j]
    }

    /// A handle is live when its index was handed out at its generation and
    /// has not been deleted since.
    pub open spec fn live(self, e: Entity) -> bool {
        &&& (e.id as int) < self.generations_view().len()
        &&& self.generations_view()[e.id as int] == e.gen
        &&& !self.pending_view().contains(e.id)
    }

    /// How many fresh indices remain available.
    pub open spec fn can_allocate(self) -> bool {
        self.pending_view().len() > 0 || self.generations_view().len() < 0x1_0000
    }

    pub fn new() -> (r: EntityGenerator)
        ensures
            r.wf(),
            r.generations_view() =~= Seq::<u16>::empty(),
            r.pending_view() =~= Seq::<u16>::empty(),
            forall|e: Entity| !r.live(e),
    {
        EntityGenerator { generations: Vec::new(), pending: Vec::new() }
    }

    /// Hands out a handle: the most recently deleted index at its current
    /// generation, or a fresh index at generation zero.
    pub fn create(&mut self) -> (r: Entity)
        requires
            old(self).wf(),
            old(self).can_allocate(),
        ensures
            final(self).wf(),
            final(self).live(r),
            !old(self).live(r),
            forall|e: Entity| old(self).live(e) ==> final(self).live(e),
            forall|e: Entity| final(self).live(e) && e != r ==> old(self).live(e),
            if old(self).pending_view().len() > 0 {
                r.id == old(self).pending_view().last() && r.gen == old(self).generations_view()[r.id as int] && final(self).generations_view() == old(self).generations_view() && final(self).pending_view() == old(self).pending_view().drop_last()
            } else {
                r.id as int == old(self).generations_view().len() && r.gen == 0
                    && final(self).generations_view() == old(self).generations_view().push(0u16)
                    && final(self).pending_view() == old(self).pending_view()
            },
    {
        let ghost p0 = self.pending@;
        match self.pending.pop() {
            Some(id) => {
                let gen = self.generations[id as usize];
                let r = Entity { id, gen };
                proof {
                    assert forall|e: Entity| self.live(e) && e != r implies old(self).live(e) by {
                        if e.id == id {
                            assert(e.gen == gen);
                        } else if p0.contains(e.id) {
                            let k = choose|k: int| 0 <= k < p0.len() && p0[k] == e.id;
                            assert(k < p0.len() - 1);
                            assert(self.pending_view()[k] == e.id);
                            assert(self.pending_view().contains(e.id));
                        }
                    }
                    assert forall|e: Entity| old(self).live(e) implies self.live(e) by {
                        if self.pending_view().contains(e.id) {
                            let k = choose|k: int|
                                0 <= k < self.pending_view().len() && self.pending_view()[k]
                                    == e.id;
                            assert(p0[k] == e.id);
                        }
                    }
                    assert(!old(self).live(r)) by {
                        assert(p0[p0.len() - 1] == id);
                        assert(p0.contains(id));
                    }
                }
                r
            },
            None => {
                let id = self.generations.len() as u16;
                self.generations.push(0);
                let r = Entity { id, gen: 0 };
                proof {
                    assert forall|e: Entity| self.live(e) && e != r implies old(self).live(e) by {
                        if e.id == id {
                            assert(e.gen == 0);
                        }
                    }
                }
                r
            },
        }
    }

    /// Deletes a live handle: bumps the stored generation of its index and
    /// queues the index for reuse.  A stale or unknown handle is left alone.
    pub fn delete(&mut self, e: &Entity)
        requires
            old(self).wf(),
        ensures
            final(self).wf(),
            old(self).live(*e) ==> {
                &&& final(self).generations_view() == old(self).generations_view().update(
                    e.id as int,
                    ((e.gen as int + 1) % 0x1_0000) as u16,
                )
                &&& final(self).pending_view() == old(self).pending_view().push(e.id)
            },
            !old(self).live(*e) ==> *final(self) == *old(self),
            forall|x: Entity| final(self).live(x) <==> (old(self).live(x) && x != *e),
    {
        if (e.id as usize) < self.generations.len() && self.generations[e.id as usize] == e.gen {
            let pending_already = self.contains_pending(e.id);
            if !pending_already {
                let bumped: u16 = if e.gen == 0xffff {
                    0
                } else {
                    e.gen + 1
                };
                self.generations.set(e.id as usize, bumped);
                let ghost p0 = self.pending@;
                self.pending.push(e.id);
                proof {
                    assert(self.pending_view()[p0.len() as int] == e.id);
                    assert(self.pending_view().contains(e.id));
                    assert forall|x: Entity| self.live(x) implies (old(self).live(x) && x != *e) by {
                        assert(x.id != e.id);
                        if p0.contains(x.id) {
                            let k = choose|k: int| 0 <= k < p0.len() && p0[k] == x.id;
                            assert(self.pending_view()[k] == x.id);
                        }
                    }
                    assert forall|x: Entity| old(self).live(x) && x != *e implies self.live(x) by {
                        assert(x.id != e.id || x.gen != e.gen);
                        if x.id == e.id {
                            assert(old(self).generations_view()[x.id as int] == e.gen);
                            assert(!old(self).live(x));
                        } else if self.pending_view().contains(x.id) {
                            let k = choose|k: int|
                                0 <= k < self.pending_view().len() && self.pending_view()[k]
                                    == x.id;
                            assert(k < p0.len());
                            assert(p0[k] == x.id);
                        }
                    }
                }
            }
        }
    }

    /// Whether a handle is live: handed out at its generation and not
    /// deleted since.
    pub fn is_live(&self, e: &Entity) -> (r: bool)
        requires
            self.wf(),
        ensures
            r == self.live(*e),
    {
        (e.id as usize) < self.generations.len() && self.generations[e.id as usize] == e.gen
            && !self.contains_pending(e.id)
    }

    /// Whether an index already waits for reuse.
    fn contains_pending(&self, id: u16) -> (r: bool)
        ensures
            r == self.pending_view().contains(id),
    {
        let mut i: usize = 0;
        while i < self.pending.len()
            invariant
                i <= self.pending_view().len(),
                forall|k: int| 0 <= k < i ==> self.pending_view()[k] != id,
            decreases self.pending.len() - i,
        {
            if self.pending[i] == id {
                return true;
            }
            i = i + 1;
        }
        false
    }
}

/// Deleting a live handle and then creating returns the same index at the
/// next generation.
pub proof fn lemma_generation_reuse(before: EntityGenerator, mid: EntityGenerator, e: Entity)
    requires
        before.wf(),
        before.live(e),
        e.gen < 0xffff,
        mid.generations_view() == before.generations_view().update(
            e.id as int,
            ((e.gen as int + 1) % 0x1_0000) as u16,
        ),
        mid.pending_view() == before.pending_view().push(e.id),
    ensures
        mid.pending_view().len() > 0,
        mid.pending_view().last() == e.id,
        mid.generations_view()[e.id as int] == e.gen + 1,
        !mid.live(e),
{
    assert(mid.pending_view().contains(e.id)) by {
        assert(mid.pending_view()[mid.pending_view().len() - 1] == e.id);
    }
}

} // verus!
