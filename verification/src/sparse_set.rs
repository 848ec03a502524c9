//! A dense-vector container keyed by small integer handles.
//!
//! Values live in a vector of optional slots; vacated handles wait on a
//! free list and are reused before the vector grows.  Taking a value out
//! leaves its slot checked out until it is put back or the handle is
//! retired to the free list.

use vstd::prelude::*;

verus! {

#[derive(Debug)]
pub struct SparseSet<T> {
    data: Vec<Option<T>>,
    free: Vec<usize>,
}

impl<T> SparseSet<T> {
    /// The number of slots ever allocated; every handle is below it.
    pub closed spec fn cap(self) -> int {
        self.data@.len() as int
    }

    pub closed spec fn free_view(self) -> Seq<usize> {
        self.free@
    }

    /// Whether handle `i` holds a value.
    pub closed spec fn spec_contains(self, i: int) -> bool {
        0 <= i < self.data@.len() && self.data@[i] is Some
    }

    /// The value behind handle `i`.
    pub closed spec fn spec_at(self, i: int) -> T
        recommends
            self.spec_contains(i),
    {
        self.data@[i].unwrap()
    }

    pub closed spec fn wf(self) -> bool {
        &&& forall|k: int|
            0 <= k < self.free@.len() ==> ((#[trigger] self.free@[k]) as int) < self.data@.len()
                && self.data@[self.free@[k] as int] is None
        &&& forall|a: int, b: int| 0 <= a < b < self.free@.len() ==> self.free@[a] != self.free@[b]
    }

    pub fn new() -> (r: SparseSet<T>)
        ensures
            r.wf(),
            r.cap() == 0,
            forall|i: int| !r.spec_contains(i),
    {
        SparseSet { data: Vec::new(), free: Vec::new() }
    }

    /// Stores a value and hands back its fresh handle.
    pub fn insert(&mut self, value: T) -> (id: usize)
        requires
            old(self).wf(),
        ensures
            final(self).wf(),
            !old(self).spec_contains(id as int),
            final(self).spec_contains(id as int),
            final(self).spec_at(id as int) == value,
            (id as int) < final(self).cap(),
            old(self).cap() <= final(self).cap(),
            forall|j: int|
                j != id ==> final(self).spec_contains(j) == old(self).spec_contains(j),
            forall|j: int|
                j != id && old(self).spec_contains(j) ==> final(self).spec_at(j) == old(self).spec_at(j),
    {
        let ghost f0 = self.free@;
        match self.free.pop() {
            Some(id) => {
                proof {
                    assert(f0[f0.len() - 1] == id);
                }
                self.data.set(id, Some(value));
                proof {
                    assert forall|k: int|
                        0 <= k < self.free@.len() implies ((#[trigger] self.free@[k]) as int)
                        < self.data@.len() && self.data@[self.free@[k] as int] is None by {
                        assert(self.free@[k] == f0[k]);
                        assert(f0[k] != id);
                    }
                }
                id
            },
            None => {
                let id = self.data.len();
                self.data.push(Some(value));
                id
            },
        }
    }

    /// A shared view of the value behind a handle.
    pub fn get(&self, id: usize) -> (r: Option<&T>)
        ensures
            match r {
                Some(v) => self.spec_contains(id as int) && *v == self.spec_at(id as int),
                None => !self.spec_contains(id as int),
            },
    {
        if id < self.data.len() {
            self.data[id].as_ref()
        } else {
            None
        }
    }

    /// Checks the value behind a handle out of the container.  The slot is
    /// not freed: the caller is expected to put a value back.
    pub fn take(&mut self, id: usize) -> (r: Option<T>)
        requires
            old(self).wf(),
        ensures
            final(self).wf(),
            final(self).cap() == old(self).cap(),
            final(self).free_view() == old(self).free_view(),
            match r {
                Some(v) => old(self).spec_contains(id as int) && v == old(self).spec_at(id as int)
                    && !final(self).free_view().contains(id) && (id as int) < old(self).cap(),
                None => !old(self).spec_contains(id as int),
            },
            !final(self).spec_contains(id as int),
            forall|j: int|
                j != id ==> final(self).spec_contains(j) == old(self).spec_contains(j),
            forall|j: int|
                j != id && old(self).spec_contains(j) ==> final(self).spec_at(j) == old(self).spec_at(j),
    {
        if id < self.data.len() {
            let mut slot: Option<T> = None;
            let dest = &mut self.data[id];
            core::mem::swap(dest, &mut slot);
            proof {
                assert(self.data@ =~= old(self).data@.update(id as int, None));
                if old(self).data@[id as int] is Some && self.free@.contains(id) {
                    let k = choose|k: int|
                        0 <= k < self.free@.len() && self.free@[k] == id;
                    assert(old(self).free@[k] == id);
                    assert(old(self).data@[id as int] is None);
                }
            }
            slot
        } else {
            None
        }
    }

    /// Puts a value behind a checked-out (or never-used) vacant handle.
    pub fn put(&mut self, id: usize, value: T)
        requires
            old(self).wf(),
            (id as int) < old(self).cap(),
            !old(self).spec_contains(id as int),
            !old(self).free_view().contains(id),
        ensures
            final(self).wf(),
            final(self).cap() == old(self).cap(),
            final(self).free_view() == old(self).free_view(),
            final(self).spec_contains(id as int),
            final(self).spec_at(id as int) == value,
            forall|j: int|
                j != id ==> final(self).spec_contains(j) == old(self).spec_contains(j),
            forall|j: int|
                j != id && old(self).spec_contains(j) ==> final(self).spec_at(j) == old(self).spec_at(j),
    {
        self.data.set(id, Some(value));
        proof {
            assert forall|k: int|
                0 <= k < self.free@.len() implies ((#[trigger] self.free@[k]) as int)
                < self.data@.len() && self.data@[self.free@[k] as int] is None by {
                assert(old(self).free@[k] == self.free@[k]);
                assert(self.free@[k] != id);
            }
        }
    }

    /// Removes the value behind a handle and retires the handle for reuse.
    pub fn remove(&mut self, id: usize) -> (r: Option<T>)
        requires
            old(self).wf(),
        ensures
            final(self).wf(),
            final(self).cap() == old(self).cap(),
            match r {
                Some(v) => old(self).spec_contains(id as int) && v == old(self).spec_at(id as int),
                None => !old(self).spec_contains(id as int) && *final(self) == *old(self),
            },
            !final(self).spec_contains(id as int),
            forall|j: int|
                j != id ==> final(self).spec_contains(j) == old(self).spec_contains(j),
            forall|j: int|
                j != id && old(self).spec_contains(j) ==> final(self).spec_at(j) == old(self).spec_at(j),
    {
        if id < self.data.len() {
            let is_some = self.data[id].is_some();
            if is_some {
                let r = self.take(id);
                let ghost f0 = self.free@;
                self.free.push(id);
                proof {
                    assert forall|a: int, b: int|
                        0 <= a < b < self.free@.len() implies self.free@[a] != self.free@[b] by {
                        if b == f0.len() {
                            assert(self.free@[a] == f0[a]);
                            assert(old(self).data@[f0[a] as int] is None);
                        }
                    }
                    assert forall|k: int|
                        0 <= k < self.free@.len() implies ((#[trigger] self.free@[k]) as int)
                        < self.data@.len() && self.data@[self.free@[k] as int] is None by {
                        if k < f0.len() {
                            assert(self.free@[k] == f0[k]);
                        }
                    }
                }
                r
            } else {
                None
            }
        } else {
            None
        }
    }
}

} // verus!
