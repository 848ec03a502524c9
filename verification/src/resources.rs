//! The resource store: at most one value per kind, held in a one-slot
//! byte column.

use crate::blobvec::BlobVec;
use crate::component::TypeId;
use crate::component::TypeInfo;
use vstd::prelude::*;

verus! {

#[derive(Debug, Clone, Copy, PartialEq, Eq, Structural)]
pub enum Error {
    /// `remove` on a kind that holds no resource.
    RemoveNonExisting(TypeId),
    /// `get` on a kind that holds no resource.
    GetNonExisting(TypeId),
}

/// One single-slot byte column per resource kind.
#[derive(Debug)]
pub struct Resources {
    columns: Vec<(TypeInfo, BlobVec)>,
}

impl Resources {
    pub closed spec fn entries(self) -> Seq<(TypeInfo, BlobVec)> {
        self.columns@
    }

    pub open spec fn spec_has(self, k: TypeId) -> bool {
        exists|i: int| 0 <= i < self.entries().len() && (#[trigger] self.entries()[i]).0.id == k
    }

    /// The position of kind `k`'s entry.
    pub open spec fn index_of(self, k: TypeId) -> int
        recommends
            self.spec_has(k),
    {
        choose|i: int| 0 <= i < self.entries().len() && (#[trigger] self.entries()[i]).0.id == k
    }

    /// The stored metadata of kind `k`.
    pub open spec fn info_of(self, k: TypeId) -> TypeInfo
        recommends
            self.spec_has(k),
    {
        self.entries()[self.index_of(k)].0
    }

    /// The stored value of kind `k`.
    pub open spec fn value_of(self, k: TypeId) -> Seq<u8>
        recommends
            self.spec_has(k),
    {
        self.entries()[self.index_of(k)].1.slot(0)
    }

    /// How often kind `k`'s destructor ran on an overwritten value.
    pub open spec fn drops_of(self, k: TypeId) -> int
        recommends
            self.spec_has(k),
    {
        self.entries()[self.index_of(k)].1.spec_drops()
    }

    pub open spec fn wf(self) -> bool {
        &&& forall|a: int, b: int|
            0 <= a < b < self.entries().len() ==> (#[trigger] self.entries()[a]).0.id != (
            #[trigger] self.entries()[b]).0.id
        &&& forall|i: int|
            0 <= i < self.entries().len() ==> (#[trigger] self.entries()[i]).1.wf()
                && self.entries()[i].0.valid() && self.entries()[i].1.spec_stride()
                == self.entries()[i].0.size && self.entries()[i].1.spec_len() == 1
                && self.entries()[i].1.spec_has_drop() == self.entries()[i].0.has_drop
    }

    pub fn new() -> (r: Resources)
        ensures
            r.wf(),
            forall|k: TypeId| !r.spec_has(k),
    {
        Resources { columns: Vec::new() }
    }

    /// The one entry that carries kind `k`.
    proof fn lemma_entry_unique(self, i: int, k: TypeId)
        requires
            self.wf(),
            0 <= i < self.entries().len(),
            self.entries()[i].0.id == k,
        ensures
            self.spec_has(k),
            self.index_of(k) == i,
    {
        let w = self.index_of(k);
        if w != i {
            if w < i {
                assert(self.entries()[w].0.id != self.entries()[i].0.id);
            } else {
                assert(self.entries()[i].0.id != self.entries()[w].0.id);
            }
        }
    }

    /// The position of kind `k`'s entry, if one exists.
    fn search(&self, k: TypeId) -> (r: Option<usize>)
        requires
            self.wf(),
        ensures
            match r {
                Some(i) => i < self.entries().len() && self.entries()[i as int].0.id == k
                    && self.spec_has(k) && self.index_of(k) == i,
                None => !self.spec_has(k),
            },
    {
        let mut i: usize = 0;
        while i < self.columns.len()
            invariant
                self.wf(),
                i <= self.entries().len(),
                forall|j: int| 0 <= j < i ==> (#[trigger] self.entries()[j]).0.id != k,
            decreases self.entries().len() - i,
        {
            if self.columns[i].0.id.0 == k.0 {
                proof {
                    assert(self.entries()[i as int].0.id == k) by {
                        assert(self.entries()[i as int].0.id.0 == k.0);
                    }
                    self.lemma_entry_unique(i as int, k);
                }
                return Some(i);
            }
            proof {
                assert(self.entries()[i as int].0.id != k);
            }
            i = i + 1;
        }
        None
    }

    /// Stores a value for a kind; a prior value of the kind is dropped
    /// first and overwritten.
    pub fn add(&mut self, info: TypeInfo, bytes: &Vec<u8>)
        requires
            old(self).wf(),
            info.valid(),
            bytes@.len() == info.size,
            old(self).spec_has(info.id) ==> old(self).info_of(info.id) == info && old(self).drops_of(info.id) < usize::MAX,
        ensures
            final(self).wf(),
            final(self).spec_has(info.id),
            final(self).info_of(info.id) == info,
            final(self).value_of(info.id) == bytes@,
            old(self).spec_has(info.id) ==> final(self).drops_of(info.id) == old(self).drops_of(
                info.id,
            ) + if info.has_drop {
                1int
            } else {
                0int
            },
            forall|k: TypeId|
                k != info.id ==> final(self).spec_has(k) == old(self).spec_has(k),
            forall|k: TypeId|
                k != info.id && old(self).spec_has(k) ==> final(self).value_of(k) == old(self).value_of(k) && final(self).info_of(k) == old(self).info_of(k),
    {
        let ghost prev = *self;
        match self.search(info.id) {
            Some(i) => {
                let entry = &mut self.columns[i];
                let column = &mut entry.1;
                column.drop_at(0);
                column.overwrite_from_slice(0, bytes);
                proof {
                    self.lemma_frame_single(prev, i as int, info.id);
                }
            },
            None => {
                let mut column = BlobVec::new(info.size, info.has_drop);
                column.push_from_slice(bytes);
                self.columns.push((info, column));
                proof {
                    let n = prev.entries().len() as int;
                    assert(self.entries()[n].0.id == info.id);
                    assert forall|a: int, b: int| 0 <= a < b < self.entries().len() implies (
                    #[trigger] self.entries()[a]).0.id != (#[trigger] self.entries()[b]).0.id by {
                        if b == n {
                            assert(self.entries()[a] == prev.entries()[a]);
                            if self.entries()[a].0.id == info.id {
                                assert(prev.spec_has(info.id));
                            }
                        } else {
                            assert(self.entries()[a] == prev.entries()[a]);
                            assert(self.entries()[b] == prev.entries()[b]);
                        }
                    }
                    self.lemma_entry_unique(n, info.id);
                    self.lemma_frame_push(prev, info.id);
                }
            },
        }
    }

    /// Changing or appending one entry leaves the others alone.
    proof fn lemma_frame_single(self, prev: Resources, i: int, kid: TypeId)
        requires
            prev.wf(),
            0 <= i < prev.entries().len(),
            prev.entries()[i].0.id == kid,
            self.entries().len() == prev.entries().len(),
            forall|j: int|
                0 <= j < prev.entries().len() && j != i ==> (#[trigger] self.entries()[j])
                    == prev.entries()[j],
            self.entries()[i].0 == prev.entries()[i].0,
        ensures
            forall|k: TypeId| k != kid ==> self.spec_has(k) == prev.spec_has(k),
            forall|k: TypeId|
                k != kid && prev.spec_has(k) ==> self.value_of(k) == prev.value_of(k)
                    && self.info_of(k) == prev.info_of(k),
            self.spec_has(kid),
            self.index_of(kid) == i,
            forall|a: int, b: int|
                0 <= a < b < self.entries().len() ==> (#[trigger] self.entries()[a]).0.id != (
                #[trigger] self.entries()[b]).0.id,
    {
        assert forall|a: int, b: int| 0 <= a < b < self.entries().len() implies (
        #[trigger] self.entries()[a]).0.id != (#[trigger] self.entries()[b]).0.id by {
            assert(self.entries()[a].0.id == prev.entries()[a].0.id);
            assert(self.entries()[b].0.id == prev.entries()[b].0.id);
        }
        prev.lemma_entry_unique(i, kid);
        assert(self.entries()[i].0.id == kid);
        self.lemma_entry_unique_plain(i, kid);
        assert forall|k: TypeId| k != kid implies self.spec_has(k) == prev.spec_has(k) by {
            if prev.spec_has(k) {
                let w = prev.index_of(k);
                assert(prev.entries()[w].0.id == k);
                assert(w != i);
                assert(self.entries()[w].0.id == k);
            }
            if self.spec_has(k) {
                let w = choose|w: int|
                    0 <= w < self.entries().len() && (#[trigger] self.entries()[w]).0.id == k;
                assert(prev.entries()[w].0.id == k);
            }
        }
        assert forall|k: TypeId| k != kid && prev.spec_has(k) implies self.value_of(k)
            == prev.value_of(k) && self.info_of(k) == prev.info_of(k) by {
            let w = prev.index_of(k);
            assert(prev.entries()[w].0.id == k);
            assert(w != i);
            assert(self.entries()[w] == prev.entries()[w]);
            self.lemma_entry_unique_plain(w, k);
        }
    }

    /// Like `lemma_entry_unique`, from plain pairwise distinctness.
    proof fn lemma_entry_unique_plain(self, i: int, k: TypeId)
        requires
            0 <= i < self.entries().len(),
            self.entries()[i].0.id == k,
            forall|a: int, b: int|
                0 <= a < b < self.entries().len() ==> (#[trigger] self.entries()[a]).0.id != (
                #[trigger] self.entries()[b]).0.id,
        ensures
            self.spec_has(k),
            self.index_of(k) == i,
    {
        let w = self.index_of(k);
        if w != i {
            if w < i {
                assert(self.entries()[w].0.id != self.entries()[i].0.id);
            } else {
                assert(self.entries()[i].0.id != self.entries()[w].0.id);
            }
        }
    }

    /// Appending a fresh entry leaves the others alone.
    proof fn lemma_frame_push(self, prev: Resources, kid: TypeId)
        requires
            prev.wf(),
            !prev.spec_has(kid),
            self.entries().len() == prev.entries().len() + 1,
            forall|j: int|
                0 <= j < prev.entries().len() ==> (#[trigger] self.entries()[j])
                    == prev.entries()[j],
            self.entries()[prev.entries().len() as int].0.id == kid,
        ensures
            forall|k: TypeId| k != kid ==> self.spec_has(k) == prev.spec_has(k),
            forall|k: TypeId|
                k != kid && prev.spec_has(k) ==> self.value_of(k) == prev.value_of(k)
                    && self.info_of(k) == prev.info_of(k),
    {
        let n = prev.entries().len() as int;
        assert forall|k: TypeId| k != kid implies self.spec_has(k) == prev.spec_has(k) by {
            if prev.spec_has(k) {
                let w = prev.index_of(k);
                assert(prev.entries()[w].0.id == k);
                assert(self.entries()[w].0.id == k);
            }
            if self.spec_has(k) {
                let w = choose|w: int|
                    0 <= w < self.entries().len() && (#[trigger] self.entries()[w]).0.id == k;
                assert(w != n);
                assert(prev.entries()[w].0.id == k);
            }
        }
        assert forall|k: TypeId| k != kid && prev.spec_has(k) implies self.value_of(k)
            == prev.value_of(k) && self.info_of(k) == prev.info_of(k) by {
            let w = prev.index_of(k);
            assert(prev.entries()[w].0.id == k);
            assert(self.entries()[w] == prev.entries()[w]);
            prev.lemma_entry_unique(w, k);
            if self.index_of(k) != w {
                let w2 = self.index_of(k);
                assert(self.entries()[w2].0.id == k);
                if w2 == n {
                    assert(prev.spec_has(kid));
                } else {
                    assert(prev.entries()[w2].0.id == k);
                }
            }
        }
    }

    /// Evicts and drops the value of one kind.
    pub fn remove(&mut self, k: TypeId) -> (r: Result<(), Error>)
        requires
            old(self).wf(),
        ensures
            final(self).wf(),
            match r {
                Ok(()) => {
                    &&& old(self).spec_has(k)
                    &&& !final(self).spec_has(k)
                    &&& forall|x: TypeId|
                        x != k ==> final(self).spec_has(x) == old(self).spec_has(x)
                    &&& forall|x: TypeId|
                        x != k && old(self).spec_has(x) ==> final(self).value_of(x) == old(self).value_of(x) && final(self).info_of(x) == old(self).info_of(x)
                },
                Err(e) => e == Error::RemoveNonExisting(k) && !old(self).spec_has(k) && *final(self) == *old(self),
            },
    {
        let ghost prev = *self;
        match self.search(k) {
            Some(i) => {
                self.columns.remove(i);
                proof {
                    assert forall|a: int, b: int| 0 <= a < b < self.entries().len() implies (
                    #[trigger] self.entries()[a]).0.id != (#[trigger] self.entries()[b]).0.id by {
                        let pa: int = if a < i {
                            a
                        } else {
                            a + 1
                        };
                        let pb: int = if b < i {
                            b
                        } else {
                            b + 1
                        };
                        assert(self.entries()[a] == prev.entries()[pa]);
                        assert(self.entries()[b] == prev.entries()[pb]);
                        assert(prev.entries()[pa].0.id != prev.entries()[pb].0.id);
                    }
                    assert forall|i2: int| 0 <= i2 < self.entries().len() implies (
                    #[trigger] self.entries()[i2]).1.wf() && self.entries()[i2].0.valid()
                        && self.entries()[i2].1.spec_stride() == self.entries()[i2].0.size
                        && self.entries()[i2].1.spec_len() == 1
                        && self.entries()[i2].1.spec_has_drop()
                        == self.entries()[i2].0.has_drop by {
                        let p: int = if i2 < i {
                            i2
                        } else {
                            i2 + 1
                        };
                        assert(self.entries()[i2] == prev.entries()[p]);
                    }
                    assert(!self.spec_has(k)) by {
                        if self.spec_has(k) {
                            let w = choose|w: int|
                                0 <= w < self.entries().len() && (#[trigger] self.entries()[w]).0.id
                                    == k;
                            let p: int = if w < i {
                                w
                            } else {
                                w + 1
                            };
                            assert(prev.entries()[p].0.id == k);
                            prev.lemma_entry_unique(p, k);
                        }
                    }
                    assert forall|x: TypeId| x != k implies self.spec_has(x) == prev.spec_has(
                        x,
                    ) by {
                        if prev.spec_has(x) {
                            let w = prev.index_of(x);
                            assert(prev.entries()[w].0.id == x);
                            assert(w != i);
                            let c: int = if w < i {
                                w
                            } else {
                                w - 1
                            };
                            assert(self.entries()[c] == prev.entries()[w]);
                        }
                        if self.spec_has(x) {
                            let w = choose|w: int|
                                0 <= w < self.entries().len() && (#[trigger] self.entries()[w]).0.id
                                    == x;
                            let p: int = if w < i {
                                w
                            } else {
                                w + 1
                            };
                            assert(prev.entries()[p].0.id == x);
                        }
                    }
                    assert forall|x: TypeId| x != k && prev.spec_has(x) implies self.value_of(x)
                        == prev.value_of(x) && self.info_of(x) == prev.info_of(x) by {
                        let w = prev.index_of(x);
                        assert(prev.entries()[w].0.id == x);
                        assert(w != i);
                        let c: int = if w < i {
                            w
                        } else {
                            w - 1
                        };
                        assert(self.entries()[c] == prev.entries()[w]);
                        self.lemma_entry_unique(c, x);
                    }
                }
                Ok(())
            },
            None => Err(Error::RemoveNonExisting(k)),
        }
    }

    /// Reads the value of one kind.
    pub fn get(&self, k: TypeId) -> (r: Result<Vec<u8>, Error>)
        requires
            self.wf(),
        ensures
            match r {
                Ok(v) => self.spec_has(k) && v@ == self.value_of(k) && v@.len() == self.info_of(k).size,
                Err(e) => e == Error::GetNonExisting(k) && !self.spec_has(k),
            },
    {
        match self.search(k) {
            Some(i) => Ok(self.columns[i].1.get_as_byte_slice(0)),
            None => Err(Error::GetNonExisting(k)),
        }
    }

    /// Overwrites the value of one kind in place, without dropping the
    /// prior value: the write stands for mutation through a reference.
    pub fn set(&mut self, k: TypeId, bytes: &Vec<u8>) -> (r: Result<(), Error>)
        requires
            old(self).wf(),
            old(self).spec_has(k) ==> bytes@.len() == old(self).info_of(k).size,
        ensures
            final(self).wf(),
            match r {
                Ok(()) => {
                    &&& old(self).spec_has(k)
                    &&& final(self).spec_has(k)
                    &&& final(self).value_of(k) == bytes@
                    &&& final(self).info_of(k) == old(self).info_of(k)
                    &&& forall|x: TypeId|
                        x != k ==> final(self).spec_has(x) == old(self).spec_has(x)
                    &&& forall|x: TypeId|
                        x != k && old(self).spec_has(x) ==> final(self).value_of(x) == old(self).value_of(x) && final(self).info_of(x) == old(self).info_of(x)
                },
                Err(e) => e == Error::GetNonExisting(k) && !old(self).spec_has(k) && *final(self)
                    == *old(self),
            },
    {
        let ghost prev = *self;
        match self.search(k) {
            Some(i) => {
                let entry = &mut self.columns[i];
                let column = &mut entry.1;
                column.overwrite_from_slice(0, bytes);
                proof {
                    self.lemma_frame_single(prev, i as int, k);
                }
                Ok(())
            },
            None => Err(Error::GetNonExisting(k)),
        }
    }
}

} // verus!
