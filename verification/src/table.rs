//! Tables: the columnar storage of one archetype each, and the storage
//! that owns every table.
//!
//! A table keeps one byte column per kind, a directory from entity to
//! slot, and a queue of reusable slots.  Every column always holds one
//! slot per directory entry plus one per queued free slot.

use crate::archetype::ArchetypeInfo;
use crate::blobvec::BlobVec;
use crate::component::TypeId;
use crate::component::TypeInfo;
use crate::component::strictly_sorted;
use crate::entity::Entity;
use crate::sparse_set::SparseSet;
use vstd::prelude::*;

verus! {

#[derive(Debug, Clone, Copy, PartialEq, Eq, Structural)]
pub enum Error {
    /// A table identifier missed the storage.
    TableDoesNotExist,
    /// The table has no column for the requested kind.
    TableDoesNotContainComponentColumn,
    /// An entity-keyed operation on an entity the table does not hold.
    NonExistingEntity,
    /// A table identifier missed the storage during a transfer.
    NonExistingTable,
}

/// A small integer identifying one table.
#[derive(Debug, Clone, Copy, Eq, PartialEq, Structural, Hash)]
pub struct TableId(pub usize);

/// One yielded row of a query: the entity and, per requested kind, the
/// bytes of its value.
#[derive(Debug)]
pub struct Row {
    pub entity: Entity,
    pub values: Vec<Vec<u8>>,
}

/// The storage of one archetype: one column per kind, a directory from
/// entity to slot, and the slots waiting for reuse.
#[derive(Debug)]
pub struct Table {
    infos: Vec<TypeInfo>,
    columns: Vec<BlobVec>,
    entities: Vec<(Entity, usize)>,
    empty_lines: Vec<usize>,
}

impl Table {
    /// The kind metadata, in ascending identifier order.
    pub closed spec fn infos(self) -> Seq<TypeInfo> {
        self.infos@
    }

    pub closed spec fn columns_view(self) -> Seq<BlobVec> {
        self.columns@
    }

    /// The directory: one entity-to-slot pair per live row.
    pub closed spec fn dir(self) -> Seq<(Entity, usize)> {
        self.entities@
    }

    /// The slots waiting for reuse.
    pub closed spec fn free_slots(self) -> Seq<usize> {
        self.empty_lines@
    }

    /// The kind identifiers, ascending.
    pub open spec fn kind_ids(self) -> Seq<TypeId> {
        self.infos().map_values(|t: TypeInfo| t.id)
    }

    /// The logical slot count of every column.
    pub open spec fn rows(self) -> int {
        self.dir().len() + self.free_slots().len() as int
    }

    pub open spec fn has_kind(self, k: TypeId) -> bool {
        exists|j: int| 0 <= j < self.infos().len() && (#[trigger] self.infos()[j]).id == k
    }

    /// The column position of kind `k`.
    pub open spec fn col_of(self, k: TypeId) -> int
        recommends
            self.has_kind(k),
    {
        choose|j: int| 0 <= j < self.infos().len() && (#[trigger] self.infos()[j]).id == k
    }

    /// The metadata of kind `k`.
    pub open spec fn info_of(self, k: TypeId) -> TypeInfo
        recommends
            self.has_kind(k),
    {
        self.infos()[self.col_of(k)]
    }

    pub open spec fn dir_contains(self, e: Entity) -> bool {
        exists|i: int| 0 <= i < self.dir().len() && (#[trigger] self.dir()[i]).0 == e
    }

    /// The slot of entity `e`.
    pub open spec fn slot_of(self, e: Entity) -> int
        recommends
            self.dir_contains(e),
    {
        self.dir()[choose|i: int| 0 <= i < self.dir().len() && (#[trigger] self.dir()[i]).0 == e].1 as int
    }

    /// The stored bytes of entity `e`'s value of kind `k`.
    pub open spec fn value_at(self, e: Entity, k: TypeId) -> Seq<u8>
        recommends
            self.dir_contains(e),
            self.has_kind(k),
    {
        self.columns_view()[self.col_of(k)].slot(self.slot_of(e))
    }

    /// The whole row of entity `e`: each stored kind mapped to the bytes
    /// of the entity's value.
    pub open spec fn row_map(self, e: Entity) -> Map<TypeId, Seq<u8>>
        recommends
            self.dir_contains(e),
    {
        Map::new(|k: TypeId| self.has_kind(k), |k: TypeId| self.value_at(e, k))
    }

    /// How often kind `k`'s destructor ran in this table.
    pub open spec fn drops_of(self, k: TypeId) -> int
        recommends
            self.has_kind(k),
    {
        self.columns_view()[self.col_of(k)].spec_drops()
    }

    pub open spec fn wf(self) -> bool {
        &&& strictly_sorted(self.kind_ids())
        &&& forall|j: int| 0 <= j < self.infos().len() ==> (#[trigger] self.infos()[j]).valid()
        &&& self.columns_view().len() == self.infos().len()
        &&& forall|j: int|
            0 <= j < self.columns_view().len() ==> (#[trigger] self.columns_view()[j]).wf()
                && self.columns_view()[j].spec_stride() == self.infos()[j].size
                && self.columns_view()[j].spec_has_drop() == self.infos()[j].has_drop
                && self.columns_view()[j].spec_len() == self.rows()
        &&& forall|i: int| 0 <= i < self.dir().len() ==> (#[trigger] self.dir()[i]).1 < self.rows()
        &&& forall|a: int, b: int|
            0 <= a < b < self.dir().len() ==> (#[trigger] self.dir()[a]).0 != (
            #[trigger] self.dir()[b]).0 && self.dir()[a].1 != self.dir()[b].1
        &&& forall|i: int|
            0 <= i < self.free_slots().len() ==> (#[trigger] self.free_slots()[i]) < self.rows()
        &&& forall|a: int, b: int|
            0 <= a < b < self.free_slots().len() ==> (#[trigger] self.free_slots()[a]) != (
            #[trigger] self.free_slots()[b])
        &&& forall|a: int, b: int|
            0 <= a < self.dir().len() && 0 <= b < self.free_slots().len() ==> (
            #[trigger] self.dir()[a]).1 != (#[trigger] self.free_slots()[b]) as int
    }

    /// A fresh, empty table for one archetype.
    pub fn new(archetype_info: &ArchetypeInfo) -> (r: Table)
        requires
            archetype_info.wf(),
        ensures
            r.wf(),
            r.infos() == archetype_info.infos(),
            r.dir().len() == 0,
            r.free_slots().len() == 0,
            forall|e: Entity| !r.dir_contains(e),
            forall|k: TypeId| r.has_kind(k) ==> r.drops_of(k) == 0,
    {
        let infos = archetype_info.iter();
        let mut columns: Vec<BlobVec> = Vec::new();
        let mut j: usize = 0;
        while j < infos.len()
            invariant
                infos@ == archetype_info.infos(),
                archetype_info.wf(),
                j <= infos@.len(),
                columns@.len() == j,
                forall|i: int|
                    0 <= i < j ==> (#[trigger] columns@[i]).wf() && columns@[i].spec_stride()
                        == infos@[i].size && columns@[i].spec_has_drop() == infos@[i].has_drop
                        && columns@[i].spec_len() == 0 && columns@[i].spec_drops() == 0,
            decreases infos@.len() - j,
        {
            proof {
                assert(archetype_info.infos()[j as int].valid());
            }
            let col = BlobVec::new(infos[j].size, infos[j].has_drop);
            columns.push(col);
            j = j + 1;
        }
        let r = Table { infos, columns, entities: Vec::new(), empty_lines: Vec::new() };
        proof {
            assert(r.kind_ids() =~= archetype_info.ids());
        }
        r
    }

    /// Where kind `k`'s column sits, if the table has one.
    fn kind_search(&self, k: TypeId) -> (r: (usize, bool))
        requires
            self.wf(),
        ensures
            r.1 ==> r.0 < self.infos().len() && self.infos()[r.0 as int].id == k
                && self.has_kind(k) && self.col_of(k) == r.0,
            !r.1 ==> !self.has_kind(k),
    {
        let mut i: usize = 0;
        while i < self.infos.len()
            invariant
                self.wf(),
                i <= self.infos().len(),
                forall|j: int| 0 <= j < i ==> (#[trigger] self.infos()[j]).id != k,
            decreases self.infos().len() - i,
        {
            if self.infos[i].id.0 == k.0 {
                proof {
                    assert(self.infos()[i as int].id == k) by {
                        assert(self.infos()[i as int].id.0 == k.0);
                    }
                    self.lemma_col_unique(i as int, k);
                }
                return (i, true);
            }
            proof {
                assert(self.infos()[i as int].id != k);
            }
            i = i + 1;
        }
        (0, false)
    }

    /// The one column position that carries kind `k`.
    pub proof fn lemma_col_unique(self, j: int, k: TypeId)
        requires
            self.wf(),
            0 <= j < self.infos().len(),
            self.infos()[j].id == k,
        ensures
            self.has_kind(k),
            self.col_of(k) == j,
    {
        let w = self.col_of(k);
        if w != j {
            assert(self.kind_ids()[w] == k);
            assert(self.kind_ids()[j] == k);
            if w < j {
                assert(self.kind_ids()[w].0 < self.kind_ids()[j].0);
            } else {
                assert(self.kind_ids()[j].0 < self.kind_ids()[w].0);
            }
        }
    }

    /// The one directory entry that carries entity `e`.
    pub proof fn lemma_dir_unique(self, i: int, e: Entity)
        requires
            self.wf(),
            0 <= i < self.dir().len(),
            self.dir()[i].0 == e,
        ensures
            self.dir_contains(e),
            self.slot_of(e) == self.dir()[i].1,
    {
        let w = choose|w: int| 0 <= w < self.dir().len() && (#[trigger] self.dir()[w]).0 == e;
        if w != i {
            if w < i {
                assert(self.dir()[w].0 != self.dir()[i].0);
            } else {
                assert(self.dir()[i].0 != self.dir()[w].0);
            }
        }
    }

    /// The directory position of entity `e`, if the table holds it.
    fn dir_search(&self, entity: &Entity) -> (r: Option<usize>)
        requires
            self.wf(),
        ensures
            match r {
                Some(i) => i < self.dir().len() && self.dir()[i as int].0 == *entity
                    && self.dir_contains(*entity) && self.slot_of(*entity) == self.dir()[
                    i as int].1,
                None => !self.dir_contains(*entity),
            },
    {
        let mut i: usize = 0;
        while i < self.entities.len()
            invariant
                self.wf(),
                i <= self.dir().len(),
                forall|j: int| 0 <= j < i ==> (#[trigger] self.dir()[j]).0 != *entity,
            decreases self.dir().len() - i,
        {
            if self.entities[i].0 == *entity {
                proof {
                    self.lemma_dir_unique(i as int, *entity);
                }
                return Some(i);
            }
            i = i + 1;
        }
        None
    }

    /// Whether the table holds a row for `entity`.
    pub fn has_entity(&self, entity: &Entity) -> (r: bool)
        requires
            self.wf(),
        ensures
            r == self.dir_contains(*entity),
    {
        self.dir_search(entity).is_some()
    }

    /// The number of live rows.
    pub fn len(&self) -> (r: usize)
        ensures
            r == self.dir().len(),
    {
        self.entities.len()
    }

    /// Assigns a slot to a new entity: a reused free slot, or a fresh
    /// zeroed slot at the tail of every column.
    pub fn add_entity(&mut self, entity: Entity)
        requires
            old(self).wf(),
            !old(self).dir_contains(entity),
        ensures
            final(self).wf(),
            final(self).infos() == old(self).infos(),
            final(self).dir_contains(entity),
            final(self).dir().len() == old(self).dir().len() + 1,
            forall|e: Entity|
                e != entity ==> final(self).dir_contains(e) == old(self).dir_contains(e),
            forall|e: Entity, k: TypeId|
                e != entity && old(self).dir_contains(e) && old(self).has_kind(k)
                    ==> final(self).value_at(e, k) == old(self).value_at(e, k),
            forall|k: TypeId|
                old(self).has_kind(k) ==> final(self).drops_of(k) == old(self).drops_of(k),
            old(self).free_slots().len() > 0 ==> final(self).rows() == old(self).rows(),
            old(self).free_slots().len() == 0 ==> final(self).rows() == old(self).rows() + 1,
    {
        let ghost prev = *self;
        match self.empty_lines.pop() {
            Some(line) => {
                self.entities.push((entity, line));
                proof {
                    self.lemma_add_entity_effect(prev, entity, line as int);
                }
            },
            None => {
                let line = self.entities.len();
                let mut j: usize = 0;
                while j < self.columns.len()
                    invariant
                        prev.wf(),
                        prev.free_slots().len() == 0,
                        j <= self.columns@.len(),
                        self.infos == prev.infos,
                        self.entities == prev.entities,
                        self.empty_lines@ == prev.free_slots(),
                        self.columns@.len() == prev.columns_view().len(),
                        forall|i: int|
                            0 <= i < j ==> (#[trigger] self.columns@[i]).wf()
                                && self.columns@[i].spec_stride()
                                == prev.columns_view()[i].spec_stride()
                                && self.columns@[i].spec_has_drop()
                                == prev.columns_view()[i].spec_has_drop()
                                && self.columns@[i].spec_drops()
                                == prev.columns_view()[i].spec_drops()
                                && self.columns@[i].spec_len() == prev.rows() + 1
                                && forall|s: int|
                                0 <= s < prev.rows() ==> #[trigger] self.columns@[i].slot(s)
                                    == prev.columns_view()[i].slot(s),
                        forall|i: int|
                            j <= i < self.columns@.len() ==> (#[trigger] self.columns@[i])
                                == prev.columns_view()[i],
                    decreases self.columns@.len() - j,
                {
                    let col = &mut self.columns[j];
                    col.push_empty();
                    j = j + 1;
                }
                self.entities.push((entity, line));
                proof {
                    self.lemma_add_entity_fresh_effect(prev, entity, line as int);
                }
            },
        }
    }

    /// Reusing a free slot keeps the table well formed and every other
    /// row's values in place.
    proof fn lemma_add_entity_effect(self, prev: Table, entity: Entity, line: int)
        requires
            prev.wf(),
            !prev.dir_contains(entity),
            prev.free_slots().len() > 0,
            prev.free_slots()[prev.free_slots().len() - 1] == line,
            0 <= line <= usize::MAX,
            self.infos == prev.infos,
            self.columns == prev.columns,
            self.entities@ == prev.dir().push((entity, line as usize)),
            self.empty_lines@ == prev.free_slots().drop_last(),
            line == prev.free_slots().last() as int,
        ensures
            self.wf(),
            self.dir_contains(entity),
            forall|e: Entity| e != entity ==> self.dir_contains(e) == prev.dir_contains(e),
            forall|e: Entity, k: TypeId|
                e != entity && prev.dir_contains(e) && prev.has_kind(k) ==> self.value_at(e, k)
                    == prev.value_at(e, k),
            forall|k: TypeId| prev.has_kind(k) ==> self.drops_of(k) == prev.drops_of(k),
            self.rows() == prev.rows(),
    {
        let n = prev.dir().len() as int;
        assert(self.dir()[n] == (entity, line as usize));
        assert forall|a: int, b: int| 0 <= a < b < self.dir().len() implies (
        #[trigger] self.dir()[a]).0 != (#[trigger] self.dir()[b]).0 && self.dir()[a].1
            != self.dir()[b].1 by {
            if b == n {
                assert(self.dir()[a] == prev.dir()[a]);
                if self.dir()[a].0 == entity {
                    assert(prev.dir_contains(entity));
                }
                assert(prev.dir()[a].1 != prev.free_slots()[prev.free_slots().len() - 1] as int);
            } else {
                assert(self.dir()[a] == prev.dir()[a]);
                assert(self.dir()[b] == prev.dir()[b]);
            }
        }
        assert forall|a: int, b: int|
            0 <= a < self.dir().len() && 0 <= b < self.free_slots().len() implies (
        #[trigger] self.dir()[a]).1 != (#[trigger] self.free_slots()[b]) as int by {
            assert(self.free_slots()[b] == prev.free_slots()[b]);
            if a < n {
                assert(self.dir()[a] == prev.dir()[a]);
            } else {
                assert(self.dir()[a].1 == line);
                assert(prev.free_slots()[b] != prev.free_slots()[prev.free_slots().len() - 1]);
            }
        }
        assert forall|a: int, b: int|
            0 <= a < b < self.free_slots().len() implies (#[trigger] self.free_slots()[a]) != (
        #[trigger] self.free_slots()[b]) by {
            assert(self.free_slots()[a] == prev.free_slots()[a]);
            assert(self.free_slots()[b] == prev.free_slots()[b]);
        }
        assert(self.wf());
        self.lemma_dir_unique(n, entity);
        assert forall|e: Entity| e != entity implies self.dir_contains(e) == prev.dir_contains(
            e,
        ) by {
            if prev.dir_contains(e) {
                let i = choose|i: int|
                    0 <= i < prev.dir().len() && (#[trigger] prev.dir()[i]).0 == e;
                assert(self.dir()[i].0 == e);
            }
            if self.dir_contains(e) {
                let i = choose|i: int|
                    0 <= i < self.dir().len() && (#[trigger] self.dir()[i]).0 == e;
                assert(i != n);
                assert(prev.dir()[i].0 == e);
            }
        }
        assert forall|e: Entity, k: TypeId|
            e != entity && prev.dir_contains(e) && prev.has_kind(k) implies self.value_at(e, k)
            == prev.value_at(e, k) by {
            let i = choose|i: int| 0 <= i < prev.dir().len() && (#[trigger] prev.dir()[i]).0 == e;
            assert(self.dir()[i].0 == e);
            self.lemma_dir_unique(i, e);
            prev.lemma_dir_unique(i, e);
        }
    }

    /// Appending a fresh slot to every column keeps the table well formed
    /// and every other row's values in place.
    proof fn lemma_add_entity_fresh_effect(self, prev: Table, entity: Entity, line: int)
        requires
            prev.wf(),
            !prev.dir_contains(entity),
            prev.free_slots().len() == 0,
            line == prev.dir().len(),
            0 <= line <= usize::MAX,
            self.infos == prev.infos,
            self.entities@ == prev.dir().push((entity, line as usize)),
            self.empty_lines@ == prev.free_slots(),
            self.columns_view().len() == prev.columns_view().len(),
            forall|i: int|
                0 <= i < self.columns_view().len() ==> (#[trigger] self.columns_view()[i]).wf()
                    && self.columns_view()[i].spec_stride()
                    == prev.columns_view()[i].spec_stride()
                    && self.columns_view()[i].spec_has_drop()
                    == prev.columns_view()[i].spec_has_drop() && self.columns_view()[i].spec_drops()
                    == prev.columns_view()[i].spec_drops() && self.columns_view()[i].spec_len()
                    == prev.rows() + 1 && forall|s: int|
                    0 <= s < prev.rows() ==> #[trigger] self.columns_view()[i].slot(s)
                        == prev.columns_view()[i].slot(s),
        ensures
            self.wf(),
            self.dir_contains(entity),
            forall|e: Entity| e != entity ==> self.dir_contains(e) == prev.dir_contains(e),
            forall|e: Entity, k: TypeId|
                e != entity && prev.dir_contains(e) && prev.has_kind(k) ==> self.value_at(e, k)
                    == prev.value_at(e, k),
            forall|k: TypeId| prev.has_kind(k) ==> self.drops_of(k) == prev.drops_of(k),
            self.rows() == prev.rows() + 1,
    {
        let n = prev.dir().len() as int;
        assert(self.dir()[n] == (entity, line as usize));
        assert(self.rows() == prev.rows() + 1);
        assert forall|a: int, b: int| 0 <= a < b < self.dir().len() implies (
        #[trigger] self.dir()[a]).0 != (#[trigger] self.dir()[b]).0 && self.dir()[a].1
            != self.dir()[b].1 by {
            if b == n {
                assert(self.dir()[a] == prev.dir()[a]);
                if self.dir()[a].0 == entity {
                    assert(prev.dir_contains(entity));
                }
                assert(prev.dir()[a].1 < prev.rows());
            } else {
                assert(self.dir()[a] == prev.dir()[a]);
                assert(self.dir()[b] == prev.dir()[b]);
            }
        }
        assert(self.wf());
        self.lemma_dir_unique(n, entity);
        assert forall|e: Entity| e != entity implies self.dir_contains(e) == prev.dir_contains(
            e,
        ) by {
            if prev.dir_contains(e) {
                let i = choose|i: int|
                    0 <= i < prev.dir().len() && (#[trigger] prev.dir()[i]).0 == e;
                assert(self.dir()[i].0 == e);
            }
            if self.dir_contains(e) {
                let i = choose|i: int|
                    0 <= i < self.dir().len() && (#[trigger] self.dir()[i]).0 == e;
                assert(i != n);
                assert(prev.dir()[i].0 == e);
            }
        }
        assert forall|e: Entity, k: TypeId|
            e != entity && prev.dir_contains(e) && prev.has_kind(k) implies self.value_at(e, k)
            == prev.value_at(e, k) by {
            let i = choose|i: int| 0 <= i < prev.dir().len() && (#[trigger] prev.dir()[i]).0 == e;
            assert(self.dir()[i].0 == e);
            self.lemma_dir_unique(i, e);
            prev.lemma_dir_unique(i, e);
            assert(prev.dir()[i].1 < prev.rows());
        }
    }
}

impl Table {
    /// Two different entities never share a slot.
    pub proof fn lemma_slot_distinct(self, e1: Entity, e2: Entity)
        requires
            self.wf(),
            self.dir_contains(e1),
            self.dir_contains(e2),
            e1 != e2,
        ensures
            self.slot_of(e1) != self.slot_of(e2),
    {
        let i1 = choose|i: int| 0 <= i < self.dir().len() && (#[trigger] self.dir()[i]).0 == e1;
        let i2 = choose|i: int| 0 <= i < self.dir().len() && (#[trigger] self.dir()[i]).0 == e2;
        assert(i1 != i2);
        if i1 < i2 {
            assert(self.dir()[i1].1 != self.dir()[i2].1);
        } else {
            assert(self.dir()[i2].1 != self.dir()[i1].1);
        }
    }

    /// Two different kinds never share a column.
    pub proof fn lemma_col_distinct(self, k1: TypeId, k2: TypeId)
        requires
            self.wf(),
            self.has_kind(k1),
            self.has_kind(k2),
            k1 != k2,
        ensures
            self.col_of(k1) != self.col_of(k2),
    {
        if self.col_of(k1) == self.col_of(k2) {
            assert(self.infos()[self.col_of(k1)].id == k1);
            assert(self.infos()[self.col_of(k2)].id == k2);
        }
    }

    /// Changing one slot of one column leaves every other row and kind
    /// untouched, and the table well formed.
    proof fn lemma_single_slot_update(self, prev: Table, e: Entity, k: TypeId)
        requires
            prev.wf(),
            prev.dir_contains(e),
            prev.has_kind(k),
            self.infos == prev.infos,
            self.entities == prev.entities,
            self.empty_lines == prev.empty_lines,
            self.columns_view().len() == prev.columns_view().len(),
            forall|j: int|
                0 <= j < prev.columns_view().len() && j != prev.col_of(k) ==> (
                #[trigger] self.columns_view()[j]) == prev.columns_view()[j],
            self.columns_view()[prev.col_of(k)].wf(),
            self.columns_view()[prev.col_of(k)].spec_stride() == prev.columns_view()[prev.col_of(
                k,
            )].spec_stride(),
            self.columns_view()[prev.col_of(k)].spec_has_drop() == prev.columns_view()[prev.col_of(
                k,
            )].spec_has_drop(),
            self.columns_view()[prev.col_of(k)].spec_len() == prev.columns_view()[prev.col_of(
                k,
            )].spec_len(),
            forall|s: int|
                0 <= s < prev.rows() && s != prev.slot_of(e) ==> #[trigger] self.columns_view()[prev.col_of(
                    k,
                )].slot(s) == prev.columns_view()[prev.col_of(k)].slot(s),
        ensures
            self.wf(),
            forall|e2: Entity, k2: TypeId|
                prev.dir_contains(e2) && prev.has_kind(k2) && (e2 != e || k2 != k) ==> self.value_at(
                    e2,
                    k2,
                ) == prev.value_at(e2, k2),
            forall|k2: TypeId|
                k2 != k && prev.has_kind(k2) ==> self.drops_of(k2) == prev.drops_of(k2),
            self.drops_of(k) == self.columns_view()[prev.col_of(k)].spec_drops(),
            self.value_at(e, k) == self.columns_view()[prev.col_of(k)].slot(prev.slot_of(e)),
    {
        assert(self.wf());
        assert forall|e2: Entity, k2: TypeId|
            prev.dir_contains(e2) && prev.has_kind(k2) && (e2 != e || k2 != k) implies self.value_at(
            e2,
            k2,
        ) == prev.value_at(e2, k2) by {
            if k2 != k {
                prev.lemma_col_distinct(k2, k);
            } else {
                prev.lemma_slot_distinct(e2, e);
                assert(0 <= prev.slot_of(e2) < prev.rows());
            }
        }
    }

    /// Frees an entity's slot and strikes it off the directory.
    pub fn remove_entity(&mut self, entity: &Entity)
        requires
            old(self).wf(),
            old(self).dir_contains(*entity),
        ensures
            final(self).wf(),
            final(self).infos() == old(self).infos(),
            !final(self).dir_contains(*entity),
            final(self).dir().len() == old(self).dir().len() - 1,
            final(self).rows() == old(self).rows(),
            forall|e: Entity|
                e != *entity ==> final(self).dir_contains(e) == old(self).dir_contains(e),
            forall|e: Entity, k: TypeId|
                e != *entity && old(self).dir_contains(e) && old(self).has_kind(k) ==> final(self).value_at(e, k) == old(self).value_at(e, k),
            forall|k: TypeId|
                old(self).has_kind(k) ==> final(self).drops_of(k) == old(self).drops_of(k),
    {
        let i = match self.dir_search(entity) {
            Some(i) => i,
            None => {
                proof {
                    assert(false);
                }
                0
            },
        };
        let line = self.entities[i].1;
        self.empty_lines.push(line);
        self.entities.remove(i);
        proof {
            let prev = *old(self);
            assert(self.dir() =~= prev.dir().remove(i as int));
            assert forall|a: int, b: int| 0 <= a < b < self.dir().len() implies (
            #[trigger] self.dir()[a]).0 != (#[trigger] self.dir()[b]).0 && self.dir()[a].1
                != self.dir()[b].1 by {
                let pa: int = if a < i {
                    a
                } else {
                    a + 1
                };
                let pb: int = if b < i {
                    b
                } else {
                    b + 1
                };
                assert(self.dir()[a] == prev.dir()[pa]);
                assert(self.dir()[b] == prev.dir()[pb]);
                if pa < pb {
                    assert(prev.dir()[pa].0 != prev.dir()[pb].0);
                } else {
                    assert(prev.dir()[pb].0 != prev.dir()[pa].0);
                }
            }
            assert forall|a: int, b: int|
                0 <= a < self.dir().len() && 0 <= b < self.free_slots().len() implies (
            #[trigger] self.dir()[a]).1 != (#[trigger] self.free_slots()[b]) as int by {
                let pa: int = if a < i {
                    a
                } else {
                    a + 1
                };
                assert(self.dir()[a] == prev.dir()[pa]);
                if b < prev.free_slots().len() {
                    assert(self.free_slots()[b] == prev.free_slots()[b]);
                } else {
                    assert(self.free_slots()[b] == line);
                    assert(pa != i);
                    assert(prev.dir()[pa].1 != prev.dir()[i as int].1);
                }
            }
            assert forall|a: int, b: int|
                0 <= a < b < self.free_slots().len() implies (#[trigger] self.free_slots()[a]) != (
            #[trigger] self.free_slots()[b]) by {
                if b < prev.free_slots().len() {
                } else {
                    assert(self.free_slots()[a] == prev.free_slots()[a]);
                    assert(self.free_slots()[b] == line);
                    assert(prev.dir()[i as int].1 != prev.free_slots()[a] as int);
                }
            }
            assert(self.wf());
            assert(!self.dir_contains(*entity)) by {
                if self.dir_contains(*entity) {
                    let w = choose|w: int|
                        0 <= w < self.dir().len() && (#[trigger] self.dir()[w]).0 == *entity;
                    let pw: int = if w < i {
                        w
                    } else {
                        w + 1
                    };
                    assert(self.dir()[w] == prev.dir()[pw]);
                    prev.lemma_dir_unique(pw, *entity);
                    assert(pw == i);
                }
            }
            assert forall|e: Entity|
                e != *entity implies self.dir_contains(e) == prev.dir_contains(e) by {
                if prev.dir_contains(e) {
                    let w = choose|w: int|
                        0 <= w < prev.dir().len() && (#[trigger] prev.dir()[w]).0 == e;
                    assert(w != i);
                    if w < i {
                        assert(self.dir()[w].0 == e);
                    } else {
                        assert(self.dir()[w - 1] == prev.dir()[w]);
                    }
                }
                if self.dir_contains(e) {
                    let w = choose|w: int|
                        0 <= w < self.dir().len() && (#[trigger] self.dir()[w]).0 == e;
                    let pw: int = if w < i {
                        w
                    } else {
                        w + 1
                    };
                    assert(prev.dir()[pw].0 == e);
                }
            }
            assert forall|e: Entity, k: TypeId|
                e != *entity && prev.dir_contains(e) && prev.has_kind(k) implies self.value_at(e, k)
                == prev.value_at(e, k) by {
                let w = choose|w: int|
                    0 <= w < prev.dir().len() && (#[trigger] prev.dir()[w]).0 == e;
                assert(w != i);
                let cw: int = if w < i {
                    w
                } else {
                    w - 1
                };
                assert(self.dir()[cw] == prev.dir()[w]);
                self.lemma_dir_unique(cw, e);
                prev.lemma_dir_unique(w, e);
            }
        }
    }

    /// Writes an entity's value of one kind, overwriting the slot without
    /// dropping the prior occupant.
    pub fn insert_component(&mut self, entity: &Entity, kind: TypeId, bytes: &Vec<u8>) -> (r:
        Result<(), Error>)
        requires
            old(self).wf(),
            old(self).has_kind(kind) ==> bytes@.len() == old(self).info_of(kind).size,
        ensures
            final(self).wf(),
            final(self).infos() == old(self).infos(),
            match r {
                Ok(()) => {
                    &&& old(self).dir_contains(*entity)
                    &&& old(self).has_kind(kind)
                    &&& final(self).value_at(*entity, kind) == bytes@
                    &&& forall|e: Entity, k: TypeId|
                        old(self).dir_contains(e) && old(self).has_kind(k) && (e != *entity || k
                            != kind) ==> final(self).value_at(e, k) == old(self).value_at(e, k)
                    &&& forall|e: Entity|
                        final(self).dir_contains(e) == old(self).dir_contains(e)
                    &&& final(self).dir() == old(self).dir()
                    &&& final(self).rows() == old(self).rows()
                    &&& forall|k: TypeId|
                        old(self).has_kind(k) ==> final(self).drops_of(k) == old(self).drops_of(k)
                },
                Err(Error::NonExistingEntity) => !old(self).dir_contains(*entity) && *final(self)
                    == *old(self),
                Err(Error::TableDoesNotContainComponentColumn) => old(self).dir_contains(*entity)
                    && !old(self).has_kind(kind) && *final(self) == *old(self),
                _ => false,
            },
    {
        let line = match self.dir_search(entity) {
            Some(i) => self.entities[i].1,
            None => {
                return Err(Error::NonExistingEntity);
            },
        };
        let (col, found) = self.kind_search(kind);
        if !found {
            return Err(Error::TableDoesNotContainComponentColumn);
        }
        proof {
            assert(0 <= self.slot_of(*entity) < self.rows());
        }
        let column = &mut self.columns[col];
        column.overwrite_from_slice(line, bytes);
        proof {
            self.lemma_single_slot_update(*old(self), *entity, kind);
        }
        Ok(())
    }

    /// Reads an entity's value of one kind.
    pub fn get_component(&self, entity: &Entity, kind: TypeId) -> (r: Result<Vec<u8>, Error>)
        requires
            self.wf(),
        ensures
            match r {
                Ok(v) => self.dir_contains(*entity) && self.has_kind(kind) && v@ == self.value_at(
                    *entity,
                    kind,
                ) && v@.len() == self.info_of(kind).size,
                Err(Error::NonExistingEntity) => !self.dir_contains(*entity),
                Err(Error::TableDoesNotContainComponentColumn) => self.dir_contains(*entity)
                    && !self.has_kind(kind),
                _ => false,
            },
    {
        let line = match self.dir_search(entity) {
            Some(i) => self.entities[i].1,
            None => {
                return Err(Error::NonExistingEntity);
            },
        };
        let (col, found) = self.kind_search(kind);
        if !found {
            return Err(Error::TableDoesNotContainComponentColumn);
        }
        proof {
            assert(0 <= self.slot_of(*entity) < self.rows());
        }
        Ok(self.columns[col].get_as_byte_slice(line))
    }

    /// Invokes the kind's destructor on an entity's slot; the bytes stay.
    pub fn drop_component(&mut self, entity: &Entity, kind: TypeId) -> (r: Result<(), Error>)
        requires
            old(self).wf(),
            old(self).has_kind(kind) ==> old(self).drops_of(kind) < usize::MAX,
        ensures
            final(self).wf(),
            final(self).infos() == old(self).infos(),
            match r {
                Ok(()) => {
                    &&& old(self).dir_contains(*entity)
                    &&& old(self).has_kind(kind)
                    &&& final(self).drops_of(kind) == old(self).drops_of(kind) + if old(self).info_of(kind).has_drop {
                        1int
                    } else {
                        0int
                    }
                    &&& forall|e: Entity, k: TypeId|
                        old(self).dir_contains(e) && old(self).has_kind(k) ==> final(self).value_at(
                            e,
                            k,
                        ) == old(self).value_at(e, k)
                    &&& final(self).dir() == old(self).dir()
                    &&& final(self).rows() == old(self).rows()
                    &&& forall|k: TypeId|
                        k != kind && old(self).has_kind(k) ==> final(self).drops_of(k) == old(self).drops_of(k)
                },
                Err(Error::NonExistingEntity) => !old(self).dir_contains(*entity) && *final(self)
                    == *old(self),
                Err(Error::TableDoesNotContainComponentColumn) => old(self).dir_contains(*entity)
                    && !old(self).has_kind(kind) && *final(self) == *old(self),
                _ => false,
            },
    {
        let line = match self.dir_search(entity) {
            Some(i) => self.entities[i].1,
            None => {
                return Err(Error::NonExistingEntity);
            },
        };
        let (col, found) = self.kind_search(kind);
        if !found {
            return Err(Error::TableDoesNotContainComponentColumn);
        }
        proof {
            assert(0 <= self.slot_of(*entity) < self.rows());
        }
        let column = &mut self.columns[col];
        column.drop_at(line);
        proof {
            self.lemma_single_slot_update(*old(self), *entity, kind);
            assert forall|e: Entity, k: TypeId|
                old(self).dir_contains(e) && old(self).has_kind(k) implies self.value_at(e, k)
                == old(self).value_at(e, k) by {
                if e == *entity && k == kind {
                    assert(self.columns_view()[old(self).col_of(kind)].bytes() == old(self).columns_view()[old(self).col_of(kind)].bytes());
                }
            }
        }
        Ok(())
    }

    /// How often one kind's destructor has run in this table.
    pub fn drop_count(&self, kind: TypeId) -> (r: Option<usize>)
        requires
            self.wf(),
        ensures
            match r {
                Some(n) => self.has_kind(kind) && n as int == self.drops_of(kind),
                None => !self.has_kind(kind),
            },
    {
        let (col, found) = self.kind_search(kind);
        if found {
            Some(self.columns[col].drop_count())
        } else {
            None
        }
    }

    /// The kinds both tables store, ascending.
    pub fn intersection(&self, other: &Table) -> (r: Vec<TypeId>)
        requires
            self.wf(),
            other.wf(),
        ensures
            strictly_sorted(r@),
            forall|k: TypeId|
                #[trigger] r@.contains(k) <==> (self.has_kind(k) && other.has_kind(k)),
    {
        let mut r: Vec<TypeId> = Vec::new();
        let mut i: usize = 0;
        while i < self.infos.len()
            invariant
                self.wf(),
                other.wf(),
                i <= self.infos().len(),
                forall|a: int, b: int| 0 <= a < b < r@.len() ==> r@[a].0 < r@[b].0,
                forall|x: TypeId|
                    #[trigger] r@.contains(x) ==> exists|j: int|
                        0 <= j < i && (#[trigger] self.infos()[j]).id == x,
                forall|x: TypeId| r@.contains(x) ==> other.has_kind(x),
                forall|j: int|
                    0 <= j < i && other.has_kind((#[trigger] self.infos()[j]).id) ==> r@.contains(
                        self.infos()[j].id,
                    ),
            decreases self.infos().len() - i,
        {
            let k = self.infos[i].id;
            let (_, found) = other.kind_search(k);
            if found {
                let ghost r0 = r@;
                r.push(k);
                proof {
                    assert forall|a: int, b: int| 0 <= a < b < r@.len() implies r@[a].0
                        < r@[b].0 by {
                        if b == r0.len() {
                            assert(r0.contains(r0[a]));
                            let j = choose|j: int|
                                0 <= j < i && (#[trigger] self.infos()[j]).id == r0[a];
                            assert(self.kind_ids()[j].0 < self.kind_ids()[i as int].0);
                        } else {
                            assert(r@[a] == r0[a]);
                            assert(r@[b] == r0[b]);
                        }
                    }
                    assert forall|x: TypeId| #[trigger] r@.contains(x) implies exists|j: int|
                        0 <= j < i + 1 && (#[trigger] self.infos()[j]).id == x by {
                        let w = choose|w: int| 0 <= w < r@.len() && r@[w] == x;
                        if w < r0.len() {
                            assert(r0.contains(x)) by {
                                assert(r0[w] == x);
                            }
                        } else {
                            assert(self.infos()[i as int].id == x);
                        }
                    }
                    assert forall|x: TypeId| r@.contains(x) implies other.has_kind(x) by {
                        let w = choose|w: int| 0 <= w < r@.len() && r@[w] == x;
                        if w < r0.len() {
                            assert(r0.contains(x)) by {
                                assert(r0[w] == x);
                            }
                        }
                    }
                    assert forall|j: int|
                        0 <= j < i + 1 && other.has_kind(
                            (#[trigger] self.infos()[j]).id,
                        ) implies r@.contains(self.infos()[j].id) by {
                        if j < i {
                            assert(r0.contains(self.infos()[j].id));
                            let w = choose|w: int|
                                0 <= w < r0.len() && r0[w] == self.infos()[j].id;
                            assert(r@[w] == self.infos()[j].id);
                        } else {
                            assert(r@[r0.len() as int] == k);
                        }
                    }
                }
            } else {
                proof {
                    assert forall|j: int|
                        0 <= j < i + 1 && other.has_kind(
                            (#[trigger] self.infos()[j]).id,
                        ) implies r@.contains(self.infos()[j].id) by {}
                }
            }
            i = i + 1;
        }
        proof {
            assert forall|k: TypeId| #[trigger] r@.contains(k) implies (self.has_kind(k)
                && other.has_kind(k)) by {
                let j = choose|j: int|
                    0 <= j < self.infos().len() && (#[trigger] self.infos()[j]).id == k;
            }
            assert forall|k: TypeId| self.has_kind(k) && other.has_kind(k) implies #[trigger] r@
                .contains(k) by {
                let j = choose|j: int|
                    0 <= j < self.infos().len() && (#[trigger] self.infos()[j]).id == k;
            }
            assert(strictly_sorted(r@));
        }
        r
    }

    /// Byte-copies, for every kind both tables store, the other table's
    /// value of `entity` into this table's slot for `entity`.
    pub fn copy_line_from(&mut self, table: &Table, entity: &Entity) -> (r: Result<(), Error>)
        requires
            old(self).wf(),
            table.wf(),
            old(self).dir_contains(*entity),
            table.dir_contains(*entity),
            forall|k: TypeId|
                old(self).has_kind(k) && table.has_kind(k) ==> (#[trigger] old(self).info_of(
                    k,
                )).size == table.info_of(k).size,
        ensures
            final(self).wf(),
            final(self).infos() == old(self).infos(),
            r is Ok,
            forall|k: TypeId|
                old(self).has_kind(k) && table.has_kind(k) ==> final(self).value_at(*entity, k)
                    == table.value_at(*entity, k),
            forall|k: TypeId|
                old(self).has_kind(k) && !table.has_kind(k) ==> final(self).value_at(*entity, k)
                    == old(self).value_at(*entity, k),
            forall|e: Entity, k: TypeId|
                e != *entity && old(self).dir_contains(e) && old(self).has_kind(k) ==> final(self).value_at(e, k) == old(self).value_at(e, k),
            forall|e: Entity| final(self).dir_contains(e) == old(self).dir_contains(e),
            final(self).dir() == old(self).dir(),
            final(self).rows() == old(self).rows(),
            forall|k: TypeId|
                old(self).has_kind(k) ==> final(self).drops_of(k) == old(self).drops_of(k),
    {
        let shared = self.intersection(table);
        let ghost prev = *self;
        let mut m: usize = 0;
        while m < shared.len()
            invariant
                prev.wf(),
                table.wf(),
                prev.dir_contains(*entity),
                table.dir_contains(*entity),
                strictly_sorted(shared@),
                forall|k: TypeId|
                    #[trigger] shared@.contains(k) <==> (prev.has_kind(k) && table.has_kind(k)),
                forall|k: TypeId|
                    prev.has_kind(k) && table.has_kind(k) ==> (#[trigger] prev.info_of(k)).size
                        == table.info_of(k).size,
                m <= shared@.len(),
                self.wf(),
                self.infos() == prev.infos(),
                self.dir() == prev.dir(),
                self.rows() == prev.rows(),
                forall|e: Entity| self.dir_contains(e) == prev.dir_contains(e),
                forall|n: int|
                    0 <= n < m ==> self.value_at(*entity, #[trigger] shared@[n]) == table.value_at(
                        *entity,
                        shared@[n],
                    ),
                forall|k: TypeId|
                    prev.has_kind(k) && !shared@.subrange(0, m as int).contains(k)
                        ==> #[trigger] self.value_at(*entity, k) == prev.value_at(*entity, k),
                forall|e: Entity, k: TypeId|
                    e != *entity && prev.dir_contains(e) && prev.has_kind(k)
                        ==> #[trigger] self.value_at(e, k) == prev.value_at(e, k),
                forall|k: TypeId|
                    prev.has_kind(k) ==> #[trigger] self.drops_of(k) == prev.drops_of(k),
            decreases shared@.len() - m,
        {
            let k = shared[m];
            proof {
                assert(shared@.contains(k)) by {
                    assert(shared@[m as int] == k);
                }
            }
            let bytes = match table.get_component(entity, k) {
                Ok(v) => v,
                Err(_) => {
                    proof {
                        assert(false);
                    }
                    return Err(Error::TableDoesNotContainComponentColumn);
                },
            };
            let ghost before = *self;
            proof {
                assert(prev.has_kind(k) && table.has_kind(k));
                assert(prev.info_of(k).size == table.info_of(k).size);
                assert(self.has_kind(k));
                assert(self.info_of(k) == prev.info_of(k));
            }
            let r = self.insert_component(entity, k, &bytes);
            proof {
                if r is Err {
                    assert(false);
                }
                assert forall|n: int|
                    0 <= n < m + 1 implies self.value_at(*entity, #[trigger] shared@[n])
                    == table.value_at(*entity, shared@[n]) by {
                    if n < m {
                        if shared@[n] != k {
                            assert(before.value_at(*entity, shared@[n]) == table.value_at(
                                *entity,
                                shared@[n],
                            ));
                            assert(shared@.contains(shared@[n]));
                        }
                    }
                }
                assert forall|k2: TypeId|
                    prev.has_kind(k2) && !shared@.subrange(0, m as int + 1).contains(
                        k2,
                    ) implies #[trigger] self.value_at(*entity, k2) == prev.value_at(
                    *entity,
                    k2,
                ) by {
                    assert(k2 != k) by {
                        assert(shared@.subrange(0, m as int + 1)[m as int] == k);
                    }
                    assert(!shared@.subrange(0, m as int).contains(k2)) by {
                        if shared@.subrange(0, m as int).contains(k2) {
                            let w = choose|w: int|
                                0 <= w < m && shared@.subrange(0, m as int)[w] == k2;
                            assert(shared@.subrange(0, m as int + 1)[w] == k2);
                        }
                    }
                }
            }
            m = m + 1;
        }
        proof {
            assert forall|k: TypeId|
                prev.has_kind(k) && table.has_kind(k) implies self.value_at(*entity, k)
                == table.value_at(*entity, k) by {
                assert(shared@.contains(k));
                let n = choose|n: int| 0 <= n < shared@.len() && shared@[n] == k;
                assert(self.value_at(*entity, shared@[n]) == table.value_at(*entity, shared@[n]));
            }
            assert forall|k: TypeId|
                prev.has_kind(k) && !table.has_kind(k) implies self.value_at(*entity, k)
                == prev.value_at(*entity, k) by {
                assert(!shared@.contains(k));
                assert(shared@.subrange(0, shared@.len() as int) =~= shared@);
            }
        }
        Ok(())
    }
}

impl Table {
    /// One row per directory entry: the entity and, per requested kind,
    /// the bytes of its value.
    pub fn component_iter(&self, ids: &Vec<TypeId>) -> (r: Vec<Row>)
        requires
            self.wf(),
            forall|j: int| 0 <= j < ids@.len() ==> self.has_kind(#[trigger] ids@[j]),
        ensures
            r@.len() == self.dir().len(),
            forall|m: int|
                0 <= m < r@.len() ==> (#[trigger] r@[m]).entity == self.dir()[m].0
                    && self.dir_contains(r@[m].entity) && r@[m].values@.len() == ids@.len(),
            forall|m: int, j: int|
                0 <= m < r@.len() && 0 <= j < ids@.len() ==> (#[trigger] r@[m].values@[j])@
                    == self.value_at(r@[m].entity, ids@[j]),
            forall|m1: int, m2: int|
                0 <= m1 < m2 < r@.len() ==> (#[trigger] r@[m1]).entity != (
                #[trigger] r@[m2]).entity,
            forall|e: Entity|
                self.dir_contains(e) ==> exists|m: int| 0 <= m < r@.len() && (#[trigger] r@[m]).entity == e,
    {
        let mut cols: Vec<usize> = Vec::new();
        let mut j: usize = 0;
        while j < ids.len()
            invariant
                self.wf(),
                forall|i: int| 0 <= i < ids@.len() ==> self.has_kind(#[trigger] ids@[i]),
                j <= ids@.len(),
                cols@.len() == j,
                forall|i: int|
                    0 <= i < j ==> (#[trigger] cols@[i]) as int == self.col_of(ids@[i])
                        && (cols@[i] as int) < self.columns_view().len(),
            decreases ids@.len() - j,
        {
            let (c, found) = self.kind_search(ids[j]);
            proof {
                if !found {
                    assert(false);
                }
            }
            cols.push(c);
            j = j + 1;
        }
        let mut out: Vec<Row> = Vec::new();
        let mut m: usize = 0;
        while m < self.entities.len()
            invariant
                self.wf(),
                forall|i: int| 0 <= i < ids@.len() ==> self.has_kind(#[trigger] ids@[i]),
                cols@.len() == ids@.len(),
                forall|i: int|
                    0 <= i < ids@.len() ==> (#[trigger] cols@[i]) as int == self.col_of(ids@[i])
                        && (cols@[i] as int) < self.columns_view().len(),
                m <= self.dir().len(),
                out@.len() == m,
                forall|n: int|
                    0 <= n < m ==> (#[trigger] out@[n]).entity == self.dir()[n].0
                        && self.dir_contains(out@[n].entity) && out@[n].values@.len() == ids@.len(),
                forall|n: int, i: int|
                    0 <= n < m && 0 <= i < ids@.len() ==> (#[trigger] out@[n].values@[i])@
                        == self.value_at(out@[n].entity, ids@[i]),
            decreases self.dir().len() - m,
        {
            let entity = self.entities[m].0;
            let slot = self.entities[m].1;
            proof {
                self.lemma_dir_unique(m as int, entity);
                assert(self.slot_of(entity) == slot);
                assert(self.dir()[m as int].1 < self.rows());
            }
            let mut values: Vec<Vec<u8>> = Vec::new();
            let mut i: usize = 0;
            while i < cols.len()
                invariant
                    self.wf(),
                    forall|ii: int| 0 <= ii < ids@.len() ==> self.has_kind(#[trigger] ids@[ii]),
                    cols@.len() == ids@.len(),
                    forall|ii: int|
                        0 <= ii < ids@.len() ==> (#[trigger] cols@[ii]) as int == self.col_of(
                            ids@[ii],
                        ) && (cols@[ii] as int) < self.columns_view().len(),
                    i <= cols@.len(),
                    (slot as int) < self.rows(),
                    self.dir_contains(entity),
                    self.slot_of(entity) == slot,
                    values@.len() == i,
                    forall|ii: int|
                        0 <= ii < i ==> (#[trigger] values@[ii])@ == self.value_at(
                            entity,
                            ids@[ii],
                        ),
                decreases cols@.len() - i,
            {
                let v = self.columns[cols[i]].get_as_byte_slice(slot);
                values.push(v);
                i = i + 1;
            }
            out.push(Row { entity, values });
            m = m + 1;
        }
        proof {
            assert forall|m1: int, m2: int| 0 <= m1 < m2 < out@.len() implies (
            #[trigger] out@[m1]).entity != (#[trigger] out@[m2]).entity by {
                assert(self.dir()[m1].0 != self.dir()[m2].0);
            }
            assert forall|e: Entity| self.dir_contains(e) implies exists|n: int|
                0 <= n < out@.len() && (#[trigger] out@[n]).entity == e by {
                let w = choose|w: int| 0 <= w < self.dir().len() && (#[trigger] self.dir()[w]).0 == e;
                assert(out@[w].entity == e);
            }
        }
        out
    }
}

impl Table {
    /// Runs every kind's destructor on one entity's row; the bytes stay
    /// in place until the slot is reused.
    pub fn drop_row(&mut self, entity: &Entity)
        requires
            old(self).wf(),
            old(self).dir_contains(*entity),
            forall|k: TypeId|
                old(self).has_kind(k) ==> #[trigger] old(self).drops_of(k) < usize::MAX,
        ensures
            final(self).wf(),
            final(self).infos() == old(self).infos(),
            final(self).dir() == old(self).dir(),
            final(self).free_slots() == old(self).free_slots(),
            forall|e: Entity, k: TypeId|
                old(self).dir_contains(e) && old(self).has_kind(k) ==> final(self).value_at(e, k)
                    == old(self).value_at(e, k),
            forall|k: TypeId|
                old(self).has_kind(k) ==> #[trigger] final(self).drops_of(k) == old(self).drops_of(
                    k,
                ) + if old(self).info_of(k).has_drop {
                    1int
                } else {
                    0int
                },
    {
        let ghost prev = *self;
        let slot = match self.dir_search(entity) {
            Some(i) => self.entities[i].1,
            None => {
                proof {
                    assert(false);
                }
                return;
            },
        };
        proof {
            assert(0 <= prev.slot_of(*entity) < prev.rows());
        }
        let mut j: usize = 0;
        while j < self.columns.len()
            invariant
                prev.wf(),
                prev.dir_contains(*entity),
                forall|k: TypeId|
                    prev.has_kind(k) ==> #[trigger] prev.drops_of(k) < usize::MAX,
                (slot as int) == prev.slot_of(*entity),
                0 <= prev.slot_of(*entity) < prev.rows(),
                j <= self.columns@.len(),
                self.infos == prev.infos,
                self.entities == prev.entities,
                self.empty_lines == prev.empty_lines,
                self.columns@.len() == prev.columns_view().len(),
                forall|i: int|
                    j <= i < self.columns@.len() ==> (#[trigger] self.columns@[i])
                        == prev.columns_view()[i],
                forall|i: int|
                    0 <= i < j ==> (#[trigger] self.columns@[i]).wf() && self.columns@[i].bytes()
                        == prev.columns_view()[i].bytes() && self.columns@[i].spec_stride()
                        == prev.columns_view()[i].spec_stride()
                        && self.columns@[i].spec_has_drop()
                        == prev.columns_view()[i].spec_has_drop()
                        && self.columns@[i].spec_len() == prev.columns_view()[i].spec_len()
                        && self.columns@[i].spec_drops() == prev.columns_view()[i].spec_drops()
                        + if prev.columns_view()[i].spec_has_drop() {
                        1int
                    } else {
                        0int
                    },
            decreases self.columns@.len() - j,
        {
            proof {
                assert(prev.columns_view()[j as int].spec_drops() < usize::MAX) by {
                    let k = prev.infos()[j as int].id;
                    prev.lemma_col_unique(j as int, k);
                    assert(prev.has_kind(k));
                    assert(prev.drops_of(k) < usize::MAX);
                }
            }
            let column = &mut self.columns[j];
            column.drop_at(slot);
            j = j + 1;
        }
        proof {
            assert forall|e: Entity, k: TypeId|
                prev.dir_contains(e) && prev.has_kind(k) implies self.value_at(e, k)
                == prev.value_at(e, k) by {
                let c = prev.col_of(k);
                assert(self.columns_view()[c].bytes() == prev.columns_view()[c].bytes());
                assert(self.columns_view()[c].spec_stride()
                    == prev.columns_view()[c].spec_stride());
            }
            assert forall|k: TypeId| prev.has_kind(k) implies #[trigger] self.drops_of(k)
                == prev.drops_of(k) + if prev.info_of(k).has_drop {
                1int
            } else {
                0int
            } by {
                let c = prev.col_of(k);
                assert(prev.columns_view()[c].spec_has_drop() == prev.infos()[c].has_drop);
            }
            assert(self.wf());
        }
    }
}

impl TableStorage {
    /// Destroys an entity's row in one table: every kind's destructor
    /// runs once and the slot is queued for reuse.
    pub fn remove_entity(&mut self, table_id: TableId, entity: &Entity) -> (r: Result<(), Error>)
        requires
            old(self).wf(),
            old(self).spec_contains(table_id) ==> {
                let t = old(self).spec_table(table_id);
                t.dir_contains(*entity) && (forall|k: TypeId|
                    t.has_kind(k) ==> #[trigger] t.drops_of(k) < usize::MAX)
            },
        ensures
            final(self).wf(),
            match r {
                Ok(()) => {
                    let t0 = old(self).spec_table(table_id);
                    let t1 = final(self).spec_table(table_id);
                    &&& old(self).spec_contains(table_id)
                    &&& t1.infos() == t0.infos()
                    &&& !t1.dir_contains(*entity)
                    &&& t1.dir().len() == t0.dir().len() - 1
                    &&& forall|e: Entity|
                        e != *entity ==> t1.dir_contains(e) == t0.dir_contains(e)
                    &&& forall|e: Entity, k: TypeId|
                        e != *entity && t0.dir_contains(e) && t0.has_kind(k) ==> t1.value_at(e, k)
                            == t0.value_at(e, k)
                    &&& forall|k: TypeId|
                        t0.has_kind(k) ==> #[trigger] t1.drops_of(k) == t0.drops_of(k) + if t0.info_of(
                            k,
                        ).has_drop {
                            1int
                        } else {
                            0int
                        }
                    &&& forall|t2: TableId|
                        final(self).spec_contains(t2) == old(self).spec_contains(t2)
                    &&& forall|t2: TableId|
                        t2 != table_id && old(self).spec_contains(t2) ==> final(self).spec_table(
                            t2,
                        ) == old(self).spec_table(t2)
                },
                Err(e) => e == Error::TableDoesNotExist && !old(self).spec_contains(table_id)
                    && forall|t2: TableId|
                    final(self).spec_contains(t2) == old(self).spec_contains(t2) && (old(
                        self,
                    ).spec_contains(t2) ==> final(self).spec_table(t2) == old(self).spec_table(t2)),
            },
    {
        match self.tables.take(table_id.0) {
            Some(mut table) => {
                table.drop_row(entity);
                table.remove_entity(entity);
                self.tables.put(table_id.0, table);
                proof {
                    assert forall|t2: int| self.tables.spec_contains(t2) implies (
                    #[trigger] self.tables.spec_at(t2)).wf() by {
                        if t2 != table_id.0 {
                            assert(old(self).tables.spec_at(t2) == self.tables.spec_at(t2));
                        }
                    }
                }
                Ok(())
            },
            None => Err(Error::TableDoesNotExist),
        }
    }
}

impl Table {
    /// Every column of a well-formed table holds one slot per live row
    /// plus one per free slot.
    pub proof fn lemma_column_lengths(self, j: int)
        requires
            self.wf(),
            0 <= j < self.columns_view().len(),
        ensures
            self.columns_view()[j].spec_len() == self.dir().len() + self.free_slots().len(),
    {
    }
}

impl Default for Table {
    fn default() -> (r: Table)
        ensures
            r.wf(),
            r.infos().len() == 0,
            r.dir().len() == 0,
            r.free_slots().len() == 0,
            forall|e: Entity| !r.dir_contains(e),
    {
        let empty = ArchetypeInfo::new();
        Table::new(&empty)
    }
}

impl Default for TableStorage {
    fn default() -> (r: TableStorage)
        ensures
            r.wf(),
            forall|t: TableId| !r.spec_contains(t),
    {
        TableStorage::new()
    }
}

/// The live row count summed over a list of tables.
pub open spec fn rows_of(storage: TableStorage, tids: Seq<TableId>) -> int
    decreases tids.len(),
{
    if tids.len() == 0 {
        0
    } else {
        storage.spec_table(tids[0]).dir().len() + rows_of(storage, tids.drop_first())
    }
}

/// The storage that owns every table, keyed by table identifier.
#[derive(Debug)]
pub struct TableStorage {
    tables: SparseSet<Table>,
}

impl TableStorage {
    pub closed spec fn spec_contains(self, t: TableId) -> bool {
        self.tables.spec_contains(t.0 as int)
    }

    pub closed spec fn spec_table(self, t: TableId) -> Table
        recommends
            self.spec_contains(t),
    {
        self.tables.spec_at(t.0 as int)
    }

    pub closed spec fn wf(self) -> bool {
        &&& self.tables.wf()
        &&& forall|t: int|
            self.tables.spec_contains(t) ==> (#[trigger] self.tables.spec_at(t)).wf()
    }

    /// Every stored table is well formed.
    pub proof fn lemma_table_wf(self, t: TableId)
        requires
            self.wf(),
            self.spec_contains(t),
        ensures
            self.spec_table(t).wf(),
    {
    }

    pub fn new() -> (r: TableStorage)
        ensures
            r.wf(),
            forall|t: TableId| !r.spec_contains(t),
    {
        TableStorage { tables: SparseSet::new() }
    }

    /// Creates an empty table for one archetype and hands back its
    /// identifier.
    pub fn new_table(&mut self, archetype_info: &ArchetypeInfo) -> (t: TableId)
        requires
            old(self).wf(),
            archetype_info.wf(),
        ensures
            final(self).wf(),
            !old(self).spec_contains(t),
            final(self).spec_contains(t),
            final(self).spec_table(t).infos() == archetype_info.infos(),
            final(self).spec_table(t).dir().len() == 0,
            final(self).spec_table(t).free_slots().len() == 0,
            forall|e: Entity| !final(self).spec_table(t).dir_contains(e),
            forall|k: TypeId|
                final(self).spec_table(t).has_kind(k) ==> final(self).spec_table(t).drops_of(k)
                    == 0,
            forall|t2: TableId|
                t2 != t ==> final(self).spec_contains(t2) == old(self).spec_contains(t2),
            forall|t2: TableId|
                t2 != t && old(self).spec_contains(t2) ==> final(self).spec_table(t2) == old(self).spec_table(t2),
    {
        let table = Table::new(archetype_info);
        let id = self.tables.insert(table);
        proof {
            assert forall|t2: int| self.tables.spec_contains(t2) implies (
            #[trigger] self.tables.spec_at(t2)).wf() by {
                if t2 != id {
                    assert(old(self).tables.spec_at(t2) == self.tables.spec_at(t2));
                }
            }
        }
        TableId(id)
    }

    /// Assigns a slot for an entity in one table.
    pub fn add_entity(&mut self, table_id: TableId, entity: Entity) -> (r: Result<(), Error>)
        requires
            old(self).wf(),
            old(self).spec_contains(table_id) ==> !old(self).spec_table(table_id).dir_contains(
                entity,
            ),
        ensures
            final(self).wf(),
            match r {
                Ok(()) => {
                    &&& old(self).spec_contains(table_id)
                    &&& final(self).spec_table(table_id).dir_contains(entity)
                    &&& final(self).spec_table(table_id).infos() == old(self).spec_table(
                        table_id,
                    ).infos()
                    &&& final(self).spec_table(table_id).dir().len() == old(self).spec_table(
                        table_id,
                    ).dir().len() + 1
                    &&& forall|e: Entity|
                        e != entity ==> final(self).spec_table(table_id).dir_contains(e) == old(self).spec_table(table_id).dir_contains(e)
                    &&& forall|e: Entity, k: TypeId|
                        e != entity && old(self).spec_table(table_id).dir_contains(e) && old(self).spec_table(table_id).has_kind(k) ==> final(self).spec_table(
                            table_id,
                        ).value_at(e, k) == old(self).spec_table(table_id).value_at(e, k)
                    &&& forall|k: TypeId|
                        old(self).spec_table(table_id).has_kind(k) ==> final(self).spec_table(
                            table_id,
                        ).drops_of(k) == old(self).spec_table(table_id).drops_of(k)
                    &&& forall|t2: TableId|
                        final(self).spec_contains(t2) == old(self).spec_contains(t2)
                    &&& forall|t2: TableId|
                        t2 != table_id && old(self).spec_contains(t2) ==> final(self).spec_table(
                            t2,
                        ) == old(self).spec_table(t2)
                },
                Err(e) => e == Error::TableDoesNotExist && !old(self).spec_contains(table_id)
                    && forall|t2: TableId|
                    final(self).spec_contains(t2) == old(self).spec_contains(t2) && (old(self).spec_contains(t2) ==> final(self).spec_table(t2) == old(self).spec_table(t2)),
            },
    {
        match self.tables.take(table_id.0) {
            Some(mut table) => {
                table.add_entity(entity);
                self.tables.put(table_id.0, table);
                proof {
                    assert forall|t2: int| self.tables.spec_contains(t2) implies (
                    #[trigger] self.tables.spec_at(t2)).wf() by {
                        if t2 != table_id.0 {
                            assert(old(self).tables.spec_at(t2) == self.tables.spec_at(t2));
                        }
                    }
                }
                Ok(())
            },
            None => Err(Error::TableDoesNotExist),
        }
    }

    /// Writes an entity's value of one kind in one table.
    pub fn insert_component(
        &mut self,
        table_id: TableId,
        entity: &Entity,
        kind: TypeId,
        bytes: &Vec<u8>,
    ) -> (r: Result<(), Error>)
        requires
            old(self).wf(),
            old(self).spec_contains(table_id) && old(self).spec_table(table_id).has_kind(kind)
                ==> bytes@.len() == old(self).spec_table(table_id).info_of(kind).size,
        ensures
            final(self).wf(),
            match r {
                Ok(()) => {
                    &&& old(self).spec_contains(table_id)
                    &&& old(self).spec_table(table_id).dir_contains(*entity)
                    &&& old(self).spec_table(table_id).has_kind(kind)
                    &&& final(self).spec_table(table_id).value_at(*entity, kind) == bytes@
                    &&& final(self).spec_table(table_id).infos() == old(self).spec_table(
                        table_id,
                    ).infos()
                    &&& final(self).spec_table(table_id).dir() == old(self).spec_table(
                        table_id,
                    ).dir()
                    &&& forall|e: Entity, k: TypeId|
                        old(self).spec_table(table_id).dir_contains(e) && old(self).spec_table(
                            table_id,
                        ).has_kind(k) && (e != *entity || k != kind) ==> final(self).spec_table(
                            table_id,
                        ).value_at(e, k) == old(self).spec_table(table_id).value_at(e, k)
                    &&& forall|k: TypeId|
                        old(self).spec_table(table_id).has_kind(k) ==> final(self).spec_table(
                            table_id,
                        ).drops_of(k) == old(self).spec_table(table_id).drops_of(k)
                    &&& forall|t2: TableId|
                        final(self).spec_contains(t2) == old(self).spec_contains(t2)
                    &&& forall|t2: TableId|
                        t2 != table_id && old(self).spec_contains(t2) ==> final(self).spec_table(
                            t2,
                        ) == old(self).spec_table(t2)
                },
                Err(e) => {
                    &&& (e == Error::TableDoesNotExist ==> !old(self).spec_contains(table_id))
                    &&& (e == Error::NonExistingEntity ==> old(self).spec_contains(table_id)
                        && !old(self).spec_table(table_id).dir_contains(*entity))
                    &&& (e == Error::TableDoesNotContainComponentColumn ==> old(self).spec_contains(table_id) && !old(self).spec_table(table_id).has_kind(kind))
                    &&& (e == Error::TableDoesNotExist || e == Error::NonExistingEntity || e
                        == Error::TableDoesNotContainComponentColumn)
                    &&& forall|t2: TableId|
                        final(self).spec_contains(t2) == old(self).spec_contains(t2) && (old(self).spec_contains(t2) ==> final(self).spec_table(t2) == old(self).spec_table(
                            t2,
                        ))
                },
            },
    {
        match self.tables.take(table_id.0) {
            Some(mut table) => {
                let r = table.insert_component(entity, kind, bytes);
                self.tables.put(table_id.0, table);
                proof {
                    assert forall|t2: int| self.tables.spec_contains(t2) implies (
                    #[trigger] self.tables.spec_at(t2)).wf() by {
                        if t2 != table_id.0 {
                            assert(old(self).tables.spec_at(t2) == self.tables.spec_at(t2));
                        }
                    }
                }
                r
            },
            None => Err(Error::TableDoesNotExist),
        }
    }

    /// Reads an entity's value of one kind from one table.
    pub fn get_component(&self, table_id: TableId, entity: &Entity, kind: TypeId) -> (r: Result<
        Vec<u8>,
        Error,
    >)
        requires
            self.wf(),
        ensures
            match r {
                Ok(v) => {
                    &&& self.spec_contains(table_id)
                    &&& self.spec_table(table_id).dir_contains(*entity)
                    &&& self.spec_table(table_id).has_kind(kind)
                    &&& v@ == self.spec_table(table_id).value_at(*entity, kind)
                    &&& v@.len() == self.spec_table(table_id).info_of(kind).size
                },
                Err(e) => {
                    &&& (e == Error::TableDoesNotExist ==> !self.spec_contains(table_id))
                    &&& (e == Error::NonExistingEntity ==> self.spec_contains(table_id)
                        && !self.spec_table(table_id).dir_contains(*entity))
                    &&& (e == Error::TableDoesNotContainComponentColumn ==> self.spec_contains(
                        table_id,
                    ) && !self.spec_table(table_id).has_kind(kind))
                    &&& (e == Error::TableDoesNotExist || e == Error::NonExistingEntity || e
                        == Error::TableDoesNotContainComponentColumn)
                },
            },
    {
        match self.tables.get(table_id.0) {
            Some(table) => table.get_component(entity, kind),
            None => Err(Error::TableDoesNotExist),
        }
    }

    /// Moves an entity's row from one table to another that stores one
    /// kind more, and writes the new kind's value.  Nothing is dropped:
    /// the fresh slot had no live occupant.
    pub fn transfer_line_with_insertion(
        &mut self,
        from: TableId,
        to: TableId,
        entity: Entity,
        kind: TypeId,
        bytes: &Vec<u8>,
    ) -> (r: Result<(), Error>)
        requires
            old(self).wf(),
            from.0 != to.0 && old(self).spec_contains(from) && old(self).spec_contains(to) ==> {
                let f = old(self).spec_table(from);
                let t = old(self).spec_table(to);
                &&& f.dir_contains(entity)
                &&& !t.dir_contains(entity)
                &&& t.has_kind(kind)
                &&& bytes@.len() == t.info_of(kind).size
                &&& forall|k: TypeId|
                    f.has_kind(k) && t.has_kind(k) ==> (#[trigger] f.info_of(k)).size
                        == t.info_of(k).size
            },
        ensures
            final(self).wf(),
            match r {
                Ok(()) => {
                    let f0 = old(self).spec_table(from);
                    let t0 = old(self).spec_table(to);
                    let f1 = final(self).spec_table(from);
                    let t1 = final(self).spec_table(to);
                    &&& from.0 != to.0
                    &&& old(self).spec_contains(from)
                    &&& old(self).spec_contains(to)
                    &&& f1.infos() == f0.infos()
                    &&& t1.infos() == t0.infos()
                    &&& !f1.dir_contains(entity)
                    &&& t1.dir_contains(entity)
                    &&& f1.dir().len() == f0.dir().len() - 1
                    &&& t1.dir().len() == t0.dir().len() + 1
                    &&& forall|e: Entity|
                        e != entity ==> f1.dir_contains(e) == f0.dir_contains(e)
                    &&& forall|e: Entity|
                        e != entity ==> t1.dir_contains(e) == t0.dir_contains(e)
                    &&& forall|e: Entity, k: TypeId|
                        e != entity && f0.dir_contains(e) && f0.has_kind(k) ==> f1.value_at(e, k)
                            == f0.value_at(e, k)
                    &&& forall|e: Entity, k: TypeId|
                        e != entity && t0.dir_contains(e) && t0.has_kind(k) ==> t1.value_at(e, k)
                            == t0.value_at(e, k)
                    &&& t1.value_at(entity, kind) == bytes@
                    &&& forall|k: TypeId|
                        k != kind && t0.has_kind(k) && f0.has_kind(k) ==> t1.value_at(entity, k)
                            == f0.value_at(entity, k)
                    &&& forall|k: TypeId| f0.has_kind(k) ==> f1.drops_of(k) == f0.drops_of(k)
                    &&& forall|k: TypeId| t0.has_kind(k) ==> t1.drops_of(k) == t0.drops_of(k)
                    &&& forall|t2: TableId|
                        final(self).spec_contains(t2) == old(self).spec_contains(t2)
                    &&& forall|t2: TableId|
                        t2 != from && t2 != to && old(self).spec_contains(t2) ==> final(self).spec_table(t2) == old(self).spec_table(t2)
                },
                Err(e) => e == Error::NonExistingTable && (from.0 == to.0 || !old(self).spec_contains(from) || !old(self).spec_contains(to)) && forall|t2: TableId|
                    final(self).spec_contains(t2) == old(self).spec_contains(t2) && (old(self).spec_contains(t2) ==> final(self).spec_table(t2) == old(self).spec_table(t2)),
            },
    {
        if from.0 == to.0 {
            return Err(Error::NonExistingTable);
        }
        let mut from_table = match self.tables.take(from.0) {
            Some(t) => t,
            None => {
                return Err(Error::NonExistingTable);
            },
        };
        let mut to_table = match self.tables.take(to.0) {
            Some(t) => t,
            None => {
                self.tables.put(from.0, from_table);
                proof {
                    assert forall|t2: int| self.tables.spec_contains(t2) implies (
                    #[trigger] self.tables.spec_at(t2)).wf() by {
                        if t2 != from.0 {
                            assert(old(self).tables.spec_at(t2) == self.tables.spec_at(t2));
                        } else {
                            assert(self.tables.spec_at(t2) == old(self).tables.spec_at(t2));
                        }
                    }
                }
                return Err(Error::NonExistingTable);
            },
        };
        to_table.add_entity(entity);
        let r1 = to_table.copy_line_from(&from_table, &entity);
        let r2 = to_table.insert_component(&entity, kind, bytes);
        proof {
            if r2 is Err {
                assert(false);
            }
        }
        from_table.remove_entity(&entity);
        self.tables.put(from.0, from_table);
        self.tables.put(to.0, to_table);
        proof {
            assert forall|t2: int| self.tables.spec_contains(t2) implies (
            #[trigger] self.tables.spec_at(t2)).wf() by {
                if t2 != from.0 && t2 != to.0 {
                    assert(old(self).tables.spec_at(t2) == self.tables.spec_at(t2));
                }
            }
        }
        Ok(())
    }

    /// Moves an entity's row to a table that stores one kind less; the
    /// dropped kind's destructor runs once on the source slot.
    pub fn transfer_line_with_deletion(
        &mut self,
        from: TableId,
        to: TableId,
        entity: Entity,
        kind: TypeId,
    ) -> (r: Result<(), Error>)
        requires
            old(self).wf(),
            from.0 != to.0 && old(self).spec_contains(from) && old(self).spec_contains(to) ==> {
                let f = old(self).spec_table(from);
                let t = old(self).spec_table(to);
                &&& f.dir_contains(entity)
                &&& !t.dir_contains(entity)
                &&& f.has_kind(kind)
                &&& f.drops_of(kind) < usize::MAX
                &&& forall|k: TypeId|
                    f.has_kind(k) && t.has_kind(k) ==> (#[trigger] f.info_of(k)).size
                        == t.info_of(k).size
            },
        ensures
            final(self).wf(),
            match r {
                Ok(()) => {
                    let f0 = old(self).spec_table(from);
                    let t0 = old(self).spec_table(to);
                    let f1 = final(self).spec_table(from);
                    let t1 = final(self).spec_table(to);
                    &&& from.0 != to.0
                    &&& old(self).spec_contains(from)
                    &&& old(self).spec_contains(to)
                    &&& f1.infos() == f0.infos()
                    &&& t1.infos() == t0.infos()
                    &&& !f1.dir_contains(entity)
                    &&& t1.dir_contains(entity)
                    &&& f1.dir().len() == f0.dir().len() - 1
                    &&& t1.dir().len() == t0.dir().len() + 1
                    &&& forall|e: Entity|
                        e != entity ==> f1.dir_contains(e) == f0.dir_contains(e)
                    &&& forall|e: Entity|
                        e != entity ==> t1.dir_contains(e) == t0.dir_contains(e)
                    &&& forall|e: Entity, k: TypeId|
                        e != entity && f0.dir_contains(e) && f0.has_kind(k) ==> f1.value_at(e, k)
                            == f0.value_at(e, k)
                    &&& forall|e: Entity, k: TypeId|
                        e != entity && t0.dir_contains(e) && t0.has_kind(k) ==> t1.value_at(e, k)
                            == t0.value_at(e, k)
                    &&& forall|k: TypeId|
                        t0.has_kind(k) && f0.has_kind(k) ==> t1.value_at(entity, k) == f0.value_at(
                            entity,
                            k,
                        )
                    &&& f1.drops_of(kind) == f0.drops_of(kind) + if f0.info_of(kind).has_drop {
                        1int
                    } else {
                        0int
                    }
                    &&& forall|k: TypeId|
                        k != kind && f0.has_kind(k) ==> f1.drops_of(k) == f0.drops_of(k)
                    &&& forall|k: TypeId| t0.has_kind(k) ==> t1.drops_of(k) == t0.drops_of(k)
                    &&& forall|t2: TableId|
                        final(self).spec_contains(t2) == old(self).spec_contains(t2)
                    &&& forall|t2: TableId|
                        t2 != from && t2 != to && old(self).spec_contains(t2) ==> final(self).spec_table(t2) == old(self).spec_table(t2)
                },
                Err(e) => e == Error::NonExistingTable && (from.0 == to.0 || !old(self).spec_contains(from) || !old(self).spec_contains(to)) && forall|t2: TableId|
                    final(self).spec_contains(t2) == old(self).spec_contains(t2) && (old(self).spec_contains(t2) ==> final(self).spec_table(t2) == old(self).spec_table(t2)),
            },
    {
        if from.0 == to.0 {
            return Err(Error::NonExistingTable);
        }
        let mut from_table = match self.tables.take(from.0) {
            Some(t) => t,
            None => {
                return Err(Error::NonExistingTable);
            },
        };
        let mut to_table = match self.tables.take(to.0) {
            Some(t) => t,
            None => {
                self.tables.put(from.0, from_table);
                proof {
                    assert forall|t2: int| self.tables.spec_contains(t2) implies (
                    #[trigger] self.tables.spec_at(t2)).wf() by {
                        if t2 != from.0 {
                            assert(old(self).tables.spec_at(t2) == self.tables.spec_at(t2));
                        } else {
                            assert(self.tables.spec_at(t2) == old(self).tables.spec_at(t2));
                        }
                    }
                }
                return Err(Error::NonExistingTable);
            },
        };
        to_table.add_entity(entity);
        let r1 = to_table.copy_line_from(&from_table, &entity);
        let r2 = from_table.drop_component(&entity, kind);
        proof {
            if r2 is Err {
                assert(false);
            }
        }
        from_table.remove_entity(&entity);
        self.tables.put(from.0, from_table);
        self.tables.put(to.0, to_table);
        proof {
            assert forall|t2: int| self.tables.spec_contains(t2) implies (
            #[trigger] self.tables.spec_at(t2)).wf() by {
                if t2 != from.0 && t2 != to.0 {
                    assert(old(self).tables.spec_at(t2) == self.tables.spec_at(t2));
                }
            }
        }
        Ok(())
    }

    /// The rows of the given tables, one row per live entity, holding
    /// the bytes of each requested kind.
    pub fn query(&self, ids: &Vec<TypeId>, table_ids: &Vec<TableId>) -> (r: Vec<Row>)
        requires
            self.wf(),
            forall|i: int|
                0 <= i < table_ids@.len() ==> self.spec_contains(#[trigger] table_ids@[i]),
            forall|i: int, j: int|
                0 <= i < table_ids@.len() && 0 <= j < ids@.len() ==> self.spec_table(
                    #[trigger] table_ids@[i],
                ).has_kind(#[trigger] ids@[j]),
            forall|i1: int, i2: int, e: Entity|
                0 <= i1 < i2 < table_ids@.len() ==> !((#[trigger] self.spec_table(
                    table_ids@[i1],
                ).dir_contains(e)) && (#[trigger] self.spec_table(table_ids@[i2]).dir_contains(
                    e,
                ))),
        ensures
            r@.len() == rows_of(*self, table_ids@),
            forall|m: int|
                0 <= m < r@.len() ==> exists|i: int|
                    0 <= i < table_ids@.len() && (#[trigger] r@[m]).values@.len() == ids@.len()
                        && self.spec_table(#[trigger] table_ids@[i]).dir_contains(r@[m].entity) && (
                    forall|j: int|
                        0 <= j < ids@.len() ==> (#[trigger] r@[m].values@[j])@ == self.spec_table(
                            table_ids@[i],
                        ).value_at(r@[m].entity, ids@[j])),
            forall|i: int, e: Entity|
                0 <= i < table_ids@.len() && (#[trigger] self.spec_table(
                    table_ids@[i],
                ).dir_contains(e)) ==> exists|m: int|
                    0 <= m < r@.len() && (#[trigger] r@[m]).entity == e,
            forall|m1: int, m2: int|
                0 <= m1 < m2 < r@.len() ==> (#[trigger] r@[m1]).entity != (
                #[trigger] r@[m2]).entity,
    {
        let mut out: Vec<Row> = Vec::new();
        let mut i: usize = 0;
        proof {
            assert(table_ids@.skip(0) =~= table_ids@);
        }
        while i < table_ids.len()
            invariant
                self.wf(),
                forall|ii: int|
                    0 <= ii < table_ids@.len() ==> self.spec_contains(#[trigger] table_ids@[ii]),
                forall|ii: int, j: int|
                    0 <= ii < table_ids@.len() && 0 <= j < ids@.len() ==> self.spec_table(
                        #[trigger] table_ids@[ii],
                    ).has_kind(#[trigger] ids@[j]),
                forall|i1: int, i2: int, e: Entity|
                    0 <= i1 < i2 < table_ids@.len() ==> !((#[trigger] self.spec_table(
                        table_ids@[i1],
                    ).dir_contains(e)) && (#[trigger] self.spec_table(table_ids@[i2]).dir_contains(
                        e,
                    ))),
                i <= table_ids@.len(),
                out@.len() + rows_of(*self, table_ids@.skip(i as int)) == rows_of(
                    *self,
                    table_ids@,
                ),
                forall|m: int|
                    0 <= m < out@.len() ==> exists|ii: int|
                        0 <= ii < i && (#[trigger] out@[m]).values@.len() == ids@.len()
                            && self.spec_table(#[trigger] table_ids@[ii]).dir_contains(
                            out@[m].entity,
                        ) && (forall|j: int|
                            0 <= j < ids@.len() ==> (#[trigger] out@[m].values@[j])@
                                == self.spec_table(table_ids@[ii]).value_at(
                                out@[m].entity,
                                ids@[j],
                            )),
                forall|ii: int, e: Entity|
                    0 <= ii < i && (#[trigger] self.spec_table(table_ids@[ii]).dir_contains(e))
                        ==> exists|m: int|
                        0 <= m < out@.len() && (#[trigger] out@[m]).entity == e,
                forall|m1: int, m2: int|
                    0 <= m1 < m2 < out@.len() ==> (#[trigger] out@[m1]).entity != (
                    #[trigger] out@[m2]).entity,
            decreases table_ids@.len() - i,
        {
            let tid = table_ids[i];
            let table = match self.tables.get(tid.0) {
                Some(t) => t,
                None => {
                    proof {
                        assert(false);
                    }
                    return out;
                },
            };
            proof {
                assert(*table == self.spec_table(tid));
                self.lemma_table_wf(tid);
                assert(table_ids@.skip(i as int)[0] == table_ids@[i as int]);
                assert(table_ids@.skip(i as int).drop_first() =~= table_ids@.skip(i as int + 1));
            }
            let ghost out0 = out@;
            let mut part = table.component_iter(ids);
            let ghost part0 = part@;
            out.append(&mut part);
            proof {
                assert(out@ == out0 + part0);
                assert forall|m: int| 0 <= m < out@.len() implies exists|ii: int|
                    0 <= ii < i + 1 && (#[trigger] out@[m]).values@.len() == ids@.len()
                        && self.spec_table(#[trigger] table_ids@[ii]).dir_contains(out@[m].entity)
                        && (forall|j: int|
                        0 <= j < ids@.len() ==> (#[trigger] out@[m].values@[j])@ == self.spec_table(
                            table_ids@[ii],
                        ).value_at(out@[m].entity, ids@[j])) by {
                    if m < out0.len() {
                        assert(out@[m] == out0[m]);
                        let ii = choose|ii: int|
                            0 <= ii < i && (#[trigger] out0[m]).values@.len() == ids@.len()
                                && self.spec_table(#[trigger] table_ids@[ii]).dir_contains(
                                out0[m].entity,
                            ) && (forall|j: int|
                                0 <= j < ids@.len() ==> (#[trigger] out0[m].values@[j])@
                                    == self.spec_table(table_ids@[ii]).value_at(
                                    out0[m].entity,
                                    ids@[j],
                                ));
                        assert(0 <= ii < i + 1 && (out@[m]).values@.len() == ids@.len()
                            && self.spec_table(table_ids@[ii]).dir_contains(out@[m].entity) && (
                        forall|j: int|
                            0 <= j < ids@.len() ==> (#[trigger] out@[m].values@[j])@
                                == self.spec_table(table_ids@[ii]).value_at(
                                out@[m].entity,
                                ids@[j],
                            )));
                    } else {
                        assert(out@[m] == part0[m - out0.len()]);
                        let ii = i as int;
                        assert(part0[m - out0.len()].entity == table.dir()[m - out0.len()].0);
                        assert(0 <= ii < i + 1 && (out@[m]).values@.len() == ids@.len()
                            && self.spec_table(table_ids@[ii]).dir_contains(out@[m].entity) && (
                        forall|j: int|
                            0 <= j < ids@.len() ==> (#[trigger] out@[m].values@[j])@
                                == self.spec_table(table_ids@[ii]).value_at(
                                out@[m].entity,
                                ids@[j],
                            )));
                    }
                }
                assert forall|ii: int, e: Entity|
                    0 <= ii < i + 1 && (#[trigger] self.spec_table(table_ids@[ii]).dir_contains(
                        e,
                    )) implies exists|m: int|
                    0 <= m < out@.len() && (#[trigger] out@[m]).entity == e by {
                    if ii < i {
                        let m = choose|m: int|
                            0 <= m < out0.len() && (#[trigger] out0[m]).entity == e;
                        assert(out@[m].entity == e);
                    } else {
                        let m = choose|m: int|
                            0 <= m < part0.len() && (#[trigger] part0[m]).entity == e;
                        assert(out@[out0.len() + m].entity == e);
                    }
                }
                assert forall|m1: int, m2: int| 0 <= m1 < m2 < out@.len() implies (
                #[trigger] out@[m1]).entity != (#[trigger] out@[m2]).entity by {
                    if m1 < out0.len() && m2 >= out0.len() {
                        let e1 = out0[m1].entity;
                        let ii = choose|ii: int|
                            0 <= ii < i && (#[trigger] out0[m1]).values@.len() == ids@.len()
                                && self.spec_table(#[trigger] table_ids@[ii]).dir_contains(
                                out0[m1].entity,
                            ) && (forall|j: int|
                                0 <= j < ids@.len() ==> (#[trigger] out0[m1].values@[j])@
                                    == self.spec_table(table_ids@[ii]).value_at(
                                    out0[m1].entity,
                                    ids@[j],
                                ));
                        assert(out@[m2] == part0[m2 - out0.len()]);
                        if out@[m1].entity == out@[m2].entity {
                            assert(table.dir_contains(out@[m2].entity));
                            assert(self.spec_table(table_ids@[ii]).dir_contains(e1));
                        }
                    } else if m2 < out0.len() {
                        assert(out@[m1] == out0[m1]);
                        assert(out@[m2] == out0[m2]);
                    } else {
                        assert(out@[m1] == part0[m1 - out0.len()]);
                        assert(out@[m2] == part0[m2 - out0.len()]);
                    }
                }
            }
            i = i + 1;
        }
        proof {
            assert(table_ids@.skip(table_ids@.len() as int) =~= Seq::<TableId>::empty());
        }
        out
    }

    /// How often one kind's destructor has run in one table.
    pub fn drop_count(&self, table_id: TableId, kind: TypeId) -> (r: Option<usize>)
        requires
            self.wf(),
        ensures
            match r {
                Some(n) => self.spec_contains(table_id) && self.spec_table(table_id).has_kind(kind)
                    && n as int == self.spec_table(table_id).drops_of(kind),
                None => !self.spec_contains(table_id) || !self.spec_table(table_id).has_kind(kind),
            },
    {
        match self.tables.get(table_id.0) {
            Some(table) => table.drop_count(kind),
            None => None,
        }
    }
}

} // verus!
