//! The world: entity allocator, archetype set, table storage, resource
//! store and event pipes behind one checked interface.
//!
//! Every live entity carrying components belongs to exactly one table,
//! the table of its archetype; adding or removing a component moves the
//! entity's row to the table of the enlarged or shrunken archetype.

use crate::archetype::ArchetypeId;
use crate::archetype::ArchetypeInfo;
use crate::archetype::Archetypes;
use crate::component::TypeId;
use crate::component::TypeInfo;
use crate::entity::Entity;
use crate::entity::EntityGenerator;
use crate::resources::Resources;
use crate::table::TableId;
use crate::table::TableStorage;
use vstd::prelude::*;

verus! {

#[derive(Debug, Clone, Copy, PartialEq, Eq, Structural)]
pub enum Error {
    /// An archetype-level refusal, such as a duplicated or missing kind.
    ArchetypeError(crate::archetype::Error),
    /// A table-level refusal.
    TableError(crate::table::Error),
    /// A resource-level refusal.
    Resources(crate::resources::Error),
    /// An archetype without a table: a broken internal invariant.
    RogueArchetype,
    /// An entity-keyed operation on a stale or unknown handle.
    NonExistingEntity(Entity),
}

/// The world.
#[derive(Debug)]
pub struct World {
    entity_generator: EntityGenerator,
    archetypes: Archetypes,
    storage: TableStorage,
    resources: Resources,
    events: Vec<(TypeId, Vec<Vec<u8>>)>,
    entity_to_archetype: Vec<Option<(u16, ArchetypeId)>>,
    archetype_to_table: Vec<Option<TableId>>,
}

impl World {
    pub closed spec fn gen_state(self) -> EntityGenerator {
        self.entity_generator
    }

    pub closed spec fn spec_archetypes(self) -> Archetypes {
        self.archetypes
    }

    pub closed spec fn spec_storage(self) -> TableStorage {
        self.storage
    }

    pub closed spec fn res_state(self) -> Resources {
        self.resources
    }

    /// The event pipes: per registered kind, the events sent so far.
    pub closed spec fn events_state(self) -> Seq<(TypeId, Seq<Seq<u8>>)> {
        self.events@.map_values(
            |p: (TypeId, Vec<Vec<u8>>)| (p.0, p.1@.map_values(|v: Vec<u8>| v@)),
        )
    }

    pub closed spec fn e2a(self) -> Seq<Option<(u16, ArchetypeId)>> {
        self.entity_to_archetype@
    }

    pub closed spec fn a2t(self) -> Seq<Option<TableId>> {
        self.archetype_to_table@
    }

    /// Whether a handle is live.
    pub open spec fn live(self, e: Entity) -> bool {
        self.gen_state().live(e)
    }

    /// The archetype a live entity belongs to, if it carries components.
    pub open spec fn arch_of(self, e: Entity) -> Option<ArchetypeId> {
        if 0 <= (e.id as int) < self.e2a().len() {
            match self.e2a()[e.id as int] {
                Some(p) => if p.0 == e.gen {
                    Some(p.1)
                } else {
                    None
                },
                None => None,
            }
        } else {
            None
        }
    }

    /// The table of an archetype.
    pub open spec fn table_of(self, a: ArchetypeId) -> Option<TableId> {
        if 0 <= (a.0 as int) < self.a2t().len() {
            self.a2t()[a.0 as int]
        } else {
            None
        }
    }

    /// Every component an entity carries: kind to value bytes.
    pub open spec fn comp_map(self, e: Entity) -> Map<TypeId, Seq<u8>> {
        match self.arch_of(e) {
            Some(a) => match self.table_of(a) {
                Some(t) => self.spec_storage().spec_table(t).row_map(e),
                None => Map::<TypeId, Seq<u8>>::empty(),
            },
            None => Map::<TypeId, Seq<u8>>::empty(),
        }
    }

    /// Whether one more entity can be handed out.
    pub open spec fn can_create(self) -> bool {
        self.gen_state().can_allocate()
    }

    /// A new kind's metadata must agree with what the world's archetypes
    /// already record for its identifier.
    pub open spec fn kind_compat(self, info: TypeInfo) -> bool {
        forall|j: int|
            0 <= j < self.a2t().len() && (#[trigger] self.a2t()[j]) is Some ==> {
                let a = ArchetypeId(j as usize);
                self.spec_archetypes().spec_info(a).has(info.id)
                    ==> self.spec_archetypes().spec_info(a).info_of(info.id) == info
            }
    }

    pub open spec fn wf(self) -> bool {
        &&& self.gen_state().wf()
        &&& self.spec_archetypes().wf()
        &&& self.spec_storage().wf()
        &&& self.res_state().wf()
        &&& self.e2a().len() <= 0x1_0000
        &&& forall|i: int|
            0 <= i < self.e2a().len() && (#[trigger] self.e2a()[i]) is Some ==> {
                let p = self.e2a()[i].unwrap();
                &&& self.gen_state().live(Entity { id: i as u16, gen: p.0 })
                &&& self.table_of(p.1) is Some
                &&& self.spec_storage().spec_contains(self.table_of(p.1).unwrap())
                &&& self.spec_storage().spec_table(self.table_of(p.1).unwrap()).dir_contains(
                    Entity { id: i as u16, gen: p.0 },
                )
            }
        &&& forall|j: int|
            0 <= j < self.a2t().len() && (#[trigger] self.a2t()[j]) is Some ==> {
                let a = ArchetypeId(j as usize);
                let t = self.a2t()[j].unwrap();
                &&& self.spec_archetypes().spec_contains(a)
                &&& self.spec_archetypes().spec_info(a).wf()
                &&& self.spec_storage().spec_contains(t)
                &&& self.spec_storage().spec_table(t).infos() == self.spec_archetypes().spec_info(a).infos()
                &&& self.spec_archetypes().trie_at(self.spec_archetypes().spec_info(a).ids())
                    == Some(a)
            }
        &&& forall|j1: int, j2: int|
            0 <= j1 < j2 < self.a2t().len() && (#[trigger] self.a2t()[j1]) is Some && (
            #[trigger] self.a2t()[j2]) is Some ==> self.a2t()[j1].unwrap() != self.a2t()[j2].unwrap()
        &&& forall|j: int, e: Entity|
            0 <= j < self.a2t().len() && (#[trigger] self.a2t()[j]) is Some
                && (#[trigger] self.spec_storage().spec_table(self.a2t()[j].unwrap()).dir_contains(e)) ==> self.arch_of(e) == Some(ArchetypeId(j as usize))
        &&& forall|p: Seq<TypeId>|
            (#[trigger] self.spec_archetypes().trie_at(p)) is Some ==> self.table_of(
                self.spec_archetypes().trie_at(p).unwrap(),
            ) is Some
        &&& forall|j1: int, j2: int, k: TypeId|
            0 <= j1 < self.a2t().len() && 0 <= j2 < self.a2t().len() && (#[trigger] self.a2t()[j1])
                is Some && (#[trigger] self.a2t()[j2]) is Some && self.spec_archetypes().spec_info(
                ArchetypeId(j1 as usize),
            ).has(k) && self.spec_archetypes().spec_info(ArchetypeId(j2 as usize)).has(k)
                ==> #[trigger] self.spec_archetypes().spec_info(ArchetypeId(j1 as usize)).info_of(k) == self.spec_archetypes().spec_info(ArchetypeId(j2 as usize)).info_of(k)
        &&& forall|a: int, b: int|
            0 <= a < b < self.events_state().len() ==> (#[trigger] self.events_state()[a]).0 != (
            #[trigger] self.events_state()[b]).0
    }

    pub fn new() -> (r: World)
        ensures
            r.wf(),
            forall|e: Entity| !r.live(e),
            forall|e: Entity| r.comp_map(e) =~= Map::<TypeId, Seq<u8>>::empty(),
            forall|k: TypeId| !r.res_state().spec_has(k),
            r.events_state() =~= Seq::<(TypeId, Seq<Seq<u8>>)>::empty(),
            r.can_create(),
    {
        World {
            entity_generator: EntityGenerator::new(),
            archetypes: Archetypes::new(),
            storage: TableStorage::new(),
            resources: Resources::new(),
            events: Vec::new(),
            entity_to_archetype: Vec::new(),
            archetype_to_table: Vec::new(),
        }
    }

    /// Creates a new entity without components.
    pub fn create(&mut self) -> (r: Entity)
        requires
            old(self).wf(),
            old(self).can_create(),
        ensures
            final(self).wf(),
            final(self).live(r),
            !old(self).live(r),
            final(self).comp_map(r) =~= Map::<TypeId, Seq<u8>>::empty(),
            forall|e: Entity| e != r ==> final(self).live(e) == old(self).live(e),
            forall|e: Entity| #[trigger] final(self).comp_map(e) == old(self).comp_map(e),
            forall|e: Entity| #[trigger] final(self).arch_of(e) == old(self).arch_of(e),
            final(self).res_state() == old(self).res_state(),
            final(self).events_state() == old(self).events_state(),
            final(self).spec_storage() == old(self).spec_storage(),
            final(self).spec_archetypes() == old(self).spec_archetypes(),
    {
        let r = self.entity_generator.create();
        proof {
            assert(self.events_state() =~= old(self).events_state());
            assert forall|i: int|
                0 <= i < self.e2a().len() && (#[trigger] self.e2a()[i]) is Some implies {
                let p = self.e2a()[i].unwrap();
                &&& self.gen_state().live(Entity { id: i as u16, gen: p.0 })
                &&& self.table_of(p.1) is Some
                &&& self.spec_storage().spec_contains(self.table_of(p.1).unwrap())
                &&& self.spec_storage().spec_table(self.table_of(p.1).unwrap()).dir_contains(
                    Entity { id: i as u16, gen: p.0 },
                )
            } by {
                let p = self.e2a()[i].unwrap();
                assert(old(self).e2a()[i] is Some);
                assert(old(self).gen_state().live(Entity { id: i as u16, gen: p.0 }));
                assert(old(self).table_of(p.1) is Some);
                assert(old(self).spec_storage().spec_table(
                    old(self).table_of(p.1).unwrap(),
                ).dir_contains(Entity { id: i as u16, gen: p.0 }));
            }
            assert(self.comp_map(r) =~= Map::<TypeId, Seq<u8>>::empty()) by {
                if self.arch_of(r) is Some {
                    let p = self.e2a()[r.id as int].unwrap();
                    assert(old(self).gen_state().live(Entity { id: r.id, gen: p.0 }));
                    assert(p.0 == r.gen);
                    assert(old(self).live(r));
                }
            }
        }
        r
    }

    /// Whether the destructor counter of an entity's kind still has room.
    pub open spec fn drop_headroom(self, e: Entity, k: TypeId) -> bool {
        self.comp_map(e).dom().contains(k) ==> self.spec_storage().spec_table(
            self.table_of(self.arch_of(e).unwrap()).unwrap(),
        ).drops_of(k) < usize::MAX
    }

    /// Removes a component from an entity: the entity moves to the table
    /// of its archetype shrunken by the kind, and the kind's destructor
    /// runs once on the vacated slot.
    pub fn remove_component(&mut self, entity: Entity, kind: TypeId) -> (r: Result<(), Error>)
        requires
            old(self).wf(),
            old(self).drop_headroom(entity, kind),
        ensures
            final(self).wf(),
            final(self).gen_state() == old(self).gen_state(),
            final(self).res_state() == old(self).res_state(),
            final(self).events_state() == old(self).events_state(),
            forall|e: Entity| final(self).live(e) == old(self).live(e),
            match r {
                Ok(()) => {
                    &&& old(self).live(entity)
                    &&& old(self).comp_map(entity).dom().contains(kind)
                    &&& final(self).comp_map(entity) == old(self).comp_map(entity).remove(kind)
                    &&& forall|e: Entity|
                        e != entity ==> #[trigger] final(self).comp_map(e) == old(self).comp_map(e)
                },
                Err(Error::NonExistingEntity(e2)) => e2 == entity && !old(self).live(entity)
                    && forall|e: Entity|
                    #[trigger] final(self).comp_map(e) == old(self).comp_map(e),
                Err(Error::ArchetypeError(crate::archetype::Error::RemovingNonExistingComponent)) => old(self).live(entity) && !old(self).comp_map(entity).dom().contains(kind) && forall|
                    e: Entity,
                |
                    #[trigger] final(self).comp_map(e) == old(self).comp_map(e),
                _ => false,
            },
    {
        let ghost prev = *old(self);
        if !self.is_live(&entity) {
            return Err(Error::NonExistingEntity(entity));
        }
        let aid = match self.lookup_arch(&entity) {
            Some(aid) => aid,
            None => {
                proof {
                    assert(self.comp_map(entity) =~= Map::<TypeId, Seq<u8>>::empty());
                }
                return Err(Error::ArchetypeError(
                    crate::archetype::Error::RemovingNonExistingComponent,
                ));
            },
        };
        proof {
            assert(self.e2a()[entity.id as int] is Some);
            let p = self.e2a()[entity.id as int].unwrap();
            assert(Entity { id: entity.id, gen: p.0 } == entity);
            assert(self.a2t()[aid.0 as int] is Some);
        }
        let old_tid = match self.lookup_table(aid) {
            Some(t) => t,
            None => {
                proof {
                    assert(false);
                }
                return Err(Error::RogueArchetype);
            },
        };
        let arch_ref = match self.archetypes.get_info(aid) {
            Ok(i) => i,
            Err(_) => {
                proof {
                    assert(false);
                }
                return Err(Error::ArchetypeError(crate::archetype::Error::NonExistingArchetype));
            },
        };
        let mut new_info = arch_ref.duplicate();
        let ghost arch0 = prev.spec_archetypes().spec_info(aid);
        proof {
            assert(new_info.infos() == arch0.infos());
            assert(new_info.wf());
            lemma_kinds_bridge(prev.spec_storage().spec_table(old_tid), arch0);
        }
        match new_info.remove_component(kind) {
            Ok(()) => {},
            Err(e) => {
                proof {
                    assert(!arch0.has(kind));
                    assert(!prev.spec_storage().spec_table(old_tid).has_kind(kind));
                    assert(!self.comp_map(entity).dom().contains(kind));
                }
                return Err(Error::ArchetypeError(e));
            },
        }
        let ghost gi = new_info;
        proof {
            assert forall|j: int, k: TypeId|
                0 <= j < prev.a2t().len() && (#[trigger] prev.a2t()[j]) is Some
                    && prev.spec_archetypes().spec_info(ArchetypeId(j as usize)).has(k)
                    && new_info.has(k) implies #[trigger] prev.spec_archetypes().spec_info(
                ArchetypeId(j as usize),
            ).info_of(k) == new_info.info_of(k) by {
                assert(k != kind);
                assert(prev.a2t()[aid.0 as int] is Some);
                assert(arch0.has(k));
                assert(prev.spec_archetypes().spec_info(ArchetypeId(j as usize)).info_of(k)
                    == arch0.info_of(k));
            }
        }
        let (new_aid, new_tid) = self.resolve_target(new_info);
        let ghost mid = *self;
        proof {
            assert(aid != new_aid) by {
                if aid == new_aid {
                    assert(prev.a2t()[aid.0 as int] is Some);
                    assert(prev.spec_archetypes().spec_contains(aid));
                    assert(prev.spec_archetypes().spec_info(aid).infos() == gi.infos());
                    assert(arch0.has(kind) == gi.has(kind));
                }
            }
            assert(mid.table_of(aid) == Some(old_tid));
            assert(old_tid != new_tid) by {
                assert(mid.a2t()[aid.0 as int] is Some);
                assert(mid.a2t()[new_aid.0 as int] is Some);
                if aid.0 < new_aid.0 {
                    assert(mid.a2t()[aid.0 as int].unwrap() != mid.a2t()[new_aid.0 as int].unwrap());
                } else {
                    assert(mid.a2t()[new_aid.0 as int].unwrap() != mid.a2t()[aid.0 as int].unwrap());
                }
            }
            assert(mid.spec_storage().spec_contains(old_tid)) by {
                assert(prev.e2a()[entity.id as int] is Some);
                assert(prev.spec_storage().spec_contains(old_tid));
            }
            assert(mid.spec_storage().spec_table(old_tid) == prev.spec_storage().spec_table(
                old_tid,
            ));
            let f = mid.spec_storage().spec_table(old_tid);
            let t = mid.spec_storage().spec_table(new_tid);
            assert(f.dir_contains(entity)) by {
                let p = prev.e2a()[entity.id as int].unwrap();
                assert(Entity { id: entity.id, gen: p.0 } == entity);
            }
            assert(!t.dir_contains(entity)) by {
                if prev.spec_storage().spec_contains(new_tid) {
                    assert(t == prev.spec_storage().spec_table(new_tid));
                    assert(mid.a2t()[new_aid.0 as int] == Some(new_tid));
                    if t.dir_contains(entity) {
                        assert(mid.arch_of(entity) == Some(new_aid));
                        assert(mid.arch_of(entity) == prev.arch_of(entity));
                    }
                }
            }
            assert(f.infos() == arch0.infos()) by {
                assert(prev.a2t()[aid.0 as int] is Some);
            }
            assert(t.infos() == gi.infos());
            lemma_kinds_bridge(t, gi);
            assert(f.has_kind(kind));
            assert(self.comp_map(entity) == prev.comp_map(entity));
            assert(prev.comp_map(entity).dom().contains(kind));
            assert(f.drops_of(kind) < usize::MAX);
            assert forall|k: TypeId| f.has_kind(k) && t.has_kind(k) implies (
            #[trigger] f.info_of(k)).size == t.info_of(k).size by {
                assert(arch0.has(k));
                assert(gi.has(k));
                assert(k != kind);
                assert(f.info_of(k) == arch0.info_of(k));
                assert(t.info_of(k) == gi.info_of(k));
                assert(gi.info_of(k) == arch0.info_of(k));
            }
        }
        let r = self.storage.transfer_line_with_deletion(old_tid, new_tid, entity, kind);
        proof {
            if r is Err {
                assert(false);
            }
        }
        vec_set_at(&mut self.entity_to_archetype, entity.id as usize, (entity.gen, new_aid));
        proof {
            vstd::std_specs::vec::axiom_spec_len(&self.archetype_to_table);
            assert(self.events_state() =~= prev.events_state());
            assert(self.table_of(new_aid) == Some(new_tid));
            assert(self.e2a()[entity.id as int] == Some((entity.gen, new_aid)));
            let f0 = mid.spec_storage().spec_table(old_tid);
            let t0 = mid.spec_storage().spec_table(new_tid);
            let f1 = self.spec_storage().spec_table(old_tid);
            let t1 = self.spec_storage().spec_table(new_tid);
            lemma_kinds_bridge(t1, gi);
            lemma_kinds_bridge(f0, arch0);
            assert(t0.infos() == gi.infos());
            assert forall|i: int|
                0 <= i < self.e2a().len() && (#[trigger] self.e2a()[i]) is Some implies {
                let p = self.e2a()[i].unwrap();
                &&& self.gen_state().live(Entity { id: i as u16, gen: p.0 })
                &&& self.table_of(p.1) is Some
                &&& self.spec_storage().spec_contains(self.table_of(p.1).unwrap())
                &&& self.spec_storage().spec_table(self.table_of(p.1).unwrap()).dir_contains(
                    Entity { id: i as u16, gen: p.0 },
                )
            } by {
                let p = self.e2a()[i].unwrap();
                let e2 = Entity { id: i as u16, gen: p.0 };
                if i == entity.id {
                    assert(e2 == entity);
                    assert(t1.dir_contains(entity));
                } else {
                    assert(self.e2a()[i] == prev.e2a()[i]);
                    assert(prev.e2a()[i] is Some);
                    assert(prev.gen_state().live(e2));
                    assert(prev.table_of(p.1) is Some);
                    let t2 = prev.table_of(p.1).unwrap();
                    assert(prev.spec_storage().spec_contains(t2));
                    assert(mid.spec_storage().spec_table(t2) == prev.spec_storage().spec_table(t2));
                    assert(self.table_of(p.1) == Some(t2)) by {
                        if p.1 == new_aid {
                            assert(prev.table_of(new_aid) == Some(new_tid));
                            assert(self.table_of(new_aid) == Some(new_tid));
                        }
                    }
                    assert(e2 != entity);
                    assert(prev.spec_storage().spec_table(t2).dir_contains(e2));
                    if t2 == old_tid {
                        assert(f1.dir_contains(e2) == f0.dir_contains(e2));
                    } else if t2 == new_tid {
                        assert(t1.dir_contains(e2) == t0.dir_contains(e2));
                        assert(t0.dir_contains(e2)) by {
                            assert(t0 == prev.spec_storage().spec_table(new_tid));
                        }
                    } else {
                        assert(self.spec_storage().spec_table(t2) == mid.spec_storage().spec_table(
                            t2,
                        ));
                    }
                }
            }
            assert forall|j: int|
                0 <= j < self.a2t().len() && (#[trigger] self.a2t()[j]) is Some implies {
                let a = ArchetypeId(j as usize);
                let t = self.a2t()[j].unwrap();
                &&& self.spec_archetypes().spec_contains(a)
                &&& self.spec_archetypes().spec_info(a).wf()
                &&& self.spec_storage().spec_contains(t)
                &&& self.spec_storage().spec_table(t).infos() == self.spec_archetypes().spec_info(
                    a,
                ).infos()
                &&& self.spec_archetypes().trie_at(self.spec_archetypes().spec_info(a).ids())
                    == Some(a)
            } by {
                let a = ArchetypeId(j as usize);
                let t = self.a2t()[j].unwrap();
                assert(mid.a2t()[j] is Some);
                assert(mid.spec_storage().spec_contains(t));
                assert(mid.spec_storage().spec_table(t).infos()
                    == mid.spec_archetypes().spec_info(a).infos());
                if t == old_tid {
                    assert(f1.infos() == f0.infos());
                } else if t == new_tid {
                    assert(t1.infos() == t0.infos());
                } else {
                    assert(self.spec_storage().spec_table(t) == mid.spec_storage().spec_table(t));
                }
            }
            assert forall|j: int, e: Entity|
                0 <= j < self.a2t().len() && (#[trigger] self.a2t()[j]) is Some
                    && (#[trigger] self.spec_storage().spec_table(
                    self.a2t()[j].unwrap(),
                ).dir_contains(e)) implies self.arch_of(e) == Some(ArchetypeId(j as usize)) by {
                let t = self.a2t()[j].unwrap();
                assert(mid.a2t()[j] is Some);
                if t == new_tid {
                    if e == entity {
                        assert(ArchetypeId(j as usize) == new_aid) by {
                            assert(self.a2t()[new_aid.0 as int] == Some(new_tid));
                            if j != new_aid.0 {
                                if j < new_aid.0 {
                                    assert(self.a2t()[j].unwrap()
                                        != self.a2t()[new_aid.0 as int].unwrap());
                                } else {
                                    assert(self.a2t()[new_aid.0 as int].unwrap()
                                        != self.a2t()[j].unwrap());
                                }
                            }
                        }
                        assert(self.arch_of(entity) == Some(new_aid));
                    } else {
                        assert(t1.dir_contains(e) == t0.dir_contains(e));
                        assert(mid.arch_of(e) == Some(ArchetypeId(j as usize)));
                        assert(prev.arch_of(e) == Some(ArchetypeId(j as usize)));
                        assert(e.id != entity.id) by {
                            if e.id == entity.id {
                                assert(prev.e2a()[entity.id as int] == Some((entity.gen, aid)));
                                assert(e.gen == entity.gen);
                            }
                        }
                        assert(self.arch_of(e) == prev.arch_of(e));
                    }
                } else if t == old_tid {
                    assert(!f1.dir_contains(entity));
                    assert(e != entity);
                    assert(f1.dir_contains(e) == f0.dir_contains(e));
                    assert(prev.arch_of(e) == Some(ArchetypeId(j as usize)));
                    assert(e.id != entity.id) by {
                        if e.id == entity.id {
                            assert(prev.e2a()[entity.id as int] == Some((entity.gen, aid)));
                            assert(e.gen == entity.gen);
                        }
                    }
                    assert(self.arch_of(e) == prev.arch_of(e));
                } else {
                    assert(self.spec_storage().spec_table(t) == mid.spec_storage().spec_table(t));
                    assert(mid.arch_of(e) == Some(ArchetypeId(j as usize)));
                    assert(prev.arch_of(e) == Some(ArchetypeId(j as usize)));
                    assert(e != entity) by {
                        if e == entity {
                            assert(prev.arch_of(entity) == Some(aid));
                            assert(ArchetypeId(j as usize) == aid);
                            assert(aid.0 as int == j);
                            assert(prev.table_of(aid) == Some(old_tid));
                            assert(self.a2t()[j] == mid.a2t()[j]);
                            assert(mid.table_of(aid) == prev.table_of(aid));
                            assert(mid.a2t()[j] == Some(old_tid));
                            assert(t == old_tid);
                        }
                    }
                    assert(e.id != entity.id) by {
                        if e.id == entity.id {
                            assert(prev.e2a()[entity.id as int] == Some((entity.gen, aid)));
                            assert(e.gen == entity.gen);
                        }
                    }
                    assert(self.arch_of(e) == prev.arch_of(e));
                }
            }
            assert forall|p: Seq<TypeId>|
                (#[trigger] self.spec_archetypes().trie_at(p)) is Some implies self.table_of(
                self.spec_archetypes().trie_at(p).unwrap(),
            ) is Some by {
                assert(mid.spec_archetypes().trie_at(p) is Some);
                assert(mid.table_of(mid.spec_archetypes().trie_at(p).unwrap()) is Some);
            }
            assert(self.wf());
            assert(self.comp_map(entity) =~= prev.comp_map(entity).remove(kind)) by {
                assert(self.arch_of(entity) == Some(new_aid));
                assert(self.comp_map(entity) == t1.row_map(entity));
                assert(prev.comp_map(entity) == f0.row_map(entity));
                assert forall|k: TypeId| #[trigger] t1.has_kind(k) implies t1.value_at(entity, k)
                    == f0.value_at(entity, k) by {
                    assert(gi.has(k));
                    assert(arch0.has(k));
                    assert(f0.has_kind(k));
                    assert(t0.has_kind(k)) by {
                        let w = choose|w: int|
                            0 <= w < gi.infos().len() && (#[trigger] gi.infos()[w]).id == k;
                        assert(t0.infos()[w].id == k);
                    }
                }
                assert forall|k: TypeId| #[trigger] f0.has_kind(k) && k != kind implies t1.has_kind(
                    k,
                ) by {
                    assert(arch0.has(k));
                    assert(gi.has(k));
                }
                assert(!t1.has_kind(kind)) by {
                    if t1.has_kind(kind) {
                        assert(gi.has(kind));
                    }
                }
            }
            assert forall|e: Entity| e != entity implies #[trigger] self.comp_map(e)
                == prev.comp_map(e) by {
                if e.id == entity.id {
                    assert(prev.e2a()[entity.id as int] == Some((entity.gen, aid)));
                    assert(prev.arch_of(e) is None);
                    assert(self.arch_of(e) is None);
                } else {
                    assert(self.arch_of(e) == prev.arch_of(e));
                    match prev.arch_of(e) {
                        Some(a) => {
                            assert(prev.e2a()[e.id as int] is Some);
                            let p = prev.e2a()[e.id as int].unwrap();
                            assert(Entity { id: e.id, gen: p.0 } == e);
                            let t2 = prev.table_of(a).unwrap();
                            assert(prev.spec_storage().spec_contains(t2));
                            assert(prev.spec_storage().spec_table(t2).dir_contains(e));
                            assert(self.table_of(a) == Some(t2)) by {
                                if a == new_aid {
                                    assert(prev.table_of(new_aid) == Some(new_tid));
                                    assert(self.table_of(new_aid) == Some(new_tid));
                                }
                            }
                            let old_t = prev.spec_storage().spec_table(t2);
                            let new_t = self.spec_storage().spec_table(t2);
                            assert(mid.spec_storage().spec_table(t2) == old_t);
                            assert(new_t.row_map(e) =~= old_t.row_map(e)) by {
                                if t2 == old_tid {
                                    assert forall|k: TypeId| #[trigger] old_t.has_kind(k) implies f1.value_at(
                                        e,
                                        k,
                                    ) == f0.value_at(e, k) by {}
                                    assert(f1.infos() == f0.infos());
                                } else if t2 == new_tid {
                                    assert(t0.dir_contains(e));
                                    assert forall|k: TypeId| #[trigger] t0.has_kind(k) implies t1.value_at(
                                        e,
                                        k,
                                    ) == t0.value_at(e, k) by {}
                                } else {
                                    assert(new_t == old_t);
                                }
                            }
                        },
                        None => {
                            assert(self.comp_map(e) =~= prev.comp_map(e));
                        },
                    }
                }
            }
        }
        Ok(())
    }

    /// Whether every destructor counter of an entity's row has room.
    pub open spec fn delete_headroom(self, e: Entity) -> bool {
        self.arch_of(e) is Some ==> forall|k: TypeId|
            #[trigger] self.comp_map(e).dom().contains(k) ==> self.spec_storage().spec_table(
                self.table_of(self.arch_of(e).unwrap()).unwrap(),
            ).drops_of(k) < usize::MAX
    }

    /// Destroys a live entity: every component's destructor runs once,
    /// its row is reclaimed, and the handle's generation is retired so
    /// the stale handle never resolves again.
    pub fn delete(&mut self, entity: Entity) -> (r: Result<(), Error>)
        requires
            old(self).wf(),
            old(self).delete_headroom(entity),
        ensures
            final(self).wf(),
            final(self).res_state() == old(self).res_state(),
            final(self).events_state() == old(self).events_state(),
            match r {
                Ok(()) => {
                    &&& old(self).live(entity)
                    &&& !final(self).live(entity)
                    &&& final(self).comp_map(entity) =~= Map::<TypeId, Seq<u8>>::empty()
                    &&& forall|e: Entity|
                        e != entity ==> final(self).live(e) == old(self).live(e)
                    &&& forall|e: Entity|
                        e != entity ==> #[trigger] final(self).comp_map(e) == old(self).comp_map(e)
                },
                Err(Error::NonExistingEntity(e2)) => e2 == entity && !old(self).live(entity) && (
                forall|e: Entity| final(self).live(e) == old(self).live(e)) && forall|e: Entity|
                    #[trigger] final(self).comp_map(e) == old(self).comp_map(e),
                _ => false,
            },
    {
        let ghost prev = *old(self);
        if !self.is_live(&entity) {
            return Err(Error::NonExistingEntity(entity));
        }
        match self.lookup_arch(&entity) {
            None => {
                self.entity_generator.delete(&entity);
                proof {
                    assert(self.events_state() =~= prev.events_state());
                    assert forall|i: int|
                        0 <= i < self.e2a().len() && (#[trigger] self.e2a()[i]) is Some implies {
                        let p = self.e2a()[i].unwrap();
                        &&& self.gen_state().live(Entity { id: i as u16, gen: p.0 })
                        &&& self.table_of(p.1) is Some
                        &&& self.spec_storage().spec_contains(self.table_of(p.1).unwrap())
                        &&& self.spec_storage().spec_table(self.table_of(p.1).unwrap()).dir_contains(
                            Entity { id: i as u16, gen: p.0 },
                        )
                    } by {
                        let p = self.e2a()[i].unwrap();
                        let e2 = Entity { id: i as u16, gen: p.0 };
                        assert(prev.e2a()[i] is Some);
                        assert(prev.gen_state().live(e2));
                        assert(e2 != entity) by {
                            if e2 == entity {
                                assert(prev.arch_of(entity) is Some);
                            }
                        }
                        assert(prev.spec_storage().spec_table(
                            prev.table_of(p.1).unwrap(),
                        ).dir_contains(e2));
                    }
                    assert(self.wf());
                    assert(self.comp_map(entity) =~= Map::<TypeId, Seq<u8>>::empty());
                }
                Ok(())
            },
            Some(aid) => {
                proof {
                    assert(self.e2a()[entity.id as int] is Some);
                    let p = self.e2a()[entity.id as int].unwrap();
                    assert(Entity { id: entity.id, gen: p.0 } == entity);
                    assert(self.a2t()[aid.0 as int] is Some);
                }
                let tid = match self.lookup_table(aid) {
                    Some(t) => t,
                    None => {
                        proof {
                            assert(false);
                        }
                        return Err(Error::RogueArchetype);
                    },
                };
                proof {
                    let table = self.spec_storage().spec_table(tid);
                    self.spec_storage().lemma_table_wf(tid);
                    assert(table.dir_contains(entity));
                    assert forall|k: TypeId| table.has_kind(k) implies #[trigger] table.drops_of(k)
                        < usize::MAX by {
                        assert(self.comp_map(entity).dom().contains(k));
                    }
                }
                let r = self.storage.remove_entity(tid, &entity);
                proof {
                    if r is Err {
                        assert(false);
                    }
                }
                vec_clear_at(&mut self.entity_to_archetype, entity.id as usize);
                self.entity_generator.delete(&entity);
                proof {
                    assert(self.events_state() =~= prev.events_state());
                    let t0 = prev.spec_storage().spec_table(tid);
                    let t1 = self.spec_storage().spec_table(tid);
                    assert forall|i: int|
                        0 <= i < self.e2a().len() && (#[trigger] self.e2a()[i]) is Some implies {
                        let p = self.e2a()[i].unwrap();
                        &&& self.gen_state().live(Entity { id: i as u16, gen: p.0 })
                        &&& self.table_of(p.1) is Some
                        &&& self.spec_storage().spec_contains(self.table_of(p.1).unwrap())
                        &&& self.spec_storage().spec_table(self.table_of(p.1).unwrap()).dir_contains(
                            Entity { id: i as u16, gen: p.0 },
                        )
                    } by {
                        let p = self.e2a()[i].unwrap();
                        let e2 = Entity { id: i as u16, gen: p.0 };
                        assert(i != entity.id);
                        assert(self.e2a()[i] == prev.e2a()[i]);
                        assert(prev.e2a()[i] is Some);
                        assert(prev.gen_state().live(e2));
                        assert(e2 != entity);
                        let t2 = prev.table_of(p.1).unwrap();
                        assert(prev.spec_storage().spec_table(t2).dir_contains(e2));
                        if t2 == tid {
                            assert(t1.dir_contains(e2) == t0.dir_contains(e2));
                        } else {
                            assert(self.spec_storage().spec_table(t2)
                                == prev.spec_storage().spec_table(t2));
                        }
                    }
                    assert forall|j: int|
                        0 <= j < self.a2t().len() && (#[trigger] self.a2t()[j]) is Some implies {
                        let a = ArchetypeId(j as usize);
                        let t = self.a2t()[j].unwrap();
                        &&& self.spec_archetypes().spec_contains(a)
                        &&& self.spec_archetypes().spec_info(a).wf()
                        &&& self.spec_storage().spec_contains(t)
                        &&& self.spec_storage().spec_table(t).infos()
                            == self.spec_archetypes().spec_info(a).infos()
                        &&& self.spec_archetypes().trie_at(
                            self.spec_archetypes().spec_info(a).ids(),
                        ) == Some(a)
                    } by {
                        assert(prev.a2t()[j] is Some);
                        let t = self.a2t()[j].unwrap();
                        if t == tid {
                            assert(t1.infos() == t0.infos());
                        } else {
                            assert(self.spec_storage().spec_table(t)
                                == prev.spec_storage().spec_table(t));
                        }
                    }
                    assert forall|j: int, e: Entity|
                        0 <= j < self.a2t().len() && (#[trigger] self.a2t()[j]) is Some
                            && (#[trigger] self.spec_storage().spec_table(
                            self.a2t()[j].unwrap(),
                        ).dir_contains(e)) implies self.arch_of(e) == Some(
                        ArchetypeId(j as usize),
                    ) by {
                        assert(prev.a2t()[j] is Some);
                        let t = self.a2t()[j].unwrap();
                        if t == tid {
                            assert(e != entity);
                            assert(t1.dir_contains(e) == t0.dir_contains(e));
                        } else {
                            assert(self.spec_storage().spec_table(t)
                                == prev.spec_storage().spec_table(t));
                            assert(e != entity) by {
                                if e == entity {
                                    assert(prev.arch_of(entity) == Some(
                                        ArchetypeId(j as usize),
                                    ));
                                    assert(ArchetypeId(j as usize) == aid);
                                    vstd::std_specs::vec::axiom_spec_len(
                                        &self.archetype_to_table,
                                    );
                                    assert(aid.0 as int == j);
                                    assert(prev.a2t()[j] == Some(tid));
                                }
                            }
                        }
                        assert(prev.spec_storage().spec_table(prev.a2t()[j].unwrap()).dir_contains(
                            e,
                        ));
                        assert(prev.arch_of(e) == Some(ArchetypeId(j as usize)));
                        assert(e.id != entity.id) by {
                            if e.id == entity.id {
                                assert(prev.e2a()[entity.id as int] == Some((entity.gen, aid)));
                                assert(e.gen == entity.gen);
                            }
                        }
                        assert(self.arch_of(e) == prev.arch_of(e));
                    }
                    assert forall|p: Seq<TypeId>|
                        (#[trigger] self.spec_archetypes().trie_at(p)) is Some implies self.table_of(
                        self.spec_archetypes().trie_at(p).unwrap(),
                    ) is Some by {
                        assert(prev.spec_archetypes().trie_at(p) is Some);
                    }
                    assert(self.wf());
                    assert(self.arch_of(entity) is None);
                    assert(self.comp_map(entity) =~= Map::<TypeId, Seq<u8>>::empty());
                    assert forall|e: Entity| e != entity implies #[trigger] self.comp_map(e)
                        == prev.comp_map(e) by {
                        if e.id == entity.id {
                            assert(prev.e2a()[entity.id as int] == Some((entity.gen, aid)));
                            assert(prev.arch_of(e) is None);
                            assert(self.arch_of(e) is None);
                            assert(self.comp_map(e) =~= prev.comp_map(e));
                        } else {
                            assert(self.arch_of(e) == prev.arch_of(e));
                            match prev.arch_of(e) {
                                Some(a) => {
                                    assert(prev.e2a()[e.id as int] is Some);
                                    let p = prev.e2a()[e.id as int].unwrap();
                                    assert(Entity { id: e.id, gen: p.0 } == e);
                                    let t2 = prev.table_of(a).unwrap();
                                    assert(prev.spec_storage().spec_table(t2).dir_contains(e));
                                    let old_t = prev.spec_storage().spec_table(t2);
                                    let new_t = self.spec_storage().spec_table(t2);
                                    assert(new_t.row_map(e) =~= old_t.row_map(e)) by {
                                        if t2 == tid {
                                            assert forall|k: TypeId| #[trigger] old_t.has_kind(
                                                k,
                                            ) implies t1.value_at(e, k) == t0.value_at(e, k) by {}
                                            assert(t1.infos() == t0.infos());
                                        } else {
                                            assert(new_t == old_t);
                                        }
                                    }
                                },
                                None => {
                                    assert(self.comp_map(e) =~= prev.comp_map(e));
                                },
                            }
                        }
                    }
                }
                Ok(())
            },
        }
    }

    /// How often one kind's destructor has run, summed over the tables
    /// mapped behind archetype identifiers up from position `j`.
    pub open spec fn drops_sum(self, kind: TypeId, j: int) -> int
        decreases self.a2t().len() - j,
    {
        if j < 0 || j >= self.a2t().len() {
            0
        } else {
            (match self.a2t()[j] {
                Some(t) => if self.spec_storage().spec_table(t).has_kind(kind) {
                    self.spec_storage().spec_table(t).drops_of(kind)
                } else {
                    0
                },
                None => 0,
            }) + self.drops_sum(kind, j + 1)
        }
    }

    /// How often one kind's destructor has run anywhere in the world's
    /// tables, saturating at the counter's limit.
    pub fn drop_count(&self, kind: TypeId) -> (r: usize)
        requires
            self.wf(),
        ensures
            r as int == if self.drops_sum(kind, 0) <= usize::MAX {
                self.drops_sum(kind, 0)
            } else {
                usize::MAX as int
            },
    {
        let mut acc: usize = 0;
        let mut j: usize = 0;
        while j < self.archetype_to_table.len()
            invariant
                self.wf(),
                j <= self.a2t().len(),
                self.drops_sum(kind, 0) - self.drops_sum(kind, j as int) >= 0,
                acc as int == if self.drops_sum(kind, 0) - self.drops_sum(kind, j as int)
                    <= usize::MAX {
                    self.drops_sum(kind, 0) - self.drops_sum(kind, j as int)
                } else {
                    usize::MAX as int
                },
            decreases self.a2t().len() - j,
        {
            proof {
                self.lemma_drops_sum_split(kind, j as int);
                self.lemma_drops_sum_split(kind, j as int + 1);
            }
            let step: usize = match self.archetype_to_table[j] {
                Some(tid) => {
                    proof {
                        assert(self.a2t()[j as int] is Some);
                    }
                    match self.storage.drop_count(tid, kind) {
                        Some(n) => n,
                        None => 0,
                    }
                },
                None => 0,
            };
            proof {
                assert(self.drops_sum(kind, j as int) == (step as int) + self.drops_sum(
                    kind,
                    j as int + 1,
                ));
            }
            if acc > usize::MAX - step {
                acc = usize::MAX;
            } else {
                acc = acc + step;
            }
            j = j + 1;
        }
        acc
    }

    /// The destructor sum from one position is that position's count
    /// plus the sum from the next, and every partial sum is
    /// non-negative.
    proof fn lemma_drops_sum_split(self, kind: TypeId, j: int)
        requires
            self.wf(),
            0 <= j <= self.a2t().len(),
        ensures
            self.drops_sum(kind, j) >= 0,
            j < self.a2t().len() ==> self.drops_sum(kind, j) == (match self.a2t()[j] {
                Some(t) => if self.spec_storage().spec_table(t).has_kind(kind) {
                    self.spec_storage().spec_table(t).drops_of(kind)
                } else {
                    0
                },
                None => 0,
            }) + self.drops_sum(kind, j + 1),
        decreases self.a2t().len() - j,
    {
        if j < self.a2t().len() {
            self.lemma_drops_sum_split(kind, j + 1);
            match self.a2t()[j] {
                Some(t) => {
                    if self.spec_storage().spec_table(t).has_kind(kind) {
                        self.spec_storage().lemma_table_wf(t);
                        let table = self.spec_storage().spec_table(t);
                        let c = table.col_of(kind);
                        assert(0 <= c < table.columns_view().len());
                        table.columns_view()[c].lemma_wf();
                        assert(table.columns_view()[c].spec_drops() >= 0);
                    }
                },
                None => {},
            }
        }
    }

    /// Whether a handle is live.
    pub fn is_live(&self, entity: &Entity) -> (r: bool)
        requires
            self.wf(),
        ensures
            r == self.live(*entity),
    {
        self.entity_generator.is_live(entity)
    }

    /// The archetype identifier a handle is mapped to, if any.
    fn lookup_arch(&self, entity: &Entity) -> (r: Option<ArchetypeId>)
        ensures
            r == self.arch_of(*entity),
    {
        if (entity.id as usize) < self.entity_to_archetype.len() {
            match self.entity_to_archetype[entity.id as usize] {
                Some(p) => if p.0 == entity.gen {
                    Some(p.1)
                } else {
                    None
                },
                None => None,
            }
        } else {
            None
        }
    }

    /// The table identifier an archetype is mapped to, if any.
    fn lookup_table(&self, a: ArchetypeId) -> (r: Option<TableId>)
        ensures
            r == self.table_of(a),
    {
        if a.0 < self.archetype_to_table.len() {
            self.archetype_to_table[a.0]
        } else {
            None
        }
    }

    /// The kind set a live entity carries, as archetype metadata; the
    /// empty set for a live entity without components.
    pub fn entity_component_info(&self, entity: Entity) -> (r: Option<ArchetypeInfo>)
        requires
            self.wf(),
        ensures
            match r {
                Some(info) => {
                    &&& self.live(entity)
                    &&& info.wf()
                    &&& forall|k: TypeId|
                        #[trigger] info.has(k) <==> self.comp_map(entity).dom().contains(k)
                },
                None => !self.live(entity),
            },
    {
        if !self.is_live(&entity) {
            return None;
        }
        match self.lookup_arch(&entity) {
            Some(aid) => {
                proof {
                    assert(self.e2a()[entity.id as int] is Some);
                    assert(self.table_of(aid) is Some);
                    let j = aid.0 as int;
                    assert(self.a2t()[j] is Some);
                }
                let info = match self.archetypes.get_info(aid) {
                    Ok(info) => info.duplicate(),
                    Err(_) => {
                        proof {
                            assert(false);
                        }
                        ArchetypeInfo::new()
                    },
                };
                proof {
                    let t = self.table_of(aid).unwrap();
                    assert(self.spec_storage().spec_table(t).infos() == info.infos());
                    assert forall|k: TypeId| #[trigger] info.has(k) <==> self.comp_map(entity).dom().contains(k) by {
                        let table = self.spec_storage().spec_table(t);
                        assert(info.has(k) == table.has_kind(k)) by {
                            if info.has(k) {
                                let w = choose|w: int|
                                    0 <= w < info.infos().len() && (#[trigger] info.infos()[w]).id
                                        == k;
                                assert(table.infos()[w].id == k);
                            }
                            if table.has_kind(k) {
                                let w = choose|w: int|
                                    0 <= w < table.infos().len() && (#[trigger] table.infos()[w]).id
                                        == k;
                                assert(info.infos()[w].id == k);
                            }
                        }
                    }
                }
                Some(info)
            },
            None => {
                proof {
                    assert(self.comp_map(entity) =~= Map::<TypeId, Seq<u8>>::empty());
                }
                Some(ArchetypeInfo::new())
            },
        }
    }

    /// Reads an entity's component value of one kind.
    pub fn get_component(&self, entity: Entity, kind: TypeId) -> (r: Result<Vec<u8>, Error>)
        requires
            self.wf(),
        ensures
            match r {
                Ok(v) => self.live(entity) && self.comp_map(entity).dom().contains(kind) && v@
                    == self.comp_map(entity)[kind],
                Err(Error::NonExistingEntity(e2)) => e2 == entity && !self.live(entity),
                Err(Error::TableError(crate::table::Error::TableDoesNotContainComponentColumn)) => self.live(entity) && !self.comp_map(entity).dom().contains(kind),
                _ => false,
            },
    {
        if !self.is_live(&entity) {
            return Err(Error::NonExistingEntity(entity));
        }
        match self.lookup_arch(&entity) {
            Some(aid) => {
                proof {
                    assert(self.e2a()[entity.id as int] is Some);
                    assert(self.table_of(aid) is Some);
                }
                let tid = match self.lookup_table(aid) {
                    Some(t) => t,
                    None => {
                        proof {
                            assert(false);
                        }
                        return Err(Error::RogueArchetype);
                    },
                };
                proof {
                    let p = self.e2a()[entity.id as int].unwrap();
                    assert(Entity { id: entity.id, gen: p.0 } == entity);
                    assert(self.spec_storage().spec_table(tid).dir_contains(entity));
                }
                match self.storage.get_component(tid, &entity, kind) {
                    Ok(v) => {
                        proof {
                            let table = self.spec_storage().spec_table(tid);
                            assert(self.comp_map(entity)[kind] == table.value_at(entity, kind));
                        }
                        Ok(v)
                    },
                    Err(e) => {
                        proof {
                            let table = self.spec_storage().spec_table(tid);
                            assert(e == crate::table::Error::TableDoesNotContainComponentColumn);
                            assert(!self.comp_map(entity).dom().contains(kind));
                        }
                        Err(Error::TableError(e))
                    },
                }
            },
            None => {
                proof {
                    assert(!self.comp_map(entity).dom().contains(kind));
                }
                Err(Error::TableError(crate::table::Error::TableDoesNotContainComponentColumn))
            },
        }
    }
}

/// A table whose metadata equals an archetype's stores exactly the
/// archetype's kinds, with the same per-kind metadata.
proof fn lemma_kinds_bridge(table: crate::table::Table, arch: ArchetypeInfo)
    requires
        table.infos() == arch.infos(),
        arch.wf(),
    ensures
        forall|k: TypeId| #[trigger] table.has_kind(k) == arch.has(k),
        forall|k: TypeId| arch.has(k) ==> #[trigger] table.info_of(k) == arch.info_of(k),
{
    assert forall|k: TypeId| #[trigger] table.has_kind(k) == arch.has(k) by {
        if table.has_kind(k) {
            let w = choose|w: int|
                0 <= w < table.infos().len() && (#[trigger] table.infos()[w]).id == k;
            assert(arch.infos()[w].id == k);
        }
        if arch.has(k) {
            let w = choose|w: int|
                0 <= w < arch.infos().len() && (#[trigger] arch.infos()[w]).id == k;
            assert(table.infos()[w].id == k);
        }
    }
    assert forall|k: TypeId| arch.has(k) implies #[trigger] table.info_of(k) == arch.info_of(k) by {
        let w = choose|w: int| 0 <= w < arch.infos().len() && (#[trigger] arch.infos()[w]).id == k;
        crate::archetype::lemma_unique_id_index(arch, w, k);
        assert(table.infos()[w].id == k);
        assert(strictly_sorted_table(table));
        table_col_unique(table, w, k);
    }
}

/// Whether a table's kind identifiers are strictly sorted.
spec fn strictly_sorted_table(table: crate::table::Table) -> bool {
    crate::component::strictly_sorted(table.kind_ids())
}

/// The one column of a table that carries a kind, without assuming the
/// table's full well-formedness.
proof fn table_col_unique(table: crate::table::Table, j: int, k: TypeId)
    requires
        strictly_sorted_table(table),
        0 <= j < table.infos().len(),
        table.infos()[j].id == k,
    ensures
        table.has_kind(k),
        table.col_of(k) == j,
{
    let w = table.col_of(k);
    if w != j {
        assert(table.kind_ids()[w] == k);
        assert(table.kind_ids()[j] == k);
        if w < j {
            assert(table.kind_ids()[w].0 < table.kind_ids()[j].0);
        } else {
            assert(table.kind_ids()[j].0 < table.kind_ids()[w].0);
        }
    }
}

impl World {
    /// Every entity that carries components has its row in exactly one
    /// table: the table of its archetype; no other registered table
    /// holds it.
    pub proof fn lemma_entity_in_unique_table(self, e: Entity)
        requires
            self.wf(),
            self.arch_of(e) is Some,
        ensures
            self.table_of(self.arch_of(e).unwrap()) is Some,
            self.spec_storage().spec_table(
                self.table_of(self.arch_of(e).unwrap()).unwrap(),
            ).dir_contains(e),
            forall|j: int|
                0 <= j < self.a2t().len() && (#[trigger] self.a2t()[j]) is Some
                    && self.a2t()[j].unwrap() != self.table_of(self.arch_of(e).unwrap()).unwrap()
                    ==> !self.spec_storage().spec_table(self.a2t()[j].unwrap()).dir_contains(e),
    {
        vstd::std_specs::vec::axiom_spec_len(&self.archetype_to_table);
        let a = self.arch_of(e).unwrap();
        assert(self.e2a()[e.id as int] is Some);
        let p = self.e2a()[e.id as int].unwrap();
        assert(Entity { id: e.id, gen: p.0 } == e);
        let t = self.table_of(a).unwrap();
        assert forall|j: int|
            0 <= j < self.a2t().len() && (#[trigger] self.a2t()[j]) is Some
                && self.a2t()[j].unwrap() != t implies !self.spec_storage().spec_table(
            self.a2t()[j].unwrap(),
        ).dir_contains(e) by {
            if self.spec_storage().spec_table(self.a2t()[j].unwrap()).dir_contains(e) {
                assert(self.arch_of(e) == Some(ArchetypeId(j as usize)));
                assert(ArchetypeId(j as usize) == a);
                assert(self.a2t()[j] == Some(t));
            }
        }
    }

    /// An archetype's kind metadata and its table's are the same, so the
    /// archetype's kind set equals the table's column key set.
    pub proof fn lemma_archetype_table_kinds(self, a: ArchetypeId)
        requires
            self.wf(),
            self.table_of(a) is Some,
        ensures
            self.spec_storage().spec_contains(self.table_of(a).unwrap()),
            self.spec_storage().spec_table(self.table_of(a).unwrap()).infos()
                == self.spec_archetypes().spec_info(a).infos(),
            forall|k: TypeId|
                self.spec_storage().spec_table(self.table_of(a).unwrap()).has_kind(k)
                    == self.spec_archetypes().spec_info(a).has(k),
    {
        assert(self.a2t()[a.0 as int] is Some);
        lemma_kinds_bridge(
            self.spec_storage().spec_table(self.table_of(a).unwrap()),
            self.spec_archetypes().spec_info(a),
        );
    }
}

/// Adding a fresh component kind and then removing it restores an
/// entity's component map to its prior value.
pub proof fn lemma_add_remove_restores(m: Map<TypeId, Seq<u8>>, k: TypeId, v: Seq<u8>)
    requires
        !m.dom().contains(k),
    ensures
        m.insert(k, v).remove(k) == m,
{
    assert(m.insert(k, v).remove(k) =~= m);
}

/// A written component value reads back unchanged.
pub proof fn lemma_written_value_read_back(m: Map<TypeId, Seq<u8>>, k: TypeId, v: Seq<u8>)
    ensures
        m.insert(k, v).dom().contains(k),
        m.insert(k, v)[k] == v,
{
}

/// Removing a kind and adding it again leaves the map holding the new
/// value, exactly as if it had been written once.
pub proof fn lemma_readd_holds_new_value(
    m: Map<TypeId, Seq<u8>>,
    k: TypeId,
    v1: Seq<u8>,
    v2: Seq<u8>,
)
    requires
        !m.dom().contains(k),
    ensures
        m.insert(k, v1).remove(k).insert(k, v2) == m.insert(k, v2),
{
    assert(m.insert(k, v1).remove(k).insert(k, v2) =~= m.insert(k, v2));
}

/// An entity whose component map is empty carries no kind, so no query
/// yields it.
pub proof fn lemma_componentless_entity_unqueried(w: World, e: Entity, k: TypeId)
    requires
        w.comp_map(e) == Map::<TypeId, Seq<u8>>::empty(),
    ensures
        !w.comp_map(e).dom().contains(k),
{
}

impl Default for World {
    fn default() -> (r: World)
        ensures
            r.wf(),
            forall|e: Entity| !r.live(e),
            forall|e: Entity| r.comp_map(e) =~= Map::<TypeId, Seq<u8>>::empty(),
            forall|k: TypeId| !r.res_state().spec_has(k),
            r.can_create(),
    {
        World::new()
    }
}

/// Copies a byte vector.
fn copy_bytes(v: &Vec<u8>) -> (r: Vec<u8>)
    ensures
        r@ == v@,
{
    let mut r: Vec<u8> = Vec::new();
    let mut i: usize = 0;
    while i < v.len()
        invariant
            i <= v@.len(),
            r@.len() == i,
            forall|j: int| 0 <= j < i ==> r@[j] == v@[j],
        decreases v@.len() - i,
    {
        r.push(v[i]);
        i = i + 1;
    }
    proof {
        assert(r@ =~= v@);
    }
    r
}

/// Clears position `i` of an optional-entry map, if it is in range.
fn vec_clear_at<T>(v: &mut Vec<Option<T>>, i: usize)
    ensures
        final(v)@.len() == old(v)@.len(),
        i < old(v)@.len() ==> final(v)@[i as int] is None,
        forall|j: int| 0 <= j < old(v)@.len() && j != i ==> final(v)@[j] == old(v)@[j],
{
    if i < v.len() {
        v.set(i, None);
    }
}

/// Sets position `i` of an optional-entry map, growing it with `None`
/// entries as needed.
fn vec_set_at<T>(v: &mut Vec<Option<T>>, i: usize, val: T)
    ensures
        final(v)@.len() == if old(v)@.len() > i {
            old(v)@.len() as int
        } else {
            i + 1
        },
        final(v)@[i as int] == Some(val),
        forall|j: int|
            0 <= j < old(v)@.len() && j != i ==> final(v)@[j] == old(v)@[j],
        forall|j: int|
            old(v)@.len() <= j < final(v)@.len() && j != i ==> final(v)@[j] is None,
{
    while v.len() <= i
        invariant
            forall|j: int| 0 <= j < old(v)@.len() ==> v@[j] == old(v)@[j],
            forall|j: int| old(v)@.len() <= j < v@.len() ==> v@[j] is None,
            v@.len() >= old(v)@.len(),
            v@.len() == old(v)@.len() || v@.len() <= i + 1,
        decreases i + 1 - v@.len(),
    {
        v.push(None);
    }
    v.set(i, Some(val));
}

impl World {
    /// Resolves the archetype and table of a kind set, creating and
    /// registering both where they do not exist yet.
    fn resolve_target(&mut self, new_info: ArchetypeInfo) -> (r: (ArchetypeId, TableId))
        requires
            old(self).wf(),
            new_info.wf(),
            forall|j: int, k: TypeId|
                0 <= j < old(self).a2t().len() && (#[trigger] old(self).a2t()[j]) is Some && old(self).spec_archetypes().spec_info(ArchetypeId(j as usize)).has(k) && new_info.has(k)
                    ==> #[trigger] old(self).spec_archetypes().spec_info(
                    ArchetypeId(j as usize),
                ).info_of(k) == new_info.info_of(k),
        ensures
            final(self).wf(),
            final(self).gen_state() == old(self).gen_state(),
            final(self).res_state() == old(self).res_state(),
            final(self).events_state() == old(self).events_state(),
            final(self).e2a() == old(self).e2a(),
            final(self).table_of(r.0) == Some(r.1),
            final(self).spec_archetypes().spec_contains(r.0),
            final(self).spec_archetypes().spec_info(r.0).infos() == new_info.infos(),
            final(self).spec_storage().spec_contains(r.1),
            final(self).spec_storage().spec_table(r.1).infos() == new_info.infos(),
            forall|a: ArchetypeId|
                a != r.0 ==> #[trigger] final(self).table_of(a) == old(self).table_of(a),
            forall|t: TableId|
                old(self).spec_storage().spec_contains(t) ==> final(self).spec_storage().spec_contains(t) && #[trigger] final(self).spec_storage().spec_table(t)
                    == old(self).spec_storage().spec_table(t),
            !old(self).spec_storage().spec_contains(r.1) ==> {
                let t = final(self).spec_storage().spec_table(r.1);
                t.dir().len() == 0 && t.free_slots().len() == 0 && (forall|e: Entity|
                    !t.dir_contains(e)) && (forall|k: TypeId| t.has_kind(k) ==> t.drops_of(k) == 0)
            },
            forall|e: Entity| #[trigger] final(self).arch_of(e) == old(self).arch_of(e),
            forall|e: Entity| #[trigger] final(self).comp_map(e) == old(self).comp_map(e),
            forall|a: ArchetypeId|
                a != r.0 ==> #[trigger] final(self).spec_archetypes().spec_contains(a) == old(self).spec_archetypes().spec_contains(a),
            forall|a: ArchetypeId|
                a != r.0 && old(self).spec_archetypes().spec_contains(a) ==> #[trigger] final(self).spec_archetypes().spec_info(a) == old(self).spec_archetypes().spec_info(a),
            old(self).spec_archetypes().spec_contains(r.0) ==> old(self).spec_archetypes().spec_info(r.0).infos() == new_info.infos(),
            old(self).table_of(r.0) is Some ==> old(self).table_of(r.0) == Some(r.1),
    {
        let ghost gi = new_info;
        let new_aid = match self.archetypes.get_id(&new_info) {
            Some(aid) => {
                proof {
                    let j = aid.0 as int;
                    assert(self.table_of(aid) is Some);
                    assert(self.a2t()[j] is Some);
                    let stored = self.spec_archetypes().spec_info(aid);
                    assert(stored.ids() == new_info.ids());
                    assert(stored.ids().len() == stored.infos().len());
                    assert(new_info.ids().len() == new_info.infos().len());
                    assert forall|k: TypeId| stored.has(k) implies #[trigger] stored.info_of(k)
                        == new_info.info_of(k) by {
                        assert(new_info.has(k)) by {
                            let w = choose|w: int|
                                0 <= w < stored.infos().len() && (#[trigger] stored.infos()[w]).id
                                    == k;
                            assert(stored.ids()[w] == stored.infos()[w].id);
                            assert(stored.ids()[w] == k);
                            assert(new_info.ids()[w] == k);
                            assert(new_info.ids()[w] == new_info.infos()[w].id);
                            assert(new_info.infos()[w].id == k);
                        }
                    }
                    crate::archetype::lemma_info_eq(stored, new_info);
                }
                let tid = match self.lookup_table(aid) {
                    Some(t) => t,
                    None => {
                        proof {
                            assert(false);
                        }
                        TableId(0)
                    },
                };
                proof {
                    assert(self.comp_map_frame(*old(self)));
                }
                return (aid, tid);
            },
            None => {
                let r = self.archetypes.insert(new_info);
                match r {
                    Ok(aid) => aid,
                    Err(_) => {
                        proof {
                            assert(false);
                        }
                        ArchetypeId(0)
                    },
                }
            },
        };
        let ghost mid = *self;
        let info_ref = match self.archetypes.get_info(new_aid) {
            Ok(i) => i,
            Err(_) => {
                proof {
                    assert(false);
                }
                return (new_aid, TableId(0));
            },
        };
        let info_copy = info_ref.duplicate();
        let new_tid = self.storage.new_table(&info_copy);
        vec_set_at(&mut self.archetype_to_table, new_aid.0, new_tid);
        proof {
            self.lemma_resolve_created(*old(self), mid, new_aid, new_tid, gi);
            assert(!old(self).spec_archetypes().spec_contains(new_aid));
            if old(self).table_of(new_aid) is Some {
                assert(old(self).a2t()[new_aid.0 as int] is Some);
                assert(old(self).spec_archetypes().spec_contains(new_aid));
            }
        }
        (new_aid, new_tid)
    }

    /// Whether every entity observes the same components in two worlds.
    spec fn comp_map_frame(self, other: World) -> bool {
        forall|e: Entity| #[trigger] self.comp_map(e) == other.comp_map(e)
    }

    /// Registering a fresh archetype and its fresh empty table preserves
    /// the world's invariant and every entity's view.
    proof fn lemma_resolve_created(
        self,
        prev: World,
        mid: World,
        new_aid: ArchetypeId,
        new_tid: TableId,
        new_info: ArchetypeInfo,
    )
        requires
            prev.wf(),
            new_info.wf(),
            forall|j: int, k: TypeId|
                0 <= j < prev.a2t().len() && (#[trigger] prev.a2t()[j]) is Some
                    && prev.spec_archetypes().spec_info(ArchetypeId(j as usize)).has(k)
                    && new_info.has(k) ==> #[trigger] prev.spec_archetypes().spec_info(
                    ArchetypeId(j as usize),
                ).info_of(k) == new_info.info_of(k),
            // the archetype insertion step:
            prev.trie_at_none(new_info.ids()),
            mid.gen_state() == prev.gen_state(),
            mid.res_state() == prev.res_state(),
            mid.events@ == prev.events@,
            mid.e2a() == prev.e2a(),
            mid.a2t() == prev.a2t(),
            mid.spec_storage() == prev.spec_storage(),
            !prev.spec_archetypes().spec_contains(new_aid),
            mid.spec_archetypes().spec_contains(new_aid),
            mid.spec_archetypes().spec_info(new_aid) == new_info,
            mid.spec_archetypes().wf(),
            forall|p: Seq<TypeId>|
                #[trigger] mid.spec_archetypes().trie_at(p) == if p == new_info.ids() {
                    Some(new_aid)
                } else {
                    prev.spec_archetypes().trie_at(p)
                },
            forall|a: ArchetypeId|
                a != new_aid ==> #[trigger] mid.spec_archetypes().spec_contains(a)
                    == prev.spec_archetypes().spec_contains(a),
            forall|a: ArchetypeId|
                a != new_aid && prev.spec_archetypes().spec_contains(a)
                    ==> #[trigger] mid.spec_archetypes().spec_info(a)
                    == prev.spec_archetypes().spec_info(a),
            // the table creation and mapping step:
            self.gen_state() == mid.gen_state(),
            self.res_state() == mid.res_state(),
            self.events@ == mid.events@,
            self.e2a() == mid.e2a(),
            self.spec_archetypes() == mid.spec_archetypes(),
            !mid.spec_storage().spec_contains(new_tid),
            self.spec_storage().spec_contains(new_tid),
            self.spec_storage().wf(),
            self.spec_storage().spec_table(new_tid).infos() == new_info.infos(),
            self.spec_storage().spec_table(new_tid).dir().len() == 0,
            self.spec_storage().spec_table(new_tid).free_slots().len() == 0,
            forall|e: Entity| !self.spec_storage().spec_table(new_tid).dir_contains(e),
            forall|t: TableId|
                t != new_tid ==> #[trigger] self.spec_storage().spec_contains(t)
                    == mid.spec_storage().spec_contains(t),
            forall|t: TableId|
                t != new_tid && mid.spec_storage().spec_contains(t)
                    ==> #[trigger] self.spec_storage().spec_table(t) == mid.spec_storage().spec_table(t),
            self.a2t().len() == if mid.a2t().len() > new_aid.0 {
                mid.a2t().len() as int
            } else {
                new_aid.0 + 1
            },
            self.a2t()[new_aid.0 as int] == Some(new_tid),
            forall|j: int|
                0 <= j < mid.a2t().len() && j != new_aid.0 ==> #[trigger] self.a2t()[j]
                    == mid.a2t()[j],
            forall|j: int|
                mid.a2t().len() <= j < self.a2t().len() && j != new_aid.0 ==> (
                #[trigger] self.a2t()[j]) is None,
        ensures
            self.wf(),
            self.table_of(new_aid) == Some(new_tid),
            forall|a: ArchetypeId|
                a != new_aid ==> #[trigger] self.table_of(a) == prev.table_of(a),
            forall|e: Entity| #[trigger] self.arch_of(e) == prev.arch_of(e),
            forall|e: Entity| #[trigger] self.comp_map(e) == prev.comp_map(e),
    {
        assert(self.events_state() =~= prev.events_state());
        if new_aid.0 < prev.a2t().len() && prev.a2t()[new_aid.0 as int] is Some {
            assert(prev.spec_archetypes().spec_contains(new_aid));
            assert(false);
        }
        assert(self.table_of(new_aid) == Some(new_tid));
        assert forall|a: ArchetypeId| a != new_aid implies #[trigger] self.table_of(a)
            == prev.table_of(a) by {}
        assert forall|j: int|
            0 <= j < self.a2t().len() && (#[trigger] self.a2t()[j]) is Some implies {
            let a = ArchetypeId(j as usize);
            let t = self.a2t()[j].unwrap();
            &&& self.spec_archetypes().spec_contains(a)
            &&& self.spec_archetypes().spec_info(a).wf()
            &&& self.spec_storage().spec_contains(t)
            &&& self.spec_storage().spec_table(t).infos() == self.spec_archetypes().spec_info(a).infos()
            &&& self.spec_archetypes().trie_at(self.spec_archetypes().spec_info(a).ids()) == Some(a)
        } by {
            let a = ArchetypeId(j as usize);
            let t = self.a2t()[j].unwrap();
            if j == new_aid.0 {
                assert(self.spec_archetypes().spec_info(a) == new_info);
                assert(self.spec_archetypes().trie_at(new_info.ids()) == Some(new_aid));
            } else {
                assert(self.a2t()[j] == prev.a2t()[j]);
                assert(prev.a2t()[j] is Some);
                assert(prev.spec_archetypes().spec_contains(a));
                assert(a != new_aid);
                assert(self.spec_archetypes().spec_info(a) == prev.spec_archetypes().spec_info(a));
                assert(t != new_tid) by {
                    assert(prev.spec_storage().spec_contains(t));
                }
                assert(self.spec_storage().spec_table(t) == prev.spec_storage().spec_table(t));
                assert(prev.spec_archetypes().trie_at(prev.spec_archetypes().spec_info(a).ids())
                    == Some(a));
                assert(self.spec_archetypes().spec_info(a).ids() != new_info.ids()) by {
                    if prev.spec_archetypes().spec_info(a).ids() == new_info.ids() {
                        assert(prev.spec_archetypes().trie_at(new_info.ids()) is Some);
                    }
                }
            }
        }
        assert forall|i: int|
            0 <= i < self.e2a().len() && (#[trigger] self.e2a()[i]) is Some implies {
            let p = self.e2a()[i].unwrap();
            &&& self.gen_state().live(Entity { id: i as u16, gen: p.0 })
            &&& self.table_of(p.1) is Some
            &&& self.spec_storage().spec_contains(self.table_of(p.1).unwrap())
            &&& self.spec_storage().spec_table(self.table_of(p.1).unwrap()).dir_contains(
                Entity { id: i as u16, gen: p.0 },
            )
        } by {
            let p = self.e2a()[i].unwrap();
            assert(prev.e2a()[i] is Some);
            assert(prev.gen_state().live(Entity { id: i as u16, gen: p.0 }));
            assert(prev.table_of(p.1) is Some);
            let t = prev.table_of(p.1).unwrap();
            assert(prev.spec_storage().spec_contains(t));
            assert(t != new_tid);
            assert(p.1 != new_aid) by {
                if p.1 == new_aid {
                    assert(prev.a2t()[new_aid.0 as int] is Some);
                    assert(prev.spec_archetypes().spec_contains(new_aid));
                }
            }
            assert(self.table_of(p.1) == Some(t));
            assert(self.spec_storage().spec_table(t) == prev.spec_storage().spec_table(t));
            assert(prev.spec_storage().spec_table(t).dir_contains(Entity { id: i as u16, gen: p.0 }));
        }
        assert forall|j1: int, j2: int|
            0 <= j1 < j2 < self.a2t().len() && (#[trigger] self.a2t()[j1]) is Some && (
        #[trigger] self.a2t()[j2]) is Some implies self.a2t()[j1].unwrap()
            != self.a2t()[j2].unwrap() by {
            if j1 != new_aid.0 && j2 != new_aid.0 {
                assert(self.a2t()[j1] == prev.a2t()[j1]);
                assert(self.a2t()[j2] == prev.a2t()[j2]);
            } else if j1 == new_aid.0 {
                assert(self.a2t()[j2] == prev.a2t()[j2]);
                assert(prev.spec_storage().spec_contains(prev.a2t()[j2].unwrap()));
            } else {
                assert(self.a2t()[j1] == prev.a2t()[j1]);
                assert(prev.spec_storage().spec_contains(prev.a2t()[j1].unwrap()));
            }
        }
        assert forall|j: int, e: Entity|
            0 <= j < self.a2t().len() && (#[trigger] self.a2t()[j]) is Some
                && (#[trigger] self.spec_storage().spec_table(self.a2t()[j].unwrap()).dir_contains(e)) implies self.arch_of(e) == Some(ArchetypeId(j as usize)) by {
            let t = self.a2t()[j].unwrap();
            if j == new_aid.0 {
                assert(!self.spec_storage().spec_table(new_tid).dir_contains(e));
            } else {
                assert(self.a2t()[j] == prev.a2t()[j]);
                assert(t != new_tid) by {
                    assert(prev.spec_storage().spec_contains(t));
                }
                assert(prev.spec_storage().spec_table(t).dir_contains(e));
                assert(prev.arch_of(e) == Some(ArchetypeId(j as usize)));
            }
        }
        assert forall|p: Seq<TypeId>|
            (#[trigger] self.spec_archetypes().trie_at(p)) is Some implies self.table_of(
            self.spec_archetypes().trie_at(p).unwrap(),
        ) is Some by {
            if p == new_info.ids() {
            } else {
                assert(self.spec_archetypes().trie_at(p) == prev.spec_archetypes().trie_at(p));
                let a = prev.spec_archetypes().trie_at(p).unwrap();
                assert(prev.table_of(a) is Some);
                assert(a != new_aid) by {
                    if a == new_aid {
                        assert(prev.a2t()[new_aid.0 as int] is Some);
                        assert(prev.spec_archetypes().spec_contains(new_aid));
                    }
                }
            }
        }
        assert forall|j1: int, j2: int, k: TypeId|
            0 <= j1 < self.a2t().len() && 0 <= j2 < self.a2t().len() && (#[trigger] self.a2t()[j1])
                is Some && (#[trigger] self.a2t()[j2]) is Some
                && self.spec_archetypes().spec_info(ArchetypeId(j1 as usize)).has(k)
                && self.spec_archetypes().spec_info(ArchetypeId(j2 as usize)).has(k) implies #[trigger] self.spec_archetypes().spec_info(ArchetypeId(j1 as usize)).info_of(k) == self.spec_archetypes().spec_info(ArchetypeId(j2 as usize)).info_of(k) by {
            if j1 == new_aid.0 && j2 == new_aid.0 {
            } else if j1 == new_aid.0 {
                assert(self.a2t()[j2] == prev.a2t()[j2]);
            } else if j2 == new_aid.0 {
                assert(self.a2t()[j1] == prev.a2t()[j1]);
            } else {
                assert(self.a2t()[j1] == prev.a2t()[j1]);
                assert(self.a2t()[j2] == prev.a2t()[j2]);
            }
        }
        assert forall|e: Entity| #[trigger] self.arch_of(e) == prev.arch_of(e) by {}
        assert forall|e: Entity| #[trigger] self.comp_map(e) == prev.comp_map(e) by {
            match prev.arch_of(e) {
                Some(a) => {
                    if prev.table_of(a) is Some {
                        let t = prev.table_of(a).unwrap();
                        assert(a != new_aid ==> self.table_of(a) == Some(t));
                        if a == new_aid {
                            assert(prev.a2t()[new_aid.0 as int] is Some);
                            assert(prev.spec_archetypes().spec_contains(new_aid));
                            assert(false);
                        } else {
                            assert(prev.spec_storage().spec_contains(t)) by {
                                assert(prev.a2t()[a.0 as int] is Some);
                            }
                            assert(t != new_tid);
                            assert(self.spec_storage().spec_table(t)
                                == prev.spec_storage().spec_table(t));
                        }
                    }
                },
                None => {},
            }
        }
    }

    /// Whether the trie has no entry for a kind sequence.
    pub open spec fn trie_at_none(self, p: Seq<TypeId>) -> bool {
        self.spec_archetypes().trie_at(p) is None
    }

    /// Moves a mapped entity to the table of its archetype enlarged by
    /// one kind, writing the new kind's value.
    fn attach_and_transfer(
        &mut self,
        entity: Entity,
        aid: ArchetypeId,
        old_tid: TableId,
        new_info: ArchetypeInfo,
        info: TypeInfo,
        bytes: &Vec<u8>,
    ) -> (r: Result<(), Error>)
        requires
            old(self).wf(),
            old(self).live(entity),
            old(self).arch_of(entity) == Some(aid),
            old(self).table_of(aid) == Some(old_tid),
            info.valid(),
            bytes@.len() == info.size,
            old(self).kind_compat(info),
            new_info.wf(),
            !old(self).spec_archetypes().spec_info(aid).has(info.id),
            new_info.has(info.id),
            new_info.info_of(info.id) == info,
            forall|k: TypeId|
                k != info.id ==> #[trigger] new_info.has(k) == old(self).spec_archetypes().spec_info(
                    aid,
                ).has(k),
            forall|k: TypeId|
                k != info.id && old(self).spec_archetypes().spec_info(aid).has(k)
                    ==> #[trigger] new_info.info_of(k) == old(self).spec_archetypes().spec_info(
                    aid,
                ).info_of(k),
        ensures
            final(self).wf(),
            final(self).gen_state() == old(self).gen_state(),
            final(self).res_state() == old(self).res_state(),
            final(self).events_state() == old(self).events_state(),
            r is Ok,
            final(self).comp_map(entity) == old(self).comp_map(entity).insert(info.id, bytes@),
            forall|e: Entity|
                e != entity ==> #[trigger] final(self).comp_map(e) == old(self).comp_map(e),
    {
        let ghost prev = *old(self);
        let ghost gi = new_info;
        proof {
            assert forall|j: int, k: TypeId|
                0 <= j < prev.a2t().len() && (#[trigger] prev.a2t()[j]) is Some
                    && prev.spec_archetypes().spec_info(ArchetypeId(j as usize)).has(k)
                    && new_info.has(k) implies #[trigger] prev.spec_archetypes().spec_info(
                ArchetypeId(j as usize),
            ).info_of(k) == new_info.info_of(k) by {
                if k == info.id {
                } else {
                    assert(prev.a2t()[aid.0 as int] is Some);
                    assert(prev.spec_archetypes().spec_info(aid).has(k));
                    assert(prev.spec_archetypes().spec_info(ArchetypeId(j as usize)).info_of(k)
                        == prev.spec_archetypes().spec_info(aid).info_of(k));
                }
            }
        }
        let (new_aid, new_tid) = self.resolve_target(new_info);
        let ghost mid = *self;
        proof {
            assert(aid != new_aid) by {
                if aid == new_aid {
                    assert(mid.spec_archetypes().spec_info(aid).infos() == gi.infos());
                    assert(mid.spec_archetypes().spec_info(aid) == prev.spec_archetypes().spec_info(
                        aid,
                    )) by {
                        assert(mid.table_of(aid) == prev.table_of(aid));
                    }
                    assert(prev.spec_archetypes().spec_info(aid).has(info.id) == gi.has(info.id));
                }
            }
            assert(mid.table_of(aid) == Some(old_tid));
            assert(old_tid != new_tid) by {
                assert(mid.a2t()[aid.0 as int] is Some);
                assert(mid.a2t()[new_aid.0 as int] is Some);
                if aid.0 < new_aid.0 {
                    assert(mid.a2t()[aid.0 as int].unwrap() != mid.a2t()[new_aid.0 as int].unwrap());
                } else {
                    assert(mid.a2t()[new_aid.0 as int].unwrap() != mid.a2t()[aid.0 as int].unwrap());
                }
            }
            assert(mid.spec_storage().spec_contains(old_tid)) by {
                assert(prev.e2a()[entity.id as int] is Some);
                assert(prev.spec_storage().spec_contains(old_tid));
            }
            assert(mid.spec_storage().spec_table(old_tid) == prev.spec_storage().spec_table(
                old_tid,
            ));
            let f = mid.spec_storage().spec_table(old_tid);
            let t = mid.spec_storage().spec_table(new_tid);
            assert(f.dir_contains(entity)) by {
                let p = prev.e2a()[entity.id as int].unwrap();
                assert(Entity { id: entity.id, gen: p.0 } == entity);
            }
            assert(!t.dir_contains(entity)) by {
                if prev.spec_storage().spec_contains(new_tid) {
                    assert(t == prev.spec_storage().spec_table(new_tid));
                    assert(mid.a2t()[new_aid.0 as int] == Some(new_tid));
                    if t.dir_contains(entity) {
                        assert(mid.arch_of(entity) == Some(new_aid));
                        assert(mid.arch_of(entity) == prev.arch_of(entity));
                    }
                }
            }
            assert(f.infos() == prev.spec_archetypes().spec_info(aid).infos()) by {
                assert(prev.a2t()[aid.0 as int] is Some);
            }
            lemma_kinds_bridge(f, prev.spec_archetypes().spec_info(aid));
            assert(t.infos() == gi.infos());
            lemma_kinds_bridge(t, gi);
            assert(t.has_kind(info.id));
            assert(t.info_of(info.id) == info);
            assert forall|k: TypeId| f.has_kind(k) && t.has_kind(k) implies (
            #[trigger] f.info_of(k)).size == t.info_of(k).size by {
                assert(prev.spec_archetypes().spec_info(aid).has(k));
                assert(k != info.id);
                assert(f.info_of(k) == prev.spec_archetypes().spec_info(aid).info_of(k));
                assert(t.info_of(k) == gi.info_of(k));
            }
        }
        let r = self.storage.transfer_line_with_insertion(old_tid, new_tid, entity, info.id, bytes);
        proof {
            if r is Err {
                assert(false);
            }
        }
        let ghost tr = *self;
        vec_set_at(&mut self.entity_to_archetype, entity.id as usize, (entity.gen, new_aid));
        proof {
            vstd::std_specs::vec::axiom_spec_len(&self.archetype_to_table);
            assert(self.events_state() =~= prev.events_state());
            assert(self.table_of(new_aid) == Some(new_tid));
            assert(self.e2a()[entity.id as int] == Some((entity.gen, new_aid)));
            let arch0 = prev.spec_archetypes().spec_info(aid);
            let f0 = mid.spec_storage().spec_table(old_tid);
            let t0 = mid.spec_storage().spec_table(new_tid);
            let f1 = self.spec_storage().spec_table(old_tid);
            let t1 = self.spec_storage().spec_table(new_tid);
            lemma_kinds_bridge(t1, gi);
            lemma_kinds_bridge(f0, arch0);
            assert(t0.infos() == gi.infos());
            // the entity moved: well-formedness of the maps
            assert forall|i: int|
                0 <= i < self.e2a().len() && (#[trigger] self.e2a()[i]) is Some implies {
                let p = self.e2a()[i].unwrap();
                &&& self.gen_state().live(Entity { id: i as u16, gen: p.0 })
                &&& self.table_of(p.1) is Some
                &&& self.spec_storage().spec_contains(self.table_of(p.1).unwrap())
                &&& self.spec_storage().spec_table(self.table_of(p.1).unwrap()).dir_contains(
                    Entity { id: i as u16, gen: p.0 },
                )
            } by {
                let p = self.e2a()[i].unwrap();
                let e2 = Entity { id: i as u16, gen: p.0 };
                if i == entity.id {
                    assert(e2 == entity);
                    assert(t1.dir_contains(entity));
                } else {
                    assert(self.e2a()[i] == prev.e2a()[i]);
                    assert(prev.e2a()[i] is Some);
                    assert(prev.gen_state().live(e2));
                    assert(prev.table_of(p.1) is Some);
                    let t2 = prev.table_of(p.1).unwrap();
                    assert(prev.spec_storage().spec_contains(t2));
                    assert(mid.spec_storage().spec_table(t2) == prev.spec_storage().spec_table(t2));
                    assert(self.table_of(p.1) == Some(t2)) by {
                        if p.1 == new_aid {
                            assert(prev.table_of(new_aid) == Some(new_tid));
                            assert(self.table_of(new_aid) == Some(new_tid));
                        }
                    }
                    assert(e2 != entity);
                    assert(prev.spec_storage().spec_table(t2).dir_contains(e2));
                    if t2 == old_tid {
                        assert(f1.dir_contains(e2) == f0.dir_contains(e2));
                    } else if t2 == new_tid {
                        assert(t1.dir_contains(e2) == t0.dir_contains(e2));
                        assert(t0.dir_contains(e2)) by {
                            assert(prev.spec_storage().spec_contains(new_tid));
                            assert(t0 == prev.spec_storage().spec_table(new_tid));
                        }
                    } else {
                        assert(self.spec_storage().spec_table(t2) == mid.spec_storage().spec_table(
                            t2,
                        ));
                    }
                }
            }
            assert forall|j: int|
                0 <= j < self.a2t().len() && (#[trigger] self.a2t()[j]) is Some implies {
                let a = ArchetypeId(j as usize);
                let t = self.a2t()[j].unwrap();
                &&& self.spec_archetypes().spec_contains(a)
                &&& self.spec_archetypes().spec_info(a).wf()
                &&& self.spec_storage().spec_contains(t)
                &&& self.spec_storage().spec_table(t).infos() == self.spec_archetypes().spec_info(
                    a,
                ).infos()
                &&& self.spec_archetypes().trie_at(self.spec_archetypes().spec_info(a).ids())
                    == Some(a)
            } by {
                let a = ArchetypeId(j as usize);
                let t = self.a2t()[j].unwrap();
                assert(mid.a2t()[j] is Some);
                assert(mid.spec_storage().spec_contains(t));
                assert(mid.spec_storage().spec_table(t).infos()
                    == mid.spec_archetypes().spec_info(a).infos());
                if t == old_tid {
                    assert(f1.infos() == f0.infos());
                } else if t == new_tid {
                    assert(t1.infos() == t0.infos());
                } else {
                    assert(self.spec_storage().spec_table(t) == mid.spec_storage().spec_table(t));
                }
            }
            assert forall|j: int, e: Entity|
                0 <= j < self.a2t().len() && (#[trigger] self.a2t()[j]) is Some
                    && (#[trigger] self.spec_storage().spec_table(
                    self.a2t()[j].unwrap(),
                ).dir_contains(e)) implies self.arch_of(e) == Some(ArchetypeId(j as usize)) by {
                let t = self.a2t()[j].unwrap();
                assert(mid.a2t()[j] is Some);
                if t == new_tid {
                    if e == entity {
                        assert(ArchetypeId(j as usize) == new_aid) by {
                            assert(self.a2t()[new_aid.0 as int] == Some(new_tid));
                            if j != new_aid.0 {
                                if j < new_aid.0 {
                                    assert(self.a2t()[j].unwrap()
                                        != self.a2t()[new_aid.0 as int].unwrap());
                                } else {
                                    assert(self.a2t()[new_aid.0 as int].unwrap()
                                        != self.a2t()[j].unwrap());
                                }
                            }
                        }
                        assert(self.arch_of(entity) == Some(new_aid));
                    } else {
                        assert(t1.dir_contains(e) == t0.dir_contains(e));
                        assert(mid.arch_of(e) == Some(ArchetypeId(j as usize)));
                        assert(prev.arch_of(e) == Some(ArchetypeId(j as usize)));
                        assert(e.id != entity.id) by {
                            if e.id == entity.id {
                                assert(prev.e2a()[entity.id as int] == Some((entity.gen, aid)));
                                assert(e.gen == entity.gen);
                            }
                        }
                        assert(self.arch_of(e) == prev.arch_of(e));
                    }
                } else if t == old_tid {
                    assert(!f1.dir_contains(entity));
                    assert(e != entity);
                    assert(f1.dir_contains(e) == f0.dir_contains(e));
                    assert(prev.arch_of(e) == Some(ArchetypeId(j as usize)));
                    assert(e.id != entity.id) by {
                        if e.id == entity.id {
                            assert(prev.e2a()[entity.id as int] == Some((entity.gen, aid)));
                            assert(e.gen == entity.gen);
                        }
                    }
                    assert(self.arch_of(e) == prev.arch_of(e));
                } else {
                    assert(self.spec_storage().spec_table(t) == mid.spec_storage().spec_table(t));
                    assert(mid.arch_of(e) == Some(ArchetypeId(j as usize)));
                    assert(prev.arch_of(e) == Some(ArchetypeId(j as usize)));
                    assert(e != entity) by {
                        if e == entity {
                            assert(prev.arch_of(entity) == Some(aid));
                            assert(ArchetypeId(j as usize) == aid);
                            assert(aid.0 as int == j);
                            assert(prev.table_of(aid) == Some(old_tid));
                            assert(self.a2t()[j] == mid.a2t()[j]);
                            assert(mid.table_of(aid) == prev.table_of(aid));
                            assert(mid.a2t()[j] == Some(old_tid));
                            assert(t == old_tid);
                        }
                    }
                    assert(e.id != entity.id) by {
                        if e.id == entity.id {
                            assert(prev.e2a()[entity.id as int] == Some((entity.gen, aid)));
                            assert(e.gen == entity.gen);
                        }
                    }
                    assert(self.arch_of(e) == prev.arch_of(e));
                }
            }
            assert forall|p: Seq<TypeId>|
                (#[trigger] self.spec_archetypes().trie_at(p)) is Some implies self.table_of(
                self.spec_archetypes().trie_at(p).unwrap(),
            ) is Some by {
                assert(mid.spec_archetypes().trie_at(p) is Some);
                assert(mid.table_of(mid.spec_archetypes().trie_at(p).unwrap()) is Some);
            }
            assert(self.wf());
            // the moved entity's view gained exactly the new kind
            assert(self.comp_map(entity) =~= prev.comp_map(entity).insert(info.id, bytes@)) by {
                assert(self.arch_of(entity) == Some(new_aid));
                assert(self.comp_map(entity) == t1.row_map(entity));
                assert(prev.comp_map(entity) == prev.spec_storage().spec_table(old_tid).row_map(
                    entity,
                ));
                assert(f0 == prev.spec_storage().spec_table(old_tid));
                assert forall|k: TypeId| #[trigger] t1.has_kind(k) && k != info.id implies t1.value_at(
                    entity,
                    k,
                ) == f0.value_at(entity, k) by {
                    assert(gi.has(k));
                    assert(arch0.has(k));
                    assert(f0.has_kind(k));
                    assert(t0.has_kind(k)) by {
                        let w = choose|w: int|
                            0 <= w < gi.infos().len() && (#[trigger] gi.infos()[w]).id == k;
                        assert(t0.infos()[w].id == k);
                    }
                }
                assert forall|k: TypeId| #[trigger] f0.has_kind(k) implies t1.has_kind(k) by {
                    assert(arch0.has(k));
                    assert(k != info.id);
                    assert(gi.has(k));
                }
            }
            // every other entity's view is untouched
            assert forall|e: Entity| e != entity implies #[trigger] self.comp_map(e)
                == prev.comp_map(e) by {
                if e.id == entity.id {
                    assert(prev.e2a()[entity.id as int] == Some((entity.gen, aid)));
                    assert(prev.arch_of(e) is None);
                    assert(self.arch_of(e) is None);
                } else {
                    assert(self.arch_of(e) == prev.arch_of(e));
                    match prev.arch_of(e) {
                        Some(a) => {
                            assert(prev.e2a()[e.id as int] is Some);
                            let p = prev.e2a()[e.id as int].unwrap();
                            assert(Entity { id: e.id, gen: p.0 } == e);
                            let t2 = prev.table_of(a).unwrap();
                            assert(prev.spec_storage().spec_contains(t2));
                            assert(prev.spec_storage().spec_table(t2).dir_contains(e));
                            assert(self.table_of(a) == Some(t2)) by {
                                if a == new_aid {
                                    assert(prev.table_of(new_aid) == Some(new_tid));
                                    assert(self.table_of(new_aid) == Some(new_tid));
                                }
                            }
                            let old_t = prev.spec_storage().spec_table(t2);
                            let new_t = self.spec_storage().spec_table(t2);
                            assert(mid.spec_storage().spec_table(t2) == old_t);
                            assert(new_t.row_map(e) =~= old_t.row_map(e)) by {
                                if t2 == old_tid {
                                    assert forall|k: TypeId| #[trigger] old_t.has_kind(k) implies f1.value_at(
                                        e,
                                        k,
                                    ) == f0.value_at(e, k) by {}
                                    assert(f1.infos() == f0.infos());
                                } else if t2 == new_tid {
                                    assert(t0.dir_contains(e));
                                    assert forall|k: TypeId| #[trigger] t0.has_kind(k) implies t1.value_at(
                                        e,
                                        k,
                                    ) == t0.value_at(e, k) by {}
                                } else {
                                    assert(new_t == old_t);
                                }
                            }
                        },
                        None => {
                            assert(self.comp_map(e) =~= prev.comp_map(e));
                        },
                    }
                }
            }
        }
        Ok(())
    }

    /// Places an entity that carries nothing yet into the table of the
    /// one-kind archetype, writing the kind's value.
    fn attach_fresh(
        &mut self,
        entity: Entity,
        new_info: ArchetypeInfo,
        info: TypeInfo,
        bytes: &Vec<u8>,
    ) -> (r: Result<(), Error>)
        requires
            old(self).wf(),
            old(self).live(entity),
            old(self).arch_of(entity) is None,
            info.valid(),
            bytes@.len() == info.size,
            old(self).kind_compat(info),
            new_info.wf(),
            new_info.has(info.id),
            new_info.info_of(info.id) == info,
            forall|k: TypeId| #[trigger] new_info.has(k) == (k == info.id),
        ensures
            final(self).wf(),
            final(self).gen_state() == old(self).gen_state(),
            final(self).res_state() == old(self).res_state(),
            final(self).events_state() == old(self).events_state(),
            r is Ok,
            final(self).comp_map(entity) == old(self).comp_map(entity).insert(info.id, bytes@),
            forall|e: Entity|
                e != entity ==> #[trigger] final(self).comp_map(e) == old(self).comp_map(e),
    {
        let ghost prev = *old(self);
        let ghost gi = new_info;
        proof {
            assert forall|j: int, k: TypeId|
                0 <= j < prev.a2t().len() && (#[trigger] prev.a2t()[j]) is Some
                    && prev.spec_archetypes().spec_info(ArchetypeId(j as usize)).has(k)
                    && new_info.has(k) implies #[trigger] prev.spec_archetypes().spec_info(
                ArchetypeId(j as usize),
            ).info_of(k) == new_info.info_of(k) by {
                assert(k == info.id);
            }
        }
        let (new_aid, new_tid) = self.resolve_target(new_info);
        let ghost mid = *self;
        proof {
            let t = mid.spec_storage().spec_table(new_tid);
            assert(!t.dir_contains(entity)) by {
                if prev.spec_storage().spec_contains(new_tid) {
                    assert(t == prev.spec_storage().spec_table(new_tid));
                    assert(mid.a2t()[new_aid.0 as int] == Some(new_tid));
                    if t.dir_contains(entity) {
                        assert(mid.arch_of(entity) == Some(new_aid));
                        assert(mid.arch_of(entity) == prev.arch_of(entity));
                    }
                }
            }
            assert(t.infos() == gi.infos());
            lemma_kinds_bridge(t, gi);
        }
        let r1 = self.storage.add_entity(new_tid, entity);
        proof {
            if r1 is Err {
                assert(false);
            }
        }
        let r2 = self.storage.insert_component(new_tid, &entity, info.id, bytes);
        proof {
            if r2 is Err {
                assert(false);
            }
        }
        let ghost tr = *self;
        vec_set_at(&mut self.entity_to_archetype, entity.id as usize, (entity.gen, new_aid));
        proof {
            vstd::std_specs::vec::axiom_spec_len(&self.archetype_to_table);
            assert(self.events_state() =~= prev.events_state());
            assert(self.table_of(new_aid) == Some(new_tid));
            assert(self.e2a()[entity.id as int] == Some((entity.gen, new_aid)));
            let t0 = mid.spec_storage().spec_table(new_tid);
            let t1 = self.spec_storage().spec_table(new_tid);
            lemma_kinds_bridge(t1, gi);
            assert(t0.infos() == gi.infos());
            assert forall|i: int|
                0 <= i < self.e2a().len() && (#[trigger] self.e2a()[i]) is Some implies {
                let p = self.e2a()[i].unwrap();
                &&& self.gen_state().live(Entity { id: i as u16, gen: p.0 })
                &&& self.table_of(p.1) is Some
                &&& self.spec_storage().spec_contains(self.table_of(p.1).unwrap())
                &&& self.spec_storage().spec_table(self.table_of(p.1).unwrap()).dir_contains(
                    Entity { id: i as u16, gen: p.0 },
                )
            } by {
                let p = self.e2a()[i].unwrap();
                let e2 = Entity { id: i as u16, gen: p.0 };
                if i == entity.id {
                    assert(e2 == entity);
                    assert(t1.dir_contains(entity));
                } else {
                    assert(self.e2a()[i] == prev.e2a()[i]);
                    assert(prev.e2a()[i] is Some);
                    assert(prev.gen_state().live(e2));
                    assert(prev.table_of(p.1) is Some);
                    let t2 = prev.table_of(p.1).unwrap();
                    assert(prev.spec_storage().spec_contains(t2));
                    assert(mid.spec_storage().spec_table(t2) == prev.spec_storage().spec_table(t2));
                    assert(self.table_of(p.1) == Some(t2)) by {
                        if p.1 == new_aid {
                            assert(prev.table_of(new_aid) == Some(new_tid));
                            assert(self.table_of(new_aid) == Some(new_tid));
                        }
                    }
                    assert(e2 != entity);
                    assert(prev.spec_storage().spec_table(t2).dir_contains(e2));
                    if t2 == new_tid {
                        assert(t1.dir_contains(e2) == t0.dir_contains(e2));
                        assert(t0.dir_contains(e2)) by {
                            assert(t0 == prev.spec_storage().spec_table(new_tid));
                        }
                    } else {
                        assert(self.spec_storage().spec_table(t2) == mid.spec_storage().spec_table(
                            t2,
                        ));
                    }
                }
            }
            assert forall|j: int|
                0 <= j < self.a2t().len() && (#[trigger] self.a2t()[j]) is Some implies {
                let a = ArchetypeId(j as usize);
                let t = self.a2t()[j].unwrap();
                &&& self.spec_archetypes().spec_contains(a)
                &&& self.spec_archetypes().spec_info(a).wf()
                &&& self.spec_storage().spec_contains(t)
                &&& self.spec_storage().spec_table(t).infos() == self.spec_archetypes().spec_info(
                    a,
                ).infos()
                &&& self.spec_archetypes().trie_at(self.spec_archetypes().spec_info(a).ids())
                    == Some(a)
            } by {
                let a = ArchetypeId(j as usize);
                let t = self.a2t()[j].unwrap();
                assert(mid.a2t()[j] is Some);
                assert(mid.spec_storage().spec_table(t).infos()
                    == mid.spec_archetypes().spec_info(a).infos());
                if t == new_tid {
                    assert(t1.infos() == t0.infos());
                } else {
                    assert(self.spec_storage().spec_table(t) == mid.spec_storage().spec_table(t));
                }
            }
            assert forall|j: int, e: Entity|
                0 <= j < self.a2t().len() && (#[trigger] self.a2t()[j]) is Some
                    && (#[trigger] self.spec_storage().spec_table(
                    self.a2t()[j].unwrap(),
                ).dir_contains(e)) implies self.arch_of(e) == Some(ArchetypeId(j as usize)) by {
                let t = self.a2t()[j].unwrap();
                assert(mid.a2t()[j] is Some);
                if t == new_tid {
                    if e == entity {
                        assert(ArchetypeId(j as usize) == new_aid) by {
                            assert(self.a2t()[new_aid.0 as int] == Some(new_tid));
                            if j != new_aid.0 {
                                if j < new_aid.0 {
                                    assert(self.a2t()[j].unwrap()
                                        != self.a2t()[new_aid.0 as int].unwrap());
                                } else {
                                    assert(self.a2t()[new_aid.0 as int].unwrap()
                                        != self.a2t()[j].unwrap());
                                }
                            }
                        }
                        assert(self.arch_of(entity) == Some(new_aid));
                    } else {
                        assert(t1.dir_contains(e) == t0.dir_contains(e));
                        assert(mid.arch_of(e) == Some(ArchetypeId(j as usize)));
                        assert(prev.arch_of(e) == Some(ArchetypeId(j as usize)));
                        assert(e.id != entity.id) by {
                            if e.id == entity.id {
                                assert(prev.arch_of(Entity { id: entity.id, gen: e.gen }) is Some);
                                let p = prev.e2a()[entity.id as int].unwrap();
                                assert(prev.gen_state().live(Entity { id: entity.id, gen: p.0 }));
                                assert(p.0 == e.gen);
                                assert(prev.gen_state().live(entity));
                                assert(e.gen == entity.gen);
                            }
                        }
                        assert(self.arch_of(e) == prev.arch_of(e));
                    }
                } else {
                    assert(self.spec_storage().spec_table(t) == mid.spec_storage().spec_table(t));
                    assert(mid.arch_of(e) == Some(ArchetypeId(j as usize)));
                    assert(prev.arch_of(e) == Some(ArchetypeId(j as usize)));
                    assert(e != entity) by {
                        if e == entity {
                            assert(prev.arch_of(entity) is None);
                        }
                    }
                    assert(e.id != entity.id) by {
                        if e.id == entity.id {
                            let p = prev.e2a()[entity.id as int].unwrap();
                            assert(prev.gen_state().live(Entity { id: entity.id, gen: p.0 }));
                            assert(p.0 == e.gen);
                            assert(prev.gen_state().live(entity));
                            assert(e.gen == entity.gen);
                        }
                    }
                    assert(self.arch_of(e) == prev.arch_of(e));
                }
            }
            assert forall|p: Seq<TypeId>|
                (#[trigger] self.spec_archetypes().trie_at(p)) is Some implies self.table_of(
                self.spec_archetypes().trie_at(p).unwrap(),
            ) is Some by {
                assert(mid.spec_archetypes().trie_at(p) is Some);
                assert(mid.table_of(mid.spec_archetypes().trie_at(p).unwrap()) is Some);
            }
            assert(self.wf());
            assert(self.comp_map(entity) =~= prev.comp_map(entity).insert(info.id, bytes@)) by {
                assert(self.arch_of(entity) == Some(new_aid));
                assert(self.comp_map(entity) == t1.row_map(entity));
                assert(prev.comp_map(entity) =~= Map::<TypeId, Seq<u8>>::empty());
                assert(t1.value_at(entity, info.id) == bytes@);
                assert forall|k: TypeId| #[trigger] t1.has_kind(k) implies k == info.id by {
                    assert(gi.has(k));
                }
            }
            assert forall|e: Entity| e != entity implies #[trigger] self.comp_map(e)
                == prev.comp_map(e) by {
                if e.id == entity.id {
                    assert(prev.arch_of(e) is None) by {
                        if prev.arch_of(e) is Some {
                            let p = prev.e2a()[entity.id as int].unwrap();
                            assert(prev.gen_state().live(Entity { id: entity.id, gen: p.0 }));
                            assert(p.0 == e.gen);
                            assert(prev.gen_state().live(entity));
                            assert(e.gen == entity.gen);
                        }
                    }
                    assert(self.arch_of(e) is None);
                    assert(self.comp_map(e) =~= prev.comp_map(e));
                } else {
                    assert(self.arch_of(e) == prev.arch_of(e));
                    match prev.arch_of(e) {
                        Some(a) => {
                            assert(prev.e2a()[e.id as int] is Some);
                            let p = prev.e2a()[e.id as int].unwrap();
                            assert(Entity { id: e.id, gen: p.0 } == e);
                            let t2 = prev.table_of(a).unwrap();
                            assert(prev.spec_storage().spec_contains(t2));
                            assert(prev.spec_storage().spec_table(t2).dir_contains(e));
                            assert(self.table_of(a) == Some(t2)) by {
                                if a == new_aid {
                                    assert(prev.table_of(new_aid) == Some(new_tid));
                                    assert(self.table_of(new_aid) == Some(new_tid));
                                }
                            }
                            let old_t = prev.spec_storage().spec_table(t2);
                            let new_t = self.spec_storage().spec_table(t2);
                            assert(mid.spec_storage().spec_table(t2) == old_t);
                            assert(new_t.row_map(e) =~= old_t.row_map(e)) by {
                                if t2 == new_tid {
                                    assert(t0.dir_contains(e));
                                    assert forall|k: TypeId| #[trigger] t0.has_kind(k) implies t1.value_at(
                                        e,
                                        k,
                                    ) == t0.value_at(e, k) by {}
                                } else {
                                    assert(new_t == old_t);
                                }
                            }
                        },
                        None => {
                            assert(self.comp_map(e) =~= prev.comp_map(e));
                        },
                    }
                }
            }
        }
        Ok(())
    }

    /// Whether an event kind has a registered pipe.
    pub open spec fn event_registered(self, k: TypeId) -> bool {
        exists|i: int|
            0 <= i < self.events_state().len() && (#[trigger] self.events_state()[i]).0 == k
    }

    /// The position of an event kind's pipe.
    pub open spec fn event_index(self, k: TypeId) -> int
        recommends
            self.event_registered(k),
    {
        choose|i: int|
            0 <= i < self.events_state().len() && (#[trigger] self.events_state()[i]).0 == k
    }

    /// The events of one kind sent since the pipe was registered or last
    /// cleared, in order.
    pub open spec fn event_queue(self, k: TypeId) -> Seq<Seq<u8>>
        recommends
            self.event_registered(k),
    {
        self.events_state()[self.event_index(k)].1
    }

    /// The one pipe that carries an event kind.
    proof fn lemma_event_unique(self, i: int, k: TypeId)
        requires
            0 <= i < self.events_state().len(),
            self.events_state()[i].0 == k,
            forall|a: int, b: int|
                0 <= a < b < self.events_state().len() ==> (#[trigger] self.events_state()[a]).0
                    != (#[trigger] self.events_state()[b]).0,
        ensures
            self.event_registered(k),
            self.event_index(k) == i,
    {
        let w = self.event_index(k);
        if w != i {
            if w < i {
                assert(self.events_state()[w].0 != self.events_state()[i].0);
            } else {
                assert(self.events_state()[i].0 != self.events_state()[w].0);
            }
        }
    }

    /// The position of an event kind's pipe, if one is registered.
    fn event_search(&self, kind: TypeId) -> (r: Option<usize>)
        requires
            self.wf(),
        ensures
            match r {
                Some(i) => i < self.events_state().len() && self.events_state()[i as int].0 == kind
                    && self.event_registered(kind) && self.event_index(kind) == i,
                None => !self.event_registered(kind),
            },
    {
        let mut i: usize = 0;
        while i < self.events.len()
            invariant
                self.wf(),
                i <= self.events_state().len(),
                self.events_state().len() == self.events@.len(),
                forall|j: int| 0 <= j < i ==> (#[trigger] self.events_state()[j]).0 != kind,
            decreases self.events@.len() - i,
        {
            proof {
                assert(self.events_state()[i as int].0 == self.events@[i as int].0);
            }
            if self.events[i].0.0 == kind.0 {
                proof {
                    assert(self.events_state()[i as int].0 == kind) by {
                        assert(self.events_state()[i as int].0.0 == kind.0);
                    }
                    self.lemma_event_unique(i as int, kind);
                }
                return Some(i);
            }
            proof {
                assert(self.events_state()[i as int].0 != kind) by {
                    assert(self.events_state()[i as int].0.0 != kind.0);
                }
            }
            i = i + 1;
        }
        None
    }

    /// Registers an event kind: its pipe starts (or starts over) empty.
    pub fn add_event(&mut self, kind: TypeId)
        requires
            old(self).wf(),
        ensures
            final(self).wf(),
            final(self).gen_state() == old(self).gen_state(),
            final(self).res_state() == old(self).res_state(),
            forall|e: Entity| #[trigger] final(self).comp_map(e) == old(self).comp_map(e),
            forall|e: Entity| final(self).live(e) == old(self).live(e),
            final(self).event_registered(kind),
            final(self).event_queue(kind) =~= Seq::<Seq<u8>>::empty(),
            forall|k: TypeId|
                k != kind ==> final(self).event_registered(k) == old(self).event_registered(k),
            forall|k: TypeId|
                k != kind && old(self).event_registered(k) ==> final(self).event_queue(k) == old(
                    self,
                ).event_queue(k),
    {
        let ghost prev = *old(self);
        match self.event_search(kind) {
            Some(i) => {
                self.events.set(i, (kind, Vec::new()));
                proof {
                    self.lemma_event_update(prev, i as int, kind);
                }
            },
            None => {
                self.events.push((kind, Vec::new()));
                proof {
                    self.lemma_event_push(prev, kind);
                }
            },
        }
        proof {
            self.lemma_frame_core(prev);
        }
    }

    /// Appends an event to a registered pipe.
    pub fn send_event(&mut self, kind: TypeId, bytes: Vec<u8>) -> (r: Result<(), Error>)
        requires
            old(self).wf(),
        ensures
            final(self).wf(),
            final(self).gen_state() == old(self).gen_state(),
            final(self).res_state() == old(self).res_state(),
            forall|e: Entity| #[trigger] final(self).comp_map(e) == old(self).comp_map(e),
            forall|e: Entity| final(self).live(e) == old(self).live(e),
            match r {
                Ok(()) => {
                    &&& old(self).event_registered(kind)
                    &&& final(self).event_registered(kind)
                    &&& final(self).event_queue(kind) == old(self).event_queue(kind).push(bytes@)
                    &&& forall|k: TypeId|
                        k != kind ==> final(self).event_registered(k) == old(
                            self,
                        ).event_registered(k)
                    &&& forall|k: TypeId|
                        k != kind && old(self).event_registered(k) ==> final(self).event_queue(k)
                            == old(self).event_queue(k)
                },
                Err(e2) => e2 == Error::Resources(crate::resources::Error::GetNonExisting(kind))
                    && !old(self).event_registered(kind) && final(self).events_state() == old(
                    self,
                ).events_state(),
            },
    {
        let ghost prev = *old(self);
        match self.event_search(kind) {
            Some(i) => {
                let mut entry: (TypeId, Vec<Vec<u8>>) = (kind, Vec::new());
                core::mem::swap(&mut entry, &mut self.events[i]);
                let ghost q0 = entry.1@;
                entry.1.push(bytes);
                let k0 = entry.0;
                proof {
                    assert(k0 == kind) by {
                        assert(prev.events_state()[i as int].0 == prev.events@[i as int].0);
                    }
                }
                self.events.set(i, entry);
                proof {
                    assert(self.events@ =~= prev.events@.update(i as int, entry));
                    self.lemma_event_update(prev, i as int, kind);
                    assert(self.event_queue(kind) =~= prev.event_queue(kind).push(bytes@)) by {
                        assert(self.events_state()[i as int].1 == entry.1@.map_values(
                            |v: Vec<u8>| v@,
                        ));
                        assert(prev.events_state()[i as int].1 == prev.events@[i as int].1@.map_values(
                            |v: Vec<u8>| v@,
                        ));
                        assert(entry.1@ == q0.push(bytes));
                        assert forall|m: int|
                            0 <= m < entry.1@.len() implies entry.1@.map_values(|v: Vec<u8>| v@)[m]
                            == prev.events_state()[i as int].1.push(bytes@)[m] by {
                            if m < q0.len() {
                                assert(entry.1@[m] == q0[m]);
                            }
                        }
                    }
                    self.lemma_frame_core(prev);
                }
                Ok(())
            },
            None => Err(Error::Resources(crate::resources::Error::GetNonExisting(kind))),
        }
    }

    /// The events of one kind sent so far, in order.
    pub fn events(&self, kind: TypeId) -> (r: Result<Vec<Vec<u8>>, Error>)
        requires
            self.wf(),
        ensures
            match r {
                Ok(v) => self.event_registered(kind) && v@.map_values(|x: Vec<u8>| x@)
                    == self.event_queue(kind),
                Err(e) => e == Error::Resources(crate::resources::Error::GetNonExisting(kind))
                    && !self.event_registered(kind),
            },
    {
        match self.event_search(kind) {
            Some(i) => {
                let entry = &self.events[i];
                let mut out: Vec<Vec<u8>> = Vec::new();
                let mut m: usize = 0;
                while m < entry.1.len()
                    invariant
                        m <= entry.1@.len(),
                        out@.len() == m,
                        forall|j: int| 0 <= j < m ==> (#[trigger] out@[j])@ == entry.1@[j]@,
                    decreases entry.1@.len() - m,
                {
                    out.push(copy_bytes(&entry.1[m]));
                    m = m + 1;
                }
                proof {
                    assert(self.events_state()[i as int].1 == entry.1@.map_values(
                        |v: Vec<u8>| v@,
                    ));
                    assert(out@.map_values(|x: Vec<u8>| x@) =~= self.event_queue(kind));
                }
                Ok(out)
            },
            None => Err(Error::Resources(crate::resources::Error::GetNonExisting(kind))),
        }
    }

    /// Empties the pipe of one event kind.
    pub fn clear_events(&mut self, kind: TypeId) -> (r: Result<(), Error>)
        requires
            old(self).wf(),
        ensures
            final(self).wf(),
            final(self).gen_state() == old(self).gen_state(),
            final(self).res_state() == old(self).res_state(),
            forall|e: Entity| #[trigger] final(self).comp_map(e) == old(self).comp_map(e),
            forall|e: Entity| final(self).live(e) == old(self).live(e),
            match r {
                Ok(()) => {
                    &&& old(self).event_registered(kind)
                    &&& final(self).event_registered(kind)
                    &&& final(self).event_queue(kind) =~= Seq::<Seq<u8>>::empty()
                    &&& forall|k: TypeId|
                        k != kind ==> final(self).event_registered(k) == old(
                            self,
                        ).event_registered(k)
                    &&& forall|k: TypeId|
                        k != kind && old(self).event_registered(k) ==> final(self).event_queue(k)
                            == old(self).event_queue(k)
                },
                Err(e2) => e2 == Error::Resources(crate::resources::Error::GetNonExisting(kind))
                    && !old(self).event_registered(kind) && final(self).events_state() == old(
                    self,
                ).events_state(),
            },
    {
        let ghost prev = *old(self);
        match self.event_search(kind) {
            Some(i) => {
                self.events.set(i, (kind, Vec::new()));
                proof {
                    self.lemma_event_update(prev, i as int, kind);
                    self.lemma_frame_core(prev);
                }
                Ok(())
            },
            None => Err(Error::Resources(crate::resources::Error::GetNonExisting(kind))),
        }
    }

    /// Replacing one pipe, keeping its kind, leaves the other pipes alone.
    proof fn lemma_event_update(self, prev: World, i: int, kid: TypeId)
        requires
            prev.wf(),
            0 <= i < prev.events_state().len(),
            prev.events_state()[i].0 == kid,
            self.gen_state() == prev.gen_state(),
            self.spec_archetypes() == prev.spec_archetypes(),
            self.spec_storage() == prev.spec_storage(),
            self.res_state() == prev.res_state(),
            self.e2a() == prev.e2a(),
            self.a2t() == prev.a2t(),
            self.events@ == prev.events@.update(i, self.events@[i]),
            self.events@[i].0 == kid,
        ensures
            self.wf(),
            self.event_registered(kid),
            self.event_index(kid) == i,
            self.events_state()[i].1 == self.events@[i].1@.map_values(|v: Vec<u8>| v@),
            forall|k: TypeId|
                k != kid ==> self.event_registered(k) == prev.event_registered(k),
            forall|k: TypeId|
                k != kid && prev.event_registered(k) ==> self.event_queue(k) == prev.event_queue(
                    k,
                ),
    {
        assert(self.events_state().len() == prev.events_state().len());
        assert forall|j: int| 0 <= j < self.events_state().len() && j != i implies (
        #[trigger] self.events_state()[j]) == prev.events_state()[j] by {
            assert(self.events@[j] == prev.events@[j]);
        }
        assert(self.events_state()[i].0 == kid);
        assert forall|a: int, b: int|
            0 <= a < b < self.events_state().len() implies (#[trigger] self.events_state()[a]).0
            != (#[trigger] self.events_state()[b]).0 by {
            assert(self.events_state()[a].0 == prev.events_state()[a].0);
            assert(self.events_state()[b].0 == prev.events_state()[b].0);
        }
        self.lemma_event_unique(i, kid);
        assert forall|k: TypeId| k != kid implies self.event_registered(k) == prev.event_registered(
            k,
        ) by {
            if prev.event_registered(k) {
                let w = prev.event_index(k);
                assert(prev.events_state()[w].0 == k);
                assert(w != i);
                assert(self.events_state()[w].0 == k);
            }
            if self.event_registered(k) {
                let w = choose|w: int|
                    0 <= w < self.events_state().len() && (#[trigger] self.events_state()[w]).0
                        == k;
                assert(prev.events_state()[w].0 == k);
            }
        }
        assert forall|k: TypeId| k != kid && prev.event_registered(k) implies self.event_queue(k)
            == prev.event_queue(k) by {
            let w = prev.event_index(k);
            assert(prev.events_state()[w].0 == k);
            assert(w != i);
            assert(self.events_state()[w] == prev.events_state()[w]);
            self.lemma_event_unique(w, k);
            prev.lemma_event_unique(w, k);
        }
        assert(self.wf()) by {
            self.lemma_frame_core(prev);
        }
    }

    /// Registering a fresh pipe leaves the other pipes alone.
    proof fn lemma_event_push(self, prev: World, kid: TypeId)
        requires
            prev.wf(),
            !prev.event_registered(kid),
            self.gen_state() == prev.gen_state(),
            self.spec_archetypes() == prev.spec_archetypes(),
            self.spec_storage() == prev.spec_storage(),
            self.res_state() == prev.res_state(),
            self.e2a() == prev.e2a(),
            self.a2t() == prev.a2t(),
            self.events@ == prev.events@.push(self.events@[prev.events@.len() as int]),
            self.events@[prev.events@.len() as int].0 == kid,
            self.events@[prev.events@.len() as int].1@.len() == 0,
        ensures
            self.wf(),
            self.event_registered(kid),
            self.event_queue(kid) =~= Seq::<Seq<u8>>::empty(),
            forall|k: TypeId|
                k != kid ==> self.event_registered(k) == prev.event_registered(k),
            forall|k: TypeId|
                k != kid && prev.event_registered(k) ==> self.event_queue(k) == prev.event_queue(
                    k,
                ),
    {
        let n = prev.events@.len() as int;
        assert(self.events_state().len() == prev.events_state().len() + 1);
        assert forall|j: int| 0 <= j < n implies (#[trigger] self.events_state()[j])
            == prev.events_state()[j] by {
            assert(self.events@[j] == prev.events@[j]);
        }
        assert(self.events_state()[n].0 == kid);
        assert forall|a: int, b: int|
            0 <= a < b < self.events_state().len() implies (#[trigger] self.events_state()[a]).0
            != (#[trigger] self.events_state()[b]).0 by {
            if b == n {
                assert(self.events_state()[a] == prev.events_state()[a]);
                if self.events_state()[a].0 == kid {
                    assert(prev.event_registered(kid));
                }
            } else {
                assert(self.events_state()[a] == prev.events_state()[a]);
                assert(self.events_state()[b] == prev.events_state()[b]);
            }
        }
        self.lemma_event_unique(n, kid);
        assert(self.events_state()[n].1 =~= Seq::<Seq<u8>>::empty());
        assert forall|k: TypeId| k != kid implies self.event_registered(k) == prev.event_registered(
            k,
        ) by {
            if prev.event_registered(k) {
                let w = prev.event_index(k);
                assert(prev.events_state()[w].0 == k);
                assert(self.events_state()[w].0 == k);
            }
            if self.event_registered(k) {
                let w = choose|w: int|
                    0 <= w < self.events_state().len() && (#[trigger] self.events_state()[w]).0
                        == k;
                assert(w != n);
                assert(prev.events_state()[w].0 == k);
            }
        }
        assert forall|k: TypeId| k != kid && prev.event_registered(k) implies self.event_queue(k)
            == prev.event_queue(k) by {
            let w = prev.event_index(k);
            assert(prev.events_state()[w].0 == k);
            assert(self.events_state()[w] == prev.events_state()[w]);
            self.lemma_event_unique(w, k);
            prev.lemma_event_unique(w, k);
        }
        assert(self.wf()) by {
            self.lemma_frame_core(prev);
        }
    }

    /// Yields one row per live entity that carries every queried kind:
    /// the entity and the bytes of each queried kind's value, in query
    /// order.  No other entity is yielded, and none twice.
    pub fn query(&self, ids: &Vec<TypeId>) -> (r: Vec<crate::table::Row>)
        requires
            self.wf(),
            crate::component::strictly_sorted(ids@),
            ids@.len() >= 1,
        ensures
            forall|m: int|
                0 <= m < r@.len() ==> self.live((#[trigger] r@[m]).entity) && r@[m].values@.len()
                    == ids@.len(),
            forall|m: int, j: int|
                0 <= m < r@.len() && 0 <= j < ids@.len() ==> self.comp_map(
                    (#[trigger] r@[m]).entity,
                ).dom().contains(#[trigger] ids@[j]) && r@[m].values@[j]@ == self.comp_map(
                    r@[m].entity,
                )[ids@[j]],
            forall|e: Entity|
                self.live(e) && (forall|j: int|
                    0 <= j < ids@.len() ==> self.comp_map(e).dom().contains(#[trigger] ids@[j]))
                    ==> exists|m: int| 0 <= m < r@.len() && (#[trigger] r@[m]).entity == e,
            forall|m1: int, m2: int|
                0 <= m1 < m2 < r@.len() ==> (#[trigger] r@[m1]).entity != (
                #[trigger] r@[m2]).entity,
    {
        let aids = self.archetypes.query_ids(ids);
        let mut tids: Vec<TableId> = Vec::new();
        let mut i: usize = 0;
        while i < aids.len()
            invariant
                self.wf(),
                crate::component::strictly_sorted(ids@),
                ids@.len() >= 1,
                forall|aid: ArchetypeId|
                    #[trigger] aids@.contains(aid) <==> exists|p: Seq<TypeId>|
                        #[trigger] self.spec_archetypes().trie_at(p) == Some(aid) && crate::archetype::seq_subset(
                            ids@,
                            p,
                        ),
                forall|aid: ArchetypeId|
                    aids@.contains(aid) ==> self.spec_archetypes().spec_contains(aid)
                        && self.spec_archetypes().spec_info(aid).wf()
                        && crate::archetype::seq_subset(
                        ids@,
                        self.spec_archetypes().spec_info(aid).ids(),
                    ),
                i <= aids@.len(),
                forall|x: TableId|
                    #[trigger] tids@.contains(x) ==> self.spec_storage().spec_contains(x) && (
                    forall|j: int|
                        0 <= j < ids@.len() ==> self.spec_storage().spec_table(x).has_kind(
                            #[trigger] ids@[j],
                        )) && exists|j: int|
                        0 <= j < self.a2t().len() && (#[trigger] self.a2t()[j]) == Some(x),
                forall|i1: int, i2: int|
                    0 <= i1 < i2 < tids@.len() ==> (#[trigger] tids@[i1]) != (
                    #[trigger] tids@[i2]),
                forall|x: TableId|
                    #[trigger] tids@.contains(x) <==> exists|ii: int|
                        0 <= ii < i && self.table_of(#[trigger] aids@[ii]) == Some(x),
            decreases aids@.len() - i,
        {
            let aid = aids[i];
            proof {
                assert(aids@.contains(aid)) by {
                    assert(aids@[i as int] == aid);
                }
                assert(self.table_of(aid) is Some) by {
                    let p = choose|p: Seq<TypeId>|
                        #[trigger] self.spec_archetypes().trie_at(p) == Some(aid)
                            && crate::archetype::seq_subset(ids@, p);
                }
            }
            let tid = match self.lookup_table(aid) {
                Some(t) => t,
                None => {
                    proof {
                        assert(false);
                    }
                    return Vec::new();
                },
            };
            let ghost tids0 = tids@;
            let mut seen = false;
            let mut w: usize = 0;
            while w < tids.len()
                invariant
                    w <= tids@.len(),
                    seen <==> exists|v: int| 0 <= v < w && (#[trigger] tids@[v]) == tid,
                decreases tids@.len() - w,
            {
                if tids[w].0 == tid.0 {
                    proof {
                        assert(tids@[w as int] == tid) by {
                            assert(tids@[w as int].0 == tid.0);
                        }
                    }
                    seen = true;
                }
                w = w + 1;
            }
            if !seen {
                tids.push(tid);
                proof {
                    assert forall|x: TableId| #[trigger] tids@.contains(x) implies self.spec_storage().spec_contains(
                        x,
                    ) && (forall|j: int|
                        0 <= j < ids@.len() ==> self.spec_storage().spec_table(x).has_kind(
                            #[trigger] ids@[j],
                        )) && exists|j: int|
                        0 <= j < self.a2t().len() && (#[trigger] self.a2t()[j]) == Some(x) by {
                        let v = choose|v: int| 0 <= v < tids@.len() && tids@[v] == x;
                        if v < tids0.len() {
                            assert(tids0.contains(x)) by {
                                assert(tids0[v] == x);
                            }
                        } else {
                            assert(x == tid);
                            assert(self.a2t()[aid.0 as int] == Some(tid));
                            let info = self.spec_archetypes().spec_info(aid);
                            let table = self.spec_storage().spec_table(tid);
                            assert(table.infos() == info.infos());
                            assert forall|j: int|
                                0 <= j < ids@.len() implies table.has_kind(#[trigger] ids@[j]) by {
                                assert(info.ids().contains(ids@[j]));
                                let u = choose|u: int|
                                    0 <= u < info.ids().len() && info.ids()[u] == ids@[j];
                                assert(info.infos()[u].id == ids@[j]);
                                assert(table.infos()[u].id == ids@[j]);
                            }
                        }
                    }
                    assert forall|i1: int, i2: int| 0 <= i1 < i2 < tids@.len() implies (
                    #[trigger] tids@[i1]) != (#[trigger] tids@[i2]) by {
                        if i2 == tids0.len() {
                            assert(tids@[i1] == tids0[i1]);
                            if tids0[i1] == tid {
                                assert(exists|v: int|
                                    0 <= v < tids0.len() && (#[trigger] tids0[v]) == tid);
                            }
                        } else {
                            assert(tids@[i1] == tids0[i1]);
                            assert(tids@[i2] == tids0[i2]);
                        }
                    }
                    assert forall|x: TableId| #[trigger] tids@.contains(x) implies exists|ii: int|
                        0 <= ii < i + 1 && self.table_of(#[trigger] aids@[ii]) == Some(x) by {
                        let v = choose|v: int| 0 <= v < tids@.len() && tids@[v] == x;
                        if v < tids0.len() {
                            assert(tids0.contains(x)) by {
                                assert(tids0[v] == x);
                            }
                            let ii = choose|ii: int|
                                0 <= ii < i && self.table_of(#[trigger] aids@[ii]) == Some(x);
                        } else {
                            assert(self.table_of(aids@[i as int]) == Some(x));
                        }
                    }
                    assert forall|x: TableId|
                        (exists|ii: int|
                            0 <= ii < i + 1 && self.table_of(#[trigger] aids@[ii]) == Some(
                                x,
                            )) implies #[trigger] tids@.contains(x) by {
                        let ii = choose|ii: int|
                            0 <= ii < i + 1 && self.table_of(#[trigger] aids@[ii]) == Some(x);
                        if ii < i {
                            assert(tids0.contains(x));
                            let v = choose|v: int| 0 <= v < tids0.len() && tids0[v] == x;
                            assert(tids@[v] == x);
                        } else {
                            assert(x == tid);
                            assert(tids@[tids0.len() as int] == tid);
                        }
                    }
                }
            } else {
                proof {
                    assert forall|x: TableId|
                        (exists|ii: int|
                            0 <= ii < i + 1 && self.table_of(#[trigger] aids@[ii]) == Some(
                                x,
                            )) implies #[trigger] tids@.contains(x) by {
                        let ii = choose|ii: int|
                            0 <= ii < i + 1 && self.table_of(#[trigger] aids@[ii]) == Some(x);
                        if ii < i {
                        } else {
                            assert(x == tid);
                            let v = choose|v: int| 0 <= v < tids@.len() && tids@[v] == tid;
                        }
                    }
                }
            }
            i = i + 1;
        }
        proof {
            assert forall|i1: int, i2: int, e: Entity|
                0 <= i1 < i2 < tids@.len() implies !((#[trigger] self.spec_storage().spec_table(
                tids@[i1],
            ).dir_contains(e)) && (#[trigger] self.spec_storage().spec_table(
                tids@[i2],
            ).dir_contains(e))) by {
                if self.spec_storage().spec_table(tids@[i1]).dir_contains(e)
                    && self.spec_storage().spec_table(tids@[i2]).dir_contains(e) {
                    assert(tids@.contains(tids@[i1]));
                    assert(tids@.contains(tids@[i2]));
                    let j1 = choose|j: int|
                        0 <= j < self.a2t().len() && (#[trigger] self.a2t()[j]) == Some(
                            tids@[i1],
                        );
                    let j2 = choose|j: int|
                        0 <= j < self.a2t().len() && (#[trigger] self.a2t()[j]) == Some(
                            tids@[i2],
                        );
                    assert(self.arch_of(e) == Some(ArchetypeId(j1 as usize)));
                    assert(self.arch_of(e) == Some(ArchetypeId(j2 as usize)));
                    assert(j1 == j2);
                }
            }
            assert forall|ii: int|
                0 <= ii < tids@.len() implies self.spec_storage().spec_contains(
                #[trigger] tids@[ii],
            ) by {
                assert(tids@.contains(tids@[ii]));
            }
            assert forall|ii: int, j: int|
                0 <= ii < tids@.len() && 0 <= j < ids@.len() implies self.spec_storage().spec_table(
                #[trigger] tids@[ii],
            ).has_kind(#[trigger] ids@[j]) by {
                assert(tids@.contains(tids@[ii]));
            }
        }
        let rows = self.storage.query(ids, &tids);
        proof {
            assert forall|m: int| 0 <= m < rows@.len() implies self.live(
                (#[trigger] rows@[m]).entity,
            ) && rows@[m].values@.len() == ids@.len() && (forall|j: int|
                0 <= j < ids@.len() ==> self.comp_map(rows@[m].entity).dom().contains(
                    #[trigger] ids@[j],
                ) && rows@[m].values@[j]@ == self.comp_map(rows@[m].entity)[ids@[j]]) by {
                let e = rows@[m].entity;
                let ii = choose|ii: int|
                    0 <= ii < tids@.len() && (#[trigger] rows@[m]).values@.len() == ids@.len()
                        && self.spec_storage().spec_table(#[trigger] tids@[ii]).dir_contains(e) && (
                    forall|j: int|
                        0 <= j < ids@.len() ==> (#[trigger] rows@[m].values@[j])@
                            == self.spec_storage().spec_table(tids@[ii]).value_at(e, ids@[j]));
                assert(tids@.contains(tids@[ii]));
                let j0 = choose|j: int|
                    0 <= j < self.a2t().len() && (#[trigger] self.a2t()[j]) == Some(tids@[ii]);
                assert(self.arch_of(e) == Some(ArchetypeId(j0 as usize)));
                assert(self.e2a()[e.id as int] is Some);
                let p = self.e2a()[e.id as int].unwrap();
                assert(self.gen_state().live(Entity { id: e.id, gen: p.0 }));
                assert(p.0 == e.gen);
                assert(self.live(e));
                assert(self.table_of(ArchetypeId(j0 as usize)) == Some(tids@[ii]));
                assert(self.comp_map(e) == self.spec_storage().spec_table(tids@[ii]).row_map(e));
            }
            assert forall|e: Entity|
                self.live(e) && (forall|j: int|
                    0 <= j < ids@.len() ==> self.comp_map(e).dom().contains(
                        #[trigger] ids@[j],
                    )) implies exists|m: int|
                0 <= m < rows@.len() && (#[trigger] rows@[m]).entity == e by {
                assert(self.comp_map(e).dom().contains(ids@[0]));
                assert(self.arch_of(e) is Some);
                let aid = self.arch_of(e).unwrap();
                assert(self.e2a()[e.id as int] is Some);
                let p = self.e2a()[e.id as int].unwrap();
                assert(Entity { id: e.id, gen: p.0 } == e);
                let t = self.table_of(aid).unwrap();
                assert(self.spec_storage().spec_contains(t));
                let table = self.spec_storage().spec_table(t);
                assert(table.dir_contains(e));
                assert(self.a2t()[aid.0 as int] is Some);
                let info = self.spec_archetypes().spec_info(aid);
                assert(table.infos() == info.infos());
                assert(crate::archetype::seq_subset(ids@, info.ids())) by {
                    assert forall|j: int| 0 <= j < ids@.len() implies info.ids().contains(
                        #[trigger] ids@[j],
                    ) by {
                        assert(self.comp_map(e).dom().contains(ids@[j]));
                        assert(table.has_kind(ids@[j]));
                        let u = choose|u: int|
                            0 <= u < table.infos().len() && (#[trigger] table.infos()[u]).id
                                == ids@[j];
                        assert(info.ids()[u] == ids@[j]);
                    }
                }
                assert(self.spec_archetypes().trie_at(info.ids()) == Some(aid));
                assert(aids@.contains(aid));
                let ii = choose|ii: int| 0 <= ii < aids@.len() && aids@[ii] == aid;
                assert(self.table_of(aids@[ii]) == Some(t));
                assert(tids@.contains(t));
                let v = choose|v: int| 0 <= v < tids@.len() && tids@[v] == t;
                assert(self.spec_storage().spec_table(tids@[v]).dir_contains(e));
            }
        }
        rows
    }

    /// A world whose allocator, archetypes, storage and maps are all
    /// unchanged observes the same entities and components.
    proof fn lemma_frame_core(self, prev: World)
        requires
            prev.wf(),
            self.gen_state() == prev.gen_state(),
            self.spec_archetypes() == prev.spec_archetypes(),
            forall|t: TableId|
                #[trigger] self.spec_storage().spec_contains(t) == prev.spec_storage().spec_contains(
                    t,
                ),
            forall|t: TableId|
                prev.spec_storage().spec_contains(t) ==> #[trigger] self.spec_storage().spec_table(
                    t,
                ) == prev.spec_storage().spec_table(t),
            self.spec_storage().wf(),
            self.e2a() == prev.e2a(),
            self.a2t() == prev.a2t(),
            self.res_state().wf(),
            forall|a: int, b: int|
                0 <= a < b < self.events_state().len() ==> (#[trigger] self.events_state()[a]).0
                    != (#[trigger] self.events_state()[b]).0,
        ensures
            self.wf(),
            forall|e: Entity| #[trigger] self.comp_map(e) == prev.comp_map(e),
            forall|e: Entity| #[trigger] self.arch_of(e) == prev.arch_of(e),
            forall|e: Entity| self.live(e) == prev.live(e),
    {
        assert forall|i: int|
            0 <= i < self.e2a().len() && (#[trigger] self.e2a()[i]) is Some implies {
            let p = self.e2a()[i].unwrap();
            &&& self.gen_state().live(Entity { id: i as u16, gen: p.0 })
            &&& self.table_of(p.1) is Some
            &&& self.spec_storage().spec_contains(self.table_of(p.1).unwrap())
            &&& self.spec_storage().spec_table(self.table_of(p.1).unwrap()).dir_contains(
                Entity { id: i as u16, gen: p.0 },
            )
        } by {
            let p = self.e2a()[i].unwrap();
            assert(prev.e2a()[i] is Some);
            assert(prev.gen_state().live(Entity { id: i as u16, gen: p.0 }));
            assert(prev.table_of(p.1) is Some);
            assert(prev.spec_storage().spec_table(prev.table_of(p.1).unwrap()).dir_contains(
                Entity { id: i as u16, gen: p.0 },
            ));
        }
        assert forall|j: int|
            0 <= j < self.a2t().len() && (#[trigger] self.a2t()[j]) is Some implies {
            let a = ArchetypeId(j as usize);
            let t = self.a2t()[j].unwrap();
            &&& self.spec_archetypes().spec_contains(a)
            &&& self.spec_archetypes().spec_info(a).wf()
            &&& self.spec_storage().spec_contains(t)
            &&& self.spec_storage().spec_table(t).infos() == self.spec_archetypes().spec_info(
                a,
            ).infos()
            &&& self.spec_archetypes().trie_at(self.spec_archetypes().spec_info(a).ids()) == Some(
                a,
            )
        } by {
            assert(prev.a2t()[j] is Some);
        }
        assert forall|j: int, e: Entity|
            0 <= j < self.a2t().len() && (#[trigger] self.a2t()[j]) is Some
                && (#[trigger] self.spec_storage().spec_table(self.a2t()[j].unwrap()).dir_contains(
                e,
            )) implies self.arch_of(e) == Some(ArchetypeId(j as usize)) by {
            assert(prev.a2t()[j] is Some);
            assert(prev.spec_storage().spec_table(prev.a2t()[j].unwrap()).dir_contains(e));
        }
        assert forall|p: Seq<TypeId>|
            (#[trigger] self.spec_archetypes().trie_at(p)) is Some implies self.table_of(
            self.spec_archetypes().trie_at(p).unwrap(),
        ) is Some by {
            assert(prev.spec_archetypes().trie_at(p) is Some);
        }
        assert(self.wf());
    }

    /// Overwrites an entity's value of a kind it already carries; the
    /// write stands for mutation through an exclusive reference, so the
    /// prior bytes are not dropped.
    pub fn set_component(&mut self, entity: Entity, kind: TypeId, bytes: Vec<u8>) -> (r: Result<
        (),
        Error,
    >)
        requires
            old(self).wf(),
            old(self).comp_map(entity).dom().contains(kind) ==> bytes@.len() == old(self).comp_map(
                entity,
            )[kind].len(),
        ensures
            final(self).wf(),
            final(self).gen_state() == old(self).gen_state(),
            final(self).res_state() == old(self).res_state(),
            final(self).events_state() == old(self).events_state(),
            forall|e: Entity| final(self).live(e) == old(self).live(e),
            match r {
                Ok(()) => {
                    &&& old(self).live(entity)
                    &&& old(self).comp_map(entity).dom().contains(kind)
                    &&& final(self).comp_map(entity) == old(self).comp_map(entity).insert(
                        kind,
                        bytes@,
                    )
                    &&& forall|e: Entity|
                        e != entity ==> #[trigger] final(self).comp_map(e) == old(self).comp_map(e)
                },
                Err(Error::NonExistingEntity(e2)) => e2 == entity && !old(self).live(entity)
                    && forall|e: Entity|
                    #[trigger] final(self).comp_map(e) == old(self).comp_map(e),
                Err(Error::TableError(crate::table::Error::TableDoesNotContainComponentColumn)) => old(self).live(entity) && !old(self).comp_map(entity).dom().contains(kind) && forall|
                    e: Entity,
                |
                    #[trigger] final(self).comp_map(e) == old(self).comp_map(e),
                _ => false,
            },
    {
        let ghost prev = *old(self);
        if !self.is_live(&entity) {
            return Err(Error::NonExistingEntity(entity));
        }
        let aid = match self.lookup_arch(&entity) {
            Some(aid) => aid,
            None => {
                proof {
                    assert(self.comp_map(entity) =~= Map::<TypeId, Seq<u8>>::empty());
                }
                return Err(Error::TableError(
                    crate::table::Error::TableDoesNotContainComponentColumn,
                ));
            },
        };
        proof {
            assert(self.e2a()[entity.id as int] is Some);
            let p = self.e2a()[entity.id as int].unwrap();
            assert(Entity { id: entity.id, gen: p.0 } == entity);
            assert(self.a2t()[aid.0 as int] is Some);
        }
        let tid = match self.lookup_table(aid) {
            Some(t) => t,
            None => {
                proof {
                    assert(false);
                }
                return Err(Error::RogueArchetype);
            },
        };
        proof {
            let table = self.spec_storage().spec_table(tid);
            self.spec_storage().lemma_table_wf(tid);
            assert(table.dir_contains(entity));
            if table.has_kind(kind) {
                assert(self.comp_map(entity).dom().contains(kind));
                assert(self.comp_map(entity)[kind] == table.value_at(entity, kind));
                let w = choose|w: int|
                    0 <= w < table.dir().len() && (#[trigger] table.dir()[w]).0 == entity;
                assert(table.dir()[w].1 < table.rows());
                assert(0 <= table.slot_of(entity) < table.rows());
                let c = choose|c: int|
                    0 <= c < table.infos().len() && (#[trigger] table.infos()[c]).id == kind;
                assert(0 <= table.col_of(kind) < table.columns_view().len());
                table.columns_view()[table.col_of(kind)].lemma_slot_len(table.slot_of(entity));
                assert(bytes@.len() == table.info_of(kind).size);
            }
        }
        let r = self.storage.insert_component(tid, &entity, kind, &bytes);
        proof {
            let f0 = prev.spec_storage().spec_table(tid);
            let f1 = self.spec_storage().spec_table(tid);
            match r {
                Ok(()) => {
                    assert(self.events_state() =~= prev.events_state());
                    assert forall|i: int|
                        0 <= i < self.e2a().len() && (#[trigger] self.e2a()[i]) is Some implies {
                        let p = self.e2a()[i].unwrap();
                        &&& self.gen_state().live(Entity { id: i as u16, gen: p.0 })
                        &&& self.table_of(p.1) is Some
                        &&& self.spec_storage().spec_contains(self.table_of(p.1).unwrap())
                        &&& self.spec_storage().spec_table(self.table_of(p.1).unwrap()).dir_contains(
                            Entity { id: i as u16, gen: p.0 },
                        )
                    } by {
                        let p = self.e2a()[i].unwrap();
                        let e2 = Entity { id: i as u16, gen: p.0 };
                        assert(prev.e2a()[i] is Some);
                        assert(prev.gen_state().live(e2));
                        assert(prev.table_of(p.1) is Some);
                        let t2 = prev.table_of(p.1).unwrap();
                        assert(prev.spec_storage().spec_contains(t2));
                        assert(prev.spec_storage().spec_table(t2).dir_contains(e2));
                        if t2 == tid {
                            assert(f1.dir() == f0.dir());
                        } else {
                            assert(self.spec_storage().spec_table(t2)
                                == prev.spec_storage().spec_table(t2));
                        }
                    }
                    assert forall|j: int|
                        0 <= j < self.a2t().len() && (#[trigger] self.a2t()[j]) is Some implies {
                        let a = ArchetypeId(j as usize);
                        let t = self.a2t()[j].unwrap();
                        &&& self.spec_archetypes().spec_contains(a)
                        &&& self.spec_archetypes().spec_info(a).wf()
                        &&& self.spec_storage().spec_contains(t)
                        &&& self.spec_storage().spec_table(t).infos()
                            == self.spec_archetypes().spec_info(a).infos()
                        &&& self.spec_archetypes().trie_at(
                            self.spec_archetypes().spec_info(a).ids(),
                        ) == Some(a)
                    } by {
                        assert(prev.a2t()[j] is Some);
                        let t = self.a2t()[j].unwrap();
                        if t == tid {
                            assert(f1.infos() == f0.infos());
                        } else {
                            assert(self.spec_storage().spec_table(t)
                                == prev.spec_storage().spec_table(t));
                        }
                    }
                    assert forall|j: int, e: Entity|
                        0 <= j < self.a2t().len() && (#[trigger] self.a2t()[j]) is Some
                            && (#[trigger] self.spec_storage().spec_table(
                            self.a2t()[j].unwrap(),
                        ).dir_contains(e)) implies self.arch_of(e) == Some(
                        ArchetypeId(j as usize),
                    ) by {
                        assert(prev.a2t()[j] is Some);
                        let t = self.a2t()[j].unwrap();
                        if t == tid {
                            assert(f1.dir() == f0.dir());
                            assert(f0.dir_contains(e) == f1.dir_contains(e));
                        } else {
                            assert(self.spec_storage().spec_table(t)
                                == prev.spec_storage().spec_table(t));
                        }
                        assert(prev.spec_storage().spec_table(prev.a2t()[j].unwrap()).dir_contains(
                            e,
                        ));
                    }
                    assert forall|p: Seq<TypeId>|
                        (#[trigger] self.spec_archetypes().trie_at(p)) is Some implies self.table_of(
                        self.spec_archetypes().trie_at(p).unwrap(),
                    ) is Some by {
                        assert(prev.spec_archetypes().trie_at(p) is Some);
                    }
                    assert(self.wf());
                    assert(self.comp_map(entity) =~= prev.comp_map(entity).insert(kind, bytes@))
                        by {
                        assert(self.comp_map(entity) == f1.row_map(entity));
                        assert(prev.comp_map(entity) == f0.row_map(entity));
                        assert(f1.infos() == f0.infos());
                    }
                    assert forall|e: Entity| e != entity implies #[trigger] self.comp_map(e)
                        == prev.comp_map(e) by {
                        if self.arch_of(e) is Some {
                            assert(prev.e2a()[e.id as int] is Some);
                            let p = prev.e2a()[e.id as int].unwrap();
                            assert(Entity { id: e.id, gen: p.0 } == e);
                            let t2 = prev.table_of(p.1).unwrap();
                            assert(prev.spec_storage().spec_table(t2).dir_contains(e));
                            if t2 == tid {
                                assert(f1.row_map(e) =~= f0.row_map(e)) by {
                                    assert(f1.infos() == f0.infos());
                                    assert forall|k: TypeId| #[trigger] f0.has_kind(k) implies f1.value_at(
                                        e,
                                        k,
                                    ) == f0.value_at(e, k) by {}
                                }
                            } else {
                                assert(self.spec_storage().spec_table(t2)
                                    == prev.spec_storage().spec_table(t2));
                            }
                        }
                    }
                },
                Err(e) => {
                    assert(e == crate::table::Error::TableDoesNotContainComponentColumn);
                    assert(!prev.comp_map(entity).dom().contains(kind));
                    assert(self.events_state() =~= prev.events_state());
                    self.lemma_frame_core(prev);
                },
            }
        }
        match r {
            Ok(()) => Ok(()),
            Err(e) => Err(Error::TableError(e)),
        }
    }

    /// Stores a resource value for a kind, overwriting and dropping a
    /// prior value of the kind.
    pub fn add_resource(&mut self, info: TypeInfo, bytes: Vec<u8>)
        requires
            old(self).wf(),
            info.valid(),
            bytes@.len() == info.size,
            old(self).res_state().spec_has(info.id) ==> old(self).res_state().info_of(info.id)
                == info && old(self).res_state().drops_of(info.id) < usize::MAX,
        ensures
            final(self).wf(),
            final(self).gen_state() == old(self).gen_state(),
            final(self).events_state() == old(self).events_state(),
            forall|e: Entity| #[trigger] final(self).comp_map(e) == old(self).comp_map(e),
            forall|e: Entity| final(self).live(e) == old(self).live(e),
            final(self).res_state().spec_has(info.id),
            final(self).res_state().value_of(info.id) == bytes@,
            final(self).res_state().info_of(info.id) == info,
            forall|k: TypeId|
                k != info.id ==> final(self).res_state().spec_has(k) == old(self).res_state().spec_has(k),
            forall|k: TypeId|
                k != info.id && old(self).res_state().spec_has(k) ==> final(self).res_state().value_of(k) == old(self).res_state().value_of(k),
    {
        let ghost prev = *old(self);
        self.resources.add(info, &bytes);
        proof {
            assert(self.events_state() =~= prev.events_state());
            self.lemma_frame_core(prev);
        }
    }

    /// Evicts and drops the resource value of one kind.
    pub fn remove_resource(&mut self, kind: TypeId) -> (r: Result<(), Error>)
        requires
            old(self).wf(),
        ensures
            final(self).wf(),
            final(self).gen_state() == old(self).gen_state(),
            final(self).events_state() == old(self).events_state(),
            forall|e: Entity| #[trigger] final(self).comp_map(e) == old(self).comp_map(e),
            forall|e: Entity| final(self).live(e) == old(self).live(e),
            match r {
                Ok(()) => {
                    &&& old(self).res_state().spec_has(kind)
                    &&& !final(self).res_state().spec_has(kind)
                    &&& forall|k: TypeId|
                        k != kind ==> final(self).res_state().spec_has(k) == old(self).res_state().spec_has(k)
                    &&& forall|k: TypeId|
                        k != kind && old(self).res_state().spec_has(k) ==> final(self).res_state().value_of(k) == old(self).res_state().value_of(k)
                },
                Err(e2) => e2 == Error::Resources(
                    crate::resources::Error::RemoveNonExisting(kind),
                ) && !old(self).res_state().spec_has(kind) && final(self).res_state() == old(self).res_state(),
            },
    {
        let ghost prev = *old(self);
        let r = self.resources.remove(kind);
        proof {
            assert(self.events_state() =~= prev.events_state());
            self.lemma_frame_core(prev);
        }
        match r {
            Ok(()) => Ok(()),
            Err(e) => Err(Error::Resources(e)),
        }
    }

    /// Reads the resource value of one kind.
    pub fn get_resource(&self, kind: TypeId) -> (r: Result<Vec<u8>, Error>)
        requires
            self.wf(),
        ensures
            match r {
                Ok(v) => self.res_state().spec_has(kind) && v@ == self.res_state().value_of(kind),
                Err(e) => e == Error::Resources(crate::resources::Error::GetNonExisting(kind))
                    && !self.res_state().spec_has(kind),
            },
    {
        match self.resources.get(kind) {
            Ok(v) => Ok(v),
            Err(e) => Err(Error::Resources(e)),
        }
    }

    /// Overwrites the resource value of one kind in place, standing for
    /// mutation through an exclusive reference.
    pub fn set_resource(&mut self, kind: TypeId, bytes: Vec<u8>) -> (r: Result<(), Error>)
        requires
            old(self).wf(),
            old(self).res_state().spec_has(kind) ==> bytes@.len() == old(self).res_state().info_of(
                kind,
            ).size,
        ensures
            final(self).wf(),
            final(self).gen_state() == old(self).gen_state(),
            final(self).events_state() == old(self).events_state(),
            forall|e: Entity| #[trigger] final(self).comp_map(e) == old(self).comp_map(e),
            forall|e: Entity| final(self).live(e) == old(self).live(e),
            match r {
                Ok(()) => {
                    &&& old(self).res_state().spec_has(kind)
                    &&& final(self).res_state().spec_has(kind)
                    &&& final(self).res_state().value_of(kind) == bytes@
                    &&& forall|k: TypeId|
                        k != kind ==> final(self).res_state().spec_has(k) == old(self).res_state().spec_has(k)
                    &&& forall|k: TypeId|
                        k != kind && old(self).res_state().spec_has(k) ==> final(self).res_state().value_of(k) == old(self).res_state().value_of(k)
                },
                Err(e2) => e2 == Error::Resources(crate::resources::Error::GetNonExisting(kind))
                    && !old(self).res_state().spec_has(kind) && final(self).res_state() == old(self).res_state(),
            },
    {
        let ghost prev = *old(self);
        let r = self.resources.set(kind, &bytes);
        proof {
            assert(self.events_state() =~= prev.events_state());
            self.lemma_frame_core(prev);
        }
        match r {
            Ok(()) => Ok(()),
            Err(e) => Err(Error::Resources(e)),
        }
    }

    /// Adds a component of a fresh kind to an entity: the entity moves to
    /// the table of its archetype enlarged by the kind.
    pub fn add_component(&mut self, entity: Entity, info: TypeInfo, bytes: Vec<u8>) -> (r: Result<
        (),
        Error,
    >)
        requires
            old(self).wf(),
            info.valid(),
            bytes@.len() == info.size,
            old(self).kind_compat(info),
        ensures
            final(self).wf(),
            final(self).gen_state() == old(self).gen_state(),
            final(self).res_state() == old(self).res_state(),
            final(self).events_state() == old(self).events_state(),
            forall|e: Entity| final(self).live(e) == old(self).live(e),
            match r {
                Ok(()) => {
                    &&& old(self).live(entity)
                    &&& !old(self).comp_map(entity).dom().contains(info.id)
                    &&& final(self).comp_map(entity) == old(self).comp_map(entity).insert(
                        info.id,
                        bytes@,
                    )
                    &&& forall|e: Entity|
                        e != entity ==> #[trigger] final(self).comp_map(e) == old(self).comp_map(e)
                },
                Err(Error::NonExistingEntity(e2)) => e2 == entity && !old(self).live(entity)
                    && forall|e: Entity|
                    #[trigger] final(self).comp_map(e) == old(self).comp_map(e),
                Err(Error::ArchetypeError(crate::archetype::Error::AddingComponentDuplicate)) => old(self).live(entity) && old(self).comp_map(entity).dom().contains(info.id) && forall|
                    e: Entity,
                |
                    #[trigger] final(self).comp_map(e) == old(self).comp_map(e),
                _ => false,
            },
    {
        if !self.is_live(&entity) {
            return Err(Error::NonExistingEntity(entity));
        }
        match self.lookup_arch(&entity) {
            Some(aid) => {
                proof {
                    assert(self.e2a()[entity.id as int] is Some);
                    let p = self.e2a()[entity.id as int].unwrap();
                    assert(Entity { id: entity.id, gen: p.0 } == entity);
                    assert(self.a2t()[aid.0 as int] is Some);
                }
                let old_tid = match self.lookup_table(aid) {
                    Some(t) => t,
                    None => {
                        proof {
                            assert(false);
                        }
                        return Err(Error::RogueArchetype);
                    },
                };
                let arch_ref = match self.archetypes.get_info(aid) {
                    Ok(i) => i,
                    Err(_) => {
                        proof {
                            assert(false);
                        }
                        return Err(Error::ArchetypeError(
                            crate::archetype::Error::NonExistingArchetype,
                        ));
                    },
                };
                let mut new_info = arch_ref.duplicate();
                proof {
                    assert(new_info.infos() == self.spec_archetypes().spec_info(aid).infos());
                    assert(new_info.wf());
                    assert(self.spec_storage().spec_table(old_tid).infos() == new_info.infos());
                }
                match new_info.add_component(info) {
                    Ok(()) => {},
                    Err(e) => {
                        proof {
                            let table = self.spec_storage().spec_table(old_tid);
                            let w = choose|w: int|
                                0 <= w < self.spec_archetypes().spec_info(aid).infos().len() && (
                                #[trigger] self.spec_archetypes().spec_info(aid).infos()[w]).id
                                    == info.id;
                            assert(table.infos()[w].id == info.id);
                            assert(table.has_kind(info.id));
                            assert(self.comp_map(entity).dom().contains(info.id));
                        }
                        return Err(Error::ArchetypeError(e));
                    },
                }
                proof {
                    let table = self.spec_storage().spec_table(old_tid);
                    assert(!table.has_kind(info.id)) by {
                        if table.has_kind(info.id) {
                            let w = choose|w: int|
                                0 <= w < table.infos().len() && (#[trigger] table.infos()[w]).id
                                    == info.id;
                            assert(self.spec_archetypes().spec_info(aid).infos()[w].id == info.id);
                            assert(self.spec_archetypes().spec_info(aid).has(info.id));
                        }
                    }
                    assert(!self.comp_map(entity).dom().contains(info.id));
                }
                self.attach_and_transfer(entity, aid, old_tid, new_info, info, &bytes)
            },
            None => {
                let mut new_info = ArchetypeInfo::new();
                match new_info.add_component(info) {
                    Ok(()) => {},
                    Err(_) => {
                        proof {
                            assert(false);
                        }
                        return Err(Error::RogueArchetype);
                    },
                }
                proof {
                    assert(self.comp_map(entity) =~= Map::<TypeId, Seq<u8>>::empty());
                }
                self.attach_fresh(entity, new_info, info, &bytes)
            },
        }
    }
}

} // verus!
