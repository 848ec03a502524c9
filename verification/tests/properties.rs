use kiwi::component::TypeId;
use kiwi::component::TypeInfo;
use kiwi::entity::Entity;
use kiwi::entity::EntityGenerator;
use kiwi::world::Error;
use kiwi::world::World;

fn kind_a() -> TypeInfo {
    TypeInfo::new(TypeId(301), 4, false)
}

fn kind_b() -> TypeInfo {
    TypeInfo::new(TypeId(302), 4, false)
}

#[test]
fn entity_generation_reuse() {
    let mut generator = EntityGenerator::new();

    let e1 = generator.create();
    assert!(generator.is_live(&e1));

    generator.delete(&e1);
    assert!(!generator.is_live(&e1));

    let e2 = generator.create();
    assert_eq!(e2.id, e1.id);
    assert_eq!(e2.gen, e1.gen + 1);
    assert!(generator.is_live(&e2));
    assert!(!generator.is_live(&e1));
}

#[test]
fn stale_handle_is_refused() {
    let mut ecs = World::default();
    let ghost_entity = Entity::from_raw(42, 3);

    assert_eq!(
        ecs.add_component(ghost_entity, kind_a(), vec![0, 0, 0, 0]),
        Err(Error::NonExistingEntity(ghost_entity))
    );
    assert_eq!(
        ecs.remove_component(ghost_entity, kind_a().id),
        Err(Error::NonExistingEntity(ghost_entity))
    );
    assert_eq!(
        ecs.get_component(ghost_entity, kind_a().id),
        Err(Error::NonExistingEntity(ghost_entity))
    );
    assert!(ecs.entity_component_info(ghost_entity).is_none());
}

#[test]
fn empty_archetype_entity() {
    let mut ecs = World::default();
    let entity = ecs.create();

    let info = ecs.entity_component_info(entity).unwrap();
    assert_eq!(info.len(), 0);
    assert!(info.is_empty());

    let other = ecs.create();
    ecs.add_component(other, kind_a(), vec![1, 0, 0, 0]).unwrap();

    let rows = ecs.query(&vec![kind_a().id]);
    assert_eq!(rows.len(), 1);
    assert!(rows.iter().all(|r| r.entity != entity));
}

#[test]
fn duplicate_component_is_refused() {
    let mut ecs = World::default();
    let entity = ecs.create();

    ecs.add_component(entity, kind_a(), vec![1, 0, 0, 0]).unwrap();
    assert_eq!(
        ecs.add_component(entity, kind_a(), vec![2, 0, 0, 0]),
        Err(Error::ArchetypeError(
            kiwi::archetype::Error::AddingComponentDuplicate
        ))
    );
    assert_eq!(ecs.get_component(entity, kind_a().id), Ok(vec![1, 0, 0, 0]));
}

#[test]
fn missing_component_is_refused() {
    let mut ecs = World::default();
    let entity = ecs.create();
    ecs.add_component(entity, kind_a(), vec![1, 0, 0, 0]).unwrap();

    assert_eq!(
        ecs.remove_component(entity, kind_b().id),
        Err(Error::ArchetypeError(
            kiwi::archetype::Error::RemovingNonExistingComponent
        ))
    );
    assert_eq!(
        ecs.get_component(entity, kind_b().id),
        Err(Error::TableError(
            kiwi::table::Error::TableDoesNotContainComponentColumn
        ))
    );
}

#[test]
fn add_remove_restores_info() {
    let mut ecs = World::default();
    let entity = ecs.create();
    ecs.add_component(entity, kind_a(), vec![1, 0, 0, 0]).unwrap();

    let before = ecs.entity_component_info(entity).unwrap();
    ecs.add_component(entity, kind_b(), vec![2, 0, 0, 0]).unwrap();
    ecs.remove_component(entity, kind_b().id).unwrap();
    let after = ecs.entity_component_info(entity).unwrap();

    assert_eq!(
        before.as_sorted_vec_of_component_ids(),
        after.as_sorted_vec_of_component_ids()
    );
    assert_eq!(ecs.get_component(entity, kind_a().id), Ok(vec![1, 0, 0, 0]));
}

#[test]
fn readd_after_removal_holds_new_value() {
    let mut ecs = World::default();
    let entity = ecs.create();

    ecs.add_component(entity, kind_a(), vec![1, 0, 0, 0]).unwrap();
    ecs.remove_component(entity, kind_a().id).unwrap();
    ecs.add_component(entity, kind_a(), vec![9, 0, 0, 0]).unwrap();

    assert_eq!(ecs.get_component(entity, kind_a().id), Ok(vec![9, 0, 0, 0]));
}

#[test]
fn insert_get_reads_back() {
    let mut ecs = World::default();
    let entity = ecs.create();

    ecs.add_component(entity, kind_a(), vec![0xde, 0xad, 0xbe, 0xef]).unwrap();
    assert_eq!(
        ecs.get_component(entity, kind_a().id),
        Ok(vec![0xde, 0xad, 0xbe, 0xef])
    );

    ecs.set_component(entity, kind_a().id, vec![1, 2, 3, 4]).unwrap();
    assert_eq!(ecs.get_component(entity, kind_a().id), Ok(vec![1, 2, 3, 4]));
}

#[test]
fn remove_runs_destructor_once() {
    let mut ecs = World::default();
    let dropper = TypeInfo::new(TypeId(400), 4, true);

    let e = ecs.create();
    ecs.add_component(e, dropper, vec![1, 0, 0, 0]).unwrap();
    assert_eq!(ecs.drop_count(dropper.id), 0);

    ecs.remove_component(e, dropper.id).unwrap();
    assert_eq!(ecs.drop_count(dropper.id), 1);
}

#[test]
fn delete_runs_destructor_once_more() {
    let mut ecs = World::default();
    let dropper = TypeInfo::new(TypeId(401), 4, true);

    let e = ecs.create();
    ecs.add_component(e, dropper, vec![1, 0, 0, 0]).unwrap();
    ecs.remove_component(e, dropper.id).unwrap();
    assert_eq!(ecs.drop_count(dropper.id), 1);

    ecs.add_component(e, dropper, vec![2, 0, 0, 0]).unwrap();
    assert_eq!(ecs.drop_count(dropper.id), 1);

    ecs.delete(e).unwrap();
    assert_eq!(ecs.drop_count(dropper.id), 2);
}

#[test]
fn delete_retires_the_handle() {
    let mut ecs = World::default();

    let e1 = ecs.create();
    ecs.add_component(e1, kind_a(), vec![1, 0, 0, 0]).unwrap();
    ecs.delete(e1).unwrap();

    assert_eq!(
        ecs.add_component(e1, kind_a(), vec![2, 0, 0, 0]),
        Err(Error::NonExistingEntity(e1))
    );
    assert_eq!(
        ecs.get_component(e1, kind_a().id),
        Err(Error::NonExistingEntity(e1))
    );
    assert_eq!(ecs.delete(e1), Err(Error::NonExistingEntity(e1)));

    let e2 = ecs.create();
    assert_eq!(e2.id, e1.id);
    assert_eq!(e2.gen, e1.gen + 1);
    assert!(ecs.entity_component_info(e2).unwrap().is_empty());

    let rows = ecs.query(&vec![kind_a().id]);
    assert_eq!(rows.len(), 0);
}

#[test]
fn delete_leaves_other_entities_alone() {
    let mut ecs = World::default();

    let e1 = ecs.create();
    let e2 = ecs.create();
    ecs.add_component(e1, kind_a(), vec![1, 0, 0, 0]).unwrap();
    ecs.add_component(e2, kind_a(), vec![2, 0, 0, 0]).unwrap();

    ecs.delete(e1).unwrap();

    assert_eq!(ecs.get_component(e2, kind_a().id), Ok(vec![2, 0, 0, 0]));
    let rows = ecs.query(&vec![kind_a().id]);
    assert_eq!(rows.len(), 1);
    assert_eq!(rows[0].entity, e2);
}

#[test]
fn churn_many_entities() {
    let mut ecs = World::default();
    let mut entities: Vec<Entity> = Vec::new();

    for i in 0..10_000u32 {
        let e = ecs.create();
        ecs.add_component(e, kind_a(), i.to_le_bytes().to_vec()).unwrap();
        entities.push(e);
    }

    for e in &entities {
        ecs.add_component(*e, kind_b(), vec![0, 0, 0, 0]).unwrap();
        ecs.remove_component(*e, kind_b().id).unwrap();
    }

    for e in &entities {
        let info = ecs.entity_component_info(*e).unwrap();
        assert!(info.has_component(kind_a().id));
        assert!(!info.has_component(kind_b().id));
        assert_eq!(info.len(), 1);
    }

    let rows = ecs.query(&vec![kind_b().id]);
    assert_eq!(rows.len(), 0);

    let rows = ecs.query(&vec![kind_a().id]);
    assert_eq!(rows.len(), 10_000);
}
