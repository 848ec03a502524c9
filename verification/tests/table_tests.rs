use kiwi::archetype::ArchetypeInfo;
use kiwi::component::TypeId;
use kiwi::component::TypeInfo;
use kiwi::entity::Entity;
use kiwi::table::Error;
use kiwi::table::Table;
use kiwi::table::TableStorage;

fn kind_u8() -> TypeInfo {
    TypeInfo::new(TypeId(8), 1, false)
}

fn kind_u16() -> TypeInfo {
    TypeInfo::new(TypeId(16), 2, false)
}

fn kind_u32() -> TypeInfo {
    TypeInfo::new(TypeId(32), 4, false)
}

fn kind_u64() -> TypeInfo {
    TypeInfo::new(TypeId(64), 8, false)
}

fn arc_of(kinds: &[TypeInfo]) -> ArchetypeInfo {
    let mut arc = ArchetypeInfo::default();
    for k in kinds {
        arc.add_component(*k).unwrap();
    }
    arc
}

#[test]
fn table_intersection() {
    let arc1 = arc_of(&[kind_u8(), kind_u16(), kind_u32()]);
    let table1 = Table::new(&arc1);

    let arc2 = arc_of(&[kind_u8(), kind_u16(), kind_u64()]);
    let table2 = Table::new(&arc2);

    let mut intersection = table1.intersection(&table2);
    intersection.sort_unstable();

    let mut expected = vec![TypeId(8), TypeId(16)];
    expected.sort_unstable();
    assert_eq!(intersection, expected);
}

#[test]
fn table_transfer_line() {
    let arc1 = arc_of(&[kind_u8(), kind_u16(), kind_u32()]);
    let mut table1 = Table::new(&arc1);

    let entity = Entity::from_raw(1, 0);

    table1.add_entity(entity);

    table1.insert_component(&entity, TypeId(8), &vec![1]).unwrap();
    table1.insert_component(&entity, TypeId(16), &vec![2, 0]).unwrap();
    table1.insert_component(&entity, TypeId(32), &vec![3, 0, 0, 0]).unwrap();

    let arc2 = arc_of(&[kind_u8(), kind_u16(), kind_u32()]);
    let mut table2 = Table::new(&arc2);

    table2.add_entity(entity);
    table2.copy_line_from(&table1, &entity).unwrap();

    assert_eq!(
        table1.get_component(&entity, TypeId(8)),
        table2.get_component(&entity, TypeId(8))
    );
    assert_eq!(
        table1.get_component(&entity, TypeId(16)),
        table2.get_component(&entity, TypeId(16))
    );
    assert_eq!(
        table1.get_component(&entity, TypeId(32)),
        table2.get_component(&entity, TypeId(32))
    );
}

#[test]
fn table_storage_transfer_insert() {
    let arc1 = arc_of(&[kind_u8(), kind_u16(), kind_u32()]);

    let mut table_storage = TableStorage::default();
    let table_id_1 = table_storage.new_table(&arc1);

    let entity = Entity::from_raw(1, 0);
    table_storage.add_entity(table_id_1, entity).unwrap();

    table_storage.insert_component(table_id_1, &entity, TypeId(8), &vec![1]).unwrap();
    table_storage.insert_component(table_id_1, &entity, TypeId(16), &vec![2, 0]).unwrap();
    table_storage.insert_component(table_id_1, &entity, TypeId(32), &vec![3, 0, 0, 0]).unwrap();

    let arc2 = arc_of(&[kind_u8(), kind_u16(), kind_u32(), kind_u64()]);
    let table_id_2 = table_storage.new_table(&arc2);

    table_storage
        .transfer_line_with_insertion(table_id_1, table_id_2, entity, TypeId(64), &vec![
            4, 0, 0, 0, 0, 0, 0, 0,
        ])
        .unwrap();

    assert_eq!(
        table_storage.get_component(table_id_1, &entity, TypeId(8)),
        Err(Error::NonExistingEntity)
    );
    assert_eq!(
        table_storage.get_component(table_id_2, &entity, TypeId(8)),
        Ok(vec![1])
    );
    assert_eq!(
        table_storage.get_component(table_id_2, &entity, TypeId(16)),
        Ok(vec![2, 0])
    );
    assert_eq!(
        table_storage.get_component(table_id_2, &entity, TypeId(32)),
        Ok(vec![3, 0, 0, 0])
    );
    assert_eq!(
        table_storage.get_component(table_id_2, &entity, TypeId(64)),
        Ok(vec![4, 0, 0, 0, 0, 0, 0, 0])
    );
}

#[test]
fn table_storage_transfer_delete() {
    let arc1 = arc_of(&[kind_u8(), kind_u16(), kind_u32()]);

    let mut table_storage = TableStorage::default();
    let table_id_1 = table_storage.new_table(&arc1);

    let entity = Entity::from_raw(1, 0);
    table_storage.add_entity(table_id_1, entity).unwrap();

    table_storage.insert_component(table_id_1, &entity, TypeId(8), &vec![1]).unwrap();
    table_storage.insert_component(table_id_1, &entity, TypeId(16), &vec![2, 0]).unwrap();
    table_storage.insert_component(table_id_1, &entity, TypeId(32), &vec![3, 0, 0, 0]).unwrap();

    let arc2 = arc_of(&[kind_u8(), kind_u16()]);
    let table_id_2 = table_storage.new_table(&arc2);

    table_storage
        .transfer_line_with_deletion(table_id_1, table_id_2, entity, TypeId(32))
        .unwrap();

    assert_eq!(
        table_storage.get_component(table_id_1, &entity, TypeId(8)),
        Err(Error::NonExistingEntity)
    );
    assert_eq!(
        table_storage.get_component(table_id_2, &entity, TypeId(8)),
        Ok(vec![1])
    );
    assert_eq!(
        table_storage.get_component(table_id_2, &entity, TypeId(16)),
        Ok(vec![2, 0])
    );
    assert_eq!(
        table_storage.get_component(table_id_2, &entity, TypeId(32)),
        Err(Error::TableDoesNotContainComponentColumn)
    );
}

#[test]
fn table_drop_counts() {
    let dropper = TypeInfo::new(TypeId(900), 4, true);
    let arc1 = arc_of(&[kind_u8(), dropper]);

    let mut storage = TableStorage::default();
    let t1 = storage.new_table(&arc1);

    let entity = Entity::from_raw(1, 0);
    storage.add_entity(t1, entity).unwrap();
    storage.insert_component(t1, &entity, TypeId(8), &vec![7]).unwrap();
    storage.insert_component(t1, &entity, TypeId(900), &vec![1, 2, 3, 4]).unwrap();
    assert_eq!(storage.drop_count(t1, TypeId(900)), Some(0));

    let arc2 = arc_of(&[kind_u8()]);
    let t2 = storage.new_table(&arc2);
    storage.transfer_line_with_deletion(t1, t2, entity, TypeId(900)).unwrap();

    assert_eq!(storage.drop_count(t1, TypeId(900)), Some(1));
    assert_eq!(storage.drop_count(t2, TypeId(900)), None);
    assert_eq!(storage.get_component(t2, &entity, TypeId(8)), Ok(vec![7]));
}

#[test]
fn table_rows_track_free_slots() {
    let arc = arc_of(&[kind_u8()]);
    let mut table = Table::new(&arc);

    let e1 = Entity::from_raw(1, 0);
    let e2 = Entity::from_raw(2, 0);

    table.add_entity(e1);
    table.add_entity(e2);
    assert_eq!(table.len(), 2);

    table.remove_entity(&e1);
    assert_eq!(table.len(), 1);
    assert!(!table.has_entity(&e1));
    assert!(table.has_entity(&e2));

    let e3 = Entity::from_raw(3, 0);
    table.add_entity(e3);
    assert_eq!(table.len(), 2);
    table.insert_component(&e3, TypeId(8), &vec![9]).unwrap();
    assert_eq!(table.get_component(&e3, TypeId(8)), Ok(vec![9]));
    assert_eq!(
        table.get_component(&e1, TypeId(8)),
        Err(Error::NonExistingEntity)
    );
}
