use kiwi::component::TypeId;
use kiwi::component::TypeInfo;
use kiwi::query::Query;
use kiwi::table::Row;
use kiwi::world::World;

fn kind_u8() -> TypeInfo {
    TypeInfo::new(TypeId(8), 1, false)
}

fn kind_u16() -> TypeInfo {
    TypeInfo::new(TypeId(16), 2, false)
}

fn kind_u32() -> TypeInfo {
    TypeInfo::new(TypeId(32), 4, false)
}

fn kind_u64() -> TypeInfo {
    TypeInfo::new(TypeId(64), 8, false)
}

fn u16le(v: u16) -> Vec<u8> {
    v.to_le_bytes().to_vec()
}

fn u32le(v: u32) -> Vec<u8> {
    v.to_le_bytes().to_vec()
}

fn u64le(v: u64) -> Vec<u8> {
    v.to_le_bytes().to_vec()
}

#[test]
fn world_create_entity_and_add_and_remove_component() {
    let mut ecs = World::default();

    let entity = ecs.create();
    ecs.add_component(entity, kind_u8(), vec![1]).unwrap();
    ecs.add_component(entity, kind_u16(), u16le(2)).unwrap();
    ecs.add_component(entity, kind_u32(), u32le(3)).unwrap();

    let info = ecs.entity_component_info(entity).unwrap();
    assert!(info.has_component(TypeId(8)));
    assert!(info.has_component(TypeId(16)));
    assert!(info.has_component(TypeId(32)));

    ecs.remove_component(entity, TypeId(8)).unwrap();
    ecs.remove_component(entity, TypeId(16)).unwrap();
    ecs.remove_component(entity, TypeId(32)).unwrap();

    let info = ecs.entity_component_info(entity).unwrap();
    assert!(!info.has_component(TypeId(8)));
    assert!(!info.has_component(TypeId(16)));
    assert!(!info.has_component(TypeId(32)));

    ecs.add_component(entity, kind_u8(), vec![1]).unwrap();
    ecs.add_component(entity, kind_u16(), u16le(2)).unwrap();
    ecs.add_component(entity, kind_u32(), u32le(3)).unwrap();

    let info = ecs.entity_component_info(entity).unwrap();
    assert!(info.has_component(TypeId(8)));
    assert!(info.has_component(TypeId(16)));
    assert!(info.has_component(TypeId(32)));
}

#[test]
fn world_multiple_entities() {
    let mut ecs = World::default();

    let entity = ecs.create();
    ecs.add_component(entity, kind_u8(), vec![1]).unwrap();
    ecs.add_component(entity, kind_u16(), u16le(2)).unwrap();
    ecs.add_component(entity, kind_u32(), u32le(3)).unwrap();

    let info = ecs.entity_component_info(entity).unwrap();
    assert!(info.has_component(TypeId(8)));
    assert!(info.has_component(TypeId(16)));
    assert!(info.has_component(TypeId(32)));

    let entity2 = ecs.create();
    ecs.add_component(entity2, kind_u8(), vec![1]).unwrap();
    ecs.add_component(entity2, kind_u16(), u16le(2)).unwrap();
    ecs.add_component(entity2, kind_u32(), u32le(3)).unwrap();

    let info = ecs.entity_component_info(entity2).unwrap();
    assert!(info.has_component(TypeId(8)));
    assert!(info.has_component(TypeId(16)));
    assert!(info.has_component(TypeId(32)));
}

fn three_entity_world() -> World {
    let mut ecs = World::default();

    let entity = ecs.create();
    ecs.add_component(entity, kind_u8(), vec![1]).unwrap();
    ecs.add_component(entity, kind_u16(), u16le(2)).unwrap();
    ecs.add_component(entity, kind_u32(), u32le(3)).unwrap();

    let entity2 = ecs.create();
    ecs.add_component(entity2, kind_u8(), vec![4]).unwrap();
    ecs.add_component(entity2, kind_u16(), u16le(5)).unwrap();
    ecs.add_component(entity2, kind_u32(), u32le(6)).unwrap();

    let entity3 = ecs.create();
    ecs.add_component(entity3, kind_u8(), vec![7]).unwrap();
    ecs.add_component(entity3, kind_u16(), u16le(8)).unwrap();
    ecs.add_component(entity3, kind_u64(), u64le(9)).unwrap();

    ecs
}

fn sorted_rows(rows: &[Row]) -> Vec<Vec<Vec<u8>>> {
    let mut out: Vec<Vec<Vec<u8>>> = rows.iter().map(|r| r.values.clone()).collect();
    out.sort();
    out
}

#[test]
fn world_query() {
    let ecs = three_entity_world();

    let rows = ecs.query(&vec![TypeId(8)]);
    assert_eq!(sorted_rows(&rows), vec![vec![vec![1]], vec![vec![4]], vec![vec![7]]]);

    let rows = ecs.query(&vec![TypeId(8), TypeId(16)]);
    assert_eq!(
        sorted_rows(&rows),
        vec![
            vec![vec![1], u16le(2)],
            vec![vec![4], u16le(5)],
            vec![vec![7], u16le(8)],
        ]
    );

    let rows = ecs.query(&vec![TypeId(8), TypeId(16), TypeId(32)]);
    assert_eq!(
        sorted_rows(&rows),
        vec![
            vec![vec![1], u16le(2), u32le(3)],
            vec![vec![4], u16le(5), u32le(6)],
        ]
    );
}

#[test]
fn query_in_ecs() {
    let ecs = three_entity_world();

    let query_u8 = Query::new(vec![TypeId(8)]);
    let mut results = sorted_rows(&query_u8.iter(&ecs));
    results.sort();
    assert_eq!(results, vec![vec![vec![1]], vec![vec![4]], vec![vec![7]]]);

    let query_u8_u16 = Query::new(vec![TypeId(8), TypeId(16)]);
    let results = sorted_rows(&query_u8_u16.iter(&ecs));
    assert_eq!(
        results,
        vec![
            vec![vec![1], u16le(2)],
            vec![vec![4], u16le(5)],
            vec![vec![7], u16le(8)],
        ]
    );

    let query_all = Query::new(vec![TypeId(8), TypeId(16), TypeId(32)]);
    let results = sorted_rows(&query_all.iter(&ecs));
    assert_eq!(
        results,
        vec![
            vec![vec![1], u16le(2), u32le(3)],
            vec![vec![4], u16le(5), u32le(6)],
        ]
    );
}

#[test]
fn query_mut_in_ecs() {
    let mut ecs = three_entity_world();

    let targets = ecs.query(&vec![TypeId(8), TypeId(16), TypeId(32)]);
    for row in &targets {
        let b8 = row.values[0][0] + 1;
        let v16 = u16::from_le_bytes([row.values[1][0], row.values[1][1]]) + 1;
        let v32 = u32::from_le_bytes([
            row.values[2][0],
            row.values[2][1],
            row.values[2][2],
            row.values[2][3],
        ]) + 1;
        ecs.set_component(row.entity, TypeId(8), vec![b8]).unwrap();
        ecs.set_component(row.entity, TypeId(16), u16le(v16)).unwrap();
        ecs.set_component(row.entity, TypeId(32), u32le(v32)).unwrap();
    }

    let rows = ecs.query(&vec![TypeId(8), TypeId(16), TypeId(32)]);
    assert_eq!(
        sorted_rows(&rows),
        vec![
            vec![vec![2], u16le(3), u32le(4)],
            vec![vec![5], u16le(6), u32le(7)],
        ]
    );
}

#[test]
fn query_system_param() {
    let q = Query::new(vec![TypeId(1), TypeId(8)]);
    let ecs = World::default();
    let rows = q.iter(&ecs);
    assert!(rows.is_empty());
}

#[test]
fn query_with_entity_system_param() {
    let q = Query::new(vec![TypeId(1), TypeId(8)]);
    let mut ecs = World::default();
    let e = ecs.create();
    ecs.add_component(e, kind_u8(), vec![5]).unwrap();
    let rows = q.iter(&ecs);
    assert!(rows.is_empty());

    let only_u8 = Query::new(vec![TypeId(8)]);
    let rows = only_u8.iter(&ecs);
    assert_eq!(rows.len(), 1);
    assert_eq!(rows[0].entity, e);
    assert_eq!(rows[0].values, vec![vec![5]]);
}
