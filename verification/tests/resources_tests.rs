use kiwi::component::TypeId;
use kiwi::component::TypeInfo;
use kiwi::resources::Error;
use kiwi::resources::Resources;
use kiwi::world::World;

fn kind_a() -> TypeInfo {
    TypeInfo::new(TypeId(201), 1, false)
}

fn kind_b() -> TypeInfo {
    TypeInfo::new(TypeId(202), 2, false)
}

fn kind_c() -> TypeInfo {
    TypeInfo::new(TypeId(203), 4, false)
}

#[test]
fn resources_add_get() {
    let mut resources = Resources::new();

    resources.add(kind_a(), &vec![1]);
    resources.add(kind_b(), &vec![2, 0]);

    assert_eq!(resources.get(kind_a().id), Ok(vec![1]));
    assert_eq!(resources.get(kind_b().id), Ok(vec![2, 0]));
    assert_eq!(
        resources.get(kind_c().id),
        Err(Error::GetNonExisting(TypeId(203)))
    );
}

#[test]
fn resources_add_remove_get() {
    let mut resources = Resources::new();

    resources.add(kind_a(), &vec![1]);
    resources.add(kind_b(), &vec![2, 0]);

    assert!(resources.remove(kind_a().id).is_ok());

    assert_eq!(
        resources.get(kind_a().id),
        Err(Error::GetNonExisting(TypeId(201)))
    );
    assert_eq!(resources.get(kind_b().id), Ok(vec![2, 0]));
    assert_eq!(
        resources.get(kind_c().id),
        Err(Error::GetNonExisting(TypeId(203)))
    );
    assert_eq!(
        resources.remove(kind_c().id),
        Err(Error::RemoveNonExisting(TypeId(203)))
    );
}

#[test]
fn resources_overwrite_drops_prior() {
    let mut resources = Resources::new();
    let dropper = TypeInfo::new(TypeId(210), 2, true);

    resources.add(dropper, &vec![1, 0]);
    resources.add(dropper, &vec![2, 0]);
    assert_eq!(resources.get(dropper.id), Ok(vec![2, 0]));
}

#[test]
fn res_in_ecs() {
    let mut ecs = World::default();

    ecs.add_resource(kind_a(), vec![1]);
    ecs.add_resource(kind_b(), vec![2, 0]);

    assert_eq!(ecs.get_resource(kind_a().id), Ok(vec![1]));
    assert_eq!(ecs.get_resource(kind_b().id), Ok(vec![2, 0]));
    assert_eq!(
        ecs.get_resource(kind_c().id),
        Err(kiwi::world::Error::Resources(Error::GetNonExisting(TypeId(203))))
    );
}

#[test]
fn res_mut_in_ecs() {
    let mut ecs = World::default();

    ecs.add_resource(kind_a(), vec![1]);
    ecs.add_resource(kind_b(), vec![2, 0]);

    ecs.set_resource(kind_a().id, vec![11]).unwrap();
    ecs.set_resource(kind_b().id, vec![22, 0]).unwrap();
    assert_eq!(
        ecs.set_resource(kind_c().id, vec![0, 0, 0, 0]),
        Err(kiwi::world::Error::Resources(Error::GetNonExisting(TypeId(203))))
    );

    assert_eq!(ecs.get_resource(kind_a().id), Ok(vec![11]));
    assert_eq!(ecs.get_resource(kind_b().id), Ok(vec![22, 0]));
}

#[test]
fn remove_resource_in_ecs() {
    let mut ecs = World::default();
    ecs.add_resource(kind_a(), vec![9]);
    assert!(ecs.remove_resource(kind_a().id).is_ok());
    assert_eq!(
        ecs.remove_resource(kind_a().id),
        Err(kiwi::world::Error::Resources(Error::RemoveNonExisting(TypeId(201))))
    );
}
