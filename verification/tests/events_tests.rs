use kiwi::component::TypeId;
use kiwi::events::clear_events;
use kiwi::events::Event;
use kiwi::events::Events;
use kiwi::world::World;

#[derive(Debug)]
struct E {
    i: u8,
}

impl Event for E {}

#[test]
fn events() {
    let mut pipe: Events<E> = Events::new();

    for i in 0..10 {
        pipe.send(E { i });
    }

    let mut sum: u8 = 0;
    for e in pipe.iter() {
        sum += e.i;
    }
    let expected: u8 = (0..10).sum();
    assert_eq!(sum, expected);
    assert_eq!(pipe.len(), 10);
    assert!(!pipe.is_empty());

    clear_events(&mut pipe);
    assert!(pipe.is_empty());
    assert_eq!(pipe.len(), 0);
}

#[test]
fn events_in_ecs() {
    let mut ecs = World::default();
    let e_kind = TypeId(500);

    ecs.add_event(e_kind);

    for i in 0u8..10 {
        ecs.send_event(e_kind, vec![i]).unwrap();
    }

    let values = ecs.events(e_kind).unwrap();
    let mut sum: u8 = 0;
    for v in &values {
        sum += v[0];
    }
    assert_eq!(sum, 45);

    ecs.clear_events(e_kind).unwrap();
    assert!(ecs.events(e_kind).unwrap().is_empty());

    assert!(ecs.send_event(TypeId(501), vec![0]).is_err());
}
