use async_ecs::entities::Error;
use async_ecs::{Entities, Entity};

#[test]
fn generation_uniqueness() {
    let mut entities = Entities::new();

    let e1 = entities.allocate();
    let e2 = entities.allocate();
    assert_ne!(e1.index(), e2.index());
    assert!(entities.is_alive(e1));
    assert!(entities.is_alive(e2));

    entities.kill(&[e1]).unwrap();
    assert!(!entities.is_alive(e1));

    let e3 = entities.allocate();
    assert_eq!(e1.index(), e3.index());
    assert_eq!(e1.generation() + 1, e3.generation());
    assert!(!entities.is_alive(e1));
    assert!(entities.is_alive(e3));
}

#[test]
fn kill_reports_first_dead() {
    let mut entities = Entities::new();

    let e1 = entities.allocate();
    let e2 = entities.allocate();
    entities.kill(&[e2]).unwrap();

    match entities.kill(&[e1, e2]) {
        Err(Error::EntityIsDead { id, op }) => {
            assert_eq!(id, e2.id());
            assert_eq!(op, "kill");
        },
        other => panic!("expected EntityIsDead, got {:?}", other),
    }
}

#[test]
fn atomic_create_and_delete_apply_on_maintain() {
    let mut entities = Entities::new();

    let e1 = entities.create();
    assert!(entities.is_alive(e1));

    let deleted = entities.maintain();
    assert!(deleted.is_empty());
    assert!(entities.is_alive(e1));

    entities.delete(e1).unwrap();
    assert!(entities.is_alive(e1));

    let deleted = entities.maintain();
    assert_eq!(deleted, vec![e1]);
    assert!(!entities.is_alive(e1));
}

#[test]
fn delete_dead_entity_fails() {
    let mut entities = Entities::new();

    let e1 = entities.allocate();
    entities.kill(&[e1]).unwrap();

    match entities.delete(e1) {
        Err(Error::EntityIsDead { id, op }) => {
            assert_eq!(id, e1.id());
            assert_eq!(op, "delete");
        },
        other => panic!("expected EntityIsDead, got {:?}", other),
    }
}

#[test]
fn entity_id_round_trip() {
    let e = Entity::from_parts(7, 3);
    assert_eq!(e.index(), 7);
    assert_eq!(e.generation(), 3);

    let packed = e.id();
    let back = Entity::from_id(packed);
    assert_eq!(e, back);
    assert_eq!(back.index(), 7);
    assert_eq!(back.generation(), 3);
}

#[test]
fn allocate_reuses_freed_index_lifo() {
    let mut entities = Entities::new();

    let e1 = entities.allocate();
    let e2 = entities.allocate();
    let e3 = entities.allocate();
    entities.kill(&[e1, e3]).unwrap();

    let e4 = entities.allocate();
    assert_eq!(e4.index(), e3.index());
    let e5 = entities.allocate();
    assert_eq!(e5.index(), e1.index());

    assert!(entities.is_alive(e2));
    assert!(entities.is_alive(e4));
    assert!(entities.is_alive(e5));
}

#[test]
fn exhaustion_queries_report_room() {
    let mut entities = Entities::new();
    assert!(entities.can_allocate());
    assert!(entities.can_maintain());
    assert!(entities.can_kill(3));

    let e1 = entities.allocate();
    assert!(entities.can_allocate());
    entities.kill(&[e1]).unwrap();
    // a cached freed index keeps allocation possible regardless of the
    // high-water mark
    assert!(entities.can_allocate());
}
