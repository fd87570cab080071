use async_ecs::{
    BTreeStorage, Component, DenseVecStorage, Entities, Error, HashMapStorage, MaskedStorage,
    StorageWrapper, TryDefault, VecStorage,
};

#[derive(Debug, PartialEq, Clone)]
struct Pos(i32);

impl Component for Pos {
    type Storage = VecStorage<Pos>;
}

#[derive(Debug, PartialEq, Clone)]
struct Vel(i32);

impl Component for Vel {
    type Storage = DenseVecStorage<Vel>;
}

#[derive(Debug, PartialEq, Clone)]
struct Health(i32);

impl Component for Health {
    type Storage = HashMapStorage<Health>;
}

#[derive(Debug, PartialEq, Clone)]
struct Label(i32);

impl Component for Label {
    type Storage = BTreeStorage<Label>;
}

#[test]
fn insert_overwrite_returns_previous() {
    let mut entities = Entities::new();
    let e = entities.allocate();

    let mut storage: MaskedStorage<Pos> = MaskedStorage::fresh();

    assert_eq!(None, storage.insert(e, Pos(1)));
    assert_eq!(Some(Pos(1)), storage.insert(e, Pos(2)));
    assert_eq!(Some(Pos(2)), storage.remove(e.index()));
    assert_eq!(None, storage.remove(e.index()));
}

#[test]
fn round_trip_same_tick() {
    let mut entities = Entities::new();
    let e = entities.allocate();

    let mut storage: StorageWrapper<Pos> = StorageWrapper::new(MaskedStorage::fresh());
    assert_eq!(Ok(None), storage.insert(&entities, e, Pos(17)));
    assert_eq!(Some(&Pos(17)), storage.get(&entities, e));
}

#[test]
fn insert_for_dead_entity_fails() {
    let mut entities = Entities::new();
    let e = entities.allocate();
    entities.kill(&[e]).unwrap();

    let mut storage: StorageWrapper<Pos> = StorageWrapper::new(MaskedStorage::fresh());
    assert_eq!(Err(Error::EntityIsNotAlive(e)), storage.insert(&entities, e, Pos(1)));
    assert_eq!(None, storage.get(&entities, e));
}

#[test]
fn stale_entity_reads_nothing_after_reuse() {
    let mut entities = Entities::new();
    let e1 = entities.allocate();

    let mut storage: StorageWrapper<Pos> = StorageWrapper::new(MaskedStorage::fresh());
    storage.insert(&entities, e1, Pos(5)).unwrap();

    entities.kill(&[e1]).unwrap();
    let e2 = entities.allocate();
    assert_eq!(e1.index(), e2.index());

    assert_eq!(None, storage.get(&entities, e1));
    assert_eq!(Some(&Pos(5)), storage.get(&entities, e2));
}

#[test]
fn dense_storage_swap_remove_keeps_others() {
    let mut entities = Entities::new();
    let e1 = entities.allocate();
    let e2 = entities.allocate();
    let e3 = entities.allocate();

    let mut storage: MaskedStorage<Vel> = MaskedStorage::fresh();
    storage.insert(e1, Vel(1));
    storage.insert(e2, Vel(2));
    storage.insert(e3, Vel(3));

    assert_eq!(Some(Vel(1)), storage.remove(e1.index()));
    assert_eq!(Some(&Vel(2)), storage.get(e2.index()));
    assert_eq!(Some(&Vel(3)), storage.get(e3.index()));
    assert_eq!(None, storage.get(e1.index()));
}

#[test]
fn hash_map_storage_works() {
    let mut entities = Entities::new();
    let e1 = entities.allocate();
    let e2 = entities.allocate();

    let mut storage: MaskedStorage<Health> = MaskedStorage::fresh();
    assert_eq!(None, storage.insert(e1, Health(10)));
    assert_eq!(None, storage.insert(e2, Health(20)));
    assert_eq!(Some(&Health(10)), storage.get(e1.index()));
    assert_eq!(Some(Health(20)), storage.remove(e2.index()));
    assert_eq!(None, storage.get(e2.index()));
}

#[test]
fn btree_storage_works() {
    let mut entities = Entities::new();
    let e1 = entities.allocate();

    let mut storage: MaskedStorage<Label> = MaskedStorage::fresh();
    assert_eq!(None, storage.insert(e1, Label(7)));
    assert_eq!(Some(&Label(7)), storage.get(e1.index()));
    storage.clear();
    assert_eq!(None, storage.get(e1.index()));
}

#[test]
fn wrapper_clear_and_empty() {
    let mut entities = Entities::new();
    let e = entities.allocate();

    let mut storage: StorageWrapper<Pos> = StorageWrapper::new(MaskedStorage::fresh());
    assert!(storage.is_empty());
    storage.insert(&entities, e, Pos(3)).unwrap();
    assert!(!storage.is_empty());
    assert_eq!(1, storage.count());
    storage.clear();
    assert!(storage.is_empty());
}

#[test]
fn drain_hands_out_everything_in_order() {
    let mut entities = Entities::new();
    let e1 = entities.allocate();
    let e2 = entities.allocate();
    let e3 = entities.allocate();

    let mut storage: MaskedStorage<Pos> = MaskedStorage::fresh();
    storage.insert(e2, Pos(2));
    storage.insert(e3, Pos(3));
    storage.insert(e1, Pos(1));

    let drained = storage.drain();
    assert_eq!(
        drained,
        vec![(e1.index(), Pos(1)), (e2.index(), Pos(2)), (e3.index(), Pos(3))]
    );
    assert_eq!(None, storage.get(e1.index()));
}

#[test]
fn try_default_conjures_empty_storages() {
    let v: VecStorage<Pos> = TryDefault::try_default().unwrap();
    let masked: MaskedStorage<Pos> = MaskedStorage::new(v);
    assert_eq!(None, masked.get(0));

    let d: DenseVecStorage<Vel> = TryDefault::try_default().unwrap();
    let masked: MaskedStorage<Vel> = MaskedStorage::new(d);
    assert_eq!(None, masked.get(0));

    let h: HashMapStorage<Health> = TryDefault::try_default().unwrap();
    let masked: MaskedStorage<Health> = MaskedStorage::new(h);
    assert_eq!(None, masked.get(0));

    let b: BTreeStorage<Label> = TryDefault::try_default().unwrap();
    let masked: MaskedStorage<Label> = MaskedStorage::new(b);
    assert_eq!(None, masked.get(0));
}

#[test]
fn count_tracks_inserts_and_removes() {
    let mut entities = Entities::new();
    let e1 = entities.allocate();
    let e2 = entities.allocate();

    let mut storage: StorageWrapper<Pos> = StorageWrapper::new(MaskedStorage::fresh());
    assert_eq!(0, storage.count());
    storage.insert(&entities, e1, Pos(1)).unwrap();
    storage.insert(&entities, e2, Pos(2)).unwrap();
    assert_eq!(2, storage.count());
    storage.remove(&entities, e1);
    assert_eq!(1, storage.count());
}
