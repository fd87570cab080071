use async_ecs::Cell;

#[test]
fn allow_multiple_reads() {
    let mut cell = Cell::new(5);

    let a = cell.borrow();
    let b = cell.borrow();

    assert_eq!(10, *cell.get() + *cell.get());

    cell.release(a);
    cell.release(b);
}

#[test]
fn allow_single_write() {
    let mut cell = Cell::new(5);

    {
        let a = cell.borrow_mut();
        let v = *cell.get_mut() + 2;
        cell.set(v);
        let v = *cell.get_mut() + 3;
        cell.set(v);
        cell.release_mut(a);
    }

    assert_eq!(10, *cell.get());
}

#[test]
fn try_write_and_read() {
    let mut cell = Cell::new(5);

    let a = cell.try_borrow_mut().unwrap();
    cell.set(7);

    assert!(cell.try_borrow().is_none());

    cell.set(8);
    cell.release_mut(a);
}

#[test]
fn try_write_and_write() {
    let mut cell = Cell::new(5);

    let a = cell.try_borrow_mut().unwrap();
    cell.set(7);

    assert!(cell.try_borrow_mut().is_none());

    cell.set(8);
    cell.release_mut(a);
}

#[test]
fn try_read_and_write() {
    let mut cell = Cell::new(5);

    let a = cell.try_borrow().unwrap();

    assert!(cell.try_borrow_mut().is_none());

    cell.release(a);
}

#[test]
fn borrow_exclusivity_resets() {
    let mut cell = Cell::new(1);

    let a = cell.try_borrow().unwrap();
    let b = cell.try_borrow().unwrap();
    let c = cell.try_borrow().unwrap();

    assert_eq!(1, *cell.get());
    assert!(cell.try_borrow_mut().is_none());

    cell.release(a);
    cell.release(b);
    assert!(cell.try_borrow_mut().is_none());

    cell.release(c);
    let w = cell.try_borrow_mut().unwrap();
    cell.set(2);
    cell.release_mut(w);

    assert_eq!(2, *cell.get());
}

#[test]
fn into_inner_returns_value() {
    let cell = Cell::new(41);
    assert_eq!(41, cell.into_inner());
}
