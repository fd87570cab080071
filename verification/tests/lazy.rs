use async_ecs::LazyQueue;

#[test]
fn lazy_updates_run_in_enqueue_order() {
    let mut queue: LazyQueue<&str> = LazyQueue::new();

    queue.enqueue("x");
    queue.enqueue("y");

    let mut order = Vec::new();
    while let Some(update) = queue.dequeue() {
        // the first drained update enqueues another, which must still run
        // in the same pass, after everything already queued
        if update == "x" {
            queue.enqueue("z");
        }
        order.push(update);
    }

    assert_eq!(order, vec!["x", "y", "z"]);
    assert!(queue.is_empty());
}

#[test]
fn dequeue_on_empty_returns_nothing() {
    let mut queue: LazyQueue<u32> = LazyQueue::new();
    assert_eq!(None, queue.dequeue());
    assert_eq!(0, queue.len());
}
