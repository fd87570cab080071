use vstd::prelude::*;

verus! {

/// The queue of deferred updates: updates are applied during one
/// maintenance pass, in exact enqueue order, draining until the queue is
/// empty — so an update enqueued while the pass is still draining runs
/// in the same pass, after everything already queued. A pass therefore
/// does not terminate if every drained update re-enqueues another.
pub struct LazyQueue<U> {
    items: Vec<U>,
}

impl<U> LazyQueue<U> {
    /// The queued updates, front first.
    pub closed spec fn view(&self) -> Seq<U> {
        self.items@
    }

    /// Create an empty queue.
    pub fn new() -> (q: LazyQueue<U>)
        ensures
            q.view() == Seq::<U>::empty(),
    {
        LazyQueue { items: Vec::new() }
    }

    /// Append an update at the back of the queue.
    pub fn enqueue(&mut self, update: U)
        ensures
            final(self).view() == old(self).view().push(update),
    {
        self.items.push(update);
    }

    /// Take the oldest queued update, if any.
    pub fn dequeue(&mut self) -> (r: Option<U>)
        ensures
            old(self).view().len() == 0 ==> r is None && final(self).view() == old(self).view(),
            old(self).view().len() > 0 ==> r == Some(old(self).view().first())
                && final(self).view() == old(self).view().drop_first(),
    {
        if self.items.len() == 0 {
            None
        } else {
            let r = self.items.remove(0);
            proof {
                assert(self.items@ =~= old(self).view().drop_first());
            }
            Some(r)
        }
    }

    /// Whether any update is queued.
    pub fn is_empty(&self) -> (r: bool)
        ensures
            r == (self.view().len() == 0),
    {
        self.items.len() == 0
    }

    /// The number of queued updates.
    pub fn len(&self) -> (n: usize)
        ensures
            n == self.view().len(),
    {
        self.items.len()
    }
}

/// Lazy ordering: enqueuing X then Y and draining until empty runs X
/// fully before Y begins; an update Z enqueued while X runs is drained
/// in the same pass, after Y.
pub proof fn lemma_lazy_ordering<U>(x: U, y: U, z: U)
    ensures
        ({
            let q0 = Seq::<U>::empty().push(x).push(y);
            let q1 = q0.drop_first();
            let q2 = q1.push(z);
            let q3 = q2.drop_first();
            &&& q0.first() == x
            &&& q2.first() == y
            &&& q3.first() == z
            &&& q3.drop_first().len() == 0
        }),
{
    let q0 = Seq::<U>::empty().push(x).push(y);
    let q1 = q0.drop_first();
    let q2 = q1.push(z);
    let q3 = q2.drop_first();
    assert(q1 =~= Seq::<U>::empty().push(y));
    assert(q3 =~= Seq::<U>::empty().push(z));
    assert(q3.drop_first() =~= Seq::<U>::empty());
}

} // verus!
