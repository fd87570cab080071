use vstd::prelude::*;
use crate::entity::Index;
use crate::mask::Mask;

verus! {

/// The indices present in both masks, ascending: the two-way join of the
/// storages carrying those masks.
pub fn join_indices(a: &Mask, b: &Mask) -> (r: Vec<Index>)
    requires
        a.wf(),
    ensures
        forall|p: int, q: int| 0 <= p < q < r@.len() ==> r@[p] < r@[q],
        forall|i: Index| #[trigger] r@.contains(i) == (a.has(i) && b.has(i)),
{
    a.and(b).iter_indices()
}

/// The indices present in all three masks, ascending. Wider joins nest
/// pairwise intersections the same way, balancing the tree of `and`s.
pub fn join_indices3(a: &Mask, b: &Mask, c: &Mask) -> (r: Vec<Index>)
    requires
        a.wf(),
    ensures
        forall|p: int, q: int| 0 <= p < q < r@.len() ==> r@[p] < r@[q],
        forall|i: Index| #[trigger] r@.contains(i) == (a.has(i) && b.has(i) && c.has(i)),
{
    a.and(b).and(c).iter_indices()
}

/// The indices present in all four masks, ascending.
pub fn join_indices4(a: &Mask, b: &Mask, c: &Mask, d: &Mask) -> (r: Vec<Index>)
    requires
        a.wf(),
        c.wf(),
    ensures
        forall|p: int, q: int| 0 <= p < q < r@.len() ==> r@[p] < r@[q],
        forall|i: Index|
            #[trigger] r@.contains(i) == (a.has(i) && b.has(i) && c.has(i) && d.has(i)),
{
    a.and(b).and(&c.and(d)).iter_indices()
}

/// The indices present in every one of the masks, ascending: the N-way
/// join, with the pairwise intersections combined through a balanced
/// binary split of the list rather than a linear chain, bounding
/// intersection depth logarithmically.
pub fn join_indices_all(masks: &Vec<&Mask>) -> (r: Vec<Index>)
    requires
        masks@.len() > 0,
        forall|t: int| 0 <= t < masks@.len() ==> (#[trigger] masks@[t]).wf(),
    ensures
        forall|p: int, q: int| 0 <= p < q < r@.len() ==> r@[p] < r@[q],
        forall|i: Index|
            #[trigger] r@.contains(i) == (forall|t: int|
                0 <= t < masks@.len() ==> (#[trigger] masks@[t]).has(i)),
{
    let all = and_range(masks, 0, masks.len());
    all.iter_indices()
}

/// The intersection of `masks[lo..hi]`, combined as a balanced binary
/// tree.
fn and_range(masks: &Vec<&Mask>, lo: usize, hi: usize) -> (r: Mask)
    requires
        lo < hi <= masks@.len(),
        forall|t: int| 0 <= t < masks@.len() ==> (#[trigger] masks@[t]).wf(),
    ensures
        r.wf(),
        forall|i: Index|
            #[trigger] r.has(i) == (forall|t: int|
                lo <= t < hi ==> (#[trigger] masks@[t]).has(i)),
    decreases hi - lo,
{
    if hi - lo == 1 {
        let r = masks[lo].clone_mask();
        proof {
            assert forall|i: Index|
                r.has(i) == (forall|t: int|
                    lo <= t < hi ==> (#[trigger] masks@[t]).has(i)) by {
                if r.has(i) {
                    assert forall|t: int| lo <= t < hi implies (#[trigger] masks@[t]).has(
                        i,
                    ) by {
                        assert(t == lo);
                    }
                }
                if forall|t: int| lo <= t < hi ==> (#[trigger] masks@[t]).has(i) {
                    assert(masks@[lo as int].has(i));
                }
            }
        }
        r
    } else {
        let mid = lo + (hi - lo) / 2;
        let left = and_range(masks, lo, mid);
        let right = and_range(masks, mid, hi);
        let r = left.and(&right);
        proof {
            assert forall|i: Index|
                r.has(i) == (forall|t: int|
                    lo <= t < hi ==> (#[trigger] masks@[t]).has(i)) by {
                if r.has(i) {
                    assert(left.has(i) && right.has(i));
                }
                if forall|t: int| lo <= t < hi ==> (#[trigger] masks@[t]).has(i) {
                    assert(forall|t: int| lo <= t < mid ==> (#[trigger] masks@[t]).has(i));
                    assert(forall|t: int| mid <= t < hi ==> (#[trigger] masks@[t]).has(i));
                    assert(left.has(i) && right.has(i));
                }
            }
        }
        r
    }
}

/// The optional-presence join of `a` with `maybe(b)`: every index of `a`
/// in ascending order, each flagged with whether `b` also holds it. A
/// join of nothing but `maybe` sides would be unconstrained and
/// degenerate to scanning every possible index, so the constrained mask
/// `a` always bounds the iteration.
pub fn join_maybe_indices(a: &Mask, b: &Mask) -> (r: Vec<(Index, bool)>)
    requires
        a.wf(),
    ensures
        forall|p: int, q: int| 0 <= p < q < r@.len() ==> r@[p].0 < r@[q].0,
        forall|i: Index|
            #![trigger a.has(i)]
            a.has(i) == exists|p: int| 0 <= p < r@.len() && (#[trigger] r@[p]).0 == i,
        forall|p: int|
            0 <= p < r@.len() ==> (#[trigger] r@[p]).1 == b.has(r@[p].0),
{
    let keys = a.iter_indices();
    let mut r: Vec<(Index, bool)> = Vec::new();
    let mut k: usize = 0;
    while k < keys.len()
        invariant
            k <= keys@.len(),
            r@.len() == k,
            forall|p: int, q: int| 0 <= p < q < keys@.len() ==> keys@[p] < keys@[q],
            forall|p: int| 0 <= p < k ==> (#[trigger] r@[p]).0 == keys@[p],
            forall|p: int| 0 <= p < k ==> (#[trigger] r@[p]).1 == b.has(keys@[p]),
        decreases keys@.len() - k,
    {
        let i = keys[k];
        r.push((i, b.contains(i)));
        k = k + 1;
    }
    proof {
        assert forall|i: Index|
            a.has(i) == exists|p: int| 0 <= p < r@.len() && (#[trigger] r@[p]).0 == i by {
            if a.has(i) {
                assert(keys@.contains(i));
                let p = choose|p: int| 0 <= p < keys@.len() && keys@[p] == i;
                assert(r@[p].0 == i);
            }
            if exists|p: int| 0 <= p < r@.len() && (#[trigger] r@[p]).0 == i {
                let p = choose|p: int| 0 <= p < r@.len() && (#[trigger] r@[p]).0 == i;
                assert(keys@[p] == i);
                assert(keys@.contains(i));
            }
        }
    }
    r
}

/// The anti-join: the indices of `a` that `b` does not hold, ascending.
/// Iterating the complement of a storage alone would be unbounded, so
/// the constrained mask `a` always bounds it.
pub fn join_without_indices(a: &Mask, b: &Mask) -> (r: Vec<Index>)
    requires
        a.wf(),
    ensures
        forall|p: int, q: int| 0 <= p < q < r@.len() ==> r@[p] < r@[q],
        forall|i: Index| #[trigger] r@.contains(i) == (a.has(i) && !b.has(i)),
{
    let keys = a.iter_indices();
    let mut r: Vec<Index> = Vec::new();
    let mut k: usize = 0;
    while k < keys.len()
        invariant
            k <= keys@.len(),
            forall|p: int, q: int| 0 <= p < q < keys@.len() ==> keys@[p] < keys@[q],
            forall|i: Index| #[trigger] keys@.contains(i) == a.has(i),
            forall|p: int, q: int| 0 <= p < q < r@.len() ==> r@[p] < r@[q],
            forall|p: int|
                0 <= p < r@.len() ==> exists|t: int|
                    0 <= t < k && keys@[t] == #[trigger] r@[p],
            forall|i: Index|
                #[trigger] r@.contains(i) == (exists|t: int|
                    0 <= t < k && keys@[t] == i && !b.has(i)),
        decreases keys@.len() - k,
    {
        let i = keys[k];
        let ghost r0 = r@;
        if !b.contains(i) {
            proof {
                assert forall|p: int| 0 <= p < r0.len() implies r0[p] < i by {
                    let t = choose|t: int| 0 <= t < k && keys@[t] == r0[p];
                }
            }
            r.push(i);
        }
        k = k + 1;
        proof {
            assert forall|j: Index|
                r@.contains(j) == (exists|t: int|
                    0 <= t < k && keys@[t] == j && !b.has(j)) by {
                if r@.contains(j) {
                    let p = choose|p: int| 0 <= p < r@.len() && r@[p] == j;
                    if p < r0.len() {
                        assert(r0[p] == j);
                        assert(r0.contains(j));
                        let t = choose|t: int|
                            0 <= t < k - 1 && keys@[t] == j && !b.has(j);
                        assert(keys@[t] == j && !b.has(j));
                    } else {
                        assert(j == keys@[k - 1]);
                    }
                }
                if exists|t: int| 0 <= t < k && keys@[t] == j && !b.has(j) {
                    let t = choose|t: int| 0 <= t < k && keys@[t] == j && !b.has(j);
                    if t < k - 1 {
                        assert(r0.contains(j));
                        let p = choose|p: int| 0 <= p < r0.len() && r0[p] == j;
                        assert(r@[p] == j);
                        assert(r@.contains(j));
                    } else {
                        assert(j == keys@[k - 1]);
                        assert(r@[r@.len() - 1] == j);
                        assert(r@.contains(j));
                    }
                }
            }
        }
    }
    proof {
        assert forall|i: Index|
            r@.contains(i) == (a.has(i) && !b.has(i)) by {
            if exists|t: int| 0 <= t < keys@.len() && keys@[t] == i && !b.has(i) {
                let t = choose|t: int|
                    0 <= t < keys@.len() && keys@[t] == i && !b.has(i);
                assert(keys@.contains(i));
            }
            if a.has(i) && !b.has(i) {
                assert(keys@.contains(i));
                let t = choose|t: int| 0 <= t < keys@.len() && keys@[t] == i;
            }
        }
    }
    r
}

/// A single-pass iterator over the indices of a join: the surviving
/// keys in ascending order, with the source mask kept for membership
/// checks.
pub struct JoinIter {
    set: Mask,
    keys: Vec<Index>,
    cursor: usize,
}

impl JoinIter {
    /// The keys not yet yielded.
    pub closed spec fn remaining(&self) -> Seq<Index> {
        self.keys@.subrange(self.cursor as int, self.keys@.len() as int)
    }

    /// Membership in the underlying mask.
    pub closed spec fn set_has(&self, i: Index) -> bool {
        self.set.has(i)
    }

    /// The cursor never runs past the keys.
    pub closed spec fn wf(&self) -> bool {
        self.cursor as int <= self.keys@.len()
    }

    /// Open a join over a mask: capture its keys in ascending order.
    pub fn new(set: &Mask) -> (r: JoinIter)
        requires
            set.wf(),
        ensures
            r.wf(),
            forall|p: int, q: int|
                0 <= p < q < r.remaining().len() ==> r.remaining()[p] < r.remaining()[q],
            forall|i: Index| #[trigger] r.remaining().contains(i) == set.has(i),
            forall|i: Index| #[trigger] r.set_has(i) == set.has(i),
    {
        let keys = set.iter_indices();
        let r = JoinIter { set: set.clone_mask(), keys, cursor: 0 };
        proof {
            assert(r.remaining() =~= r.keys@);
        }
        r
    }

    /// Yield the next surviving index, in ascending order.
    pub fn next(&mut self) -> (r: Option<Index>)
        requires
            old(self).wf(),
        ensures
            final(self).wf(),
            forall|i: Index|
                #[trigger] final(self).set_has(i) == old(self).set_has(i),
            old(self).remaining().len() == 0 ==> r is None && final(self).remaining()
                == old(self).remaining(),
            old(self).remaining().len() > 0 ==> r == Some(old(self).remaining().first())
                && final(self).remaining() == old(self).remaining().drop_first(),
    {
        if self.cursor < self.keys.len() {
            let i = self.keys[self.cursor];
            self.cursor = self.cursor + 1;
            proof {
                assert(self.remaining() =~= old(self).remaining().drop_first());
            }
            Some(i)
        } else {
            None
        }
    }

    /// O(1) membership test against the full source mask, regardless of
    /// how far the iteration has advanced.
    pub fn contains(&self, i: Index) -> (r: bool)
        ensures
            r == self.set_has(i),
    {
        self.set.contains(i)
    }
}

} // verus!
