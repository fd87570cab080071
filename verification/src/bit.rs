use vstd::prelude::*;
use crate::entity::Index;
use crate::mask::Mask;

verus! {

/// The number of set bits of `n`.
pub open spec fn pop64(n: u64) -> nat
    decreases n,
{
    if n == 0 {
        0
    } else {
        (n % 2) as nat + pop64(n / 2)
    }
}

/// The number of set bits of `n`.
pub open spec fn pop32(n: u32) -> nat
    decreases n,
{
    if n == 0 {
        0
    } else {
        (n % 2) as nat + pop32(n / 2)
    }
}

/// The set bits of `n` at positions `k` and above.
pub open spec fn pop64_from(n: u64, k: u64) -> nat {
    if k >= 64 {
        0
    } else {
        pop64(n >> k)
    }
}

/// The set bits of `n` at positions `k` and above.
pub open spec fn pop32_from(n: u32, k: u32) -> nat {
    if k >= 32 {
        0
    } else {
        pop32(n >> k)
    }
}

/// The population never exceeds the number itself.
proof fn lemma_pop64_le(n: u64)
    ensures
        pop64(n) <= n,
    decreases n,
{
    if n > 0 {
        lemma_pop64_le(n / 2);
    }
}

proof fn lemma_pop32_le(n: u32)
    ensures
        pop32(n) <= n,
    decreases n,
{
    if n > 0 {
        lemma_pop32_le(n / 2);
    }
}

/// Stepping the suffix population down by one bit position.
proof fn lemma_pop64_step(n: u64, k: u64)
    requires
        k < 64,
    ensures
        pop64_from(n, k) == pop64_from(n, (k + 1) as u64) + ((n >> k) & 1),
{
    assert(k < 64 ==> ((n >> k) & 1) == (n >> k) % 2) by (bit_vector);
    if k == 63 {
        assert(n >> 63 < 2) by (bit_vector);
        assert(pop64(0u64) == 0);
        if n >> 63 == 0 {
            assert(pop64(n >> 63) == 0);
        } else {
            assert(n >> 63 == 1);
            assert(pop64(1u64) == 1);
        }
    } else {
        assert(k < 63 ==> (n >> k) / 2 == n >> (k + 1)) by (bit_vector);
        if n >> k == 0 {
            assert(k < 63 ==> (n >> k == 0 ==> n >> (k + 1) == 0)) by (bit_vector);
        }
    }
}

proof fn lemma_pop32_step(n: u32, k: u32)
    requires
        k < 32,
    ensures
        pop32_from(n, k) == pop32_from(n, (k + 1) as u32) + ((n >> k) & 1),
{
    assert(k < 32 ==> ((n >> k) & 1) == (n >> k) % 2) by (bit_vector);
    if k == 31 {
        assert(n >> 31 < 2) by (bit_vector);
        assert(pop32(0u32) == 0);
        if n >> 31 == 0 {
            assert(pop32(n >> 31) == 0);
        } else {
            assert(n >> 31 == 1);
            assert(pop32(1u32) == 1);
        }
    } else {
        assert(k < 31 ==> (n >> k) / 2 == n >> (k + 1)) by (bit_vector);
        if n >> k == 0 {
            assert(k < 31 ==> (n >> k == 0 ==> n >> (k + 1) == 0)) by (bit_vector);
        }
    }
}

/// The number of set bits of `n`.
fn popcount_u64(n: u64) -> (r: u64)
    ensures
        r == pop64(n),
{
    let mut m = n;
    let mut c: u64 = 0;
    proof {
        lemma_pop64_le(n);
    }
    while m != 0
        invariant
            c + pop64(m) == pop64(n),
            pop64(n) <= n,
        decreases m,
    {
        proof {
            assert((m & 1) == m % 2) by (bit_vector);
            assert(m >> 1 == m / 2) by (bit_vector);
        }
        if m & 1 == 1 {
            c = c + 1;
        }
        m = m >> 1;
    }
    c
}

/// The number of set bits of `n`.
fn popcount_u32(n: u32) -> (r: u32)
    ensures
        r == pop32(n),
{
    let mut m = n;
    let mut c: u32 = 0;
    proof {
        lemma_pop32_le(n);
    }
    while m != 0
        invariant
            c + pop32(m) == pop32(n),
            pop32(n) <= n,
        decreases m,
    {
        proof {
            assert((m & 1) == m % 2) by (bit_vector);
            assert(m >> 1 == m / 2) by (bit_vector);
        }
        if m & 1 == 1 {
            c = c + 1;
        }
        m = m >> 1;
    }
    c
}

/// The weighted bit median of `n`: the set bit with exactly half of the
/// population at or above it, splitting the set bits into two
/// near-equal halves. Nothing to split when fewer than two bits are
/// set.
pub fn bit_average_u64(n: u64) -> (r: Option<u64>)
    ensures
        (r is None) == (pop64(n) <= 1),
        match r {
            Some(k) => k < 64 && (n >> k) & 1 == 1 && pop64(n >> k) == pop64(n) / 2,
            None => true,
        },
{
    let total = popcount_u64(n);
    if total <= 1 {
        return None;
    }
    let target = total / 2;
    let mut k: u64 = 64;
    let mut cur: u64 = 0;
    while k > 0
        invariant
            k <= 64,
            1 <= target,
            target == pop64(n) / 2,
            2 <= pop64(n),
            cur == pop64_from(n, k),
            cur < target,
        decreases k,
    {
        k = k - 1;
        let bit = (n >> k) & 1;
        proof {
            lemma_pop64_step(n, k);
            assert(((n >> k) & 1) <= 1) by (bit_vector);
        }
        cur = cur + bit;
        if bit == 1 && cur == target {
            return Some(k);
        }
    }
    proof {
        assert(n >> 0u64 == n) by (bit_vector);
        assert(pop64_from(n, 0) == pop64(n));
        assert(false);
    }
    None
}

/// The weighted bit median of `n`, over 32-bit words.
pub fn bit_average_u32(n: u32) -> (r: Option<u32>)
    ensures
        (r is None) == (pop32(n) <= 1),
        match r {
            Some(k) => k < 32 && (n >> k) & 1 == 1 && pop32(n >> k) == pop32(n) / 2,
            None => true,
        },
{
    let total = popcount_u32(n);
    if total <= 1 {
        return None;
    }
    let target = total / 2;
    let mut k: u32 = 32;
    let mut cur: u32 = 0;
    while k > 0
        invariant
            k <= 32,
            1 <= target,
            target == pop32(n) / 2,
            2 <= pop32(n),
            cur == pop32_from(n, k),
            cur < target,
        decreases k,
    {
        k = k - 1;
        let bit = (n >> k) & 1;
        proof {
            lemma_pop32_step(n, k);
            assert(((n >> k) & 1) <= 1) by (bit_vector);
        }
        cur = cur + bit;
        if bit == 1 && cur == target {
            return Some(k);
        }
    }
    proof {
        assert(n >> 0u32 == n) by (bit_vector);
        assert(pop32_from(n, 0) == pop32(n));
        assert(false);
    }
    None
}

/// The weighted bit median of a word-sized value.
pub fn bit_average(n: usize) -> (r: Option<usize>)
    ensures
        (r is None) == (pop64(n as u64) <= 1),
        match r {
            Some(k) => k < 64 && ((n as u64) >> k as u64) & 1 == 1 && pop64(
                (n as u64) >> k as u64,
            ) == pop64(n as u64) / 2,
            None => true,
        },
{
    match bit_average_u64(n as u64) {
        Some(k) => Some(k as usize),
        None => None,
    }
}

/// An iterator over the set bits of a mask in ascending order, splittable
/// at the population median so a work-splitting parallel executor can
/// divide iteration ranges with balanced element counts.
#[derive(Clone)]
pub struct BitIter {
    set: Mask,
    indices: Vec<Index>,
    cursor: usize,
}

impl BitIter {
    /// The indices not yet yielded.
    pub closed spec fn remaining(&self) -> Seq<Index> {
        self.indices@.subrange(self.cursor as int, self.indices@.len() as int)
    }

    /// Membership in the underlying bitset.
    pub closed spec fn set_has(&self, i: Index) -> bool {
        self.set.has(i)
    }

    /// The cursor never runs past the indices.
    pub closed spec fn wf(&self) -> bool {
        self.cursor as int <= self.indices@.len()
    }

    /// Open an iterator over the set bits of `set`.
    pub fn new(set: &Mask) -> (r: BitIter)
        requires
            set.wf(),
        ensures
            r.wf(),
            forall|p: int, q: int|
                0 <= p < q < r.remaining().len() ==> r.remaining()[p] < r.remaining()[q],
            forall|i: Index| #[trigger] r.remaining().contains(i) == set.has(i),
            forall|i: Index| #[trigger] r.set_has(i) == set.has(i),
    {
        let indices = set.iter_indices();
        let r = BitIter { set: set.clone_mask(), indices, cursor: 0 };
        proof {
            assert(r.remaining() =~= r.indices@);
        }
        r
    }

    /// Yield the lowest remaining set bit.
    pub fn next(&mut self) -> (r: Option<Index>)
        requires
            old(self).wf(),
        ensures
            final(self).wf(),
            forall|i: Index| #[trigger] final(self).set_has(i) == old(self).set_has(i),
            old(self).remaining().len() == 0 ==> r is None && final(self).remaining() == old(
                self,
            ).remaining(),
            old(self).remaining().len() > 0 ==> r == Some(old(self).remaining().first())
                && final(self).remaining() == old(self).remaining().drop_first(),
    {
        if self.cursor < self.indices.len() {
            let i = self.indices[self.cursor];
            self.cursor = self.cursor + 1;
            proof {
                assert(self.remaining() =~= old(self).remaining().drop_first());
            }
            Some(i)
        } else {
            None
        }
    }

    /// O(1) membership test against the full bitset.
    pub fn contains(&self, i: Index) -> (r: bool)
        ensures
            r == self.set_has(i),
    {
        self.set.contains(i)
    }

    /// Split the remaining range in two population-balanced halves: the
    /// left part keeps the lower indices. With fewer than two indices
    /// left there is nothing to split.
    pub fn split(self) -> (r: (BitIter, Option<BitIter>))
        requires
            self.wf(),
        ensures
            r.0.wf(),
            forall|i: Index| #[trigger] r.0.set_has(i) == self.set_has(i),
            match r.1 {
                Some(right) => {
                    &&& right.wf()
                    &&& r.0.remaining() == self.remaining().subrange(
                        0,
                        (self.remaining().len() + 1) as int / 2,
                    )
                    &&& right.remaining() == self.remaining().subrange(
                        (self.remaining().len() + 1) as int / 2,
                        self.remaining().len() as int,
                    )
                    &&& forall|i: Index| #[trigger] right.set_has(i) == self.set_has(i)
                },
                None => self.remaining().len() < 2 && r.0.remaining() == self.remaining(),
            },
    {
        proof {
            assert(self.cursor as int <= self.indices@.len());
        }
        let rem = self.indices.len() - self.cursor;
        if rem < 2 {
            return (self, None);
        }
        let mid = self.cursor + (rem - rem / 2);
        proof {
            assert(mid as int == self.cursor + (rem as int + 1) / 2);
        }
        let left_keys = copy_range(&self.indices, self.cursor, mid);
        let right_keys = copy_range(&self.indices, mid, self.indices.len());
        let right_set = self.set.clone_mask();
        let left = BitIter { set: self.set, indices: left_keys, cursor: 0 };
        let right = BitIter { set: right_set, indices: right_keys, cursor: 0 };
        proof {
            assert(left.remaining() =~= left.indices@);
            assert(right.remaining() =~= right.indices@);
            assert(left.remaining() =~= self.remaining().subrange(
                0,
                (self.remaining().len() + 1) as int / 2,
            ));
            assert(right.remaining() =~= self.remaining().subrange(
                (self.remaining().len() + 1) as int / 2,
                self.remaining().len() as int,
            ));
        }
        (left, Some(right))
    }
}

/// Copy `v[from..to]` into a fresh vector.
fn copy_range(v: &Vec<Index>, from: usize, to: usize) -> (r: Vec<Index>)
    requires
        from <= to <= v@.len(),
    ensures
        r@ == v@.subrange(from as int, to as int),
{
    let mut r: Vec<Index> = Vec::new();
    let mut k = from;
    while k < to
        invariant
            from <= k <= to <= v@.len(),
            r@ == v@.subrange(from as int, k as int),
        decreases to - k,
    {
        r.push(v[k]);
        k = k + 1;
        proof {
            assert(r@ =~= v@.subrange(from as int, k as int));
        }
    }
    r
}

/// A producer of index ranges for a work-splitting parallel executor:
/// wraps a [`BitIter`] and divides it at the balanced point.
pub struct BitProducer {
    pub iter: BitIter,
}

impl BitProducer {
    /// Wrap an iterator.
    pub fn new(iter: BitIter) -> (r: BitProducer)
        ensures
            r.iter == iter,
    {
        BitProducer { iter }
    }

    /// Split the producer into two balanced halves.
    pub fn split(self) -> (r: (BitProducer, Option<BitProducer>))
        requires
            self.iter.wf(),
        ensures
            r.0.iter.wf(),
            match r.1 {
                Some(right) => {
                    &&& right.iter.wf()
                    &&& r.0.iter.remaining() == self.iter.remaining().subrange(
                        0,
                        (self.iter.remaining().len() + 1) as int / 2,
                    )
                    &&& right.iter.remaining() == self.iter.remaining().subrange(
                        (self.iter.remaining().len() + 1) as int / 2,
                        self.iter.remaining().len() as int,
                    )
                },
                None => self.iter.remaining().len() < 2 && r.0.iter.remaining()
                    == self.iter.remaining(),
            },
    {
        let (left, right) = self.iter.split();
        match right {
            Some(rr) => (BitProducer::new(left), Some(BitProducer::new(rr))),
            None => (BitProducer::new(left), None),
        }
    }
}

} // verus!
