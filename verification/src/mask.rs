use vstd::prelude::*;

verus! {

/// The largest number of 64-bit words a mask can hold: enough for one bit
/// per possible `u32` index.
pub const MAX_WORDS: usize = 0x400_0000;

/// A set of entity indices, stored as one bit per index. A mask records
/// which indices currently hold a value in a given storage, and which
/// indices are alive in the entity registry.
#[derive(Clone)]
pub struct Mask {
    words: Vec<u64>,
}

/// Bit `k` of word `w`.
pub open spec fn word_bit(w: u64, k: u64) -> bool {
    (w >> k) & 1 == 1
}

proof fn lemma_word_set_bit(w: u64, m: u64, k: u64)
    requires
        m < 64,
        k < 64,
    ensures
        word_bit(w | (1u64 << m), k) == (word_bit(w, k) || k == m),
{
    assert(m < 64 && k < 64 ==> ((((w | (1u64 << m)) >> k) & 1 == 1) <==> (((w >> k) & 1
        == 1) || k == m))) by (bit_vector);
}

proof fn lemma_word_clear_bit(w: u64, m: u64, k: u64)
    requires
        m < 64,
        k < 64,
    ensures
        word_bit(w & !(1u64 << m), k) == (word_bit(w, k) && k != m),
{
    assert(m < 64 && k < 64 ==> ((((w & !(1u64 << m)) >> k) & 1 == 1) <==> (((w >> k) & 1
        == 1) && k != m))) by (bit_vector);
}

proof fn lemma_word_and(a: u64, b: u64, k: u64)
    requires
        k < 64,
    ensures
        word_bit(a & b, k) == (word_bit(a, k) && word_bit(b, k)),
{
    assert(k < 64 ==> (((a & b) >> k) & 1 == 1 <==> ((a >> k) & 1 == 1 && (b >> k) & 1 == 1)))
        by (bit_vector);
}

proof fn lemma_word_zero(k: u64)
    requires
        k < 64,
    ensures
        !word_bit(0u64, k),
{
    assert(k < 64 ==> (0u64 >> k) & 1 == 0) by (bit_vector);
}

impl Mask {
    /// Every index fits in a `u32`: the word vector never outgrows the
    /// `u32` index space.
    pub closed spec fn wf(&self) -> bool {
        self.words@.len() <= MAX_WORDS
    }

    /// Membership of index `i` in the mask.
    pub closed spec fn has(&self, i: u32) -> bool {
        let w = i as int / 64;
        w < self.words@.len() && word_bit(self.words@[w], (i as u64) % 64)
    }

    /// Create an empty mask.
    pub fn new() -> (m: Mask)
        ensures
            m.wf(),
            forall|i: u32| !m.has(i),
    {
        Mask { words: Vec::new() }
    }

    /// O(1) membership test.
    pub fn contains(&self, i: u32) -> (r: bool)
        ensures
            r == self.has(i),
    {
        let wi = (i / 64) as usize;
        if wi < self.words.len() {
            (self.words[wi] >> ((i % 64) as u64)) & 1 == 1
        } else {
            false
        }
    }

    /// Insert index `i`; returns whether it was already present.
    pub fn add(&mut self, i: u32) -> (was: bool)
        requires
            old(self).wf(),
        ensures
            final(self).wf(),
            was == old(self).has(i),
            forall|j: u32| final(self).has(j) == (old(self).has(j) || j == i),
    {
        let wi = (i / 64) as usize;
        while self.words.len() <= wi
            invariant
                wi < MAX_WORDS,
                old(self).wf(),
                self.words@.len() <= old(self).words@.len() || self.words@.len() <= wi + 1,
                forall|j: u32| self.has(j) == old(self).has(j),
                self.words@.len() >= old(self).words@.len(),
                forall|k: int|
                    old(self).words@.len() <= k < self.words@.len() ==> self.words@[k] == 0u64,
                forall|k: int|
                    0 <= k < old(self).words@.len() ==> self.words@[k] == old(self).words@[k],
            decreases wi + 1 - self.words.len(),
        {
            self.words.push(0);
            proof {
                assert forall|j: u32| self.has(j) == old(self).has(j) by {
                    if j as int / 64 == self.words@.len() - 1 {
                        lemma_word_zero((j as u64) % 64);
                    }
                }
            }
        }
        let w = self.words[wi];
        let bit = 1u64 << ((i % 64) as u64);
        let was = (w & bit) != 0;
        self.words.set(wi, w | bit);
        proof {
            let m = (i as u64) % 64;
            assert((w & (1u64 << m) != 0) == ((w >> m) & 1 == 1)) by (bit_vector);
            assert forall|j: u32| self.has(j) == (old(self).has(j) || j == i) by {
                let jb = (j as u64) % 64;
                if j as int / 64 == wi as int {
                    lemma_word_set_bit(w, m, jb);
                    if jb == m {
                        assert(j as int == 64 * (j as int / 64) + (j as int % 64));
                        assert(i as int == 64 * (i as int / 64) + (i as int % 64));
                        assert(j == i);
                    }
                }
            }
        }
        was
    }

    /// Remove index `i`; returns whether it was present.
    pub fn remove(&mut self, i: u32) -> (was: bool)
        requires
            old(self).wf(),
        ensures
            final(self).wf(),
            was == old(self).has(i),
            forall|j: u32| final(self).has(j) == (old(self).has(j) && j != i),
    {
        let wi = (i / 64) as usize;
        if wi >= self.words.len() {
            return false;
        }
        let w = self.words[wi];
        let bit = 1u64 << ((i % 64) as u64);
        let was = (w & bit) != 0;
        self.words.set(wi, w & !bit);
        proof {
            let m = (i as u64) % 64;
            assert((w & (1u64 << m) != 0) == ((w >> m) & 1 == 1)) by (bit_vector);
            assert forall|j: u32| self.has(j) == (old(self).has(j) && j != i) by {
                let jb = (j as u64) % 64;
                if j as int / 64 == wi as int {
                    lemma_word_clear_bit(w, m, jb);
                    if jb == m {
                        assert(j as int == 64 * (j as int / 64) + (j as int % 64));
                        assert(i as int == 64 * (i as int / 64) + (i as int % 64));
                        assert(j == i);
                    }
                }
            }
        }
        was
    }

    /// Remove every index.
    pub fn clear(&mut self)
        ensures
            final(self).wf(),
            forall|i: u32| !final(self).has(i),
    {
        self.words.clear();
    }

    /// The indices of the mask, in ascending order.
    pub fn iter_indices(&self) -> (r: Vec<u32>)
        requires
            self.wf(),
        ensures
            forall|p: int, q: int| 0 <= p < q < r@.len() ==> r@[p] < r@[q],
            forall|i: u32| #![trigger r@.contains(i)] #![trigger self.has(i)]
                r@.contains(i) == self.has(i),
    {
        let mut r: Vec<u32> = Vec::new();
        let mut wi: usize = 0;
        while wi < self.words.len()
            invariant
                self.wf(),
                wi <= self.words@.len(),
                forall|p: int, q: int| 0 <= p < q < r@.len() ==> r@[p] < r@[q],
                forall|p: int| 0 <= p < r@.len() ==> (r@[p] as int) < 64 * (wi as int),
                forall|i: u32| (i as int) < 64 * (wi as int) ==> r@.contains(i) == self.has(i),
            decreases self.words@.len() - wi,
        {
            let w = self.words[wi];
            let mut b: u64 = 0;
            while b < 64
                invariant
                    self.wf(),
                    b <= 64,
                    wi < self.words@.len(),
                    w == self.words@[wi as int],
                    forall|p: int, q: int| 0 <= p < q < r@.len() ==> r@[p] < r@[q],
                    forall|p: int|
                        0 <= p < r@.len() ==> (r@[p] as int) < 64 * (wi as int) + b as int,
                    forall|i: u32|
                        (i as int) < 64 * (wi as int) + b as int ==> r@.contains(i) == self.has(i),
                decreases 64 - b,
            {
                let ghost r0 = r@;
                let is_set = (w >> b) & 1 == 1;
                proof {
                    assert(64 * (wi as int) + (b as int) < 64 * (MAX_WORDS as int));
                }
                let i: u32 = ((wi as u64) * 64 + b) as u32;
                proof {
                    assert(i as int == 64 * (wi as int) + b as int);
                    assert(i as int / 64 == wi as int && (i as u64) % 64 == b);
                    assert(self.has(i) == is_set);
                    assert(forall|p: int| 0 <= p < r0.len() ==> r0[p] < i);
                }
                if is_set {
                    r.push(i);
                }
                proof {
                    assert forall|j: u32|
                        (j as int) < 64 * (wi as int) + b as int + 1 implies r@.contains(j)
                        == self.has(j) by {
                        if (j as int) < 64 * (wi as int) + b as int {
                            if is_set {
                                assert(r0.contains(j) == self.has(j));
                                if r0.contains(j) {
                                    let p = choose|p: int| 0 <= p < r0.len() && r0[p] == j;
                                    assert(r@[p] == j);
                                    assert(r@.contains(j));
                                } else {
                                    if r@.contains(j) {
                                        let p = choose|p: int|
                                            0 <= p < r@.len() && r@[p] == j;
                                        assert(p == r@.len() - 1 || r0[p] == j);
                                        assert(j == i || r0.contains(j));
                                        assert(false);
                                    }
                                }
                            }
                        } else {
                            assert(j == i);
                            if is_set {
                                assert(r@[r@.len() - 1] == i);
                                assert(r@.contains(i));
                            } else {
                                if r@.contains(i) {
                                    let p = choose|p: int| 0 <= p < r@.len() && r@[p] == i;
                                    assert(r0[p] < i);
                                    assert(false);
                                }
                            }
                        }
                    }
                }
                b = b + 1;
            }
            wi = wi + 1;
        }
        proof {
            assert forall|i: u32| r@.contains(i) == self.has(i) by {
                if !((i as int) < 64 * (self.words@.len() as int)) {
                    assert(i as int / 64 >= self.words@.len());
                    assert(!self.has(i));
                }
            }
        }
        r
    }

    /// Whether the mask holds no index at all.
    pub fn is_empty(&self) -> (r: bool)
        requires
            self.wf(),
        ensures
            r == (forall|i: u32| !self.has(i)),
    {
        let v = self.iter_indices();
        if v.len() == 0 {
            proof {
                assert forall|i: u32| !self.has(i) by {
                    assert(!v@.contains(i));
                }
            }
            true
        } else {
            proof {
                assert(v@.contains(v@[0]));
                assert(self.has(v@[0]));
            }
            false
        }
    }

    /// The intersection of two masks.
    pub fn and(&self, other: &Mask) -> (r: Mask)
        requires
            self.wf(),
        ensures
            r.wf(),
            forall|i: u32| r.has(i) == (self.has(i) && other.has(i)),
    {
        let n = if self.words.len() < other.words.len() {
            self.words.len()
        } else {
            other.words.len()
        };
        let mut words: Vec<u64> = Vec::new();
        let mut k: usize = 0;
        while k < n
            invariant
                n <= self.words@.len(),
                n <= other.words@.len(),
                words@.len() == k,
                k <= n,
                forall|p: int| 0 <= p < k ==> words@[p] == (self.words@[p] & other.words@[p]),
            decreases n - k,
        {
            words.push(self.words[k] & other.words[k]);
            k = k + 1;
        }
        let r = Mask { words };
        proof {
            assert forall|i: u32| r.has(i) == (self.has(i) && other.has(i)) by {
                let w = i as int / 64;
                if w < n as int {
                    lemma_word_and(self.words@[w], other.words@[w], (i as u64) % 64);
                }
            }
        }
        r
    }

    /// Clone the mask, with the copy's contents pinned down for the
    /// verifier (the derived `Clone` is opaque to it).
    pub fn clone_mask(&self) -> (r: Mask)
        ensures
            r.wf() == self.wf(),
            forall|i: u32| r.has(i) == self.has(i),
    {
        let mut words: Vec<u64> = Vec::new();
        let mut k: usize = 0;
        while k < self.words.len()
            invariant
                words@.len() == k,
                k <= self.words@.len(),
                forall|p: int| 0 <= p < k ==> words@[p] == self.words@[p],
            decreases self.words@.len() - k,
        {
            words.push(self.words[k]);
            k = k + 1;
        }
        Mask { words }
    }
}

} // verus!
