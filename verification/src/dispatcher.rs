use vstd::prelude::*;
use crate::resource::ResourceId;

verus! {

/// Errors reported by the task-graph builder and the dispatch loop.
#[derive(Clone, Debug, PartialEq, Eq)]
pub enum Error {
    /// A unit of logic with this name was already registered.
    NameAlreadyRegistered(String),
    /// A named dependency was not found among the already-registered units.
    DependencyWasNotFound(String),
    /// The tick signal could not be sent: no unit task is listening.
    DispatchSend,
    /// A completion signal will never arrive: its sender is gone.
    DispatchReceive,
}

/// One registered unit of logic, as the graph sees it: its name, its
/// sorted and deduplicated read and write resource sets, and its
/// minimized predecessor id set.
pub struct Item {
    pub name: String,
    pub reads: Vec<ResourceId>,
    pub writes: Vec<ResourceId>,
    pub dependencies: Vec<usize>,
}

/// Sort the ids ascending and drop duplicates; the set of ids is kept.
fn sort_dedup(v: &Vec<usize>) -> (r: Vec<usize>)
    ensures
        strictly_sorted(r@),
        forall|x: usize| r@.contains(x) == v@.contains(x),
{
    let mut r: Vec<usize> = Vec::new();
    let mut i: usize = 0;
    while i < v.len()
        invariant
            i <= v@.len(),
            strictly_sorted(r@),
            forall|x: usize| r@.contains(x) == v@.subrange(0, i as int).contains(x),
        decreases v@.len() - i,
    {
        let x = v[i];
        let ghost r0 = r@;
        let mut pos: usize = 0;
        while pos < r.len() && r[pos] < x
            invariant
                r@ == r0,
                pos <= r@.len(),
                forall|p: int| 0 <= p < pos ==> r@[p] < x,
            decreases r@.len() - pos,
        {
            pos = pos + 1;
        }
        if pos < r.len() && r[pos] == x {
            proof {
                assert(r@.contains(x));
            }
        } else {
            r.insert(pos, x);
            proof {
                assert forall|p: int, q: int| 0 <= p < q < r@.len() implies r@[p] < r@[q] by {
                    if pos < r0.len() {
                        assert(r0[pos as int] > x);
                    }
                    if p < pos {
                        assert(r@[p] == r0[p]);
                    } else if p > pos {
                        assert(r@[p] == r0[p - 1]);
                    }
                    if q < pos {
                        assert(r@[q] == r0[q]);
                    } else if q > pos {
                        assert(r@[q] == r0[q - 1]);
                    }
                }
                assert forall|y: usize| r@.contains(y) == (r0.contains(y) || y == x) by {
                    if r@.contains(y) {
                        let t = choose|t: int| 0 <= t < r@.len() && r@[t] == y;
                        if t < pos {
                            assert(r0[t] == y);
                        } else if t > pos {
                            assert(r0[t - 1] == y);
                        }
                    }
                    if r0.contains(y) {
                        let t = choose|t: int| 0 <= t < r0.len() && r0[t] == y;
                        if t < pos {
                            assert(r@[t] == y);
                        } else {
                            assert(r@[t + 1] == y);
                        }
                    }
                    if y == x {
                        assert(r@[pos as int] == y);
                    }
                }
            }
        }
        i = i + 1;
        proof {
            let pre = v@.subrange(0, i as int - 1);
            assert(v@.subrange(0, i as int) =~= pre.push(x));
            assert forall|y: usize|
                r@.contains(y) == v@.subrange(0, i as int).contains(y) by {
                assert(r0.contains(y) == pre.contains(y));
                if v@.subrange(0, i as int).contains(y) {
                    let t = choose|t: int|
                        0 <= t < i && #[trigger] v@.subrange(0, i as int)[t] == y;
                    if t < i - 1 {
                        assert(pre[t] == y);
                        assert(pre.contains(y));
                    } else {
                        assert(y == x);
                    }
                }
                if pre.contains(y) {
                    let t = choose|t: int| 0 <= t < i - 1 && #[trigger] pre[t] == y;
                    assert(v@.subrange(0, i as int)[t] == y);
                    assert(v@.subrange(0, i as int).contains(y));
                }
                if y == x {
                    assert(v@.subrange(0, i as int)[i as int - 1] == y);
                    assert(v@.subrange(0, i as int).contains(y));
                }
            }
        }
    }
    proof {
        assert(v@.subrange(0, v@.len() as int) =~= v@);
    }
    r
}

/// Sort the resource ids ascending and drop duplicates; the set is kept.
fn sort_dedup_ids(v: &Vec<ResourceId>) -> (r: Vec<ResourceId>)
    ensures
        strictly_sorted_ids(r@),
        forall|x: ResourceId| r@.contains(x) == v@.contains(x),
{
    let mut r: Vec<ResourceId> = Vec::new();
    let mut i: usize = 0;
    while i < v.len()
        invariant
            i <= v@.len(),
            strictly_sorted_ids(r@),
            forall|x: ResourceId| r@.contains(x) == v@.subrange(0, i as int).contains(x),
        decreases v@.len() - i,
    {
        let x = v[i];
        let ghost r0 = r@;
        let mut pos: usize = 0;
        while pos < r.len() && r[pos].0 < x.0
            invariant
                r@ == r0,
                pos <= r@.len(),
                forall|p: int| 0 <= p < pos ==> r@[p].0 < x.0,
            decreases r@.len() - pos,
        {
            pos = pos + 1;
        }
        if pos < r.len() && r[pos].0 == x.0 {
            proof {
                assert(r@[pos as int] == x);
                assert(r@.contains(x));
            }
        } else {
            r.insert(pos, x);
            proof {
                assert forall|p: int, q: int| 0 <= p < q < r@.len() implies r@[p].0 < r@[q].0 by {
                    if pos < r0.len() {
                        assert(r0[pos as int].0 > x.0);
                    }
                    if p < pos {
                        assert(r@[p] == r0[p]);
                    } else if p > pos {
                        assert(r@[p] == r0[p - 1]);
                    }
                    if q < pos {
                        assert(r@[q] == r0[q]);
                    } else if q > pos {
                        assert(r@[q] == r0[q - 1]);
                    }
                }
                assert forall|y: ResourceId| r@.contains(y) == (r0.contains(y) || y == x) by {
                    if r@.contains(y) {
                        let t = choose|t: int| 0 <= t < r@.len() && r@[t] == y;
                        if t < pos {
                            assert(r0[t] == y);
                        } else if t > pos {
                            assert(r0[t - 1] == y);
                        }
                    }
                    if r0.contains(y) {
                        let t = choose|t: int| 0 <= t < r0.len() && r0[t] == y;
                        if t < pos {
                            assert(r@[t] == y);
                        } else {
                            assert(r@[t + 1] == y);
                        }
                    }
                    if y == x {
                        assert(r@[pos as int] == y);
                    }
                }
            }
        }
        i = i + 1;
        proof {
            let pre = v@.subrange(0, i as int - 1);
            assert(v@.subrange(0, i as int) =~= pre.push(x));
            assert forall|y: ResourceId|
                r@.contains(y) == v@.subrange(0, i as int).contains(y) by {
                assert(r0.contains(y) == pre.contains(y));
                if v@.subrange(0, i as int).contains(y) {
                    let t = choose|t: int|
                        0 <= t < i && #[trigger] v@.subrange(0, i as int)[t] == y;
                    if t < i - 1 {
                        assert(pre[t] == y);
                        assert(pre.contains(y));
                    } else {
                        assert(y == x);
                    }
                }
                if pre.contains(y) {
                    let t = choose|t: int| 0 <= t < i - 1 && #[trigger] pre[t] == y;
                    assert(v@.subrange(0, i as int)[t] == y);
                    assert(v@.subrange(0, i as int).contains(y));
                }
                if y == x {
                    assert(v@.subrange(0, i as int)[i as int - 1] == y);
                    assert(v@.subrange(0, i as int).contains(y));
                }
            }
        }
    }
    proof {
        assert(v@.subrange(0, v@.len() as int) =~= v@);
    }
    r
}

/// Some resource id occurs in both sequences.
pub open spec fn seq_intersects(a: Seq<ResourceId>, b: Seq<ResourceId>) -> bool {
    exists|x: ResourceId| a.contains(x) && b.contains(x)
}

/// Intersection only depends on the sets of ids, not on their order.
proof fn lemma_intersects_same_set(a1: Seq<ResourceId>, a2: Seq<ResourceId>, b: Seq<ResourceId>)
    requires
        forall|x: ResourceId| a1.contains(x) == a2.contains(x),
    ensures
        seq_intersects(a1, b) == seq_intersects(a2, b),
{
    if seq_intersects(a1, b) {
        let x = choose|x: ResourceId| a1.contains(x) && b.contains(x);
        assert(a2.contains(x) && b.contains(x));
        assert(seq_intersects(a2, b));
    }
    if seq_intersects(a2, b) {
        let x = choose|x: ResourceId| a2.contains(x) && b.contains(x);
        assert(a1.contains(x) && b.contains(x));
        assert(seq_intersects(a1, b));
    }
}

/// Whether some resource id occurs in both lists.
fn intersects(a: &Vec<ResourceId>, b: &Vec<ResourceId>) -> (r: bool)
    ensures
        r == seq_intersects(a@, b@),
{
    let mut p: usize = 0;
    while p < a.len()
        invariant
            p <= a@.len(),
            forall|q: int| 0 <= q < p ==> !b@.contains(#[trigger] a@[q]),
        decreases a@.len() - p,
    {
        let x = a[p];
        let mut q: usize = 0;
        while q < b.len()
            invariant
                q <= b@.len(),
                p < a@.len(),
                x == a@[p as int],
                forall|t: int| 0 <= t < q ==> b@[t] != x,
            decreases b@.len() - q,
        {
            if b[q].0 == x.0 {
                proof {
                    assert(b@[q as int] == x);
                    assert(a@[p as int] == x);
                    assert(a@.contains(x));
                    assert(b@.contains(x));
                    assert(seq_intersects(a@, b@));
                }
                return true;
            }
            q = q + 1;
        }
        p = p + 1;
    }
    proof {
        if seq_intersects(a@, b@) {
            let x = choose|x: ResourceId| a@.contains(x) && b@.contains(x);
            let q = choose|q: int| 0 <= q < a@.len() && a@[q] == x;
            assert(!b@.contains(a@[q]));
        }
    }
    false
}

/// `s` is strictly ascending.
pub open spec fn strictly_sorted(s: Seq<usize>) -> bool {
    forall|p: int, q: int| 0 <= p < q < s.len() ==> s[p] < s[q]
}

/// `s` is strictly ascending by resource id (hence duplicate-free).
pub open spec fn strictly_sorted_ids(s: Seq<ResourceId>) -> bool {
    forall|p: int, q: int| 0 <= p < q < s.len() ==> s[p].0 < s[q].0
}

/// The dependency ids of an item are earlier units, in ascending order.
pub open spec fn deps_ok(item: Item, id: int) -> bool {
    strictly_sorted(item.dependencies@) && (forall|p: int|
        0 <= p < item.dependencies@.len() ==> {
            let d = (#[trigger] item.dependencies@[p]) as int;
            1 <= d < id
        })
}

/// Builds the dependency graph of the dispatcher: units of logic are
/// registered one by one; each gets a fresh id (counting from 1), the
/// edges implied by its explicit dependency names and by its resource
/// conflicts with earlier units, and a transitively reduced predecessor
/// set.
pub struct Builder {
    pub items: Vec<Item>,
}

impl Builder {
    /// Number of registered units.
    pub open spec fn n(&self) -> int {
        self.items@.len() as int
    }

    /// Ids run from 1 to the number of registered units.
    pub open spec fn valid_id(&self, id: int) -> bool {
        1 <= id <= self.n()
    }

    /// The unit registered under `id`.
    pub open spec fn item_of(&self, id: int) -> Item {
        self.items@[id - 1]
    }

    /// Every unit's predecessors point strictly backwards, and non-empty
    /// names are unique.
    pub open spec fn wf(&self) -> bool {
        (forall|id: int| self.valid_id(id) ==> deps_ok(#[trigger] self.item_of(id), id))
            && (forall|a: int, b: int|
            self.valid_id(a) && self.valid_id(b) && a != b && (#[trigger] self.item_of(
                a,
            )).name@.len() > 0 ==> self.item_of(a).name@ != (#[trigger] self.item_of(b)).name@)
    }

    /// Unit `a` must run after unit `b`: `b` is reachable from `a`
    /// through predecessor edges.
    pub open spec fn reaches(&self, a: int, b: int) -> bool
        decreases a,
        when self.wf() && self.valid_id(a)
    {
        exists|p: int|
            0 <= p < self.item_of(a).dependencies@.len() && ((#[trigger] self.item_of(
                a,
            ).dependencies@[p]) as int == b || self.reaches(
                self.item_of(a).dependencies@[p] as int,
                b,
            ))
    }

    /// `id` can stand as the resolution of dependency name `n`.
    pub open spec fn resolves_name(&self, id: int, n: Seq<char>) -> bool {
        self.valid_id(id) && self.item_of(id).name@ == n && n.len() > 0
    }

    /// Some registered unit can stand as the resolution of name `n`.
    pub open spec fn resolvable(&self, n: Seq<char>) -> bool {
        exists|d: int| self.resolves_name(d, n)
    }

    /// Create an empty builder.
    pub fn new() -> (b: Builder)
        ensures
            b.wf(),
            b.n() == 0,
    {
        Builder { items: Vec::new() }
    }

    /// Number of registered units.
    pub fn len(&self) -> (r: usize)
        ensures
            r as int == self.n(),
    {
        self.items.len()
    }

    /// Read access to the unit registered under `id`.
    pub fn item(&self, id: usize) -> (r: &Item)
        requires
            self.valid_id(id as int),
        ensures
            *r == self.item_of(id as int),
    {
        &self.items[id - 1]
    }

    /// The id registered for the given name, if any. The empty name never
    /// resolves: unnamed units are not referenceable as dependencies.
    fn find_name(&self, name: &String) -> (r: Option<usize>)
        requires
            self.wf(),
        ensures
            match r {
                Some(id) => self.resolves_name(id as int, name@),
                None => !self.resolvable(name@),
            },
    {
        if name.as_str().is_empty() {
            proof {
                if self.resolvable(name@) {
                    let d = choose|d: int| self.resolves_name(d, name@);
                    assert(false);
                }
            }
            return None;
        }
        let mut k: usize = 0;
        while k < self.items.len()
            invariant
                k <= self.items@.len(),
                name@.len() > 0,
                forall|d: int| 1 <= d <= k ==> self.item_of(d).name@ != name@,
            decreases self.items@.len() - k,
        {
            if self.items[k].name == *name {
                return Some(k + 1);
            }
            k = k + 1;
        }
        proof {
            if self.resolvable(name@) {
                let d = choose|d: int| self.resolves_name(d, name@);
                assert(false);
            }
        }
        None
    }

    /// Unit `d` is named by one of the explicit dependency names.
    pub open spec fn explicit_dep(&self, deps: Seq<String>, d: int) -> bool {
        exists|p: int| 0 <= p < deps.len() && self.resolves_name(d, (#[trigger] deps[p])@)
    }

    /// Unit `d` conflicts with a unit that reads `reads` and writes
    /// `writes`: it writes something read, or it reads or writes
    /// something written.
    pub open spec fn conflict_dep(&self, d: int, reads: Seq<ResourceId>, writes: Seq<ResourceId>) -> bool {
        self.valid_id(d) && (seq_intersects(reads, self.item_of(d).writes@) || seq_intersects(
            writes,
            self.item_of(d).reads@,
        ) || seq_intersects(writes, self.item_of(d).writes@))
    }

    /// Unit `d` must be a predecessor of a newly added unit: it is an
    /// explicit dependency or a resource conflict.
    pub open spec fn raw_dep(
        &self,
        deps: Seq<String>,
        reads: Seq<ResourceId>,
        writes: Seq<ResourceId>,
        d: int,
    ) -> bool {
        self.explicit_dep(deps, d) || self.conflict_dep(d, reads, writes)
    }

    /// Non-empty names resolve to at most one unit.
    pub proof fn lemma_resolve_unique(&self, x: int, d: int, n: Seq<char>)
        requires
            self.wf(),
            self.resolves_name(x, n),
            self.resolves_name(d, n),
        ensures
            x == d,
    {
        if x != d {
            assert(self.item_of(x).name@ != self.item_of(d).name@);
        }
    }

    /// Register a unit of logic: assign it the next id, resolve its
    /// explicit dependency names against the already-registered units,
    /// add an edge from every earlier unit whose resource use conflicts
    /// with the given read and write sets, and store the transitively
    /// reduced predecessor set. On an error the graph is unchanged.
    pub fn add(
        &mut self,
        name: String,
        dependencies: &Vec<String>,
        reads: Vec<ResourceId>,
        writes: Vec<ResourceId>,
    ) -> (r: Result<usize, Error>)
        requires
            old(self).wf(),
            old(self).n() < usize::MAX,
        ensures
            final(self).wf(),
            match r {
                Ok(id) => {
                    &&& id as int == old(self).n() + 1
                    &&& forall|q: int|
                        0 <= q < dependencies@.len() ==> old(self).resolvable(
                            (#[trigger] dependencies@[q])@,
                        )
                    &&& final(self).n() == old(self).n() + 1
                    &&& forall|k: int|
                        old(self).valid_id(k) ==> final(self).item_of(k) == old(self).item_of(k)
                    &&& final(self).item_of(id as int).name@ == name@
                    &&& strictly_sorted_ids(final(self).item_of(id as int).reads@)
                    &&& strictly_sorted_ids(final(self).item_of(id as int).writes@)
                    &&& forall|x: ResourceId|
                        final(self).item_of(id as int).reads@.contains(x) == reads@.contains(x)
                    &&& forall|x: ResourceId|
                        final(self).item_of(id as int).writes@.contains(x) == writes@.contains(x)
                    &&& strictly_sorted(final(self).item_of(id as int).dependencies@)
                    &&& forall|x: usize|
                        final(self).item_of(id as int).dependencies@.contains(x) == (old(
                            self,
                        ).raw_dep(dependencies@, reads@, writes@, x as int) && !(exists|a: usize|
                            old(self).raw_dep(dependencies@, reads@, writes@, a as int) && old(
                                self,
                            ).reaches(a as int, x as int)))
                },
                Err(Error::NameAlreadyRegistered(n)) => {
                    &&& *final(self) == *old(self)
                    &&& n@ == name@
                    &&& old(self).resolvable(name@)
                },
                Err(Error::DependencyWasNotFound(n)) => {
                    &&& *final(self) == *old(self)
                    &&& !old(self).resolvable(name@)
                    &&& exists|p: int|
                        {
                            &&& 0 <= p < dependencies@.len()
                            &&& n@ == (#[trigger] dependencies@[p])@
                            &&& !old(self).resolvable(dependencies@[p]@)
                            &&& forall|q: int|
                                0 <= q < p ==> old(self).resolvable((#[trigger] dependencies@[q])@)
                        }
                },
                Err(_) => false,
            },
    {
        let id = self.items.len() + 1;
        let ghost reads_in = reads@;
        let ghost writes_in = writes@;
        match self.find_name(&name) {
            Some(_) => {
                return Err(Error::NameAlreadyRegistered(name));
            },
            None => {},
        }
        let reads = sort_dedup_ids(&reads);
        let writes = sort_dedup_ids(&writes);
        let ghost reads0 = reads@;
        let ghost writes0 = writes@;
        let mut raw: Vec<usize> = Vec::new();
        let mut p: usize = 0;
        while p < dependencies.len()
            invariant
                *self == *old(self),
                self.wf(),
                !self.resolvable(name@),
                p <= dependencies@.len(),
                forall|t: int|
                    0 <= t < raw@.len() ==> self.valid_id((#[trigger] raw@[t]) as int),
                forall|x: usize|
                    raw@.contains(x) == exists|q: int|
                        0 <= q < p && self.resolves_name(x as int, (#[trigger] dependencies@[q])@),
                forall|q: int|
                    0 <= q < p ==> self.resolvable((#[trigger] dependencies@[q])@),
            decreases dependencies@.len() - p,
        {
            match self.find_name(&dependencies[p]) {
                Some(d) => {
                    let ghost raw0 = raw@;
                    raw.push(d);
                    p = p + 1;
                    proof {
                        assert(self.resolves_name(d as int, dependencies@[p - 1]@));
                        assert(self.resolvable(dependencies@[p - 1]@));
                        assert forall|q: int|
                            0 <= q < p implies self.resolvable(
                            (#[trigger] dependencies@[q])@,
                        ) by {
                            if q == p - 1 {
                                assert(self.resolvable(dependencies@[q]@));
                            }
                        }
                        assert forall|x: usize|
                            raw@.contains(x) == exists|q: int|
                                0 <= q < p && self.resolves_name(
                                    x as int,
                                    (#[trigger] dependencies@[q])@,
                                ) by {
                            if raw@.contains(x) {
                                let t = choose|t: int| 0 <= t < raw@.len() && raw@[t] == x;
                                if t < raw@.len() - 1 {
                                    assert(raw0[t] == x);
                                    assert(raw0.contains(x));
                                    let q = choose|q: int|
                                        0 <= q < p - 1 && self.resolves_name(
                                            x as int,
                                            (#[trigger] dependencies@[q])@,
                                        );
                                    assert(self.resolves_name(x as int, dependencies@[q]@));
                                } else {
                                    assert(x == d);
                                    assert(self.resolves_name(x as int, dependencies@[p - 1]@));
                                }
                            }
                            if exists|q: int|
                                0 <= q < p && self.resolves_name(
                                    x as int,
                                    (#[trigger] dependencies@[q])@,
                                ) {
                                let q = choose|q: int|
                                    0 <= q < p && self.resolves_name(
                                        x as int,
                                        (#[trigger] dependencies@[q])@,
                                    );
                                if q < p - 1 {
                                    assert(raw0.contains(x));
                                    let t = choose|t: int|
                                        0 <= t < raw0.len() && raw0[t] == x;
                                    assert(raw@[t] == x);
                                    assert(raw@.contains(x));
                                } else {
                                    self.lemma_resolve_unique(
                                        x as int,
                                        d as int,
                                        dependencies@[q]@,
                                    );
                                    assert(x == d);
                                    assert(raw@[raw@.len() - 1] == x);
                                    assert(raw@.contains(x));
                                }
                            }
                        }
                    }
                },
                None => {
                    let missing = dependencies[p].clone();
                    proof {
                        assert(missing@ == (#[trigger] dependencies@[p as int])@);
                        assert(!self.resolvable(dependencies@[p as int]@));
                    }
                    return Err(Error::DependencyWasNotFound(missing));
                },
            }
        }
        let ghost explicit_raw = raw@;
        let mut k: usize = 0;
        while k < self.items.len()
            invariant
                *self == *old(self),
                self.wf(),
                k <= self.n(),
                reads@ == reads0,
                writes@ == writes0,
                forall|t: int|
                    0 <= t < raw@.len() ==> self.valid_id((#[trigger] raw@[t]) as int),
                forall|x: usize|
                    raw@.contains(x) == (self.explicit_dep(dependencies@, x as int) || (1 <= x <= k
                        && self.conflict_dep(x as int, reads0, writes0))),
            decreases self.n() - k,
        {
            let conflict = intersects(&reads, &self.items[k].writes) || intersects(
                &writes,
                &self.items[k].reads,
            ) || intersects(&writes, &self.items[k].writes);
            let ghost raw0 = raw@;
            proof {
                assert(self.item_of(k as int + 1) == self.items@[k as int]);
                assert(conflict == self.conflict_dep(k as int + 1, reads0, writes0));
            }
            if conflict {
                raw.push(k + 1);
            }
            k = k + 1;
            proof {
                assert forall|x: usize|
                    raw@.contains(x) == (self.explicit_dep(dependencies@, x as int) || (1 <= x
                        <= k && self.conflict_dep(x as int, reads0, writes0))) by {
                    if raw@.contains(x) {
                        let t = choose|t: int| 0 <= t < raw@.len() && raw@[t] == x;
                        if conflict && t == raw@.len() - 1 {
                            assert(x == k);
                        } else {
                            assert(raw0[t] == x);
                            assert(raw0.contains(x));
                        }
                    }
                    if raw0.contains(x) {
                        let t = choose|t: int| 0 <= t < raw0.len() && raw0[t] == x;
                        assert(raw@[t] == x);
                        assert(raw@.contains(x));
                    }
                    if x == k && conflict {
                        assert(raw@[raw@.len() - 1] == x);
                        assert(raw@.contains(x));
                    }
                }
            }
        }
        proof {
            assert forall|x: usize|
                raw@.contains(x) == self.raw_dep(dependencies@, reads_in, writes_in, x as int) by {
                if self.conflict_dep(x as int, reads0, writes0) {
                    assert(1 <= x <= self.n());
                }
                assert(self.conflict_dep(x as int, reads0, writes0) == self.conflict_dep(
                    x as int,
                    reads_in,
                    writes_in,
                )) by {
                    lemma_intersects_same_set(
                        reads0,
                        reads_in,
                        self.item_of(x as int).writes@,
                    );
                    lemma_intersects_same_set(
                        writes0,
                        writes_in,
                        self.item_of(x as int).reads@,
                    );
                    lemma_intersects_same_set(
                        writes0,
                        writes_in,
                        self.item_of(x as int).writes@,
                    );
                }
            }
        }
        let ghost pre_raw = raw@;
        self.reduce_dependencies(&mut raw);
        proof {
            assert forall|x: usize|
                raw@.contains(x) == (self.raw_dep(dependencies@, reads_in, writes_in, x as int)
                    && !(exists|a: usize|
                    self.raw_dep(dependencies@, reads_in, writes_in, a as int) && self.reaches(
                        a as int,
                        x as int,
                    ))) by {
                if exists|a: usize|
                    self.raw_dep(dependencies@, reads_in, writes_in, a as int) && self.reaches(
                        a as int,
                        x as int,
                    ) {
                    let a = choose|a: usize|
                        self.raw_dep(dependencies@, reads_in, writes_in, a as int)
                            && self.reaches(a as int, x as int);
                    assert(pre_raw.contains(a) && self.reaches(a as int, x as int));
                }
                if exists|a: usize| pre_raw.contains(a) && self.reaches(a as int, x as int) {
                    let a = choose|a: usize|
                        pre_raw.contains(a) && self.reaches(a as int, x as int);
                    assert(self.raw_dep(dependencies@, reads_in, writes_in, a as int)
                        && self.reaches(a as int, x as int));
                }
            }
            assert forall|t: int| 0 <= t < raw@.len() implies {
                let d = (#[trigger] raw@[t]) as int;
                1 <= d < id as int
            } by {
                assert(raw@.contains(raw@[t]));
                assert(self.raw_dep(dependencies@, reads_in, writes_in, raw@[t] as int));
                assert(self.valid_id(raw@[t] as int)) by {
                    if self.explicit_dep(dependencies@, raw@[t] as int) {
                        let q = choose|q: int|
                            0 <= q < dependencies@.len() && self.resolves_name(
                                raw@[t] as int,
                                (#[trigger] dependencies@[q])@,
                            );
                    }
                }
            }
        }
        let ghost self0 = *self;
        let item = Item { name, reads, writes, dependencies: raw };
        self.items.push(item);
        proof {
            assert(self.n() == self0.n() + 1);
            assert forall|j: int| self0.valid_id(j) implies self.item_of(j) == self0.item_of(
                j,
            ) by {
                assert(self.items@[j - 1] == self0.items@[j - 1]);
            }
            assert(self.item_of(id as int) == item);
            assert(self.wf()) by {
                assert forall|j: int| self.valid_id(j) implies deps_ok(
                    #[trigger] self.item_of(j),
                    j,
                ) by {
                    if j < id as int {
                        assert(self.item_of(j) == self0.item_of(j));
                        assert(deps_ok(self0.item_of(j), j));
                    }
                }
                assert forall|a: int, b: int|
                    self.valid_id(a) && self.valid_id(b) && a != b && (#[trigger] self.item_of(
                        a,
                    )).name@.len() > 0 implies self.item_of(a).name@ != (#[trigger] self.item_of(
                    b,
                )).name@ by {
                    if self.item_of(a).name@ == self.item_of(b).name@ {
                        if a == id as int {
                            assert(self.item_of(b) == self0.item_of(b));
                            assert(self0.resolves_name(b, name@));
                            assert(false);
                        } else if b == id as int {
                            assert(self.item_of(a) == self0.item_of(a));
                            assert(self0.resolves_name(a, name@));
                            assert(false);
                        } else {
                            assert(self0.wf());
                            assert(self.item_of(a) == self0.item_of(a));
                            assert(self.item_of(b) == self0.item_of(b));
                            assert(false);
                        }
                    }
                }
            }
        }
        Ok(id)
    }

    /// Reachability only runs backwards in registration order: a reached
    /// unit has a smaller id.
    pub proof fn lemma_reaches_lt(&self, a: int, b: int)
        requires
            self.wf(),
            self.valid_id(a),
            self.reaches(a, b),
        ensures
            1 <= b < a,
        decreases a,
    {
        let p = choose|p: int|
            0 <= p < self.item_of(a).dependencies@.len() && ((#[trigger] self.item_of(
                a,
            ).dependencies@[p]) as int == b || self.reaches(
                self.item_of(a).dependencies@[p] as int,
                b,
            ));
        let d = self.item_of(a).dependencies@[p] as int;
        assert(1 <= d < a);
        if d != b {
            self.lemma_reaches_lt(d, b);
        }
    }

    /// Reachability is transitive.
    pub proof fn lemma_reaches_trans(&self, a: int, b: int, c: int)
        requires
            self.wf(),
            self.valid_id(a),
            self.reaches(a, b),
            self.reaches(b, c),
        ensures
            self.reaches(a, c),
        decreases a,
    {
        let p = choose|p: int|
            0 <= p < self.item_of(a).dependencies@.len() && ((#[trigger] self.item_of(
                a,
            ).dependencies@[p]) as int == b || self.reaches(
                self.item_of(a).dependencies@[p] as int,
                b,
            ));
        let d = self.item_of(a).dependencies@[p] as int;
        assert(1 <= d < a);
        if d == b {
            assert(self.reaches(d, c));
        } else {
            self.lemma_reaches_lt(d, b);
            self.lemma_reaches_trans(d, b, c);
        }
        assert(self.item_of(a).dependencies@[p] as int == c || self.reaches(d, c));
    }

    /// Transitive reduction does not change the induced partial order:
    /// every candidate dependency that the reduction drops is still
    /// reachable from one that it keeps, so a unit that awaits only the
    /// kept predecessors still runs after every candidate.
    pub proof fn lemma_reduction_preserves_order(
        &self,
        before: Seq<usize>,
        after: Seq<usize>,
        x: usize,
    )
        requires
            self.wf(),
            forall|t: int|
                0 <= t < before.len() ==> self.valid_id((#[trigger] before[t]) as int),
            forall|y: usize|
                after.contains(y) == (before.contains(y) && !(exists|a: usize|
                    before.contains(a) && self.reaches(a as int, y as int))),
            before.contains(x),
        ensures
            after.contains(x) || exists|k: usize|
                after.contains(k) && self.reaches(k as int, x as int),
        decreases self.n() - x,
    {
        let tx = choose|t: int| 0 <= t < before.len() && before[t] == x;
        assert(self.valid_id(x as int));
        if !after.contains(x) {
            let a = choose|a: usize| before.contains(a) && self.reaches(a as int, x as int);
            let ta = choose|t: int| 0 <= t < before.len() && before[t] == a;
            assert(self.valid_id(a as int));
            self.lemma_reaches_lt(a as int, x as int);
            self.lemma_reduction_preserves_order(before, after, a);
            if after.contains(a) {
                assert(after.contains(a) && self.reaches(a as int, x as int));
            } else {
                let k = choose|k: usize| after.contains(k) && self.reaches(k as int, a as int);
                let tk = choose|t: int| 0 <= t < before.len() && before[t] == k;
                assert(self.valid_id(k as int));
                self.lemma_reaches_trans(k as int, a as int, x as int);
                assert(after.contains(k) && self.reaches(k as int, x as int));
            }
        }
    }

    /// Sort and deduplicate the candidate dependency ids, then
    /// transitively reduce them: an id is dropped exactly when it is
    /// already reachable from another candidate, so the induced partial
    /// order is unchanged while every unit awaits as few completion
    /// signals as possible.
    pub fn reduce_dependencies(&self, dependencies: &mut Vec<usize>)
        requires
            self.wf(),
            forall|p: int|
                0 <= p < old(dependencies)@.len() ==> self.valid_id(
                    (#[trigger] old(dependencies)@[p]) as int,
                ),
        ensures
            strictly_sorted(final(dependencies)@),
            forall|x: usize|
                final(dependencies)@.contains(x) == (old(dependencies)@.contains(x) && !(
                exists|a: usize|
                    old(dependencies)@.contains(a) && self.reaches(a as int, x as int))),
    {
        let ghost input = dependencies@;
        let sorted = sort_dedup(dependencies);
        let ghost s = sorted@;
        proof {
            assert forall|t: int| 0 <= t < s.len() implies self.valid_id(
                (#[trigger] s[t]) as int,
            ) by {
                assert(s.contains(s[t]));
                assert(input.contains(s[t]));
                let u = choose|u: int| 0 <= u < input.len() && input[u] == s[t];
            }
        }
        let mut out: Vec<usize> = Vec::new();
        let mut p: usize = 0;
        while p < sorted.len()
            invariant
                self.wf(),
                sorted@ == s,
                p <= s.len(),
                strictly_sorted(s),
                forall|t: int| 0 <= t < s.len() ==> self.valid_id((#[trigger] s[t]) as int),
                forall|t: int|
                    0 <= t < out@.len() ==> exists|u: int|
                        0 <= u < p && s[u] == #[trigger] out@[t],
                strictly_sorted(out@),
                forall|x: usize|
                    out@.contains(x) == (s.subrange(0, p as int).contains(x) && !(exists|q: int|
                        0 <= q < s.len() && self.reaches(#[trigger] s[q] as int, x as int))),
            decreases s.len() - p,
        {
            let x = sorted[p];
            let mut keep = true;
            let mut q: usize = 0;
            while q < sorted.len()
                invariant
                    self.wf(),
                    sorted@ == s,
                    p < s.len(),
                    x == s[p as int],
                    q <= s.len(),
                    forall|t: int| 0 <= t < s.len() ==> self.valid_id((#[trigger] s[t]) as int),
                    keep == !(exists|t: int|
                        0 <= t < q && self.reaches(#[trigger] s[t] as int, x as int)),
                decreases s.len() - q,
            {
                if self.depends_on(sorted[q], x) {
                    keep = false;
                }
                q = q + 1;
            }
            let ghost out0 = out@;
            if keep {
                proof {
                    assert forall|t: int| 0 <= t < out@.len() implies out@[t] < x by {
                        let u = choose|u: int| 0 <= u < p && s[u] == out@[t];
                    }
                }
                out.push(x);
            }
            p = p + 1;
            proof {
                assert(s.subrange(0, p as int) =~= s.subrange(0, p as int - 1).push(x));
                assert forall|y: usize|
                    out@.contains(y) == (s.subrange(0, p as int).contains(y) && !(exists|
                        q: int,
                    |
                        0 <= q < s.len() && self.reaches(#[trigger] s[q] as int, y as int)))
                    by {
                    let pre = s.subrange(0, p as int - 1);
                    assert(out0.contains(y) == (pre.contains(y) && !(exists|q: int|
                        0 <= q < s.len() && self.reaches(#[trigger] s[q] as int, y as int))));
                    // out@.contains(y) implies the right-hand side
                    if out@.contains(y) {
                        let t = choose|t: int| 0 <= t < out@.len() && out@[t] == y;
                        if keep && t == out@.len() - 1 {
                            assert(y == x);
                            assert(s.subrange(0, p as int)[p as int - 1] == y);
                            assert(s.subrange(0, p as int).contains(y));
                        } else {
                            assert(out0[t] == y);
                            assert(out0.contains(y));
                            assert(pre.contains(y));
                            let u = choose|u: int| 0 <= u < pre.len() && pre[u] == y;
                            assert(s.subrange(0, p as int)[u] == y);
                            assert(s.subrange(0, p as int).contains(y));
                        }
                    }
                    // the right-hand side implies out@.contains(y)
                    if s.subrange(0, p as int).contains(y) && !(exists|q: int|
                        0 <= q < s.len() && self.reaches(#[trigger] s[q] as int, y as int)) {
                        if y == x {
                            assert(keep);
                            assert(out@[out@.len() - 1] == x);
                            assert(out@.contains(y));
                        } else {
                            let t = choose|t: int|
                                0 <= t < p && #[trigger] s.subrange(0, p as int)[t] == y;
                            assert(t < p - 1);
                            assert(pre[t] == y);
                            assert(pre.contains(y));
                            assert(out0.contains(y));
                            let u = choose|u: int| 0 <= u < out0.len() && out0[u] == y;
                            assert(out@[u] == y);
                            assert(out@.contains(y));
                        }
                    }
                }
            }
        }
        proof {
            assert(s.subrange(0, s.len() as int) =~= s);
            assert forall|x: usize|
                out@.contains(x) == (input.contains(x) && !(exists|a: usize|
                    input.contains(a) && self.reaches(a as int, x as int))) by {
                assert(s.contains(x) == input.contains(x));
                if exists|a: usize| input.contains(a) && self.reaches(a as int, x as int) {
                    let a = choose|a: usize|
                        input.contains(a) && self.reaches(a as int, x as int);
                    assert(s.contains(a));
                    let q = choose|q: int| 0 <= q < s.len() && s[q] == a;
                    assert(self.reaches(s[q] as int, x as int));
                }
                if exists|q: int|
                    0 <= q < s.len() && self.reaches(#[trigger] s[q] as int, x as int) {
                    let q = choose|q: int|
                        0 <= q < s.len() && self.reaches(#[trigger] s[q] as int, x as int);
                    assert(s.contains(s[q]));
                    assert(input.contains(s[q]));
                    assert(input.contains(s[q]) && self.reaches(s[q] as int, x as int));
                }
            }
        }
        *dependencies = out;
    }

    /// The ids of the units that nothing else must run after: the
    /// dispatcher awaits exactly these to know the whole graph settled.
    pub fn final_systems(&self) -> (r: Vec<usize>)
        requires
            self.wf(),
        ensures
            strictly_sorted(r@),
            forall|x: usize|
                r@.contains(x) == (self.valid_id(x as int) && !(exists|a: int|
                    self.valid_id(a) && self.reaches(a, x as int))),
    {
        let mut ids: Vec<usize> = Vec::new();
        let mut k: usize = 0;
        while k < self.items.len()
            invariant
                k <= self.n(),
                ids@.len() == k,
                forall|t: int| 0 <= t < ids@.len() ==> #[trigger] ids@[t] == t + 1,
            decreases self.n() - k,
        {
            ids.push(k + 1);
            k = k + 1;
        }
        proof {
            assert forall|x: usize| ids@.contains(x) == self.valid_id(x as int) by {
                if ids@.contains(x) {
                    let t = choose|t: int| 0 <= t < ids@.len() && ids@[t] == x;
                }
                if self.valid_id(x as int) {
                    assert(ids@[x as int - 1] == x);
                    assert(ids@.contains(x));
                }
            }
        }
        let ghost ids0 = ids@;
        self.reduce_dependencies(&mut ids);
        proof {
            assert forall|x: usize|
                ids@.contains(x) == (self.valid_id(x as int) && !(exists|a: int|
                    self.valid_id(a) && self.reaches(a, x as int))) by {
                if exists|a: int| self.valid_id(a) && self.reaches(a, x as int) {
                    let a = choose|a: int| self.valid_id(a) && self.reaches(a, x as int);
                    assert(ids0.contains(a as usize));
                    assert(ids0.contains(a as usize) && self.reaches(a as usize as int, x as int));
                }
                if exists|a: usize| ids0.contains(a) && self.reaches(a as int, x as int) {
                    let a = choose|a: usize| ids0.contains(a) && self.reaches(a as int, x as int);
                    assert(self.valid_id(a as int) && self.reaches(a as int, x as int));
                }
            }
        }
        ids
    }

    /// Whether `b` must complete before `a` may run, directly or through
    /// intermediate units.
    pub fn depends_on(&self, a: usize, b: usize) -> (r: bool)
        requires
            self.wf(),
            self.valid_id(a as int),
        ensures
            r == self.reaches(a as int, b as int),
        decreases a,
    {
        let deps = &self.items[a - 1].dependencies;
        let ghost ds = deps@;
        let mut p: usize = 0;
        while p < deps.len()
            invariant
                self.wf(),
                self.valid_id(a as int),
                deps@ == ds,
                ds == self.item_of(a as int).dependencies@,
                p <= ds.len(),
                forall|q: int| 0 <= q < p ==> ds[q] != b,
            decreases ds.len() - p,
        {
            if deps[p] == b {
                proof {
                    assert(self.item_of(a as int).dependencies@[p as int] as int == b as int);
                }
                return true;
            }
            p = p + 1;
        }
        let mut p: usize = 0;
        while p < deps.len()
            invariant
                self.wf(),
                self.valid_id(a as int),
                deps@ == ds,
                ds == self.item_of(a as int).dependencies@,
                p <= ds.len(),
                forall|q: int| 0 <= q < ds.len() ==> ds[q] != b,
                forall|q: int| 0 <= q < p ==> !self.reaches(ds[q] as int, b as int),
            decreases ds.len() - p,
        {
            proof {
                assert(deps_ok(self.item_of(a as int), a as int));
                assert(1 <= (ds[p as int] as int) && (ds[p as int] as int) < a as int);
            }
            if self.depends_on(deps[p], b) {
                return true;
            }
            p = p + 1;
        }
        false
    }
}

} // verus!
