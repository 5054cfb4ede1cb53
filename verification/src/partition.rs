use std::collections::HashMap;
use vstd::prelude::*;
use vstd::set_lib::lemma_len_subset;
use vstd::set_lib::lemma_int_range;
use vstd::set_lib::set_int_range;

verus! {

broadcast use vstd::std_specs::vec::axiom_spec_len;

/// A refinable partition of a fixed finite universe of distinct `u64` values.
///
/// The universe lives in one contiguous arena: `order` lists the elements (as
/// handles into `values`) so that every set of the partition occupies one
/// contiguous span of it. `location` is the inverse of `order`, `owners` maps
/// each element to the set holding it, and `marked` counts, per set, the
/// elements swapped into the set's marked prefix since the last split.
pub struct Partition {
    /// Handle to element value; fixed at construction.
    values: Vec<u64>,
    /// Element value to handle; fixed at construction.
    index: HashMap<u64, usize>,
    /// Arena position to handle; a permutation of the handles.
    order: Vec<usize>,
    /// Handle to arena position; inverse of `order`.
    location: Vec<usize>,
    /// Handle to the id of the set holding the element.
    owners: Vec<usize>,
    /// Set id to the half-open arena span `[start, end)` it occupies.
    spans: Vec<(usize, usize)>,
    /// Set id to the number of elements in its marked prefix.
    marked: Vec<usize>,
    /// Ids of the sets with at least one mark, each listed once.
    touched: Vec<usize>,
}

impl Partition {
    /// The universe, in construction order.
    pub closed spec fn universe(self) -> Seq<u64> {
        self.values@
    }

    /// Whether a value belongs to the universe.
    pub open spec fn in_universe(self, v: u64) -> bool {
        self.universe().contains(v)
    }

    /// The current number of sets.
    pub closed spec fn spec_len(self) -> int {
        self.spans@.len() as int
    }

    spec fn handle(self, v: u64) -> int {
        self.index@[v] as int
    }

    /// The id of the set currently holding `v`.
    pub closed spec fn set_of(self, v: u64) -> int {
        self.owners@[self.handle(v)] as int
    }

    /// Whether two values currently share a set.
    pub open spec fn same_set(self, u: u64, v: u64) -> bool {
        self.set_of(u) == self.set_of(v)
    }

    spec fn hmarked(self, h: int) -> bool {
        let s = self.owners@[h] as int;
        (self.location@[h] as int) < self.spans@[s].0 as int + self.marked@[s] as int
    }

    /// The element at the start of a set's span: its fixed representative.
    pub closed spec fn set_head(self, s: int) -> u64 {
        self.values@[self.order@[self.spans@[s].0 as int] as int]
    }

    /// Whether `v` has been marked since the last split.
    pub closed spec fn is_marked(self, v: u64) -> bool {
        self.hmarked(self.handle(v))
    }

    /// Structural well-formedness: the arena is a permutation of the universe,
    /// spans are disjoint, nonempty and exhaustive, and the indices agree.
    pub closed spec fn wf(self) -> bool {
        let n = self.values@.len() as int;
        let k = self.spans@.len() as int;
        &&& self.order@.len() == n
        &&& self.location@.len() == n
        &&& self.owners@.len() == n
        &&& self.marked@.len() == k
        &&& k >= 1
        &&& k <= (if n == 0 { 1int } else { n })
        &&& self.values@.no_duplicates()
        &&& (forall|h: int| 0 <= h < n ==> self.index@.contains_key(#[trigger] self.values@[h])
                && self.index@[self.values@[h]] == h as usize)
        &&& (forall|h: int| 0 <= h < n ==> ((#[trigger] self.location@[h]) as int) < n)
        &&& (forall|p: int| 0 <= p < n ==> ((#[trigger] self.order@[p]) as int) < n)
        &&& (forall|h: int| 0 <= h < n ==> self.order@[(#[trigger] self.location@[h]) as int] == h as usize)
        &&& (forall|p: int| 0 <= p < n ==> self.location@[(#[trigger] self.order@[p]) as int] == p as usize)
        &&& (forall|h: int| 0 <= h < n ==> ((#[trigger] self.owners@[h]) as int) < k)
        &&& (forall|s: int| 0 <= s < k ==> (#[trigger] self.spans@[s]).0 as int <= self.spans@[s].1 as int
                && self.spans@[s].1 as int <= n)
        &&& (forall|s: int| 0 <= s < k && n > 0 ==> ((#[trigger] self.spans@[s]).0 as int) < self.spans@[s].1 as int)
        &&& (forall|s: int, t: int| 0 <= s < k && 0 <= t < k && s != t ==>
                (#[trigger] self.spans@[s]).1 as int <= (#[trigger] self.spans@[t]).0 as int
                || self.spans@[t].1 as int <= self.spans@[s].0 as int)
        &&& (forall|h: int| 0 <= h < n ==>
                self.spans@[(#[trigger] self.owners@[h]) as int].0 as int <= self.location@[h] as int
                && (self.location@[h] as int) < self.spans@[self.owners@[h] as int].1 as int)
        &&& (forall|s: int| 0 <= s < k ==> (#[trigger] self.marked@[s]) as int
                <= self.spans@[s].1 as int - self.spans@[s].0 as int)
        &&& self.touched@.no_duplicates()
        &&& (forall|i: int| 0 <= i < self.touched@.len() ==> ((#[trigger] self.touched@[i]) as int) < k)
        &&& (forall|s: int| 0 <= s < k ==> (((#[trigger] self.marked@[s]) as int) > 0 <==> self.touched@.contains(s as usize)))
    }

    proof fn lemma_handle(&self, v: u64)
        requires
            self.wf(),
            self.in_universe(v),
        ensures
            0 <= self.handle(v) < self.universe().len(),
            self.universe()[self.handle(v)] == v,
            self.index@.contains_key(v),
    {
        assert(vstd::std_specs::vec::spec_vec_len(&self.values) == self.values@.len());
        assert(self.values@.len() <= usize::MAX);
        assert(exists|h: int| 0 <= h < self.values@.len() && self.values@[h] == v);
        let h = choose|h: int| 0 <= h < self.values@.len() && self.values@[h] == v;
        assert(self.index@.contains_key(self.values@[h]) && self.index@[self.values@[h]] == h as usize);
        assert(self.index@[v] == h as usize);
        assert(self.handle(v) == h);
    }

    /// The number of sets never exceeds the size of a nonempty universe.
    pub proof fn lemma_len_bound(&self)
        requires
            self.wf(),
        ensures
            self.universe().len() > 0 ==> self.spec_len() <= self.universe().len(),
            self.universe().len() == 0 ==> self.spec_len() == 1,
            self.spec_len() >= 1,
    {
    }

    /// Creates the partition of the given universe with a single set holding
    /// every element. The universe's elements must be pairwise distinct.
    pub fn new(elements: Vec<u64>) -> (r: Partition)
        requires
            elements@.no_duplicates(),
        ensures
            r.wf(),
            r.universe() == elements@,
            r.spec_len() == 1,
            forall|v: u64| r.in_universe(v) ==> !r.is_marked(v),
            forall|v: u64| r.in_universe(v) ==> r.set_of(v) == 0,
            elements@.len() > 0 ==> r.set_head(0) == elements@[0],
    {
        let n = elements.len();
        let mut index: HashMap<u64, usize> = HashMap::new();
        let mut order: Vec<usize> = Vec::new();
        let mut location: Vec<usize> = Vec::new();
        let mut owners: Vec<usize> = Vec::new();
        let mut h: usize = 0;
        while h < n
            invariant
                0 <= h <= n,
                n == elements@.len(),
                order@.len() == h,
                location@.len() == h,
                owners@.len() == h,
                forall|p: int| 0 <= p < h ==> (#[trigger] order@[p]) == p as usize,
                forall|p: int| 0 <= p < h ==> (#[trigger] location@[p]) == p as usize,
                forall|p: int| 0 <= p < h ==> (#[trigger] owners@[p]) == 0usize,
                forall|g: int| 0 <= g < h ==> index@.contains_key(#[trigger] elements@[g])
                    && index@[elements@[g]] == g as usize,
            decreases n - h,
        {
            index.insert(elements[h], h);
            proof {
                assert forall|g: int| 0 <= g < h + 1 implies index@.contains_key(#[trigger] elements@[g])
                    && index@[elements@[g]] == g as usize by {
                    if g < h {
                        assert(elements@[g] != elements@[h as int]);
                    }
                }
            }
            order.push(h);
            location.push(h);
            owners.push(0);
            h = h + 1;
        }
        let mut spans: Vec<(usize, usize)> = Vec::new();
        spans.push((0, n));
        let mut marked: Vec<usize> = Vec::new();
        marked.push(0);
        let touched: Vec<usize> = Vec::new();
        let r = Partition { values: elements, index, order, location, owners, spans, marked, touched };
        proof {
            assert forall|v: u64| r.in_universe(v) implies !r.is_marked(v) && r.set_of(v) == 0 by {
                r.lemma_handle(v);
            }
        }
        r
    }

    /// The current number of sets.
    pub fn len(&self) -> (r: usize)
        requires
            self.wf(),
        ensures
            r as int == self.spec_len(),
            r >= 1,
    {
        self.spans.len()
    }

    /// The elements currently held by the given set, distinct, in arena order.
    pub fn owned(&self, set_id: usize) -> (r: Vec<u64>)
        requires
            self.wf(),
            (set_id as int) < self.spec_len(),
        ensures
            r@.no_duplicates(),
            forall|j: int| 0 <= j < r@.len() ==> self.in_universe(#[trigger] r@[j])
                && self.set_of(r@[j]) == set_id as int,
            forall|v: u64| self.in_universe(v) && self.set_of(v) == set_id as int ==> r@.contains(v),
            self.universe().len() > 0 ==> r@.len() > 0,
            r@.len() > 0 ==> r@[0] == self.set_head(set_id as int),
    {
        let span = self.spans[set_id];
        let start = span.0;
        let end = span.1;
        let mut r: Vec<u64> = Vec::new();
        let mut p = start;
        while p < end
            invariant
                start <= p <= end,
                r@.len() == p - start,
                forall|j: int| 0 <= j < r@.len() ==>
                    (#[trigger] r@[j]) == self.values@[self.order@[start + j] as int],
            decreases end - p,
        {
            r.push(self.values[self.order[p]]);
            p = p + 1;
        }
        proof {
            let n = self.values@.len() as int;
            assert forall|j: int| 0 <= j < r@.len() implies self.in_universe(#[trigger] r@[j])
                && self.set_of(r@[j]) == set_id as int by {
                let hh = self.order@[start + j] as int;
                assert(self.values@[hh] == r@[j]);
                assert(self.in_universe(r@[j]));
                self.lemma_handle(r@[j]);
                assert(self.values@.no_duplicates());
                assert(self.handle(r@[j]) == hh);
                assert(self.location@[hh] as int == start + j);
                let o = self.owners@[hh] as int;
                assert(self.spans@[o].0 as int <= start + j && start + j < self.spans@[o].1 as int);
                if o != set_id as int {
                    assert(self.spans@[o].1 as int <= self.spans@[set_id as int].0 as int
                        || self.spans@[set_id as int].1 as int <= self.spans@[o].0 as int);
                }
                assert(o == set_id as int);
            }
            assert forall|j1: int, j2: int| 0 <= j1 < j2 < r@.len() implies r@[j1] != r@[j2] by {
                let h1 = self.order@[start + j1] as int;
                let h2 = self.order@[start + j2] as int;
                assert(self.location@[h1] as int == start + j1);
                assert(self.location@[h2] as int == start + j2);
                assert(h1 != h2);
                if self.values@[h1] == self.values@[h2] {
                    let dups = self.values@;
                    assert(!dups.no_duplicates());
                }
            }
            assert forall|v: u64| self.in_universe(v) && self.set_of(v) == set_id as int
                implies r@.contains(v) by {
                self.lemma_handle(v);
                let hh = self.handle(v);
                assert(self.spans@[set_id as int].0 as int <= self.location@[hh] as int
                    && (self.location@[hh] as int) < self.spans@[set_id as int].1 as int);
                let j = self.location@[hh] as int - start;
                assert(self.order@[start + j] as int == hh);
                assert(r@[j] == v);
            }
        }
        r
    }

    /// The id of the set currently holding the given element.
    pub fn owner(&self, item: u64) -> (r: usize)
        requires
            self.wf(),
            self.in_universe(item),
        ensures
            r as int == self.set_of(item),
            (r as int) < self.spec_len(),
    {
        proof {
            self.lemma_handle(item);
        }
        let h = *self.index.get(&item).unwrap();
        self.owners[h]
    }

    /// The fixed representative of the given set: the element at the start of
    /// its span, stable until the set is next split.
    pub fn canonical(&self, set_id: usize) -> (r: u64)
        requires
            self.wf(),
            (set_id as int) < self.spec_len(),
            self.universe().len() > 0,
        ensures
            r == self.set_head(set_id as int),
            self.in_universe(r),
            self.set_of(r) == set_id as int,
    {
        let start = self.spans[set_id].0;
        let h = self.order[start];
        let r = self.values[h];
        proof {
            assert(self.in_universe(r));
            self.lemma_handle(r);
            assert(self.handle(r) == h as int);
            assert(self.location@[h as int] as int == start as int);
            let o = self.owners@[h as int] as int;
            if o != set_id as int {
                assert(self.spans@[o].1 as int <= self.spans@[set_id as int].0 as int
                    || self.spans@[set_id as int].1 as int <= self.spans@[o].0 as int);
            }
        }
        r
    }

    /// Marks an element as distinguished within its current set, swapping it
    /// into the set's contiguous marked prefix. An element may be marked at
    /// most once between two splits.
    #[verifier::rlimit(50)]
    pub fn mark(&mut self, item: u64)
        requires
            old(self).wf(),
            old(self).in_universe(item),
            !old(self).is_marked(item),
        ensures
            final(self).wf(),
            final(self).universe() == old(self).universe(),
            final(self).spec_len() == old(self).spec_len(),
            forall|v: u64| old(self).in_universe(v) ==> final(self).set_of(v) == old(self).set_of(v),
            forall|v: u64| old(self).in_universe(v)
                ==> (final(self).is_marked(v) <==> (old(self).is_marked(v) || v == item)),
    {
        proof {
            old(self).lemma_handle(item);
        }
        let h = *self.index.get(&item).unwrap();
        let s = self.owners[h];
        let i = self.location[h];
        let start = self.spans[s].0;
        let m = self.marked[s];
        let j = start + m;
        if i > j {
            let g = self.order[j];
            self.order[i] = g;
            self.order[j] = h;
            self.location[h] = j;
            self.location[g] = i;
        }
        if m == 0 {
            self.touched.push(s);
        }
        self.marked[s] = m + 1;
        proof {
            let n = self.values@.len() as int;
            let k = self.spans@.len() as int;
            assert(vstd::std_specs::vec::spec_vec_len(&self.values) == self.values@.len());
            assert(n <= usize::MAX);
            let oldp = *old(self);
            assert(self.values@ == oldp.values@);
            assert(self.index@ == oldp.index@);
            assert(self.spans@ == oldp.spans@);
            assert(self.owners@ == oldp.owners@);
            // the swapped slots stay inside the owning span
            assert(oldp.order@[i as int] == h);
            assert(start as int <= j as int && (j as int) <= i as int
                && (i as int) < oldp.spans@[s as int].1 as int);
            let g = oldp.order@[j as int];
            if i > j {
                assert(self.order@ == oldp.order@.update(i as int, g).update(j as int, h));
                assert(self.location@ == oldp.location@.update(h as int, j).update(g as int, i));
                assert(g != h) by {
                    if g == h {
                        assert(oldp.location@[g as int] == j);
                    }
                }
            } else {
                assert(self.order@ == oldp.order@ && self.location@ == oldp.location@);
            }
            assert forall|hh: int| 0 <= hh < n implies
                ((#[trigger] self.location@[hh]) as int) < n
                && self.order@[self.location@[hh] as int] == hh as usize by {
                if i > j {
                    if hh == h as int {
                        assert(self.location@[hh] == j);
                        assert(self.order@[j as int] == h);
                    } else if hh == g as int {
                        assert(self.location@[hh] == i);
                    } else {
                        assert(self.location@[hh] == oldp.location@[hh]);
                        let p = oldp.location@[hh] as int;
                        assert(oldp.order@[p] == hh as usize);
                        assert(p != i as int) by {
                            if p == i as int {
                                assert(oldp.order@[p] == h);
                                assert(hh as usize == h);
                                assert(hh == h as int);
                            }
                        }
                        assert(p != j as int) by {
                            if p == j as int {
                                assert(oldp.order@[p] == g);
                                assert(hh as usize == g);
                                assert(hh == g as int);
                            }
                        }
                    }
                }
            }
            assert forall|p: int| 0 <= p < n implies
                ((#[trigger] self.order@[p]) as int) < n
                && self.location@[self.order@[p] as int] == p as usize by {
                if i > j {
                    if p == i as int {
                        assert(self.order@[p] == g);
                        assert(self.location@[g as int] == i);
                    } else if p == j as int {
                        assert(self.order@[p] == h);
                    } else {
                        assert(self.order@[p] == oldp.order@[p]);
                        let hh = oldp.order@[p] as int;
                        assert(oldp.location@[hh] == p as usize);
                        assert(hh != h as int) by {
                            if hh == h as int {
                                assert(oldp.location@[hh] == i);
                            }
                        }
                        assert(hh != g as int) by {
                            if hh == g as int {
                                assert(oldp.location@[hh] == j);
                            }
                        }
                    }
                }
            }
            // marked sets are exactly the touched ones
            if m == 0 {
                assert(!oldp.touched@.contains(s));
                assert(self.touched@ == oldp.touched@.push(s));
                assert(self.touched@.drop_last() == oldp.touched@);
            } else {
                assert(self.touched@ == oldp.touched@);
            }
            assert forall|t: int| 0 <= t < k implies
                (((#[trigger] self.marked@[t]) as int) > 0 <==> self.touched@.contains(t as usize)) by {
                if t == s as int {
                    assert(self.marked@[t] == m + 1);
                    if m == 0 {
                        assert(self.touched@[self.touched@.len() - 1] == s);
                        assert(self.touched@.contains(s));
                    } else {
                        assert(oldp.touched@.contains(s));
                        let w = choose|w: int| 0 <= w < oldp.touched@.len() && oldp.touched@[w] == s;
                        assert(self.touched@[w] == s);
                        assert(self.touched@.contains(s));
                    }
                } else {
                    assert(self.marked@[t] == oldp.marked@[t]);
                    if oldp.touched@.contains(t as usize) {
                        let w = choose|w: int| 0 <= w < oldp.touched@.len() && oldp.touched@[w] == t as usize;
                        assert(self.touched@[w] == t as usize);
                        assert(self.touched@.contains(t as usize));
                    }
                    if self.touched@.contains(t as usize) {
                        let w = choose|w: int| 0 <= w < self.touched@.len() && self.touched@[w] == t as usize;
                        if m == 0 && w == oldp.touched@.len() {
                            assert(self.touched@[w] == s);
                        } else {
                            assert(oldp.touched@[w] == t as usize);
                            assert(oldp.touched@.contains(t as usize));
                        }
                    }
                }
            }
            if m == 0 {
                assert forall|w1: int, w2: int| 0 <= w1 < w2 < self.touched@.len() implies
                    self.touched@[w1] != self.touched@[w2] by {
                    if w2 == self.touched@.len() - 1 {
                        assert(self.touched@[w1] == oldp.touched@[w1]);
                        assert(self.touched@[w2] == s);
                        assert(!oldp.touched@.contains(s));
                        assert(oldp.touched@[w1] != s);
                    }
                }
            }
            assert(self.wf());
            assert forall|v: u64| oldp.in_universe(v) implies
                self.set_of(v) == oldp.set_of(v)
                && (self.is_marked(v) <==> (oldp.is_marked(v) || v == item)) by {
                oldp.lemma_handle(v);
                self.lemma_handle(v);
                let hv = oldp.handle(v);
                assert(self.handle(v) == hv);
                assert(self.owners@[hv] == oldp.owners@[hv]);
                let sv = oldp.owners@[hv] as int;
                if v == item {
                    assert(hv == h as int);
                    assert((self.location@[hv] as int) < self.spans@[sv].0 as int + self.marked@[sv] as int);
                } else {
                    assert(hv != h as int) by {
                        if hv == h as int {
                            assert(oldp.values@[hv] == v && oldp.values@[h as int] == item);
                        }
                    }
                    if sv == s as int {
                        if i > j && hv == self.order@[i as int] as int {
                            // the displaced boundary element stays unmarked
                            assert(oldp.location@[hv] as int == j as int);
                            assert(self.location@[hv] as int == i as int);
                        } else {
                            assert(self.location@[hv] == oldp.location@[hv]);
                        }
                    } else {
                        assert(self.location@[hv] == oldp.location@[hv]);
                        assert(self.marked@[sv] == oldp.marked@[sv]);
                    }
                }
            }
        }
    }

    /// Splits every set touched since the previous split into its marked and
    /// unmarked parts, when both are nonempty; a set whose elements were all
    /// marked only has its marks cleared. The smaller part receives a fresh
    /// set id; the larger keeps the original id and its location. Afterwards
    /// two elements share a set exactly when they shared one before and were
    /// marked alike, and no element is marked.
    #[verifier::rlimit(100)]
    pub fn split(&mut self)
        requires
            old(self).wf(),
        ensures
            final(self).wf(),
            final(self).universe() == old(self).universe(),
            final(self).spec_len() >= old(self).spec_len(),
            old(self).universe().len() > 0 ==> final(self).spec_len() <= final(self).universe().len(),
            forall|v: u64| old(self).in_universe(v) ==> !final(self).is_marked(v),
            forall|u: u64, v: u64| old(self).in_universe(u) && old(self).in_universe(v) ==>
                (final(self).same_set(u, v) <==> (old(self).same_set(u, v)
                    && (old(self).is_marked(u) <==> old(self).is_marked(v)))),
            forall|v: u64| old(self).in_universe(v) ==> final(self).set_of(v) == old(self).set_of(v)
                || final(self).set_of(v) >= old(self).spec_len(),
            forall|u: u64, v: u64| old(self).in_universe(u) && old(self).in_universe(v)
                && old(self).same_set(u, v) && old(self).is_marked(u) && !old(self).is_marked(v)
                ==> ((final(self).set_of(u) == old(self).set_of(u))
                    <==> (final(self).set_of(v) != old(self).set_of(v))),
    {
        let ghost n = self.values@.len() as int;
        proof {
            assert(vstd::std_specs::vec::spec_vec_len(&self.values) == self.values@.len());
            assert(n <= usize::MAX);
        }
        while self.touched.len() > 0
            invariant
                self.wf(),
                self.values@ == old(self).values@,
                self.index@ == old(self).index@,
                self.order@ == old(self).order@,
                self.location@ == old(self).location@,
                self.owners@.len() == n,
                self.spans@.len() >= old(self).spans@.len(),
                self.touched@.len() <= old(self).touched@.len(),
                self.touched@ == old(self).touched@.take(self.touched@.len() as int),
                forall|t: int| 0 <= t < self.touched@.len() ==>
                    (#[trigger] self.spans@[self.touched@[t] as int]) == old(self).spans@[self.touched@[t] as int]
                    && self.marked@[self.touched@[t] as int] == old(self).marked@[self.touched@[t] as int],
                forall|h: int| 0 <= h < n && ((#[trigger] self.owners@[h]) as int) < old(self).spans@.len()
                    ==> self.owners@[h] == old(self).owners@[h],
                forall|h: int, g: int| 0 <= h < n && 0 <= g < n
                    && #[trigger] self.owners@[h] == #[trigger] self.owners@[g]
                    && (self.owners@[h] as int) >= old(self).spans@.len()
                    ==> old(self).owners@[h] == old(self).owners@[g],
                forall|h: int, g: int| 0 <= h < n && 0 <= g < n
                    && old(self).owners@[h] == old(self).owners@[g]
                    && !self.touched@.contains(#[trigger] old(self).owners@[h])
                    && old(self).hmarked(h) && !(#[trigger] old(self).hmarked(g))
                    ==> self.owners@[h] != self.owners@[g],
                forall|h: int, g: int| 0 <= h < n && 0 <= g < n
                    && old(self).owners@[h] == old(self).owners@[g]
                    && !self.touched@.contains(#[trigger] old(self).owners@[h])
                    && ((#[trigger] old(self).hmarked(h)) <==> (#[trigger] old(self).hmarked(g)))
                    ==> self.owners@[h] == self.owners@[g],
                forall|h: int, g: int| 0 <= h < n && 0 <= g < n
                    && old(self).owners@[h] == old(self).owners@[g]
                    && !self.touched@.contains(#[trigger] old(self).owners@[h])
                    && old(self).hmarked(h) && !(#[trigger] old(self).hmarked(g))
                    ==> ((self.owners@[h] == old(self).owners@[h])
                        <==> (self.owners@[g] != old(self).owners@[g])),
            decreases self.touched@.len(),
        {
            let ghost pre = *self;
            let s = self.touched.pop().unwrap();
            proof {
                assert(pre.touched@[pre.touched@.len() - 1] == s);
                assert(pre.touched@.contains(s));
                assert((s as int) < pre.spans@.len());
                assert(pre.marked@[s as int] > 0);
                // s was pending, so its span and mark count date from function entry
                let w = pre.touched@.len() - 1;
                assert((s as int) < old(self).spans@.len()) by {
                    assert(old(self).touched@.take(pre.touched@.len() as int)[w] == s);
                    assert(old(self).touched@[w] == s);
                }
                assert(pre.spans@[s as int] == old(self).spans@[s as int]
                    && pre.marked@[s as int] == old(self).marked@[s as int]);
                assert(self.touched@ == pre.touched@.drop_last());
                assert(self.touched@ == old(self).touched@.take(self.touched@.len() as int)) by {
                    assert(pre.touched@ == old(self).touched@.take(pre.touched@.len() as int));
                    assert forall|t: int| 0 <= t < self.touched@.len() implies
                        self.touched@[t] == old(self).touched@[t] by {
                        assert(self.touched@[t] == pre.touched@[t]);
                    }
                    assert(self.touched@ =~= old(self).touched@.take(self.touched@.len() as int));
                }
                // s does not stay in the worklist
                assert(!self.touched@.contains(s)) by {
                    if self.touched@.contains(s) {
                        let w2 = choose|w2: int| 0 <= w2 < self.touched@.len() && self.touched@[w2] == s;
                        assert(pre.touched@[w2] == s && pre.touched@[w] == s && w2 != w);
                        assert(!pre.touched@.no_duplicates());
                    }
                }
            }
            let span = self.spans[s];
            let start = span.0;
            let end = span.1;
            let m = self.marked[s];
            let mid = start + m;
            self.marked[s] = 0;
            if mid == end {
                // the entire set was marked: clearing the marks is the split
                proof {
                    assert(self.wf()) by {
                        assert forall|t: int| 0 <= t < self.spans@.len() implies
                            (((#[trigger] self.marked@[t]) as int) > 0 <==> self.touched@.contains(t as usize)) by {
                            if t != s as int {
                                assert(self.marked@[t] == pre.marked@[t]);
                                if pre.touched@.contains(t as usize) && t as usize != s {
                                    let w2 = choose|w2: int| 0 <= w2 < pre.touched@.len()
                                        && pre.touched@[w2] == t as usize;
                                    assert(w2 < pre.touched@.len() - 1);
                                    assert(self.touched@[w2] == t as usize);
                                }
                                if self.touched@.contains(t as usize) {
                                    let w2 = choose|w2: int| 0 <= w2 < self.touched@.len()
                                        && self.touched@[w2] == t as usize;
                                    assert(pre.touched@[w2] == t as usize);
                                }
                            }
                        }
                    }
                    assert forall|h: int, g: int| 0 <= h < n && 0 <= g < n
                        && old(self).owners@[h] == old(self).owners@[g]
                        && !self.touched@.contains(#[trigger] old(self).owners@[h])
                        && old(self).hmarked(h) && !(#[trigger] old(self).hmarked(g))
                        implies self.owners@[h] != self.owners@[g] by {
                        let o = old(self).owners@[h];
                        if o == s {
                            // every element of this set was marked
                            assert(pre.owners@[g] == o) by {
                                assert((old(self).owners@[g] as int) < old(self).spans@.len());
                            }
                            assert(old(self).spans@[s as int].0 as int <= old(self).location@[g] as int);
                            assert((old(self).location@[g] as int) < old(self).spans@[s as int].1 as int);
                            assert(false);
                        }
                    }
                    assert forall|h: int, g: int| 0 <= h < n && 0 <= g < n
                        && old(self).owners@[h] == old(self).owners@[g]
                        && !self.touched@.contains(#[trigger] old(self).owners@[h])
                        && old(self).hmarked(h) && !(#[trigger] old(self).hmarked(g))
                        implies ((self.owners@[h] == old(self).owners@[h])
                            <==> (self.owners@[g] != old(self).owners@[g])) by {
                        let o = old(self).owners@[h];
                        if o == s {
                            assert(pre.owners@[g] == o) by {
                                assert((old(self).owners@[g] as int) < old(self).spans@.len());
                            }
                            assert(old(self).spans@[s as int].0 as int <= old(self).location@[g] as int);
                            assert((old(self).location@[g] as int) < old(self).spans@[s as int].1 as int);
                            assert(false);
                        } else {
                            assert(!pre.touched@.contains(o)) by {
                                if pre.touched@.contains(o) {
                                    let w2 = choose|w2: int| 0 <= w2 < pre.touched@.len()
                                        && pre.touched@[w2] == o;
                                    assert(w2 < pre.touched@.len() - 1);
                                    assert(self.touched@[w2] == o);
                                }
                            }
                        }
                    }
                }
            } else {
                let s1 = self.spans.len();
                self.marked.push(0);
                if mid - start >= end - mid {
                    self.spans.push((mid, end));
                    self.spans[s] = (start, mid);
                } else {
                    self.spans.push((start, mid));
                    self.spans[s] = (mid, end);
                }
                let nb = self.spans[s1];
                let nstart = nb.0;
                let nend = nb.1;
                let ghost snap = *self;
                let mut p = nstart;
                while p < nend
                    invariant
                        nstart <= p <= nend,
                        self.values@ == snap.values@,
                        self.index@ == snap.index@,
                        self.order@ == snap.order@,
                        self.location@ == snap.location@,
                        self.spans@ == snap.spans@,
                        self.marked@ == snap.marked@,
                        self.touched@ == snap.touched@,
                        self.owners@.len() == n,
                        forall|h: int| 0 <= h < n
                            && nstart as int <= ((#[trigger] snap.location@[h]) as int) < p as int
                            ==> self.owners@[h] == s1,
                        forall|h: int| 0 <= h < n
                            && !(nstart as int <= ((#[trigger] snap.location@[h]) as int) < p as int)
                            ==> self.owners@[h] == snap.owners@[h],
                    decreases nend - p,
                {
                    let hh = self.order[p];
                    proof {
                        assert(pre.location@[hh as int] == p);
                    }
                    self.owners[hh] = s1;
                    proof {
                        assert forall|h: int| 0 <= h < n
                            && !(nstart as int <= ((#[trigger] snap.location@[h]) as int) < p + 1)
                            implies self.owners@[h] == snap.owners@[h] by {
                            assert(h != hh as int);
                        }
                    }
                    p = p + 1;
                }
                proof {
                    let oldp = *old(self);
                    let kk = self.spans@.len() as int;
                    assert(s1 as int == pre.spans@.len());
                    assert(kk == s1 + 1);
                    assert(self.touched@ == pre.touched@.drop_last());
                    assert(self.marked@ == pre.marked@.update(s as int, 0).push(0));
                    assert(start as int <= mid as int && (mid as int) < end as int);
                    assert((start as int) < mid as int) by {
                        assert(pre.marked@[s as int] > 0);
                    }
                    assert(end as int <= n);
                    // the two halves of the split span
                    assert(self.spans@[s1 as int] == (nstart, nend));
                    if nstart == mid {
                        assert(self.spans@ == pre.spans@.update(s as int, (start, mid)).push((mid, end)));
                        assert(nend == end);
                        assert(self.spans@[s as int] == (start, mid));
                    } else {
                        assert(self.spans@ == pre.spans@.update(s as int, (mid, end)).push((start, mid)));
                        assert(nstart == start && nend == mid);
                        assert(self.spans@[s as int] == (mid, end));
                    }
                    assert(forall|t: int| 0 <= t < s1 && t != s as int
                        ==> #[trigger] self.spans@[t] == pre.spans@[t]);
                    assert(forall|t: int| 0 <= t < s1 && t != s as int
                        ==> #[trigger] self.marked@[t] == pre.marked@[t]);
                    // which elements belong to the split set, by position
                    assert forall|h: int| 0 <= h < n implies
                        ((pre.owners@[h] == s) <==> (start as int <= pre.location@[h] as int
                            && (pre.location@[h] as int) < end as int)) by {
                        let o = pre.owners@[h] as int;
                        assert(pre.spans@[o].0 as int <= pre.location@[h] as int
                            && (pre.location@[h] as int) < pre.spans@[o].1 as int);
                        if o != s as int {
                            assert(pre.spans@[o].1 as int <= start as int
                                || end as int <= pre.spans@[o].0 as int);
                        }
                    }
                    // final ownership, by position
                    assert forall|h: int| 0 <= h < n implies
                        #[trigger] self.owners@[h] == (if nstart as int <= pre.location@[h] as int
                            && (pre.location@[h] as int) < nend as int { s1 } else { pre.owners@[h] }) by {
                        assert(snap.location@[h] == pre.location@[h]);
                        assert(snap.owners@[h] == pre.owners@[h]);
                    }
                    // entry marks of the split set correspond to the low half
                    assert forall|h: int| 0 <= h < n && pre.owners@[h] == s implies
                        oldp.owners@[h] == s
                        && ((#[trigger] oldp.hmarked(h)) <==> (pre.location@[h] as int) < mid as int) by {
                        assert((pre.owners@[h] as int) < oldp.spans@.len());
                        assert(oldp.owners@[h] == pre.owners@[h]);
                        assert(oldp.spans@[s as int] == (start, end));
                        assert(oldp.marked@[s as int] as int == mid as int - start as int);
                        assert(oldp.location@[h] == pre.location@[h]);
                    }
                    // well-formedness of the new state
                    assert(self.wf()) by {
                        assert forall|t: int| 0 <= t < kk implies
                            ((#[trigger] self.spans@[t]).0 as int) < self.spans@[t].1 as int
                            && self.spans@[t].1 as int <= n by {
                            if t != s as int && t != s1 as int {
                                assert(self.spans@[t] == pre.spans@[t]);
                            }
                        }
                        assert forall|t: int, t2: int| 0 <= t < kk && 0 <= t2 < kk && t != t2 implies
                            (#[trigger] self.spans@[t]).1 as int <= (#[trigger] self.spans@[t2]).0 as int
                            || self.spans@[t2].1 as int <= self.spans@[t].0 as int by {
                            let a = self.spans@[t];
                            let b = self.spans@[t2];
                            if (t == s as int || t == s1 as int) && (t2 == s as int || t2 == s1 as int) {
                            } else if t == s as int || t == s1 as int {
                                assert(self.spans@[t2] == pre.spans@[t2]);
                                assert(pre.spans@[s as int].1 as int <= pre.spans@[t2].0 as int
                                    || pre.spans@[t2].1 as int <= pre.spans@[s as int].0 as int);
                                assert(start as int <= a.0 as int && a.1 as int <= end as int);
                            } else if t2 == s as int || t2 == s1 as int {
                                assert(self.spans@[t] == pre.spans@[t]);
                                assert(pre.spans@[s as int].1 as int <= pre.spans@[t].0 as int
                                    || pre.spans@[t].1 as int <= pre.spans@[s as int].0 as int);
                                assert(start as int <= b.0 as int && b.1 as int <= end as int);
                            } else {
                                assert(a == pre.spans@[t] && b == pre.spans@[t2]);
                            }
                        }
                        assert(kk <= n) by {
                            lemma_span_count(self.spans@, n);
                        }
                        assert forall|h: int| 0 <= h < n implies
                            ((#[trigger] self.owners@[h]) as int) < kk
                            && self.spans@[self.owners@[h] as int].0 as int <= self.location@[h] as int
                            && (self.location@[h] as int) < self.spans@[self.owners@[h] as int].1 as int by {
                            assert(self.location@[h] == pre.location@[h]);
                            let lp = pre.location@[h] as int;
                            if nstart as int <= lp && lp < nend as int {
                                assert(self.owners@[h] == s1);
                            } else {
                                assert(self.owners@[h] == pre.owners@[h]);
                                if pre.owners@[h] == s {
                                    assert(start as int <= lp && lp < end as int);
                                    if nstart == mid {
                                        assert(lp < mid as int);
                                        assert(self.spans@[s as int] == (start, mid));
                                    } else {
                                        assert(mid as int <= lp);
                                        assert(self.spans@[s as int] == (mid, end));
                                    }
                                } else {
                                    assert(self.spans@[pre.owners@[h] as int] == pre.spans@[pre.owners@[h] as int]);
                                }
                            }
                        }
                        assert forall|t: int| 0 <= t < kk implies
                            (#[trigger] self.marked@[t]) as int
                                <= self.spans@[t].1 as int - self.spans@[t].0 as int
                            && (((self.marked@[t]) as int) > 0 <==> self.touched@.contains(t as usize)) by {
                            if t == s as int || t == s1 as int {
                                assert(self.marked@[t] == 0);
                                if self.touched@.contains(t as usize) {
                                    let w2 = choose|w2: int| 0 <= w2 < self.touched@.len()
                                        && self.touched@[w2] == t as usize;
                                    assert(pre.touched@[w2] == t as usize);
                                    if t == s as int {
                                        assert(pre.touched@[pre.touched@.len() - 1] == s);
                                        assert(!pre.touched@.no_duplicates());
                                    } else {
                                        assert((pre.touched@[w2] as int) < pre.spans@.len());
                                    }
                                }
                            } else {
                                assert(self.marked@[t] == pre.marked@[t]);
                                assert(self.spans@[t] == pre.spans@[t]);
                                if pre.touched@.contains(t as usize) {
                                    let w2 = choose|w2: int| 0 <= w2 < pre.touched@.len()
                                        && pre.touched@[w2] == t as usize;
                                    assert(w2 < pre.touched@.len() - 1);
                                    assert(self.touched@[w2] == t as usize);
                                }
                                if self.touched@.contains(t as usize) {
                                    let w2 = choose|w2: int| 0 <= w2 < self.touched@.len()
                                        && self.touched@[w2] == t as usize;
                                    assert(pre.touched@[w2] == t as usize);
                                }
                            }
                        }
                    }
                    // worklist stays a prefix of the one at entry
                    assert(self.touched@ == oldp.touched@.take(self.touched@.len() as int)) by {
                        assert forall|t: int| 0 <= t < self.touched@.len() implies
                            self.touched@[t] == oldp.touched@[t] by {
                            assert(self.touched@[t] == pre.touched@[t]);
                            assert(pre.touched@[t] == oldp.touched@.take(pre.touched@.len() as int)[t]);
                        }
                        assert(self.touched@ =~= oldp.touched@.take(self.touched@.len() as int));
                    }
                    // pending sets keep their entry spans and marks
                    assert forall|t: int| 0 <= t < self.touched@.len() implies
                        (#[trigger] self.spans@[self.touched@[t] as int]) == oldp.spans@[self.touched@[t] as int]
                        && self.marked@[self.touched@[t] as int] == oldp.marked@[self.touched@[t] as int] by {
                        assert(self.touched@[t] == pre.touched@[t]);
                        assert(pre.touched@[t] != s) by {
                            if pre.touched@[t] == s {
                                assert(pre.touched@[pre.touched@.len() - 1] == s);
                                assert(t != pre.touched@.len() - 1);
                                assert(!pre.touched@.no_duplicates());
                            }
                        }
                        assert(((pre.touched@[t]) as int) < pre.spans@.len());
                        assert(self.spans@[pre.touched@[t] as int] == pre.spans@[pre.touched@[t] as int]);
                        assert(self.marked@[pre.touched@[t] as int] == pre.marked@[pre.touched@[t] as int]);
                    }
                    // owners holding ids from entry are unchanged
                    assert forall|h: int| 0 <= h < n
                        && ((#[trigger] self.owners@[h]) as int) < oldp.spans@.len()
                        implies self.owners@[h] == oldp.owners@[h] by {
                        assert((s1 as int) >= oldp.spans@.len());
                        assert(self.owners@[h] == pre.owners@[h]);
                    }
                    // a shared fresh id means a shared set at entry
                    assert forall|h: int, g: int| 0 <= h < n && 0 <= g < n
                        && #[trigger] self.owners@[h] == #[trigger] self.owners@[g]
                        && (self.owners@[h] as int) >= oldp.spans@.len()
                        implies oldp.owners@[h] == oldp.owners@[g] by {
                        if self.owners@[h] == s1 {
                            assert(pre.owners@[h] == s && pre.owners@[g] == s) by {
                                assert((pre.owners@[h] as int) < pre.spans@.len());
                                assert((pre.owners@[g] as int) < pre.spans@.len());
                            }
                        } else {
                            assert(self.owners@[h] == pre.owners@[h]);
                            assert(self.owners@[g] == pre.owners@[g]);
                        }
                    }
                    // processed sets: marked and unmarked elements are now apart
                    assert forall|h: int, g: int| 0 <= h < n && 0 <= g < n
                        && oldp.owners@[h] == oldp.owners@[g]
                        && !self.touched@.contains(#[trigger] oldp.owners@[h])
                        && oldp.hmarked(h) && !(#[trigger] oldp.hmarked(g))
                        implies self.owners@[h] != self.owners@[g] by {
                        let o = oldp.owners@[h];
                        if o == s {
                            assert(pre.owners@[h] == s && pre.owners@[g] == s) by {
                                assert(pre.touched@.contains(s));
                            }
                            assert((pre.location@[h] as int) < mid as int);
                            assert(mid as int <= pre.location@[g] as int);
                            if nstart == mid {
                                assert(self.owners@[h] == s && self.owners@[g] == s1);
                            } else {
                                assert(self.owners@[h] == s1 && self.owners@[g] == s);
                            }
                        } else {
                            assert(!pre.touched@.contains(o)) by {
                                if pre.touched@.contains(o) {
                                    let w2 = choose|w2: int| 0 <= w2 < pre.touched@.len()
                                        && pre.touched@[w2] == o;
                                    assert(w2 < pre.touched@.len() - 1);
                                    assert(self.touched@[w2] == o);
                                }
                            }
                            assert(pre.owners@[h] != pre.owners@[g]);
                            assert(pre.owners@[h] != s || pre.owners@[g] != s);
                            assert(self.owners@[h] != self.owners@[g]) by {
                                if pre.owners@[h] == s || pre.owners@[g] == s {
                                    assert(oldp.owners@[h] == oldp.owners@[g] && o != s);
                                    assert((pre.owners@[h] == s) ==> oldp.owners@[h] == s);
                                    assert((pre.owners@[g] == s) ==> oldp.owners@[g] == s);
                                    assert(false);
                                }
                                assert(self.owners@[h] == pre.owners@[h]);
                                assert(self.owners@[g] == pre.owners@[g]);
                            }
                        }
                    }
                    // processed sets: exactly one half keeps the original id
                    assert forall|h: int, g: int| 0 <= h < n && 0 <= g < n
                        && oldp.owners@[h] == oldp.owners@[g]
                        && !self.touched@.contains(#[trigger] oldp.owners@[h])
                        && oldp.hmarked(h) && !(#[trigger] oldp.hmarked(g))
                        implies ((self.owners@[h] == oldp.owners@[h])
                            <==> (self.owners@[g] != oldp.owners@[g])) by {
                        let o = oldp.owners@[h];
                        if o == s {
                            assert(pre.owners@[h] == s && pre.owners@[g] == s) by {
                                assert(pre.touched@.contains(s));
                            }
                            assert((pre.location@[h] as int) < mid as int);
                            assert(mid as int <= pre.location@[g] as int);
                            if nstart == mid {
                                assert(self.owners@[h] == s && self.owners@[g] == s1);
                                assert(s1 as int >= oldp.spans@.len());
                                assert((s as int) < oldp.spans@.len());
                            } else {
                                assert(self.owners@[h] == s1 && self.owners@[g] == s);
                                assert(s1 as int >= oldp.spans@.len());
                                assert((s as int) < oldp.spans@.len());
                            }
                        } else {
                            assert(!pre.touched@.contains(o)) by {
                                if pre.touched@.contains(o) {
                                    let w2 = choose|w2: int| 0 <= w2 < pre.touched@.len()
                                        && pre.touched@[w2] == o;
                                    assert(w2 < pre.touched@.len() - 1);
                                    assert(self.touched@[w2] == o);
                                }
                            }
                            assert(pre.owners@[h] != s || pre.owners@[g] != s) by {
                                if pre.owners@[h] == s {
                                    assert(oldp.owners@[h] == s);
                                }
                                if pre.owners@[g] == s {
                                    assert(oldp.owners@[g] == s);
                                }
                            }
                            assert(self.owners@[h] == pre.owners@[h]) by {
                                if pre.owners@[h] == s {
                                    assert(oldp.owners@[h] == s);
                                }
                            }
                            assert(self.owners@[g] == pre.owners@[g]) by {
                                if pre.owners@[g] == s {
                                    assert(oldp.owners@[g] == s);
                                }
                            }
                        }
                    }
                    // processed sets: equally marked elements stay together
                    assert forall|h: int, g: int| 0 <= h < n && 0 <= g < n
                        && oldp.owners@[h] == oldp.owners@[g]
                        && !self.touched@.contains(#[trigger] oldp.owners@[h])
                        && ((#[trigger] oldp.hmarked(h)) <==> (#[trigger] oldp.hmarked(g)))
                        implies self.owners@[h] == self.owners@[g] by {
                        let o = oldp.owners@[h];
                        if o == s {
                            assert(pre.owners@[h] == s && pre.owners@[g] == s) by {
                                assert(pre.touched@.contains(s));
                            }
                            if oldp.hmarked(h) {
                                assert((pre.location@[h] as int) < mid as int);
                                assert((pre.location@[g] as int) < mid as int);
                            } else {
                                assert(mid as int <= pre.location@[h] as int);
                                assert(mid as int <= pre.location@[g] as int);
                            }
                        } else {
                            assert(!pre.touched@.contains(o)) by {
                                if pre.touched@.contains(o) {
                                    let w2 = choose|w2: int| 0 <= w2 < pre.touched@.len()
                                        && pre.touched@[w2] == o;
                                    assert(w2 < pre.touched@.len() - 1);
                                    assert(self.touched@[w2] == o);
                                }
                            }
                            assert(pre.owners@[h] == pre.owners@[g]);
                            assert(pre.owners@[h] != s) by {
                                if pre.owners@[h] == s {
                                    assert(oldp.owners@[h] == s);
                                }
                            }
                            assert(self.owners@[h] == pre.owners@[h]);
                            assert(self.owners@[g] == pre.owners@[g]);
                        }
                    }
                }
            }
        }
        proof {
            assert forall|u: u64, v: u64| old(self).in_universe(u) && old(self).in_universe(v) implies
                (self.same_set(u, v) <==> (old(self).same_set(u, v)
                    && (old(self).is_marked(u) <==> old(self).is_marked(v)))) by {
                old(self).lemma_handle(u);
                old(self).lemma_handle(v);
                self.lemma_handle(u);
                self.lemma_handle(v);
                let hu = old(self).handle(u);
                let hv = old(self).handle(v);
                assert(self.handle(u) == hu && self.handle(v) == hv);
                if self.owners@[hu] == self.owners@[hv] {
                    if (self.owners@[hu] as int) < old(self).spans@.len() {
                        assert(self.owners@[hu] == old(self).owners@[hu]);
                        assert(self.owners@[hv] == old(self).owners@[hv]);
                    }
                }
            }
            assert forall|v: u64| old(self).in_universe(v) implies !self.is_marked(v) by {
                self.lemma_handle(v);
                let hv = self.handle(v);
                let sv = self.owners@[hv] as int;
                assert(self.marked@[sv] == 0) by {
                    if self.marked@[sv] > 0 {
                        assert(self.touched@.contains(sv as usize));
                    }
                }
                assert(self.spans@[sv].0 as int <= self.location@[hv] as int);
            }
            assert forall|v: u64| old(self).in_universe(v) implies
                self.set_of(v) == old(self).set_of(v)
                || self.set_of(v) >= old(self).spec_len() by {
                old(self).lemma_handle(v);
                self.lemma_handle(v);
                let hv = old(self).handle(v);
                assert(self.handle(v) == hv);
            }
            assert forall|u: u64, v: u64| old(self).in_universe(u) && old(self).in_universe(v)
                && old(self).same_set(u, v) && old(self).is_marked(u) && !old(self).is_marked(v)
                implies ((self.set_of(u) == old(self).set_of(u))
                    <==> (self.set_of(v) != old(self).set_of(v))) by {
                old(self).lemma_handle(u);
                old(self).lemma_handle(v);
                self.lemma_handle(u);
                self.lemma_handle(v);
                let hu = old(self).handle(u);
                let hv = old(self).handle(v);
                assert(self.handle(u) == hu && self.handle(v) == hv);
            }
        }
    }

    /// Whether the given element has been marked since the last split.
    pub fn has_mark(&self, item: u64) -> (r: bool)
        requires
            self.wf(),
            self.in_universe(item),
        ensures
            r == self.is_marked(item),
    {
        proof {
            self.lemma_handle(item);
        }
        let h = *self.index.get(&item).unwrap();
        let s = self.owners[h];
        self.location[h] < self.spans[s].0 + self.marked[s]
    }
}

proof fn lemma_span_count(spans: Seq<(usize, usize)>, n: int)
    requires
        n >= 0,
        forall|t: int| 0 <= t < spans.len() ==> ((#[trigger] spans[t]).0 as int) < spans[t].1 as int
            && spans[t].1 as int <= n,
        forall|t: int, t2: int| 0 <= t < spans.len() && 0 <= t2 < spans.len() && t != t2 ==>
            (#[trigger] spans[t]).1 as int <= (#[trigger] spans[t2]).0 as int
            || spans[t2].1 as int <= spans[t].0 as int,
    ensures
        spans.len() <= n,
{
    let starts = Seq::new(spans.len(), |t: int| spans[t].0 as int);
    assert forall|t: int, t2: int| 0 <= t < t2 < starts.len() implies starts[t] != starts[t2] by {
        assert(spans[t].1 as int <= spans[t2].0 as int || spans[t2].1 as int <= spans[t].0 as int);
    }
    assert(starts.no_duplicates());
    lemma_no_dup_bounded(starts, n);
}

proof fn lemma_no_dup_bounded(s: Seq<int>, n: int)
    requires
        s.no_duplicates(),
        forall|i: int| 0 <= i < s.len() ==> 0 <= #[trigger] s[i] < n,
        n >= 0,
    ensures
        s.len() <= n,
{
    s.unique_seq_to_set();
    assert(s.to_set().subset_of(set_int_range(0, n)));
    lemma_int_range(0, n);
    lemma_len_subset(s.to_set(), set_int_range(0, n));
}

} // verus!
