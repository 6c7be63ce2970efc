//! Sets and maps kept as strictly sorted sequences: the order in which they are walked is the order of their keys.

use vstd::prelude::*;

use crate::order::{same_key, Key};

verus! {

/// The keys stand in strictly ascending order, so none occurs twice.
pub open spec fn strictly_sorted<K: Key>(s: Seq<K>) -> bool {
    forall|i: int, j: int| #![trigger s[i], s[j]] 0 <= i < j < s.len() ==> K::before(s[i].model(), s[j].model())
}

/// The values that a sequence of keys stands for.
pub open spec fn models<K: Key>(s: Seq<K>) -> Seq<K::Model> {
    Seq::new(s.len(), |i: int| s[i].model())
}

/// In a strictly sorted sequence a value stands at one place only.
pub proof fn sorted_unique<K: Key>(s: Seq<K>, i: int, j: int)
    requires
        strictly_sorted(s),
        0 <= i < s.len(),
        0 <= j < s.len(),
        s[i].model() == s[j].model(),
    ensures
        i == j,
{
    K::before_irreflexive(s[i].model());
}

/// A strictly sorted sequence holds no value twice.
pub proof fn sorted_no_duplicates<K: Key>(s: Seq<K>)
    requires
        strictly_sorted(s),
    ensures
        models(s).no_duplicates(),
{
    assert forall|i: int, j: int| 0 <= i < s.len() && 0 <= j < s.len() && i != j implies models(s)[i] != models(s)[j] by {
        if models(s)[i] == models(s)[j] {
            sorted_unique(s, i, j);
        }
    }
}

/// The index of the first key that does not come before `k`.
pub fn lower_bound<K: Key>(v: &Vec<K>, k: &K) -> (r: usize)
    requires
        strictly_sorted(v@),
    ensures
        r <= v.len(),
        forall|j: int| 0 <= j < r ==> K::before(#[trigger] v@[j].model(), k.model()),
        forall|j: int| r <= j < v.len() ==> !K::before(#[trigger] v@[j].model(), k.model()),
{
    let mut lo: usize = 0;
    let mut hi: usize = v.len();
    while lo < hi
        invariant
            lo <= hi <= v.len(),
            strictly_sorted(v@),
            forall|j: int| 0 <= j < lo ==> K::before(#[trigger] v@[j].model(), k.model()),
            forall|j: int| hi <= j < v.len() ==> !K::before(#[trigger] v@[j].model(), k.model()),
        decreases hi - lo,
    {
        let mid: usize = lo + (hi - lo) / 2;
        if v[mid].less(k) {
            proof {
                assert forall|j: int| 0 <= j < mid + 1 implies K::before(#[trigger] v@[j].model(), k.model()) by {
                    if j < mid {
                        K::before_transitive(v@[j].model(), v@[mid as int].model(), k.model());
                    }
                }
            }
            lo = mid + 1;
        } else {
            proof {
                assert forall|j: int| mid <= j < v.len() implies !K::before(#[trigger] v@[j].model(), k.model()) by {
                    if j > mid && K::before(v@[j].model(), k.model()) {
                        K::before_transitive(v@[mid as int].model(), v@[j].model(), k.model());
                    }
                }
            }
            hi = mid;
        }
    }
    lo
}

/// Inserting a key at its lower bound keeps the order, if the key was not there.
pub proof fn insert_keeps_sorted<K: Key>(s: Seq<K>, at: int, k: K)
    requires
        strictly_sorted(s),
        0 <= at <= s.len(),
        forall|j: int| 0 <= j < at ==> K::before(#[trigger] s[j].model(), k.model()),
        forall|j: int| at <= j < s.len() ==> !K::before(#[trigger] s[j].model(), k.model()),
        at < s.len() ==> s[at].model() != k.model(),
    ensures
        strictly_sorted(s.insert(at, k)),
        forall|j: int| 0 <= j < s.len() ==> #[trigger] s[j].model() != k.model(),
{
    assert forall|j: int| at <= j < s.len() implies K::before(k.model(), #[trigger] s[j].model()) by {
        K::before_total(s[j].model(), k.model());
        if s[j].model() == k.model() && j > at {
            K::before_total(s[at].model(), k.model());
        }
    }
    assert forall|j: int| 0 <= j < s.len() implies #[trigger] s[j].model() != k.model() by {
        if s[j].model() == k.model() {
            K::before_irreflexive(k.model());
        }
    }
    let t = s.insert(at, k);
    assert forall|i: int, j: int| #![trigger t[i], t[j]] 0 <= i < j < t.len() implies K::before(t[i].model(), t[j].model()) by {
        let oi = if i < at { i } else { i - 1 };
        let oj = if j < at { j } else { j - 1 };
        if i == at {
            assert(t[j] == s[oj]);
        } else if j == at {
            assert(t[i] == s[oi]);
        } else {
            assert(t[i] == s[oi]);
            assert(t[j] == s[oj]);
        }
    }
}

/// A set of keys, walked in ascending order.
pub struct SortedSet<K: Key> {
    pub items: Vec<K>,
}

impl<K: Key> View for SortedSet<K> {
    type V = Set<K::Model>;

    open spec fn view(&self) -> Set<K::Model> {
        models(self.items@).to_set()
    }
}

impl<K: Key> SortedSet<K> {
    pub open spec fn wf(&self) -> bool {
        strictly_sorted(self.items@)
    }

    /// The set has as many members as it has items, and a value is a member exactly when an item stands for it.
    pub proof fn facts(&self)
        requires
            self.wf(),
        ensures
            self@.finite(),
            self@.len() == self.items.len(),
            forall|m: K::Model| #[trigger] self@.contains(m) <==> exists|i: int|
                0 <= i < self.items.len() && (#[trigger] self.items@[i]).model() == m,
            forall|i: int| 0 <= i < self.items.len() ==> self@.contains((#[trigger] self.items@[i]).model()),
    {
        sorted_no_duplicates(self.items@);
        models(self.items@).unique_seq_to_set();
        vstd::seq_lib::seq_to_set_is_finite(models(self.items@));
        assert forall|m: K::Model| #[trigger] self@.contains(m) implies exists|i: int|
            0 <= i < self.items.len() && (#[trigger] self.items@[i]).model() == m by {
            let i = choose|i: int| 0 <= i < models(self.items@).len() && models(self.items@)[i] == m;
            assert(self.items@[i].model() == m);
        }
        assert forall|i: int| 0 <= i < self.items.len() implies self@.contains((#[trigger] self.items@[i]).model()) by {
            assert(models(self.items@)[i] == self.items@[i].model());
        }
    }

    pub fn new() -> (r: SortedSet<K>)
        ensures
            r.wf(),
            r@ == Set::<K::Model>::empty(),
    {
        let r: SortedSet<K> = SortedSet { items: Vec::new() };
        proof {
            assert(models(r.items@) =~= Seq::<K::Model>::empty());
            assert(r@ =~= Set::<K::Model>::empty());
        }
        r
    }

    pub fn len(&self) -> (r: usize)
        requires
            self.wf(),
        ensures
            r == self@.len(),
            r == self.items.len(),
    {
        proof {
            self.facts();
        }
        self.items.len()
    }

    pub fn contains(&self, k: &K) -> (r: bool)
        requires
            self.wf(),
        ensures
            r == self@.contains(k.model()),
    {
        let at: usize = lower_bound(&self.items, k);
        let r = at < self.items.len() && same_key(&self.items[at], k);
        proof {
            self.facts();
            if self@.contains(k.model()) {
                let i = choose|i: int| 0 <= i < self.items.len() && #[trigger] self.items@[i].model() == k.model();
                K::before_irreflexive(k.model());
                if i > at {
                    assert(K::before(self.items@[at as int].model(), self.items@[i].model()));
                }
            }
        }
        r
    }

    /// Adds `k`; tells whether it was absent.
    pub fn insert(&mut self, k: K) -> (r: bool)
        requires
            old(self).wf(),
        ensures
            final(self).wf(),
            final(self)@ == old(self)@.insert(k.model()),
            r == !old(self)@.contains(k.model()),
            !r ==> final(self).items@ == old(self).items@,
    {
        proof {
            self.facts();
        }
        let at: usize = lower_bound(&self.items, &k);
        if at < self.items.len() && same_key(&self.items[at], &k) {
            assert(self@.insert(k.model()) =~= self@);
            return false;
        }
        let ghost before = *self;
        let ghost m = k.model();
        proof {
            insert_keeps_sorted(self.items@, at as int, k);
        }
        self.items.insert(at, k);
        proof {
            self.facts();
            assert forall|x: K::Model| self@.contains(x) == before@.insert(m).contains(x) by {
                if self@.contains(x) {
                    let i = choose|i: int| 0 <= i < self.items.len() && #[trigger] self.items@[i].model() == x;
                    if i < at {
                        assert(before.items@[i].model() == x);
                    } else if i > at {
                        assert(before.items@[i - 1].model() == x);
                    }
                }
                if before@.contains(x) {
                    let i = choose|i: int| 0 <= i < before.items.len() && #[trigger] before.items@[i].model() == x;
                    if i < at {
                        assert(self.items@[i].model() == x);
                    } else {
                        assert(self.items@[i + 1].model() == x);
                    }
                }
                if x == m {
                    assert(self.items@[at as int].model() == x);
                }
            }
            assert(self@ =~= before@.insert(m));
        }
        true
    }

    /// Adds every member of `other`.
    pub fn extend(&mut self, other: &SortedSet<K>)
        requires
            old(self).wf(),
            other.wf(),
        ensures
            final(self).wf(),
            final(self)@ == old(self)@.union(other@),
    {
        let ghost start = *self;
        let mut i: usize = 0;
        proof {
            other.facts();
            assert(self@ =~= start@.union(models(other.items@.take(0)).to_set()));
        }
        while i < other.items.len()
            invariant
                i <= other.items.len(),
                self.wf(),
                self@ == start@.union(models(other.items@.take(i as int)).to_set()),
            decreases other.items.len() - i,
        {
            let k = other.items[i].duplicate();
            proof {
                let p = models(other.items@.take(i as int));
                let q = models(other.items@.take(i + 1));
                assert(q =~= p.push(k.model()));
                push_to_set(p, k.model());
                assert(start@.union(p.to_set()).insert(k.model()) =~= start@.union(q.to_set()));
            }
            self.insert(k);
            i = i + 1;
        }
        assert(other.items@.take(i as int) =~= other.items@);
    }

    pub fn duplicate(&self) -> (r: SortedSet<K>)
        requires
            self.wf(),
        ensures
            r.wf(),
            r@ == self@,
            models(r.items@) == models(self.items@),
    {
        let mut items: Vec<K> = Vec::new();
        let mut i: usize = 0;
        while i < self.items.len()
            invariant
                i <= self.items.len(),
                items.len() == i,
                forall|j: int| 0 <= j < i ==> #[trigger] items@[j].model() == self.items@[j].model(),
            decreases self.items.len() - i,
        {
            items.push(self.items[i].duplicate());
            i = i + 1;
        }
        let r = SortedSet { items };
        assert(models(r.items@) =~= models(self.items@));
        assert forall|a: int, b: int| #![trigger r.items@[a], r.items@[b]] 0 <= a < b < r.items.len() implies K::before(
            r.items@[a].model(),
            r.items@[b].model(),
        ) by {
            assert(K::before(self.items@[a].model(), self.items@[b].model()));
        }
        r
    }
}

pub proof fn push_to_set<A>(s: Seq<A>, a: A)
    ensures
        s.push(a).to_set() == s.to_set().insert(a),
{
    assert forall|x: A| s.push(a).to_set().contains(x) == s.to_set().insert(a).contains(x) by {
        if s.to_set().contains(x) {
            let i = choose|i: int| 0 <= i < s.len() && s[i] == x;
            assert(s.push(a)[i] == x);
        }
        if x == a {
            assert(s.push(a)[s.len() as int] == x);
        }
    }
    assert(s.push(a).to_set() =~= s.to_set().insert(a));
}

/// A map from keys to values, walked in ascending order of the keys.
pub struct SortedMap<K: Key, V> {
    pub keys: Vec<K>,
    pub values: Vec<V>,
}

/// The index at which `keys` holds the value `m`.
pub open spec fn index_of_key<K: Key>(keys: Seq<K>, m: K::Model) -> int {
    choose|i: int| 0 <= i < keys.len() && #[trigger] keys[i].model() == m
}

impl<K: Key, V> View for SortedMap<K, V> {
    type V = Map<K::Model, V>;

    open spec fn view(&self) -> Map<K::Model, V> {
        Map::new(
            |m: K::Model| models(self.keys@).contains(m),
            |m: K::Model| self.values@[index_of_key(self.keys@, m)],
        )
    }
}

impl<K: Key, V> SortedMap<K, V> {
    pub open spec fn wf(&self) -> bool {
        &&& strictly_sorted(self.keys@)
        &&& self.keys.len() == self.values.len()
    }

    /// The map holds exactly its entries.
    pub proof fn facts(&self)
        requires
            self.wf(),
        ensures
            forall|m: K::Model| #[trigger] self@.contains_key(m) <==> exists|i: int|
                0 <= i < self.keys.len() && (#[trigger] self.keys@[i]).model() == m,
            forall|i: int|
                0 <= i < self.keys.len() ==> self@.contains_key((#[trigger] self.keys@[i]).model()) && self@[self.keys@[i].model()]
                    == self.values@[i],
    {
        assert forall|m: K::Model| #[trigger] self@.contains_key(m) implies exists|i: int|
            0 <= i < self.keys.len() && (#[trigger] self.keys@[i]).model() == m by {
            let i = choose|i: int| 0 <= i < models(self.keys@).len() && models(self.keys@)[i] == m;
            assert(self.keys@[i].model() == m);
        }
        assert forall|i: int| 0 <= i < self.keys.len() implies self@.contains_key((#[trigger] self.keys@[i]).model())
            && self@[self.keys@[i].model()] == self.values@[i] by {
            let m = self.keys@[i].model();
            assert(models(self.keys@)[i] == m);
            sorted_unique(self.keys@, index_of_key(self.keys@, m), i);
        }
    }

    pub fn new() -> (r: SortedMap<K, V>)
        ensures
            r.wf(),
            r@ == Map::<K::Model, V>::empty(),
    {
        let r: SortedMap<K, V> = SortedMap { keys: Vec::new(), values: Vec::new() };
        proof {
            r.facts();
            assert(r@ =~= Map::<K::Model, V>::empty());
        }
        r
    }

    /// The index of `k`'s entry.
    pub fn position(&self, k: &K) -> (r: Option<usize>)
        requires
            self.wf(),
        ensures
            match r {
                Some(i) => i < self.keys.len() && self.keys@[i as int].model() == k.model() && self@.contains_key(k.model())
                    && self@[k.model()] == self.values@[i as int],
                None => !self@.contains_key(k.model()),
            },
    {
        proof {
            self.facts();
        }
        let at: usize = lower_bound(&self.keys, k);
        if at < self.keys.len() && same_key(&self.keys[at], k) {
            return Some(at);
        }
        proof {
            if self@.contains_key(k.model()) {
                let i = choose|i: int| 0 <= i < self.keys.len() && #[trigger] self.keys@[i].model() == k.model();
                K::before_irreflexive(k.model());
                if i > at {
                    assert(K::before(self.keys@[at as int].model(), self.keys@[i].model()));
                }
            }
        }
        None
    }

    pub fn get(&self, k: &K) -> (r: Option<&V>)
        requires
            self.wf(),
        ensures
            match r {
                Some(v) => self@.contains_key(k.model()) && self@[k.model()] == *v,
                None => !self@.contains_key(k.model()),
            },
    {
        match self.position(k) {
            Some(i) => Some(&self.values[i]),
            None => None,
        }
    }

    pub fn contains_key(&self, k: &K) -> (r: bool)
        requires
            self.wf(),
        ensures
            r == self@.contains_key(k.model()),
    {
        self.position(k).is_some()
    }

    pub fn insert(&mut self, k: K, v: V)
        requires
            old(self).wf(),
        ensures
            final(self).wf(),
            final(self)@ == old(self)@.insert(k.model(), v),
    {
        let ghost before = *self;
        let ghost m = k.model();
        proof {
            before.facts();
        }
        match self.position(&k) {
            Some(i) => {
                self.values.set(i, v);
                proof {
                    self.facts();
                    assert forall|x: K::Model| self@.contains_key(x) == before@.insert(m, v).contains_key(x) by {}
                    assert forall|x: K::Model| #[trigger] self@.contains_key(x) implies self@[x] == before@.insert(m, v)[x] by {
                        let j = choose|j: int| 0 <= j < self.keys.len() && #[trigger] self.keys@[j].model() == x;
                        if x == m {
                            sorted_unique(self.keys@, j, i as int);
                        }
                    }
                    assert(self@ =~= before@.insert(m, v));
                }
            },
            None => {
                let at: usize = lower_bound(&self.keys, &k);
                proof {
                    insert_keeps_sorted(self.keys@, at as int, k);
                }
                self.keys.insert(at, k);
                self.values.insert(at, v);
                proof {
                    self.facts();
                    assert(self.keys@[at as int].model() == m);
                    assert forall|x: K::Model| self@.contains_key(x) == before@.insert(m, v).contains_key(x) by {
                        if self@.contains_key(x) {
                            let i = choose|i: int| 0 <= i < self.keys.len() && #[trigger] self.keys@[i].model() == x;
                            if i < at {
                                assert(before.keys@[i].model() == x);
                            } else if i > at {
                                assert(before.keys@[i - 1].model() == x);
                            }
                        }
                        if before@.contains_key(x) {
                            let i = choose|i: int| 0 <= i < before.keys.len() && #[trigger] before.keys@[i].model() == x;
                            if i < at {
                                assert(self.keys@[i].model() == x);
                            } else {
                                assert(self.keys@[i + 1].model() == x);
                            }
                        }
                    }
                    assert forall|x: K::Model| #[trigger] self@.contains_key(x) implies self@[x] == before@.insert(m, v)[x] by {
                        let i = choose|i: int| 0 <= i < self.keys.len() && #[trigger] self.keys@[i].model() == x;
                        if i < at {
                            assert(before.keys@[i].model() == x);
                        } else if i > at {
                            assert(before.keys@[i - 1].model() == x);
                            assert(before.values@[i - 1] == self.values@[i]);
                        }
                    }
                    assert(self@ =~= before@.insert(m, v));
                }
            },
        }
    }

    /// Removes `k`'s entry and hands out its value.
    pub fn remove(&mut self, k: &K) -> (r: Option<V>)
        requires
            old(self).wf(),
        ensures
            final(self).wf(),
            final(self)@ == old(self)@.remove(k.model()),
            r == (if old(self)@.contains_key(k.model()) {
                Some(old(self)@[k.model()])
            } else {
                None
            }),
    {
        let ghost before = *self;
        let ghost m = k.model();
        proof {
            before.facts();
        }
        match self.position(k) {
            Some(at) => {
                let _ = self.keys.remove(at);
                let v = self.values.remove(at);
                proof {
                    assert forall|a: int, b: int| #![trigger self.keys@[a], self.keys@[b]] 0 <= a < b < self.keys.len() implies K::before(
                        self.keys@[a].model(),
                        self.keys@[b].model(),
                    ) by {
                        let oa = if a < at { a } else { a + 1 };
                        let ob = if b < at { b } else { b + 1 };
                        assert(self.keys@[a] == before.keys@[oa]);
                        assert(self.keys@[b] == before.keys@[ob]);
                    }
                    self.facts();
                    assert forall|x: K::Model| self@.contains_key(x) == before@.remove(m).contains_key(x) by {
                        if self@.contains_key(x) {
                            let i = choose|i: int| 0 <= i < self.keys.len() && #[trigger] self.keys@[i].model() == x;
                            let oi = if i < at { i } else { i + 1 };
                            assert(before.keys@[oi].model() == x);
                            if x == m {
                                sorted_unique(before.keys@, oi, at as int);
                            }
                        }
                        if before@.contains_key(x) && x != m {
                            let i = choose|i: int| 0 <= i < before.keys.len() && #[trigger] before.keys@[i].model() == x;
                            if i < at {
                                assert(self.keys@[i].model() == x);
                            } else {
                                assert(self.keys@[i - 1].model() == x);
                            }
                        }
                    }
                    assert forall|x: K::Model| #[trigger] self@.contains_key(x) implies self@[x] == before@.remove(m)[x] by {
                        let i = choose|i: int| 0 <= i < self.keys.len() && #[trigger] self.keys@[i].model() == x;
                        let oi = if i < at { i } else { i + 1 };
                        assert(before.keys@[oi].model() == x);
                        assert(before.values@[oi] == self.values@[i]);
                    }
                    assert(self@ =~= before@.remove(m));
                }
                Some(v)
            },
            None => {
                assert(self@ =~= before@.remove(m));
                None
            },
        }
    }
}

/// Two sequences that ascend strictly by a key and hold the same values are the same sequence.
pub proof fn ascending_unique<M, K: Key>(a: Seq<M>, b: Seq<M>, key: spec_fn(M) -> K::Model)
    requires
        forall|i: int, j: int| #![trigger a[i], a[j]] 0 <= i < j < a.len() ==> K::before(key(a[i]), key(a[j])),
        forall|i: int, j: int| #![trigger b[i], b[j]] 0 <= i < j < b.len() ==> K::before(key(b[i]), key(b[j])),
        forall|x: M| #![trigger a.contains(x)] #![trigger b.contains(x)] a.contains(x) <==> b.contains(x),
    ensures
        a == b,
    decreases a.len(),
{
    if a.len() == 0 {
        if b.len() > 0 {
            assert(b.contains(b[0]));
            assert(a.contains(b[0]));
        }
        assert(a =~= b);
    } else {
        let x = a.last();
        assert(a.contains(x));
        let i = choose|i: int| 0 <= i < b.len() && b[i] == x;
        let y = b.last();
        assert(b.contains(y));
        let j = choose|j: int| 0 <= j < a.len() && a[j] == y;
        if x != y {
            assert(K::before(key(b[i]), key(b[b.len() - 1])));
            assert(K::before(key(a[j]), key(a[a.len() - 1])));
            K::before_transitive(key(x), key(y), key(x));
            K::before_irreflexive(key(x));
        }
        let a0 = a.drop_last();
        let b0 = b.drop_last();
        assert forall|z: M| #![trigger a0.contains(z)] #![trigger b0.contains(z)] a0.contains(z) <==> b0.contains(z) by {
            if a0.contains(z) {
                let p = choose|p: int| 0 <= p < a0.len() && a0[p] == z;
                assert(a[p] == z && a.contains(z) && b.contains(z));
                let q = choose|q: int| 0 <= q < b.len() && b[q] == z;
                if q == b.len() - 1 {
                    assert(K::before(key(a[p]), key(a[a.len() - 1])));
                    K::before_irreflexive(key(x));
                }
                assert(b0[q] == z);
            }
            if b0.contains(z) {
                let p = choose|p: int| 0 <= p < b0.len() && b0[p] == z;
                assert(b[p] == z && b.contains(z) && a.contains(z));
                let q = choose|q: int| 0 <= q < a.len() && a[q] == z;
                if q == a.len() - 1 {
                    assert(K::before(key(b[p]), key(b[b.len() - 1])));
                    K::before_irreflexive(key(x));
                }
                assert(a0[q] == z);
            }
        }
        assert forall|p: int, q: int| #![trigger a0[p], a0[q]] 0 <= p < q < a0.len() implies K::before(key(a0[p]), key(a0[q])) by {
            assert(a0[p] == a[p] && a0[q] == a[q]);
        }
        assert forall|p: int, q: int| #![trigger b0[p], b0[q]] 0 <= p < q < b0.len() implies K::before(key(b0[p]), key(b0[q])) by {
            assert(b0[p] == b[p] && b0[q] == b[q]);
        }
        ascending_unique::<M, K>(a0, b0, key);
        assert(a =~= a0.push(x));
        assert(b =~= b0.push(y));
    }
}

/// The values ascend strictly.
pub open spec fn ascends<K: Key>(s: Seq<K::Model>) -> bool {
    forall|i: int, j: int| #![trigger s[i], s[j]] 0 <= i < j < s.len() ==> K::before(s[i], s[j])
}

/// The values of a finite set in ascending order.
pub open spec fn in_order<K: Key>(s: Set<K::Model>) -> Seq<K::Model> {
    choose|q: Seq<K::Model>| ascends::<K>(q) && #[trigger] q.to_set() == s
}

/// An ascending sequence is its values in ascending order.
pub proof fn in_order_is<K: Key>(q: Seq<K::Model>)
    requires
        ascends::<K>(q),
    ensures
        in_order::<K>(q.to_set()) == q,
{
    let s = q.to_set();
    let p = in_order::<K>(s);
    assert(ascends::<K>(p) && p.to_set() == s);
    assert forall|x: K::Model| #![trigger p.contains(x)] #![trigger q.contains(x)] p.contains(x) <==> q.contains(x) by {
        assert(p.to_set().contains(x) == p.contains(x));
        assert(q.to_set().contains(x) == q.contains(x));
    }
    ascending_unique::<K::Model, K>(p, q, |m: K::Model| m);
}

/// The first value of a finite set in ascending order, if it has any.
pub open spec fn least<K: Key>(s: Set<K::Model>) -> Option<K::Model> {
    let q = in_order::<K>(s);
    if q.len() == 0 {
        None
    } else {
        Some(q[0])
    }
}

impl<K: Key> SortedSet<K> {
    /// The items stand for the set's values in ascending order.
    pub proof fn ordered(&self)
        requires
            self.wf(),
        ensures
            models(self.items@) == in_order::<K>(self@),
    {
        let q = models(self.items@);
        assert forall|i: int, j: int| #![trigger q[i], q[j]] 0 <= i < j < q.len() implies K::before(q[i], q[j]) by {
            assert(K::before(self.items@[i].model(), self.items@[j].model()));
        }
        in_order_is::<K>(q);
    }

    /// The least value.
    pub fn first(&self) -> (r: Option<&K>)
        requires
            self.wf(),
        ensures
            least::<K>(self@) == (match r {
                Some(k) => Some(k.model()),
                None => None::<K::Model>,
            }),
    {
        proof {
            self.ordered();
        }
        if self.items.len() == 0 {
            None
        } else {
            assert(models(self.items@)[0] == self.items@[0].model());
            Some(&self.items[0])
        }
    }
}

proof fn ascending_insert<K: Key>(q: Seq<K::Model>, m: K::Model) -> (r: Seq<K::Model>)
    requires
        ascends::<K>(q),
        !q.contains(m),
    ensures
        ascends::<K>(r),
        r.to_set() == q.to_set().insert(m),
    decreases q.len(),
{
    if q.len() == 0 {
        let r = seq![m];
        assert(r.to_set() =~= q.to_set().insert(m)) by {
            assert(r[0] == m);
        }
        r
    } else {
        let x = q.last();
        let q0 = q.drop_last();
        K::before_total(x, m);
        assert(q.contains(x));
        if K::before(x, m) {
            let r = q.push(m);
            assert forall|i: int, j: int| #![trigger r[i], r[j]] 0 <= i < j < r.len() implies K::before(r[i], r[j]) by {
                if j == q.len() {
                    if i < q.len() - 1 {
                        K::before_transitive(q[i], x, m);
                    }
                } else {
                    assert(r[i] == q[i] && r[j] == q[j]);
                }
            }
            push_to_set(q, m);
            r
        } else {
            assert forall|i: int, j: int| #![trigger q0[i], q0[j]] 0 <= i < j < q0.len() implies K::before(q0[i], q0[j]) by {
                assert(q0[i] == q[i] && q0[j] == q[j]);
            }
            assert(!q0.contains(m)) by {
                if q0.contains(m) {
                    let i = choose|i: int| 0 <= i < q0.len() && q0[i] == m;
                    assert(q[i] == m);
                }
            }
            let r0 = ascending_insert::<K>(q0, m);
            let r = r0.push(x);
            assert forall|i: int, j: int| #![trigger r[i], r[j]] 0 <= i < j < r.len() implies K::before(r[i], r[j]) by {
                if j == r0.len() {
                    assert(r0.to_set().contains(r0[i]));
                    if r0[i] != m {
                        assert(q0.to_set().contains(r0[i]));
                        let k = choose|k: int| 0 <= k < q0.len() && q0[k] == r0[i];
                        assert(q[k] == r0[i]);
                        assert(K::before(q[k], q[q.len() - 1]));
                    }
                } else {
                    assert(r[i] == r0[i] && r[j] == r0[j]);
                }
            }
            push_to_set(r0, x);
            push_to_set(q0, x);
            assert(q0.push(x) =~= q);
            assert(r.to_set() =~= q.to_set().insert(m));
            r
        }
    }
}

proof fn in_order_found<K: Key>(s: Set<K::Model>) -> (r: Seq<K::Model>)
    requires
        s.finite(),
    ensures
        ascends::<K>(r),
        r.to_set() == s,
    decreases s.len(),
{
    if s.len() == 0 {
        let r = Seq::<K::Model>::empty();
        assert(r.to_set() =~= s);
        r
    } else {
        let m = s.choose();
        let q = in_order_found::<K>(s.remove(m));
        assert(!q.contains(m)) by {
            if q.contains(m) {
                assert(q.to_set().contains(m));
            }
        }
        let r = ascending_insert::<K>(q, m);
        assert(s.remove(m).insert(m) =~= s);
        r
    }
}

/// A finite set's values can be put in ascending order.
pub proof fn in_order_exists<K: Key>(s: Set<K::Model>)
    requires
        s.finite(),
    ensures
        ascends::<K>(in_order::<K>(s)),
        in_order::<K>(s).to_set() == s,
{
    let q = in_order_found::<K>(s);
    in_order_is::<K>(q);
}

/// Nothing in a finite set comes before its least value.
pub proof fn least_exists<K: Key>(s: Set<K::Model>)
    requires
        s.finite(),
    ensures
        least::<K>(s) is None <==> s == Set::<K::Model>::empty(),
        least::<K>(s) matches Some(l) ==> s.contains(l) && forall|m: K::Model| #[trigger] s.contains(m) ==> l == m || K::before(
            l,
            m,
        ),
{
    in_order_exists::<K>(s);
    let q = in_order::<K>(s);
    if q.len() == 0 {
        assert(s =~= Set::<K::Model>::empty()) by {
            assert forall|m: K::Model| !(#[trigger] s.contains(m)) by {
                if s.contains(m) {
                    assert(q.to_set().contains(m));
                }
            }
        }
    } else {
        assert(q.to_set().contains(q[0]));
        assert forall|m: K::Model| #[trigger] s.contains(m) implies q[0] == m || K::before(q[0], m) by {
            assert(q.to_set().contains(m));
            let i = choose|i: int| 0 <= i < q.len() && q[i] == m;
            if i > 0 {
                assert(K::before(q[0], q[i]));
            }
        }
    }
}

/// The least value of a set is the one that nothing comes before.
pub proof fn least_is<K: Key>(s: Set<K::Model>, l: K::Model)
    requires
        s.finite(),
        s.contains(l),
        forall|m: K::Model| #[trigger] s.contains(m) ==> l == m || K::before(l, m),
    ensures
        least::<K>(s) == Some(l),
{
    least_exists::<K>(s);
    let k = least::<K>(s)->0;
    if k != l {
        K::before_transitive(k, l, k);
        K::before_irreflexive(k);
    }
}

} // verus!
