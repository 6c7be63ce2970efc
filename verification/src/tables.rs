//! Queries on sorted sets of pairs.

use vstd::prelude::*;

use crate::order::{list_model, same_key, Desc, Key};
use crate::sorted::{in_order, least, models, SortedMap, SortedSet};

verus! {

/// What the members of a set give.
pub open spec fn imaged<M, N>(s: Set<M>, give: spec_fn(M) -> Option<N>) -> Set<N> {
    Set::new(|n: N| exists|m: M| #[trigger] s.contains(m) && give(m) == Some(n))
}

/// What a key stands for, where there is one.
pub open spec fn opt_model<K: Key>(k: Option<K>) -> Option<K::Model> {
    match k {
        Some(x) => Some(x.model()),
        None => None,
    }
}

/// What the members of a set give.
pub(crate) fn filter_map<K: Key, L: Key, F: Fn(&K) -> Option<L>>(
    s: &SortedSet<K>,
    f: F,
    Ghost(give): Ghost<spec_fn(K::Model) -> Option<L::Model>>,
) -> (r: SortedSet<L>)
    requires
        s.wf(),
        forall|k: K| s@.contains(k.model()) ==> f.requires((&k,)),
        forall|k: K, l: Option<L>| s@.contains(k.model()) && f.ensures((&k,), l) ==> opt_model(l) == give(k.model()),
    ensures
        r.wf(),
        r@ == imaged(s@, give),
{
    let mut out: SortedSet<L> = SortedSet::new();
    let mut i: usize = 0;
    proof {
        s.facts();
    }
    while i < s.items.len()
        invariant
            i <= s.items.len(),
            s.wf(),
            forall|j: int| 0 <= j < s.items.len() ==> s@.contains((#[trigger] s.items@[j]).model()),
            forall|k: K| s@.contains(k.model()) ==> f.requires((&k,)),
            forall|k: K, l: Option<L>| s@.contains(k.model()) && f.ensures((&k,), l) ==> opt_model(l) == give(k.model()),
            out.wf(),
            forall|n: L::Model| #[trigger]
                out@.contains(n) <==> exists|j: int| 0 <= j < i && give((#[trigger] s.items@[j]).model()) == Some(n),
        decreases s.items.len() - i,
    {
        let ghost before = out@;
        let ghost m = s.items@[i as int].model();
        assert(s@.contains(m));
        let l = f(&s.items[i]);
        assert(opt_model(l) == give(m));
        if let Some(x) = l {
            out.insert(x);
        }
        proof {
            assert forall|n: L::Model| #[trigger]
                out@.contains(n) <==> exists|j: int| 0 <= j < i + 1 && give((#[trigger] s.items@[j]).model()) == Some(n) by {
                if before.contains(n) {
                    let j = choose|j: int| 0 <= j < i && give((#[trigger] s.items@[j]).model()) == Some(n);
                    assert(0 <= j < i + 1);
                }
                if give(m) == Some(n) {
                    assert(give(s.items@[i as int].model()) == Some(n));
                }
                if exists|j: int| 0 <= j < i + 1 && give((#[trigger] s.items@[j]).model()) == Some(n) {
                    let j = choose|j: int| 0 <= j < i + 1 && give((#[trigger] s.items@[j]).model()) == Some(n);
                    if j < i {
                        assert(before.contains(n));
                    }
                }
            }
        }
        i = i + 1;
    }
    proof {
        s.facts();
        let want = imaged(s@, give);
        assert forall|n: L::Model| out@.contains(n) == want.contains(n) by {
            if out@.contains(n) {
                let j = choose|j: int| 0 <= j < i && give((#[trigger] s.items@[j]).model()) == Some(n);
                assert(s@.contains(s.items@[j].model()));
            }
            if want.contains(n) {
                let m = choose|m: K::Model| #[trigger] s@.contains(m) && give(m) == Some(n);
                let j = choose|j: int| 0 <= j < s.items.len() && (#[trigger] s.items@[j]).model() == m;
                assert(give(s.items@[j].model()) == Some(n));
            }
        }
        assert(out@ =~= want);
    }
    out
}

/// What the set pairs with `a`.
pub open spec fn slice<A, B>(s: Set<(A, B)>, a: A) -> Set<B> {
    Set::new(|b: B| s.contains((a, b)))
}

/// What the set pairs with something.
pub open spec fn firsts<A, B>(s: Set<(A, B)>) -> Set<A> {
    Set::new(|a: A| exists|b: B| s.contains((a, b)))
}

/// What the set pairs with `a`.
pub(crate) fn slice_of<A: Key, B: Key>(s: &SortedSet<(A, B)>, a: &A) -> (r: SortedSet<B>)
    requires
        s.wf(),
    ensures
        r.wf(),
        r@ == slice(s@, a.model()),
{
    let ghost m = a.model();
    let ghost give = |x: (A::Model, B::Model)|
        if x.0 == m {
            Some(x.1)
        } else {
            None
        };
    let pick = |x: &(A, B)| -> (l: Option<B>)
        ensures
            opt_model(l) == give(x.model()),
    {
        if same_key(&x.0, a) {
            Some(x.1.duplicate())
        } else {
            None
        }
    };
    let r = filter_map(s, pick, Ghost(give));
    proof {
        let want = slice(s@, m);
        assert forall|b: B::Model| r@.contains(b) == want.contains(b) by {
            if r@.contains(b) {
                let x = choose|x: (A::Model, B::Model)| #[trigger] s@.contains(x) && give(x) == Some(b);
                assert(x == (m, b));
            }
            if want.contains(b) {
                assert(s@.contains((m, b)) && give((m, b)) == Some(b));
            }
        }
        assert(r@ =~= want);
    }
    r
}

/// What the set pairs with something.
pub(crate) fn firsts_of<A: Key, B: Key>(s: &SortedSet<(A, B)>) -> (r: SortedSet<A>)
    requires
        s.wf(),
    ensures
        r.wf(),
        r@ == firsts(s@),
{
    let ghost give = |x: (A::Model, B::Model)| Some(x.0);
    let pick = |x: &(A, B)| -> (l: Option<A>)
        ensures
            opt_model(l) == give(x.model()),
    {
        Some(x.0.duplicate())
    };
    let r = filter_map(s, pick, Ghost(give));
    proof {
        let want = firsts(s@);
        assert forall|a: A::Model| r@.contains(a) == want.contains(a) by {
            if r@.contains(a) {
                let x = choose|x: (A::Model, B::Model)| #[trigger] s@.contains(x) && give(x) == Some(a);
                assert(s@.contains((a, x.1)));
            }
            if want.contains(a) {
                let b = choose|b: B::Model| s@.contains((a, b));
                assert(give((a, b)) == Some(a));
            }
        }
        assert(r@ =~= want);
    }
    r
}

/// How many things each value is paired with.
pub open spec fn tallies<A, B>(s: Set<(A, B)>) -> Set<(int, A)> {
    imaged(firsts(s), |a: A| Some((slice(s, a).len() as int, a)))
}

/// The value that is paired with most things; where several are, the least of them.
pub open spec fn winner<A: Key, B>(s: Set<(A::Model, B)>) -> Option<A::Model> {
    match least::<(Desc, A)>(tallies(s)) {
        Some((_, a)) => Some(a),
        None => None,
    }
}

/// The value that is paired with most things; where several are, the least of them.
pub(crate) fn most_paired<A: Key, B: Key>(s: &SortedSet<(A, B)>) -> (r: Option<A>)
    requires
        s.wf(),
    ensures
        opt_model(r) == winner::<A, B::Model>(s@),
{
    let keys: SortedSet<A> = firsts_of(s);
    let ghost give = |a: A::Model| Some((slice(s@, a).len() as int, a));
    let count = |a: &A| -> (l: Option<(Desc, A)>)
        ensures
            opt_model(l) == give(a.model()),
    {
        let n: usize = slice_of(s, a).len();
        let k: (Desc, A) = (Desc(n as i128), a.duplicate());
        assert(k.model() == (slice(s@, a.model()).len() as int, a.model()));
        Some(k)
    };
    let ranked: SortedSet<(Desc, A)> = filter_map(&keys, count, Ghost(give));
    assert(ranked@ =~= tallies(s@)) by {
        assert(imaged(firsts(s@), give) =~= tallies(s@));
    }
    match ranked.first() {
        Some(k) => Some(k.1.duplicate()),
        None => None,
    }
}

/// The members of a set that a test lets through.
pub open spec fn passing<M>(s: Set<M>, test: spec_fn(M) -> bool) -> Set<M> {
    Set::new(|m: M| s.contains(m) && test(m))
}

/// The members of a set that a test lets through.
pub(crate) fn filter<K: Key, F: Fn(&K) -> bool>(s: &SortedSet<K>, f: F, Ghost(test): Ghost<spec_fn(K::Model) -> bool>) -> (r: SortedSet<K>)
    requires
        s.wf(),
        forall|k: K| s@.contains(k.model()) ==> f.requires((&k,)),
        forall|k: K, b: bool| s@.contains(k.model()) && f.ensures((&k,), b) ==> b == test(k.model()),
    ensures
        r.wf(),
        r@ == passing(s@, test),
{
    let mut out: SortedSet<K> = SortedSet::new();
    let mut i: usize = 0;
    proof {
        s.facts();
    }
    while i < s.items.len()
        invariant
            i <= s.items.len(),
            s.wf(),
            forall|j: int| 0 <= j < s.items.len() ==> s@.contains((#[trigger] s.items@[j]).model()),
            forall|k: K| s@.contains(k.model()) ==> f.requires((&k,)),
            forall|k: K, b: bool| s@.contains(k.model()) && f.ensures((&k,), b) ==> b == test(k.model()),
            out.wf(),
            forall|m: K::Model| #[trigger]
                out@.contains(m) <==> test(m) && exists|j: int| 0 <= j < i && (#[trigger] s.items@[j]).model() == m,
        decreases s.items.len() - i,
    {
        let ghost before = out@;
        let ghost x = s.items@[i as int].model();
        assert(s@.contains(x));
        let b = f(&s.items[i]);
        assert(b == test(x));
        if b {
            out.insert(s.items[i].duplicate());
        }
        proof {
            assert forall|m: K::Model| #[trigger]
                out@.contains(m) <==> test(m) && exists|j: int| 0 <= j < i + 1 && (#[trigger] s.items@[j]).model() == m by {
                if before.contains(m) {
                    let j = choose|j: int| 0 <= j < i && (#[trigger] s.items@[j]).model() == m;
                    assert(0 <= j < i + 1);
                }
                if m == x {
                    assert(s.items@[i as int].model() == m);
                }
                if exists|j: int| 0 <= j < i + 1 && (#[trigger] s.items@[j]).model() == m {
                    let j = choose|j: int| 0 <= j < i + 1 && (#[trigger] s.items@[j]).model() == m;
                    if j < i && test(m) {
                        assert(before.contains(m));
                    }
                }
            }
        }
        i = i + 1;
    }
    proof {
        s.facts();
        assert(out@ =~= passing(s@, test)) by {
            assert forall|m: K::Model| out@.contains(m) == passing(s@, test).contains(m) by {
                if s@.contains(m) {
                    let j = choose|j: int| 0 <= j < s.items.len() && (#[trigger] s.items@[j]).model() == m;
                }
            }
        }
    }
    out
}

/// `make` makes `t` of some key that stands for `m`.
pub open spec fn made<K: Key, T, F: Fn(&K) -> T>(make: F, m: K::Model, t: T) -> bool {
    exists|k: K| k.model() == m && #[trigger] make.ensures((&k,), t)
}

/// The members of a set in ascending order, each turned into what `make` makes of it.
pub(crate) fn list_of<K: Key, T, F: Fn(&K) -> T>(s: &SortedSet<K>, make: F) -> (r: Vec<T>)
    requires
        s.wf(),
        forall|k: K| s@.contains(k.model()) ==> make.requires((&k,)),
    ensures
        r@.len() == in_order::<K>(s@).len(),
        forall|i: int|
            0 <= i < r@.len() ==> s@.contains(in_order::<K>(s@)[i]) && made(make, in_order::<K>(s@)[i], #[trigger] r@[i]),
{
    let mut out: Vec<T> = Vec::new();
    let mut i: usize = 0;
    proof {
        s.facts();
        s.ordered();
    }
    while i < s.items.len()
        invariant
            i <= s.items.len(),
            s.wf(),
            models(s.items@) == in_order::<K>(s@),
            forall|j: int| 0 <= j < s.items.len() ==> s@.contains((#[trigger] s.items@[j]).model()),
            forall|k: K| s@.contains(k.model()) ==> make.requires((&k,)),
            out@.len() == i,
            forall|j: int|
                0 <= j < out@.len() ==> s@.contains(in_order::<K>(s@)[j]) && made(make, in_order::<K>(s@)[j], #[trigger] out@[j]),
        decreases s.items.len() - i,
    {
        let ghost k = s.items@[i as int];
        assert(s@.contains(k.model()));
        let t = make(&s.items[i]);
        assert(make.ensures((&k,), t));
        assert(models(s.items@)[i as int] == k.model());
        assert(made(make, in_order::<K>(s@)[i as int], t));
        out.push(t);
        i = i + 1;
    }
    out
}

/// The two sets hold the same.
pub(crate) fn same_set<K: Key>(a: &SortedSet<K>, b: &SortedSet<K>) -> (r: bool)
    requires
        a.wf(),
        b.wf(),
    ensures
        r == (a@ == b@),
{
    proof {
        a.ordered();
        b.ordered();
        a.facts();
        b.facts();
    }
    if a.items.len() != b.items.len() {
        return false;
    }
    let mut i: usize = 0;
    while i < a.items.len()
        invariant
            i <= a.items.len(),
            a.items@.len() == b.items@.len(),
            a.wf(),
            b.wf(),
            models(a.items@) == in_order::<K>(a@),
            models(b.items@) == in_order::<K>(b@),
            forall|j: int| 0 <= j < i ==> (#[trigger] a.items@[j]).model() == b.items@[j].model(),
        decreases a.items.len() - i,
    {
        if !same_key(&a.items[i], &b.items[i]) {
            assert(models(a.items@)[i as int] != models(b.items@)[i as int]);
            return false;
        }
        i = i + 1;
    }
    proof {
        a.facts();
        b.facts();
        assert forall|m: K::Model| a@.contains(m) == b@.contains(m) by {
            if a@.contains(m) {
                let j = choose|j: int| 0 <= j < a.items.len() && (#[trigger] a.items@[j]).model() == m;
                assert(b@.contains(b.items@[j].model()));
            }
            if b@.contains(m) {
                let j = choose|j: int| 0 <= j < b.items.len() && (#[trigger] b.items@[j]).model() == m;
                assert(a.items@[j].model() == b.items@[j].model());
                assert(a@.contains(a.items@[j].model()));
            }
        }
        assert(a@ =~= b@);
    }
    true
}

/// The keys of a map.
pub(crate) fn keys_of<K: Key, V>(m: &SortedMap<K, V>) -> (r: SortedSet<K>)
    requires
        m.wf(),
    ensures
        r.wf(),
        r@ == m@.dom(),
{
    let items: Vec<K> = m.keys.duplicate();
    let r = SortedSet { items };
    proof {
        let a = r.items@;
        let b = m.keys@;
        assert(list_model(a) == list_model(b));
        assert(a.len() == b.len());
        assert forall|i: int| 0 <= i < a.len() implies (#[trigger] a[i]).model() == b[i].model() by {
            assert(list_model(a)[i] == list_model(b)[i]);
        }
        assert forall|i: int, j: int| #![trigger a[i], a[j]] 0 <= i < j < a.len() implies K::before(
            a[i].model(),
            a[j].model(),
        ) by {
            assert(K::before(b[i].model(), b[j].model()));
        }
        r.facts();
        m.facts();
        assert forall|x: K::Model| r@.contains(x) == m@.dom().contains(x) by {
            if r@.contains(x) {
                let i = choose|i: int| 0 <= i < a.len() && (#[trigger] a[i]).model() == x;
                assert(m@.contains_key(b[i].model()));
            }
            if m@.contains_key(x) {
                let i = choose|i: int| 0 <= i < b.len() && (#[trigger] b[i]).model() == x;
                assert(r@.contains(a[i].model()));
            }
        }
        assert(r@ =~= m@.dom());
    }
    r
}

/// The two sets have a value in common.
pub(crate) fn meets<K: Key>(a: &SortedSet<K>, b: &SortedSet<K>) -> (r: bool)
    requires
        a.wf(),
        b.wf(),
    ensures
        r == !a@.disjoint(b@),
{
    let mut i: usize = 0;
    proof {
        a.facts();
    }
    while i < a.items.len()
        invariant
            i <= a.items.len(),
            a.wf(),
            b.wf(),
            forall|j: int| 0 <= j < a.items.len() ==> a@.contains((#[trigger] a.items@[j]).model()),
            forall|j: int| 0 <= j < i ==> !b@.contains((#[trigger] a.items@[j]).model()),
        decreases a.items.len() - i,
    {
        if b.contains(&a.items[i]) {
            assert(a@.contains(a.items@[i as int].model()));
            return true;
        }
        i = i + 1;
    }
    proof {
        a.facts();
        assert forall|m: K::Model| !(a@.contains(m) && b@.contains(m)) by {
            if a@.contains(m) {
                let j = choose|j: int| 0 <= j < a.items.len() && (#[trigger] a.items@[j]).model() == m;
                assert(!b@.contains(a.items@[j].model()));
            }
        }
    }
    false
}

} // verus!
