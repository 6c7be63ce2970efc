//! Stable sorting by a key.

use vstd::prelude::*;

use crate::order::Key;

verus! {

/// A value with a key that it is sorted by.
pub trait Keyed: Sized {
    type By: Key;

    spec fn sort_key(&self) -> <Self::By as Key>::Model;

    /// Whether this value's key comes before the other's.
    fn goes_before(&self, other: &Self) -> (r: bool)
        ensures
            r == <Self::By as Key>::before(self.sort_key(), other.sort_key()),
    ;
}

pub open spec fn key_before<T: Keyed>(a: T, b: T) -> bool {
    <T::By as Key>::before(a.sort_key(), b.sort_key())
}

/// No key comes before an earlier one's.
pub open spec fn ascending<T: Keyed>(s: Seq<T>) -> bool {
    forall|i: int, j: int| #![trigger s[i], s[j]] 0 <= i < j < s.len() ==> !key_before(s[j], s[i])
}

/// The values with the key `k`, in their order.
pub open spec fn with_key<T: Keyed>(s: Seq<T>, k: <T::By as Key>::Model) -> Seq<T> {
    s.filter(|x: T| x.sort_key() == k)
}

/// `r` holds the values of `s` in ascending order of their keys; values with one key keep their order.
pub open spec fn stable_sorting<T: Keyed>(s: Seq<T>, r: Seq<T>) -> bool {
    &&& ascending(r)
    &&& r.to_multiset() == s.to_multiset()
    &&& forall|k: <T::By as Key>::Model| #[trigger] with_key(r, k) == with_key(s, k)
}

proof fn filter_of_insert<T>(s: Seq<T>, at: int, x: T, p: spec_fn(T) -> bool)
    requires
        0 <= at <= s.len(),
        p(x) ==> forall|j: int| at <= j < s.len() ==> !p(#[trigger] s[j]),
    ensures
        s.insert(at, x).filter(p) == s.push(x).filter(p),
{
    let a = s.take(at);
    let b = s.skip(at);
    let one = seq![x];
    assert(s =~= a + b);
    assert(s.insert(at, x) =~= a + one + b);
    assert(s.push(x) =~= a + b + one);
    Seq::filter_distributes_over_add(a + one, b, p);
    Seq::filter_distributes_over_add(a, one, p);
    Seq::filter_distributes_over_add(a + b, one, p);
    Seq::filter_distributes_over_add(a, b, p);
    if p(x) {
        assert forall|j: int| 0 <= j < b.len() implies !p(b[j]) by {
            assert(b[j] == s[at + j]);
        }
        b.lemma_all_neg_filter_empty(p);
        assert(b.filter(p) =~= Seq::<T>::empty());
        assert(a.filter(p) + one.filter(p) + b.filter(p) =~= a.filter(p) + b.filter(p) + one.filter(p));
    } else {
        assert(one.filter(p) =~= Seq::<T>::empty()) by {
            one.lemma_all_neg_filter_empty(p);
        }
        assert(a.filter(p) + one.filter(p) + b.filter(p) =~= a.filter(p) + b.filter(p) + one.filter(p));
    }
}

proof fn insertion_step<T: Keyed>(done: Seq<T>, sorted: Seq<T>, at: int, x: T)
    requires
        stable_sorting(done, sorted),
        0 <= at <= sorted.len(),
        forall|j: int| 0 <= j < at ==> !key_before(x, #[trigger] sorted[j]),
        forall|j: int| at <= j < sorted.len() ==> key_before(x, #[trigger] sorted[j]),
    ensures
        stable_sorting(done.push(x), sorted.insert(at, x)),
{
    let r = sorted.insert(at, x);
    assert forall|i: int, j: int| #![trigger r[i], r[j]] 0 <= i < j < r.len() implies !key_before(r[j], r[i]) by {
        let oi = if i < at { i } else { i - 1 };
        let oj = if j < at { j } else { j - 1 };
        if i == at {
            assert(r[j] == sorted[oj]);
            if key_before(sorted[oj], x) {
                <T::By as Key>::before_transitive(x.sort_key(), sorted[oj].sort_key(), x.sort_key());
                <T::By as Key>::before_irreflexive(x.sort_key());
            }
        } else if j == at {
            assert(r[i] == sorted[oi]);
        } else {
            assert(r[i] == sorted[oi]);
            assert(r[j] == sorted[oj]);
        }
    }
    vstd::seq_lib::to_multiset_insert(sorted, at, x);
    vstd::seq_lib::to_multiset_build(done, x);
    assert forall|k: <T::By as Key>::Model| #[trigger] with_key(r, k) == with_key(done.push(x), k) by {
        let p = |y: T| y.sort_key() == k;
        assert(with_key(sorted, k) == with_key(done, k));
        if p(x) {
            assert forall|j: int| at <= j < sorted.len() implies !p(#[trigger] sorted[j]) by {
                <T::By as Key>::before_irreflexive(x.sort_key());
            }
        }
        filter_of_insert(sorted, at, x, p);
        sorted.lemma_filter_push(x, p);
        done.lemma_filter_push(x, p);
    }
}

/// The values of `v`, stably sorted by their keys.
pub fn stable_sort<T: Keyed>(v: Vec<T>) -> (r: Vec<T>)
    ensures
        stable_sorting(v@, r@),
        r@ == sorted_of(v@),
{
    let mut rest: Vec<T> = v;
    let mut out: Vec<T> = Vec::new();
    let mut flipped: Vec<T> = Vec::new();
    let ghost all = v@;
    while rest.len() > 0
        invariant
            rest.len() + flipped.len() == all.len(),
            rest@ == all.take(rest.len() as int),
            forall|i: int| 0 <= i < flipped.len() ==> #[trigger] flipped@[i] == all[all.len() - 1 - i],
        decreases rest.len(),
    {
        match rest.pop() {
            Some(x) => flipped.push(x),
            None => {},
        }
    }
    let ghost mut done: int = 0;
    proof {
        assert(all.take(0) =~= Seq::<T>::empty());
        assert(out@ =~= Seq::<T>::empty());
        assert forall|k: <T::By as Key>::Model| #[trigger] with_key(out@, k) == with_key(all.take(0), k) by {}
    }
    while flipped.len() > 0
        invariant
            done + flipped.len() == all.len(),
            out.len() == done,
            forall|i: int| 0 <= i < flipped.len() ==> #[trigger] flipped@[i] == all[all.len() - 1 - i],
            stable_sorting(all.take(done), out@),
        decreases flipped.len(),
    {
        match flipped.pop() {
            Some(x) => {
                let mut at: usize = out.len();
                while at > 0 && x.goes_before(&out[at - 1])
                    invariant
                        at <= out.len(),
                        ascending(out@),
                        forall|j: int| at <= j < out.len() ==> key_before(x, #[trigger] out@[j]),
                    decreases at,
                {
                    at = at - 1;
                }
                proof {
                    assert forall|j: int| 0 <= j < at implies !key_before(x, #[trigger] out@[j]) by {
                        if j < at - 1 && key_before(x, out@[j]) {
                            <T::By as Key>::before_total(out@[j].sort_key(), out@[at - 1].sort_key());
                            if key_before(out@[j], out@[at - 1]) {
                                <T::By as Key>::before_transitive(x.sort_key(), out@[j].sort_key(), out@[at - 1].sort_key());
                            }
                        }
                    }
                    insertion_step(all.take(done), out@, at as int, x);
                    assert(all.take(done + 1) =~= all.take(done).push(x));
                    done = done + 1;
                }
                out.insert(at, x);
            },
            None => {},
        }
    }
    assert(all.take(done) =~= all);
    proof {
        sorted_of_is(all, out@);
    }
    out
}

/// Two stable sortings of sequences that agree key by key are the same sequence.
pub proof fn sorting_is_unique<T: Keyed>(a: Seq<T>, b: Seq<T>)
    requires
        ascending(a),
        ascending(b),
        forall|k: <T::By as Key>::Model| #[trigger] with_key(a, k) == with_key(b, k),
    ensures
        a == b,
    decreases a.len(),
{
    if a.len() == 0 {
        if b.len() > 0 {
            let k = b[0].sort_key();
            let p = |y: T| y.sort_key() == k;
            b.lemma_filter_contains(p, 0);
            assert(with_key(a, k) == with_key(b, k));
            a.lemma_filter_len(p);
        }
        assert(a =~= b);
    } else {
        let x = a.last();
        let k = x.sort_key();
        let p = |y: T| y.sort_key() == k;
        reveal(Seq::filter);
        assert(with_key(a, k) == a.drop_last().filter(p).push(x));
        assert(with_key(b, k) == with_key(a, k));
        assert(b.len() > 0);
        let y = b.last();
        let ky = y.sort_key();
        let q = |z: T| z.sort_key() == ky;
        if k != ky {
            // The greater of the two last keys occurs in both sequences, so it is last in both.
            <T::By as Key>::before_total(k, ky);
            if key_before(x, y) {
                assert(with_key(b, ky) == with_key(a, ky));
                b.lemma_filter_contains(q, b.len() - 1);
                a.lemma_filter_contains_rev(q, y);
                let i = choose|i: int| 0 <= i < a.len() && a[i] == y;
                if i < a.len() - 1 {
                    assert(!key_before(a[a.len() - 1], a[i]));
                } else {
                    <T::By as Key>::before_irreflexive(k);
                }
            } else {
                a.lemma_filter_contains(p, a.len() - 1);
                b.lemma_filter_contains_rev(p, x);
                let i = choose|i: int| 0 <= i < b.len() && b[i] == x;
                if i < b.len() - 1 {
                    assert(!key_before(b[b.len() - 1], b[i]));
                } else {
                    <T::By as Key>::before_irreflexive(k);
                }
            }
        }
        assert(with_key(b, k) == b.drop_last().filter(p).push(y));
        assert(with_key(a, k).last() == x && with_key(b, k).last() == y);
        assert forall|m: <T::By as Key>::Model| #[trigger] with_key(a.drop_last(), m) == with_key(b.drop_last(), m) by {
            let r = |z: T| z.sort_key() == m;
            assert(with_key(a, m) == with_key(b, m));
            if m == k {
                assert(with_key(a, m).drop_last() =~= a.drop_last().filter(r));
                assert(with_key(b, m).drop_last() =~= b.drop_last().filter(r));
            } else {
                assert(with_key(a, m) == a.drop_last().filter(r));
                assert(with_key(b, m) == b.drop_last().filter(r));
            }
        }
        sorting_is_unique(a.drop_last(), b.drop_last());
        assert(a =~= a.drop_last().push(x));
        assert(b =~= b.drop_last().push(y));
    }
}

/// A sorting holds the values that it was made from.
pub proof fn sorting_keeps_values<T: Keyed>(s: Seq<T>, r: Seq<T>)
    requires
        stable_sorting(s, r),
    ensures
        r.len() == s.len(),
        forall|x: T| #![trigger r.contains(x)] #![trigger s.contains(x)] r.contains(x) <==> s.contains(x),
{
    broadcast use vstd::seq_lib::group_to_multiset_ensures;

    assert forall|x: T| #![trigger r.contains(x)] #![trigger s.contains(x)] r.contains(x) <==> s.contains(x) by {
        assert(r.to_multiset().count(x) == s.to_multiset().count(x));
    }
    assert(r.to_multiset().len() == s.to_multiset().len());
}

/// No two values share a key.
pub open spec fn distinct_keys<T: Keyed>(s: Seq<T>) -> bool {
    forall|i: int, j: int| #![trigger s[i], s[j]] 0 <= i < j < s.len() ==> s[i].sort_key() != s[j].sort_key()
}

/// Where no two values share a key, a sorting ascends strictly.
pub proof fn distinct_sorting_is_strict<T: Keyed>(s: Seq<T>, r: Seq<T>)
    requires
        stable_sorting(s, r),
        distinct_keys(s),
    ensures
        forall|i: int, j: int| #![trigger r[i], r[j]] 0 <= i < j < r.len() ==> key_before(r[i], r[j]),
{
    sorting_keeps_values(s, r);
    assert(s.no_duplicates()) by {
        assert forall|i: int, j: int| 0 <= i < s.len() && 0 <= j < s.len() && i != j implies s[i] != s[j] by {
            if i < j {
                assert(s[i].sort_key() != s[j].sort_key());
            } else {
                assert(s[j].sort_key() != s[i].sort_key());
            }
        }
    }
    s.lemma_multiset_has_no_duplicates();
    r.lemma_multiset_has_no_duplicates_conv();
    assert forall|i: int, j: int| #![trigger r[i], r[j]] 0 <= i < j < r.len() implies key_before(r[i], r[j]) by {
        assert(!key_before(r[j], r[i]));
        <T::By as Key>::before_total(r[i].sort_key(), r[j].sort_key());
        if r[i].sort_key() == r[j].sort_key() {
            assert(r.contains(r[i]) && r.contains(r[j]));
            let a = choose|a: int| 0 <= a < s.len() && s[a] == r[i];
            let b = choose|b: int| 0 <= b < s.len() && s[b] == r[j];
            if a < b {
                assert(s[a].sort_key() != s[b].sort_key());
            } else if b < a {
                assert(s[b].sort_key() != s[a].sort_key());
            }
            assert(r[i] == r[j]);
        }
    }
}

/// The values of `s`, stably sorted by their keys.
pub open spec fn sorted_of<T: Keyed>(s: Seq<T>) -> Seq<T> {
    choose|r: Seq<T>| stable_sorting(s, r)
}

/// There is only one stable sorting of a sequence.
pub proof fn sorted_of_is<T: Keyed>(s: Seq<T>, r: Seq<T>)
    requires
        stable_sorting(s, r),
    ensures
        sorted_of(s) == r,
{
    let c = sorted_of(s);
    assert(stable_sorting(s, c));
    assert forall|k: <T::By as Key>::Model| #[trigger] with_key(c, k) == with_key(r, k) by {
        assert(with_key(c, k) == with_key(s, k));
        assert(with_key(r, k) == with_key(s, k));
    }
    sorting_is_unique(c, r);
}

/// Every sequence has a stable sorting.
pub proof fn sorting_exists<T: Keyed>(s: Seq<T>)
    ensures
        stable_sorting(s, sorted_of(s)),
    decreases s.len(),
{
    if s.len() == 0 {
        assert forall|k: <T::By as Key>::Model| #[trigger] with_key(s, k) == with_key(s, k) by {}
        assert(stable_sorting(s, s));
    } else {
        let done = s.drop_last();
        let x = s.last();
        sorting_exists(done);
        let r = sorted_of(done);
        let at = first_after(r, x, 0);
        first_after_facts(r, x, 0);
        insertion_step(done, r, at, x);
        assert(done.push(x) =~= s);
        assert(stable_sorting(s, r.insert(at, x)));
    }
}

/// The first index from `i` on whose key comes after `x`'s.
spec fn first_after<T: Keyed>(r: Seq<T>, x: T, i: int) -> int
    decreases r.len() - i,
{
    if i >= r.len() || key_before(x, r[i]) {
        i
    } else {
        first_after(r, x, i + 1)
    }
}

proof fn first_after_facts<T: Keyed>(r: Seq<T>, x: T, i: int)
    requires
        ascending(r),
        0 <= i <= r.len(),
        forall|j: int| 0 <= j < i ==> !key_before(x, #[trigger] r[j]),
    ensures
        i <= first_after(r, x, i) <= r.len(),
        forall|j: int| 0 <= j < first_after(r, x, i) ==> !key_before(x, #[trigger] r[j]),
        forall|j: int| first_after(r, x, i) <= j < r.len() ==> key_before(x, #[trigger] r[j]),
    decreases r.len() - i,
{
    if i < r.len() {
        if key_before(x, r[i]) {
            assert forall|j: int| i <= j < r.len() implies key_before(x, #[trigger] r[j]) by {
                if j > i {
                    assert(!key_before(r[j], r[i]));
                    <T::By as Key>::before_total(r[i].sort_key(), r[j].sort_key());
                    if key_before(r[i], r[j]) {
                        <T::By as Key>::before_transitive(x.sort_key(), r[i].sort_key(), r[j].sort_key());
                    }
                }
            }
        } else {
            first_after_facts(r, x, i + 1);
        }
    }
}

} // verus!
