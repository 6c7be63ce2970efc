//! Which names are one name, differently rendered.

use vstd::prelude::*;

use crate::order::{text_before, Key};
use crate::projection::names::{
    class_of, claims_seen, equiv_classes, equivalents, ids_labelled, join_each, labels_keep_nodes, ref_labels, refs, texts_in,
};
use crate::projection::collect::facts;
use crate::projection::events::Calendar;
use crate::projection::people::{chosen, name_claims, name_views, placed};
use crate::projection::portrait::{chosen_are_held, counted, drawn, held, placed_are_held};
use crate::projection::project::project;
use crate::projection::record::{Claim, ClaimModel, Record};
use crate::projection::resolve::{identity, Policy};
use crate::projection::value::Json;
use crate::projection::views::Projection;
use crate::sorted::least_exists;
use crate::tables::slice;

verus! {

/// The value names this reference as equivalent.
pub open spec fn lists(v: Json, r: Seq<char>) -> bool {
    v.get("equivalent_to"@) matches Some(Json::Array(s)) && exists|k: int| 0 <= k < s.len() && #[trigger] s[k] == Json::Text(r)
}

proof fn texts_are_listed(s: Seq<Json>, r: Seq<char>)
    ensures
        texts_in(s).contains(r) <==> exists|k: int| 0 <= k < s.len() && #[trigger] s[k] == Json::Text(r),
    decreases s.len(),
{
    if s.len() > 0 {
        let t = s.drop_last();
        let n = s.len() - 1;
        texts_are_listed(t, r);
        let before = texts_in(t);
        let now = texts_in(s);
        if now.contains(r) {
            let i = choose|i: int| 0 <= i < now.len() && now[i] == r;
            if i < before.len() {
                assert(before[i] == r);
                let k = choose|k: int| 0 <= k < t.len() && #[trigger] t[k] == Json::Text(r);
                assert(s[k] == Json::Text(r));
            } else {
                assert(s[n] == Json::Text(r));
            }
        }
        if exists|k: int| 0 <= k < s.len() && #[trigger] s[k] == Json::Text(r) {
            let k = choose|k: int| 0 <= k < s.len() && #[trigger] s[k] == Json::Text(r);
            if k < n {
                assert(t[k] == Json::Text(r));
                let i = choose|i: int| 0 <= i < before.len() && before[i] == r;
                assert(now[i] == r);
            } else {
                assert(now[before.len() as int] == r);
            }
        }
    }
}

/// The labels put the two together.
spec fn together(label: Map<Seq<char>, Seq<char>>, x: Seq<char>, y: Seq<char>) -> bool {
    label.contains_key(x) && label.contains_key(y) && label[x] == label[y]
}

/// Whatever is put together is in the set together.
spec fn inside(label: Map<Seq<char>, Seq<char>>, s: Set<Seq<char>>) -> bool {
    forall|x: Seq<char>, y: Seq<char>| #[trigger] together(label, x, y) ==> (s.contains(x) <==> s.contains(y))
}

proof fn joining_joins(label: Map<Seq<char>, Seq<char>>, own: Seq<char>, others: Seq<Seq<char>>)
    requires
        label.contains_key(own),
    ensures
        ({
            let now = join_each(label, own, others);
            &&& now.dom() == label.dom()
            &&& forall|x: Seq<char>, y: Seq<char>| #[trigger] together(label, x, y) ==> together(now, x, y)
            &&& forall|k: int| 0 <= k < others.len() && label.contains_key(#[trigger] others[k]) ==> together(now, own, others[k])
        }),
    decreases others.len(),
{
    let now = join_each(label, own, others);
    if others.len() > 0 {
        let o0 = others.drop_last();
        let before = join_each(label, own, o0);
        let e = others.last();
        joining_joins(label, own, o0);
        assert(now.dom() =~= label.dom());
        assert forall|x: Seq<char>, y: Seq<char>| #[trigger] together(before, x, y) implies together(now, x, y) by {}
        assert forall|k: int| 0 <= k < others.len() && label.contains_key(#[trigger] others[k]) implies together(now, own, others[k]) by {
            if k < o0.len() {
                assert(o0[k] == others[k]);
                assert(together(before, own, others[k]));
            } else {
                <String as Key>::before_total(before[own], before[e]);
            }
        }
    } else {
        assert(now =~= label);
    }
}

proof fn joining_stays_inside(label: Map<Seq<char>, Seq<char>>, own: Seq<char>, others: Seq<Seq<char>>, s: Set<Seq<char>>)
    requires
        label.contains_key(own),
        inside(label, s),
        forall|k: int| 0 <= k < others.len() && label.contains_key(#[trigger] others[k]) ==> (s.contains(own) <==> s.contains(others[k])),
    ensures
        inside(join_each(label, own, others), s),
    decreases others.len(),
{
    if others.len() > 0 {
        let o0 = others.drop_last();
        assert forall|k: int| 0 <= k < o0.len() && label.contains_key(#[trigger] o0[k]) implies (s.contains(own) <==> s.contains(o0[k])) by {
            assert(o0[k] == others[k]);
        }
        joining_stays_inside(label, own, o0, s);
        joining_joins(label, own, o0);
        let before = join_each(label, own, o0);
        let now = join_each(label, own, others);
        let e = others.last();
        assert(others[others.len() - 1] == e);
        assert forall|x: Seq<char>, y: Seq<char>| #[trigger] together(now, x, y) implies (s.contains(x) <==> s.contains(y)) by {
            if !together(before, x, y) {
                assert(label.contains_key(e));
                if before[x] == before[own] {
                    assert(together(before, x, own));
                    assert(together(before, e, y));
                } else {
                    assert(together(before, x, e));
                    assert(together(before, own, y));
                }
            }
        }
    }
}

/// The set holds both or neither of a name's reference and any that the name lists and that is a name's.
pub open spec fn closed(ns: Seq<ClaimModel>, s: Set<Seq<char>>) -> bool {
    forall|i: int, j: int| #![trigger ns[i], ns[j]]
        0 <= i < ns.len() && 0 <= j < ns.len() && ns[i].name_ref is Some && ns[j].name_ref is Some && lists(
            ns[i].value,
            ns[j].name_ref->0,
        ) ==> (s.contains(ns[i].name_ref->0) <==> s.contains(ns[j].name_ref->0))
}

proof fn labels_join(nodes: Set<Seq<char>>, ns: Seq<ClaimModel>)
    requires
        forall|i: int| 0 <= i < ns.len() && (#[trigger] ns[i]).name_ref is Some ==> nodes.contains(ns[i].name_ref->0),
    ensures
        ref_labels(nodes, ns).dom() == nodes,
        forall|i: int, y: Seq<char>|
            0 <= i < ns.len() && (#[trigger] ns[i]).name_ref is Some && #[trigger] lists(ns[i].value, y) && nodes.contains(y)
                ==> together(ref_labels(nodes, ns), ns[i].name_ref->0, y),
    decreases ns.len(),
{
    labels_keep_nodes(nodes, ns);
    if ns.len() > 0 {
        let t = ns.drop_last();
        let n = ns.len() - 1;
        assert forall|i: int| 0 <= i < t.len() && (#[trigger] t[i]).name_ref is Some implies nodes.contains(t[i].name_ref->0) by {
            assert(t[i] == ns[i]);
        }
        labels_join(nodes, t);
        let before = ref_labels(nodes, t);
        let now = ref_labels(nodes, ns);
        let last = ns[n];
        if last.name_ref is Some {
            let own = last.name_ref->0;
            assert(nodes.contains(own));
            joining_joins(before, own, equivalents(last.value));
        }
        assert forall|i: int, y: Seq<char>|
            0 <= i < ns.len() && (#[trigger] ns[i]).name_ref is Some && #[trigger] lists(ns[i].value, y) && nodes.contains(y) implies together(
            now,
            ns[i].name_ref->0,
            y,
        ) by {
            if i < n {
                assert(t[i] == ns[i]);
                assert(together(before, ns[i].name_ref->0, y));
            } else {
                let s = last.value.get("equivalent_to"@)->0->Array_0;
                texts_are_listed(s, y);
                let es = equivalents(last.value);
                let k = choose|k: int| 0 <= k < es.len() && es[k] == y;
                assert(before.contains_key(es[k]));
            }
        }
    }
}

proof fn labels_stay_inside(nodes: Set<Seq<char>>, ns: Seq<ClaimModel>, all: Seq<ClaimModel>, s: Set<Seq<char>>)
    requires
        nodes == refs(all),
        closed(all, s),
        ns.len() <= all.len(),
        ns == all.take(ns.len() as int),
    ensures
        inside(ref_labels(nodes, ns), s),
    decreases ns.len(),
{
    labels_keep_nodes(nodes, ns);
    if ns.len() > 0 {
        let t = ns.drop_last();
        let n = ns.len() - 1;
        assert(t =~= all.take(n));
        labels_stay_inside(nodes, t, all, s);
        labels_keep_nodes(nodes, t);
        let last = ns[n];
        assert(all[n] == last);
        if last.name_ref is Some {
            let own = last.name_ref->0;
            let before = ref_labels(nodes, t);
            assert(nodes.contains(own)) by {
                assert(all[n].name_ref == Some(own));
            }
            let es = equivalents(last.value);
            assert forall|k: int| 0 <= k < es.len() && before.contains_key(#[trigger] es[k]) implies (s.contains(own) <==> s.contains(es[k])) by {
                let y = es[k];
                assert(es.contains(y));
                let arr = last.value.get("equivalent_to"@)->0->Array_0;
                texts_are_listed(arr, y);
                assert(lists(last.value, y));
                assert(nodes.contains(y));
                let j = choose|j: int| 0 <= j < all.len() && (#[trigger] all[j]).name_ref == Some(y);
                assert(all[n].name_ref == Some(own) && all[j].name_ref == Some(y));
                assert(lists(all[n].value, all[j].name_ref->0));
            }
            joining_stays_inside(before, own, es, s);
        }
    }
}

proof fn a_class_is_its_least(ns: Seq<ClaimModel>, i: int)
    requires
        0 <= i < ns.len(),
        ns[i].name_ref is Some,
    ensures
        ({
            let label = ref_labels(refs(ns), ns);
            let l = label[ns[i].name_ref->0];
            &&& ids_labelled(label, ns, l).contains(class_of(ns, i))
            &&& forall|id: Seq<char>| #[trigger]
                ids_labelled(label, ns, l).contains(id) ==> id == class_of(ns, i) || text_before(class_of(ns, i), id)
            &&& ids_labelled(label, ns, l).contains(ns[i].id)
        }),
{
    let label = ref_labels(refs(ns), ns);
    let l = label[ns[i].name_ref->0];
    let ids = ids_labelled(label, ns, l);
    let all = ns.map_values(|c: ClaimModel| c.id);
    vstd::seq_lib::seq_to_set_is_finite(all);
    assert(ids.subset_of(all.to_set())) by {
        assert forall|id: Seq<char>| ids.contains(id) implies all.to_set().contains(id) by {
            let k = choose|k: int|
                0 <= k < ns.len() && (#[trigger] ns[k]).id == id && ns[k].name_ref is Some && label[ns[k].name_ref->0] == l;
            assert(all[k] == id);
        }
    }
    vstd::set_lib::lemma_set_subset_finite(all.to_set(), ids);
    least_exists::<String>(ids);
    assert(ids.contains(ns[i].id)) by {
        assert(ns[i].id == ns[i].id && label[ns[i].name_ref->0] == l);
    }
}

proof fn refs_are_nodes(ns: Seq<ClaimModel>)
    ensures
        forall|i: int| 0 <= i < ns.len() && (#[trigger] ns[i]).name_ref is Some ==> refs(ns).contains(ns[i].name_ref->0),
{
    assert forall|i: int| 0 <= i < ns.len() && (#[trigger] ns[i]).name_ref is Some implies refs(ns).contains(ns[i].name_ref->0) by {
        assert(ns[i].name_ref == Some(ns[i].name_ref->0));
    }
}

proof fn one_label_one_class(ns: Seq<ClaimModel>, i: int, j: int)
    requires
        0 <= i < ns.len(),
        0 <= j < ns.len(),
        ns[i].name_ref is Some,
        ns[j].name_ref is Some,
        ref_labels(refs(ns), ns)[ns[i].name_ref->0] == ref_labels(refs(ns), ns)[ns[j].name_ref->0],
    ensures
        class_of(ns, i) == class_of(ns, j),
{
    a_class_is_its_least(ns, i);
    a_class_is_its_least(ns, j);
    let (a, b) = (class_of(ns, i), class_of(ns, j));
    if a != b {
        <String as Key>::before_transitive(a, b, a);
        <String as Key>::before_irreflexive(a);
    }
}

/// A name without a reference is a class of its own; and a class goes by the least id among its names, which is the name's
/// own or comes before it.
pub proof fn what_a_class_goes_by(names: Vec<&Claim>, r: Vec<String>, i: int)
    requires
        call_ensures(equiv_classes, (&names,), r),
        0 <= i < names@.len(),
    ensures
        r@.len() == names@.len(),
        names@[i]@.name_ref is None ==> r@[i]@ == names@[i]@.id,
        names@[i]@.name_ref is Some ==> (r@[i]@ == names@[i]@.id || text_before(r@[i]@, names@[i]@.id)) && exists|j: int|
            0 <= j < names@.len() && (#[trigger] names@[j])@.id == r@[i]@ && names@[j]@.name_ref is Some,
{
    let ns = claims_seen(names@);
    assert(ns[i] == names@[i]@);
    assert(r@[i]@ == class_of(ns, i));
    if ns[i].name_ref is Some {
        a_class_is_its_least(ns, i);
        let label = ref_labels(refs(ns), ns);
        let j = choose|j: int|
            0 <= j < ns.len() && (#[trigger] ns[j]).id == class_of(ns, i) && ns[j].name_ref is Some && label[ns[j].name_ref->0]
                == label[ns[i].name_ref->0];
        assert(names@[j]@ == ns[j]);
    }
}

/// Names with one reference are one name, and so are a name and any that it lists as equivalent.
pub proof fn which_names_are_one(names: Vec<&Claim>, r: Vec<String>, i: int, j: int, x: Seq<char>, y: Seq<char>)
    requires
        call_ensures(equiv_classes, (&names,), r),
        0 <= i < names@.len(),
        0 <= j < names@.len(),
        names@[i]@.name_ref == Some(x),
        names@[j]@.name_ref == Some(y),
        x == y || lists(names@[i]@.value, y),
    ensures
        r@[i]@ == r@[j]@,
{
    let ns = claims_seen(names@);
    assert(ns[i] == names@[i]@ && ns[j] == names@[j]@);
    assert(r@[i]@ == class_of(ns, i) && r@[j]@ == class_of(ns, j));
    refs_are_nodes(ns);
    labels_join(refs(ns), ns);
    if x != y {
        assert(refs(ns).contains(y));
        assert(together(ref_labels(refs(ns), ns), ns[i].name_ref->0, y));
    }
    one_label_one_class(ns, i, j);
}

/// No names are one but such as are by their references, or by what they list, directly or through others: a set of
/// references that holds both or neither of any two of which one lists the other, holds both or neither of any two names'
/// of one class.
pub proof fn no_other_names_are_one(names: Vec<&Claim>, r: Vec<String>, s: Set<Seq<char>>, i: int, j: int, x: Seq<char>, y: Seq<char>)
    requires
        call_ensures(equiv_classes, (&names,), r),
        distinct(claims_seen(names@)),
        closed(claims_seen(names@), s),
        0 <= i < names@.len(),
        0 <= j < names@.len(),
        names@[i]@.name_ref == Some(x),
        names@[j]@.name_ref == Some(y),
        r@[i]@ == r@[j]@,
    ensures
        s.contains(x) <==> s.contains(y),
{
    let ns = claims_seen(names@);
    assert(ns[i] == names@[i]@ && ns[j] == names@[j]@);
    assert(r@[i]@ == class_of(ns, i) && r@[j]@ == class_of(ns, j));
    let label = ref_labels(refs(ns), ns);
    refs_are_nodes(ns);
    labels_keep_nodes(refs(ns), ns);
    assert(ns.take(ns.len() as int) =~= ns);
    labels_stay_inside(refs(ns), ns, ns, s);
    a_class_is_its_least(ns, i);
    a_class_is_its_least(ns, j);
    let p = choose|k: int|
        0 <= k < ns.len() && (#[trigger] ns[k]).id == class_of(ns, i) && ns[k].name_ref is Some && label[ns[k].name_ref->0] == label[x];
    let q = choose|k: int|
        0 <= k < ns.len() && (#[trigger] ns[k]).id == class_of(ns, j) && ns[k].name_ref is Some && label[ns[k].name_ref->0] == label[y];
    if p < q {
        assert(ns[p].id != ns[q].id);
    }
    if q < p {
        assert(ns[q].id != ns[p].id);
    }
    assert(together(label, x, y));
}

/// No two claims have one id.
pub open spec fn distinct(ns: Seq<ClaimModel>) -> bool {
    forall|i: int, j: int| #![trigger ns[i], ns[j]] 0 <= i < j < ns.len() ==> ns[i].id != ns[j].id
}

proof fn names_shown(records: Vec<Record>, policy: Policy, calendar: Calendar, r: Projection, i: int) -> (ns: Seq<ClaimModel>)
    requires
        call_ensures(project, (&records, &policy, &calendar), r),
        0 <= i < r@.people.len(),
    ensures
        r@.people[i].names == name_views(ns),
        distinct(ns),
        forall|k: int| 0 <= k < ns.len() ==> held(counted(records), policy, #[trigger] ns[k], r@.people[i].id),
{
    let d = counted(records);
    let id = drawn(records, policy, calendar, r, i);
    let f = facts(d);
    let test = |c: ClaimModel| c.predicate == "openom.org/core/name/v1"@;
    let ids = slice(placed(f, identity(f, policy)), id);
    chosen_are_held(d, policy, id, test);
    let q = chosen(f, ids, test);
    let ns = name_claims(f, ids);
    assert(ns =~= q.map_values(|id: Seq<char>| f.claims[id]));
    assert forall|x: int, y: int| #![trigger ns[x], ns[y]] 0 <= x < y < ns.len() implies ns[x].id != ns[y].id by {
        assert(text_before(q[x], q[y]));
        <String as Key>::before_irreflexive(q[x]);
        assert(ns[x] == f.claims[q[x]] && ns[y] == f.claims[q[y]]);
    }
    assert forall|k: int| 0 <= k < ns.len() implies held(d, policy, #[trigger] ns[k], id) by {
        assert(ns[k] == f.claims[q[k]]);
    }
    ns
}

/// The person shows this claim as their `k`-th name.
pub open spec fn shown_name(records: Vec<Record>, policy: Policy, r: Projection, i: int, k: int, c: ClaimModel) -> bool {
    0 <= i < r@.people.len() && 0 <= k < r@.people[i].names.len() && r@.people[i].names[k].claim_id == c.id && held(
        counted(records),
        policy,
        c,
        r@.people[i].id,
    )
}

proof fn shown_name_is(
    records: Vec<Record>,
    policy: Policy,
    calendar: Calendar,
    r: Projection,
    i: int,
    k: int,
    c: ClaimModel,
    ns: Seq<ClaimModel>,
)
    requires
        call_ensures(project, (&records, &policy, &calendar), r),
        shown_name(records, policy, r, i, k, c),
        r@.people[i].names == name_views(ns),
        forall|k: int| 0 <= k < ns.len() ==> held(counted(records), policy, #[trigger] ns[k], r@.people[i].id),
    ensures
        0 <= k < ns.len(),
        ns[k] == c,
        r@.people[i].names[k].equiv_class == class_of(ns, k),
{
    let d = counted(records);
    let id = drawn(records, policy, calendar, r, i);
    assert(r@.people[i].names[k].claim_id == ns[k].id);
    placed_are_held(d, policy, id);
    assert(held(d, policy, ns[k], id));
    assert(facts(d).claims[c.id] == c && facts(d).claims[ns[k].id] == ns[k]);
}

/// The class that a person's name shows goes by the least id among the names of the class, the name's own where the name
/// has no reference; and two of their names show one class where they have one reference, or the one lists the other.
pub proof fn how_names_are_classed(
    records: Vec<Record>,
    policy: Policy,
    calendar: Calendar,
    r: Projection,
    i: int,
    k: int,
    c: ClaimModel,
    l: int,
    o: ClaimModel,
)
    requires
        call_ensures(project, (&records, &policy, &calendar), r),
        shown_name(records, policy, r, i, k, c),
        shown_name(records, policy, r, i, l, o),
    ensures
        c.name_ref is None ==> r@.people[i].names[k].equiv_class == c.id,
        r@.people[i].names[k].equiv_class == c.id || text_before(r@.people[i].names[k].equiv_class, c.id),
        c.name_ref is Some && o.name_ref is Some && (c.name_ref == o.name_ref || lists(c.value, o.name_ref->0))
            ==> r@.people[i].names[k].equiv_class == r@.people[i].names[l].equiv_class,
{
    let ns = names_shown(records, policy, calendar, r, i);
    shown_name_is(records, policy, calendar, r, i, k, c, ns);
    shown_name_is(records, policy, calendar, r, i, l, o, ns);
    if c.name_ref is Some {
        a_class_is_its_least(ns, k);
        if o.name_ref is Some && (c.name_ref == o.name_ref || lists(c.value, o.name_ref->0)) {
            refs_are_nodes(ns);
            labels_join(refs(ns), ns);
            if c.name_ref != o.name_ref {
                assert(refs(ns).contains(ns[l].name_ref->0));
                assert(together(ref_labels(refs(ns), ns), ns[k].name_ref->0, o.name_ref->0));
            }
            one_label_one_class(ns, k, l);
        }
    }
}

} // verus!
