//! What holds of every read model.

use vstd::prelude::*;

use crate::order::{text_before, Desc, Key};
use crate::projection::collect::{
    claims_by_id, facts, first_of_each, firsts_are_distinct, distinct_ids, gathered, has_record, Facts, TieModel,
};
use crate::projection::events::{covers, event, event_year, events, name_in, settled, years_of, YearBounds};
use crate::projection::people::{belongs, name_claims, other_anchors, people_ids, person, placed};
use crate::projection::project::{dated, dates_in, projected, ranged};
use crate::projection::record::{ClaimModel, RecordModel, Two, P_DATE, P_EVENT_PLACE, P_NAME};
use crate::projection::resolve::{
    anchors_under, canon, clusters_keep_nodes, cuts, cuts_are_kept, edges, identity, nodes, ties_are_within, Identity, Policy,
};
use crate::projection::views::PersonModel;
use crate::sorted::{in_order, in_order_exists, least, least_exists};
use crate::tables::{firsts, imaged, passing, slice, tallies, winner};

verus! {

/// Records with one id are one record.
pub open spec fn ids_identify(d: Seq<RecordModel>) -> bool {
    forall|i: int, j: int| #![trigger d[i], d[j]] 0 <= i < d.len() && 0 <= j < d.len() && d[i].id() == d[j].id() ==> d[i] == d[j]
}

/// The two hold the same records.
pub open spec fn same_records(a: Seq<RecordModel>, b: Seq<RecordModel>) -> bool {
    forall|r: RecordModel| #![trigger a.contains(r)] #![trigger b.contains(r)] a.contains(r) <==> b.contains(r)
}

/// Where one id stands for one record, dropping repeats keeps every record.
pub proof fn first_keeps_records(d: Seq<RecordModel>)
    requires
        ids_identify(d),
    ensures
        same_records(first_of_each(d), d),
        distinct_ids(first_of_each(d)),
{
    firsts_are_distinct(d);
    let e = first_of_each(d);
    assert forall|r: RecordModel| #![trigger e.contains(r)] #![trigger d.contains(r)] e.contains(r) <==> d.contains(r) by {
        if e.contains(r) {
            let i = choose|i: int| 0 <= i < e.len() && e[i] == r;
            assert(d.contains(e[i]));
        }
        if d.contains(r) {
            let i = choose|i: int| 0 <= i < d.len() && d[i] == r;
            assert(d[i].id() == r.id());
            assert(has_record(d, r.id()));
            assert(has_record(e, r.id()));
            let k = choose|k: int| 0 <= k < e.len() && (#[trigger] e[k]).id() == r.id();
            assert(d.contains(e[k]));
            let j = choose|j: int| 0 <= j < d.len() && d[j] == e[k];
            assert(d[j] == d[i]);
        }
    }
}

/// The same records give the same things, in whatever order they stand.
pub proof fn gathers_alike<M>(a: Seq<RecordModel>, b: Seq<RecordModel>, give: spec_fn(RecordModel) -> Option<M>)
    requires
        same_records(a, b),
    ensures
        gathered(a, give) == gathered(b, give),
{
    assert forall|m: M| gathered(a, give).contains(m) == gathered(b, give).contains(m) by {
        if gathered(a, give).contains(m) {
            let i = choose|i: int| 0 <= i < a.len() && give(#[trigger] a[i]) == Some(m);
            assert(a.contains(a[i]));
            let j = choose|j: int| 0 <= j < b.len() && b[j] == a[i];
            assert(give(b[j]) == Some(m));
        }
        if gathered(b, give).contains(m) {
            let i = choose|i: int| 0 <= i < b.len() && give(#[trigger] b[i]) == Some(m);
            assert(b.contains(b[i]));
            let j = choose|j: int| 0 <= j < a.len() && a[j] == b[i];
            assert(give(a[j]) == Some(m));
        }
    }
    assert(gathered(a, give) =~= gathered(b, give));
}

/// The claims are filed under their ids.
pub proof fn claims_are_filed(d: Seq<RecordModel>)
    requires
        distinct_ids(d),
    ensures
        claims_by_id(d).dom().finite(),
        forall|id: Seq<char>| #[trigger]
            claims_by_id(d).contains_key(id) ==> d.contains(RecordModel::Claim(claims_by_id(d)[id])) && claims_by_id(d)[id].id == id,
        forall|c: ClaimModel| #[trigger]
            d.contains(RecordModel::Claim(c)) ==> claims_by_id(d).contains_key(c.id) && claims_by_id(d)[c.id] == c,
    decreases d.len(),
{
    if d.len() == 0 {
        assert(claims_by_id(d).dom() =~= Set::<Seq<char>>::empty());
    } else {
        let e = d.drop_last();
        let n = d.len() - 1;
        assert(distinct_ids(e));
        claims_are_filed(e);
        assert forall|id: Seq<char>| #[trigger] claims_by_id(d).contains_key(id) implies d.contains(
            RecordModel::Claim(claims_by_id(d)[id]),
        ) && claims_by_id(d)[id].id == id by {
            if d[n] is Claim && (d[n]->Claim_0).id == id {
                assert(d.contains(d[n]));
            } else {
                assert(claims_by_id(e).contains_key(id));
                let k = choose|k: int| 0 <= k < e.len() && e[k] == RecordModel::Claim(claims_by_id(e)[id]);
                assert(d[k] == e[k]);
            }
        }
        assert forall|c: ClaimModel| #[trigger] d.contains(RecordModel::Claim(c)) implies claims_by_id(d).contains_key(c.id)
            && claims_by_id(d)[c.id] == c by {
            let k = choose|k: int| 0 <= k < d.len() && d[k] == RecordModel::Claim(c);
            if k < n {
                assert(e[k] == d[k]);
                assert(e.contains(RecordModel::Claim(c)));
                assert(d[k].id() != d[n].id());
            }
        }
    }
}

proof fn claims_alike(a: Seq<RecordModel>, b: Seq<RecordModel>)
    requires
        same_records(a, b),
        distinct_ids(a),
        distinct_ids(b),
    ensures
        claims_by_id(a) == claims_by_id(b),
{
    claims_are_filed(a);
    claims_are_filed(b);
    assert forall|id: Seq<char>| claims_by_id(a).contains_key(id) == claims_by_id(b).contains_key(id) && (claims_by_id(
        a,
    ).contains_key(id) ==> claims_by_id(a)[id] == claims_by_id(b)[id]) by {
        if claims_by_id(a).contains_key(id) {
            assert(b.contains(RecordModel::Claim(claims_by_id(a)[id])));
        }
        if claims_by_id(b).contains_key(id) {
            assert(a.contains(RecordModel::Claim(claims_by_id(b)[id])));
        }
    }
    assert(claims_by_id(a) =~= claims_by_id(b));
}

/// The read model depends on which records there are, and not on their order or number, where ids identify records.
pub proof fn order_independent(a: Seq<RecordModel>, b: Seq<RecordModel>, policy: Policy, cal: Map<Seq<char>, YearBounds>)
    requires
        same_records(a, b),
        ids_identify(a),
    ensures
        projected(a, policy, cal) == projected(b, policy, cal),
{
    assert forall|i: int, j: int| #![trigger b[i], b[j]]
        0 <= i < b.len() && 0 <= j < b.len() && b[i].id() == b[j].id() implies b[i] == b[j] by {
        assert(b.contains(b[i]) && b.contains(b[j]));
        let p = choose|p: int| 0 <= p < a.len() && a[p] == b[i];
        let q = choose|q: int| 0 <= q < a.len() && a[q] == b[j];
        assert(a[p] == a[q]);
    }
    first_keeps_records(a);
    first_keeps_records(b);
    let x = first_of_each(a);
    let y = first_of_each(b);
    assert(same_records(x, y));
    gathers_alike(x, y, crate::projection::collect::persons_in());
    gathers_alike(x, y, crate::projection::collect::events_in());
    gathers_alike(x, y, crate::projection::collect::ties_in());
    gathers_alike(x, y, crate::projection::collect::attests_in("support"@));
    gathers_alike(x, y, crate::projection::collect::attests_in("reject"@));
    gathers_alike(x, y, crate::projection::collect::votes_in());
    gathers_alike(x, y, crate::projection::collect::types_in());
    gathers_alike(x, y, crate::projection::collect::place_names_in());
    gathers_alike(x, y, crate::projection::collect::participants_in());
    gathers_alike(x, y, crate::projection::collect::prints_in());
    claims_alike(x, y);
    assert(facts(x) == facts(y));
}

proof fn repeats_are_dropped(a: Seq<RecordModel>, b: Seq<RecordModel>)
    requires
        forall|i: int| 0 <= i < b.len() ==> has_record(a, (#[trigger] b[i]).id()),
    ensures
        first_of_each(a + b) == first_of_each(a),
    decreases b.len(),
{
    if b.len() == 0 {
        assert(a + b =~= a);
    } else {
        let b0 = b.drop_last();
        assert forall|i: int| 0 <= i < b0.len() implies has_record(a, (#[trigger] b0[i]).id()) by {
            assert(b0[i] == b[i]);
        }
        repeats_are_dropped(a, b0);
        assert((a + b).drop_last() =~= a + b0);
        assert((a + b).last() == b[b.len() - 1]);
        firsts_are_distinct(a);
        assert(has_record(first_of_each(a), b[b.len() - 1].id()));
    }
}

/// The records are a set: delivering them again changes nothing.
pub proof fn duplication_invariant(d: Seq<RecordModel>, policy: Policy, cal: Map<Seq<char>, YearBounds>)
    ensures
        projected(d + d, policy, cal) == projected(d, policy, cal),
{
    assert forall|i: int| 0 <= i < d.len() implies has_record(d, (#[trigger] d[i]).id()) by {
        assert(d[i].id() == d[i].id());
    }
    repeats_are_dropped(d, d);
}

/// Finitely many records give finitely many things.
pub proof fn gathered_is_finite<M>(d: Seq<RecordModel>, give: spec_fn(RecordModel) -> Option<M>)
    ensures
        gathered(d, give).finite(),
    decreases d.len(),
{
    if d.len() == 0 {
        assert(gathered(d, give) =~= Set::<M>::empty());
    } else {
        let e = d.drop_last();
        gathered_is_finite(e, give);
        let s = match give(d.last()) {
            Some(m) => gathered(e, give).insert(m),
            None => gathered(e, give),
        };
        assert forall|m: M| gathered(d, give).contains(m) implies s.contains(m) by {
            let i = choose|i: int| 0 <= i < d.len() && give(#[trigger] d[i]) == Some(m);
            if i < e.len() {
                assert(e[i] == d[i]);
            }
        }
        assert(gathered(d, give).subset_of(s));
        vstd::set_lib::lemma_set_subset_finite(s, gathered(d, give));
    }
}

/// The anchors that a person is assembled from.
pub open spec fn members(p: PersonModel) -> Set<Seq<char>> {
    p.also.to_set().insert(p.id)
}

/// The name claims of a person.
pub open spec fn names_held(p: PersonModel, id: Seq<char>) -> bool {
    exists|k: int| 0 <= k < p.names.len() && (#[trigger] p.names[k]).claim_id == id
}

proof fn person_holds(f: Facts, n: Identity, policy: Policy, p: Seq<char>)
    requires
        f.persons.finite(),
        f.claims.dom().finite(),
        forall|id: Seq<char>| #[trigger] f.claims.contains_key(id) ==> f.claims[id].id == id,
        people_ids(f, n).contains(p),
    ensures
        members(person(f, n, policy, p)) == anchors_under(f, n, n.label[p]),
        forall|a: Seq<char>| #[trigger]
            person(f, n, policy, p).also.contains(a) ==> f.persons.contains(a) && canon(f, n, a) == Some(p) && text_before(p, a),
        forall|id: Seq<char>| #[trigger]
            names_held(person(f, n, policy, p), id) ==> f.claims.contains_key(id) && belongs(f, n, f.claims[id]) == Some(p),
{
    let v = person(f, n, policy, p);
    let all = anchors_under(f, n, n.label[p]);
    let rest = other_anchors(f, n, p);
    assert(all.subset_of(f.persons) && rest.subset_of(f.persons));
    vstd::set_lib::lemma_set_subset_finite(f.persons, all);
    vstd::set_lib::lemma_set_subset_finite(f.persons, rest);
    in_order_exists::<String>(rest);
    least_exists::<String>(all);
    assert(canon(f, n, p) == Some(p));
    assert(n.label.contains_key(p));
    assert(v.also.to_set() == rest);
    assert(members(v) =~= all);
    assert forall|a: Seq<char>| #[trigger] v.also.contains(a) implies f.persons.contains(a) && canon(f, n, a) == Some(p)
        && text_before(p, a) by {
        assert(v.also.to_set().contains(a));
        assert(rest.contains(a) && all.contains(a));
        assert(a == p || <String as Key>::before(p, a));
        assert(<String as Key>::before(p, a) == text_before(p, a));
    }
    let ids = slice(placed(f, n), p);
    let test = |id: Seq<char>| (|c: ClaimModel| c.predicate == P_NAME@)(f.claims[id]);
    let chosen = passing(ids, test);
    assert(chosen.subset_of(f.claims.dom()));
    vstd::set_lib::lemma_set_subset_finite(f.claims.dom(), chosen);
    in_order_exists::<String>(chosen);
    assert forall|id: Seq<char>| #[trigger] names_held(v, id) implies f.claims.contains_key(id) && belongs(f, n, f.claims[id])
        == Some(p) by {
        let k = choose|k: int| 0 <= k < v.names.len() && (#[trigger] v.names[k]).claim_id == id;
        let order = in_order::<String>(chosen);
        assert(name_claims(f, ids)[k] == f.claims[order[k]]);
        assert(order.to_set().contains(order[k]));
        assert(chosen.contains(order[k]));
    }
}

/// The people and the claims of some records are finitely many, and each claim is filed under its id.
pub proof fn facts_are_sound(d: Seq<RecordModel>)
    requires
        distinct_ids(d),
    ensures
        facts(d).persons.finite(),
        facts(d).claims.dom().finite(),
        forall|id: Seq<char>| #[trigger] facts(d).claims.contains_key(id) ==> facts(d).claims[id].id == id,
{
    gathered_is_finite(d, crate::projection::collect::persons_in());
    claims_are_filed(d);
}

/// Everybody is assembled well: their id is the least of their anchors, every anchor is in somebody, no anchor is in two
/// people, and no name is.
pub proof fn people_are_wellformed(d: Seq<RecordModel>, policy: Policy, cal: Map<Seq<char>, YearBounds>)
    ensures
        ({
            let people = projected(d, policy, cal).people;
            let anchors = facts(first_of_each(d)).persons;
            &&& forall|i: int| 0 <= i < people.len() ==> anchors.contains((#[trigger] people[i]).id)
            &&& forall|i: int, a: Seq<char>|
                0 <= i < people.len() && #[trigger] people[i].also.contains(a) ==> anchors.contains(a) && text_before(
                    people[i].id,
                    a,
                )
            &&& forall|a: Seq<char>| #[trigger]
                anchors.contains(a) ==> exists|i: int| 0 <= i < people.len() && members(#[trigger] people[i]).contains(a)
            &&& forall|i: int, j: int| #![trigger people[i], people[j]]
                0 <= i < j < people.len() ==> text_before(people[i].id, people[j].id) && members(people[i]).disjoint(
                    members(people[j]),
                )
            &&& forall|i: int, j: int, id: Seq<char>|
                0 <= i < people.len() && 0 <= j < people.len() && #[trigger] names_held(people[i], id) && #[trigger] names_held(
                    people[j],
                    id,
                ) ==> i == j
        }),
{
    firsts_are_distinct(d);
    let f = facts(first_of_each(d));
    let n = identity(f, policy);
    facts_are_sound(first_of_each(d));
    let ids = people_ids(f, n);
    let people = projected(d, policy, cal).people;
    assert(ids.subset_of(f.persons));
    vstd::set_lib::lemma_set_subset_finite(f.persons, ids);
    in_order_exists::<String>(ids);
    let order = in_order::<String>(ids);
    assert forall|i: int| 0 <= i < people.len() implies #[trigger] people[i] == person(f, n, policy, order[i]) && ids.contains(
        order[i],
    ) by {
        assert(order.to_set().contains(order[i]));
    }
    assert forall|i: int, a: Seq<char>| 0 <= i < people.len() && #[trigger] people[i].also.contains(a) implies f.persons.contains(
        a,
    ) && text_before(people[i].id, a) by {
        person_holds(f, n, policy, order[i]);
    }
    assert forall|a: Seq<char>| #[trigger] f.persons.contains(a) implies exists|i: int|
        0 <= i < people.len() && members(#[trigger] people[i]).contains(a) by {
        clusters_keep_nodes(nodes(f), in_order::<(Desc, Two)>(edges(f, policy)), cuts(f, policy));
        assert(n.label.contains_key(a));
        let under = anchors_under(f, n, n.label[a]);
        assert(under.contains(a) && under.subset_of(f.persons));
        vstd::set_lib::lemma_set_subset_finite(f.persons, under);
        least_exists::<String>(under);
        let p = least::<String>(under)->0;
        assert(under.contains(p));
        assert(ids.contains(p));
        assert(order.to_set().contains(p));
        let i = choose|i: int| 0 <= i < order.len() && order[i] == p;
        person_holds(f, n, policy, p);
        assert(members(people[i]).contains(a));
    }
    assert forall|i: int, j: int| #![trigger people[i], people[j]] 0 <= i < j < people.len() implies text_before(
        people[i].id,
        people[j].id,
    ) && members(people[i]).disjoint(members(people[j])) by {
        person_holds(f, n, policy, order[i]);
        person_holds(f, n, policy, order[j]);
        assert(<String as Key>::before(order[i], order[j]));
        assert(<String as Key>::before(order[i], order[j]) == text_before(order[i], order[j]));
        let (p, q) = (order[i], order[j]);
        <String as Key>::before_irreflexive(p);
        assert(canon(f, n, p) == Some(p) && canon(f, n, q) == Some(q));
        assert forall|a: Seq<char>| !(members(people[i]).contains(a) && members(people[j]).contains(a)) by {
            if members(people[i]).contains(a) && members(people[j]).contains(a) {
                assert(n.label[a] == n.label[p] && n.label[a] == n.label[q]);
                assert(canon(f, n, p) == canon(f, n, q));
            }
        }
    }
    assert forall|i: int, j: int, id: Seq<char>|
        0 <= i < people.len() && 0 <= j < people.len() && #[trigger] names_held(people[i], id) && #[trigger] names_held(
            people[j],
            id,
        ) implies i == j by {
        person_holds(f, n, policy, order[i]);
        person_holds(f, n, policy, order[j]);
        assert(order[i] == order[j]);
        if i < j {
            assert(<String as Key>::before(order[i], order[j]));
            <String as Key>::before_irreflexive(order[i]);
        }
        if j < i {
            assert(<String as Key>::before(order[j], order[i]));
            <String as Key>::before_irreflexive(order[i]);
        }
    }
}

/// Two anchors that are kept apart strongly enough are never in one person.
pub proof fn different_from_never_violated(
    d: Seq<RecordModel>,
    policy: Policy,
    cal: Map<Seq<char>, YearBounds>,
    cut: (Seq<char>, Seq<char>),
    i: int,
)
    requires
        cuts(facts(first_of_each(d)), policy).contains(cut),
        cut.0 != cut.1,
        0 <= i < projected(d, policy, cal).people.len(),
    ensures
        !(members(projected(d, policy, cal).people[i]).contains(cut.0) && members(projected(d, policy, cal).people[i]).contains(
            cut.1,
        )),
{
    firsts_are_distinct(d);
    let f = facts(first_of_each(d));
    let n = identity(f, policy);
    facts_are_sound(first_of_each(d));
    let ids = people_ids(f, n);
    assert(ids.subset_of(f.persons));
    vstd::set_lib::lemma_set_subset_finite(f.persons, ids);
    in_order_exists::<String>(ids);
    let order = in_order::<String>(ids);
    assert(order.to_set().contains(order[i]));
    person_holds(f, n, policy, order[i]);
    ties_are_within(f, policy);
    let e = in_order::<(crate::order::Desc, crate::projection::record::Two)>(edges(f, policy));
    cuts_are_kept(nodes(f), e, cuts(f, policy), cut);
}

/// A finite set gives finitely many things.
pub proof fn imaged_is_finite<M, N>(s: Set<M>, give: spec_fn(M) -> Option<N>)
    requires
        s.finite(),
    ensures
        imaged(s, give).finite(),
{
    let all = s.map(|m: M| give(m)->0);
    s.lemma_map_finite(|m: M| give(m)->0);
    assert forall|n: N| #[trigger] imaged(s, give).contains(n) implies all.contains(n) by {
        let m = choose|m: M| #[trigger] s.contains(m) && give(m) == Some(n);
        assert(give(m)->0 == n);
    }
    assert(imaged(s, give).subset_of(all));
    vstd::set_lib::lemma_set_subset_finite(all, imaged(s, give));
}

proof fn a_winner_was_voted_for(s: Set<(Seq<char>, Seq<char>)>)
    requires
        s.finite(),
    ensures
        winner::<String, Seq<char>>(s) matches Some(a) ==> exists|b: Seq<char>| s.contains((a, b)),
{
    let heads = firsts(s);
    assert(heads =~= imaged(s, |x: (Seq<char>, Seq<char>)| Some(x.0))) by {
        assert forall|a: Seq<char>| heads.contains(a) == imaged(s, |x: (Seq<char>, Seq<char>)| Some(x.0)).contains(a) by {
            if heads.contains(a) {
                let b = choose|b: Seq<char>| s.contains((a, b));
                assert((|x: (Seq<char>, Seq<char>)| Some(x.0))((a, b)) == Some(a));
            }
            if imaged(s, |x: (Seq<char>, Seq<char>)| Some(x.0)).contains(a) {
                let x = choose|x: (Seq<char>, Seq<char>)| #[trigger]
                    s.contains(x) && (|x: (Seq<char>, Seq<char>)| Some(x.0))(x) == Some(a);
                assert(s.contains((a, x.1)));
            }
        }
    }
    imaged_is_finite(s, |x: (Seq<char>, Seq<char>)| Some(x.0));
    let give = |a: Seq<char>| Some((slice(s, a).len() as int, a));
    assert(tallies(s) =~= imaged(heads, give));
    imaged_is_finite(heads, give);
    least_exists::<(Desc, String)>(tallies(s));
    if let Some(a) = winner::<String, Seq<char>>(s) {
        let l = least::<(Desc, String)>(tallies(s))->0;
        assert(tallies(s).contains(l));
        let x = choose|x: Seq<char>| #[trigger] heads.contains(x) && give(x) == Some(l);
        assert(heads.contains(a));
    }
}

/// The two calendars tell the same of this text.
pub open spec fn agree_on(a: Map<Seq<char>, YearBounds>, b: Map<Seq<char>, YearBounds>, text: Seq<char>) -> bool {
    a.contains_key(text) == b.contains_key(text) && (a.contains_key(text) ==> a[text] == b[text])
}

proof fn an_event_goes_by_its_dates(
    f: Facts,
    n: Identity,
    a: Map<Seq<char>, YearBounds>,
    b: Map<Seq<char>, YearBounds>,
    id: Seq<char>,
)
    requires
        f.votes.finite(),
        forall|text: Seq<char>| #[trigger] dates_in(f).contains(text) ==> agree_on(a, b, text),
    ensures
        event(f, n, a, id) == event(f, n, b, id),
{
    let votes = slice(slice(f.votes, P_DATE@), id);
    let pick = |x: TieModel|
        if x.0 == P_DATE@ && x.1.0 == id {
            Some(x.1.1)
        } else {
            None
        };
    assert forall|x: (Seq<char>, Seq<char>)| votes.contains(x) == imaged(f.votes, pick).contains(x) by {
        if votes.contains(x) {
            assert(f.votes.contains((P_DATE@, (id, x))) && pick((P_DATE@, (id, x))) == Some(x));
        }
        if imaged(f.votes, pick).contains(x) {
            let m = choose|m: TieModel| #[trigger] f.votes.contains(m) && pick(m) == Some(x);
            assert(m == (P_DATE@, (id, x)));
        }
    }
    assert(votes =~= imaged(f.votes, pick));
    imaged_is_finite(f.votes, pick);
    a_winner_was_voted_for(votes);
    let date = settled(f, P_DATE@, id);
    if let Some(d) = date {
        let who = choose|who: Seq<char>| votes.contains((d, who));
        let m = (P_DATE@, (id, (d, who)));
        assert(f.votes.contains(m) && dated()(m) == Some(d));
        assert(dates_in(f).contains(d));
    }
    assert(years_of(a, date) == years_of(b, date));
    if let Some(p) = settled(f, P_EVENT_PLACE@, id) {
        let cands = slice(f.place_names, p);
        if let Some(y) = event_year(years_of(a, date)) {
            let in_a = passing(cands, |x: (Seq<char>, (Seq<char>, Seq<char>))| covers(a, x.0, y));
            let in_b = passing(cands, |x: (Seq<char>, (Seq<char>, Seq<char>))| covers(b, x.0, y));
            assert forall|x: (Seq<char>, (Seq<char>, Seq<char>))| in_a.contains(x) == in_b.contains(x) by {
                if cands.contains(x) {
                    let m = (p, x);
                    assert(f.place_names.contains(m) && ranged()(m) == Some(x.0));
                    assert(dates_in(f).contains(x.0));
                    assert(agree_on(a, b, x.0));
                }
            }
            assert(in_a =~= in_b);
            assert(name_in(cands, a, Some(y)) == name_in(cands, b, Some(y)));
        }
    }
}

/// Of a calendar only the texts count that are read as dates.
pub proof fn only_dates_are_looked_up(
    d: Seq<RecordModel>,
    policy: Policy,
    a: Map<Seq<char>, YearBounds>,
    b: Map<Seq<char>, YearBounds>,
)
    requires
        forall|text: Seq<char>| #[trigger] dates_in(facts(first_of_each(d))).contains(text) ==> agree_on(a, b, text),
    ensures
        projected(d, policy, a) == projected(d, policy, b),
{
    let f = facts(first_of_each(d));
    let n = identity(f, policy);
    gathered_is_finite(first_of_each(d), crate::projection::collect::votes_in());
    let x = events(f, n, a);
    let y = events(f, n, b);
    assert forall|i: int| 0 <= i < x.len() implies x[i] == y[i] by {
        an_event_goes_by_its_dates(f, n, a, b, in_order::<String>(f.events)[i]);
    }
    assert(x =~= y);
}

} // verus!
