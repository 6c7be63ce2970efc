//! What each person shows: the claims that belong to them, and nothing else.

use vstd::prelude::*;

use crate::order::{text_before, Desc, Key};
use crate::projection::collect::{facts, first_of_each, firsts_are_distinct, record_models, TieModel};
use crate::projection::events::Calendar;
use crate::projection::kinship::{in_order_lists, slice_is_finite, strong_is_finite};
use crate::projection::laws::{claims_are_filed, facts_are_sound, gathered_is_finite, imaged_is_finite};
use crate::projection::meaning::{
    backers, deniers, has_text, how_strongly_a_tie_is_held, teller, told, which_ties_are_strong,
};
use crate::projection::names::{named, refs};
use crate::projection::people::{
    belongs, chosen, generic_view, media_view, name_claims, name_views, other_anchors, people_ids, person, placed,
    preferences, preferred_among, said, strays, unclassified,
};
use crate::projection::project::project;
use crate::projection::record::{ClaimModel, Record, RecordModel, Three};
use crate::projection::resolve::{anchors_under, canon, identity, strong, subject, Policy};
use crate::projection::value::Json;
use crate::projection::views::{PersonModel, Projection};
use crate::sorted::{in_order, least, least_exists};
use crate::tables::{imaged, passing, slice, winner};

verus! {

/// The person's anchor is among the records.
pub open spec fn is_anchor(d: Seq<RecordModel>, id: Seq<char>) -> bool {
    exists|i: int|
        0 <= i < d.len() && ((#[trigger] d[i]) matches RecordModel::Anchor { id: x, type_uri, .. } && x == id && type_uri
            == "openom.org/core/person/v1"@)
}

proof fn persons_are_anchors(d: Seq<RecordModel>, id: Seq<char>)
    ensures
        facts(d).persons.contains(id) <==> is_anchor(d, id),
        facts(d).persons.finite(),
{
    let give = crate::projection::collect::persons_in();
    gathered_is_finite(d, give);
    if facts(d).persons.contains(id) {
        let i = choose|i: int| 0 <= i < d.len() && give(#[trigger] d[i]) == Some(id);
        assert(d[i] is Anchor);
    }
    if is_anchor(d, id) {
        let i = choose|i: int|
            0 <= i < d.len() && ((#[trigger] d[i]) matches RecordModel::Anchor { id: x, type_uri, .. } && x == id && type_uri
                == "openom.org/core/person/v1"@);
        assert(give(d[i]) == Some(id));
    }
}

/// Both are taken to be one person.
pub open spec fn one_person(d: Seq<RecordModel>, policy: Policy, x: Seq<char>, y: Seq<char>) -> bool {
    let label = identity(facts(d), policy).label;
    label.contains_key(x) && label.contains_key(y) && label[x] == label[y]
}

/// Whom something stands for: the least of the anchors that are taken to be the same person as it, where there is one.
pub proof fn whom_a_node_stands_for(d: Seq<RecordModel>, policy: Policy, x: Seq<char>)
    ensures
        match canon(facts(d), identity(facts(d), policy), x) {
            Some(p) => is_anchor(d, p) && one_person(d, policy, p, x) && forall|q: Seq<char>| #[trigger]
                is_anchor(d, q) && one_person(d, policy, q, x) ==> q == p || text_before(p, q),
            None => forall|q: Seq<char>| #[trigger] is_anchor(d, q) ==> !one_person(d, policy, q, x),
        },
{
    let f = facts(d);
    let n = identity(f, policy);
    persons_are_anchors(d, x);
    if n.label.contains_key(x) {
        let under = anchors_under(f, n, n.label[x]);
        vstd::set_lib::lemma_set_subset_finite(f.persons, under);
        least_exists::<String>(under);
        assert forall|q: Seq<char>| #[trigger] is_anchor(d, q) && one_person(d, policy, q, x) implies under.contains(q) by {
            persons_are_anchors(d, q);
        }
        match canon(f, n, x) {
            Some(p) => {
                assert(under.contains(p));
                persons_are_anchors(d, p);
            },
            None => {},
        }
    }
}

/// The claim is moved to this person, strongly enough.
pub open spec fn held_moved(d: Seq<RecordModel>, policy: Policy, claim: Seq<char>, person: Seq<char>) -> bool {
    let t = ("openom.org/core/reattribute_to/v1"@, (claim, (person, Seq::<char>::empty())));
    (exists|who: Seq<char>| teller(d, t, who)) && backers(d, t).len() - deniers(d, t).len() >= policy.reattribute_threshold
}

/// How strongly the claim is moved to this person.
pub open spec fn moved_by(d: Seq<RecordModel>, claim: Seq<char>, person: Seq<char>) -> int {
    let t = ("openom.org/core/reattribute_to/v1"@, (claim, (person, Seq::<char>::empty())));
    backers(d, t).len() - deniers(d, t).len()
}

/// A claim is about what it is moved to most strongly, of several equally strong ones the least; and about its own target
/// where it is moved nowhere strongly enough.
pub proof fn what_a_claim_is_about(d: Seq<RecordModel>, policy: Policy, c: ClaimModel)
    ensures
        ({
            let about = subject(identity(facts(d), policy), c);
            if exists|p: Seq<char>| #[trigger] held_moved(d, policy, c.id, p) {
                held_moved(d, policy, c.id, about) && forall|p: Seq<char>| #[trigger]
                    held_moved(d, policy, c.id, p) ==> p == about || moved_by(d, c.id, p) < moved_by(d, c.id, about) || moved_by(
                        d,
                        c.id,
                        p,
                    ) == moved_by(d, c.id, about) && text_before(about, p)
            } else {
                about == c.target_id
            }
        }),
{
    let f = facts(d);
    let n = identity(f, policy);
    let moves = "openom.org/core/reattribute_to/v1"@;
    let none = Seq::<char>::empty();
    let give = crate::projection::resolve::home_of(f);
    strong_is_finite(d, moves, policy.reattribute_threshold);
    imaged_is_finite(strong(f, moves, policy.reattribute_threshold), give);
    slice_is_finite(n.homes, c.id);
    let homes = slice(n.homes, c.id);
    least_exists::<(Desc, String)>(homes);
    assert forall|k: int, p: Seq<char>| #[trigger] homes.contains((k, p)) <==> held_moved(d, policy, c.id, p) && k == moved_by(
        d,
        c.id,
        p,
    ) by {
        let t = (moves, (c.id, (p, none)));
        how_strongly_a_tie_is_held(d, t);
        which_ties_are_strong(d, moves, policy.reattribute_threshold, t);
        if homes.contains((k, p)) {
            assert(n.homes.contains((c.id, (k, p))));
            let u = choose|u: TieModel| #[trigger]
                strong(f, moves, policy.reattribute_threshold).contains(u) && give(u) == Some((c.id, (k, p)));
            which_ties_are_strong(d, moves, policy.reattribute_threshold, u);
            let who = choose|who: Seq<char>| teller(d, u, who);
            let told_by = choose|x: ClaimModel| #[trigger]
                told(d, x) && crate::projection::meaning::says(x, u) && x.created_by == who;
            moves_have_no_note(told_by, u);
            assert(u == t);
        }
        if held_moved(d, policy, c.id, p) && k == moved_by(d, c.id, p) {
            assert(give(t) == Some((c.id, (k, p))));
            assert(n.homes.contains((c.id, (k, p))));
        }
    }
    if exists|p: Seq<char>| #[trigger] held_moved(d, policy, c.id, p) {
        let p = choose|p: Seq<char>| #[trigger] held_moved(d, policy, c.id, p);
        assert(homes.contains((moved_by(d, c.id, p), p)));
        let l = least::<(Desc, String)>(homes)->0;
        assert(homes.contains((l.0, l.1)));
        assert forall|q: Seq<char>| #[trigger] held_moved(d, policy, c.id, q) implies q == l.1 || moved_by(d, c.id, q) < moved_by(
            d,
            c.id,
            l.1,
        ) || moved_by(d, c.id, q) == moved_by(d, c.id, l.1) && text_before(l.1, q) by {
            let y = (moved_by(d, c.id, q), q);
            assert(homes.contains((y.0, y.1)));
            assert(l == y || <(Desc, String)>::before(l, y));
        }
    } else {
        if least::<(Desc, String)>(homes) is Some {
            let l = least::<(Desc, String)>(homes)->0;
            assert(homes.contains((l.0, l.1)));
        }
    }
}

proof fn moves_have_no_note(c: ClaimModel, t: TieModel)
    requires
        crate::projection::meaning::says(c, t),
        t.0 == "openom.org/core/reattribute_to/v1"@,
    ensures
        t.1.1.1 == Seq::<char>::empty(),
{
    crate::projection::meaning::what_a_claim_ties(c);
    assert(crate::projection::record::tie_of(c) == Some(t));
    crate::projection::meaning::predicates_are_apart();
}

/// The claim is among the records and belongs to this person: what it is about stands for them.
pub open spec fn held(d: Seq<RecordModel>, policy: Policy, c: ClaimModel, p: Seq<char>) -> bool {
    told(d, c) && canon(facts(d), identity(facts(d), policy), subject(identity(facts(d), policy), c)) == Some(p)
}

/// A claim is among the records exactly where it is filed under its id.
pub proof fn told_is_filed(d: Seq<RecordModel>, c: ClaimModel)
    requires
        crate::projection::collect::distinct_ids(d),
    ensures
        told(d, c) <==> facts(d).claims.contains_key(c.id) && facts(d).claims[c.id] == c,
        facts(d).claims.dom().finite(),
{
    claims_are_filed(d);
    if told(d, c) {
        let i = choose|i: int| 0 <= i < d.len() && #[trigger] d[i] == RecordModel::Claim(c);
        assert(d.contains(RecordModel::Claim(c)));
    }
    if facts(d).claims.contains_key(c.id) && facts(d).claims[c.id] == c {
        let i = choose|i: int| 0 <= i < d.len() && d[i] == RecordModel::Claim(c);
        assert(d[i] == RecordModel::Claim(c));
    }
}

/// The claims that are placed with a person are those that belong to them.
pub proof fn placed_are_held(d: Seq<RecordModel>, policy: Policy, p: Seq<char>)
    requires
        crate::projection::collect::distinct_ids(d),
    ensures
        slice(placed(facts(d), identity(facts(d), policy)), p).finite(),
        forall|id: Seq<char>| #[trigger]
            slice(placed(facts(d), identity(facts(d), policy)), p).contains(id) ==> held(d, policy, facts(d).claims[id], p) && facts(
                d,
            ).claims[id].id == id,
        forall|c: ClaimModel| #[trigger]
            held(d, policy, c, p) ==> slice(placed(facts(d), identity(facts(d), policy)), p).contains(c.id) && facts(d).claims[c.id]
                == c,
{
    let f = facts(d);
    let n = identity(f, policy);
    let ids = slice(placed(f, n), p);
    facts_are_sound(d);
    assert(ids.subset_of(f.claims.dom())) by {
        assert forall|id: Seq<char>| ids.contains(id) implies f.claims.dom().contains(id) by {
            assert(placed(f, n).contains((p, id)));
        }
    }
    vstd::set_lib::lemma_set_subset_finite(f.claims.dom(), ids);
    assert forall|id: Seq<char>| #[trigger] ids.contains(id) implies held(d, policy, f.claims[id], p) && f.claims[id].id == id by {
        assert(placed(f, n).contains((p, id)));
        told_is_filed(d, f.claims[id]);
    }
    assert forall|c: ClaimModel| #[trigger] held(d, policy, c, p) implies ids.contains(c.id) && f.claims[c.id] == c by {
        told_is_filed(d, c);
        assert(placed(f, n).contains((p, c.id)));
    }
}

/// The claims that belong to a person and pass a test, by their ids in ascending order.
pub proof fn chosen_are_held(d: Seq<RecordModel>, policy: Policy, p: Seq<char>, test: spec_fn(ClaimModel) -> bool)
    requires
        crate::projection::collect::distinct_ids(d),
    ensures
        ({
            let f = facts(d);
            let q = chosen(f, slice(placed(f, identity(f, policy)), p), test);
            &&& forall|k: int|
                0 <= k < q.len() ==> held(d, policy, f.claims[#[trigger] q[k]], p) && test(f.claims[q[k]]) && f.claims[q[k]].id == q[k]
            &&& forall|c: ClaimModel| #[trigger] held(d, policy, c, p) && test(c) ==> q.contains(c.id)
            &&& forall|i: int, j: int| #![trigger q[i], q[j]] 0 <= i < j < q.len() ==> text_before(q[i], q[j])
        }),
{
    let f = facts(d);
    let ids = slice(placed(f, identity(f, policy)), p);
    placed_are_held(d, policy, p);
    let picked = passing(ids, |id: Seq<char>| test(f.claims[id]));
    vstd::set_lib::lemma_set_subset_finite(ids, picked);
    in_order_lists::<String>(picked);
    let q = chosen(f, ids, test);
    assert forall|k: int| 0 <= k < q.len() implies held(d, policy, f.claims[#[trigger] q[k]], p) && test(f.claims[q[k]])
        && f.claims[q[k]].id == q[k] by {
        assert(picked.contains(q[k]));
        assert(ids.contains(q[k]));
    }
    assert forall|c: ClaimModel| #[trigger] held(d, policy, c, p) && test(c) implies q.contains(c.id) by {
        assert(ids.contains(c.id));
        assert(picked.contains(c.id));
    }
    assert forall|i: int, j: int| #![trigger q[i], q[j]] 0 <= i < j < q.len() implies text_before(q[i], q[j]) by {
        assert(String::before(q[i], q[j]));
    }
}

/// The records that count: of those with one id, the first.
pub open spec fn counted(records: Vec<Record>) -> Seq<RecordModel> {
    first_of_each(record_models(records@))
}

/// The person that is shown at `i`, and the records and the identity that they are drawn from.
pub proof fn drawn(records: Vec<Record>, policy: Policy, calendar: Calendar, r: Projection, i: int) -> (p: Seq<char>)
    requires
        call_ensures(project, (&records, &policy, &calendar), r),
        0 <= i < r@.people.len(),
    ensures
        crate::projection::collect::distinct_ids(counted(records)),
        p == r@.people[i].id,
        people_ids(facts(counted(records)), identity(facts(counted(records)), policy)).contains(p),
        r@.people[i] == person(facts(counted(records)), identity(facts(counted(records)), policy), policy, p),
{
    let d = counted(records);
    firsts_are_distinct(record_models(records@));
    let f = facts(d);
    let n = identity(f, policy);
    facts_are_sound(d);
    let all = people_ids(f, n);
    vstd::set_lib::lemma_set_subset_finite(f.persons, all);
    in_order_lists::<String>(all);
    let q = in_order::<String>(all);
    assert(r@.people[i] == person(f, n, policy, q[i]));
    q[i]
}

/// The people that are shown are those anchors that stand for themselves, each once and in ascending order; and the other
/// anchors that a person shows are those that stand for them, each once and in ascending order.
pub proof fn who_is_shown(records: Vec<Record>, policy: Policy, calendar: Calendar, r: Projection)
    requires
        call_ensures(project, (&records, &policy, &calendar), r),
    ensures
        ({
            let d = counted(records);
            let f = facts(d);
            let n = identity(f, policy);
            &&& forall|i: int| 0 <= i < r@.people.len() ==> is_anchor(d, (#[trigger] r@.people[i]).id) && canon(f, n, r@.people[i].id)
                == Some(r@.people[i].id)
            &&& forall|a: Seq<char>| #[trigger] is_anchor(d, a) && canon(f, n, a) == Some(a) ==> exists|i: int|
                0 <= i < r@.people.len() && (#[trigger] r@.people[i]).id == a
            &&& forall|i: int, j: int| #![trigger r@.people[i], r@.people[j]]
                0 <= i < j < r@.people.len() ==> text_before(r@.people[i].id, r@.people[j].id)
            &&& forall|i: int, a: Seq<char>|
                0 <= i < r@.people.len() ==> (#[trigger] r@.people[i].also.contains(a) <==> is_anchor(d, a) && a != r@.people[i].id
                    && canon(f, n, a) == Some(r@.people[i].id))
            &&& forall|i: int, x: int, y: int| #![trigger r@.people[i].also[x], r@.people[i].also[y]]
                0 <= i < r@.people.len() && 0 <= x < y < r@.people[i].also.len() ==> text_before(
                    r@.people[i].also[x],
                    r@.people[i].also[y],
                )
        }),
{
    let d = counted(records);
    firsts_are_distinct(record_models(records@));
    let f = facts(d);
    let n = identity(f, policy);
    facts_are_sound(d);
    let all = people_ids(f, n);
    vstd::set_lib::lemma_set_subset_finite(f.persons, all);
    in_order_lists::<String>(all);
    let q = in_order::<String>(all);
    assert(r@.people.len() == q.len());
    assert forall|i: int| 0 <= i < r@.people.len() implies is_anchor(d, (#[trigger] r@.people[i]).id) && canon(
        f,
        n,
        r@.people[i].id,
    ) == Some(r@.people[i].id) && r@.people[i].id == q[i] by {
        assert(r@.people[i] == person(f, n, policy, q[i]));
        assert(all.contains(q[i]));
        persons_are_anchors(d, q[i]);
    }
    assert forall|a: Seq<char>| #[trigger] is_anchor(d, a) && canon(f, n, a) == Some(a) implies exists|i: int|
        0 <= i < r@.people.len() && (#[trigger] r@.people[i]).id == a by {
        persons_are_anchors(d, a);
        assert(all.contains(a));
        let i = choose|i: int| 0 <= i < q.len() && q[i] == a;
        assert(r@.people[i].id == a);
    }
    assert forall|i: int, j: int| #![trigger r@.people[i], r@.people[j]] 0 <= i < j < r@.people.len() implies text_before(
        r@.people[i].id,
        r@.people[j].id,
    ) by {
        assert(String::before(q[i], q[j]));
    }
    assert forall|i: int, a: Seq<char>| 0 <= i < r@.people.len() implies (#[trigger] r@.people[i].also.contains(a) <==> is_anchor(
        d,
        a,
    ) && a != r@.people[i].id && canon(f, n, a) == Some(r@.people[i].id)) by {
        others_are_listed(d, policy, q[i], a);
    }
    assert forall|i: int, x: int, y: int| #![trigger r@.people[i].also[x], r@.people[i].also[y]]
        0 <= i < r@.people.len() && 0 <= x < y < r@.people[i].also.len() implies text_before(
        r@.people[i].also[x],
        r@.people[i].also[y],
    ) by {
        let others = other_anchors(f, n, q[i]);
        vstd::set_lib::lemma_set_subset_finite(f.persons, others);
        in_order_lists::<String>(others);
        assert(String::before(r@.people[i].also[x], r@.people[i].also[y]));
    }
}

proof fn others_are_listed(d: Seq<RecordModel>, policy: Policy, p: Seq<char>, a: Seq<char>)
    requires
        people_ids(facts(d), identity(facts(d), policy)).contains(p),
    ensures
        in_order::<String>(other_anchors(facts(d), identity(facts(d), policy), p)).contains(a) <==> is_anchor(d, a) && a != p
            && canon(facts(d), identity(facts(d), policy), a) == Some(p),
{
    let f = facts(d);
    let n = identity(f, policy);
    let others = other_anchors(f, n, p);
    persons_are_anchors(d, a);
    vstd::set_lib::lemma_set_subset_finite(f.persons, others);
    in_order_lists::<String>(others);
    assert(canon(f, n, p) == Some(p));
    if others.contains(a) {
        assert(n.label[a] == n.label[p]);
    }
    if is_anchor(d, a) && a != p && canon(f, n, a) == Some(p) {
        let under = anchors_under(f, n, n.label[a]);
        vstd::set_lib::lemma_set_subset_finite(f.persons, under);
        least_exists::<String>(under);
        assert(under.contains(p));
        assert(n.label[a] == n.label[p]);
        assert(anchors_under(f, n, n.label[p]).contains(a));
    }
}

/// The names that a person shows are the names that belong to them, each once and in the order of the claims' ids, as they
/// are said.
pub proof fn which_names_are_shown(records: Vec<Record>, policy: Policy, calendar: Calendar, r: Projection, i: int)
    requires
        call_ensures(project, (&records, &policy, &calendar), r),
        0 <= i < r@.people.len(),
    ensures
        ({
            let d = counted(records);
            let p = r@.people[i];
            &&& forall|k: int|
                0 <= k < p.names.len() ==> exists|c: ClaimModel| #[trigger]
                    held(d, policy, c, p.id) && c.predicate == "openom.org/core/name/v1"@ && (#[trigger] p.names[k]).claim_id == c.id
                        && p.names[k].parts == c.value
            &&& forall|c: ClaimModel| #[trigger]
                held(d, policy, c, p.id) && c.predicate == "openom.org/core/name/v1"@ ==> exists|k: int|
                    0 <= k < p.names.len() && (#[trigger] p.names[k]).claim_id == c.id
            &&& forall|x: int, y: int| #![trigger p.names[x], p.names[y]]
                0 <= x < y < p.names.len() ==> text_before(p.names[x].claim_id, p.names[y].claim_id)
        }),
{
    let d = counted(records);
    let id = drawn(records, policy, calendar, r, i);
    let f = facts(d);
    let n = identity(f, policy);
    let p = r@.people[i];
    let test = |c: ClaimModel| c.predicate == "openom.org/core/name/v1"@;
    let ids = slice(placed(f, n), id);
    chosen_are_held(d, policy, id, test);
    let q = chosen(f, ids, test);
    let ns = name_claims(f, ids);
    assert(ns =~= q.map_values(|id: Seq<char>| f.claims[id]));
    assert(p.names == name_views(ns));
    assert forall|k: int| 0 <= k < p.names.len() implies exists|c: ClaimModel| #[trigger]
        held(d, policy, c, p.id) && c.predicate == "openom.org/core/name/v1"@ && (#[trigger] p.names[k]).claim_id == c.id
            && p.names[k].parts == c.value by {
        assert(ns[k] == f.claims[q[k]]);
        assert(held(d, policy, f.claims[q[k]], id));
    }
    assert forall|c: ClaimModel| #[trigger] held(d, policy, c, p.id) && c.predicate == "openom.org/core/name/v1"@ implies exists|
        k: int,
    | 0 <= k < p.names.len() && (#[trigger] p.names[k]).claim_id == c.id by {
        assert(test(c));
        let k = choose|k: int| 0 <= k < q.len() && q[k] == c.id;
        assert(ns[k] == f.claims[q[k]]);
        assert(p.names[k].claim_id == c.id);
    }
    assert forall|x: int, y: int| #![trigger p.names[x], p.names[y]] 0 <= x < y < p.names.len() implies text_before(
        p.names[x].claim_id,
        p.names[y].claim_id,
    ) by {
        assert(ns[x] == f.claims[q[x]] && ns[y] == f.claims[q[y]]);
        assert(text_before(q[x], q[y]));
    }
}

/// Someone says this text of this person, under this predicate and key.
pub open spec fn says_of(
    d: Seq<RecordModel>,
    policy: Policy,
    p: Seq<char>,
    predicate: Seq<char>,
    key: Seq<char>,
    text: Seq<char>,
    who: Seq<char>,
) -> bool {
    exists|c: ClaimModel| #[trigger]
        held(d, policy, c, p) && c.predicate == predicate && has_text(c.value, key, text) && c.created_by == who
}

/// What is said of this person under this predicate and key, and by whom.
pub open spec fn sayings(d: Seq<RecordModel>, policy: Policy, p: Seq<char>, predicate: Seq<char>, key: Seq<char>) -> Set<
    (Seq<char>, Seq<char>),
> {
    Set::new(|x: (Seq<char>, Seq<char>)| says_of(d, policy, p, predicate, key, x.0, x.1))
}

/// The sex and the biography that a person shows are those that most people say of them, as the claims that belong to them
/// have it; none where no one says any.
pub proof fn what_most_say_is_shown(records: Vec<Record>, policy: Policy, calendar: Calendar, r: Projection, i: int)
    requires
        call_ensures(project, (&records, &policy, &calendar), r),
        0 <= i < r@.people.len(),
    ensures
        ({
            let d = counted(records);
            let p = r@.people[i];
            let sexes = sayings(d, policy, p.id, "openom.org/core/sex/v1"@, "sex"@);
            let lives = sayings(d, policy, p.id, "openom.org/core/biography/v1"@, "text"@);
            &&& sexes.finite() && p.sex == winner::<String, Seq<char>>(sexes)
            &&& lives.finite() && p.biography == winner::<String, Seq<char>>(lives)
        }),
{
    let d = counted(records);
    let id = drawn(records, policy, calendar, r, i);
    traits_are_said(d, policy, id, "openom.org/core/sex/v1"@, "sex"@);
    reveal_strlit("openom.org/core/sex/v1");
    reveal_strlit("openom.org/core/biography/v1");
    assert("openom.org/core/sex/v1"@[16] == 's' && "openom.org/core/biography/v1"@[16] == 'b');
    traits_are_said(d, policy, id, "openom.org/core/biography/v1"@, "text"@);
}

proof fn traits_are_said(d: Seq<RecordModel>, policy: Policy, p: Seq<char>, predicate: Seq<char>, key: Seq<char>)
    requires
        crate::projection::collect::distinct_ids(d),
        forall|c: ClaimModel, t: Seq<char>|
            c.predicate == predicate ==> (#[trigger] has_text(c.value, key, t) <==> crate::projection::record::trait_of(c, predicate)
                == Some(t)),
    ensures
        sayings(d, policy, p, predicate, key).finite(),
        sayings(d, policy, p, predicate, key) == imaged(
            slice(placed(facts(d), identity(facts(d), policy)), p),
            said(facts(d), predicate),
        ),
{
    let f = facts(d);
    let ids = slice(placed(f, identity(f, policy)), p);
    placed_are_held(d, policy, p);
    imaged_is_finite(ids, said(f, predicate));
    let all = imaged(ids, said(f, predicate));
    assert forall|x: (Seq<char>, Seq<char>)| all.contains(x) == sayings(d, policy, p, predicate, key).contains(x) by {
        if all.contains(x) {
            let id = choose|id: Seq<char>| #[trigger] ids.contains(id) && said(f, predicate)(id) == Some(x);
            let c = f.claims[id];
            assert(held(d, policy, c, p));
            assert(has_text(c.value, key, x.0));
        }
        if says_of(d, policy, p, predicate, key, x.0, x.1) {
            let c = choose|c: ClaimModel| #[trigger]
                held(d, policy, c, p) && c.predicate == predicate && has_text(c.value, key, x.0) && c.created_by == x.1;
            assert(ids.contains(c.id) && f.claims[c.id] == c);
            assert(said(f, predicate)(c.id) == Some(x));
        }
    }
    assert(all =~= sayings(d, policy, p, predicate, key));
}

/// What is preferred for this person's name, strongly enough: the content with this reference, by a preference about
/// something that stands for them.
pub open spec fn held_preferred(d: Seq<RecordModel>, policy: Policy, p: Seq<char>, about: Seq<char>, content: Seq<char>) -> bool {
    let t = ("openom.org/core/preferred/v1"@, (about, ("openom.org/core/name/v1"@, content)));
    canon(facts(d), identity(facts(d), policy), about) == Some(p) && (exists|who: Seq<char>| teller(d, t, who)) && preferred_by(
        d,
        about,
        content,
    ) >= policy.preferred_threshold
}

/// How strongly it is preferred.
pub open spec fn preferred_by(d: Seq<RecordModel>, about: Seq<char>, content: Seq<char>) -> int {
    let t = ("openom.org/core/preferred/v1"@, (about, ("openom.org/core/name/v1"@, content)));
    backers(d, t).len() - deniers(d, t).len()
}

/// The claim is a name of this person, with this reference.
pub open spec fn names(d: Seq<RecordModel>, policy: Policy, c: ClaimModel, p: Seq<char>, content: Seq<char>) -> bool {
    held(d, policy, c, p) && c.predicate == "openom.org/core/name/v1"@ && c.name_ref == Some(content)
}

/// This content can be the preferred name: it is preferred strongly enough, and it is the content of a name of the person.
pub open spec fn can_be_preferred(d: Seq<RecordModel>, policy: Policy, p: Seq<char>, about: Seq<char>, content: Seq<char>) -> bool {
    held_preferred(d, policy, p, about, content) && exists|c: ClaimModel| #[trigger] names(d, policy, c, p, content)
}

proof fn named_is_last(ns: Seq<ClaimModel>, r: Seq<char>)
    ensures
        match named(ns, r) {
            Some(id) => exists|k: int|
                0 <= k < ns.len() && (#[trigger] ns[k]).id == id && ns[k].name_ref == Some(r) && forall|j: int|
                    k < j < ns.len() ==> (#[trigger] ns[j]).name_ref != Some(r),
            None => forall|j: int| 0 <= j < ns.len() ==> (#[trigger] ns[j]).name_ref != Some(r),
        },
    decreases ns.len(),
{
    if ns.len() > 0 {
        let t = ns.drop_last();
        let n = ns.len() - 1;
        named_is_last(t, r);
        if ns[n].name_ref != Some(r) {
            match named(t, r) {
                Some(id) => {
                    let k = choose|k: int|
                        0 <= k < t.len() && (#[trigger] t[k]).id == id && t[k].name_ref == Some(r) && forall|j: int|
                            k < j < t.len() ==> (#[trigger] t[j]).name_ref != Some(r);
                    assert(ns[k] == t[k]);
                    assert forall|j: int| k < j < ns.len() implies (#[trigger] ns[j]).name_ref != Some(r) by {
                        if j < n {
                            assert(t[j].name_ref != Some(r));
                        }
                    }
                },
                None => {
                    assert forall|j: int| 0 <= j < ns.len() implies (#[trigger] ns[j]).name_ref != Some(r) by {
                        if j < n {
                            assert(t[j].name_ref != Some(r));
                        }
                    }
                },
            }
        } else {
            assert(ns[n].id == ns.last().id);
        }
    }
}

/// The names of a person, in the order of their ids.
proof fn names_in_order(d: Seq<RecordModel>, policy: Policy, p: Seq<char>, r: Seq<char>)
    requires
        crate::projection::collect::distinct_ids(d),
    ensures
        ({
            let f = facts(d);
            let ns = name_claims(f, slice(placed(f, identity(f, policy)), p));
            &&& refs(ns).finite()
            &&& refs(ns).contains(r) <==> exists|c: ClaimModel| #[trigger] names(d, policy, c, p, r)
            &&& match named(ns, r) {
                Some(id) => exists|c: ClaimModel| #[trigger]
                    names(d, policy, c, p, r) && c.id == id && forall|o: ClaimModel| #[trigger]
                        names(d, policy, o, p, r) ==> o.id == id || text_before(o.id, id),
                None => forall|o: ClaimModel| !#[trigger] names(d, policy, o, p, r),
            }
        }),
{
    let f = facts(d);
    let ids = slice(placed(f, identity(f, policy)), p);
    let test = |c: ClaimModel| c.predicate == "openom.org/core/name/v1"@;
    chosen_are_held(d, policy, p, test);
    let q = chosen(f, ids, test);
    let ns = name_claims(f, ids);
    assert(ns =~= q.map_values(|id: Seq<char>| f.claims[id]));
    let got = ns.map_values(|c: ClaimModel| c.name_ref->0);
    vstd::seq_lib::seq_to_set_is_finite(got);
    assert(refs(ns).subset_of(got.to_set())) by {
        assert forall|x: Seq<char>| refs(ns).contains(x) implies got.to_set().contains(x) by {
            let i = choose|i: int| 0 <= i < ns.len() && (#[trigger] ns[i]).name_ref == Some(x);
            assert(got[i] == x);
        }
    }
    vstd::set_lib::lemma_set_subset_finite(got.to_set(), refs(ns));
    placed_are_held(d, policy, p);
    assert forall|c: ClaimModel| #[trigger] names(d, policy, c, p, r) implies exists|k: int| 0 <= k < ns.len() && #[trigger] ns[k] == c by {
        assert(test(c));
        let k = choose|k: int| 0 <= k < q.len() && q[k] == c.id;
        assert(ns[k] == f.claims[q[k]]);
        assert(ns[k] == c);
    }
    assert forall|k: int| 0 <= k < ns.len() && (#[trigger] ns[k]).name_ref == Some(r) implies names(d, policy, ns[k], p, r) by {
        assert(ns[k] == f.claims[q[k]]);
    }
    if refs(ns).contains(r) {
        let i = choose|i: int| 0 <= i < ns.len() && (#[trigger] ns[i]).name_ref == Some(r);
        assert(names(d, policy, ns[i], p, r));
    }
    if exists|c: ClaimModel| #[trigger] names(d, policy, c, p, r) {
        let c = choose|c: ClaimModel| #[trigger] names(d, policy, c, p, r);
        let k = choose|k: int| 0 <= k < ns.len() && #[trigger] ns[k] == c;
        assert(ns[k].name_ref == Some(r));
    }
    named_is_last(ns, r);
    match named(ns, r) {
        Some(id) => {
            let k = choose|k: int|
                0 <= k < ns.len() && (#[trigger] ns[k]).id == id && ns[k].name_ref == Some(r) && forall|j: int|
                    k < j < ns.len() ==> (#[trigger] ns[j]).name_ref != Some(r);
            assert(names(d, policy, ns[k], p, r));
            assert forall|o: ClaimModel| #[trigger] names(d, policy, o, p, r) implies o.id == id || text_before(o.id, id) by {
                let j = choose|j: int| 0 <= j < ns.len() && #[trigger] ns[j] == o;
                assert(ns[j] == f.claims[q[j]] && ns[k] == f.claims[q[k]]);
                if j < k {
                    assert(text_before(q[j], q[k]));
                }
            }
        },
        None => {
            assert forall|o: ClaimModel| !#[trigger] names(d, policy, o, p, r) by {
                if names(d, policy, o, p, r) {
                    let j = choose|j: int| 0 <= j < ns.len() && #[trigger] ns[j] == o;
                    assert(ns[j].name_ref != Some(r));
                }
            }
        },
    }
}

/// The preferred name that a person shows is the name with the content that is preferred most strongly for them, of several
/// equally strong the least content; of several names with that content the one with the greatest id; and none where no
/// content of their names is preferred strongly enough.
pub proof fn which_name_is_preferred(records: Vec<Record>, policy: Policy, calendar: Calendar, r: Projection, i: int)
    requires
        call_ensures(project, (&records, &policy, &calendar), r),
        0 <= i < r@.people.len(),
    ensures
        ({
            let d = counted(records);
            let p = r@.people[i].id;
            match r@.people[i].preferred_name {
                Some(id) => exists|about: Seq<char>, content: Seq<char>| #[trigger]
                    can_be_preferred(d, policy, p, about, content) && (forall|x: Seq<char>, other: Seq<char>| #[trigger]
                        can_be_preferred(d, policy, p, x, other) ==> other == content && preferred_by(d, x, other) <= preferred_by(
                            d,
                            about,
                            content,
                        ) || preferred_by(d, x, other) < preferred_by(d, about, content) || preferred_by(d, x, other)
                            == preferred_by(d, about, content) && text_before(content, other)) && exists|c: ClaimModel| #[trigger]
                        names(d, policy, c, p, content) && c.id == id && forall|o: ClaimModel| #[trigger]
                            names(d, policy, o, p, content) ==> o.id == id || text_before(o.id, id),
                None => forall|x: Seq<char>, other: Seq<char>| !#[trigger] can_be_preferred(d, policy, p, x, other),
            }
        }),
{
    let d = counted(records);
    let p = drawn(records, policy, calendar, r, i);
    let f = facts(d);
    let n = identity(f, policy);
    let ns = name_claims(f, slice(placed(f, n), p));
    let prefers = "openom.org/core/preferred/v1"@;
    let name = "openom.org/core/name/v1"@;
    let give = preferences(f, n, p, refs(ns));
    let ties = strong(f, prefers, policy.preferred_threshold);
    strong_is_finite(d, prefers, policy.preferred_threshold);
    imaged_is_finite(ties, give);
    let ranked = imaged(ties, give);
    least_exists::<(Desc, String)>(ranked);
    assert forall|x: Seq<char>, content: Seq<char>| #[trigger] can_be_preferred(d, policy, p, x, content) implies ranked.contains(
        (preferred_by(d, x, content), content),
    ) by {
        let t = (prefers, (x, (name, content)));
        which_ties_are_strong(d, prefers, policy.preferred_threshold, t);
        how_strongly_a_tie_is_held(d, t);
        names_in_order(d, policy, p, content);
        assert(give(t) == Some((preferred_by(d, x, content), content)));
    }
    assert forall|y: (int, Seq<char>)| #[trigger] ranked.contains(y) implies exists|x: Seq<char>| #[trigger]
        can_be_preferred(d, policy, p, x, y.1) && preferred_by(d, x, y.1) == y.0 by {
        let t = choose|t: TieModel| #[trigger] ties.contains(t) && give(t) == Some(y);
        which_ties_are_strong(d, prefers, policy.preferred_threshold, t);
        how_strongly_a_tie_is_held(d, t);
        names_in_order(d, policy, p, y.1);
        assert(t == (prefers, (t.1.0, (name, y.1))));
        assert(can_be_preferred(d, policy, p, t.1.0, y.1));
    }
    assert(r@.people[i].preferred_name == preferred_among(f, n, policy, p, ns));
    match least::<(Desc, String)>(ranked) {
        Some(l) => {
            assert(ranked.contains(l));
            let about = choose|x: Seq<char>| #[trigger] can_be_preferred(d, policy, p, x, l.1) && preferred_by(d, x, l.1) == l.0;
            let content = l.1;
            names_in_order(d, policy, p, content);
            assert forall|x: Seq<char>, other: Seq<char>| #[trigger] can_be_preferred(d, policy, p, x, other) implies other
                == content && preferred_by(d, x, other) <= preferred_by(d, about, content) || preferred_by(d, x, other)
                < preferred_by(d, about, content) || preferred_by(d, x, other) == preferred_by(d, about, content) && text_before(
                content,
                other,
            ) by {
                let y = (preferred_by(d, x, other), other);
                assert(ranked.contains(y));
                assert(l == y || <(Desc, String)>::before(l, y));
            }
        },
        None => {
            assert forall|x: Seq<char>, other: Seq<char>| !#[trigger] can_be_preferred(d, policy, p, x, other) by {
                if can_be_preferred(d, policy, p, x, other) {
                    assert(ranked.contains((preferred_by(d, x, other), other)));
                }
            }
        },
    }
}

/// Where a person has one name with some content, that content is preferred for them strongly enough, and none of their
/// other names' contents is, the preferred name that they show is that name.
pub proof fn the_preferred_name_is_shown(
    records: Vec<Record>,
    policy: Policy,
    calendar: Calendar,
    r: Projection,
    i: int,
    c: ClaimModel,
    about: Seq<char>,
    content: Seq<char>,
)
    requires
        call_ensures(project, (&records, &policy, &calendar), r),
        0 <= i < r@.people.len(),
        names(counted(records), policy, c, r@.people[i].id, content),
        forall|o: ClaimModel| #[trigger] names(counted(records), policy, o, r@.people[i].id, content) ==> o.id == c.id,
        held_preferred(counted(records), policy, r@.people[i].id, about, content),
        forall|x: Seq<char>, other: Seq<char>| #[trigger]
            can_be_preferred(counted(records), policy, r@.people[i].id, x, other) ==> other == content,
    ensures
        r@.people[i].preferred_name == Some(c.id),
{
    which_name_is_preferred(records, policy, calendar, r, i);
    assert(can_be_preferred(counted(records), policy, r@.people[i].id, about, content));
}

/// The claim links a blob.
pub open spec fn links(c: ClaimModel, hash: Seq<char>) -> bool {
    c.predicate == "openom.org/core/media_link/v1"@ && has_text(c.value, "mediaHash"@, hash)
}

/// What the value says under other keys than this, in its order.
pub open spec fn rest_of(v: Json, key: Seq<char>) -> Seq<(Seq<char>, Json)> {
    v->Object_0.filter(|m: (Seq<char>, Json)| m.0 != key)
}

/// The link is one that a claim makes that belongs to this person, with the rest of what the claim says.
pub open spec fn is_media_of(d: Seq<RecordModel>, policy: Policy, p: Seq<char>, m: crate::projection::views::MediaModel) -> bool {
    exists|c: ClaimModel| #[trigger]
        held(d, policy, c, p) && links(c, m.media_hash) && m.claim_id == c.id && m.value == rest_of(c.value, "mediaHash"@)
}

/// See `which_media_are_shown`.
pub open spec fn shows_media(d: Seq<RecordModel>, policy: Policy, p: PersonModel) -> bool {
    &&& forall|k: int|
        0 <= k < p.media.len() ==> is_media_of(d, policy, p.id, #[trigger] p.media[k])
    &&& forall|c: ClaimModel, hash: Seq<char>| #[trigger]
        held(d, policy, c, p.id) && #[trigger] links(c, hash) ==> exists|k: int|
            0 <= k < p.media.len() && (#[trigger] p.media[k]).claim_id == c.id
    &&& forall|x: int, y: int| #![trigger p.media[x], p.media[y]]
        0 <= x < y < p.media.len() ==> text_before(p.media[x].claim_id, p.media[y].claim_id)
}

/// The blobs that a person shows are those that the claims that belong to them link, each claim once and in the order of
/// the ids, with the rest of what the claim says.
pub proof fn which_media_are_shown(records: Vec<Record>, policy: Policy, calendar: Calendar, r: Projection, i: int)
    requires
        call_ensures(project, (&records, &policy, &calendar), r),
        0 <= i < r@.people.len(),
    ensures
        shows_media(counted(records), policy, r@.people[i]),
{
    let d = counted(records);
    let id = drawn(records, policy, calendar, r, i);
    let f = facts(d);
    let p = r@.people[i];
    let media = "openom.org/core/media_link/v1"@;
    let test = |c: ClaimModel| crate::projection::record::trait_of(c, media) is Some;
    let ids = slice(placed(f, identity(f, policy)), id);
    chosen_are_held(d, policy, id, test);
    let q = chosen(f, ids, test);
    assert(p.media == q.map_values(|id: Seq<char>| media_view(f.claims[id])));
    reveal_strlit("openom.org/core/sex/v1");
    reveal_strlit("openom.org/core/biography/v1");
    reveal_strlit("openom.org/core/media_link/v1");
    assert("openom.org/core/sex/v1"@[16] == 's' && "openom.org/core/biography/v1"@[16] == 'b' && media[16] == 'm');
    assert forall|k: int| 0 <= k < p.media.len() implies is_media_of(d, policy, p.id, #[trigger] p.media[k]) by {
        let c = f.claims[q[k]];
        assert(held(d, policy, c, id));
        assert(p.media[k] == media_view(c));
        assert(links(c, p.media[k].media_hash));
    }
    assert forall|c: ClaimModel, hash: Seq<char>| #[trigger] held(d, policy, c, p.id) && #[trigger] links(c, hash) implies exists|
        k: int,
    | 0 <= k < p.media.len() && (#[trigger] p.media[k]).claim_id == c.id by {
        assert(test(c));
        let k = choose|k: int| 0 <= k < q.len() && q[k] == c.id;
        assert(p.media[k].claim_id == f.claims[q[k]].id);
    }
    assert forall|x: int, y: int| #![trigger p.media[x], p.media[y]] 0 <= x < y < p.media.len() implies text_before(
        p.media[x].claim_id,
        p.media[y].claim_id,
    ) by {
        assert(text_before(q[x], q[y]));
        assert(p.media[x] == media_view(f.claims[q[x]]) && p.media[y] == media_view(f.claims[q[y]]));
    }
}

/// The predicate has a meaning of its own.
pub open spec fn has_meaning(p: Seq<char>) -> bool {
    ||| p == "openom.org/core/name/v1"@
    ||| p == "openom.org/core/sex/v1"@
    ||| p == "openom.org/core/biography/v1"@
    ||| p == "openom.org/core/media_link/v1"@
    ||| p == "openom.org/core/custom/field/v1"@
    ||| p == "openom.org/core/custom/value/v1"@
    ||| p == "openom.org/core/existence/v1"@
    ||| p == "openom.org/core/same_as/v1"@
    ||| p == "openom.org/core/different_from/v1"@
    ||| p == "openom.org/core/reattribute_to/v1"@
    ||| p == "openom.org/core/preferred/v1"@
    ||| p == "openom.org/core/attest/v1"@
    ||| p == "openom.org/core/parent/v1"@
    ||| p == "openom.org/core/partnership/v1"@
    ||| p == "openom.org/core/event_type/v1"@
    ||| p == "openom.org/core/date/v1"@
    ||| p == "openom.org/core/event_place/v1"@
    ||| p == "openom.org/core/participant/v1"@
    ||| p == "openom.org/core/source/v1"@
    ||| p == "openom.org/core/place_point/v1"@
    ||| p == "openom.org/core/place_name/v1"@
    ||| p == "openom.org/core/part_of/v1"@
}

/// The claim is shown as it is, about what it is about.
pub open spec fn shown_plainly(d: Seq<RecordModel>, policy: Policy, c: ClaimModel, v: crate::projection::views::GenericModel) -> bool {
    &&& v.claim_id == c.id
    &&& v.target_id == subject(identity(facts(d), policy), c)
    &&& v.predicate == c.predicate
    &&& v.value == c.value
    &&& v.created_by == c.created_by
}

/// A claim that belongs to this person and has no meaning of its own is shown as it is.
pub open spec fn is_plain_of(d: Seq<RecordModel>, policy: Policy, p: Seq<char>, v: crate::projection::views::GenericModel) -> bool {
    exists|c: ClaimModel| #[trigger] held(d, policy, c, p) && !has_meaning(c.predicate) && shown_plainly(d, policy, c, v)
}

/// See `which_claims_are_shown_plainly`.
pub open spec fn shows_plainly(d: Seq<RecordModel>, policy: Policy, p: PersonModel) -> bool {
    &&& forall|k: int|
        0 <= k < p.other.len() ==> is_plain_of(d, policy, p.id, #[trigger] p.other[k])
    &&& forall|c: ClaimModel| #[trigger]
        held(d, policy, c, p.id) && !has_meaning(c.predicate) ==> exists|k: int|
            0 <= k < p.other.len() && (#[trigger] p.other[k]).claim_id == c.id
    &&& forall|x: int, y: int| #![trigger p.other[x], p.other[y]]
        0 <= x < y < p.other.len() ==> text_before(p.other[x].claim_id, p.other[y].claim_id)
}

/// The claims that a person shows as they are, are those that belong to them and whose predicates have no meaning of their
/// own, each once and in the order of the ids.
pub proof fn which_claims_are_shown_plainly(records: Vec<Record>, policy: Policy, calendar: Calendar, r: Projection, i: int)
    requires
        call_ensures(project, (&records, &policy, &calendar), r),
        0 <= i < r@.people.len(),
    ensures
        shows_plainly(counted(records), policy, r@.people[i]),
{
    let d = counted(records);
    let id = drawn(records, policy, calendar, r, i);
    let f = facts(d);
    let n = identity(f, policy);
    let p = r@.people[i];
    let test = |c: ClaimModel| !crate::projection::record::known(c.predicate);
    let ids = slice(placed(f, n), id);
    chosen_are_held(d, policy, id, test);
    let q = chosen(f, ids, test);
    assert(p.other == q.map_values(|id: Seq<char>| generic_view(n, f.claims[id])));
    assert forall|k: int| 0 <= k < p.other.len() implies is_plain_of(d, policy, p.id, #[trigger] p.other[k]) by {
        let c = f.claims[q[k]];
        assert(held(d, policy, c, id));
        assert(p.other[k] == generic_view(n, c));
    }
    assert forall|c: ClaimModel| #[trigger] held(d, policy, c, p.id) && !has_meaning(c.predicate) implies exists|k: int|
        0 <= k < p.other.len() && (#[trigger] p.other[k]).claim_id == c.id by {
        assert(test(c));
        let k = choose|k: int| 0 <= k < q.len() && q[k] == c.id;
        assert(p.other[k].claim_id == f.claims[q[k]].id);
    }
    assert forall|x: int, y: int| #![trigger p.other[x], p.other[y]] 0 <= x < y < p.other.len() implies text_before(
        p.other[x].claim_id,
        p.other[y].claim_id,
    ) by {
        assert(text_before(q[x], q[y]));
        assert(p.other[x] == generic_view(n, f.claims[q[x]]) && p.other[y] == generic_view(n, f.claims[q[y]]));
    }
}

/// A claim that has no meaning of its own and belongs to no one is shown as it is.
pub open spec fn is_stray(d: Seq<RecordModel>, policy: Policy, v: crate::projection::views::GenericModel) -> bool {
    exists|c: ClaimModel| #[trigger] astray(d, policy, c) && shown_plainly(d, policy, c, v)
}

/// See `which_claims_are_unclassified`.
pub open spec fn shows_strays(d: Seq<RecordModel>, policy: Policy, u: Seq<crate::projection::views::GenericModel>) -> bool {
    &&& forall|k: int|
        0 <= k < u.len() ==> is_stray(d, policy, #[trigger] u[k])
    &&& forall|c: ClaimModel| #[trigger]
        astray(d, policy, c) ==> exists|k: int| 0 <= k < u.len() && (#[trigger] u[k]).claim_id == c.id
    &&& forall|x: int, y: int| #![trigger u[x], u[y]]
        0 <= x < y < u.len() ==> text_before(u[x].target_id, u[y].target_id) || u[x].target_id == u[y].target_id && (
        text_before(u[x].predicate, u[y].predicate) || u[x].predicate == u[y].predicate && text_before(
            u[x].claim_id,
            u[y].claim_id,
        ))
}

/// The claims that are shown apart from any person are those whose predicates have no meaning of their own and that belong
/// to no person, each once, in the order of what they are about, then of their predicates, then of their ids.
pub proof fn which_claims_are_unclassified(records: Vec<Record>, policy: Policy, calendar: Calendar, r: Projection)
    requires
        call_ensures(project, (&records, &policy, &calendar), r),
    ensures
        shows_strays(counted(records), policy, r@.unclassified),
{
    let d = counted(records);
    firsts_are_distinct(record_models(records@));
    let f = facts(d);
    let n = identity(f, policy);
    facts_are_sound(d);
    let give = strays(f, n);
    imaged_is_finite(f.claims.dom(), give);
    let keys = imaged(f.claims.dom(), give);
    in_order_lists::<Three>(keys);
    let q = in_order::<Three>(keys);
    let u = r@.unclassified;
    assert(u == unclassified(f, n));
    assert(u.len() == q.len());
    assert forall|k: int| 0 <= k < u.len() implies astray(d, policy, f.claims[(#[trigger] q[k]).1.1]) && shown_plainly(
        d,
        policy,
        f.claims[q[k].1.1],
        u[k],
    ) && u[k].target_id == q[k].0 && u[k].predicate == q[k].1.0 && u[k].claim_id == q[k].1.1 by {
        assert(keys.contains(q[k]));
        let id = choose|id: Seq<char>| #[trigger] f.claims.dom().contains(id) && give(id) == Some(q[k]);
        told_is_filed(d, f.claims[id]);
        assert(u[k] == generic_view(n, f.claims[q[k].1.1]));
    }
    assert forall|k: int| 0 <= k < u.len() implies is_stray(d, policy, #[trigger] u[k]) by {
        assert(astray(d, policy, f.claims[q[k].1.1]));
    }
    assert forall|c: ClaimModel| #[trigger] astray(d, policy, c) implies exists|k: int|
        0 <= k < u.len() && (#[trigger] u[k]).claim_id == c.id by {
        told_is_filed(d, c);
        let x = (subject(n, c), (c.predicate, c.id));
        assert(f.claims.dom().contains(c.id) && give(c.id) == Some(x));
        assert(keys.contains(x));
        let k = choose|k: int| 0 <= k < q.len() && q[k] == x;
        assert(astray(d, policy, f.claims[q[k].1.1]));
        assert(u[k].claim_id == c.id);
    }
    assert forall|x: int, y: int| #![trigger u[x], u[y]] 0 <= x < y < u.len() implies text_before(
        u[x].target_id,
        u[y].target_id,
    ) || u[x].target_id == u[y].target_id && (text_before(u[x].predicate, u[y].predicate) || u[x].predicate == u[y].predicate
        && text_before(u[x].claim_id, u[y].claim_id)) by {
        assert(Three::before(q[x], q[y]));
        assert(astray(d, policy, f.claims[q[x].1.1]) && astray(d, policy, f.claims[q[y].1.1]));
    }
}

/// The claim is among the records, has no meaning of its own, and belongs to no one.
pub open spec fn astray(d: Seq<RecordModel>, policy: Policy, c: ClaimModel) -> bool {
    told(d, c) && !has_meaning(c.predicate) && canon(
        facts(d),
        identity(facts(d), policy),
        subject(identity(facts(d), policy), c),
    ) is None
}

} // verus!
