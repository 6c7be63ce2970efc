//! What is shown of kinship, of events and of places, as the claims have it.

use vstd::prelude::*;

use crate::order::{text_before, Key};
use crate::projection::collect::{events_in, facts, participants_in, place_names_in, votes_in, TieModel};
use crate::projection::events::{event, name_in, point_of, present, settled, Calendar, YearBounds};
use crate::projection::families::{parentage, parents, partners, partnership};
use crate::projection::kinship::{in_order_lists, slice_is_finite, strong_is_finite};
use crate::projection::laws::{gathered_is_finite, imaged_is_finite};
use crate::projection::meaning::{
    backers, claims_give, deniers, has_text, teller, text_or, told, which_ties_are_strong, who_is_taken_to_be_whom, held_same,
};
use crate::projection::portrait::counted;
use crate::projection::project::project;
use crate::projection::record::{ClaimModel, Record, RecordModel, Three, Two};
use crate::projection::resolve::{canon, identity, strong, Policy};
use crate::projection::views::{EventModel, PlaceModel, Projection};
use crate::sorted::{in_order, least};
use crate::tables::{imaged, slice, winner};

verus! {

/// Whom this stands for.
pub open spec fn stands_for(d: Seq<RecordModel>, policy: Policy, x: Seq<char>, p: Seq<char>) -> bool {
    canon(facts(d), identity(facts(d), policy), x) == Some(p)
}

/// It is told that the one is the other's parent, of this kind, strongly enough.
pub open spec fn held_parent(d: Seq<RecordModel>, policy: Policy, child: Seq<char>, parent: Seq<char>, kind: Seq<char>) -> bool {
    let t = ("openom.org/core/parent/v1"@, (child, (parent, kind)));
    (exists|who: Seq<char>| teller(d, t, who)) && backers(d, t).len() - deniers(d, t).len() >= policy.relationship_threshold
}

/// It is told that the two are partners, in this role, strongly enough.
pub open spec fn held_partners(d: Seq<RecordModel>, policy: Policy, a: Seq<char>, b: Seq<char>, role: Seq<char>) -> bool {
    let t = ("openom.org/core/partnership/v1"@, (a, (b, role)));
    (exists|who: Seq<char>| teller(d, t, who)) && backers(d, t).len() - deniers(d, t).len() >= policy.relationship_threshold
}

/// A parentage is shown between two different people exactly where it is held of such as stand for them; each is shown
/// once, in ascending order.
pub proof fn which_parents_are_shown(records: Vec<Record>, policy: Policy, calendar: Calendar, r: Projection)
    requires
        call_ensures(project, (&records, &policy, &calendar), r),
    ensures
        forall|p: Seq<char>, c: Seq<char>, kind: Seq<char>| #[trigger]
            r@.parent_child.contains((p, (c, kind))) <==> p != c && exists|x: Seq<char>, y: Seq<char>| #[trigger]
                held_parent(counted(records), policy, x, y, kind) && stands_for(counted(records), policy, x, c) && stands_for(
                    counted(records),
                    policy,
                    y,
                    p,
                ),
        crate::sorted::ascends::<Three>(r@.parent_child),
{
    let d = counted(records);
    let f = facts(d);
    let n = identity(f, policy);
    let parent = "openom.org/core/parent/v1"@;
    let ties = strong(f, parent, policy.relationship_threshold);
    let give = parentage(f, n);
    strong_is_finite(d, parent, policy.relationship_threshold);
    imaged_is_finite(ties, give);
    let pc = parents(f, n, policy);
    in_order_lists::<Three>(pc);
    assert forall|p: Seq<char>, c: Seq<char>, kind: Seq<char>| #[trigger] r@.parent_child.contains((p, (c, kind))) <==> p != c
        && exists|x: Seq<char>, y: Seq<char>| #[trigger]
        held_parent(d, policy, x, y, kind) && stands_for(d, policy, x, c) && stands_for(d, policy, y, p) by {
        let shown = (p, (c, kind));
        if pc.contains(shown) {
            let t = choose|t: TieModel| #[trigger] ties.contains(t) && give(t) == Some(shown);
            which_ties_are_strong(d, parent, policy.relationship_threshold, t);
            assert(t == (parent, (t.1.0, (t.1.1.0, kind))));
            assert(held_parent(d, policy, t.1.0, t.1.1.0, kind));
        }
        if p != c && exists|x: Seq<char>, y: Seq<char>| #[trigger]
            held_parent(d, policy, x, y, kind) && stands_for(d, policy, x, c) && stands_for(d, policy, y, p) {
            let (x, y) = choose|x: Seq<char>, y: Seq<char>| #[trigger]
                held_parent(d, policy, x, y, kind) && stands_for(d, policy, x, c) && stands_for(d, policy, y, p);
            let t = (parent, (x, (y, kind)));
            which_ties_are_strong(d, parent, policy.relationship_threshold, t);
            assert(give(t) == Some(shown));
        }
    }
}

/// A partnership is shown between two different people, the lesser first, exactly where it is held of such as stand for
/// them; each is shown once, in ascending order.
pub proof fn which_partners_are_shown(records: Vec<Record>, policy: Policy, calendar: Calendar, r: Projection)
    requires
        call_ensures(project, (&records, &policy, &calendar), r),
    ensures
        forall|a: Seq<char>, b: Seq<char>, role: Seq<char>| #[trigger]
            r@.partnerships.contains(((a, b), role)) <==> text_before(a, b) && exists|x: Seq<char>, y: Seq<char>| #[trigger]
                held_partners(counted(records), policy, x, y, role) && (stands_for(counted(records), policy, x, a) && stands_for(
                    counted(records),
                    policy,
                    y,
                    b,
                ) || stands_for(counted(records), policy, x, b) && stands_for(counted(records), policy, y, a)),
        crate::sorted::ascends::<(Two, String)>(r@.partnerships),
{
    let d = counted(records);
    let f = facts(d);
    let n = identity(f, policy);
    let partner = "openom.org/core/partnership/v1"@;
    let ties = strong(f, partner, policy.relationship_threshold);
    let give = partnership(f, n);
    strong_is_finite(d, partner, policy.relationship_threshold);
    imaged_is_finite(ties, give);
    let pn = partners(f, n, policy);
    in_order_lists::<(Two, String)>(pn);
    assert forall|a: Seq<char>, b: Seq<char>, role: Seq<char>| #[trigger] r@.partnerships.contains(((a, b), role))
        <==> text_before(a, b) && exists|x: Seq<char>, y: Seq<char>| #[trigger]
        held_partners(d, policy, x, y, role) && (stands_for(d, policy, x, a) && stands_for(d, policy, y, b) || stands_for(
            d,
            policy,
            x,
            b,
        ) && stands_for(d, policy, y, a)) by {
        let shown = ((a, b), role);
        <String as Key>::before_irreflexive(a);
        if pn.contains(shown) {
            let t = choose|t: TieModel| #[trigger] ties.contains(t) && give(t) == Some(shown);
            which_ties_are_strong(d, partner, policy.relationship_threshold, t);
            assert(t == (partner, (t.1.0, (t.1.1.0, role))));
            assert(held_partners(d, policy, t.1.0, t.1.1.0, role));
            <String as Key>::before_total(a, b);
        }
        if text_before(a, b) && exists|x: Seq<char>, y: Seq<char>| #[trigger]
            held_partners(d, policy, x, y, role) && (stands_for(d, policy, x, a) && stands_for(d, policy, y, b) || stands_for(
                d,
                policy,
                x,
                b,
            ) && stands_for(d, policy, y, a)) {
            let (x, y) = choose|x: Seq<char>, y: Seq<char>| #[trigger]
                held_partners(d, policy, x, y, role) && (stands_for(d, policy, x, a) && stands_for(d, policy, y, b) || stands_for(
                    d,
                    policy,
                    x,
                    b,
                ) && stands_for(d, policy, y, a));
            let t = (partner, (x, (y, role)));
            which_ties_are_strong(d, partner, policy.relationship_threshold, t);
            if text_before(b, a) {
                <String as Key>::before_transitive(a, b, a);
            }
            assert(give(t) == Some(shown));
        }
    }
}

/// Every conflict that is shown is between two that are held to be one person and were not joined because of others that
/// are held not to be one; and all such are shown, each once, in ascending order.
pub proof fn which_conflicts_are_shown(records: Vec<Record>, policy: Policy, calendar: Calendar, r: Projection)
    requires
        call_ensures(project, (&records, &policy, &calendar), r),
    ensures
        ({
            let d = counted(records);
            let label = identity(facts(d), policy).label;
            &&& forall|a: Seq<char>, b: Seq<char>| #[trigger] r@.conflicts.contains((a, b)) ==> held_same(d, policy, a, b)
            &&& forall|a: Seq<char>, b: Seq<char>| #[trigger]
                held_same(d, policy, a, b) && label[a] != label[b] ==> r@.conflicts.contains((a, b))
            &&& crate::sorted::ascends::<Two>(r@.conflicts)
        }),
{
    let d = counted(records);
    let f = facts(d);
    let n = identity(f, policy);
    who_is_taken_to_be_whom(d, policy);
    let es = crate::projection::resolve::edges(f, policy);
    strong_is_finite(d, "openom.org/core/same_as/v1"@, policy.same_as_threshold);
    imaged_is_finite(
        strong(f, "openom.org/core/same_as/v1"@, policy.same_as_threshold),
        crate::projection::resolve::edge_of(f),
    );
    let pairs = imaged(es, |e: (int, (Seq<char>, Seq<char>))| Some(e.1));
    imaged_is_finite(es, |e: (int, (Seq<char>, Seq<char>))| Some(e.1));
    assert(n.skipped.subset_of(pairs)) by {
        assert forall|p: (Seq<char>, Seq<char>)| n.skipped.contains(p) implies pairs.contains(p) by {
            crate::projection::meaning::edges_are_held(d, policy);
            assert(held_same(d, policy, p.0, p.1));
            let k = choose|k: int| #[trigger] es.contains((k, (p.0, p.1)));
            let e = (k, (p.0, p.1));
            assert(es.contains(e) && (|e: (int, (Seq<char>, Seq<char>))| Some(e.1))(e) == Some(p));
        }
    }
    vstd::set_lib::lemma_set_subset_finite(pairs, n.skipped);
    in_order_lists::<Two>(n.skipped);
    assert forall|a: Seq<char>, b: Seq<char>| #[trigger] r@.conflicts.contains((a, b)) implies held_same(d, policy, a, b) by {
        assert(n.skipped.contains((a, b)));
    }
}

/// Someone says that this is so of this, under this predicate and key.
pub open spec fn votes_for(
    d: Seq<RecordModel>,
    predicate: Seq<char>,
    about: Seq<char>,
    key: Seq<char>,
    text: Seq<char>,
    who: Seq<char>,
) -> bool {
    exists|c: ClaimModel| #[trigger]
        told(d, c) && c.predicate == predicate && c.target_id == about && has_text(c.value, key, text) && c.created_by == who
}

/// What is said of this under this predicate and key, and by whom.
pub open spec fn votes(d: Seq<RecordModel>, predicate: Seq<char>, about: Seq<char>, key: Seq<char>) -> Set<(Seq<char>, Seq<char>)> {
    Set::new(|x: (Seq<char>, Seq<char>)| votes_for(d, predicate, about, key, x.0, x.1))
}

/// The predicates that settle a slot are different texts.
pub proof fn slots_are_apart()
    ensures
        "openom.org/core/place_point/v1"@ != "openom.org/core/part_of/v1"@,
        "openom.org/core/place_point/v1"@ != "openom.org/core/event_type/v1"@,
        "openom.org/core/place_point/v1"@ != "openom.org/core/date/v1"@,
        "openom.org/core/place_point/v1"@ != "openom.org/core/event_place/v1"@,
        "openom.org/core/custom/field/v1"@ != "openom.org/core/part_of/v1"@,
        "openom.org/core/custom/field/v1"@ != "openom.org/core/event_type/v1"@,
        "openom.org/core/custom/field/v1"@ != "openom.org/core/date/v1"@,
        "openom.org/core/custom/field/v1"@ != "openom.org/core/event_place/v1"@,
        "openom.org/core/custom/field/v1"@ != "openom.org/core/place_point/v1"@,
        "openom.org/core/part_of/v1"@ != "openom.org/core/event_type/v1"@,
        "openom.org/core/part_of/v1"@ != "openom.org/core/date/v1"@,
        "openom.org/core/part_of/v1"@ != "openom.org/core/event_place/v1"@,
        "openom.org/core/event_type/v1"@ != "openom.org/core/date/v1"@,
        "openom.org/core/event_type/v1"@ != "openom.org/core/event_place/v1"@,
        "openom.org/core/date/v1"@ != "openom.org/core/event_place/v1"@,
{
    reveal_strlit("openom.org/core/place_point/v1");
    reveal_strlit("openom.org/core/custom/field/v1");
    reveal_strlit("openom.org/core/part_of/v1");
    reveal_strlit("openom.org/core/event_type/v1");
    reveal_strlit("openom.org/core/date/v1");
    reveal_strlit("openom.org/core/event_place/v1");
    let (a, b, c, d, e, f) = (
        "openom.org/core/place_point/v1"@,
        "openom.org/core/custom/field/v1"@,
        "openom.org/core/part_of/v1"@,
        "openom.org/core/event_type/v1"@,
        "openom.org/core/date/v1"@,
        "openom.org/core/event_place/v1"@,
    );
    assert(a[16] == 'p' && b[16] == 'c' && c[16] == 'p' && d[16] == 'e' && e[16] == 'd' && f[16] == 'e');
    assert(a[17] == 'l' && c[17] == 'a');
    assert(d[22] == 't' && f[22] == 'p');
}

/// The slots that a text settles, with the keys that hold it.
pub open spec fn is_slot(predicate: Seq<char>, key: Seq<char>) -> bool {
    ||| predicate == "openom.org/core/event_type/v1"@ && key == "type"@
    ||| predicate == "openom.org/core/date/v1"@ && key == "edtf"@
    ||| predicate == "openom.org/core/event_place/v1"@ && key == "placeId"@
    ||| predicate == "openom.org/core/part_of/v1"@ && key == "parentPlaceId"@
}

/// What is settled of something is what most people say of it, of several the least.
pub proof fn what_is_settled(d: Seq<RecordModel>, predicate: Seq<char>, about: Seq<char>, key: Seq<char>)
    requires
        is_slot(predicate, key),
    ensures
        votes(d, predicate, about, key).finite(),
        settled(facts(d), predicate, about) == winner::<String, Seq<char>>(votes(d, predicate, about, key)),
{
    let f = facts(d);
    slots_are_apart();
    gathered_is_finite(d, votes_in());
    slice_is_finite(f.votes, predicate);
    slice_is_finite(slice(f.votes, predicate), about);
    let all = slice(slice(f.votes, predicate), about);
    assert forall|x: (Seq<char>, Seq<char>)| all.contains(x) == votes(d, predicate, about, key).contains(x) by {
        let m = (predicate, (about, x));
        assert(all.contains(x) == f.votes.contains(m));
        claims_give(d, votes_in(), m);
        if all.contains(x) {
            let c = choose|c: ClaimModel| #[trigger] told(d, c) && votes_in()(RecordModel::Claim(c)) == Some(m);
            assert(has_text(c.value, key, x.0));
            assert(votes_for(d, predicate, about, key, x.0, x.1));
        }
        if votes_for(d, predicate, about, key, x.0, x.1) {
            let c = choose|c: ClaimModel| #[trigger]
                told(d, c) && c.predicate == predicate && c.target_id == about && has_text(c.value, key, x.0) && c.created_by == x.1;
            assert(votes_in()(RecordModel::Claim(c)) == Some(m));
        }
    }
    assert(all =~= votes(d, predicate, about, key));
}

/// The event's anchor is among the records.
pub open spec fn is_event(d: Seq<RecordModel>, id: Seq<char>) -> bool {
    exists|i: int|
        0 <= i < d.len() && ((#[trigger] d[i]) matches RecordModel::Anchor { id: x, type_uri, .. } && x == id && type_uri
            == "openom.org/core/event/v1"@)
}

/// The claim says that something that stands for this person takes part in the event, in this role.
pub open spec fn takes_part(d: Seq<RecordModel>, policy: Policy, event: Seq<char>, p: Seq<char>, role: Seq<char>) -> bool {
    exists|c: ClaimModel, x: Seq<char>| #[trigger]
        told(d, c) && c.predicate == "openom.org/core/participant/v1"@ && c.target_id == event && #[trigger] has_text(
            c.value,
            "personId"@,
            x,
        ) && has_text(c.value, "role"@, role) && stands_for(d, policy, x, p)
}

/// The event is shown as it is settled: with the type, the date and the place that most people say, the years of the date
/// as the calendar has them, those who take part as the claims have it, and the place, where there is one, as it is at
/// that time.
pub open spec fn event_shown(d: Seq<RecordModel>, policy: Policy, cal: Map<Seq<char>, YearBounds>, e: EventModel) -> bool {
    &&& e.event_type == winner::<String, Seq<char>>(votes(d, "openom.org/core/event_type/v1"@, e.id, "type"@))
    &&& e.date_edtf == winner::<String, Seq<char>>(votes(d, "openom.org/core/date/v1"@, e.id, "edtf"@))
    &&& e.place_id == winner::<String, Seq<char>>(votes(d, "openom.org/core/event_place/v1"@, e.id, "placeId"@))
    &&& match e.date_edtf {
        Some(t) => if cal.contains_key(t) {
            e.date_min_year == cal[t].min && e.date_max_year == cal[t].max
        } else {
            e.date_min_year is None && e.date_max_year is None
        },
        None => e.date_min_year is None && e.date_max_year is None,
    }
    &&& forall|p: Seq<char>, role: Seq<char>| #[trigger]
        e.participants.contains((p, role)) <==> takes_part(d, policy, e.id, p, role)
    &&& crate::sorted::ascends::<Two>(e.participants)
    &&& match (e.place_id, e.place) {
        (Some(id), Some(place)) => place_shown(
            d,
            cal,
            if e.date_min_year is Some {
                e.date_min_year
            } else {
                e.date_max_year
            },
            id,
            place,
        ),
        (None, None) => true,
        _ => false,
    }
}

/// The place is shown as it is settled: with the place that most people say it is part of, and with the name and the point
/// that are picked for it.
pub open spec fn place_shown(
    d: Seq<RecordModel>,
    cal: Map<Seq<char>, YearBounds>,
    year: Option<i32>,
    id: Seq<char>,
    place: PlaceModel,
) -> bool {
    &&& place.id == id
    &&& place.part_of == winner::<String, Seq<char>>(votes(d, "openom.org/core/part_of/v1"@, id, "parentPlaceId"@))
    &&& place.name == name_in(place_names(d, id), cal, year)
    &&& place.point == point_of(facts(d), id)
}

/// Someone says that the place had this name in this range; where the claim names none, in any.
pub open spec fn named_in_range(d: Seq<RecordModel>, place: Seq<char>, range: Seq<char>, name: Seq<char>, who: Seq<char>) -> bool {
    exists|c: ClaimModel| #[trigger]
        told(d, c) && c.predicate == "openom.org/core/place_name/v1"@ && c.target_id == place && has_text(c.value, "name"@, name)
            && range == text_or(c.value, "validRange"@, Seq::empty()) && c.created_by == who
}

/// The names that are said of the place, with their ranges, and by whom.
pub open spec fn place_names(d: Seq<RecordModel>, place: Seq<char>) -> Set<(Seq<char>, (Seq<char>, Seq<char>))> {
    Set::new(|x: (Seq<char>, (Seq<char>, Seq<char>))| named_in_range(d, place, x.0, x.1.0, x.1.1))
}

proof fn place_names_are_told(d: Seq<RecordModel>, place: Seq<char>)
    ensures
        place_names(d, place).finite(),
        place_names(d, place) == slice(facts(d).place_names, place),
{
    let f = facts(d);
    gathered_is_finite(d, place_names_in());
    slice_is_finite(f.place_names, place);
    let all = slice(f.place_names, place);
    reveal_strlit("");
    assert(""@ =~= Seq::<char>::empty());
    assert forall|x: (Seq<char>, (Seq<char>, Seq<char>))| all.contains(x) == place_names(d, place).contains(x) by {
        let m = (place, x);
        claims_give(d, place_names_in(), m);
        if all.contains(x) {
            assert(f.place_names.contains(m));
            let c = choose|c: ClaimModel| #[trigger] told(d, c) && place_names_in()(RecordModel::Claim(c)) == Some(m);
            assert(named_in_range(d, place, x.0, x.1.0, x.1.1));
        }
        if named_in_range(d, place, x.0, x.1.0, x.1.1) {
            let c = choose|c: ClaimModel| #[trigger]
                told(d, c) && c.predicate == "openom.org/core/place_name/v1"@ && c.target_id == place && has_text(
                    c.value,
                    "name"@,
                    x.1.0,
                ) && x.0 == text_or(c.value, "validRange"@, Seq::empty()) && c.created_by == x.1.1;
            assert(place_names_in()(RecordModel::Claim(c)) == Some(m));
        }
    }
    assert(all =~= place_names(d, place));
}

proof fn events_are_anchors(d: Seq<RecordModel>, id: Seq<char>)
    ensures
        facts(d).events.contains(id) <==> is_event(d, id),
        facts(d).events.finite(),
{
    let give = events_in();
    gathered_is_finite(d, give);
    if facts(d).events.contains(id) {
        let i = choose|i: int| 0 <= i < d.len() && give(#[trigger] d[i]) == Some(id);
        assert(d[i] is Anchor);
    }
    if is_event(d, id) {
        let i = choose|i: int|
            0 <= i < d.len() && ((#[trigger] d[i]) matches RecordModel::Anchor { id: x, type_uri, .. } && x == id && type_uri
                == "openom.org/core/event/v1"@);
        assert(give(d[i]) == Some(id));
    }
}

proof fn participants_are_told(d: Seq<RecordModel>, policy: Policy, id: Seq<char>)
    ensures
        ({
            let f = facts(d);
            let all = imaged(slice(f.participants, id), present(f, identity(f, policy)));
            &&& all.finite()
            &&& forall|p: Seq<char>, role: Seq<char>| #[trigger] all.contains((p, role)) <==> takes_part(d, policy, id, p, role)
        }),
{
    let f = facts(d);
    let n = identity(f, policy);
    let give = present(f, n);
    gathered_is_finite(d, participants_in());
    slice_is_finite(f.participants, id);
    let some = slice(f.participants, id);
    imaged_is_finite(some, give);
    let all = imaged(some, give);
    assert forall|p: Seq<char>, role: Seq<char>| #[trigger] all.contains((p, role)) <==> takes_part(d, policy, id, p, role) by {
        if all.contains((p, role)) {
            let x = choose|x: (Seq<char>, Seq<char>)| #[trigger] some.contains(x) && give(x) == Some((p, role));
            assert(f.participants.contains((id, x)));
            claims_give(d, participants_in(), (id, x));
            let c = choose|c: ClaimModel| #[trigger] told(d, c) && participants_in()(RecordModel::Claim(c)) == Some((id, x));
            assert(has_text(c.value, "personId"@, x.0));
            assert(takes_part(d, policy, id, p, role));
        }
        if takes_part(d, policy, id, p, role) {
            let (c, x) = choose|c: ClaimModel, x: Seq<char>| #[trigger]
                told(d, c) && c.predicate == "openom.org/core/participant/v1"@ && c.target_id == id && #[trigger] has_text(
                    c.value,
                    "personId"@,
                    x,
                ) && has_text(c.value, "role"@, role) && stands_for(d, policy, x, p);
            claims_give(d, participants_in(), (id, (x, role)));
            assert(participants_in()(RecordModel::Claim(c)) == Some((id, (x, role))));
            assert(some.contains((x, role)) && give((x, role)) == Some((p, role)));
        }
    }
}

/// The events that are shown are those whose anchors are among the records, each once and in ascending order, and each is
/// shown as it is settled.
pub proof fn which_events_are_shown(records: Vec<Record>, policy: Policy, calendar: Calendar, r: Projection)
    requires
        call_ensures(project, (&records, &policy, &calendar), r),
    ensures
        forall|i: int|
            0 <= i < r@.events.len() ==> is_event(counted(records), (#[trigger] r@.events[i]).id) && event_shown(
                counted(records),
                policy,
                calendar@,
                r@.events[i],
            ),
        forall|id: Seq<char>| #[trigger]
            is_event(counted(records), id) ==> exists|i: int| 0 <= i < r@.events.len() && (#[trigger] r@.events[i]).id == id,
        forall|i: int, j: int| #![trigger r@.events[i], r@.events[j]]
            0 <= i < j < r@.events.len() ==> text_before(r@.events[i].id, r@.events[j].id),
{
    let d = counted(records);
    let f = facts(d);
    let n = identity(f, policy);
    events_are_anchors(d, Seq::empty());
    in_order_lists::<String>(f.events);
    let q = in_order::<String>(f.events);
    assert(r@.events.len() == q.len());
    assert forall|i: int| 0 <= i < r@.events.len() implies is_event(d, (#[trigger] r@.events[i]).id) && event_shown(
        d,
        policy,
        calendar@,
        r@.events[i],
    ) && r@.events[i].id == q[i] by {
        assert(r@.events[i] == event(f, n, calendar@, q[i]));
        events_are_anchors(d, q[i]);
        an_event_is_shown(d, policy, calendar@, q[i]);
    }
    assert forall|id: Seq<char>| #[trigger] is_event(d, id) implies exists|i: int|
        0 <= i < r@.events.len() && (#[trigger] r@.events[i]).id == id by {
        events_are_anchors(d, id);
        assert(q.contains(id));
        let i = choose|i: int| 0 <= i < q.len() && q[i] == id;
        assert(r@.events[i].id == id);
    }
    assert forall|i: int, j: int| #![trigger r@.events[i], r@.events[j]] 0 <= i < j < r@.events.len() implies text_before(
        r@.events[i].id,
        r@.events[j].id,
    ) by {
        assert(String::before(q[i], q[j]));
    }
}

proof fn an_event_is_shown(d: Seq<RecordModel>, policy: Policy, cal: Map<Seq<char>, YearBounds>, id: Seq<char>)
    ensures
        event(facts(d), identity(facts(d), policy), cal, id).id == id,
        event_shown(d, policy, cal, event(facts(d), identity(facts(d), policy), cal, id)),
{
    let f = facts(d);
    let e = event(f, identity(f, policy), cal, id);
    what_is_settled(d, "openom.org/core/event_type/v1"@, id, "type"@);
    what_is_settled(d, "openom.org/core/date/v1"@, id, "edtf"@);
    what_is_settled(d, "openom.org/core/event_place/v1"@, id, "placeId"@);
    participants_are_told(d, policy, id);
    let all = imaged(slice(f.participants, id), present(f, identity(f, policy)));
    in_order_lists::<Two>(all);
    assert forall|p: Seq<char>, role: Seq<char>| #[trigger] e.participants.contains((p, role)) <==> takes_part(
        d,
        policy,
        e.id,
        p,
        role,
    ) by {
        assert(all.contains((p, role)) <==> takes_part(d, policy, id, p, role));
    }
    if let Some(place) = e.place_id {
        what_is_settled(d, "openom.org/core/part_of/v1"@, place, "parentPlaceId"@);
        place_names_are_told(d, place);
    }
}

} // verus!
