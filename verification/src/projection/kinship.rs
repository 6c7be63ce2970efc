//! What holds of the families that are shown.

use vstd::prelude::*;

use crate::order::{text_before, Key};
use crate::projection::collect::{facts, first_of_each, record_models};
use crate::projection::events::Calendar;
use crate::projection::families::{by_child, couples, families, family, parents, partners, spouses, unions, wedding, weds};
use crate::projection::laws::{gathered_is_finite, imaged_is_finite};
use crate::projection::project::project;
use crate::projection::record::{Record, Three, Two};
use crate::projection::resolve::{identity, strong, Policy};
use crate::projection::views::{EventModel, Projection, ProjectionModel};
use crate::sorted::{ascends, in_order, in_order_exists};
use crate::tables::{firsts, imaged, slice};
use crate::text::joined;

verus! {

/// A finite set's values, put in order, are the set's values, ascending, each once.
pub proof fn in_order_lists<K: Key>(s: Set<K::Model>)
    requires
        s.finite(),
    ensures
        ascends::<K>(in_order::<K>(s)),
        forall|x: K::Model| #![trigger in_order::<K>(s).contains(x)] #![trigger s.contains(x)]
            in_order::<K>(s).contains(x) <==> s.contains(x),
        forall|i: int| 0 <= i < in_order::<K>(s).len() ==> s.contains(#[trigger] in_order::<K>(s)[i]),
{
    in_order_exists::<K>(s);
    let q = in_order::<K>(s);
    assert forall|x: K::Model| #![trigger q.contains(x)] #![trigger s.contains(x)] q.contains(x) <==> s.contains(x) by {
        assert(q.to_set().contains(x) <==> q.contains(x));
    }
    assert forall|i: int| 0 <= i < q.len() implies s.contains(#[trigger] q[i]) by {
        assert(q.contains(q[i]));
    }
}

/// What a finite set pairs with something is finite.
pub proof fn firsts_is_finite<A, B>(s: Set<(A, B)>)
    requires
        s.finite(),
    ensures
        firsts(s).finite(),
{
    let give = |x: (A, B)| Some(x.0);
    imaged_is_finite(s, give);
    assert forall|a: A| #[trigger] firsts(s).contains(a) implies imaged(s, give).contains(a) by {
        let b = choose|b: B| s.contains((a, b));
        assert(give((a, b)) == Some(a));
    }
    vstd::set_lib::lemma_set_subset_finite(imaged(s, give), firsts(s));
}

/// What a finite set pairs with one thing is finite.
pub proof fn slice_is_finite<A, B>(s: Set<(A, B)>, a: A)
    requires
        s.finite(),
    ensures
        slice(s, a).finite(),
{
    let give = |x: (A, B)| Some(x.1);
    imaged_is_finite(s, give);
    assert forall|b: B| #[trigger] slice(s, a).contains(b) implies imaged(s, give).contains(b) by {
        assert(s.contains((a, b)) && give((a, b)) == Some(b));
    }
    vstd::set_lib::lemma_set_subset_finite(imaged(s, give), slice(s, a));
}

/// The ties that are held strongly enough are finitely many.
pub proof fn strong_is_finite(d: Seq<crate::projection::record::RecordModel>, predicate: Seq<char>, threshold: i64)
    ensures
        strong(facts(d), predicate, threshold).finite(),
{
    gathered_is_finite(d, crate::projection::collect::ties_in());
    firsts_is_finite(facts(d).ties);
    vstd::set_lib::lemma_set_subset_finite(firsts(facts(d).ties), strong(facts(d), predicate, threshold));
}

/// This parent is shown for this child.
pub open spec fn is_parent_of(m: ProjectionModel, parent: Seq<char>, child: Seq<char>) -> bool {
    exists|j: int| 0 <= j < m.parent_child.len() && (#[trigger] m.parent_child[j]).0 == parent && m.parent_child[j].1.0 == child
}

proof fn families_hold(pc: Set<(Seq<char>, (Seq<char>, Seq<char>))>, x: (Seq<char>, (Seq<char>, Seq<char>)))
    requires
        pc.finite(),
        pc.contains(x),
    ensures
        ({
            let ps = in_order::<String>(slice(by_child(pc), x.1.0));
            families(pc).contains((ps, x.1.0)) && firsts(families(pc)).contains(ps)
        }),
{
    let turn = |x: (Seq<char>, (Seq<char>, Seq<char>))| Some((x.1.0, x.0));
    let c = x.1.0;
    assert(turn(x) == Some((c, x.0)));
    assert(by_child(pc).contains((c, x.0)));
    assert(firsts(by_child(pc)).contains(c));
    let ps = in_order::<String>(slice(by_child(pc), c));
    assert(families(pc).contains((ps, c)));
}

proof fn family_is_of(pc: Set<(Seq<char>, (Seq<char>, Seq<char>))>, ps: Seq<Seq<char>>, c: Seq<char>)
    requires
        pc.finite(),
        families(pc).contains((ps, c)),
    ensures
        ps == in_order::<String>(slice(by_child(pc), c)),
        by_child(pc).finite(),
        slice(by_child(pc), c).finite(),
        exists|p: Seq<char>| #[trigger] by_child(pc).contains((c, p)),
{
    imaged_is_finite(pc, |x: (Seq<char>, (Seq<char>, Seq<char>))| Some((x.1.0, x.0)));
    slice_is_finite(by_child(pc), c);
    assert(firsts(by_child(pc)).contains(c));
    let p = choose|p: Seq<char>| by_child(pc).contains((c, p));
    assert(by_child(pc).contains((c, p)));
}

proof fn families_are_finite(pc: Set<(Seq<char>, (Seq<char>, Seq<char>))>, pn: Set<((Seq<char>, Seq<char>), Seq<char>)>)
    requires
        pc.finite(),
        pn.finite(),
    ensures
        families(pc).finite(),
        couples(pc, pn).finite(),
{
    imaged_is_finite(pc, |x: (Seq<char>, (Seq<char>, Seq<char>))| Some((x.1.0, x.0)));
    firsts_is_finite(by_child(pc));
    imaged_is_finite(
        firsts(by_child(pc)),
        |c: Seq<char>| Some((in_order::<String>(slice(by_child(pc), c)), c)),
    );
    firsts_is_finite(families(pc));
    imaged_is_finite(pn, |x: ((Seq<char>, Seq<char>), Seq<char>)| Some(seq![x.0.0, x.0.1]));
}

/// What `project` shows, with the parentages and the partnerships that it shows as finite sets.
proof fn shown_kin(records: Vec<Record>, policy: Policy, calendar: Calendar, r: Projection) -> (s: (
    Set<(Seq<char>, (Seq<char>, Seq<char>))>,
    Set<((Seq<char>, Seq<char>), Seq<char>)>,
))
    requires
        call_ensures(project, (&records, &policy, &calendar), r),
    ensures
        s.0.finite(),
        s.1.finite(),
        r@.parent_child == in_order::<Three>(s.0),
        r@.partnerships == in_order::<(Two, String)>(s.1),
        r@.unions == unions(s.0, s.1, r@.events),
{
    let d = first_of_each(record_models(records@));
    let f = facts(d);
    let n = identity(f, policy);
    strong_is_finite(d, crate::projection::record::P_PARENT@, policy.relationship_threshold);
    strong_is_finite(d, crate::projection::record::P_PARTNERSHIP@, policy.relationship_threshold);
    imaged_is_finite(
        strong(f, crate::projection::record::P_PARENT@, policy.relationship_threshold),
        crate::projection::families::parentage(f, n),
    );
    imaged_is_finite(
        strong(f, crate::projection::record::P_PARTNERSHIP@, policy.relationship_threshold),
        crate::projection::families::partnership(f, n),
    );
    (parents(f, n, policy), partners(f, n, policy))
}

proof fn shown_parents(m: ProjectionModel, pc: Set<(Seq<char>, (Seq<char>, Seq<char>))>, p: Seq<char>, c: Seq<char>)
    requires
        pc.finite(),
        m.parent_child == in_order::<Three>(pc),
    ensures
        by_child(pc).contains((c, p)) <==> is_parent_of(m, p, c),
{
    let turn = |x: (Seq<char>, (Seq<char>, Seq<char>))| Some((x.1.0, x.0));
    in_order_lists::<Three>(pc);
    if by_child(pc).contains((c, p)) {
        let x = choose|x: (Seq<char>, (Seq<char>, Seq<char>))| #[trigger] pc.contains(x) && turn(x) == Some((c, p));
        assert(m.parent_child.contains(x));
        let j = choose|j: int| 0 <= j < m.parent_child.len() && m.parent_child[j] == x;
        assert(m.parent_child[j].0 == p && m.parent_child[j].1.0 == c);
    }
    if is_parent_of(m, p, c) {
        let j = choose|j: int|
            0 <= j < m.parent_child.len() && (#[trigger] m.parent_child[j]).0 == p && m.parent_child[j].1.0 == c;
        let x = m.parent_child[j];
        assert(pc.contains(x) && turn(x) == Some((c, p)));
    }
}

/// For every parentage that is shown, exactly one family lists the child among its children, and the parents of that
/// family are exactly the parents that are shown for the child, however many there are.
pub proof fn every_child_is_in_one_family(records: Vec<Record>, policy: Policy, calendar: Calendar, r: Projection, i: int) -> (u: int)
    requires
        call_ensures(project, (&records, &policy, &calendar), r),
        0 <= i < r@.parent_child.len(),
    ensures
        0 <= u < r@.unions.len(),
        r@.unions[u].children.contains(r@.parent_child[i].1.0),
        forall|v: int|
            0 <= v < r@.unions.len() && (#[trigger] r@.unions[v]).children.contains(r@.parent_child[i].1.0) ==> v == u,
        forall|p: Seq<char>| #[trigger]
            r@.unions[u].parents.contains(p) <==> is_parent_of(r@, p, r@.parent_child[i].1.0),
{
    let m = r@;
    let (pc, pn) = shown_kin(records, policy, calendar, r);
    let x = m.parent_child[i];
    let c = x.1.0;
    in_order_lists::<Three>(pc);
    families_hold(pc, x);
    families_are_finite(pc, pn);
    let ps = in_order::<String>(slice(by_child(pc), c));
    let heads = in_order::<Vec<String>>(couples(pc, pn));
    in_order_lists::<Vec<String>>(couples(pc, pn));
    assert(couples(pc, pn).contains(ps));
    let u = choose|u: int| 0 <= u < heads.len() && heads[u] == ps;
    assert(m.unions[u] == family(pc, m.events, ps));
    slice_is_finite(families(pc), ps);
    in_order_lists::<String>(slice(families(pc), ps));
    assert(slice(families(pc), ps).contains(c));
    assert forall|v: int| 0 <= v < m.unions.len() && (#[trigger] m.unions[v]).children.contains(c) implies v == u by {
        let qs = heads[v];
        assert(m.unions[v] == family(pc, m.events, qs));
        slice_is_finite(families(pc), qs);
        in_order_lists::<String>(slice(families(pc), qs));
        assert(slice(families(pc), qs).contains(c));
        family_is_of(pc, qs, c);
        assert(qs == ps);
        Vec::<String>::before_irreflexive(ps);
        if v < u {
            assert(Vec::<String>::before(heads[v], heads[u]));
        }
        if u < v {
            assert(Vec::<String>::before(heads[u], heads[v]));
        }
    }
    family_is_of(pc, ps, c);
    in_order_lists::<String>(slice(by_child(pc), c));
    assert forall|p: Seq<char>| #[trigger] m.unions[u].parents.contains(p) <==> is_parent_of(m, p, c) by {
        shown_parents(m, pc, p, c);
        assert(ps.contains(p) <==> slice(by_child(pc), c).contains(p));
    }
    u
}

/// Someone takes part as a spouse.
pub open spec fn is_spouse(e: EventModel, p: Seq<char>) -> bool {
    exists|i: int| 0 <= i < e.participants.len() && #[trigger] e.participants[i] == (p, "spouse"@)
}

/// The event is a marriage or a divorce, and whoever takes part as a spouse is one of these people, and they all do.
pub open spec fn unites(e: EventModel, people: Seq<Seq<char>>) -> bool {
    (e.event_type == Some("marriage"@) || e.event_type == Some("divorce"@)) && forall|p: Seq<char>| #[trigger]
        is_spouse(e, p) <==> people.contains(p)
}

proof fn weds_unites(e: EventModel, people: Seq<Seq<char>>)
    ensures
        weds(e, people) <==> unites(e, people),
{
    assert forall|p: Seq<char>| #[trigger] is_spouse(e, p) <==> spouses(e.participants).contains(p) by {
        if is_spouse(e, p) {
            let i = choose|i: int| 0 <= i < e.participants.len() && #[trigger] e.participants[i] == (p, "spouse"@);
            assert(e.participants[i].0 == p && e.participants[i].1 == "spouse"@);
        }
        if spouses(e.participants).contains(p) {
            let i = choose|i: int|
                0 <= i < e.participants.len() && (#[trigger] e.participants[i]).0 == p && e.participants[i].1 == "spouse"@;
            assert(e.participants[i] == (p, "spouse"@));
        }
    }
    if unites(e, people) {
        assert forall|p: Seq<char>| spouses(e.participants).contains(p) == people.to_set().contains(p) by {
            assert(is_spouse(e, p) <==> people.contains(p));
            assert(people.to_set().contains(p) == people.contains(p));
        }
        assert(spouses(e.participants) =~= people.to_set());
    }
    if weds(e, people) {
        assert forall|p: Seq<char>| #[trigger] is_spouse(e, p) <==> people.contains(p) by {
            assert(people.to_set().contains(p) == people.contains(p));
        }
    }
}

proof fn wedding_is_first(events: Seq<EventModel>, people: Seq<Seq<char>>)
    ensures
        match wedding(events, people) {
            Some(id) => exists|k: int|
                0 <= k < events.len() && (#[trigger] events[k]).id == id && unites(events[k], people) && forall|j: int|
                    0 <= j < k ==> !unites(#[trigger] events[j], people),
            None => forall|j: int| 0 <= j < events.len() ==> !unites(#[trigger] events[j], people),
        },
    decreases events.len(),
{
    if events.len() > 0 {
        let rest = events.drop_first();
        weds_unites(events[0], people);
        wedding_is_first(rest, people);
        if !weds(events[0], people) {
            match wedding(events, people) {
                Some(id) => {
                    let k = choose|k: int|
                        0 <= k < rest.len() && (#[trigger] rest[k]).id == id && unites(rest[k], people) && forall|j: int|
                            0 <= j < k ==> !unites(#[trigger] rest[j], people);
                    assert(events[k + 1] == rest[k]);
                    assert forall|j: int| 0 <= j < k + 1 implies !unites(#[trigger] events[j], people) by {
                        if j > 0 {
                            assert(rest[j - 1] == events[j]);
                        }
                    }
                },
                None => {
                    assert forall|j: int| 0 <= j < events.len() implies !unites(#[trigger] events[j], people) by {
                        if j > 0 {
                            assert(rest[j - 1] == events[j]);
                        }
                    }
                },
            }
        }
    }
}

/// A family lists its parents and its children in ascending order, each once; it is named after its parents; each of its
/// children is shown with exactly its parents; one without children is a partnership's; and the event it shows is the
/// first marriage or divorce whose spouses are exactly its parents, none where there is no such event.
pub proof fn a_family_is_what_it_shows(records: Vec<Record>, policy: Policy, calendar: Calendar, r: Projection, u: int)
    requires
        call_ensures(project, (&records, &policy, &calendar), r),
        0 <= u < r@.unions.len(),
    ensures
        ({
            let f = r@.unions[u];
            &&& f.id == "union:"@ + joined(f.parents, "+"@)
            &&& forall|i: int, j: int| #![trigger f.children[i], f.children[j]]
                0 <= i < j < f.children.len() ==> text_before(f.children[i], f.children[j])
            &&& forall|c: Seq<char>, p: Seq<char>|
                f.children.contains(c) ==> (#[trigger] f.parents.contains(p) <==> #[trigger] is_parent_of(r@, p, c))
            &&& forall|c: Seq<char>| #[trigger] f.children.contains(c) ==> exists|p: Seq<char>| is_parent_of(r@, p, c)
            &&& f.children.len() == 0 ==> exists|k: int|
                0 <= k < r@.partnerships.len() && f.parents == seq![
                    (#[trigger] r@.partnerships[k]).0.0,
                    r@.partnerships[k].0.1,
                ]
            &&& f.children.len() > 0 ==> forall|i: int, j: int| #![trigger f.parents[i], f.parents[j]]
                0 <= i < j < f.parents.len() ==> text_before(f.parents[i], f.parents[j])
            &&& match f.marriage_event {
                Some(id) => exists|k: int|
                    0 <= k < r@.events.len() && (#[trigger] r@.events[k]).id == id && unites(r@.events[k], f.parents)
                        && forall|j: int| 0 <= j < k ==> !unites(#[trigger] r@.events[j], f.parents),
                None => forall|j: int| 0 <= j < r@.events.len() ==> !unites(#[trigger] r@.events[j], f.parents),
            }
        }),
{
    let m = r@;
    let (pc, pn) = shown_kin(records, policy, calendar, r);
    families_are_finite(pc, pn);
    let heads = in_order::<Vec<String>>(couples(pc, pn));
    in_order_lists::<Vec<String>>(couples(pc, pn));
    let ps = heads[u];
    let f = m.unions[u];
    assert(f == family(pc, m.events, ps));
    let kids = slice(families(pc), ps);
    slice_is_finite(families(pc), ps);
    in_order_lists::<String>(kids);
    assert forall|i: int, j: int| #![trigger f.children[i], f.children[j]]
        0 <= i < j < f.children.len() implies text_before(f.children[i], f.children[j]) by {
        assert(String::before(f.children[i], f.children[j]));
    }
    assert forall|c: Seq<char>, p: Seq<char>|
        f.children.contains(c) implies (#[trigger] f.parents.contains(p) <==> #[trigger] is_parent_of(m, p, c)) by {
        assert(kids.contains(c));
        family_is_of(pc, ps, c);
        in_order_lists::<String>(slice(by_child(pc), c));
        shown_parents(m, pc, p, c);
        assert(ps.contains(p) <==> slice(by_child(pc), c).contains(p));
    }
    assert forall|c: Seq<char>| #[trigger] f.children.contains(c) implies exists|p: Seq<char>| is_parent_of(m, p, c) by {
        assert(kids.contains(c));
        family_is_of(pc, ps, c);
        let p = choose|p: Seq<char>| #[trigger] by_child(pc).contains((c, p));
        shown_parents(m, pc, p, c);
    }
    let pair = |x: ((Seq<char>, Seq<char>), Seq<char>)| Some(seq![x.0.0, x.0.1]);
    if f.children.len() == 0 {
        assert(couples(pc, pn).contains(ps));
        if firsts(families(pc)).contains(ps) {
            let c = choose|c: Seq<char>| families(pc).contains((ps, c));
            assert(kids.contains(c));
            assert(f.children.contains(c));
        }
        assert(imaged(pn, pair).contains(ps));
        let x = choose|x: ((Seq<char>, Seq<char>), Seq<char>)| #[trigger] pn.contains(x) && pair(x) == Some(ps);
        in_order_lists::<(Two, String)>(pn);
        assert(m.partnerships.contains(x));
        let k = choose|k: int| 0 <= k < m.partnerships.len() && m.partnerships[k] == x;
        assert(f.parents == seq![m.partnerships[k].0.0, m.partnerships[k].0.1]);
    } else {
        let c = f.children[0];
        assert(f.children.contains(c));
        assert(kids.contains(c));
        family_is_of(pc, ps, c);
        in_order_lists::<String>(slice(by_child(pc), c));
        assert forall|i: int, j: int| #![trigger f.parents[i], f.parents[j]]
            0 <= i < j < f.parents.len() implies text_before(f.parents[i], f.parents[j]) by {
            assert(String::before(ps[i], ps[j]));
        }
    }
    wedding_is_first(m.events, ps);
}

/// Every partnership that is shown has its family, and no two families have the same parents.
pub proof fn every_partnership_is_a_family(records: Vec<Record>, policy: Policy, calendar: Calendar, r: Projection, k: int) -> (u: int)
    requires
        call_ensures(project, (&records, &policy, &calendar), r),
        0 <= k < r@.partnerships.len(),
    ensures
        0 <= u < r@.unions.len(),
        r@.unions[u].parents == seq![r@.partnerships[k].0.0, r@.partnerships[k].0.1],
        forall|v: int| 0 <= v < r@.unions.len() && (#[trigger] r@.unions[v]).parents == r@.unions[u].parents ==> v == u,
{
    let m = r@;
    let (pc, pn) = shown_kin(records, policy, calendar, r);
    families_are_finite(pc, pn);
    let heads = in_order::<Vec<String>>(couples(pc, pn));
    in_order_lists::<Vec<String>>(couples(pc, pn));
    in_order_lists::<(Two, String)>(pn);
    let x = m.partnerships[k];
    let ps = seq![x.0.0, x.0.1];
    let pair = |x: ((Seq<char>, Seq<char>), Seq<char>)| Some(seq![x.0.0, x.0.1]);
    assert(pn.contains(x) && pair(x) == Some(ps));
    assert(imaged(pn, pair).contains(ps));
    assert(couples(pc, pn).contains(ps));
    let u = choose|u: int| 0 <= u < heads.len() && heads[u] == ps;
    assert(m.unions[u] == family(pc, m.events, ps));
    assert forall|v: int| 0 <= v < m.unions.len() && (#[trigger] m.unions[v]).parents == ps implies v == u by {
        assert(m.unions[v] == family(pc, m.events, heads[v]));
        Vec::<String>::before_irreflexive(ps);
        if v < u {
            assert(Vec::<String>::before(heads[v], heads[u]));
        }
        if u < v {
            assert(Vec::<String>::before(heads[u], heads[v]));
        }
    }
    u
}

} // verus!
