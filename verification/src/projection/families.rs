//! Relationships between people, and the families they make.

use vstd::prelude::*;

use crate::order::{text_equal, Key};
use crate::projection::collect::{Collected, Facts, TieModel};
use crate::projection::record::{opt_text, ordered_pair, sorted_pair, Three, Tie, Two, P_PARENT, P_PARTNERSHIP};
use crate::projection::resolve::{canon, strong, strong_ties, Identity, Policy, Resolved};
use crate::projection::views::{all_views, EventModel, EventView, ParentChild, Participant, Partnership, Union, UnionModel};
use crate::sorted::{in_order, models, SortedSet};
use crate::tables::{filter_map, firsts, firsts_of, imaged, list_of, made, opt_model, same_set, slice, slice_of};
use crate::text::{concat, copy_texts, join, joined, texts};

verus! {

/// The parentage that a tie stands for, between people: parent, child and kind.
pub open spec fn parentage(f: Facts, n: Identity) -> spec_fn(TieModel) -> Option<(Seq<char>, (Seq<char>, Seq<char>))> {
    |t: TieModel|
        match (canon(f, n, t.1.0), canon(f, n, t.1.1.0)) {
            (Some(child), Some(parent)) => if child == parent {
                None
            } else {
                Some((parent, (child, t.1.1.1)))
            },
            _ => None,
        }
}

/// Who is whose parent, as far as it is held strongly enough.
pub open spec fn parents(f: Facts, n: Identity, policy: Policy) -> Set<(Seq<char>, (Seq<char>, Seq<char>))> {
    imaged(strong(f, P_PARENT@, policy.relationship_threshold), parentage(f, n))
}

/// The partnership that a tie stands for, between people: the pair and the role.
pub open spec fn partnership(f: Facts, n: Identity) -> spec_fn(TieModel) -> Option<((Seq<char>, Seq<char>), Seq<char>)> {
    |t: TieModel|
        match (canon(f, n, t.1.0), canon(f, n, t.1.1.0)) {
            (Some(a), Some(b)) => if a == b {
                None
            } else {
                Some((ordered_pair(a, b), t.1.1.1))
            },
            _ => None,
        }
}

/// Who are partners, as far as it is held strongly enough.
pub open spec fn partners(f: Facts, n: Identity, policy: Policy) -> Set<((Seq<char>, Seq<char>), Seq<char>)> {
    imaged(strong(f, P_PARTNERSHIP@, policy.relationship_threshold), partnership(f, n))
}

/// Each child with each of their parents.
pub open spec fn by_child(pc: Set<(Seq<char>, (Seq<char>, Seq<char>))>) -> Set<(Seq<char>, Seq<char>)> {
    imaged(pc, |x: (Seq<char>, (Seq<char>, Seq<char>))| Some((x.1.0, x.0)))
}

/// Each child under all of their parents.
pub open spec fn families(pc: Set<(Seq<char>, (Seq<char>, Seq<char>))>) -> Set<(Seq<Seq<char>>, Seq<char>)> {
    imaged(firsts(by_child(pc)), |c: Seq<char>| Some((in_order::<String>(slice(by_child(pc), c)), c)))
}

/// The parents of each family: those who have children together, and the partners.
pub open spec fn couples(
    pc: Set<(Seq<char>, (Seq<char>, Seq<char>))>,
    pn: Set<((Seq<char>, Seq<char>), Seq<char>)>,
) -> Set<Seq<Seq<char>>> {
    firsts(families(pc)).union(imaged(pn, |x: ((Seq<char>, Seq<char>), Seq<char>)| Some(seq![x.0.0, x.0.1])))
}

/// The people who take part as spouses.
pub open spec fn spouses(parts: Seq<(Seq<char>, Seq<char>)>) -> Set<Seq<char>> {
    Set::new(|p: Seq<char>| exists|i: int| 0 <= i < parts.len() && (#[trigger] parts[i]).0 == p && parts[i].1 == "spouse"@)
}

/// The event is the marriage or divorce whose spouses are exactly these people.
pub open spec fn weds(e: EventModel, parents: Seq<Seq<char>>) -> bool {
    (e.event_type == Some("marriage"@) || e.event_type == Some("divorce"@)) && spouses(e.participants) == parents.to_set()
}

/// The first marriage or divorce whose spouses are exactly these people.
pub open spec fn wedding(events: Seq<EventModel>, parents: Seq<Seq<char>>) -> Option<Seq<char>>
    decreases events.len(),
{
    if events.len() == 0 {
        None
    } else if weds(events[0], parents) {
        Some(events[0].id)
    } else {
        wedding(events.drop_first(), parents)
    }
}

/// A family as it is shown.
pub open spec fn family(
    pc: Set<(Seq<char>, (Seq<char>, Seq<char>))>,
    events: Seq<EventModel>,
    parents: Seq<Seq<char>>,
) -> UnionModel {
    UnionModel {
        id: "union:"@ + joined(parents, "+"@),
        parents,
        children: in_order::<String>(slice(families(pc), parents)),
        marriage_event: wedding(events, parents),
    }
}

/// The families as they are shown, by their parents.
pub open spec fn unions(
    pc: Set<(Seq<char>, (Seq<char>, Seq<char>))>,
    pn: Set<((Seq<char>, Seq<char>), Seq<char>)>,
    events: Seq<EventModel>,
) -> Seq<UnionModel> {
    in_order::<Vec<String>>(couples(pc, pn)).map_values(|ps: Seq<Seq<char>>| family(pc, events, ps))
}

/// Who is whose parent.
pub fn parents_of(c: &Collected, r: &Resolved, policy: &Policy) -> (s: SortedSet<Three>)
    requires
        c.wf(),
        r.wf(c.facts()),
    ensures
        s.wf(),
        s@ == parents(c.facts(), r.identity(), *policy),
{
    let ties: SortedSet<Tie> = strong_ties(c, P_PARENT, policy.relationship_threshold);
    let ghost give = parentage(c.facts(), r.identity());
    let edge = |t: &Tie| -> (l: Option<Three>)
        ensures
            opt_model(l) == give(t.model()),
    {
        match (r.canon_of(&t.1.0, Ghost(c.facts())), r.canon_of(&t.1.1.0, Ghost(c.facts()))) {
            (Some(child), Some(parent)) => {
                if text_equal(child.as_str(), parent.as_str()) {
                    None
                } else {
                    let k: Three = (parent, (child, t.1.1.1.clone()));
                    assert(k.model() == (parent@, (child@, t.1.1.1@)));
                    Some(k)
                }
            },
            _ => None,
        }
    };
    filter_map(&ties, edge, Ghost(give))
}

/// Who are partners.
pub fn partners_of(c: &Collected, r: &Resolved, policy: &Policy) -> (s: SortedSet<(Two, String)>)
    requires
        c.wf(),
        r.wf(c.facts()),
    ensures
        s.wf(),
        s@ == partners(c.facts(), r.identity(), *policy),
{
    let ties: SortedSet<Tie> = strong_ties(c, P_PARTNERSHIP, policy.relationship_threshold);
    let ghost give = partnership(c.facts(), r.identity());
    let edge = |t: &Tie| -> (l: Option<(Two, String)>)
        ensures
            opt_model(l) == give(t.model()),
    {
        match (r.canon_of(&t.1.0, Ghost(c.facts())), r.canon_of(&t.1.1.0, Ghost(c.facts()))) {
            (Some(a), Some(b)) => {
                if text_equal(a.as_str(), b.as_str()) {
                    None
                } else {
                    let pair: Two = sorted_pair(a.as_str(), b.as_str());
                    let k: (Two, String) = (pair, t.1.1.1.clone());
                    assert(k.model() == (ordered_pair(a@, b@), t.1.1.1@));
                    Some(k)
                }
            },
            _ => None,
        }
    };
    filter_map(&ties, edge, Ghost(give))
}

/// The parentages as they are shown.
pub fn show_parents(s: &SortedSet<Three>) -> (v: Vec<ParentChild>)
    requires
        s.wf(),
    ensures
        all_views(v@) == in_order::<Three>(s@),
{
    let show = |x: &Three| -> (p: ParentChild)
        ensures
            p@ == x.model(),
    {
        ParentChild { parent: x.0.clone(), child: x.1.0.clone(), kind: x.1.1.clone() }
    };
    let v: Vec<ParentChild> = list_of(s, show);
    proof {
        let want = in_order::<Three>(s@);
        assert forall|i: int| 0 <= i < v@.len() implies all_views(v@)[i] == want[i] by {
            assert(made(show, want[i], v@[i]));
        }
        assert(all_views(v@) =~= want);
    }
    v
}

/// The partnerships as they are shown.
pub fn show_partners(s: &SortedSet<(Two, String)>) -> (v: Vec<Partnership>)
    requires
        s.wf(),
    ensures
        all_views(v@) == in_order::<(Two, String)>(s@),
{
    let show = |x: &(Two, String)| -> (p: Partnership)
        ensures
            p@ == x.model(),
    {
        Partnership { pair: (x.0.0.clone(), x.0.1.clone()), role: x.1.clone() }
    };
    let v: Vec<Partnership> = list_of(s, show);
    proof {
        let want = in_order::<(Two, String)>(s@);
        assert forall|i: int| 0 <= i < v@.len() implies all_views(v@)[i] == want[i] by {
            assert(made(show, want[i], v@[i]));
        }
        assert(all_views(v@) =~= want);
    }
    v
}

fn spouse_set(parts: &Vec<Participant>) -> (r: SortedSet<String>)
    ensures
        r.wf(),
        r@ == spouses(all_views(parts@)),
{
    let ghost all = all_views(parts@);
    let mut r: SortedSet<String> = SortedSet::new();
    let mut i: usize = 0;
    assert(r@ =~= spouses(all.take(0)));
    while i < parts.len()
        invariant
            i <= parts.len(),
            all == all_views(parts@),
            r.wf(),
            r@ == spouses(all.take(i as int)),
        decreases parts.len() - i,
    {
        let ghost before = all.take(i as int);
        let ghost after = all.take(i + 1);
        let weds = text_equal(parts[i].role.as_str(), "spouse");
        if weds {
            r.insert(parts[i].person.clone());
        }
        proof {
            let p0 = parts@[i as int]@.0;
            assert(after[i as int] == parts@[i as int]@);
            assert forall|p: Seq<char>| spouses(after).contains(p) == (spouses(before).contains(p) || (weds && p == p0)) by {
                if spouses(before).contains(p) {
                    let j = choose|j: int| 0 <= j < before.len() && (#[trigger] before[j]).0 == p && before[j].1 == "spouse"@;
                    assert(after[j] == before[j]);
                }
                if weds && p == p0 {
                    assert(after[i as int].0 == p && after[i as int].1 == "spouse"@);
                }
                if spouses(after).contains(p) {
                    let j = choose|j: int| 0 <= j < after.len() && (#[trigger] after[j]).0 == p && after[j].1 == "spouse"@;
                    if j < i {
                        assert(before[j] == after[j]);
                    }
                }
            }
            assert(r@ =~= spouses(after));
        }
        i = i + 1;
    }
    assert(all.take(i as int) =~= all);
    r
}

fn text_set(v: &Vec<String>) -> (r: SortedSet<String>)
    ensures
        r.wf(),
        r@ == texts(v@).to_set(),
{
    let ghost all = texts(v@);
    let mut r: SortedSet<String> = SortedSet::new();
    let mut i: usize = 0;
    assert(r@ =~= all.take(0).to_set());
    while i < v.len()
        invariant
            i <= v.len(),
            all == texts(v@),
            r.wf(),
            r@ == all.take(i as int).to_set(),
        decreases v.len() - i,
    {
        r.insert(v[i].clone());
        proof {
            let before = all.take(i as int);
            let after = all.take(i + 1);
            assert(after =~= before.push(all[i as int]));
            assert forall|x: Seq<char>| after.to_set().contains(x) == (before.to_set().contains(x) || x == all[i as int]) by {
                if before.contains(x) {
                    let j = choose|j: int| 0 <= j < before.len() && before[j] == x;
                    assert(after[j] == x);
                }
                if x == all[i as int] {
                    assert(after[i as int] == x);
                }
            }
            assert(r@ =~= after.to_set());
        }
        i = i + 1;
    }
    assert(all.take(i as int) =~= all);
    r
}

fn find_wedding(events: &Vec<EventView>, parents: &Vec<String>) -> (r: Option<String>)
    ensures
        opt_text(r) == wedding(all_views(events@), texts(parents@)),
{
    let ghost all = all_views(events@);
    let ghost ps = texts(parents@);
    let want: SortedSet<String> = text_set(parents);
    let mut i: usize = 0;
    assert(all.skip(0) =~= all);
    while i < events.len()
        invariant
            i <= events.len(),
            all == all_views(events@),
            ps == texts(parents@),
            want.wf(),
            want@ == ps.to_set(),
            wedding(all, ps) == wedding(all.skip(i as int), ps),
        decreases events.len() - i,
    {
        let e: &EventView = &events[i];
        let ghost rest = all.skip(i as int);
        proof {
            assert(rest[0] == e@);
            assert(rest.drop_first() =~= all.skip(i + 1));
        }
        let kind = match &e.event_type {
            Some(t) => text_equal(t.as_str(), "marriage") || text_equal(t.as_str(), "divorce"),
            None => false,
        };
        if kind && same_set(&spouse_set(&e.participants), &want) {
            assert(weds(rest[0], ps));
            return Some(e.id.clone());
        }
        assert(!weds(rest[0], ps));
        i = i + 1;
    }
    assert(all.skip(i as int).len() == 0);
    None
}

fn families_of(pc: &SortedSet<Three>) -> (r: SortedSet<(Vec<String>, String)>)
    requires
        pc.wf(),
    ensures
        r.wf(),
        r@ == families(pc@),
{
    let ghost turn = |x: (Seq<char>, (Seq<char>, Seq<char>))| Some((x.1.0, x.0));
    let flip = |x: &Three| -> (l: Option<Two>)
        ensures
            opt_model(l) == turn(x.model()),
    {
        let k: Two = (x.1.0.clone(), x.0.clone());
        assert(k.model() == (x.1.0@, x.0@));
        Some(k)
    };
    let pairs: SortedSet<Two> = filter_map(pc, flip, Ghost(turn));
    assert(pairs@ == by_child(pc@));
    let children: SortedSet<String> = firsts_of(&pairs);
    let ghost give = |c: Seq<char>| Some((in_order::<String>(slice(by_child(pc@), c)), c));
    let home = |c: &String| -> (l: Option<(Vec<String>, String)>)
        ensures
            opt_model(l) == give(c.model()),
    {
        let ps: SortedSet<String> = slice_of(&pairs, c);
        proof {
            ps.ordered();
        }
        let k: (Vec<String>, String) = (ps.items, c.clone());
        assert(k.0.model() =~= models(k.0@));
        assert(k.model() == (in_order::<String>(slice(by_child(pc@), c@)), c@));
        Some(k)
    };
    filter_map(&children, home, Ghost(give))
}

fn couples_of(pn: &SortedSet<(Two, String)>) -> (r: SortedSet<Vec<String>>)
    requires
        pn.wf(),
    ensures
        r.wf(),
        r@ == imaged(pn@, |x: ((Seq<char>, Seq<char>), Seq<char>)| Some(seq![x.0.0, x.0.1])),
{
    let ghost give = |x: ((Seq<char>, Seq<char>), Seq<char>)| Some(seq![x.0.0, x.0.1]);
    let both = |x: &(Two, String)| -> (l: Option<Vec<String>>)
        ensures
            opt_model(l) == give(x.model()),
    {
        let mut v: Vec<String> = Vec::new();
        v.push(x.0.0.clone());
        v.push(x.0.1.clone());
        assert(v.model() =~= seq![x.0.0@, x.0.1@]);
        Some(v)
    };
    filter_map(pn, both, Ghost(give))
}

/// The families, by their parents.
pub fn assemble_unions(pc: &SortedSet<Three>, pn: &SortedSet<(Two, String)>, events: &Vec<EventView>) -> (v: Vec<Union>)
    requires
        pc.wf(),
        pn.wf(),
    ensures
        all_views(v@) == unions(pc@, pn@, all_views(events@)),
{
    let homes: SortedSet<(Vec<String>, String)> = families_of(pc);
    let mut keys: SortedSet<Vec<String>> = firsts_of(&homes);
    keys.extend(&couples_of(pn));
    assert(keys@ =~= couples(pc@, pn@));
    let show = |ps: &Vec<String>| -> (u: Union)
        ensures
            u@ == family(pc@, all_views(events@), ps.model()),
    {
        let children: SortedSet<String> = slice_of(&homes, ps);
        proof {
            children.ordered();
            assert(all_views(children.items@) =~= models(children.items@));
            assert(texts(ps@) =~= ps.model());
        }
        let u = Union {
            id: concat("union:", join(ps, "+").as_str()),
            parents: copy_texts(ps),
            children: children.items,
            marriage_event: find_wedding(events, ps),
        };
        assert(all_views(u.parents@) =~= ps.model());
        u
    };
    let v: Vec<Union> = list_of(&keys, show);
    proof {
        let want = unions(pc@, pn@, all_views(events@));
        assert forall|i: int| 0 <= i < v@.len() implies all_views(v@)[i] == want[i] by {
            assert(made(show, in_order::<Vec<String>>(keys@)[i], v@[i]));
        }
        assert(all_views(v@) =~= want);
    }
    v
}

} // verus!
