//! The read model of a set of records.

use vstd::prelude::*;

use crate::order::Key;
use crate::projection::collect::{collect, dedupe, facts, first_of_each, record_models, Collected, Facts};
use crate::projection::events::{assemble_events, events, Calendar, YearBounds};
use crate::projection::families::{
    assemble_unions, parents, parents_of, partners, partners_of, show_parents, show_partners, unions,
};
use crate::projection::people::{assemble_people, people, stray_claims, unclassified};
use crate::projection::record::{Record, RecordModel, Three, Two, Vote, P_DATE};
use crate::projection::resolve::{identity, resolve, Policy, Resolved};
use crate::projection::views::{all_views, Conflict, EventView, Projection, ProjectionModel};
use crate::sorted::{in_order, SortedSet};
use crate::tables::{filter_map, imaged, list_of, made, opt_model};

verus! {

/// The read model of what is said.
pub open spec fn shown(f: Facts, policy: Policy, cal: Map<Seq<char>, YearBounds>) -> ProjectionModel {
    let n = identity(f, policy);
    let pc = parents(f, n, policy);
    let pn = partners(f, n, policy);
    ProjectionModel {
        people: people(f, n, policy),
        parent_child: in_order::<Three>(pc),
        partnerships: in_order::<(Two, String)>(pn),
        unions: unions(pc, pn, events(f, n, cal)),
        events: events(f, n, cal),
        conflicts: in_order::<Two>(n.skipped),
        unclassified: unclassified(f, n),
    }
}

/// The read model of the records.
pub open spec fn projected(d: Seq<RecordModel>, policy: Policy, cal: Map<Seq<char>, YearBounds>) -> ProjectionModel {
    shown(facts(first_of_each(d)), policy, cal)
}

fn show_conflicts(s: &SortedSet<Two>) -> (v: Vec<Conflict>)
    requires
        s.wf(),
    ensures
        all_views(v@) == in_order::<Two>(s@),
{
    let show = |x: &Two| -> (c: Conflict)
        ensures
            c@ == x.model(),
    {
        Conflict { cut_pair: (x.0.clone(), x.1.clone()) }
    };
    let v: Vec<Conflict> = list_of(s, show);
    proof {
        let want = in_order::<Two>(s@);
        assert forall|i: int| 0 <= i < v@.len() implies all_views(v@)[i] == want[i] by {
            assert(made(show, want[i], v@[i]));
        }
        assert(all_views(v@) =~= want);
    }
    v
}

/// Draws the read model from the records. The calendar holds the years of the date texts; a text that it does not hold
/// is not a date.
pub fn project(records: &Vec<Record>, policy: &Policy, calendar: &Calendar) -> (r: Projection)
    requires
        calendar.wf(),
    ensures
        r@ == projected(record_models(records@), *policy, calendar@),
{
    let deduped: Vec<&Record> = dedupe(records);
    let c: Collected = collect(&deduped);
    let ghost f = facts(first_of_each(record_models(records@)));
    assert(c.facts() == f);
    let resolved: Resolved = resolve(&c, policy);
    let parent_child: SortedSet<Three> = parents_of(&c, &resolved, policy);
    let partnerships: SortedSet<(Two, String)> = partners_of(&c, &resolved, policy);
    let events: Vec<EventView> = assemble_events(&c, &resolved, calendar);
    let r = Projection {
        people: assemble_people(&c, &resolved, policy),
        parent_child: show_parents(&parent_child),
        partnerships: show_partners(&partnerships),
        unions: assemble_unions(&parent_child, &partnerships, &events),
        events,
        conflicts: show_conflicts(&resolved.skipped),
        unclassified: stray_claims(&c, &resolved),
    };
    assert(r@ =~= shown(f, *policy, calendar@));
    r
}

/// The date that a vote is for, where its slot is the date.
pub open spec fn dated() -> spec_fn((Seq<char>, (Seq<char>, (Seq<char>, Seq<char>)))) -> Option<Seq<char>> {
    |x: (Seq<char>, (Seq<char>, (Seq<char>, Seq<char>)))|
        if x.0 == P_DATE@ {
            Some(x.1.1.0)
        } else {
            None
        }
}

/// The range of a place's name.
pub open spec fn ranged() -> spec_fn((Seq<char>, (Seq<char>, (Seq<char>, Seq<char>)))) -> Option<Seq<char>> {
    |x: (Seq<char>, (Seq<char>, (Seq<char>, Seq<char>)))| Some(x.1.0)
}

/// The texts that are read as dates: the dates of events, and the ranges of the names of places.
pub open spec fn dates_in(f: Facts) -> Set<Seq<char>> {
    imaged(f.votes, dated()).union(imaged(f.place_names, ranged()))
}

/// The texts that are read as dates, in ascending order.
pub fn date_texts(records: &Vec<Record>) -> (r: Vec<String>)
    ensures
        all_views(r@) == in_order::<String>(dates_in(facts(first_of_each(record_models(records@))))),
{
    let deduped: Vec<&Record> = dedupe(records);
    let c: Collected = collect(&deduped);
    let ghost of_event = dated();
    let date = |x: &Vote| -> (l: Option<String>)
        ensures
            opt_model(l) == of_event(x.model()),
    {
        if crate::order::text_equal(x.0.as_str(), P_DATE) {
            Some(x.1.1.0.clone())
        } else {
            None
        }
    };
    let ghost of_name = ranged();
    let range = |x: &Vote| -> (l: Option<String>)
        ensures
            opt_model(l) == of_name(x.model()),
    {
        Some(x.1.0.clone())
    };
    let mut found: SortedSet<String> = filter_map(&c.votes, date, Ghost(of_event));
    found.extend(&filter_map(&c.place_names, range, Ghost(of_name)));
    proof {
        assert(found@ =~= dates_in(c.facts()));
        found.ordered();
        assert(all_views(found.items@) =~= crate::sorted::models(found.items@));
    }
    found.items
}

} // verus!
