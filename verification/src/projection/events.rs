//! Events, and the places where they happen.

use vstd::prelude::*;

use crate::order::{text_equal, Desc, Key};
use crate::projection::collect::{Collected, Facts};
use crate::projection::people::{claim_at, claim_ids};
use crate::projection::record::{
    opt_json, opt_text, Claim, ClaimModel, Three, Two, P_DATE, P_EVENT_PLACE, P_EVENT_TYPE, P_PART_OF, P_PLACE_POINT,
};
use crate::projection::resolve::{canon, Identity, Resolved};
use crate::projection::value::{Json, Value};
use crate::projection::views::{all_views, EventModel, EventView, Participant, PlaceModel, PlaceView};
use crate::sorted::{in_order, least, SortedMap, SortedSet};
use crate::tables::{filter, filter_map, imaged, list_of, made, most_paired, opt_model, passing, slice, slice_of, winner};

verus! {

/// The years that a date reaches from and to; an end that is not there is open.
#[derive(Clone, Copy, Debug, PartialEq, Eq, Structural)]
pub struct YearBounds {
    pub min: Option<i32>,
    pub max: Option<i32>,
}

/// The years of each date text that is a date.
pub type Calendar = SortedMap<String, YearBounds>;

/// The value that most people give the subject in this slot.
pub open spec fn settled(f: Facts, slot: Seq<char>, about: Seq<char>) -> Option<Seq<char>> {
    winner::<String, Seq<char>>(slice(slice(f.votes, slot), about))
}

/// The years of a date; none where there is no date, or the text is not one.
pub open spec fn years_of(cal: Map<Seq<char>, YearBounds>, date: Option<Seq<char>>) -> YearBounds {
    match date {
        Some(d) => if cal.contains_key(d) {
            cal[d]
        } else {
            YearBounds { min: None, max: None }
        },
        None => YearBounds { min: None, max: None },
    }
}

/// The range covers the year: the empty range covers all, an open end is unbounded, and what is no date covers nothing.
pub open spec fn covers(cal: Map<Seq<char>, YearBounds>, range: Seq<char>, year: i32) -> bool {
    range.len() == 0 || cal.contains_key(range) && (match cal[range].min {
        Some(y) => y <= year,
        None => true,
    }) && (match cal[range].max {
        Some(y) => y >= year,
        None => true,
    })
}

/// The ranges and names of a place.
pub open spec fn range_names(cands: Set<(Seq<char>, (Seq<char>, Seq<char>))>) -> Set<(Seq<char>, Seq<char>)> {
    imaged(cands, |x: (Seq<char>, (Seq<char>, Seq<char>))| Some((x.0, x.1.0)))
}

/// The name that most people give for one range; the least of equals.
pub open spec fn best_name(cands: Set<(Seq<char>, (Seq<char>, Seq<char>))>) -> Option<Seq<char>> {
    match least::<(Desc, String)>(
        imaged(range_names(cands), |p: (Seq<char>, Seq<char>)| Some((slice(slice(cands, p.0), p.1).len() as int, p.1))),
    ) {
        Some((_, name)) => Some(name),
        None => None,
    }
}

/// The name of a place in a year: among the names whose range covers it, or among all names where none does.
pub open spec fn name_in(
    cands: Set<(Seq<char>, (Seq<char>, Seq<char>))>,
    cal: Map<Seq<char>, YearBounds>,
    year: Option<i32>,
) -> Option<Seq<char>> {
    match year {
        Some(y) => match best_name(passing(cands, |x: (Seq<char>, (Seq<char>, Seq<char>))| covers(cal, x.0, y))) {
            Some(name) => Some(name),
            None => best_name(cands),
        },
        None => best_name(cands),
    }
}

/// The claim puts the place at the point with this text.
pub open spec fn puts_at(c: ClaimModel, place: Seq<char>, text: Seq<char>) -> bool {
    c.predicate == P_PLACE_POINT@ && c.target_id == place && c.value.compact() == text
}

/// Where most people put the place.
pub open spec fn point_of(f: Facts, place: Seq<char>) -> Option<Json> {
    match settled(f, P_PLACE_POINT@, place) {
        Some(text) => match least::<String>(passing(f.claims.dom(), |id: Seq<char>| puts_at(f.claims[id], place, text))) {
            Some(id) => Some(f.claims[id].value),
            None => None,
        },
        None => None,
    }
}

/// A place as an event of this year shows it.
pub open spec fn place_view(f: Facts, cal: Map<Seq<char>, YearBounds>, place: Seq<char>, year: Option<i32>) -> PlaceModel {
    PlaceModel {
        id: place,
        name: name_in(slice(f.place_names, place), cal, year),
        point: point_of(f, place),
        part_of: settled(f, P_PART_OF@, place),
    }
}

/// A participant, as the person who they are.
pub open spec fn present(f: Facts, n: Identity) -> spec_fn((Seq<char>, Seq<char>)) -> Option<(Seq<char>, Seq<char>)> {
    |x: (Seq<char>, Seq<char>)|
        match canon(f, n, x.0) {
            Some(p) => Some((p, x.1)),
            None => None,
        }
}

/// The year that an event's place is shown for.
pub open spec fn event_year(y: YearBounds) -> Option<i32> {
    match y.min {
        Some(m) => Some(m),
        None => y.max,
    }
}

/// An event as it is shown.
pub open spec fn event(f: Facts, n: Identity, cal: Map<Seq<char>, YearBounds>, id: Seq<char>) -> EventModel {
    let date = settled(f, P_DATE@, id);
    let years = years_of(cal, date);
    let place = settled(f, P_EVENT_PLACE@, id);
    EventModel {
        id,
        event_type: settled(f, P_EVENT_TYPE@, id),
        date_edtf: date,
        date_min_year: years.min,
        date_max_year: years.max,
        place_id: place,
        participants: in_order::<Two>(imaged(slice(f.participants, id), present(f, n))),
        place: match place {
            Some(p) => Some(place_view(f, cal, p, event_year(years))),
            None => None,
        },
    }
}

/// The events as they are shown, by id.
pub open spec fn events(f: Facts, n: Identity, cal: Map<Seq<char>, YearBounds>) -> Seq<EventModel> {
    in_order::<String>(f.events).map_values(|id: Seq<char>| event(f, n, cal, id))
}

/// The value that most people give the subject in this slot.
pub fn most_corroborated(c: &Collected, slot: &str, about: &String) -> (r: Option<String>)
    requires
        c.wf(),
    ensures
        opt_text(r) == settled(c.facts(), slot@, about@),
{
    let slot: String = slot.to_owned();
    let of_slot: SortedSet<Three> = slice_of(&c.votes, &slot);
    let votes: SortedSet<Two> = slice_of(&of_slot, about);
    let r: Option<String> = most_paired(&votes);
    assert(opt_text(r) == opt_model(r));
    r
}

/// The range covers the year.
pub fn range_covers(cal: &Calendar, range: &String, year: i32) -> (r: bool)
    requires
        cal.wf(),
    ensures
        r == covers(cal@, range@, year),
{
    if text_equal(range.as_str(), "") {
        proof {
            reveal_strlit("");
        }
        return true;
    }
    proof {
        reveal_strlit("");
        if range@.len() == 0 {
            assert(range@ =~= ""@);
        }
    }
    match cal.get(range) {
        Some(y) => {
            let from = match y.min {
                Some(m) => m <= year,
                None => true,
            };
            let to = match y.max {
                Some(m) => m >= year,
                None => true,
            };
            from && to
        },
        None => false,
    }
}

fn best_of(cands: &SortedSet<Three>) -> (r: Option<String>)
    requires
        cands.wf(),
    ensures
        opt_text(r) == best_name(cands@),
{
    let ghost head = |x: (Seq<char>, (Seq<char>, Seq<char>))| Some((x.0, x.1.0));
    let cut = |x: &Three| -> (l: Option<Two>)
        ensures
            opt_model(l) == head(x.model()),
    {
        let k: Two = (x.0.clone(), x.1.0.clone());
        assert(k.model() == (x.0@, x.1.0@));
        Some(k)
    };
    let names: SortedSet<Two> = filter_map(cands, cut, Ghost(head));
    let ghost give = |p: (Seq<char>, Seq<char>)| Some((slice(slice(cands@, p.0), p.1).len() as int, p.1));
    let count = |p: &Two| -> (l: Option<(Desc, String)>)
        ensures
            opt_model(l) == give(p.model()),
    {
        let of_range: SortedSet<Two> = slice_of(cands, &p.0);
        let authors: SortedSet<String> = slice_of(&of_range, &p.1);
        let k: (Desc, String) = (Desc(authors.len() as i128), p.1.clone());
        assert(k.model() == (authors@.len() as int, p.1@));
        Some(k)
    };
    let tallies: SortedSet<(Desc, String)> = filter_map(&names, count, Ghost(give));
    proof {
        assert(names@ == range_names(cands@));
        assert(tallies@ == imaged(range_names(cands@), give));
    }
    match tallies.first() {
        Some(x) => Some(x.1.clone()),
        None => None,
    }
}

/// The name of a place in a year.
pub fn pick_place_name(cands: &SortedSet<Three>, cal: &Calendar, year: Option<i32>) -> (r: Option<String>)
    requires
        cands.wf(),
        cal.wf(),
    ensures
        opt_text(r) == name_in(cands@, cal@, year),
{
    match year {
        Some(y) => {
            let ghost test = |x: (Seq<char>, (Seq<char>, Seq<char>))| covers(cal@, x.0, y);
            let fits = |x: &Three| -> (b: bool)
                ensures
                    b == test(x.model()),
            {
                range_covers(cal, &x.0, y)
            };
            let there: SortedSet<Three> = filter(cands, fits, Ghost(test));
            assert(there@ == passing(cands@, |x: (Seq<char>, (Seq<char>, Seq<char>))| covers(cal@, x.0, y)));
            match best_of(&there) {
                Some(name) => Some(name),
                None => best_of(cands),
            }
        },
        None => best_of(cands),
    }
}

fn find_point(c: &Collected, place: &String) -> (r: Option<Value>)
    requires
        c.wf(),
    ensures
        opt_json(r) == point_of(c.facts(), place@),
{
    let ghost f = c.facts();
    match most_corroborated(c, P_PLACE_POINT, place) {
        Some(text) => {
            let ids: SortedSet<String> = claim_ids(c);
            let ghost test = |id: Seq<char>| puts_at(c.facts().claims[id], place@, text@);
            let fits = |id: &String| -> (b: bool)
                requires
                    ids@.contains(id.model()),
                ensures
                    b == test(id.model()),
            {
                let claim: &Claim = claim_at(c, id);
                text_equal(claim.predicate.as_str(), P_PLACE_POINT) && text_equal(claim.target_id.as_str(), place.as_str())
                    && text_equal(claim.value.to_text().as_str(), text.as_str())
            };
            let found: SortedSet<String> = filter(&ids, fits, Ghost(test));
            assert(found@ == passing(f.claims.dom(), |id: Seq<char>| puts_at(f.claims[id], place@, text@)));
            match found.first() {
                Some(id) => {
                    proof {
                        found.facts();
                        crate::sorted::least_exists::<String>(found@);
                        assert(found@.contains(id@));
                    }
                    Some(claim_at(c, id).value.duplicate())
                },
                None => None,
            }
        },
        None => None,
    }
}

fn resolve_place(c: &Collected, cal: &Calendar, place: &String, year: Option<i32>) -> (r: PlaceView)
    requires
        c.wf(),
        cal.wf(),
    ensures
        r@ == place_view(c.facts(), cal@, place@, year),
{
    let cands: SortedSet<Three> = slice_of(&c.place_names, place);
    PlaceView {
        id: place.clone(),
        name: pick_place_name(&cands, cal, year),
        point: find_point(c, place),
        part_of: most_corroborated(c, P_PART_OF, place),
    }
}

fn participants_of(c: &Collected, r: &Resolved, id: &String) -> (v: Vec<Participant>)
    requires
        c.wf(),
        r.wf(c.facts()),
    ensures
        all_views(v@) == in_order::<Two>(imaged(slice(c.facts().participants, id@), present(c.facts(), r.identity()))),
{
    let who: SortedSet<Two> = slice_of(&c.participants, id);
    let ghost give = present(c.facts(), r.identity());
    let known = |x: &Two| -> (l: Option<Two>)
        ensures
            opt_model(l) == give(x.model()),
    {
        match r.canon_of(&x.0, Ghost(c.facts())) {
            Some(p) => {
                let k: Two = (p, x.1.clone());
                assert(k.model() == (p@, x.1@));
                Some(k)
            },
            None => None,
        }
    };
    let people: SortedSet<Two> = filter_map(&who, known, Ghost(give));
    let show = |x: &Two| -> (p: Participant)
        ensures
            p@ == x.model(),
    {
        Participant { person: x.0.clone(), role: x.1.clone() }
    };
    let v: Vec<Participant> = list_of(&people, show);
    proof {
        let want = in_order::<Two>(people@);
        assert forall|i: int| 0 <= i < v@.len() implies all_views(v@)[i] == want[i] by {
            assert(made(show, want[i], v@[i]));
        }
        assert(all_views(v@) =~= want);
    }
    v
}

fn assemble_event(c: &Collected, r: &Resolved, cal: &Calendar, id: &String) -> (v: EventView)
    requires
        c.wf(),
        r.wf(c.facts()),
        cal.wf(),
    ensures
        v@ == event(c.facts(), r.identity(), cal@, id@),
{
    let ghost f = c.facts();
    let ghost n = r.identity();
    let date_edtf: Option<String> = most_corroborated(c, P_DATE, id);
    let years: YearBounds = match &date_edtf {
        Some(d) => match cal.get(d) {
            Some(y) => *y,
            None => YearBounds { min: None, max: None },
        },
        None => YearBounds { min: None, max: None },
    };
    assert(years == years_of(cal@, settled(f, P_DATE@, id@)));
    let year: Option<i32> = match years.min {
        Some(m) => Some(m),
        None => years.max,
    };
    let place_id: Option<String> = most_corroborated(c, P_EVENT_PLACE, id);
    let place: Option<PlaceView> = match &place_id {
        Some(p) => Some(resolve_place(c, cal, p, year)),
        None => None,
    };
    let v = EventView {
        id: id.clone(),
        event_type: most_corroborated(c, P_EVENT_TYPE, id),
        date_edtf,
        date_min_year: years.min,
        date_max_year: years.max,
        place_id,
        participants: participants_of(c, r, id),
        place,
    };
    assert(v@ =~= event(f, n, cal@, id@));
    v
}

/// The events, by id.
pub fn assemble_events(c: &Collected, r: &Resolved, cal: &Calendar) -> (v: Vec<EventView>)
    requires
        c.wf(),
        r.wf(c.facts()),
        cal.wf(),
    ensures
        all_views(v@) == events(c.facts(), r.identity(), cal@),
{
    let ghost f = c.facts();
    let ghost n = r.identity();
    let show = |id: &String| -> (v: EventView)
        ensures
            v@ == event(c.facts(), r.identity(), cal@, id.model()),
    {
        assemble_event(c, r, cal, id)
    };
    let v: Vec<EventView> = list_of(&c.event_anchors, show);
    proof {
        let want = events(f, n, cal@);
        assert forall|i: int| 0 <= i < v@.len() implies all_views(v@)[i] == want[i] by {
            assert(made(show, in_order::<String>(f.events)[i], v@[i]));
        }
        assert(all_views(v@) =~= want);
    }
    v
}

} // verus!
