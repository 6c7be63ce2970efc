//! What is picked among several sayings: a place's name and point, a person's custom fields, the sources that back them,
//! and which names are one name.

use vstd::prelude::*;

use crate::order::{text_before, Desc, Key};
use crate::projection::chronicle::slots_are_apart;
use crate::projection::collect::{distinct_ids, facts, types_in, votes_in};
use crate::projection::events::{
    best_name, covers, pick_place_name, point_of, puts_at, range_names, settled, Calendar, YearBounds,
};
use crate::projection::kinship::{firsts_is_finite, in_order_lists, slice_is_finite};
use crate::projection::laws::{facts_are_sound, gathered_is_finite, imaged_is_finite};
use crate::projection::meaning::{claims_give, has_text, text_or, told};
use crate::projection::people::{
    citation_view, citations, cited, custom_view, customs_said, gives_value, placed, source_field, source_id_of,
};
use crate::projection::portrait::{counted, drawn, held, placed_are_held, told_is_filed};
use crate::projection::project::project;
use crate::projection::record::{ClaimModel, Record, RecordModel, Three, Two};
use crate::projection::resolve::{identity, Policy};
use crate::projection::value::Json;
use crate::projection::views::{CitationModel, FieldModel, PersonModel, Projection};
use crate::sorted::{in_order, least, least_exists, SortedSet};
use crate::tables::{firsts, imaged, passing, slice, winner};

verus! {

/// How many say that the place had this name in this range.
pub open spec fn sayers(cands: Set<(Seq<char>, (Seq<char>, Seq<char>))>, range: Seq<char>, name: Seq<char>) -> nat {
    slice(slice(cands, range), name).len()
}

/// This is the name that most people say of one range; of several equally common ones, the least.
pub open spec fn is_best(cands: Set<(Seq<char>, (Seq<char>, Seq<char>))>, name: Seq<char>) -> bool {
    exists|range: Seq<char>, who: Seq<char>| #[trigger]
        cands.contains((range, (name, who))) && forall|r: Seq<char>, o: Seq<char>, w: Seq<char>| #[trigger]
            cands.contains((r, (o, w))) ==> sayers(cands, r, o) < sayers(cands, range, name) || sayers(cands, r, o) == sayers(
                cands,
                range,
                name,
            ) && (o == name || text_before(name, o))
}

/// Nothing is said.
pub open spec fn unsaid(cands: Set<(Seq<char>, (Seq<char>, Seq<char>))>) -> bool {
    forall|r: Seq<char>, o: Seq<char>, w: Seq<char>| !#[trigger] cands.contains((r, (o, w)))
}

proof fn the_best_is_picked(cands: Set<(Seq<char>, (Seq<char>, Seq<char>))>)
    requires
        cands.finite(),
    ensures
        match best_name(cands) {
            Some(name) => is_best(cands, name),
            None => unsaid(cands),
        },
{
    let give = |x: (Seq<char>, (Seq<char>, Seq<char>))| Some((x.0, x.1.0));
    let pairs = range_names(cands);
    imaged_is_finite(cands, give);
    let rank = |p: (Seq<char>, Seq<char>)| Some((slice(slice(cands, p.0), p.1).len() as int, p.1));
    imaged_is_finite(pairs, rank);
    let ranked = imaged(pairs, rank);
    least_exists::<(Desc, String)>(ranked);
    assert forall|r: Seq<char>, o: Seq<char>, w: Seq<char>| #[trigger] cands.contains((r, (o, w))) implies ranked.contains(
        (sayers(cands, r, o) as int, o),
    ) by {
        let x = (r, (o, w));
        assert(give(x) == Some((r, o)));
        assert(pairs.contains((r, o)));
        assert(rank((r, o)) == Some((sayers(cands, r, o) as int, o)));
    }
    match least::<(Desc, String)>(ranked) {
        Some(l) => {
            assert(ranked.contains(l));
            let p = choose|p: (Seq<char>, Seq<char>)| #[trigger] pairs.contains(p) && rank(p) == Some(l);
            let x = choose|x: (Seq<char>, (Seq<char>, Seq<char>))| #[trigger] cands.contains(x) && give(x) == Some(p);
            assert(cands.contains((p.0, (l.1, x.1.1))));
            assert forall|r: Seq<char>, o: Seq<char>, w: Seq<char>| #[trigger] cands.contains((r, (o, w))) implies sayers(cands, r, o)
                < sayers(cands, p.0, l.1) || sayers(cands, r, o) == sayers(cands, p.0, l.1) && (o == l.1 || text_before(l.1, o)) by {
                let y = (sayers(cands, r, o) as int, o);
                assert(ranked.contains(y));
                assert(l == y || <(Desc, String)>::before(l, y));
            }
        },
        None => {
            assert forall|r: Seq<char>, o: Seq<char>, w: Seq<char>| !#[trigger] cands.contains((r, (o, w))) by {
                if cands.contains((r, (o, w))) {
                    assert(ranked.contains((sayers(cands, r, o) as int, o)));
                }
            }
        },
    }
}

/// The range holds this year: it is the empty text, or a date whose years do not end before it nor begin after it.
pub open spec fn in_force(cal: Map<Seq<char>, YearBounds>, range: Seq<char>, year: int) -> bool {
    range.len() == 0 || cal.contains_key(range) && (cal[range].min matches Some(y) ==> y <= year) && (cal[range].max matches Some(y)
        ==> year <= y)
}

/// What is said of ranges that hold this year.
pub open spec fn said_for(cands: Set<(Seq<char>, (Seq<char>, Seq<char>))>, cal: Map<Seq<char>, YearBounds>, year: int) -> Set<
    (Seq<char>, (Seq<char>, Seq<char>)),
> {
    Set::new(|x: (Seq<char>, (Seq<char>, Seq<char>))| cands.contains(x) && in_force(cal, x.0, year))
}

/// The name that a place is shown with is the best of those whose ranges hold the year; where the year is not known, or no
/// range holds it, the best of all; and none where none is said.
pub proof fn which_place_name_is_picked(cands: SortedSet<Three>, cal: Calendar, year: Option<i32>, r: Option<String>)
    requires
        cands.wf(),
        cal.wf(),
        call_ensures(pick_place_name, (&cands, &cal, year), r),
    ensures
        match r {
            Some(name) => match year {
                Some(y) => if unsaid(said_for(cands@, cal@, y as int)) {
                    is_best(cands@, name@)
                } else {
                    is_best(said_for(cands@, cal@, y as int), name@)
                },
                None => is_best(cands@, name@),
            },
            None => unsaid(cands@),
        },
{
    cands.facts();
    the_best_is_picked(cands@);
    if let Some(y) = year {
        let now = passing(cands@, |x: (Seq<char>, (Seq<char>, Seq<char>))| covers(cal@, x.0, y));
        assert(now =~= said_for(cands@, cal@, y as int));
        vstd::set_lib::lemma_set_subset_finite(cands@, now);
        the_best_is_picked(now);
        if best_name(now) is Some {
            let name = best_name(now)->0;
            let (range, who) = choose|range: Seq<char>, who: Seq<char>| #[trigger]
                now.contains((range, (name, who))) && forall|r: Seq<char>, o: Seq<char>, w: Seq<char>| #[trigger]
                    now.contains((r, (o, w))) ==> sayers(now, r, o) < sayers(now, range, name) || sayers(now, r, o) == sayers(
                        now,
                        range,
                        name,
                    ) && (o == name || text_before(name, o));
            assert(now.contains((range, (name, who))));
            assert(cands@.contains((range, (name, who))));
        }
    }
}

/// The claim puts the place somewhere.
pub open spec fn points(d: Seq<RecordModel>, c: ClaimModel, place: Seq<char>) -> bool {
    told(d, c) && c.predicate == "openom.org/core/place_point/v1"@ && c.target_id == place
}

/// The points that are said of the place, as texts, and by whom.
pub open spec fn points_said(d: Seq<RecordModel>, place: Seq<char>) -> Set<(Seq<char>, Seq<char>)> {
    Set::new(
        |x: (Seq<char>, Seq<char>)| exists|c: ClaimModel| #[trigger] points(d, c, place) && c.value.compact() == x.0 && c.created_by == x.1,
    )
}

/// The point of a place is the one that most people say, as the claim with the least id has it; none where no one says any.
pub proof fn where_a_place_is(d: Seq<RecordModel>, place: Seq<char>)
    requires
        distinct_ids(d),
    ensures
        points_said(d, place).finite(),
        match (point_of(facts(d), place), winner::<String, Seq<char>>(points_said(d, place))) {
            (Some(v), Some(text)) => exists|c: ClaimModel| #[trigger]
                points(d, c, place) && c.value.compact() == text && c.value == v && forall|o: ClaimModel| #[trigger]
                    points(d, o, place) && o.value.compact() == text ==> o.id == c.id || text_before(c.id, o.id),
            (None, None) => true,
            _ => false,
        },
{
    let f = facts(d);
    let point = "openom.org/core/place_point/v1"@;
    gathered_is_finite(d, votes_in());
    slice_is_finite(f.votes, point);
    slice_is_finite(slice(f.votes, point), place);
    let all = slice(slice(f.votes, point), place);
    slots_are_apart();
    assert forall|x: (Seq<char>, Seq<char>)| all.contains(x) == points_said(d, place).contains(x) by {
        let m = (point, (place, x));
        assert(all.contains(x) == f.votes.contains(m));
        claims_give(d, votes_in(), m);
        if all.contains(x) {
            let c = choose|c: ClaimModel| #[trigger] told(d, c) && votes_in()(RecordModel::Claim(c)) == Some(m);
            assert(points(d, c, place));
        }
        if points_said(d, place).contains(x) {
            let c = choose|c: ClaimModel| #[trigger] points(d, c, place) && c.value.compact() == x.0 && c.created_by == x.1;
            assert(votes_in()(RecordModel::Claim(c)) == Some(m));
        }
    }
    assert(all =~= points_said(d, place));
    assert(settled(f, point, place) == winner::<String, Seq<char>>(points_said(d, place)));
    crate::projection::meaning::the_most_paired_wins(points_said(d, place));
    if let Some(text) = settled(f, point, place) {
        let who = choose|who: Seq<char>| points_said(d, place).contains((text, who));
        let c0 = choose|c: ClaimModel| #[trigger] points(d, c, place) && c.value.compact() == text && c.created_by == who;
        let ids = passing(f.claims.dom(), |id: Seq<char>| puts_at(f.claims[id], place, text));
        told_is_filed(d, c0);
        vstd::set_lib::lemma_set_subset_finite(f.claims.dom(), ids);
        least_exists::<String>(ids);
        assert(ids.contains(c0.id));
        let id = least::<String>(ids)->0;
        let c = f.claims[id];
        facts_are_sound(d);
        told_is_filed(d, c);
        assert(points(d, c, place));
        assert forall|o: ClaimModel| #[trigger] points(d, o, place) && o.value.compact() == text implies o.id == c.id || text_before(
            c.id,
            o.id,
        ) by {
            told_is_filed(d, o);
            assert(ids.contains(o.id));
        }
    }
}

/// The field of the source that is cited, where the source is known.
pub open spec fn source_says(d: Seq<RecordModel>, id: Seq<char>, key: Seq<char>, text: Option<Seq<char>>) -> bool {
    forall|t: Seq<char>|
        (text == Some(t)) <==> exists|s: ClaimModel| #[trigger]
            told(d, s) && s.id == id && s.predicate == "openom.org/core/source/v1"@ && #[trigger] has_text(s.value, key, t)
}

/// The citation is the claim's: it backs the claim, and says where in the source and what of it; and the source's fields
/// are those of the claim that describes the source.
pub open spec fn is_citation(d: Seq<RecordModel>, c: ClaimModel, v: CitationModel) -> bool {
    &&& c.citation matches Some(cit) && {
        &&& v.locator == cit.get("locator"@)
        &&& forall|t: Seq<char>| (v.extract == Some(t)) <==> #[trigger] has_text(cit, "extract"@, t)
        &&& v.source.source_id == text_or(cit, "sourceId"@, Seq::empty())
    }
    &&& v.claim_id == c.id
    &&& v.predicate == c.predicate
    &&& source_says(d, v.source.source_id, "title"@, v.source.title)
    &&& source_says(d, v.source.source_id, "repository"@, v.source.repository)
    &&& source_says(d, v.source.source_id, "uri"@, v.source.uri)
    &&& source_says(d, v.source.source_id, "quality"@, v.source.quality)
}

proof fn sources_are_told(d: Seq<RecordModel>, id: Seq<char>, key: Seq<char>)
    requires
        distinct_ids(d),
    ensures
        source_says(d, id, key, source_field(facts(d), id, key)),
{
    let f = facts(d);
    let text = source_field(f, id, key);
    facts_are_sound(d);
    assert forall|t: Seq<char>| (text == Some(t)) <==> exists|s: ClaimModel| #[trigger]
        told(d, s) && s.id == id && s.predicate == "openom.org/core/source/v1"@ && #[trigger] has_text(s.value, key, t) by {
        if text == Some(t) {
            let s = f.claims[id];
            told_is_filed(d, s);
            assert(told(d, s) && has_text(s.value, key, t));
        }
        if exists|s: ClaimModel| #[trigger]
            told(d, s) && s.id == id && s.predicate == "openom.org/core/source/v1"@ && #[trigger] has_text(s.value, key, t) {
            let s = choose|s: ClaimModel| #[trigger]
                told(d, s) && s.id == id && s.predicate == "openom.org/core/source/v1"@ && #[trigger] has_text(s.value, key, t);
            told_is_filed(d, s);
        }
    }
}

/// This is the citation of a claim that belongs to this person.
pub open spec fn is_source_of(d: Seq<RecordModel>, policy: Policy, p: Seq<char>, v: CitationModel) -> bool {
    exists|c: ClaimModel| #[trigger] held(d, policy, c, p) && is_citation(d, c, v)
}

/// See `which_sources_are_shown`.
pub open spec fn shows_sources(d: Seq<RecordModel>, policy: Policy, p: PersonModel) -> bool {
    &&& forall|k: int| 0 <= k < p.sources.len() ==> is_source_of(d, policy, p.id, #[trigger] p.sources[k])
    &&& forall|c: ClaimModel| #[trigger]
        held(d, policy, c, p.id) && c.citation is Some ==> exists|k: int|
            0 <= k < p.sources.len() && (#[trigger] p.sources[k]).claim_id == c.id
    &&& forall|x: int, y: int| #![trigger p.sources[x], p.sources[y]]
        0 <= x < y < p.sources.len() ==> text_before(p.sources[x].source.source_id, p.sources[y].source.source_id)
            || p.sources[x].source.source_id == p.sources[y].source.source_id && text_before(
            p.sources[x].claim_id,
            p.sources[y].claim_id,
        )
}

/// The sources that a person shows are the citations of the claims that belong to them, one for each claim that has one,
/// in the order of the sources and, within one, of the claims.
pub proof fn which_sources_are_shown(records: Vec<Record>, policy: Policy, calendar: Calendar, r: Projection, i: int)
    requires
        call_ensures(project, (&records, &policy, &calendar), r),
        0 <= i < r@.people.len(),
    ensures
        shows_sources(counted(records), policy, r@.people[i]),
{
    let d = counted(records);
    let id = drawn(records, policy, calendar, r, i);
    let f = facts(d);
    let p = r@.people[i];
    let ids = slice(placed(f, identity(f, policy)), id);
    placed_are_held(d, policy, id);
    let give = cited(f);
    imaged_is_finite(ids, give);
    let keys = imaged(ids, give);
    in_order_lists::<Two>(keys);
    let q = in_order::<Two>(keys);
    assert(p.sources == citations(f, ids));
    assert(p.sources.len() == q.len());
    assert forall|k: int| 0 <= k < p.sources.len() implies is_source_of(d, policy, p.id, #[trigger] p.sources[k])
        && p.sources[k].claim_id == q[k].1 && p.sources[k].source.source_id == q[k].0 by {
        assert(keys.contains(q[k]));
        let x = choose|x: Seq<char>| #[trigger] ids.contains(x) && give(x) == Some(q[k]);
        let c = f.claims[x];
        assert(held(d, policy, c, id));
        let cit = c.citation->0;
        assert(p.sources[k] == citation_view(f, c, cit));
        let source = source_id_of(cit);
        sources_are_told(d, source, "title"@);
        sources_are_told(d, source, "repository"@);
        sources_are_told(d, source, "uri"@);
        sources_are_told(d, source, "quality"@);
        assert forall|t: Seq<char>| (p.sources[k].extract == Some(t)) <==> #[trigger] has_text(cit, "extract"@, t) by {}
        assert(is_citation(d, c, p.sources[k]));
    }
    assert forall|c: ClaimModel| #[trigger] held(d, policy, c, p.id) && c.citation is Some implies exists|k: int|
        0 <= k < p.sources.len() && (#[trigger] p.sources[k]).claim_id == c.id by {
        let x = (source_id_of(c.citation->0), c.id);
        assert(ids.contains(c.id) && give(c.id) == Some(x));
        assert(keys.contains(x));
        let k = choose|k: int| 0 <= k < q.len() && q[k] == x;
        assert(p.sources[k].claim_id == c.id);
    }
    assert forall|x: int, y: int| #![trigger p.sources[x], p.sources[y]] 0 <= x < y < p.sources.len() implies text_before(
        p.sources[x].source.source_id,
        p.sources[y].source.source_id,
    ) || p.sources[x].source.source_id == p.sources[y].source.source_id && text_before(
        p.sources[x].claim_id,
        p.sources[y].claim_id,
    ) by {
        assert(Two::before(q[x], q[y]));
    }
}

/// The claim gives a value of this field.
pub open spec fn gives(c: ClaimModel, field: Seq<char>, v: Json) -> bool {
    c.predicate == "openom.org/core/custom/value/v1"@ && has_text(c.value, "fieldId"@, field) && c.value.get("value"@) == Some(v)
}

/// The values that are given of a field of this person, as texts, and by whom.
pub open spec fn values_given(d: Seq<RecordModel>, policy: Policy, p: Seq<char>, field: Seq<char>) -> Set<(Seq<char>, Seq<char>)> {
    Set::new(
        |x: (Seq<char>, Seq<char>)|
            exists|c: ClaimModel, v: Json| #[trigger]
                held(d, policy, c, p) && #[trigger] gives(c, field, v) && v.compact() == x.0 && c.created_by == x.1,
    )
}

/// What is said of a field as such, under this key, and by whom.
pub open spec fn field_said(d: Seq<RecordModel>, field: Seq<char>, key: Seq<char>) -> Set<(Seq<char>, Seq<char>)> {
    Set::new(
        |x: (Seq<char>, Seq<char>)|
            exists|c: ClaimModel| #[trigger]
                told(d, c) && c.predicate == "openom.org/core/custom/field/v1"@ && has_text(c.value, "fieldId"@, field) && has_text(
                    c.value,
                    key,
                    x.0,
                ) && c.created_by == x.1,
    )
}

/// What wins, or this where nothing does.
pub open spec fn wins_or(votes: Set<(Seq<char>, Seq<char>)>, other: Seq<char>, got: Seq<char>) -> bool {
    match winner::<String, Seq<char>>(votes) {
        Some(v) => got == v,
        None => got == other,
    }
}

/// The field is shown under the label and with the type that most people say, its id and a text where no one says any; and
/// with the value that most people give, as the claim with the least id has it.
pub open spec fn field_shown(d: Seq<RecordModel>, policy: Policy, p: Seq<char>, v: FieldModel) -> bool {
    &&& wins_or(field_said(d, v.field_id, "label"@), v.field_id, v.label)
    &&& wins_or(field_said(d, v.field_id, "type"@), "text"@, v.field_type)
    &&& winner::<String, Seq<char>>(values_given(d, policy, p, v.field_id)) matches Some(text) && exists|c: ClaimModel| #[trigger]
        held(d, policy, c, p) && gives(c, v.field_id, v.value) && v.value.compact() == text && forall|o: ClaimModel, w: Json| #[trigger]
            held(d, policy, o, p) && #[trigger] gives(o, v.field_id, w) && w.compact() == text ==> o.id == c.id || text_before(
                c.id,
                o.id,
            )
}

proof fn labels_are_told(d: Seq<RecordModel>, field: Seq<char>)
    ensures
        slice(slice(facts(d).votes, "openom.org/core/custom/field/v1"@), field) == field_said(d, field, "label"@),
        slice(facts(d).field_types, field) == field_said(d, field, "type"@),
{
    let f = facts(d);
    let custom = "openom.org/core/custom/field/v1"@;
    slots_are_apart();
    let all = slice(slice(f.votes, custom), field);
    assert forall|x: (Seq<char>, Seq<char>)| all.contains(x) == field_said(d, field, "label"@).contains(x) by {
        let m = (custom, (field, x));
        assert(all.contains(x) == f.votes.contains(m));
        claims_give(d, votes_in(), m);
        if all.contains(x) {
            let c = choose|c: ClaimModel| #[trigger] told(d, c) && votes_in()(RecordModel::Claim(c)) == Some(m);
            assert(told(d, c) && has_text(c.value, "fieldId"@, field) && has_text(c.value, "label"@, x.0));
        }
        if field_said(d, field, "label"@).contains(x) {
            let c = choose|c: ClaimModel| #[trigger]
                told(d, c) && c.predicate == custom && has_text(c.value, "fieldId"@, field) && has_text(c.value, "label"@, x.0)
                    && c.created_by == x.1;
            assert(votes_in()(RecordModel::Claim(c)) == Some(m));
        }
    }
    assert(all =~= field_said(d, field, "label"@));
    let types = slice(f.field_types, field);
    assert forall|x: (Seq<char>, Seq<char>)| types.contains(x) == field_said(d, field, "type"@).contains(x) by {
        let m = (field, x);
        assert(types.contains(x) == f.field_types.contains(m));
        claims_give(d, types_in(), m);
        if types.contains(x) {
            let c = choose|c: ClaimModel| #[trigger] told(d, c) && types_in()(RecordModel::Claim(c)) == Some(m);
            assert(told(d, c) && has_text(c.value, "fieldId"@, field) && has_text(c.value, "type"@, x.0));
        }
        if field_said(d, field, "type"@).contains(x) {
            let c = choose|c: ClaimModel| #[trigger]
                told(d, c) && c.predicate == custom && has_text(c.value, "fieldId"@, field) && has_text(c.value, "type"@, x.0)
                    && c.created_by == x.1;
            assert(types_in()(RecordModel::Claim(c)) == Some(m));
        }
    }
    assert(types =~= field_said(d, field, "type"@));
}

proof fn values_are_held(d: Seq<RecordModel>, policy: Policy, p: Seq<char>, field: Seq<char>)
    requires
        distinct_ids(d),
    ensures
        ({
            let f = facts(d);
            let ids = slice(placed(f, identity(f, policy)), p);
            &&& imaged(ids, customs_said(f)).finite()
            &&& slice(imaged(ids, customs_said(f)), field) == values_given(d, policy, p, field)
        }),
{
    let f = facts(d);
    let ids = slice(placed(f, identity(f, policy)), p);
    placed_are_held(d, policy, p);
    let give = customs_said(f);
    imaged_is_finite(ids, give);
    let all = slice(imaged(ids, give), field);
    assert forall|x: (Seq<char>, Seq<char>)| all.contains(x) == values_given(d, policy, p, field).contains(x) by {
        let m = (field, x);
        assert(all.contains(x) == imaged(ids, give).contains(m));
        if all.contains(x) {
            let id = choose|id: Seq<char>| #[trigger] ids.contains(id) && give(id) == Some(m);
            let c = f.claims[id];
            let v = (crate::projection::record::custom_of(c)->0).1;
            assert(held(d, policy, c, p) && gives(c, field, v));
        }
        if values_given(d, policy, p, field).contains(x) {
            let (c, v) = choose|c: ClaimModel, v: Json| #[trigger]
                held(d, policy, c, p) && #[trigger] gives(c, field, v) && v.compact() == x.0 && c.created_by == x.1;
            assert(ids.contains(c.id) && f.claims[c.id] == c);
            assert(give(c.id) == Some(m));
        }
    }
    assert(all =~= values_given(d, policy, p, field));
}

proof fn a_field_is_shown(d: Seq<RecordModel>, policy: Policy, p: Seq<char>, field: Seq<char>)
    requires
        distinct_ids(d),
        exists|c: ClaimModel, v: Json| #[trigger] held(d, policy, c, p) && #[trigger] gives(c, field, v),
    ensures
        field_shown(
            d,
            policy,
            p,
            custom_view(facts(d), slice(placed(facts(d), identity(facts(d), policy)), p), field),
        ),
{
    let f = facts(d);
    let ids = slice(placed(f, identity(f, policy)), p);
    let view = custom_view(f, ids, field);
    labels_are_told(d, field);
    values_are_held(d, policy, p, field);
    placed_are_held(d, policy, p);
    let given = values_given(d, policy, p, field);
    slice_is_finite(imaged(ids, customs_said(f)), field);
    crate::projection::meaning::the_most_paired_wins(given);
    let (c0, v0) = choose|c: ClaimModel, v: Json| #[trigger] held(d, policy, c, p) && #[trigger] gives(c, field, v);
    assert(given.contains((v0.compact(), c0.created_by)));
    let text = winner::<String, Seq<char>>(given)->0;
    assert(winner::<String, Seq<char>>(given) is Some);
    let who = choose|who: Seq<char>| given.contains((text, who));
    let (c1, v1) = choose|c: ClaimModel, v: Json| #[trigger]
        held(d, policy, c, p) && #[trigger] gives(c, field, v) && v.compact() == text && c.created_by == who;
    let picked = passing(ids, |id: Seq<char>| gives_value(f.claims[id], field, text));
    vstd::set_lib::lemma_set_subset_finite(ids, picked);
    least_exists::<String>(picked);
    assert(ids.contains(c1.id) && picked.contains(c1.id));
    let id = least::<String>(picked)->0;
    let c = f.claims[id];
    assert(picked.contains(id));
    assert(held(d, policy, c, p));
    assert(gives(c, field, view.value));
    assert forall|o: ClaimModel, w: Json| #[trigger] held(d, policy, o, p) && #[trigger] gives(o, field, w) && w.compact()
        == text implies o.id == c.id || text_before(c.id, o.id) by {
        assert(ids.contains(o.id) && f.claims[o.id] == o);
        assert(gives_value(o, field, text));
        assert(picked.contains(o.id));
    }
}

/// See `which_custom_fields_are_shown`.
pub open spec fn shows_fields(d: Seq<RecordModel>, policy: Policy, p: PersonModel) -> bool {
    &&& forall|k: int| 0 <= k < p.custom_fields.len() ==> field_shown(d, policy, p.id, #[trigger] p.custom_fields[k])
    &&& forall|c: ClaimModel, field: Seq<char>, v: Json| #[trigger]
        held(d, policy, c, p.id) && #[trigger] gives(c, field, v) ==> exists|k: int|
            0 <= k < p.custom_fields.len() && (#[trigger] p.custom_fields[k]).field_id == field
    &&& forall|x: int, y: int| #![trigger p.custom_fields[x], p.custom_fields[y]]
        0 <= x < y < p.custom_fields.len() ==> text_before(p.custom_fields[x].field_id, p.custom_fields[y].field_id)
}

/// The custom fields that a person shows are those that a claim that belongs to them gives a value of, each once and in
/// ascending order, and each with what most people say.
pub proof fn which_custom_fields_are_shown(records: Vec<Record>, policy: Policy, calendar: Calendar, r: Projection, i: int)
    requires
        call_ensures(project, (&records, &policy, &calendar), r),
        0 <= i < r@.people.len(),
    ensures
        shows_fields(counted(records), policy, r@.people[i]),
{
    let d = counted(records);
    let id = drawn(records, policy, calendar, r, i);
    let f = facts(d);
    let p = r@.people[i];
    let ids = slice(placed(f, identity(f, policy)), id);
    let all = imaged(ids, customs_said(f));
    values_are_held(d, policy, id, Seq::empty());
    firsts_is_finite(all);
    in_order_lists::<String>(firsts(all));
    let q = in_order::<String>(firsts(all));
    assert(p.custom_fields == q.map_values(|field: Seq<char>| custom_view(f, ids, field)));
    assert forall|k: int| 0 <= k < p.custom_fields.len() implies field_shown(d, policy, p.id, #[trigger] p.custom_fields[k])
        && p.custom_fields[k].field_id == q[k] by {
        let field = q[k];
        assert(p.custom_fields[k] == custom_view(f, ids, field));
        assert(firsts(all).contains(field));
        let x = choose|x: (Seq<char>, Seq<char>)| all.contains((field, x));
        values_are_held(d, policy, id, field);
        assert(slice(all, field).contains(x));
        assert(values_given(d, policy, id, field).contains(x));
        let (c, v) = choose|c: ClaimModel, v: Json| #[trigger]
            held(d, policy, c, id) && #[trigger] gives(c, field, v) && v.compact() == x.0 && c.created_by == x.1;
        assert(held(d, policy, c, id) && gives(c, field, v));
        a_field_is_shown(d, policy, id, field);
    }
    assert forall|c: ClaimModel, field: Seq<char>, v: Json| #[trigger]
        held(d, policy, c, p.id) && #[trigger] gives(c, field, v) implies exists|k: int|
        0 <= k < p.custom_fields.len() && (#[trigger] p.custom_fields[k]).field_id == field by {
        values_are_held(d, policy, id, field);
        let x = (v.compact(), c.created_by);
        assert(values_given(d, policy, id, field).contains(x));
        assert(slice(all, field).contains(x));
        assert(all.contains((field, x)));
        assert(firsts(all).contains(field));
        let k = choose|k: int| 0 <= k < q.len() && q[k] == field;
        assert(p.custom_fields[k].field_id == field);
    }
    assert forall|x: int, y: int| #![trigger p.custom_fields[x], p.custom_fields[y]]
        0 <= x < y < p.custom_fields.len() implies text_before(p.custom_fields[x].field_id, p.custom_fields[y].field_id) by {
        assert(String::before(q[x], q[y]));
    }
}

} // verus!
