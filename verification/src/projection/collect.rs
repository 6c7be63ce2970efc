//! What a set of records says, gathered by kind.

use vstd::prelude::*;

use crate::order::{text_equal, Key};
use crate::projection::record::{
    attest_of, opt_three, opt_tie, opt_two, parse_attest, parse_participant, parse_place_name, parse_tie, parse_type_vote,
    parse_vote, participant_of, place_name_of, tie_of, type_vote_of, vote_of, Claim, ClaimModel, Record, RecordModel, Three,
    Tie, Two, Vote, TYPE_EVENT, TYPE_PERSON,
};
use crate::sorted::{SortedMap, SortedSet};
use crate::tables::opt_model;

verus! {

/// What a tie is.
pub type TieModel = (Seq<char>, (Seq<char>, (Seq<char>, Seq<char>)));

/// What the records hold.
pub open spec fn record_models(s: Seq<Record>) -> Seq<RecordModel> {
    Seq::new(s.len(), |i: int| s[i]@)
}

/// What the records that are pointed at hold.
pub open spec fn seen(s: Seq<&Record>) -> Seq<RecordModel> {
    Seq::new(s.len(), |i: int| s[i]@)
}

/// Some record has the id.
pub open spec fn has_record(s: Seq<RecordModel>, id: Seq<char>) -> bool {
    exists|i: int| 0 <= i < s.len() && (#[trigger] s[i]).id() == id
}

/// The first record of each id.
pub open spec fn first_of_each(s: Seq<RecordModel>) -> Seq<RecordModel>
    decreases s.len(),
{
    if s.len() == 0 {
        Seq::empty()
    } else {
        let before = first_of_each(s.drop_last());
        if has_record(before, s.last().id()) {
            before
        } else {
            before.push(s.last())
        }
    }
}

/// No two records have one id.
pub open spec fn distinct_ids(s: Seq<RecordModel>) -> bool {
    forall|i: int, j: int| #![trigger s[i], s[j]] 0 <= i < j < s.len() ==> s[i].id() != s[j].id()
}

/// Keeping the first of each id leaves no two with one id, and keeps every id.
pub proof fn firsts_are_distinct(s: Seq<RecordModel>)
    ensures
        distinct_ids(first_of_each(s)),
        forall|id: Seq<char>| #[trigger] has_record(first_of_each(s), id) <==> has_record(s, id),
        forall|i: int| 0 <= i < first_of_each(s).len() ==> s.contains(#[trigger] first_of_each(s)[i]),
    decreases s.len(),
{
    if s.len() > 0 {
        let s0 = s.drop_last();
        let b = first_of_each(s0);
        let r = first_of_each(s);
        let x = s.last();
        firsts_are_distinct(s0);
        assert forall|i: int| 0 <= i < r.len() implies s.contains(#[trigger] r[i]) by {
            if i < b.len() {
                assert(b[i] == r[i]);
                assert(s0.contains(b[i]));
                let k = choose|k: int| 0 <= k < s0.len() && s0[k] == b[i];
                assert(s[k] == b[i]);
            } else {
                assert(s[s.len() - 1] == x);
            }
        }
        if !has_record(b, x.id()) {
            assert forall|i: int, j: int| #![trigger r[i], r[j]] 0 <= i < j < r.len() implies r[i].id() != r[j].id() by {
                assert(r[i] == b[i]);
                if j < b.len() {
                    assert(r[j] == b[j]);
                }
            }
        }
        assert forall|id: Seq<char>| #[trigger] has_record(r, id) <==> has_record(s, id) by {
            if has_record(r, id) {
                let i = choose|i: int| 0 <= i < r.len() && (#[trigger] r[i]).id() == id;
                assert(s.contains(r[i]));
                let k = choose|k: int| 0 <= k < s.len() && s[k] == r[i];
                assert(s[k].id() == id);
            }
            if has_record(s, id) {
                let i = choose|i: int| 0 <= i < s.len() && (#[trigger] s[i]).id() == id;
                if i < s.len() - 1 {
                    assert(s0[i].id() == id);
                    assert(has_record(s0, id));
                    assert(has_record(b, id));
                    let k = choose|k: int| 0 <= k < b.len() && (#[trigger] b[k]).id() == id;
                    assert(r[k].id() == id);
                } else if has_record(b, x.id()) {
                    let k = choose|k: int| 0 <= k < b.len() && (#[trigger] b[k]).id() == id;
                    assert(r[k].id() == id);
                } else {
                    assert(r[b.len() as int].id() == id);
                }
            }
        }
    }
}

/// The first record of each id.
pub fn dedupe<'a>(records: &'a Vec<Record>) -> (r: Vec<&'a Record>)
    ensures
        seen(r@) == first_of_each(record_models(records@)),
{
    let ghost all = record_models(records@);
    let mut ids: SortedSet<String> = SortedSet::new();
    let mut out: Vec<&'a Record> = Vec::new();
    let mut i: usize = 0;
    proof {
        assert(seen(out@) =~= Seq::<RecordModel>::empty());
        assert(all.take(0) =~= Seq::<RecordModel>::empty());
    }
    while i < records.len()
        invariant
            i <= records.len(),
            all == record_models(records@),
            ids.wf(),
            seen(out@) == first_of_each(all.take(i as int)),
            forall|id: Seq<char>| #[trigger] ids@.contains(id) <==> has_record(seen(out@), id),
        decreases records.len() - i,
    {
        let r: &'a Record = &records[i];
        let ghost before = seen(out@);
        let ghost ids_before = ids@;
        proof {
            assert(all.take(i + 1).drop_last() =~= all.take(i as int));
            assert(all.take(i + 1).last() == r@);
        }
        if ids.insert(r.id().clone()) {
            assert(!has_record(before, r@.id()));
            out.push(r);
            proof {
                let now = seen(out@);
                assert(now =~= before.push(r@));
                assert forall|id: Seq<char>| #[trigger] ids@.contains(id) <==> has_record(now, id) by {
                    if ids@.contains(id) {
                        if id == r@.id() {
                            assert(now[now.len() - 1].id() == id);
                        } else {
                            assert(ids_before.contains(id));
                            let k = choose|k: int| 0 <= k < before.len() && (#[trigger] before[k]).id() == id;
                            assert(now[k].id() == id);
                        }
                    }
                    if has_record(now, id) {
                        let k = choose|k: int| 0 <= k < now.len() && (#[trigger] now[k]).id() == id;
                        if k < before.len() {
                            assert(before[k].id() == id);
                            assert(has_record(before, id));
                        }
                    }
                }
            }
        } else {
            assert(has_record(before, r@.id()));
            assert(ids@ =~= ids_before);
        }
        i = i + 1;
    }
    assert(all.take(i as int) =~= all);
    out
}

/// What the records say of one kind: each thing that some record gives.
pub open spec fn gathered<M>(d: Seq<RecordModel>, give: spec_fn(RecordModel) -> Option<M>) -> Set<M> {
    Set::new(|m: M| exists|i: int| 0 <= i < d.len() && give(#[trigger] d[i]) == Some(m))
}

/// Gathers what the records give.
pub(crate) fn gather<K: Key, F: Fn(&Record) -> Option<K>>(
    records: &Vec<&Record>,
    f: F,
    Ghost(give): Ghost<spec_fn(RecordModel) -> Option<K::Model>>,
) -> (r: SortedSet<K>)
    requires
        forall|x: Record| f.requires((&x,)),
        forall|x: Record, k: Option<K>| f.ensures((&x,), k) ==> opt_model(k) == give(x@),
    ensures
        r.wf(),
        r@ == gathered(seen(records@), give),
{
    let ghost d = seen(records@);
    let mut out: SortedSet<K> = SortedSet::new();
    let mut i: usize = 0;
    assert(out@ =~= gathered(d.take(0), give));
    while i < records.len()
        invariant
            i <= records.len(),
            d == seen(records@),
            forall|x: Record| f.requires((&x,)),
            forall|x: Record, k: Option<K>| f.ensures((&x,), k) ==> opt_model(k) == give(x@),
            out.wf(),
            out@ == gathered(d.take(i as int), give),
        decreases records.len() - i,
    {
        let k = f(records[i]);
        let ghost before = out@;
        let ghost x = d[i as int];
        assert(opt_model(k) == give(x));
        if let Some(key) = k {
            out.insert(key);
        }
        proof {
            let now = gathered(d.take(i + 1), give);
            assert forall|m: K::Model| out@.contains(m) == now.contains(m) by {
                if now.contains(m) {
                    let j = choose|j: int| 0 <= j < d.take(i + 1).len() && give(#[trigger] d.take(i + 1)[j]) == Some(m);
                    if j < i {
                        assert(d.take(i as int)[j] == d[j]);
                        assert(before.contains(m));
                    }
                }
                if before.contains(m) {
                    let j = choose|j: int| 0 <= j < d.take(i as int).len() && give(#[trigger] d.take(i as int)[j]) == Some(m);
                    assert(d.take(i + 1)[j] == d[j]);
                }
                if give(x) == Some(m) {
                    assert(d.take(i + 1)[i as int] == x);
                }
            }
            assert(out@ =~= now);
        }
        i = i + 1;
    }
    assert(d.take(i as int) =~= d);
    out
}

/// The id of an anchor of this type.
pub open spec fn anchor_of(r: RecordModel, type_uri: Seq<char>) -> Option<Seq<char>> {
    match r {
        RecordModel::Anchor { id, type_uri: t, .. } => if t == type_uri {
            Some(id)
        } else {
            None
        },
        _ => None,
    }
}

pub open spec fn persons_in() -> spec_fn(RecordModel) -> Option<Seq<char>> {
    |r: RecordModel| anchor_of(r, TYPE_PERSON@)
}

pub open spec fn events_in() -> spec_fn(RecordModel) -> Option<Seq<char>> {
    |r: RecordModel| anchor_of(r, TYPE_EVENT@)
}

/// The tie that a record asserts, with its author and id.
pub open spec fn ties_in() -> spec_fn(RecordModel) -> Option<(TieModel, (Seq<char>, Seq<char>))> {
    |r: RecordModel|
        match r {
            RecordModel::Claim(c) => match tie_of(c) {
                Some(t) => Some((t, (c.created_by, c.id))),
                None => None,
            },
            _ => None,
        }
}

/// The tie and the fingerprint of a claim that has both.
pub open spec fn prints_in() -> spec_fn(RecordModel) -> Option<(TieModel, Seq<char>)> {
    |r: RecordModel|
        match r {
            RecordModel::Claim(c) => match (tie_of(c), c.fingerprint) {
                (Some(t), Some(p)) => Some((t, p)),
                _ => None,
            },
            _ => None,
        }
}

pub open spec fn attests_in(verdict: Seq<char>) -> spec_fn(RecordModel) -> Option<(Seq<char>, Seq<char>)> {
    |r: RecordModel|
        match r {
            RecordModel::Claim(c) => attest_of(c, verdict),
            _ => None,
        }
}

pub open spec fn votes_in() -> spec_fn(RecordModel) -> Option<TieModel> {
    |r: RecordModel|
        match r {
            RecordModel::Claim(c) => vote_of(c),
            _ => None,
        }
}

pub open spec fn types_in() -> spec_fn(RecordModel) -> Option<(Seq<char>, (Seq<char>, Seq<char>))> {
    |r: RecordModel|
        match r {
            RecordModel::Claim(c) => type_vote_of(c),
            _ => None,
        }
}

pub open spec fn place_names_in() -> spec_fn(RecordModel) -> Option<TieModel> {
    |r: RecordModel|
        match r {
            RecordModel::Claim(c) => place_name_of(c),
            _ => None,
        }
}

pub open spec fn participants_in() -> spec_fn(RecordModel) -> Option<(Seq<char>, (Seq<char>, Seq<char>))> {
    |r: RecordModel|
        match r {
            RecordModel::Claim(c) => participant_of(c),
            _ => None,
        }
}

fn person_entry(r: &Record) -> (k: Option<String>)
    ensures
        opt_model(k) == persons_in()(r@),
{
    match r {
        Record::Anchor(a) => {
            if text_equal(a.type_uri.as_str(), TYPE_PERSON) {
                Some(a.id.clone())
            } else {
                None
            }
        },
        _ => None,
    }
}

fn event_entry(r: &Record) -> (k: Option<String>)
    ensures
        opt_model(k) == events_in()(r@),
{
    match r {
        Record::Anchor(a) => {
            if text_equal(a.type_uri.as_str(), TYPE_EVENT) {
                Some(a.id.clone())
            } else {
                None
            }
        },
        _ => None,
    }
}

fn print_entry(r: &Record) -> (k: Option<(Tie, String)>)
    ensures
        opt_model(k) == prints_in()(r@),
{
    match r {
        Record::Claim(c) => {
            let t = parse_tie(c);
            assert(opt_tie(t) == tie_of(c@));
            match (t, &c.fingerprint) {
                (Some(t), Some(p)) => {
                    let k: (Tie, String) = (t, p.clone());
                    assert(k.model() == (t.model(), p@));
                    Some(k)
                },
                _ => None,
            }
        },
        _ => None,
    }
}

fn tie_entry(r: &Record) -> (k: Option<(Tie, Two)>)
    ensures
        opt_model(k) == ties_in()(r@),
{
    match r {
        Record::Claim(c) => {
            let t = parse_tie(c);
            assert(opt_tie(t) == tie_of(c@));
            match t {
                Some(t) => {
                    let k: (Tie, Two) = (t, (c.created_by.clone(), c.id.clone()));
                    assert(k.model() == (t.model(), (c@.created_by, c@.id)));
                    Some(k)
                },
                None => None,
            }
        },
        _ => None,
    }
}

fn support_entry(r: &Record) -> (k: Option<Two>)
    ensures
        opt_model(k) == attests_in("support"@)(r@),
{
    match r {
        Record::Claim(c) => {
            let k = parse_attest(c, "support");
            assert(opt_two(k) == opt_model(k));
            k
        },
        _ => None,
    }
}

fn reject_entry(r: &Record) -> (k: Option<Two>)
    ensures
        opt_model(k) == attests_in("reject"@)(r@),
{
    match r {
        Record::Claim(c) => {
            let k = parse_attest(c, "reject");
            assert(opt_two(k) == opt_model(k));
            k
        },
        _ => None,
    }
}

fn vote_entry(r: &Record) -> (k: Option<Vote>)
    ensures
        opt_model(k) == votes_in()(r@),
{
    match r {
        Record::Claim(c) => {
            let k = parse_vote(c);
            assert(opt_tie(k) == opt_model(k));
            k
        },
        _ => None,
    }
}

fn type_entry(r: &Record) -> (k: Option<Three>)
    ensures
        opt_model(k) == types_in()(r@),
{
    match r {
        Record::Claim(c) => {
            let k = parse_type_vote(c);
            assert(opt_three(k) == opt_model(k));
            k
        },
        _ => None,
    }
}

fn place_name_entry(r: &Record) -> (k: Option<Vote>)
    ensures
        opt_model(k) == place_names_in()(r@),
{
    match r {
        Record::Claim(c) => {
            let k = parse_place_name(c);
            assert(opt_tie(k) == opt_model(k));
            k
        },
        _ => None,
    }
}

fn participant_entry(r: &Record) -> (k: Option<Three>)
    ensures
        opt_model(k) == participants_in()(r@),
{
    match r {
        Record::Claim(c) => {
            let k = parse_participant(c);
            assert(opt_three(k) == opt_model(k));
            k
        },
        _ => None,
    }
}

/// A map's values, as the texts they hold.
pub open spec fn text_map<M>(m: Map<M, String>) -> Map<M, Seq<char>> {
    m.map_values(|s: String| s@)
}

/// The claims by their id.
pub open spec fn claims_by_id(d: Seq<RecordModel>) -> Map<Seq<char>, ClaimModel>
    decreases d.len(),
{
    if d.len() == 0 {
        Map::empty()
    } else {
        match d.last() {
            RecordModel::Claim(c) => claims_by_id(d.drop_last()).insert(c.id, c),
            _ => claims_by_id(d.drop_last()),
        }
    }
}

/// A map's values, as the claims they hold.
pub open spec fn claim_map(m: Map<Seq<char>, &Claim>) -> Map<Seq<char>, ClaimModel> {
    m.map_values(|c: &Claim| c@)
}

fn collect_claims<'a>(records: &Vec<&'a Record>) -> (r: SortedMap<String, &'a Claim>)
    ensures
        r.wf(),
        claim_map(r@) == claims_by_id(seen(records@)),
{
    let ghost d = seen(records@);
    let mut out: SortedMap<String, &'a Claim> = SortedMap::new();
    let mut i: usize = 0;
    assert(claim_map(out@) =~= claims_by_id(d.take(0)));
    while i < records.len()
        invariant
            i <= records.len(),
            d == seen(records@),
            out.wf(),
            claim_map(out@) == claims_by_id(d.take(i as int)),
        decreases records.len() - i,
    {
        let ghost before = out@;
        proof {
            assert(d.take(i + 1).drop_last() =~= d.take(i as int));
            assert(d.take(i + 1).last() == d[i as int]);
        }
        if let Record::Claim(c) = records[i] {
            out.insert(c.id.clone(), c);
            assert(claim_map(out@) =~= claim_map(before).insert(c@.id, c@));
        }
        i = i + 1;
    }
    assert(d.take(i as int) =~= d);
    out
}

/// Everything that a set of records says, by kind.
#[verifier::ext_equal]
pub struct Facts {
    pub persons: Set<Seq<char>>,
    pub events: Set<Seq<char>>,
    pub ties: Set<(TieModel, (Seq<char>, Seq<char>))>,
    /// The fingerprints under which each tie is told.
    pub prints: Set<(TieModel, Seq<char>)>,
    pub support: Set<(Seq<char>, Seq<char>)>,
    pub reject: Set<(Seq<char>, Seq<char>)>,
    pub votes: Set<TieModel>,
    pub field_types: Set<(Seq<char>, (Seq<char>, Seq<char>))>,
    pub place_names: Set<TieModel>,
    pub participants: Set<(Seq<char>, (Seq<char>, Seq<char>))>,
    pub claims: Map<Seq<char>, ClaimModel>,
}

/// What the records say, by kind.
pub open spec fn facts(d: Seq<RecordModel>) -> Facts {
    Facts {
        persons: gathered(d, persons_in()),
        events: gathered(d, events_in()),
        ties: gathered(d, ties_in()),
        prints: gathered(d, prints_in()),
        support: gathered(d, attests_in("support"@)),
        reject: gathered(d, attests_in("reject"@)),
        votes: gathered(d, votes_in()),
        field_types: gathered(d, types_in()),
        place_names: gathered(d, place_names_in()),
        participants: gathered(d, participants_in()),
        claims: claims_by_id(d),
    }
}

/// What a set of records says, by kind.
pub struct Collected<'a> {
    pub anchors: SortedSet<String>,
    pub event_anchors: SortedSet<String>,
    pub ties: SortedSet<(Tie, Two)>,
    pub prints: SortedSet<(Tie, String)>,
    pub support: SortedSet<Two>,
    pub reject: SortedSet<Two>,
    pub votes: SortedSet<Vote>,
    pub field_types: SortedSet<Three>,
    pub place_names: SortedSet<Vote>,
    pub participants: SortedSet<Three>,
    pub claims: SortedMap<String, &'a Claim>,
}

impl<'a> Collected<'a> {
    pub open spec fn wf(&self) -> bool {
        &&& self.anchors.wf()
        &&& self.event_anchors.wf()
        &&& self.ties.wf()
        &&& self.prints.wf()
        &&& self.support.wf()
        &&& self.reject.wf()
        &&& self.votes.wf()
        &&& self.field_types.wf()
        &&& self.place_names.wf()
        &&& self.participants.wf()
        &&& self.claims.wf()
    }

    pub open spec fn facts(&self) -> Facts {
        Facts {
            persons: self.anchors@,
            events: self.event_anchors@,
            ties: self.ties@,
            prints: self.prints@,
            support: self.support@,
            reject: self.reject@,
            votes: self.votes@,
            field_types: self.field_types@,
            place_names: self.place_names@,
            participants: self.participants@,
            claims: claim_map(self.claims@),
        }
    }
}

/// Gathers what the records say.
pub fn collect<'a>(records: &Vec<&'a Record>) -> (r: Collected<'a>)
    ensures
        r.wf(),
        r.facts() == facts(seen(records@)),
{
    Collected {
        anchors: gather(records, person_entry, Ghost(persons_in())),
        event_anchors: gather(records, event_entry, Ghost(events_in())),
        ties: gather(records, tie_entry, Ghost(ties_in())),
        prints: gather(records, print_entry, Ghost(prints_in())),
        support: gather(records, support_entry, Ghost(attests_in("support"@))),
        reject: gather(records, reject_entry, Ghost(attests_in("reject"@))),
        votes: gather(records, vote_entry, Ghost(votes_in())),
        field_types: gather(records, type_entry, Ghost(types_in())),
        place_names: gather(records, place_name_entry, Ghost(place_names_in())),
        participants: gather(records, participant_entry, Ghost(participants_in())),
        claims: collect_claims(records),
    }
}

} // verus!
