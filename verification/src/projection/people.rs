//! People: what is shown of each person.

use vstd::prelude::*;

use crate::order::{text_equal, Desc, Key};
use crate::projection::collect::{Collected, Facts, TieModel};
use crate::projection::names::{claims_seen, class_of, equiv_classes, name_with_ref, named, refs, refs_of};
use crate::projection::record::{
    custom_of, is_known, known, opt_text, parse_custom_value, parse_trait, trait_of, Claim, ClaimModel, Three, Tie,
    Two, P_BIOGRAPHY, P_CUSTOM_FIELD, P_MEDIA_LINK, P_NAME, P_PREFERRED, P_SEX, P_SOURCE,
};
use crate::projection::resolve::{
    anchors_under, canon, strong, strong_ties, subject, tie_score, score, under, Identity, Policy, Resolved,
};
use crate::projection::value::{json_members, Json, Value};
use crate::projection::views::{
    all_views, Citation, CitationModel, CustomField, FieldModel, GenericClaimView, GenericModel, MediaLink, MediaModel,
    NameModel, NameView, Person, PersonModel, SourceModel, SourceRef,
};
use crate::sorted::{in_order, least, models, SortedSet};
use crate::tables::{
    filter, filter_map, firsts, firsts_of, imaged, keys_of, list_of, made, most_paired, opt_model, passing, slice, slice_of, winner,
};

verus! {

/// The person that a claim is about.
pub open spec fn belongs(f: Facts, n: Identity, c: ClaimModel) -> Option<Seq<char>> {
    canon(f, n, subject(n, c))
}

/// Each person with each claim that is about them.
pub open spec fn placed(f: Facts, n: Identity) -> Set<(Seq<char>, Seq<char>)> {
    Set::new(|x: (Seq<char>, Seq<char>)| f.claims.contains_key(x.1) && belongs(f, n, f.claims[x.1]) == Some(x.0))
}

/// The claims that a test lets through, among some.
pub open spec fn chosen(f: Facts, ids: Set<Seq<char>>, test: spec_fn(ClaimModel) -> bool) -> Seq<Seq<char>> {
    in_order::<String>(passing(ids, |id: Seq<char>| test(f.claims[id])))
}

/// A claim as it is shown where nothing more is known of it.
pub open spec fn generic_view(n: Identity, c: ClaimModel) -> GenericModel {
    GenericModel {
        claim_id: c.id,
        target_id: subject(n, c),
        predicate: c.predicate,
        value: c.value,
        created_by: c.created_by,
    }
}

/// The members of an object, but for those of this name.
pub open spec fn without(v: Json, key: Seq<char>) -> Seq<(Seq<char>, Json)> {
    match v {
        Json::Object(s) => s.filter(|m: (Seq<char>, Json)| m.0 != key),
        _ => Seq::empty(),
    }
}

/// A media link as it is shown.
pub open spec fn media_view(c: ClaimModel) -> MediaModel {
    MediaModel {
        claim_id: c.id,
        media_hash: match trait_of(c, P_MEDIA_LINK@) {
            Some(h) => h,
            None => Seq::empty(),
        },
        value: without(c.value, "mediaHash"@),
    }
}

/// The source that a citation names; none is the empty text.
pub open spec fn source_id_of(cit: Json) -> Seq<char> {
    match cit.text_at("sourceId"@) {
        Some(s) => s,
        None => Seq::empty(),
    }
}

/// A field of a source, where the source is known.
pub open spec fn source_field(f: Facts, id: Seq<char>, key: Seq<char>) -> Option<Seq<char>> {
    if f.claims.contains_key(id) && f.claims[id].predicate == P_SOURCE@ {
        f.claims[id].value.text_at(key)
    } else {
        None
    }
}

/// A citation as it is shown.
pub open spec fn citation_view(f: Facts, c: ClaimModel, cit: Json) -> CitationModel {
    let id = source_id_of(cit);
    CitationModel {
        claim_id: c.id,
        predicate: c.predicate,
        locator: cit.get("locator"@),
        extract: cit.text_at("extract"@),
        source: SourceModel {
            source_id: id,
            title: source_field(f, id, "title"@),
            repository: source_field(f, id, "repository"@),
            uri: source_field(f, id, "uri"@),
            quality: source_field(f, id, "quality"@),
        },
    }
}

/// Each citing claim under the source it cites.
pub open spec fn cited(f: Facts) -> spec_fn(Seq<char>) -> Option<(Seq<char>, Seq<char>)> {
    |id: Seq<char>|
        match f.claims[id].citation {
            Some(cit) => Some((source_id_of(cit), id)),
            None => None,
        }
}

/// The citations among some claims, by source and then by claim.
pub open spec fn citations(f: Facts, ids: Set<Seq<char>>) -> Seq<CitationModel> {
    in_order::<Two>(imaged(ids, cited(f))).map_values(
        |x: (Seq<char>, Seq<char>)| citation_view(f, f.claims[x.1], f.claims[x.1].citation->0),
    )
}

/// Who says what in a slot, among some claims.
pub open spec fn said(f: Facts, predicate: Seq<char>) -> spec_fn(Seq<char>) -> Option<(Seq<char>, Seq<char>)> {
    |id: Seq<char>|
        match trait_of(f.claims[id], predicate) {
            Some(v) => Some((v, f.claims[id].created_by)),
            None => None,
        }
}

/// Who gives which custom field which value, among some claims.
pub open spec fn customs_said(f: Facts) -> spec_fn(Seq<char>) -> Option<(Seq<char>, (Seq<char>, Seq<char>))> {
    |id: Seq<char>|
        match custom_of(f.claims[id]) {
            Some((fid, v)) => Some((fid, (v.compact(), f.claims[id].created_by))),
            None => None,
        }
}

/// The claim gives the field the value with this text.
pub open spec fn gives_value(c: ClaimModel, field: Seq<char>, text: Seq<char>) -> bool {
    custom_of(c) matches Some((fid, v)) && fid == field && v.compact() == text
}

/// The value with this text that some claim gives the field.
pub open spec fn value_given(f: Facts, ids: Set<Seq<char>>, field: Seq<char>, text: Seq<char>) -> Json {
    match least::<String>(passing(ids, |id: Seq<char>| gives_value(f.claims[id], field, text))) {
        Some(id) => (custom_of(f.claims[id])->0).1,
        None => Json::Null,
    }
}

/// The value that wins, or another where there is none.
pub open spec fn winner_or(votes: Set<(Seq<char>, Seq<char>)>, other: Seq<char>) -> Seq<char> {
    match winner::<String, Seq<char>>(votes) {
        Some(v) => v,
        None => other,
    }
}

/// A custom field as it is shown: the value that most people give it, under the label and type that most people define.
pub open spec fn custom_view(f: Facts, ids: Set<Seq<char>>, field: Seq<char>) -> FieldModel {
    let text = winner_or(slice(imaged(ids, customs_said(f)), field), Seq::empty());
    FieldModel {
        field_id: field,
        label: winner_or(slice(slice(f.votes, P_CUSTOM_FIELD@), field), field),
        field_type: winner_or(slice(f.field_types, field), "text"@),
        value: value_given(f, ids, field, text),
    }
}

/// The preferences for a name of this person, by how strongly they are held.
pub open spec fn preferences(f: Facts, n: Identity, p: Seq<char>, names: Set<Seq<char>>) -> spec_fn(TieModel) -> Option<
    (int, Seq<char>),
> {
    |t: TieModel|
        if canon(f, n, t.1.0) == Some(p) && t.1.1.0 == P_NAME@ && names.contains(t.1.1.1) {
            Some((tie_score(f, t), t.1.1.1))
        } else {
            None
        }
}

/// The name that is preferred among a person's names.
pub open spec fn preferred_among(f: Facts, n: Identity, policy: Policy, p: Seq<char>, ns: Seq<ClaimModel>) -> Option<Seq<char>> {
    match least::<(Desc, String)>(
        imaged(strong(f, P_PREFERRED@, policy.preferred_threshold), preferences(f, n, p, refs(ns))),
    ) {
        Some((_, r)) => named(ns, r),
        None => None,
    }
}

/// The name claims among some, by id.
pub open spec fn name_claims(f: Facts, ids: Set<Seq<char>>) -> Seq<ClaimModel> {
    chosen(f, ids, |c: ClaimModel| c.predicate == P_NAME@).map_values(|id: Seq<char>| f.claims[id])
}

/// A person's names as they are shown.
pub open spec fn name_views(ns: Seq<ClaimModel>) -> Seq<NameModel> {
    Seq::new(
        ns.len(),
        |i: int| NameModel { claim_id: ns[i].id, parts: ns[i].value, equiv_class: class_of(ns, i) },
    )
}

/// The anchors of a person, but for the one that stands for them.
pub open spec fn other_anchors(f: Facts, n: Identity, p: Seq<char>) -> Set<Seq<char>> {
    passing(anchors_under(f, n, n.label[p]), |a: Seq<char>| a != p)
}

/// A person as they are shown.
pub open spec fn person(f: Facts, n: Identity, policy: Policy, p: Seq<char>) -> PersonModel {
    let ids = slice(placed(f, n), p);
    let ns = name_claims(f, ids);
    PersonModel {
        id: p,
        also: in_order::<String>(other_anchors(f, n, p)),
        names: name_views(ns),
        preferred_name: preferred_among(f, n, policy, p, ns),
        sex: winner::<String, Seq<char>>(imaged(ids, said(f, P_SEX@))),
        biography: winner::<String, Seq<char>>(imaged(ids, said(f, P_BIOGRAPHY@))),
        custom_fields: in_order::<String>(firsts(imaged(ids, customs_said(f)))).map_values(
            |field: Seq<char>| custom_view(f, ids, field),
        ),
        sources: citations(f, ids),
        media: chosen(f, ids, |c: ClaimModel| trait_of(c, P_MEDIA_LINK@) is Some).map_values(
            |id: Seq<char>| media_view(f.claims[id]),
        ),
        other: chosen(f, ids, |c: ClaimModel| !known(c.predicate)).map_values(|id: Seq<char>| generic_view(n, f.claims[id])),
    }
}

/// The people: the anchors that stand for their cluster.
pub open spec fn people_ids(f: Facts, n: Identity) -> Set<Seq<char>> {
    passing(f.persons, |a: Seq<char>| canon(f, n, a) == Some(a))
}

/// The people as they are shown, by id.
pub open spec fn people(f: Facts, n: Identity, policy: Policy) -> Seq<PersonModel> {
    in_order::<String>(people_ids(f, n)).map_values(|p: Seq<char>| person(f, n, policy, p))
}

/// The claims without a meaning of their own that are about no person, by target, predicate and id.
pub open spec fn strays(f: Facts, n: Identity) -> spec_fn(Seq<char>) -> Option<(Seq<char>, (Seq<char>, Seq<char>))> {
    |id: Seq<char>|
        if !known(f.claims[id].predicate) && belongs(f, n, f.claims[id]) is None {
            Some((subject(n, f.claims[id]), (f.claims[id].predicate, id)))
        } else {
            None
        }
}

/// The claims without a meaning of their own that are about no person, as they are shown.
pub open spec fn unclassified(f: Facts, n: Identity) -> Seq<GenericModel> {
    in_order::<Three>(imaged(f.claims.dom(), strays(f, n))).map_values(
        |x: (Seq<char>, (Seq<char>, Seq<char>))| generic_view(n, f.claims[x.1.1]),
    )
}

/// The claim with this id.
pub fn claim_at<'a>(c: &Collected<'a>, id: &String) -> (r: &'a Claim)
    requires
        c.wf(),
        c.facts().claims.contains_key(id@),
    ensures
        r@ == c.facts().claims[id@],
{
    assert(c.claims@.contains_key(id@));
    let i: usize = match c.claims.position(id) {
        Some(i) => i,
        None => 0,
    };
    proof {
        c.claims.facts();
    }
    c.claims.values[i]
}

/// The ids of all claims.
pub fn claim_ids(c: &Collected) -> (r: SortedSet<String>)
    requires
        c.wf(),
    ensures
        r.wf(),
        r@ == c.facts().claims.dom(),
{
    let r: SortedSet<String> = keys_of(&c.claims);
    assert(r@ =~= c.facts().claims.dom());
    r
}

/// Each person with each claim that is about them.
pub fn place_claims(c: &Collected, r: &Resolved) -> (s: SortedSet<Two>)
    requires
        c.wf(),
        r.wf(c.facts()),
    ensures
        s.wf(),
        s@ == placed(c.facts(), r.identity()),
{
    let ids: SortedSet<String> = claim_ids(c);
    let ghost give = |id: Seq<char>|
        match belongs(c.facts(), r.identity(), c.facts().claims[id]) {
            Some(p) => Some((p, id)),
            None => None,
        };
    let put = |id: &String| -> (l: Option<Two>)
        requires
            ids@.contains(id.model()),
        ensures
            opt_model(l) == give(id.model()),
    {
        let claim: &Claim = claim_at(c, id);
        let target: String = r.eff_target(claim, Ghost(c.facts()));
        match r.canon_of(&target, Ghost(c.facts())) {
            Some(p) => {
                let k: Two = (p, id.clone());
                assert(k.model() == (p@, id@));
                Some(k)
            },
            None => None,
        }
    };
    let s = filter_map(&ids, put, Ghost(give));
    proof {
        let want = placed(c.facts(), r.identity());
        assert forall|x: (Seq<char>, Seq<char>)| s@.contains(x) == want.contains(x) by {
            if s@.contains(x) {
                let id = choose|id: Seq<char>| #[trigger] ids@.contains(id) && give(id) == Some(x);
                assert(id == x.1);
            }
            if want.contains(x) {
                assert(ids@.contains(x.1) && give(x.1) == Some(x));
            }
        }
        assert(s@ =~= want);
    }
    s
}

/// Every id is a claim's.
pub open spec fn all_claims(f: Facts, ids: Set<Seq<char>>) -> bool {
    forall|id: Seq<char>| #[trigger] ids.contains(id) ==> f.claims.contains_key(id)
}

/// The name claims among some, by id.
pub fn names_among<'a>(c: &Collected<'a>, ids: &SortedSet<String>) -> (r: Vec<&'a Claim>)
    requires
        c.wf(),
        ids.wf(),
        all_claims(c.facts(), ids@),
    ensures
        claims_seen(r@) == name_claims(c.facts(), ids@),
{
    let ghost f = c.facts();
    let ghost test = |id: Seq<char>| c.facts().claims[id].predicate == P_NAME@;
    let is_name = |id: &String| -> (b: bool)
        requires
            ids@.contains(id.model()),
        ensures
            b == test(id.model()),
    {
        text_equal(claim_at(c, id).predicate.as_str(), P_NAME)
    };
    let names: SortedSet<String> = filter(ids, is_name, Ghost(test));
    let fetch = |id: &String| -> (r: &'a Claim)
        requires
            c.facts().claims.contains_key(id.model()),
        ensures
            r@ == c.facts().claims[id.model()],
    {
        claim_at(c, id)
    };
    let r: Vec<&'a Claim> = list_of(&names, fetch);
    proof {
        let order = chosen(f, ids@, |x: ClaimModel| x.predicate == P_NAME@);
        assert(passing(ids@, test) =~= passing(ids@, |id: Seq<char>| f.claims[id].predicate == P_NAME@));
        assert(names@ =~= passing(ids@, |id: Seq<char>| (|x: ClaimModel| x.predicate == P_NAME@)(f.claims[id])));
        assert(order == in_order::<String>(names@));
        assert(claims_seen(r@) =~= name_claims(f, ids@)) by {
            assert forall|i: int| 0 <= i < r@.len() implies claims_seen(r@)[i] == name_claims(f, ids@)[i] by {
                assert(made(fetch, in_order::<String>(names@)[i], r@[i]));
            }
        }
    }
    r
}

/// A person's names, each with its class.
pub fn names_map(names: &Vec<&Claim>) -> (r: Vec<NameView>)
    ensures
        all_views(r@) == name_views(claims_seen(names@)),
{
    let ghost ns = claims_seen(names@);
    let classes: Vec<String> = equiv_classes(names);
    let mut out: Vec<NameView> = Vec::new();
    let mut i: usize = 0;
    while i < names.len()
        invariant
            i <= names.len(),
            ns == claims_seen(names@),
            classes@.len() == names@.len(),
            forall|j: int| 0 <= j < classes@.len() ==> (#[trigger] classes@[j])@ == class_of(ns, j),
            out@.len() == i,
            forall|j: int| 0 <= j < i ==> (#[trigger] out@[j])@ == name_views(ns)[j],
        decreases names.len() - i,
    {
        let n: &Claim = names[i];
        assert(ns[i as int] == n@);
        out.push(
            NameView { claim_id: n.id.clone(), parts: n.value.duplicate(), equiv_class: classes[i].clone() },
        );
        i = i + 1;
    }
    assert(all_views(out@) =~= name_views(ns));
    out
}

/// What most people say of a person in this slot.
pub fn most_said(c: &Collected, ids: &SortedSet<String>, predicate: &str) -> (r: Option<String>)
    requires
        c.wf(),
        ids.wf(),
        all_claims(c.facts(), ids@),
    ensures
        opt_text(r) == winner::<String, Seq<char>>(imaged(ids@, said(c.facts(), predicate@))),
{
    let ghost give = said(c.facts(), predicate@);
    let say = |id: &String| -> (l: Option<Two>)
        requires
            ids@.contains(id.model()),
        ensures
            opt_model(l) == give(id.model()),
    {
        let claim: &Claim = claim_at(c, id);
        match parse_trait(claim, predicate) {
            Some(v) => {
                let k: Two = (v, claim.created_by.clone());
                assert(k.model() == (v@, claim@.created_by));
                Some(k)
            },
            None => None,
        }
    };
    let votes: SortedSet<Two> = filter_map(ids, say, Ghost(give));
    let r: Option<String> = most_paired(&votes);
    assert(opt_text(r) == opt_model(r));
    r
}

/// The value that wins, or another where there is none.
fn most_paired_or(votes: &SortedSet<Two>, other: &str) -> (r: String)
    requires
        votes.wf(),
    ensures
        r@ == winner_or(votes@, other@),
{
    match most_paired(votes) {
        Some(v) => v,
        None => other.to_owned(),
    }
}

fn value_among(c: &Collected, ids: &SortedSet<String>, field: &String, text: &String) -> (r: Value)
    requires
        c.wf(),
        ids.wf(),
        all_claims(c.facts(), ids@),
    ensures
        r@ == value_given(c.facts(), ids@, field@, text@),
{
    let ghost test = |id: Seq<char>| gives_value(c.facts().claims[id], field@, text@);
    let gives = |id: &String| -> (b: bool)
        requires
            ids@.contains(id.model()),
        ensures
            b == test(id.model()),
    {
        match parse_custom_value(claim_at(c, id)) {
            Some((fid, v)) => text_equal(fid.as_str(), field.as_str()) && text_equal(v.to_text().as_str(), text.as_str()),
            None => false,
        }
    };
    let givers: SortedSet<String> = filter(ids, gives, Ghost(test));
    assert(givers@ =~= passing(ids@, |id: Seq<char>| gives_value(c.facts().claims[id], field@, text@)));
    match givers.first() {
        Some(id) => {
            proof {
                givers.facts();
                givers.ordered();
                assert(givers@.contains(id@)) by {
                    crate::sorted::least_exists::<String>(givers@);
                }
            }
            match parse_custom_value(claim_at(c, id)) {
                Some((_, v)) => v.duplicate(),
                None => Value::Null,
            }
        },
        None => Value::Null,
    }
}

/// A person's custom fields.
pub fn customs_map(c: &Collected, ids: &SortedSet<String>) -> (r: Vec<CustomField>)
    requires
        c.wf(),
        ids.wf(),
        all_claims(c.facts(), ids@),
    ensures
        all_views(r@) == in_order::<String>(firsts(imaged(ids@, customs_said(c.facts())))).map_values(
            |field: Seq<char>| custom_view(c.facts(), ids@, field),
        ),
{
    let ghost f = c.facts();
    let ghost give = customs_said(c.facts());
    let say = |id: &String| -> (l: Option<Three>)
        requires
            ids@.contains(id.model()),
        ensures
            opt_model(l) == give(id.model()),
    {
        let claim: &Claim = claim_at(c, id);
        match parse_custom_value(claim) {
            Some((fid, v)) => {
                let k: Three = (fid, (v.to_text(), claim.created_by.clone()));
                assert(k.model() == (fid@, (v@.compact(), claim@.created_by)));
                Some(k)
            },
            None => None,
        }
    };
    let votes: SortedSet<Three> = filter_map(ids, say, Ghost(give));
    let fields: SortedSet<String> = firsts_of(&votes);
    let slot: String = P_CUSTOM_FIELD.to_owned();
    let labels: SortedSet<Three> = slice_of(&c.votes, &slot);
    let show = |field: &String| -> (r: CustomField)
        ensures
            r@ == custom_view(c.facts(), ids@, field.model()),
    {
        let text: String = most_paired_or(&slice_of(&votes, field), "");
        assert(""@ =~= Seq::<char>::empty()) by {
            reveal_strlit("");
        }
        CustomField {
            field_id: field.clone(),
            label: most_paired_or(&slice_of(&labels, field), field.as_str()),
            field_type: most_paired_or(&slice_of(&c.field_types, field), "text"),
            value: value_among(c, ids, field, &text),
        }
    };
    let r: Vec<CustomField> = list_of(&fields, show);
    proof {
        let want = in_order::<String>(fields@).map_values(|field: Seq<char>| custom_view(f, ids@, field));
        assert forall|i: int| 0 <= i < r@.len() implies all_views(r@)[i] == want[i] by {
            assert(made(show, in_order::<String>(fields@)[i], r@[i]));
        }
        assert(all_views(r@) =~= want);
    }
    r
}

fn source_text(c: &Collected, id: &String, key: &str) -> (r: Option<String>)
    requires
        c.wf(),
    ensures
        opt_text(r) == source_field(c.facts(), id@, key@),
{
    if c.claims.contains_key(id) {
        let claim: &Claim = claim_at(c, id);
        if text_equal(claim.predicate.as_str(), P_SOURCE) {
            claim.value.text_at(key)
        } else {
            None
        }
    } else {
        None
    }
}

fn show_citation(c: &Collected, claim: &Claim, cit: &Value) -> (r: Citation)
    requires
        c.wf(),
    ensures
        r@ == citation_view(c.facts(), claim@, cit@),
{
    let id: String = match cit.text_at("sourceId") {
        Some(s) => s,
        None => {
            let e: String = String::new();
            assert(e@ =~= Seq::<char>::empty());
            e
        },
    };
    let locator: Option<Value> = match cit.get("locator") {
        Some(v) => Some(v.duplicate()),
        None => None,
    };
    let title: Option<String> = source_text(c, &id, "title");
    let repository: Option<String> = source_text(c, &id, "repository");
    let uri: Option<String> = source_text(c, &id, "uri");
    let quality: Option<String> = source_text(c, &id, "quality");
    Citation {
        claim_id: claim.id.clone(),
        predicate: claim.predicate.clone(),
        locator,
        extract: cit.text_at("extract"),
        source: SourceRef { source_id: id, title, repository, uri, quality },
    }
}

/// The citations of a person's claims.
pub fn sources_map(c: &Collected, ids: &SortedSet<String>) -> (r: Vec<Citation>)
    requires
        c.wf(),
        ids.wf(),
        all_claims(c.facts(), ids@),
    ensures
        all_views(r@) == citations(c.facts(), ids@),
{
    let ghost f = c.facts();
    let ghost give = cited(c.facts());
    let cite = |id: &String| -> (l: Option<Two>)
        requires
            ids@.contains(id.model()),
        ensures
            opt_model(l) == give(id.model()),
    {
        match &claim_at(c, id).citation {
            Some(cit) => {
                let sid: String = match cit.text_at("sourceId") {
                    Some(s) => s,
                    None => {
                        let e: String = String::new();
                        assert(e@ =~= Seq::<char>::empty());
                        e
                    },
                };
                let k: Two = (sid, id.clone());
                assert(k.model() == (source_id_of(cit@), id@));
                Some(k)
            },
            None => None,
        }
    };
    let keys: SortedSet<Two> = filter_map(ids, cite, Ghost(give));
    proof {
        assert forall|x: (Seq<char>, Seq<char>)| #[trigger] keys@.contains(x) implies f.claims.contains_key(x.1)
            && f.claims[x.1].citation is Some by {
            let id = choose|id: Seq<char>| #[trigger] ids@.contains(id) && give(id) == Some(x);
        }
    }
    let show = |x: &Two| -> (r: Citation)
        requires
            c.facts().claims.contains_key(x.model().1),
            c.facts().claims[x.model().1].citation is Some,
        ensures
            r@ == citation_view(
                c.facts(),
                c.facts().claims[x.model().1],
                c.facts().claims[x.model().1].citation->0,
            ),
    {
        let claim: &Claim = claim_at(c, &x.1);
        match &claim.citation {
            Some(cit) => show_citation(c, claim, cit),
            None => show_citation(c, claim, &Value::Null),
        }
    };
    let r: Vec<Citation> = list_of(&keys, show);
    proof {
        let want = citations(f, ids@);
        assert forall|i: int| 0 <= i < r@.len() implies all_views(r@)[i] == want[i] by {
            assert(made(show, in_order::<Two>(keys@)[i], r@[i]));
        }
        assert(all_views(r@) =~= want);
    }
    r
}

fn members_without(v: &Value, key: &str) -> (r: Vec<(String, Value)>)
    ensures
        json_members(r@) == without(v@, key@),
{
    let mut out: Vec<(String, Value)> = Vec::new();
    match v {
        Value::Object(s) => {
            let ghost all = json_members(s@);
            let ghost keep = |m: (Seq<char>, Json)| m.0 != key@;
            let mut i: usize = 0;
            proof {
                reveal(Seq::filter);
                assert(json_members(out@) =~= all.take(0).filter(keep));
            }
            while i < s.len()
                invariant
                    i <= s.len(),
                    all == json_members(s@),
                    keep == (|m: (Seq<char>, Json)| m.0 != key@),
                    json_members(out@) == all.take(i as int).filter(keep),
                decreases s.len() - i,
            {
                let ghost x = (s@[i as int].0@, s@[i as int].1@);
                let ghost before = json_members(out@);
                proof {
                    assert(all[i as int] == x);
                    assert(all.take(i + 1) =~= all.take(i as int).push(x));
                    all.take(i as int).lemma_filter_push(x, keep);
                }
                if !text_equal(s[i].0.as_str(), key) {
                    out.push((s[i].0.clone(), s[i].1.duplicate()));
                    assert(json_members(out@) =~= before.push(x));
                }
                i = i + 1;
            }
            assert(all.take(i as int) =~= all);
        },
        _ => {
            assert(json_members(out@) =~= Seq::<(Seq<char>, Json)>::empty());
        },
    }
    out
}

/// A person's media links.
pub fn media_map(c: &Collected, ids: &SortedSet<String>) -> (r: Vec<MediaLink>)
    requires
        c.wf(),
        ids.wf(),
        all_claims(c.facts(), ids@),
    ensures
        all_views(r@) == chosen(c.facts(), ids@, |x: ClaimModel| trait_of(x, P_MEDIA_LINK@) is Some).map_values(
            |id: Seq<char>| media_view(c.facts().claims[id]),
        ),
{
    let ghost f = c.facts();
    let ghost test = |id: Seq<char>| trait_of(c.facts().claims[id], P_MEDIA_LINK@) is Some;
    let links = |id: &String| -> (b: bool)
        requires
            ids@.contains(id.model()),
        ensures
            b == test(id.model()),
    {
        parse_trait(claim_at(c, id), P_MEDIA_LINK).is_some()
    };
    let found: SortedSet<String> = filter(ids, links, Ghost(test));
    let show = |id: &String| -> (r: MediaLink)
        requires
            c.facts().claims.contains_key(id.model()),
        ensures
            r@ == media_view(c.facts().claims[id.model()]),
    {
        let claim: &Claim = claim_at(c, id);
        let media_hash: String = match parse_trait(claim, P_MEDIA_LINK) {
            Some(h) => h,
            None => {
                let e: String = String::new();
                assert(e@ =~= Seq::<char>::empty());
                e
            },
        };
        MediaLink { claim_id: claim.id.clone(), media_hash, value: members_without(&claim.value, "mediaHash") }
    };
    let r: Vec<MediaLink> = list_of(&found, show);
    proof {
        let order = chosen(f, ids@, |x: ClaimModel| trait_of(x, P_MEDIA_LINK@) is Some);
        let g = |id: Seq<char>| (|x: ClaimModel| trait_of(x, P_MEDIA_LINK@) is Some)(f.claims[id]);
        assert(found@ =~= passing(ids@, g));
        assert(order == in_order::<String>(found@));
        let want = order.map_values(|id: Seq<char>| media_view(f.claims[id]));
        assert forall|i: int| 0 <= i < r@.len() implies all_views(r@)[i] == want[i] by {
            assert(made(show, in_order::<String>(found@)[i], r@[i]));
        }
        assert(all_views(r@) =~= want);
    }
    r
}

fn show_generic(r: &Resolved, claim: &Claim, Ghost(f): Ghost<Facts>) -> (v: GenericClaimView)
    requires
        r.wf(f),
    ensures
        v@ == generic_view(r.identity(), claim@),
{
    GenericClaimView {
        claim_id: claim.id.clone(),
        target_id: r.eff_target(claim, Ghost(f)),
        predicate: claim.predicate.clone(),
        value: claim.value.duplicate(),
        created_by: claim.created_by.clone(),
    }
}

/// A person's claims that have no meaning of their own here.
pub fn other_map(c: &Collected, r: &Resolved, ids: &SortedSet<String>) -> (v: Vec<GenericClaimView>)
    requires
        c.wf(),
        r.wf(c.facts()),
        ids.wf(),
        all_claims(c.facts(), ids@),
    ensures
        all_views(v@) == chosen(c.facts(), ids@, |x: ClaimModel| !known(x.predicate)).map_values(
            |id: Seq<char>| generic_view(r.identity(), c.facts().claims[id]),
        ),
{
    let ghost f = c.facts();
    let ghost n = r.identity();
    let ghost test = |id: Seq<char>| !known(c.facts().claims[id].predicate);
    let strange = |id: &String| -> (b: bool)
        requires
            ids@.contains(id.model()),
        ensures
            b == test(id.model()),
    {
        !is_known(&claim_at(c, id).predicate)
    };
    let found: SortedSet<String> = filter(ids, strange, Ghost(test));
    let show = |id: &String| -> (v: GenericClaimView)
        requires
            c.facts().claims.contains_key(id.model()),
        ensures
            v@ == generic_view(r.identity(), c.facts().claims[id.model()]),
    {
        show_generic(r, claim_at(c, id), Ghost(c.facts()))
    };
    let v: Vec<GenericClaimView> = list_of(&found, show);
    proof {
        let order = chosen(f, ids@, |x: ClaimModel| !known(x.predicate));
        let g = |id: Seq<char>| (|x: ClaimModel| !known(x.predicate))(f.claims[id]);
        assert(found@ =~= passing(ids@, g));
        assert(order == in_order::<String>(found@));
        let want = order.map_values(|id: Seq<char>| generic_view(n, f.claims[id]));
        assert forall|i: int| 0 <= i < v@.len() implies all_views(v@)[i] == want[i] by {
            assert(made(show, in_order::<String>(found@)[i], v@[i]));
        }
        assert(all_views(v@) =~= want);
    }
    v
}

/// The claims without a meaning of their own that are about no person.
pub fn stray_claims(c: &Collected, r: &Resolved) -> (v: Vec<GenericClaimView>)
    requires
        c.wf(),
        r.wf(c.facts()),
    ensures
        all_views(v@) == unclassified(c.facts(), r.identity()),
{
    let ghost f = c.facts();
    let ghost n = r.identity();
    let ids: SortedSet<String> = claim_ids(c);
    let ghost give = strays(c.facts(), r.identity());
    let stray = |id: &String| -> (l: Option<Three>)
        requires
            ids@.contains(id.model()),
        ensures
            opt_model(l) == give(id.model()),
    {
        let claim: &Claim = claim_at(c, id);
        if is_known(&claim.predicate) {
            None
        } else {
            let target: String = r.eff_target(claim, Ghost(c.facts()));
            match r.canon_of(&target, Ghost(c.facts())) {
                Some(_) => None,
                None => {
                    let k: Three = (target, (claim.predicate.clone(), id.clone()));
                    assert(k.model() == (target@, (claim@.predicate, id@)));
                    Some(k)
                },
            }
        }
    };
    let found: SortedSet<Three> = filter_map(&ids, stray, Ghost(give));
    proof {
        assert forall|x: (Seq<char>, (Seq<char>, Seq<char>))| #[trigger] found@.contains(x) implies f.claims.contains_key(
            x.1.1,
        ) by {
            let id = choose|id: Seq<char>| #[trigger] ids@.contains(id) && give(id) == Some(x);
        }
    }
    let show = |x: &Three| -> (v: GenericClaimView)
        requires
            c.facts().claims.contains_key(x.model().1.1),
        ensures
            v@ == generic_view(r.identity(), c.facts().claims[x.model().1.1]),
    {
        show_generic(r, claim_at(c, &x.1.1), Ghost(c.facts()))
    };
    let v: Vec<GenericClaimView> = list_of(&found, show);
    proof {
        let want = unclassified(f, n);
        assert forall|i: int| 0 <= i < v@.len() implies all_views(v@)[i] == want[i] by {
            assert(made(show, in_order::<Three>(found@)[i], v@[i]));
        }
        assert(all_views(v@) =~= want);
    }
    v
}

/// The name that is preferred among a person's names.
pub fn preferred_names_map(c: &Collected, r: &Resolved, ties: &SortedSet<Tie>, p: &String, names: &Vec<&Claim>) -> (v: Option<
    String,
>)
    requires
        c.wf(),
        r.wf(c.facts()),
        ties.wf(),
    ensures
        opt_text(v) == (match least::<(Desc, String)>(
            imaged(ties@, preferences(c.facts(), r.identity(), p@, refs(claims_seen(names@)))),
        ) {
            Some((_, x)) => named(claims_seen(names@), x),
            None => None,
        }),
{
    let own: SortedSet<String> = refs_of(names);
    let ghost give = preferences(c.facts(), r.identity(), p@, refs(claims_seen(names@)));
    let prefer = |t: &Tie| -> (l: Option<(Desc, String)>)
        ensures
            opt_model(l) == give(t.model()),
    {
        match r.canon_of(&t.1.0, Ghost(c.facts())) {
            Some(who) => {
                if text_equal(who.as_str(), p.as_str()) && text_equal(t.1.1.0.as_str(), P_NAME) && own.contains(&t.1.1.1) {
                    let k: (Desc, String) = (Desc(score(c, t)), t.1.1.1.clone());
                    assert(k.model() == (tie_score(c.facts(), t.model()), t.1.1.1@));
                    Some(k)
                } else {
                    None
                }
            },
            None => None,
        }
    };
    let found: SortedSet<(Desc, String)> = filter_map(ties, prefer, Ghost(give));
    match found.first() {
        Some(x) => name_with_ref(names, &x.1),
        None => None,
    }
}

/// The other anchors of a person.
fn others(c: &Collected, r: &Resolved, p: &String) -> (v: Vec<String>)
    requires
        c.wf(),
        r.wf(c.facts()),
        r.identity().label.contains_key(p@),
    ensures
        all_views(v@) == in_order::<String>(other_anchors(c.facts(), r.identity(), p@)),
{
    let ghost f = c.facts();
    let ghost n = r.identity();
    let label: String = match r.rep.get(p) {
        Some(l) => l.clone(),
        None => p.clone(),
    };
    assert(label@ == n.label[p@]);
    let ghost test = |a: Seq<char>| under(r.identity(), a, label@) && a != p@;
    let fits = |a: &String| -> (b: bool)
        ensures
            b == test(a.model()),
    {
        match r.rep.get(a) {
            Some(l) => {
                assert(r.identity().label.contains_key(a@) && r.identity().label[a@] == l@);
                text_equal(l.as_str(), label.as_str()) && !text_equal(a.as_str(), p.as_str())
            },
            None => {
                assert(!r.identity().label.contains_key(a@));
                false
            },
        }
    };
    let found: SortedSet<String> = filter(&c.anchors, fits, Ghost(test));
    proof {
        assert(found@ =~= other_anchors(f, n, p@));
        found.ordered();
        assert(all_views(found.items@) =~= models(found.items@));
    }
    found.items
}

fn assemble_person(c: &Collected, r: &Resolved, policy: &Policy, ties: &SortedSet<Tie>, place: &SortedSet<Two>, p: &String) -> (v:
    Person)
    requires
        c.wf(),
        r.wf(c.facts()),
        ties.wf(),
        ties@ == strong(c.facts(), P_PREFERRED@, policy.preferred_threshold),
        place.wf(),
        place@ == placed(c.facts(), r.identity()),
        r.identity().label.contains_key(p@),
    ensures
        v@ == person(c.facts(), r.identity(), *policy, p@),
{
    let ghost f = c.facts();
    let ghost n = r.identity();
    let ids: SortedSet<String> = slice_of(place, p);
    assert(all_claims(f, ids@));
    let names: Vec<&Claim> = names_among(c, &ids);
    let v = Person {
        id: p.clone(),
        also: others(c, r, p),
        names: names_map(&names),
        preferred_name: preferred_names_map(c, r, ties, p, &names),
        sex: most_said(c, &ids, P_SEX),
        biography: most_said(c, &ids, P_BIOGRAPHY),
        custom_fields: customs_map(c, &ids),
        sources: sources_map(c, &ids),
        media: media_map(c, &ids),
        other: other_map(c, r, &ids),
    };
    assert(v@ =~= person(f, n, *policy, p@));
    v
}

/// The people, by id.
pub fn assemble_people(c: &Collected, r: &Resolved, policy: &Policy) -> (v: Vec<Person>)
    requires
        c.wf(),
        r.wf(c.facts()),
    ensures
        all_views(v@) == people(c.facts(), r.identity(), *policy),
{
    let ghost f = c.facts();
    let ghost n = r.identity();
    let ties: SortedSet<Tie> = strong_ties(c, P_PREFERRED, policy.preferred_threshold);
    let place: SortedSet<Two> = place_claims(c, r);
    let ghost test = |a: Seq<char>| canon(c.facts(), r.identity(), a) == Some(a);
    let stands = |a: &String| -> (b: bool)
        ensures
            b == test(a.model()),
    {
        match r.canon_of(a, Ghost(c.facts())) {
            Some(x) => text_equal(x.as_str(), a.as_str()),
            None => false,
        }
    };
    let ids: SortedSet<String> = filter(&c.anchors, stands, Ghost(test));
    assert(ids@ =~= people_ids(f, n));
    let show = |p: &String| -> (v: Person)
        requires
            r.identity().label.contains_key(p.model()),
        ensures
            v@ == person(c.facts(), r.identity(), *policy, p.model()),
    {
        assemble_person(c, r, policy, &ties, &place, p)
    };
    let v: Vec<Person> = list_of(&ids, show);
    proof {
        let want = people(f, n, *policy);
        assert forall|i: int| 0 <= i < v@.len() implies all_views(v@)[i] == want[i] by {
            assert(made(show, in_order::<String>(ids@)[i], v@[i]));
        }
        assert(all_views(v@) =~= want);
    }
    v
}

} // verus!
