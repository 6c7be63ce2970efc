//! The read model, on trees of a few records.

use openom::clock::Hlc;
use openom::projection::events::{Calendar, YearBounds};
use openom::projection::record::{
    fingerprint_subject, name_intrinsic, sorted_pair, Anchor, Claim, Record, P_ATTEST, P_BIOGRAPHY, P_CUSTOM_FIELD,
    P_CUSTOM_VALUE, P_DATE, P_DIFFERENT_FROM, P_EVENT_PLACE, P_EVENT_TYPE, P_MEDIA_LINK, P_NAME, P_PARENT, P_PARTICIPANT,
    P_PARTNERSHIP, P_PLACE_NAME, P_PLACE_POINT, P_PREFERRED, P_REATTRIBUTE, P_SAME_AS, P_SEX, P_SOURCE, TYPE_EVENT,
    TYPE_PERSON,
};
use openom::projection::resolve::Policy;
use openom::projection::value::Value;
use openom::projection::views::{Conflict, CustomField, ParentChild, Participant, Partnership, Projection, Union};
use openom::projection::project::date_texts;
use openom::sorted::SortedMap;

fn from_json(v: &serde_json::Value) -> Value {
    match v {
        serde_json::Value::Null => Value::Null,
        serde_json::Value::Bool(b) => Value::Bool(*b),
        serde_json::Value::Number(n) => Value::Number(n.to_string()),
        serde_json::Value::String(s) => Value::Text(s.clone()),
        serde_json::Value::Array(a) => Value::Array(a.iter().map(from_json).collect()),
        serde_json::Value::Object(o) => Value::Object(o.iter().map(|(k, v)| (k.clone(), from_json(v))).collect()),
    }
}

fn json(text: &str) -> Value {
    from_json(&serde_json::from_str(text).unwrap())
}

fn text(s: &str) -> Value {
    Value::Text(s.to_string())
}

fn obj(members: Vec<(&str, Value)>) -> Value {
    Value::Object(members.into_iter().map(|(k, v)| (k.to_string(), v)).collect())
}

fn calendar() -> Calendar {
    let mut c: Calendar = SortedMap::new();
    let years = [
        ("1845", Some(1845), Some(1845)),
        ("1842~", Some(1842), Some(1842)),
        ("1824/1878", Some(1824), Some(1878)),
        ("1946/..", Some(1946), None),
        ("1600/1700", Some(1600), Some(1700)),
        ("1900/..", Some(1900), None),
    ];
    for (text, min, max) in years {
        c.insert(text.to_string(), YearBounds { min, max });
    }
    c
}

fn project(records: &Vec<Record>, policy: &Policy) -> Projection {
    openom::projection::project::project(records, policy, &calendar())
}

fn anchor(id: &str, type_uri: &str) -> Record {
    Record::Anchor(Anchor {
        id: id.to_string(),
        type_uri: type_uri.to_string(),
        created_by: "did:key:z6MkA".to_string(),
        created_at: Hlc { millis: 1, logical: 0 },
    })
}
fn person(id: &str) -> Record {
    anchor(id, TYPE_PERSON)
}
fn content_ref(v: &Value) -> String {
    format!("ref:{}", v.to_text())
}
fn claim(id: &str, pred: &str, target: &str, value: Value, author: &str) -> Record {
    let mut c = Claim {
        id: id.to_string(),
        predicate: pred.to_string(),
        target_id: target.to_string(),
        value,
        created_by: author.to_string(),
        created_at: Hlc { millis: 1, logical: 0 },
        citation: None,
        fingerprint: None,
        name_ref: None,
        rest: Value::Null,
    };
    c.fingerprint = Some(format!("print:{}", fingerprint_subject(&c).to_text()));
    if pred == P_NAME {
        c.name_ref = Some(content_ref(&name_intrinsic(&c.value)));
    }
    Record::Claim(c)
}
fn pair(a: &str, b: &str) -> (String, Value) {
    let (x, y) = sorted_pair(a, b);
    let v = Value::Array(vec![text(&x), text(&y)]);
    (x, v)
}
fn same_as(id: &str, a: &str, b: &str, author: &str) -> Record {
    let (x, p) = pair(a, b);
    claim(id, P_SAME_AS, &x, obj(vec![("pair", p)]), author)
}
fn different_from(id: &str, a: &str, b: &str, author: &str) -> Record {
    let (x, p) = pair(a, b);
    claim(id, P_DIFFERENT_FROM, &x, obj(vec![("pair", p)]), author)
}
fn given(g: &str) -> Value {
    obj(vec![("parts", obj(vec![("given", text(g))]))])
}
fn name(id: &str, target: &str, g: &str) -> Record {
    claim(id, P_NAME, target, given(g), "did:key:z6MkA")
}
fn sex(id: &str, target: &str, s: &str, author: &str) -> Record {
    claim(id, P_SEX, target, obj(vec![("sex", text(s))]), author)
}
fn biography(id: &str, target: &str, t: &str, author: &str) -> Record {
    claim(id, P_BIOGRAPHY, target, obj(vec![("format", text("plain")), ("text", text(t))]), author)
}
fn custom_field(id: &str, tree: &str, field_id: &str, label: &str, ty: &str, author: &str) -> Record {
    claim(
        id,
        P_CUSTOM_FIELD,
        tree,
        obj(vec![("fieldId", text(field_id)), ("label", text(label)), ("type", text(ty))]),
        author,
    )
}
fn custom_value(id: &str, person: &str, field_id: &str, value: Value, author: &str) -> Record {
    claim(id, P_CUSTOM_VALUE, person, obj(vec![("fieldId", text(field_id)), ("value", value)]), author)
}
fn source(id: &str, title: &str, repository: &str, author: &str) -> Record {
    claim(
        id,
        P_SOURCE,
        id,
        obj(vec![("quality", text("original")), ("repository", text(repository)), ("title", text(title))]),
        author,
    )
}
fn with_citation(c: Record, source_id: &str, locator: Value, extract: &str) -> Record {
    match c {
        Record::Claim(mut claim) => {
            claim.citation =
                Some(obj(vec![("extract", text(extract)), ("locator", locator), ("sourceId", text(source_id))]));
            Record::Claim(claim)
        }
        _ => panic!("with_citation expects a claim"),
    }
}
fn attest(id: &str, target: &str, verdict: &str, author: &str) -> Record {
    claim(id, P_ATTEST, target, obj(vec![("verdict", text(verdict))]), author)
}
fn reattribute(id: &str, claim_target: &str, person: &str, author: &str) -> Record {
    claim(id, P_REATTRIBUTE, claim_target, obj(vec![("personId", text(person))]), author)
}
fn preferred(id: &str, person: &str, for_pred: &str, claim_ref: &str, author: &str) -> Record {
    claim(id, P_PREFERRED, person, obj(vec![("contentRef", text(claim_ref)), ("for", text(for_pred))]), author)
}
fn given_ref(g: &str) -> String {
    content_ref(&given(g))
}
fn parent(id: &str, child: &str, parent_person: &str, kind: &str, author: &str) -> Record {
    claim(id, P_PARENT, child, obj(vec![("kind", text(kind)), ("parentPersonId", text(parent_person))]), author)
}
fn partnership(id: &str, a: &str, b: &str, role: &str, author: &str) -> Record {
    let (x, p) = pair(a, b);
    claim(id, P_PARTNERSHIP, &x, obj(vec![("pair", p), ("role", text(role))]), author)
}
fn event(id: &str) -> Record {
    anchor(id, TYPE_EVENT)
}
fn event_type(id: &str, evt: &str, ty: &str, author: &str) -> Record {
    claim(id, P_EVENT_TYPE, evt, obj(vec![("type", text(ty))]), author)
}
fn date(id: &str, evt: &str, edtf: &str, author: &str) -> Record {
    claim(id, P_DATE, evt, obj(vec![("edtf", text(edtf))]), author)
}
fn participant(id: &str, evt: &str, person: &str, role: &str, author: &str) -> Record {
    claim(id, P_PARTICIPANT, evt, obj(vec![("personId", text(person)), ("role", text(role))]), author)
}
fn place(id: &str) -> Record {
    anchor(id, "openom.org/core/place/v1")
}
fn event_place(id: &str, evt: &str, place_id: &str, author: &str) -> Record {
    claim(id, P_EVENT_PLACE, evt, obj(vec![("placeId", text(place_id))]), author)
}
fn place_name(id: &str, place_id: &str, name: &str, valid_range: &str, author: &str) -> Record {
    claim(id, P_PLACE_NAME, place_id, obj(vec![("name", text(name)), ("validRange", text(valid_range))]), author)
}
fn place_point(id: &str, place_id: &str, lat: f64, lon: f64, author: &str) -> Record {
    let v = json(&format!("{{\"latitude\": {lat}, \"longitude\": {lon}}}"));
    claim(id, P_PLACE_POINT, place_id, v, author)
}
fn media_link(id: &str, target: &str, media_hash: &str, author: &str) -> Record {
    claim(id, P_MEDIA_LINK, target, obj(vec![("mediaHash", text(media_hash))]), author)
}

#[test]
fn merges_two_anchors_by_same_as() {
    let recs = vec![
        person("pB"),
        person("pA"),
        name("n1", "pA", "Ada"),
        name("n2", "pB", "Augusta"),
        same_as("s1", "pA", "pB", "did:key:z6MkA"),
    ];
    let p = project(&recs, &Policy::default());
    assert_eq!(p.people.len(), 1);
    assert_eq!(p.people[0].id, "pA"); // canonical = min anchor id
    assert_eq!(p.people[0].also, vec!["pB".to_string()]);
    assert_eq!(p.people[0].names.len(), 2); // both names retargeted to the one person
    assert!(p.conflicts.is_empty());
}

#[test]
fn different_from_cuts_the_merge() {
    let recs = vec![
        person("pA"),
        person("pB"),
        same_as("s1", "pA", "pB", "did:key:z6MkA"),
        different_from("d1", "pA", "pB", "did:key:z6MkB"),
    ];
    let p = project(&recs, &Policy::default());
    assert_eq!(p.people.len(), 2);
    assert_eq!(
        p.conflicts,
        vec![Conflict {
            cut_pair: ("pA".into(), "pB".into())
        }]
    );
}

#[test]
fn different_from_cuts_transitively() {
    let recs = vec![
        person("pA"),
        person("pB"),
        person("pC"),
        same_as("s1", "pA", "pB", "did:key:z6MkA"),
        same_as("s2", "pB", "pC", "did:key:z6MkA"),
        different_from("d1", "pA", "pC", "did:key:z6MkB"),
    ];
    let p = project(&recs, &Policy::default());
    // A+B merge; the B-C edge is skipped because it would place A and C together.
    let ids: Vec<_> = p.people.iter().map(|x| x.id.clone()).collect();
    assert_eq!(ids, vec!["pA".to_string(), "pC".to_string()]);
    assert_eq!(p.people[0].also, vec!["pB".to_string()]);
}

#[test]
fn a_cut_blocks_only_its_exact_pair_not_a_single_matching_endpoint() {
    // different_from(pA,pB) must NOT block merging pB with an unrelated pC: only placing pA and pB in
    // one cluster is forbidden. The cut check has to require BOTH endpoints to land in the two clusters
    // being merged — a single matching endpoint (here pB) is not a violation.
    let recs = vec![
        person("pA"),
        person("pB"),
        person("pC"),
        different_from("d1", "pA", "pB", "did:key:z6MkB"),
        same_as("s1", "pB", "pC", "did:key:z6MkA"),
    ];
    let p = project(&recs, &Policy::default());
    let ids: Vec<_> = p.people.iter().map(|x| x.id.clone()).collect();
    assert_eq!(ids, vec!["pA".to_string(), "pB".to_string()]); // pB+pC merged, pA separate
    assert_eq!(p.people[1].also, vec!["pC".to_string()]);
    assert!(p.conflicts.is_empty(), "the pA-pB constraint does not cut the pB-pC merge");
}

#[test]
fn sex_resolves_by_author_majority() {
    let recs = vec![
        person("pA"),
        sex("x1", "pA", "female", "did:key:z6MkA"),
        sex("x2", "pA", "male", "did:key:z6MkB"),
        sex("x3", "pA", "male", "did:key:z6MkC"),
    ];
    let p = project(&recs, &Policy::default());
    assert_eq!(p.people[0].sex.as_deref(), Some("male")); // 2 distinct authors vs 1
}

#[test]
fn biography_resolves() {
    let recs = vec![
        person("pA"),
        biography(
            "b1",
            "pA",
            "Born in Krakow, emigrated 1923.",
            "did:key:z6MkA",
        ),
    ];
    let p = project(&recs, &Policy::default());
    assert_eq!(
        p.people[0].biography.as_deref(),
        Some("Born in Krakow, emigrated 1923.")
    );
}

#[test]
fn media_links_attach_to_person() {
    // A portrait links to the anchor pB; after merge it hangs off the canonical person pA.
    let recs = vec![
        person("pA"),
        person("pB"),
        same_as("s1", "pA", "pB", "did:key:z6MkA"),
        media_link("m1", "pB", "sha256:9f2b", "did:key:z6MkA"),
        media_link("m2", "pA", "sha256:aaaa", "did:key:z6MkA"),
    ];
    let p = project(&recs, &Policy::default());
    assert_eq!(p.people.len(), 1);
    let hashes: Vec<_> = p.people[0]
        .media
        .iter()
        .map(|m| m.media_hash.as_str())
        .collect();
    assert_eq!(hashes, vec!["sha256:9f2b", "sha256:aaaa"]); // sorted by claim id: m1 then m2
}

#[test]
fn media_link_carries_the_full_shape() {
    // The media view round-trips the full shape, and `role == "portrait"` is the selection.
    let recs = vec![
        person("pA"),
        claim(
            "m1",
            P_MEDIA_LINK,
            "pA",
            json(r#"{ "mediaHash": "sha256:9f2b", "mime": "image/jpeg", "width": 800, "height": 600, "kind": "image", "role": "portrait", "order": 0, "caption": "Ada in 1852", "crop": { "x": 10, "y": 20, "w": 100, "h": 100 } }"#),
            "did:key:z6MkA",
        ),
    ];
    let p = project(&recs, &Policy::default());
    let m = &p.people[0].media[0];
    assert_eq!(m.claim_id, "m1");
    assert_eq!(m.media_hash, "sha256:9f2b"); // the guaranteed blob identity, broken out
                                             // the rest of the value passes through verbatim (`role == "portrait"` is the portrait selection)
    assert_eq!(
        Value::Object(m.value.iter().map(|(k, v)| (k.clone(), v.duplicate())).collect()),
        json(r#"{ "mime": "image/jpeg", "width": 800, "height": 600, "kind": "image", "role": "portrait", "order": 0, "caption": "Ada in 1852", "crop": { "x": 10, "y": 20, "w": 100, "h": 100 } }"#)
    );
}

#[test]
fn event_place_renders_time_bounded_name() {
    // Königsberg → Kaliningrad; an 1845 birth renders the name whose validRange covers 1845.
    let recs = vec![
        event("e1"),
        event_type("et1", "e1", "birth", "did:key:z6MkA"),
        date("dt1", "e1", "1845", "did:key:z6MkA"),
        event_place("ep1", "e1", "plc_kb", "did:key:z6MkA"),
        place("plc_kb"),
        place_name(
            "pn1",
            "plc_kb",
            "Königsberg, Provinz Preußen",
            "1824/1878",
            "did:key:z6MkA",
        ),
        place_name(
            "pn2",
            "plc_kb",
            "Kaliningrad, Russia",
            "1946/..",
            "did:key:z6MkA",
        ),
        place_point("pp1", "plc_kb", 54.7104, 20.4522, "did:key:z6MkA"),
    ];
    let p = project(&recs, &Policy::default());
    let place = p.events[0].place.as_ref().unwrap();
    assert_eq!(place.id, "plc_kb");
    assert_eq!(place.name.as_deref(), Some("Königsberg, Provinz Preußen"));
    assert_eq!(
        place.point,
        Some(json(r#"{ "latitude": 54.7104, "longitude": 20.4522 }"#))
    );
}

#[test]
fn event_place_falls_back_when_no_range_covers() {
    // No date on the event → fall back to the most-corroborated name.
    let recs = vec![
        event("e1"),
        event_place("ep1", "e1", "plc_kb", "did:key:z6MkA"),
        place("plc_kb"),
        place_name("pn1", "plc_kb", "Old Name", "1600/1700", "did:key:z6MkA"),
        place_name("pn2", "plc_kb", "New Name", "1900/..", "did:key:z6MkB"),
        place_name("pn3", "plc_kb", "New Name", "1900/..", "did:key:z6MkC"),
    ];
    let p = project(&recs, &Policy::default());
    let place = p.events[0].place.as_ref().unwrap();
    assert_eq!(place.name.as_deref(), Some("New Name")); // 2 authors vs 1
}

#[test]
fn custom_fields_resolve_via_definition() {
    let recs = vec![
        person("pA"),
        custom_field(
            "cf1",
            "tree",
            "fld_job",
            "Occupation",
            "text",
            "did:key:z6MkA",
        ),
        custom_value("cv1", "pA", "fld_job", json(r#""Carpenter""#), "did:key:z6MkA"),
    ];
    let p = project(&recs, &Policy::default());
    assert_eq!(
        p.people[0].custom_fields,
        vec![CustomField {
            field_id: "fld_job".into(),
            label: "Occupation".into(),
            field_type: "text".into(),
            value: json(r#""Carpenter""#),
        }]
    );
}

#[test]
fn sources_resolve_from_citations() {
    let biog = with_citation(
        biography("b1", "pA", "Born in Krakow.", "did:key:z6MkA"),
        "src1",
        json(r#"{ "page": "112", "entry": "3" }"#),
        "b. Krakow 1842",
    );
    let recs = vec![
        person("pA"),
        source(
            "src1",
            "St. Mary Parish Register",
            "London Metropolitan Archives",
            "did:key:z6MkA",
        ),
        biog,
    ];
    let p = project(&recs, &Policy::default());
    assert_eq!(p.people[0].sources.len(), 1);
    let c = &p.people[0].sources[0];
    assert_eq!(c.claim_id, "b1");
    assert_eq!(c.predicate, P_BIOGRAPHY);
    assert_eq!(c.extract.as_deref(), Some("b. Krakow 1842"));
    assert_eq!(c.locator, Some(json(r#"{ "page": "112", "entry": "3" }"#)));
    assert_eq!(c.source.source_id, "src1");
    assert_eq!(c.source.title.as_deref(), Some("St. Mary Parish Register"));
    assert_eq!(
        c.source.repository.as_deref(),
        Some("London Metropolitan Archives")
    );
    assert_eq!(c.source.quality.as_deref(), Some("original"));
}

#[test]
fn citation_with_unresolved_source_still_surfaces() {
    let n = with_citation(name("n1", "pA", "Ada"), "srcX", json(r#"null"#), "");
    let recs = vec![person("pA"), n];
    let p = project(&recs, &Policy::default());
    assert_eq!(p.people[0].sources.len(), 1);
    let c = &p.people[0].sources[0];
    assert_eq!(c.source.source_id, "srcX");
    assert_eq!(c.source.title, None); // source claim absent → reference surfaced, fields empty
}

#[test]
fn custom_value_without_definition_degrades() {
    let recs = vec![
        person("pA"),
        custom_value("cv1", "pA", "fld_x", json(r#"42"#), "did:key:z6MkA"),
    ];
    let cf = &project(&recs, &Policy::default()).people[0].custom_fields[0];
    assert_eq!(cf.field_id, "fld_x");
    assert_eq!(cf.label, "fld_x"); // degrade: label = fieldId
    assert_eq!(cf.field_type, "text");
    assert_eq!(cf.value, json(r#"42"#));
}

#[test]
fn reject_attestations_unmerge() {
    let recs = vec![
        person("pA"),
        person("pB"),
        same_as("s1", "pA", "pB", "did:key:z6MkA"),
        attest("a1", "s1", "reject", "did:key:z6MkB"),
        attest("a2", "s1", "reject", "did:key:z6MkC"),
    ];
    // score = 1 author + 0 support - 2 rejects = -1 < threshold 1 → not merged.
    assert_eq!(project(&recs, &Policy::default()).people.len(), 2);
}

#[test]
fn support_attestations_boost_confidence() {
    let sa = vec![
        person("pA"),
        person("pB"),
        same_as("s1", "pA", "pB", "did:key:z6MkA"),
        attest("a1", "s1", "support", "did:key:z6MkB"),
        attest("a2", "s1", "support", "did:key:z6MkC"),
    ];
    let strict = Policy {
        same_as_threshold: 3,
        ..Policy::default()
    };
    // 1 author + 2 independent support = 3 → merges even under a strict threshold…
    assert_eq!(project(&sa, &strict).people.len(), 1);
    // …whereas the bare same_as (score 1) would not.
    let bare = vec![
        person("pA"),
        person("pB"),
        same_as("s1", "pA", "pB", "did:key:z6MkA"),
    ];
    assert_eq!(project(&bare, &strict).people.len(), 2);
}

#[test]
fn self_support_is_inadmissible() {
    let recs = vec![
        person("pA"),
        person("pB"),
        same_as("s1", "pA", "pB", "did:key:z6MkA"),
        attest("a1", "s1", "support", "did:key:z6MkA"), // same author as the claim → self-grading
    ];
    // score = 1 author + 0 independent support = 1; threshold 2 → not merged.
    let strict = Policy {
        same_as_threshold: 2,
        ..Policy::default()
    };
    assert_eq!(project(&recs, &strict).people.len(), 2);
}

#[test]
fn refuted_different_from_does_not_cut() {
    let recs = vec![
        person("pA"),
        person("pB"),
        same_as("s1", "pA", "pB", "did:key:z6MkA"),
        different_from("d1", "pA", "pB", "did:key:z6MkB"),
        attest("r1", "d1", "reject", "did:key:z6MkC"),
        attest("r2", "d1", "reject", "did:key:z6MkD"),
    ];
    // different_from score = 1 - 2 = -1 < threshold 1 → not a cut → the same_as merges.
    let p = project(&recs, &Policy::default());
    assert_eq!(p.people.len(), 1);
    assert!(p.conflicts.is_empty());
}

#[test]
fn attestation_by_fingerprint_counts() {
    let sa = same_as("s1", "pA", "pB", "did:key:z6MkA");
    let fp = match &sa {
        Record::Claim(c) => c.fingerprint.clone().unwrap(),
        _ => unreachable!(),
    };
    let recs = vec![
        person("pA"),
        person("pB"),
        sa,
        attest("r1", &fp, "reject", "did:key:z6MkB"),
        attest("r2", &fp, "reject", "did:key:z6MkC"),
    ];
    // Rejects targeting the fact fingerprint (not the claim id) still count → score -1 → not merged.
    assert_eq!(project(&recs, &Policy::default()).people.len(), 2);
}

#[test]
fn reattribute_rehomes_a_name_and_sex() {
    let recs = vec![
        person("pA"),
        person("pB"),
        name("n1", "pA", "Ada"),
        sex("x1", "pA", "female", "did:key:z6MkA"),
        reattribute("re1", "n1", "pB", "did:key:z6MkB"),
        reattribute("re2", "x1", "pB", "did:key:z6MkB"),
    ];
    let p = project(&recs, &Policy::default());
    let pa = p.people.iter().find(|x| x.id == "pA").unwrap();
    let pb = p.people.iter().find(|x| x.id == "pB").unwrap();
    assert!(pa.names.is_empty() && pa.sex.is_none()); // re-homed away
    assert_eq!(pb.names.len(), 1);
    assert_eq!(pb.sex.as_deref(), Some("female"));
}

#[test]
fn refuted_reattribute_does_not_apply() {
    let recs = vec![
        person("pA"),
        person("pB"),
        name("n1", "pA", "Ada"),
        reattribute("re1", "n1", "pB", "did:key:z6MkB"),
        attest("y1", "re1", "reject", "did:key:z6MkC"),
        attest("y2", "re1", "reject", "did:key:z6MkD"),
    ];
    // reattribute score = 1 - 2 = -1 < threshold → the name stays on pA.
    let p = project(&recs, &Policy::default());
    assert_eq!(
        p.people.iter().find(|x| x.id == "pA").unwrap().names.len(),
        1
    );
}

#[test]
fn competing_reattribute_resolves_by_score() {
    let recs = vec![
        person("pA"),
        person("pB"),
        person("pC"),
        name("n1", "pA", "Ada"),
        reattribute("re1", "n1", "pB", "did:key:z6MkB"),
        reattribute("re2", "n1", "pC", "did:key:z6MkC"),
        reattribute("re3", "n1", "pC", "did:key:z6MkD"), // pC: 2 authors → higher score
    ];
    let p = project(&recs, &Policy::default());
    assert_eq!(
        p.people.iter().find(|x| x.id == "pC").unwrap().names.len(),
        1
    );
    assert!(p
        .people
        .iter()
        .find(|x| x.id == "pB")
        .unwrap()
        .names
        .is_empty());
}

#[test]
fn preferred_selects_a_name() {
    let recs = vec![
        person("pA"),
        name("n1", "pA", "Ada"),
        name("n2", "pA", "Augusta"),
        preferred("pf1", "pA", P_NAME, &given_ref("Augusta"), "did:key:z6MkB"),
    ];
    let p = project(&recs, &Policy::default());
    assert_eq!(p.people[0].preferred_name.as_deref(), Some("n2"));
}

#[test]
fn preferred_resolves_to_the_canonical_person_after_a_merge() {
    // The name is on pB; the preferred is asserted against pA; a same_as merges them.
    let recs = vec![
        person("pA"),
        person("pB"),
        name("n1", "pB", "Augusta"),
        same_as("s1", "pA", "pB", "did:key:z6MkA"),
        preferred("pf1", "pA", P_NAME, &given_ref("Augusta"), "did:key:z6MkB"),
    ];
    let p = project(&recs, &Policy::default());
    assert_eq!(p.people[0].id, "pA");
    assert_eq!(p.people[0].preferred_name.as_deref(), Some("n1"));
}

#[test]
fn preferred_ignored_when_absent_or_refuted() {
    // Points at a name the person doesn't have → no selection.
    let recs = vec![
        person("pA"),
        name("n1", "pA", "Ada"),
        preferred("pf1", "pA", P_NAME, &given_ref("Nobody"), "did:key:z6MkB"),
    ];
    assert_eq!(
        project(&recs, &Policy::default()).people[0].preferred_name,
        None
    );

    // Refuted below threshold → no selection.
    let recs2 = vec![
        person("pA"),
        name("n1", "pA", "Ada"),
        preferred("pf1", "pA", P_NAME, &given_ref("Ada"), "did:key:z6MkB"),
        attest("z1", "pf1", "reject", "did:key:z6MkC"),
        attest("z2", "pf1", "reject", "did:key:z6MkD"),
    ];
    assert_eq!(
        project(&recs2, &Policy::default()).people[0].preferred_name,
        None
    );
}

#[test]
fn equivalent_names_share_a_class() {
    // n2 (a different rendering) points at n1's content-ref via equivalent_to; n3 is unrelated.
    let n2 = claim(
        "n2",
        P_NAME,
        "pA",
        obj(vec![("equivalent_to", Value::Array(vec![text(&given_ref("Ada"))])), ("parts", obj(vec![("given", text("Ada-cyr"))]))]),
        "did:key:z6MkA",
    );
    let recs = vec![
        person("pA"),
        name("n1", "pA", "Ada"),
        n2,
        name("n3", "pA", "Zed"),
    ];
    let p = project(&recs, &Policy::default());
    let names = &p.people[0].names;
    let cls = |cid: &str| {
        names
            .iter()
            .find(|v| v.claim_id == cid)
            .unwrap()
            .equiv_class
            .clone()
    };
    assert_eq!(cls("n1"), cls("n2")); // equivalent → one class
    assert_ne!(cls("n1"), cls("n3")); // unrelated → separate class
    assert_eq!(cls("n1"), "n1"); // class label = min claim_id in the component
}

#[test]
fn equiv_class_label_is_the_minimum_claim_id_not_the_first_visited() {
    // The label is the MINIMUM claim id in the component, independent of union-find visit order. Here the
    // rendering whose content-ref sorts first ("n9", given "Aaa") has the LARGER claim id, while the
    // equivalent rendering that sorts later ("n1", given "Zzz") has the smaller one — so "first visited"
    // and "minimum" disagree, and the label must be "n1".
    let n1 = claim(
        "n1",
        P_NAME,
        "pA",
        obj(vec![("equivalent_to", Value::Array(vec![text(&given_ref("Aaa"))])), ("parts", obj(vec![("given", text("Zzz"))]))]),
        "did:key:z6MkA",
    );
    let recs = vec![person("pA"), name("n9", "pA", "Aaa"), n1];
    let p = project(&recs, &Policy::default());
    let names = &p.people[0].names;
    let cls = |cid: &str| {
        names.iter().find(|v| v.claim_id == cid).unwrap().equiv_class.clone()
    };
    assert_eq!(cls("n1"), cls("n9"), "the two renderings are equivalent");
    assert_eq!(cls("n1"), "n1", "the class label is the minimum claim id, not the first visited");
}

#[test]
fn parent_child_edge() {
    let recs = vec![
        person("pChild"),
        person("pParent"),
        parent("r1", "pChild", "pParent", "biological", "did:key:z6MkA"),
    ];
    let p = project(&recs, &Policy::default());
    assert_eq!(
        p.parent_child,
        vec![ParentChild {
            parent: "pParent".into(),
            child: "pChild".into(),
            kind: "biological".into()
        }]
    );
}

#[test]
fn partnership_edge() {
    let recs = vec![
        person("pA"),
        person("pB"),
        partnership("r1", "pB", "pA", "spouse", "did:key:z6MkA"), // endpoints in any order
    ];
    let p = project(&recs, &Policy::default());
    assert_eq!(
        p.partnerships,
        vec![Partnership {
            pair: ("pA".into(), "pB".into()),
            role: "spouse".into()
        }]
    );
}

#[test]
fn relationships_canonicalize_across_a_merge() {
    // The parent edge names pB; a same_as merges pB into pA → the edge points at pA.
    let recs = vec![
        person("pA"),
        person("pB"),
        person("pChild"),
        parent("r1", "pChild", "pB", "biological", "did:key:z6MkA"),
        same_as("s1", "pA", "pB", "did:key:z6MkA"),
    ];
    let p = project(&recs, &Policy::default());
    assert_eq!(p.parent_child.len(), 1);
    assert_eq!(p.parent_child[0].parent, "pA");
    assert_eq!(p.parent_child[0].child, "pChild");
}

#[test]
fn refuted_relationship_is_dropped() {
    let recs = vec![
        person("pChild"),
        person("pParent"),
        parent("r1", "pChild", "pParent", "biological", "did:key:z6MkA"),
        attest("z1", "r1", "reject", "did:key:z6MkB"),
        attest("z2", "r1", "reject", "did:key:z6MkC"),
    ];
    // score = 1 - 2 = -1 < threshold → dropped.
    assert!(project(&recs, &Policy::default()).parent_child.is_empty());
}

#[test]
fn birth_event_assembles() {
    let recs = vec![
        person("pA"),
        event("e1"),
        event_type("t1", "e1", "birth", "did:key:z6MkA"),
        date("d1", "e1", "1842~", "did:key:z6MkA"),
        participant("pt1", "e1", "pA", "child", "did:key:z6MkA"),
    ];
    let p = project(&recs, &Policy::default());
    assert_eq!(p.events.len(), 1);
    let e = &p.events[0];
    assert_eq!(e.event_type.as_deref(), Some("birth"));
    assert_eq!(e.date_edtf.as_deref(), Some("1842~"));
    assert_eq!(e.date_min_year, Some(1842));
    assert_eq!(
        e.participants,
        vec![Participant {
            person: "pA".into(),
            role: "child".into()
        }]
    );
}

#[test]
fn event_participants_canonicalize() {
    // A marriage; participant pB merges into pA via a same_as → the event names pA.
    let recs = vec![
        person("pA"),
        person("pB"),
        person("pC"),
        event("e1"),
        event_type("t1", "e1", "marriage", "did:key:z6MkA"),
        participant("pt1", "e1", "pB", "spouse", "did:key:z6MkA"),
        participant("pt2", "e1", "pC", "spouse", "did:key:z6MkA"),
        same_as("s1", "pA", "pB", "did:key:z6MkA"),
    ];
    let p = project(&recs, &Policy::default());
    let e = &p.events[0];
    assert_eq!(e.event_type.as_deref(), Some("marriage"));
    assert_eq!(
        e.participants,
        vec![
            Participant {
                person: "pA".into(),
                role: "spouse".into()
            },
            Participant {
                person: "pC".into(),
                role: "spouse".into()
            },
        ]
    );
}

#[test]
fn union_groups_children_and_attaches_marriage() {
    let recs = vec![
        person("pA"),
        person("pB"),
        person("pC1"),
        person("pC2"),
        parent("r1", "pC1", "pA", "biological", "did:key:z6MkA"),
        parent("r2", "pC1", "pB", "biological", "did:key:z6MkA"),
        parent("r3", "pC2", "pA", "biological", "did:key:z6MkA"),
        parent("r4", "pC2", "pB", "biological", "did:key:z6MkA"),
        partnership("pn1", "pA", "pB", "spouse", "did:key:z6MkA"),
        event("e1"),
        event_type("t1", "e1", "marriage", "did:key:z6MkA"),
        participant("pt1", "e1", "pA", "spouse", "did:key:z6MkA"),
        participant("pt2", "e1", "pB", "spouse", "did:key:z6MkA"),
    ];
    let p = project(&recs, &Policy::default());
    assert_eq!(p.unions.len(), 1);
    let u = &p.unions[0];
    assert_eq!(u.id, "union:pA+pB");
    assert_eq!(u.parents, vec!["pA".to_string(), "pB".to_string()]);
    assert_eq!(u.children, vec!["pC1".to_string(), "pC2".to_string()]);
    assert_eq!(u.marriage_event.as_deref(), Some("e1"));
}

#[test]
fn marriage_event_requires_a_marriage_type_not_just_matching_participants() {
    // A union pA+pB with a NON-marriage event whose participants are exactly {pA, pB}. Matching
    // participants alone must NOT make it the union's marriage_event — the event type gates it too.
    let recs = vec![
        person("pA"),
        person("pB"),
        person("pC1"),
        parent("r1", "pC1", "pA", "biological", "did:key:z6MkA"),
        parent("r2", "pC1", "pB", "biological", "did:key:z6MkA"),
        event("e1"),
        event_type("t1", "e1", "residence", "did:key:z6MkA"), // not marriage/divorce
        participant("pt1", "e1", "pA", "principal", "did:key:z6MkA"),
        participant("pt2", "e1", "pB", "principal", "did:key:z6MkA"),
    ];
    let p = project(&recs, &Policy::default());
    assert_eq!(p.unions.len(), 1);
    assert_eq!(
        p.unions[0].marriage_event, None,
        "a non-marriage event with matching participants is not the union's marriage"
    );
}

#[test]
fn an_existence_claim_is_consumed_not_surfaced_as_unknown() {
    // The existence claim asserts no structured fact: it is consumed, and not shown on the person.
    let recs = vec![
        person("pA"),
        name("n1", "pA", "Ada"),
        claim(
            "x1",
            "openom.org/core/existence/v1",
            "pA",
            json(r#"{}"#),
            "did:key:z6MkA",
        ),
    ];
    let p = project(&recs, &Policy::default());
    assert_eq!(p.people.len(), 1);
    assert!(
        p.people[0].other.is_empty(),
        "the existence claim must be consumed, not in Person.other"
    );
    assert!(p.unclassified.is_empty());
}

#[test]
fn a_part_of_claim_is_consumed_not_left_unclassified() {
    // A place-nesting (part_of) claim is consumed into the place hierarchy, and not shown as unknown.
    let recs = vec![
        place("plc_child"),
        place("plc_parent"),
        claim(
            "pf1",
            "openom.org/core/part_of/v1",
            "plc_child",
            json(r#"{ "parentPlaceId": "plc_parent" }"#),
            "did:key:z6MkA",
        ),
    ];
    let p = project(&recs, &Policy::default());
    assert!(
        p.unclassified.is_empty(),
        "part_of must be consumed, not left unclassified"
    );
}

#[test]
fn half_siblings_are_separate_unions() {
    // pC1 has parents A+B; pC2 has parents A+C → two unions sharing only A.
    let recs = vec![
        person("pA"),
        person("pB"),
        person("pC"),
        person("pC1"),
        person("pC2"),
        parent("r1", "pC1", "pA", "biological", "did:key:z6MkA"),
        parent("r2", "pC1", "pB", "biological", "did:key:z6MkA"),
        parent("r3", "pC2", "pA", "biological", "did:key:z6MkA"),
        parent("r4", "pC2", "pC", "biological", "did:key:z6MkA"),
    ];
    let p = project(&recs, &Policy::default());
    assert_eq!(p.unions.len(), 2);
    let ab = p
        .unions
        .iter()
        .find(|u| u.parents == vec!["pA".to_string(), "pB".to_string()])
        .unwrap();
    let ac = p
        .unions
        .iter()
        .find(|u| u.parents == vec!["pA".to_string(), "pC".to_string()])
        .unwrap();
    assert_eq!(ab.children, vec!["pC1".to_string()]);
    assert_eq!(ac.children, vec!["pC2".to_string()]);
}

#[test]
fn childless_partnership_is_a_union() {
    let recs = vec![
        person("pA"),
        person("pB"),
        partnership("pn1", "pA", "pB", "spouse", "did:key:z6MkA"),
    ];
    let p = project(&recs, &Policy::default());
    assert_eq!(
        p.unions,
        vec![Union {
            id: "union:pA+pB".into(),
            parents: vec!["pA".into(), "pB".into()],
            children: vec![],
            marriage_event: None,
        }]
    );
}

#[test]
fn unknown_predicates_surface_on_the_person_or_unclassified() {
    let recs = vec![
        person("pA"),
        name("n1", "pA", "Ada"),
        // A predicate this build doesn't know, about a KNOWN person → attaches to pA.other, verbatim.
        claim(
            "o1",
            "openom.org/x/occupation/v1",
            "pA",
            json(r#"{ "title": "mathematician" }"#),
            "did:key:z6MkA",
        ),
        // An unknown predicate about a NON-person target (a future anchor kind) → unclassified, and
        // must NOT mint a spurious person.
        claim(
            "o2",
            "openom.org/x/recipe/v1",
            "rec-1",
            json(r#"{ "name": "sourdough" }"#),
            "did:key:z6MkA",
        ),
    ];
    let p = project(&recs, &Policy::default());

    // Exactly one person (pA) — the recipe claim did not create one.
    assert_eq!(p.people.len(), 1);
    let pa = &p.people[0];
    assert_eq!(pa.id, "pA");
    assert_eq!(pa.other.len(), 1);
    assert_eq!(pa.other[0].claim_id, "o1");
    assert_eq!(pa.other[0].predicate, "openom.org/x/occupation/v1");
    assert_eq!(pa.other[0].value, json(r#"{ "title": "mathematician" }"#));

    // The non-person unknown claim is preserved verbatim in `unclassified`, not dropped.
    assert_eq!(p.unclassified.len(), 1);
    assert_eq!(p.unclassified[0].claim_id, "o2");
    assert_eq!(p.unclassified[0].target_id, "rec-1");
    assert_eq!(p.unclassified[0].value, json(r#"{ "name": "sourdough" }"#));
}

// ---- properties --------------------------------------------------------------------------------

enum Spec {
    Person(String),
    SameAs(String, String),
    Different(String, String),
    Name(String, String),
    Sex(String, String),
}

struct Dice(u64);

impl Dice {
    fn roll(&mut self, sides: u64) -> u64 {
        self.0 = self.0.wrapping_mul(6364136223846793005).wrapping_add(1442695040888963407);
        (self.0 >> 33) % sides
    }
}

fn specs(seed: u64) -> (Vec<Spec>, Dice) {
    let mut d = Dice(seed.wrapping_mul(0x9E37_79B9_7F4A_7C15).wrapping_add(1));
    let n = d.roll(24);
    let mut out = Vec::new();
    for _ in 0..n {
        let a = format!("p{}", d.roll(6));
        let b = format!("p{}", d.roll(6));
        out.push(match d.roll(5) {
            0 => Spec::Person(a),
            1 => Spec::SameAs(a, b),
            2 => Spec::Different(a, b),
            3 => Spec::Name(a, ["ada", "bo", "cy"][d.roll(3) as usize].to_string()),
            _ => Spec::Sex(a, ["male", "female", "unknown"][d.roll(3) as usize].to_string()),
        });
    }
    (out, d)
}

// A record keeps the id that it got from its place, wherever it is moved to.
fn into_record(spec: &Spec, i: usize) -> Record {
    let cid = format!("c{i}");
    match spec {
        Spec::Person(id) => person(id),
        Spec::SameAs(a, b) => same_as(&cid, a, b, "did:key:z6MkA"),
        Spec::Different(a, b) => different_from(&cid, a, b, "did:key:z6MkB"),
        Spec::Name(t, g) => name(&cid, t, g),
        Spec::Sex(t, s) => sex(&cid, t, s, "did:key:z6MkA"),
    }
}

fn into_records(specs: &[Spec]) -> Vec<Record> {
    specs.iter().enumerate().map(|(i, s)| into_record(s, i)).collect()
}

#[test]
fn order_independent() {
    for seed in 0..60 {
        let (specs, mut dice) = specs(seed);
        let a = project(&into_records(&specs), &Policy::default());
        let mut shuffled = into_records(&specs);
        for i in (1..shuffled.len()).rev() {
            shuffled.swap(i, dice.roll(i as u64 + 1) as usize);
        }
        assert_eq!(a, project(&shuffled, &Policy::default()));
    }
}

#[test]
fn duplication_invariant() {
    for seed in 100..160 {
        let (specs, _) = specs(seed);
        let once = project(&into_records(&specs), &Policy::default());
        let mut doubled = into_records(&specs);
        doubled.extend(into_records(&specs));
        assert_eq!(once, project(&doubled, &Policy::default()));
    }
}

#[test]
fn people_are_wellformed() {
    for seed in 200..260 {
        let (specs, _) = specs(seed);
        let anchors: std::collections::BTreeSet<String> =
            specs.iter().filter_map(|s| if let Spec::Person(id) = s { Some(id.clone()) } else { None }).collect();
        let proj = project(&into_records(&specs), &Policy::default());
        let mut seen_members = std::collections::BTreeSet::new();
        let mut seen_names = std::collections::BTreeSet::new();
        for p in &proj.people {
            assert!(anchors.contains(&p.id));
            assert!(seen_members.insert(p.id.clone()), "anchor {} in two people", p.id);
            for a in &p.also {
                assert!(anchors.contains(a));
                assert!(p.id < *a, "canonical id must be the minimum: {} !< {}", p.id, a);
                assert!(seen_members.insert(a.clone()), "anchor {} in two people", a);
            }
            for n in &p.names {
                assert!(seen_names.insert(n.claim_id.clone()), "name {} in two people", n.claim_id);
            }
        }
    }
}

#[test]
fn different_from_never_violated() {
    for seed in 300..360 {
        let (specs, _) = specs(seed);
        let proj = project(&into_records(&specs), &Policy::default());
        let mut person_of: std::collections::BTreeMap<String, usize> = std::collections::BTreeMap::new();
        for (idx, p) in proj.people.iter().enumerate() {
            person_of.insert(p.id.clone(), idx);
            for a in &p.also {
                person_of.insert(a.clone(), idx);
            }
        }
        for s in &specs {
            if let Spec::Different(a, b) = s {
                if a != b {
                    if let (Some(ia), Some(ib)) = (person_of.get(a), person_of.get(b)) {
                        assert_ne!(ia, ib, "different_from {}/{} ended up merged", a, b);
                    }
                }
            }
        }
    }
}

// ---- more edges ---------------------------------------------------------------------------------

#[test]
fn a_claim_that_moved_shows_its_new_home() {
    let recs = vec![
        person("pA"),
        person("pB"),
        claim("o1", "openom.org/x/occupation/v1", "pA", json(r#"{"title":"smith"}"#), "did:key:z6MkA"),
        reattribute("re1", "o1", "pB", "did:key:z6MkA"),
        claim("o2", "openom.org/x/occupation/v1", "pB", json(r#"{"title":"cook"}"#), "did:key:z6MkA"),
        reattribute("re2", "o2", "elsewhere", "did:key:z6MkA"),
    ];
    let p = project(&recs, &Policy::default());
    assert!(p.people[0].other.is_empty());
    assert_eq!(p.people[1].other[0].claim_id, "o1");
    assert_eq!(p.people[1].other[0].target_id, "pB");
    assert_eq!(p.unclassified[0].claim_id, "o2");
    assert_eq!(p.unclassified[0].target_id, "elsewhere");
}

#[test]
fn two_claims_of_one_name_are_one_class() {
    let recs = vec![person("pA"), name("n2", "pA", "Ada"), name("n1", "pA", "Ada")];
    let p = project(&recs, &Policy::default());
    let classes: Vec<&str> = p.people[0].names.iter().map(|n| n.equiv_class.as_str()).collect();
    assert_eq!(classes, vec!["n1", "n1"]);
}

#[test]
fn equal_counts_go_to_the_least_value() {
    let recs = vec![
        person("pA"),
        sex("x1", "pA", "male", "did:key:z6MkA"),
        sex("x2", "pA", "female", "did:key:z6MkB"),
    ];
    assert_eq!(project(&recs, &Policy::default()).people[0].sex.as_deref(), Some("female"));
}

#[test]
fn the_first_record_of_an_id_counts() {
    let recs = vec![
        person("pA"),
        name("n1", "pA", "Ada"),
        name("n1", "pA", "Eve"),
    ];
    let p = project(&recs, &Policy::default());
    assert_eq!(p.people[0].names.len(), 1);
    assert_eq!(p.people[0].names[0].parts, given("Ada"));
}

#[test]
fn texts_that_are_read_as_dates() {
    let recs = vec![
        event("e1"),
        date("d1", "e1", "1842~", "did:key:z6MkA"),
        date("d2", "e1", "1842~", "did:key:z6MkB"),
        place("plc"),
        place_name("pn1", "plc", "Old", "1600/1700", "did:key:z6MkA"),
        place_name("pn2", "plc", "New", "", "did:key:z6MkA"),
    ];
    assert_eq!(date_texts(&recs), vec!["".to_string(), "1600/1700".to_string(), "1842~".to_string()]);
}

#[test]
fn an_unreadable_date_has_no_years() {
    let recs = vec![
        event("e1"),
        date("d1", "e1", "someday", "did:key:z6MkA"),
        event_place("ep1", "e1", "plc", "did:key:z6MkA"),
        place_name("pn1", "plc", "Old", "someday", "did:key:z6MkA"),
        claim("pf1", "openom.org/core/part_of/v1", "plc", json(r#"{"parentPlaceId":"land"}"#), "did:key:z6MkA"),
    ];
    let p = project(&recs, &Policy::default());
    assert_eq!(p.events[0].date_edtf.as_deref(), Some("someday"));
    assert_eq!(p.events[0].date_min_year, None);
    assert_eq!(p.events[0].date_max_year, None);
    let shown = p.events[0].place.as_ref().unwrap();
    assert_eq!(shown.name.as_deref(), Some("Old"));
    assert_eq!(shown.part_of.as_deref(), Some("land"));
}

#[test]
fn an_empty_range_covers_every_year() {
    let recs = vec![
        event("e1"),
        date("d1", "e1", "1845", "did:key:z6MkA"),
        event_place("ep1", "e1", "plc", "did:key:z6MkA"),
        place_name("pn1", "plc", "Always", "", "did:key:z6MkA"),
        place_name("pn2", "plc", "Later", "1946/..", "did:key:z6MkA"),
        place_name("pn3", "plc", "Later", "1946/..", "did:key:z6MkB"),
    ];
    let p = project(&recs, &Policy::default());
    assert_eq!(p.events[0].place.as_ref().unwrap().name.as_deref(), Some("Always"));
}

#[test]
fn values_compact_as_they_are_written() {
    let v = json(r#"{"a":[1,true,null,"q\"\u0001"],"b":{}}"#);
    assert_eq!(v.to_text(), r#"{"a":[1,true,null,"q\"\u0001"],"b":{}}"#);
}

#[test]
fn a_witness_does_not_hide_a_marriage() {
    let mut recs = vec![
        person("pA"),
        person("pB"),
        person("pW"),
        partnership("pn1", "pA", "pB", "spouse", "did:key:z6MkA"),
        event("e1"),
        event_type("t1", "e1", "marriage", "did:key:z6MkA"),
        participant("pt1", "e1", "pA", "spouse", "did:key:z6MkA"),
        participant("pt2", "e1", "pB", "spouse", "did:key:z6MkA"),
        participant("pt3", "e1", "pW", "witness", "did:key:z6MkA"),
    ];
    let p = project(&recs, &Policy::default());
    assert_eq!(p.unions.len(), 1);
    assert_eq!(p.unions[0].id, "union:pA+pB");
    assert!(p.unions[0].children.is_empty());
    assert_eq!(p.unions[0].marriage_event.as_deref(), Some("e1"));
    recs.push(participant("pt4", "e1", "pW", "spouse", "did:key:z6MkA"));
    assert_eq!(project(&recs, &Policy::default()).unions[0].marriage_event, None);
}

#[test]
fn a_tie_is_voted_on_under_each_of_its_fingerprints() {
    let ends = obj(vec![("parentPersonId", text("pP"))]);
    let plain = claim("r1", P_PARENT, "pC", ends, "did:key:z6MkA");
    let told = parent("r2", "pC", "pP", "biological", "did:key:z6MkA");
    let print = |r: &Record| match r {
        Record::Claim(c) => c.fingerprint.clone().unwrap(),
        _ => unreachable!(),
    };
    let votes = [print(&plain), print(&told)];
    assert_ne!(votes[0], votes[1]);
    for vote in &votes {
        let mut recs = vec![
            person("pC"),
            person("pP"),
            plain.duplicate(),
            told.duplicate(),
            attest("v1", vote, "reject", "did:key:z6MkB"),
        ];
        let p = project(&recs, &Policy::default());
        assert!(p.parent_child.is_empty(), "one author less one reject");
        recs.reverse();
        assert_eq!(project(&recs, &Policy::default()), p);
        recs.retain(|r| r.id() != "v1");
        assert_eq!(project(&recs, &Policy::default()).parent_child.len(), 1);
    }
}

#[test]
fn an_edge_is_joined_or_a_cut_is_shown() {
    let recs = vec![
        person("pA"),
        person("pB"),
        person("pC"),
        same_as("s1", "pA", "pB", "did:key:z6MkA"),
        same_as("s2", "pB", "pC", "did:key:z6MkA"),
        different_from("d1", "pA", "pC", "did:key:z6MkA"),
    ];
    let p = project(&recs, &Policy::default());
    assert_eq!(p.people.len(), 2);
    assert_eq!(p.people.iter().map(|x| 1 + x.also.len()).sum::<usize>(), 3, "every anchor is in somebody");
    assert_eq!(p.conflicts.len(), 1);
    assert_eq!(p.conflicts[0].cut_pair, ("pB".to_string(), "pC".to_string()));
}
