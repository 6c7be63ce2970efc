//! The claim tree: minting, merging, moderation and reading.

use openom::clock::{Hlc, HlcClock};
use openom::projection::events::Calendar;
use openom::projection::record::{
    fingerprint_subject, name_intrinsic, Claim, Record, Two, P_EXISTENCE, P_NAME, P_SAME_AS, P_SEX, TYPE_PERSON,
};
use openom::projection::value::Value;
use openom::projection::views::Projection;
use openom::sorted::{SortedMap, SortedSet};
use openom::tree::{op_kind_label, ChannelItem, Draft, Marks, Op, OpKind, Tree, TreeError};
use std::cell::RefCell;
use std::collections::BTreeSet;

const DID: &str = "did:key:z6MkA";

fn text(s: &str) -> Value {
    Value::Text(s.to_string())
}
fn obj(members: Vec<(&str, Value)>) -> Value {
    Value::Object(members.into_iter().map(|(k, v)| (k.to_string(), v)).collect())
}
fn name_value(given: &str) -> Value {
    obj(vec![("parts", obj(vec![("given", text(given))]))])
}

// ---- stand-ins for the content ids, the batch codec and the fold ----------------------------------

fn at(t: &Hlc) -> String {
    format!("{}.{}", t.millis, t.logical)
}
fn identify(d: &Draft) -> Result<Marks, TreeError> {
    match d {
        Draft::Claim { target_id, predicate, value, created_by, created_at } => {
            let mut c = Claim {
                id: format!("claim:{target_id}:{predicate}:{}:{created_by}:{}", value.to_text(), at(created_at)),
                predicate: predicate.clone(),
                target_id: target_id.clone(),
                value: value.duplicate(),
                created_by: created_by.clone(),
                created_at: *created_at,
                citation: None,
                fingerprint: None,
                name_ref: None,
                rest: Value::Null,
            };
            if predicate == "unprintable" {
                return Err(TreeError::Claim("no canonical form".to_string()));
            }
            c.fingerprint = Some(format!("print:{}", fingerprint_subject(&c).to_text()));
            if predicate == P_NAME {
                c.name_ref = Some(format!("ref:{}", name_intrinsic(&c.value).to_text()));
            }
            Ok(Marks { id: c.id, fingerprint: c.fingerprint, name_ref: c.name_ref })
        }
        Draft::Op { created_by, created_at, kind } => {
            let what = match kind {
                OpKind::Remove { target } => target.clone(),
                OpKind::Supersede { prior, replacement } => format!("{prior}>{}", replacement.id()),
                OpKind::Revoke { removal } => removal.clone(),
            };
            let id = format!("op:{}:{what}:{created_by}:{}", op_kind_label(kind), at(created_at));
            Ok(Marks { id, fingerprint: None, name_ref: None })
        }
    }
}

/// Batches under numbers.
struct Codec {
    batches: RefCell<Vec<Vec<ChannelItem>>>,
}

impl Codec {
    fn new() -> Codec {
        Codec { batches: RefCell::new(vec![]) }
    }
    fn encode(&self, items: &Vec<ChannelItem>) -> Result<Vec<u8>, TreeError> {
        let mut batches = self.batches.borrow_mut();
        batches.push(items.iter().map(|i| i.duplicate()).collect());
        Ok(vec![batches.len() as u8])
    }
    fn decode(&self, bytes: &Vec<u8>) -> Result<Vec<ChannelItem>, TreeError> {
        match bytes.first().and_then(|n| self.batches.borrow().get(*n as usize - 1).map(|b| b.iter().map(|i| i.duplicate()).collect())) {
            Some(items) => Ok(items),
            None => Err(TreeError::Codec("no such batch".to_string())),
        }
    }
}

fn fold(items: &SortedMap<String, ChannelItem>, committers: &SortedSet<Two>, moderators: &SortedSet<String>) -> Vec<Record> {
    let honored: Vec<&Op> = items
        .values
        .iter()
        .filter_map(|i| match i {
            ChannelItem::Op(op) => Some(op),
            _ => None,
        })
        .filter(|op| committers.items.iter().any(|(id, who)| *id == op.id && moderators.contains(who)))
        .collect();
    let revoked: BTreeSet<&String> = honored
        .iter()
        .filter_map(|op| match &op.kind {
            OpKind::Revoke { removal } => Some(removal),
            _ => None,
        })
        .collect();
    let gone: BTreeSet<&String> = honored
        .iter()
        .filter_map(|op| match &op.kind {
            OpKind::Remove { target } if !revoked.contains(&op.id) => Some(target),
            OpKind::Supersede { prior, .. } => Some(prior),
            _ => None,
        })
        .collect();
    let asserted = items.values.iter().filter_map(|i| match i {
        ChannelItem::Assert(r) => Some(r.duplicate()),
        _ => None,
    });
    let replaced = honored.iter().filter_map(|op| match &op.kind {
        OpKind::Supersede { replacement, .. } => Some(replacement.duplicate()),
        _ => None,
    });
    asserted.chain(replaced).filter(|r| !gone.contains(r.id())).collect()
}

// ---- a replica ------------------------------------------------------------------------------------

struct Replica<'a> {
    tree: Tree,
    codec: &'a Codec,
}

impl<'a> Replica<'a> {
    fn new(did: &str, codec: &'a Codec) -> Replica<'a> {
        Replica { tree: Tree::new(did.to_string()), codec }
    }
    fn assert_anchor(&mut self, id: &str, type_uri: &str, now: i64) {
        self.tree.assert_anchor(id, type_uri, now, identify).unwrap();
    }
    fn assert_claim(&mut self, target: &str, predicate: &str, value: Value, now: i64) {
        self.tree.assert_claim(target, predicate, value, now, identify).unwrap();
    }
    fn remove(&mut self, target: &str, now: i64) -> String {
        self.tree.remove(target, now, identify).unwrap()
    }
    fn flush(&mut self) -> Vec<u8> {
        let codec = self.codec;
        self.tree.flush(|b: &Vec<ChannelItem>| codec.encode(b)).unwrap()
    }
    fn merge(&mut self, batch: &Vec<u8>, committer: &str) -> usize {
        let codec = self.codec;
        self.tree.merge(batch, committer, |b: &Vec<u8>| codec.decode(b)).unwrap()
    }
    fn project(&self) -> Projection {
        let calendar: Calendar = SortedMap::new();
        self.tree.project(fold, &calendar)
    }
    fn resolve_id(&self, anchor: &str) -> Option<String> {
        let calendar: Calendar = SortedMap::new();
        self.tree.resolve_id(anchor, fold, &calendar)
    }
    fn only_id(&self, batch: &Vec<u8>) -> String {
        self.codec.decode(batch).unwrap()[0].id().clone()
    }
    fn names(&self) -> usize {
        self.project().people[0].names.len()
    }
}

#[test]
fn two_engines_converge_over_the_same_ops() {
    let codec = Codec::new();
    let mut a = Replica::new(DID, &codec);
    a.assert_anchor("pA", TYPE_PERSON, 1);
    let pa = a.flush();
    a.assert_claim("pA", P_NAME, name_value("Ada"), 1);
    let na = a.flush();

    let mut b = Replica::new("did:key:z6MkB", &codec);
    assert_eq!(b.merge(&pa, DID), 2);
    assert_eq!(b.merge(&na, DID), 1);

    assert_eq!(a.project(), b.project(), "same op set → same read model");
    assert_eq!(a.project().people.len(), 1);
    assert_eq!(a.project().people[0].id, "pA");
    assert_eq!(a.project().people[0].names.len(), 1);
}

#[test]
fn a_same_author_remove_drops_the_claim() {
    let codec = Codec::new();
    let mut a = Replica::new(DID, &codec);
    a.assert_anchor("pA", TYPE_PERSON, 1);
    a.flush();
    a.assert_claim("pA", P_NAME, name_value("Ada"), 1);
    let na = a.flush();
    assert_eq!(a.names(), 1);
    let id = a.only_id(&na);
    a.remove(&id, 2);
    assert_eq!(a.names(), 0, "the removed name is folded out");
}

#[test]
fn oplog_marks_below_moderator_ops_ineffective() {
    let codec = Codec::new();
    let mut a = Replica::new(DID, &codec);
    a.assert_anchor("pA", TYPE_PERSON, 1);
    a.flush();
    a.assert_claim("pA", P_NAME, name_value("Ada"), 1);
    let na = a.flush();
    let name_id = a.only_id(&na);

    let peer_did = "did:key:z6MkPEER";
    let mut peer = Replica::new(peer_did, &codec);
    peer.remove(&name_id, 2);
    let peer_remove = peer.flush();
    a.merge(&peer_remove, peer_did);
    assert_eq!(a.names(), 1);

    let log = a.tree.oplog();
    let remove = log.iter().find(|v| v.kind == "remove").expect("remove present");
    assert!(!remove.effective, "a below-moderator remove is inert");
    assert_eq!(remove.author, peer_did);
    assert!(
        log.iter().filter(|v| v.kind == "assert").all(|v| v.effective),
        "asserts are always effective (adds are add-only)"
    );

    let mut moderators = SortedSet::new();
    moderators.insert(DID.to_string());
    moderators.insert(peer_did.to_string());
    a.tree.set_moderators(moderators);
    assert!(
        a.tree.oplog().iter().find(|v| v.kind == "remove").unwrap().effective,
        "promotion makes the carried op effective"
    );
    assert_eq!(a.names(), 0, "and the removal now takes effect");
}

#[test]
fn supersede_replaces_a_claim() {
    let codec = Codec::new();
    let mut a = Replica::new(DID, &codec);
    a.assert_anchor("pA", TYPE_PERSON, 1);
    a.flush();
    a.assert_claim("pA", P_NAME, name_value("Ada"), 1);
    let na = a.flush();
    let prior = a.only_id(&na);
    a.tree.supersede_claim(&prior, "pA", P_NAME, name_value("Ada Lovelace"), 2, identify).unwrap();
    assert_eq!(a.names(), 1);
    assert_eq!(a.project().people[0].names[0].parts, name_value("Ada Lovelace"));
}

#[test]
fn revoke_restores_a_removed_claim() {
    let codec = Codec::new();
    let mut a = Replica::new(DID, &codec);
    a.assert_anchor("pA", TYPE_PERSON, 1);
    a.flush();
    a.assert_claim("pA", P_NAME, name_value("Ada"), 1);
    let na = a.flush();
    let id = a.only_id(&na);
    let rm_id = a.remove(&id, 2);
    a.flush();
    assert_eq!(a.names(), 0);
    a.tree.revoke(&rm_id, 3, identify).unwrap();
    assert_eq!(a.names(), 1, "the revoke restored the removed name");
}

#[test]
fn ingesting_advances_the_clock_so_a_rebuild_cannot_reuse_a_tombstoned_id() {
    let codec = Codec::new();
    let mut a = Replica::new(DID, &codec);
    a.assert_claim("pA", P_NAME, name_value("Ada"), 100);
    let created = a.flush();
    let claim_id = a.only_id(&created);
    a.remove(&claim_id, 101);
    let removed = a.flush();

    let mut b = Replica::new(DID, &codec);
    b.merge(&created, DID);
    b.merge(&removed, DID);
    assert!(
        b.tree.live_claims_of("pA", P_NAME, fold).is_empty(),
        "the claim is tombstoned in the rebuilt engine"
    );
    b.assert_claim("pA", P_NAME, name_value("Ada"), 50);
    b.flush();
    assert_eq!(
        b.tree.live_claims_of("pA", P_NAME, fold).len(),
        1,
        "the re-created claim is live — the clock never reused the dead id"
    );
}

#[test]
fn snapshot_load_roundtrips() {
    let codec = Codec::new();
    let mut a = Replica::new(DID, &codec);
    a.assert_anchor("pA", TYPE_PERSON, 1);
    a.assert_claim("pA", P_NAME, name_value("Ada"), 1);
    let snap = a.tree.snapshot(fold, |b: &Vec<ChannelItem>| codec.encode(b)).unwrap();

    let mut b = Replica::new(DID, &codec);
    b.tree.load_snapshot(&snap, |b: &Vec<u8>| codec.decode(b)).unwrap();
    assert_eq!(a.project(), b.project());
}

#[test]
fn resolve_id_returns_the_canonical_person() {
    let codec = Codec::new();
    let mut a = Replica::new(DID, &codec);
    a.assert_anchor("pB", TYPE_PERSON, 1);
    a.assert_anchor("pA", TYPE_PERSON, 1);
    a.assert_claim("pA", P_SAME_AS, obj(vec![("pair", Value::Array(vec![text("pA"), text("pB")]))]), 1);
    assert_eq!(a.resolve_id("pB").as_deref(), Some("pA"));
    assert_eq!(a.resolve_id("pA").as_deref(), Some("pA"));
    assert_eq!(a.resolve_id("nope"), None);
}

#[test]
fn live_claims_of_returns_matching_records() {
    let codec = Codec::new();
    let mut a = Replica::new(DID, &codec);
    a.assert_anchor("pA", TYPE_PERSON, 1);
    a.assert_claim("pA", P_NAME, name_value("Ada"), 1);
    a.assert_claim("pA", P_SEX, obj(vec![("sex", text("F"))]), 1);
    let names = a.tree.live_claims_of("pA", P_NAME, fold);
    assert_eq!(names.len(), 1);
    assert_eq!(names[0].value, name_value("Ada"));
    assert!(a.tree.live_claims_of("pA", "openom.org/core/date/v1", fold).is_empty());
}

#[test]
fn live_claims_of_any_returns_every_predicate_including_unrecognized() {
    let codec = Codec::new();
    let mut a = Replica::new(DID, &codec);
    a.assert_anchor("pA", TYPE_PERSON, 1);
    a.assert_claim("pA", P_NAME, name_value("Ada"), 1);
    a.assert_claim("pA", "openom.org/x/occupation/v1", obj(vec![("title", text("mathematician"))]), 1);
    let all = a.tree.live_claims_of_any("pA", fold);
    assert_eq!(all.len(), 3);
    let preds: BTreeSet<&str> = all.iter().map(|c| c.predicate.as_str()).collect();
    assert!(preds.contains(P_NAME));
    assert!(preds.contains("openom.org/x/occupation/v1"));
    assert!(preds.contains(P_EXISTENCE));
    assert!(a.tree.live_claims_of_any("nope", fold).is_empty());
}

#[test]
fn one_settled_intention_flushes_as_a_single_batch() {
    let codec = Codec::new();
    let mut a = Replica::new(DID, &codec);
    a.assert_anchor("pA", TYPE_PERSON, 1);
    a.assert_claim("pA", P_NAME, name_value("Ada"), 1);
    a.assert_claim("pA", P_SEX, obj(vec![("sex", text("F"))]), 1);
    let batch = a.flush();
    assert_eq!(
        codec.decode(&batch).unwrap().len(),
        4,
        "anchor + existence + name + sex in one batch, not four"
    );
    assert!(a.flush().is_empty(), "nothing minted since → empty flush");
    assert_eq!(a.project().people[0].names.len(), 1);
}

#[test]
fn merging_twice_is_merging_once() {
    let codec = Codec::new();
    let mut a = Replica::new(DID, &codec);
    a.assert_anchor("pA", TYPE_PERSON, 1);
    let batch = a.flush();
    let mut b = Replica::new("did:key:z6MkB", &codec);
    b.merge(&batch, DID);
    let once = b.tree.oplog();
    b.merge(&batch, DID);
    assert_eq!(b.tree.oplog(), once);
    assert_eq!(once.len(), 2);
}

#[test]
fn the_log_is_a_timeline() {
    let codec = Codec::new();
    let mut a = Replica::new(DID, &codec);
    a.assert_claim("z", P_NAME, name_value("first"), 5);
    a.assert_claim("a", P_NAME, name_value("second"), 4);
    let log = a.tree.oplog();
    assert_eq!(log[0].created_at, Hlc { millis: 5, logical: 0 });
    assert_eq!(log[1].created_at, Hlc { millis: 5, logical: 1 });
    assert!(log[0].id.starts_with("claim:z"));
}

#[test]
fn what_cannot_be_identified_is_not_minted() {
    let codec = Codec::new();
    let mut a = Replica::new(DID, &codec);
    let refused = a.tree.assert_claim("pA", "unprintable", Value::Null, 1, identify);
    assert_eq!(refused, Err(TreeError::Claim("no canonical form".to_string())));
    assert!(a.flush().is_empty());
    let unread = a.tree.merge(&vec![9], DID, |b: &Vec<u8>| codec.decode(b));
    assert!(matches!(unread, Err(TreeError::Codec(_))));
    assert!(TreeError::Codec("eof".to_string()).message().contains("eof"));
}

#[test]
fn clearing_keeps_the_clock() {
    let codec = Codec::new();
    let mut a = Replica::new(DID, &codec);
    a.assert_claim("pA", P_NAME, name_value("Ada"), 7);
    a.tree.clear();
    assert!(a.tree.oplog().is_empty());
    assert!(a.flush().is_empty());
    a.assert_claim("pA", P_NAME, name_value("Ada"), 7);
    assert_eq!(a.tree.oplog()[0].created_at, Hlc { millis: 7, logical: 1 });
    assert_eq!(a.tree.author(), DID);
}

#[test]
fn a_full_millisecond_carries_into_the_next() {
    let mut clock = HlcClock::default();
    clock.observe(Hlc { millis: 5, logical: 999 });
    assert_eq!(clock.next(3), Hlc { millis: 6, logical: 0 });
    assert_eq!(clock.next(9), Hlc { millis: 9, logical: 0 });
    clock.observe(Hlc { millis: 8, logical: 500 });
    assert_eq!(clock.next(9), Hlc { millis: 9, logical: 1 });
}

#[test]
fn the_last_instant_has_no_successor() {
    let mut clock = HlcClock::default();
    clock.observe(Hlc { millis: i64::MAX, logical: 999 });
    assert!(!clock.has_next(0));
    clock = HlcClock::default();
    assert!(clock.has_next(i64::MAX));
}

#[test]
fn a_log_in_parts_is_the_log() {
    let codec = Codec::new();
    let mut a = Replica::new(DID, &codec);
    a.assert_anchor("pA", TYPE_PERSON, 1);
    let first = a.flush();
    a.assert_claim("pA", P_NAME, name_value("Ada"), 2);
    let doomed = a.tree.live_claims_of("pA", P_NAME, fold)[0].id.clone();
    a.remove(&doomed, 3);
    let second = a.flush();
    let mut all = codec.decode(&first).unwrap();
    all.extend(codec.decode(&second).unwrap());
    let whole = codec.encode(&all).unwrap();

    let mut parts = Replica::new("did:key:z6MkB", &codec);
    parts.merge(&first, DID);
    parts.merge(&second, DID);
    let mut once = Replica::new("did:key:z6MkB", &codec);
    assert_eq!(once.merge(&whole, DID), 4);
    assert_eq!(parts.tree.items.keys, once.tree.items.keys);
    assert_eq!(parts.tree.committers.items, once.tree.committers.items);
    assert_eq!(parts.tree.oplog().len(), 4);
}

#[test]
fn a_snapshot_holds_the_live_records_alone() {
    let codec = Codec::new();
    let mut a = Replica::new(DID, &codec);
    a.assert_anchor("pA", TYPE_PERSON, 1);
    a.assert_claim("pA", P_NAME, name_value("Ada"), 2);
    let doomed = a.tree.live_claims_of("pA", P_NAME, fold)[0].id.clone();
    a.remove(&doomed, 3);
    let snap = a.tree.snapshot(fold, |b: &Vec<ChannelItem>| codec.encode(b)).unwrap();

    let mut b = Replica::new("did:key:z6MkB", &codec);
    b.tree.load_snapshot(&snap, |x: &Vec<u8>| codec.decode(x)).unwrap();
    assert_eq!(b.tree.items.keys.len(), 2, "the anchor and its existence");
    assert!(b.tree.committers.items.is_empty());
    let loaded = b.tree.items.keys.clone();
    b.tree.load_snapshot(&snap, |x: &Vec<u8>| codec.decode(x)).unwrap();
    assert_eq!(b.tree.items.keys, loaded);
}

#[test]
fn deliveries_in_any_order_and_number_converge() {
    let codec = Codec::new();
    let mut a = Replica::new(DID, &codec);
    let mut batches = Vec::new();
    a.assert_anchor("pA", TYPE_PERSON, 1);
    batches.push(a.flush());
    a.assert_claim("pA", P_NAME, name_value("Ada"), 2);
    batches.push(a.flush());
    let doomed = a.tree.live_claims_of("pA", P_NAME, fold)[0].id.clone();
    a.remove(&doomed, 3);
    batches.push(a.flush());

    let mut forth = Replica::new("did:key:z6MkB", &codec);
    let mut back = Replica::new("did:key:z6MkB", &codec);
    for i in [0, 1, 2] {
        forth.merge(&batches[i], DID);
    }
    for i in [2, 0, 2, 1, 1, 0] {
        back.merge(&batches[i], DID);
    }
    assert_eq!(forth.tree.items.keys, back.tree.items.keys);
    assert_eq!(forth.tree.committers.items, back.tree.committers.items);
    assert_eq!(forth.tree.clock.last_millis, back.tree.clock.last_millis);
    assert_eq!(forth.project(), back.project());
    assert_eq!(forth.tree.oplog().len(), back.tree.oplog().len());
}
