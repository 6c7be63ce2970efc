//! Sealing sessions, and the document log that uses them.

use openom::clock::Hlc;
use openom::keyring_chain::chain::encode_governing_ref;
use openom::projection::record::{Anchor, Claim, Record, Two, P_NAME, TYPE_PERSON};
use openom::projection::value::Value;
use openom::sealer::{
    Aead, EntryKind, Envelope, Format, Header, Key32, Kind, SealContext, SealOutcome, SealParams, Sealer, SealerError,
    SealerSet,
};
use openom::sorted::{SortedMap, SortedSet};
use openom::sync::{seal_context, to_entry_kind, LogKind, SealCtx, SealerAdapter, SyncTree};
use openom::tree::{ChannelItem, Op, OpKind, Tree, TreeError};
use sha2::Digest;
use std::cell::RefCell;
use std::collections::BTreeSet;

const VERSION: u32 = 1;

// ---- a stand-in for the cipher and its envelope ---------------------------------------------------

fn digest(parts: &[&[u8]]) -> [u8; 32] {
    let mut h = sha2::Sha256::new();
    for p in parts {
        h.update((p.len() as u64).to_le_bytes());
        h.update(p);
    }
    h.finalize().into()
}
fn hex(bytes: &[u8]) -> String {
    bytes.iter().map(|b| format!("{b:02x}")).collect()
}
fn unhex(s: &str) -> Vec<u8> {
    (0..s.len() / 2).map(|i| u8::from_str_radix(&s[2 * i..2 * i + 2], 16).unwrap()).collect()
}
fn mask(key: &Key32, bytes: &[u8]) -> Vec<u8> {
    bytes.iter().enumerate().map(|(i, b)| b ^ digest(&[b"stream", key, &[i as u8]])[0]).collect()
}

/// An envelope's fields.
struct Wire {
    fields: Vec<String>,
}

const KINDS: [Kind; 7] = [
    Kind::Unspecified,
    Kind::Snapshot,
    Kind::Delta,
    Kind::Media,
    Kind::Proposal,
    Kind::Cover,
    Kind::AppSecret,
];

impl Wire {
    fn read(bytes: &[u8]) -> Result<Wire, String> {
        let text = std::str::from_utf8(bytes).map_err(|e| e.to_string())?;
        let fields: Vec<String> = text.split('|').map(|s| s.to_string()).collect();
        if fields.len() == 13 && fields[12] == "end" {
            Ok(Wire { fields })
        } else {
            Err("no envelope".to_string())
        }
    }
    fn bytes(&self) -> Vec<u8> {
        self.fields.join("|").into_bytes()
    }
    fn kind(&self) -> &str {
        &self.fields[0]
    }
    fn format(&self) -> &str {
        &self.fields[1]
    }
    fn aead(&self) -> &str {
        &self.fields[2]
    }
    fn key_id(&self) -> Vec<u8> {
        unhex(&self.fields[3])
    }
    fn tree_id(&self) -> Vec<u8> {
        unhex(&self.fields[4])
    }
    fn prev(&self) -> Vec<u8> {
        unhex(&self.fields[5])
    }
    fn covers(&self) -> u64 {
        self.fields[6].parse().unwrap()
    }
    fn member(&self) -> &str {
        &self.fields[7]
    }
    fn governing_ref(&self) -> Vec<u8> {
        unhex(&self.fields[8])
    }
    fn signature(&self) -> &str {
        &self.fields[9]
    }
    fn ciphertext(&self) -> Vec<u8> {
        unhex(&self.fields[10])
    }
}

fn tag(key: &Key32, fields: &[String]) -> String {
    hex(&digest(&[b"tag", key, fields[..11].join("|").as_bytes()]))
}
fn read(bytes: &Vec<u8>) -> Result<Envelope, String> {
    let w = Wire::read(bytes)?;
    let kind = KINDS.iter().find(|k| format!("{k:?}") == w.kind()).copied();
    Ok(Envelope {
        header: Some(Header {
            tree_id: w.tree_id(),
            key_id: w.key_id(),
            kind,
            ciphertext_hash: digest(&[&w.ciphertext()]).to_vec(),
            covers_through_seq: w.covers(),
        }),
        encoded: bytes.clone(),
    })
}
fn lock(key: &Key32, p: &SealParams, plaintext: &Vec<u8>) -> Result<Envelope, String> {
    let (member, governing, signature) = match &p.author {
        Some(a) => (a.member_id.clone(), hex(&a.governing_ref), hex(&digest(&[b"by", &a.signing_key, plaintext]))),
        None => (String::new(), String::new(), String::new()),
    };
    let mut fields = vec![
        format!("{:?}", p.kind),
        format!("{:?}", p.format),
        format!("{:?}", p.aead),
        hex(&p.key_id),
        hex(&p.tree_id),
        hex(&p.prev_ciphertext_hash),
        p.covers_through_seq.to_string(),
        member,
        governing,
        signature,
        hex(&mask(key, plaintext)),
    ];
    fields.push(tag(key, &fields));
    fields.push("end".to_string());
    read(&Wire { fields }.bytes())
}
fn unlock(key: &Key32, env: &Envelope) -> Result<Vec<u8>, String> {
    let w = Wire::read(&env.encoded)?;
    if tag(key, &w.fields) != w.fields[11] {
        return Err("the tag does not match".to_string());
    }
    Ok(mask(key, &w.ciphertext()))
}

// ---- sealing sessions -----------------------------------------------------------------------------

fn sealer() -> Sealer {
    Sealer::from_unwrapped(VERSION, [3; 32], b"tree-uuid-16byte".to_vec(), b"epoch-0".to_vec(), b"replica-0".to_vec())
}
fn seal(s: &Sealer, ctx: &SealContext, plaintext: &[u8]) -> SealOutcome {
    s.seal_entry(ctx, &plaintext.to_vec(), &lock).unwrap()
}
fn open(s: &Sealer, expect: EntryKind, bytes: &Vec<u8>) -> Result<Vec<u8>, SealerError> {
    s.open_entry(expect, bytes, &read, &unlock)
}
fn delta() -> SealContext {
    SealContext { kind: EntryKind::Delta, format: Format::OpenomOps, ..SealContext::snapshot(1, Vec::new(), 0) }
}

#[test]
fn adopt_epochs_splices_a_new_write_epoch_and_moves_the_author() {
    let mut set = SealerSet::new(
        VERSION,
        b"tree-uuid-16byte".to_vec(),
        b"replica-0".to_vec(),
        vec![(b"epoch-0".to_vec(), [1; 32])],
        b"epoch-0".to_vec(),
    )
    .with_author([7u8; 32], "acct-bob".into(), b"gov-0".to_vec());

    let added = set.adopt_epochs(VERSION, vec![(b"epoch-1".to_vec(), [2; 32])], b"epoch-1".to_vec(), b"gov-1".to_vec());
    assert_eq!(added, 1, "one new epoch spliced in");

    let out = set.seal_entry(&SealContext::snapshot(1, Vec::new(), 0), &b"post-rotation".to_vec(), &lock).unwrap();
    let header = Wire::read(&out.envelope).unwrap();
    assert_eq!(header.key_id(), b"epoch-1", "seals under the adopted write epoch");
    assert!(!header.signature().is_empty(), "the author moved to the new write epoch");
    assert_eq!(header.governing_ref(), b"gov-1");
    assert_eq!(set.open_entry(EntryKind::Snapshot, &out.envelope, &read, &unlock).unwrap(), b"post-rotation");

    assert_eq!(
        set.adopt_epochs(VERSION, vec![(b"epoch-1".to_vec(), [2; 32])], b"epoch-1".to_vec(), b"gov-1".to_vec()),
        0,
        "re-adopting a held epoch is a no-op"
    );
}

#[test]
fn round_trips_a_snapshot() {
    let s = sealer();
    let out = seal(&s, &SealContext::snapshot(1, Vec::new(), 0), b"the family tree");
    assert!(!out.ciphertext_hash.is_empty());
    assert_eq!(open(&s, EntryKind::Snapshot, &out.envelope).unwrap(), b"the family tree");
}

#[test]
fn round_trips_a_delta_and_a_proposal() {
    let s = sealer();
    let out = seal(&s, &delta(), b"op-delta-bytes");
    assert_eq!(Wire::read(&out.envelope).unwrap().format(), "OpenomOps");
    assert_eq!(open(&s, EntryKind::Delta, &out.envelope).unwrap(), b"op-delta-bytes");

    let proposal = SealContext {
        kind: EntryKind::Proposal,
        format: Format::OpenomOps,
        ..SealContext::snapshot(2, out.ciphertext_hash.clone(), 0)
    };
    let pout = seal(&s, &proposal, b"proposal-op-bundle");
    assert_eq!(open(&s, EntryKind::Proposal, &pout.envelope).unwrap(), b"proposal-op-bundle");
    assert!(matches!(open(&s, EntryKind::Delta, &pout.envelope), Err(SealerError::WrongKind)));
}

#[test]
fn round_trips_an_app_secret_and_is_domain_separated() {
    let s = sealer();
    let out = seal(&s, &SealContext::app_secret(), b"s_mac_claim-bytes");
    assert_eq!(open(&s, EntryKind::AppSecret, &out.envelope).unwrap(), b"s_mac_claim-bytes");
    assert!(matches!(open(&s, EntryKind::Snapshot, &out.envelope), Err(SealerError::WrongKind)));
    assert!(matches!(open(&s, EntryKind::Media, &out.envelope), Err(SealerError::WrongKind)));
    let snap = seal(&s, &SealContext::snapshot(1, Vec::new(), 0), b"tree");
    assert!(matches!(open(&s, EntryKind::AppSecret, &snap.envelope), Err(SealerError::WrongKind)));
}

#[test]
fn with_author_signs_and_attributes_the_entry() {
    let s = sealer().with_author([5; 32], "m1".into(), encode_governing_ref(3));
    let out = seal(&s, &delta(), b"a change");
    let h = Wire::read(&out.envelope).unwrap();
    assert!(!h.signature().is_empty(), "an author-bearing sealer signs the entry");
    assert_eq!(h.member(), "m1");
    assert_eq!(h.governing_ref(), encode_governing_ref(3));
    let plain = seal(&sealer(), &delta(), b"a change").envelope;
    let h2 = Wire::read(&plain).unwrap();
    assert!(h2.signature().is_empty() && h2.member().is_empty() && h2.governing_ref().is_empty());
}

#[test]
fn returns_the_chain_hash_for_the_next_entry() {
    let s = sealer();
    let first = seal(&s, &SealContext::snapshot(1, Vec::new(), 0), b"a");
    let second = seal(&s, &SealContext::snapshot(2, first.ciphertext_hash.clone(), 1), b"b");
    assert_eq!(Wire::read(&second.envelope).unwrap().prev(), first.ciphertext_hash);
}

#[test]
fn rejects_a_blob_from_another_tree() {
    let a = sealer();
    let b = Sealer::from_unwrapped(
        VERSION,
        [4; 32],
        b"other-tree-16byt".to_vec(),
        b"epoch-0".to_vec(),
        b"replica-9".to_vec(),
    );
    let out = seal(&a, &SealContext::snapshot(1, Vec::new(), 0), b"secret");
    assert!(matches!(open(&b, EntryKind::Snapshot, &out.envelope), Err(SealerError::WrongScope)));
}

#[test]
fn rejects_the_wrong_kind() {
    let s = sealer();
    let out = seal(&s, &SealContext::snapshot(1, Vec::new(), 0), b"x");
    assert!(matches!(open(&s, EntryKind::Media, &out.envelope), Err(SealerError::WrongKind)));
}

#[test]
fn corrupted_ciphertext_fails_to_open() {
    let s = sealer();
    let mut out = seal(&s, &SealContext::snapshot(1, Vec::new(), 0), b"payload");
    let n = out.envelope.len();
    out.envelope[n - 1] ^= 0xFF;
    assert!(open(&s, EntryKind::Snapshot, &out.envelope).is_err());

    let mut changed = Wire::read(&seal(&s, &SealContext::snapshot(1, Vec::new(), 0), b"payload").envelope).unwrap();
    changed.fields[10] = "00".to_string();
    assert!(matches!(open(&s, EntryKind::Snapshot, &changed.bytes()), Err(SealerError::Crypto(_))));
}

#[test]
fn seals_under_aes_gcm_when_selected() {
    let s = sealer().with_aead(Aead::Aes256Gcm);
    let out = seal(&s, &SealContext::snapshot(1, Vec::new(), 0), b"aes path");
    assert_eq!(Wire::read(&out.envelope).unwrap().aead(), "Aes256Gcm");
    assert_eq!(open(&s, EntryKind::Snapshot, &out.envelope).unwrap(), b"aes path");
}

#[test]
fn kinds_go_out_and_come_back() {
    for k in [
        EntryKind::Snapshot,
        EntryKind::Delta,
        EntryKind::Media,
        EntryKind::Proposal,
        EntryKind::Cover,
        EntryKind::AppSecret,
    ] {
        assert_eq!(EntryKind::from_proto(k.to_proto()), Some(k));
    }
    assert_eq!(EntryKind::from_proto(Kind::Unspecified), None);
}

#[test]
fn each_refusal_to_open_has_its_cause() {
    let s = sealer();
    let mut set = SealerSet::single(sealer());
    let out = seal(&s, &SealContext::media(vec![8]), b"photo");
    assert_eq!(set.open_entry(EntryKind::Media, &out.envelope, &read, &unlock).unwrap(), b"photo");
    assert!(matches!(set.open_entry(EntryKind::Media, &b"junk".to_vec(), &read, &unlock), Err(SealerError::Decode(_))));
    let bare = Envelope { header: None, encoded: vec![] };
    assert_eq!(s.open_decoded(EntryKind::Media, &bare, &unlock), Err(SealerError::NoHeader));
    assert_eq!(set.open_decoded(EntryKind::Media, &bare, &unlock), Err(SealerError::NoHeader));

    let later = Sealer::from_unwrapped(VERSION, [9; 32], b"tree-uuid-16byte".to_vec(), b"epoch-9".to_vec(), vec![]);
    let ahead = seal(&later, &delta(), b"later");
    assert!(matches!(
        set.open_entry(EntryKind::Delta, &ahead.envelope, &read, &unlock),
        Err(SealerError::EpochUnreachable)
    ));
    assert!(matches!(open(&s, EntryKind::Delta, &ahead.envelope), Err(SealerError::WrongScope)));

    assert_eq!(set.adopt_epochs(VERSION, vec![(b"epoch-9".to_vec(), [9; 32])], b"epoch-9".to_vec(), vec![]), 1);
    assert_eq!(set.open_entry(EntryKind::Delta, &ahead.envelope, &read, &unlock).unwrap(), b"later");
    assert!(SealerError::Crypto("no".to_string()).message().contains("no"));
}

#[test]
fn an_unheld_write_epoch_cannot_seal() {
    let set = SealerSet::new(VERSION, b"t".to_vec(), b"r".to_vec(), vec![], b"epoch-0".to_vec());
    assert!(matches!(set.seal_entry(&delta(), &vec![], &lock), Err(SealerError::EpochUnreachable)));
}

// ---- the document log -----------------------------------------------------------------------------

#[test]
fn a_log_entry_is_sealed_as_what_it_is() {
    let ctx = |kind: LogKind| SealCtx { kind, replica_counter: 4, prev_ciphertext_hash: vec![6], covers_through_seq: 2 };
    let snapshot = seal_context(&ctx(LogKind::Snapshot));
    assert!(snapshot.kind == EntryKind::Snapshot && snapshot.format == Format::OpenomJson);
    let change = seal_context(&ctx(LogKind::Delta));
    assert!(change.kind == EntryKind::Delta && change.format == Format::OpenomOps);
    assert!(change.replica_counter == 4 && change.prev_ciphertext_hash == vec![6] && change.covers_through_seq == 2);
    let cover = seal_context(&ctx(LogKind::Cover));
    assert!(cover.kind == EntryKind::Cover && cover.format == Format::OpenomOps);
    assert_eq!(to_entry_kind(LogKind::Cover), EntryKind::Cover);
}

#[test]
fn media_and_proposals_stay_off_the_log() {
    let adapter = SealerAdapter { set: SealerSet::single(sealer()) };
    let media = adapter.seal_media(&vec![1, 2], &b"photo".to_vec(), &lock).unwrap();
    assert_eq!(adapter.open_media(&media, &read, &unlock).unwrap(), b"photo");
    let proposal = adapter.seal_proposal(&b"batch".to_vec(), &lock).unwrap();
    assert_eq!(adapter.open_proposal(&proposal, &read, &unlock).unwrap(), b"batch");
    assert!(matches!(adapter.open_media(&proposal, &read, &unlock), Err(SealerError::WrongKind)));
    assert!(matches!(adapter.open(LogKind::Delta, &proposal, &read, &unlock), Err(SealerError::WrongKind)));
}

#[test]
fn a_snapshot_tells_how_far_it_covers() {
    let adapter = SealerAdapter { set: SealerSet::single(sealer()) };
    let ctx = SealCtx { kind: LogKind::Snapshot, replica_counter: 1, prev_ciphertext_hash: vec![], covers_through_seq: 7 };
    let out = adapter.seal(&ctx, &b"state".to_vec(), &lock).unwrap();
    assert_eq!(adapter.covers_through_seq(&out.envelope, &read), 7);
    assert_eq!(adapter.covers_through_seq(&b"junk".to_vec(), &read), 0);
    assert_eq!(adapter.open(LogKind::Snapshot, &out.envelope, &read, &unlock).unwrap(), b"state");
}

const DEVICE: &str = "did:key:z6MkDevice";

/// A shared log of envelopes, and the batches under numbers.
struct Shared {
    log: RefCell<Vec<(String, Vec<u8>)>>,
    batches: RefCell<Vec<Vec<ChannelItem>>>,
}

impl Shared {
    fn new() -> Shared {
        Shared { log: RefCell::new(vec![]), batches: RefCell::new(vec![]) }
    }
    fn encode(&self, items: &Vec<ChannelItem>) -> Result<Vec<u8>, TreeError> {
        let mut batches = self.batches.borrow_mut();
        batches.push(items.iter().map(|i| i.duplicate()).collect());
        Ok(vec![batches.len() as u8])
    }
    fn decode(&self, bytes: &Vec<u8>) -> Result<Vec<ChannelItem>, TreeError> {
        let batches = self.batches.borrow();
        let batch = bytes.first().and_then(|n| batches.get(*n as usize - 1));
        batch.map(|b| b.iter().map(|i| i.duplicate()).collect()).ok_or(TreeError::Codec("no such batch".to_string()))
    }
}

struct Client<'a> {
    replica: String,
    tree: SyncTree,
    sealer: SealerAdapter,
    shared: &'a Shared,
    counter: u64,
    prev: Vec<u8>,
    seen: usize,
    quarantined: usize,
}

impl<'a> Client<'a> {
    fn new(replica: &str, dek: Key32, shared: &'a Shared) -> Client<'a> {
        let s = Sealer::from_unwrapped(
            VERSION,
            dek,
            b"tree-uuid-16byte".to_vec(),
            b"epoch-0".to_vec(),
            replica.as_bytes().to_vec(),
        );
        Client {
            replica: replica.to_string(),
            tree: SyncTree { tree: Tree::new(DEVICE.to_string()) },
            sealer: SealerAdapter { set: SealerSet::single(s) },
            shared,
            counter: 0,
            prev: vec![],
            seen: 0,
            quarantined: 0,
        }
    }
    fn apply(&mut self, edit: Vec<ChannelItem>) {
        let shared = self.shared;
        let bytes = self.tree.apply_local(&edit, |b: &Vec<ChannelItem>| shared.encode(b)).unwrap();
        if bytes.is_empty() {
            return;
        }
        self.counter += 1;
        let ctx = SealCtx {
            kind: LogKind::Delta,
            replica_counter: self.counter,
            prev_ciphertext_hash: self.prev.clone(),
            covers_through_seq: 0,
        };
        let out = self.sealer.seal(&ctx, &bytes, &lock).unwrap();
        self.prev = out.ciphertext_hash;
        shared.log.borrow_mut().push((self.replica.clone(), out.envelope));
    }
    fn pull(&mut self) -> usize {
        let shared = self.shared;
        let mut merged = 0;
        let log = shared.log.borrow();
        for (from, envelope) in log.iter().skip(self.seen) {
            self.seen += 1;
            if *from == self.replica {
                continue;
            }
            match self.sealer.open(LogKind::Delta, envelope, &read, &unlock) {
                Ok(batch) => {
                    let author = self.tree.author().to_string();
                    self.tree.merge(&batch, &author, |b: &Vec<u8>| shared.decode(b)).unwrap();
                    merged += 1;
                }
                Err(_) => self.quarantined += 1,
            }
        }
        merged
    }
    fn live(&self) -> BTreeSet<String> {
        self.tree.tree.live_records(fold).iter().map(|r| r.id().clone()).collect()
    }
}

fn fold(items: &SortedMap<String, ChannelItem>, committers: &SortedSet<Two>, moderators: &SortedSet<String>) -> Vec<Record> {
    let removed: BTreeSet<&String> = items
        .values
        .iter()
        .filter_map(|i| match i {
            ChannelItem::Op(op) if committers.items.iter().any(|(id, who)| *id == op.id && moderators.contains(who)) => {
                match &op.kind {
                    OpKind::Remove { target } => Some(target),
                    _ => None,
                }
            }
            _ => None,
        })
        .collect();
    items
        .values
        .iter()
        .filter_map(|i| match i {
            ChannelItem::Assert(r) if !removed.contains(r.id()) => Some(r.duplicate()),
            _ => None,
        })
        .collect()
}

fn hlc(millis: i64) -> Hlc {
    Hlc { millis, logical: 0 }
}
fn person(id: &str, author: &str) -> ChannelItem {
    ChannelItem::Assert(Record::Anchor(Anchor {
        id: id.to_string(),
        type_uri: TYPE_PERSON.to_string(),
        created_by: author.to_string(),
        created_at: hlc(1),
    }))
}
fn name_claim(target: &str, given: &str, author: &str, at: i64) -> ChannelItem {
    ChannelItem::Assert(Record::Claim(Claim {
        id: format!("claim:{target}:{given}:{author}:{at}"),
        predicate: P_NAME.to_string(),
        target_id: target.to_string(),
        value: Value::Object(vec![("given".to_string(), Value::Text(given.to_string()))]),
        created_by: author.to_string(),
        created_at: hlc(at),
        citation: None,
        fingerprint: None,
        name_ref: None,
        rest: Value::Null,
    }))
}
fn remove(target: &ChannelItem, author: &str) -> ChannelItem {
    ChannelItem::Op(Op {
        id: format!("remove:{}:{author}", target.id()),
        created_by: author.to_string(),
        created_at: hlc(2),
        kind: OpKind::Remove { target: target.id().clone() },
    })
}
fn set(items: &[&ChannelItem]) -> BTreeSet<String> {
    items.iter().map(|i| i.id().clone()).collect()
}

#[test]
fn blob_two_devices_converge_through_the_claim_stack() {
    let shared = Shared::new();
    let mut a = Client::new("replica-a", [1; 32], &shared);
    let mut b = Client::new("replica-b", [1; 32], &shared);
    let pa = person("pA", "did:key:z6MkA");
    let na = name_claim("pA", "Ada", "did:key:z6MkA", 1);
    let nb = name_claim("pA", "Ada Lovelace", "did:key:z6MkB", 2);
    a.apply(vec![pa.duplicate(), na.duplicate()]);
    b.apply(vec![nb.duplicate()]);
    a.pull();
    b.pull();
    assert_eq!(a.live(), b.live(), "both devices converge over the blob seam");
    assert_eq!(a.live(), set(&[&pa, &na, &nb]));
}

#[test]
fn blob_a_moderator_remove_syncs_and_drops_the_record() {
    let shared = Shared::new();
    let mut a = Client::new("replica-a", [1; 32], &shared);
    let mut b = Client::new("replica-b", [1; 32], &shared);
    for c in [&mut a, &mut b] {
        let mut moderators = SortedSet::new();
        moderators.insert(DEVICE.to_string());
        c.tree.tree.set_moderators(moderators);
    }
    let na = name_claim("pA", "Ada", "did:key:z6MkA", 1);
    a.apply(vec![na.duplicate()]);
    b.pull();
    assert_eq!(b.live(), set(&[&na]));
    a.apply(vec![remove(&na, DEVICE)]);
    b.pull();
    assert!(b.live().is_empty(), "the remove propagated");
    assert!(a.live().is_empty());
}

#[test]
fn blob_a_wrong_key_quarantines_instead_of_wedging() {
    let shared = Shared::new();
    let mut a = Client::new("replica-a", [1; 32], &shared);
    a.apply(vec![name_claim("pA", "Ada", "did:key:z6MkA", 1)]);
    let mut intruder = Client::new("replica-x", [2; 32], &shared);
    assert_eq!(intruder.pull(), 0, "a wrong DEK merges nothing");
    assert!(intruder.live().is_empty(), "the wrong key reveals no data");
    assert!(intruder.quarantined >= 1, "the unopenable object is quarantined, not fatal");
}

#[test]
fn an_empty_edit_is_no_delta() {
    let mut tree = SyncTree { tree: Tree::new(DEVICE.to_string()) };
    let refuse = |_: &Vec<ChannelItem>| Err(TreeError::Codec("unreadable".to_string()));
    assert_eq!(tree.apply_local(&vec![], refuse), Ok(vec![]));
    assert!(tree.apply_local(&vec![person("p", DEVICE)], refuse).is_err());
    assert!(tree.tree.oplog().is_empty());
}
