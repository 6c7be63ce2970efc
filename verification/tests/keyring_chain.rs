//! The chain keyring: its documents, its judgement of successors, its transport and its verifier.

use openom::keyring_api::{EngineKind, MembershipEnvelope, VerifyError};
use openom::keyring_chain::blob_sync::{
    rev_key, BlobError, Countersigning, KeyringChainBlobSync, Precondition, Promotion, PullError, SyncError, HEAD,
};
use openom::keyring_chain::chain::{
    bootstrap_from_genesis, bootstrap_from_oob, decode_governing_ref, encode_governing_ref, verify_reset, verify_transition,
    verify_walk, EngineCall, EngineError, GoverningKeyring, KeyringAnchor, KeyringError, LinearAnchor,
};
use openom::keyring_chain::chain_verifier::ChainVerifier;
use openom::keyring_chain::doc::{
    payload_commit, structure, to_pk32, KeyringDoc, KeyringRole, Signer, MAX_EPOCHS, MAX_MEMBERS,
};
use openom::keyring_chain::keyring::{sign_keyring, verify_keyring, verify_keyring_any, SigError};
use openom::keyring_chain::wire::{
    Epoch, Keyring, KeyringSignature, Member, RecoveryKey, Wrap, WrapMethod, KEYRING_LAYOUT_VERSION,
    MAX_KEY_MATERIAL_BYTES, MEMBER_CO_OWNER, MEMBER_OWNER, WRAP_RRK_HPKE, WRAP_X25519_HPKE,
};
use sha2::Digest;
use std::cell::RefCell;
use std::collections::BTreeMap;

const TREE: &[u8] = b"tree-uuid-16byte";
const HPKE: i32 = WRAP_X25519_HPKE;
const RRK_HPKE: i32 = WRAP_RRK_HPKE;
const EDITOR: i32 = 4;

// ---- a stand-in for the signature scheme ----------------------------------------------------------

#[derive(Clone, Copy, PartialEq, Debug)]
struct Key([u8; 32]);

fn digest(parts: &[&[u8]]) -> [u8; 32] {
    let mut h = sha2::Sha256::new();
    for p in parts {
        h.update((p.len() as u64).to_le_bytes());
        h.update(p);
    }
    h.finalize().into()
}

fn sk(seed: u8) -> Key {
    Key([seed; 32])
}
fn pk32(k: &Key) -> [u8; 32] {
    digest(&[b"public", &k.0])
}
fn pubv(k: &Key) -> Vec<u8> {
    pk32(k).to_vec()
}

/// What a signature covers: what the engine reads of the keyring.
fn content(k: &Keyring) -> Vec<u8> {
    let d = KeyringDoc::new(k);
    let mut out = Vec::new();
    out.extend(&d.group_id);
    out.extend(d.revision.to_le_bytes());
    out.extend(d.prev_hash);
    out.extend(d.layout_version.to_le_bytes());
    for s in &d.members {
        out.extend(s.id.as_bytes());
        out.extend(s.role.0.to_le_bytes());
        out.extend(s.public_key);
    }
    out.extend(d.governance_kind.to_le_bytes());
    out.extend(d.governance_threshold.to_le_bytes());
    out.extend(d.recovery_authority.unwrap_or([0; 32]));
    out.extend(d.payload_commitment);
    out
}
fn keyring_hash(k: &Keyring) -> [u8; 32] {
    digest(&[b"hash", &content(k)])
}
fn signature(public: &[u8; 32], k: &Keyring) -> [u8; 64] {
    let h = digest(&[b"sig", public, &content(k)]);
    let mut out = [0u8; 64];
    out[..32].copy_from_slice(&h);
    out[32..].copy_from_slice(&h);
    out
}
fn check(k: &Keyring, public: &[u8; 32], sig: &[u8; 64]) -> bool {
    signature(public, k) == *sig
}
fn sign(k: &mut Keyring, key: &Key) {
    let public = pk32(key);
    sign_keyring(k, &public, &|k: &Keyring| signature(&public, k));
}
fn signed_by(k: &Keyring, public: &[u8; 32]) -> bool {
    verify_keyring(k, public, &check).is_ok()
}

// ---- a stand-in for the key-material codec --------------------------------------------------------

fn encode_wraps(wraps: &[Wrap]) -> Vec<u8> {
    let text: Vec<String> = wraps
        .iter()
        .map(|w| format!("{}={}", w.recipient, match w.method {
            WrapMethod::MemberHpke => "m",
            WrapMethod::RrkHpke => "r",
            WrapMethod::Kek => "k",
        }))
        .collect();
    text.join(",").into_bytes()
}
fn decode_wraps(bytes: &[u8]) -> Option<Vec<Wrap>> {
    let text = std::str::from_utf8(bytes).ok()?;
    let mut out = Vec::new();
    for part in text.split(',').filter(|p| !p.is_empty()) {
        let (recipient, m) = part.split_once('=')?;
        let method = match m {
            "m" => WrapMethod::MemberHpke,
            "r" => WrapMethod::RrkHpke,
            "k" => WrapMethod::Kek,
            _ => return None,
        };
        out.push(Wrap { recipient: recipient.to_string(), method });
    }
    Some(out)
}
fn encode_epochs(epochs: &[Epoch]) -> Vec<u8> {
    let parts: Vec<String> = epochs
        .iter()
        .map(|e| format!("{}:{}", e.ordinal, String::from_utf8(encode_wraps(&e.wraps)).unwrap()))
        .collect();
    parts.join(";").into_bytes()
}
fn decode_epochs(bytes: &[u8]) -> Option<Vec<Epoch>> {
    let text = std::str::from_utf8(bytes).ok()?;
    let mut out = Vec::new();
    for part in text.split(';').filter(|p| !p.is_empty()) {
        let (ordinal, wraps) = part.split_once(':')?;
        out.push(Epoch { ordinal: ordinal.parse().ok()?, wraps: decode_wraps(wraps.as_bytes())? });
    }
    Some(out)
}
fn epochs_of(k: &Keyring) -> Vec<Epoch> {
    k.key_material(decode_epochs(&k.epochs)).unwrap()
}
fn set_epochs(k: &mut Keyring, epochs: &[Epoch]) {
    k.epochs = encode_epochs(epochs);
}
fn push_wrap(k: &mut Keyring, w: Wrap) {
    let mut eps = epochs_of(k);
    eps[0].wraps.push(w);
    set_epochs(k, &eps);
}
fn wrap(id: &str, method: i32) -> Wrap {
    let method = if method == RRK_HPKE { WrapMethod::RrkHpke } else { WrapMethod::MemberHpke };
    Wrap { recipient: id.into(), method }
}

// ---- a stand-in for the linear engine -------------------------------------------------------------

fn well_built(k: &Keyring) -> Result<(), EngineError> {
    let escrow: Vec<bool> = k.recovery_keys.iter().map(|r| decode_wraps(&r.wraps).is_some()).collect();
    structure(k, &decode_epochs(&k.epochs), &escrow).map_err(EngineError::Structure)?;
    let mut ids: Vec<&str> = k.members.iter().map(|m| m.member_id.as_str()).collect();
    ids.sort();
    ids.dedup();
    if ids.len() != k.members.len() {
        return Err(EngineError::BadStructure("duplicate member id"));
    }
    if k.members.iter().filter(|m| m.role == MEMBER_OWNER).count() != 1 {
        return Err(EngineError::BadStructure("not exactly one founder"));
    }
    Ok(())
}
fn signers(k: &Keyring) -> Vec<Signer> {
    KeyringDoc::new(k).members.into_iter().filter(|s| s.role.is_signer()).collect()
}
fn linear(k: &Keyring) -> LinearAnchor {
    let d = KeyringDoc::new(k);
    LinearAnchor {
        group_id: d.group_id,
        revision: d.revision,
        doc_hash: keyring_hash(k),
        signers: signers(k),
        governance_kind: d.governance_kind,
        governance_threshold: d.governance_threshold,
        recovery_authority: d.recovery_authority,
    }
}
fn engine(call: &EngineCall, k: &Keyring) -> Result<LinearAnchor, EngineError> {
    match call {
        EngineCall::Transition(a) => {
            if a.group_id != k.tree_id {
                return Err(EngineError::GroupMismatch);
            }
            well_built(k)?;
            if k.revision != a.revision + 1 {
                return Err(EngineError::NonSequential);
            }
            if k.prev_keyring_hash != a.doc_hash {
                return Err(EngineError::Fork);
            }
            let now = linear(k);
            let by: Vec<&Signer> = a.signers.iter().filter(|s| signed_by(k, &s.public_key)).collect();
            let founder = by.iter().any(|s| s.role.is_founder());
            let privileged = now.signers != a.signers
                || now.governance_kind != a.governance_kind
                || now.governance_threshold != a.governance_threshold
                || now.recovery_authority != a.recovery_authority;
            if !privileged {
                return if by.is_empty() { Err(EngineError::UnendorsedOrdinaryChange) } else { Ok(now) };
            }
            let many = a.governance_kind == 2 && by.len() >= a.governance_threshold as usize;
            if founder || many {
                Ok(now)
            } else {
                Err(EngineError::UnendorsedSetChange)
            }
        }
        EngineCall::Genesis(key) => {
            well_built(k)?;
            if k.revision != 1 || !k.prev_keyring_hash.is_empty() || !signed_by(k, key) {
                return Err(EngineError::BadBootstrap);
            }
            Ok(linear(k))
        }
        EngineCall::Pinned { group_id, revision, hash } => {
            well_built(k)?;
            if *group_id != k.tree_id || *revision != k.revision || *hash != keyring_hash(k) {
                return Err(EngineError::BadBootstrap);
            }
            Ok(linear(k))
        }
        EngineCall::Reset(rvk) => {
            well_built(k)?;
            let founder = signers(k).into_iter().find(|s| s.role.is_founder());
            if !founder.is_some_and(|f| signed_by(k, &f.public_key)) {
                return Err(EngineError::BadBootstrap);
            }
            if let Some(r) = rvk {
                if linear(k).recovery_authority != Some(*r) || !signed_by(k, r) {
                    return Err(EngineError::BadBootstrap);
                }
            }
            Ok(linear(k))
        }
    }
}

// ---- fixtures -------------------------------------------------------------------------------------

fn keyed_member(k: &Key, id: &str, role: i32) -> Member {
    Member { member_id: id.into(), role, author_public_key: pubv(k), hpke_public_key: vec![9; 32] }
}
fn dummy_member(id: &str) -> Member {
    Member { member_id: id.into(), role: EDITOR, author_public_key: vec![7; 32], hpke_public_key: vec![9; 32] }
}
fn genesis(founder: &Key, co_owners: &[(&Key, &str)], plain: &[&str]) -> Keyring {
    let mut members = vec![keyed_member(founder, "owner", MEMBER_OWNER)];
    let mut wraps = vec![wrap("owner", RRK_HPKE)];
    for (k, id) in co_owners {
        members.push(keyed_member(k, id, MEMBER_CO_OWNER));
        wraps.push(wrap(id, HPKE));
    }
    for id in plain {
        members.push(dummy_member(id));
        wraps.push(wrap(id, HPKE));
    }
    let mut k = Keyring {
        tree_id: TREE.to_vec(),
        revision: 1,
        layout_version: 1,
        members,
        epochs: encode_epochs(&[Epoch { ordinal: 0, wraps }]),
        ..Default::default()
    };
    sign(&mut k, founder);
    k
}
fn next(prior: &Keyring, mutate: impl FnOnce(&mut Keyring), sign_with: &[&Key]) -> Keyring {
    let mut k = prior.clone();
    k.revision = prior.revision + 1;
    k.prev_keyring_hash = keyring_hash(prior).to_vec();
    mutate(&mut k);
    k.signatures.clear();
    for s in sign_with {
        sign(&mut k, s);
    }
    k
}
fn anchor(k: &Keyring) -> KeyringAnchor {
    KeyringAnchor::from_keyring(k, keyring_hash(k))
}
fn transition(a: &KeyringAnchor, k: &Keyring) -> Result<KeyringAnchor, KeyringError> {
    verify_transition(a, k, &engine)
}
fn reset(rvk: Option<&[u8]>, k: &Keyring) -> Result<KeyringAnchor, KeyringError> {
    verify_reset(rvk, k, &engine)
}
fn add_coowner(dk: &Key) -> impl FnOnce(&mut Keyring) + '_ {
    move |k: &mut Keyring| {
        k.members.push(keyed_member(dk, "d", MEMBER_CO_OWNER));
        push_wrap(k, wrap("d", HPKE));
    }
}
fn add_bob(k: &mut Keyring) {
    k.members.push(dummy_member("bob"));
    push_wrap(k, wrap("bob", HPKE));
}
fn recovery_key(rvk: Vec<u8>) -> RecoveryKey {
    RecoveryKey {
        public_key: vec![5; 32],
        member_id: "owner".into(),
        wraps: encode_wraps(&[]),
        recovery_verifying_key: rvk,
    }
}

// ---- judging successors ---------------------------------------------------------------------------

#[test]
fn first_shared_revision_is_monotonic_across_transitions() {
    let f = sk(1);
    let g = genesis(&f, &[], &[]);
    assert_eq!(anchor(&g).first_shared_revision, 0);

    let rev2 = next(&g, |k| k.first_shared_revision = 2, &[&f]);
    let anchor2 = transition(&anchor(&g), &rev2).unwrap();
    assert_eq!(anchor2.first_shared_revision, 2);

    let rev3_ok = next(&rev2, |_| {}, &[&f]);
    assert!(transition(&anchor2, &rev3_ok).is_ok());

    let rev3_clear = next(&rev2, |k| k.first_shared_revision = 0, &[&f]);
    assert!(matches!(transition(&anchor2, &rev3_clear), Err(KeyringError::FirstSharedRegressed)));

    let rev3_change = next(&rev2, |k| k.first_shared_revision = 3, &[&f]);
    assert!(matches!(transition(&anchor2, &rev3_change), Err(KeyringError::FirstSharedRegressed)));

    let bad_range = next(&g, |k| k.first_shared_revision = 5, &[&f]);
    assert!(matches!(transition(&anchor(&g), &bad_range), Err(KeyringError::FirstSharedRegressed)));
}

#[test]
fn verify_reset_rvk_gate_enforces_continuity_and_the_recovery_signature() {
    let rvk = sk(42);
    let rvk_pub = pubv(&rvk);
    let build = |pinned_rvk: Vec<u8>, rvk_co_signs: bool| -> Keyring {
        let f = sk(7);
        let mut k = genesis(&f, &[], &[]);
        k.recovery_keys = vec![recovery_key(pinned_rvk)];
        k.signatures.clear();
        sign(&mut k, &f);
        if rvk_co_signs {
            sign(&mut k, &rvk);
        }
        k
    };
    assert!(reset(Some(&rvk_pub), &build(rvk_pub.clone(), true)).is_ok());
    assert!(reset(Some(&rvk_pub), &build(rvk_pub.clone(), false)).is_err());
    let other = pubv(&sk(99));
    assert!(reset(Some(&rvk_pub), &build(other, true)).is_err());
    assert!(reset(None, &build(rvk_pub.clone(), false)).is_ok());
}

#[test]
fn an_out_of_range_epoch_ordinal_is_rejected() {
    let f = sk(1);
    let g = genesis(&f, &[], &[]);
    assert!(reset(None, &g).is_ok(), "honest genesis (epoch 0, len 1) is in range");
    let a = anchor(&g);
    let grind = |ordinal: u64| {
        next(
            &g,
            move |k| {
                let mut eps = epochs_of(k);
                eps[0].ordinal = ordinal;
                set_epochs(k, &eps);
            },
            &[&f],
        )
    };
    assert!(matches!(transition(&a, &grind(u64::MAX)), Err(KeyringError::BadStructure(_))));
    assert!(matches!(transition(&a, &grind(1u64 << 32)), Err(KeyringError::BadStructure(_))));
}

#[test]
fn an_rrk_wrap_addressed_to_a_non_founder_does_not_satisfy_completeness() {
    let f = sk(1);
    let mut g = genesis(&f, &[], &[]);
    let mut eps = epochs_of(&g);
    eps[0].wraps[0].recipient = "not-the-owner".into();
    set_epochs(&mut g, &eps);
    g.signatures.clear();
    sign(&mut g, &f);
    assert_eq!(reset(None, &g), Err(KeyringError::WrapIncomplete));
}

#[test]
fn bootstrap_from_genesis_requires_revision_1_and_empty_prev_hash() {
    let f = sk(1);
    let mut g = genesis(&f, &[], &[]);
    g.revision = 2;
    g.signatures.clear();
    sign(&mut g, &f);
    assert_eq!(bootstrap_from_genesis(&g, &pk32(&f), &engine), Err(KeyringError::BadBootstrap));
}

#[test]
fn a_layout_version_ahead_is_rejected_on_both_paths() {
    let f = sk(1);
    let g = genesis(&f, &[], &[]);
    let a = anchor(&g);
    let ahead = next(&g, |k| k.layout_version = KEYRING_LAYOUT_VERSION + 1, &[&f]);
    assert_eq!(transition(&a, &ahead), Err(KeyringError::LayoutAhead));

    let mut fresh = genesis(&f, &[], &[]);
    fresh.layout_version = KEYRING_LAYOUT_VERSION + 1;
    fresh.signatures.clear();
    sign(&mut fresh, &f);
    assert_eq!(reset(None, &fresh), Err(KeyringError::LayoutAhead));
}

#[test]
fn wrap_complete_requires_each_members_own_wrap_not_just_any_hpke_wrap() {
    let f = sk(1);
    let g = genesis(&f, &[], &["bob"]);
    let a = anchor(&g);
    let bad = next(
        &g,
        |k| {
            let mut eps = epochs_of(k);
            let w = eps[0].wraps.iter_mut().find(|w| w.recipient == "bob").unwrap();
            w.recipient = "carol".into();
            set_epochs(k, &eps);
        },
        &[&f],
    );
    assert_eq!(transition(&a, &bad), Err(KeyringError::WrapIncomplete));
}

#[test]
fn an_oversized_member_list_is_rejected() {
    let f = sk(1);
    let mut k = genesis(&f, &[], &[]);
    let d = dummy_member("x");
    while k.members.len() <= MAX_MEMBERS {
        k.members.push(d.clone());
    }
    assert_eq!(reset(None, &k), Err(KeyringError::BadStructure("list too large")));
}

#[test]
fn an_oversized_epoch_list_is_rejected() {
    let f = sk(1);
    let mut k = genesis(&f, &[], &[]);
    let mut eps = epochs_of(&k);
    let e = eps[0].clone();
    while eps.len() <= MAX_EPOCHS {
        eps.push(e.clone());
    }
    set_epochs(&mut k, &eps);
    assert_eq!(reset(None, &k), Err(KeyringError::BadStructure("list too large")));
}

#[test]
fn ordinary_change_by_a_prior_signer_is_accepted_by_a_stranger_rejected() {
    let f = sk(1);
    let g = genesis(&f, &[], &[]);
    let a = anchor(&g);
    let ok = next(&g, add_bob, &[&f]);
    assert_eq!(transition(&a, &ok).unwrap().revision, 2);
    let bad = next(&g, add_bob, &[&sk(77)]);
    assert_eq!(transition(&a, &bad), Err(KeyringError::UnendorsedOrdinaryChange));
}

#[test]
fn rollback_fork_and_gap_are_distinct_errors() {
    let f = sk(1);
    let g = genesis(&f, &[], &[]);
    let a = anchor(&g);

    let mut skip = g.clone();
    skip.revision = 3;
    skip.prev_keyring_hash = keyring_hash(&g).to_vec();
    skip.signatures.clear();
    sign(&mut skip, &f);
    assert_eq!(transition(&a, &skip), Err(KeyringError::NonSequential));

    let fork = next(&g, |k| k.prev_keyring_hash = vec![9; 32], &[&f]);
    assert_eq!(transition(&a, &fork), Err(KeyringError::Fork));
}

#[test]
fn wrap_incompleteness_and_double_founder_are_rejected() {
    let f = sk(1);
    let g = genesis(&f, &[], &[]);
    let a = anchor(&g);
    let no_wrap = next(&g, |k| k.members.push(dummy_member("bob")), &[&f]);
    assert_eq!(transition(&a, &no_wrap), Err(KeyringError::WrapIncomplete));

    let carol = sk(3);
    let two = next(
        &g,
        |k| {
            k.members.push(keyed_member(&carol, "carol", MEMBER_OWNER));
            push_wrap(k, wrap("carol", HPKE));
        },
        &[&f],
    );
    assert!(transition(&a, &two).is_err());
}

#[test]
fn verify_reset_accepts_a_genesis_and_a_reset_but_not_an_unsigned_one() {
    let f = sk(1);
    let g = genesis(&f, &[], &[]);
    assert_eq!(reset(None, &g).unwrap().revision, 1);

    let f2 = sk(2);
    let mut fresh = g.clone();
    fresh.revision = 5;
    fresh.prev_keyring_hash = vec![9; 32];
    fresh.members[0].author_public_key = pubv(&f2);
    fresh.signatures.clear();
    sign(&mut fresh, &f2);
    assert_eq!(reset(None, &fresh).unwrap().revision, 5);
    assert_eq!(transition(&anchor(&g), &fresh).unwrap_err(), KeyringError::NonSequential);

    let mut unsigned = g.clone();
    unsigned.signatures.clear();
    sign(&mut unsigned, &sk(88));
    assert_eq!(reset(None, &unsigned), Err(KeyringError::BadBootstrap));
}

#[test]
fn bootstrap_and_walk() {
    let f = sk(1);
    let g = genesis(&f, &[], &[]);
    let a = bootstrap_from_genesis(&g, &pk32(&f), &engine).unwrap();
    assert_eq!(a.revision, 1);
    assert!(bootstrap_from_genesis(&g, &pk32(&sk(50)), &engine).is_err());

    let h = keyring_hash(&g);
    bootstrap_from_oob(&g, TREE, 1, &h, &engine).unwrap();
    assert!(matches!(bootstrap_from_oob(&g, TREE, 1, &[0u8; 32], &engine), Err(KeyringError::BadBootstrap)));

    let c1 = next(&g, add_bob, &[&f]);
    let c2 = next(
        &c1,
        |k| {
            k.members.push(dummy_member("eve"));
            push_wrap(k, wrap("eve", HPKE));
        },
        &[&f],
    );
    assert_eq!(verify_walk(&a, &vec![c1.clone(), c2.clone()], &engine).unwrap().revision, 3);
    assert_eq!(verify_walk(&a, &vec![c2], &engine), Err(KeyringError::NonSequential));
}

#[test]
fn governing_keyring_mints_only_from_a_verified_chain() {
    let f = sk(1);
    let g = genesis(&f, &[], &[]);

    let gk = GoverningKeyring::from_genesis(g.clone(), &pk32(&f), &engine).unwrap();
    assert_eq!(gk.revision(), 1);
    assert_eq!(gk.anchor(keyring_hash(&g)), anchor(&g));
    assert!(GoverningKeyring::from_genesis(g.clone(), &pk32(&sk(50)), &engine).is_err());

    let a = anchor(&g);
    let ok = next(&g, add_bob, &[&f]);
    assert_eq!(GoverningKeyring::from_transition(&a, ok, &engine).unwrap().revision(), 2);
    let bad = next(&g, add_bob, &[&sk(50)]);
    assert_eq!(
        GoverningKeyring::from_transition(&a, bad, &engine).unwrap_err(),
        KeyringError::UnendorsedOrdinaryChange
    );
    assert_eq!(
        GoverningKeyring::from_oob(g.clone(), TREE, 1, &keyring_hash(&g), &engine).unwrap().revision(),
        1
    );
    assert_eq!(GoverningKeyring::from_reset(g, &engine).unwrap().revision(), 1);
}

#[test]
fn governing_ref_encodes_a_revision_and_round_trips() {
    for n in [0u32, 1, 255, 256, 65_536, u32::MAX] {
        assert_eq!(decode_governing_ref(&encode_governing_ref(n)), Some(n), "round-trip {n}");
    }
    assert_eq!(decode_governing_ref(&[1, 2, 3]), None);
    assert_eq!(decode_governing_ref(&[]), None);
    assert_eq!(decode_governing_ref(&[0, 0, 0, 1, 0]), None);
    assert_eq!(encode_governing_ref(258), vec![0, 0, 1, 2]);
    let f = sk(1);
    let gk = GoverningKeyring::from_genesis(genesis(&f, &[], &[]), &pk32(&f), &engine).unwrap();
    assert_eq!(gk.governing_ref(), encode_governing_ref(gk.revision()));
    assert_eq!(decode_governing_ref(&gk.governing_ref()), Some(gk.revision()));
}

#[test]
fn a_member_list_exactly_at_the_cap_is_accepted() {
    let f = sk(1);
    let mut k = genesis(&f, &[], &[]);
    let mut eps = epochs_of(&k);
    let mut i = 0usize;
    while k.members.len() < MAX_MEMBERS {
        let id = format!("m{i}");
        k.members.push(dummy_member(&id));
        eps[0].wraps.push(wrap(&id, HPKE));
        i += 1;
    }
    set_epochs(&mut k, &eps);
    k.signatures.clear();
    sign(&mut k, &f);
    assert_eq!(k.members.len(), MAX_MEMBERS);
    let escrow = Vec::new();
    assert_eq!(structure(&k, &decode_epochs(&k.epochs), &escrow), Ok(()));
}

#[test]
fn an_epoch_list_exactly_at_the_cap_is_accepted() {
    let f = sk(1);
    let mut k = genesis(&f, &[], &[]);
    let mut eps = epochs_of(&k);
    let e = eps[0].clone();
    while eps.len() < MAX_EPOCHS {
        eps.push(e.clone());
    }
    set_epochs(&mut k, &eps);
    k.signatures.clear();
    sign(&mut k, &f);
    assert_eq!(epochs_of(&k).len(), MAX_EPOCHS);
    assert!(reset(None, &k).is_ok());
}

#[test]
fn each_structural_fault_has_its_words() {
    let f = sk(1);
    let g = genesis(&f, &[], &[]);
    let none = Vec::new();
    assert_eq!(structure(&g, &None, &none), Err("key material malformed"));
    assert_eq!(structure(&g, &Some(vec![]), &none), Err("no epochs"));
    let mut short = g.clone();
    short.members[0].author_public_key = vec![1; 31];
    assert_eq!(structure(&short, &decode_epochs(&short.epochs), &none), Err("signer key malformed"));
    let mut escrowed = g.clone();
    escrowed.recovery_keys = vec![recovery_key(vec![])];
    assert_eq!(structure(&escrowed, &decode_epochs(&g.epochs), &vec![false]), Err("key material malformed"));
    assert_eq!(structure(&escrowed, &decode_epochs(&g.epochs), &vec![true]), Ok(()));
    let mut bulky = g.clone();
    bulky.epochs = vec![0; MAX_KEY_MATERIAL_BYTES + 1];
    assert_eq!(structure(&bulky, &decode_epochs(&g.epochs), &none), Err("key material malformed"));
    assert!(bulky.key_material(decode_epochs(&g.epochs)).is_err());
}

#[test]
fn refusals_are_put_in_words() {
    assert_eq!(KeyringError::BadStructure("no epochs").message(), "keyring is structurally invalid: no epochs");
    assert_eq!(
        KeyringError::Fork.message(),
        "prev_keyring_hash does not chain onto the anchor (fork / rewritten history)"
    );
}

// ---- the document ---------------------------------------------------------------------------------

#[test]
fn role_grants_at_least_orders_by_strength() {
    assert!(KeyringRole(1).grants_at_least(&KeyringRole(4)));
    assert!(!KeyringRole(4).grants_at_least(&KeyringRole(1)));
    assert!(KeyringRole(2).grants_at_least(&KeyringRole(2)));
}

#[test]
fn layout_version_accessor_reports_the_keyrings_value() {
    let k = Keyring { layout_version: 7, ..Default::default() };
    assert_eq!(KeyringDoc::new(&k).layout_version, 7);
}

#[test]
fn payload_commitment_binds_first_shared_revision() {
    let base = Keyring::default();
    let shared = Keyring { first_shared_revision: 5, ..Default::default() };
    assert_ne!(KeyringDoc::new(&base).payload_commitment, KeyringDoc::new(&shared).payload_commitment);
}

#[test]
fn a_payload_commitment_is_the_digest_of_its_parts() {
    let k = Keyring { first_shared_revision: 5, ..Default::default() };
    let again = payload_commit(&k);
    assert_eq!(KeyringDoc::new(&k).payload_commitment, again);
    let mut signed = k.clone();
    signed.signatures.push(KeyringSignature { signer_public_key: vec![1], signature: vec![2; 64] });
    assert_eq!(payload_commit(&signed), again);
}

#[test]
fn a_short_key_is_padded_with_zeros() {
    let mut want = [0u8; 32];
    want[0] = 7;
    assert_ne!(to_pk32(&[7; 32]), want);
    assert_eq!(to_pk32(&[7; 32]), [7; 32]);
}

#[test]
fn a_malformed_signature_is_passed_over() {
    let mut k = genesis(&sk(1), &[], &[]);
    k.signatures.push(KeyringSignature { signer_public_key: vec![], signature: vec![0; 10] });
    assert_eq!(KeyringDoc::new(&k).signatures.len(), 1);
}

// ---- the wire -------------------------------------------------------------------------------------

#[test]
fn max_key_material_bytes_is_four_mib() {
    assert_eq!(MAX_KEY_MATERIAL_BYTES, 4_194_304);
    assert_eq!(MAX_KEY_MATERIAL_BYTES, 4 * 1024 * 1024);
}

#[test]
fn escrow_wraps_decodes_the_recovery_key_wrap_blob() {
    let rk = RecoveryKey {
        public_key: vec![5; 32],
        member_id: "owner".into(),
        wraps: encode_wraps(&[wrap("owner", RRK_HPKE)]),
        recovery_verifying_key: vec![7; 32],
    };
    let decoded = rk.escrow_wraps(decode_wraps(&rk.wraps)).unwrap();
    assert_eq!(decoded.len(), 1);
    assert_eq!(decoded[0].recipient, "owner");
}

#[test]
fn keyrings_round_trip_through_their_bytes() {
    let f = sk(1);
    let mut k = genesis(&f, &[(&sk(2), "bob")], &["carol"]);
    k.recovery_keys = vec![recovery_key(vec![3; 32])];
    k.first_shared_revision = 9;
    k.governance_kind = 2;
    let bytes = k.encode_to_vec();
    assert_eq!(Keyring::decode(&bytes), Ok(k));
    assert!(Keyring::decode(&bytes[..bytes.len() - 1]).is_err());
    assert_eq!(Keyring::decode(&[]), Ok(Keyring::default()));
}

#[test]
fn a_member_has_the_bytes_of_its_fields() {
    let m = Member { member_id: "a".into(), role: 1, author_public_key: vec![9], hpke_public_key: vec![] };
    let bytes = m.encode_to_vec();
    assert_eq!(Member::decode(&bytes), Ok(m));
    assert!(bytes.windows(1).any(|w| w == b"a"));
}

// ---- signing --------------------------------------------------------------------------------------

fn sample_keyring() -> Keyring {
    Keyring {
        tree_id: vec![0x11; 16],
        revision: 1,
        layout_version: 1,
        members: vec![Member {
            member_id: "acct-1".into(),
            role: 1,
            author_public_key: vec![],
            hpke_public_key: vec![],
        }],
        epochs: encode_epochs(&[Epoch { ordinal: 0, wraps: vec![wrap("acct-1", HPKE)] }]),
        ..Default::default()
    }
}
fn verify(k: &Keyring, key: &Key) -> Result<(), SigError> {
    verify_keyring(k, &pk32(key), &check)
}

#[test]
fn sign_then_verify() {
    let id = sk(1);
    let mut kr = sample_keyring();
    kr.members[0].author_public_key = pubv(&id);
    sign(&mut kr, &id);
    assert_eq!(kr.signatures.len(), 1);
    assert_eq!(kr.signatures[0].signature.len(), 64);
    verify(&kr, &id).unwrap();
}

#[test]
fn wrong_key_rejected() {
    let mut kr = sample_keyring();
    sign(&mut kr, &sk(1));
    assert!(matches!(verify(&kr, &sk(2)), Err(SigError)));
}

#[test]
fn any_of_verifies_when_at_least_one_trusted_key_signed() {
    let (a, b) = (sk(1), sk(2));
    let mut kr = sample_keyring();
    sign(&mut kr, &b);
    let trusted = vec![pk32(&a), pk32(&b)];
    assert_eq!(verify_keyring_any(&kr, &trusted, &check).unwrap(), pk32(&b));

    let mut kr2 = sample_keyring();
    sign(&mut kr2, &sk(9));
    assert!(matches!(verify_keyring_any(&kr2, &trusted, &check), Err(SigError)));
}

#[test]
fn the_first_trusted_key_of_the_first_trusted_signature_is_found() {
    let (a, b, c) = (sk(1), sk(2), sk(3));
    let mut kr = sample_keyring();
    sign(&mut kr, &c);
    sign(&mut kr, &b);
    sign(&mut kr, &a);
    let find = |keys: &[&Key]| verify_keyring_any(&kr, &keys.iter().map(|k| pk32(k)).collect(), &check).unwrap();
    assert_eq!(find(&[&a, &b]), pk32(&b), "the earlier signature decides, not the earlier key");
    assert_eq!(find(&[&b, &a]), pk32(&b));
    assert_eq!(find(&[&a]), pk32(&a));

    let anything = |_: &Keyring, _: &[u8; 32], _: &[u8; 64]| true;
    let trusted = vec![pk32(&b), pk32(&a)];
    assert_eq!(verify_keyring_any(&kr, &trusted, &anything).unwrap(), pk32(&b), "of two keys the earlier is found");
}

#[test]
fn a_signature_still_verifies_after_further_ones() {
    let (a, b) = (sk(1), sk(2));
    let mut kr = sample_keyring();
    sign(&mut kr, &a);
    let before = kr.clone();
    sign(&mut kr, &b);
    sign(&mut kr, &a);
    verify(&kr, &a).unwrap();
    verify(&kr, &b).unwrap();
    assert_eq!(kr.signatures[..1], before.signatures[..]);
    assert_eq!(keyring_hash(&kr), keyring_hash(&before));
}

#[test]
fn a_lying_signer_public_key_hint_neither_helps_nor_misleads() {
    let real = sk(1);
    let mut kr = sample_keyring();
    sign(&mut kr, &real);
    kr.signatures[0].signer_public_key = vec![0x00; 32];
    verify(&kr, &real).unwrap();
}

#[test]
fn tampering_after_signing_is_detected() {
    let id = sk(1);
    let mut kr = sample_keyring();
    sign(&mut kr, &id);

    let mut rolled = kr.clone();
    rolled.revision = 2;
    assert!(matches!(verify(&rolled, &id), Err(SigError)));

    let mut swapped = kr.clone();
    let mut eps = epochs_of(&swapped);
    eps[0].wraps[0].method = WrapMethod::Kek;
    set_epochs(&mut swapped, &eps);
    assert!(matches!(verify(&swapped, &id), Err(SigError)));

    let mut escalated = kr.clone();
    escalated.members[0].role = 3;
    assert!(matches!(verify(&escalated, &id), Err(SigError)));
}

#[test]
fn malformed_signature_rejected() {
    let mut kr = sample_keyring();
    kr.signatures = vec![KeyringSignature { signer_public_key: vec![], signature: vec![0u8; 10] }];
    assert!(matches!(verify(&kr, &sk(1)), Err(SigError)));
}

#[test]
fn keyring_hash_changes_with_content_and_ignores_signatures() {
    let mut kr = sample_keyring();
    let h0 = keyring_hash(&kr);
    sign(&mut kr, &sk(1));
    assert_eq!(h0, keyring_hash(&kr), "signatures are excluded from the chain hash");
    kr.revision = 2;
    assert_ne!(h0, keyring_hash(&kr), "content changes the chain hash");
}

#[test]
fn payload_commitment_signs_and_verifies_round_trip() {
    let id = sk(1);
    let mut kr = sample_keyring();
    kr.members[0].author_public_key = pubv(&id);
    sign(&mut kr, &id);
    verify(&kr, &id).unwrap();

    let mut tampered = kr.clone();
    tampered.members[0].hpke_public_key = vec![0xAB; 32];
    assert!(
        matches!(verify(&tampered, &id), Err(SigError)),
        "a payload-only change is bound via payload_commitment"
    );

    sign(&mut tampered, &id);
    verify(&tampered, &id).unwrap();
}

// ---- transport ------------------------------------------------------------------------------------

struct Store {
    blobs: RefCell<BTreeMap<String, (Vec<u8>, u64)>>,
    tick: RefCell<u64>,
}

impl Store {
    fn new() -> Store {
        Store { blobs: RefCell::new(BTreeMap::new()), tick: RefCell::new(0) }
    }
    fn put(&self, key: &str, bytes: &[u8], when: &Precondition) -> Result<String, BlobError> {
        let mut blobs = self.blobs.borrow_mut();
        let held = blobs.get(key).map(|(_, t)| t.to_string());
        let fine = match when {
            Precondition::Any => true,
            Precondition::IfAbsent => held.is_none(),
            Precondition::IfMatch(tag) => held.as_deref() == Some(tag.as_str()),
        };
        if !fine {
            return Err(BlobError::PreconditionFailed("the tag has moved".to_string()));
        }
        *self.tick.borrow_mut() += 1;
        let tag = *self.tick.borrow();
        blobs.insert(key.to_string(), (bytes.to_vec(), tag));
        Ok(tag.to_string())
    }
    fn get(&self, key: &str) -> Result<Option<(Vec<u8>, String)>, BlobError> {
        Ok(self.blobs.borrow().get(key).map(|(b, t)| (b.clone(), t.to_string())))
    }
    fn delete(&self, key: &str) -> Result<(), BlobError> {
        self.blobs.borrow_mut().remove(key);
        Ok(())
    }
}

fn publish(s: &mut KeyringChainBlobSync, store: &Store, k: &Keyring) -> Result<(), SyncError> {
    s.publish(&k.encode_to_vec(), &|k: &str, b: &[u8], w: &Precondition| store.put(k, b, w), &keyring_hash)
}
fn pull(s: &mut KeyringChainBlobSync, store: &Store) -> Result<Option<Vec<u8>>, PullError> {
    s.pull(&|k: &str| store.get(k), &engine, &keyring_hash)
}
fn accept_reset(s: &mut KeyringChainBlobSync, store: &Store) -> Result<Vec<u8>, SyncError> {
    s.accept_reset(&|k: &str| store.get(k), &engine)
}
fn propose(s: &KeyringChainBlobSync, store: &Store, id: &str, bytes: &[u8]) -> Result<(), SyncError> {
    s.propose(id, bytes, &|k: &str, b: &[u8], w: &Precondition| store.put(k, b, w))
}
fn get_draft(s: &KeyringChainBlobSync, store: &Store, id: &str) -> Result<Option<Vec<u8>>, SyncError> {
    s.get_draft(id, &|k: &str| store.get(k))
}
fn countersign(
    s: &KeyringChainBlobSync,
    store: &Store,
    id: &str,
    reviewed: &Keyring,
    key: &Key,
) -> Result<Countersigning, SyncError> {
    let public = pk32(key);
    s.countersign(
        id,
        &reviewed.encode_to_vec(),
        &public,
        &|k: &str| store.get(k),
        &|k: &str, b: &[u8], w: &Precondition| store.put(k, b, w),
        &content,
        &|k: &Keyring| signature(&public, k),
    )
}
fn promote(s: &mut KeyringChainBlobSync, store: &Store, id: &str) -> Result<Promotion, SyncError> {
    s.promote(
        id,
        &|k: &str| store.get(k),
        &|k: &str, b: &[u8], w: &Precondition| store.put(k, b, w),
        &|k: &str| store.delete(k),
        &engine,
    )
}
fn overwrite_head(store: &Store, k: &Keyring) {
    store.put(HEAD, &k.encode_to_vec(), &Precondition::Any).unwrap();
}
fn solo(founder_seed: u8) -> Keyring {
    genesis(&sk(founder_seed), &[], &[])
}
fn solo_with_rvk(founder_seed: u8, rvk_seed: u8) -> Keyring {
    let mut g = solo(founder_seed);
    g.recovery_keys = vec![recovery_key(pubv(&sk(rvk_seed)))];
    g.signatures.clear();
    sign(&mut g, &sk(founder_seed));
    sign(&mut g, &sk(rvk_seed));
    g
}
fn with_editor(prior: &Keyring, editor_seed: u8, id: &str, founder_seed: u8) -> Keyring {
    next(
        prior,
        |k| {
            k.members.push(keyed_member(&sk(editor_seed), id, EDITOR));
            push_wrap(k, wrap(id, HPKE));
        },
        &[&sk(founder_seed)],
    )
}
fn reset_at(founder_seed: u8, rev: u32) -> Keyring {
    let mut r = solo(founder_seed);
    r.revision = rev;
    r.signatures.clear();
    sign(&mut r, &sk(founder_seed));
    r
}

#[test]
fn pull_bootstraps_then_reports_none_then_walks_a_multi_revision_advance() {
    let store = Store::new();
    let mut producer = KeyringChainBlobSync::new();
    let g = solo(1);
    publish(&mut producer, &store, &g).unwrap();

    let mut consumer = KeyringChainBlobSync::new();
    assert_eq!(pull(&mut consumer, &store).unwrap(), Some(g.encode_to_vec()));
    assert_eq!(consumer.revision(), Some(1));
    assert_eq!(pull(&mut consumer, &store).unwrap(), None);

    let r2 = with_editor(&g, 2, "e2", 1);
    let r3 = with_editor(&r2, 3, "e3", 1);
    publish(&mut producer, &store, &r2).unwrap();
    publish(&mut producer, &store, &r3).unwrap();
    assert!(store.get(&rev_key(2)).unwrap().is_some());
    assert_eq!(pull(&mut consumer, &store).unwrap(), Some(r3.encode_to_vec()));
    assert_eq!(consumer.revision(), Some(3));

    overwrite_head(&store, &g);
    assert!(matches!(pull(&mut consumer, &store), Err(PullError::Rollback { have: 3, served: 1 })));
}

#[test]
fn pull_surfaces_a_recovery_reset_as_reset_pending() {
    let store = Store::new();
    let mut producer = KeyringChainBlobSync::new();
    let g = solo(1);
    publish(&mut producer, &store, &g).unwrap();
    let mut consumer = KeyringChainBlobSync::new();
    pull(&mut consumer, &store).unwrap();

    let mut fresh = reset_at(9, 2);
    fresh.prev_keyring_hash = keyring_hash(&g).to_vec();
    fresh.signatures.clear();
    sign(&mut fresh, &sk(9));
    overwrite_head(&store, &fresh);
    assert!(matches!(pull(&mut consumer, &store), Err(PullError::ResetPending)));
}

#[test]
fn accept_reset_enforces_the_revision_watermark() {
    let store = Store::new();
    let mut producer = KeyringChainBlobSync::new();
    let g = solo(1);
    publish(&mut producer, &store, &g).unwrap();
    let mut consumer = KeyringChainBlobSync::new();
    pull(&mut consumer, &store).unwrap();
    publish(&mut producer, &store, &with_editor(&g, 2, "e2", 1)).unwrap();
    pull(&mut consumer, &store).unwrap();
    assert_eq!(consumer.revision(), Some(2));

    overwrite_head(&store, &reset_at(9, 1));
    assert!(accept_reset(&mut consumer, &store).is_err(), "a reset behind the watermark is refused");
    overwrite_head(&store, &reset_at(9, 2));
    assert!(accept_reset(&mut consumer, &store).is_ok(), "a reset at the watermark is accepted");
    overwrite_head(&store, &reset_at(8, 3));
    assert!(accept_reset(&mut consumer, &store).is_ok(), "a reset ahead of the watermark is accepted");
}

#[test]
fn accept_reset_enforces_the_prior_recovery_authority() {
    let store = Store::new();
    let mut producer = KeyringChainBlobSync::new();
    publish(&mut producer, &store, &solo_with_rvk(7, 42)).unwrap();
    let mut consumer = KeyringChainBlobSync::new();
    pull(&mut consumer, &store).unwrap();

    overwrite_head(&store, &reset_at(9, 1));
    assert!(
        accept_reset(&mut consumer, &store).is_err(),
        "an RVK-pinned anchor must reject a reset lacking the recovery authority"
    );
    overwrite_head(&store, &solo_with_rvk(9, 42));
    assert!(
        accept_reset(&mut consumer, &store).is_ok(),
        "a reset carrying and signed by the pinned RVK is accepted"
    );
}

#[test]
fn drafts_are_keyed_per_proposal_id() {
    let store = Store::new();
    let sync = KeyringChainBlobSync::new();
    let (a, b) = (solo(1).encode_to_vec(), solo(2).encode_to_vec());
    propose(&sync, &store, "p1", &a).unwrap();
    propose(&sync, &store, "p2", &b).unwrap();
    assert_eq!(get_draft(&sync, &store, "p1").unwrap(), Some(a.clone()));
    assert_eq!(get_draft(&sync, &store, "p2").unwrap(), Some(b));
    assert_eq!(propose(&sync, &store, "p1", &a), Err(SyncError::Conflict));
    let refused = propose(&sync, &store, "p3", &[0x18]).unwrap_err();
    assert_eq!(
        refused,
        SyncError::Decode("failed to decode Protobuf message: Keyring.revision: invalid varint".to_string())
    );
    assert_eq!(
        refused.message(),
        "keyring decode: failed to decode Protobuf message: Keyring.revision: invalid varint"
    );
}

#[test]
fn sync_and_pull_errors_render_human_readable_messages() {
    assert!(SyncError::Malformed("boom").message().contains("boom"));
    assert!(SyncError::Conflict.message().contains("concurrent"));
    assert_eq!(SyncError::Store(BlobError::Gone("reaped".to_string())).message(), "blob store: reaped");
    assert!(PullError::Rollback { have: 3, served: 1 }.message().contains('3'));
    assert!(PullError::ResetPending.message().contains("reset"));
}

#[test]
fn draft_exchange_collects_signatures_then_promotes() {
    let (founder, a, b, c, d) = (sk(1), sk(2), sk(3), sk(4), sk(5));
    let ring = genesis(&founder, &[(&a, "a"), (&b, "b"), (&c, "c")], &[]);
    let ruled = next(
        &ring,
        |key| {
            key.governance_kind = 2;
            key.governance_threshold = 2;
        },
        &[&founder],
    );

    let store = Store::new();
    let mut owner = KeyringChainBlobSync::new();
    publish(&mut owner, &store, &ring).unwrap();
    publish(&mut owner, &store, &ruled).unwrap();

    let candidate = next(&ruled, add_coowner(&d), &[&a]);
    propose(&owner, &store, "p1", &candidate.encode_to_vec()).unwrap();

    let mut promoter = KeyringChainBlobSync::new();
    promoter.bootstrap(&|k: &str| store.get(k), &engine).unwrap();
    assert_eq!(promote(&mut promoter, &store, "p1").unwrap(), Promotion::NotReady);

    assert_eq!(countersign(&owner, &store, "p1", &candidate, &b).unwrap(), Countersigning::Signed);
    assert_eq!(promote(&mut promoter, &store, "p1").unwrap(), Promotion::Promoted);
    assert_eq!(promoter.revision(), Some(candidate.revision));
    assert!(get_draft(&promoter, &store, "p1").unwrap().is_none());
}

#[test]
fn countersign_refuses_a_draft_swapped_since_review() {
    let (founder, a, b, d) = (sk(1), sk(2), sk(3), sk(5));
    let g = genesis(&founder, &[(&a, "a"), (&b, "b")], &[]);
    let ruled = next(
        &g,
        |k| {
            k.governance_kind = 2;
            k.governance_threshold = 2;
        },
        &[&founder],
    );

    let store = Store::new();
    let mut owner = KeyringChainBlobSync::new();
    publish(&mut owner, &store, &g).unwrap();
    publish(&mut owner, &store, &ruled).unwrap();

    let in_store = next(&ruled, add_coowner(&d), &[&a]);
    propose(&owner, &store, "p1", &in_store.encode_to_vec()).unwrap();

    let reviewed = next(&ruled, |k| k.governance_threshold = 1, &[&a]);
    assert!(matches!(countersign(&owner, &store, "p1", &reviewed, &b), Err(SyncError::DraftContentChanged)));

    let after = Keyring::decode(get_draft(&owner, &store, "p1").unwrap().unwrap().as_slice()).unwrap();
    assert_eq!(after.signatures.len(), 1);
}

#[test]
fn a_stale_draft_is_detected_not_corrupting() {
    let (founder, a, b, c, d) = (sk(1), sk(2), sk(3), sk(4), sk(5));
    let ring = genesis(&founder, &[(&a, "a"), (&b, "b"), (&c, "c")], &[]);
    let ruled = next(
        &ring,
        |key| {
            key.governance_kind = 2;
            key.governance_threshold = 2;
        },
        &[&founder],
    );
    let store = Store::new();
    let mut owner = KeyringChainBlobSync::new();
    publish(&mut owner, &store, &ring).unwrap();
    publish(&mut owner, &store, &ruled).unwrap();

    let candidate = next(&ruled, add_coowner(&d), &[&a, &b]);
    propose(&owner, &store, "p1", &candidate.encode_to_vec()).unwrap();

    let competing = next(&ruled, |k| k.members[1].role = EDITOR, &[&founder]);
    publish(&mut owner, &store, &competing).unwrap();

    assert_eq!(promote(&mut owner, &store, "p1").unwrap(), Promotion::Stale);
}

#[test]
fn a_head_that_moved_is_a_conflict() {
    let store = Store::new();
    let mut one = KeyringChainBlobSync::new();
    let mut two = KeyringChainBlobSync::new();
    let g = solo(1);
    publish(&mut one, &store, &g).unwrap();
    assert_eq!(publish(&mut two, &store, &g), Err(SyncError::Conflict));
    assert_eq!(promote(&mut KeyringChainBlobSync::new(), &store, "p"), Err(SyncError::Malformed("not bootstrapped")));
    assert_eq!(promote(&mut one, &store, "p"), Err(SyncError::Malformed("no such draft")));
}

// ---- the verifier ---------------------------------------------------------------------------------

fn env(k: &Keyring) -> Vec<u8> {
    MembershipEnvelope::wrap(EngineKind::Chain, k.encode_to_vec()).encode()
}
fn judge(prior: Option<&[u8]>, update: &[u8]) -> Result<openom::keyring_api::Admitted, VerifyError> {
    ChainVerifier.admit_update(prior, update, &engine, &keyring_hash, &|_: &[u8; 32]| true)
}

#[test]
fn chain_verifier_bootstraps_a_genesis_then_admits_a_transition() {
    let g = solo(1);
    let boot = judge(None, &env(&g)).unwrap();
    assert!(boot.changed);
    assert_eq!(boot.view.owner().unwrap().member_id, "owner");
    assert!(!boot.view.reset_boundary);

    let step = judge(Some(&boot.state), &env(&with_editor(&g, 3, "carol", 1))).unwrap();
    assert!(step.changed, "adding carol changes the view");
    assert!(step.view.members.iter().any(|m| m.member_id == "carol"));
    assert_eq!(step.tree_id, TREE);
    assert_eq!(step.update_ref, encode_governing_ref(2));
}

#[test]
fn chain_verifier_refuses_a_non_successor_and_flags_a_reset() {
    let g = solo(1);
    let boot = judge(None, &env(&g)).unwrap();

    assert_eq!(judge(Some(&boot.state), b"not a keyring").unwrap_err(), VerifyError::Malformed);

    let mut fresh = solo(7);
    fresh.revision = 2;
    fresh.prev_keyring_hash = keyring_hash(&g).to_vec();
    fresh.signatures.clear();
    sign(&mut fresh, &sk(7));
    let out = judge(Some(&boot.state), &env(&fresh)).unwrap();
    assert!(out.view.reset_boundary, "a re-founding is admitted as a reset");
    assert_eq!(out.view.owner().unwrap().author_public_key, pubv(&sk(7)), "owner re-keyed");

    let mut fork = solo(7);
    fork.revision = 2;
    fork.prev_keyring_hash = vec![0u8; 32];
    fork.signatures.clear();
    sign(&mut fork, &sk(7));
    assert_eq!(
        judge(Some(&boot.state), &env(&fork)).unwrap_err(),
        VerifyError::Rollback,
        "a fork is refused, never accepted as a reset"
    );
}

#[test]
fn reset_fallback_enforces_the_prior_recovery_authority() {
    let g = solo_with_rvk(1, 42);
    let boot = judge(None, &env(&g)).unwrap();
    let mut forged = solo(9);
    forged.revision = 2;
    forged.prev_keyring_hash = keyring_hash(&g).to_vec();
    forged.signatures.clear();
    sign(&mut forged, &sk(9));
    assert!(
        judge(Some(&boot.state), &env(&forged)).is_err(),
        "an RVK-pinned head must reject a reset lacking the recovery authority"
    );
}

#[test]
fn structural_faults_come_in_their_order() {
    let k = Keyring {
        layout_version: 1,
        members: vec![Member { member_id: "owner".into(), role: 1, author_public_key: vec![], hpke_public_key: vec![] }],
        epochs: encode_epochs(&[]),
        ..Default::default()
    };
    let none = Vec::new();
    assert_eq!(structure(&k, &decode_epochs(&k.epochs), &none), Err("no epochs"));
    let astray = vec![Epoch { ordinal: 1, wraps: vec![] }];
    assert_eq!(structure(&k, &Some(astray), &none), Err("epoch ordinal out of range"));
    let bare = vec![Epoch { ordinal: 0, wraps: vec![] }];
    assert_eq!(structure(&k, &Some(bare.clone()), &none), Err("signer key malformed"));
    let mut keyed = k.clone();
    keyed.members[0].author_public_key = vec![1; 32];
    assert_eq!(structure(&keyed, &Some(bare), &none), Err("wrap incomplete"));
}

#[test]
fn a_payload_commitment_tells_roles_apart() {
    let with_role = |role: i32| {
        let mut k = genesis(&sk(1), &[], &["bob"]);
        k.members[1].role = role;
        payload_commit(&k)
    };
    assert_ne!(with_role(-1), with_role(0));
    assert_ne!(with_role(-1), with_role(-2));
    assert_ne!(with_role(i32::MIN), with_role(i32::MAX));
    assert_eq!(with_role(-1), with_role(-1));
}

#[test]
fn a_shared_tree_is_not_unshared() {
    let f = sk(1);
    let g = genesis(&f, &[], &[]);
    let shared = next(&g, |k| k.first_shared_revision = 2, &[&f]);
    let private = next(&shared, |k| k.first_shared_revision = 0, &[&f]);
    assert!(reset(None, &private).is_ok(), "on its own terms it would stand");
    assert_eq!(judge(Some(&env(&shared)), &env(&private)).unwrap_err(), VerifyError::SharedRegressed);

    let mut refounded = genesis(&sk(7), &[], &[]);
    refounded.revision = 3;
    refounded.prev_keyring_hash = keyring_hash(&shared).to_vec();
    refounded.signatures.clear();
    sign(&mut refounded, &sk(7));
    assert_eq!(judge(Some(&env(&shared)), &env(&refounded)).unwrap_err(), VerifyError::SharedRegressed);
    refounded.first_shared_revision = 2;
    refounded.signatures.clear();
    sign(&mut refounded, &sk(7));
    assert!(judge(Some(&env(&shared)), &env(&refounded)).unwrap().view.reset_boundary);
}

#[test]
fn a_reordered_member_list_is_no_change() {
    let f = sk(1);
    let g = genesis(&f, &[], &["ann", "bob"]);
    let swapped = next(&g, |k| k.members.swap(1, 2), &[&f]);
    let out = judge(Some(&env(&g)), &env(&swapped)).unwrap();
    assert!(!out.changed);
    assert_eq!(out.view.members.iter().map(|m| m.member_id.as_str()).collect::<Vec<_>>(), ["ann", "bob", "owner"]);
}

#[test]
fn a_walk_may_be_made_in_two_runs() {
    let f = sk(1);
    let g = genesis(&f, &[], &[]);
    let c1 = next(&g, add_bob, &[&f]);
    let c2 = next(&c1, |k| k.governance_threshold = 0, &[&f]);
    let at_once = verify_walk(&anchor(&g), &vec![c1.clone(), c2.clone()], &engine).unwrap();
    let half = verify_walk(&anchor(&g), &vec![c1], &engine).unwrap();
    assert_eq!(verify_walk(&half, &vec![c2], &engine).unwrap(), at_once);
    assert_eq!(verify_walk(&half, &vec![], &engine).unwrap(), half);
}
