//! The DAG keyring: who may do what, quorums, the client's anchor, compaction, transport and the verifiers.

use openom::keyring_api::{
    derive_member_id, VerifyError, ROLE_CO_OWNER, ROLE_EDITOR, ROLE_MAINTAINER, ROLE_OWNER, ROLE_VIEWER,
};
use openom::keyring_dag::access::{
    KeyringAccess, KeyringAction, KeyringMemberInit, KeyringOp, KeyringRole, KeyringState, MemberState,
};
use openom::keyring_dag::anchor::{
    anchor_pin, append, append_add, append_backfill, append_change_role, append_refound, append_remove, append_reseal,
    append_retarget, append_rotate_recovery, check_floor, check_floor_length, hex32, merge, provision_anchor, watermark,
    ClientError, DagAnchor, DagPin, OpDraft, StoredOp,
};
use openom::keyring_dag::anchor_verifier::{unwrap, wrap, DagAnchorVerifier};
use openom::keyring_dag::blob_sync::{op_key, KeyringBlobSync, PullReport, PutOutcome};
use openom::keyring_dag::checkpoint::{
    push_opt_hash, Checkpoint, GroupStateView, SealingEntry, SealingOrigin, SignedCheckpoint,
};
use openom::keyring_dag::codec::{
    copy_op, dto_to_op, frame_body, minit_to_dto, op_to_dto, sig64, unframe_body, BlobSyncError,
};
use openom::keyring_dag::compact::{compact, compact_to_checkpoint, pre_cut};
use openom::keyring_dag::mint;
use openom::keyring_dag::op_verifier::{
    bootstrap_update, op_update, AdmitRun, ApplyReport, DagAdmitted, DagTrustState, DagVerifier, Update,
};
use openom::keyring_dag::quorum::{KeyringQuorum, Requirement};
use openom::keyring_dag::recovery::{derive_rvk, rvk_public};
use openom::keyring_dag::resolve::{accept_remote_anchor, resolve, verify_anchor, EngineBase, EngineRun, Resolved};
use sha2::Digest;
use std::cell::RefCell;
use std::collections::{BTreeMap, BTreeSet};

const OWNER: KeyringRole = KeyringRole(ROLE_OWNER);
const CO_OWNER: KeyringRole = KeyringRole(ROLE_CO_OWNER);
const MAINTAINER: KeyringRole = KeyringRole(ROLE_MAINTAINER);
const EDITOR: KeyringRole = KeyringRole(ROLE_EDITOR);
const VIEWER: KeyringRole = KeyringRole(ROLE_VIEWER);

// ---- a stand-in for the signature scheme ----------------------------------------------------------

fn digest(parts: &[&[u8]]) -> [u8; 32] {
    let mut h = sha2::Sha256::new();
    for p in parts {
        h.update((p.len() as u64).to_le_bytes());
        h.update(p);
    }
    h.finalize().into()
}

/// A signing key.
#[derive(Clone, Copy)]
struct Key([u8; 32]);

fn sk(seed: u8) -> Key {
    Key([seed; 32])
}
fn derive(secret: &[u8; 32], label: &[u8]) -> Key {
    Key(digest(&[b"derive", secret, label]))
}
fn recovery(seed: u8) -> Key {
    derive_rvk(&[seed; 32], &derive)
}
fn public(key: &Key) -> [u8; 32] {
    digest(&[b"public", &key.0])
}
fn vk(seed: u8) -> [u8; 32] {
    public(&sk(seed))
}
fn mid(seed: u8) -> String {
    derive_member_id(&vk(seed))
}
fn canonical(group: &[u8], parents: &[[u8; 32]], author: &str, action: &KeyringAction, sealing: &[u8]) -> Vec<u8> {
    format!("{group:?} {parents:?} {author:?} {action:?} {sealing:?}").into_bytes()
}
fn signature(by: &[u8; 32], bytes: &[u8]) -> [u8; 64] {
    let h = digest(&[b"signature", by, bytes]);
    let mut out = [0u8; 64];
    out[..32].copy_from_slice(&h);
    out
}
fn op_bytes(op: &KeyringOp) -> Vec<u8> {
    canonical(&op.group_id, &op.parents, &op.author, &op.action, &op.sealing)
}
fn signature_holds(op: &KeyringOp) -> bool {
    signature(&op.author_public_key, &op_bytes(op)) == op.signature
}
fn content_id(op: &KeyringOp) -> [u8; 32] {
    digest(&[&op_bytes(op), &op.signature, &op.author_public_key])
}
fn draft_bytes(d: &OpDraft) -> Vec<u8> {
    canonical(&d.group_id, &d.parents, &d.author, &d.action, &d.sealing)
}
fn sign_op(id: [u8; 32], parents: Vec<[u8; 32]>, author: impl Into<String>, action: KeyringAction, key: &Key) -> KeyringOp {
    let by = public(key);
    mint::sign_op(id, parents, author.into(), action, by, &draft_bytes, &|b: &Vec<u8>| signature(&by, b))
}
fn minter(key: Key) -> impl Fn(&OpDraft) -> StoredOp {
    let by = public(&key);
    move |d: &OpDraft| mint::mint(d, by, &draft_bytes, &|b: &Vec<u8>| signature(&by, b), &content_id)
}

// ---- a stand-in for the op engine -----------------------------------------------------------------

#[derive(Clone)]
struct Group {
    id: Vec<u8>,
    members: BTreeMap<String, MemberState>,
    reset: Option<[u8; 32]>,
    shared: bool,
}

impl Group {
    fn of(id: &[u8], members: &[KeyringMemberInit], reset: Option<[u8; 32]>) -> Group {
        let mut g = Group { id: id.to_vec(), members: BTreeMap::new(), reset, shared: members.len() > 1 };
        for m in members {
            g.seed(m);
        }
        g
    }
    fn seed(&mut self, m: &KeyringMemberInit) {
        self.members.insert(
            m.id.clone(),
            MemberState {
                role: m.role,
                member_counter: 0,
                access_counter: 0,
                author_public_key: m.author_public_key,
                hpke_public_key: m.hpke_public_key,
            },
        );
    }
    fn state(&self) -> KeyringState {
        let mut s = KeyringState::empty(self.id.clone(), self.reset);
        for (id, m) in &self.members {
            s.members.insert(id.clone(), *m);
        }
        s
    }
    fn holds_key(&self, author: &str, key: &[u8; 32]) -> bool {
        self.members.get(author).is_some_and(|m| m.is_active() && m.author_public_key == *key)
    }
    fn perform(&mut self, action: &KeyringAction) {
        match action {
            KeyringAction::Create { initial_members } => {
                for m in initial_members {
                    self.seed(m);
                }
            }
            KeyringAction::Add { member, role, author_public_key, hpke_public_key, .. } => {
                self.shared = true;
                let counter = self.members.get(member).map_or(0, |m| m.member_counter + m.member_counter % 2);
                self.members.insert(
                    member.clone(),
                    MemberState {
                        role: *role,
                        member_counter: counter,
                        access_counter: 0,
                        author_public_key: *author_public_key,
                        hpke_public_key: *hpke_public_key,
                    },
                );
            }
            KeyringAction::Remove { member } => {
                if let Some(m) = self.members.get_mut(member) {
                    m.member_counter += (m.member_counter + 1) % 2;
                }
            }
            KeyringAction::ChangeRole { member, new_role } => {
                if let Some(m) = self.members.get_mut(member) {
                    m.role = *new_role;
                    m.access_counter += 1;
                }
            }
            KeyringAction::ReFound { member, new_author_public_key, new_hpke_public_key, .. }
            | KeyringAction::Retarget { member, new_author_public_key, new_hpke_public_key } => {
                if let Some(m) = self.members.get_mut(member) {
                    m.author_public_key = *new_author_public_key;
                    m.hpke_public_key = *new_hpke_public_key;
                }
            }
            KeyringAction::RotateRecoveryAuthority { new_reset_authority } => self.reset = Some(*new_reset_authority),
            _ => {}
        }
    }
}

fn met(requirement: &Requirement, approvals: &BTreeSet<String>) -> bool {
    match requirement {
        Requirement::Sole(m) => approvals.contains(m),
        Requirement::All(s) => s.items.len() > 0 && s.items.iter().all(|m| approvals.contains(m)),
        Requirement::Threshold(n, s) => s.items.iter().filter(|m| approvals.contains(*m)).count() >= *n,
        Requirement::Either(a, b) => met(a, approvals) || met(b, approvals),
    }
}

/// How ops are judged: with member ids that must certify their keys or without, and with a quorum or without.
#[derive(Clone, Copy)]
struct Rules {
    strict: bool,
    quorum: Option<KeyringQuorum>,
}

const STRICT: Rules = Rules { strict: true, quorum: None };
const LENIENT: Rules = Rules { strict: false, quorum: None };

/// What a run over ops comes to.
struct Folded {
    group: Group,
    effective: Vec<[u8; 32]>,
    authorized: BTreeMap<[u8; 32], bool>,
    depths: Vec<([u8; 32], u64)>,
}

fn ancestors(ops: &BTreeMap<[u8; 32], &KeyringOp>, op: &KeyringOp) -> BTreeSet<[u8; 32]> {
    let mut seen = BTreeSet::new();
    let mut stack = op.parents.clone();
    while let Some(p) = stack.pop() {
        if seen.insert(p) {
            if let Some(o) = ops.get(&p) {
                stack.extend(o.parents.iter());
            }
        }
    }
    seen
}

fn proposal<'a>(
    ops: &BTreeMap<[u8; 32], &'a KeyringOp>,
    above: &BTreeSet<[u8; 32]>,
    id: &[u8; 32],
) -> Option<(&'a KeyringOp, &'a KeyringAction)> {
    above.iter().filter_map(|a| ops.get(a)).find_map(|o| match &o.action {
        KeyringAction::Propose { proposal_id, target } if proposal_id == id => Some((*o, &**target)),
        _ => None,
    })
}

fn may(rules: Rules, at: &Group, ops: &BTreeMap<[u8; 32], &KeyringOp>, op: &KeyringOp) -> bool {
    let state = at.state();
    let keyed = at.holds_key(&op.author, &op.author_public_key);
    match &op.action {
        KeyringAction::Create { initial_members } => {
            initial_members.iter().any(|m| m.id == op.author && m.author_public_key == op.author_public_key)
                && KeyringAccess.is_authorized(&state, &op.author, &op.action)
        }
        KeyringAction::ReFound { member, .. } => {
            at.reset == Some(op.author_public_key) && at.members.get(member).is_some_and(|m| m.role.is_owner())
        }
        KeyringAction::RotateRecoveryAuthority { .. } => {
            keyed && at.members.get(&op.author).is_some_and(|m| m.role.is_owner())
        }
        KeyringAction::Retarget { member, .. } => keyed && *member == op.author,
        KeyringAction::Commit { proposal_id } => {
            let above = ancestors(ops, op);
            let Some(quorum) = rules.quorum else { return false };
            let Some((by, target)) = proposal(ops, &above, proposal_id) else { return false };
            let eligible = quorum.eligible(&state, target);
            let mut approvals = BTreeSet::new();
            let approvers = above.iter().filter_map(|a| ops.get(a)).filter(|o| {
                o.id == by.id || matches!(&o.action, KeyringAction::Approve { proposal_id: p } if p == proposal_id)
            });
            for o in approvers {
                if eligible.items.contains(&o.author) && at.holds_key(&o.author, &o.author_public_key) {
                    approvals.insert(o.author.clone());
                }
            }
            keyed && met(&quorum.requirement(&state, target), &approvals)
        }
        KeyringAction::Add { role, author_public_key, hpke_public_key, .. } if !rules.strict => {
            let certified = KeyringAction::Add {
                member: derive_member_id(author_public_key),
                role: *role,
                author_public_key: *author_public_key,
                hpke_public_key: *hpke_public_key,
                member_proof: None,
            };
            keyed && KeyringAccess.is_authorized(&state, &op.author, &certified)
        }
        action => keyed && KeyringAccess.is_authorized(&state, &op.author, action),
    }
}

fn take_effect(group: &mut Group, ops: &BTreeMap<[u8; 32], &KeyringOp>, op: &KeyringOp) {
    if let KeyringAction::Commit { proposal_id } = &op.action {
        if let Some((_, target)) = proposal(ops, &ancestors(ops, op), proposal_id) {
            group.perform(target);
        }
    } else {
        group.perform(&op.action);
    }
}

fn fold(rules: Rules, base: &Group, below: &BTreeMap<[u8; 32], u64>, all: &[&KeyringOp]) -> Folded {
    let ops: BTreeMap<[u8; 32], &KeyringOp> = all.iter().map(|o| (o.id, *o)).collect();
    let mut order: Vec<[u8; 32]> = Vec::new();
    let mut depths: BTreeMap<[u8; 32], u64> = below.clone();
    loop {
        let ready = ops.iter().find(|(id, o)| !order.contains(id) && o.parents.iter().all(|p| depths.contains_key(p)));
        let Some((id, o)) = ready else { break };
        depths.insert(*id, o.parents.iter().map(|p| depths[p] + 1).max().unwrap_or(0));
        order.push(*id);
    }
    let mut authorized: BTreeMap<[u8; 32], bool> = BTreeMap::new();
    for id in &order {
        let op = ops[id];
        let above = ancestors(&ops, op);
        let mut at = base.clone();
        for earlier in order.iter().filter(|e| above.contains(*e) && authorized.get(*e) == Some(&true)) {
            take_effect(&mut at, &ops, ops[earlier]);
        }
        let fine = may(rules, &at, &ops, op);
        authorized.insert(*id, fine);
    }
    let concurrent = |a: &KeyringOp, b: &KeyringOp| {
        a.id != b.id && !ancestors(&ops, a).contains(&b.id) && !ancestors(&ops, b).contains(&a.id)
    };
    let mut group = base.clone();
    let mut effective = Vec::new();
    for id in &order {
        let op = ops[id];
        let voided = order.iter().map(|o| ops[o]).filter(|o| authorized[&o.id] && concurrent(o, op)).any(|o| {
            match &o.action {
                KeyringAction::Remove { member } => *member == op.author && o.author != op.author,
                KeyringAction::ReFound { .. } => {
                    !matches!(&op.action, KeyringAction::ReFound { .. })
                        && KeyringAccess.is_privileged(&group.state(), &op.action)
                }
                _ => false,
            }
        });
        if authorized[id] && !voided {
            take_effect(&mut group, &ops, op);
            effective.push(*id);
        }
    }
    let depths = order.iter().map(|o| (*o, depths[o])).collect();
    Folded { group, effective, authorized, depths }
}

fn starts(base: &EngineBase) -> (Group, BTreeMap<[u8; 32], u64>) {
    match base {
        EngineBase::Genesis { group_id, members, reset_authority } => {
            (Group::of(group_id, members, *reset_authority), BTreeMap::new())
        }
        EngineBase::Adopted { state, frontier_depths, has_been_shared } => {
            let mut members = BTreeMap::new();
            for (i, id) in state.members.keys.iter().enumerate() {
                members.insert(id.clone(), state.members.values[i]);
            }
            let group =
                Group { id: state.group_id.clone(), members, reset: state.reset_authority, shared: *has_been_shared };
            (group, frontier_depths.iter().map(|(id, d)| (*id, *d as u64)).collect())
        }
    }
}

fn run(rules: Rules, base: &EngineBase, ops: &[StoredOp]) -> EngineRun {
    let (group, below) = starts(base);
    let all: Vec<&KeyringOp> = ops.iter().map(|s| &s.op).collect();
    let refusals = all
        .iter()
        .map(|o| {
            if o.group_id != group.id {
                Some("WrongGroup".to_string())
            } else if !signature_holds(o) {
                Some("BadSignature".to_string())
            } else {
                None
            }
        })
        .collect();
    let out = fold(rules, &group, &below, &all);
    EngineRun {
        refusals,
        flush_error: None,
        members: GroupStateView::of(&out.group.state()),
        effective: out.effective,
        has_been_shared: out.group.shared,
        reset_authority: out.group.reset,
        depths: out.depths,
    }
}
fn lenient(base: &EngineBase, ops: &Vec<StoredOp>) -> EngineRun {
    run(LENIENT, base, ops)
}
fn strict(base: &EngineBase, ops: &Vec<StoredOp>) -> EngineRun {
    run(STRICT, base, ops)
}

// ---- a replica ------------------------------------------------------------------------------------

struct Replica {
    rules: Rules,
    base: Group,
    ops: Vec<KeyringOp>,
}

impl Replica {
    fn fold(&self) -> Folded {
        fold(self.rules, &self.base, &BTreeMap::new(), &self.ops.iter().collect::<Vec<_>>())
    }
    /// Takes an op; tells whether the members changed.
    fn apply(&mut self, op: KeyringOp) -> bool {
        assert!(signature_holds(&op));
        let before = self.members();
        self.ops.push(op);
        before != self.members()
    }
    fn members(&self) -> Vec<(String, KeyringRole)> {
        let g = self.fold().group;
        g.members.iter().filter(|(_, m)| m.is_active()).map(|(id, m)| (id.clone(), m.role)).collect()
    }
    fn ids(&self) -> Vec<String> {
        self.members().into_iter().map(|(id, _)| id).collect()
    }
    fn role_of(&self, id: &str) -> Option<KeyringRole> {
        self.members().into_iter().find(|(m, _)| m == id).map(|(_, r)| r)
    }
}

fn engine(members: &[KeyringMemberInit]) -> Replica {
    Replica { rules: STRICT, base: Group::of(&[], members, None), ops: vec![] }
}
fn quorum_engine_with(members: &[KeyringMemberInit], quorum: KeyringQuorum) -> Replica {
    Replica { rules: Rules { strict: true, quorum: Some(quorum) }, base: Group::of(&[], members, None), ops: vec![] }
}
fn quorum_engine(members: &[KeyringMemberInit]) -> Replica {
    quorum_engine_with(members, KeyringQuorum::founder_or_unanimity())
}
fn minit(role: KeyringRole, seed: u8) -> KeyringMemberInit {
    KeyringMemberInit { id: mid(seed), role, author_public_key: vk(seed), hpke_public_key: [seed; 32] }
}
fn named(id: &str, role: KeyringRole, seed: u8) -> KeyringMemberInit {
    KeyringMemberInit { id: id.to_string(), role, author_public_key: vk(seed), hpke_public_key: [seed; 32] }
}
fn add_as(member: &str, role: KeyringRole, seed: u8) -> KeyringAction {
    KeyringAction::Add {
        member: member.to_string(),
        role,
        author_public_key: vk(seed),
        hpke_public_key: [seed; 32],
        member_proof: None,
    }
}
fn add(role: KeyringRole, seed: u8) -> KeyringAction {
    add_as(&mid(seed), role, seed)
}
fn create(members: &[KeyringMemberInit]) -> KeyringAction {
    KeyringAction::Create { initial_members: members.to_vec() }
}
fn roster(pairs: &[(u8, KeyringRole)]) -> Vec<(String, KeyringRole)> {
    let mut v: Vec<(String, KeyringRole)> = pairs.iter().map(|(s, r)| (mid(*s), *r)).collect();
    v.sort();
    v
}
fn genesis(members: &[KeyringMemberInit]) -> KeyringOp {
    sign_op([1; 32], vec![], mid(1), create(members), &sk(1))
}
fn propose(id: u8, parents: Vec<[u8; 32]>, author: String, seed: u8, target: KeyringAction) -> KeyringOp {
    let action = KeyringAction::Propose { proposal_id: [7; 32], target: Box::new(target) };
    sign_op([id; 32], parents, author, action, &sk(seed))
}
fn approve(id: u8, parents: Vec<[u8; 32]>, author: String, seed: u8) -> KeyringOp {
    sign_op([id; 32], parents, author, KeyringAction::Approve { proposal_id: [7; 32] }, &sk(seed))
}
fn commit(id: u8, parents: Vec<[u8; 32]>, author: String, seed: u8) -> KeyringOp {
    sign_op([id; 32], parents, author, KeyringAction::Commit { proposal_id: [7; 32] }, &sk(seed))
}
fn promote(seed: u8, new_role: KeyringRole) -> KeyringAction {
    KeyringAction::ChangeRole { member: mid(seed), new_role }
}

// ---- authority ------------------------------------------------------------------------------------

#[test]
fn founder_signed_governance_resolves_through_keyeo() {
    let mut k = engine(&[minit(OWNER, 1)]);
    k.apply(genesis(&[minit(OWNER, 1)]));
    k.apply(sign_op([2; 32], vec![[1; 32]], mid(1), add(CO_OWNER, 2), &sk(1)));
    k.apply(sign_op([3; 32], vec![[2; 32]], mid(2), add(EDITOR, 3), &sk(2)));
    assert_eq!(k.members(), roster(&[(2, CO_OWNER), (3, EDITOR), (1, OWNER)]));
}

#[test]
fn a_maintainer_cannot_write_the_keyring() {
    let mut k = engine(&[minit(OWNER, 1), minit(MAINTAINER, 4)]);
    assert!(!k.apply(sign_op([1; 32], vec![], mid(4), add(EDITOR, 9), &sk(4))));
    assert!(!k.ids().contains(&mid(9)), "a Maintainer is not a signer and cannot add a member");
}

#[test]
fn only_the_owner_may_touch_the_signer_set() {
    let mut k = engine(&[minit(OWNER, 1), minit(CO_OWNER, 2), minit(EDITOR, 3)]);
    k.apply(sign_op([1; 32], vec![], mid(2), promote(3, CO_OWNER), &sk(2)));
    assert!(k.members().contains(&(mid(3), EDITOR)), "a CoOwner can't create another signer");
    k.apply(sign_op([2; 32], vec![[1; 32]], mid(2), KeyringAction::Remove { member: mid(1) }, &sk(2)));
    assert!(k.ids().contains(&mid(1)), "a CoOwner can't remove the Owner");
}

#[test]
fn the_owner_is_unique_and_immutable() {
    let mut k = engine(&[minit(OWNER, 1)]);
    k.apply(genesis(&[minit(OWNER, 1)]));
    k.apply(sign_op([2; 32], vec![[1; 32]], mid(1), add(OWNER, 5), &sk(1)));
    assert!(!k.ids().contains(&mid(5)), "no second Owner");
    k.apply(sign_op([3; 32], vec![[1; 32]], mid(1), KeyringAction::Remove { member: mid(1) }, &sk(1)));
    k.apply(sign_op([4; 32], vec![[3; 32]], mid(1), promote(1, CO_OWNER), &sk(1)));
    assert_eq!(k.members(), roster(&[(1, OWNER)]), "the Owner remains, alone and unchanged");
}

#[test]
fn a_second_create_cannot_re_found_and_wipe_the_roster() {
    let mut k = engine(&[minit(OWNER, 1)]);
    k.apply(genesis(&[minit(OWNER, 1)]));
    k.apply(sign_op([2; 32], vec![[1; 32]], mid(1), add(CO_OWNER, 2), &sk(1)));
    let re_found =
        |id: u8, parents: Vec<[u8; 32]>| sign_op([id; 32], parents, mid(9), create(&[minit(OWNER, 9)]), &sk(9));
    k.apply(re_found(9, vec![[2; 32]]));
    k.apply(re_found(0, vec![]));
    assert_eq!(
        k.members(),
        roster(&[(2, CO_OWNER), (1, OWNER)]),
        "neither a later nor an OpId-grinding concurrent Create may re-found the group"
    );
    assert!(!k.fold().group.members.contains_key(&mid(9)), "the attacker's self-signed re-genesis has no effect");
}

#[test]
fn an_op_carrying_a_key_that_is_not_the_authors_registered_key_is_ignored() {
    let gm = [minit(OWNER, 1), minit(CO_OWNER, 2)];
    let mut k = engine(&gm);
    k.apply(genesis(&gm));
    assert!(!k.apply(sign_op([2; 32], vec![[1; 32]], mid(2), add(EDITOR, 9), &sk(9))));
    assert!(!k.ids().contains(&mid(9)));
    k.apply(sign_op([3; 32], vec![[1; 32]], mid(2), add(EDITOR, 3), &sk(2)));
    assert!(k.ids().contains(&mid(3)));
}

#[test]
fn any_non_owner_may_remove_themselves() {
    let mut k = engine(&[minit(OWNER, 1), minit(EDITOR, 6)]);
    k.apply(sign_op([1; 32], vec![], mid(6), KeyringAction::Remove { member: mid(6) }, &sk(6)));
    assert!(!k.ids().contains(&mid(6)), "an Editor may remove themselves");
}

#[test]
fn a_co_owner_manages_ordinary_members() {
    let mut k = engine(&[minit(OWNER, 1), minit(CO_OWNER, 2), minit(EDITOR, 3)]);
    k.apply(sign_op([1; 32], vec![], mid(2), add(EDITOR, 4), &sk(2)));
    assert!(k.ids().contains(&mid(4)), "a CoOwner may add an ordinary member");
    k.apply(sign_op([2; 32], vec![[1; 32]], mid(2), KeyringAction::Remove { member: mid(3) }, &sk(2)));
    assert!(!k.ids().contains(&mid(3)), "a CoOwner may remove an ordinary member");
}

#[test]
fn unanimous_co_owners_promote_a_signer_without_the_founder() {
    let m = [minit(OWNER, 1), minit(CO_OWNER, 2), minit(CO_OWNER, 3), minit(EDITOR, 6)];
    let mut k = quorum_engine(&m);
    k.apply(genesis(&m));
    k.apply(propose(2, vec![[1; 32]], mid(2), 2, promote(6, CO_OWNER)));
    k.apply(approve(3, vec![[2; 32]], mid(3), 3));
    k.apply(commit(4, vec![[3; 32]], mid(2), 2));
    assert_eq!(k.role_of(&mid(6)), Some(CO_OWNER), "unanimity of co-owners promotes");
}

#[test]
fn one_co_owner_short_of_unanimity_does_not_promote() {
    let m = [minit(OWNER, 1), minit(CO_OWNER, 2), minit(CO_OWNER, 3), minit(EDITOR, 6)];
    let mut k = quorum_engine(&m);
    k.apply(genesis(&m));
    k.apply(propose(2, vec![[1; 32]], mid(2), 2, promote(6, CO_OWNER)));
    k.apply(commit(3, vec![[2; 32]], mid(2), 2));
    assert_eq!(k.role_of(&mid(6)), Some(EDITOR), "bob alone is not unanimity");
}

#[test]
fn the_founder_alone_promotes_via_the_sole_path() {
    let m = [minit(OWNER, 1), minit(CO_OWNER, 2), minit(EDITOR, 6)];
    let mut k = quorum_engine(&m);
    k.apply(genesis(&m));
    k.apply(propose(2, vec![[1; 32]], mid(1), 1, promote(6, CO_OWNER)));
    k.apply(commit(3, vec![[2; 32]], mid(1), 1));
    assert_eq!(k.role_of(&mid(6)), Some(CO_OWNER), "founder alone suffices");
}

#[test]
fn quorum_cannot_remove_the_immutable_owner() {
    let m = [minit(OWNER, 1), minit(CO_OWNER, 2), minit(CO_OWNER, 3)];
    let mut k = quorum_engine(&m);
    k.apply(genesis(&m));
    k.apply(propose(2, vec![[1; 32]], mid(2), 2, KeyringAction::Remove { member: mid(1) }));
    k.apply(approve(3, vec![[2; 32]], mid(3), 3));
    k.apply(commit(4, vec![[3; 32]], mid(2), 2));
    assert_eq!(k.role_of(&mid(1)), Some(OWNER), "no quorum can remove the Owner");
}

#[test]
fn founder_only_rule_ignores_co_owner_unanimity() {
    let m = [minit(OWNER, 1), minit(CO_OWNER, 2), minit(CO_OWNER, 3), minit(EDITOR, 6)];
    let mut k = quorum_engine_with(&m, KeyringQuorum::founder_only());
    k.apply(genesis(&m));
    k.apply(propose(2, vec![[1; 32]], mid(2), 2, promote(6, CO_OWNER)));
    k.apply(approve(3, vec![[2; 32]], mid(3), 3));
    k.apply(commit(4, vec![[3; 32]], mid(2), 2));
    assert_eq!(k.role_of(&mid(6)), Some(EDITOR), "co-owner unanimity is powerless here");

    let mut k2 = quorum_engine_with(&m, KeyringQuorum::founder_only());
    k2.apply(genesis(&m));
    k2.apply(propose(2, vec![[1; 32]], mid(1), 1, promote(6, CO_OWNER)));
    k2.apply(commit(3, vec![[2; 32]], mid(1), 1));
    assert_eq!(k2.role_of(&mid(6)), Some(CO_OWNER), "founder alone governs");
}

#[test]
fn threshold_rule_needs_m_of_n_signers() {
    let m = [minit(OWNER, 1), minit(CO_OWNER, 2), minit(CO_OWNER, 3), minit(CO_OWNER, 4), minit(EDITOR, 6)];
    let mut short = quorum_engine_with(&m, KeyringQuorum::threshold(3));
    short.apply(genesis(&m));
    short.apply(propose(2, vec![[1; 32]], mid(2), 2, promote(6, CO_OWNER)));
    short.apply(approve(3, vec![[2; 32]], mid(3), 3));
    short.apply(commit(4, vec![[3; 32]], mid(2), 2));
    assert_eq!(short.role_of(&mid(6)), Some(EDITOR), "2 of 4 is short of the threshold");

    let mut ok = quorum_engine_with(&m, KeyringQuorum::threshold(3));
    ok.apply(genesis(&m));
    ok.apply(propose(2, vec![[1; 32]], mid(2), 2, promote(6, CO_OWNER)));
    ok.apply(approve(3, vec![[2; 32]], mid(3), 3));
    ok.apply(approve(4, vec![[3; 32]], mid(4), 4));
    ok.apply(commit(5, vec![[4; 32]], mid(2), 2));
    assert_eq!(ok.role_of(&mid(6)), Some(CO_OWNER), "3 of 4 signers meet the threshold");
}

#[test]
fn an_in_dag_create_seeds_only_an_empty_group_with_one_owner_author() {
    let mut k = engine(&[]);
    k.apply(genesis(&[minit(OWNER, 1)]));
    assert_eq!(k.members(), roster(&[(1, OWNER)]), "a well-formed Create seeds the empty group");

    let mut k2 = engine(&[]);
    k2.apply(genesis(&[minit(OWNER, 1), minit(OWNER, 9)]));
    assert!(k2.members().is_empty(), "a two-Owner Create must not seed the group");
}

#[test]
fn a_quorum_demotion_excludes_the_target_from_the_denominator() {
    let m = [minit(OWNER, 1), minit(CO_OWNER, 2), minit(CO_OWNER, 3), minit(CO_OWNER, 4)];
    let mut k = quorum_engine(&m);
    k.apply(genesis(&m));
    k.apply(propose(2, vec![[1; 32]], mid(2), 2, promote(4, EDITOR)));
    k.apply(approve(3, vec![[2; 32]], mid(3), 3));
    k.apply(commit(4, vec![[3; 32]], mid(2), 2));
    assert_eq!(k.role_of(&mid(4)), Some(EDITOR), "bob + carol demote dave without dave's own approval");
}

#[test]
fn a_removed_member_cannot_authorize_a_later_change() {
    let mut k = engine(&[minit(OWNER, 1), minit(CO_OWNER, 2)]);
    k.apply(sign_op([2; 32], vec![], mid(1), KeyringAction::Remove { member: mid(2) }, &sk(1)));
    k.apply(sign_op([3; 32], vec![[2; 32]], mid(2), add(EDITOR, 3), &sk(2)));
    assert!(!k.ids().contains(&mid(3)), "a removed (inactive) member cannot authorize a change");
}

#[test]
fn an_add_whose_member_id_does_not_bind_its_key_is_unauthorized() {
    let mut k = engine(&[minit(OWNER, 1)]);
    k.apply(genesis(&[minit(OWNER, 1)]));
    let forged_id = "aaaaaaaa-aaaa-8aaa-8aaa-aaaaaaaaaaaa".to_string();
    assert_ne!(forged_id, mid(3), "the forged id is deliberately not the key's uuid8");
    k.apply(sign_op([2; 32], vec![[1; 32]], mid(1), add_as(&forged_id, EDITOR, 3), &sk(1)));
    assert!(!k.fold().group.members.contains_key(&forged_id), "a non-self-certifying member id is refused admission");
}

#[test]
fn a_create_with_a_non_binding_member_does_not_seed() {
    let mut k = engine(&[]);
    let forged = named("aaaaaaaa-aaaa-8aaa-8aaa-aaaaaaaaaaaa", OWNER, 1);
    k.apply(sign_op([1; 32], vec![], forged.id.clone(), create(&[forged]), &sk(1)));
    assert!(k.members().is_empty(), "a Create with a non-self-certifying member does not seed");
}

#[test]
fn what_changes_the_authority_structure() {
    let g = Group::of(&[], &[minit(OWNER, 1), minit(CO_OWNER, 2), minit(EDITOR, 3)], None).state();
    assert!(KeyringAccess.is_privileged(&g, &add(CO_OWNER, 4)));
    assert!(!KeyringAccess.is_privileged(&g, &add(EDITOR, 4)));
    assert!(KeyringAccess.is_privileged(&g, &promote(2, EDITOR)));
    assert!(KeyringAccess.is_privileged(&g, &KeyringAction::Remove { member: mid(2) }));
    assert!(!KeyringAccess.is_privileged(&g, &KeyringAction::Remove { member: mid(3) }));
    assert!(!KeyringAccess.is_privileged(&g, &KeyringAction::Reseal));
    assert_eq!(KeyringAccess::required_for(EDITOR), CO_OWNER);
    assert_eq!(KeyringAccess::required_for(CO_OWNER), OWNER);
    assert_eq!(KeyringAccess::role_of(&g, &"nobody".to_string()), VIEWER);
}

#[test]
fn a_quorum_without_an_owner_is_never_met() {
    let g = Group::of(&[], &[minit(CO_OWNER, 2), minit(EDITOR, 3)], None).state();
    let r = KeyringQuorum::founder_or_threshold(1).requirement(&g, &promote(3, CO_OWNER));
    let everyone: BTreeSet<String> = [mid(2), mid(3)].into_iter().collect();
    assert!(!met(&r, &everyone));
}

// ---- the client -----------------------------------------------------------------------------------

fn copy_anchor(a: &DagAnchor) -> DagAnchor {
    DagAnchor {
        group_id: a.group_id.clone(),
        genesis: a.genesis.clone(),
        reset_authority: a.reset_authority,
        genesis_op_id: a.genesis_op_id,
        ops: a.ops.iter().map(|o| o.duplicate()).collect(),
        checkpoint: a.checkpoint.clone(),
    }
}
fn provision(tree: &[u8], authority: [u8; 32], sealing: &[u8]) -> DagAnchor {
    provision_anchor(tree, "founder", vk(1), [1; 32], Some(authority), sealing.to_vec(), minter(sk(1)))
}
fn added(a: &DagAnchor, member: &KeyringMemberInit, sealing: &[u8]) -> DagAnchor {
    append_add(copy_anchor(a), "founder", member, sealing.to_vec(), minter(sk(1)))
}
fn resolved(a: &DagAnchor) -> Resolved {
    resolve(a, &lenient).map_err(|e| e.message()).unwrap()
}
fn has_member(r: &Resolved, id: &str) -> bool {
    r.members.members.iter().any(|m| m.member_id == id)
}

#[test]
fn a_carve_out_voided_ops_sealing_is_dropped() {
    let founder = named("founder", OWNER, 1);
    let bob = named("bob", CO_OWNER, 2);
    let rvk = recovery(42);
    let draft = |parents: Vec<[u8; 32]>, action: KeyringAction, sealing: &[u8]| OpDraft {
        group_id: vec![],
        parents,
        author: "founder".to_string(),
        action,
        sealing: sealing.to_vec(),
    };
    let genesis_op = minter(sk(1))(&draft(vec![], create(&[founder.clone(), bob.clone()]), b"GENESIS-SEALING"));
    let genesis_id = genesis_op.op.id;
    let thief = minter(sk(1))(&draft(vec![genesis_id], add_as("mallory", CO_OWNER, 9), b"THIEF-SEALING"));
    let refound = KeyringAction::ReFound {
        member: "founder".to_string(),
        new_author_public_key: vk(7),
        new_hpke_public_key: [7; 32],
        era: 1,
    };
    let recovery_op = minter(rvk)(&draft(vec![genesis_id], refound, b"RECOVERY-SEALING"));
    let anchor = DagAnchor {
        group_id: vec![],
        genesis: vec![minit_to_dto(&founder), minit_to_dto(&bob)],
        reset_authority: Some(public(&rvk)),
        genesis_op_id: genesis_id,
        ops: vec![genesis_op, thief, recovery_op],
        checkpoint: None,
    };
    let r = resolved(&anchor);
    let has = |needle: &[u8]| r.sealing.iter().any(|s| s.bytes.as_slice() == needle);
    assert!(has(b"GENESIS-SEALING"), "the pinned genesis op always contributes");
    assert!(has(b"RECOVERY-SEALING"), "the surviving recovery contributes");
    assert!(!has(b"THIEF-SEALING"), "a carve-out-voided op's sealing is dropped, not folded");
    assert!(!has_member(&r, "mallory"), "and the voided op has no membership effect either");
    assert_eq!(r.sealing[0].origin, SealingOrigin::Genesis);
    assert_eq!(r.sealing[1].origin, SealingOrigin::Other);
}

#[test]
fn watermark_advances_and_check_floor_catches_rollback() {
    let a0 = provision(b"tree-1", vk(3), b"seal");
    let w0 = watermark(&a0);
    assert_eq!(w0.len(), 32, "a single tip (the genesis op) encodes to 32 bytes");
    assert!(check_floor(&a0, &w0).is_ok(), "the current frontier satisfies its own floor");
    assert!(check_floor(&a0, &[]).is_ok(), "an empty floor is no floor");
    assert_eq!(check_floor_length(&w0), Ok(()));
    assert_eq!(
        check_floor_length(&[1, 2, 3]),
        Err(ClientError::BadWatermark("length 3 is not a multiple of 32".to_string()))
    );
    assert!(
        matches!(check_floor(&a0, &[1, 2, 3]), Err(ClientError::BadWatermark(_))),
        "a floor whose length isn't a multiple of 32 is refused"
    );
    let a1 = added(&a0, &named("bob", CO_OWNER, 2), b"wrap");
    let w1 = watermark(&a1);
    assert_ne!(w1, w0, "the watermark advances when the frontier moves");
    assert!(check_floor(&a1, &w0).is_ok(), "the old tip is still an ancestor in the advanced anchor");
    assert!(
        matches!(check_floor(&a0, &w1), Err(ClientError::RolledBack(_))),
        "the advanced tip is absent from the stale anchor — a rollback"
    );
}

fn shared_anchor_and_pin() -> (DagAnchor, DagPin) {
    let a0 = provision(b"tree-vd", vk(3), b"seal");
    let a1 = added(&a0, &named("bob", MAINTAINER, 2), b"wrap");
    let pin = anchor_pin(&a1);
    (a1, pin)
}

#[test]
fn verify_anchor_accepts_a_legit_anchor_at_the_right_pin() {
    let (anchor, pin) = shared_anchor_and_pin();
    let r = verify_anchor(&anchor, b"tree-vd", &pin, &lenient).map_err(|e| e.message()).unwrap();
    assert!(r.has_been_shared, "a shared tree resolves as shared");
    assert!(has_member(&r, "bob"), "bob is a resolved member");
}

#[test]
fn verify_anchor_rejects_a_wrong_tree_or_wrong_pin() {
    let (anchor, pin) = shared_anchor_and_pin();
    assert!(verify_anchor(&anchor, b"other-tree", &pin, &lenient).is_err(), "a wrong tree id is refused");
    let mut bad = pin.clone();
    bad.genesis_op_id[0] ^= 0xff;
    assert!(verify_anchor(&anchor, b"tree-vd", &bad, &lenient).is_err(), "a wrong genesis-op pin is refused");
    let mut bad_rvk = pin.clone();
    bad_rvk.reset_authority = Some([9u8; 32]);
    assert!(verify_anchor(&anchor, b"tree-vd", &bad_rvk, &lenient).is_err(), "a wrong recovery-authority pin is refused");
}

#[test]
fn verify_anchor_rejects_a_founder_substituted_anchor() {
    let (mut tampered, pin) = shared_anchor_and_pin();
    tampered.genesis = vec![minit_to_dto(&named("founder", OWNER, 99))];
    assert!(
        verify_anchor(&tampered, b"tree-vd", &pin, &lenient).is_err(),
        "an anchor whose genesis DTO diverges from the pinned genesis op is refused (founder substitution)"
    );
}

#[test]
fn verify_anchor_rejects_a_rolled_back_anchor() {
    let a0 = provision(b"tree-rb", vk(3), b"seal");
    let a1 = added(&a0, &named("bob", MAINTAINER, 2), b"wrap");
    let pin = anchor_pin(&a1);
    assert!(verify_anchor(&a1, b"tree-rb", &pin, &lenient).is_ok(), "the current anchor satisfies its own floor");
    assert!(
        matches!(verify_anchor(&a0, b"tree-rb", &pin, &lenient), Err(ClientError::RolledBack(_))),
        "an anchor rolled back below the invite-time frontier is refused"
    );
}

#[test]
fn accept_remote_anchor_adopts_forward_and_refuses_rollback() {
    let a0 = provision(b"tree-ad", vk(3), b"seal");
    let a1 = added(&a0, &named("bob", MAINTAINER, 2), b"wrap");
    let pin = anchor_pin(&a0);
    let floor0 = watermark(&a0);
    let merged = accept_remote_anchor(copy_anchor(&a0), &a1, b"tree-ad", &pin, &floor0, &lenient).unwrap();
    assert!(has_member(&resolved(&merged), "bob"), "adopts a1");
    let floor1 = watermark(&a1);
    assert!(
        accept_remote_anchor(copy_anchor(&a1), &a0, b"tree-ad", &pin, &floor1, &lenient).is_err(),
        "refuses to adopt an anchor rolled back below the member's persisted floor"
    );
}

#[test]
fn merge_drops_a_content_id_relabeled_op() {
    let a0 = provision(b"tree-mg", vk(3), b"seal");
    let mut relabeled = minter(sk(1))(&OpDraft {
        group_id: b"tree-mg".to_vec(),
        parents: vec![a0.genesis_op_id],
        author: "founder".to_string(),
        action: add_as("mallory", CO_OWNER, 9),
        sealing: b"wrap".to_vec(),
    });
    relabeled.op.id = [0xAA; 32];
    let mut b = copy_anchor(&a0);
    b.ops.push(relabeled);
    assert!(resolve(&b, &lenient).is_err());
    let merged = merge(a0, &b);
    assert!(!has_member(&resolved(&merged), "mallory"));
}

#[test]
fn has_been_shared_is_monotonic_true_after_an_add_even_once_removed() {
    let a0 = provision(b"tree-es", vk(3), b"seal");
    assert!(!resolved(&a0).has_been_shared, "a solo tree has never been shared");
    let a1 = added(&a0, &named("bob", CO_OWNER, 2), b"wrap");
    assert!(resolved(&a1).has_been_shared, "admitting a member makes the tree shared");
    let a2 = append_remove(copy_anchor(&a1), "founder", "bob", b"reseal".to_vec(), minter(sk(1)));
    assert!(!has_member(&resolved(&a2), "bob"));
    assert!(
        resolved(&a2).has_been_shared,
        "an un-shared-back-to-solo dag still reports has_been_shared (monotonic)"
    );
}

#[test]
fn ever_members_folds_strongest_role_and_every_key_ever_held() {
    let a0 = provision(b"tree-em", vk(9), b"g");
    let a1 = added(&a0, &named("bob", EDITOR, 2), b"w");
    let a2 = append(
        a1,
        "founder",
        KeyringAction::ChangeRole { member: "bob".to_string(), new_role: MAINTAINER },
        b"w".to_vec(),
        minter(sk(1)),
    );
    let a3 = append_retarget(a2, "bob", vk(7), [7; 32], b"w".to_vec(), minter(sk(2)));
    let a4 = append_remove(a3, "founder", "bob", b"reseal".to_vec(), minter(sk(1)));
    let r = resolved(&a4);
    let bob = r.ever_members.get(&"bob".to_string()).expect("a removed member is still an ever-member");
    assert_eq!(
        bob.strongest_role, ROLE_MAINTAINER,
        "strongest_role is the MIN over the role history — the promotion is honored"
    );
    assert!(bob.keys_ever_held.contains(&vk(2).to_vec()), "the admission key is retained");
    assert!(bob.keys_ever_held.contains(&vk(7).to_vec()), "the self-rekey key is retained");
}

/// What a compaction would write and drop: whether the tree was ever shared, and the ops below the frontier.
struct Decision {
    has_been_shared: bool,
    prune: Vec<[u8; 32]>,
}

#[test]
fn compact_computes_a_decision_over_the_rebuilt_engine() {
    let a0 = provision(b"tree-cp", vk(3), b"g");
    let a1 = added(&a0, &named("bob", CO_OWNER, 2), b"w");
    let keep_all = |_: &EngineBase, _: &Vec<StoredOp>| Ok(None::<Decision>);
    assert!(compact(&a1, &lenient, &keep_all).unwrap().is_none());

    let tips: Vec<[u8; 32]> = watermark(&a1).chunks(32).map(|c| c.try_into().unwrap()).collect();
    let snapshot = |base: &EngineBase, ops: &Vec<StoredOp>| {
        let cut = pre_cut(ops, &tips);
        let prune = cut.items.into_iter().filter(|id| !tips.contains(id)).collect();
        Ok(Some(Decision { has_been_shared: lenient(base, ops).has_been_shared, prune }))
    };
    let out = compact(&a1, &lenient, &snapshot)
        .unwrap()
        .expect("a shared tree with history below the head has a compaction decision");
    assert!(out.has_been_shared, "the checkpoint records the shared marker");
    assert!(!out.prune.is_empty(), "history below the head frontier is prunable");

    let refuse = |_: &EngineBase, _: &Vec<StoredOp>| Err::<Option<Decision>, String>("unstable".to_string());
    assert!(matches!(compact(&a1, &lenient, &refuse), Err(ClientError::Engine(_))));
    let mut forged = copy_anchor(&a1);
    forged.ops[1].op.signature[0] ^= 1;
    assert!(matches!(compact(&forged, &lenient, &keep_all), Err(ClientError::Engine(_))));
}

#[test]
fn a_rotation_survives_compaction() {
    let (rvk1, rvk2) = (recovery(42), recovery(43));
    let founder = mid(1);
    let a0 = provision_anchor(
        b"tree-cp-rot",
        &founder,
        vk(1),
        [1; 32],
        Some(public(&rvk1)),
        b"g".to_vec(),
        minter(sk(1)),
    );
    let a1 = append_rotate_recovery(a0, &founder, public(&rvk2), b"re".to_vec(), minter(sk(1)));
    let rotate_tip: [u8; 32] = watermark(&a1).try_into().unwrap();
    let a2 = append_reseal(a1, &founder, b"x".to_vec(), minter(sk(1)));
    let a3 = compact_to_checkpoint(
        a2,
        &vec![rotate_tip],
        None,
        founder.clone(),
        &strict,
        &|pre: &Vec<SealingEntry>| Ok((pre.clone(), 0)),
        &|body: Checkpoint| SignedCheckpoint { body, signer: vk(1), verified: true },
    )
    .map_err(|e| e.message())
    .unwrap();
    assert_eq!(a3.ops.len(), 1, "the genesis and the rotation are pruned");
    let cp = a3.checkpoint.as_ref().unwrap();
    assert_eq!(cp.body.reset_authority, Some(public(&rvk2)));
    assert_eq!(cp.body.frontier_depths, vec![(rotate_tip, 1)]);
    assert_eq!(cp.body.sealing.len(), 2, "the genesis sealing and the rotation's");

    let founder_key = |anchor: &DagAnchor| {
        let r = resolve(anchor, &strict).map_err(|e| e.message()).unwrap();
        r.members.members.into_iter().find(|m| m.member_id == mid(1)).unwrap().author_public_key
    };
    let a4 = append_refound(copy_anchor(&a3), &founder, vk(7), [7; 32], 1, b"rf".to_vec(), minter(rvk2));
    assert_eq!(founder_key(&a4), vk(7).to_vec(), "the rotated-in authority (rvk2) still governs after compaction");
    let a5 = append_refound(copy_anchor(&a3), &founder, vk(8), [8; 32], 1, b"rf".to_vec(), minter(rvk1));
    assert_eq!(
        founder_key(&a5),
        vk(1).to_vec(),
        "the retired genesis authority (rvk1) cannot recover post-compaction"
    );
}

#[test]
fn a_checkpoint_must_be_signed_by_its_owner() {
    let founder = mid(1);
    let a0 = provision_anchor(b"t", &founder, vk(1), [1; 32], None, b"g".to_vec(), minter(sk(1)));
    let tip: [u8; 32] = watermark(&a0).try_into().unwrap();
    let compacted = |signer: [u8; 32], verified: bool| {
        compact_to_checkpoint(
            append_reseal(copy_anchor(&a0), &founder, vec![], minter(sk(1))),
            &vec![tip],
            None,
            founder.clone(),
            &strict,
            &|pre: &Vec<SealingEntry>| Ok((pre.clone(), 3)),
            &|body: Checkpoint| SignedCheckpoint { body, signer, verified },
        )
        .map_err(|e| e.message())
        .unwrap()
    };
    let fine = resolve(&compacted(vk(1), true), &strict).map_err(|e| e.message()).unwrap();
    assert_eq!(fine.minting_ops_baseline, 3);
    assert_eq!(fine.checkpoint_sealing.unwrap()[0].bytes, b"g".to_vec());
    assert!(matches!(resolve(&compacted(vk(2), true), &strict), Err(ClientError::Malformed(_))));
    assert!(matches!(resolve(&compacted(vk(1), false), &strict), Err(ClientError::Malformed(_))));
    let pin = anchor_pin(&a0);
    assert!(matches!(verify_anchor(&compacted(vk(1), true), b"t", &pin, &strict), Err(ClientError::Malformed(_))));
}

#[test]
fn a_cut_takes_what_lies_below_it() {
    let a0 = provision(b"tree", vk(3), b"");
    let a1 = added(&a0, &named("bob", EDITOR, 2), b"");
    let a2 = added(&a1, &named("carol", EDITOR, 3), b"");
    let ids: Vec<[u8; 32]> = a2.ops.iter().map(|o| o.op.id).collect();
    let cut = pre_cut(&a2.ops, &vec![ids[1]]);
    assert!(cut.contains(&ids[0]) && cut.contains(&ids[1]) && !cut.contains(&ids[2]));
}

#[test]
fn merging_unites_the_ops_of_both() {
    let a0 = provision(b"tree", vk(3), b"");
    let left = added(&a0, &named("bob", EDITOR, 2), b"");
    let right = added(&a0, &named("carol", EDITOR, 3), b"");
    let both = merge(copy_anchor(&left), &right);
    assert_eq!(both.ops.len(), 3);
    assert_eq!(watermark(&both).len(), 64, "two tips");
    assert_eq!(merge(copy_anchor(&both), &right), both);
    let turned = merge(copy_anchor(&right), &left);
    let ids = |a: &DagAnchor| a.ops.iter().map(|o| o.op.id).collect::<BTreeSet<_>>();
    assert_eq!(ids(&turned), ids(&both), "both orders hold the same ops");
    assert_eq!(resolved(&turned).members, resolved(&both).members, "and resolve alike");
    let r = resolved(&both);
    assert!(has_member(&r, "bob") && has_member(&r, "carol"));
}

#[test]
fn a_pin_is_written_field_by_field() {
    let mut expected = vec![7u8; 32];
    expected.push(1);
    expected.extend_from_slice(&[9; 32]);
    expected.extend_from_slice(&[4, 1, 2, 3, 4]);
    let pin = DagPin { genesis_op_id: [7; 32], reset_authority: Some([9; 32]), watermark: vec![1, 2, 3, 4] };
    assert_eq!(pin.encode(), expected);

    let mut bare = vec![7u8; 32];
    bare.extend_from_slice(&[0, 128, 1]);
    bare.extend_from_slice(&[5; 128]);
    let pin = DagPin { genesis_op_id: [7; 32], reset_authority: None, watermark: vec![5; 128] };
    assert_eq!(pin.encode(), bare);
}

#[test]
fn dag_pin_round_trips_through_its_encoding() {
    let pin = DagPin { genesis_op_id: [7; 32], reset_authority: Some([9; 32]), watermark: vec![1, 2, 3, 4] };
    let back = DagPin::decode(&pin.encode()).unwrap();
    assert_eq!(back.genesis_op_id, pin.genesis_op_id);
    assert_eq!(back.reset_authority, pin.reset_authority);
    assert_eq!(back.watermark, pin.watermark);
}

#[test]
fn bytes_that_are_no_pin_are_malformed() {
    let pin = DagPin { genesis_op_id: [7; 32], reset_authority: None, watermark: vec![1, 2, 3] };
    let mut bytes = pin.encode();
    bytes.extend_from_slice(&[8, 9]);
    assert_eq!(DagPin::decode(&bytes).unwrap(), pin, "what follows a pin is passed over");
    bytes[32] = 2;
    assert!(matches!(DagPin::decode(&bytes), Err(ClientError::Malformed(_))), "no such flag");
    assert!(matches!(DagPin::decode(&pin.encode()[..35]), Err(ClientError::Malformed(_))), "cut short");
    assert!(matches!(DagPin::decode(&[1, 2, 3]), Err(ClientError::Malformed(_))));
}

#[test]
fn hex32_renders_the_first_eight_bytes_in_hex() {
    let mut id = [0u8; 32];
    id[..8].copy_from_slice(&[0x01, 0x23, 0x45, 0x67, 0x89, 0xab, 0xcd, 0xef]);
    assert_eq!(hex32(&id), "0123456789abcdef…");
    assert_ne!(hex32(&[0u8; 32]), hex32(&[1u8; 32]));
}

#[test]
fn append_change_role_promotes_a_member_and_resolves() {
    let a0 = provision(b"tree-1", [42; 32], b"g");
    let a1 = added(&a0, &named("carol", EDITOR, 3), b"");
    let a2 = append_change_role(a1, "founder", "carol", CO_OWNER, minter(sk(1)));
    assert_eq!(resolved(&a2).members.signers().len(), 2, "founder + the promoted carol are both signers");
}

#[test]
fn append_backfill_adds_a_reseal_that_resolves() {
    let a0 = provision(b"tree-1", [42; 32], b"g");
    let a1 = append_backfill(a0, "founder", b"BACKFILL".to_vec(), minter(sk(1)));
    let r = resolved(&a1);
    assert!(
        r.sealing.iter().any(|s| s.bytes.as_slice() == b"BACKFILL"),
        "the reseal's sealing folds into the resolved state"
    );
    assert_eq!(r.sealing[1].origin, SealingOrigin::Reseal);
}

#[test]
fn client_errors_render_descriptive_messages() {
    assert!(ClientError::Malformed("boom".into()).message().contains("boom"));
    assert!(ClientError::RolledBack("x".into()).message().contains("rolled back"));
}

#[test]
fn an_op_of_another_tree_is_refused() {
    let a0 = provision(b"tree-1", [42; 32], b"g");
    let mut moved = copy_anchor(&a0);
    moved.group_id = b"tree-2".to_vec();
    assert!(matches!(resolve(&moved, &lenient), Err(ClientError::Engine(_))));
}

// ---- the checkpoint -------------------------------------------------------------------------------

#[test]
fn group_state_view_round_trips_members_losslessly() {
    let alice_key = [1u8; 32];
    let bob_key = [3u8; 32];
    let alice = derive_member_id(&alice_key);
    let bob = derive_member_id(&bob_key);
    let mut state = KeyringState::empty(b"tree".to_vec(), Some([9u8; 32]));
    state.members.insert(
        alice.clone(),
        MemberState {
            role: KeyringRole(3),
            member_counter: 4,
            access_counter: 2,
            author_public_key: alice_key,
            hpke_public_key: [2u8; 32],
        },
    );
    state.members.insert(
        bob.clone(),
        MemberState {
            role: KeyringRole(1),
            member_counter: 1,
            access_counter: 0,
            author_public_key: bob_key,
            hpke_public_key: [4u8; 32],
        },
    );
    let view = GroupStateView::of(&state);
    let rebuilt = view.clone().into_state(b"tree".to_vec(), Some([9u8; 32])).expect("self-certifying members");
    assert_eq!(rebuilt.members.keys, state.members.keys);
    assert_eq!(
        rebuilt.members.values, state.members.values,
        "members (roles + keys + both counters) round-trip losslessly"
    );
    assert_eq!(rebuilt.reset_authority, state.reset_authority, "reset_authority is restored");
    assert_eq!(rebuilt.group_id, state.group_id, "group_id is restored");
    assert_eq!(GroupStateView::of(&rebuilt), view);
}

#[test]
fn a_state_whose_ids_do_not_certify_is_not_rebuilt() {
    assert!(GroupStateView::of(&sample_state(false)).into_state(vec![], None).is_err());
}

fn sample_state(with_bob: bool) -> KeyringState {
    let mut state = KeyringState::empty(b"tree".to_vec(), Some([9u8; 32]));
    let member = |role: i16, author: u8, hpke: u8| MemberState {
        role: KeyringRole(role),
        member_counter: 0,
        access_counter: 0,
        author_public_key: [author; 32],
        hpke_public_key: [hpke; 32],
    };
    state.members.insert("owner".into(), member(3, 1, 2));
    if with_bob {
        state.members.insert("bob".into(), member(1, 3, 4));
    }
    state
}

fn sample_checkpoint() -> Checkpoint {
    Checkpoint {
        frontier_depths: vec![([5u8; 32], 2), ([6u8; 32], 1)],
        state: GroupStateView::of(&sample_state(false)),
        prev_snapshot: Some([9u8; 32]),
        has_been_shared: true,
        reset_authority: Some([7u8; 32]),
        sealing: vec![SealingEntry {
            op_id: [8u8; 32],
            origin: SealingOrigin::Genesis,
            author: "owner".into(),
            bytes: vec![1, 2, 3],
        }],
        minting_ops_baseline: 2,
        author: "owner".into(),
    }
}

#[test]
fn every_checkpoint_field_is_in_the_signed_bytes() {
    let canon = |c: &Checkpoint| {
        let mut b = Vec::new();
        c.write_canonical(&mut b);
        b
    };
    let base = sample_checkpoint();
    let baseline = canon(&base);

    let mut t = base.clone();
    t.frontier_depths.push(([7u8; 32], 3));
    assert_ne!(canon(&t), baseline, "frontier_depths keys (the cut) are signed");
    let mut t = base.clone();
    t.frontier_depths[0].1 = 99;
    assert_ne!(canon(&t), baseline, "frontier_depths depths are signed");
    let mut t = base.clone();
    t.prev_snapshot = None;
    assert_ne!(canon(&t), baseline, "prev_snapshot is signed");
    let mut t = base.clone();
    t.has_been_shared = false;
    assert_ne!(canon(&t), baseline, "has_been_shared is signed");
    let mut t = base.clone();
    t.reset_authority = None;
    assert_ne!(canon(&t), baseline, "reset_authority is signed");
    let mut t = base.clone();
    t.author = "mallory".into();
    assert_ne!(canon(&t), baseline, "author is signed");
    let mut t = base.clone();
    t.sealing[0].bytes.push(9);
    assert_ne!(canon(&t), baseline, "sealing bytes are signed");
    let mut t = base.clone();
    t.sealing[0].origin = SealingOrigin::Reseal;
    assert_ne!(canon(&t), baseline, "sealing origin is signed");
    let mut t = base.clone();
    t.minting_ops_baseline = 5;
    assert_ne!(canon(&t), baseline, "minting_ops_baseline is signed");
    let mut t = base.clone();
    t.state = GroupStateView::of(&sample_state(true));
    assert_ne!(canon(&t), baseline, "the membership state is signed");
}

#[test]
fn the_cut_is_signed_in_order_of_its_ids() {
    let mut a = Vec::new();
    sample_checkpoint().write_canonical(&mut a);
    let mut turned = sample_checkpoint();
    turned.frontier_depths.reverse();
    let mut b = Vec::new();
    turned.write_canonical(&mut b);
    assert_eq!(a, b);
}

#[test]
fn an_optional_key_has_a_tag_before_it() {
    let mut out = Vec::new();
    push_opt_hash(&mut out, Some(&[4u8, 5u8]));
    push_opt_hash::<2>(&mut out, None);
    assert_eq!(out, vec![1, 4, 5, 0]);
}

// ---- transport ------------------------------------------------------------------------------------

#[test]
fn op_codec_roundtrips() {
    let through = |op: &KeyringOp| dto_to_op(op_to_dto(op)).unwrap();
    let op = sign_op([2; 32], vec![[1; 32]], "founder", add_as("bob", CO_OWNER, 2), &sk(1));
    let back = through(&op);
    assert_eq!(op.id, back.id);
    assert_eq!(op.parents, back.parents);
    assert_eq!(op.author, back.author);
    assert_eq!(op.signature, back.signature);
    assert_eq!(op.author_public_key, back.author_public_key);
    let g = sign_op([1; 32], vec![], "founder", create(&[named("founder", OWNER, 1)]), &sk(1));
    assert_eq!(through(&g).id, g.id);
    let p = sign_op(
        [3; 32],
        vec![[1; 32]],
        "founder",
        KeyringAction::Propose { proposal_id: [7; 32], target: Box::new(add_as("x", EDITOR, 9)) },
        &sk(1),
    );
    assert_eq!(through(&p).id, p.id);
    assert_eq!(through(&p), p);
    let rf = sign_op(
        [4; 32],
        vec![[1; 32]],
        "founder",
        KeyringAction::ReFound {
            member: "founder".into(),
            new_author_public_key: vk(7),
            new_hpke_public_key: [7u8; 32],
            era: 3,
        },
        &sk(1),
    );
    let rf_back = through(&rf);
    assert_eq!(rf_back.id, rf.id);
    assert_eq!(rf_back.action, rf.action, "ReFound survives the wire codec field-for-field");
    let rot = sign_op(
        [5; 32],
        vec![[1; 32]],
        "founder",
        KeyringAction::RotateRecoveryAuthority { new_reset_authority: vk(8) },
        &sk(1),
    );
    assert_eq!(through(&rot).action, rot.action, "RotateRecoveryAuthority survives the wire codec");
}

#[test]
fn a_frame_gives_its_body_back() {
    let framed = frame_body(vec![1, 2, 3]);
    assert_eq!(unframe_body(&framed).unwrap(), vec![1, 2, 3]);
    assert!(unframe_body(&[]).is_err());
    assert!(sig64(&[0; 63]).is_err());
    assert_eq!(sig64(&[5; 64]).unwrap(), [5; 64]);
}

type Blobs = BTreeMap<String, KeyringOp>;

fn push(sync: &mut KeyringBlobSync, store: &mut Blobs, op: &KeyringOp) {
    let present = store.contains_key(&op_key(&op.id));
    let put = |key: &str, bytes: &Vec<u8>| {
        assert_eq!(key, op_key(&op.id));
        assert_eq!(*bytes, op_bytes(op));
        if present {
            PutOutcome::Present
        } else {
            PutOutcome::Written
        }
    };
    sync.push(op, op_bytes, put).unwrap();
    store.entry(op_key(&op.id)).or_insert_with(|| copy_op(op));
}
fn pull(sync: &mut KeyringBlobSync, store: &Blobs, into: &mut Replica) -> Result<PullReport, BlobSyncError> {
    let keys: Vec<String> = store.keys().cloned().collect();
    let engine = RefCell::new(into);
    sync.pull(
        &keys,
        &|key: &String| Ok(store.get(key).map(copy_op)),
        &|op: &KeyringOp| {
            engine.borrow_mut().apply(copy_op(op));
            Ok(())
        },
        &|| Ok(()),
    )
}
fn open_engine(members: &[KeyringMemberInit]) -> Replica {
    Replica { rules: LENIENT, base: Group::of(&[], members, None), ops: vec![] }
}
fn founding(gm: &[KeyringMemberInit]) -> KeyringOp {
    sign_op([1; 32], vec![], "founder", create(gm), &sk(1))
}
fn adding_bob() -> KeyringOp {
    sign_op([2; 32], vec![[1; 32]], "founder", add_as("bob", CO_OWNER, 2), &sk(1))
}

#[test]
fn two_replicas_converge_over_blob() {
    let mut store = Blobs::new();
    let gm = vec![named("founder", OWNER, 1)];
    let (mut ea, mut eb) = (open_engine(&gm), open_engine(&gm));
    let (mut sa, mut sb) = (KeyringBlobSync::new(), KeyringBlobSync::new());
    for op in [founding(&gm), adding_bob()] {
        ea.apply(copy_op(&op));
        push(&mut sa, &mut store, &op);
    }
    pull(&mut sb, &store, &mut eb).unwrap();
    assert_eq!(ea.ids(), eb.ids(), "B converges to A over the blob store");
    assert!(eb.ids().contains(&"bob".to_string()));
}

#[test]
fn a_fork_converges_and_both_survive() {
    let mut store = Blobs::new();
    let gm = vec![named("founder", OWNER, 1), named("bob", CO_OWNER, 2), named("carol", CO_OWNER, 3)];
    let (mut ea, mut eb) = (open_engine(&gm), open_engine(&gm));
    let (mut sa, mut sb) = (KeyringBlobSync::new(), KeyringBlobSync::new());
    let g = founding(&gm);
    ea.apply(copy_op(&g));
    push(&mut sa, &mut store, &g);
    eb.apply(copy_op(&g));
    push(&mut sb, &mut store, &g);

    let dave = sign_op([2; 32], vec![[1; 32]], "bob", add_as("dave", EDITOR, 4), &sk(2));
    ea.apply(copy_op(&dave));
    push(&mut sa, &mut store, &dave);
    let erin = sign_op([3; 32], vec![[1; 32]], "carol", add_as("erin", EDITOR, 5), &sk(3));
    eb.apply(copy_op(&erin));
    push(&mut sb, &mut store, &erin);

    pull(&mut sa, &store, &mut ea).unwrap();
    pull(&mut sb, &store, &mut eb).unwrap();
    assert_eq!(ea.ids(), eb.ids(), "both replicas converge after the fork");
    assert!(ea.ids().contains(&"dave".to_string()) && ea.ids().contains(&"erin".to_string()));
}

#[test]
fn pull_detects_a_withheld_op_without_losing_local_state() {
    let mut store = Blobs::new();
    let gm = vec![named("founder", OWNER, 1)];
    let mut eb = open_engine(&gm);
    let (mut sa, mut sb) = (KeyringBlobSync::new(), KeyringBlobSync::new());
    let g = founding(&gm);
    push(&mut sa, &mut store, &g);
    push(&mut sa, &mut store, &adding_bob());

    let clean = pull(&mut sb, &store, &mut eb).unwrap();
    assert!(clean.withheld.is_empty(), "a complete listing withholds nothing");
    assert!(eb.ids().contains(&"bob".to_string()));

    store.remove(&op_key(&g.id));
    let rolled = pull(&mut sb, &store, &mut eb).unwrap();
    assert_eq!(rolled.withheld, vec![g.id], "the dropped op is flagged as withheld");
    assert!(eb.ids().contains(&"bob".to_string()), "the local resolved state is unaffected");
}

#[test]
fn pull_counts_submitted_ops_and_errors_display() {
    let mut store = Blobs::new();
    let gm = vec![named("founder", OWNER, 1)];
    let mut eb = open_engine(&gm);
    let (mut sa, mut sb) = (KeyringBlobSync::new(), KeyringBlobSync::new());
    push(&mut sa, &mut store, &founding(&gm));
    push(&mut sa, &mut store, &adding_bob());
    assert_eq!(pull(&mut sb, &store, &mut eb).unwrap().submitted, 2);
    assert_eq!(pull(&mut sb, &store, &mut eb).unwrap().submitted, 0);
    assert!(BlobSyncError::Malformed("boom").message().contains("boom"));
    assert!(BlobSyncError::Decode("x".into()).message().contains("decode"));
}

#[test]
fn a_blob_under_the_wrong_key_stops_the_pull() {
    let mut store = Blobs::new();
    store.insert(op_key(&[9; 32]), adding_bob());
    let mut sync = KeyringBlobSync::new();
    let mut e = open_engine(&[named("founder", OWNER, 1)]);
    assert_eq!(
        pull(&mut sync, &store, &mut e),
        Err(BlobSyncError::Malformed("op id does not match its blob key"))
    );
    let keys = vec!["op/x".to_string()];
    let gone = |_: &String| Ok(None);
    let refuse = |_: &KeyringOp| Err("BadSignature".to_string());
    let settle = || Err("Unsettled".to_string());
    assert_eq!(sync.pull(&keys, &gone, &refuse, &settle), Err(BlobSyncError::Malformed("listed key vanished")));
    let found = |_: &String| Ok(Some(adding_bob()));
    let own = vec![op_key(&[2; 32])];
    assert_eq!(sync.pull(&own, &found, &refuse, &settle), Err(BlobSyncError::Engine("BadSignature".to_string())));
    assert_eq!(sync.applied.len(), 0);
    let take = |_: &KeyringOp| Ok(());
    assert_eq!(sync.pull(&own, &found, &take, &settle), Err(BlobSyncError::Engine("Unsettled".to_string())));
    assert_eq!(sync.applied.len(), 1);
    assert!(matches!(sync.pushed(&[1; 32], PutOutcome::Failed("full".into())), Err(BlobSyncError::Store(_))));
}

// ---- the verifiers --------------------------------------------------------------------------------

#[test]
fn full_anchor_admission_bootstraps_and_advances_verified_state() {
    let start = provision_anchor(
        b"0123456789abcdef",
        &mid(1),
        vk(1),
        [1; 32],
        None,
        b"genesis seal".to_vec(),
        minter(sk(1)),
    );
    let first = DagAnchorVerifier.admit_update(None, copy_anchor(&start), &strict).unwrap();
    assert_eq!(first.view.members.len(), 1);

    let advanced = append_add(start, &mid(1), &minit(VIEWER, 2), Vec::new(), minter(sk(1)));
    let tip = watermark(&advanced);
    let second = DagAnchorVerifier.admit_update(Some(first.state), advanced, &strict).unwrap();
    assert!(second.changed);
    assert_eq!(second.view.members.len(), 2);
    assert!(!second.view.reset_boundary);
    assert_eq!(second.tree_id, b"0123456789abcdef");
    assert_eq!(second.update_ref, tip);
}

#[test]
fn full_anchor_admission_refuses_a_rollback() {
    let start = provision_anchor(b"fedcba9876543210", &mid(3), vk(3), [3; 32], None, Vec::new(), minter(sk(3)));
    let advanced = append_add(copy_anchor(&start), &mid(3), &minit(VIEWER, 4), Vec::new(), minter(sk(3)));
    let first = DagAnchorVerifier.admit_update(None, advanced, &strict).unwrap();
    assert_eq!(DagAnchorVerifier.admit_update(Some(first.state), start, &strict), Err(VerifyError::Rollback));
}

#[test]
fn a_re_founding_crosses_the_reset_boundary() {
    let rvk = recovery(5);
    let start = provision_anchor(b"tree", &mid(1), vk(1), [1; 32], Some(public(&rvk)), Vec::new(), minter(sk(1)));
    let first = DagAnchorVerifier.admit_update(None, copy_anchor(&start), &strict).unwrap();
    let again = append_refound(start, &mid(1), vk(7), [7; 32], 1, Vec::new(), minter(rvk));
    let second = DagAnchorVerifier.admit_update(Some(first.state), again, &strict).unwrap();
    assert!(second.view.reset_boundary && second.changed);
}

#[test]
fn an_anchor_travels_in_a_dag_envelope() {
    assert_eq!(unwrap(&wrap(vec![4, 2])), Ok(vec![4, 2]));
    assert_eq!(unwrap(&[0x08]), Err(VerifyError::Malformed));
}

fn admission(base: &EngineBase, ops: &Vec<KeyringOp>, op: &KeyringOp) -> AdmitRun {
    let (group, below) = starts(base);
    let earlier: Vec<&KeyringOp> = ops.iter().collect();
    let before = fold(STRICT, &group, &below, &earlier);
    let mut all = earlier.clone();
    all.push(op);
    let after = fold(STRICT, &group, &below, &all);
    let known = match &op.action {
        KeyringAction::Create { initial_members } => {
            initial_members.iter().any(|m| m.id == op.author && m.author_public_key == op.author_public_key)
        }
        _ => true,
    };
    let report = if !signature_holds(op) || !known {
        ApplyReport::BadSignature
    } else if op.parents.iter().any(|p| !earlier.iter().any(|o| o.id == *p)) {
        ApplyReport::Buffered
    } else {
        ApplyReport::Applied
    };
    AdmitRun {
        replayed: true,
        before: GroupStateView::of(&before.group.state()),
        report,
        authorized_at_position: after.authorized.get(&op.id).copied(),
        flushed: true,
        after: GroupStateView::of(&after.group.state()),
        group_id: group.id.clone(),
    }
}
fn verdict(prior: Option<DagTrustState>, update: Update) -> Result<DagAdmitted, VerifyError> {
    DagVerifier.admit_update(prior, update, &admission)
}
fn booted(gm: &[KeyringMemberInit]) -> DagTrustState {
    verdict(None, bootstrap_update(&gm.to_vec(), None, genesis(gm))).unwrap().state
}

#[test]
fn dag_verifier_folds_admitted_ops_into_a_membership_view() {
    let gm = vec![minit(OWNER, 1)];
    let boot = verdict(None, bootstrap_update(&gm, None, genesis(&gm))).unwrap();
    assert!(boot.changed);
    assert_eq!(boot.view.members.len(), 1);
    assert_eq!(boot.view.owner().unwrap().member_id, mid(1));

    let add_bob = sign_op([2; 32], vec![[1; 32]], mid(1), add(CO_OWNER, 2), &sk(1));
    let step = verdict(Some(boot.state), op_update(add_bob)).unwrap();
    assert!(step.changed, "adding a member changes the view");
    let mut ids: Vec<String> = step.view.members.iter().map(|m| m.member_id.clone()).collect();
    ids.sort();
    let mut expected = vec![mid(1), mid(2)];
    expected.sort();
    assert_eq!(ids, expected);
    assert_eq!(step.view.signers().len(), 2, "both are signers");
    assert_eq!(step.update_ref, vec![2; 32]);
}

#[test]
fn a_permanently_unauthorized_op_is_refused_not_admitted() {
    let state = booted(&[minit(OWNER, 1), minit(MAINTAINER, 4)]);
    let daves_add = sign_op([2; 32], vec![[1; 32]], mid(4), add(EDITOR, 9), &sk(4));
    assert_eq!(
        verdict(Some(state), op_update(daves_add)).unwrap_err(),
        VerifyError::Unauthorized,
        "an op unauthorized at its causal position is refused, not kept as a no-op"
    );
}

#[test]
fn an_op_that_lost_a_concurrent_race_is_admitted_as_a_no_op() {
    let state = booted(&[minit(OWNER, 1), minit(CO_OWNER, 2)]);
    let remove_bob = sign_op([2; 32], vec![[1; 32]], mid(1), KeyringAction::Remove { member: mid(2) }, &sk(1));
    let s1 = verdict(Some(state), op_update(remove_bob)).unwrap();
    let bob_adds_carol = sign_op([3; 32], vec![[1; 32]], mid(2), add(EDITOR, 3), &sk(2));
    let out = verdict(Some(s1.state), op_update(bob_adds_carol)).unwrap();
    assert!(!out.changed, "bob's concurrently-invalidated add is admitted as a no-op, not refused");
    assert!(!out.view.members.iter().any(|m| m.member_id == mid(3)), "and carol is not added");
}

#[test]
fn a_genesis_with_a_bad_signature_is_refused() {
    let gm = vec![minit(OWNER, 1)];
    let bad = sign_op([1; 32], vec![], mid(1), create(&gm), &sk(9));
    assert!(verdict(None, bootstrap_update(&gm, None, bad)).is_err(), "a bad-signature genesis must not be admitted");
}

#[test]
fn a_bootstrap_with_a_non_self_certifying_pinned_member_is_refused() {
    let forged = named("aaaaaaaa-aaaa-8aaa-8aaa-aaaaaaaaaaaa", OWNER, 1);
    let gm = vec![forged.clone()];
    let genesis_op = sign_op([1; 32], vec![], forged.id.clone(), create(&gm), &sk(1));
    assert_eq!(
        verdict(None, bootstrap_update(&gm, None, genesis_op)).unwrap_err(),
        VerifyError::Malformed,
        "a pinned genesis member whose id does not bind its key is refused"
    );
}

#[test]
fn an_op_ahead_of_its_parents_is_stale() {
    let state = booted(&[minit(OWNER, 1)]);
    let early = sign_op([3; 32], vec![[2; 32]], mid(1), add(EDITOR, 3), &sk(1));
    assert_eq!(verdict(Some(state), op_update(early)).unwrap_err(), VerifyError::Stale);
    let late = sign_op([3; 32], vec![[2; 32]], mid(1), add(EDITOR, 3), &sk(1));
    assert_eq!(verdict(None, op_update(late)).unwrap_err(), VerifyError::Malformed);
}

// ---- the recovery key -----------------------------------------------------------------------------

#[test]
fn rvk_is_deterministic() {
    let secret = [7u8; 32];
    assert_eq!(rvk_public(&secret, &derive, &public), rvk_public(&secret, &derive, &public));
}

#[test]
fn rvk_is_domain_separated_from_the_raw_seed_key() {
    let secret = [7u8; 32];
    let direct = public(&Key(secret));
    assert_ne!(
        rvk_public(&secret, &derive, &public),
        direct,
        "the RVK must be domain-separated, not the raw seed key"
    );
}

#[test]
fn different_secrets_yield_different_rvks() {
    assert_ne!(rvk_public(&[1u8; 32], &derive, &public), rvk_public(&[2u8; 32], &derive, &public));
}

#[test]
fn the_recovery_key_is_derived_under_its_label() {
    let seen = RefCell::new(Vec::new());
    derive_rvk(&[3; 32], &|_: &[u8; 32], label: &[u8]| seen.borrow_mut().extend_from_slice(label));
    assert_eq!(seen.into_inner(), b"keyeo:rvk:v1".to_vec());
}
