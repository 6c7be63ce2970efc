//! Walking the chain: which keyring may follow the one that is trusted. The signatures, the quorum and the hash chain
//! are the engine's to judge; what goes into it, what comes of its verdict, and the marker that a tree was shared are
//! decided here.

use vstd::prelude::*;

use crate::keyring_chain::doc::{
    narrow_role, padded, pinned_rvk, reset_rvk, role16, signer_contents, to_pk32, KeyringRole, Signer, SignerContent,
};
use crate::keyring_chain::wire::{Keyring, KeyringContent, MemberContent};
use crate::layout::{be_4, be_bytes, be_value_4, put_u32_be};
use crate::order::text_equal;
use crate::text::{concat, copy_bytes};

verus! {

/// A founder or co-owner, who may author keyring revisions.
#[derive(Clone, Debug, PartialEq, Eq)]
pub struct AuthorizedSigner {
    pub public_key: Vec<u8>,
    pub member_id: String,
    pub role: i32,
}

/// What a signer's entry holds.
pub struct AuthorizedContent {
    pub public_key: Seq<u8>,
    pub member_id: Seq<char>,
    pub role: i32,
}

impl View for AuthorizedSigner {
    type V = AuthorizedContent;

    open spec fn view(&self) -> AuthorizedContent {
        AuthorizedContent { public_key: self.public_key@, member_id: self.member_id@, role: self.role }
    }
}

pub open spec fn authorized_contents(s: Seq<AuthorizedSigner>) -> Seq<AuthorizedContent> {
    Seq::new(s.len(), |i: int| s[i]@)
}

/// The signers among the members: those at co-owner or stronger.
pub open spec fn signers_of(members: Seq<MemberContent>) -> Seq<AuthorizedContent>
    decreases members.len(),
{
    if members.len() == 0 {
        Seq::empty()
    } else {
        let before = signers_of(members.drop_last());
        let m = members.last();
        if 1 <= m.role <= 2 {
            before.push(AuthorizedContent { public_key: m.author_public_key, member_id: m.member_id, role: m.role })
        } else {
            before
        }
    }
}

fn derived_signers(keyring: &Keyring) -> (r: Vec<AuthorizedSigner>)
    ensures
        authorized_contents(r@) == signers_of(keyring@.members),
{
    let ghost all = keyring@.members;
    let mut out: Vec<AuthorizedSigner> = Vec::new();
    let mut i: usize = 0;
    assert(authorized_contents(out@) =~= Seq::<AuthorizedContent>::empty());
    while i < keyring.members.len()
        invariant
            i <= keyring.members.len(),
            all == keyring@.members,
            authorized_contents(out@) == signers_of(all.take(i as int)),
        decreases keyring.members.len() - i,
    {
        let m = &keyring.members[i];
        let ghost before = authorized_contents(out@);
        assert(all.take(i + 1).drop_last() =~= all.take(i as int));
        assert(all.take(i + 1).last() == m@);
        if 1 <= m.role && m.role <= 2 {
            let s = AuthorizedSigner {
                public_key: copy_bytes(m.author_public_key.as_slice()),
                member_id: m.member_id.clone(),
                role: m.role,
            };
            let ghost added = s@;
            out.push(s);
            assert(authorized_contents(out@) =~= before.push(added));
        }
        i = i + 1;
    }
    assert(all.take(i as int) =~= all);
    out
}

/// The trusted state of one tree: what the last keyring that was accepted pins.
#[derive(Clone, Debug, PartialEq, Eq)]
pub struct KeyringAnchor {
    pub tree_id: Vec<u8>,
    pub revision: u32,
    pub keyring_hash: [u8; 32],
    pub trusted_signers: Vec<AuthorizedSigner>,
    pub governance_kind: u32,
    pub governance_threshold: u32,
    /// The key that signs resets; empty where there is none.
    pub recovery_verifying_key: Vec<u8>,
    /// The revision at which the tree was first shared; zero where it never was.
    pub first_shared_revision: u32,
}

/// What an anchor holds.
pub struct AnchorContent {
    pub tree_id: Seq<u8>,
    pub revision: u32,
    pub keyring_hash: Seq<u8>,
    pub trusted_signers: Seq<AuthorizedContent>,
    pub governance_kind: u32,
    pub governance_threshold: u32,
    pub recovery_verifying_key: Seq<u8>,
    pub first_shared_revision: u32,
}

impl View for KeyringAnchor {
    type V = AnchorContent;

    open spec fn view(&self) -> AnchorContent {
        AnchorContent {
            tree_id: self.tree_id@,
            revision: self.revision,
            keyring_hash: self.keyring_hash@,
            trusted_signers: authorized_contents(self.trusted_signers@),
            governance_kind: self.governance_kind,
            governance_threshold: self.governance_threshold,
            recovery_verifying_key: self.recovery_verifying_key@,
            first_shared_revision: self.first_shared_revision,
        }
    }
}

/// The anchor that a trusted keyring with this hash gives.
pub open spec fn anchor_of(k: KeyringContent, hash: Seq<u8>) -> AnchorContent {
    AnchorContent {
        tree_id: k.tree_id,
        revision: k.revision,
        keyring_hash: hash,
        trusted_signers: signers_of(k.members),
        governance_kind: k.governance_kind,
        governance_threshold: k.governance_threshold,
        recovery_verifying_key: match pinned_rvk(k.recovery_keys) {
            Some(v) => v,
            None => Seq::empty(),
        },
        first_shared_revision: k.first_shared_revision,
    }
}

fn copy_signers(v: &Vec<AuthorizedSigner>) -> (r: Vec<AuthorizedSigner>)
    ensures
        authorized_contents(r@) == authorized_contents(v@),
{
    let mut out: Vec<AuthorizedSigner> = Vec::new();
    let mut i: usize = 0;
    while i < v.len()
        invariant
            i <= v.len(),
            out@.len() == i,
            forall|j: int| 0 <= j < i ==> (#[trigger] out@[j])@ == v@[j]@,
        decreases v.len() - i,
    {
        out.push(
            AuthorizedSigner {
                public_key: copy_bytes(v[i].public_key.as_slice()),
                member_id: v[i].member_id.clone(),
                role: v[i].role,
            },
        );
        i = i + 1;
    }
    assert(authorized_contents(out@) =~= authorized_contents(v@));
    out
}

impl KeyringAnchor {
    /// The anchor of a keyring that is trusted already, given its hash. Nothing is checked.
    pub fn from_keyring(keyring: &Keyring, keyring_hash: [u8; 32]) -> (r: KeyringAnchor)
        ensures
            r@ == anchor_of(keyring@, keyring_hash@),
    {
        let recovery_verifying_key: Vec<u8> = match reset_rvk(keyring) {
            Some(v) => v,
            None => Vec::new(),
        };
        KeyringAnchor {
            tree_id: copy_bytes(keyring.tree_id.as_slice()),
            revision: keyring.revision,
            keyring_hash,
            trusted_signers: derived_signers(keyring),
            governance_kind: keyring.governance_kind,
            governance_threshold: keyring.governance_threshold,
            recovery_verifying_key,
            first_shared_revision: keyring.first_shared_revision,
        }
    }

    /// A copy.
    pub fn duplicate(&self) -> (r: KeyringAnchor)
        ensures
            r@ == self@,
    {
        KeyringAnchor {
            tree_id: copy_bytes(self.tree_id.as_slice()),
            revision: self.revision,
            keyring_hash: self.keyring_hash,
            trusted_signers: copy_signers(&self.trusted_signers),
            governance_kind: self.governance_kind,
            governance_threshold: self.governance_threshold,
            recovery_verifying_key: copy_bytes(self.recovery_verifying_key.as_slice()),
            first_shared_revision: self.first_shared_revision,
        }
    }
}

/// An anchor in the terms of the engine.
#[derive(Clone, Debug, PartialEq, Eq)]
pub struct LinearAnchor {
    pub group_id: Vec<u8>,
    pub revision: u32,
    pub doc_hash: [u8; 32],
    pub signers: Vec<Signer>,
    pub governance_kind: u32,
    pub governance_threshold: u32,
    pub recovery_authority: Option<[u8; 32]>,
}

/// What the engine's anchor holds.
pub struct LinearContent {
    pub group_id: Seq<u8>,
    pub revision: u32,
    pub doc_hash: Seq<u8>,
    pub signers: Seq<SignerContent>,
    pub governance_kind: u32,
    pub governance_threshold: u32,
    pub recovery_authority: Option<Seq<u8>>,
}

/// A key, as the bytes it holds.
pub open spec fn key_view(k: Option<[u8; 32]>) -> Option<Seq<u8>> {
    match k {
        Some(a) => Some(a@),
        None => None,
    }
}

impl View for LinearAnchor {
    type V = LinearContent;

    open spec fn view(&self) -> LinearContent {
        LinearContent {
            group_id: self.group_id@,
            revision: self.revision,
            doc_hash: self.doc_hash@,
            signers: signer_contents(self.signers@),
            governance_kind: self.governance_kind,
            governance_threshold: self.governance_threshold,
            recovery_authority: key_view(self.recovery_authority),
        }
    }
}

/// An anchor in the terms of the engine.
pub open spec fn linear(a: AnchorContent) -> LinearContent {
    LinearContent {
        group_id: a.tree_id,
        revision: a.revision,
        doc_hash: a.keyring_hash,
        signers: a.trusted_signers.map_values(
            |s: AuthorizedContent|
                SignerContent { id: s.member_id, role: KeyringRole(role16(s.role)), public_key: padded(s.public_key) },
        ),
        governance_kind: a.governance_kind,
        governance_threshold: a.governance_threshold,
        recovery_authority: if a.recovery_verifying_key.len() == 0 {
            None
        } else {
            Some(padded(a.recovery_verifying_key))
        },
    }
}

/// The anchor that the engine's stands for, for a tree first shared at `first_shared`.
pub open spec fn unlinear(a: LinearContent, first_shared: u32) -> AnchorContent {
    AnchorContent {
        tree_id: a.group_id,
        revision: a.revision,
        keyring_hash: a.doc_hash,
        trusted_signers: a.signers.map_values(
            |s: SignerContent| AuthorizedContent { public_key: s.public_key, member_id: s.id, role: s.role.0 as i32 },
        ),
        governance_kind: a.governance_kind,
        governance_threshold: a.governance_threshold,
        recovery_verifying_key: match a.recovery_authority {
            Some(k) => k,
            None => Seq::empty(),
        },
        first_shared_revision: first_shared,
    }
}

/// An anchor in the terms of the engine.
pub fn to_linear_anchor(prior: &KeyringAnchor) -> (r: LinearAnchor)
    ensures
        r@ == linear(prior@),
{
    let mut signers: Vec<Signer> = Vec::new();
    let mut i: usize = 0;
    while i < prior.trusted_signers.len()
        invariant
            i <= prior.trusted_signers.len(),
            signers@.len() == i,
            forall|j: int|
                0 <= j < i ==> (#[trigger] signers@[j])@ == (SignerContent {
                    id: prior@.trusted_signers[j].member_id,
                    role: KeyringRole(role16(prior@.trusted_signers[j].role)),
                    public_key: padded(prior@.trusted_signers[j].public_key),
                }),
        decreases prior.trusted_signers.len() - i,
    {
        let s = &prior.trusted_signers[i];
        signers.push(
            Signer {
                id: s.member_id.clone(),
                role: KeyringRole(narrow_role(s.role)),
                public_key: to_pk32(s.public_key.as_slice()),
            },
        );
        i = i + 1;
    }
    let recovery_authority: Option<[u8; 32]> = if prior.recovery_verifying_key.len() == 0 {
        None
    } else {
        Some(to_pk32(prior.recovery_verifying_key.as_slice()))
    };
    let r = LinearAnchor {
        group_id: copy_bytes(prior.tree_id.as_slice()),
        revision: prior.revision,
        doc_hash: prior.keyring_hash,
        signers,
        governance_kind: prior.governance_kind,
        governance_threshold: prior.governance_threshold,
        recovery_authority,
    };
    assert(r@.signers =~= linear(prior@).signers);
    r
}

/// The anchor that the engine's stands for, for a tree first shared at `first_shared`.
pub fn from_linear_anchor(out: LinearAnchor, first_shared: u32) -> (r: KeyringAnchor)
    ensures
        r@ == unlinear(out@, first_shared),
{
    let mut trusted_signers: Vec<AuthorizedSigner> = Vec::new();
    let mut i: usize = 0;
    while i < out.signers.len()
        invariant
            i <= out.signers.len(),
            trusted_signers@.len() == i,
            forall|j: int|
                0 <= j < i ==> (#[trigger] trusted_signers@[j])@ == (AuthorizedContent {
                    public_key: out@.signers[j].public_key,
                    member_id: out@.signers[j].id,
                    role: out@.signers[j].role.0 as i32,
                }),
        decreases out.signers.len() - i,
    {
        let s = &out.signers[i];
        trusted_signers.push(
            AuthorizedSigner {
                public_key: copy_bytes(s.public_key.as_slice()),
                member_id: s.id.clone(),
                role: s.role.0 as i32,
            },
        );
        i = i + 1;
    }
    let recovery_verifying_key: Vec<u8> = match &out.recovery_authority {
        Some(k) => copy_bytes(k.as_slice()),
        None => Vec::new(),
    };
    let ghost signers = unlinear(out@, first_shared).trusted_signers;
    let r = KeyringAnchor {
        tree_id: out.group_id,
        revision: out.revision,
        keyring_hash: out.doc_hash,
        trusted_signers,
        governance_kind: out.governance_kind,
        governance_threshold: out.governance_threshold,
        recovery_verifying_key,
        first_shared_revision: first_shared,
    };
    assert(r@.trusted_signers =~= signers);
    r
}

/// Why the engine refuses a keyring.
#[derive(Clone, Copy, Debug, PartialEq, Eq)]
pub enum EngineError {
    GroupMismatch,
    LayoutAhead,
    BadStructure(&'static str),
    /// Its structure was refused, for this reason.
    Structure(&'static str),
    NonSequential,
    RevisionOverflow,
    Fork,
    UnendorsedOrdinaryChange,
    UnendorsedSetChange,
    WrapIncomplete,
    BadBootstrap,
}

/// Why a keyring is refused as a successor.
#[derive(Clone, Copy, Debug, PartialEq, Eq)]
pub enum KeyringError {
    TreeMismatch,
    LayoutAhead,
    BadStructure(&'static str),
    /// A rollback or a gap.
    NonSequential,
    /// The history was rewritten.
    Fork,
    UnendorsedOrdinaryChange,
    UnendorsedSetChange,
    WrapIncomplete,
    BadBootstrap,
    RevisionOverflow,
    /// A shared tree cannot be unshared.
    FirstSharedRegressed,
}

impl KeyringError {
    /// What went wrong, in words.
    pub fn message(&self) -> (r: String)
        ensures
            r@ == (match *self {
                KeyringError::TreeMismatch => "candidate is for a different tree"@,
                KeyringError::LayoutAhead => "keyring layout is newer than this build understands"@,
                KeyringError::BadStructure(s) => "keyring is structurally invalid: "@ + s@,
                KeyringError::NonSequential => "revision is not exactly one past the anchor (rollback or skip)"@,
                KeyringError::Fork => "prev_keyring_hash does not chain onto the anchor (fork / rewritten history)"@,
                KeyringError::UnendorsedOrdinaryChange => "an ordinary revision not signed by any prior authorized signer"@,
                KeyringError::UnendorsedSetChange =>
                    "a signer-set change not authorized by the founder or prior-set unanimity"@,
                KeyringError::WrapIncomplete => "a live signer or member lacks a wrap in the newest epoch"@,
                KeyringError::BadBootstrap => "bootstrap anchor did not match the pinned head / genesis"@,
                KeyringError::RevisionOverflow => "the revision would overflow"@,
                KeyringError::FirstSharedRegressed =>
                    "first_shared_revision regressed or is out of range (a shared tree cannot un-share)"@,
            }),
    {
        match *self {
            KeyringError::TreeMismatch => "candidate is for a different tree".to_owned(),
            KeyringError::LayoutAhead => "keyring layout is newer than this build understands".to_owned(),
            KeyringError::BadStructure(s) => concat("keyring is structurally invalid: ", s),
            KeyringError::NonSequential => "revision is not exactly one past the anchor (rollback or skip)".to_owned(),
            KeyringError::Fork => {
                "prev_keyring_hash does not chain onto the anchor (fork / rewritten history)".to_owned()
            },
            KeyringError::UnendorsedOrdinaryChange => {
                "an ordinary revision not signed by any prior authorized signer".to_owned()
            },
            KeyringError::UnendorsedSetChange => {
                "a signer-set change not authorized by the founder or prior-set unanimity".to_owned()
            },
            KeyringError::WrapIncomplete => "a live signer or member lacks a wrap in the newest epoch".to_owned(),
            KeyringError::BadBootstrap => "bootstrap anchor did not match the pinned head / genesis".to_owned(),
            KeyringError::RevisionOverflow => "the revision would overflow".to_owned(),
            KeyringError::FirstSharedRegressed => {
                "first_shared_revision regressed or is out of range (a shared tree cannot un-share)".to_owned()
            },
        }
    }
}

/// The refusal that the engine's stands for.
pub open spec fn chain_error(e: EngineError) -> KeyringError {
    match e {
        EngineError::GroupMismatch => KeyringError::TreeMismatch,
        EngineError::LayoutAhead => KeyringError::LayoutAhead,
        EngineError::BadStructure(s) => KeyringError::BadStructure(s),
        EngineError::Structure(s) => if s@ == "layout ahead"@ {
            KeyringError::LayoutAhead
        } else if s@ == "wrap incomplete"@ {
            KeyringError::WrapIncomplete
        } else {
            KeyringError::BadStructure(s)
        },
        EngineError::NonSequential => KeyringError::NonSequential,
        EngineError::RevisionOverflow => KeyringError::RevisionOverflow,
        EngineError::Fork => KeyringError::Fork,
        EngineError::UnendorsedOrdinaryChange => KeyringError::UnendorsedOrdinaryChange,
        EngineError::UnendorsedSetChange => KeyringError::UnendorsedSetChange,
        EngineError::WrapIncomplete => KeyringError::WrapIncomplete,
        EngineError::BadBootstrap => KeyringError::BadBootstrap,
    }
}

/// The refusal that the engine's stands for.
pub fn map_linear_err(e: EngineError) -> (r: KeyringError)
    ensures
        r == chain_error(e),
{
    match e {
        EngineError::GroupMismatch => KeyringError::TreeMismatch,
        EngineError::LayoutAhead => KeyringError::LayoutAhead,
        EngineError::BadStructure(s) => KeyringError::BadStructure(s),
        EngineError::Structure(s) => {
            if text_equal(s, "layout ahead") {
                KeyringError::LayoutAhead
            } else if text_equal(s, "wrap incomplete") {
                KeyringError::WrapIncomplete
            } else {
                KeyringError::BadStructure(s)
            }
        },
        EngineError::NonSequential => KeyringError::NonSequential,
        EngineError::RevisionOverflow => KeyringError::RevisionOverflow,
        EngineError::Fork => KeyringError::Fork,
        EngineError::UnendorsedOrdinaryChange => KeyringError::UnendorsedOrdinaryChange,
        EngineError::UnendorsedSetChange => KeyringError::UnendorsedSetChange,
        EngineError::WrapIncomplete => KeyringError::WrapIncomplete,
        EngineError::BadBootstrap => KeyringError::BadBootstrap,
    }
}

/// A governing keyring's revision as an opaque reference: four big-endian bytes.
pub fn encode_governing_ref(revision: u32) -> (r: Vec<u8>)
    ensures
        r@ == be_bytes(revision as nat, 4),
{
    let mut out: Vec<u8> = Vec::new();
    put_u32_be(&mut out, revision);
    assert(out@ =~= be_bytes(revision as nat, 4));
    out
}

/// The revision that a reference gives, if it has four bytes.
pub open spec fn governing_revision(b: Seq<u8>) -> Option<u32> {
    if b.len() == 4 {
        Some(be_value_4(b) as u32)
    } else {
        None
    }
}

/// The revision that a reference gives, if it has four bytes.
pub fn decode_governing_ref(governing_ref: &[u8]) -> (r: Option<u32>)
    ensures
        r == governing_revision(governing_ref@),
{
    if governing_ref.len() != 4 {
        return None;
    }
    let a: u32 = governing_ref[0] as u32 * 0x100_0000;
    let b: u32 = governing_ref[1] as u32 * 0x1_0000;
    let c: u32 = governing_ref[2] as u32 * 0x100;
    Some(a + b + c + governing_ref[3] as u32)
}

/// A governing reference reads back to the revision that was written.
pub proof fn governing_refs_round_trip(revision: u32)
    ensures
        governing_revision(be_bytes(revision as nat, 4)) == Some(revision),
{
    be_4(revision);
    crate::layout::be_4_reads_back(revision);
}

/// What the engine is asked about a keyring.
#[derive(Clone, Debug, PartialEq, Eq)]
pub enum EngineCall {
    /// Does it follow this anchor?
    Transition(LinearAnchor),
    /// Is it a genesis signed by this founder?
    Genesis([u8; 32]),
    /// Is it the head that was pinned?
    Pinned { group_id: Vec<u8>, revision: u32, hash: [u8; 32] },
    /// Does it stand on its own, under this recovery authority where there is one?
    Reset(Option<[u8; 32]>),
}

/// What a question to the engine holds.
pub enum CallContent {
    Transition(LinearContent),
    Genesis(Seq<u8>),
    Pinned { group_id: Seq<u8>, revision: u32, hash: Seq<u8> },
    Reset(Option<Seq<u8>>),
}

impl View for EngineCall {
    type V = CallContent;

    open spec fn view(&self) -> CallContent {
        match *self {
            EngineCall::Transition(a) => CallContent::Transition(a@),
            EngineCall::Genesis(k) => CallContent::Genesis(k@),
            EngineCall::Pinned { group_id, revision, hash } => CallContent::Pinned {
                group_id: group_id@,
                revision,
                hash: hash@,
            },
            EngineCall::Reset(k) => CallContent::Reset(key_view(k)),
        }
    }
}

/// The engine was asked `call` about `keyring` and said `verdict`.
pub open spec fn engine_said<E: Fn(&EngineCall, &Keyring) -> Result<LinearAnchor, EngineError>>(
    engine: E,
    call: EngineCall,
    keyring: Keyring,
    verdict: Result<LinearAnchor, EngineError>,
) -> bool {
    engine.ensures((&call, &keyring), verdict)
}

/// What a verdict comes to for a keyring first shared at `first_shared`: the engine's anchor with that marker, or its
/// refusal.
pub open spec fn anchored(
    verdict: Result<LinearAnchor, EngineError>,
    first_shared: u32,
    r: Result<KeyringAnchor, KeyringError>,
) -> bool {
    match verdict {
        Ok(a) => r matches Ok(k) && k@ == unlinear(a@, first_shared),
        Err(e) => r == Err::<KeyringAnchor, KeyringError>(chain_error(e)),
    }
}

/// The engine was asked `call` about `keyring`, and `r` is what its verdict comes to.
pub open spec fn judged<E: Fn(&EngineCall, &Keyring) -> Result<LinearAnchor, EngineError>>(
    engine: E,
    call: CallContent,
    keyring: Keyring,
    r: Result<KeyringAnchor, KeyringError>,
) -> bool {
    exists|c: EngineCall, verdict: Result<LinearAnchor, EngineError>|
        c@ == call && #[trigger] engine_said(engine, c, keyring, verdict) && anchored(
            verdict,
            keyring.first_shared_revision,
            r,
        )
}

/// What a verdict comes to for a keyring first shared at `first_shared`.
pub fn anchor_of_verdict(verdict: Result<LinearAnchor, EngineError>, first_shared: u32) -> (r: Result<
    KeyringAnchor,
    KeyringError,
>)
    ensures
        anchored(verdict, first_shared, r),
{
    match verdict {
        Ok(a) => Ok(from_linear_anchor(a, first_shared)),
        Err(e) => Err(map_linear_err(e)),
    }
}

fn judge<E: Fn(&EngineCall, &Keyring) -> Result<LinearAnchor, EngineError>>(
    engine: &E,
    call: EngineCall,
    keyring: &Keyring,
) -> (r: Result<KeyringAnchor, KeyringError>)
    requires
        forall|c: EngineCall, k: Keyring| engine.requires((&c, &k)),
    ensures
        judged(*engine, call@, *keyring, r),
{
    let verdict = engine(&call, keyring);
    let ghost v = verdict;
    assert(engine_said(*engine, call, *keyring, v));
    anchor_of_verdict(verdict, keyring.first_shared_revision)
}

/// The marker of the candidate is no later than its revision, and is the prior one where there was one.
pub open spec fn marker_kept(prior: u32, candidate: KeyringContent) -> bool {
    &&& candidate.first_shared_revision <= candidate.revision
    &&& prior != 0 ==> candidate.first_shared_revision == prior
}

/// How a candidate comes out as the successor of `prior`.
pub open spec fn transition<E: Fn(&EngineCall, &Keyring) -> Result<LinearAnchor, EngineError>>(
    engine: E,
    prior: AnchorContent,
    candidate: Keyring,
    r: Result<KeyringAnchor, KeyringError>,
) -> bool {
    if !marker_kept(prior.first_shared_revision, candidate@) {
        r == Err::<KeyringAnchor, KeyringError>(KeyringError::FirstSharedRegressed)
    } else {
        judged(engine, CallContent::Transition(linear(prior)), candidate, r)
    }
}

/// Judges `candidate` as the successor of `prior`. A marker that moves is refused before the engine is asked.
pub fn verify_transition<E: Fn(&EngineCall, &Keyring) -> Result<LinearAnchor, EngineError>>(
    prior: &KeyringAnchor,
    candidate: &Keyring,
    engine: &E,
) -> (r: Result<KeyringAnchor, KeyringError>)
    requires
        forall|c: EngineCall, k: Keyring| engine.requires((&c, &k)),
    ensures
        transition(*engine, prior@, *candidate, r),
{
    if candidate.first_shared_revision > candidate.revision {
        return Err(KeyringError::FirstSharedRegressed);
    }
    if prior.first_shared_revision != 0 && candidate.first_shared_revision != prior.first_shared_revision {
        return Err(KeyringError::FirstSharedRegressed);
    }
    judge(engine, EngineCall::Transition(to_linear_anchor(prior)), candidate)
}

/// How a run of candidates comes out: each is the successor of the one before, up to the first that is refused.
pub open spec fn walk<E: Fn(&EngineCall, &Keyring) -> Result<LinearAnchor, EngineError>>(
    engine: E,
    prior: AnchorContent,
    hops: Seq<Keyring>,
    r: Result<KeyringAnchor, KeyringError>,
) -> bool
    decreases hops.len(),
{
    if hops.len() == 0 {
        r matches Ok(a) && a@ == prior
    } else {
        exists|step: Result<KeyringAnchor, KeyringError>| #[trigger]
            transition(engine, prior, hops[0], step) && match step {
                Err(e) => r == Err::<KeyringAnchor, KeyringError>(e),
                Ok(a) => walk(engine, a@, hops.drop_first(), r),
            }
    }
}

/// Judges a run of candidates, hop by hop.
pub fn verify_walk<E: Fn(&EngineCall, &Keyring) -> Result<LinearAnchor, EngineError>>(
    prior: &KeyringAnchor,
    hops: &Vec<Keyring>,
    engine: &E,
) -> (r: Result<KeyringAnchor, KeyringError>)
    requires
        forall|c: EngineCall, k: Keyring| engine.requires((&c, &k)),
    ensures
        walk(*engine, prior@, hops@, r),
{
    let mut anchor: KeyringAnchor = prior.duplicate();
    let mut i: usize = 0;
    assert(hops@.skip(0) =~= hops@);
    while i < hops.len()
        invariant
            i <= hops.len(),
            forall|c: EngineCall, k: Keyring| engine.requires((&c, &k)),
            forall|r: Result<KeyringAnchor, KeyringError>|
                walk(*engine, anchor@, hops@.skip(i as int), r) ==> #[trigger] walk(*engine, prior@, hops@, r),
        decreases hops.len() - i,
    {
        let step = verify_transition(&anchor, &hops[i], engine);
        let ghost here = hops@.skip(i as int);
        let ghost before = anchor@;
        assert(here[0] == hops@[i as int]);
        assert(here.drop_first() =~= hops@.skip(i + 1));
        assert(transition(*engine, before, here[0], step));
        match step {
            Err(e) => {
                let r: Result<KeyringAnchor, KeyringError> = Err(e);
                assert(walk(*engine, before, here, r));
                return r;
            },
            Ok(a) => {
                proof {
                    assert forall|r: Result<KeyringAnchor, KeyringError>|
                        walk(*engine, a@, hops@.skip(i + 1), r) implies #[trigger] walk(*engine, prior@, hops@, r) by {
                        assert(walk(*engine, before, here, r));
                    }
                }
                anchor = a;
            },
        }
        i = i + 1;
    }
    let r: Result<KeyringAnchor, KeyringError> = Ok(anchor);
    assert(hops@.skip(i as int) =~= Seq::<Keyring>::empty());
    assert(walk(*engine, anchor@, hops@.skip(i as int), r));
    r
}

/// A walk keeps the marker: a tree that was shared stays shared since the same revision.
pub proof fn a_shared_tree_stays_shared<E: Fn(&EngineCall, &Keyring) -> Result<LinearAnchor, EngineError>>(
    engine: E,
    prior: AnchorContent,
    hops: Seq<Keyring>,
    a: KeyringAnchor,
)
    requires
        prior.first_shared_revision != 0,
        walk(engine, prior, hops, Ok(a)),
    ensures
        a.first_shared_revision == prior.first_shared_revision,
        forall|i: int| 0 <= i < hops.len() ==> (#[trigger] hops[i]).first_shared_revision == prior.first_shared_revision,
    decreases hops.len(),
{
    if hops.len() > 0 {
        let step = choose|step: Result<KeyringAnchor, KeyringError>| #[trigger]
            transition(engine, prior, hops[0], step) && match step {
                Err(e) => Ok::<KeyringAnchor, KeyringError>(a) == Err::<KeyringAnchor, KeyringError>(e),
                Ok(b) => walk(engine, b@, hops.drop_first(), Ok(a)),
            };
        match step {
            Err(_) => {},
            Ok(b) => {
                a_shared_tree_stays_shared(engine, b@, hops.drop_first(), a);
                assert forall|i: int| 0 <= i < hops.len() implies (#[trigger] hops[i]).first_shared_revision
                    == prior.first_shared_revision by {
                    if i > 0 {
                        assert(hops[i] == hops.drop_first()[i - 1]);
                    }
                }
            },
        }
    }
}

/// A walk that succeeds ends at its last hop's marker, and no marker names a revision after its own.
pub proof fn a_walk_carries_the_marker<E: Fn(&EngineCall, &Keyring) -> Result<LinearAnchor, EngineError>>(
    engine: E,
    prior: AnchorContent,
    hops: Seq<Keyring>,
    a: KeyringAnchor,
)
    requires
        hops.len() > 0,
        walk(engine, prior, hops, Ok(a)),
    ensures
        a.first_shared_revision == hops.last().first_shared_revision,
        forall|i: int| 0 <= i < hops.len() ==> (#[trigger] hops[i]).first_shared_revision <= hops[i].revision,
    decreases hops.len(),
{
    let step = choose|step: Result<KeyringAnchor, KeyringError>| #[trigger]
        transition(engine, prior, hops[0], step) && match step {
            Err(e) => Ok::<KeyringAnchor, KeyringError>(a) == Err::<KeyringAnchor, KeyringError>(e),
            Ok(b) => walk(engine, b@, hops.drop_first(), Ok(a)),
        };
    match step {
        Err(_) => {},
        Ok(b) => {
            let rest = hops.drop_first();
            if rest.len() > 0 {
                a_walk_carries_the_marker(engine, b@, rest, a);
                assert(rest.last() == hops.last());
                assert forall|i: int| 0 <= i < hops.len() implies (#[trigger] hops[i]).first_shared_revision <= hops[i].revision by {
                    if i > 0 {
                        assert(hops[i] == rest[i - 1]);
                    }
                }
            }
        },
    }
}

/// How a walk goes on from where it stood: from the anchor that was reached, or not at all.
pub open spec fn goes_on<E: Fn(&EngineCall, &Keyring) -> Result<LinearAnchor, EngineError>>(
    engine: E,
    reached: Result<KeyringAnchor, KeyringError>,
    hops: Seq<Keyring>,
    r: Result<KeyringAnchor, KeyringError>,
) -> bool {
    match reached {
        Err(e) => r == Err::<KeyringAnchor, KeyringError>(e),
        Ok(a) => walk(engine, a@, hops, r),
    }
}

/// A walk over two runs is the walk over the second, from where the walk over the first ended.
pub proof fn a_walk_goes_on_from_where_it_ended<E: Fn(&EngineCall, &Keyring) -> Result<LinearAnchor, EngineError>>(
    engine: E,
    prior: KeyringAnchor,
    first: Seq<Keyring>,
    second: Seq<Keyring>,
    r: Result<KeyringAnchor, KeyringError>,
)
    ensures
        walk(engine, prior@, first + second, r) <==> exists|reached: Result<KeyringAnchor, KeyringError>| #[trigger]
            walk(engine, prior@, first, reached) && goes_on(engine, reached, second, r),
    decreases first.len(),
{
    let all = first + second;
    if first.len() == 0 {
        assert(all =~= second);
        let here: Result<KeyringAnchor, KeyringError> = Ok(prior);
        assert(walk(engine, prior@, first, here));
    } else {
        let rest = first.drop_first();
        assert(all.drop_first() =~= rest + second);
        assert(all[0] == first[0]);
        if walk(engine, prior@, all, r) {
            let step = choose|step: Result<KeyringAnchor, KeyringError>| #[trigger]
                transition(engine, prior@, all[0], step) && goes_on(engine, step, all.drop_first(), r);
            match step {
                Err(e) => {
                    assert(walk(engine, prior@, first, step));
                },
                Ok(a) => {
                    a_walk_goes_on_from_where_it_ended(engine, a, rest, second, r);
                    let reached = choose|reached: Result<KeyringAnchor, KeyringError>| #[trigger]
                        walk(engine, a@, rest, reached) && goes_on(engine, reached, second, r);
                    assert(transition(engine, prior@, first[0], step));
                    assert(walk(engine, prior@, first, reached));
                },
            }
        }
        if exists|reached: Result<KeyringAnchor, KeyringError>| #[trigger]
            walk(engine, prior@, first, reached) && goes_on(engine, reached, second, r) {
            let reached = choose|reached: Result<KeyringAnchor, KeyringError>| #[trigger]
                walk(engine, prior@, first, reached) && goes_on(engine, reached, second, r);
            let step = choose|step: Result<KeyringAnchor, KeyringError>| #[trigger]
                transition(engine, prior@, first[0], step) && goes_on(engine, step, rest, reached);
            assert(transition(engine, prior@, all[0], step));
            if let Ok(a) = step {
                assert(walk(engine, a@, rest, reached));
                a_walk_goes_on_from_where_it_ended(engine, a, rest, second, r);
                assert(walk(engine, a@, rest + second, r));
            }
            assert(walk(engine, prior@, all, r));
        }
    }
}

/// A walk over one hop is its transition.
pub proof fn a_walk_of_one_hop_is_a_transition<E: Fn(&EngineCall, &Keyring) -> Result<LinearAnchor, EngineError>>(
    engine: E,
    prior: AnchorContent,
    hop: Keyring,
    r: Result<KeyringAnchor, KeyringError>,
)
    requires
        walk(engine, prior, seq![hop], r),
    ensures
        exists|step: Result<KeyringAnchor, KeyringError>| #[trigger]
            transition(engine, prior, hop, step) && match step {
                Err(e) => r == Err::<KeyringAnchor, KeyringError>(e),
                Ok(a) => r matches Ok(b) && b@ == a@,
            },
{
    let hops = seq![hop];
    assert(hops.drop_first() =~= Seq::empty());
    let step = choose|step: Result<KeyringAnchor, KeyringError>| #[trigger]
        transition(engine, prior, hops[0], step) && goes_on(engine, step, hops.drop_first(), r);
    assert(transition(engine, prior, hop, step));
}

/// The engine goes one revision at a time: as a successor it takes only the revision after its anchor's, and answers with
/// an anchor at that revision.
pub open spec fn sequential<E: Fn(&EngineCall, &Keyring) -> Result<LinearAnchor, EngineError>>(engine: E) -> bool {
    forall|c: EngineCall, k: Keyring, verdict: Result<LinearAnchor, EngineError>| #[trigger]
        engine_said(engine, c, k, verdict) ==> match (c, verdict) {
            (EngineCall::Transition(a), Ok(b)) => k.revision == a.revision + 1 && b.revision == k.revision,
            _ => true,
        }
}

/// Under an engine that goes one revision at a time, a walk that succeeds has no gap, and ends as many revisions on as it
/// has hops.
pub proof fn a_walk_has_no_gap<E: Fn(&EngineCall, &Keyring) -> Result<LinearAnchor, EngineError>>(
    engine: E,
    prior: AnchorContent,
    hops: Seq<Keyring>,
    a: KeyringAnchor,
)
    requires
        sequential(engine),
        walk(engine, prior, hops, Ok(a)),
    ensures
        a.revision == prior.revision + hops.len(),
        forall|i: int| 0 <= i < hops.len() ==> (#[trigger] hops[i]).revision == prior.revision + 1 + i,
    decreases hops.len(),
{
    if hops.len() > 0 {
        let rest = hops.drop_first();
        let r: Result<KeyringAnchor, KeyringError> = Ok(a);
        let step = choose|step: Result<KeyringAnchor, KeyringError>| #[trigger]
            transition(engine, prior, hops[0], step) && goes_on(engine, step, rest, r);
        let b = step->Ok_0;
        let (c, verdict) = choose|c: EngineCall, verdict: Result<LinearAnchor, EngineError>|
            c@ == CallContent::Transition(linear(prior)) && #[trigger] engine_said(engine, c, hops[0], verdict) && anchored(
                verdict,
                hops[0].first_shared_revision,
                step,
            );
        assert(b.revision == prior.revision + 1 && hops[0].revision == b.revision) by {
            assert(c is Transition);
            assert((c->Transition_0)@.revision == prior.revision);
            assert(b@ == unlinear((verdict->Ok_0)@, hops[0].first_shared_revision));
        }
        a_walk_has_no_gap(engine, b@, rest, a);
        assert forall|i: int| 0 <= i < hops.len() implies (#[trigger] hops[i]).revision == prior.revision + 1 + i by {
            if i > 0 {
                assert(hops[i] == rest[i - 1]);
            }
        }
    }
}

/// A walk is refused as its first hop is: where the engine finds that hop out of sequence, so is the walk.
pub proof fn a_walk_out_of_sequence_is_refused<E: Fn(&EngineCall, &Keyring) -> Result<LinearAnchor, EngineError>>(
    engine: E,
    prior: AnchorContent,
    hops: Seq<Keyring>,
    r: Result<KeyringAnchor, KeyringError>,
)
    requires
        hops.len() > 0,
        marker_kept(prior.first_shared_revision, hops[0]@),
        forall|c: EngineCall, verdict: Result<LinearAnchor, EngineError>|
            c@ == CallContent::Transition(linear(prior)) && #[trigger] engine_said(engine, c, hops[0], verdict) ==> verdict
                == Err::<LinearAnchor, EngineError>(EngineError::NonSequential),
        walk(engine, prior, hops, r),
    ensures
        r == Err::<KeyringAnchor, KeyringError>(KeyringError::NonSequential),
{
}

/// Seeds an anchor from a genesis that `own_founder_key` signed.
pub fn bootstrap_from_genesis<E: Fn(&EngineCall, &Keyring) -> Result<LinearAnchor, EngineError>>(
    genesis: &Keyring,
    own_founder_key: &[u8; 32],
    engine: &E,
) -> (r: Result<KeyringAnchor, KeyringError>)
    requires
        forall|c: EngineCall, k: Keyring| engine.requires((&c, &k)),
    ensures
        judged(*engine, CallContent::Genesis(own_founder_key@), *genesis, r),
{
    judge(engine, EngineCall::Genesis(*own_founder_key), genesis)
}

/// Seeds an anchor from a head that was pinned out of band.
pub fn bootstrap_from_oob<E: Fn(&EngineCall, &Keyring) -> Result<LinearAnchor, EngineError>>(
    head: &Keyring,
    pinned_tree_id: &[u8],
    pinned_revision: u32,
    pinned_hash: &[u8; 32],
    engine: &E,
) -> (r: Result<KeyringAnchor, KeyringError>)
    requires
        forall|c: EngineCall, k: Keyring| engine.requires((&c, &k)),
    ensures
        judged(
            *engine,
            (CallContent::Pinned { group_id: pinned_tree_id@, revision: pinned_revision, hash: pinned_hash@ }),
            *head,
            r,
        ),
{
    let call = EngineCall::Pinned { group_id: copy_bytes(pinned_tree_id), revision: pinned_revision, hash: *pinned_hash };
    judge(engine, call, head)
}

/// A recovery authority in the terms of the engine.
pub open spec fn authority(rvk: Option<Seq<u8>>) -> Option<Seq<u8>> {
    match rvk {
        Some(k) => Some(padded(k)),
        None => None,
    }
}

/// A slice, as the bytes it holds.
pub open spec fn slice_view(b: Option<&[u8]>) -> Option<Seq<u8>> {
    match b {
        Some(s) => Some(s@),
        None => None,
    }
}

/// Judges a keyring that sets a new anchor on its own terms, under the prior recovery authority where there is one.
pub fn verify_reset<E: Fn(&EngineCall, &Keyring) -> Result<LinearAnchor, EngineError>>(
    prior_rvk: Option<&[u8]>,
    keyring: &Keyring,
    engine: &E,
) -> (r: Result<KeyringAnchor, KeyringError>)
    requires
        forall|c: EngineCall, k: Keyring| engine.requires((&c, &k)),
    ensures
        judged(*engine, CallContent::Reset(authority(slice_view(prior_rvk))), *keyring, r),
{
    let rvk: Option<[u8; 32]> = match prior_rvk {
        Some(k) => Some(to_pk32(k)),
        None => None,
    };
    judge(engine, EngineCall::Reset(rvk), keyring)
}

/// A keyring that was verified, and so may govern.
#[derive(Clone, Debug)]
pub struct GoverningKeyring {
    keyring: Keyring,
}

/// How a keyring comes out as a governing one: as itself where it was accepted, with the refusal where not.
pub open spec fn minted(
    accepted: Result<KeyringAnchor, KeyringError>,
    keyring: Keyring,
    r: Result<GoverningKeyring, KeyringError>,
) -> bool {
    match accepted {
        Ok(_) => r matches Ok(g) && g.governs() == keyring,
        Err(e) => r == Err::<GoverningKeyring, KeyringError>(e),
    }
}

fn mint(accepted: Result<KeyringAnchor, KeyringError>, keyring: Keyring) -> (r: Result<GoverningKeyring, KeyringError>)
    ensures
        minted(accepted, keyring, r),
{
    match accepted {
        Ok(_) => Ok(GoverningKeyring { keyring }),
        Err(e) => Err(e),
    }
}

impl GoverningKeyring {
    /// The keyring that governs.
    pub closed spec fn governs(&self) -> Keyring {
        self.keyring
    }

    /// The revision that governs.
    pub fn revision(&self) -> (r: u32)
        ensures
            r == self.governs().revision,
    {
        self.keyring.revision
    }

    /// The reference under which it governs.
    pub fn governing_ref(&self) -> (r: Vec<u8>)
        ensures
            r@ == be_bytes(self.governs().revision as nat, 4),
    {
        encode_governing_ref(self.revision())
    }

    /// The anchor to keep, given the keyring's hash.
    pub fn anchor(&self, keyring_hash: [u8; 32]) -> (r: KeyringAnchor)
        ensures
            r@ == anchor_of(self.governs()@, keyring_hash@),
    {
        KeyringAnchor::from_keyring(&self.keyring, keyring_hash)
    }

    /// Mints a successor of `prior`.
    pub fn from_transition<E: Fn(&EngineCall, &Keyring) -> Result<LinearAnchor, EngineError>>(
        prior: &KeyringAnchor,
        candidate: Keyring,
        engine: &E,
    ) -> (r: Result<GoverningKeyring, KeyringError>)
        requires
            forall|c: EngineCall, k: Keyring| engine.requires((&c, &k)),
        ensures
            exists|v: Result<KeyringAnchor, KeyringError>| #[trigger]
                transition(*engine, prior@, candidate, v) && minted(v, candidate, r),
    {
        let v = verify_transition(prior, &candidate, engine);
        assert(transition(*engine, prior@, candidate, v));
        mint(v, candidate)
    }

    /// Mints a genesis that `own_founder_key` signed.
    pub fn from_genesis<E: Fn(&EngineCall, &Keyring) -> Result<LinearAnchor, EngineError>>(
        genesis: Keyring,
        own_founder_key: &[u8; 32],
        engine: &E,
    ) -> (r: Result<GoverningKeyring, KeyringError>)
        requires
            forall|c: EngineCall, k: Keyring| engine.requires((&c, &k)),
        ensures
            exists|v: Result<KeyringAnchor, KeyringError>| #[trigger]
                judged(*engine, CallContent::Genesis(own_founder_key@), genesis, v) && minted(v, genesis, r),
    {
        let v = bootstrap_from_genesis(&genesis, own_founder_key, engine);
        assert(judged(*engine, CallContent::Genesis(own_founder_key@), genesis, v));
        mint(v, genesis)
    }

    /// Mints a head that was pinned out of band.
    pub fn from_oob<E: Fn(&EngineCall, &Keyring) -> Result<LinearAnchor, EngineError>>(
        head: Keyring,
        pinned_tree_id: &[u8],
        pinned_revision: u32,
        pinned_hash: &[u8; 32],
        engine: &E,
    ) -> (r: Result<GoverningKeyring, KeyringError>)
        requires
            forall|c: EngineCall, k: Keyring| engine.requires((&c, &k)),
        ensures
            exists|v: Result<KeyringAnchor, KeyringError>| #[trigger]
                judged(
                    *engine,
                    (CallContent::Pinned { group_id: pinned_tree_id@, revision: pinned_revision, hash: pinned_hash@ }),
                    head,
                    v,
                ) && minted(v, head, r),
    {
        let v = bootstrap_from_oob(&head, pinned_tree_id, pinned_revision, pinned_hash, engine);
        assert(judged(
            *engine,
            CallContent::Pinned { group_id: pinned_tree_id@, revision: pinned_revision, hash: pinned_hash@ },
            head,
            v,
        ));
        mint(v, head)
    }

    /// Mints a keyring that stands on its own terms.
    pub fn from_reset<E: Fn(&EngineCall, &Keyring) -> Result<LinearAnchor, EngineError>>(
        keyring: Keyring,
        engine: &E,
    ) -> (r: Result<GoverningKeyring, KeyringError>)
        requires
            forall|c: EngineCall, k: Keyring| engine.requires((&c, &k)),
        ensures
            exists|v: Result<KeyringAnchor, KeyringError>| #[trigger]
                judged(*engine, CallContent::Reset(None), keyring, v) && minted(v, keyring, r),
    {
        let v = verify_reset(None, &keyring, engine);
        assert(judged(*engine, CallContent::Reset(None), keyring, v));
        mint(v, keyring)
    }
}

} // verus!
