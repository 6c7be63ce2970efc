//! The wire form of an op: a data-transfer record, framed in a membership envelope.

use vstd::prelude::*;

use crate::keyring_api::{
    default_envelope, engine_of_tag, engine_tag, envelope_bytes, envelope_read, EngineKind, EnvelopeModel, MembershipEnvelope,
    MEMBERSHIP_ENVELOPE_VERSION,
};
use crate::keyring_dag::access::{KeyringAction, KeyringMemberInit, KeyringOp, KeyringRole};
use crate::text::copy_bytes;

verus! {

/// A blob-sync failure.
#[derive(Clone, Debug, PartialEq, Eq)]
pub enum BlobSyncError {
    Store(String),
    Decode(String),
    Malformed(&'static str),
    Engine(String),
}

impl BlobSyncError {
    /// What went wrong, in words.
    pub fn message(&self) -> (r: String)
        ensures
            r@ == (match *self {
                BlobSyncError::Store(e) => "blob store: "@ + e@,
                BlobSyncError::Decode(e) => "op decode: "@ + e@,
                BlobSyncError::Malformed(m) => "malformed op blob: "@ + m@,
                BlobSyncError::Engine(m) => "engine rejected op: "@ + m@,
            }),
    {
        match self {
            BlobSyncError::Store(e) => crate::text::concat("blob store: ", e.as_str()),
            BlobSyncError::Decode(e) => crate::text::concat("op decode: ", e.as_str()),
            BlobSyncError::Malformed(m) => crate::text::concat("malformed op blob: ", m),
            BlobSyncError::Engine(m) => crate::text::concat("engine rejected op: ", m.as_str()),
        }
    }
}

/// A member on the wire.
#[derive(Clone, Debug, PartialEq, Eq)]
pub struct MemberInitDto {
    pub id: String,
    pub role: KeyringRole,
    pub author_public_key: [u8; 32],
    pub hpke_public_key: [u8; 32],
}

/// An action on the wire.
#[derive(Debug, PartialEq, Eq)]
pub enum ActionDto {
    Create { initial_members: Vec<MemberInitDto> },
    Add {
        member: String,
        role: KeyringRole,
        author_public_key: [u8; 32],
        hpke_public_key: [u8; 32],
        member_proof: Option<Vec<u8>>,
    },
    Remove { member: String },
    ChangeRole { member: String, new_role: KeyringRole },
    Propose { proposal_id: [u8; 32], target: Box<ActionDto> },
    Approve { proposal_id: [u8; 32] },
    Commit { proposal_id: [u8; 32] },
    ReFound { member: String, new_author_public_key: [u8; 32], new_hpke_public_key: [u8; 32], era: u64 },
    RotateRecoveryAuthority { new_reset_authority: [u8; 32] },
    Retarget { member: String, new_author_public_key: [u8; 32], new_hpke_public_key: [u8; 32] },
    Reseal,
}

/// An op on the wire.
#[derive(Debug, PartialEq, Eq)]
pub struct OpDto {
    pub id: [u8; 32],
    pub group_id: Vec<u8>,
    pub parents: Vec<[u8; 32]>,
    pub author: String,
    pub action: ActionDto,
    pub signature: Vec<u8>,
    pub author_public_key: [u8; 32],
    pub sealing: Vec<u8>,
}

/// What a member record holds, in an action and on the wire.
pub struct InitModel {
    pub id: Seq<char>,
    pub role: KeyringRole,
    pub author_public_key: [u8; 32],
    pub hpke_public_key: [u8; 32],
}

/// What an action holds, in memory and on the wire.
pub enum ActionModel {
    Create { initial_members: Seq<InitModel> },
    Add {
        member: Seq<char>,
        role: KeyringRole,
        author_public_key: [u8; 32],
        hpke_public_key: [u8; 32],
        member_proof: Option<Seq<u8>>,
    },
    Remove { member: Seq<char> },
    ChangeRole { member: Seq<char>, new_role: KeyringRole },
    Propose { proposal_id: [u8; 32], target: Box<ActionModel> },
    Approve { proposal_id: [u8; 32] },
    Commit { proposal_id: [u8; 32] },
    ReFound { member: Seq<char>, new_author_public_key: [u8; 32], new_hpke_public_key: [u8; 32], era: u64 },
    RotateRecoveryAuthority { new_reset_authority: [u8; 32] },
    Retarget { member: Seq<char>, new_author_public_key: [u8; 32], new_hpke_public_key: [u8; 32] },
    Reseal,
}

/// What an op holds, in memory and on the wire.
pub struct OpModel {
    pub id: [u8; 32],
    pub group_id: Seq<u8>,
    pub parents: Seq<[u8; 32]>,
    pub author: Seq<char>,
    pub action: ActionModel,
    pub signature: Seq<u8>,
    pub author_public_key: [u8; 32],
    pub sealing: Seq<u8>,
}

impl KeyringMemberInit {
    pub open spec fn model(self) -> InitModel {
        InitModel {
            id: self.id@,
            role: self.role,
            author_public_key: self.author_public_key,
            hpke_public_key: self.hpke_public_key,
        }
    }
}

impl MemberInitDto {
    pub open spec fn model(self) -> InitModel {
        InitModel {
            id: self.id@,
            role: self.role,
            author_public_key: self.author_public_key,
            hpke_public_key: self.hpke_public_key,
        }
    }
}

pub open spec fn init_models(s: Seq<KeyringMemberInit>) -> Seq<InitModel> {
    Seq::new(s.len(), |i: int| s[i].model())
}

pub open spec fn init_dto_models(s: Seq<MemberInitDto>) -> Seq<InitModel> {
    Seq::new(s.len(), |i: int| s[i].model())
}

impl KeyringAction {
    pub open spec fn model(self) -> ActionModel
        decreases self,
    {
        match self {
            KeyringAction::Create { initial_members } => ActionModel::Create {
                initial_members: init_models(initial_members@),
            },
            KeyringAction::Add { member, role, author_public_key, hpke_public_key, member_proof } => ActionModel::Add {
                member: member@,
                role,
                author_public_key,
                hpke_public_key,
                member_proof: match member_proof {
                    Some(p) => Some(p@),
                    None => None,
                },
            },
            KeyringAction::Remove { member } => ActionModel::Remove { member: member@ },
            KeyringAction::ChangeRole { member, new_role } => ActionModel::ChangeRole { member: member@, new_role },
            KeyringAction::Propose { proposal_id, target } => ActionModel::Propose {
                proposal_id,
                target: Box::new((*target).model()),
            },
            KeyringAction::Approve { proposal_id } => ActionModel::Approve { proposal_id },
            KeyringAction::Commit { proposal_id } => ActionModel::Commit { proposal_id },
            KeyringAction::ReFound { member, new_author_public_key, new_hpke_public_key, era } => ActionModel::ReFound {
                member: member@,
                new_author_public_key,
                new_hpke_public_key,
                era,
            },
            KeyringAction::RotateRecoveryAuthority { new_reset_authority } => ActionModel::RotateRecoveryAuthority {
                new_reset_authority,
            },
            KeyringAction::Retarget { member, new_author_public_key, new_hpke_public_key } => ActionModel::Retarget {
                member: member@,
                new_author_public_key,
                new_hpke_public_key,
            },
            KeyringAction::Reseal => ActionModel::Reseal,
        }
    }
}

impl ActionDto {
    pub open spec fn model(self) -> ActionModel
        decreases self,
    {
        match self {
            ActionDto::Create { initial_members } => ActionModel::Create {
                initial_members: init_dto_models(initial_members@),
            },
            ActionDto::Add { member, role, author_public_key, hpke_public_key, member_proof } => ActionModel::Add {
                member: member@,
                role,
                author_public_key,
                hpke_public_key,
                member_proof: match member_proof {
                    Some(p) => Some(p@),
                    None => None,
                },
            },
            ActionDto::Remove { member } => ActionModel::Remove { member: member@ },
            ActionDto::ChangeRole { member, new_role } => ActionModel::ChangeRole { member: member@, new_role },
            ActionDto::Propose { proposal_id, target } => ActionModel::Propose {
                proposal_id,
                target: Box::new((*target).model()),
            },
            ActionDto::Approve { proposal_id } => ActionModel::Approve { proposal_id },
            ActionDto::Commit { proposal_id } => ActionModel::Commit { proposal_id },
            ActionDto::ReFound { member, new_author_public_key, new_hpke_public_key, era } => ActionModel::ReFound {
                member: member@,
                new_author_public_key,
                new_hpke_public_key,
                era,
            },
            ActionDto::RotateRecoveryAuthority { new_reset_authority } => ActionModel::RotateRecoveryAuthority {
                new_reset_authority,
            },
            ActionDto::Retarget { member, new_author_public_key, new_hpke_public_key } => ActionModel::Retarget {
                member: member@,
                new_author_public_key,
                new_hpke_public_key,
            },
            ActionDto::Reseal => ActionModel::Reseal,
        }
    }
}

impl KeyringOp {
    pub open spec fn model(self) -> OpModel {
        OpModel {
            id: self.id,
            group_id: self.group_id@,
            parents: self.parents@,
            author: self.author@,
            action: self.action.model(),
            signature: self.signature@,
            author_public_key: self.author_public_key,
            sealing: self.sealing@,
        }
    }
}

impl OpDto {
    pub open spec fn model(self) -> OpModel {
        OpModel {
            id: self.id,
            group_id: self.group_id@,
            parents: self.parents@,
            author: self.author@,
            action: self.action.model(),
            signature: self.signature@,
            author_public_key: self.author_public_key,
            sealing: self.sealing@,
        }
    }
}

/// Every membership proof in the action, however deep in proposals, is as long as a signature.
pub open spec fn proofs_fit(a: ActionModel) -> bool
    decreases a,
{
    match a {
        ActionModel::Add { member_proof, .. } => member_proof matches Some(p) ==> p.len() == 64,
        ActionModel::Propose { target, .. } => proofs_fit(*target),
        _ => true,
    }
}

/// An op whose parts have the sizes that an op in memory has.
pub open spec fn op_fits(op: OpModel) -> bool {
    proofs_fit(op.action) && op.signature.len() == 64
}

pub fn sig64(v: &[u8]) -> (r: Result<[u8; 64], BlobSyncError>)
    ensures
        match r {
            Ok(s) => s@ == v@,
            Err(e) => v@.len() != 64 && e == BlobSyncError::Malformed("signature is not 64 bytes"),
        },
{
    if v.len() != 64 {
        return Err(BlobSyncError::Malformed("signature is not 64 bytes"));
    }
    let mut out: [u8; 64] = [0u8; 64];
    let mut i: usize = 0;
    while i < 64
        invariant
            i <= 64,
            v@.len() == 64,
            forall|k: int| 0 <= k < i ==> out@[k] == v@[k],
        decreases 64 - i,
    {
        out[i] = v[i];
        i = i + 1;
    }
    assert(out@ =~= v@);
    Ok(out)
}

/// The wire form of a member record.
pub fn minit_to_dto(m: &KeyringMemberInit) -> (r: MemberInitDto)
    ensures
        r.model() == m.model(),
{
    MemberInitDto {
        id: m.id.clone(),
        role: m.role,
        author_public_key: m.author_public_key,
        hpke_public_key: m.hpke_public_key,
    }
}

/// The member record that a wire form holds.
pub fn dto_to_minit(d: &MemberInitDto) -> (r: KeyringMemberInit)
    ensures
        r.model() == d.model(),
{
    KeyringMemberInit {
        id: d.id.clone(),
        role: d.role,
        author_public_key: d.author_public_key,
        hpke_public_key: d.hpke_public_key,
    }
}

pub fn minits_to_dtos(v: &Vec<KeyringMemberInit>) -> (r: Vec<MemberInitDto>)
    ensures
        init_dto_models(r@) == init_models(v@),
{
    let mut out: Vec<MemberInitDto> = Vec::new();
    let mut i: usize = 0;
    while i < v.len()
        invariant
            i <= v.len(),
            out.len() == i,
            forall|k: int| 0 <= k < i ==> (#[trigger] out@[k]).model() == v@[k].model(),
        decreases v.len() - i,
    {
        out.push(minit_to_dto(&v[i]));
        i = i + 1;
    }
    assert(init_dto_models(out@) =~= init_models(v@));
    out
}

pub fn dtos_to_minits(v: &Vec<MemberInitDto>) -> (r: Vec<KeyringMemberInit>)
    ensures
        init_models(r@) == init_dto_models(v@),
{
    let mut out: Vec<KeyringMemberInit> = Vec::new();
    let mut i: usize = 0;
    while i < v.len()
        invariant
            i <= v.len(),
            out.len() == i,
            forall|k: int| 0 <= k < i ==> (#[trigger] out@[k]).model() == v@[k].model(),
        decreases v.len() - i,
    {
        out.push(dto_to_minit(&v[i]));
        i = i + 1;
    }
    assert(init_models(out@) =~= init_dto_models(v@));
    out
}

/// The wire form of an action.
pub fn action_to_dto(a: &KeyringAction) -> (r: ActionDto)
    ensures
        r.model() == a.model(),
    decreases a,
{
    match a {
        KeyringAction::Create { initial_members } => ActionDto::Create { initial_members: minits_to_dtos(initial_members) },
        KeyringAction::Add { member, role, author_public_key, hpke_public_key, member_proof } => ActionDto::Add {
            member: member.clone(),
            role: *role,
            author_public_key: *author_public_key,
            hpke_public_key: *hpke_public_key,
            member_proof: match member_proof {
                Some(s) => Some(copy_bytes(s.as_slice())),
                None => None,
            },
        },
        KeyringAction::Remove { member } => ActionDto::Remove { member: member.clone() },
        KeyringAction::ChangeRole { member, new_role } => ActionDto::ChangeRole {
            member: member.clone(),
            new_role: *new_role,
        },
        KeyringAction::Propose { proposal_id, target } => ActionDto::Propose {
            proposal_id: *proposal_id,
            target: Box::new(action_to_dto(target)),
        },
        KeyringAction::Approve { proposal_id } => ActionDto::Approve { proposal_id: *proposal_id },
        KeyringAction::Commit { proposal_id } => ActionDto::Commit { proposal_id: *proposal_id },
        KeyringAction::ReFound { member, new_author_public_key, new_hpke_public_key, era } => ActionDto::ReFound {
            member: member.clone(),
            new_author_public_key: *new_author_public_key,
            new_hpke_public_key: *new_hpke_public_key,
            era: *era,
        },
        KeyringAction::RotateRecoveryAuthority { new_reset_authority } => ActionDto::RotateRecoveryAuthority {
            new_reset_authority: *new_reset_authority,
        },
        KeyringAction::Retarget { member, new_author_public_key, new_hpke_public_key } => ActionDto::Retarget {
            member: member.clone(),
            new_author_public_key: *new_author_public_key,
            new_hpke_public_key: *new_hpke_public_key,
        },
        KeyringAction::Reseal => ActionDto::Reseal,
    }
}

/// The action that a wire form holds, unless a membership proof in it has the wrong length.
pub fn dto_to_action(d: &ActionDto) -> (r: Result<KeyringAction, BlobSyncError>)
    ensures
        match r {
            Ok(a) => proofs_fit(d.model()) && a.model() == d.model(),
            Err(e) => !proofs_fit(d.model()) && e == BlobSyncError::Malformed("signature is not 64 bytes"),
        },
    decreases d,
{
    Ok(match d {
        ActionDto::Create { initial_members } => KeyringAction::Create { initial_members: dtos_to_minits(initial_members) },
        ActionDto::Add { member, role, author_public_key, hpke_public_key, member_proof } => {
            let proof_bytes: Option<[u8; 64]> = match member_proof {
                Some(v) => match sig64(v.as_slice()) {
                    Ok(s) => Some(s),
                    Err(e) => {
                        return Err(e);
                    },
                },
                None => None,
            };
            KeyringAction::Add {
                member: member.clone(),
                role: *role,
                author_public_key: *author_public_key,
                hpke_public_key: *hpke_public_key,
                member_proof: proof_bytes,
            }
        },
        ActionDto::Remove { member } => KeyringAction::Remove { member: member.clone() },
        ActionDto::ChangeRole { member, new_role } => KeyringAction::ChangeRole {
            member: member.clone(),
            new_role: *new_role,
        },
        ActionDto::Propose { proposal_id, target } => {
            let inner: KeyringAction = match dto_to_action(target) {
                Ok(a) => a,
                Err(e) => {
                    return Err(e);
                },
            };
            KeyringAction::Propose { proposal_id: *proposal_id, target: Box::new(inner) }
        },
        ActionDto::Approve { proposal_id } => KeyringAction::Approve { proposal_id: *proposal_id },
        ActionDto::Commit { proposal_id } => KeyringAction::Commit { proposal_id: *proposal_id },
        ActionDto::ReFound { member, new_author_public_key, new_hpke_public_key, era } => KeyringAction::ReFound {
            member: member.clone(),
            new_author_public_key: *new_author_public_key,
            new_hpke_public_key: *new_hpke_public_key,
            era: *era,
        },
        ActionDto::RotateRecoveryAuthority { new_reset_authority } => KeyringAction::RotateRecoveryAuthority {
            new_reset_authority: *new_reset_authority,
        },
        ActionDto::Retarget { member, new_author_public_key, new_hpke_public_key } => KeyringAction::Retarget {
            member: member.clone(),
            new_author_public_key: *new_author_public_key,
            new_hpke_public_key: *new_hpke_public_key,
        },
        ActionDto::Reseal => KeyringAction::Reseal,
    })
}

/// A copy of an action.
pub fn copy_action(a: &KeyringAction) -> (r: KeyringAction)
    ensures
        r.model() == a.model(),
{
    let d: ActionDto = action_to_dto(a);
    proof {
        action_fits(*a);
    }
    match dto_to_action(&d) {
        Ok(r) => r,
        Err(_) => KeyringAction::Reseal,
    }
}

/// A copy of a list of op ids.
pub fn copy_ids(v: &Vec<[u8; 32]>) -> (r: Vec<[u8; 32]>)
    ensures
        r@ == v@,
{
    let mut out: Vec<[u8; 32]> = Vec::new();
    let mut i: usize = 0;
    while i < v.len()
        invariant
            i <= v.len(),
            out@ == v@.take(i as int),
        decreases v.len() - i,
    {
        out.push(v[i]);
        i = i + 1;
        assert(out@ =~= v@.take(i as int));
    }
    assert(v@.take(i as int) =~= v@);
    out
}

/// A copy of an op.
pub fn copy_op(op: &KeyringOp) -> (r: KeyringOp)
    ensures
        r.model() == op.model(),
{
    KeyringOp {
        id: op.id,
        group_id: copy_bytes(op.group_id.as_slice()),
        parents: copy_ids(&op.parents),
        author: op.author.clone(),
        action: copy_action(&op.action),
        signature: op.signature,
        author_public_key: op.author_public_key,
        sealing: copy_bytes(op.sealing.as_slice()),
    }
}

/// The wire form of an op.
pub fn op_to_dto(op: &KeyringOp) -> (r: OpDto)
    ensures
        r.model() == op.model(),
{
    OpDto {
        id: op.id,
        group_id: copy_bytes(op.group_id.as_slice()),
        parents: copy_ids(&op.parents),
        author: op.author.clone(),
        action: action_to_dto(&op.action),
        signature: copy_bytes(op.signature.as_slice()),
        author_public_key: op.author_public_key,
        sealing: copy_bytes(op.sealing.as_slice()),
    }
}

/// The op that a wire form holds, unless its signature or a membership proof in it has the wrong length.
pub fn dto_to_op(dto: OpDto) -> (r: Result<KeyringOp, BlobSyncError>)
    ensures
        match r {
            Ok(op) => op_fits(dto.model()) && op.model() == dto.model(),
            Err(e) => !op_fits(dto.model()) && e == BlobSyncError::Malformed("signature is not 64 bytes"),
        },
{
    let action: KeyringAction = match dto_to_action(&dto.action) {
        Ok(a) => a,
        Err(e) => {
            return Err(e);
        },
    };
    let signature: [u8; 64] = match sig64(dto.signature.as_slice()) {
        Ok(s) => s,
        Err(e) => {
            return Err(e);
        },
    };
    Ok(
        KeyringOp {
            id: dto.id,
            group_id: dto.group_id,
            parents: dto.parents,
            author: dto.author,
            action,
            signature,
            author_public_key: dto.author_public_key,
            sealing: dto.sealing,
        },
    )
}

/// Every membership proof of an action in memory has a signature's length.
pub proof fn action_fits(a: KeyringAction)
    ensures
        proofs_fit(a.model()),
    decreases a,
{
    match a {
        KeyringAction::Propose { target, .. } => {
            action_fits(*target);
        },
        _ => {},
    }
}

/// An op survives the wire: its wire form always reads back, as the op it was made from.
pub proof fn op_codec_round_trips(op: KeyringOp, dto: OpDto)
    requires
        dto.model() == op.model(),
    ensures
        op_fits(dto.model()),
{
    action_fits(op.action);
}

/// The bytes of a dag body in its envelope.
pub open spec fn framed(body: Seq<u8>) -> Seq<u8> {
    envelope_bytes(
        EnvelopeModel { version: MEMBERSHIP_ENVELOPE_VERSION, engine: engine_tag(EngineKind::Dag), body },
    )
}

/// Frames a dag body in a membership envelope.
pub fn frame_body(body: Vec<u8>) -> (r: Vec<u8>)
    ensures
        r@ == framed(body@),
{
    MembershipEnvelope::wrap(EngineKind::Dag, body).encode()
}

/// Takes a dag body out of its membership envelope.
pub fn unframe_body(bytes: &[u8]) -> (r: Result<Vec<u8>, BlobSyncError>)
    ensures
        match r {
            Ok(body) => envelope_read(bytes@, default_envelope()) matches Some(e) && e.version == MEMBERSHIP_ENVELOPE_VERSION
                && engine_of_tag(e.engine) == Some(EngineKind::Dag) && e.body == body@,
            Err(BlobSyncError::Malformed(m)) => envelope_read(bytes@, default_envelope()) matches Some(e) && e.version
                == MEMBERSHIP_ENVELOPE_VERSION && engine_of_tag(e.engine) != Some(EngineKind::Dag) && m
                == "membership envelope is not a dag op",
            Err(BlobSyncError::Decode(m)) => match envelope_read(bytes@, default_envelope()) {
                None => m@ == "malformed membership envelope"@,
                Some(e) => e.version != MEMBERSHIP_ENVELOPE_VERSION && m@ == "unsupported membership envelope version: "@
                    + crate::text::decimal(e.version as nat),
            },
            Err(_) => false,
        },
{
    match MembershipEnvelope::decode(bytes) {
        Err(e) => Err(BlobSyncError::Decode(e.message())),
        Ok(env) => {
            match env.engine_kind() {
                Ok(EngineKind::Dag) => Ok(env.body),
                _ => Err(BlobSyncError::Malformed("membership envelope is not a dag op")),
            }
        },
    }
}

/// What is framed comes out unchanged.
pub proof fn framing_round_trips(body: Seq<u8>)
    requires
        body.len() <= u64::MAX,
    ensures
        envelope_read(framed(body), default_envelope()) == Some(
            EnvelopeModel { version: MEMBERSHIP_ENVELOPE_VERSION, engine: engine_tag(EngineKind::Dag), body },
        ),
        engine_of_tag(engine_tag(EngineKind::Dag)) == Some(EngineKind::Dag),
{
    crate::keyring_api::engine_tags_round_trip(EngineKind::Dag, engine_tag(EngineKind::Dag));
    reveal_strlit("dag");
    assert(vstd::utf8::is_ascii_chars("dag"@));
    vstd::utf8::is_ascii_chars_encode_utf8("dag"@);
    crate::keyring_api::envelope_round_trips(
        EnvelopeModel { version: MEMBERSHIP_ENVELOPE_VERSION, engine: engine_tag(EngineKind::Dag), body },
    );
}

} // verus!
