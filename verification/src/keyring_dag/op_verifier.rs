//! Keyless admission, one op at a time: the trust state is the pinned configuration and the admitted ops.

use vstd::prelude::*;

use crate::keyring_api::{member_models, same_members, MembershipView, VerifyError};
use crate::keyring_dag::access::{member_id_binds_key, KeyringAction, KeyringMemberInit, KeyringOp};
use crate::keyring_dag::checkpoint::{entry_models, GroupStateView};
use crate::keyring_dag::codec::{dtos_to_minits, init_dto_models, init_models, minits_to_dtos, InitModel, MemberInitDto};
use crate::keyring_dag::resolve::{shows, view_of, EngineBase};
use crate::text::copy_bytes;

verus! {

/// The genesis facts that are trusted out of band.
#[derive(Debug, PartialEq, Eq)]
pub struct PinnedConfig {
    pub group_id: Vec<u8>,
    pub genesis: Vec<MemberInitDto>,
    pub reset_authority: Option<[u8; 32]>,
}

/// The trust state: the pinned configuration and the admitted ops.
#[derive(Debug, PartialEq, Eq)]
pub struct DagTrustState {
    pub pinned: PinnedConfig,
    pub ops: Vec<KeyringOp>,
}

/// One update: first sight, or an op.
#[derive(Debug, PartialEq, Eq)]
pub enum Update {
    Bootstrap { pinned: PinnedConfig, genesis_op: KeyringOp },
    Op { op: KeyringOp },
}

/// What the engine says to one op.
#[derive(Clone, Copy, Debug, PartialEq, Eq, Structural)]
pub enum ApplyReport {
    Applied,
    /// The op waits for a parent.
    Buffered,
    BadSignature,
    UnknownAuthor,
    /// The op branches off below the merge horizon.
    StaleFork,
    /// Any other refusal.
    Refused,
}

/// What an engine reports after it replayed the admitted ops and applied a new one.
pub struct AdmitRun {
    /// Whether the admitted ops replayed.
    pub replayed: bool,
    /// The members before the new op.
    pub before: GroupStateView,
    pub report: ApplyReport,
    /// Whether the new op's author was authorized at its position, if that is known.
    pub authorized_at_position: Option<bool>,
    /// Whether the buffered ops could be settled.
    pub flushed: bool,
    /// The members after the new op.
    pub after: GroupStateView,
    /// The tree that the resolved state is bound to.
    pub group_id: Vec<u8>,
}

/// An admitted update.
#[derive(Debug, PartialEq, Eq)]
pub struct DagAdmitted {
    pub state: DagTrustState,
    pub view: MembershipView,
    pub changed: bool,
    pub tree_id: Vec<u8>,
    pub update_ref: Vec<u8>,
}

/// The refusal that a report stands for, if it is one.
pub open spec fn report_refusal(report: ApplyReport) -> Option<VerifyError> {
    match report {
        ApplyReport::Applied => None,
        ApplyReport::Buffered => Some(VerifyError::Stale),
        ApplyReport::BadSignature | ApplyReport::UnknownAuthor => Some(VerifyError::Unauthenticated),
        ApplyReport::StaleFork => Some(VerifyError::Rollback),
        ApplyReport::Refused => Some(VerifyError::Malformed),
    }
}

/// The refusal that a report stands for, if it is one.
pub fn classify(report: ApplyReport) -> (r: Result<(), VerifyError>)
    ensures
        match r {
            Ok(_) => report_refusal(report) is None,
            Err(e) => report_refusal(report) == Some(e),
        },
{
    match report {
        ApplyReport::Applied => Ok(()),
        ApplyReport::Buffered => Err(VerifyError::Stale),
        ApplyReport::BadSignature => Err(VerifyError::Unauthenticated),
        ApplyReport::UnknownAuthor => Err(VerifyError::Unauthenticated),
        ApplyReport::StaleFork => Err(VerifyError::Rollback),
        ApplyReport::Refused => Err(VerifyError::Malformed),
    }
}

/// Every pinned member's id certifies its key.
pub open spec fn pins_bind(s: Seq<InitModel>) -> bool {
    forall|i: int| 0 <= i < s.len() ==> crate::keyring_dag::access::binds((#[trigger] s[i]).id, s[i].author_public_key@)
}

/// The engine base of a pinned configuration.
pub open spec fn pinned_base(pinned: PinnedConfig, base: EngineBase) -> bool {
    base matches EngineBase::Genesis { group_id, members, reset_authority } && group_id@ == pinned.group_id@ && init_models(
        members@,
    ) == init_dto_models(pinned.genesis@) && reset_authority == pinned.reset_authority
}

/// An action that crosses a reset boundary.
pub open spec fn resets(action: KeyringAction) -> bool {
    action is ReFound || action is RotateRecoveryAuthority
}

/// How a bootstrap comes out, by what the engine reports of the genesis op.
pub open spec fn bootstrap_outcome(pinned: PinnedConfig, genesis_op: KeyringOp, run: AdmitRun, r: Result<DagAdmitted, VerifyError>) -> bool {
    match report_refusal(run.report) {
        Some(e) => r == Err::<DagAdmitted, VerifyError>(e),
        None => if !run.flushed {
            r == Err::<DagAdmitted, VerifyError>(VerifyError::Malformed)
        } else {
            r matches Ok(a) && a.state.pinned == pinned && a.state.ops@ == seq![genesis_op] && shows(
                entry_models(run.after.members@),
                false,
                a.view,
            ) && a.changed && a.tree_id@ == run.group_id@ && a.update_ref@ == genesis_op.id@
        },
    }
}

/// How an op comes out against prior state, by what the engine reports.
pub open spec fn op_outcome(prior: DagTrustState, op: KeyringOp, run: AdmitRun, r: Result<DagAdmitted, VerifyError>) -> bool {
    if !run.replayed {
        r == Err::<DagAdmitted, VerifyError>(VerifyError::Malformed)
    } else {
        match report_refusal(run.report) {
            Some(e) => r == Err::<DagAdmitted, VerifyError>(e),
            None => if run.authorized_at_position == Some(false) {
                r == Err::<DagAdmitted, VerifyError>(VerifyError::Unauthorized)
            } else if !run.flushed {
                r == Err::<DagAdmitted, VerifyError>(VerifyError::Malformed)
            } else {
                r matches Ok(a) && a.state.pinned == prior.pinned && a.state.ops@ == prior.ops@.push(op) && shows(
                    entry_models(run.after.members@),
                    resets(op.action),
                    a.view,
                ) && a.tree_id@ == run.group_id@ && a.update_ref@ == op.id@ && exists|before: MembershipView| #[trigger]
                    shows(entry_models(run.before.members@), false, before) && a.changed == (member_models(a.view.members@)
                        != member_models(before.members@))
            },
        }
    }
}

/// The engine was handed the pinned base, the admitted ops and the new op.
pub open spec fn admitted_run<F: Fn(&EngineBase, &Vec<KeyringOp>, &KeyringOp) -> AdmitRun>(
    engine: F,
    pinned: PinnedConfig,
    base: EngineBase,
    ops: Vec<KeyringOp>,
    op: KeyringOp,
    run: AdmitRun,
) -> bool {
    pinned_base(pinned, base) && engine.ensures((&base, &ops, &op), run)
}

/// How an update comes out.
pub open spec fn dag_admission<F: Fn(&EngineBase, &Vec<KeyringOp>, &KeyringOp) -> AdmitRun>(
    engine: F,
    prior: Option<DagTrustState>,
    update: Update,
    r: Result<DagAdmitted, VerifyError>,
) -> bool {
    match (prior, update) {
        (None, Update::Bootstrap { pinned, genesis_op }) => if !pins_bind(init_dto_models(pinned.genesis@)) {
            r == Err::<DagAdmitted, VerifyError>(VerifyError::Malformed)
        } else {
            exists|base: EngineBase, ops: Vec<KeyringOp>, run: AdmitRun|
                ops@.len() == 0 && #[trigger] admitted_run(engine, pinned, base, ops, genesis_op, run) && bootstrap_outcome(
                    pinned,
                    genesis_op,
                    run,
                    r,
                )
        },
        (Some(st), Update::Op { op }) => exists|base: EngineBase, run: AdmitRun| #[trigger]
            admitted_run(engine, st.pinned, base, st.ops, op, run) && op_outcome(st, op, run, r),
        _ => r == Err::<DagAdmitted, VerifyError>(VerifyError::Malformed),
    }
}

fn pinned_members_bind(genesis: &Vec<MemberInitDto>) -> (r: bool)
    ensures
        r == pins_bind(init_dto_models(genesis@)),
{
    let ghost all = init_dto_models(genesis@);
    let mut i: usize = 0;
    while i < genesis.len()
        invariant
            i <= genesis.len(),
            all == init_dto_models(genesis@),
            forall|k: int| 0 <= k < i ==> crate::keyring_dag::access::binds((#[trigger] all[k]).id, all[k].author_public_key@),
        decreases genesis.len() - i,
    {
        let m = &genesis[i];
        assert(all[i as int] == m.model());
        if !member_id_binds_key(m.id.as_str(), m.author_public_key.as_slice()) {
            return false;
        }
        i = i + 1;
    }
    true
}

fn base_from(pinned: &PinnedConfig) -> (r: EngineBase)
    ensures
        pinned_base(*pinned, r),
{
    EngineBase::Genesis {
        group_id: copy_bytes(pinned.group_id.as_slice()),
        members: dtos_to_minits(&pinned.genesis),
        reset_authority: pinned.reset_authority,
    }
}

/// The keyless verifier of single ops.
#[derive(Clone, Copy, Debug, Default)]
pub struct DagVerifier;

impl DagVerifier {
    /// Admits an update against prior trust state. `engine` replays the admitted ops, applies the new one and
    /// reports; no prior state means first sight.
    pub fn admit_update<F: Fn(&EngineBase, &Vec<KeyringOp>, &KeyringOp) -> AdmitRun>(
        &self,
        prior: Option<DagTrustState>,
        update: Update,
        engine: &F,
    ) -> (r: Result<DagAdmitted, VerifyError>)
        requires
            forall|b: EngineBase, o: Vec<KeyringOp>, n: KeyringOp| engine.requires((&b, &o, &n)),
        ensures
            dag_admission(*engine, prior, update, r),
    {
        match (prior, update) {
            (None, Update::Bootstrap { pinned, genesis_op }) => {
                if !pinned_members_bind(&pinned.genesis) {
                    return Err(VerifyError::Malformed);
                }
                let base: EngineBase = base_from(&pinned);
                let none: Vec<KeyringOp> = Vec::new();
                let run: AdmitRun = engine(&base, &none, &genesis_op);
                assert(admitted_run(*engine, pinned, base, none, genesis_op, run));
                match classify(run.report) {
                    Ok(_) => {},
                    Err(e) => {
                        return Err(e);
                    },
                }
                if !run.flushed {
                    return Err(VerifyError::Malformed);
                }
                let view: MembershipView = view_of(&run.after, false);
                let update_ref: Vec<u8> = copy_bytes(genesis_op.id.as_slice());
                let mut ops: Vec<KeyringOp> = Vec::new();
                let ghost op_value = genesis_op;
                ops.push(genesis_op);
                assert(ops@ =~= seq![op_value]);
                Ok(
                    DagAdmitted {
                        state: DagTrustState { pinned, ops },
                        view,
                        changed: true,
                        tree_id: run.group_id,
                        update_ref,
                    },
                )
            },
            (Some(st), Update::Op { op }) => {
                let base: EngineBase = base_from(&st.pinned);
                let run: AdmitRun = engine(&base, &st.ops, &op);
                assert(admitted_run(*engine, st.pinned, base, st.ops, op, run));
                if !run.replayed {
                    return Err(VerifyError::Malformed);
                }
                let before: MembershipView = view_of(&run.before, false);
                let is_reset = match &op.action {
                    KeyringAction::ReFound { .. } => true,
                    KeyringAction::RotateRecoveryAuthority { .. } => true,
                    _ => false,
                };
                match classify(run.report) {
                    Ok(_) => {},
                    Err(e) => {
                        return Err(e);
                    },
                }
                let refused = match run.authorized_at_position {
                    Some(ok) => !ok,
                    None => false,
                };
                if refused {
                    return Err(VerifyError::Unauthorized);
                }
                if !run.flushed {
                    return Err(VerifyError::Malformed);
                }
                let view: MembershipView = view_of(&run.after, is_reset);
                let changed = !same_members(&view.members, &before.members);
                let update_ref: Vec<u8> = copy_bytes(op.id.as_slice());
                let mut state: DagTrustState = st;
                state.ops.push(op);
                Ok(DagAdmitted { state, view, changed, tree_id: run.group_id, update_ref })
            },
            _ => Err(VerifyError::Malformed),
        }
    }
}

/// The first-sight update of a genesis op: the tree is the one that the signed op names.
pub fn bootstrap_update(genesis: &Vec<KeyringMemberInit>, reset_authority: Option<[u8; 32]>, genesis_op: KeyringOp) -> (r: Update)
    ensures
        r matches Update::Bootstrap { pinned, genesis_op: op } && op == genesis_op && pinned.group_id@ == genesis_op.group_id@
            && init_dto_models(pinned.genesis@) == init_models(genesis@) && pinned.reset_authority == reset_authority,
{
    Update::Bootstrap {
        pinned: PinnedConfig {
            group_id: copy_bytes(genesis_op.group_id.as_slice()),
            genesis: minits_to_dtos(genesis),
            reset_authority,
        },
        genesis_op,
    }
}

/// The update of an op.
pub fn op_update(op: KeyringOp) -> (r: Update)
    ensures
        r == (Update::Op { op }),
{
    Update::Op { op }
}

/// An admitted op is appended to the trust state, and nothing that was admitted is ever dropped.
pub proof fn trust_state_only_grows<F: Fn(&EngineBase, &Vec<KeyringOp>, &KeyringOp) -> AdmitRun>(
    engine: F,
    st: DagTrustState,
    update: Update,
    r: Result<DagAdmitted, VerifyError>,
)
    requires
        dag_admission(engine, Some(st), update, r),
    ensures
        r matches Ok(a) ==> a.state.pinned == st.pinned && a.state.ops@.len() == st.ops@.len() + 1 && a.state.ops@.take(
            st.ops@.len() as int,
        ) == st.ops@,
{
    if let Ok(a) = r {
        assert(a.state.ops@.take(st.ops@.len() as int) =~= st.ops@);
    }
}

} // verus!
