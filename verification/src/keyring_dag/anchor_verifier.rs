//! Keyless admission of whole anchors.

use vstd::prelude::*;

use crate::keyring_api::{
    default_envelope, engine_of_tag, envelope_read, member_models, same_members, EngineKind, MembershipView, VerifyError,
    MEMBERSHIP_ENVELOPE_VERSION,
};
use crate::keyring_dag::access::KeyringAction;
use crate::keyring_dag::anchor::{
    anchor_pin, flattened, frontier_of, has_id, stored_models, watermark, ClientError, DagAnchor, DagPin, StoredModel, StoredOp,
};
use crate::keyring_dag::codec::{frame_body, framed, unframe_body, ActionModel};
use crate::keyring_dag::resolve::{
    accept_remote_anchor, adoption, resolution, resolve, verification, verify_anchor, EngineBase, EngineRun, Resolved,
};
use crate::order::{bytes_equal, same_key};
use crate::sorting::stable_sorting;
use crate::text::copy_bytes;

verus! {

/// The neutral refusal that a client error stands for.
pub open spec fn neutral(e: ClientError) -> VerifyError {
    match e {
        ClientError::RolledBack(_) => VerifyError::Rollback,
        ClientError::Engine(_) => VerifyError::Unauthenticated,
        ClientError::Malformed(_) => VerifyError::Malformed,
        ClientError::BadWatermark(_) => VerifyError::Malformed,
    }
}

/// The neutral refusal that a client error stands for.
pub fn classify(error: &ClientError) -> (r: VerifyError)
    ensures
        r == neutral(*error),
{
    match error {
        ClientError::RolledBack(_) => VerifyError::Rollback,
        ClientError::Engine(_) => VerifyError::Unauthenticated,
        ClientError::Malformed(_) => VerifyError::Malformed,
        ClientError::BadWatermark(_) => VerifyError::Malformed,
    }
}

/// The anchor bytes in a membership envelope of the dag engine.
pub fn unwrap(bytes: &[u8]) -> (r: Result<Vec<u8>, VerifyError>)
    ensures
        match r {
            Ok(body) => envelope_read(bytes@, default_envelope()) matches Some(e) && e.version == MEMBERSHIP_ENVELOPE_VERSION
                && engine_of_tag(e.engine) == Some(EngineKind::Dag) && e.body == body@,
            Err(x) => x == VerifyError::Malformed && !(envelope_read(bytes@, default_envelope()) matches Some(e) && e.version
                == MEMBERSHIP_ENVELOPE_VERSION && engine_of_tag(e.engine) == Some(EngineKind::Dag)),
        },
{
    match unframe_body(bytes) {
        Ok(body) => Ok(body),
        Err(_) => Err(VerifyError::Malformed),
    }
}

/// Anchor bytes in a membership envelope of the dag engine.
pub fn wrap(anchor: Vec<u8>) -> (r: Vec<u8>)
    ensures
        r@ == framed(anchor@),
{
    frame_body(anchor)
}

/// The op re-founds the group or rotates its recovery authority.
pub open spec fn is_reset(a: ActionModel) -> bool {
    a is ReFound || a is RotateRecoveryAuthority
}

/// The candidate brings a reset that the prior anchor does not have.
pub open spec fn brings_a_reset(prior: Seq<StoredModel>, candidate: Seq<StoredModel>) -> bool {
    exists|i: int|
        0 <= i < candidate.len() && is_reset((#[trigger] candidate[i]).op.action) && !has_id(prior, candidate[i].op.id)
}

fn has_op(ops: &Vec<StoredOp>, id: &[u8; 32]) -> (r: bool)
    ensures
        r == has_id(stored_models(ops@), *id),
{
    let ghost all = stored_models(ops@);
    let mut i: usize = 0;
    while i < ops.len()
        invariant
            i <= ops.len(),
            all == stored_models(ops@),
            forall|k: int| 0 <= k < i ==> (#[trigger] all[k]).op.id != *id,
        decreases ops.len() - i,
    {
        if same_key(&ops[i].op.id, id) {
            assert(ops@[i as int].op.id =~= *id);
            assert(all[i as int].op.id == *id);
            return true;
        }
        assert(all[i as int].op.id@ != id@);
        i = i + 1;
    }
    false
}

/// Whether adopting `candidate` crosses a reset boundary.
pub fn crosses_reset_boundary(prior: &DagAnchor, candidate: &DagAnchor) -> (r: bool)
    ensures
        r == brings_a_reset(prior.closure(), candidate.closure()),
{
    let ghost all = candidate.closure();
    let mut i: usize = 0;
    while i < candidate.ops.len()
        invariant
            i <= candidate.ops.len(),
            all == candidate.closure(),
            forall|k: int| 0 <= k < i ==> !(is_reset((#[trigger] all[k]).op.action) && !has_id(prior.closure(), all[k].op.id)),
        decreases candidate.ops.len() - i,
    {
        let op = &candidate.ops[i].op;
        assert(all[i as int].op == op.model());
        let reset = match &op.action {
            KeyringAction::ReFound { .. } => true,
            KeyringAction::RotateRecoveryAuthority { .. } => true,
            _ => false,
        };
        if reset && !has_op(&prior.ops, &op.id) {
            assert(is_reset(all[i as int].op.action));
            return true;
        }
        i = i + 1;
    }
    false
}

/// An admitted anchor.
#[derive(Debug, PartialEq, Eq)]
pub struct AnchorAdmitted {
    pub state: DagAnchor,
    pub view: MembershipView,
    pub changed: bool,
    pub tree_id: Vec<u8>,
    pub update_ref: Vec<u8>,
}

/// How an anchor comes out once it has been verified, and merged where there was prior state.
pub open spec fn settled<F: Fn(&EngineBase, &Vec<StoredOp>) -> EngineRun>(
    engine: F,
    state: DagAnchor,
    previous: Option<MembershipView>,
    reset_boundary: bool,
    tree_id: Seq<u8>,
    r: Result<AnchorAdmitted, VerifyError>,
) -> bool {
    exists|now: Result<Resolved, ClientError>| #[trigger]
        resolution(engine, state, now) && match now {
            Err(e) => r == Err::<AnchorAdmitted, VerifyError>(neutral(e)),
            Ok(v) => r matches Ok(a) && a.state == state && a.view.reset_boundary == reset_boundary && stable_sorting(
                v.members.members@,
                a.view.members@,
            ) && a.tree_id@ == tree_id && a.update_ref@ == flattened(frontier_of(state.closure())) && a.changed == (match previous {
                None => true,
                Some(p) => member_models(p.members@) != member_models(v.members.members@) || p.reset_boundary
                    != v.members.reset_boundary,
            }),
        }
}

/// How an anchor comes out at first sight: it is held to the pin that it gives itself.
pub open spec fn first_sight<F: Fn(&EngineBase, &Vec<StoredOp>) -> EngineRun>(
    engine: F,
    candidate: DagAnchor,
    r: Result<AnchorAdmitted, VerifyError>,
) -> bool {
    exists|pin: DagPin, v: Result<Resolved, ClientError>|
        own_pin(candidate, pin) && #[trigger] verification(engine, candidate, candidate.group_id@, pin, v) && match v {
            Err(e) => r == Err::<AnchorAdmitted, VerifyError>(neutral(e)),
            Ok(_) => settled(engine, candidate, None, false, candidate.group_id@, r),
        }
}

/// The pin that an anchor gives.
pub open spec fn own_pin(anchor: DagAnchor, pin: DagPin) -> bool {
    &&& pin.genesis_op_id == anchor.genesis_op_id
    &&& pin.reset_authority == anchor.reset_authority
    &&& pin.watermark@ == flattened(frontier_of(anchor.closure()))
}

/// How an anchor comes out against prior state: it belongs to the same tree, and is adopted onto the prior anchor
/// under that one's pin and watermark.
pub open spec fn advance<F: Fn(&EngineBase, &Vec<StoredOp>) -> EngineRun>(
    engine: F,
    prior: DagAnchor,
    candidate: DagAnchor,
    r: Result<AnchorAdmitted, VerifyError>,
) -> bool {
    if prior.group_id@ != candidate.group_id@ {
        r == Err::<AnchorAdmitted, VerifyError>(VerifyError::Malformed)
    } else {
        exists|previous: Result<Resolved, ClientError>| #[trigger]
            resolution(engine, prior, previous) && match previous {
                Err(e) => r == Err::<AnchorAdmitted, VerifyError>(neutral(e)),
                Ok(p) => exists|pin: DagPin, merged: Result<DagAnchor, ClientError>|
                    own_pin(prior, pin) && #[trigger] adoption(
                        engine,
                        prior,
                        candidate,
                        prior.group_id@,
                        pin,
                        flattened(frontier_of(prior.closure())),
                        merged,
                    ) && match merged {
                        Err(e) => r == Err::<AnchorAdmitted, VerifyError>(neutral(e)),
                        Ok(state) => settled(
                            engine,
                            state,
                            Some(p.members),
                            brings_a_reset(prior.closure(), candidate.closure()),
                            candidate.group_id@,
                            r,
                        ),
                    },
            }
    }
}

fn settle<F: Fn(&EngineBase, &Vec<StoredOp>) -> EngineRun>(
    state: DagAnchor,
    previous: Option<MembershipView>,
    reset_boundary: bool,
    tree_id: Vec<u8>,
    engine: &F,
) -> (r: Result<AnchorAdmitted, VerifyError>)
    requires
        forall|b: EngineBase, o: Vec<StoredOp>| engine.requires((&b, &o)),
    ensures
        settled(*engine, state, previous, reset_boundary, tree_id@, r),
{
    let now = resolve(&state, engine);
    let ghost now_value = now;
    assert(resolution(*engine, state, now_value));
    match now {
        Err(e) => Err(classify(&e)),
        Ok(v) => {
            let changed = match &previous {
                None => true,
                Some(p) => !same_members(&p.members, &v.members.members) || p.reset_boundary != v.members.reset_boundary,
            };
            let update_ref: Vec<u8> = watermark(&state);
            let view: MembershipView = MembershipView::new(v.members.members, reset_boundary);
            Ok(AnchorAdmitted { state, view, changed, tree_id, update_ref })
        },
    }
}

/// The keyless verifier of whole anchors.
#[derive(Clone, Copy, Debug, Default)]
pub struct DagAnchorVerifier;

impl DagAnchorVerifier {
    /// Admits an anchor against the prior one, or at first sight.
    pub fn admit_update<F: Fn(&EngineBase, &Vec<StoredOp>) -> EngineRun>(
        &self,
        prior: Option<DagAnchor>,
        candidate: DagAnchor,
        engine: &F,
    ) -> (r: Result<AnchorAdmitted, VerifyError>)
        requires
            forall|b: EngineBase, o: Vec<StoredOp>| engine.requires((&b, &o)),
        ensures
            match prior {
                None => first_sight(*engine, candidate, r),
                Some(p) => advance(*engine, p, candidate, r),
            },
    {
        let tree_id: Vec<u8> = copy_bytes(candidate.group_id.as_slice());
        match prior {
            None => {
                let pin: DagPin = anchor_pin(&candidate);
                let v = verify_anchor(&candidate, tree_id.as_slice(), &pin, engine);
                let ghost value = v;
                assert(own_pin(candidate, pin) && verification(*engine, candidate, candidate.group_id@, pin, value));
                match v {
                    Err(e) => Err(classify(&e)),
                    Ok(_) => settle(candidate, None, false, tree_id, engine),
                }
            },
            Some(prior) => {
                if !bytes_equal(prior.group_id.as_slice(), candidate.group_id.as_slice()) {
                    return Err(VerifyError::Malformed);
                }
                let previous = resolve(&prior, engine);
                let ghost previous_value = previous;
                assert(resolution(*engine, prior, previous_value));
                let p: Resolved = match previous {
                    Err(e) => {
                        return Err(classify(&e));
                    },
                    Ok(p) => p,
                };
                let pin: DagPin = anchor_pin(&prior);
                let floor: Vec<u8> = watermark(&prior);
                let reset: bool = crosses_reset_boundary(&prior, &candidate);
                let ghost prior_value = prior;
                let group: Vec<u8> = copy_bytes(prior.group_id.as_slice());
                let merged = accept_remote_anchor(prior, &candidate, group.as_slice(), &pin, floor.as_slice(), engine);
                let ghost merged_value = merged;
                assert(own_pin(prior_value, pin) && adoption(
                    *engine,
                    prior_value,
                    candidate,
                    prior_value.group_id@,
                    pin,
                    flattened(frontier_of(prior_value.closure())),
                    merged_value,
                ));
                match merged {
                    Err(e) => Err(classify(&e)),
                    Ok(state) => settle(state, Some(p.members), reset, tree_id, engine),
                }
            },
        }
    }
}

} // verus!
