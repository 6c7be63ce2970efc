//! When an op or an anchor is admitted, and as what.

use vstd::prelude::*;

use crate::keyring_api::{member_models, MembershipView, VerifyError};
use crate::keyring_dag::access::{KeyringAction, KeyringOp};
use crate::keyring_dag::anchor::{ClientError, DagAnchor};
use crate::keyring_dag::anchor_verifier::crosses_reset_boundary;
use crate::keyring_dag::blob_sync::{fresh, with_ops};
use crate::keyring_dag::checkpoint::{entry_models, roster_of, EntryModel, GroupStateView};
use crate::keyring_dag::codec::{init_dto_models, init_models, op_to_dto, ActionDto, MemberInitDto, OpDto};
use crate::keyring_dag::op_verifier::{
    admitted_run, op_outcome, bootstrap_outcome, AdmitRun, ApplyReport, DagAdmitted, DagTrustState, DagVerifier, PinnedConfig, Update,
};
use crate::keyring_dag::resolve::{engine_base, shows, EngineBase};
use crate::keyring_dag::shown::{shows_exactly, what_a_view_shows};

verus! {

/// How an engine's report on an op is judged: an op that was applied is admissible; one that waits for a parent is stale;
/// one that is not its author's, or of no known author, is unauthenticated; one that branches off too far back is a
/// rollback; and any other refusal means that it is malformed.
pub proof fn how_a_report_is_judged(report: ApplyReport, r: Result<(), VerifyError>)
    requires
        call_ensures(crate::keyring_dag::op_verifier::classify, (report,), r),
    ensures
        r is Ok <==> report == ApplyReport::Applied,
        report == ApplyReport::Buffered ==> r == Err::<(), VerifyError>(VerifyError::Stale),
        report == ApplyReport::BadSignature || report == ApplyReport::UnknownAuthor ==> r == Err::<(), VerifyError>(
            VerifyError::Unauthenticated,
        ),
        report == ApplyReport::StaleFork ==> r == Err::<(), VerifyError>(VerifyError::Rollback),
        report == ApplyReport::Refused ==> r == Err::<(), VerifyError>(VerifyError::Malformed),
{
}

/// The engine starts from the pinned configuration: its tree, its members and its recovery authority.
pub open spec fn starts_from(pinned: PinnedConfig, base: EngineBase) -> bool {
    base matches EngineBase::Genesis { group_id, members, reset_authority } && group_id@ == pinned.group_id@ && reset_authority
        == pinned.reset_authority && members@.len() == pinned.genesis@.len() && forall|i: int|
        0 <= i < members@.len() ==> {
            let m = #[trigger] members@[i];
            let p = pinned.genesis@[i];
            m.id@ == p.id@ && m.role == p.role && m.author_public_key == p.author_public_key && m.hpke_public_key
                == p.hpke_public_key
        }
}

proof fn starts_as_pinned(pinned: PinnedConfig, base: EngineBase)
    requires
        crate::keyring_dag::op_verifier::pinned_base(pinned, base),
    ensures
        starts_from(pinned, base),
{
    if let EngineBase::Genesis { group_id, members, reset_authority } = base {
        let a = init_models(members@);
        let b = init_dto_models(pinned.genesis@);
        assert(a.len() == b.len());
        assert forall|i: int| 0 <= i < members@.len() implies {
            let m = #[trigger] members@[i];
            let p = pinned.genesis@[i];
            m.id@ == p.id@ && m.role == p.role && m.author_public_key == p.author_public_key && m.hpke_public_key
                == p.hpke_public_key
        } by {
            assert(a[i] == members@[i].model() && b[i] == pinned.genesis@[i].model());
        }
    }
}

/// When an op is admitted. The engine is handed the pinned configuration, the ops that were admitted before, and the op. It
/// is admitted exactly where those replay, the op applies, its author is not known to be unauthorized, and nothing is left
/// unsettled; each failure is told as what it is. Then it stands after the ops before it; the view shows the members that
/// the engine ends with, and is a reset boundary where the op re-founds the group or rotates its recovery authority; and a
/// change is told exactly where the shown members differ from those before.
pub proof fn when_an_op_is_admitted<F: Fn(&EngineBase, &Vec<KeyringOp>, &KeyringOp) -> AdmitRun>(
    verifier: DagVerifier,
    st: DagTrustState,
    op: KeyringOp,
    engine: F,
    r: Result<DagAdmitted, VerifyError>,
) -> (run: AdmitRun)
    requires
        call_ensures(DagVerifier::admit_update::<F>, (&verifier, Some(st), Update::Op { op }, &engine), r),
    ensures
        exists|base: EngineBase| starts_from(st.pinned, base) && #[trigger] engine.ensures((&base, &st.ops, &op), run),
        r is Ok <==> run.replayed && run.report == ApplyReport::Applied && run.authorized_at_position != Some(false) && run.flushed,
        !run.replayed ==> r == Err::<DagAdmitted, VerifyError>(VerifyError::Malformed),
        run.replayed && run.report == ApplyReport::Applied && run.authorized_at_position == Some(false) ==> r == Err::<
            DagAdmitted,
            VerifyError,
        >(VerifyError::Unauthorized),
        r matches Ok(a) ==> {
            &&& a.state.pinned == st.pinned
            &&& a.state.ops@ == st.ops@.push(op)
            &&& shows_exactly(run.after, a.view)
            &&& a.view.reset_boundary <==> op.action is ReFound || op.action is RotateRecoveryAuthority
            &&& a.tree_id@ == run.group_id@
            &&& a.update_ref@ == op.id@
            &&& exists|before: MembershipView| #[trigger]
                shows_exactly(run.before, before) && (a.changed <==> member_models(a.view.members@) != member_models(before.members@))
        },
{
    let (base, run) = choose|base: EngineBase, run: AdmitRun| #[trigger]
        admitted_run(engine, st.pinned, base, st.ops, op, run) && op_outcome(st, op, run, r);
    starts_as_pinned(st.pinned, base);
    if let Ok(a) = r {
        what_a_view_shows(run.after, crate::keyring_dag::op_verifier::resets(op.action), a.view);
        let before = choose|before: MembershipView| #[trigger]
            shows(entry_models(run.before.members@), false, before) && a.changed == (member_models(a.view.members@)
                != member_models(before.members@));
        what_a_view_shows(run.before, false, before);
        assert(shows_exactly(run.before, before));
    }
    run
}

/// When a founding op is admitted: where every pinned id certifies its key, the op applies, and nothing is left unsettled.
/// Then it stands alone, it is a change, and the view shows the members that the engine ends with.
pub proof fn when_a_founding_is_admitted<F: Fn(&EngineBase, &Vec<KeyringOp>, &KeyringOp) -> AdmitRun>(
    verifier: DagVerifier,
    pinned: PinnedConfig,
    genesis_op: KeyringOp,
    engine: F,
    r: Result<DagAdmitted, VerifyError>,
)
    requires
        call_ensures(DagVerifier::admit_update::<F>, (&verifier, None, Update::Bootstrap { pinned, genesis_op }, &engine), r),
    ensures
        (exists|i: int|
            0 <= i < pinned.genesis@.len() && (#[trigger] pinned.genesis@[i]).id@ != crate::keyring_api::member_id_of(
                pinned.genesis@[i].author_public_key@,
            )) ==> r == Err::<DagAdmitted, VerifyError>(VerifyError::Malformed),
        (forall|i: int|
            0 <= i < pinned.genesis@.len() ==> (#[trigger] pinned.genesis@[i]).id@ == crate::keyring_api::member_id_of(
                pinned.genesis@[i].author_public_key@,
            )) ==> exists|base: EngineBase, ops: Vec<KeyringOp>, run: AdmitRun|
            starts_from(pinned, base) && ops@.len() == 0 && #[trigger] engine.ensures((&base, &ops, &genesis_op), run) && (r is Ok
                <==> run.report == ApplyReport::Applied && run.flushed) && (r matches Ok(a) ==> a.state.pinned == pinned
                && a.state.ops@ == seq![genesis_op] && shows_exactly(run.after, a.view) && !a.view.reset_boundary && a.changed
                && a.tree_id@ == run.group_id@ && a.update_ref@ == genesis_op.id@),
{
    let models = init_dto_models(pinned.genesis@);
    if forall|i: int|
        0 <= i < pinned.genesis@.len() ==> (#[trigger] pinned.genesis@[i]).id@ == crate::keyring_api::member_id_of(
            pinned.genesis@[i].author_public_key@,
        ) {
        assert forall|i: int| 0 <= i < models.len() implies crate::keyring_dag::access::binds(
            (#[trigger] models[i]).id,
            models[i].author_public_key@,
        ) by {
            assert(models[i] == pinned.genesis@[i].model());
        }
        let (base, ops, run) = choose|base: EngineBase, ops: Vec<KeyringOp>, run: AdmitRun|
            ops@.len() == 0 && #[trigger] admitted_run(engine, pinned, base, ops, genesis_op, run) && bootstrap_outcome(
                pinned,
                genesis_op,
                run,
                r,
            );
        starts_as_pinned(pinned, base);
        if let Ok(a) = r {
            what_a_view_shows(run.after, false, a.view);
        }
        assert(engine.ensures((&base, &ops, &genesis_op), run));
    } else {
        let i = choose|i: int|
            0 <= i < pinned.genesis@.len() && (#[trigger] pinned.genesis@[i]).id@ != crate::keyring_api::member_id_of(
                pinned.genesis@[i].author_public_key@,
            );
        assert(models[i] == pinned.genesis@[i].model());
    }
}

/// An op is admitted onto a founded group, and a founding where there is none; anything else is malformed.
pub proof fn what_is_never_admitted<F: Fn(&EngineBase, &Vec<KeyringOp>, &KeyringOp) -> AdmitRun>(
    verifier: DagVerifier,
    prior: Option<DagTrustState>,
    update: Update,
    engine: F,
    r: Result<DagAdmitted, VerifyError>,
)
    requires
        call_ensures(DagVerifier::admit_update::<F>, (&verifier, prior, update, &engine), r),
        prior is Some <==> update is Bootstrap,
    ensures
        r == Err::<DagAdmitted, VerifyError>(VerifyError::Malformed),
{
}

/// An anchor crosses a reset boundary exactly where it brings an op that re-founds the group or rotates its recovery
/// authority, under an id that the prior anchor does not have.
pub proof fn what_crosses_a_reset(prior: DagAnchor, candidate: DagAnchor, r: bool)
    requires
        call_ensures(crosses_reset_boundary, (&prior, &candidate), r),
    ensures
        r <==> exists|i: int|
            0 <= i < candidate.ops@.len() && ((#[trigger] candidate.ops@[i]).op.action is ReFound
                || candidate.ops@[i].op.action is RotateRecoveryAuthority) && forall|j: int|
                0 <= j < prior.ops@.len() ==> (#[trigger] prior.ops@[j]).op.id != candidate.ops@[i].op.id,
{
    let (old, new) = (prior.closure(), candidate.closure());
    if r {
        let i = choose|i: int|
            0 <= i < new.len() && crate::keyring_dag::anchor_verifier::is_reset((#[trigger] new[i]).op.action)
                && !crate::keyring_dag::anchor::has_id(old, new[i].op.id);
        assert(new[i] == candidate.ops@[i].model());
        assert forall|j: int| 0 <= j < prior.ops@.len() implies (#[trigger] prior.ops@[j]).op.id != candidate.ops@[i].op.id by {
            assert(old[j] == prior.ops@[j].model());
        }
        assert(candidate.ops@[i].op.action is ReFound || candidate.ops@[i].op.action is RotateRecoveryAuthority);
    }
    if exists|i: int|
        0 <= i < candidate.ops@.len() && ((#[trigger] candidate.ops@[i]).op.action is ReFound
            || candidate.ops@[i].op.action is RotateRecoveryAuthority) && forall|j: int|
            0 <= j < prior.ops@.len() ==> (#[trigger] prior.ops@[j]).op.id != candidate.ops@[i].op.id {
        let i = choose|i: int|
            0 <= i < candidate.ops@.len() && ((#[trigger] candidate.ops@[i]).op.action is ReFound
                || candidate.ops@[i].op.action is RotateRecoveryAuthority) && forall|j: int|
                0 <= j < prior.ops@.len() ==> (#[trigger] prior.ops@[j]).op.id != candidate.ops@[i].op.id;
        assert(new[i] == candidate.ops@[i].model());
        if crate::keyring_dag::anchor::has_id(old, new[i].op.id) {
            let j = choose|j: int| 0 <= j < old.len() && (#[trigger] old[j]).op.id == new[i].op.id;
            assert(old[j] == prior.ops@[j].model());
        }
        assert(crate::keyring_dag::anchor_verifier::is_reset(new[i].op.action));
    }
}

/// How a client's error is told: a missing tip is a rollback, an engine's refusal is unauthenticated, and the rest is
/// malformed.
pub proof fn how_a_client_error_is_told(e: ClientError, r: VerifyError)
    requires
        call_ensures(crate::keyring_dag::anchor_verifier::classify, (&e,), r),
    ensures
        r == VerifyError::Rollback <==> e is RolledBack,
        r == VerifyError::Unauthenticated <==> e is Engine,
        r == VerifyError::Malformed <==> e is Malformed || e is BadWatermark,
{
}

/// The last entry for this id stands at `i`.
pub open spec fn last_entry(s: Seq<EntryModel>, id: Seq<char>, i: int) -> bool {
    0 <= i < s.len() && s[i].id == id && forall|j: int| i < j < s.len() ==> (#[trigger] s[j]).id != id
}

/// The roster of some entries has every id that they have, each with the state of the last entry for it, and no other.
pub proof fn what_a_roster_holds(s: Seq<EntryModel>)
    ensures
        forall|id: Seq<char>| #[trigger] roster_of(s).contains_key(id) ==> exists|i: int| #[trigger]
            last_entry(s, id, i) && roster_of(s)[id] == s[i].state,
        forall|id: Seq<char>, i: int| #[trigger] last_entry(s, id, i) ==> roster_of(s).contains_key(id) && roster_of(s)[id] == s[i].state,
    decreases s.len(),
{
    if s.len() > 0 {
        let t = s.drop_last();
        let n = s.len() - 1;
        what_a_roster_holds(t);
        assert forall|id: Seq<char>| #[trigger] roster_of(s).contains_key(id) implies exists|i: int| #[trigger]
            last_entry(s, id, i) && roster_of(s)[id] == s[i].state by {
            if s[n].id == id {
                assert(last_entry(s, id, n));
            } else {
                assert(roster_of(t).contains_key(id));
                let i = choose|i: int| #[trigger] last_entry(t, id, i) && roster_of(t)[id] == t[i].state;
                assert(last_entry(s, id, i)) by {
                    assert forall|j: int| i < j < s.len() implies (#[trigger] s[j]).id != id by {
                        if j < n {
                            assert(t[j].id != id);
                        }
                    }
                }
            }
        }
        assert forall|id: Seq<char>, i: int| #[trigger] last_entry(s, id, i) implies roster_of(s).contains_key(id) && roster_of(s)[id]
            == s[i].state by {
            if i < n {
                assert(s[n].id != id);
                assert(last_entry(t, id, i)) by {
                    assert forall|j: int| i < j < t.len() implies (#[trigger] t[j]).id != id by {
                        assert(s[j].id != id);
                    }
                }
            }
        }
    }
}

/// What an anchor's checkpoint must be for the engine to start from it: verified, with ids that certify their keys, and
/// signed by the author that it names, who is the active owner of its own state, under that owner's key.
pub open spec fn is_base(state: GroupStateView, author: Seq<char>, signer: [u8; 32], verified: bool) -> bool {
    &&& verified
    &&& forall|i: int|
        0 <= i < state.members@.len() ==> (#[trigger] state.members@[i]).id@ == crate::keyring_api::member_id_of(
            state.members@[i].author_public_key@,
        )
    &&& exists|i: int|
        0 <= i < state.members@.len() && (#[trigger] state.members@[i]).id@ == author && state.members@[i].member_counter % 2 == 0
            && state.members@[i].role.0 == 1 && state.members@[i].author_public_key == signer && forall|j: int|
            i < j < state.members@.len() ==> (#[trigger] state.members@[j]).id@ != author
}

/// The engine starts from an anchor's genesis, where the anchor has no checkpoint; and from its checkpoint exactly where
/// that is verified and is the owner's own.
pub proof fn when_an_anchor_is_a_base(anchor: DagAnchor, r: Result<EngineBase, ClientError>)
    requires
        call_ensures(engine_base, (&anchor,), r),
    ensures
        anchor.checkpoint is None ==> r is Ok,
        anchor.checkpoint matches Some(cp) ==> (r is Ok <==> is_base(cp.body.state, cp.body.author@, cp.signer, cp.verified)),
{
    if let Some(cp) = anchor.checkpoint {
        let s = cp.body.state.members@;
        let all = entry_models(s);
        what_a_roster_holds(all);
        let author = cp.body.author@;
        let roster = roster_of(all);
        assert forall|i: int| 0 <= i < s.len() implies (#[trigger] all[i]) == s[i]@ by {}
        if is_base(cp.body.state, author, cp.signer, cp.verified) {
            let i = choose|i: int|
                0 <= i < s.len() && (#[trigger] s[i]).id@ == author && s[i].member_counter % 2 == 0 && s[i].role.0 == 1
                    && s[i].author_public_key == cp.signer && forall|j: int| i < j < s.len() ==> (#[trigger] s[j]).id@ != author;
            assert(last_entry(all, author, i)) by {
                assert(all[i] == s[i]@);
                assert forall|j: int| i < j < all.len() implies (#[trigger] all[j]).id != author by {
                    assert(s[j].id@ != author);
                }
            }
            assert(crate::keyring_dag::checkpoint::all_bind(all)) by {
                assert forall|k: int| 0 <= k < all.len() implies crate::keyring_dag::checkpoint::entry_binds(#[trigger] all[k]) by {
                    assert(s[k].id@ == crate::keyring_api::member_id_of(s[k].author_public_key@));
                }
            }
        }
        if r is Ok {
            let i = choose|i: int| #[trigger] last_entry(all, author, i) && roster[author] == all[i].state;
            assert(all[i] == s[i]@);
            assert forall|j: int| i < j < s.len() implies (#[trigger] s[j]).id@ != author by {
                assert(all[j].id != author);
            }
            assert forall|k: int| 0 <= k < s.len() implies (#[trigger] s[k]).id@ == crate::keyring_api::member_id_of(
                s[k].author_public_key@,
            ) by {
                assert(crate::keyring_dag::checkpoint::entry_binds(all[k]));
            }
            assert(s[i].id@ == author);
        }
    }
}

/// What a pull leaves as applied is what was, and every op that it took.
pub proof fn what_a_pull_leaves(before: Set<Seq<u8>>, ops: Seq<KeyringOp>)
    ensures
        forall|id: Seq<u8>| #[trigger]
            with_ops(before, ops).contains(id) <==> before.contains(id) || exists|i: int|
                0 <= i < ops.len() && (#[trigger] ops[i]).id@ == id,
    decreases ops.len(),
{
    if ops.len() > 0 {
        let t = ops.drop_last();
        let n = ops.len() - 1;
        what_a_pull_leaves(before, t);
        assert forall|id: Seq<u8>| #[trigger] with_ops(before, ops).contains(id) <==> before.contains(id) || exists|i: int|
            0 <= i < ops.len() && (#[trigger] ops[i]).id@ == id by {
            if with_ops(before, t).contains(id) && !before.contains(id) {
                let i = choose|i: int| 0 <= i < t.len() && (#[trigger] t[i]).id@ == id;
                assert(ops[i].id@ == id);
            }
            if ops[n].id@ == id {
                assert(with_ops(before, ops).contains(id));
            }
            if exists|i: int| 0 <= i < ops.len() && (#[trigger] ops[i]).id@ == id {
                let i = choose|i: int| 0 <= i < ops.len() && (#[trigger] ops[i]).id@ == id;
                if i < n {
                    assert(t[i].id@ == id);
                    assert(with_ops(before, t).contains(id));
                }
            }
        }
    }
}

/// A pull hands as many ops to the engine as ids are new after it.
pub proof fn how_many_a_pull_submits(before: Set<Seq<u8>>, ops: Seq<KeyringOp>)
    requires
        before.finite(),
    ensures
        with_ops(before, ops).finite(),
        fresh(before, ops) == with_ops(before, ops).len() - before.len(),
    decreases ops.len(),
{
    if ops.len() > 0 {
        how_many_a_pull_submits(before, ops.drop_last());
    }
}

/// An op is turned into its wire form field by field.
pub proof fn an_op_keeps_its_fields(op: KeyringOp, dto: OpDto)
    requires
        call_ensures(op_to_dto, (&op,), dto),
    ensures
        dto.id == op.id,
        dto.group_id@ == op.group_id@,
        dto.parents@ == op.parents@,
        dto.author@ == op.author@,
        dto.signature@ == op.signature@,
        dto.author_public_key == op.author_public_key,
        dto.sealing@ == op.sealing@,
        same_action(op.action, dto.action),
{
    actions_agree(op.action, dto.action);
}

/// The two name one member, with one role and the same keys.
pub open spec fn same_member(m: crate::keyring_dag::access::KeyringMemberInit, d: MemberInitDto) -> bool {
    m.id@ == d.id@ && m.role == d.role && m.author_public_key == d.author_public_key && m.hpke_public_key == d.hpke_public_key
}

/// The two are one action, field by field.
pub open spec fn same_action(a: KeyringAction, d: ActionDto) -> bool
    decreases a,
{
    match (a, d) {
        (KeyringAction::Create { initial_members }, ActionDto::Create { initial_members: m }) => initial_members@.len() == m@.len()
            && forall|i: int| 0 <= i < m@.len() ==> same_member(#[trigger] initial_members@[i], m@[i]),
        (
            KeyringAction::Add { member, role, author_public_key, hpke_public_key, member_proof },
            ActionDto::Add { member: n, role: r, author_public_key: x, hpke_public_key: y, member_proof: p },
        ) => member@ == n@ && role == r && author_public_key == x && hpke_public_key == y && match (member_proof, p) {
            (Some(s), Some(t)) => s@ == t@,
            (None, None) => true,
            _ => false,
        },
        (KeyringAction::Remove { member }, ActionDto::Remove { member: n }) => member@ == n@,
        (KeyringAction::ChangeRole { member, new_role }, ActionDto::ChangeRole { member: n, new_role: r }) => member@ == n@
            && new_role == r,
        (KeyringAction::Propose { proposal_id, target }, ActionDto::Propose { proposal_id: i, target: t }) => proposal_id == i
            && same_action(*target, *t),
        (KeyringAction::Approve { proposal_id }, ActionDto::Approve { proposal_id: i }) => proposal_id == i,
        (KeyringAction::Commit { proposal_id }, ActionDto::Commit { proposal_id: i }) => proposal_id == i,
        (
            KeyringAction::ReFound { member, new_author_public_key, new_hpke_public_key, era },
            ActionDto::ReFound { member: n, new_author_public_key: x, new_hpke_public_key: y, era: e },
        ) => member@ == n@ && new_author_public_key == x && new_hpke_public_key == y && era == e,
        (
            KeyringAction::RotateRecoveryAuthority { new_reset_authority },
            ActionDto::RotateRecoveryAuthority { new_reset_authority: x },
        ) => new_reset_authority == x,
        (
            KeyringAction::Retarget { member, new_author_public_key, new_hpke_public_key },
            ActionDto::Retarget { member: n, new_author_public_key: x, new_hpke_public_key: y },
        ) => member@ == n@ && new_author_public_key == x && new_hpke_public_key == y,
        (KeyringAction::Reseal, ActionDto::Reseal) => true,
        _ => false,
    }
}

proof fn actions_agree(a: KeyringAction, d: ActionDto)
    requires
        d.model() == a.model(),
    ensures
        same_action(a, d),
    decreases a,
{
    match (a, d) {
        (KeyringAction::Propose { target, .. }, ActionDto::Propose { target: t, .. }) => {
            actions_agree(*target, *t);
        },
        (KeyringAction::Create { initial_members }, ActionDto::Create { initial_members: m }) => {
            let (x, y) = (init_models(initial_members@), init_dto_models(m@));
            assert(x == y);
            assert(x.len() == y.len());
            assert forall|i: int| 0 <= i < m@.len() implies same_member(#[trigger] initial_members@[i], m@[i]) by {
                assert(x[i] == initial_members@[i].model() && y[i] == m@[i].model());
            }
        },
        _ => {},
    }
}

} // verus!
