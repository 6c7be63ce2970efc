//! When an anchor resolves and is taken over, what a compaction leaves of it, and what an op carries.

use vstd::prelude::*;
use vstd::utf8::encode_utf8;

use crate::keyring_api::{member_models, sorted_models, MembershipView, VerifyError};
use crate::keyring_dag::access::KeyringOp;
use crate::keyring_dag::admission::{same_member, what_a_pull_leaves};
use crate::keyring_dag::anchor_verifier::{settled, AnchorAdmitted, DagAnchorVerifier};
use crate::keyring_dag::anchor::{check_floor, flattened, floor_id, frontier_of, holds, satisfies, ClientError, DagAnchor, DagPin, OpDraft, StoredModel, StoredOp};
use crate::keyring_dag::blob_sync::{op_ids, publication, pull_outcome, taken, with_ops, PullReport, PutOutcome};
use crate::keyring_dag::checkpoint::{entry_models, Checkpoint, GroupStateView, MemberStateDto, SealingEntry, SealingOrigin, SignedCheckpoint};
use crate::keyring_dag::codec::{init_dto_models, init_models, BlobSyncError};
use crate::keyring_dag::compact::{
    below, closed_below, compact_to_checkpoint, compaction_outcome, cut_ran, depth_in, parent_of, pre_cut, side,
};
use crate::keyring_dag::mint::{mint, signed};
use crate::keyring_dag::recovery::derive_rvk;
use crate::keyring_dag::resolve::{
    accept_remote_anchor, adoption, engine_base, first_trouble, op_trouble, op_with, ran, resolution, resolve_run,
    run_trouble, united, verification, verified_run, EngineBase, EngineRun, Resolved,
};
use crate::keyring_dag::shown::{has_member, is_in, is_of, shown_as, shows_exactly, what_a_view_shows};
use crate::sorted::SortedSet;

verus! {

/// The ops of the anchor are all under their own content's id, and the run refused none of them and settled.
pub open spec fn ran_clean(anchor: DagAnchor, run: EngineRun) -> bool {
    &&& forall|i: int| 0 <= i < anchor.ops@.len() ==> (#[trigger] anchor.ops@[i]).content_id == anchor.ops@[i].op.id
    &&& forall|i: int| 0 <= i < anchor.ops@.len() && i < run.refusals@.len() ==> (#[trigger] run.refusals@[i]) is None
    &&& run.flush_error is None
}

/// The anchor has its genesis op, or a checkpoint in its place.
pub open spec fn is_rooted(anchor: DagAnchor) -> bool {
    anchor.checkpoint is Some || exists|i: int| 0 <= i < anchor.ops@.len() && (#[trigger] anchor.ops@[i]).op.id == anchor.genesis_op_id
}

proof fn no_trouble(anchor: DagAnchor, run: EngineRun, n: int)
    requires
        0 <= n <= anchor.ops@.len(),
    ensures
        first_trouble(anchor.closure(), run, n) is None <==> forall|i: int|
            0 <= i < n ==> (#[trigger] anchor.ops@[i]).content_id == anchor.ops@[i].op.id && (i < run.refusals@.len() ==> run.refusals@[i] is None),
    decreases n,
{
    if n > 0 {
        no_trouble(anchor, run, n - 1);
        assert(anchor.closure()[n - 1] == anchor.ops@[n - 1].model());
        assert(op_trouble(anchor.closure(), run, n - 1) is None <==> anchor.ops@[n - 1].content_id == anchor.ops@[n - 1].op.id && (n - 1
            < run.refusals@.len() ==> run.refusals@[n - 1] is None));
    }
}

proof fn trouble_means(anchor: DagAnchor, run: EngineRun)
    ensures
        run_trouble(anchor, run) is None <==> ran_clean(anchor, run) && is_rooted(anchor),
{
    no_trouble(anchor, run, anchor.ops@.len() as int);
    let ops = anchor.closure();
    assert forall|i: int| 0 <= i < anchor.ops@.len() implies #[trigger] ops[i] == anchor.ops@[i].model() by {}
    if crate::keyring_dag::anchor::has_id(ops, anchor.genesis_op_id) {
        let i = choose|i: int| 0 <= i < ops.len() && (#[trigger] ops[i]).op.id == anchor.genesis_op_id;
        assert(anchor.ops@[i].op.id == anchor.genesis_op_id);
    }
    if exists|i: int| 0 <= i < anchor.ops@.len() && (#[trigger] anchor.ops@[i]).op.id == anchor.genesis_op_id {
        let i = choose|i: int| 0 <= i < anchor.ops@.len() && (#[trigger] anchor.ops@[i]).op.id == anchor.genesis_op_id;
        assert(ops[i].op.id == anchor.genesis_op_id);
    }
    if first_trouble(ops, run, ops.len() as int) is None {
        assert forall|i: int| 0 <= i < anchor.ops@.len() implies (#[trigger] anchor.ops@[i]).content_id == anchor.ops@[i].op.id by {}
        assert forall|i: int| 0 <= i < anchor.ops@.len() && i < run.refusals@.len() implies (#[trigger] run.refusals@[i]) is None by {
            assert(anchor.ops@[i].content_id == anchor.ops@[i].op.id);
        }
    }
}

/// A run resolves exactly where every op stands under its own content's id, none was refused, the run settled, and the
/// anchor is rooted. What it resolves to keeps the run's shared mark and recovery authority, and the checkpoint's count of
/// minting ops where there is a checkpoint.
pub proof fn when_a_run_resolves(anchor: DagAnchor, run: EngineRun, r: Result<Resolved, ClientError>)
    requires
        call_ensures(resolve_run, (&anchor, &run), r),
    ensures
        r is Ok <==> ran_clean(anchor, run) && is_rooted(anchor),
        r matches Ok(v) ==> v.has_been_shared == run.has_been_shared && v.reset_authority == run.reset_authority && !v.members.reset_boundary
            && (anchor.checkpoint is None ==> v.minting_ops_baseline == 0 && v.checkpoint_sealing is None) && (anchor.checkpoint matches Some(cp)
            ==> v.minting_ops_baseline == cp.body.minting_ops_baseline && v.checkpoint_sealing is Some),
{
    trouble_means(anchor, run);
}

/// The anchor has an op with these id bytes.
pub open spec fn knows(anchor: DagAnchor, id: Seq<u8>) -> bool {
    exists|i: int| 0 <= i < anchor.ops@.len() && (#[trigger] anchor.ops@[i]).op.id@ == id
}

/// The watermark is one by its length, and every op that it names is among the anchor's.
pub open spec fn names_only_known(anchor: DagAnchor, floor: Seq<u8>) -> bool {
    &&& floor.len() % 32 == 0
    &&& forall|n: int| 0 <= n < floor.len() / 32 ==> knows(anchor, #[trigger] floor_id(floor, n))
}

proof fn satisfied_means(anchor: DagAnchor, floor: Seq<u8>)
    ensures
        satisfies(anchor.closure(), floor) <==> names_only_known(anchor, floor),
{
    let ops = anchor.closure();
    assert forall|i: int| 0 <= i < anchor.ops@.len() implies #[trigger] ops[i] == anchor.ops@[i].model() by {}
    if satisfies(ops, floor) {
        assert forall|n: int| 0 <= n < floor.len() / 32 implies knows(anchor, #[trigger] floor_id(floor, n)) by {
            assert(holds(ops, floor_id(floor, n)));
            let i = choose|i: int| 0 <= i < ops.len() && (#[trigger] ops[i]).op.id@ == floor_id(floor, n);
            assert(anchor.ops@[i].op.id@ == floor_id(floor, n));
        }
    }
    if names_only_known(anchor, floor) {
        assert forall|n: int| 0 <= n < floor.len() / 32 implies holds(ops, #[trigger] floor_id(floor, n)) by {
            assert(knows(anchor, floor_id(floor, n)));
            let i = choose|i: int| 0 <= i < anchor.ops@.len() && (#[trigger] anchor.ops@[i]).op.id@ == floor_id(floor, n);
            assert(ops[i].op.id@ == floor_id(floor, n));
        }
    }
}

/// When a watermark is satisfied: where every thirty-two bytes of it, from the first on, are the id of an op of the anchor.
/// One of another length is a bad watermark; a missing op is a rollback.
pub proof fn when_a_watermark_is_satisfied(anchor: DagAnchor, floor: &[u8], r: Result<(), ClientError>)
    requires
        call_ensures(check_floor, (&anchor, floor), r),
    ensures
        r is Ok <==> names_only_known(anchor, floor@),
        (r matches Err(ClientError::BadWatermark(_))) <==> floor@.len() % 32 != 0,
        (r matches Err(ClientError::RolledBack(_))) <==> floor@.len() % 32 == 0 && !names_only_known(anchor, floor@),
        forall|n: int, k: int|
            0 <= n < floor@.len() / 32 && floor@.len() % 32 == 0 && 0 <= k < 32 ==> #[trigger] floor_id(floor@, n)[k] == floor@[32 * n + k],
{
    satisfied_means(anchor, floor@);
}

/// The first op of the anchor with the genesis id founds the group with the members that the anchor pins.
pub open spec fn founds_as_pinned(anchor: DagAnchor, i: int) -> bool {
    &&& 0 <= i < anchor.ops@.len() && anchor.ops@[i].op.id == anchor.genesis_op_id
    &&& forall|j: int| 0 <= j < i ==> (#[trigger] anchor.ops@[j]).op.id != anchor.genesis_op_id
    &&& anchor.ops@[i].op.action matches crate::keyring_dag::access::KeyringAction::Create { initial_members } && initial_members@.len()
        == anchor.genesis@.len() && forall|k: int|
        0 <= k < initial_members@.len() ==> same_member(#[trigger] initial_members@[k], anchor.genesis@[k])
}

proof fn first_is_first(ops: Seq<StoredModel>, id: [u8; 32], i: int)
    requires
        0 <= i < ops.len(),
        ops[i].op.id == id,
        forall|j: int| 0 <= j < i ==> (#[trigger] ops[j]).op.id != id,
    ensures
        crate::keyring_dag::resolve::first_with(ops, id) == Some(ops[i].op),
    decreases ops.len(),
{
    if i > 0 {
        assert(ops[0].op.id != id);
        let t = ops.drop_first();
        assert forall|j: int| 0 <= j < i - 1 implies (#[trigger] t[j]).op.id != id by {
            assert(t[j] == ops[j + 1]);
        }
        first_is_first(t, id, i - 1);
    }
}

/// When an anchor from an untrusted source is accepted. Where it has no checkpoint, is of the tree, has the pinned genesis
/// id and recovery authority, founds the group as it pins, names every op of the watermark, and every run of the engine
/// over it is clean, it is accepted.
pub proof fn when_an_anchor_is_accepted<F: Fn(&EngineBase, &Vec<StoredOp>) -> EngineRun>(
    engine: F,
    anchor: DagAnchor,
    group_id: Seq<u8>,
    pin: DagPin,
    i: int,
    r: Result<Resolved, ClientError>,
)
    requires
        verification(engine, anchor, group_id, pin, r),
        anchor.checkpoint is None,
        anchor.group_id@ == group_id,
        anchor.genesis_op_id == pin.genesis_op_id,
        anchor.reset_authority == pin.reset_authority,
        founds_as_pinned(anchor, i),
        names_only_known(anchor, pin.watermark@),
        forall|base: EngineBase, run: EngineRun| #[trigger] ran(engine, anchor, base, run) ==> ran_clean(anchor, run),
    ensures
        r is Ok,
{
    let (base, run) = choose|base: EngineBase, run: EngineRun| #[trigger]
        ran(engine, anchor, base, run) && verified_run(anchor, pin, run, r);
    trouble_means(anchor, run);
    satisfied_means(anchor, pin.watermark@);
    let ops = anchor.closure();
    assert forall|j: int| 0 <= j < anchor.ops@.len() implies #[trigger] ops[j] == anchor.ops@[j].model() by {}
    assert forall|j: int| 0 <= j < i implies (#[trigger] ops[j]).op.id != anchor.genesis_op_id by {
        assert(anchor.ops@[j].op.id != anchor.genesis_op_id);
    }
    assert(ops[i] == anchor.ops@[i].model());
    first_is_first(ops, anchor.genesis_op_id, i);
    if let crate::keyring_dag::access::KeyringAction::Create { initial_members } = anchor.ops@[i].op.action {
        let (x, y) = (init_models(initial_members@), init_dto_models(anchor.genesis@));
        assert forall|k: int| 0 <= k < x.len() implies x[k] == y[k] by {
            assert(same_member(initial_members@[k], anchor.genesis@[k]));
            assert(x[k] == initial_members@[k].model() && y[k] == anchor.genesis@[k].model());
        }
        assert(x =~= y);
    }
    assert(anchor.ops@[i].op.id == anchor.genesis_op_id);
}

/// What taking over a remote anchor leaves: the local one's pins and checkpoint; every local op, in place, before any other;
/// and every op of the remote one's.
pub proof fn what_adopting_leaves<F: Fn(&EngineBase, &Vec<StoredOp>) -> EngineRun>(
    local: DagAnchor,
    remote: DagAnchor,
    group_id: &[u8],
    pin: DagPin,
    floor: &[u8],
    engine: F,
    m: DagAnchor,
)
    requires
        call_ensures(accept_remote_anchor::<F>, (local, &remote, group_id, &pin, floor, &engine), Ok(m)),
    ensures
        m.group_id == local.group_id,
        m.genesis == local.genesis,
        m.reset_authority == local.reset_authority,
        m.genesis_op_id == local.genesis_op_id,
        m.checkpoint == local.checkpoint,
        remote.checkpoint is None,
        remote.group_id@ == group_id@,
        remote.genesis_op_id == pin.genesis_op_id,
        remote.reset_authority == pin.reset_authority,
        names_only_known(remote, floor@),
        local.closure().len() <= m.closure().len(),
        forall|i: int| 0 <= i < local.closure().len() ==> #[trigger] m.closure()[i] == local.closure()[i],
        forall|id: [u8; 32]| #[trigger]
            crate::keyring_dag::anchor::has_id(m.closure(), id) <==> crate::keyring_dag::anchor::has_id(local.closure(), id)
                || crate::keyring_dag::anchor::has_id(remote.closure(), id),
{
    adopted_leaves(engine, local, remote, group_id@, pin, floor@, m);
}

proof fn adopted_leaves<F: Fn(&EngineBase, &Vec<StoredOp>) -> EngineRun>(
    engine: F,
    local: DagAnchor,
    remote: DagAnchor,
    group_id: Seq<u8>,
    pin: DagPin,
    floor: Seq<u8>,
    m: DagAnchor,
)
    requires
        adoption(engine, local, remote, group_id, pin, floor, Ok(m)),
    ensures
        m.group_id == local.group_id,
        m.genesis == local.genesis,
        m.reset_authority == local.reset_authority,
        m.genesis_op_id == local.genesis_op_id,
        m.checkpoint == local.checkpoint,
        remote.checkpoint is None,
        remote.group_id@ == group_id,
        remote.genesis_op_id == pin.genesis_op_id,
        remote.reset_authority == pin.reset_authority,
        names_only_known(remote, floor),
        local.closure().len() <= m.closure().len(),
        forall|i: int| 0 <= i < local.closure().len() ==> #[trigger] m.closure()[i] == local.closure()[i],
        forall|id: [u8; 32]| #[trigger]
            crate::keyring_dag::anchor::has_id(m.closure(), id) <==> crate::keyring_dag::anchor::has_id(local.closure(), id)
                || crate::keyring_dag::anchor::has_id(remote.closure(), id),
{
    let r = Ok::<DagAnchor, ClientError>(m);
    let (sync, v) = choose|sync: DagPin, v: Result<Resolved, ClientError>|
        sync.genesis_op_id == pin.genesis_op_id && sync.reset_authority == pin.reset_authority && sync.watermark@ == floor
            && #[trigger] verification(engine, remote, group_id, sync, v) && match v {
            Ok(_) => r matches Ok(m) && united(local, remote, m),
            Err(e) => r matches Err(x) && x.model() == e.model(),
        };
    crate::keyring_dag::resolve::a_verified_anchor_matches_its_pin(engine, remote, group_id, sync, v);
    satisfied_means(remote, floor);
    crate::keyring_dag::anchor::merge_keeps_local_ops(local.closure(), remote.closure());
    assert forall|id: [u8; 32]| #[trigger] crate::keyring_dag::anchor::has_id(m.closure(), id) <==> crate::keyring_dag::anchor::has_id(
        local.closure(),
        id,
    ) || crate::keyring_dag::anchor::has_id(remote.closure(), id) by {
        crate::keyring_dag::anchor::merge_unites_ids(local.closure(), remote.closure(), id);
    }
}

/// The set holds the frontier, and with an op its parents.
pub open spec fn goes_down(ops: Seq<StoredOp>, frontier: Seq<[u8; 32]>, s: Set<Seq<u8>>) -> bool {
    &&& forall|i: int| 0 <= i < frontier.len() ==> s.contains((#[trigger] frontier[i])@)
    &&& forall|i: int, k: int|
        #![trigger ops[i].op.parents@[k]]
        0 <= i < ops.len() && s.contains(ops[i].op.id@) && 0 <= k < ops[i].op.parents@.len() && (forall|j: int|
            i < j < ops.len() ==> (#[trigger] ops[j]).op.id != ops[i].op.id) ==> s.contains(ops[i].op.parents@[k]@)
}

proof fn last_is_found(ops: Seq<StoredModel>, id: [u8; 32], i: int)
    requires
        0 <= i < ops.len(),
        ops[i].op.id == id,
        forall|j: int| i < j < ops.len() ==> (#[trigger] ops[j]).op.id != id,
    ensures
        op_with(ops, id) == Some(ops[i].op),
    decreases ops.len(),
{
    if i < ops.len() - 1 {
        assert(ops[ops.len() - 1].op.id != id);
        let t = ops.drop_last();
        assert forall|j: int| i < j < t.len() implies (#[trigger] t[j]).op.id != id by {
            assert(t[j] == ops[j]);
        }
        last_is_found(t, id, i);
    }
}

proof fn found_is_last(ops: Seq<StoredModel>, id: [u8; 32]) -> (i: int)
    requires
        op_with(ops, id) is Some,
    ensures
        0 <= i < ops.len(),
        ops[i].op.id == id,
        op_with(ops, id) == Some(ops[i].op),
        forall|j: int| i < j < ops.len() ==> (#[trigger] ops[j]).op.id != id,
    decreases ops.len(),
{
    let n = ops.len() - 1;
    if ops[n].op.id == id {
        n
    } else {
        let t = ops.drop_last();
        let i = found_is_last(t, id);
        assert forall|j: int| i < j < ops.len() implies (#[trigger] ops[j]).op.id != id by {
            if j < n {
                assert(t[j].op.id != id);
            }
        }
        i
    }
}

proof fn going_down_is_closed(ops: Seq<StoredOp>, frontier: Seq<[u8; 32]>, s: Set<Seq<u8>>)
    ensures
        closed_below(crate::keyring_dag::anchor::stored_models(ops), frontier, s) <==> goes_down(ops, frontier, s),
{
    let ms = crate::keyring_dag::anchor::stored_models(ops);
    assert forall|j: int| 0 <= j < ops.len() implies #[trigger] ms[j] == ops[j].model() by {}
    if closed_below(ms, frontier, s) {
        assert forall|i: int, k: int|
            #![trigger ops[i].op.parents@[k]]
            0 <= i < ops.len() && s.contains(ops[i].op.id@) && 0 <= k < ops[i].op.parents@.len() && (forall|j: int|
                i < j < ops.len() ==> (#[trigger] ops[j]).op.id != ops[i].op.id) implies s.contains(ops[i].op.parents@[k]@) by {
            assert forall|j: int| i < j < ms.len() implies (#[trigger] ms[j]).op.id != ops[i].op.id by {
                assert(ops[j].op.id != ops[i].op.id);
            }
            assert(ms[i] == ops[i].model());
            last_is_found(ms, ops[i].op.id, i);
            assert(ms[i].op.parents.contains(ops[i].op.parents@[k]));
            assert(parent_of(ms, ops[i].op.id, ops[i].op.parents@[k]));
        }
    }
    if goes_down(ops, frontier, s) {
        assert forall|id: [u8; 32], p: [u8; 32]| s.contains(id@) && #[trigger] parent_of(ms, id, p) implies s.contains(p@) by {
            let i = found_is_last(ms, id);
            assert(ms[i] == ops[i].model());
            let k = choose|k: int| 0 <= k < ms[i].op.parents.len() && ms[i].op.parents[k] == p;
            assert forall|j: int| i < j < ops.len() implies (#[trigger] ops[j]).op.id != ops[i].op.id by {
                assert(ms[j].op.id != id);
            }
            assert(ops[i].op.parents@[k] == p);
        }
    }
}

/// What lies below a cut is the least that holds the frontier and, with an op, its parents; of two ops with one id the
/// later one's parents count.
pub proof fn what_lies_below_a_cut(ops: Vec<StoredOp>, frontier: Vec<[u8; 32]>, r: SortedSet<[u8; 32]>)
    requires
        call_ensures(pre_cut, (&ops, &frontier), r),
    ensures
        goes_down(ops@, frontier@, r@),
        forall|s: Set<Seq<u8>>| #[trigger] goes_down(ops@, frontier@, s) ==> r@.subset_of(s),
{
    let ms = crate::keyring_dag::anchor::stored_models(ops@);
    assert forall|s: Set<Seq<u8>>| #[trigger] goes_down(ops@, frontier@, s) implies r@.subset_of(s) by {
        going_down_is_closed(ops@, frontier@, s);
        assert forall|id: Seq<u8>| r@.contains(id) implies s.contains(id) by {
            assert(below(ms, frontier@, id));
        }
    }
    assert(closed_below(ms, frontier@, r@)) by {
        assert forall|i: int| 0 <= i < frontier@.len() implies r@.contains((#[trigger] frontier@[i])@) by {
            assert(below(ms, frontier@, frontier@[i]@));
        }
        assert forall|id: [u8; 32], p: [u8; 32]| r@.contains(id@) && #[trigger] parent_of(ms, id, p) implies r@.contains(p@) by {
            assert(below(ms, frontier@, id@));
            assert forall|s: Set<Seq<u8>>| #[trigger] closed_below(ms, frontier@, s) implies s.contains(p@) by {
                assert(s.contains(id@));
            }
            assert(below(ms, frontier@, p@));
        }
    }
    going_down_is_closed(ops@, frontier@, r@);
}

/// The last that the run noted of this op's depth; zero where it noted none.
pub open spec fn noted_depth(depths: Seq<([u8; 32], u64)>, id: [u8; 32], d: u64) -> bool {
    ||| exists|i: int|
        0 <= i < depths.len() && (#[trigger] depths[i]) == (id, d) && forall|j: int| i < j < depths.len() ==> (#[trigger] depths[j]).0 != id
    ||| d == 0 && forall|j: int| 0 <= j < depths.len() ==> (#[trigger] depths[j]).0 != id
}

proof fn depth_is_noted(depths: Seq<([u8; 32], u64)>, id: [u8; 32])
    ensures
        noted_depth(depths, id, depth_in(depths, id)),
    decreases depths.len(),
{
    if depths.len() > 0 {
        let n = depths.len() - 1;
        if depths[n].0 == id {
            assert(depths[n] == (id, depth_in(depths, id)));
        } else {
            let t = depths.drop_last();
            depth_is_noted(t, id);
            let d = depth_in(t, id);
            if exists|i: int|
                0 <= i < t.len() && (#[trigger] t[i]) == (id, d) && forall|j: int| i < j < t.len() ==> (#[trigger] t[j]).0 != id {
                let i = choose|i: int|
                    0 <= i < t.len() && (#[trigger] t[i]) == (id, d) && forall|j: int| i < j < t.len() ==> (#[trigger] t[j]).0 != id;
                assert(depths[i] == (id, d));
                assert forall|j: int| i < j < depths.len() implies (#[trigger] depths[j]).0 != id by {
                    if j < n {
                        assert(t[j].0 != id);
                    }
                }
            } else {
                assert forall|j: int| 0 <= j < depths.len() implies (#[trigger] depths[j]).0 != id by {
                    if j < n {
                        assert(t[j].0 != id);
                    }
                }
            }
        }
    }
}

/// The checkpoint is of this run at this cut: each op of the frontier with the depth that was noted of it, the members as
/// the run left them, its shared mark and recovery authority, and what the caller gave.
pub open spec fn is_checkpoint_of(
    cp: Checkpoint,
    frontier: Seq<[u8; 32]>,
    prev_snapshot: Option<[u8; 32]>,
    author: Seq<char>,
    run: EngineRun,
) -> bool {
    &&& cp.frontier_depths@.len() == frontier.len()
    &&& forall|i: int|
        0 <= i < frontier.len() ==> (#[trigger] cp.frontier_depths@[i]).0 == frontier[i] && noted_depth(
            run.depths@,
            frontier[i],
            cp.frontier_depths@[i].1,
        )
    &&& cp.state.members@.len() == run.members.members@.len()
    &&& forall|i: int| 0 <= i < cp.state.members@.len() ==> same_entry(#[trigger] cp.state.members@[i], run.members.members@[i])
    &&& cp.prev_snapshot == prev_snapshot
    &&& cp.has_been_shared == run.has_been_shared
    &&& cp.reset_authority == run.reset_authority
    &&& cp.author@ == author
}

/// The two entries are of one member, and agree in every field.
pub open spec fn same_entry(a: MemberStateDto, b: MemberStateDto) -> bool {
    a.id@ == b.id@ && a.role == b.role && a.member_counter == b.member_counter && a.access_counter == b.access_counter
        && a.author_public_key == b.author_public_key && a.hpke_public_key == b.hpke_public_key
}

proof fn what_a_side_holds(ops: Seq<StoredModel>, frontier: Seq<[u8; 32]>, all: Seq<StoredModel>, lower: bool)
    ensures
        forall|x: StoredModel| #[trigger]
            side(ops, frontier, all, lower).contains(x) <==> ops.contains(x) && below(all, frontier, x.op.id@) == lower,
    decreases ops.len(),
{
    if ops.len() > 0 {
        let t = ops.drop_last();
        let last = ops.last();
        what_a_side_holds(t, frontier, all, lower);
        let before = side(t, frontier, all, lower);
        let now = side(ops, frontier, all, lower);
        assert forall|x: StoredModel| #[trigger] now.contains(x) <==> ops.contains(x) && below(all, frontier, x.op.id@) == lower by {
            if before.contains(x) {
                let i = choose|i: int| 0 <= i < before.len() && before[i] == x;
                assert(now[i] == x);
                assert(t.contains(x));
                let k = choose|k: int| 0 <= k < t.len() && t[k] == x;
                assert(ops[k] == x);
            }
            if x == last && below(all, frontier, x.op.id@) == lower {
                assert(now[before.len() as int] == x);
                assert(ops[ops.len() - 1] == x);
            }
            if now.contains(x) {
                let i = choose|i: int| 0 <= i < now.len() && now[i] == x;
                if i < before.len() {
                    assert(before[i] == x);
                } else {
                    assert(x == last);
                }
            }
            if ops.contains(x) && below(all, frontier, x.op.id@) == lower && x != last {
                let k = choose|k: int| 0 <= k < ops.len() && ops[k] == x;
                assert(t[k] == x);
                assert(before.contains(x));
            }
        }
    }
}

/// What compacting an anchor leaves. The engine runs, from the anchor's own start, over the ops below the cut and no
/// others; its run is written down as a checkpoint at the cut, which is signed and stands in their place; the ops above the
/// cut stay, and everything that the anchor pins. An anchor that has a checkpoint is not compacted again.
pub proof fn what_compacting_leaves<
    E: Fn(&EngineBase, &Vec<StoredOp>) -> EngineRun,
    A: Fn(&Vec<SealingEntry>) -> Result<(Vec<SealingEntry>, u32), String>,
    S: Fn(Checkpoint) -> SignedCheckpoint,
>(
    anchor: DagAnchor,
    frontier: Vec<[u8; 32]>,
    prev_snapshot: Option<[u8; 32]>,
    author: String,
    engine: E,
    author_sealing: A,
    sign: S,
    b: DagAnchor,
)
    requires
        call_ensures(
            compact_to_checkpoint::<E, A, S>,
            (anchor, &frontier, prev_snapshot, author, &engine, &author_sealing, &sign),
            Ok(b),
        ),
    ensures
        anchor.checkpoint is None,
        b.group_id == anchor.group_id,
        b.genesis == anchor.genesis,
        b.reset_authority == anchor.reset_authority,
        b.genesis_op_id == anchor.genesis_op_id,
        forall|x: StoredModel| #[trigger]
            b.closure().contains(x) <==> anchor.closure().contains(x) && !below(anchor.closure(), frontier@, x.op.id@),
        exists|base: EngineBase, lower: Vec<StoredOp>, run: EngineRun, cp: Checkpoint, signed: SignedCheckpoint|
            #![trigger engine.ensures((&base, &lower), run), sign.ensures((cp,), signed)]
            engine.ensures((&base, &lower), run) && runs_below(anchor, frontier@, lower) && is_checkpoint_of(
                cp,
                frontier@,
                prev_snapshot,
                author@,
                run,
            ) && run.flush_error is None && sign.ensures((cp,), signed) && b.checkpoint == Some(signed),
{
    let r = Ok::<DagAnchor, ClientError>(b);
    let (base, lower, run) = choose|base: EngineBase, lower: Vec<StoredOp>, run: EngineRun| #[trigger]
        cut_ran(engine, anchor, frontier@, base, lower, run) && compaction_outcome(
            author_sealing,
            sign,
            anchor,
            frontier@,
            prev_snapshot,
            author@,
            run,
            lower@.len(),
            r,
        );
    what_a_side_holds(anchor.closure(), frontier@, anchor.closure(), true);
    what_a_side_holds(anchor.closure(), frontier@, anchor.closure(), false);
    let (pre, authored) = choose|pre: Vec<SealingEntry>, authored: Result<(Vec<SealingEntry>, u32), String>|
        crate::keyring_dag::checkpoint::sealing_models(pre@) == crate::keyring_dag::compact::sealing_below(anchor, run)
            && #[trigger] author_sealing.ensures((&pre,), authored) && crate::keyring_dag::compact::authored_outcome(
            sign,
            anchor,
            frontier@,
            prev_snapshot,
            author@,
            run,
            authored,
            r,
        );
    let (sealing, baseline) = authored->Ok_0;
    let (cp, signed) = choose|cp: Checkpoint, signed: SignedCheckpoint|
        crate::keyring_dag::compact::checkpoint_of(
            cp,
            frontier@,
            prev_snapshot,
            author@,
            run,
            crate::keyring_dag::checkpoint::sealing_models(sealing@),
            baseline,
        ) && #[trigger] sign.ensures((cp,), signed) && (r matches Ok(v) && crate::keyring_dag::compact::compacted(
            anchor,
            frontier@,
            signed,
            v,
        ));
    assert forall|i: int| 0 <= i < frontier@.len() implies (#[trigger] cp.frontier_depths@[i]).0 == frontier@[i] && noted_depth(
        run.depths@,
        frontier@[i],
        cp.frontier_depths@[i].1,
    ) by {
        depth_is_noted(run.depths@, frontier@[i]);
    }
    let (x, y) = (entry_models(cp.state.members@), entry_models(run.members.members@));
    assert(x.len() == y.len());
    assert forall|i: int| 0 <= i < cp.state.members@.len() implies same_entry(#[trigger] cp.state.members@[i], run.members.members@[i]) by {
        assert(x[i] == cp.state.members@[i]@ && y[i] == run.members.members@[i]@);
    }
    assert(is_checkpoint_of(cp, frontier@, prev_snapshot, author@, run));
    assert(runs_below(anchor, frontier@, lower));
    assert(engine.ensures((&base, &lower), run));
}

/// The ops are those of the anchor that lie below the cut.
pub open spec fn runs_below(anchor: DagAnchor, frontier: Seq<[u8; 32]>, lower: Vec<StoredOp>) -> bool {
    forall|x: StoredModel| #[trigger]
        crate::keyring_dag::anchor::stored_models(lower@).contains(x) <==> anchor.closure().contains(x) && below(
            anchor.closure(),
            frontier,
            x.op.id@,
        )
}

/// What a minted op carries: every field of its draft, a signature over the draft's own bytes, the author's key, and for an
/// id the address of its content.
pub proof fn what_a_minted_op_carries<E: Fn(&OpDraft) -> Vec<u8>, S: Fn(&Vec<u8>) -> [u8; 64], A: Fn(&KeyringOp) -> [u8; 32]>(
    draft: OpDraft,
    author_public_key: [u8; 32],
    encode: E,
    sign: S,
    address: A,
    r: StoredOp,
)
    requires
        call_ensures(mint::<E, S, A>, (&draft, author_public_key, &encode, &sign, &address), r),
    ensures
        r.op.id == r.content_id,
        r.op.group_id@ == draft.group_id@,
        r.op.parents@ == draft.parents@,
        r.op.author@ == draft.author@,
        r.op.action.model() == draft.action.model(),
        r.op.sealing@ == draft.sealing@,
        r.op.author_public_key == author_public_key,
        exists|bytes: Vec<u8>, signature: [u8; 64]|
            #![trigger encode.ensures((&draft,), bytes), sign.ensures((&bytes,), signature)]
            encode.ensures((&draft,), bytes) && sign.ensures((&bytes,), signature) && r.op.signature@ == signature@,
        exists|unnamed: KeyringOp| #[trigger]
            address.ensures((&unnamed,), r.op.id) && unnamed.parents == r.op.parents && unnamed.author == r.op.author && unnamed.action
                == r.op.action && unnamed.group_id == r.op.group_id && unnamed.sealing == r.op.sealing,
{
    let (bytes, signature) = choose|bytes: Vec<u8>, signature: [u8; 64]| #[trigger]
        signed(encode, sign, draft, bytes, signature) && crate::keyring_dag::mint::carries(
            r.op.model(),
            draft,
            signature,
            author_public_key,
        );
    assert(encode.ensures((&draft,), bytes) && sign.ensures((&bytes,), signature));
    let unnamed = choose|unnamed: KeyringOp| #[trigger]
        crate::keyring_dag::mint::addressed(address, unnamed, r.content_id) && r.op == (KeyringOp { id: r.op.id, ..unnamed });
    assert(address.ensures((&unnamed,), r.op.id));
}

/// The recovery key is derived from the recovery secret under one label.
pub proof fn what_a_recovery_key_is_derived_from<K, F: Fn(&[u8; 32], &[u8]) -> K>(rrk_secret: [u8; 32], derive: F, r: K)
    requires
        call_ensures(derive_rvk::<K, F>, (&rrk_secret, &derive), r),
    ensures
        exists|label: &[u8]| label@ == encode_utf8("keyeo:rvk:v1"@) && #[trigger] derive.ensures((&rrk_secret, label), r),
{
    let label = choose|label: &[u8]| #[trigger] crate::keyring_dag::recovery::derived(derive, rrk_secret, label, r);
    assert(derive.ensures((&rrk_secret, label), r));
}

/// An op that was put into the store, or that stood there already, counts as applied from then on; one that could not be
/// put does not.
pub proof fn what_a_push_leaves(before: Set<Seq<u8>>, id: Seq<u8>, outcome: PutOutcome, r: Result<(), BlobSyncError>, after: Set<Seq<u8>>)
    requires
        publication(before, id, outcome, r, after),
    ensures
        r is Ok <==> outcome is Written || outcome is Present,
        r is Ok ==> forall|x: Seq<u8>| #[trigger] after.contains(x) <==> before.contains(x) || x == id,
        r is Err ==> after == before,
{
}

/// What a pull that succeeds has done: it took an op for every listed key, each under its own id's key, and handed it to
/// the engine unless it was applied before; and what it names as withheld are the ops that were applied before and are not
/// listed any more.
pub proof fn what_a_pull_reports<
    G: Fn(&String) -> Result<Option<KeyringOp>, BlobSyncError>,
    A: Fn(&KeyringOp) -> Result<(), String>,
    F: Fn() -> Result<(), String>,
>(fetch: G, apply: A, flush: F, keys: Seq<String>, before: Set<Seq<u8>>, ops: Seq<KeyringOp>, report: PullReport)
    requires
        taken(fetch, apply, keys, before, ops),
        pull_outcome(fetch, apply, flush, keys, before, ops, Ok(report)),
    ensures
        ops.len() == keys.len(),
        forall|i: int|
            0 <= i < ops.len() ==> keys[i]@ == "op/"@ + crate::text::hex_of((#[trigger] ops[i]).id@) && fetch.ensures(
                (&keys[i],),
                Ok(Some(ops[i])),
            ),
        forall|i: int|
            0 <= i < ops.len() ==> before.contains((#[trigger] ops[i]).id@) || apply.ensures((&ops[i],), Ok(())) || exists|j: int|
                0 <= j < i && (#[trigger] ops[j]).id@ == ops[i].id@,
        forall|id: Seq<u8>| #[trigger]
            crate::sorted::models(report.withheld@).contains(id) <==> before.contains(id) && forall|i: int|
                0 <= i < ops.len() ==> (#[trigger] ops[i]).id@ != id,
{
    what_a_pull_leaves(before, ops);
    assert forall|id: Seq<u8>| #[trigger] crate::sorted::models(report.withheld@).contains(id) <==> before.contains(id) && forall|i: int|
        0 <= i < ops.len() ==> (#[trigger] ops[i]).id@ != id by {
        let ids = op_ids(ops);
        assert(with_ops(before, ops).contains(id) <==> before.contains(id) || exists|i: int| 0 <= i < ops.len() && (#[trigger] ops[i]).id@ == id);
        if ids.contains(id) {
            let i = choose|i: int| 0 <= i < ids.len() && ids[i] == id;
            assert(ops[i].id@ == id);
        }
        if exists|i: int| 0 <= i < ops.len() && (#[trigger] ops[i]).id@ == id {
            let i = choose|i: int| 0 <= i < ops.len() && (#[trigger] ops[i]).id@ == id;
            assert(ids[i] == id);
        }
    }
    assert forall|i: int| 0 <= i < ops.len() implies before.contains((#[trigger] ops[i]).id@) || apply.ensures((&ops[i],), Ok(())) || exists|
        j: int,
    | 0 <= j < i && (#[trigger] ops[j]).id@ == ops[i].id@ by {
        let first = ops.take(i);
        what_a_pull_leaves(before, first);
        if with_ops(before, first).contains(ops[i].id@) && !before.contains(ops[i].id@) {
            let j = choose|j: int| 0 <= j < first.len() && (#[trigger] first[j]).id@ == ops[i].id@;
            assert(ops[j].id@ == ops[i].id@);
        }
    }
}

/// What the engine starts from: the anchor's tree; and either its genesis members and recovery authority, or its
/// checkpoint's, with the cut's ops and their depths.
pub proof fn what_the_engine_starts_from(anchor: DagAnchor, base: EngineBase)
    requires
        call_ensures(engine_base, (&anchor,), Ok(base)),
    ensures
        match base {
            EngineBase::Genesis { group_id, members, reset_authority } => anchor.checkpoint is None && group_id@ == anchor.group_id@
                && reset_authority == anchor.reset_authority && members@.len() == anchor.genesis@.len() && forall|i: int|
                0 <= i < members@.len() ==> same_member(#[trigger] members@[i], anchor.genesis@[i]),
            EngineBase::Adopted { state, frontier_depths, has_been_shared } => anchor.checkpoint matches Some(cp) && state.group_id@
                == anchor.group_id@ && state.reset_authority == cp.body.reset_authority && has_been_shared == cp.body.has_been_shared
                && frontier_depths@.len() == cp.body.frontier_depths@.len() && forall|i: int|
                0 <= i < frontier_depths@.len() ==> (#[trigger] frontier_depths@[i]).0 == cp.body.frontier_depths@[i].0 && (
                cp.body.frontier_depths@[i].1 <= usize::MAX ==> frontier_depths@[i].1 == cp.body.frontier_depths@[i].1),
        },
{
    if let EngineBase::Genesis { group_id, members, reset_authority } = base {
        let (x, y) = (init_models(members@), init_dto_models(anchor.genesis@));
        assert(x.len() == y.len());
        assert forall|i: int| 0 <= i < members@.len() implies same_member(#[trigger] members@[i], anchor.genesis@[i]) by {
            assert(x[i] == members@[i].model() && y[i] == anchor.genesis@[i].model());
        }
    }
}

/// Each origin of a sealing has a byte of its own, in the order in which they are listed.
pub proof fn which_byte_an_origin_has(o: SealingOrigin, r: u8)
    requires
        call_ensures(SealingOrigin::tag, (o,), r),
    ensures
        o is Genesis <==> r == 0,
        o is Remove <==> r == 1,
        o is Reseal <==> r == 2,
        o is Other <==> r == 3,
{
}

/// What an admitted anchor is told as: the view has the members that the engine's run over it ends with; its position are
/// its tips; and its tree is this one.
pub open spec fn is_told<F: Fn(&EngineBase, &Vec<StoredOp>) -> EngineRun>(engine: F, tree_id: Seq<u8>, a: AnchorAdmitted) -> bool {
    &&& a.tree_id@ == tree_id
    &&& a.update_ref@ == flattened(frontier_of(a.state.closure()))
    &&& exists|base: EngineBase, run: EngineRun| #[trigger]
        engine.ensures((&base, &a.state.ops), run) && ran_clean(a.state, run) && shows_exactly(run.members, a.view)
}

/// The view has the members that a clean run of the engine over the anchor ends with.
pub open spec fn is_run_of<F: Fn(&EngineBase, &Vec<StoredOp>) -> EngineRun>(engine: F, anchor: DagAnchor, view: MembershipView) -> bool {
    exists|base: EngineBase, run: EngineRun| #[trigger]
        engine.ensures((&base, &anchor.ops), run) && ran_clean(anchor, run) && shows_exactly(run.members, view)
}

proof fn settled_is_told<F: Fn(&EngineBase, &Vec<StoredOp>) -> EngineRun>(
    engine: F,
    state: DagAnchor,
    previous: Option<MembershipView>,
    reset_boundary: bool,
    tree_id: Seq<u8>,
    a: AnchorAdmitted,
)
    requires
        settled(engine, state, previous, reset_boundary, tree_id, Ok(a)),
    ensures
        a.state == state,
        a.view.reset_boundary == reset_boundary,
        is_told(engine, tree_id, a),
        previous is None ==> a.changed,
        previous matches Some(p) ==> exists|now: MembershipView| #[trigger]
            is_run_of(engine, state, now) && (a.changed <==> member_models(p.members@) != member_models(now.members@) || p.reset_boundary),
{
    let r = Ok::<AnchorAdmitted, VerifyError>(a);
    let now = choose|now: Result<Resolved, ClientError>| #[trigger]
        resolution(engine, state, now) && match now {
            Err(e) => r == Err::<AnchorAdmitted, VerifyError>(crate::keyring_dag::anchor_verifier::neutral(e)),
            Ok(v) => r matches Ok(a) && a.state == state && a.view.reset_boundary == reset_boundary && crate::sorting::stable_sorting(
                v.members.members@,
                a.view.members@,
            ) && a.tree_id@ == tree_id && a.update_ref@ == flattened(frontier_of(state.closure())) && a.changed == (match previous {
                None => true,
                Some(p) => member_models(p.members@) != member_models(v.members.members@) || p.reset_boundary
                    != v.members.reset_boundary,
            }),
        };
    let v = now->Ok_0;
    let (base, run) = choose|base: EngineBase, run: EngineRun| #[trigger]
        ran(engine, state, base, run) && crate::keyring_dag::resolve::run_outcome(state, run, now);
    trouble_means(state, run);
    what_a_view_shows(run.members, false, v.members);
    assert(engine.ensures((&base, &state.ops), run));
    assert(is_run_of(engine, state, v.members));
    resorted_shows(run.members, v.members, a.view);
    assert(engine.ensures((&base, &a.state.ops), run));
}

proof fn resorted_shows(state: GroupStateView, x: MembershipView, y: MembershipView)
    requires
        shows_exactly(state, x),
        crate::sorting::stable_sorting(x.members@, y.members@),
    ensures
        shows_exactly(state, y),
{
    sorted_models(x.members@, y.members@);
    assert forall|i: int| 0 <= i < state.members@.len() && is_in(#[trigger] state.members@[i]) implies has_member(
        y,
        state.members@[i],
    ) by {
        let e = state.members@[i];
        assert(has_member(x, e));
        let k = choose|k: int| 0 <= k < x.members@.len() && shown_as(e, #[trigger] x.members@[k]);
        assert(member_models(x.members@)[k] == x.members@[k]@);
        assert(member_models(x.members@).contains(x.members@[k]@));
        assert(member_models(y.members@).contains(x.members@[k]@));
        let l = choose|l: int| 0 <= l < y.members@.len() && member_models(y.members@)[l] == x.members@[k]@;
        assert(member_models(y.members@)[l] == y.members@[l]@);
        assert(shown_as(e, y.members@[l]));
    }
    assert forall|l: int| 0 <= l < y.members@.len() implies is_of(state, #[trigger] y.members@[l]) by {
        assert(member_models(y.members@)[l] == y.members@[l]@);
        assert(member_models(y.members@).contains(y.members@[l]@));
        assert(member_models(x.members@).contains(y.members@[l]@));
        let k = choose|k: int| 0 <= k < x.members@.len() && member_models(x.members@)[k] == y.members@[l]@;
        assert(member_models(x.members@)[k] == x.members@[k]@);
        assert(is_of(state, x.members@[k]));
        let i = choose|i: int|
            0 <= i < state.members@.len() && is_in(#[trigger] state.members@[i]) && shown_as(
                state.members@[i],
                x.members@[k],
            );
        assert(shown_as(state.members@[i], y.members@[l]));
    }
}

/// What an anchor that is admitted at first sight is: it is kept as it came, it has no checkpoint, and it is told as what
/// the engine makes of it, as a change and as no reset boundary.
pub proof fn what_a_first_anchor_is_admitted_as<F: Fn(&EngineBase, &Vec<StoredOp>) -> EngineRun>(
    verifier: DagAnchorVerifier,
    candidate: DagAnchor,
    engine: F,
    a: AnchorAdmitted,
)
    requires
        call_ensures(DagAnchorVerifier::admit_update::<F>, (&verifier, None, candidate, &engine), Ok(a)),
    ensures
        a.state == candidate,
        candidate.checkpoint is None,
        !a.view.reset_boundary,
        a.changed,
        is_told(engine, candidate.group_id@, a),
{
    let r = Ok::<AnchorAdmitted, VerifyError>(a);
    let (pin, v) = choose|pin: DagPin, v: Result<Resolved, ClientError>|
        crate::keyring_dag::anchor_verifier::own_pin(candidate, pin) && #[trigger] verification(
            engine,
            candidate,
            candidate.group_id@,
            pin,
            v,
        ) && match v {
            Err(e) => r == Err::<AnchorAdmitted, VerifyError>(crate::keyring_dag::anchor_verifier::neutral(e)),
            Ok(_) => settled(engine, candidate, None, false, candidate.group_id@, r),
        };
    crate::keyring_dag::resolve::a_verified_anchor_matches_its_pin(engine, candidate, candidate.group_id@, pin, v);
    settled_is_told(engine, candidate, None, false, candidate.group_id@, a);
}

/// What a later anchor is admitted as: of the same tree, with the prior one's pins, holding every op of both and the prior
/// one's tips; told as what the engine makes of the two together; and as a reset boundary exactly where it brings a reset
/// that the prior one does not have. It is a change exactly where the members that are shown differ.
pub proof fn what_a_later_anchor_is_admitted_as<F: Fn(&EngineBase, &Vec<StoredOp>) -> EngineRun>(
    verifier: DagAnchorVerifier,
    prior: DagAnchor,
    candidate: DagAnchor,
    engine: F,
    a: AnchorAdmitted,
)
    requires
        call_ensures(DagAnchorVerifier::admit_update::<F>, (&verifier, Some(prior), candidate, &engine), Ok(a)),
    ensures
        candidate.group_id@ == prior.group_id@,
        candidate.genesis_op_id == prior.genesis_op_id,
        candidate.reset_authority == prior.reset_authority,
        candidate.checkpoint is None,
        names_only_known(candidate, flattened(frontier_of(prior.closure()))),
        a.state.group_id == prior.group_id,
        a.state.genesis == prior.genesis,
        a.state.reset_authority == prior.reset_authority,
        a.state.genesis_op_id == prior.genesis_op_id,
        a.state.checkpoint == prior.checkpoint,
        forall|id: [u8; 32]| #[trigger]
            crate::keyring_dag::anchor::has_id(a.state.closure(), id) <==> crate::keyring_dag::anchor::has_id(prior.closure(), id)
                || crate::keyring_dag::anchor::has_id(candidate.closure(), id),
        is_told(engine, candidate.group_id@, a),
        a.view.reset_boundary <==> crate::keyring_dag::anchor_verifier::brings_a_reset(prior.closure(), candidate.closure()),
        exists|before: MembershipView, now: MembershipView| #[trigger]
            is_run_of(engine, prior, before) && #[trigger] is_run_of(engine, a.state, now) && (a.changed <==> member_models(before.members@)
                != member_models(now.members@)),
{
    let r = Ok::<AnchorAdmitted, VerifyError>(a);
    assert(crate::keyring_dag::anchor_verifier::advance(engine, prior, candidate, r));
    let floor = flattened(frontier_of(prior.closure()));
    let brings = crate::keyring_dag::anchor_verifier::brings_a_reset(prior.closure(), candidate.closure());
    let previous = choose|previous: Result<Resolved, ClientError>| #[trigger]
        resolution(engine, prior, previous) && match previous {
            Err(e) => r == Err::<AnchorAdmitted, VerifyError>(crate::keyring_dag::anchor_verifier::neutral(e)),
            Ok(p) => exists|pin: DagPin, merged: Result<DagAnchor, ClientError>|
                crate::keyring_dag::anchor_verifier::own_pin(prior, pin) && #[trigger] adoption(
                    engine,
                    prior,
                    candidate,
                    prior.group_id@,
                    pin,
                    floor,
                    merged,
                ) && match merged {
                    Err(e) => r == Err::<AnchorAdmitted, VerifyError>(crate::keyring_dag::anchor_verifier::neutral(e)),
                    Ok(state) => settled(engine, state, Some(p.members), brings, candidate.group_id@, r),
                },
        };
    let p = previous->Ok_0;
    let (pin, merged) = choose|pin: DagPin, merged: Result<DagAnchor, ClientError>|
        crate::keyring_dag::anchor_verifier::own_pin(prior, pin) && #[trigger] adoption(
            engine,
            prior,
            candidate,
            prior.group_id@,
            pin,
            floor,
            merged,
        ) && match merged {
            Err(e) => r == Err::<AnchorAdmitted, VerifyError>(crate::keyring_dag::anchor_verifier::neutral(e)),
            Ok(state) => settled(engine, state, Some(p.members), brings, candidate.group_id@, r),
        };
    let m = merged->Ok_0;
    adopted_leaves(engine, prior, candidate, prior.group_id@, pin, floor, m);
    settled_is_told(engine, m, Some(p.members), brings, candidate.group_id@, a);
    let (base, run) = choose|base: EngineBase, run: EngineRun| #[trigger]
        ran(engine, prior, base, run) && crate::keyring_dag::resolve::run_outcome(prior, run, previous);
    trouble_means(prior, run);
    what_a_view_shows(run.members, false, p.members);
    assert(engine.ensures((&base, &prior.ops), run));
    assert(is_run_of(engine, prior, p.members));
    let now = choose|now: MembershipView| #[trigger]
        is_run_of(engine, m, now) && (a.changed <==> member_models(p.members.members@) != member_models(now.members@)
            || p.members.reset_boundary);
    assert(is_run_of(engine, a.state, now));
}

} // verus!
