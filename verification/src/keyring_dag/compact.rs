//! Compaction: replacing the ops at and below a cut by a signed checkpoint.

use vstd::prelude::*;

use crate::keyring_api::member_models;
use crate::keyring_dag::anchor::{has_id, stored_models, ClientError, DagAnchor, StoredModel, StoredOp};
use crate::keyring_dag::checkpoint::{
    all_bind, entry_models, roster_of, sealing_models, Checkpoint, EntryModel, SealingEntry, SealingModel, SignedCheckpoint,
};
use crate::keyring_dag::codec::{dtos_to_minits, init_dto_models, init_models};
use crate::keyring_dag::resolve::{
    base_of, base_trouble, depth_word, effective_sealing, first_trouble, genesis_sealing, ids_are_distinct,
    one_state_has_one_view, op_trouble, op_with, push_effective_sealing, push_genesis_sealing, ran, refusal, resolution,
    resolved_from, run_outcome, EngineBase, EngineRun, ErrorModel, Resolved,
};
use crate::order::{same_key, Key};
use crate::sorted::SortedSet;
use crate::text::copy_bytes;

verus! {

/// The set holds the frontier, and with an op that the closure has, its parents.
pub open spec fn closed_below(ops: Seq<StoredModel>, frontier: Seq<[u8; 32]>, s: Set<Seq<u8>>) -> bool {
    &&& forall|i: int| 0 <= i < frontier.len() ==> s.contains((#[trigger] frontier[i])@)
    &&& forall|id: [u8; 32], p: [u8; 32]| s.contains(id@) && #[trigger] parent_of(ops, id, p) ==> s.contains(p@)
}

/// `p` is a parent of the op with the id `id`.
pub open spec fn parent_of(ops: Seq<StoredModel>, id: [u8; 32], p: [u8; 32]) -> bool {
    op_with(ops, id) matches Some(op) && op.parents.contains(p)
}

/// The id is at or below the cut: it is in every set that holds the frontier and, with an op, its parents.
pub open spec fn below(ops: Seq<StoredModel>, frontier: Seq<[u8; 32]>, id: Seq<u8>) -> bool {
    forall|s: Set<Seq<u8>>| #[trigger] closed_below(ops, frontier, s) ==> s.contains(id)
}

/// Everything the walk can come across: the frontier and all parents.
spec fn universe(ops: Seq<StoredModel>, frontier: Seq<[u8; 32]>) -> Set<Seq<u8>> {
    id_bytes(frontier).to_set().union(all_parents(ops))
}

spec fn id_bytes(s: Seq<[u8; 32]>) -> Seq<Seq<u8>> {
    Seq::new(s.len(), |i: int| s[i]@)
}

spec fn all_parents(ops: Seq<StoredModel>) -> Set<Seq<u8>>
    decreases ops.len(),
{
    if ops.len() == 0 {
        Set::empty()
    } else {
        all_parents(ops.drop_last()).union(id_bytes(ops.last().op.parents).to_set())
    }
}

proof fn universe_finite(ops: Seq<StoredModel>)
    ensures
        all_parents(ops).finite(),
    decreases ops.len(),
{
    if ops.len() > 0 {
        universe_finite(ops.drop_last());
        vstd::seq_lib::seq_to_set_is_finite(id_bytes(ops.last().op.parents));
    }
}

proof fn parents_in_universe(ops: Seq<StoredModel>, id: [u8; 32], p: [u8; 32])
    requires
        parent_of(ops, id, p),
    ensures
        all_parents(ops).contains(p@),
    decreases ops.len(),
{
    if ops.len() > 0 {
        if ops.last().op.id == id {
            let ps = ops.last().op.parents;
            let j = choose|j: int| 0 <= j < ps.len() && ps[j] == p;
            assert(id_bytes(ps)[j] == p@);
            assert(id_bytes(ps).to_set().contains(p@));
        } else {
            assert(parent_of(ops.drop_last(), id, p));
            parents_in_universe(ops.drop_last(), id, p);
        }
    }
}

fn parents_of<'a>(ops: &'a Vec<StoredOp>, id: &[u8; 32]) -> (r: Option<&'a Vec<[u8; 32]>>)
    ensures
        match r {
            Some(ps) => op_with(stored_models(ops@), *id) matches Some(op) && op.parents == ps@,
            None => op_with(stored_models(ops@), *id) is None,
        },
{
    let ghost all = stored_models(ops@);
    let mut n: usize = ops.len();
    assert(all.take(n as int) =~= all);
    while n > 0
        invariant
            n <= ops.len(),
            all == stored_models(ops@),
            op_with(all, *id) == op_with(all.take(n as int), *id),
        decreases n,
    {
        let op = &ops[n - 1].op;
        assert(all.take(n as int).last() == ops@[n - 1].model());
        assert(all.take(n as int).drop_last() =~= all.take(n - 1));
        if same_key(&op.id, id) {
            assert(op.id =~= *id);
            return Some(&op.parents);
        }
        n = n - 1;
    }
    None
}

/// Everything at or below the cut.
pub fn pre_cut(ops: &Vec<StoredOp>, frontier: &Vec<[u8; 32]>) -> (r: SortedSet<[u8; 32]>)
    ensures
        r.wf(),
        forall|id: Seq<u8>| #[trigger] r@.contains(id) <==> below(stored_models(ops@), frontier@, id),
{
    let ghost all = stored_models(ops@);
    let ghost f = frontier@;
    let ghost u = universe(all, f);
    proof {
        universe_finite(all);
        vstd::seq_lib::seq_to_set_is_finite(id_bytes(f));
    }
    let mut seen: SortedSet<[u8; 32]> = SortedSet::new();
    let mut stack: Vec<[u8; 32]> = Vec::new();
    let mut i: usize = 0;
    while i < frontier.len()
        invariant
            i <= frontier.len(),
            f == frontier@,
            u == universe(all, f),
            seen.wf(),
            stack@ == f.take(i as int),
            forall|k: int| 0 <= k < i ==> seen@.contains((#[trigger] f[k])@),
            forall|x: Seq<u8>| #[trigger] seen@.contains(x) ==> u.contains(x) && below(all, f, x),
            forall|x: [u8; 32]| seen@.contains(x@) ==> stack@.contains(x),
        decreases frontier.len() - i,
    {
        let id = frontier[i];
        proof {
            assert(id_bytes(f)[i as int] == id@);
            assert(id_bytes(f).to_set().contains(id@));
            assert(below(all, f, id@)) by {
                assert forall|s: Set<Seq<u8>>| #[trigger] closed_below(all, f, s) implies s.contains(id@) by {
                    assert(s.contains(f[i as int]@));
                }
            }
        }
        let ghost before = stack@;
        seen.insert(id);
        stack.push(id);
        proof {
            assert(stack@ =~= f.take(i + 1));
            assert forall|x: [u8; 32]| seen@.contains(x@) implies stack@.contains(x) by {
                if x@ == id@ {
                    assert(x =~= id);
                    assert(stack@[i as int] == x);
                } else {
                    assert(before.contains(x));
                    let k = choose|k: int| 0 <= k < before.len() && before[k] == x;
                    assert(stack@[k] == x);
                }
            }
        }
        i = i + 1;
    }
    while stack.len() > 0
        invariant
            all == stored_models(ops@),
            f == frontier@,
            u == universe(all, f),
            u.finite(),
            seen.wf(),
            forall|k: int| 0 <= k < f.len() ==> seen@.contains((#[trigger] f[k])@),
            forall|x: Seq<u8>| #[trigger] seen@.contains(x) ==> u.contains(x) && below(all, f, x),
            forall|k: int| 0 <= k < stack.len() ==> seen@.contains((#[trigger] stack@[k])@),
            forall|x: [u8; 32], p: [u8; 32]|
                seen@.contains(x@) && #[trigger] parent_of(all, x, p) && !seen@.contains(p@) ==> stack@.contains(x),
        decreases 2 * u.difference(seen@).len() + stack.len(),
    {
        let ghost stack0 = stack@;
        let ghost seen0 = seen@;
        match stack.pop() {
            Some(id) => {
                proof {
                    assert(stack0 =~= stack@.push(id));
                    assert(stack0[stack0.len() - 1] == id);
                    assert(seen0.contains(id@));
                }
                match parents_of(ops, &id) {
                    Some(parents) => {
                        let mut j: usize = 0;
                        while j < parents.len()
                            invariant
                                j <= parents.len(),
                                all == stored_models(ops@),
                                f == frontier@,
                                u == universe(all, f),
                                u.finite(),
                                op_with(all, id) matches Some(op) && op.parents == parents@,
                                seen.wf(),
                                seen0.contains(id@),
                                seen0.subset_of(seen@),
                                seen@.contains(id@),
                                below(all, f, id@),
                                forall|x: Seq<u8>| #[trigger] seen@.contains(x) ==> u.contains(x) && below(all, f, x),
                                forall|k: int| 0 <= k < stack.len() ==> seen@.contains((#[trigger] stack@[k])@),
                                forall|l: int| 0 <= l < j ==> seen@.contains((#[trigger] parents@[l])@),
                                forall|x: [u8; 32]| #[trigger] stack0.contains(x) && x != id ==> stack@.contains(x),
                                forall|x: [u8; 32]| #[trigger] seen@.contains(x@) && !seen0.contains(x@) ==> stack@.contains(x),
                                2 * u.difference(seen@).len() + stack.len() < 2 * u.difference(seen0).len() + stack0.len(),
                            decreases parents.len() - j,
                        {
                            let p = parents[j];
                            let ghost seen1 = seen@;
                            let ghost stack1 = stack@;
                            proof {
                                assert(parents@.contains(p));
                                assert(parent_of(all, id, p));
                                parents_in_universe(all, id, p);
                                assert(below(all, f, p@)) by {
                                    assert forall|s: Set<Seq<u8>>| #[trigger] closed_below(all, f, s) implies s.contains(p@) by {
                                        assert(s.contains(id@));
                                    }
                                }
                            }
                            if seen.insert(p) {
                                stack.push(p);
                                proof {
                                    assert(u.difference(seen@) =~= u.difference(seen1).remove(p@));
                                    assert(u.difference(seen1).contains(p@));
                                    assert forall|x: [u8; 32]| #[trigger] stack0.contains(x) && x != id implies stack@.contains(x) by {
                                        let k = choose|k: int| 0 <= k < stack1.len() && stack1[k] == x;
                                        assert(stack@[k] == x);
                                    }
                                    assert forall|x: [u8; 32]| #[trigger] seen@.contains(x@) && !seen0.contains(x@) implies stack@.contains(x) by {
                                        if x@ == p@ {
                                            assert(x =~= p);
                                            assert(stack@[stack@.len() - 1] == x);
                                        } else {
                                            assert(seen1.contains(x@));
                                            let k = choose|k: int| 0 <= k < stack1.len() && stack1[k] == x;
                                            assert(stack@[k] == x);
                                        }
                                    }
                                }
                            } else {
                                assert(seen@ =~= seen1);
                            }
                            j = j + 1;
                        }
                    },
                    None => {},
                }
                proof {
                    assert forall|x: [u8; 32], p: [u8; 32]|
                        seen@.contains(x@) && #[trigger] parent_of(all, x, p) && !seen@.contains(p@) implies stack@.contains(x) by {
                        if x == id {
                            let ps = op_with(all, id)->Some_0.parents;
                            let l = choose|l: int| 0 <= l < ps.len() && ps[l] == p;
                            assert(seen@.contains(ps[l]@));
                        } else if seen0.contains(x@) {
                            assert(stack0.contains(x));
                            if !stack@.contains(x) {
                                let k = choose|k: int| 0 <= k < stack0.len() && stack0[k] == x;
                                assert(stack@[k] == x);
                            }
                        }
                    }
                }
            },
            None => {},
        }
    }
    proof {
        assert(closed_below(all, f, seen@)) by {
            assert forall|id: [u8; 32], p: [u8; 32]| seen@.contains(id@) && #[trigger] parent_of(all, id, p) implies seen@.contains(p@) by {
                if !seen@.contains(p@) {
                    assert(stack@.contains(id));
                }
            }
        }
        assert forall|id: Seq<u8>| #[trigger] seen@.contains(id) <==> below(all, f, id) by {}
    }
    seen
}

/// The ops at or below the cut, or those above it, in their order.
pub open spec fn side(ops: Seq<StoredModel>, frontier: Seq<[u8; 32]>, all: Seq<StoredModel>, lower: bool) -> Seq<StoredModel>
    decreases ops.len(),
{
    if ops.len() == 0 {
        Seq::empty()
    } else {
        let before = side(ops.drop_last(), frontier, all, lower);
        if below(all, frontier, ops.last().op.id@) == lower {
            before.push(ops.last())
        } else {
            before
        }
    }
}

/// The ops of an anchor on one side of a cut.
pub open spec fn cut_side(ops: Seq<StoredModel>, frontier: Seq<[u8; 32]>, lower: bool) -> Seq<StoredModel> {
    side(ops, frontier, ops, lower)
}

fn ops_on_side(ops: &Vec<StoredOp>, frontier: &Vec<[u8; 32]>, cut: &SortedSet<[u8; 32]>, lower: bool) -> (r: Vec<StoredOp>)
    requires
        cut.wf(),
        forall|id: Seq<u8>| #[trigger] cut@.contains(id) <==> below(stored_models(ops@), frontier@, id),
    ensures
        stored_models(r@) == cut_side(stored_models(ops@), frontier@, lower),
{
    let ghost all = stored_models(ops@);
    let mut out: Vec<StoredOp> = Vec::new();
    let mut i: usize = 0;
    assert(all.take(0) =~= Seq::<StoredModel>::empty());
    assert(stored_models(out@) =~= side(all.take(0), frontier@, all, lower));
    while i < ops.len()
        invariant
            i <= ops.len(),
            all == stored_models(ops@),
            cut.wf(),
            forall|id: Seq<u8>| #[trigger] cut@.contains(id) <==> below(all, frontier@, id),
            stored_models(out@) == side(all.take(i as int), frontier@, all, lower),
        decreases ops.len() - i,
    {
        let op = &ops[i];
        let ghost before = stored_models(out@);
        proof {
            assert(all.take(i + 1).drop_last() =~= all.take(i as int));
            assert(all.take(i + 1).last() == op.model());
            assert(cut@.contains(op.op.id@) <==> below(all, frontier@, op.op.id@));
        }
        if cut.contains(&op.op.id) == lower {
            out.push(op.duplicate());
            assert(stored_models(out@) =~= before.push(op.model()));
        }
        i = i + 1;
    }
    assert(all.take(i as int) =~= all);
    out
}

/// The depth that a run gives an op; an op it does not know counts as a root.
pub open spec fn depth_in(depths: Seq<([u8; 32], u64)>, id: [u8; 32]) -> u64
    decreases depths.len(),
{
    if depths.len() == 0 {
        0
    } else if depths.last().0 == id {
        depths.last().1
    } else {
        depth_in(depths.drop_last(), id)
    }
}

fn depth_of(depths: &Vec<([u8; 32], u64)>, id: &[u8; 32]) -> (r: u64)
    ensures
        r == depth_in(depths@, *id),
{
    let mut n: usize = depths.len();
    assert(depths@.take(n as int) =~= depths@);
    while n > 0
        invariant
            n <= depths.len(),
            depth_in(depths@, *id) == depth_in(depths@.take(n as int), *id),
        decreases n,
    {
        let d = depths[n - 1];
        assert(depths@.take(n as int).last() == d);
        assert(depths@.take(n as int).drop_last() =~= depths@.take(n - 1));
        if same_key(&d.0, id) {
            assert(d.0 =~= *id);
            return d.1;
        }
        n = n - 1;
    }
    0
}

/// The first refusal of a run, if there is one.
pub open spec fn first_refusal(run: EngineRun, n: int) -> Option<Seq<char>>
    decreases n,
{
    if n <= 0 {
        None
    } else {
        match first_refusal(run, n - 1) {
            Some(e) => Some(e),
            None => refusal(run, n - 1),
        }
    }
}

/// Why a run over the ops below a cut is of no use, if it is not.
pub open spec fn cut_run_trouble(run: EngineRun, ops: nat) -> Option<ErrorModel> {
    match first_refusal(run, ops as int) {
        Some(e) => Some(ErrorModel::Engine(e)),
        None => match run.flush_error {
            Some(e) => Some(ErrorModel::Engine(e@)),
            None => None,
        },
    }
}

fn check_cut_run(run: &EngineRun, ops: usize) -> (r: Result<(), ClientError>)
    ensures
        match r {
            Ok(_) => cut_run_trouble(*run, ops as nat) is None,
            Err(e) => cut_run_trouble(*run, ops as nat) == Some(e.model()),
        },
{
    let mut i: usize = 0;
    while i < ops
        invariant
            i <= ops,
            first_refusal(*run, i as int) is None,
        decreases ops - i,
    {
        if i < run.refusals.len() {
            match &run.refusals[i] {
                Some(e) => {
                    proof {
                        assert(first_refusal(*run, i + 1) == Some(e@));
                        refusal_stays(*run, i + 1, ops as int);
                    }
                    return Err(ClientError::Engine(e.clone()));
                },
                None => {},
            }
        }
        i = i + 1;
    }
    match &run.flush_error {
        Some(e) => Err(ClientError::Engine(e.clone())),
        None => Ok(()),
    }
}

proof fn refusal_stays(run: EngineRun, m: int, n: int)
    requires
        0 <= m <= n,
        first_refusal(run, m) is Some,
    ensures
        first_refusal(run, n) == first_refusal(run, m),
    decreases n - m,
{
    if m < n {
        refusal_stays(run, m, n - 1);
    }
}

/// The base of an anchor's pinned genesis, whether or not a checkpoint stands in for the oldest ops.
pub open spec fn pinned_start(anchor: DagAnchor, base: EngineBase) -> bool {
    base matches EngineBase::Genesis { group_id, members, reset_authority } && group_id@ == anchor.group_id@ && init_models(
        members@,
    ) == init_dto_models(anchor.genesis@) && reset_authority == anchor.reset_authority
}

fn start_of(anchor: &DagAnchor) -> (r: EngineBase)
    ensures
        pinned_start(*anchor, r),
{
    EngineBase::Genesis {
        group_id: copy_bytes(anchor.group_id.as_slice()),
        members: dtos_to_minits(&anchor.genesis),
        reset_authority: anchor.reset_authority,
    }
}

/// The engine ran over all of the anchor's ops, from the pinned genesis.
pub open spec fn replayed<E: Fn(&EngineBase, &Vec<StoredOp>) -> EngineRun>(
    engine: E,
    anchor: DagAnchor,
    base: EngineBase,
    run: EngineRun,
) -> bool {
    pinned_start(anchor, base) && engine.ensures((&base, &anchor.ops), run)
}

/// How a compaction decision comes out, by what the engine's run and its compactor report.
pub open spec fn decision<T, D: Fn(&EngineBase, &Vec<StoredOp>) -> Result<Option<T>, String>>(
    decide: D,
    anchor: DagAnchor,
    base: EngineBase,
    run: EngineRun,
    r: Result<Option<T>, ClientError>,
) -> bool {
    match cut_run_trouble(run, anchor.ops@.len()) {
        Some(e) => r matches Err(x) && x.model() == e,
        None => exists|said: Result<Option<T>, String>| #[trigger]
            decide.ensures((&base, &anchor.ops), said) && match said {
                Ok(d) => r == Ok::<Option<T>, ClientError>(d),
                Err(e) => r matches Err(x) && x.model() == ErrorModel::Engine(e@),
            },
    }
}

/// Decides what compaction would do, and changes nothing: replays the anchor, and asks the engine's compactor which
/// checkpoint to author and which ops may go. None where there is nothing to drop.
pub fn compact<
    T,
    E: Fn(&EngineBase, &Vec<StoredOp>) -> EngineRun,
    D: Fn(&EngineBase, &Vec<StoredOp>) -> Result<Option<T>, String>,
>(anchor: &DagAnchor, engine: &E, decide: &D) -> (r: Result<Option<T>, ClientError>)
    requires
        forall|b: EngineBase, o: Vec<StoredOp>| engine.requires((&b, &o)),
        forall|b: EngineBase, o: Vec<StoredOp>| decide.requires((&b, &o)),
    ensures
        exists|base: EngineBase, run: EngineRun| #[trigger]
            replayed(*engine, *anchor, base, run) && decision(*decide, *anchor, base, run, r),
{
    let base: EngineBase = start_of(anchor);
    let run: EngineRun = engine(&base, &anchor.ops);
    assert(replayed(*engine, *anchor, base, run));
    match check_cut_run(&run, anchor.ops.len()) {
        Ok(_) => {},
        Err(e) => {
            return Err(e);
        },
    }
    let said: Result<Option<T>, String> = decide(&base, &anchor.ops);
    let ghost answer = said;
    assert(decide.ensures((&base, &anchor.ops), answer));
    match said {
        Ok(d) => Ok(d),
        Err(e) => Err(ClientError::Engine(e)),
    }
}

/// The sealing below the cut: the genesis op's, then the effective ops'.
pub open spec fn sealing_below(anchor: DagAnchor, run: EngineRun) -> Seq<SealingModel> {
    genesis_sealing(anchor.closure(), anchor.genesis_op_id) + effective_sealing(
        anchor.closure(),
        anchor.genesis_op_id,
        run.effective@,
    )
}

/// `cp` is the checkpoint of a run over the ops below the cut, with the sealing that was authored for it.
pub open spec fn checkpoint_of(
    cp: Checkpoint,
    frontier: Seq<[u8; 32]>,
    prev_snapshot: Option<[u8; 32]>,
    author: Seq<char>,
    run: EngineRun,
    sealing: Seq<SealingModel>,
    baseline: u32,
) -> bool {
    &&& cp.frontier_depths@.len() == frontier.len()
    &&& forall|i: int|
        0 <= i < frontier.len() ==> (#[trigger] cp.frontier_depths@[i]) == (frontier[i], depth_in(run.depths@, frontier[i]))
    &&& entry_models(cp.state.members@) == entry_models(run.members.members@)
    &&& cp.prev_snapshot == prev_snapshot
    &&& cp.has_been_shared == run.has_been_shared
    &&& cp.reset_authority == run.reset_authority
    &&& sealing_models(cp.sealing@) == sealing
    &&& cp.minting_ops_baseline == baseline
    &&& cp.author@ == author
}

/// The engine ran over the ops below the cut, from the pinned genesis.
pub open spec fn cut_ran<E: Fn(&EngineBase, &Vec<StoredOp>) -> EngineRun>(
    engine: E,
    anchor: DagAnchor,
    frontier: Seq<[u8; 32]>,
    base: EngineBase,
    lower: Vec<StoredOp>,
    run: EngineRun,
) -> bool {
    &&& base_of(anchor, base)
    &&& stored_models(lower@) == cut_side(anchor.closure(), frontier, true)
    &&& engine.ensures((&base, &lower), run)
}

/// The compacted anchor: the pinned configuration stays, the ops above the cut stay in order, and the signed
/// checkpoint stands in for the rest.
pub open spec fn compacted(anchor: DagAnchor, frontier: Seq<[u8; 32]>, signed: SignedCheckpoint, r: DagAnchor) -> bool {
    &&& r.closure() == cut_side(anchor.closure(), frontier, false)
    &&& r.group_id == anchor.group_id
    &&& r.genesis == anchor.genesis
    &&& r.reset_authority == anchor.reset_authority
    &&& r.genesis_op_id == anchor.genesis_op_id
    &&& r.checkpoint == Some(signed)
}

/// How compaction comes out, by the sealing that was authored: a failure to author it is passed on, and otherwise the
/// checkpoint is signed and stands in for the ops below the cut.
pub open spec fn authored_outcome<S: Fn(Checkpoint) -> SignedCheckpoint>(
    sign: S,
    anchor: DagAnchor,
    frontier: Seq<[u8; 32]>,
    prev_snapshot: Option<[u8; 32]>,
    author: Seq<char>,
    run: EngineRun,
    authored: Result<(Vec<SealingEntry>, u32), String>,
    r: Result<DagAnchor, ClientError>,
) -> bool {
    match authored {
        Err(e) => r matches Err(x) && x.model() == ErrorModel::Malformed(e@),
        Ok((sealing, baseline)) => exists|cp: Checkpoint, signed: SignedCheckpoint|
            checkpoint_of(cp, frontier, prev_snapshot, author, run, sealing_models(sealing@), baseline) && #[trigger] sign.ensures(
                (cp,),
                signed,
            ) && (r matches Ok(v) && compacted(anchor, frontier, signed, v)),
    }
}

/// How compaction comes out, once the engine has run and the sealing has been authored.
pub open spec fn compaction_outcome<
    A: Fn(&Vec<SealingEntry>) -> Result<(Vec<SealingEntry>, u32), String>,
    S: Fn(Checkpoint) -> SignedCheckpoint,
>(
    author_sealing: A,
    sign: S,
    anchor: DagAnchor,
    frontier: Seq<[u8; 32]>,
    prev_snapshot: Option<[u8; 32]>,
    author: Seq<char>,
    run: EngineRun,
    lower: nat,
    r: Result<DagAnchor, ClientError>,
) -> bool {
    match cut_run_trouble(run, lower) {
        Some(e) => r matches Err(x) && x.model() == e,
        None => exists|pre: Vec<SealingEntry>, authored: Result<(Vec<SealingEntry>, u32), String>|
            sealing_models(pre@) == sealing_below(anchor, run) && #[trigger] author_sealing.ensures((&pre,), authored)
                && authored_outcome(sign, anchor, frontier, prev_snapshot, author, run, authored, r),
    }
}

/// Authors an anchor rooted at a checkpoint: prunes the ops at and below the supplied frontier and puts a signed
/// checkpoint in their place. `engine` replays the pruned ops, `author_sealing` preserves their sealing, and `sign`
/// signs the checkpoint.
pub fn compact_to_checkpoint<
    E: Fn(&EngineBase, &Vec<StoredOp>) -> EngineRun,
    A: Fn(&Vec<SealingEntry>) -> Result<(Vec<SealingEntry>, u32), String>,
    S: Fn(Checkpoint) -> SignedCheckpoint,
>(
    anchor: DagAnchor,
    frontier: &Vec<[u8; 32]>,
    prev_snapshot: Option<[u8; 32]>,
    author: String,
    engine: &E,
    author_sealing: &A,
    sign: &S,
) -> (r: Result<DagAnchor, ClientError>)
    requires
        forall|b: EngineBase, o: Vec<StoredOp>| engine.requires((&b, &o)),
        forall|s: Vec<SealingEntry>| author_sealing.requires((&s,)),
        forall|c: Checkpoint| sign.requires((c,)),
    ensures
        anchor.checkpoint is Some ==> (r matches Err(x) && x.model() == ErrorModel::Malformed(
            "re-compacting a checkpoint anchor is not yet supported"@,
        )),
        anchor.checkpoint is None ==> exists|base: EngineBase, lower: Vec<StoredOp>, run: EngineRun| #[trigger]
            cut_ran(*engine, anchor, frontier@, base, lower, run) && compaction_outcome(
                *author_sealing,
                *sign,
                anchor,
                frontier@,
                prev_snapshot,
                author@,
                run,
                lower@.len(),
                r,
            ),
{
    if anchor.checkpoint.is_some() {
        return Err(ClientError::Malformed("re-compacting a checkpoint anchor is not yet supported".to_owned()));
    }
    let cut: SortedSet<[u8; 32]> = pre_cut(&anchor.ops, frontier);
    let base: EngineBase = start_of(&anchor);
    let lower: Vec<StoredOp> = ops_on_side(&anchor.ops, frontier, &cut, true);
    let run: EngineRun = engine(&base, &lower);
    assert(cut_ran(*engine, anchor, frontier@, base, lower, run));
    match check_cut_run(&run, lower.len()) {
        Ok(_) => {},
        Err(e) => {
            return Err(e);
        },
    }
    let mut pre: Vec<SealingEntry> = Vec::new();
    assert(sealing_models(pre@) =~= Seq::<SealingModel>::empty());
    push_genesis_sealing(&mut pre, &anchor.ops, &anchor.genesis_op_id);
    assert(sealing_models(pre@) =~= genesis_sealing(anchor.closure(), anchor.genesis_op_id));
    push_effective_sealing(&mut pre, &anchor.ops, &anchor.genesis_op_id, &run.effective);
    let authored = author_sealing(&pre);
    let ghost authored_value = authored;
    assert(sealing_models(pre@) == sealing_below(anchor, run) && author_sealing.ensures((&pre,), authored_value));
    let (sealing, baseline): (Vec<SealingEntry>, u32) = match authored {
        Ok(v) => v,
        Err(e) => {
            return Err(ClientError::Malformed(e));
        },
    };
    let ghost sealing_value = sealing;
    let mut frontier_depths: Vec<([u8; 32], u64)> = Vec::new();
    let mut i: usize = 0;
    while i < frontier.len()
        invariant
            i <= frontier.len(),
            frontier_depths.len() == i,
            forall|k: int|
                0 <= k < i ==> (#[trigger] frontier_depths@[k]) == (frontier@[k], depth_in(run.depths@, frontier@[k])),
        decreases frontier.len() - i,
    {
        let t = frontier[i];
        frontier_depths.push((t, depth_of(&run.depths, &t)));
        i = i + 1;
    }
    let cp = Checkpoint {
        frontier_depths,
        state: run.members.duplicate(),
        prev_snapshot,
        has_been_shared: run.has_been_shared,
        reset_authority: run.reset_authority,
        sealing,
        minting_ops_baseline: baseline,
        author,
    };
    let ghost cp_value = cp;
    let signed: SignedCheckpoint = sign(cp);
    let retained: Vec<StoredOp> = ops_on_side(&anchor.ops, frontier, &cut, false);
    let ghost signed_value = signed;
    let out = DagAnchor {
        group_id: anchor.group_id,
        genesis: anchor.genesis,
        reset_authority: anchor.reset_authority,
        genesis_op_id: anchor.genesis_op_id,
        ops: retained,
        checkpoint: Some(signed),
    };
    assert(checkpoint_of(
        cp_value,
        frontier@,
        prev_snapshot,
        author@,
        run,
        sealing_models(sealing_value@),
        baseline,
    ) && sign.ensures((cp_value,), signed_value) && compacted(anchor, frontier@, signed_value, out));
    Ok(out)
}

/// Compaction loses no op: each is either below the cut, where the checkpoint stands in for it, or retained.
pub proof fn a_cut_splits_the_closure(ops: Seq<StoredModel>, frontier: Seq<[u8; 32]>, i: int)
    requires
        0 <= i < ops.len(),
    ensures
        below(ops, frontier, ops[i].op.id@) ==> cut_side(ops, frontier, true).contains(ops[i]),
        !below(ops, frontier, ops[i].op.id@) ==> cut_side(ops, frontier, false).contains(ops[i]),
        cut_side(ops, frontier, true).len() + cut_side(ops, frontier, false).len() == ops.len(),
{
    side_holds(ops, ops, frontier, i);
}

proof fn side_holds(s: Seq<StoredModel>, all: Seq<StoredModel>, frontier: Seq<[u8; 32]>, i: int)
    requires
        0 <= i < s.len() || s.len() == 0,
    ensures
        0 <= i < s.len() && below(all, frontier, s[i].op.id@) ==> side(s, frontier, all, true).contains(s[i]),
        0 <= i < s.len() && !below(all, frontier, s[i].op.id@) ==> side(s, frontier, all, false).contains(s[i]),
        side(s, frontier, all, true).len() + side(s, frontier, all, false).len() == s.len(),
    decreases s.len(),
{
    if s.len() > 0 {
        let s0 = s.drop_last();
        let lower = below(all, frontier, s.last().op.id@);
        if i < s0.len() {
            side_holds(s0, all, frontier, i);
            let l = below(all, frontier, s[i].op.id@);
            let t0 = side(s0, frontier, all, l);
            assert(s0[i] == s[i]);
            let k = choose|k: int| 0 <= k < t0.len() && t0[k] == s[i];
            assert(side(s, frontier, all, l)[k] == s[i]);
        } else {
            side_holds(s0, all, frontier, 0);
            let t = side(s, frontier, all, lower);
            assert(t[t.len() - 1] == s[i]);
        }
    }
}

proof fn above_is_not_below(s: Seq<StoredModel>, all: Seq<StoredModel>, frontier: Seq<[u8; 32]>)
    ensures
        forall|i: int|
            0 <= i < side(s, frontier, all, false).len() ==> s.contains(#[trigger] side(s, frontier, all, false)[i]) && !below(
                all,
                frontier,
                side(s, frontier, all, false)[i].op.id@,
            ),
    decreases s.len(),
{
    if s.len() > 0 {
        let s0 = s.drop_last();
        let t0 = side(s0, frontier, all, false);
        let t = side(s, frontier, all, false);
        above_is_not_below(s0, all, frontier);
        assert forall|i: int| 0 <= i < t.len() implies s.contains(#[trigger] t[i]) && !below(all, frontier, t[i].op.id@) by {
            if i < t0.len() {
                assert(t[i] == t0[i]);
                assert(s0.contains(t0[i]));
                let k = choose|k: int| 0 <= k < s0.len() && s0[k] == t0[i];
                assert(s[k] == t[i]);
            } else {
                assert(s[s.len() - 1] == t[i]);
            }
        }
    }
}

proof fn sealing_is_from_ops(ops: Seq<StoredModel>, genesis_op_id: [u8; 32], effective: Seq<[u8; 32]>)
    ensures
        forall|i: int|
            0 <= i < effective_sealing(ops, genesis_op_id, effective).len() ==> has_id(
                ops,
                (#[trigger] effective_sealing(ops, genesis_op_id, effective)[i]).op_id,
            ),
    decreases effective.len(),
{
    if effective.len() > 0 {
        let before = effective_sealing(ops, genesis_op_id, effective.drop_last());
        let now = effective_sealing(ops, genesis_op_id, effective);
        sealing_is_from_ops(ops, genesis_op_id, effective.drop_last());
        assert forall|i: int| 0 <= i < now.len() implies has_id(ops, (#[trigger] now[i]).op_id) by {
            if i < before.len() {
                assert(now[i] == before[i]);
            } else {
                found_is_held(ops, effective.last());
            }
        }
    }
}

proof fn found_is_held(ops: Seq<StoredModel>, id: [u8; 32])
    ensures
        op_with(ops, id) is Some ==> has_id(ops, id),
    decreases ops.len(),
{
    if ops.len() > 0 {
        if ops.last().op.id == id {
            assert(ops[ops.len() - 1].op.id == id);
        } else {
            found_is_held(ops.drop_last(), id);
            if has_id(ops.drop_last(), id) {
                let i = choose|i: int| 0 <= i < ops.drop_last().len() && (#[trigger] ops.drop_last()[i]).op.id == id;
                assert(ops[i].op.id == id);
            }
        }
    }
}

proof fn no_trouble_is_none_at_all(ops: Seq<StoredModel>, run: EngineRun, n: int)
    ensures
        first_trouble(ops, run, n) is None <==> forall|i: int| 0 <= i < n ==> #[trigger] op_trouble(ops, run, i) is None,
    decreases n,
{
    if n > 0 {
        no_trouble_is_none_at_all(ops, run, n - 1);
        if first_trouble(ops, run, n) is Some && first_trouble(ops, run, n - 1) is None {
            assert(op_trouble(ops, run, n - 1) is Some);
        }
    }
}

/// The signature is over what was handed in, by this key, and it verifies.
pub open spec fn signs_under<S: Fn(Checkpoint) -> SignedCheckpoint>(sign: S, key: [u8; 32]) -> bool {
    forall|c: Checkpoint, signed: SignedCheckpoint| #[trigger]
        sign.ensures((c,), signed) ==> signed.body == c && signed.signer == key && signed.verified
}

/// Among these members every id certifies its key, and the author is the active owner, under this key.
pub open spec fn owned_by(entries: Seq<EntryModel>, author: Seq<char>, key: [u8; 32]) -> bool {
    let roster = roster_of(entries);
    &&& all_bind(entries)
    &&& roster.contains_key(author)
    &&& roster[author].active()
    &&& roster[author].role.owner()
    &&& roster[author].author_public_key == key
}

/// What was resolved holds the sealing that was authored for the checkpoint, with its count of minting ops.
pub open spec fn preserves<A: Fn(&Vec<SealingEntry>) -> Result<(Vec<SealingEntry>, u32), String>>(
    author_sealing: A,
    anchor: DagAnchor,
    cut: EngineRun,
    v: Resolved,
) -> bool {
    exists|pre: Vec<SealingEntry>, segment: Vec<SealingEntry>, baseline: u32|
        sealing_models(pre@) == sealing_below(anchor, cut) && #[trigger] author_sealing.ensures(
            (&pre,),
            Ok::<(Vec<SealingEntry>, u32), String>((segment, baseline)),
        ) && (v.checkpoint_sealing matches Some(s) && sealing_models(s@) == sealing_models(segment@)) && v.minting_ops_baseline
            == baseline
}

/// All the sealing that was resolved is of ops above the cut.
pub open spec fn seals_above(anchor: DagAnchor, frontier: Seq<[u8; 32]>, v: Resolved) -> bool {
    forall|i: int| 0 <= i < v.sealing@.len() ==> !below(anchor.closure(), frontier, (#[trigger] v.sealing@[i]).op_id@)
}

/// A compacted anchor stands on its checkpoint: where the owner at the cut signs it, it gives an engine base; and what it
/// resolves to holds the sealing that was authored for the cut, with its count, and of its own ops only those above it.
pub proof fn a_compacted_anchor_stands_on_its_checkpoint<
    E: Fn(&EngineBase, &Vec<StoredOp>) -> EngineRun,
    A: Fn(&Vec<SealingEntry>) -> Result<(Vec<SealingEntry>, u32), String>,
    S: Fn(Checkpoint) -> SignedCheckpoint,
>(
    engine: E,
    author_sealing: A,
    sign: S,
    key: [u8; 32],
    anchor: DagAnchor,
    frontier: Seq<[u8; 32]>,
    prev_snapshot: Option<[u8; 32]>,
    author: Seq<char>,
    cut: EngineRun,
    lower: nat,
    b: DagAnchor,
    r: Result<Resolved, ClientError>,
)
    requires
        compaction_outcome(author_sealing, sign, anchor, frontier, prev_snapshot, author, cut, lower, Ok(b)),
        signs_under(sign, key),
        owned_by(entry_models(cut.members.members@), author, key),
        resolution(engine, b, r),
    ensures
        base_trouble(b) is None,
        r matches Ok(v) ==> preserves(author_sealing, anchor, cut, v) && seals_above(anchor, frontier, v),
{
    let ops = anchor.closure();
    let (pre, authored) = choose|pre: Vec<SealingEntry>, authored: Result<(Vec<SealingEntry>, u32), String>|
        sealing_models(pre@) == sealing_below(anchor, cut) && #[trigger] author_sealing.ensures((&pre,), authored)
            && authored_outcome(sign, anchor, frontier, prev_snapshot, author, cut, authored, Ok(b));
    let (segment, baseline) = authored->Ok_0;
    let (cp, signed) = choose|cp: Checkpoint, signed: SignedCheckpoint|
        checkpoint_of(cp, frontier, prev_snapshot, author, cut, sealing_models(segment@), baseline) && #[trigger] sign.ensures(
            (cp,),
            signed,
        ) && compacted(anchor, frontier, signed, b);
    assert(b.checkpoint == Some(signed));
    assert(signed.body == cp);
    if let Ok(v) = r {
        let (base, run) = choose|base: EngineBase, run: EngineRun| #[trigger] ran(engine, b, base, run) && run_outcome(b, run, r);
        assert(resolved_from(b, run, v));
        assert(author_sealing.ensures((&pre,), Ok::<(Vec<SealingEntry>, u32), String>((segment, baseline))));
        sealing_is_from_ops(b.closure(), b.genesis_op_id, run.effective@);
        above_is_not_below(ops, ops, frontier);
        let all = sealing_models(v.sealing@);
        assert(all =~= effective_sealing(b.closure(), b.genesis_op_id, run.effective@));
        assert forall|i: int| 0 <= i < v.sealing@.len() implies !below(ops, frontier, (#[trigger] v.sealing@[i]).op_id@) by {
            assert(all[i].op_id == v.sealing@[i].op_id);
            assert(has_id(b.closure(), all[i].op_id));
            let k = choose|k: int| 0 <= k < b.closure().len() && (#[trigger] b.closure()[k]).op.id == all[i].op_id;
            assert(b.closure()[k] == cut_side(ops, frontier, false)[k]);
        }
    }
}

/// The engine started from the state, depths and shared marker of the cut, and ran over the ops above it.
pub open spec fn resumed<E: Fn(&EngineBase, &Vec<StoredOp>) -> EngineRun>(
    engine: E,
    anchor: DagAnchor,
    frontier: Seq<[u8; 32]>,
    cut: EngineRun,
    start: EngineBase,
    upper: Vec<StoredOp>,
    rest: EngineRun,
) -> bool {
    &&& start matches EngineBase::Adopted { state, frontier_depths, has_been_shared } && {
        &&& state.wf()
        &&& state.group_id@ == anchor.group_id@
        &&& state.roster() == roster_of(entry_models(cut.members.members@))
        &&& state.reset_authority == cut.reset_authority
        &&& frontier_depths@.len() == frontier.len()
        &&& forall|i: int|
            0 <= i < frontier_depths@.len() ==> (#[trigger] frontier_depths@[i]).0 == frontier[i] && frontier_depths@[i].1
                == depth_word(depth_in(cut.depths@, frontier[i]))
        &&& has_been_shared == cut.has_been_shared
    }
    &&& stored_models(upper@) == cut_side(anchor.closure(), frontier, false)
    &&& engine.ensures((&start, &upper), rest)
}

/// The second run ends as the first does, and refuses nothing.
pub open spec fn ends_alike(whole: EngineRun, rest: EngineRun) -> bool {
    &&& entry_models(rest.members.members@) == entry_models(whole.members.members@)
    &&& rest.has_been_shared == whole.has_been_shared
    &&& rest.reset_authority == whole.reset_authority
    &&& rest.flush_error is None
    &&& forall|i: int| #[trigger] refusal(rest, i) is None
}

/// The engine can resume at this cut: run from the state at the cut over the ops above it, it ends as over all the ops
/// from the start.
pub open spec fn resumes<E: Fn(&EngineBase, &Vec<StoredOp>) -> EngineRun>(engine: E, anchor: DagAnchor, frontier: Seq<[u8; 32]>) -> bool {
    forall|
        base: EngineBase,
        whole: EngineRun,
        first: EngineBase,
        lower: Vec<StoredOp>,
        cut: EngineRun,
        start: EngineBase,
        upper: Vec<StoredOp>,
        rest: EngineRun,
    |
        #[trigger] ran(engine, anchor, base, whole) && #[trigger] cut_ran(engine, anchor, frontier, first, lower, cut) && #[trigger] resumed(
            engine,
            anchor,
            frontier,
            cut,
            start,
            upper,
            rest,
        ) ==> ends_alike(whole, rest)
}

/// Compaction changes nothing that is resolved: where the engine can resume at the cut, and the owner at the cut signs,
/// the compacted anchor resolves to the members, the shared marker and the recovery authority of the anchor before it.
pub proof fn compaction_keeps_what_is_resolved<
    E: Fn(&EngineBase, &Vec<StoredOp>) -> EngineRun,
    A: Fn(&Vec<SealingEntry>) -> Result<(Vec<SealingEntry>, u32), String>,
    S: Fn(Checkpoint) -> SignedCheckpoint,
>(
    engine: E,
    author_sealing: A,
    sign: S,
    key: [u8; 32],
    anchor: DagAnchor,
    frontier: Seq<[u8; 32]>,
    prev_snapshot: Option<[u8; 32]>,
    author: Seq<char>,
    first: EngineBase,
    lower: Vec<StoredOp>,
    cut: EngineRun,
    b: DagAnchor,
    before: Resolved,
    base: EngineBase,
    whole: EngineRun,
    after: Result<Resolved, ClientError>,
)
    requires
        anchor.checkpoint is None,
        resumes(engine, anchor, frontier),
        ran(engine, anchor, base, whole),
        run_outcome(anchor, whole, Ok(before)),
        ids_are_distinct(entry_models(whole.members.members@)),
        cut_ran(engine, anchor, frontier, first, lower, cut),
        compaction_outcome(author_sealing, sign, anchor, frontier, prev_snapshot, author, cut, lower@.len(), Ok(b)),
        signs_under(sign, key),
        owned_by(entry_models(cut.members.members@), author, key),
        resolution(engine, b, after),
    ensures
        after matches Ok(v) && member_models(v.members.members@) == member_models(before.members.members@)
            && v.members.reset_boundary == before.members.reset_boundary && v.has_been_shared == before.has_been_shared
            && v.reset_authority == before.reset_authority && preserves(author_sealing, anchor, cut, v) && seals_above(
            anchor,
            frontier,
            v,
        ),
{
    let ops = anchor.closure();
    a_compacted_anchor_stands_on_its_checkpoint(
        engine,
        author_sealing,
        sign,
        key,
        anchor,
        frontier,
        prev_snapshot,
        author,
        cut,
        lower@.len(),
        b,
        after,
    );
    let (start, rest) = choose|start: EngineBase, rest: EngineRun| #[trigger]
        ran(engine, b, start, rest) && run_outcome(b, rest, after);
    let signed = b.checkpoint->0;
    let (pre, authored) = choose|pre: Vec<SealingEntry>, authored: Result<(Vec<SealingEntry>, u32), String>|
        sealing_models(pre@) == sealing_below(anchor, cut) && #[trigger] author_sealing.ensures((&pre,), authored)
            && authored_outcome(sign, anchor, frontier, prev_snapshot, author, cut, authored, Ok(b));
    let (segment, baseline) = authored->Ok_0;
    let (cp, made) = choose|cp: Checkpoint, made: SignedCheckpoint|
        checkpoint_of(cp, frontier, prev_snapshot, author, cut, sealing_models(segment@), baseline) && #[trigger] sign.ensures(
            (cp,),
            made,
        ) && compacted(anchor, frontier, made, b);
    assert(signed == made && signed.body == cp);
    assert(resumed(engine, anchor, frontier, cut, start, b.ops, rest)) by {
        assert(start is Adopted);
        assert forall|i: int| 0 <= i < frontier.len() implies (#[trigger] (start->frontier_depths)@[i]).0 == frontier[i]
            && (start->frontier_depths)@[i].1 == depth_word(depth_in(cut.depths@, frontier[i])) by {
            assert(cp.frontier_depths@[i] == (frontier[i], depth_in(cut.depths@, frontier[i])));
        }
    }
    assert(ends_alike(whole, rest));
    assert(first_trouble(b.closure(), rest, b.closure().len() as int) is None) by {
        no_trouble_is_none_at_all(ops, whole, ops.len() as int);
        no_trouble_is_none_at_all(b.closure(), rest, b.closure().len() as int);
        above_is_not_below(ops, ops, frontier);
        assert forall|i: int| 0 <= i < b.closure().len() implies #[trigger] op_trouble(b.closure(), rest, i) is None by {
            assert(b.closure()[i] == cut_side(ops, frontier, false)[i]);
            let k = choose|k: int| 0 <= k < ops.len() && ops[k] == b.closure()[i];
            assert(op_trouble(ops, whole, k) is None);
            assert(refusal(rest, i) is None);
        }
    }
    one_state_has_one_view(entry_models(whole.members.members@), (after->Ok_0).members, before.members);
}

} // verus!
