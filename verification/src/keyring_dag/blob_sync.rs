//! Syncing a keyring DAG over a blob store: which key an op is stored under, what a pull does with each blob it
//! finds, and which ops a store withholds.

use vstd::prelude::*;

use crate::keyring_dag::access::KeyringOp;
use crate::keyring_dag::codec::BlobSyncError;
use crate::order::{text_equal, Key};
use crate::sorted::SortedSet;
use crate::text::{hex_of, push_hex};

verus! {

/// The key of an op's blob.
pub open spec fn key_of(id: Seq<u8>) -> Seq<char> {
    "op/"@ + hex_of(id)
}

/// The key that an op is stored under.
pub fn op_key(id: &[u8; 32]) -> (r: String)
    ensures
        r@ == key_of(id@),
{
    let mut s: String = "op/".to_owned();
    push_hex(&mut s, id.as_slice());
    s
}

/// Distinct ops have distinct keys.
pub proof fn keys_are_distinct(a: Seq<u8>, b: Seq<u8>)
    requires
        key_of(a) == key_of(b),
    ensures
        a == b,
{
    assert(key_of(a).skip("op/"@.len() as int) =~= hex_of(a));
    assert(key_of(b).skip("op/"@.len() as int) =~= hex_of(b));
    crate::text::hex_injective(a, b);
}

/// The outcome of a pull.
#[derive(Clone, Debug, Default, PartialEq, Eq)]
pub struct PullReport {
    /// How many new ops were handed to the engine.
    pub submitted: usize,
    /// The applied ops that the store no longer serves, in ascending order.
    pub withheld: Vec<[u8; 32]>,
}

/// What the store says to a write that must not overwrite.
#[derive(Clone, Debug, PartialEq, Eq)]
pub enum PutOutcome {
    Written,
    /// A blob was there already.
    Present,
    Failed(String),
}

/// How publishing an op comes out, and the applied ops after it: a blob that was there already is fine.
pub open spec fn publication(
    before: Set<Seq<u8>>,
    id: Seq<u8>,
    outcome: PutOutcome,
    r: Result<(), BlobSyncError>,
    after: Set<Seq<u8>>,
) -> bool {
    match outcome {
        PutOutcome::Failed(e) => r == Err::<(), BlobSyncError>(BlobSyncError::Store(e)) && after == before,
        _ => r is Ok && after == before.insert(id),
    }
}

/// The op's encoded form was put under its own key, with this outcome.
pub open spec fn stored<E: Fn(&KeyringOp) -> Vec<u8>, P: Fn(&str, &Vec<u8>) -> PutOutcome>(
    encode: E,
    put: P,
    op: KeyringOp,
    key: &str,
    bytes: Vec<u8>,
    outcome: PutOutcome,
) -> bool {
    key@ == key_of(op.id@) && encode.ensures((&op,), bytes) && put.ensures((key, &bytes), outcome)
}

/// A pull under way: the ops seen in the store, and how many were handed to the engine.
pub struct Pull {
    pub present: SortedSet<[u8; 32]>,
    pub submitted: usize,
}

impl Pull {
    pub open spec fn wf(&self) -> bool {
        self.present.wf()
    }

    /// A pull that has seen nothing.
    pub fn start() -> (r: Pull)
        ensures
            r.wf(),
            r.present@ == Set::<Seq<u8>>::empty(),
            r.submitted == 0,
    {
        Pull { present: SortedSet::new(), submitted: 0 }
    }
}

/// What to do with a blob that a pull came across.
#[derive(Clone, Copy, Debug, PartialEq, Eq, Structural)]
pub enum PullAction {
    /// The op was applied before.
    Skip,
    /// Hand the op to the engine.
    Apply,
}

/// The ids of ops.
pub open spec fn op_ids(ops: Seq<KeyringOp>) -> Seq<Seq<u8>> {
    Seq::new(ops.len(), |i: int| ops[i].id@)
}

/// The applied ops once these were taken.
pub open spec fn with_ops(before: Set<Seq<u8>>, ops: Seq<KeyringOp>) -> Set<Seq<u8>>
    decreases ops.len(),
{
    if ops.len() == 0 {
        before
    } else {
        with_ops(before, ops.drop_last()).insert(ops.last().id@)
    }
}

/// How many of the ops were new when their turn came.
pub open spec fn fresh(before: Set<Seq<u8>>, ops: Seq<KeyringOp>) -> nat
    decreases ops.len(),
{
    if ops.len() == 0 {
        0
    } else {
        fresh(before, ops.drop_last()) + if with_ops(before, ops.drop_last()).contains(ops.last().id@) {
            0nat
        } else {
            1nat
        }
    }
}

/// The first listed blobs held these ops, each under its own key, and the engine took each that was new.
pub open spec fn taken<
    G: Fn(&String) -> Result<Option<KeyringOp>, BlobSyncError>,
    A: Fn(&KeyringOp) -> Result<(), String>,
>(fetch: G, apply: A, keys: Seq<String>, before: Set<Seq<u8>>, ops: Seq<KeyringOp>) -> bool {
    &&& ops.len() <= keys.len()
    &&& forall|i: int|
        0 <= i < ops.len() ==> {
            &&& fetch.ensures((&keys[i],), Ok::<Option<KeyringOp>, BlobSyncError>(Some(#[trigger] ops[i])))
            &&& key_of(ops[i].id@) == keys[i]@
            &&& with_ops(before, ops.take(i)).contains(ops[i].id@) || apply.ensures((&ops[i],), Ok::<(), String>(()))
        }
}

/// Why a blob stops a pull, by what the store and the engine said.
pub open spec fn stops<A: Fn(&KeyringOp) -> Result<(), String>>(
    apply: A,
    key: Seq<char>,
    applied: Set<Seq<u8>>,
    said: Result<Option<KeyringOp>, BlobSyncError>,
    e: BlobSyncError,
) -> bool {
    match said {
        Err(x) => e == x,
        Ok(None) => e == BlobSyncError::Malformed("listed key vanished"),
        Ok(Some(op)) => if key_of(op.id@) != key {
            e == BlobSyncError::Malformed("op id does not match its blob key")
        } else {
            !applied.contains(op.id@) && (e matches BlobSyncError::Engine(m) && apply.ensures((&op,), Err::<(), String>(m)))
        },
    }
}

/// How a pull comes out, once the blobs of `ops` were dealt with.
pub open spec fn pull_outcome<
    G: Fn(&String) -> Result<Option<KeyringOp>, BlobSyncError>,
    A: Fn(&KeyringOp) -> Result<(), String>,
    F: Fn() -> Result<(), String>,
>(
    fetch: G,
    apply: A,
    flush: F,
    keys: Seq<String>,
    before: Set<Seq<u8>>,
    ops: Seq<KeyringOp>,
    r: Result<PullReport, BlobSyncError>,
) -> bool {
    match r {
        Ok(report) => {
            &&& ops.len() == keys.len()
            &&& flush.ensures((), Ok::<(), String>(()))
            &&& report.submitted == fresh(before, ops)
            &&& crate::sorted::strictly_sorted(report.withheld@)
            &&& forall|id: Seq<u8>| #[trigger]
                crate::sorted::models(report.withheld@).contains(id) <==> with_ops(before, ops).contains(id) && !op_ids(
                    ops,
                ).contains(id)
        },
        Err(e) => {
            ||| ops.len() == keys.len() && (e matches BlobSyncError::Engine(m) && flush.ensures((), Err::<(), String>(m)))
            ||| ops.len() < keys.len() && exists|said: Result<Option<KeyringOp>, BlobSyncError>| #[trigger]
                fetch.ensures((&keys[ops.len() as int],), said) && stops(
                    apply,
                    keys[ops.len() as int]@,
                    with_ops(before, ops),
                    said,
                    e,
                )
        },
    }
}

/// One replica's sync state: the ops it has applied.
pub struct KeyringBlobSync {
    pub applied: SortedSet<[u8; 32]>,
}

impl KeyringBlobSync {
    pub open spec fn wf(&self) -> bool {
        self.applied.wf()
    }

    pub fn new() -> (r: KeyringBlobSync)
        ensures
            r.wf(),
            r.applied@ == Set::<Seq<u8>>::empty(),
    {
        KeyringBlobSync { applied: SortedSet::new() }
    }

    /// Records the outcome of publishing an op. A blob that was there already is fine: its content is the same.
    pub fn pushed(&mut self, id: &[u8; 32], outcome: PutOutcome) -> (r: Result<(), BlobSyncError>)
        requires
            old(self).wf(),
        ensures
            final(self).wf(),
            publication(old(self).applied@, id@, outcome, r, final(self).applied@),
    {
        match outcome {
            PutOutcome::Failed(e) => Err(BlobSyncError::Store(e)),
            PutOutcome::Written => {
                self.applied.insert(*id);
                Ok(())
            },
            PutOutcome::Present => {
                self.applied.insert(*id);
                Ok(())
            },
        }
    }

    /// Publishes an op under its own key, in its encoded form; `put` must not overwrite.
    pub fn push<E: Fn(&KeyringOp) -> Vec<u8>, P: Fn(&str, &Vec<u8>) -> PutOutcome>(
        &mut self,
        op: &KeyringOp,
        encode: E,
        put: P,
    ) -> (r: Result<(), BlobSyncError>)
        requires
            old(self).wf(),
            encode.requires((op,)),
            forall|k: &str, b: Vec<u8>| put.requires((k, &b)),
        ensures
            final(self).wf(),
            exists|key: &str, bytes: Vec<u8>, outcome: PutOutcome| #[trigger]
                stored(encode, put, *op, key, bytes, outcome) && publication(
                    old(self).applied@,
                    op.id@,
                    outcome,
                    r,
                    final(self).applied@,
                ),
    {
        let bytes: Vec<u8> = encode(op);
        let key: String = op_key(&op.id);
        let at: &str = key.as_str();
        let outcome: PutOutcome = put(at, &bytes);
        assert(stored(encode, put, *op, at, bytes, outcome));
        self.pushed(&op.id, outcome)
    }

    /// Looks at one listed blob: `found` is the id of the op it holds, or `None` where it has vanished. An op must
    /// be stored under its own key; one that was applied before is skipped.
    pub fn examine(&self, pull: &mut Pull, key: &str, found: Option<&[u8; 32]>) -> (r: Result<PullAction, BlobSyncError>)
        requires
            self.wf(),
            old(pull).wf(),
        ensures
            final(pull).wf(),
            final(pull).submitted == old(pull).submitted,
            match found {
                None => r == Err::<PullAction, BlobSyncError>(BlobSyncError::Malformed("listed key vanished"))
                    && final(pull).present@ == old(pull).present@,
                Some(id) => if key_of(id@) != key@ {
                    r == Err::<PullAction, BlobSyncError>(BlobSyncError::Malformed("op id does not match its blob key"))
                        && final(pull).present@ == old(pull).present@
                } else {
                    &&& final(pull).present@ == old(pull).present@.insert(id@)
                    &&& r == Ok::<PullAction, BlobSyncError>(
                        if self.applied@.contains(id@) {
                            PullAction::Skip
                        } else {
                            PullAction::Apply
                        },
                    )
                },
            },
    {
        match found {
            None => Err(BlobSyncError::Malformed("listed key vanished")),
            Some(id) => {
                let own: String = op_key(id);
                if !text_equal(own.as_str(), key) {
                    return Err(BlobSyncError::Malformed("op id does not match its blob key"));
                }
                pull.present.insert(*id);
                if self.applied.contains(id) {
                    Ok(PullAction::Skip)
                } else {
                    Ok(PullAction::Apply)
                }
            },
        }
    }

    /// Records that the engine took an op.
    pub fn applied_op(&mut self, pull: &mut Pull, id: &[u8; 32])
        requires
            old(self).wf(),
            old(pull).wf(),
            old(pull).submitted < usize::MAX,
        ensures
            final(self).wf(),
            final(pull).wf(),
            final(self).applied@ == old(self).applied@.insert(id@),
            final(pull).present@ == old(pull).present@,
            final(pull).submitted == old(pull).submitted + 1,
    {
        self.applied.insert(*id);
        pull.submitted = pull.submitted + 1;
    }

    /// Ends a pull: everything that was ever applied must still be served; what is not is withheld.
    pub fn finish(&self, pull: Pull) -> (r: PullReport)
        requires
            self.wf(),
            pull.wf(),
        ensures
            r.submitted == pull.submitted,
            crate::sorted::strictly_sorted(r.withheld@),
            forall|id: Seq<u8>| #[trigger] crate::sorted::models(r.withheld@).contains(id) <==> self.applied@.contains(id)
                && !pull.present@.contains(id),
    {
        let mut withheld: Vec<[u8; 32]> = Vec::new();
        let mut i: usize = 0;
        proof {
            self.applied.facts();
        }
        while i < self.applied.items.len()
            invariant
                self.wf(),
                pull.wf(),
                i <= self.applied.items.len(),
                crate::sorted::strictly_sorted(withheld@),
                forall|k: int, l: int|
                    0 <= k < withheld.len() && i <= l < self.applied.items.len() ==> <[u8; 32] as Key>::before(
                        (#[trigger] withheld@[k])@,
                        (#[trigger] self.applied.items@[l])@,
                    ),
                forall|id: Seq<u8>| #[trigger] crate::sorted::models(withheld@).contains(id) <==> !pull.present@.contains(id)
                    && exists|l: int| 0 <= l < i && (#[trigger] self.applied.items@[l])@ == id,
            decreases self.applied.items.len() - i,
        {
            let id = self.applied.items[i];
            let ghost before = withheld@;
            if !pull.present.contains(&id) {
                withheld.push(id);
                proof {
                    let m0 = crate::sorted::models(before);
                    let m1 = crate::sorted::models(withheld@);
                    assert(m1 =~= m0.push(id@));
                    assert forall|x: Seq<u8>| #[trigger] m1.contains(x) <==> !pull.present@.contains(x) && exists|l: int|
                        0 <= l < i + 1 && (#[trigger] self.applied.items@[l])@ == x by {
                        if m1.contains(x) && x != id@ {
                            let k = choose|k: int| 0 <= k < m1.len() && m1[k] == x;
                            assert(m0[k] == x);
                            assert(m0.contains(x));
                            let l = choose|l: int| 0 <= l < i && (#[trigger] self.applied.items@[l])@ == x;
                            assert(0 <= l < i + 1);
                        }
                        if x == id@ {
                            assert(m1[m1.len() - 1] == x);
                            assert(self.applied.items@[i as int]@ == x);
                        }
                        if !pull.present@.contains(x) && exists|l: int|
                            0 <= l < i + 1 && (#[trigger] self.applied.items@[l])@ == x {
                            let l = choose|l: int| 0 <= l < i + 1 && (#[trigger] self.applied.items@[l])@ == x;
                            if l < i {
                                assert(m0.contains(x));
                                let k = choose|k: int| 0 <= k < m0.len() && m0[k] == x;
                                assert(m1[k] == x);
                            }
                        }
                    }
                }
            } else {
                proof {
                    assert forall|x: Seq<u8>| #[trigger] crate::sorted::models(withheld@).contains(x) <==> !pull.present@.contains(x)
                        && exists|l: int| 0 <= l < i + 1 && (#[trigger] self.applied.items@[l])@ == x by {
                        if crate::sorted::models(withheld@).contains(x) {
                            let l = choose|l: int| 0 <= l < i && (#[trigger] self.applied.items@[l])@ == x;
                            assert(0 <= l < i + 1);
                        }
                        if !pull.present@.contains(x) && exists|l: int|
                            0 <= l < i + 1 && (#[trigger] self.applied.items@[l])@ == x {
                            let l = choose|l: int| 0 <= l < i + 1 && (#[trigger] self.applied.items@[l])@ == x;
                            assert(l < i);
                        }
                    }
                }
            }
            i = i + 1;
        }
        proof {
            assert forall|id: Seq<u8>| #[trigger] crate::sorted::models(withheld@).contains(id) <==> self.applied@.contains(id)
                && !pull.present@.contains(id) by {
                if crate::sorted::models(withheld@).contains(id) {
                    let l = choose|l: int| 0 <= l < self.applied.items.len() && (#[trigger] self.applied.items@[l])@ == id;
                    assert(self.applied@.contains(self.applied.items@[l].model()));
                }
                if self.applied@.contains(id) && !pull.present@.contains(id) {
                    let l = choose|l: int| 0 <= l < self.applied.items.len() && (#[trigger] self.applied.items@[l]).model() == id;
                    assert(self.applied.items@[l]@ == id);
                }
            }
        }
        PullReport { submitted: pull.submitted, withheld }
    }

    /// Fetches every listed op that was not applied before and hands it to the engine, which then settles what it
    /// buffered. What was ever applied stays applied; what the store no longer serves is reported.
    pub fn pull<
        G: Fn(&String) -> Result<Option<KeyringOp>, BlobSyncError>,
        A: Fn(&KeyringOp) -> Result<(), String>,
        F: Fn() -> Result<(), String>,
    >(&mut self, keys: &Vec<String>, fetch: &G, apply: &A, flush: &F) -> (r: Result<PullReport, BlobSyncError>)
        requires
            old(self).wf(),
            forall|k: String| fetch.requires((&k,)),
            forall|o: KeyringOp| apply.requires((&o,)),
            flush.requires(()),
        ensures
            final(self).wf(),
            exists|ops: Seq<KeyringOp>| #[trigger]
                taken(*fetch, *apply, keys@, old(self).applied@, ops) && final(self).applied@ == with_ops(
                    old(self).applied@,
                    ops,
                ) && pull_outcome(*fetch, *apply, *flush, keys@, old(self).applied@, ops, r),
    {
        let ghost before = self.applied@;
        let ghost mut ops: Seq<KeyringOp> = Seq::empty();
        let mut pull: Pull = Pull::start();
        let mut i: usize = 0;
        assert(op_ids(ops).to_set() =~= Set::<Seq<u8>>::empty());
        while i < keys.len()
            invariant
                i <= keys.len(),
                self.wf(),
                pull.wf(),
                ops.len() == i,
                before == old(self).applied@,
                forall|k: String| fetch.requires((&k,)),
                forall|o: KeyringOp| apply.requires((&o,)),
                taken(*fetch, *apply, keys@, before, ops),
                self.applied@ == with_ops(before, ops),
                pull.present@ == op_ids(ops).to_set(),
                pull.submitted == fresh(before, ops),
                pull.submitted <= i,
            decreases keys.len() - i,
        {
            let said: Result<Option<KeyringOp>, BlobSyncError> = fetch(&keys[i]);
            let ghost answer = said;
            assert(fetch.ensures((&keys@[i as int],), answer));
            let op: KeyringOp = match said {
                Ok(Some(op)) => op,
                Ok(None) => {
                    let r: Result<PullReport, BlobSyncError> = Err(BlobSyncError::Malformed("listed key vanished"));
                    assert(pull_outcome(*fetch, *apply, *flush, keys@, before, ops, r));
                    return r;
                },
                Err(e) => {
                    let r: Result<PullReport, BlobSyncError> = Err(e);
                    assert(pull_outcome(*fetch, *apply, *flush, keys@, before, ops, r));
                    return r;
                },
            };
            let ghost seen = pull.present@;
            match self.examine(&mut pull, keys[i].as_str(), Some(&op.id)) {
                Err(e) => {
                    let r: Result<PullReport, BlobSyncError> = Err(e);
                    assert(pull_outcome(*fetch, *apply, *flush, keys@, before, ops, r));
                    return r;
                },
                Ok(PullAction::Skip) => {
                    assert(with_ops(before, ops).contains(op.id@));
                    assert(self.applied@.insert(op.id@) =~= self.applied@);
                },
                Ok(PullAction::Apply) => match apply(&op) {
                    Ok(unit) => {
                        assert(unit == ());
                        assert(apply.ensures((&op,), Ok::<(), String>(())));
                        self.applied_op(&mut pull, &op.id);
                    },
                    Err(m) => {
                        let r: Result<PullReport, BlobSyncError> = Err(BlobSyncError::Engine(m));
                        assert(pull_outcome(*fetch, *apply, *flush, keys@, before, ops, r));
                        return r;
                    },
                },
            }
            proof {
                let more = ops.push(op);
                assert(more.drop_last() =~= ops);
                assert(op_ids(more) =~= op_ids(ops).push(op.id@));
                assert(op_ids(more).to_set() =~= op_ids(ops).to_set().insert(op.id@)) by {
                    assert forall|x: Seq<u8>| op_ids(more).contains(x) <==> op_ids(ops).contains(x) || x == op.id@ by {
                        if op_ids(ops).contains(x) {
                            let k = choose|k: int| 0 <= k < op_ids(ops).len() && op_ids(ops)[k] == x;
                            assert(op_ids(more)[k] == x);
                        }
                        assert(op_ids(more)[ops.len() as int] == op.id@);
                    }
                }
                assert forall|k: int| 0 <= k < more.len() implies {
                    &&& fetch.ensures((&keys@[k],), Ok::<Option<KeyringOp>, BlobSyncError>(Some(#[trigger] more[k])))
                    &&& key_of(more[k].id@) == keys@[k]@
                    &&& with_ops(before, more.take(k)).contains(more[k].id@) || apply.ensures(
                        (&more[k],),
                        Ok::<(), String>(()),
                    )
                } by {
                    if k < ops.len() {
                        assert(more[k] == ops[k]);
                        assert(more.take(k) =~= ops.take(k));
                    } else {
                        assert(more.take(k) =~= ops);
                    }
                }
                ops = more;
            }
            i = i + 1;
        }
        match flush() {
            Ok(unit) => {
                assert(unit == ());
                assert(flush.ensures((), Ok::<(), String>(())));
            },
            Err(m) => {
                let r: Result<PullReport, BlobSyncError> = Err(BlobSyncError::Engine(m));
                assert(pull_outcome(*fetch, *apply, *flush, keys@, before, ops, r));
                return r;
            },
        }
        let report: PullReport = self.finish(pull);
        assert forall|id: Seq<u8>| op_ids(ops).contains(id) <==> op_ids(ops).to_set().contains(id) by {}
        let r: Result<PullReport, BlobSyncError> = Ok(report);
        assert(pull_outcome(*fetch, *apply, *flush, keys@, before, ops, r));
        r
    }
}

/// A pull loses nothing: what was applied before it is applied after it.
pub proof fn a_pull_only_adds(before: Set<Seq<u8>>, ops: Seq<KeyringOp>)
    ensures
        before.subset_of(with_ops(before, ops)),
    decreases ops.len(),
{
    if ops.len() > 0 {
        a_pull_only_adds(before, ops.drop_last());
    }
}

/// A second pull of the same ops hands none of them to the engine.
pub proof fn a_pull_is_idempotent(before: Set<Seq<u8>>, ops: Seq<KeyringOp>)
    ensures
        fresh(with_ops(before, ops), ops) == 0,
        with_ops(with_ops(before, ops), ops) == with_ops(before, ops),
{
    nothing_new(with_ops(before, ops), before, ops);
}

proof fn nothing_new(all: Set<Seq<u8>>, before: Set<Seq<u8>>, ops: Seq<KeyringOp>)
    requires
        with_ops(before, ops).subset_of(all),
    ensures
        fresh(all, ops) == 0,
        with_ops(all, ops) == all,
    decreases ops.len(),
{
    if ops.len() > 0 {
        assert(with_ops(before, ops).contains(ops.last().id@));
        assert forall|x: Seq<u8>| with_ops(before, ops.drop_last()).contains(x) implies all.contains(x) by {
            assert(with_ops(before, ops).contains(x));
        }
        nothing_new(all, before, ops.drop_last());
        assert(all.insert(ops.last().id@) =~= all);
    }
}

} // verus!
