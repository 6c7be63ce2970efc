//! The client's trust anchor: the pinned founding configuration and the op closure, with its frontier, its
//! anti-rollback watermark, its out-of-band pin, and the union of two anchors.

use vstd::prelude::*;

use crate::keyring_api::ROLE_OWNER;
use crate::keyring_dag::access::{KeyringAction, KeyringMemberInit, KeyringOp, KeyringRole};
use crate::keyring_dag::checkpoint::SignedCheckpoint;
use crate::keyring_dag::codec::{copy_op, minit_to_dto, MemberInitDto, OpModel};
use crate::order::{bytes_equal, same_key, Key};
use crate::protobuf::{varint, varint_read};
use crate::sorted::SortedSet;
use crate::sorting::{sorted_of, sorting_keeps_values, stable_sort, stable_sorting, Keyed};
use crate::text::{copy_bytes, decimal, decimal_text, hex_of, push_bytes, push_hex};

verus! {

/// A client-side failure.
#[derive(Clone, Debug, PartialEq, Eq)]
pub enum ClientError {
    /// The anchor or an op in it does not hold together.
    Malformed(String),
    /// The engine refused a stored op.
    Engine(String),
    /// The anchor lacks an op that the caller's watermark names.
    RolledBack(String),
    /// The watermark itself is not one.
    BadWatermark(String),
}

impl ClientError {
    /// What went wrong, in words.
    pub fn message(&self) -> (r: String)
        ensures
            r@ == (match *self {
                ClientError::Malformed(m) => "malformed dag anchor: "@ + m@,
                ClientError::Engine(m) => "dag anchor replay rejected: "@ + m@,
                ClientError::RolledBack(m) => "dag anchor rolled back below watermark: "@ + m@,
                ClientError::BadWatermark(m) => "malformed anti-rollback watermark: "@ + m@,
            }),
    {
        match self {
            ClientError::Malformed(m) => crate::text::concat("malformed dag anchor: ", m.as_str()),
            ClientError::Engine(m) => crate::text::concat("dag anchor replay rejected: ", m.as_str()),
            ClientError::RolledBack(m) => crate::text::concat("dag anchor rolled back below watermark: ", m.as_str()),
            ClientError::BadWatermark(m) => crate::text::concat("malformed anti-rollback watermark: ", m.as_str()),
        }
    }
}

/// An op of an anchor, with the content address of its own fields.
#[derive(Debug, PartialEq, Eq)]
pub struct StoredOp {
    pub op: KeyringOp,
    pub content_id: [u8; 32],
}

/// What a stored op holds.
pub struct StoredModel {
    pub op: OpModel,
    pub content_id: [u8; 32],
}

impl StoredOp {
    pub open spec fn model(self) -> StoredModel {
        StoredModel { op: self.op.model(), content_id: self.content_id }
    }

    pub fn duplicate(&self) -> (r: StoredOp)
        ensures
            r.model() == self.model(),
    {
        StoredOp { op: copy_op(&self.op), content_id: self.content_id }
    }

    /// Whether the op's declared id is the content address of its fields.
    pub fn content_id_matches(&self) -> (r: bool)
        ensures
            r == honest(self.model()),
    {
        let r = same_key(&self.content_id, &self.op.id);
        proof {
            if r {
                assert(self.content_id =~= self.op.id);
            }
        }
        r
    }
}

/// The op's declared id is the content address of its fields.
pub open spec fn honest(op: StoredModel) -> bool {
    op.content_id == op.op.id
}

pub open spec fn stored_models(s: Seq<StoredOp>) -> Seq<StoredModel> {
    Seq::new(s.len(), |i: int| s[i].model())
}

/// The client's trust anchor.
#[derive(Debug, PartialEq, Eq)]
pub struct DagAnchor {
    /// The tree that every op is bound to.
    pub group_id: Vec<u8>,
    pub genesis: Vec<MemberInitDto>,
    pub reset_authority: Option<[u8; 32]>,
    pub genesis_op_id: [u8; 32],
    pub ops: Vec<StoredOp>,
    /// What stands in for the ops below a compaction's cut.
    pub checkpoint: Option<SignedCheckpoint>,
}

impl DagAnchor {
    /// The ops of the anchor.
    pub open spec fn closure(self) -> Seq<StoredModel> {
        stored_models(self.ops@)
    }
}

impl Keyed for [u8; 32] {
    type By = [u8; 32];

    open spec fn sort_key(&self) -> Seq<u8> {
        self@
    }

    fn goes_before(&self, other: &[u8; 32]) -> (r: bool) {
        self.less(other)
    }
}

/// Some op of the closure has the id.
pub open spec fn has_id(ops: Seq<StoredModel>, id: [u8; 32]) -> bool {
    exists|i: int| 0 <= i < ops.len() && (#[trigger] ops[i]).op.id == id
}

/// Some op of the closure names the id as a parent.
pub open spec fn is_parent(ops: Seq<StoredModel>, id: [u8; 32]) -> bool {
    exists|i: int| 0 <= i < ops.len() && (#[trigger] ops[i]).op.parents.contains(id)
}

/// The ids of the closure.
pub open spec fn ids(ops: Seq<StoredModel>) -> Seq<[u8; 32]> {
    Seq::new(ops.len(), |i: int| ops[i].op.id)
}

/// The frontier: the ids that no op names as a parent, sorted.
pub open spec fn frontier_of(ops: Seq<StoredModel>) -> Seq<[u8; 32]> {
    sorted_of(ids(ops).filter(|id: [u8; 32]| !is_parent(ops, id)))
}

fn parent_set(ops: &Vec<StoredOp>) -> (r: SortedSet<[u8; 32]>)
    ensures
        r.wf(),
        forall|id: [u8; 32]| r@.contains(id@) <==> is_parent(stored_models(ops@), id),
{
    let mut out: SortedSet<[u8; 32]> = SortedSet::new();
    let ghost all = stored_models(ops@);
    let mut i: usize = 0;
    while i < ops.len()
        invariant
            i <= ops.len(),
            all == stored_models(ops@),
            out.wf(),
            forall|x: Seq<u8>| #[trigger] out@.contains(x) <==> exists|k: int, j: int|
                0 <= k < i && 0 <= j < all[k].op.parents.len() && (#[trigger] all[k].op.parents[j])@ == x,
        decreases ops.len() - i,
    {
        let parents = &ops[i].op.parents;
        assert(all[i as int].op.parents == parents@);
        let ghost before = out@;
        let mut j: usize = 0;
        while j < parents.len()
            invariant
                j <= parents.len(),
                out.wf(),
                forall|x: Seq<u8>| #[trigger] out@.contains(x) <==> before.contains(x) || exists|l: int|
                    0 <= l < j && (#[trigger] parents@[l])@ == x,
            decreases parents.len() - j,
        {
            let ghost mid = out@;
            out.insert(parents[j]);
            proof {
                assert forall|x: Seq<u8>| #[trigger] out@.contains(x) <==> before.contains(x) || exists|l: int|
                    0 <= l < j + 1 && (#[trigger] parents@[l])@ == x by {
                    if mid.contains(x) && !before.contains(x) {
                        let l = choose|l: int| 0 <= l < j && (#[trigger] parents@[l])@ == x;
                        assert(0 <= l < j + 1);
                    }
                    if x == parents@[j as int]@ {
                        assert(0 <= j < j + 1);
                    }
                }
            }
            j = j + 1;
        }
        proof {
            assert forall|x: Seq<u8>| #[trigger] out@.contains(x) <==> exists|k: int, l: int|
                0 <= k < i + 1 && 0 <= l < all[k].op.parents.len() && (#[trigger] all[k].op.parents[l])@ == x by {
                if before.contains(x) {
                    let (k, l) = choose|k: int, l: int|
                        0 <= k < i && 0 <= l < all[k].op.parents.len() && (#[trigger] all[k].op.parents[l])@ == x;
                    assert(all[k].op.parents[l]@ == x && k < i + 1);
                } else if out@.contains(x) {
                    let l = choose|l: int| 0 <= l < parents.len() && (#[trigger] parents@[l])@ == x;
                    assert(all[i as int].op.parents[l]@ == x);
                }
                if exists|k: int, l: int|
                    0 <= k < i + 1 && 0 <= l < all[k].op.parents.len() && (#[trigger] all[k].op.parents[l])@ == x {
                    let (k, l) = choose|k: int, l: int|
                        0 <= k < i + 1 && 0 <= l < all[k].op.parents.len() && (#[trigger] all[k].op.parents[l])@ == x;
                    if k < i {
                        assert(before.contains(x));
                    } else {
                        assert(parents@[l]@ == x);
                    }
                }
            }
        }
        i = i + 1;
    }
    proof {
        assert forall|id: [u8; 32]| out@.contains(id@) <==> is_parent(all, id) by {
            if out@.contains(id@) {
                let (k, j) = choose|k: int, j: int|
                    0 <= k < all.len() && 0 <= j < all[k].op.parents.len() && (#[trigger] all[k].op.parents[j])@ == id@;
                assert(all[k].op.parents[j] =~= id);
                assert(all[k].op.parents.contains(id));
            }
            if is_parent(all, id) {
                let k = choose|k: int| 0 <= k < all.len() && (#[trigger] all[k]).op.parents.contains(id);
                let j = choose|j: int| 0 <= j < all[k].op.parents.len() && all[k].op.parents[j] == id;
                assert(all[k].op.parents[j]@ == id@);
            }
        }
    }
    out
}

/// The frontier of an op closure: new ops are parented on it, and it is the anti-rollback watermark.
pub fn frontier(ops: &Vec<StoredOp>) -> (r: Vec<[u8; 32]>)
    ensures
        r@ == frontier_of(stored_models(ops@)),
{
    let parents: SortedSet<[u8; 32]> = parent_set(ops);
    let ghost all = stored_models(ops@);
    let ghost p = |id: [u8; 32]| !is_parent(all, id);
    let mut tips: Vec<[u8; 32]> = Vec::new();
    let mut i: usize = 0;
    proof {
        reveal(Seq::filter);
        assert(tips@ =~= ids(all).take(0).filter(p));
    }
    while i < ops.len()
        invariant
            i <= ops.len(),
            all == stored_models(ops@),
            p == (|id: [u8; 32]| !is_parent(all, id)),
            parents.wf(),
            forall|id: [u8; 32]| parents@.contains(id@) <==> is_parent(all, id),
            tips@ == ids(all).take(i as int).filter(p),
        decreases ops.len() - i,
    {
        let id: [u8; 32] = ops[i].op.id;
        proof {
            assert(ids(all).take(i + 1) =~= ids(all).take(i as int).push(id));
            ids(all).take(i as int).lemma_filter_push(id, p);
            assert(parents@.contains(id@) <==> is_parent(all, id));
        }
        if !parents.contains(&id) {
            tips.push(id);
        }
        i = i + 1;
    }
    assert(ids(all).take(i as int) =~= ids(all));
    stable_sort(tips)
}

/// The ids as one byte string.
pub open spec fn flattened(s: Seq<[u8; 32]>) -> Seq<u8>
    decreases s.len(),
{
    if s.len() == 0 {
        Seq::empty()
    } else {
        flattened(s.drop_last()) + s.last()@
    }
}

/// A watermark is as long as its ids.
pub proof fn flattened_len(s: Seq<[u8; 32]>)
    ensures
        flattened(s).len() == 32 * s.len(),
    decreases s.len(),
{
    if s.len() > 0 {
        flattened_len(s.drop_last());
    }
}

/// The anchor's anti-rollback watermark: its sorted frontier ids, one after the other.
pub fn watermark(anchor: &DagAnchor) -> (r: Vec<u8>)
    ensures
        r@ == flattened(frontier_of(anchor.closure())),
{
    let tips: Vec<[u8; 32]> = frontier(&anchor.ops);
    let mut out: Vec<u8> = Vec::new();
    let mut i: usize = 0;
    assert(tips@.take(0) =~= Seq::<[u8; 32]>::empty());
    while i < tips.len()
        invariant
            i <= tips.len(),
            out@ == flattened(tips@.take(i as int)),
        decreases tips.len() - i,
    {
        push_bytes(&mut out, tips[i].as_slice());
        proof {
            assert(tips@.take(i + 1).drop_last() =~= tips@.take(i as int));
            assert(tips@.take(i + 1).last() == tips@[i as int]);
        }
        i = i + 1;
    }
    assert(tips@.take(i as int) =~= tips@);
    out
}

/// The `i`-th id that a watermark names.
pub open spec fn floor_id(floor: Seq<u8>, i: int) -> Seq<u8> {
    floor.subrange(32 * i, 32 * i + 32)
}

/// The closure holds an op with these id bytes.
pub open spec fn holds(ops: Seq<StoredModel>, id: Seq<u8>) -> bool {
    exists|i: int| 0 <= i < ops.len() && (#[trigger] ops[i]).op.id@ == id
}

/// The closure satisfies a watermark: it holds every op that the watermark names.
pub open spec fn satisfies(ops: Seq<StoredModel>, floor: Seq<u8>) -> bool {
    &&& floor.len() % 32 == 0
    &&& forall|i: int| 0 <= i < floor.len() / 32 ==> holds(ops, #[trigger] floor_id(floor, i))
}

/// The first eight bytes of an id in hexadecimal, and an ellipsis.
pub open spec fn short_hex(id: Seq<u8>) -> Seq<char> {
    hex_of(id.take(8)) + "…"@
}

/// A short form of an op id for messages.
pub fn hex32(id: &[u8; 32]) -> (r: String)
    ensures
        r@ == short_hex(id@),
{
    let mut s: String = String::new();
    let front = vstd::slice::slice_subrange(id.as_slice(), 0, 8);
    assert(front@ =~= id@.take(8));
    push_hex(&mut s, front);
    s.append("…");
    assert(s@ =~= short_hex(id@));
    s
}

fn present(ops: &Vec<StoredOp>, id: &[u8]) -> (r: bool)
    ensures
        r == holds(stored_models(ops@), id@),
{
    let ghost all = stored_models(ops@);
    let mut i: usize = 0;
    while i < ops.len()
        invariant
            i <= ops.len(),
            all == stored_models(ops@),
            forall|k: int| 0 <= k < i ==> (#[trigger] all[k]).op.id@ != id@,
        decreases ops.len() - i,
    {
        if bytes_equal(ops[i].op.id.as_slice(), id) {
            assert(all[i as int].op.id@ == id@);
            return true;
        }
        i = i + 1;
    }
    false
}

fn array_of(id: &[u8]) -> (r: [u8; 32])
    requires
        id@.len() == 32,
    ensures
        r@ == id@,
{
    let mut out: [u8; 32] = [0u8; 32];
    let mut i: usize = 0;
    while i < 32
        invariant
            i <= 32,
            id@.len() == 32,
            forall|k: int| 0 <= k < i ==> out@[k] == id@[k],
        decreases 32 - i,
    {
        out[i] = id[i];
        i = i + 1;
    }
    assert(out@ =~= id@);
    out
}

/// How a closure that does not satisfy a watermark is refused: by the watermark's length, or by the first op that is
/// missing.
pub open spec fn floor_refusal(ops: Seq<StoredModel>, floor: Seq<u8>, e: ClientError) -> bool {
    match e {
        ClientError::BadWatermark(m) => floor.len() % 32 != 0 && m@ == "length "@ + decimal(floor.len())
            + " is not a multiple of 32"@,
        ClientError::RolledBack(m) => floor.len() % 32 == 0 && exists|i: int|
            0 <= i < floor.len() / 32 && !holds(ops, #[trigger] floor_id(floor, i)) && m@ == "frontier op "@ + short_hex(
                floor_id(floor, i),
            ) + " is absent from the served anchor"@ && forall|j: int| 0 <= j < i ==> holds(ops, #[trigger] floor_id(floor, j)),
        _ => false,
    }
}

/// Whether a watermark is one by its length. This asks nothing of an anchor.
pub fn check_floor_length(floor: &[u8]) -> (r: Result<(), ClientError>)
    ensures
        match r {
            Ok(_) => floor@.len() % 32 == 0,
            Err(e) => forall|ops: Seq<StoredModel>| !satisfies(ops, floor@) && #[trigger] floor_refusal(ops, floor@, e),
        },
{
    if floor.len() % 32 != 0 {
        let mut m: String = "length ".to_owned();
        let n: String = decimal_text(floor.len() as u64);
        m.append(n.as_str());
        m.append(" is not a multiple of 32");
        return Err(ClientError::BadWatermark(m));
    }
    Ok(())
}

/// Holds an anchor to the caller's watermark: every op that it names must still be there. An empty watermark asks
/// for nothing; one whose length is no multiple of an id's is refused.
pub fn check_floor(anchor: &DagAnchor, floor: &[u8]) -> (r: Result<(), ClientError>)
    ensures
        match r {
            Ok(_) => satisfies(anchor.closure(), floor@),
            Err(e) => !satisfies(anchor.closure(), floor@) && floor_refusal(anchor.closure(), floor@, e),
        },
{
    match check_floor_length(floor) {
        Ok(_) => {},
        Err(e) => {
            assert(floor_refusal(anchor.closure(), floor@, e));
            return Err(e);
        },
    }
    let total: usize = floor.len();
    let n: usize = total / 32;
    let mut i: usize = 0;
    while i < n
        invariant
            total == floor@.len(),
            n == total / 32,
            floor@.len() % 32 == 0,
            i <= n,
            forall|j: int| 0 <= j < i ==> holds(anchor.closure(), #[trigger] floor_id(floor@, j)),
        decreases n - i,
    {
        let chunk = vstd::slice::slice_subrange(floor, 32 * i, 32 * i + 32);
        assert(chunk@ =~= floor_id(floor@, i as int));
        if !present(&anchor.ops, chunk) {
            let id: [u8; 32] = array_of(chunk);
            let mut m: String = "frontier op ".to_owned();
            let h: String = hex32(&id);
            m.append(h.as_str());
            m.append(" is absent from the served anchor");
            assert(!holds(anchor.closure(), floor_id(floor@, i as int)));
            return Err(ClientError::RolledBack(m));
        }
        i = i + 1;
    }
    Ok(())
}

/// A watermark is its ids, one after the other.
pub proof fn floor_id_of_flattened(s: Seq<[u8; 32]>, i: int)
    requires
        0 <= i < s.len(),
    ensures
        floor_id(flattened(s), i) == s[i]@,
    decreases s.len(),
{
    flattened_len(s.drop_last());
    let f = flattened(s.drop_last());
    if i == s.len() - 1 {
        assert(flattened(s).subrange(32 * i, 32 * i + 32) =~= s.last()@);
    } else {
        floor_id_of_flattened(s.drop_last(), i);
        assert(flattened(s).subrange(32 * i, 32 * i + 32) =~= f.subrange(32 * i, 32 * i + 32));
    }
}

/// A closure that holds every op of an older one still satisfies the older one's watermark; so an anchor satisfies
/// its own, and one that only grew satisfies every earlier one.
pub proof fn growth_satisfies_the_floor(older: Seq<StoredModel>, newer: Seq<StoredModel>)
    requires
        forall|i: int| 0 <= i < older.len() ==> has_id(newer, (#[trigger] older[i]).op.id),
    ensures
        satisfies(newer, flattened(frontier_of(older))),
{
    let f = frontier_of(older);
    let p = |id: [u8; 32]| !is_parent(older, id);
    let tips = ids(older).filter(p);
    exists_sorting(tips);
    sorting_keeps_values(tips, f);
    flattened_len(f);
    assert forall|i: int| 0 <= i < flattened(f).len() / 32 implies holds(newer, #[trigger] floor_id(flattened(f), i)) by {
        floor_id_of_flattened(f, i);
        assert(f.contains(f[i]));
        assert(tips.contains(f[i]));
        ids(older).lemma_filter_contains_rev(p, f[i]);
        let k = choose|k: int| 0 <= k < ids(older).len() && ids(older)[k] == f[i];
        assert(older[k].op.id == f[i]);
        let j = choose|j: int| 0 <= j < newer.len() && (#[trigger] newer[j]).op.id == f[i];
        assert(newer[j].op.id@ == floor_id(flattened(f), i));
    }
}

/// Every sequence of ids has a sorting.
proof fn exists_sorting(s: Seq<[u8; 32]>)
    ensures
        stable_sorting(s, sorted_of(s)),
{
    crate::sorting::sorting_exists(s);
}

/// An anchor that lacks an op of another's frontier does not satisfy that one's watermark.
pub proof fn a_missing_tip_is_a_rollback(older: Seq<StoredModel>, newer: Seq<StoredModel>, tip: [u8; 32])
    requires
        has_id(newer, tip),
        !is_parent(newer, tip),
        !has_id(older, tip),
    ensures
        !satisfies(older, flattened(frontier_of(newer))),
{
    let f = frontier_of(newer);
    let p = |id: [u8; 32]| !is_parent(newer, id);
    let tips = ids(newer).filter(p);
    exists_sorting(tips);
    sorting_keeps_values(tips, f);
    flattened_len(f);
    let k = choose|k: int| 0 <= k < newer.len() && (#[trigger] newer[k]).op.id == tip;
    assert(ids(newer)[k] == tip);
    ids(newer).lemma_filter_contains(p, k);
    assert(f.contains(tip));
    let i = choose|i: int| 0 <= i < f.len() && f[i] == tip;
    floor_id_of_flattened(f, i);
    if satisfies(older, flattened(f)) {
        assert(holds(older, floor_id(flattened(f), i)));
        let j = choose|j: int| 0 <= j < older.len() && (#[trigger] older[j]).op.id@ == tip@;
        assert(older[j].op.id =~= tip);
    }
}

/// The union of two closures: the ops of `a`, then those of `b` that are honest and whose ids are new, in order.
pub open spec fn merged(a: Seq<StoredModel>, b: Seq<StoredModel>) -> Seq<StoredModel>
    decreases b.len(),
{
    if b.len() == 0 {
        a
    } else {
        let m = merged(a, b.drop_last());
        if honest(b.last()) && !has_id(m, b.last().op.id) {
            m.push(b.last())
        } else {
            m
        }
    }
}

/// Merges `b`'s ops into `a`, keeping `a`'s pinned configuration.
pub fn merge(a: DagAnchor, b: &DagAnchor) -> (r: DagAnchor)
    ensures
        r.closure() == merged(a.closure(), b.closure()),
        r.group_id == a.group_id,
        r.genesis == a.genesis,
        r.reset_authority == a.reset_authority,
        r.genesis_op_id == a.genesis_op_id,
        r.checkpoint == a.checkpoint,
{
    let mut out: DagAnchor = a;
    let ghost ours = a.closure();
    let ghost theirs = b.closure();
    let mut i: usize = 0;
    assert(theirs.take(0) =~= Seq::<StoredModel>::empty());
    while i < b.ops.len()
        invariant
            i <= b.ops.len(),
            theirs == b.closure(),
            out.closure() == merged(ours, theirs.take(i as int)),
            out.group_id == a.group_id,
            out.genesis == a.genesis,
            out.reset_authority == a.reset_authority,
            out.genesis_op_id == a.genesis_op_id,
            out.checkpoint == a.checkpoint,
        decreases b.ops.len() - i,
    {
        let op = &b.ops[i];
        let ghost m = out.closure();
        proof {
            assert(theirs.take(i + 1).drop_last() =~= theirs.take(i as int));
            assert(theirs.take(i + 1).last() == op.model());
            id_bytes_decide(m, op.op.id);
        }
        if op.content_id_matches() && !present(&out.ops, op.op.id.as_slice()) {
            out.ops.push(op.duplicate());
            assert(out.closure() =~= m.push(op.model()));
        }
        i = i + 1;
    }
    assert(theirs.take(i as int) =~= theirs);
    out
}

proof fn id_bytes_decide(ops: Seq<StoredModel>, id: [u8; 32])
    ensures
        holds(ops, id@) == has_id(ops, id),
{
    if holds(ops, id@) {
        let i = choose|i: int| 0 <= i < ops.len() && (#[trigger] ops[i]).op.id@ == id@;
        assert(ops[i].op.id =~= id);
    }
    if has_id(ops, id) {
        let i = choose|i: int| 0 <= i < ops.len() && (#[trigger] ops[i]).op.id == id;
        assert(ops[i].op.id@ == id@);
    }
}

/// Merging never drops or reorders a local op.
pub proof fn merge_keeps_local_ops(a: Seq<StoredModel>, b: Seq<StoredModel>)
    ensures
        merged(a, b).len() >= a.len(),
        merged(a, b).take(a.len() as int) == a,
    decreases b.len(),
{
    if b.len() > 0 {
        merge_keeps_local_ops(a, b.drop_last());
        let m = merged(a, b.drop_last());
        assert(m.push(b.last()).take(a.len() as int) =~= m.take(a.len() as int));
    } else {
        assert(a.take(a.len() as int) =~= a);
    }
}

/// The ids of a union are those of both sides, but for relabeled ops of the other side.
pub proof fn merge_unites_ids(a: Seq<StoredModel>, b: Seq<StoredModel>, id: [u8; 32])
    ensures
        has_id(merged(a, b), id) <==> has_id(a, id) || exists|i: int|
            0 <= i < b.len() && honest(#[trigger] b[i]) && b[i].op.id == id,
    decreases b.len(),
{
    if b.len() > 0 {
        let b0 = b.drop_last();
        let m = merged(a, b0);
        merge_unites_ids(a, b0, id);
        if has_id(m, id) {
            if exists|i: int| 0 <= i < b0.len() && honest(#[trigger] b0[i]) && b0[i].op.id == id {
                let i = choose|i: int| 0 <= i < b0.len() && honest(#[trigger] b0[i]) && b0[i].op.id == id;
                assert(honest(b[i]) && b[i].op.id == id);
            }
            let k = choose|k: int| 0 <= k < m.len() && (#[trigger] m[k]).op.id == id;
            assert(merged(a, b)[k].op.id == id);
        }
        if has_id(merged(a, b), id) && !has_id(m, id) {
            let k = choose|k: int| 0 <= k < merged(a, b).len() && (#[trigger] merged(a, b)[k]).op.id == id;
            if k < m.len() {
                assert(m[k].op.id == id);
            }
            assert(honest(b[b.len() - 1]) && b[b.len() - 1].op.id == id);
        }
        if exists|i: int| 0 <= i < b.len() && honest(#[trigger] b[i]) && b[i].op.id == id {
            let i = choose|i: int| 0 <= i < b.len() && honest(#[trigger] b[i]) && b[i].op.id == id;
            if i < b0.len() {
                assert(honest(b0[i]) && b0[i].op.id == id);
            } else if !has_id(m, id) {
                assert(merged(a, b)[m.len() as int].op.id == id);
            }
        }
    }
}

/// Merging the same anchor again changes nothing.
pub proof fn merge_is_idempotent(a: Seq<StoredModel>, b: Seq<StoredModel>)
    ensures
        merged(merged(a, b), b) == merged(a, b),
{
    nothing_new(merged(a, b), a, b, b.len() as int);
    assert(b.take(b.len() as int) =~= b);
}

proof fn nothing_new(m: Seq<StoredModel>, a: Seq<StoredModel>, b: Seq<StoredModel>, n: int)
    requires
        m == merged(a, b),
        0 <= n <= b.len(),
    ensures
        merged(m, b.take(n)) == m,
    decreases n,
{
    if n > 0 {
        nothing_new(m, a, b, n - 1);
        assert(b.take(n).drop_last() =~= b.take(n - 1));
        assert(b.take(n).last() == b[n - 1]);
        if honest(b[n - 1]) {
            merge_unites_ids(a, b, b[n - 1].op.id);
            assert(has_id(m, b[n - 1].op.id));
        }
    } else {
        assert(b.take(0) =~= Seq::<StoredModel>::empty());
    }
}

/// After a merge an anchor still satisfies every watermark that it satisfied before.
pub proof fn merging_cannot_roll_back(a: Seq<StoredModel>, b: Seq<StoredModel>, floor: Seq<u8>)
    requires
        satisfies(a, floor),
    ensures
        satisfies(merged(a, b), floor),
{
    merge_keeps_local_ops(a, b);
    let m = merged(a, b);
    assert forall|i: int| 0 <= i < floor.len() / 32 implies holds(m, #[trigger] floor_id(floor, i)) by {
        assert(holds(a, floor_id(floor, i)));
        let k = choose|k: int| 0 <= k < a.len() && (#[trigger] a[k]).op.id@ == floor_id(floor, i);
        assert(m.take(a.len() as int)[k] == m[k]);
        assert(m[k].op.id@ == floor_id(floor, i));
    }
}

/// The out-of-band trust pin that a joining member binds to.
#[derive(Clone, Debug, PartialEq, Eq)]
pub struct DagPin {
    pub genesis_op_id: [u8; 32],
    pub reset_authority: Option<[u8; 32]>,
    pub watermark: Vec<u8>,
}

/// The recovery authority of a pin, behind a flag that tells whether there is one.
pub open spec fn flagged(reset_authority: Option<[u8; 32]>) -> Seq<u8> {
    match reset_authority {
        Some(k) => seq![1u8] + k@,
        None => seq![0u8],
    }
}

/// A pin's bytes: the genesis op id, the recovery authority behind its flag, and the watermark under its length.
pub open spec fn pin_bytes(genesis_op_id: Seq<u8>, reset_authority: Option<[u8; 32]>, watermark: Seq<u8>) -> Seq<u8> {
    genesis_op_id + flagged(reset_authority) + varint(watermark.len()) + watermark
}

/// The bytes start with a pin of these values. Its length may be written longer than need be.
pub open spec fn holds_pin(
    bytes: Seq<u8>,
    genesis_op_id: Seq<u8>,
    reset_authority: Option<[u8; 32]>,
    watermark: Seq<u8>,
) -> bool {
    let head = genesis_op_id + flagged(reset_authority);
    head.is_prefix_of(bytes) && match varint_read(bytes.skip(head.len() as int), 0) {
        Some((n, used)) => n == watermark.len() && watermark.is_prefix_of(bytes.skip((head.len() + used) as int)),
        None => false,
    }
}

/// Calls `postcard::to_allocvec` on the three values as a tuple, which cannot fail for them: an array goes out as its
/// bytes, an option behind a flag byte, a vector behind its length in base 128.
#[verifier::external_body]
fn pin_to_bytes(genesis_op_id: [u8; 32], reset_authority: Option<[u8; 32]>, watermark: &Vec<u8>) -> (r: Vec<u8>)
    ensures
        r@ == pin_bytes(genesis_op_id@, reset_authority, watermark@),
{
    postcard::to_allocvec(&(genesis_op_id, reset_authority, watermark)).unwrap_or_default()
}

/// Bytes that start as a pin is written give its values.
pub open spec fn reads_what_is_written(bytes: Seq<u8>, r: Result<([u8; 32], Option<[u8; 32]>, Vec<u8>), String>) -> bool {
    forall|g: [u8; 32], a: Option<[u8; 32]>, w: Seq<u8>| #[trigger]
        pin_bytes(g@, a, w).is_prefix_of(bytes) ==> (r matches Ok((x, y, z)) && x == g && y == a && z@ == w)
}

/// Calls `postcard::from_bytes` for the three values as a tuple. What it reads is at the front of the bytes, and what
/// `postcard::to_allocvec` writes is read back, whatever follows it. A length that is written longer than need be is read
/// or not by the width of a pointer, so nothing is said of that; nor of the words of the error.
#[verifier::external_body]
fn pin_from_bytes(bytes: &[u8]) -> (r: Result<([u8; 32], Option<[u8; 32]>, Vec<u8>), String>)
    ensures
        match r {
            Ok((g, a, w)) => holds_pin(bytes@, g@, a, w@),
            Err(_) => true,
        },
        reads_what_is_written(bytes@, r),
{
    postcard::from_bytes(bytes).map_err(|e: postcard::Error| e.to_string())
}

/// How bytes are read as a pin: what is read stands at their front, bytes that start as a pin is written are read, and
/// whatever is not read is malformed.
pub open spec fn pin_read(bytes: Seq<u8>, r: Result<DagPin, ClientError>) -> bool {
    &&& match r {
        Ok(pin) => holds_pin(bytes, pin.genesis_op_id@, pin.reset_authority, pin.watermark@),
        Err(e) => e is Malformed,
    }
    &&& forall|g: [u8; 32], a: Option<[u8; 32]>, w: Seq<u8>| #[trigger]
        pin_bytes(g@, a, w).is_prefix_of(bytes) ==> (r matches Ok(pin) && pin.genesis_op_id == g && pin.reset_authority == a
            && pin.watermark@ == w)
}

impl DagPin {
    /// The pin's bytes for the out-of-band channel.
    #[must_use]
    pub fn encode(&self) -> (r: Vec<u8>)
        ensures
            r@ == pin_bytes(self.genesis_op_id@, self.reset_authority, self.watermark@),
    {
        pin_to_bytes(self.genesis_op_id, self.reset_authority, &self.watermark)
    }

    /// Parses a pin. What is left unsaid: which lengths are read that are written longer than need be, and the words of
    /// the error.
    pub fn decode(bytes: &[u8]) -> (r: Result<DagPin, ClientError>)
        ensures
            pin_read(bytes@, r),
    {
        match pin_from_bytes(bytes) {
            Ok((genesis_op_id, reset_authority, watermark)) => Ok(DagPin { genesis_op_id, reset_authority, watermark }),
            Err(e) => Err(ClientError::Malformed(e)),
        }
    }
}

/// A pin that was written is read back, whatever follows it.
pub proof fn pins_read_back(pin: DagPin, rest: Seq<u8>, r: Result<DagPin, ClientError>)
    requires
        pin_read(pin_bytes(pin.genesis_op_id@, pin.reset_authority, pin.watermark@) + rest, r),
    ensures
        r matches Ok(back) && back.genesis_op_id == pin.genesis_op_id && back.reset_authority == pin.reset_authority
            && back.watermark@ == pin.watermark@,
{
    let written = pin_bytes(pin.genesis_op_id@, pin.reset_authority, pin.watermark@);
    assert(written.is_prefix_of(written + rest));
}

/// The pin of the current anchor.
pub fn anchor_pin(anchor: &DagAnchor) -> (r: DagPin)
    ensures
        r.genesis_op_id == anchor.genesis_op_id,
        r.reset_authority == anchor.reset_authority,
        r.watermark@ == flattened(frontier_of(anchor.closure())),
{
    DagPin {
        genesis_op_id: anchor.genesis_op_id,
        reset_authority: anchor.reset_authority,
        watermark: watermark(anchor),
    }
}

/// The parts of an op that are signed and addressed.
pub struct OpDraft {
    pub group_id: Vec<u8>,
    pub parents: Vec<[u8; 32]>,
    pub author: String,
    pub action: KeyringAction,
    pub sealing: Vec<u8>,
}

/// `draft` continues the anchor: it is bound to the anchor's tree and parented on its frontier.
pub open spec fn continues(draft: OpDraft, anchor: DagAnchor, author: Seq<char>, action: KeyringAction, sealing: Seq<u8>) -> bool {
    &&& draft.group_id@ == anchor.group_id@
    &&& draft.parents@ == frontier_of(anchor.closure())
    &&& draft.author@ == author
    &&& draft.action == action
    &&& draft.sealing@ == sealing
}

/// Only the closure grew, by `op`.
pub open spec fn appended(before: DagAnchor, after: DagAnchor, op: StoredOp) -> bool {
    &&& after.ops@ == before.ops@.push(op)
    &&& after.group_id == before.group_id
    &&& after.genesis == before.genesis
    &&& after.reset_authority == before.reset_authority
    &&& after.genesis_op_id == before.genesis_op_id
    &&& after.checkpoint == before.checkpoint
}

/// Appends an op with this action, parented on the frontier. `mint` signs and addresses the draft.
pub fn append<F: Fn(&OpDraft) -> StoredOp>(
    anchor: DagAnchor,
    author: &str,
    action: KeyringAction,
    sealing: Vec<u8>,
    mint: F,
) -> (r: DagAnchor)
    requires
        forall|d: OpDraft| mint.requires((&d,)),
    ensures
        exists|d: OpDraft, op: StoredOp| #[trigger]
            mint.ensures((&d,), op) && continues(d, anchor, author@, action, sealing@) && appended(anchor, r, op),
{
    let mut out: DagAnchor = anchor;
    let draft = OpDraft {
        group_id: copy_bytes(out.group_id.as_slice()),
        parents: frontier(&out.ops),
        author: author.to_owned(),
        action,
        sealing,
    };
    let op: StoredOp = mint(&draft);
    out.ops.push(op);
    assert(mint.ensures((&draft,), op) && continues(draft, anchor, author@, action, sealing@) && appended(anchor, out, op));
    out
}

/// The action that adds a member.
pub open spec fn adds(action: KeyringAction, member: KeyringMemberInit) -> bool {
    action matches KeyringAction::Add { member: id, role, author_public_key, hpke_public_key, member_proof } && id@ == member.id@
        && role == member.role && author_public_key == member.author_public_key && hpke_public_key == member.hpke_public_key
        && member_proof is None
}

/// Appends an op that adds `member`.
pub fn append_add<F: Fn(&OpDraft) -> StoredOp>(
    anchor: DagAnchor,
    author: &str,
    member: &KeyringMemberInit,
    sealing: Vec<u8>,
    mint: F,
) -> (r: DagAnchor)
    requires
        forall|d: OpDraft| mint.requires((&d,)),
    ensures
        exists|d: OpDraft, op: StoredOp| #[trigger]
            mint.ensures((&d,), op) && continues(d, anchor, author@, d.action, sealing@) && adds(d.action, *member)
                && appended(anchor, r, op),
{
    let action = KeyringAction::Add {
        member: member.id.clone(),
        role: member.role,
        author_public_key: member.author_public_key,
        hpke_public_key: member.hpke_public_key,
        member_proof: None,
    };
    append(anchor, author, action, sealing, mint)
}

/// Appends an op that removes `member_id`.
pub fn append_remove<F: Fn(&OpDraft) -> StoredOp>(
    anchor: DagAnchor,
    author: &str,
    member_id: &str,
    sealing: Vec<u8>,
    mint: F,
) -> (r: DagAnchor)
    requires
        forall|d: OpDraft| mint.requires((&d,)),
    ensures
        exists|d: OpDraft, op: StoredOp| #[trigger]
            mint.ensures((&d,), op) && continues(d, anchor, author@, d.action, sealing@) && (d.action matches KeyringAction::Remove {
                member,
            } && member@ == member_id@) && appended(anchor, r, op),
{
    append(anchor, author, KeyringAction::Remove { member: member_id.to_owned() }, sealing, mint)
}

/// Appends an op that sets a member's role; it carries no sealing.
pub fn append_change_role<F: Fn(&OpDraft) -> StoredOp>(
    anchor: DagAnchor,
    author: &str,
    member_id: &str,
    new_role: KeyringRole,
    mint: F,
) -> (r: DagAnchor)
    requires
        forall|d: OpDraft| mint.requires((&d,)),
    ensures
        exists|d: OpDraft, op: StoredOp| #[trigger]
            mint.ensures((&d,), op) && continues(d, anchor, author@, d.action, Seq::<u8>::empty()) && (d.action matches KeyringAction::ChangeRole {
                member,
                new_role: role,
            } && member@ == member_id@ && role == new_role) && appended(anchor, r, op),
{
    append(anchor, author, KeyringAction::ChangeRole { member: member_id.to_owned(), new_role }, Vec::new(), mint)
}

/// Appends an op that retargets the owner to new keys.
pub fn append_refound<F: Fn(&OpDraft) -> StoredOp>(
    anchor: DagAnchor,
    owner_id: &str,
    new_author_public_key: [u8; 32],
    new_hpke_public_key: [u8; 32],
    era: u64,
    sealing: Vec<u8>,
    mint: F,
) -> (r: DagAnchor)
    requires
        forall|d: OpDraft| mint.requires((&d,)),
    ensures
        exists|d: OpDraft, op: StoredOp| #[trigger]
            mint.ensures((&d,), op) && continues(d, anchor, owner_id@, d.action, sealing@) && (d.action matches KeyringAction::ReFound {
                member,
                new_author_public_key: a,
                new_hpke_public_key: h,
                era: e,
            } && member@ == owner_id@ && a == new_author_public_key && h == new_hpke_public_key && e == era) && appended(
                anchor,
                r,
                op,
            ),
{
    let action = KeyringAction::ReFound { member: owner_id.to_owned(), new_author_public_key, new_hpke_public_key, era };
    append(anchor, owner_id, action, sealing, mint)
}

/// Appends an op by which a member rotates their own keys.
pub fn append_retarget<F: Fn(&OpDraft) -> StoredOp>(
    anchor: DagAnchor,
    member_id: &str,
    new_author_public_key: [u8; 32],
    new_hpke_public_key: [u8; 32],
    sealing: Vec<u8>,
    mint: F,
) -> (r: DagAnchor)
    requires
        forall|d: OpDraft| mint.requires((&d,)),
    ensures
        exists|d: OpDraft, op: StoredOp| #[trigger]
            mint.ensures((&d,), op) && continues(d, anchor, member_id@, d.action, sealing@) && (d.action matches KeyringAction::Retarget {
                member,
                new_author_public_key: a,
                new_hpke_public_key: h,
            } && member@ == member_id@ && a == new_author_public_key && h == new_hpke_public_key) && appended(anchor, r, op),
{
    let action = KeyringAction::Retarget { member: member_id.to_owned(), new_author_public_key, new_hpke_public_key };
    append(anchor, member_id, action, sealing, mint)
}

/// Appends a forward-secrecy repair, which changes no membership.
pub fn append_reseal<F: Fn(&OpDraft) -> StoredOp>(anchor: DagAnchor, member_id: &str, sealing: Vec<u8>, mint: F) -> (r: DagAnchor)
    requires
        forall|d: OpDraft| mint.requires((&d,)),
    ensures
        exists|d: OpDraft, op: StoredOp| #[trigger]
            mint.ensures((&d,), op) && continues(d, anchor, member_id@, KeyringAction::Reseal, sealing@) && appended(
                anchor,
                r,
                op,
            ),
{
    append(anchor, member_id, KeyringAction::Reseal, sealing, mint)
}

/// Appends a repair that lets members read older epochs; the action is that of a reseal.
pub fn append_backfill<F: Fn(&OpDraft) -> StoredOp>(anchor: DagAnchor, member_id: &str, sealing: Vec<u8>, mint: F) -> (r: DagAnchor)
    requires
        forall|d: OpDraft| mint.requires((&d,)),
    ensures
        exists|d: OpDraft, op: StoredOp| #[trigger]
            mint.ensures((&d,), op) && continues(d, anchor, member_id@, KeyringAction::Reseal, sealing@) && appended(
                anchor,
                r,
                op,
            ),
{
    append(anchor, member_id, KeyringAction::Reseal, sealing, mint)
}

/// Appends an op that rotates the recovery authority.
pub fn append_rotate_recovery<F: Fn(&OpDraft) -> StoredOp>(
    anchor: DagAnchor,
    owner_id: &str,
    new_reset_authority: [u8; 32],
    sealing: Vec<u8>,
    mint: F,
) -> (r: DagAnchor)
    requires
        forall|d: OpDraft| mint.requires((&d,)),
    ensures
        exists|d: OpDraft, op: StoredOp| #[trigger]
            mint.ensures((&d,), op) && continues(
                d,
                anchor,
                owner_id@,
                KeyringAction::RotateRecoveryAuthority { new_reset_authority },
                sealing@,
            ) && appended(anchor, r, op),
{
    append(anchor, owner_id, KeyringAction::RotateRecoveryAuthority { new_reset_authority }, sealing, mint)
}

/// A brand-new anchor: a founding op that names `founder_id` as the sole owner.
pub fn provision_anchor<F: Fn(&OpDraft) -> StoredOp>(
    tree_id: &[u8],
    founder_id: &str,
    author_public_key: [u8; 32],
    hpke_public_key: [u8; 32],
    reset_authority: Option<[u8; 32]>,
    sealing: Vec<u8>,
    mint: F,
) -> (r: DagAnchor)
    requires
        forall|d: OpDraft| mint.requires((&d,)),
    ensures
        exists|d: OpDraft, op: StoredOp| #[trigger]
            mint.ensures((&d,), op) && d.group_id@ == tree_id@ && d.parents@.len() == 0 && d.author@ == founder_id@
                && d.sealing@ == sealing@ && (d.action matches KeyringAction::Create { initial_members }
                && initial_members@.len() == 1 && initial_members@[0].id@ == founder_id@ && initial_members@[0].role.0
                == ROLE_OWNER && initial_members@[0].author_public_key == author_public_key && initial_members@[0].hpke_public_key
                == hpke_public_key && r.genesis@.len() == 1 && r.genesis@[0].model() == initial_members@[0].model()) && r.ops@
                == seq![op] && r.genesis_op_id == op.op.id,
        r.group_id@ == tree_id@,
        r.reset_authority == reset_authority,
        r.checkpoint is None,
{
    let founder = KeyringMemberInit {
        id: founder_id.to_owned(),
        role: KeyringRole(ROLE_OWNER),
        author_public_key,
        hpke_public_key,
    };
    let mut genesis: Vec<MemberInitDto> = Vec::new();
    genesis.push(minit_to_dto(&founder));
    let mut initial_members: Vec<KeyringMemberInit> = Vec::new();
    initial_members.push(founder);
    let draft = OpDraft {
        group_id: copy_bytes(tree_id),
        parents: Vec::new(),
        author: founder_id.to_owned(),
        action: KeyringAction::Create { initial_members },
        sealing,
    };
    let op: StoredOp = mint(&draft);
    let genesis_op_id: [u8; 32] = op.op.id;
    let mut ops: Vec<StoredOp> = Vec::new();
    ops.push(op);
    assert(mint.ensures((&draft,), op) && ops@ =~= seq![op]);
    DagAnchor {
        group_id: copy_bytes(tree_id),
        genesis,
        reset_authority,
        genesis_op_id,
        ops,
        checkpoint: None,
    }
}

} // verus!
