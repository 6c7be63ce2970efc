//! What the ops of a closure amount to: its tips, its sealing, and who was ever a member.

use vstd::prelude::*;

use crate::keyring_api::{member_models, MemberView};
use crate::keyring_dag::access::KeyringAction;
use crate::keyring_dag::anchor::{
    append, appended, continues, flattened_len, floor_id_of_flattened, frontier, has_id, honest, ids, is_parent, merged,
    stored_models, watermark, ClientError, DagAnchor, OpDraft, StoredModel, StoredOp,
};
use crate::keyring_dag::checkpoint::{sealing_models, SealingModel, SealingOrigin};
use crate::keyring_dag::codec::{ActionModel, InitModel, OpModel};
use crate::keyring_dag::resolve::{
    action_notes, collect_ever_members, effective_notes, effective_sealing, genesis_sealing, init_notes, key_models, keys_noted, noted,
    op_notes, op_sealing, op_with, records, resolve_run, role_noted, view_notes, EngineRun, EverMap, Note, Resolved,
};
use crate::sorting::{sorting_exists, sorting_keeps_values};

verus! {

/// The tips of a closure are the ids of its ops that no op of it has as a parent, in ascending order.
pub proof fn what_the_tips_are(ops: Vec<StoredOp>, r: Vec<[u8; 32]>, id: [u8; 32])
    requires
        call_ensures(frontier, (&ops,), r),
    ensures
        r@.contains(id) <==> (exists|i: int| 0 <= i < ops@.len() && (#[trigger] ops@[i]).op.id == id) && forall|i: int|
            0 <= i < ops@.len() ==> !(#[trigger] ops@[i]).op.parents@.contains(id),
        forall|i: int, j: int| #![trigger r@[i], r@[j]]
            0 <= i < j < r@.len() ==> !crate::order::bytes_before(r@[j]@, r@[i]@),
{
    let models = stored_models(ops@);
    let p = |id: [u8; 32]| !is_parent(models, id);
    let tips = ids(models).filter(p);
    sorting_exists(tips);
    sorting_keeps_values(tips, r@);
    if r@.contains(id) {
        assert(tips.contains(id));
        ids(models).lemma_filter_contains_rev(p, id);
        let k = choose|k: int| 0 <= k < ids(models).len() && ids(models)[k] == id;
        assert(ops@[k].op.id == id);
        let at = choose|at: int| 0 <= at < tips.len() && tips[at] == id;
        filter_passes(ids(models), p, at);
        assert forall|i: int| 0 <= i < ops@.len() implies !(#[trigger] ops@[i]).op.parents@.contains(id) by {
            if ops@[i].op.parents@.contains(id) {
                assert(models[i].op.parents.contains(id));
            }
        }
    }
    if (exists|i: int| 0 <= i < ops@.len() && (#[trigger] ops@[i]).op.id == id) && forall|i: int|
        0 <= i < ops@.len() ==> !(#[trigger] ops@[i]).op.parents@.contains(id) {
        let i = choose|i: int| 0 <= i < ops@.len() && (#[trigger] ops@[i]).op.id == id;
        assert(ids(models)[i] == id);
        if is_parent(models, id) {
            let k = choose|k: int| 0 <= k < models.len() && (#[trigger] models[k]).op.parents.contains(id);
            assert(ops@[k].op.parents@.contains(id));
        }
        ids(models).lemma_filter_contains(p, i);
    }
    assert forall|i: int, j: int| #![trigger r@[i], r@[j]] 0 <= i < j < r@.len() implies !crate::order::bytes_before(
        r@[j]@,
        r@[i]@,
    ) by {
        assert(!crate::sorting::key_before(r@[j], r@[i]));
    }
}

proof fn filter_passes<A>(s: Seq<A>, p: spec_fn(A) -> bool, at: int)
    requires
        0 <= at < s.filter(p).len(),
    ensures
        p(s.filter(p)[at]),
    decreases s.len(),
{
    reveal(Seq::filter);
    if s.len() > 0 {
        if at < s.drop_last().filter(p).len() {
            filter_passes(s.drop_last(), p, at);
        }
    }
}

/// An anchor's watermark is its tips, one after the other.
pub proof fn what_a_watermark_is(anchor: DagAnchor, w: Vec<u8>, tips: Vec<[u8; 32]>, i: int)
    requires
        call_ensures(watermark, (&anchor,), w),
        call_ensures(frontier, (&anchor.ops,), tips),
    ensures
        w@.len() == 32 * tips@.len(),
        0 <= i < tips@.len() ==> w@.subrange(32 * i, 32 * i + 32) == tips@[i]@,
{
    flattened_len(tips@);
    if 0 <= i < tips@.len() {
        floor_id_of_flattened(tips@, i);
    }
}

/// An op that is appended is minted of a draft for the anchor's tree, on the anchor's tips, by its author, with its action
/// and its sealing; and the anchor gains it at its end, and nothing else.
pub proof fn what_appending_leaves<F: Fn(&OpDraft) -> StoredOp>(
    anchor: DagAnchor,
    author: &str,
    action: KeyringAction,
    sealing: Vec<u8>,
    mint: F,
    r: DagAnchor,
    tips: Vec<[u8; 32]>,
)
    requires
        call_ensures(append::<F>, (anchor, author, action, sealing, mint), r),
        call_ensures(frontier, (&anchor.ops,), tips),
    ensures
        r.ops@.len() == anchor.ops@.len() + 1,
        forall|i: int| 0 <= i < anchor.ops@.len() ==> #[trigger] r.ops@[i] == anchor.ops@[i],
        exists|d: OpDraft| #[trigger]
            mint.ensures((&d,), r.ops@[anchor.ops@.len() as int]) && d.group_id@ == anchor.group_id@ && d.parents@ == tips@
                && d.author@ == author@ && d.action == action && d.sealing@ == sealing@,
        r.group_id == anchor.group_id,
        r.genesis == anchor.genesis,
        r.reset_authority == anchor.reset_authority,
        r.genesis_op_id == anchor.genesis_op_id,
        r.checkpoint == anchor.checkpoint,
{
    let (d, op) = choose|d: OpDraft, op: StoredOp| #[trigger]
        mint.ensures((&d,), op) && continues(d, anchor, author@, action, sealing@) && appended(anchor, r, op);
    assert(r.ops@[anchor.ops@.len() as int] == op);
}

/// The ops that a merge takes over from the other anchor are honest ones of it, each the first of them with its id, with
/// ids that the local anchor has not; they stand after the local ops.
pub proof fn what_a_merge_takes_over(a: Seq<StoredModel>, b: Seq<StoredModel>, k: int)
    requires
        a.len() <= k < merged(a, b).len(),
    ensures
        !has_id(a, merged(a, b)[k].op.id),
        exists|j: int|
            0 <= j < b.len() && #[trigger] b[j] == merged(a, b)[k] && b[j].content_id == b[j].op.id && forall|i: int|
                0 <= i < j && (#[trigger] b[i]).op.id == b[j].op.id ==> b[i].content_id != b[i].op.id,
    decreases b.len(),
{
    crate::keyring_dag::anchor::merge_keeps_local_ops(a, b);
    if b.len() > 0 {
        let b0 = b.drop_last();
        let m = merged(a, b0);
        let n = b.len() - 1;
        crate::keyring_dag::anchor::merge_keeps_local_ops(a, b0);
        if k < m.len() {
            what_a_merge_takes_over(a, b0, k);
            assert(merged(a, b)[k] == m[k]);
            let j = choose|j: int|
                0 <= j < b0.len() && #[trigger] b0[j] == m[k] && b0[j].content_id == b0[j].op.id && forall|i: int|
                    0 <= i < j && (#[trigger] b0[i]).op.id == b0[j].op.id ==> b0[i].content_id != b0[i].op.id;
            assert(b[j] == m[k]);
            assert forall|i: int| 0 <= i < j && (#[trigger] b[i]).op.id == b[j].op.id implies b[i].content_id != b[i].op.id by {
                assert(b0[i] == b[i]);
            }
        } else {
            let x = b[n];
            assert(merged(a, b)[k] == x);
            crate::keyring_dag::anchor::merge_unites_ids(a, b0, x.op.id);
            assert forall|i: int| 0 <= i < n && (#[trigger] b[i]).op.id == b[n].op.id implies b[i].content_id != b[i].op.id by {
                assert(b0[i] == b[i]);
                if b[i].content_id == b[i].op.id {
                    assert(honest(b0[i]));
                }
            }
            assert(b[n] == merged(a, b)[k]);
        }
    }
}

/// The last op with this id stands at `i`.
pub open spec fn last_op(ops: Seq<StoredModel>, id: [u8; 32], i: int) -> bool {
    0 <= i < ops.len() && ops[i].op.id == id && forall|j: int| i < j < ops.len() ==> (#[trigger] ops[j]).op.id != id
}

proof fn the_last_is_found(ops: Seq<StoredModel>, id: [u8; 32])
    ensures
        match op_with(ops, id) {
            Some(op) => exists|i: int| #[trigger] last_op(ops, id, i) && ops[i].op == op,
            None => forall|i: int| !#[trigger] last_op(ops, id, i),
        },
        forall|i: int| #[trigger] last_op(ops, id, i) ==> op_with(ops, id) == Some(ops[i].op),
    decreases ops.len(),
{
    if ops.len() > 0 {
        let t = ops.drop_last();
        let n = ops.len() - 1;
        the_last_is_found(t, id);
        if ops[n].op.id == id {
            assert(last_op(ops, id, n));
            assert forall|i: int| #[trigger] last_op(ops, id, i) implies i == n by {
                if i < n {
                    assert(ops[n].op.id != id);
                }
            }
        } else {
            assert forall|i: int| #[trigger] last_op(ops, id, i) <==> last_op(t, id, i) by {
                if last_op(t, id, i) {
                    assert forall|j: int| i < j < ops.len() implies (#[trigger] ops[j]).op.id != id by {
                        if j < n {
                            assert(t[j].op.id != id);
                        }
                    }
                }
                if last_op(ops, id, i) {
                    assert forall|j: int| i < j < t.len() implies (#[trigger] t[j]).op.id != id by {
                        assert(ops[j].op.id != id);
                    }
                }
            }
            if op_with(t, id) is Some {
                let i = choose|i: int| #[trigger] last_op(t, id, i) && t[i].op == op_with(t, id)->0;
                assert(last_op(ops, id, i));
            }
        }
    }
}

/// The op with this id carries sealing, and is not the genesis op.
pub open spec fn seals(ops: Seq<StoredModel>, genesis: [u8; 32], id: [u8; 32]) -> bool {
    id != genesis && exists|i: int| #[trigger] last_op(ops, id, i) && ops[i].op.sealing.len() > 0
}

/// The entry is the op's sealing: under its id, by its author, with its bytes, and told apart by what the op does.
pub open spec fn is_sealing_of(e: SealingModel, op: OpModel) -> bool {
    &&& e.op_id == op.id
    &&& e.author == op.author
    &&& e.bytes == op.sealing
    &&& e.origin == (if op.action is Remove {
        SealingOrigin::Remove
    } else if op.action is Reseal {
        SealingOrigin::Reseal
    } else {
        SealingOrigin::Other
    })
}

proof fn sealing_is_filtered(ops: Seq<StoredModel>, genesis: [u8; 32], effective: Seq<[u8; 32]>)
    ensures
        ({
            let got = effective_sealing(ops, genesis, effective);
            let kept = effective.filter(|id: [u8; 32]| seals(ops, genesis, id));
            &&& got.len() == kept.len()
            &&& forall|k: int, i: int|
                0 <= k < got.len() && #[trigger] last_op(ops, kept[k], i) ==> is_sealing_of(#[trigger] got[k], ops[i].op)
        }),
    decreases effective.len(),
{
    let p = |id: [u8; 32]| seals(ops, genesis, id);
    reveal(Seq::filter);
    if effective.len() > 0 {
        let e0 = effective.drop_last();
        let id = effective.last();
        sealing_is_filtered(ops, genesis, e0);
        let before = effective_sealing(ops, genesis, e0);
        let got = effective_sealing(ops, genesis, effective);
        let kept0 = e0.filter(p);
        let kept = effective.filter(p);
        the_last_is_found(ops, id);
        if seals(ops, genesis, id) {
            let i = choose|i: int| #[trigger] last_op(ops, id, i) && ops[i].op.sealing.len() > 0;
            assert(op_sealing(ops, genesis, id) is Some);
            assert(kept =~= kept0.push(id));
        } else {
            assert(op_sealing(ops, genesis, id) is None) by {
                if op_sealing(ops, genesis, id) is Some {
                    let i = choose|i: int| #[trigger] last_op(ops, id, i) && ops[i].op == op_with(ops, id)->0;
                    assert(seals(ops, genesis, id));
                }
            }
            assert(kept =~= kept0);
        }
        assert forall|k: int, i: int| 0 <= k < got.len() && #[trigger] last_op(ops, kept[k], i) implies is_sealing_of(
            #[trigger] got[k],
            ops[i].op,
        ) by {
            if k < before.len() {
                assert(got[k] == before[k]);
                assert(kept[k] == kept0[k]);
                assert(last_op(ops, kept0[k], i));
            } else {
                assert(op_with(ops, id) == Some(ops[i].op));
            }
        }
    }
}

/// The sealing that a resolved anchor gathers is that of the effective ops that carry any, in their order, each with its
/// op's id, author, bytes and kind; before it, where the anchor stands on its genesis, the genesis op's, if it carries any.
pub proof fn which_sealing_is_gathered(anchor: DagAnchor, run: EngineRun, v: Resolved)
    requires
        call_ensures(resolve_run, (&anchor, &run), Ok::<Resolved, ClientError>(v)),
    ensures
        ({
            let ops = anchor.closure();
            let genesis = anchor.genesis_op_id;
            let kept = run.effective@.filter(|id: [u8; 32]| seals(ops, genesis, id));
            let got = sealing_models(v.sealing@);
            let led = anchor.checkpoint is None && exists|i: int| #[trigger] last_op(ops, genesis, i) && ops[i].op.sealing.len() > 0;
            let head: int = if led {
                1
            } else {
                0
            };
            &&& got.len() == head + kept.len()
            &&& forall|k: int, i: int|
                0 <= k < kept.len() && #[trigger] last_op(ops, kept[k], i) ==> is_sealing_of(#[trigger] got[head + k], ops[i].op)
            &&& led ==> got[0].op_id == genesis && got[0].origin == SealingOrigin::Genesis && forall|i: int| #[trigger]
                last_op(ops, genesis, i) ==> got[0].author == ops[i].op.author && got[0].bytes == ops[i].op.sealing
        }),
{
    let ops = anchor.closure();
    let genesis = anchor.genesis_op_id;
    sealing_is_filtered(ops, genesis, run.effective@);
    the_last_is_found(ops, genesis);
    let tail = effective_sealing(ops, genesis, run.effective@);
    let first = if anchor.checkpoint is None {
        genesis_sealing(ops, genesis)
    } else {
        Seq::empty()
    };
    let got = sealing_models(v.sealing@);
    assert(got == first + tail);
    let kept = run.effective@.filter(|id: [u8; 32]| seals(ops, genesis, id));
    assert forall|k: int, i: int| 0 <= k < kept.len() && #[trigger] last_op(ops, kept[k], i) implies is_sealing_of(
        #[trigger] got[first.len() + k],
        ops[i].op,
    ) by {
        assert(got[first.len() + k] == tail[k]);
    }
}

/// The note is among these.
spec fn holds_note(notes: Seq<Note>, n: Note) -> bool {
    exists|k: int| 0 <= k < notes.len() && #[trigger] notes[k] == n
}

proof fn a_push_holds(notes: Seq<Note>, x: Note, n: Note)
    ensures
        holds_note(notes.push(x), n) <==> holds_note(notes, n) || x == n,
{
    if holds_note(notes, n) {
        let k = choose|k: int| 0 <= k < notes.len() && #[trigger] notes[k] == n;
        assert(notes.push(x)[k] == n);
    }
    assert(notes.push(x)[notes.len() as int] == x);
    if holds_note(notes.push(x), n) && x != n {
        let k = choose|k: int| 0 <= k < notes.push(x).len() && #[trigger] notes.push(x)[k] == n;
        assert(notes[k] == n);
    }
}

proof fn a_sum_holds(a: Seq<Note>, b: Seq<Note>, n: Note)
    ensures
        holds_note(a + b, n) <==> holds_note(a, n) || holds_note(b, n),
{
    let c = a + b;
    if holds_note(a, n) {
        let k = choose|k: int| 0 <= k < a.len() && #[trigger] a[k] == n;
        assert(c[k] == n);
    }
    if holds_note(b, n) {
        let k = choose|k: int| 0 <= k < b.len() && #[trigger] b[k] == n;
        assert(c[a.len() + k] == n);
    }
    if holds_note(c, n) {
        let k = choose|k: int| 0 <= k < c.len() && #[trigger] c[k] == n;
        if k < a.len() {
            assert(a[k] == n);
        } else {
            assert(b[k - a.len()] == n);
        }
    }
}

proof fn notes_say(notes: Seq<Note>, id: Seq<char>)
    ensures
        noted(notes, id) <==> (exists|key: Seq<u8>| holds_note(notes, Note::Key(id, key))) || exists|role: i16|
            holds_note(notes, Note::Role(id, role)),
        forall|key: Seq<u8>| #[trigger] keys_noted(notes, id).contains(key) <==> holds_note(notes, Note::Key(id, key)),
        keys_noted(notes, id).no_duplicates(),
        forall|role: i16| #[trigger] holds_note(notes, Note::Role(id, role)) ==> role_noted(notes, id) <= role,
        role_noted(notes, id) == i16::MAX || holds_note(notes, Note::Role(id, role_noted(notes, id))),
    decreases notes.len(),
{
    if notes.len() > 0 {
        let t = notes.drop_last();
        let x = notes.last();
        notes_say(t, id);
        assert(notes =~= t.push(x));
        assert forall|n: Note| #[trigger] holds_note(notes, n) <==> holds_note(t, n) || x == n by {
            a_push_holds(t, x, n);
        }
        assert forall|key: Seq<u8>| #[trigger] keys_noted(notes, id).contains(key) <==> holds_note(notes, Note::Key(id, key)) by {
            let before = keys_noted(t, id);
            let now = keys_noted(notes, id);
            assert(before.contains(key) <==> holds_note(t, Note::Key(id, key)));
            match x {
                Note::Key(m, k) => {
                    if m == id && !before.contains(k) {
                        assert(now == before.push(k));
                        assert(now[before.len() as int] == k);
                        if before.contains(key) {
                            let j = choose|j: int| 0 <= j < before.len() && before[j] == key;
                            assert(now[j] == key);
                        }
                        if now.contains(key) && key != k {
                            let j = choose|j: int| 0 <= j < now.len() && now[j] == key;
                            assert(before[j] == key);
                        }
                    } else if m == id {
                        assert(holds_note(t, Note::Key(id, k)));
                    }
                },
                _ => {},
            }
        }
        assert(keys_noted(notes, id).no_duplicates()) by {
            let before = keys_noted(t, id);
            let now = keys_noted(notes, id);
            assert forall|i: int, j: int| 0 <= i < now.len() && 0 <= j < now.len() && i != j implies now[i] != now[j] by {
                if i < before.len() && j < before.len() {
                    assert(now[i] == before[i] && now[j] == before[j]);
                } else if i < before.len() {
                    assert(before.contains(before[i]));
                } else if j < before.len() {
                    assert(before.contains(before[j]));
                }
            }
        }
        if noted(notes, id) {
            if crate::keyring_dag::resolve::about(x, id) {
                match x {
                    Note::Key(m, k) => {
                        assert(holds_note(notes, Note::Key(id, k)));
                    },
                    Note::Role(m, role) => {
                        assert(holds_note(notes, Note::Role(id, role)));
                    },
                }
            } else if exists|key: Seq<u8>| holds_note(t, Note::Key(id, key)) {
                let key = choose|key: Seq<u8>| holds_note(t, Note::Key(id, key));
                assert(holds_note(notes, Note::Key(id, key)));
            } else {
                let role = choose|role: i16| holds_note(t, Note::Role(id, role));
                assert(holds_note(notes, Note::Role(id, role)));
            }
        }
        if exists|key: Seq<u8>| holds_note(notes, Note::Key(id, key)) {
            let key = choose|key: Seq<u8>| holds_note(notes, Note::Key(id, key));
            if holds_note(t, Note::Key(id, key)) {
            }
        }
        if exists|role: i16| holds_note(notes, Note::Role(id, role)) {
            let role = choose|role: i16| holds_note(notes, Note::Role(id, role));
            if holds_note(t, Note::Role(id, role)) {
            }
        }
    }
}

/// The view shows this member with this author key.
pub open spec fn shows_key(members: Seq<MemberView>, id: Seq<char>, key: Seq<u8>) -> bool {
    exists|i: int| 0 <= i < members.len() && (#[trigger] members[i]).member_id@ == id && members[i].author_public_key@ == key
}

/// The view shows this member in this role.
pub open spec fn shows_role(members: Seq<MemberView>, id: Seq<char>, role: i16) -> bool {
    exists|i: int| 0 <= i < members.len() && (#[trigger] members[i]).member_id@ == id && members[i].role == role
}

/// The action gives this member this author key: it founds the group with it, adds them with it, or re-keys them with it.
pub open spec fn gives_key(a: ActionModel, id: Seq<char>, key: Seq<u8>) -> bool {
    match a {
        ActionModel::Create { initial_members } => exists|i: int|
            0 <= i < initial_members.len() && (#[trigger] initial_members[i]).id == id && initial_members[i].author_public_key@ == key,
        ActionModel::Add { member, author_public_key, .. } => member == id && author_public_key@ == key,
        ActionModel::ReFound { member, new_author_public_key, .. } => member == id && new_author_public_key@ == key,
        ActionModel::Retarget { member, new_author_public_key, .. } => member == id && new_author_public_key@ == key,
        _ => false,
    }
}

/// The action gives this member this role: it founds the group with it, adds them in it, or re-roles them to it.
pub open spec fn gives_role(a: ActionModel, id: Seq<char>, role: i16) -> bool {
    match a {
        ActionModel::Create { initial_members } => exists|i: int|
            0 <= i < initial_members.len() && (#[trigger] initial_members[i]).id == id && initial_members[i].role.0 == role,
        ActionModel::Add { member, role: r, .. } => member == id && r.0 == role,
        ActionModel::ChangeRole { member, new_role } => member == id && new_role.0 == role,
        _ => false,
    }
}

proof fn view_notes_hold(s: Seq<MemberView>, id: Seq<char>, key: Seq<u8>, role: i16)
    ensures
        holds_note(view_notes(member_models(s)), Note::Key(id, key)) <==> shows_key(s, id, key),
        holds_note(view_notes(member_models(s)), Note::Role(id, role)) <==> shows_role(s, id, role),
    decreases s.len(),
{
    if s.len() > 0 {
        let t = s.drop_last();
        let n = s.len() - 1;
        let m = s[n];
        view_notes_hold(t, id, key, role);
        assert(member_models(s).drop_last() =~= member_models(t));
        let before = view_notes(member_models(t));
        let (k, r) = (Note::Key(m.member_id@, m.author_public_key@), Note::Role(m.member_id@, m.role));
        assert(view_notes(member_models(s)) == before.push(k).push(r));
        a_push_holds(before, k, Note::Key(id, key));
        a_push_holds(before.push(k), r, Note::Key(id, key));
        a_push_holds(before, k, Note::Role(id, role));
        a_push_holds(before.push(k), r, Note::Role(id, role));
        if shows_key(t, id, key) {
            let i = choose|i: int| 0 <= i < t.len() && (#[trigger] t[i]).member_id@ == id && t[i].author_public_key@ == key;
            assert(s[i] == t[i]);
        }
        if shows_role(t, id, role) {
            let i = choose|i: int| 0 <= i < t.len() && (#[trigger] t[i]).member_id@ == id && t[i].role == role;
            assert(s[i] == t[i]);
        }
        if shows_key(s, id, key) {
            let i = choose|i: int| 0 <= i < s.len() && (#[trigger] s[i]).member_id@ == id && s[i].author_public_key@ == key;
            if i < n {
                assert(t[i] == s[i]);
            }
        }
        if shows_role(s, id, role) {
            let i = choose|i: int| 0 <= i < s.len() && (#[trigger] s[i]).member_id@ == id && s[i].role == role;
            if i < n {
                assert(t[i] == s[i]);
            }
        }
    }
}

proof fn init_notes_hold(s: Seq<InitModel>, id: Seq<char>, key: Seq<u8>, role: i16)
    ensures
        holds_note(init_notes(s), Note::Key(id, key)) <==> exists|i: int|
            0 <= i < s.len() && (#[trigger] s[i]).id == id && s[i].author_public_key@ == key,
        holds_note(init_notes(s), Note::Role(id, role)) <==> exists|i: int|
            0 <= i < s.len() && (#[trigger] s[i]).id == id && s[i].role.0 == role,
    decreases s.len(),
{
    if s.len() > 0 {
        let t = s.drop_last();
        let n = s.len() - 1;
        let m = s[n];
        init_notes_hold(t, id, key, role);
        let before = init_notes(t);
        let (k, r) = (Note::Key(m.id, m.author_public_key@), Note::Role(m.id, m.role.0));
        a_push_holds(before, k, Note::Key(id, key));
        a_push_holds(before.push(k), r, Note::Key(id, key));
        a_push_holds(before, k, Note::Role(id, role));
        a_push_holds(before.push(k), r, Note::Role(id, role));
        if exists|i: int| 0 <= i < t.len() && (#[trigger] t[i]).id == id && t[i].author_public_key@ == key {
            let i = choose|i: int| 0 <= i < t.len() && (#[trigger] t[i]).id == id && t[i].author_public_key@ == key;
            assert(s[i] == t[i]);
        }
        if exists|i: int| 0 <= i < t.len() && (#[trigger] t[i]).id == id && t[i].role.0 == role {
            let i = choose|i: int| 0 <= i < t.len() && (#[trigger] t[i]).id == id && t[i].role.0 == role;
            assert(s[i] == t[i]);
        }
        if exists|i: int| 0 <= i < s.len() && (#[trigger] s[i]).id == id && s[i].author_public_key@ == key {
            let i = choose|i: int| 0 <= i < s.len() && (#[trigger] s[i]).id == id && s[i].author_public_key@ == key;
            if i < n {
                assert(t[i] == s[i]);
            }
        }
        if exists|i: int| 0 <= i < s.len() && (#[trigger] s[i]).id == id && s[i].role.0 == role {
            let i = choose|i: int| 0 <= i < s.len() && (#[trigger] s[i]).id == id && s[i].role.0 == role;
            if i < n {
                assert(t[i] == s[i]);
            }
        }
    }
}

proof fn action_notes_hold(a: ActionModel, id: Seq<char>, key: Seq<u8>, role: i16)
    ensures
        holds_note(action_notes(a), Note::Key(id, key)) <==> gives_key(a, id, key),
        holds_note(action_notes(a), Note::Role(id, role)) <==> gives_role(a, id, role),
{
    let notes = action_notes(a);
    match a {
        ActionModel::Create { initial_members } => {
            init_notes_hold(initial_members, id, key, role);
        },
        ActionModel::Add { .. } => {
            assert(notes.len() == 2);
            if gives_key(a, id, key) {
                assert(notes[0] == Note::Key(id, key));
            }
            if gives_role(a, id, role) {
                assert(notes[1] == Note::Role(id, role));
            }
        },
        ActionModel::ChangeRole { .. } => {
            if gives_role(a, id, role) {
                assert(notes[0] == Note::Role(id, role));
            }
        },
        ActionModel::ReFound { .. } => {
            if gives_key(a, id, key) {
                assert(notes[0] == Note::Key(id, key));
            }
        },
        ActionModel::Retarget { .. } => {
            if gives_key(a, id, key) {
                assert(notes[0] == Note::Key(id, key));
            }
        },
        _ => {},
    }
}

/// An op that took effect gives this member this key.
pub open spec fn key_given(ops: Seq<StoredModel>, effective: Seq<[u8; 32]>, id: Seq<char>, key: Seq<u8>) -> bool {
    exists|k: int, i: int|
        0 <= k < effective.len() && #[trigger] last_op(ops, effective[k], i) && gives_key(ops[i].op.action, id, key)
}

/// An op that took effect gives this member this role.
pub open spec fn role_given(ops: Seq<StoredModel>, effective: Seq<[u8; 32]>, id: Seq<char>, role: i16) -> bool {
    exists|k: int, i: int|
        0 <= k < effective.len() && #[trigger] last_op(ops, effective[k], i) && gives_role(ops[i].op.action, id, role)
}

proof fn effective_notes_hold(ops: Seq<StoredModel>, effective: Seq<[u8; 32]>, id: Seq<char>, key: Seq<u8>, role: i16)
    ensures
        holds_note(effective_notes(ops, effective), Note::Key(id, key)) <==> key_given(ops, effective, id, key),
        holds_note(effective_notes(ops, effective), Note::Role(id, role)) <==> role_given(ops, effective, id, role),
    decreases effective.len(),
{
    if effective.len() > 0 {
        let e0 = effective.drop_last();
        let n = effective.len() - 1;
        let x = effective[n];
        effective_notes_hold(ops, e0, id, key, role);
        let own = op_notes(ops, x);
        a_sum_holds(effective_notes(ops, e0), own, Note::Key(id, key));
        a_sum_holds(effective_notes(ops, e0), own, Note::Role(id, role));
        the_last_is_found(ops, x);
        if let Some(op) = op_with(ops, x) {
            action_notes_hold(op.action, id, key, role);
        }
        if key_given(ops, e0, id, key) {
            let (k, i) = choose|k: int, i: int|
                0 <= k < e0.len() && #[trigger] last_op(ops, e0[k], i) && gives_key(ops[i].op.action, id, key);
            assert(last_op(ops, effective[k], i));
        }
        if role_given(ops, e0, id, role) {
            let (k, i) = choose|k: int, i: int|
                0 <= k < e0.len() && #[trigger] last_op(ops, e0[k], i) && gives_role(ops[i].op.action, id, role);
            assert(last_op(ops, effective[k], i));
        }
        if op_with(ops, x) is Some {
            let i = choose|i: int| #[trigger] last_op(ops, x, i) && ops[i].op == op_with(ops, x)->0;
            assert(last_op(ops, effective[n], i));
        }
        if key_given(ops, effective, id, key) {
            let (k, i) = choose|k: int, i: int|
                0 <= k < effective.len() && #[trigger] last_op(ops, effective[k], i) && gives_key(ops[i].op.action, id, key);
            if k < n {
                assert(last_op(ops, e0[k], i));
            } else {
                assert(op_with(ops, x) == Some(ops[i].op));
            }
        }
        if role_given(ops, effective, id, role) {
            let (k, i) = choose|k: int, i: int|
                0 <= k < effective.len() && #[trigger] last_op(ops, effective[k], i) && gives_role(ops[i].op.action, id, role);
            if k < n {
                assert(last_op(ops, e0[k], i));
            } else {
                assert(op_with(ops, x) == Some(ops[i].op));
            }
        }
    }
}

/// The member has had this key: the view shows it for them, or an effective op gave it to them.
pub open spec fn had_key(members: Seq<MemberView>, ops: Seq<StoredModel>, effective: Seq<[u8; 32]>, id: Seq<char>, key: Seq<u8>) -> bool {
    shows_key(members, id, key) || key_given(ops, effective, id, key)
}

/// The member has had this role: the view shows it for them, or an effective op gave it to them.
pub open spec fn had_role(members: Seq<MemberView>, ops: Seq<StoredModel>, effective: Seq<[u8; 32]>, id: Seq<char>, role: i16) -> bool {
    shows_role(members, id, role) || role_given(ops, effective, id, role)
}

/// Who was ever a member, and with what: every key that the view shows for them or that an effective op gave them, each
/// once, and no other key; and the strongest of the roles that the view shows for them or that an effective op gave them.
pub proof fn who_was_ever_a_member(members: Vec<MemberView>, effective: Vec<[u8; 32]>, ops: Vec<StoredOp>, r: EverMap, id: Seq<char>)
    requires
        call_ensures(collect_ever_members, (&members, &effective, &ops), r),
    ensures
        ({
            let all = stored_models(ops@);
            &&& r@.contains_key(id) <==> (exists|key: Seq<u8>| had_key(members@, all, effective@, id, key)) || exists|role: i16| had_role(members@, all, effective@, id, role)
            &&& r@.contains_key(id) ==> {
                let keys = key_models(r@[id].keys_ever_held@);
                &&& forall|key: Seq<u8>| #[trigger] keys.contains(key) <==> had_key(members@, all, effective@, id, key)
                &&& keys.no_duplicates()
                &&& forall|role: i16| #[trigger] had_role(members@, all, effective@, id, role) ==> r@[id].strongest_role <= role
                &&& r@[id].strongest_role == i16::MAX || had_role(members@, all, effective@, id, r@[id].strongest_role)
            }
        }),
{
    let all = stored_models(ops@);
    let first = view_notes(member_models(members@));
    let rest = effective_notes(all, effective@);
    let notes = first + rest;
    assert(records(r, notes));
    notes_say(notes, id);
    assert forall|key: Seq<u8>| #[trigger] holds_note(notes, Note::Key(id, key)) <==> had_key(members@, all, effective@, id, key) by {
        a_sum_holds(first, rest, Note::Key(id, key));
        view_notes_hold(members@, id, key, 0);
        effective_notes_hold(all, effective@, id, key, 0);
    }
    assert forall|role: i16| #[trigger] holds_note(notes, Note::Role(id, role)) <==> had_role(members@, all, effective@, id, role) by {
        a_sum_holds(first, rest, Note::Role(id, role));
        view_notes_hold(members@, id, Seq::empty(), role);
        effective_notes_hold(all, effective@, id, Seq::empty(), role);
    }
    if exists|key: Seq<u8>| had_key(members@, all, effective@, id, key) {
        let key = choose|key: Seq<u8>| had_key(members@, all, effective@, id, key);
        assert(holds_note(notes, Note::Key(id, key)));
    }
    if exists|role: i16| had_role(members@, all, effective@, id, role) {
        let role = choose|role: i16| had_role(members@, all, effective@, id, role);
        assert(holds_note(notes, Note::Role(id, role)));
    }
    if noted(notes, id) {
        if exists|key: Seq<u8>| holds_note(notes, Note::Key(id, key)) {
            let key = choose|key: Seq<u8>| holds_note(notes, Note::Key(id, key));
            assert(had_key(members@, all, effective@, id, key));
        } else {
            let role = choose|role: i16| holds_note(notes, Note::Role(id, role));
            assert(had_role(members@, all, effective@, id, role));
        }
    }
    if r@.contains_key(id) {
        let keys = key_models(r@[id].keys_ever_held@);
        assert forall|key: Seq<u8>| #[trigger] keys.contains(key) <==> had_key(members@, all, effective@, id, key) by {
            assert(keys_noted(notes, id).contains(key) <==> holds_note(notes, Note::Key(id, key)));
        }
        assert forall|role: i16| #[trigger] had_role(members@, all, effective@, id, role) implies r@[id].strongest_role <= role by {
            assert(holds_note(notes, Note::Role(id, role)));
        }
    }
}

} // verus!
