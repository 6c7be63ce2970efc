//! What minting leaves in a tree, what taking a batch in leaves, and what the tree then tells.

use vstd::prelude::*;

use crate::clock::Hlc;
use crate::order::Key;
use crate::projection::collect::record_models;
use crate::projection::events::Calendar;
use crate::projection::kinship::in_order_lists;
use crate::projection::laws::imaged_is_finite;
use crate::projection::meaning::{backers, deniers, has_text, how_strongly_a_tie_is_held, says, teller, told};
use crate::projection::portrait::{
    can_be_preferred, counted, held_moved, names, the_preferred_name_is_shown, what_a_claim_is_about, who_is_shown,
};
use crate::projection::project::{project, projected};
use crate::projection::record::{ClaimModel, Record, RecordModel, Two};
use crate::projection::resolve::Policy;
use crate::projection::value::Json;
use crate::projection::views::{Person, PersonModel, Projection};
use crate::sorted::{in_order, SortedMap, SortedSet};
use crate::tables::imaged;
use crate::tree::{
    anchored, batch, claims_about, committed, entry_key, entry_view, find_person, ingested, log_of, minted, minting,
    op_draft, op_minted, op_models, person_with, restored, superseded, Draft, DraftModel, ItemModel, Marks,
    op_kind_label, ChannelItem, OpKind, OpKindModel, OpView, OpViewModel, Tree, TreeError, TreeModel,
};

verus! {

/// The two texts are the same, or both are absent.
pub open spec fn same_text(a: Option<String>, b: Option<Seq<char>>) -> bool {
    match (a, b) {
        (Some(x), Some(y)) => x@ == y,
        (None, None) => true,
        _ => false,
    }
}

/// The claim says what the draft says, and carries all the marks that the draft was identified with.
pub open spec fn carries_marks(
    c: ClaimModel,
    target: Seq<char>,
    predicate: Seq<char>,
    value: Json,
    author: Seq<char>,
    at: Hlc,
    m: Marks,
) -> bool {
    &&& c.id == m.id@
    &&& same_text(m.fingerprint, c.fingerprint)
    &&& same_text(m.name_ref, c.name_ref)
    &&& c.target_id == target
    &&& c.predicate == predicate
    &&& c.value == value
    &&& c.created_by == author
    &&& c.created_at == at
    &&& c.citation is None
    &&& c.rest == Json::Null
}

/// The tree is as it was, but that this item was filed under its id and is pending.
pub open spec fn gained(before: TreeModel, item: ItemModel, id: Seq<char>, after: TreeModel) -> bool {
    &&& after.created_by == before.created_by
    &&& after.moderators == before.moderators
    &&& after.clock == before.clock
    &&& after.pending == before.pending.push(item)
    &&& forall|k: Seq<char>| #[trigger] after.items.contains_key(k) <==> k == id || before.items.contains_key(k)
    &&& after.items[id] == item
    &&& forall|k: Seq<char>| k != id && before.items.contains_key(k) ==> #[trigger] after.items[k] == before.items[k]
}

/// A claim that is asserted is filed and pending, says what was asserted, in the tree's name and at the clock's next time,
/// and its id, its fingerprint and its name reference are those that its draft was identified with. Where the draft could
/// not be identified, nothing is filed and the failure comes back.
pub proof fn an_asserted_claim_carries_its_marks(
    now: TreeModel,
    target: Seq<char>,
    predicate: Seq<char>,
    value: Json,
    said: Result<Marks, TreeError>,
    r: Result<(), TreeError>,
    t: TreeModel,
)
    requires
        minted(
            now,
            (DraftModel::Claim {
                target_id: target,
                predicate,
                value,
                created_by: now.created_by,
                created_at: now.clock,
            }),
            said,
            r,
            t,
        ),
    ensures
        match said {
            Ok(m) => {
                &&& r is Ok
                &&& t.committers == now.committers
                &&& exists|c: ClaimModel| #[trigger]
                    carries_marks(c, target, predicate, value, now.created_by, now.clock, m) && gained(
                        now,
                        ItemModel::Assert(RecordModel::Claim(c)),
                        m.id@,
                        t,
                    )
            },
            Err(e) => r == Err::<(), TreeError>(e) && t == now,
        },
{
    if let Ok(m) = said {
        let item = t.items[m.id@];
        let c = item->Assert_0->Claim_0;
        assert(carries_marks(c, target, predicate, value, now.created_by, now.clock, m));
        assert(t.pending == now.pending.push(item));
        assert(gained(now, ItemModel::Assert(RecordModel::Claim(c)), m.id@, t));
    }
}

/// An operation that is minted is filed and pending under the id that its draft was identified with, in the tree's name
/// and at the clock's next time, and the tree's author is noted as one who committed it.
pub proof fn a_minted_operation_is_committed_by_its_author(
    now: TreeModel,
    kind: OpKindModel,
    said: Result<Marks, TreeError>,
    r: Result<String, TreeError>,
    t: TreeModel,
)
    requires
        op_minted(now, op_draft(kind, now.created_by, now.clock), said, r, t),
    ensures
        match said {
            Ok(m) => {
                &&& r matches Ok(id) && id@ == m.id@
                &&& gained(
                    now,
                    (ItemModel::Op { id: m.id@, created_by: now.created_by, created_at: now.clock, kind }),
                    m.id@,
                    t,
                )
                &&& forall|x: (Seq<char>, Seq<char>)| #[trigger]
                    t.committers.contains(x) <==> now.committers.contains(x) || x == (m.id@, now.created_by)
            },
            Err(e) => r == Err::<String, TreeError>(e) && t == now,
        },
{
}

/// A revocation is minted as any operation is.
pub proof fn a_revocation_is_committed_by_its_author(
    now: TreeModel,
    kind: OpKindModel,
    said: Result<Marks, TreeError>,
    r: Result<(), TreeError>,
    t: TreeModel,
)
    requires
        minted(now, op_draft(kind, now.created_by, now.clock), said, r, t),
    ensures
        match said {
            Ok(m) => {
                &&& r is Ok
                &&& gained(
                    now,
                    (ItemModel::Op { id: m.id@, created_by: now.created_by, created_at: now.clock, kind }),
                    m.id@,
                    t,
                )
                &&& forall|x: (Seq<char>, Seq<char>)| #[trigger]
                    t.committers.contains(x) <==> now.committers.contains(x) || x == (m.id@, now.created_by)
            },
            Err(e) => r == Err::<(), TreeError>(e) && t == now,
        },
{
}

/// A claim that supersedes another is minted as the replacement of an operation on the other. It says what was asserted,
/// and its id, its fingerprint and its name reference are those that its draft was identified with; the operation's id is
/// the one that the operation's own draft was identified with.
pub proof fn a_superseding_claim_carries_its_marks<F: Fn(&Draft) -> Result<Marks, TreeError>>(
    identify: F,
    now: TreeModel,
    prior: Seq<char>,
    target: Seq<char>,
    predicate: Seq<char>,
    value: Json,
    m: Marks,
    r: Result<(), TreeError>,
    t: TreeModel,
) -> (c: ClaimModel)
    requires
        superseded(
            identify,
            now,
            prior,
            (DraftModel::Claim {
                target_id: target,
                predicate,
                value,
                created_by: now.created_by,
                created_at: now.clock,
            }),
            Ok(m),
            r,
            t,
        ),
    ensures
        carries_marks(c, target, predicate, value, now.created_by, now.clock, m),
        exists|d: Draft, answer: Result<Marks, TreeError>| #[trigger]
            identify.ensures((&d,), answer) && (d matches Draft::Op { created_by, created_at, kind } && created_by@
                == now.created_by && created_at == now.clock && kind@ == OpKindModel::Supersede {
                prior,
                replacement: RecordModel::Claim(c),
            }) && match answer {
                Ok(o) => {
                    &&& r is Ok
                    &&& gained(
                        now,
                        ItemModel::Op {
                            id: o.id@,
                            created_by: now.created_by,
                            created_at: now.clock,
                            kind: OpKindModel::Supersede { prior, replacement: RecordModel::Claim(c) },
                        },
                        o.id@,
                        t,
                    )
                    &&& t.committers.contains((o.id@, now.created_by))
                },
                Err(e) => r == Err::<(), TreeError>(e) && t == now,
            },
{
    let draft = DraftModel::Claim {
        target_id: target,
        predicate,
        value,
        created_by: now.created_by,
        created_at: now.clock,
    };
    let c = crate::tree::claim_with(draft, m);
    assert(carries_marks(c, target, predicate, value, now.created_by, now.clock, m));
    let op = op_draft(
        OpKindModel::Supersede { prior, replacement: RecordModel::Claim(c) },
        now.created_by,
        now.clock,
    );
    let answer = choose|answer: Result<Marks, TreeError>| #[trigger] minting(identify, op, answer) && minted(now, op, answer, r, t);
    let d = choose|d: Draft| #[trigger] identify.ensures((&d,), answer) && d@ == op;
    assert(d is Op);
    match answer {
        Ok(o) => {
            let item = ItemModel::Op {
                id: o.id@,
                created_by: now.created_by,
                created_at: now.clock,
                kind: OpKindModel::Supersede { prior, replacement: RecordModel::Claim(c) },
            };
            assert(gained(now, item, o.id@, t));
        },
        Err(_) => {},
    }
    c
}

/// An anchor that is asserted is filed under its id with its type, in the tree's name and at the clock's next time, and
/// with it a claim that it exists, which carries its marks.
pub proof fn an_asserted_anchor_comes_with_its_existence(
    now: TreeModel,
    id: Seq<char>,
    type_uri: Seq<char>,
    m: Marks,
    r: Result<(), TreeError>,
    t: TreeModel,
)
    requires
        anchored(now, id, type_uri, Ok(m), r, t),
    ensures
        r is Ok,
        exists|between: TreeModel, c: ClaimModel|
            gained(
                now,
                ItemModel::Assert(RecordModel::Anchor { id, type_uri, created_by: now.created_by, created_at: now.clock }),
                id,
                between,
            ) && #[trigger] carries_marks(
                c,
                id,
                "openom.org/core/existence/v1"@,
                Json::Object(Seq::empty()),
                now.created_by,
                now.clock,
                m,
            ) && #[trigger] gained(between, ItemModel::Assert(RecordModel::Claim(c)), m.id@, t),
        t.committers == now.committers,
{
    let first = crate::tree::anchor_item(id, type_uri, now.created_by, now.clock);
    let between = now.emitted(first);
    let c = t.items[m.id@]->Assert_0->Claim_0;
    assert(gained(now, first, id, between));
    assert(carries_marks(
        c,
        id,
        "openom.org/core/existence/v1"@,
        Json::Object(Seq::empty()),
        now.created_by,
        now.clock,
        m,
    ));
    assert(gained(between, ItemModel::Assert(RecordModel::Claim(c)), m.id@, t));
}

/// The last item of the batch with this id stands at `i`.
pub open spec fn last_with(s: Seq<ItemModel>, id: Seq<char>, i: int) -> bool {
    0 <= i < s.len() && s[i].id() == id && forall|j: int| i < j < s.len() ==> (#[trigger] s[j]).id() != id
}

proof fn batches_keep_the_last(s: Seq<ItemModel>)
    ensures
        forall|id: Seq<char>| #[trigger] batch(s).contains_key(id) ==> exists|i: int| #[trigger] last_with(s, id, i) && batch(s)[id] == s[i],
        forall|id: Seq<char>, i: int| #[trigger] last_with(s, id, i) ==> batch(s).contains_key(id) && batch(s)[id] == s[i],
    decreases s.len(),
{
    if s.len() > 0 {
        let t = s.drop_last();
        let n = s.len() - 1;
        batches_keep_the_last(t);
        assert forall|id: Seq<char>| #[trigger] batch(s).contains_key(id) implies exists|i: int| #[trigger]
            last_with(s, id, i) && batch(s)[id] == s[i] by {
            if s[n].id() == id {
                assert(last_with(s, id, n));
            } else {
                assert(batch(t).contains_key(id));
                let i = choose|i: int| #[trigger] last_with(t, id, i) && batch(t)[id] == t[i];
                assert(last_with(s, id, i)) by {
                    assert forall|j: int| i < j < s.len() implies (#[trigger] s[j]).id() != id by {
                        if j < n {
                            assert(t[j].id() != id);
                        }
                    }
                }
            }
        }
        assert forall|id: Seq<char>, i: int| #[trigger] last_with(s, id, i) implies batch(s).contains_key(id) && batch(s)[id]
            == s[i] by {
            if i < n {
                assert(s[n].id() != id);
                assert(last_with(t, id, i)) by {
                    assert forall|j: int| i < j < t.len() implies (#[trigger] t[j]).id() != id by {
                        assert(s[j].id() != id);
                    }
                }
            }
        }
    }
}

/// The clock reads the latest of these times.
pub open spec fn is_latest(clock: Hlc, before: Hlc, s: Seq<ItemModel>) -> bool {
    &&& !clock.earlier(before)
    &&& forall|i: int| 0 <= i < s.len() ==> !clock.earlier((#[trigger] s[i]).created_at())
    &&& clock == before || exists|i: int| 0 <= i < s.len() && (#[trigger] s[i]).created_at() == clock
}

proof fn clocks_advance_to_the_latest(clock: Hlc, s: Seq<ItemModel>)
    ensures
        is_latest(crate::tree::advanced(clock, s), clock, s),
    decreases s.len(),
{
    if s.len() > 0 {
        let t = s.drop_last();
        let n = s.len() - 1;
        clocks_advance_to_the_latest(clock, t);
        let was = crate::tree::advanced(clock, t);
        let now = crate::tree::advanced(clock, s);
        assert forall|i: int| 0 <= i < s.len() implies !now.earlier((#[trigger] s[i]).created_at()) by {
            if i < n {
                assert(t[i] == s[i]);
                assert(!was.earlier(t[i].created_at()));
            }
        }
        if now != clock {
            if now == s[n].created_at() {
                assert(s[n].created_at() == now);
            } else {
                let i = choose|i: int| 0 <= i < t.len() && (#[trigger] t[i]).created_at() == was;
                assert(s[i].created_at() == now);
            }
        }
    }
}

/// A batch that is taken in leaves every item of it filed under its id, the last where several have one id, and what else
/// was there as it was; it leaves its committer noted for each operation of it, and for nothing else; the clock reads the
/// latest time that it has seen; and nothing of it is pending.
pub proof fn what_a_batch_leaves(t: TreeModel, s: Seq<ItemModel>, committer: Seq<char>)
    ensures
        ({
            let after = ingested(t, s, committer);
            &&& after.created_by == t.created_by && after.moderators == t.moderators && after.pending == t.pending
            &&& forall|id: Seq<char>| #[trigger]
                after.items.contains_key(id) <==> t.items.contains_key(id) || exists|i: int| #[trigger] last_with(s, id, i)
            &&& forall|id: Seq<char>, i: int| #[trigger] last_with(s, id, i) ==> after.items[id] == s[i]
            &&& forall|id: Seq<char>|
                t.items.contains_key(id) && (forall|i: int| 0 <= i < s.len() ==> (#[trigger] s[i]).id() != id)
                    ==> #[trigger] after.items[id] == t.items[id]
            &&& forall|op: Seq<char>, who: Seq<char>| #[trigger]
                after.committers.contains((op, who)) <==> t.committers.contains((op, who)) || who == committer && exists|i: int|
                    0 <= i < s.len() && (#[trigger] s[i]) is Op && s[i].id() == op
            &&& is_latest(after.clock, t.clock, s)
        }),
{
    batches_keep_the_last(s);
    clocks_advance_to_the_latest(t.clock, s);
    let after = ingested(t, s, committer);
    assert forall|id: Seq<char>|
        t.items.contains_key(id) && (forall|i: int| 0 <= i < s.len() ==> (#[trigger] s[i]).id() != id) implies #[trigger] after.items[id]
        == t.items[id] by {
        if batch(s).contains_key(id) {
            let i = choose|i: int| #[trigger] last_with(s, id, i) && batch(s)[id] == s[i];
            assert(s[i].id() == id);
        }
    }
    assert forall|id: Seq<char>| #[trigger] after.items.contains_key(id) <==> t.items.contains_key(id) || exists|i: int| #[trigger]
        last_with(s, id, i) by {
        assert(after.items.contains_key(id) <==> t.items.contains_key(id) || batch(s).contains_key(id));
    }
    assert forall|op: Seq<char>, who: Seq<char>| #[trigger] after.committers.contains((op, who)) <==> t.committers.contains(
        (op, who),
    ) || who == committer && exists|i: int| 0 <= i < s.len() && (#[trigger] s[i]) is Op && s[i].id() == op by {
        assert(committed(s, committer).contains((op, who)) <==> who == committer && exists|i: int|
            0 <= i < s.len() && (#[trigger] s[i]) is Op && s[i].id() == op);
    }
}

/// A snapshot that is loaded leaves what a batch leaves, but that it notes no committer.
pub proof fn a_snapshot_credits_no_one(t: TreeModel, s: Seq<ItemModel>, committer: Seq<char>)
    ensures
        restored(t, s).items == ingested(t, s, committer).items,
        restored(t, s).clock == ingested(t, s, committer).clock,
        restored(t, s).committers == t.committers,
        restored(t, s).moderators == t.moderators,
        restored(t, s).pending == t.pending,
        restored(t, s).created_by == t.created_by,
{
}

/// The log's entry tells the item: its id, its author, its time, what kind it is, and whether it is honored. What is
/// asserted always is; an operation is where one who committed it is a moderator.
pub open spec fn tells(t: TreeModel, item: ItemModel, v: OpViewModel) -> bool {
    match item {
        ItemModel::Assert(r) => v.id == r.id() && v.author == r.created_by() && v.created_at == r.created_at() && v.kind
            == "assert"@ && v.effective,
        ItemModel::Op { id, created_by, created_at, kind } => {
            &&& v.id == id && v.author == created_by && v.created_at == created_at
            &&& v.kind == (match kind {
                OpKindModel::Remove { .. } => "remove"@,
                OpKindModel::Supersede { .. } => "supersede"@,
                OpKindModel::Revoke { .. } => "revoke"@,
            })
            &&& v.effective <==> exists|who: Seq<char>| #[trigger] t.committers.contains((id, who)) && t.moderators.contains(who)
        },
    }
}

proof fn entries_tell(t: TreeModel, item: ItemModel)
    ensures
        tells(t, item, entry_view(t, item)),
{
    if let ItemModel::Op { id, created_by, created_at, kind } = item {
        let s = crate::tables::slice(t.committers, id);
        if exists|who: Seq<char>| #[trigger] t.committers.contains((id, who)) && t.moderators.contains(who) {
            let who = choose|who: Seq<char>| #[trigger] t.committers.contains((id, who)) && t.moderators.contains(who);
            assert(s.contains(who));
        } else {
            assert(s.disjoint(t.moderators)) by {
                assert forall|who: Seq<char>| s.contains(who) implies !t.moderators.contains(who) by {
                    assert(t.committers.contains((id, who)));
                }
            }
        }
    }
}

/// The log tells every item of the tree exactly once, the earlier first, and of those of one time the one with the lesser
/// id first.
pub proof fn the_log_tells_every_item_once(tree: Tree, r: Vec<OpView>)
    requires
        tree.wf(),
        call_ensures(Tree::oplog, (&tree,), r),
    ensures
        forall|k: int|
            0 <= k < r@.len() ==> tree@.items.contains_key((#[trigger] r@[k]).id@) && tells(tree@, tree@.items[r@[k].id@], r@[k]@),
        forall|id: Seq<char>| #[trigger]
            tree@.items.contains_key(id) ==> exists|k: int| 0 <= k < r@.len() && (#[trigger] r@[k]).id@ == id,
        forall|i: int, j: int| #![trigger r@[i], r@[j]]
            0 <= i < j < r@.len() ==> r@[i].created_at.earlier(r@[j].created_at) || r@[i].created_at == r@[j].created_at
                && crate::order::text_before(r@[i].id@, r@[j].id@),
{
    let t = tree@;
    let give = entry_key(t);
    tree.items.facts();
    assert(t.items.dom() =~= tree.items@.dom());
    vstd::seq_lib::seq_to_set_is_finite(crate::sorted::models(tree.items.keys@));
    assert(t.items.dom() =~= crate::sorted::models(tree.items.keys@).to_set()) by {
        let names = crate::sorted::models(tree.items.keys@);
        assert forall|id: Seq<char>| t.items.dom().contains(id) == names.to_set().contains(id) by {
            if t.items.dom().contains(id) {
                let i = choose|i: int| 0 <= i < tree.items.keys.len() && (#[trigger] tree.items.keys@[i]).model() == id;
                assert(names[i] == id);
            }
            if names.contains(id) {
                let i = choose|i: int| 0 <= i < names.len() && names[i] == id;
                assert(tree.items.keys@[i].model() == id);
            }
        }
    }
    imaged_is_finite(t.items.dom(), give);
    let keys = imaged(t.items.dom(), give);
    in_order_lists::<(Hlc, String)>(keys);
    let q = in_order::<(Hlc, String)>(keys);
    assert(op_models(r@) == log_of(t));
    assert(op_models(r@).len() == r@.len());
    assert(log_of(t).len() == q.len());
    assert forall|k: int| 0 <= k < r@.len() implies tree@.items.contains_key((#[trigger] r@[k]).id@) && tells(
        tree@,
        tree@.items[r@[k].id@],
        r@[k]@,
    ) && r@[k].id@ == q[k].1 && r@[k].created_at == q[k].0 by {
        assert(keys.contains(q[k]));
        let id = choose|id: Seq<char>| #[trigger] t.items.dom().contains(id) && give(id) == Some(q[k]);
        assert(op_models(r@)[k] == r@[k]@);
        assert(log_of(t)[k] == entry_view(t, t.items[q[k].1]));
        assert(t.items[id].id() == id);
        entries_tell(t, t.items[id]);
    }
    assert forall|id: Seq<char>| #[trigger] tree@.items.contains_key(id) implies exists|k: int|
        0 <= k < r@.len() && (#[trigger] r@[k]).id@ == id by {
        let x = (t.items[id].created_at(), id);
        assert(t.items.dom().contains(id) && give(id) == Some(x));
        assert(keys.contains(x));
        let k = choose|k: int| 0 <= k < q.len() && q[k] == x;
        assert(r@[k].id@ == id);
    }
    assert forall|i: int, j: int| #![trigger r@[i], r@[j]] 0 <= i < j < r@.len() implies r@[i].created_at.earlier(
        r@[j].created_at,
    ) || r@[i].created_at == r@[j].created_at && crate::order::text_before(r@[i].id@, r@[j].id@) by {
        assert(<(Hlc, String)>::before(q[i], q[j]));
    }
}

/// The claims about a target are those live claims that are on it, and have the predicate where one is asked for, each as
/// it is and in their order.
pub proof fn which_claims_are_about_a_target(
    a: Seq<RecordModel>,
    r: RecordModel,
    target: Seq<char>,
    predicate: Option<Seq<char>>,
)
    ensures
        claims_about(Seq::empty(), target, predicate).len() == 0,
        claims_about(a.push(r), target, predicate) == (match r {
            RecordModel::Claim(c) => if c.target_id == target && (predicate matches Some(p) ==> c.predicate == p) {
                claims_about(a, target, predicate).push(c)
            } else {
                claims_about(a, target, predicate)
            },
            _ => claims_about(a, target, predicate),
        }),
{
    reveal(Seq::filter);
    let p = |r: RecordModel| crate::tree::is_about(r, target, predicate);
    let none = Seq::<RecordModel>::empty();
    assert(none.filter(p) =~= none);
    a.lemma_filter_push(r, p);
    let give = |r: RecordModel| r->Claim_0;
    assert(a.filter(p).push(r).map_values(give) =~= a.filter(p).map_values(give).push(give(r)));
}

/// The person whom an anchor stands for is the first who has it as their id or among their other anchors; there is none
/// where no one has it.
pub proof fn whom_an_anchor_stands_for(people: Vec<Person>, anchor: &str, r: Option<String>)
    requires
        call_ensures(find_person, (&people, anchor), r),
    ensures
        match r {
            Some(id) => exists|i: int|
                0 <= i < people@.len() && (#[trigger] people@[i])@.id == id@ && has_anchor(people@[i]@, anchor@) && forall|j: int|
                    0 <= j < i ==> !has_anchor((#[trigger] people@[j])@, anchor@),
            None => forall|j: int| 0 <= j < people@.len() ==> !has_anchor((#[trigger] people@[j])@, anchor@),
        },
{
    let all = crate::projection::views::all_views(people@);
    the_first_is_found(all, anchor@);
    match r {
        Some(id) => {
            let i = choose|i: int|
                0 <= i < all.len() && (#[trigger] all[i]).id == id@ && has_anchor(all[i], anchor@) && forall|j: int|
                    0 <= j < i ==> !has_anchor(#[trigger] all[j], anchor@);
            assert(people@[i]@ == all[i]);
            assert forall|j: int| 0 <= j < i implies !has_anchor((#[trigger] people@[j])@, anchor@) by {
                assert(all[j] == people@[j]@);
            }
        },
        None => {
            assert forall|j: int| 0 <= j < people@.len() implies !has_anchor((#[trigger] people@[j])@, anchor@) by {
                assert(all[j] == people@[j]@);
            }
        },
    }
}

/// The person has this anchor.
pub open spec fn has_anchor(p: PersonModel, anchor: Seq<char>) -> bool {
    p.id == anchor || exists|i: int| 0 <= i < p.also.len() && #[trigger] p.also[i] == anchor
}

proof fn the_first_is_found(people: Seq<PersonModel>, anchor: Seq<char>)
    ensures
        match person_with(people, anchor) {
            Some(id) => exists|i: int|
                0 <= i < people.len() && (#[trigger] people[i]).id == id && has_anchor(people[i], anchor) && forall|j: int|
                    0 <= j < i ==> !has_anchor(#[trigger] people[j], anchor),
            None => forall|j: int| 0 <= j < people.len() ==> !has_anchor(#[trigger] people[j], anchor),
        },
    decreases people.len(),
{
    if people.len() > 0 {
        let rest = people.drop_first();
        the_first_is_found(rest, anchor);
        assert(crate::tree::stands_for(people[0], anchor) <==> has_anchor(people[0], anchor)) by {
            if people[0].also.contains(anchor) {
                let i = choose|i: int| 0 <= i < people[0].also.len() && people[0].also[i] == anchor;
                assert(people[0].also[i] == anchor);
            }
        }
        if !has_anchor(people[0], anchor) {
            match person_with(rest, anchor) {
                Some(id) => {
                    let i = choose|i: int|
                        0 <= i < rest.len() && (#[trigger] rest[i]).id == id && has_anchor(rest[i], anchor) && forall|j: int|
                            0 <= j < i ==> !has_anchor(#[trigger] rest[j], anchor);
                    assert(people[i + 1] == rest[i]);
                    assert forall|j: int| 0 <= j < i + 1 implies !has_anchor(#[trigger] people[j], anchor) by {
                        if j > 0 {
                            assert(rest[j - 1] == people[j]);
                        }
                    }
                },
                None => {
                    assert forall|j: int| 0 <= j < people.len() implies !has_anchor(#[trigger] people[j], anchor) by {
                        if j > 0 {
                            assert(rest[j - 1] == people[j]);
                        }
                    }
                },
            }
        }
    }
}

/// A claim was asserted on this target, and is among the records that count.
pub open spec fn asserted_and_live(
    now: TreeModel,
    target: Seq<char>,
    predicate: Seq<char>,
    value: Json,
    m: Marks,
    r: Result<(), TreeError>,
    t: TreeModel,
    records: Vec<Record>,
) -> bool {
    &&& minted(
        now,
        DraftModel::Claim { target_id: target, predicate, value, created_by: now.created_by, created_at: now.clock },
        Ok(m),
        r,
        t,
    )
    &&& t.items[m.id@] matches ItemModel::Assert(RecordModel::Claim(c)) && told(counted(records), c)
}

/// After a name is asserted for a person, and a preference for that person with that name's reference, the preferred name
/// that they show is that name: where no one rejects the preference, the name is not moved to another person, and no other
/// name of theirs has that reference or is preferred.
pub proof fn a_name_that_is_asserted_and_preferred_is_shown(
    first: TreeModel,
    name: Json,
    m: Marks,
    content: String,
    named: Result<(), TreeError>,
    between: TreeModel,
    second: TreeModel,
    preference: Json,
    o: Marks,
    preferred: Result<(), TreeError>,
    last: TreeModel,
    records: Vec<Record>,
    policy: Policy,
    calendar: Calendar,
    r: Projection,
    i: int,
)
    requires
        call_ensures(project, (&records, &policy, &calendar), r),
        0 <= i < r@.people.len(),
        asserted_and_live(first, r@.people[i].id, "openom.org/core/name/v1"@, name, m, named, between, records),
        m.name_ref == Some(content),
        asserted_and_live(second, r@.people[i].id, "openom.org/core/preferred/v1"@, preference, o, preferred, last, records),
        has_text(preference, "for"@, "openom.org/core/name/v1"@),
        has_text(preference, "contentRef"@, content@),
        policy.preferred_threshold <= 1,
        deniers(
            counted(records),
            ("openom.org/core/preferred/v1"@, (r@.people[i].id, ("openom.org/core/name/v1"@, content@))),
        ) == Set::<Seq<char>>::empty(),
        forall|p: Seq<char>| !#[trigger] held_moved(counted(records), policy, m.id@, p),
        forall|x: ClaimModel| #[trigger] names(counted(records), policy, x, r@.people[i].id, content@) ==> x.id == m.id@,
        forall|x: Seq<char>, other: Seq<char>| #[trigger]
            can_be_preferred(counted(records), policy, r@.people[i].id, x, other) ==> other == content@,
    ensures
        r@.people[i].preferred_name == Some(m.id@),
{
    let d = counted(records);
    let p = r@.people[i].id;
    let c = between.items[m.id@]->Assert_0->Claim_0;
    let b = last.items[o.id@]->Assert_0->Claim_0;
    an_asserted_claim_carries_its_marks(first, p, "openom.org/core/name/v1"@, name, Ok(m), named, between);
    an_asserted_claim_carries_its_marks(second, p, "openom.org/core/preferred/v1"@, preference, Ok(o), preferred, last);
    who_is_shown(records, policy, calendar, r);
    what_a_claim_is_about(d, policy, c);
    assert(names(d, policy, c, p, content@));
    let t = ("openom.org/core/preferred/v1"@, (p, ("openom.org/core/name/v1"@, content@)));
    assert(says(b, t));
    assert(teller(d, t, b.created_by));
    how_strongly_a_tie_is_held(d, t);
    assert(backers(d, t).contains(b.created_by));
    assert(backers(d, t).len() >= 1) by {
        if backers(d, t).len() == 0 {
            assert(backers(d, t) =~= Set::<Seq<char>>::empty());
        }
    }
    the_preferred_name_is_shown(records, policy, calendar, r, i, c, p, content@);
}

/// A tree is shown, and its anchors are resolved, under the least demands: one voice is enough for anything.
pub proof fn under_which_demands_a_tree_is_shown<
    L: Fn(&SortedMap<String, ChannelItem>, &SortedSet<Two>, &SortedSet<String>) -> Vec<Record>,
>(t: Tree, fold: L, calendar: Calendar, anchor: &str, shown: Projection, of: Option<String>)
    requires
        call_ensures(Tree::project::<L>, (&t, fold, &calendar), shown),
        call_ensures(Tree::resolve_id::<L>, (&t, anchor, fold, &calendar), of),
    ensures
        exists|live: Vec<Record>, policy: Policy|
            #![trigger fold.ensures((&t.items, &t.committers, &t.moderators), live), projected(record_models(live@), policy, calendar@)]
            fold.ensures((&t.items, &t.committers, &t.moderators), live) && asks_for_one(policy) && shown@ == projected(
                record_models(live@),
                policy,
                calendar@,
            ),
        exists|live: Vec<Record>, policy: Policy|
            #![trigger fold.ensures((&t.items, &t.committers, &t.moderators), live), projected(record_models(live@), policy, calendar@)]
            fold.ensures((&t.items, &t.committers, &t.moderators), live) && asks_for_one(policy) && is_found(
                projected(record_models(live@), policy, calendar@).people,
                anchor@,
                of,
            ),
{
    let policy = crate::tree::default_policy();
    let live = choose|live: Vec<Record>| #[trigger]
        crate::tree::folded(t, fold, live) && shown@ == projected(record_models(live@), policy, calendar@);
    assert(fold.ensures((&t.items, &t.committers, &t.moderators), live));
    assert(asks_for_one(policy));
    let again = choose|live: Vec<Record>| #[trigger]
        fold.ensures((&t.items, &t.committers, &t.moderators), live) && crate::projection::record::opt_text(of) == person_with(
            projected(record_models(live@), policy, calendar@).people,
            anchor@,
        );
    let people = projected(record_models(again@), policy, calendar@).people;
    the_first_is_found(people, anchor@);
    assert(is_found(people, anchor@, of));
}

/// Every threshold of the policy is one.
pub open spec fn asks_for_one(policy: Policy) -> bool {
    policy.same_as_threshold == 1 && policy.different_from_threshold == 1 && policy.reattribute_threshold == 1 && policy.preferred_threshold
        == 1 && policy.relationship_threshold == 1
}

/// The anchor is found as the first person's that has it, and as no one's where none has it.
pub open spec fn is_found(people: Seq<PersonModel>, anchor: Seq<char>, of: Option<String>) -> bool {
    match of {
        Some(id) => exists|i: int|
            0 <= i < people.len() && (#[trigger] people[i]).id == id@ && has_anchor(people[i], anchor) && forall|j: int|
                0 <= j < i ==> !has_anchor(#[trigger] people[j], anchor),
        None => forall|j: int| 0 <= j < people.len() ==> !has_anchor(#[trigger] people[j], anchor),
    }
}

/// An operation goes by the name of its kind.
pub proof fn what_an_operation_goes_by(kind: OpKind, r: &'static str)
    requires
        call_ensures(op_kind_label, (&kind,), r),
    ensures
        kind is Remove ==> r@ == "remove"@,
        kind is Supersede ==> r@ == "supersede"@,
        kind is Revoke ==> r@ == "revoke"@,
{
}

} // verus!
