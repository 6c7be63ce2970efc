//! What a resolved membership shows: each active member once, with their own role and keys.

use vstd::prelude::*;

use crate::keyring_api::{member_models, sorted_models, MemberModel, MemberView, MembershipView};
use crate::keyring_dag::access::{KeyringAction, KeyringMemberInit};
use crate::keyring_dag::anchor::{append_add, ClientError, DagAnchor, OpDraft, StoredOp};
use crate::keyring_dag::checkpoint::{entry_models, EntryModel, GroupStateView, MemberStateDto};
use crate::keyring_dag::resolve::{active_ids_are_distinct, active_models, resolve_run, shows, view_of, EngineRun, Resolved};
use crate::order::Key;
use crate::sorting::{distinct_sorting_is_strict, key_before, stable_sorting, Keyed};

verus! {

/// The member is shown as the entry has them: under their id, with their role, their author key and their HPKE key.
pub open spec fn shown_as(e: MemberStateDto, m: MemberView) -> bool {
    &&& m.member_id@ == e.id@
    &&& m.role == e.role.0
    &&& m.author_public_key@ == e.author_public_key@
    &&& m.hpke_public_key@ == e.hpke_public_key@
}

/// No two entries have one id.
pub open spec fn no_id_twice(state: GroupStateView) -> bool {
    forall|i: int, j: int| #![trigger state.members@[i], state.members@[j]]
        0 <= i < j < state.members@.len() ==> state.members@[i].id@ != state.members@[j].id@
}

/// The entry's member is part of the group now.
pub open spec fn is_in(e: MemberStateDto) -> bool {
    e.member_counter % 2 == 0
}

proof fn active_entries_are_modelled(all: Seq<EntryModel>, s: Seq<MemberStateDto>, i: int)
    requires
        all == entry_models(s),
        0 <= i < s.len(),
        is_in(s[i]),
    ensures
        active_models(all).contains(model_of(s[i])),
    decreases s.len(),
{
    let t = s.drop_last();
    assert(all.drop_last() =~= entry_models(t));
    let before = active_models(all.drop_last());
    let now = active_models(all);
    if i < t.len() {
        active_entries_are_modelled(all.drop_last(), t, i);
        let k = choose|k: int| 0 <= k < before.len() && before[k] == model_of(s[i]);
        assert(now[k] == before[k]);
    } else {
        assert(now[before.len() as int] == model_of(s[i]));
    }
}

proof fn models_are_of_active_entries(all: Seq<EntryModel>, s: Seq<MemberStateDto>, k: int) -> (i: int)
    requires
        all == entry_models(s),
        0 <= k < active_models(all).len(),
    ensures
        0 <= i < s.len(),
        is_in(s[i]),
        active_models(all)[k] == model_of(s[i]),
    decreases s.len(),
{
    let t = s.drop_last();
    assert(all.drop_last() =~= entry_models(t));
    let before = active_models(all.drop_last());
    if k < before.len() {
        models_are_of_active_entries(all.drop_last(), t, k)
    } else {
        s.len() - 1
    }
}

spec fn model_of(e: MemberStateDto) -> MemberModel {
    MemberModel {
        member_id: e.id@,
        role: e.role.0,
        author_public_key: e.author_public_key@,
        hpke_public_key: e.hpke_public_key@,
    }
}

/// For every active entry, the view has exactly one member with that id, and that member's role, author key and HPKE
/// key are each the entry's own.
pub proof fn each_active_entry_is_shown_once(state: GroupStateView, reset_boundary: bool, view: MembershipView, i: int) -> (k: int)
    requires
        call_ensures(view_of, (&state, reset_boundary), view),
        no_id_twice(state),
        0 <= i < state.members@.len(),
        is_in(state.members@[i]),
    ensures
        0 <= k < view.members@.len(),
        shown_as(state.members@[i], view.members@[k]),
        forall|j: int|
            0 <= j < view.members@.len() && (#[trigger] view.members@[j]).member_id@ == state.members@[i].id@ ==> j == k,
{
    let s = state.members@;
    let all = entry_models(s);
    let list = choose|list: Seq<MemberView>| #[trigger]
        stable_sorting(list, view.members@) && member_models(list) == active_models(all);
    active_entries_are_modelled(all, s, i);
    sorted_models(list, view.members@);
    assert(member_models(view.members@).contains(model_of(s[i])));
    let k = choose|k: int| 0 <= k < view.members@.len() && member_models(view.members@)[k] == model_of(s[i]);
    members_stand_apart(state, view, list);
    assert forall|j: int|
        0 <= j < view.members@.len() && (#[trigger] view.members@[j]).member_id@ == s[i].id@ implies j == k by {
        if j < k {
            assert(key_before(view.members@[j], view.members@[k]));
            <String as Key>::before_irreflexive(s[i].id@);
        }
        if k < j {
            assert(key_before(view.members@[k], view.members@[j]));
            <String as Key>::before_irreflexive(s[i].id@);
        }
    }
    k
}

proof fn members_stand_apart(state: GroupStateView, view: MembershipView, list: Seq<MemberView>)
    requires
        no_id_twice(state),
        stable_sorting(list, view.members@),
        member_models(list) == active_models(entry_models(state.members@)),
    ensures
        forall|a: int, b: int| #![trigger view.members@[a], view.members@[b]]
            0 <= a < b < view.members@.len() ==> key_before(view.members@[a], view.members@[b]),
{
    let all = entry_models(state.members@);
    assert forall|a: int, b: int| #![trigger all[a], all[b]] 0 <= a < b < all.len() implies all[a].id != all[b].id by {
        assert(state.members@[a].id@ != state.members@[b].id@);
    }
    active_ids_are_distinct(all);
    assert forall|a: int, b: int| #![trigger list[a], list[b]] 0 <= a < b < list.len() implies list[a].sort_key()
        != list[b].sort_key() by {
        assert(member_models(list)[a].member_id != member_models(list)[b].member_id);
    }
    distinct_sorting_is_strict(list, view.members@);
}

/// Whoever the view shows is an active entry's member, shown as the entry has them; the view is in the order of the
/// ids, and it is marked as a reset boundary where it was to be.
pub proof fn none_but_active_entries_are_shown(state: GroupStateView, reset_boundary: bool, view: MembershipView, k: int) -> (i: int)
    requires
        call_ensures(view_of, (&state, reset_boundary), view),
        0 <= k < view.members@.len(),
    ensures
        view.reset_boundary == reset_boundary,
        0 <= i < state.members@.len(),
        is_in(state.members@[i]),
        shown_as(state.members@[i], view.members@[k]),
        no_id_twice(state) ==> forall|j: int|
            0 <= j < k ==> crate::order::text_before((#[trigger] view.members@[j]).member_id@, view.members@[k].member_id@),
{
    let all = entry_models(state.members@);
    let list = choose|list: Seq<MemberView>| #[trigger]
        stable_sorting(list, view.members@) && member_models(list) == active_models(all);
    sorted_models(list, view.members@);
    let x = member_models(view.members@)[k];
    assert(member_models(view.members@).contains(x));
    let a = choose|a: int| 0 <= a < active_models(all).len() && active_models(all)[a] == x;
    if no_id_twice(state) {
        members_stand_apart(state, view, list);
        assert forall|j: int| 0 <= j < k implies crate::order::text_before(
            (#[trigger] view.members@[j]).member_id@,
            view.members@[k].member_id@,
        ) by {
            assert(key_before(view.members@[j], view.members@[k]));
        }
    }
    models_are_of_active_entries(all, state.members@, a)
}

/// A resolved anchor shows the members that the run ended with as `view_of` shows them, away from any reset boundary,
/// and whether the tree was ever shared and what may reset it as the run ended with them.
pub proof fn a_resolved_anchor_shows_where_the_run_ended(anchor: DagAnchor, run: EngineRun, v: Resolved, i: int) -> (k: int)
    requires
        call_ensures(resolve_run, (&anchor, &run), Ok::<Resolved, ClientError>(v)),
        no_id_twice(run.members),
        0 <= i < run.members.members@.len(),
        is_in(run.members.members@[i]),
    ensures
        0 <= k < v.members.members@.len(),
        shown_as(run.members.members@[i], v.members.members@[k]),
        forall|j: int|
            0 <= j < v.members.members@.len() && (#[trigger] v.members.members@[j]).member_id@ == run.members.members@[i].id@
                ==> j == k,
        !v.members.reset_boundary,
        v.has_been_shared == run.has_been_shared,
        v.reset_authority == run.reset_authority,
{
    let s = run.members.members@;
    let all = entry_models(s);
    let list = choose|list: Seq<MemberView>| #[trigger]
        stable_sorting(list, v.members.members@) && member_models(list) == active_models(all);
    active_entries_are_modelled(all, s, i);
    sorted_models(list, v.members.members@);
    assert(member_models(v.members.members@).contains(model_of(s[i])));
    let k = choose|k: int| 0 <= k < v.members.members@.len() && member_models(v.members.members@)[k] == model_of(s[i]);
    members_stand_apart(run.members, v.members, list);
    assert forall|j: int|
        0 <= j < v.members.members@.len() && (#[trigger] v.members.members@[j]).member_id@ == s[i].id@ implies j == k by {
        <String as Key>::before_irreflexive(s[i].id@);
        if j < k {
            assert(key_before(v.members.members@[j], v.members.members@[k]));
        }
        if k < j {
            assert(key_before(v.members.members@[k], v.members.members@[j]));
        }
    }
    k
}

/// The op that is minted of a draft performs the draft's action.
pub open spec fn mints_faithfully<F: Fn(&OpDraft) -> StoredOp>(mint: F) -> bool {
    forall|d: OpDraft, op: StoredOp| #[trigger] mint.ensures((&d,), op) ==> op.op.action.model() == d.action.model()
}

/// The run's `i`-th entry is what an addition makes of its member: an active one, with the role and the keys that the
/// action names.
pub open spec fn took_effect(action: KeyringAction, run: EngineRun, i: int) -> bool {
    &&& 0 <= i < run.members.members@.len()
    &&& is_in(run.members.members@[i])
    &&& action matches KeyringAction::Add { member, role, author_public_key, hpke_public_key, .. } && {
        let e = run.members.members@[i];
        e.id@ == member@ && e.role == role && e.author_public_key == author_public_key && e.hpke_public_key == hpke_public_key
    }
}

/// A member who is added to an anchor, where the addition takes effect, is shown once in what the anchor then resolves
/// to, with the role, the author key and the HPKE key with which they were added.
pub proof fn an_added_member_is_shown_with_their_keys<F: Fn(&OpDraft) -> StoredOp>(
    anchor: DagAnchor,
    author: &str,
    member: KeyringMemberInit,
    sealing: Vec<u8>,
    mint: F,
    after: DagAnchor,
    run: EngineRun,
    i: int,
    v: Resolved,
) -> (k: int)
    requires
        mints_faithfully(mint),
        call_ensures(append_add::<F>, (anchor, author, &member, sealing, mint), after),
        no_id_twice(run.members),
        took_effect(after.ops@.last().op.action, run, i),
        call_ensures(resolve_run, (&after, &run), Ok::<Resolved, ClientError>(v)),
    ensures
        after.ops@.len() == anchor.ops@.len() + 1,
        0 <= k < v.members.members@.len(),
        v.members.members@[k].member_id@ == member.id@,
        v.members.members@[k].role == member.role.0,
        v.members.members@[k].author_public_key@ == member.author_public_key@,
        v.members.members@[k].hpke_public_key@ == member.hpke_public_key@,
        forall|j: int|
            0 <= j < v.members.members@.len() && (#[trigger] v.members.members@[j]).member_id@ == member.id@ ==> j == k,
{
    let op = after.ops@.last();
    let (d, o) = choose|d: OpDraft, o: StoredOp| #[trigger]
        mint.ensures((&d,), o) && crate::keyring_dag::anchor::continues(d, anchor, author@, d.action, sealing@)
            && crate::keyring_dag::anchor::adds(d.action, member) && crate::keyring_dag::anchor::appended(anchor, after, o);
    assert(o == op);
    assert(op.op.action.model() == d.action.model());
    a_resolved_anchor_shows_where_the_run_ended(after, run, v, i)
}

/// The view has a member as the entry has them.
pub open spec fn has_member(view: MembershipView, e: MemberStateDto) -> bool {
    exists|k: int| 0 <= k < view.members@.len() && shown_as(e, #[trigger] view.members@[k])
}

/// The member is as an active entry has them.
pub open spec fn is_of(state: GroupStateView, m: MemberView) -> bool {
    exists|i: int| 0 <= i < state.members@.len() && is_in(#[trigger] state.members@[i]) && shown_as(state.members@[i], m)
}

/// The view shows the active members of the state, each as their entry has them, and no one else.
pub open spec fn shows_exactly(state: GroupStateView, view: MembershipView) -> bool {
    &&& forall|i: int| 0 <= i < state.members@.len() && is_in(#[trigger] state.members@[i]) ==> has_member(view, state.members@[i])
    &&& forall|k: int| 0 <= k < view.members@.len() ==> is_of(state, #[trigger] view.members@[k])
}

/// What it means that a view shows a state.
pub proof fn what_a_view_shows(state: GroupStateView, reset_boundary: bool, view: MembershipView)
    requires
        shows(entry_models(state.members@), reset_boundary, view),
    ensures
        view.reset_boundary == reset_boundary,
        shows_exactly(state, view),
{
    let s = state.members@;
    let all = entry_models(s);
    let list = choose|list: Seq<MemberView>| #[trigger]
        stable_sorting(list, view.members@) && member_models(list) == active_models(all);
    sorted_models(list, view.members@);
    assert forall|i: int| 0 <= i < s.len() && is_in(#[trigger] s[i]) implies has_member(view, s[i]) by {
        active_entries_are_modelled(all, s, i);
        assert(member_models(view.members@).contains(model_of(s[i])));
        let k = choose|k: int| 0 <= k < view.members@.len() && member_models(view.members@)[k] == model_of(s[i]);
        assert(shown_as(s[i], view.members@[k]));
    }
    assert forall|k: int| 0 <= k < view.members@.len() implies is_of(state, #[trigger] view.members@[k]) by {
        let x = member_models(view.members@)[k];
        assert(member_models(view.members@).contains(x));
        let a = choose|a: int| 0 <= a < active_models(all).len() && active_models(all)[a] == x;
        let i = models_are_of_active_entries(all, s, a);
        assert(is_in(s[i]) && shown_as(s[i], view.members@[k]));
    }
}

} // verus!
