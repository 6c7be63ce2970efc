//! What the keyring's rules amount to: whose approvals carry a change, who may author which action, and what a
//! resolved membership shows.

use vstd::prelude::*;

use crate::keyring_dag::access::{authorized, KeyringAccess, KeyringAction, KeyringMemberInit, KeyringState, Roster};
use crate::keyring_dag::quorum::{
    co_owners_but, founder_at, is_founder, signers_but, target_of, KeyringQuorum, QuorumRule, Requirement, RequirementModel,
};
use crate::order::{text_before, Key};
use crate::sorted::SortedSet;

verus! {

/// These approvers meet the requirement. That of no one at all is met by no one.
pub open spec fn met(r: RequirementModel, approvers: Set<Seq<char>>) -> bool
    decreases r,
{
    match r {
        RequirementModel::Sole(id) => approvers.contains(id),
        RequirementModel::All(ids) => ids != Set::<Seq<char>>::empty() && ids.subset_of(approvers),
        RequirementModel::Threshold(m, ids) => approvers.filter(|id: Seq<char>| ids.contains(id)).len() >= m,
        RequirementModel::Either(a, b) => met(*a, approvers) || met(*b, approvers),
    }
}

/// The member is part of the group, in one of the roles from `strongest` to `weakest`.
pub open spec fn ranks(roster: Roster, id: Seq<char>, strongest: int, weakest: int) -> bool {
    roster.contains_key(id) && roster[id].member_counter % 2 == 0 && strongest <= roster[id].role.0 <= weakest
}

/// The action removes or re-roles this member.
pub open spec fn acts_on(action: KeyringAction, id: Seq<char>) -> bool {
    match action {
        KeyringAction::Remove { member } => member@ == id,
        KeyringAction::ChangeRole { member, .. } => member@ == id,
        _ => false,
    }
}

/// The active owner; of several, the one whose id comes first.
pub open spec fn founds(roster: Roster, id: Seq<char>) -> bool {
    ranks(roster, id, 1, 1) && forall|other: Seq<char>| #[trigger]
        ranks(roster, other, 1, 1) ==> other == id || text_before(id, other)
}

/// The active co-owners, but for the member that the change acts on.
pub open spec fn co_owners(roster: Roster, target: KeyringAction) -> Set<Seq<char>> {
    Set::new(|id: Seq<char>| ranks(roster, id, 2, 2) && !acts_on(target, id))
}

/// The active signers, but for the member that the change acts on.
pub open spec fn signers(roster: Roster, target: KeyringAction) -> Set<Seq<char>> {
    Set::new(|id: Seq<char>| ranks(roster, id, i16::MIN as int, 2) && !acts_on(target, id))
}

proof fn the_founder_stands_first(state: KeyringState, id: Seq<char>)
    requires
        state.wf(),
        founds(state.roster(), id),
    ensures
        is_founder(state, id),
{
    state.members.facts();
    let i = choose|i: int| 0 <= i < state.members.keys.len() && (#[trigger] state.members.keys@[i]).model() == id;
    assert(state.members.keys@[i]@ == id);
    assert(founder_at(state, i));
    assert forall|j: int| 0 <= j < i implies !#[trigger] founder_at(state, j) by {
        if founder_at(state, j) {
            let other = state.members.keys@[j]@;
            assert(other == state.members.keys@[j].model());
            assert(ranks(state.roster(), other, 1, 1));
            assert(String::before(other, id));
            if other != id {
                <String as Key>::before_transitive(other, id, other);
            }
            <String as Key>::before_irreflexive(other);
        }
    }
}

proof fn no_owner_no_founder(state: KeyringState, id: Seq<char>)
    requires
        state.wf(),
        is_founder(state, id),
    ensures
        ranks(state.roster(), id, 1, 1),
{
    state.members.facts();
    let i = choose|i: int| 0 <= i < state.members.keys.len() && #[trigger] state.members.keys@[i]@ == id && founder_at(state, i);
    assert(state.members.keys@[i].model() == id);
}

/// Whose approvals carry a change that the founder could make alone. Under the founder's rule, the founder's; under
/// unanimity, the founder's or those of every active co-owner; under a threshold with a founder, the founder's or
/// those of that many active co-owners; under a bare threshold, those of that many active signers. The member that
/// the change acts on is counted among none of them.
pub proof fn whose_approvals_carry_a_change(
    quorum: KeyringQuorum,
    state: KeyringState,
    target: KeyringAction,
    founder: Seq<char>,
    r: Requirement,
    approvers: Set<Seq<char>>,
)
    requires
        state.wf(),
        call_ensures(KeyringQuorum::requirement, (&quorum, &state, &target), r),
        founds(state.roster(), founder),
        authorized(state.roster(), founder, target),
    ensures
        met(r.model(), approvers) <==> match quorum.rule {
            QuorumRule::FounderOnly => approvers.contains(founder),
            QuorumRule::FounderOrUnanimity => approvers.contains(founder) || (co_owners(state.roster(), target) != Set::<
                Seq<char>,
            >::empty() && co_owners(state.roster(), target).subset_of(approvers)),
            QuorumRule::FounderOrThreshold(m) => approvers.contains(founder) || approvers.filter(
                |id: Seq<char>| co_owners(state.roster(), target).contains(id),
            ).len() >= m,
            QuorumRule::Threshold(m) => approvers.filter(|id: Seq<char>| signers(state.roster(), target).contains(id)).len() >= m,
        },
{
    reveal_with_fuel(met, 3);
    the_founder_stands_first(state, founder);
    let roster = state.roster();
    assert(co_owners_but(roster, target_of(target)) =~= co_owners(roster, target));
    assert(signers_but(roster, target_of(target)) =~= signers(roster, target));
}

/// No approvals carry a change that the founder could not make alone, nor any change where there is no founder.
pub proof fn what_no_approvals_carry(
    quorum: KeyringQuorum,
    state: KeyringState,
    target: KeyringAction,
    r: Requirement,
    approvers: Set<Seq<char>>,
)
    requires
        state.wf(),
        call_ensures(KeyringQuorum::requirement, (&quorum, &state, &target), r),
        forall|founder: Seq<char>| #[trigger] founds(state.roster(), founder) ==> !authorized(state.roster(), founder, target),
    ensures
        !met(r.model(), approvers),
{
    if exists|id: Seq<char>| #[trigger] is_founder(state, id) {
        let id = choose|id: Seq<char>| #[trigger] is_founder(state, id);
        the_first_is_the_founder(state, id);
    }
}

proof fn the_first_is_the_founder(state: KeyringState, id: Seq<char>)
    requires
        state.wf(),
        is_founder(state, id),
    ensures
        founds(state.roster(), id),
{
    no_owner_no_founder(state, id);
    state.members.facts();
    let i = choose|i: int|
        0 <= i < state.members.keys.len() && #[trigger] state.members.keys@[i]@ == id && founder_at(state, i) && forall|j: int|
            0 <= j < i ==> !#[trigger] founder_at(state, j);
    assert forall|other: Seq<char>| #[trigger] ranks(state.roster(), other, 1, 1) implies other == id || text_before(id, other) by {
        let j = choose|j: int| 0 <= j < state.members.keys.len() && (#[trigger] state.members.keys@[j]).model() == other;
        assert(founder_at(state, j));
        if i < j {
            assert(String::before(state.members.keys@[i].model(), state.members.keys@[j].model()));
        }
    }
}

/// Those who may propose and approve a change are the active signers, but for the member that it acts on.
pub proof fn who_may_approve(quorum: KeyringQuorum, state: KeyringState, target: KeyringAction, r: SortedSet<String>, id: Seq<char>)
    requires
        state.wf(),
        call_ensures(KeyringQuorum::eligible, (&quorum, &state, &target), r),
    ensures
        r@.contains(id) <==> ranks(state.roster(), id, i16::MIN as int, 2) && !acts_on(target, id),
{
}

/// A change that some approvers carry is carried by them and others too.
pub proof fn more_approvals_do_no_harm(r: RequirementModel, few: Set<Seq<char>>, many: Set<Seq<char>>)
    requires
        met(r, few),
        few.subset_of(many),
        many.finite(),
    ensures
        met(r, many),
    decreases r,
{
    match r {
        RequirementModel::Threshold(m, ids) => {
            let p = |id: Seq<char>| ids.contains(id);
            vstd::set_lib::lemma_len_subset(few.filter(p), many.filter(p));
        },
        RequirementModel::Either(a, b) => {
            if met(*a, few) {
                more_approvals_do_no_harm(*a, few, many);
            } else {
                more_approvals_do_no_harm(*b, few, many);
            }
        },
        _ => {},
    }
}

/// Who may add a member: an active owner may add anyone but an owner, and an active co-owner anyone weaker than a
/// co-owner, where the id certifies the key.
pub proof fn who_may_add(state: KeyringState, author: String, action: KeyringAction, ok: bool)
    requires
        state.wf(),
        call_ensures(KeyringAccess::is_authorized, (&KeyringAccess, &state, &author, &action), ok),
        action is Add,
    ensures
        action matches KeyringAction::Add { member, role, author_public_key, .. } && (ok <==> role.0 != 1 && member@
            == crate::keyring_api::member_id_of(author_public_key@) && ranks(state.roster(), author@, i16::MIN as int, if role.0 <= 2 {
            1
        } else {
            2
        })),
{
}

/// The role that a member holds; one who is not listed counts as a viewer.
pub open spec fn held_role(roster: Roster, id: Seq<char>) -> int {
    if roster.contains_key(id) {
        roster[id].role.0 as int
    } else {
        5
    }
}

/// Who may re-role a member: no one where the member is or would become an owner; an active owner where the member is
/// or would become a co-owner; an active owner or co-owner otherwise.
pub proof fn who_may_change_a_role(state: KeyringState, author: String, action: KeyringAction, ok: bool)
    requires
        state.wf(),
        call_ensures(KeyringAccess::is_authorized, (&KeyringAccess, &state, &author, &action), ok),
        action is ChangeRole,
    ensures
        action matches KeyringAction::ChangeRole { member, new_role } && {
            let current = held_role(state.roster(), member@);
            ok <==> current != 1 && new_role.0 != 1 && ranks(
                state.roster(),
                author@,
                i16::MIN as int,
                if current <= 2 || new_role.0 <= 2 {
                    1
                } else {
                    2
                },
            )
        },
{
}

/// Who may remove a member who is not an owner: the member, an active owner, and an active co-owner where the member
/// is weaker than a co-owner. No one may remove an owner.
pub proof fn who_may_remove(state: KeyringState, author: String, action: KeyringAction, ok: bool)
    requires
        state.wf(),
        call_ensures(KeyringAccess::is_authorized, (&KeyringAccess, &state, &author, &action), ok),
        action is Remove,
    ensures
        action matches KeyringAction::Remove { member } && {
            let current = held_role(state.roster(), member@);
            ok <==> current != 1 && ranks(
                state.roster(),
                author@,
                i16::MIN as int,
                if author@ == member@ {
                    i16::MAX as int
                } else if current <= 2 {
                    1
                } else {
                    2
                },
            )
        },
{
}

/// Any active signer may propose, approve and commit, and any active member may reseal; no one else may.
pub proof fn who_may_vote_and_reseal(state: KeyringState, author: String, action: KeyringAction, ok: bool)
    requires
        state.wf(),
        call_ensures(KeyringAccess::is_authorized, (&KeyringAccess, &state, &author, &action), ok),
    ensures
        action is Propose || action is Approve || action is Commit ==> (ok <==> ranks(
            state.roster(),
            author@,
            i16::MIN as int,
            2,
        )),
        action is Reseal ==> (ok <==> ranks(state.roster(), author@, i16::MIN as int, i16::MAX as int)),
{
}

/// A group is founded where it has no member yet, by one of those that it starts with, exactly one of whom is the
/// owner, and each of whose ids certifies their key.
pub proof fn who_may_found_a_group(state: KeyringState, author: String, action: KeyringAction, ok: bool)
    requires
        state.wf(),
        call_ensures(KeyringAccess::is_authorized, (&KeyringAccess, &state, &author, &action), ok),
        action is Create,
    ensures
        action matches KeyringAction::Create { initial_members } && (ok <==> {
            &&& forall|id: Seq<char>| !#[trigger] state.roster().contains_key(id)
            &&& exists|i: int| 0 <= i < initial_members@.len() && (#[trigger] initial_members@[i]).id@ == author@
            &&& forall|i: int|
                0 <= i < initial_members@.len() ==> (#[trigger] initial_members@[i]).id@ == crate::keyring_api::member_id_of(
                    initial_members@[i].author_public_key@,
                )
            &&& exists|i: int|
                0 <= i < initial_members@.len() && (#[trigger] initial_members@[i]).role.0 == 1 && forall|j: int|
                    0 <= j < initial_members@.len() && j != i ==> (#[trigger] initial_members@[j]).role.0 != 1
        }),
{
    if let KeyringAction::Create { initial_members } = action {
        let s = initial_members@;
        let p = |m: KeyringMemberInit| m.role.owner();
        if s.filter(p).len() == 1 {
            let i = one_kept_passes(s, p);
            assert(s[i].role.0 == 1);
            assert forall|j: int| 0 <= j < s.len() && j != i implies (#[trigger] s[j]).role.0 != 1 by {
                assert(!p(s[j]));
            }
        }
        if exists|i: int|
            0 <= i < s.len() && (#[trigger] s[i]).role.0 == 1 && forall|j: int|
                0 <= j < s.len() && j != i ==> (#[trigger] s[j]).role.0 != 1 {
            let i = choose|i: int|
                0 <= i < s.len() && (#[trigger] s[i]).role.0 == 1 && forall|j: int|
                    0 <= j < s.len() && j != i ==> (#[trigger] s[j]).role.0 != 1;
            assert(only_at(s, p, i));
            one_passing_is_kept(s, p, i);
        }
        let roster = state.roster();
        if forall|id: Seq<char>| !#[trigger] roster.contains_key(id) {
            assert(roster.dom() =~= Set::<Seq<char>>::empty());
        } else {
            let id = choose|id: Seq<char>| #[trigger] roster.contains_key(id);
            assert(roster.dom().contains(id));
        }
    }
}

/// The item at `i`, and no other, passes the test.
spec fn only_at<A>(s: Seq<A>, p: spec_fn(A) -> bool, i: int) -> bool {
    0 <= i < s.len() && p(s[i]) && forall|j: int| 0 <= j < s.len() && j != i ==> !p(#[trigger] s[j])
}

proof fn none_passes<A>(s: Seq<A>, p: spec_fn(A) -> bool)
    requires
        forall|i: int| 0 <= i < s.len() ==> !p(#[trigger] s[i]),
    ensures
        s.filter(p).len() == 0,
    decreases s.len(),
{
    reveal(Seq::filter);
    if s.len() > 0 {
        none_passes(s.drop_last(), p);
    }
}

proof fn a_passing_item_is_kept<A>(s: Seq<A>, p: spec_fn(A) -> bool, i: int)
    requires
        0 <= i < s.len(),
        p(s[i]),
    ensures
        s.filter(p).len() > 0,
    decreases s.len(),
{
    reveal(Seq::filter);
    if i < s.len() - 1 {
        a_passing_item_is_kept(s.drop_last(), p, i);
    }
}

proof fn one_kept_passes<A>(s: Seq<A>, p: spec_fn(A) -> bool) -> (i: int)
    requires
        s.filter(p).len() == 1,
    ensures
        only_at(s, p, i),
    decreases s.len(),
{
    reveal(Seq::filter);
    let t = s.drop_last();
    let n = s.len() - 1;
    if p(s[n]) {
        assert forall|j: int| 0 <= j < s.len() && j != n implies !p(#[trigger] s[j]) by {
            if p(s[j]) {
                a_passing_item_is_kept(t, p, j);
            }
        }
        n
    } else {
        let i = one_kept_passes(t, p);
        assert forall|j: int| 0 <= j < s.len() && j != i implies !p(#[trigger] s[j]) by {
            if j < n {
                assert(!p(t[j]));
            }
        }
        i
    }
}

proof fn one_passing_is_kept<A>(s: Seq<A>, p: spec_fn(A) -> bool, i: int)
    requires
        only_at(s, p, i),
    ensures
        s.filter(p).len() == 1,
    decreases s.len(),
{
    reveal(Seq::filter);
    let t = s.drop_last();
    let n = s.len() - 1;
    if i == n {
        assert forall|j: int| 0 <= j < t.len() implies !p(#[trigger] t[j]) by {
            assert(!p(s[j]));
        }
        none_passes(t, p);
    } else {
        assert forall|j: int| 0 <= j < t.len() && j != i implies !p(#[trigger] t[j]) by {
            assert(!p(s[j]));
        }
        assert(!p(s[n]));
        one_passing_is_kept(t, p, i);
    }
}

/// A stronger member may do whatever a weaker one may, but for the weaker one's own leave.
pub proof fn a_stronger_role_grants_no_less(
    state: KeyringState,
    strong: String,
    weak: String,
    action: KeyringAction,
    strong_may: bool,
    weak_may: bool,
)
    requires
        state.wf(),
        ranks(state.roster(), strong@, i16::MIN as int, i16::MAX as int),
        ranks(state.roster(), weak@, i16::MIN as int, i16::MAX as int),
        state.roster()[strong@].role.0 <= state.roster()[weak@].role.0,
        action !is Create,
        !acts_on(action, weak@),
        call_ensures(KeyringAccess::is_authorized, (&KeyringAccess, &state, &strong, &action), strong_may),
        call_ensures(KeyringAccess::is_authorized, (&KeyringAccess, &state, &weak, &action), weak_may),
    ensures
        weak_may ==> strong_may,
{
}

/// The actions that change the authority structure are those that make, re-role, re-key or remove an owner or
/// co-owner, the steps of a vote, and those of a recovery.
pub proof fn what_is_privileged(state: KeyringState, action: KeyringAction, r: bool)
    requires
        state.wf(),
        call_ensures(KeyringAccess::is_privileged, (&KeyringAccess, &state, &action), r),
    ensures
        r <==> match action {
            KeyringAction::Add { role, .. } => role.0 <= 2,
            KeyringAction::Remove { member } => held_role(state.roster(), member@) <= 2,
            KeyringAction::ChangeRole { member, new_role } => new_role.0 <= 2 || held_role(state.roster(), member@) <= 2,
            KeyringAction::Retarget { member, .. } => held_role(state.roster(), member@) <= 2,
            _ => !(action is Create || action is Reseal),
        },
{
}

} // verus!
