//! Multi-signer governance: how many approvals a privileged change needs, and whose.

use vstd::prelude::*;

use crate::keyring_api::ROLE_CO_OWNER;
use crate::keyring_dag::access::{authorized, KeyringAccess, KeyringAction, KeyringState, Roster};
use crate::order::text_equal;
use crate::sorted::SortedSet;

verus! {

/// The per-keyring governance rule.
#[derive(Clone, Copy, Debug, PartialEq, Eq, Structural)]
pub enum QuorumRule {
    /// The founder alone.
    FounderOnly,
    /// The founder alone, or every co-owner.
    FounderOrUnanimity,
    /// The founder alone, or at least this many co-owners.
    FounderOrThreshold(usize),
    /// At least this many signers, the founder among equals.
    Threshold(usize),
}

/// Whose approvals authorize a change.
pub enum Requirement {
    Sole(String),
    All(SortedSet<String>),
    Threshold(usize, SortedSet<String>),
    Either(Box<Requirement>, Box<Requirement>),
}

/// What a requirement asks.
pub enum RequirementModel {
    Sole(Seq<char>),
    All(Set<Seq<char>>),
    Threshold(usize, Set<Seq<char>>),
    Either(Box<RequirementModel>, Box<RequirementModel>),
}

impl Requirement {
    pub open spec fn model(self) -> RequirementModel
        decreases self,
    {
        match self {
            Requirement::Sole(id) => RequirementModel::Sole(id@),
            Requirement::All(ids) => RequirementModel::All(ids@),
            Requirement::Threshold(m, ids) => RequirementModel::Threshold(m, ids@),
            Requirement::Either(a, b) => RequirementModel::Either(Box::new((*a).model()), Box::new((*b).model())),
        }
    }

    pub open spec fn wf(self) -> bool
        decreases self,
    {
        match self {
            Requirement::Sole(_) => true,
            Requirement::All(ids) => ids.wf(),
            Requirement::Threshold(_, ids) => ids.wf(),
            Requirement::Either(a, b) => (*a).wf() && (*b).wf(),
        }
    }
}

/// The member that a change acts on, whose own consent it does not need.
pub open spec fn target_of(action: KeyringAction) -> Option<Seq<char>> {
    match action {
        KeyringAction::Remove { member } => Some(member@),
        KeyringAction::ChangeRole { member, .. } => Some(member@),
        _ => None,
    }
}

/// The active members that are signers, but for `excluded`.
pub open spec fn signers_but(roster: Roster, excluded: Option<Seq<char>>) -> Set<Seq<char>> {
    roster.dom().filter(|id: Seq<char>| roster[id].active() && roster[id].role.signer() && Some(id) != excluded)
}

/// The active members that are co-owners, but for `excluded`.
pub open spec fn co_owners_but(roster: Roster, excluded: Option<Seq<char>>) -> Set<Seq<char>> {
    roster.dom().filter(
        |id: Seq<char>| roster[id].active() && roster[id].role.0 == ROLE_CO_OWNER && Some(id) != excluded,
    )
}

/// `id` is the active owner; of several, the first by id.
pub open spec fn is_founder(state: KeyringState, id: Seq<char>) -> bool {
    exists|i: int|
        0 <= i < state.members.keys.len() && #[trigger] state.members.keys@[i]@ == id && founder_at(state, i) && forall|j: int|
            0 <= j < i ==> !#[trigger] founder_at(state, j)
}

pub open spec fn founder_at(state: KeyringState, i: int) -> bool {
    state.members.values@[i].active() && state.members.values@[i].role.owner()
}

/// No approvals suffice.
pub open spec fn unmeetable() -> RequirementModel {
    RequirementModel::All(Set::empty())
}

/// What a rule asks of a change that the founder could make alone.
pub open spec fn rule_requirement(rule: QuorumRule, roster: Roster, founder: Seq<char>, target: KeyringAction) -> RequirementModel {
    let excluded = target_of(target);
    match rule {
        QuorumRule::FounderOnly => RequirementModel::Sole(founder),
        QuorumRule::FounderOrUnanimity => RequirementModel::Either(
            Box::new(RequirementModel::Sole(founder)),
            Box::new(RequirementModel::All(co_owners_but(roster, excluded))),
        ),
        QuorumRule::FounderOrThreshold(m) => RequirementModel::Either(
            Box::new(RequirementModel::Sole(founder)),
            Box::new(RequirementModel::Threshold(m, co_owners_but(roster, excluded))),
        ),
        QuorumRule::Threshold(m) => RequirementModel::Threshold(m, signers_but(roster, excluded)),
    }
}

fn target_member(action: &KeyringAction) -> (r: Option<&String>)
    ensures
        match r {
            Some(id) => target_of(*action) == Some(id@),
            None => target_of(*action) is None,
        },
{
    match action {
        KeyringAction::Remove { member } => Some(member),
        KeyringAction::ChangeRole { member, .. } => Some(member),
        _ => None,
    }
}

/// The active owner, if there is one.
pub fn active_owner(state: &KeyringState) -> (r: Option<String>)
    requires
        state.wf(),
    ensures
        match r {
            Some(id) => is_founder(*state, id@),
            None => forall|i: int| 0 <= i < state.members.keys.len() ==> !#[trigger] founder_at(*state, i),
        },
{
    let mut i: usize = 0;
    while i < state.members.keys.len()
        invariant
            state.wf(),
            i <= state.members.keys.len(),
            forall|j: int| 0 <= j < i ==> !#[trigger] founder_at(*state, j),
        decreases state.members.keys.len() - i,
    {
        let m = &state.members.values[i];
        if m.is_active() && m.role.is_owner() {
            assert(founder_at(*state, i as int));
            return Some(state.members.keys[i].clone());
        }
        i = i + 1;
    }
    None
}

/// The multi-signer policy under one rule. A quorum can authorize exactly what the founder could do alone.
#[derive(Clone, Copy, Debug)]
pub struct KeyringQuorum {
    pub rule: QuorumRule,
}

impl KeyringQuorum {
    #[must_use]
    pub fn new(rule: QuorumRule) -> (r: KeyringQuorum)
        ensures
            r.rule == rule,
    {
        KeyringQuorum { rule }
    }

    /// The founder alone governs.
    #[must_use]
    pub fn founder_only() -> (r: KeyringQuorum)
        ensures
            r.rule == QuorumRule::FounderOnly,
    {
        KeyringQuorum::new(QuorumRule::FounderOnly)
    }

    /// The founder alone, or every co-owner.
    #[must_use]
    pub fn founder_or_unanimity() -> (r: KeyringQuorum)
        ensures
            r.rule == QuorumRule::FounderOrUnanimity,
    {
        KeyringQuorum::new(QuorumRule::FounderOrUnanimity)
    }

    /// The founder alone, or at least `m` co-owners.
    #[must_use]
    pub fn founder_or_threshold(m: usize) -> (r: KeyringQuorum)
        ensures
            r.rule == QuorumRule::FounderOrThreshold(m),
    {
        KeyringQuorum::new(QuorumRule::FounderOrThreshold(m))
    }

    /// At least `m` signers.
    #[must_use]
    pub fn threshold(m: usize) -> (r: KeyringQuorum)
        ensures
            r.rule == QuorumRule::Threshold(m),
    {
        KeyringQuorum::new(QuorumRule::Threshold(m))
    }

    fn signer_set(state: &KeyringState, excluded: Option<&String>, only_co_owners: bool) -> (r: SortedSet<String>)
        requires
            state.wf(),
        ensures
            r.wf(),
            r@ == (if only_co_owners {
                co_owners_but(state.roster(), match excluded {
                    Some(id) => Some(id@),
                    None => None,
                })
            } else {
                signers_but(state.roster(), match excluded {
                    Some(id) => Some(id@),
                    None => None,
                })
            }),
    {
        let ghost ex: Option<Seq<char>> = match excluded {
            Some(id) => Some(id@),
            None => None,
        };
        let ghost wanted = if only_co_owners {
            co_owners_but(state.roster(), ex)
        } else {
            signers_but(state.roster(), ex)
        };
        let mut out: SortedSet<String> = SortedSet::new();
        let mut i: usize = 0;
        proof {
            state.members.facts();
        }
        while i < state.members.keys.len()
            invariant
                state.wf(),
                i <= state.members.keys.len(),
                out.wf(),
                forall|k: int|
                    0 <= k < state.members.keys.len() ==> state.roster().contains_key(#[trigger] state.members.keys@[k]@)
                        && state.roster()[state.members.keys@[k]@] == state.members.values@[k],
                ex == (match excluded {
                    Some(id) => Some(id@),
                    None => None,
                }),
                wanted == (if only_co_owners {
                    co_owners_but(state.roster(), ex)
                } else {
                    signers_but(state.roster(), ex)
                }),
                forall|x: Seq<char>| #[trigger] out@.contains(x) <==> wanted.contains(x) && exists|k: int|
                    0 <= k < i && #[trigger] state.members.keys@[k]@ == x,
            decreases state.members.keys.len() - i,
        {
            let id = &state.members.keys[i];
            let m = &state.members.values[i];
            let kept = match excluded {
                Some(e) => !text_equal(e.as_str(), id.as_str()),
                None => true,
            };
            let ranked = if only_co_owners {
                m.role.0 == ROLE_CO_OWNER
            } else {
                m.role.is_signer()
            };
            let ghost before = out@;
            if m.is_active() && ranked && kept {
                out.insert(id.clone());
                assert(wanted.contains(id@));
                assert(out@ == before.insert(id@));
            } else {
                assert(!wanted.contains(id@));
            }
            proof {
                assert forall|x: Seq<char>| #[trigger] out@.contains(x) <==> wanted.contains(x) && exists|k: int|
                    0 <= k < i + 1 && #[trigger] state.members.keys@[k]@ == x by {
                    if before.contains(x) {
                        let k = choose|k: int| 0 <= k < i && #[trigger] state.members.keys@[k]@ == x;
                        assert(0 <= k < i + 1);
                    }
                    if x == id@ {
                        assert(state.members.keys@[i as int]@ == x);
                    }
                    if wanted.contains(x) && exists|k: int| 0 <= k < i + 1 && #[trigger] state.members.keys@[k]@ == x {
                        let k = choose|k: int| 0 <= k < i + 1 && #[trigger] state.members.keys@[k]@ == x;
                        if k < i {
                            assert(before.contains(x));
                        }
                    }
                }
            }
            i = i + 1;
        }
        proof {
            assert forall|x: Seq<char>| out@.contains(x) == wanted.contains(x) by {
                if wanted.contains(x) {
                    assert(state.roster().contains_key(x));
                }
            }
            assert(out@ =~= wanted);
        }
        out
    }

    /// Who may propose and approve: every signer, but for the member that the change acts on.
    pub fn eligible(&self, state: &KeyringState, target: &KeyringAction) -> (r: SortedSet<String>)
        requires
            state.wf(),
        ensures
            r.wf(),
            r@ == signers_but(state.roster(), target_of(*target)),
    {
        KeyringQuorum::signer_set(state, target_member(target), false)
    }

    /// Whose approvals authorize `target`: what the rule asks, where the founder could make the change alone, and
    /// no approvals at all otherwise.
    pub fn requirement(&self, state: &KeyringState, target: &KeyringAction) -> (r: Requirement)
        requires
            state.wf(),
        ensures
            r.wf(),
            forall|founder: Seq<char>| #[trigger]
                is_founder(*state, founder) ==> r.model() == (if authorized(state.roster(), founder, *target) {
                    rule_requirement(self.rule, state.roster(), founder, *target)
                } else {
                    unmeetable()
                }),
            (forall|founder: Seq<char>| !#[trigger] is_founder(*state, founder)) ==> r.model() == unmeetable(),
    {
        proof {
            reveal_with_fuel(Requirement::model, 3);
            reveal_with_fuel(Requirement::wf, 3);
        }
        let founder: String = match active_owner(state) {
            Some(f) => f,
            None => {
                return Requirement::All(SortedSet::new());
            },
        };
        proof {
            assert forall|other: Seq<char>| #[trigger] is_founder(*state, other) implies other == founder@ by {
                founder_is_unique(*state, other, founder@);
            }
        }
        let access = KeyringAccess;
        if !access.is_authorized(state, &founder, target) {
            return Requirement::All(SortedSet::new());
        }
        let excluded = target_member(target);
        match self.rule {
            QuorumRule::FounderOnly => Requirement::Sole(founder),
            QuorumRule::FounderOrUnanimity => Requirement::Either(
                Box::new(Requirement::Sole(founder)),
                Box::new(Requirement::All(KeyringQuorum::signer_set(state, excluded, true))),
            ),
            QuorumRule::FounderOrThreshold(m) => Requirement::Either(
                Box::new(Requirement::Sole(founder)),
                Box::new(Requirement::Threshold(m, KeyringQuorum::signer_set(state, excluded, true))),
            ),
            QuorumRule::Threshold(m) => Requirement::Threshold(m, KeyringQuorum::signer_set(state, excluded, false)),
        }
    }
}

proof fn founder_is_unique(state: KeyringState, a: Seq<char>, b: Seq<char>)
    requires
        is_founder(state, a),
        is_founder(state, b),
    ensures
        a == b,
{
    let i = choose|i: int|
        0 <= i < state.members.keys.len() && #[trigger] state.members.keys@[i]@ == a && founder_at(state, i) && forall|j: int|
            0 <= j < i ==> !#[trigger] founder_at(state, j);
    let k = choose|i: int|
        0 <= i < state.members.keys.len() && #[trigger] state.members.keys@[i]@ == b && founder_at(state, i) && forall|j: int|
            0 <= j < i ==> !#[trigger] founder_at(state, j);
    if i < k {
        assert(founder_at(state, i));
    } else if k < i {
        assert(founder_at(state, k));
    }
}

/// The approvers that a requirement names.
pub open spec fn named(r: RequirementModel) -> Set<Seq<char>>
    decreases r,
{
    match r {
        RequirementModel::Sole(id) => set![id],
        RequirementModel::All(ids) => ids,
        RequirementModel::Threshold(_, ids) => ids,
        RequirementModel::Either(a, b) => named(*a).union(named(*b)),
    }
}

/// No quorum can evict or demote an owner.
pub proof fn no_quorum_unseats_the_owner(state: KeyringState, founder: Seq<char>, target: KeyringAction, owner: Seq<char>)
    requires
        is_founder(state, founder),
        state.roster().contains_key(owner),
        state.roster()[owner].role.owner(),
        target_of(target) == Some(owner),
    ensures
        !authorized(state.roster(), founder, target),
{
    crate::keyring_dag::access::the_owner_is_immutable(state.roster(), founder, target, owner);
}

/// A member who is not the founder has no say in a change that acts on them.
pub proof fn the_target_has_no_say(rule: QuorumRule, roster: Roster, founder: Seq<char>, target: KeyringAction, member: Seq<char>)
    requires
        target_of(target) == Some(member),
        member != founder,
    ensures
        !signers_but(roster, target_of(target)).contains(member),
        !named(rule_requirement(rule, roster, founder, target)).contains(member),
{
    reveal_with_fuel(named, 3);
}

} // verus!
