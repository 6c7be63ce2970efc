//! Roles, membership actions, the resolved group state, and who may author which action.

use vstd::prelude::*;

use crate::keyring_api::{derive_member_id, member_id_of, ROLE_CO_OWNER, ROLE_OWNER, ROLE_VIEWER};
use crate::order::text_equal;
use crate::sorted::SortedMap;

verus! {

/// A keyring role, power-descending: lower is stronger.
#[derive(Clone, Copy, Debug, PartialEq, Eq, Hash, PartialOrd, Ord, Structural)]
pub struct KeyringRole(pub i16);

impl KeyringRole {
    /// A signer is a co-owner or stronger.
    pub open spec fn signer(self) -> bool {
        self.0 <= ROLE_CO_OWNER
    }

    /// The owner.
    pub open spec fn owner(self) -> bool {
        self.0 == ROLE_OWNER
    }

    /// A stronger role grants everything that a weaker one does.
    pub open spec fn grants(self, other: KeyringRole) -> bool {
        self.0 <= other.0
    }

    pub fn is_signer(self) -> (r: bool)
        ensures
            r == self.signer(),
    {
        self.0 <= ROLE_CO_OWNER
    }

    pub fn is_owner(self) -> (r: bool)
        ensures
            r == self.owner(),
    {
        self.0 == ROLE_OWNER
    }

    pub fn grants_at_least(&self, other: &KeyringRole) -> (r: bool)
        ensures
            r == self.grants(*other),
    {
        self.0 <= other.0
    }
}

/// A member as an action admits it.
#[derive(Clone, Debug, PartialEq, Eq)]
pub struct KeyringMemberInit {
    pub id: String,
    pub role: KeyringRole,
    pub author_public_key: [u8; 32],
    pub hpke_public_key: [u8; 32],
}

/// A membership action.
#[derive(Debug, PartialEq, Eq)]
pub enum KeyringAction {
    Create { initial_members: Vec<KeyringMemberInit> },
    Add {
        member: String,
        role: KeyringRole,
        author_public_key: [u8; 32],
        hpke_public_key: [u8; 32],
        member_proof: Option<[u8; 64]>,
    },
    Remove { member: String },
    ChangeRole { member: String, new_role: KeyringRole },
    Propose { proposal_id: [u8; 32], target: Box<KeyringAction> },
    Approve { proposal_id: [u8; 32] },
    Commit { proposal_id: [u8; 32] },
    ReFound { member: String, new_author_public_key: [u8; 32], new_hpke_public_key: [u8; 32], era: u64 },
    RotateRecoveryAuthority { new_reset_authority: [u8; 32] },
    Retarget { member: String, new_author_public_key: [u8; 32], new_hpke_public_key: [u8; 32] },
    Reseal,
}

/// A signed membership operation, identified by its content hash.
#[derive(Debug, PartialEq, Eq)]
pub struct KeyringOp {
    pub id: [u8; 32],
    pub group_id: Vec<u8>,
    pub parents: Vec<[u8; 32]>,
    pub author: String,
    pub action: KeyringAction,
    pub signature: [u8; 64],
    pub author_public_key: [u8; 32],
    /// An opaque payload that the signature covers.
    pub sealing: Vec<u8>,
}

/// A member's resolved state. A removed member keeps an odd `member_counter`.
#[derive(Clone, Copy, Debug, PartialEq, Eq)]
pub struct MemberState {
    pub role: KeyringRole,
    pub member_counter: u64,
    pub access_counter: u64,
    pub author_public_key: [u8; 32],
    pub hpke_public_key: [u8; 32],
}

impl MemberState {
    /// Whether the member is part of the group now.
    pub open spec fn active(self) -> bool {
        self.member_counter % 2 == 0
    }

    pub fn is_active(&self) -> (r: bool)
        ensures
            r == self.active(),
    {
        self.member_counter % 2 == 0
    }
}

/// The members of a group, by id.
pub type Roster = Map<Seq<char>, MemberState>;

/// The resolved state of a group.
pub struct KeyringState {
    pub group_id: Vec<u8>,
    pub members: SortedMap<String, MemberState>,
    pub reset_authority: Option<[u8; 32]>,
}

impl KeyringState {
    pub open spec fn wf(&self) -> bool {
        self.members.wf()
    }

    pub open spec fn roster(&self) -> Roster {
        self.members@
    }

    /// A group with no members.
    pub fn empty(group_id: Vec<u8>, reset_authority: Option<[u8; 32]>) -> (r: KeyringState)
        ensures
            r.wf(),
            r.group_id == group_id,
            r.reset_authority == reset_authority,
            r.roster() == Map::<Seq<char>, MemberState>::empty(),
    {
        KeyringState { group_id, members: SortedMap::new(), reset_authority }
    }
}

/// A member id certifies an author key when it is the id derived from that key.
pub open spec fn binds(member_id: Seq<char>, author_public_key: Seq<u8>) -> bool {
    member_id == member_id_of(author_public_key)
}

/// Whether a member id certifies the author key it comes with.
pub fn member_id_binds_key(member_id: &str, author_public_key: &[u8]) -> (r: bool)
    ensures
        r == binds(member_id@, author_public_key@),
{
    let derived: String = derive_member_id(author_public_key);
    text_equal(member_id, derived.as_str())
}

/// The role a member holds; one who is absent counts as a viewer.
pub open spec fn role_in(roster: Roster, member: Seq<char>) -> KeyringRole {
    if roster.contains_key(member) {
        roster[member].role
    } else {
        KeyringRole(ROLE_VIEWER)
    }
}

/// The weakest role that may touch a member of role `target`: the owner for a signer, any signer for another.
pub open spec fn needed_to_touch(target: KeyringRole) -> KeyringRole {
    if target.signer() {
        KeyringRole(ROLE_OWNER)
    } else {
        KeyringRole(ROLE_CO_OWNER)
    }
}

pub open spec fn may_touch(author: KeyringRole, target: KeyringRole) -> bool {
    author.grants(needed_to_touch(target))
}

/// A founding action seeds a group that has no members, under exactly one owner, by one of its own members, each of
/// whose ids certifies its key.
pub open spec fn may_create(roster: Roster, author: Seq<char>, initial: Seq<KeyringMemberInit>) -> bool {
    &&& roster.dom() == Set::<Seq<char>>::empty()
    &&& initial.filter(|m: KeyringMemberInit| m.role.owner()).len() == 1
    &&& exists|i: int| 0 <= i < initial.len() && (#[trigger] initial[i]).id@ == author
    &&& forall|i: int| 0 <= i < initial.len() ==> binds((#[trigger] initial[i]).id@, initial[i].author_public_key@)
}

/// What an active member of role `role` may do.
pub open spec fn member_may(roster: Roster, author: Seq<char>, role: KeyringRole, action: KeyringAction) -> bool {
    match action {
        KeyringAction::Create { .. } => false,
        KeyringAction::Add { member, role: added, author_public_key, .. } => {
            !added.owner() && may_touch(role, added) && binds(member@, author_public_key@)
        },
        KeyringAction::ChangeRole { member, new_role } => {
            let current = role_in(roster, member@);
            !current.owner() && !new_role.owner() && may_touch(role, current) && may_touch(role, new_role)
        },
        KeyringAction::Remove { member } => {
            let current = role_in(roster, member@);
            !current.owner() && (author == member@ || may_touch(role, current))
        },
        KeyringAction::Propose { .. } | KeyringAction::Approve { .. } | KeyringAction::Commit { .. } => role.signer(),
        KeyringAction::ReFound { .. } => false,
        KeyringAction::RotateRecoveryAuthority { .. } => false,
        KeyringAction::Retarget { .. } => false,
        KeyringAction::Reseal => true,
    }
}

/// Whether `author` may perform `action` on a group with these members.
pub open spec fn authorized(roster: Roster, author: Seq<char>, action: KeyringAction) -> bool {
    match action {
        KeyringAction::Create { initial_members } => may_create(roster, author, initial_members@),
        _ => roster.contains_key(author) && roster[author].active() && member_may(
            roster,
            author,
            roster[author].role,
            action,
        ),
    }
}

/// Whether an action changes the authority structure: the signers, the governance, or the recovery authority.
pub open spec fn privileged(roster: Roster, action: KeyringAction) -> bool {
    match action {
        KeyringAction::Add { role, .. } => role.signer(),
        KeyringAction::ChangeRole { member, new_role } => new_role.signer() || role_in(roster, member@).signer(),
        KeyringAction::Remove { member } => role_in(roster, member@).signer(),
        KeyringAction::Retarget { member, .. } => role_in(roster, member@).signer(),
        KeyringAction::Propose { .. }
        | KeyringAction::Approve { .. }
        | KeyringAction::Commit { .. }
        | KeyringAction::ReFound { .. }
        | KeyringAction::RotateRecoveryAuthority { .. } => true,
        KeyringAction::Reseal | KeyringAction::Create { .. } => false,
    }
}

/// The keyring's authority: signer-gated, with a unique owner who can be neither removed nor demoted.
pub struct KeyringAccess;

impl KeyringAccess {
    /// The weakest role permitted to touch a member whose role is `target`.
    pub fn required_for(target: KeyringRole) -> (r: KeyringRole)
        ensures
            r == needed_to_touch(target),
    {
        if target.is_signer() {
            KeyringRole(ROLE_OWNER)
        } else {
            KeyringRole(ROLE_CO_OWNER)
        }
    }

    /// The role a member holds; one who is absent counts as a viewer.
    pub fn role_of(state: &KeyringState, member: &String) -> (r: KeyringRole)
        requires
            state.wf(),
        ensures
            r == role_in(state.roster(), member@),
    {
        match state.members.get(member) {
            Some(m) => m.role,
            None => KeyringRole(ROLE_VIEWER),
        }
    }

    fn creation_is_authorized(state: &KeyringState, author: &String, initial_members: &Vec<KeyringMemberInit>) -> (r: bool)
        requires
            state.wf(),
        ensures
            r == may_create(state.roster(), author@, initial_members@),
    {
        let mut owners: usize = 0;
        let mut listed = false;
        let mut all_bind = true;
        let mut i: usize = 0;
        let ghost p = |m: KeyringMemberInit| m.role.owner();
        proof {
            reveal(Seq::filter);
            state.members.facts();
            if state.members.keys.len() == 0 {
                assert(state.roster().dom() =~= Set::<Seq<char>>::empty());
            } else {
                assert(state.roster().dom().contains(state.members.keys@[0]@));
            }
        }
        while i < initial_members.len()
            invariant
                i <= initial_members.len(),
                p == (|m: KeyringMemberInit| m.role.owner()),
                owners == initial_members@.take(i as int).filter(p).len(),
                owners <= i,
                listed == exists|k: int| 0 <= k < i && (#[trigger] initial_members@[k]).id@ == author@,
                all_bind == forall|k: int|
                    0 <= k < i ==> binds((#[trigger] initial_members@[k]).id@, initial_members@[k].author_public_key@),
            decreases initial_members.len() - i,
        {
            let m = &initial_members[i];
            proof {
                assert(initial_members@.take(i + 1) =~= initial_members@.take(i as int).push(*m));
                initial_members@.take(i as int).lemma_filter_push(*m, p);
            }
            if m.role.is_owner() {
                owners = owners + 1;
            }
            if text_equal(m.id.as_str(), author.as_str()) {
                listed = true;
            }
            if !member_id_binds_key(m.id.as_str(), m.author_public_key.as_slice()) {
                all_bind = false;
            }
            i = i + 1;
        }
        assert(initial_members@.take(i as int) =~= initial_members@);
        state.members.keys.len() == 0 && owners == 1 && listed && all_bind
    }

    /// Whether `author` may perform `action` at this point.
    pub fn is_authorized(&self, state: &KeyringState, author: &String, action: &KeyringAction) -> (r: bool)
        requires
            state.wf(),
        ensures
            r == authorized(state.roster(), author@, *action),
    {
        if let KeyringAction::Create { initial_members } = action {
            return KeyringAccess::creation_is_authorized(state, author, initial_members);
        }
        let author_role: KeyringRole;
        match state.members.get(author) {
            Some(m) => {
                if !m.is_active() {
                    return false;
                }
                author_role = m.role;
            },
            None => {
                return false;
            },
        }
        match action {
            KeyringAction::Create { .. } => false,
            KeyringAction::Add { member, role, author_public_key, .. } => {
                !role.is_owner() && author_role.grants_at_least(&KeyringAccess::required_for(*role)) && member_id_binds_key(
                    member.as_str(),
                    author_public_key.as_slice(),
                )
            },
            KeyringAction::ChangeRole { member, new_role } => {
                let current: KeyringRole = KeyringAccess::role_of(state, member);
                !current.is_owner() && !new_role.is_owner() && author_role.grants_at_least(
                    &KeyringAccess::required_for(current),
                ) && author_role.grants_at_least(&KeyringAccess::required_for(*new_role))
            },
            KeyringAction::Remove { member } => {
                let current: KeyringRole = KeyringAccess::role_of(state, member);
                if current.is_owner() {
                    return false;
                }
                if text_equal(author.as_str(), member.as_str()) {
                    return true;
                }
                author_role.grants_at_least(&KeyringAccess::required_for(current))
            },
            KeyringAction::Propose { .. } | KeyringAction::Approve { .. } | KeyringAction::Commit { .. } => {
                author_role.is_signer()
            },
            KeyringAction::ReFound { .. } => false,
            KeyringAction::RotateRecoveryAuthority { .. } => false,
            KeyringAction::Retarget { .. } => false,
            KeyringAction::Reseal => true,
        }
    }

    /// Whether `action` changes the authority structure.
    pub fn is_privileged(&self, state: &KeyringState, action: &KeyringAction) -> (r: bool)
        requires
            state.wf(),
        ensures
            r == privileged(state.roster(), *action),
    {
        match action {
            KeyringAction::Add { role, .. } => role.is_signer(),
            KeyringAction::ChangeRole { member, new_role } => {
                new_role.is_signer() || KeyringAccess::role_of(state, member).is_signer()
            },
            KeyringAction::Remove { member } => KeyringAccess::role_of(state, member).is_signer(),
            KeyringAction::Retarget { member, .. } => KeyringAccess::role_of(state, member).is_signer(),
            KeyringAction::Propose { .. }
            | KeyringAction::Approve { .. }
            | KeyringAction::Commit { .. }
            | KeyringAction::ReFound { .. }
            | KeyringAction::RotateRecoveryAuthority { .. } => true,
            KeyringAction::Reseal | KeyringAction::Create { .. } => false,
        }
    }
}

/// The owner can be neither removed nor demoted, by anyone, themselves included.
pub proof fn the_owner_is_immutable(roster: Roster, author: Seq<char>, action: KeyringAction, owner: Seq<char>)
    requires
        roster.contains_key(owner),
        roster[owner].role.owner(),
        action matches KeyringAction::Remove { member } ==> member@ == owner,
        action matches KeyringAction::ChangeRole { member, .. } ==> member@ == owner,
        action is Remove || action is ChangeRole,
    ensures
        !authorized(roster, author, action),
{
}

/// No one can be added as an owner or promoted into one.
pub proof fn no_second_owner(roster: Roster, author: Seq<char>, action: KeyringAction)
    requires
        match action {
            KeyringAction::Add { role, .. } => role.owner(),
            KeyringAction::ChangeRole { new_role, .. } => new_role.owner(),
            _ => false,
        },
    ensures
        !authorized(roster, author, action),
{
}

/// A member who is not a signer can write nothing to the keyring, but for leaving it and resealing.
pub proof fn a_non_signer_cannot_write(roster: Roster, author: Seq<char>, action: KeyringAction)
    requires
        roster.contains_key(author),
        !roster[author].role.signer(),
        authorized(roster, author, action),
    ensures
        action is Reseal || (action matches KeyringAction::Remove { member } && member@ == author),
{
    if action is Create {
        assert(roster.dom().contains(author));
    }
}

/// Only an owner can touch a signer: add one, promote into one, or re-role one; another's removal needs one too.
pub proof fn only_the_owner_touches_signers(roster: Roster, author: Seq<char>, action: KeyringAction)
    requires
        authorized(roster, author, action),
        match action {
            KeyringAction::Add { role, .. } => role.signer(),
            KeyringAction::ChangeRole { member, new_role } => new_role.signer() || role_in(roster, member@).signer(),
            KeyringAction::Remove { member } => role_in(roster, member@).signer() && member@ != author,
            _ => false,
        },
    ensures
        roster[author].role.0 <= ROLE_OWNER,
{
}

/// Every active member who is not an owner may leave.
pub proof fn a_non_owner_may_leave(roster: Roster, action: KeyringAction)
    requires
        action matches KeyringAction::Remove { member } && roster.contains_key(member@) && roster[member@].active()
            && !roster[member@].role.owner(),
    ensures
        action matches KeyringAction::Remove { member } && authorized(roster, member@, action),
{
}

/// A founding action can never take effect on a group that has members.
pub proof fn a_group_cannot_be_refounded(roster: Roster, author: Seq<char>, action: KeyringAction, member: Seq<char>)
    requires
        roster.contains_key(member),
        action is Create,
    ensures
        !authorized(roster, author, action),
{
    assert(roster.dom().contains(member));
}

/// Re-founding, rotating the recovery authority and re-keying a member are never authorized.
pub proof fn recovery_actions_are_dormant(roster: Roster, author: Seq<char>, action: KeyringAction)
    requires
        action is ReFound || action is RotateRecoveryAuthority || action is Retarget,
    ensures
        !authorized(roster, author, action),
{
}

/// A removed member authorizes nothing.
pub proof fn a_removed_member_has_no_authority(roster: Roster, author: Seq<char>, action: KeyringAction)
    requires
        roster.contains_key(author),
        !roster[author].active(),
    ensures
        !authorized(roster, author, action),
{
    if action is Create {
        assert(roster.dom().contains(author));
    }
}

/// Whoever an authorized action admits has an id that certifies their key.
pub proof fn admitted_ids_certify_their_keys(roster: Roster, author: Seq<char>, action: KeyringAction)
    requires
        authorized(roster, author, action),
    ensures
        action matches KeyringAction::Add { member, author_public_key, .. } ==> binds(member@, author_public_key@),
        action matches KeyringAction::Create { initial_members } ==> forall|i: int|
            0 <= i < initial_members@.len() ==> binds(
                (#[trigger] initial_members@[i]).id@,
                initial_members@[i].author_public_key@,
            ),
{
}

} // verus!
