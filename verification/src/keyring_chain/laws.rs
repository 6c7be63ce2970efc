//! What a keyring says of its signers, its wraps and its recovery authority.

use vstd::prelude::*;

use crate::keyring_chain::chain::{
    chain_error, from_linear_anchor, linear, map_linear_err, signers_of, to_linear_anchor, unlinear, AuthorizedContent, AuthorizedSigner, EngineError, KeyringAnchor,
    KeyringError, LinearAnchor,
};
use crate::keyring_chain::doc::{
    byte_views, epoch_contents, founder_at, narrow_role, newest, padded, pinned_rvk, reset_rvk, signer_contents, structure, to_pk32,
    usable_signatures, wrap_complete, wrap_contents, wrapped_for, EpochContent, KeyringDoc, Signer,
};
use crate::keyring_chain::wire::{
    Epoch, Keyring, Member, MemberContent, RecoveryContent, RecoveryKey, SignatureContent, WrapMethod,
};

verus! {

/// A role that fits keeps its number; one that does not is the weakest of all.
pub proof fn how_a_role_is_narrowed(role: i32, r: i16)
    requires
        call_ensures(narrow_role, (role,), r),
    ensures
        -0x8000 <= role < 0x8000 ==> r == role,
        !(-0x8000 <= role < 0x8000) ==> r == 0x7fff,
{
}

/// A key is its first thirty-two bytes, and zero where it has none.
pub proof fn how_a_key_is_padded(bytes: &[u8], r: [u8; 32])
    requires
        call_ensures(to_pk32, (bytes,), r),
    ensures
        forall|i: int| 0 <= i < 32 && i < bytes@.len() ==> #[trigger] r@[i] == bytes@[i],
        forall|i: int| bytes@.len() <= i < 32 ==> #[trigger] r@[i] == 0,
        bytes@.len() == 32 ==> r@ == bytes@,
{
    assert(r@.len() == 32);
}

/// The positions, in rising order, of the members who may sign.
pub open spec fn signer_places(members: Seq<Member>, at: Seq<int>) -> bool {
    &&& forall|k: int| 0 <= k < at.len() ==> 0 <= #[trigger] at[k] < members.len() && (members[at[k]].role == 1 || members[at[k]].role == 2)
    &&& forall|i: int| 0 <= i < members.len() && ((#[trigger] members[i]).role == 1 || members[i].role == 2) ==> at.contains(i)
    &&& forall|k: int, l: int| 0 <= k < l < at.len() ==> #[trigger] at[k] < #[trigger] at[l]
}

/// The signer is the member, under their own key and role.
pub open spec fn signs_as(m: Member, s: AuthorizedSigner) -> bool {
    s.member_id@ == m.member_id@ && s.public_key@ == m.author_public_key@ && s.role == m.role
}

proof fn places_of_signers(members: Seq<MemberContent>) -> (at: Seq<int>)
    ensures
        at.len() == signers_of(members).len(),
        forall|k: int|
            0 <= k < at.len() ==> 0 <= #[trigger] at[k] < members.len() && (members[at[k]].role == 1 || members[at[k]].role == 2)
                && signers_of(members)[k] == (AuthorizedContent {
                public_key: members[at[k]].author_public_key,
                member_id: members[at[k]].member_id,
                role: members[at[k]].role,
            }),
        forall|i: int| 0 <= i < members.len() && ((#[trigger] members[i]).role == 1 || members[i].role == 2) ==> at.contains(i),
        forall|k: int, l: int| 0 <= k < l < at.len() ==> #[trigger] at[k] < #[trigger] at[l],
    decreases members.len(),
{
    if members.len() == 0 {
        Seq::empty()
    } else {
        let t = members.drop_last();
        let n = members.len() - 1;
        let before = places_of_signers(t);
        assert forall|i: int| 0 <= i < n implies members[i] == t[i] by {}
        if 1 <= members[n].role <= 2 {
            let at = before.push(n);
            assert forall|i: int| 0 <= i < members.len() && ((#[trigger] members[i]).role == 1 || members[i].role == 2) implies at.contains(
                i,
            ) by {
                if i < n {
                    assert(t[i] == members[i]);
                    assert(before.contains(i));
                    let k = choose|k: int| 0 <= k < before.len() && before[k] == i;
                    assert(at[k] == i);
                } else {
                    assert(at[before.len() as int] == i);
                }
            }
            assert forall|k: int| 0 <= k < at.len() implies 0 <= #[trigger] at[k] < members.len() && (members[at[k]].role == 1
                || members[at[k]].role == 2) && signers_of(members)[k] == (AuthorizedContent {
                public_key: members[at[k]].author_public_key,
                member_id: members[at[k]].member_id,
                role: members[at[k]].role,
            }) by {
                if k < before.len() {
                    assert(at[k] == before[k]);
                    assert(t[before[k]] == members[at[k]]);
                }
            }
            at
        } else {
            assert forall|i: int| 0 <= i < members.len() && ((#[trigger] members[i]).role == 1 || members[i].role == 2) implies before.contains(
                i,
            ) by {
                assert(t[i] == members[i]);
            }
            assert forall|k: int| 0 <= k < before.len() implies 0 <= #[trigger] before[k] < members.len() && (members[before[k]].role == 1
                || members[before[k]].role == 2) && signers_of(members)[k] == (AuthorizedContent {
                public_key: members[before[k]].author_public_key,
                member_id: members[before[k]].member_id,
                role: members[before[k]].role,
            }) by {
                assert(t[before[k]] == members[before[k]]);
            }
            before
        }
    }
}

/// The key of the first recovery root that has one.
pub open spec fn first_authority(keys: Seq<RecoveryKey>, i: int) -> bool {
    &&& 0 <= i < keys.len() && keys[i].recovery_verifying_key@.len() > 0
    &&& forall|j: int| 0 <= j < i ==> (#[trigger] keys[j]).recovery_verifying_key@.len() == 0
}

proof fn authority_is_first(keys: Seq<RecoveryContent>, i: int)
    requires
        0 <= i < keys.len(),
        keys[i].recovery_verifying_key.len() > 0,
        forall|j: int| 0 <= j < i ==> (#[trigger] keys[j]).recovery_verifying_key.len() == 0,
    ensures
        pinned_rvk(keys) == Some(keys[i].recovery_verifying_key),
    decreases keys.len(),
{
    if i > 0 {
        let t = keys.drop_first();
        assert(keys[0].recovery_verifying_key.len() == 0);
        assert forall|j: int| 0 <= j < i - 1 implies (#[trigger] t[j]).recovery_verifying_key.len() == 0 by {
            assert(t[j] == keys[j + 1]);
        }
        authority_is_first(t, i - 1);
    }
}

proof fn no_authority(keys: Seq<RecoveryContent>)
    requires
        forall|j: int| 0 <= j < keys.len() ==> (#[trigger] keys[j]).recovery_verifying_key.len() == 0,
    ensures
        pinned_rvk(keys) is None,
    decreases keys.len(),
{
    if keys.len() > 0 {
        let t = keys.drop_first();
        assert forall|j: int| 0 <= j < t.len() implies (#[trigger] t[j]).recovery_verifying_key.len() == 0 by {
            assert(t[j] == keys[j + 1]);
        }
        no_authority(t);
    }
}

proof fn what_is_pinned(keyring: Keyring)
    ensures
        forall|i: int| #[trigger]
            first_authority(keyring.recovery_keys@, i) ==> pinned_rvk(keyring@.recovery_keys) == Some(
                keyring.recovery_keys@[i].recovery_verifying_key@,
            ),
        (forall|j: int| 0 <= j < keyring.recovery_keys@.len() ==> (#[trigger] keyring.recovery_keys@[j]).recovery_verifying_key@.len() == 0)
            ==> pinned_rvk(keyring@.recovery_keys) is None,
{
    let s = keyring.recovery_keys@;
    let all = keyring@.recovery_keys;
    assert forall|j: int| 0 <= j < s.len() implies #[trigger] all[j] == s[j]@ by {}
    assert forall|i: int| #[trigger] first_authority(s, i) implies pinned_rvk(all) == Some(s[i].recovery_verifying_key@) by {
        assert forall|j: int| 0 <= j < i implies (#[trigger] all[j]).recovery_verifying_key.len() == 0 by {
            assert(s[j].recovery_verifying_key@.len() == 0);
        }
        authority_is_first(all, i);
    }
    if forall|j: int| 0 <= j < s.len() ==> (#[trigger] s[j]).recovery_verifying_key@.len() == 0 {
        assert forall|j: int| 0 <= j < all.len() implies (#[trigger] all[j]).recovery_verifying_key.len() == 0 by {
            assert(s[j].recovery_verifying_key@.len() == 0);
        }
        no_authority(all);
    }
}

/// The recovery authority of a keyring is the first recovery root's that has one; and there is none where none has.
pub proof fn whose_recovery_authority_counts(keyring: Keyring, r: Option<Vec<u8>>)
    requires
        call_ensures(reset_rvk, (&keyring,), r),
    ensures
        forall|i: int| #[trigger]
            first_authority(keyring.recovery_keys@, i) ==> (r matches Some(v) && v@
                == keyring.recovery_keys@[i].recovery_verifying_key@),
        (forall|j: int| 0 <= j < keyring.recovery_keys@.len() ==> (#[trigger] keyring.recovery_keys@[j]).recovery_verifying_key@.len() == 0)
            ==> r is None,
{
    what_is_pinned(keyring);
}

/// What an anchor keeps of a keyring: its tree, revision, digest, governance and shared marker as they are; as signers its
/// owners and co-owners, each under their own key and role, in their order; and the first recovery authority, or no bytes
/// where there is none.
pub proof fn what_an_anchor_keeps(keyring: Keyring, keyring_hash: [u8; 32], a: KeyringAnchor) -> (at: Seq<int>)
    requires
        call_ensures(KeyringAnchor::from_keyring, (&keyring, keyring_hash), a),
    ensures
        a.tree_id@ == keyring.tree_id@,
        a.revision == keyring.revision,
        a.keyring_hash@ == keyring_hash@,
        a.governance_kind == keyring.governance_kind,
        a.governance_threshold == keyring.governance_threshold,
        a.first_shared_revision == keyring.first_shared_revision,
        signer_places(keyring.members@, at),
        a.trusted_signers@.len() == at.len(),
        forall|k: int| 0 <= k < at.len() ==> signs_as(keyring.members@[at[k]], #[trigger] a.trusted_signers@[k]),
        forall|i: int| #[trigger]
            first_authority(keyring.recovery_keys@, i) ==> a.recovery_verifying_key@ == keyring.recovery_keys@[i].recovery_verifying_key@,
        (forall|j: int| 0 <= j < keyring.recovery_keys@.len() ==> (#[trigger] keyring.recovery_keys@[j]).recovery_verifying_key@.len() == 0)
            ==> a.recovery_verifying_key@.len() == 0,
{
    what_is_pinned(keyring);
    let all = keyring@.members;
    let s = keyring.members@;
    assert forall|i: int| 0 <= i < s.len() implies #[trigger] all[i] == s[i]@ by {}
    let at = places_of_signers(all);
    assert(a@.trusted_signers.len() == a.trusted_signers@.len());
    assert(signer_places(s, at)) by {
        assert forall|i: int| 0 <= i < s.len() && ((#[trigger] s[i]).role == 1 || s[i].role == 2) implies at.contains(i) by {
            assert(all[i] == s[i]@);
        }
        assert forall|k: int| 0 <= k < at.len() implies 0 <= #[trigger] at[k] < s.len() && (s[at[k]].role == 1 || s[at[k]].role == 2) by {
            assert(all[at[k]] == s[at[k]]@);
        }
    }
    assert forall|k: int| 0 <= k < at.len() implies signs_as(s[at[k]], #[trigger] a.trusted_signers@[k]) by {
        assert(a@.trusted_signers[k] == a.trusted_signers@[k]@);
        assert(all[at[k]] == s[at[k]]@);
    }
    at
}

/// The engine's signer is the anchor's: the same member and role, under the same key where it has thirty-two bytes.
pub open spec fn same_signer(s: AuthorizedSigner, e: Signer) -> bool {
    e.id@ == s.member_id@ && (-0x8000 <= s.role < 0x8000 ==> e.role.0 == s.role) && (s.public_key@.len() == 32 ==> e.public_key@
        == s.public_key@)
}

/// The engine's anchor has every field as the tree's has it, every signer in order, and the recovery authority where there
/// is one.
pub open spec fn is_given(prior: KeyringAnchor, r: LinearAnchor) -> bool {
    &&& r.group_id@ == prior.tree_id@
    &&& r.revision == prior.revision
    &&& r.doc_hash@ == prior.keyring_hash@
    &&& r.governance_kind == prior.governance_kind
    &&& r.governance_threshold == prior.governance_threshold
    &&& r.signers@.len() == prior.trusted_signers@.len()
    &&& forall|k: int| 0 <= k < r.signers@.len() ==> same_signer(prior.trusted_signers@[k], #[trigger] r.signers@[k])
    &&& r.recovery_authority is None <==> prior.recovery_verifying_key@.len() == 0
    &&& prior.recovery_verifying_key@.len() == 32 ==> (r.recovery_authority matches Some(k) && k@ == prior.recovery_verifying_key@)
}

/// What the engine is given of an anchor.
pub proof fn what_the_engine_is_given(prior: KeyringAnchor, r: LinearAnchor)
    requires
        call_ensures(to_linear_anchor, (&prior,), r),
    ensures
        is_given(prior, r),
{
    given_as_linear(prior, r);
}

/// The engine's form of an anchor is what the engine is given.
pub proof fn given_as_linear(prior: KeyringAnchor, r: LinearAnchor)
    requires
        r@ == linear(prior@),
    ensures
        is_given(prior, r),
{
    assert(r@.signers.len() == r.signers@.len());
    assert(prior@.trusted_signers.len() == prior.trusted_signers@.len());
    assert forall|k: int| 0 <= k < r.signers@.len() implies same_signer(prior.trusted_signers@[k], #[trigger] r.signers@[k]) by {
        assert(r@.signers[k] == r.signers@[k]@);
        assert(prior@.trusted_signers[k] == prior.trusted_signers@[k]@);
        if prior.trusted_signers@[k].public_key@.len() == 32 {
            assert(padded(prior.trusted_signers@[k].public_key@) =~= prior.trusted_signers@[k].public_key@);
        }
    }
    if prior.recovery_verifying_key@.len() == 32 {
        assert(padded(prior.recovery_verifying_key@) =~= prior.recovery_verifying_key@);
    }
}

/// The tree's anchor has every field as the engine's has it, with this marker.
pub open spec fn is_taken(a: LinearAnchor, first_shared: u32, k: KeyringAnchor) -> bool {
    &&& k.tree_id@ == a.group_id@
    &&& k.revision == a.revision
    &&& k.keyring_hash@ == a.doc_hash@
    &&& k.governance_kind == a.governance_kind
    &&& k.governance_threshold == a.governance_threshold
    &&& k.first_shared_revision == first_shared
    &&& k.trusted_signers@.len() == a.signers@.len()
    &&& forall|i: int|
        0 <= i < k.trusted_signers@.len() ==> (#[trigger] k.trusted_signers@[i]).member_id@ == a.signers@[i].id@
            && k.trusted_signers@[i].public_key@ == a.signers@[i].public_key@ && k.trusted_signers@[i].role == a.signers@[i].role.0
    &&& a.recovery_authority matches Some(key) ==> k.recovery_verifying_key@ == key@
    &&& a.recovery_authority is None ==> k.recovery_verifying_key@.len() == 0
}

/// What is taken from the engine's anchor.
pub proof fn what_is_taken_from_the_engine(a: LinearAnchor, first_shared: u32, k: KeyringAnchor)
    requires
        call_ensures(from_linear_anchor, (a, first_shared), k),
    ensures
        is_taken(a, first_shared, k),
{
    taken_from_linear(a, first_shared, k);
}

/// The tree's form of an engine's anchor is what is taken from it.
pub proof fn taken_from_linear(a: LinearAnchor, first_shared: u32, k: KeyringAnchor)
    requires
        k@ == unlinear(a@, first_shared),
    ensures
        is_taken(a, first_shared, k),
{
    assert(k@.trusted_signers.len() == k.trusted_signers@.len());
    assert(a@.signers.len() == a.signers@.len());
    assert forall|i: int| 0 <= i < k.trusted_signers@.len() implies (#[trigger] k.trusted_signers@[i]).member_id@ == a.signers@[i].id@
        && k.trusted_signers@[i].public_key@ == a.signers@[i].public_key@ && k.trusted_signers@[i].role == a.signers@[i].role.0 by {
        assert(k@.trusted_signers[i] == k.trusted_signers@[i]@);
        assert(a@.signers[i] == a.signers@[i]@);
    }
}

/// An anchor whose keys have thirty-two bytes and whose roles are in range comes back from the engine's form as it was.
pub proof fn an_anchor_comes_back(prior: KeyringAnchor, given: LinearAnchor, back: KeyringAnchor)
    requires
        call_ensures(to_linear_anchor, (&prior,), given),
        call_ensures(from_linear_anchor, (given, prior.first_shared_revision), back),
        prior.recovery_verifying_key@.len() == 0 || prior.recovery_verifying_key@.len() == 32,
        forall|k: int|
            0 <= k < prior.trusted_signers@.len() ==> (#[trigger] prior.trusted_signers@[k]).public_key@.len() == 32 && -0x8000
                <= prior.trusted_signers@[k].role < 0x8000,
    ensures
        back.tree_id@ == prior.tree_id@,
        back.revision == prior.revision,
        back.keyring_hash@ == prior.keyring_hash@,
        back.governance_kind == prior.governance_kind,
        back.governance_threshold == prior.governance_threshold,
        back.first_shared_revision == prior.first_shared_revision,
        back.recovery_verifying_key@ == prior.recovery_verifying_key@,
        back.trusted_signers@.len() == prior.trusted_signers@.len(),
        forall|k: int|
            0 <= k < back.trusted_signers@.len() ==> (#[trigger] back.trusted_signers@[k]).member_id@ == prior.trusted_signers@[k].member_id@
                && back.trusted_signers@[k].public_key@ == prior.trusted_signers@[k].public_key@ && back.trusted_signers@[k].role
                == prior.trusted_signers@[k].role,
{
    what_the_engine_is_given(prior, given);
    assert(back@.trusted_signers.len() == back.trusted_signers@.len());
    assert(given@.signers.len() == given.signers@.len());
    assert forall|k: int| 0 <= k < back.trusted_signers@.len() implies (#[trigger] back.trusted_signers@[k]).member_id@
        == prior.trusted_signers@[k].member_id@ && back.trusted_signers@[k].public_key@ == prior.trusted_signers@[k].public_key@
        && back.trusted_signers@[k].role == prior.trusted_signers@[k].role by {
        assert(back@.trusted_signers[k] == back.trusted_signers@[k]@);
        assert(given@.signers[k] == given.signers@[k]@);
        assert(same_signer(prior.trusted_signers@[k], given.signers@[k]));
        assert(prior.trusted_signers@[k].public_key@.len() == 32);
    }
}

/// Each of the engine's errors is told under its own name, but that a group is a tree here, and that a refused structure is
/// told by its reason, of which two have names of their own.
pub open spec fn told_as(e: EngineError, r: KeyringError) -> bool {
    &&& e is GroupMismatch <==> r is TreeMismatch
    &&& e is NonSequential <==> r is NonSequential
    &&& e is RevisionOverflow <==> r is RevisionOverflow
    &&& e is Fork <==> r is Fork
    &&& e is UnendorsedOrdinaryChange <==> r is UnendorsedOrdinaryChange
    &&& e is UnendorsedSetChange <==> r is UnendorsedSetChange
    &&& e is BadBootstrap <==> r is BadBootstrap
    &&& r is LayoutAhead <==> e is LayoutAhead || (e matches EngineError::Structure(s) && s@ == "layout ahead"@)
    &&& r is WrapIncomplete <==> e is WrapIncomplete || (e matches EngineError::Structure(s) && s@ == "wrap incomplete"@)
    &&& e matches EngineError::BadStructure(s) ==> r == KeyringError::BadStructure(s)
    &&& e matches EngineError::Structure(s) ==> s@ == "layout ahead"@ || s@ == "wrap incomplete"@ || r == KeyringError::BadStructure(s)
    &&& r !is FirstSharedRegressed
}

/// How the engine's errors are told.
pub proof fn how_engine_errors_are_told(e: EngineError, r: KeyringError)
    requires
        call_ensures(map_linear_err, (e,), r),
    ensures
        told_as(e, r),
{
    errors_are_told(e);
}

/// The tree's form of an engine's error tells it.
pub proof fn errors_are_told(e: EngineError)
    ensures
        told_as(e, chain_error(e)),
{
    reveal_strlit("layout ahead");
    reveal_strlit("wrap incomplete");
    assert("layout ahead"@.len() != "wrap incomplete"@.len());
}

/// The generation that counts stands at `i`: none has a higher ordinal, and none after it has the same.
pub open spec fn newest_at(epochs: Seq<Epoch>, i: int) -> bool {
    &&& 0 <= i < epochs.len()
    &&& forall|j: int| 0 <= j < epochs.len() ==> (#[trigger] epochs[j]).ordinal <= epochs[i].ordinal
    &&& forall|j: int| i < j < epochs.len() ==> (#[trigger] epochs[j]).ordinal < epochs[i].ordinal
}

proof fn newest_is_newest(s: Seq<EpochContent>) -> (i: int)
    requires
        s.len() > 0,
    ensures
        0 <= i < s.len(),
        newest(s) == s[i],
        forall|j: int| 0 <= j < s.len() ==> (#[trigger] s[j]).ordinal <= s[i].ordinal,
        forall|j: int| i < j < s.len() ==> (#[trigger] s[j]).ordinal < s[i].ordinal,
    decreases s.len(),
{
    if s.len() == 1 {
        0
    } else {
        let t = s.drop_last();
        let n = s.len() - 1;
        let i = newest_is_newest(t);
        assert forall|j: int| 0 <= j < n implies s[j] == t[j] by {}
        if s[n].ordinal >= t[i].ordinal {
            assert forall|j: int| 0 <= j < s.len() implies (#[trigger] s[j]).ordinal <= s[n].ordinal by {
                if j < n {
                    assert(t[j].ordinal <= t[i].ordinal);
                }
            }
            n
        } else {
            assert forall|j: int| 0 <= j < s.len() implies (#[trigger] s[j]).ordinal <= s[i].ordinal by {
                if j < n {
                    assert(t[j].ordinal <= t[i].ordinal);
                }
            }
            assert forall|j: int| i < j < s.len() implies (#[trigger] s[j]).ordinal < s[i].ordinal by {
                if j < n {
                    assert(t[j].ordinal < t[i].ordinal);
                }
            }
            i
        }
    }
}

/// The generation holds a wrap of this kind for this member.
pub open spec fn wraps_to(e: Epoch, id: Seq<char>, method: WrapMethod) -> bool {
    exists|w: int| 0 <= w < e.wraps@.len() && (#[trigger] e.wraps@[w]).recipient@ == id && e.wraps@[w].method == method
}

proof fn wraps_are_held(e: Epoch, id: Seq<char>, method: WrapMethod)
    ensures
        wrapped_for(e@, id, method) <==> wraps_to(e, id, method),
{
    let s = wrap_contents(e.wraps@);
    if s.contains((id, method)) {
        let w = choose|w: int| 0 <= w < s.len() && s[w] == (id, method);
        assert(e.wraps@[w].recipient@ == id && e.wraps@[w].method == method);
    }
    if wraps_to(e, id, method) {
        let w = choose|w: int| 0 <= w < e.wraps@.len() && (#[trigger] e.wraps@[w]).recipient@ == id && e.wraps@[w].method == method;
        assert(s[w] == (id, method));
    }
}

/// The first owner among the members.
pub open spec fn founder(members: Seq<Member>, f: int) -> bool {
    &&& 0 <= f < members.len() && members[f].role == 1
    &&& forall|j: int| 0 <= j < f ==> (#[trigger] members[j]).role != 1
}

/// In this generation the founder is reached through the recovery root, and every other member through their own key.
pub open spec fn reaches_all(e: Epoch, members: Seq<Member>, f: int) -> bool {
    &&& wraps_to(e, members[f].member_id@, WrapMethod::RrkHpke)
    &&& forall|i: int|
        0 <= i < members.len() && (#[trigger] members[i]).member_id@ != members[f].member_id@ ==> wraps_to(
            e,
            members[i].member_id@,
            WrapMethod::MemberHpke,
        )
}

/// When the wraps are complete: there is a founder, and the newest generation reaches them and everyone else.
pub open spec fn all_reached(epochs: Seq<Epoch>, members: Seq<Member>) -> bool {
    exists|i: int, f: int| #[trigger] newest_at(epochs, i) && #[trigger] founder(members, f) && reaches_all(epochs[i], members, f)
}

/// When the wraps of a keyring are complete.
pub proof fn when_wraps_are_complete(epochs: Vec<Epoch>, members: Vec<Member>, r: bool)
    requires
        call_ensures(wrap_complete, (&epochs, &members), r),
    ensures
        r <==> all_reached(epochs@, members@),
{
    complete_means_all_reached(epochs@, members@);
}

proof fn complete_means_all_reached(epochs: Seq<Epoch>, members: Seq<Member>)
    ensures
        crate::keyring_chain::doc::wraps_complete(epoch_contents(epochs), crate::keyring_chain::wire::member_contents(members))
            <==> all_reached(epochs, members),
{
    let es = epoch_contents(epochs);
    let ms = crate::keyring_chain::wire::member_contents(members);
    assert forall|j: int| 0 <= j < members.len() implies #[trigger] ms[j] == members[j]@ by {}
    assert forall|j: int| 0 <= j < epochs.len() implies #[trigger] es[j] == epochs[j]@ by {}
    if epochs.len() > 0 {
        let i = newest_is_newest(es);
        assert(newest_at(epochs, i)) by {
            assert forall|j: int| 0 <= j < epochs.len() implies (#[trigger] epochs[j]).ordinal <= epochs[i].ordinal by {
                assert(es[j].ordinal <= es[i].ordinal);
            }
            assert forall|j: int| i < j < epochs.len() implies (#[trigger] epochs[j]).ordinal < epochs[i].ordinal by {
                assert(es[j].ordinal < es[i].ordinal);
            }
        }
        let e = epochs[i];
        assert forall|f: int| founder_at(ms, f) <==> #[trigger] founder(members, f) by {
            if founder_at(ms, f) {
                assert forall|j: int| 0 <= j < f implies (#[trigger] members[j]).role != 1 by {
                    assert(ms[j].role != 1);
                }
                assert(ms[f] == members[f]@);
            }
            if founder(members, f) {
                assert forall|j: int| 0 <= j < f implies (#[trigger] ms[j]).role != 1 by {
                    assert(members[j].role != 1);
                }
                assert(ms[f] == members[f]@);
            }
        }
        if crate::keyring_chain::doc::wraps_complete(es, ms) {
            let f = choose|f: int| #[trigger]
                founder_at(ms, f) && crate::keyring_chain::doc::everyone_wrapped(newest(es), ms, ms[f].member_id);
            assert(founder(members, f));
            wraps_are_held(e, members[f].member_id@, WrapMethod::RrkHpke);
            assert forall|k: int| 0 <= k < members.len() && (#[trigger] members[k]).member_id@ != members[f].member_id@ implies wraps_to(
                e,
                members[k].member_id@,
                WrapMethod::MemberHpke,
            ) by {
                assert(ms[k] == members[k]@);
                wraps_are_held(e, members[k].member_id@, WrapMethod::MemberHpke);
            }
            assert(reaches_all(epochs[i], members, f));
        }
        if all_reached(epochs, members) {
            let (i2, f) = choose|i: int, f: int| #[trigger]
                newest_at(epochs, i) && #[trigger] founder(members, f) && reaches_all(epochs[i], members, f);
            if i2 < i {
                assert(epochs[i].ordinal < epochs[i2].ordinal);
            }
            if i < i2 {
                assert(epochs[i2].ordinal < epochs[i].ordinal);
            }
            assert(founder_at(ms, f));
            wraps_are_held(e, members[f].member_id@, WrapMethod::RrkHpke);
            assert forall|k: int| 0 <= k < ms.len() && (#[trigger] ms[k]).member_id != ms[f].member_id implies wrapped_for(
                es[i],
                ms[k].member_id,
                WrapMethod::MemberHpke,
            ) by {
                assert(ms[k] == members[k]@);
                assert(members[k].member_id@ != members[f].member_id@);
                wraps_are_held(e, members[k].member_id@, WrapMethod::MemberHpke);
            }
            assert(crate::keyring_chain::doc::everyone_wrapped(newest(es), ms, ms[f].member_id));
        }
    }
}

/// The key material of a keyring can be read: its generations, and each recovery root's escrow, none of it over the limit.
pub open spec fn material_is_sound(k: Keyring, epochs: Option<Vec<Epoch>>, escrow: Vec<bool>) -> bool {
    &&& epochs is Some && k.epochs@.len() <= 4194304
    &&& forall|i: int|
        0 <= i < k.recovery_keys@.len() ==> (#[trigger] k.recovery_keys@[i]).wraps@.len() <= 4194304 && escrow@[i]
}

/// What makes the structure of a keyring sound.
pub open spec fn is_sound(k: Keyring, epochs: Seq<Epoch>) -> bool {
    &&& 0 < epochs.len() <= 4096
    &&& forall|i: int| 0 <= i < epochs.len() ==> (#[trigger] epochs[i]).ordinal < epochs.len()
    &&& forall|i: int|
        0 <= i < k.members@.len() && ((#[trigger] k.members@[i]).role == 1 || k.members@[i].role == 2)
            ==> k.members@[i].author_public_key@.len() == 32
    &&& all_reached(epochs, k.members@)
}

/// When the structure of a keyring is accepted: its layout is known, its lists are not too long, its key material can be
/// read, its generations are numbered within their count, every signer has a key, and the newest generation reaches all.
pub proof fn when_a_structure_is_accepted(
    keyring: Keyring,
    epochs: Option<Vec<Epoch>>,
    escrow: Vec<bool>,
    r: Result<(), &'static str>,
)
    requires
        escrow@.len() == keyring.recovery_keys@.len(),
        call_ensures(structure, (&keyring, &epochs, &escrow), r),
    ensures
        r is Ok <==> keyring.layout_version <= 1 && keyring.members@.len() <= 4096 && material_is_sound(keyring, epochs, escrow) && (
        epochs matches Some(e) && is_sound(keyring, e@)),
        keyring.layout_version > 1 <==> r == Err::<(), &'static str>("layout ahead"),
        keyring.layout_version <= 1 && keyring.members@.len() > 4096 ==> r == Err::<(), &'static str>("list too large"),
        keyring.layout_version <= 1 && keyring.members@.len() <= 4096 ==> (!material_is_sound(keyring, epochs, escrow) <==> r == Err::<
            (),
            &'static str,
        >("key material malformed")),
{
    structure_reasons_are_apart();
    let ms = keyring@.members;
    let rs = keyring@.recovery_keys;
    assert forall|j: int| 0 <= j < keyring.members@.len() implies #[trigger] ms[j] == keyring.members@[j]@ by {}
    assert forall|j: int| 0 <= j < keyring.recovery_keys@.len() implies #[trigger] rs[j] == keyring.recovery_keys@[j]@ by {}
    if exists|i: int| 0 <= i < rs.len() && ((#[trigger] rs[i]).wraps.len() > 4194304 || !escrow@[i]) {
        let i = choose|i: int| 0 <= i < rs.len() && ((#[trigger] rs[i]).wraps.len() > 4194304 || !escrow@[i]);
        assert(keyring.recovery_keys@[i].wraps@.len() > 4194304 || !escrow@[i]);
    } else {
        assert forall|i: int| 0 <= i < keyring.recovery_keys@.len() implies (#[trigger] keyring.recovery_keys@[i]).wraps@.len() <= 4194304
            && escrow@[i] by {
            assert(!(rs[i].wraps.len() > 4194304 || !escrow@[i]));
        }
    }
    if let Some(e) = epochs {
        let es = epoch_contents(e@);
        complete_means_all_reached(e@, keyring.members@);
        assert forall|j: int| 0 <= j < e@.len() implies #[trigger] es[j] == e@[j]@ by {}
        if exists|i: int| 0 <= i < es.len() && (#[trigger] es[i]).ordinal >= es.len() {
            let i = choose|i: int| 0 <= i < es.len() && (#[trigger] es[i]).ordinal >= es.len();
            assert(e@[i].ordinal >= e@.len());
        } else {
            assert forall|i: int| 0 <= i < e@.len() implies (#[trigger] e@[i]).ordinal < e@.len() by {
                assert(!(es[i].ordinal >= es.len()));
            }
        }
        if exists|i: int| 0 <= i < ms.len() && 1 <= (#[trigger] ms[i]).role <= 2 && ms[i].author_public_key.len() != 32 {
            let i = choose|i: int| 0 <= i < ms.len() && 1 <= (#[trigger] ms[i]).role <= 2 && ms[i].author_public_key.len() != 32;
            assert(keyring.members@[i].author_public_key@.len() != 32);
        } else {
            assert forall|i: int|
                0 <= i < keyring.members@.len() && ((#[trigger] keyring.members@[i]).role == 1 || keyring.members@[i].role == 2) implies keyring.members@[i].author_public_key@.len()
                == 32 by {
                assert(!(1 <= ms[i].role <= 2 && ms[i].author_public_key.len() != 32));
            }
        }
    }
}

proof fn structure_reasons_are_apart()
    ensures
        "layout ahead" != "list too large",
        "layout ahead" != "key material malformed",
        "layout ahead" != "no epochs",
        "layout ahead" != "epoch ordinal out of range",
        "layout ahead" != "signer key malformed",
        "layout ahead" != "wrap incomplete",
        "key material malformed" != "list too large",
        "key material malformed" != "no epochs",
        "key material malformed" != "epoch ordinal out of range",
        "key material malformed" != "signer key malformed",
        "key material malformed" != "wrap incomplete",
{
    reveal_strlit("layout ahead");
    reveal_strlit("list too large");
    reveal_strlit("key material malformed");
    reveal_strlit("no epochs");
    reveal_strlit("epoch ordinal out of range");
    reveal_strlit("signer key malformed");
    reveal_strlit("wrap incomplete");
    assert("layout ahead"@.len() == 12);
    assert("list too large"@.len() == 14);
    assert("key material malformed"@.len() == 22);
    assert("no epochs"@.len() == 9);
    assert("epoch ordinal out of range"@.len() == 26);
    assert("signer key malformed"@.len() == 20);
    assert("wrap incomplete"@.len() == 15);
}

/// The positions, in rising order, of the signatures that have sixty-four bytes.
pub open spec fn usable_places(s: Seq<SignatureContent>, at: Seq<int>) -> bool {
    &&& forall|k: int| 0 <= k < at.len() ==> 0 <= #[trigger] at[k] < s.len() && s[at[k]].signature.len() == 64
    &&& forall|i: int| 0 <= i < s.len() && (#[trigger] s[i]).signature.len() == 64 ==> at.contains(i)
    &&& forall|k: int, l: int| 0 <= k < l < at.len() ==> #[trigger] at[k] < #[trigger] at[l]
}

proof fn places_of_usable(s: Seq<SignatureContent>) -> (at: Seq<int>)
    ensures
        usable_places(s, at),
        usable_signatures(s).len() == at.len(),
        forall|k: int| 0 <= k < at.len() ==> #[trigger] usable_signatures(s)[k] == s[at[k]].signature,
    decreases s.len(),
{
    if s.len() == 0 {
        Seq::empty()
    } else {
        let t = s.drop_last();
        let n = s.len() - 1;
        let before = places_of_usable(t);
        assert forall|i: int| 0 <= i < n implies s[i] == t[i] by {}
        if s[n].signature.len() == 64 {
            let at = before.push(n);
            assert forall|i: int| 0 <= i < s.len() && (#[trigger] s[i]).signature.len() == 64 implies at.contains(i) by {
                if i < n {
                    assert(t[i] == s[i]);
                    let k = choose|k: int| 0 <= k < before.len() && before[k] == i;
                    assert(at[k] == i);
                } else {
                    assert(at[before.len() as int] == i);
                }
            }
            assert forall|k: int| 0 <= k < at.len() implies 0 <= #[trigger] at[k] < s.len() && s[at[k]].signature.len() == 64 by {
                if k < before.len() {
                    assert(t[before[k]] == s[at[k]]);
                }
            }
            assert forall|k: int| 0 <= k < at.len() implies #[trigger] usable_signatures(s)[k] == s[at[k]].signature by {
                if k < before.len() {
                    assert(usable_signatures(t)[k] == t[before[k]].signature);
                    assert(t[before[k]] == s[at[k]]);
                }
            }
            at
        } else {
            assert forall|i: int| 0 <= i < s.len() && (#[trigger] s[i]).signature.len() == 64 implies before.contains(i) by {
                assert(t[i] == s[i]);
            }
            assert forall|k: int| 0 <= k < before.len() implies 0 <= #[trigger] before[k] < s.len() && s[before[k]].signature.len() == 64 by {
                assert(t[before[k]] == s[before[k]]);
            }
            before
        }
    }
}

/// What the engine reads of a keyring: its fields as they are; every member in order, under their own id, role and key; the
/// first recovery authority; and, in order, the signatures that have sixty-four bytes.
pub proof fn what_the_engine_reads(keyring: Keyring, r: KeyringDoc) -> (at: Seq<int>)
    requires
        call_ensures(KeyringDoc::new, (&keyring,), r),
    ensures
        r.group_id@ == keyring.tree_id@,
        r.revision == keyring.revision,
        r.layout_version == keyring.layout_version,
        r.governance_kind == keyring.governance_kind,
        r.governance_threshold == keyring.governance_threshold,
        keyring.prev_keyring_hash@.len() == 32 ==> r.prev_hash@ == keyring.prev_keyring_hash@,
        keyring.prev_keyring_hash@.len() == 0 ==> forall|i: int| 0 <= i < 32 ==> #[trigger] r.prev_hash@[i] == 0,
        r.members@.len() == keyring.members@.len(),
        forall|k: int|
            0 <= k < r.members@.len() ==> (#[trigger] r.members@[k]).id@ == keyring.members@[k].member_id@ && (-0x8000
                <= keyring.members@[k].role < 0x8000 ==> r.members@[k].role.0 == keyring.members@[k].role) && (
            keyring.members@[k].author_public_key@.len() == 32 ==> r.members@[k].public_key@ == keyring.members@[k].author_public_key@),
        forall|i: int| #[trigger]
            first_authority(keyring.recovery_keys@, i) && keyring.recovery_keys@[i].recovery_verifying_key@.len() == 32 ==> (
            r.recovery_authority matches Some(key) && key@ == keyring.recovery_keys@[i].recovery_verifying_key@),
        (forall|j: int| 0 <= j < keyring.recovery_keys@.len() ==> (#[trigger] keyring.recovery_keys@[j]).recovery_verifying_key@.len() == 0)
            ==> r.recovery_authority is None,
        usable_places(keyring@.signatures, at),
        r.signatures@.len() == at.len(),
        forall|k: int| 0 <= k < at.len() ==> (#[trigger] r.signatures@[k])@ == keyring.signatures@[at[k]].signature@,
{
    what_is_pinned(keyring);
    let at = places_of_usable(keyring@.signatures);
    assert(byte_views(r.signatures@).len() == r.signatures@.len());
    assert forall|k: int| 0 <= k < at.len() implies (#[trigger] r.signatures@[k])@ == keyring.signatures@[at[k]].signature@ by {
        assert(byte_views(r.signatures@)[k] == r.signatures@[k]@);
        assert(usable_signatures(keyring@.signatures)[k] == keyring@.signatures[at[k]].signature);
    }
    if keyring.prev_keyring_hash@.len() == 32 {
        assert(padded(keyring.prev_keyring_hash@) =~= keyring.prev_keyring_hash@);
    }
    assert(signer_contents(r.members@).len() == r.members@.len());
    assert forall|k: int| 0 <= k < r.members@.len() implies (#[trigger] r.members@[k]).id@ == keyring.members@[k].member_id@ && (-0x8000
        <= keyring.members@[k].role < 0x8000 ==> r.members@[k].role.0 == keyring.members@[k].role) && (
    keyring.members@[k].author_public_key@.len() == 32 ==> r.members@[k].public_key@ == keyring.members@[k].author_public_key@) by {
        assert(signer_contents(r.members@)[k] == r.members@[k]@);
        assert(keyring@.members[k] == keyring.members@[k]@);
        if keyring.members@[k].author_public_key@.len() == 32 {
            assert(padded(keyring.members@[k].author_public_key@) =~= keyring.members@[k].author_public_key@);
        }
    }
    assert forall|i: int| #[trigger]
        first_authority(keyring.recovery_keys@, i) && keyring.recovery_keys@[i].recovery_verifying_key@.len() == 32 implies (
    r.recovery_authority matches Some(key) && key@ == keyring.recovery_keys@[i].recovery_verifying_key@) by {
        let v = keyring.recovery_keys@[i].recovery_verifying_key@;
        assert(padded(v) =~= v);
    }
    at
}

} // verus!
