//! When a keyring is accepted, and as what.

use vstd::prelude::*;

use crate::keyring_api::{member_models, sorted_models, Admitted, MemberView, MembershipView, VerifyError};
use crate::keyring_chain::blob_sync::hashed;
use crate::keyring_chain::chain::{
    anchor_of, anchored, authority, bootstrap_from_genesis, bootstrap_from_oob, engine_said, judged, linear, marker_kept,
    minted, slice_view, transition, verify_reset, verify_transition, CallContent, EngineCall, EngineError, GoverningKeyring,
    KeyringAnchor, KeyringError, LinearAnchor,
};
use crate::keyring_chain::chain_verifier::{
    admission, admitted, against_head, as_reset, classify, followed, founded, founder_key, founder_key_of, membership_view, neutral, seat,
    shows, unwrapped, ChainVerifier,
};
use crate::keyring_chain::doc::{founder_at, padded, pinned_rvk};
use crate::keyring_chain::keyring::{verify_keyring_any, SigError};
use crate::keyring_chain::laws::{errors_are_told, founder, given_as_linear, is_given, is_taken, taken_from_linear, told_as};
use crate::keyring_chain::wire::{Keyring, KeyringContent, MemberContent};
use crate::layout::be_4;

verus! {

/// The engine's verdict is the answer: the anchor that it gave, under this marker, or its error.
pub open spec fn answers(verdict: Result<LinearAnchor, EngineError>, first_shared: u32, r: Result<KeyringAnchor, KeyringError>) -> bool {
    match verdict {
        Ok(a) => r matches Ok(k) && is_taken(a, first_shared, k),
        Err(e) => r matches Err(k) && told_as(e, k),
    }
}

proof fn anchored_answers(verdict: Result<LinearAnchor, EngineError>, first_shared: u32, r: Result<KeyringAnchor, KeyringError>)
    requires
        anchored(verdict, first_shared, r),
    ensures
        answers(verdict, first_shared, r),
{
    match verdict {
        Ok(a) => {
            taken_from_linear(a, first_shared, r->Ok_0);
        },
        Err(e) => {
            errors_are_told(e);
        },
    }
}

proof fn judged_answers<E: Fn(&EngineCall, &Keyring) -> Result<LinearAnchor, EngineError>>(
    engine: E,
    call: CallContent,
    keyring: Keyring,
    r: Result<KeyringAnchor, KeyringError>,
) -> (out: (EngineCall, Result<LinearAnchor, EngineError>))
    requires
        judged(engine, call, keyring, r),
    ensures
        out.0@ == call,
        engine.ensures((&out.0, &keyring), out.1),
        answers(out.1, keyring.first_shared_revision, r),
{
    let (c, verdict) = choose|c: EngineCall, verdict: Result<LinearAnchor, EngineError>|
        c@ == call && #[trigger] engine_said(engine, c, keyring, verdict) && anchored(verdict, keyring.first_shared_revision, r);
    anchored_answers(verdict, keyring.first_shared_revision, r);
    (c, verdict)
}

/// The keyring loses or moves the mark that its tree was shared.
pub open spec fn regresses(prior: KeyringAnchor, candidate: Keyring) -> bool {
    candidate.first_shared_revision > candidate.revision || prior.first_shared_revision != 0 && candidate.first_shared_revision
        != prior.first_shared_revision
}

/// When a keyring follows another. One that loses the mark that its tree was shared is refused as that, unasked. Otherwise
/// the engine is asked whether it follows this very anchor, and its verdict is the answer.
pub proof fn when_a_keyring_follows<E: Fn(&EngineCall, &Keyring) -> Result<LinearAnchor, EngineError>>(
    prior: KeyringAnchor,
    candidate: Keyring,
    engine: E,
    r: Result<KeyringAnchor, KeyringError>,
)
    requires
        call_ensures(verify_transition::<E>, (&prior, &candidate, &engine), r),
    ensures
        regresses(prior, candidate) <==> r == Err::<KeyringAnchor, KeyringError>(KeyringError::FirstSharedRegressed),
        !regresses(prior, candidate) ==> exists|a: LinearAnchor, verdict: Result<LinearAnchor, EngineError>| #[trigger]
            engine.ensures((&EngineCall::Transition(a), &candidate), verdict) && is_given(prior, a) && answers(
                verdict,
                candidate.first_shared_revision,
                r,
            ),
{
    if !regresses(prior, candidate) {
        let (c, verdict) = judged_answers(engine, CallContent::Transition(linear(prior@)), candidate, r);
        let a = c->Transition_0;
        assert(c == EngineCall::Transition(a));
        given_as_linear(prior, a);
        assert(engine.ensures((&EngineCall::Transition(a), &candidate), verdict));
    }
}

/// When a genesis is accepted: the engine is asked whether the founder's key signed it, and its verdict is the answer.
pub proof fn when_a_genesis_is_accepted<E: Fn(&EngineCall, &Keyring) -> Result<LinearAnchor, EngineError>>(
    genesis: Keyring,
    own_founder_key: [u8; 32],
    engine: E,
    r: Result<KeyringAnchor, KeyringError>,
)
    requires
        call_ensures(bootstrap_from_genesis::<E>, (&genesis, &own_founder_key, &engine), r),
    ensures
        exists|key: [u8; 32], verdict: Result<LinearAnchor, EngineError>|
            key@ == own_founder_key@ && #[trigger] engine.ensures((&EngineCall::Genesis(key), &genesis), verdict) && answers(
                verdict,
                genesis.first_shared_revision,
                r,
            ),
{
    let (c, verdict) = judged_answers(engine, CallContent::Genesis(own_founder_key@), genesis, r);
    let key = c->Genesis_0;
    assert(c == EngineCall::Genesis(key));
    assert(engine.ensures((&EngineCall::Genesis(key), &genesis), verdict));
}

/// When a pinned head is accepted: the engine is asked about the tree, revision and digest that were pinned, and its
/// verdict is the answer.
pub proof fn when_a_pinned_head_is_accepted<E: Fn(&EngineCall, &Keyring) -> Result<LinearAnchor, EngineError>>(
    head: Keyring,
    pinned_tree_id: &[u8],
    pinned_revision: u32,
    pinned_hash: [u8; 32],
    engine: E,
    r: Result<KeyringAnchor, KeyringError>,
)
    requires
        call_ensures(bootstrap_from_oob::<E>, (&head, pinned_tree_id, pinned_revision, &pinned_hash, &engine), r),
    ensures
        exists|group_id: Vec<u8>, hash: [u8; 32], verdict: Result<LinearAnchor, EngineError>|
            group_id@ == pinned_tree_id@ && hash@ == pinned_hash@ && #[trigger] engine.ensures(
                (&(EngineCall::Pinned { group_id, revision: pinned_revision, hash }), &head),
                verdict,
            ) && answers(verdict, head.first_shared_revision, r),
{
    let (c, verdict) = judged_answers(
        engine,
        CallContent::Pinned { group_id: pinned_tree_id@, revision: pinned_revision, hash: pinned_hash@ },
        head,
        r,
    );
    let group_id = c->group_id;
    let hash = c->hash;
    assert(c == (EngineCall::Pinned { group_id, revision: pinned_revision, hash }));
    assert(engine.ensures((&(EngineCall::Pinned { group_id, revision: pinned_revision, hash }), &head), verdict));
}

/// The engine is asked under the authority that is known, or under none where none is.
pub open spec fn asks_under(known: Option<Seq<u8>>, key: Option<[u8; 32]>) -> bool {
    &&& key is Some <==> known is Some
    &&& known matches Some(b) ==> b.len() == 32 ==> (key matches Some(k) && k@ == b)
}

proof fn authority_is_known(known: Option<Seq<u8>>, key: Option<[u8; 32]>)
    requires
        crate::keyring_chain::chain::key_view(key) == authority(known),
    ensures
        asks_under(known, key),
{
    if let Some(b) = known {
        if b.len() == 32 {
            assert(padded(b) =~= b);
        }
    }
}

/// When a reset is accepted: the engine is asked under the recovery authority that was known before, and its verdict is the
/// answer.
pub proof fn when_a_reset_is_accepted<E: Fn(&EngineCall, &Keyring) -> Result<LinearAnchor, EngineError>>(
    prior_rvk: Option<&[u8]>,
    keyring: Keyring,
    engine: E,
    r: Result<KeyringAnchor, KeyringError>,
)
    requires
        call_ensures(verify_reset::<E>, (prior_rvk, &keyring, &engine), r),
    ensures
        exists|key: Option<[u8; 32]>, verdict: Result<LinearAnchor, EngineError>|
            asks_under(slice_view(prior_rvk), key) && #[trigger] engine.ensures((&EngineCall::Reset(key), &keyring), verdict) && answers(
                verdict,
                keyring.first_shared_revision,
                r,
            ),
{
    let (c, verdict) = judged_answers(engine, CallContent::Reset(authority(slice_view(prior_rvk))), keyring, r);
    let key = c->Reset_0;
    assert(c == EngineCall::Reset(key));
    authority_is_known(slice_view(prior_rvk), key);
    assert(engine.ensures((&EngineCall::Reset(key), &keyring), verdict));
}

/// How a refusal is told to a caller who knows no chain: a rewritten history is a rollback, a gap is stale, a change that
/// was not endorsed is unauthorized, a lost mark is that, and the rest is malformed.
pub proof fn how_a_refusal_is_told(e: KeyringError, r: VerifyError)
    requires
        call_ensures(classify, (e,), r),
    ensures
        r == VerifyError::Rollback <==> e is Fork,
        r == VerifyError::Stale <==> e is NonSequential,
        r == VerifyError::Unauthorized <==> e is UnendorsedOrdinaryChange || e is UnendorsedSetChange,
        r == VerifyError::SharedRegressed <==> e is FirstSharedRegressed,
        r != VerifyError::Unauthenticated,
{
}

/// The view's member is the keyring's: the same id and keys, and the same role where it is in range.
pub open spec fn seated(m: MemberContent, v: MemberView) -> bool {
    v.member_id@ == m.member_id && v.author_public_key@ == m.author_public_key && v.hpke_public_key@ == m.hpke_public_key && (-0x8000
        <= m.role < 0x8000 ==> v.role == m.role)
}

/// The view seats the member.
pub open spec fn has_seat(view: MembershipView, m: MemberContent) -> bool {
    exists|k: int| 0 <= k < view.members@.len() && seated(m, #[trigger] view.members@[k])
}

/// The seat is of one of the members.
pub open spec fn is_of(members: Seq<MemberContent>, v: MemberView) -> bool {
    exists|i: int| 0 <= i < members.len() && seated(#[trigger] members[i], v)
}

/// The view seats these members and no one else.
pub open spec fn seats(members: Seq<MemberContent>, view: MembershipView) -> bool {
    &&& forall|i: int| 0 <= i < members.len() ==> has_seat(view, #[trigger] members[i])
    &&& forall|k: int| 0 <= k < view.members@.len() ==> is_of(members, #[trigger] view.members@[k])
}

proof fn shown_are_seated(members: Seq<MemberContent>, reset_boundary: bool, view: MembershipView)
    requires
        shows(members, reset_boundary, view),
    ensures
        view.reset_boundary == reset_boundary,
        seats(members, view),
{
    let f = |m: MemberContent| seat(m);
    let listed = choose|l: Seq<MemberView>|
        member_models(l) == members.map_values(f) && #[trigger] crate::sorting::stable_sorting(l, view.members@);
    sorted_models(listed, view.members@);
    assert forall|i: int| 0 <= i < members.len() implies has_seat(view, #[trigger] members[i]) by {
        let x = members.map_values(f)[i];
        assert(x == seat(members[i]));
        assert(member_models(listed).contains(x));
        assert(member_models(view.members@).contains(x));
        let k = choose|k: int| 0 <= k < view.members@.len() && member_models(view.members@)[k] == x;
        assert(seated(members[i], view.members@[k]));
    }
    assert forall|k: int| 0 <= k < view.members@.len() implies is_of(members, #[trigger] view.members@[k]) by {
        let x = member_models(view.members@)[k];
        assert(member_models(view.members@).contains(x));
        assert(member_models(listed).contains(x));
        let i = choose|i: int| 0 <= i < members.len() && members.map_values(f)[i] == x;
        assert(x == seat(members[i]));
        assert(seated(members[i], view.members@[k]));
    }
}

/// The membership that a keyring shows is its members, each with their own role and keys, and no one else; and it is no
/// reset boundary.
pub proof fn whom_a_keyring_shows(keyring: Keyring, r: MembershipView)
    requires
        call_ensures(membership_view, (&keyring,), r),
    ensures
        !r.reset_boundary,
        seats(keyring@.members, r),
{
    shown_are_seated(keyring@.members, false, r);
}

proof fn founders_key(members: Seq<MemberContent>, f: int)
    requires
        founder_at(members, f),
    ensures
        members[f].author_public_key.len() == 32 ==> founder_key_of(members) == Some(members[f].author_public_key),
        members[f].author_public_key.len() != 32 ==> founder_key_of(members) is None,
{
    let g = choose|g: int| founder_at(members, g);
    if g < f {
        assert(members[g].role != 1);
    }
    if f < g {
        assert(members[f].role != 1);
    }
}

/// The founder's key is the first owner's, where it has thirty-two bytes; and there is none where there is no owner.
pub proof fn whose_key_is_the_founders(keyring: Keyring, r: Option<[u8; 32]>)
    requires
        call_ensures(founder_key, (&keyring,), r),
    ensures
        forall|f: int| #[trigger]
            founder(keyring.members@, f) ==> if keyring.members@[f].author_public_key@.len() == 32 {
                r matches Some(k) && k@ == keyring.members@[f].author_public_key@
            } else {
                r is None
            },
        (forall|i: int| 0 <= i < keyring.members@.len() ==> (#[trigger] keyring.members@[i]).role != 1) ==> r is None,
{
    let s = keyring.members@;
    let all = keyring@.members;
    assert forall|i: int| 0 <= i < s.len() implies #[trigger] all[i] == s[i]@ by {}
    assert forall|f: int| #[trigger] founder(s, f) implies if s[f].author_public_key@.len() == 32 {
        r matches Some(k) && k@ == s[f].author_public_key@
    } else {
        r is None
    } by {
        assert forall|j: int| 0 <= j < f implies (#[trigger] all[j]).role != 1 by {
            assert(s[j].role != 1);
        }
        assert(all[f] == s[f]@);
        assert(founder_at(all, f));
        founders_key(all, f);
    }
    if forall|i: int| 0 <= i < s.len() ==> (#[trigger] s[i]).role != 1 {
        assert forall|f: int| !founder_at(all, f) by {
            if founder_at(all, f) {
                assert(s[f].role != 1);
            }
        }
    }
}

/// The update is admitted as this keyring: its bytes are the state to keep, the view seats its members, and its tree and
/// its revision, highest byte first, are handed out.
pub open spec fn admitted_as(update: Seq<u8>, k: KeyringContent, reset_boundary: bool, a: Admitted) -> bool {
    &&& a.state@ == update
    &&& seats(k.members, a.view)
    &&& a.view.reset_boundary == reset_boundary
    &&& a.tree_id@ == k.tree_id
    &&& a.update_ref@.len() == 4
    &&& k.revision == a.update_ref@[0] * 0x100_0000 + a.update_ref@[1] * 0x1_0000 + a.update_ref@[2] * 0x100 + a.update_ref@[3]
}

proof fn admitted_is_admitted_as(update: Seq<u8>, k: KeyringContent, reset_boundary: bool, changed: bool, r: Result<Admitted, VerifyError>)
    requires
        admitted(update, k, reset_boundary, changed, r),
    ensures
        r matches Ok(a) && admitted_as(update, k, reset_boundary, a) && a.changed == changed,
{
    shown_are_seated(k.members, reset_boundary, r->Ok_0.view);
    be_4(k.revision);
}

/// What a first update must be. It must hold a chain's keyring with a founder whose key is a valid one; then the engine is
/// asked whether that key signed it as a genesis. Where the engine accepts, the update is admitted as it is, and is a
/// change; where it refuses, so is the update.
pub proof fn what_a_first_update_must_be<
    E: Fn(&EngineCall, &Keyring) -> Result<LinearAnchor, EngineError>,
    H: Fn(&Keyring) -> [u8; 32],
    V: Fn(&[u8; 32]) -> bool,
>(update: &[u8], engine: E, hash: H, valid: V, r: Result<Admitted, VerifyError>)
    requires
        call_ensures(ChainVerifier::admit_update::<E, H, V>, (&ChainVerifier, None, update, &engine, &hash, &valid), r),
    ensures
        unwrapped(update@) is None ==> r == Err::<Admitted, VerifyError>(VerifyError::Malformed),
        unwrapped(update@) matches Some(c) ==> if exists|f: int| #[trigger]
            founder_at(c.members, f) && c.members[f].author_public_key.len() == 32 {
            exists|f: int, key: [u8; 32], ok: bool|
                #![trigger founder_at(c.members, f), valid.ensures((&key,), ok)]
                founder_at(c.members, f) && key@ == c.members[f].author_public_key && valid.ensures((&key,), ok) && if ok {
                    exists|asked: [u8; 32], candidate: Keyring, verdict: Result<LinearAnchor, EngineError>|
                        asked@ == key@ && candidate@ == c && #[trigger] engine.ensures(
                            (&EngineCall::Genesis(asked), &candidate),
                            verdict,
                        ) && (r is Ok <==> verdict is Ok)
                } else {
                    r == Err::<Admitted, VerifyError>(VerifyError::Malformed)
                }
        } else {
            r == Err::<Admitted, VerifyError>(VerifyError::Malformed)
        },
        r matches Ok(a) ==> (unwrapped(update@) matches Some(c) && admitted_as(update@, c, false, a) && a.changed),
{
    if let Some(c) = unwrapped(update@) {
        let candidate = choose|candidate: Keyring|
            candidate@ == c && #[trigger] admission(engine, hash, valid, None, update@, candidate, r);
        if exists|f: int| #[trigger] founder_at(c.members, f) && c.members[f].author_public_key.len() == 32 {
            let f = choose|f: int| #[trigger] founder_at(c.members, f) && c.members[f].author_public_key.len() == 32;
            founders_key(c.members, f);
            let want = c.members[f].author_public_key;
            assert(founded(engine, valid, update@, candidate, want, r));
            let (key, ok) = choose|k: [u8; 32], ok: bool|
                k@ == want && #[trigger] valid.ensures((&k,), ok) && if !ok {
                    r == Err::<Admitted, VerifyError>(VerifyError::Malformed)
                } else {
                    exists|v: Result<KeyringAnchor, KeyringError>| #[trigger]
                        judged(engine, CallContent::Genesis(want), candidate, v) && match v {
                            Err(e) => r == Err::<Admitted, VerifyError>(neutral(e)),
                            Ok(_) => admitted(update@, candidate@, false, true, r),
                        }
                };
            if ok {
                let v = choose|v: Result<KeyringAnchor, KeyringError>| #[trigger]
                    judged(engine, CallContent::Genesis(want), candidate, v) && match v {
                        Err(e) => r == Err::<Admitted, VerifyError>(neutral(e)),
                        Ok(_) => admitted(update@, candidate@, false, true, r),
                    };
                let (call, verdict) = judged_answers(engine, CallContent::Genesis(want), candidate, v);
                let asked = call->Genesis_0;
                assert(call == EngineCall::Genesis(asked));
                assert(engine.ensures((&EngineCall::Genesis(asked), &candidate), verdict));
                if r is Ok {
                    admitted_is_admitted_as(update@, c, false, true, r);
                }
            }
            assert(founder_at(c.members, f) && valid.ensures((&key,), ok));
        } else {
            if exists|f: int| founder_at(c.members, f) {
                let f = choose|f: int| founder_at(c.members, f);
                founders_key(c.members, f);
            }
        }
    }
}

/// The engine says that the keyring follows one with these fields.
pub open spec fn follows<E: Fn(&EngineCall, &Keyring) -> Result<LinearAnchor, EngineError>>(
    engine: E,
    head: KeyringContent,
    digest: Seq<u8>,
    candidate: Keyring,
) -> bool {
    exists|a: LinearAnchor, to: LinearAnchor|
        a.group_id@ == head.tree_id && a.revision == head.revision && a.doc_hash@ == digest && a.governance_kind == head.governance_kind
            && a.governance_threshold == head.governance_threshold && #[trigger] engine.ensures(
            (&EngineCall::Transition(a), &candidate),
            Ok(to),
        )
}

/// The engine says that the keyring is a reset under the head's recovery authority.
pub open spec fn resets_under<E: Fn(&EngineCall, &Keyring) -> Result<LinearAnchor, EngineError>>(
    engine: E,
    head: KeyringContent,
    candidate: Keyring,
) -> bool {
    exists|key: Option<[u8; 32]>, to: LinearAnchor|
        asks_under(pinned_rvk(head.recovery_keys), key) && #[trigger] engine.ensures((&EngineCall::Reset(key), &candidate), Ok(to))
}

/// When a later update is admitted: where it holds a keyring that the engine says follows the head, by the head's own
/// digest, with the mark that the tree was shared kept; or else where it stands right after the head, names the head's
/// digest, and the engine says that it is a reset under the head's recovery authority. The second is a reset boundary and
/// always a change; the first is no boundary, and a change exactly where the members that are shown differ.
pub proof fn when_a_later_update_is_admitted<
    E: Fn(&EngineCall, &Keyring) -> Result<LinearAnchor, EngineError>,
    H: Fn(&Keyring) -> [u8; 32],
    V: Fn(&[u8; 32]) -> bool,
>(prior: &[u8], update: &[u8], engine: E, hash: H, valid: V, a: Admitted)
    requires
        call_ensures(ChainVerifier::admit_update::<E, H, V>, (&ChainVerifier, Some(prior), update, &engine, &hash, &valid), Ok(a)),
    ensures
        exists|head: Keyring, h: [u8; 32], candidate: Keyring| #[trigger]
            hash.ensures((&head,), h) && unwrapped(prior@) == Some(head@) && unwrapped(update@) == Some(#[trigger] candidate@)
                && admitted_as(update@, candidate@, a.view.reset_boundary, a) && candidate.first_shared_revision <= candidate.revision && (
            head.first_shared_revision != 0 ==> candidate.first_shared_revision == head.first_shared_revision) && if a.view.reset_boundary {
                &&& a.changed
                &&& candidate.revision == head.revision + 1
                &&& candidate.prev_keyring_hash@ == h@
                &&& resets_under(engine, head@, candidate)
            } else {
                &&& follows(engine, head@, h@, candidate)
                &&& exists|before: MembershipView| #[trigger]
                    seats(head@.members, before) && (a.changed <==> member_models(a.view.members@) != member_models(before.members@))
            },
{
    let r = Ok::<Admitted, VerifyError>(a);
    let c = unwrapped(update@)->Some_0;
    let candidate = choose|candidate: Keyring|
        candidate@ == c && #[trigger] admission(engine, hash, valid, Some(prior@), update@, candidate, r);
    let k = unwrapped(prior@)->Some_0;
    assert(against_head(engine, hash, update@, candidate, k, r));
    let (head, h, v) = choose|kept: Keyring, h: [u8; 32], v: Result<KeyringAnchor, KeyringError>|
        kept@ == k && #[trigger] hashed(hash, kept, h) && #[trigger] transition(engine, anchor_of(k, h@), candidate, v) && match v {
            Ok(_) => followed(update@, candidate@, k.members, r),
            Err(KeyringError::FirstSharedRegressed) => r == Err::<Admitted, VerifyError>(VerifyError::SharedRegressed),
            Err(e) => as_reset(engine, update@, candidate, k, h@, e, r),
        };
    assert(hash.ensures((&head,), h));
    assert(marker_kept(k.first_shared_revision, candidate@));
    match v {
        Ok(_) => {
            admitted_is_admitted_as(update@, candidate@, false, a.changed, r);
            let (call, verdict) = judged_answers(engine, CallContent::Transition(linear(anchor_of(k, h@))), candidate, v);
            let from = call->Transition_0;
            let to = verdict->Ok_0;
            assert(call == EngineCall::Transition(from));
            assert(engine.ensures((&EngineCall::Transition(from), &candidate), Ok(to)));
            assert(follows(engine, head@, h@, candidate));
            let before = choose|before: MembershipView| #[trigger]
                shows(k.members, false, before) && a.changed == (member_models(a.view.members@) != member_models(before.members@));
            shown_are_seated(k.members, false, before);
            assert(seats(head@.members, before));
        },
        Err(e) => {
            let w = choose|w: Result<KeyringAnchor, KeyringError>| #[trigger]
                judged(engine, CallContent::Reset(authority(pinned_rvk(k.recovery_keys))), candidate, w) && match w {
                    Err(_) => r == Err::<Admitted, VerifyError>(neutral(e)),
                    Ok(_) => admitted(update@, candidate@, true, true, r),
                };
            admitted_is_admitted_as(update@, candidate@, true, true, r);
            let (call, verdict) = judged_answers(
                engine,
                CallContent::Reset(authority(pinned_rvk(k.recovery_keys))),
                candidate,
                w,
            );
            let key = call->Reset_0;
            let to = verdict->Ok_0;
            assert(call == EngineCall::Reset(key));
            authority_is_known(pinned_rvk(k.recovery_keys), key);
            assert(engine.ensures((&EngineCall::Reset(key), &candidate), Ok(to)));
            assert(resets_under(engine, head@, candidate));
        },
    }
}

/// Where the engine says that a keyring follows the head and the mark that the tree was shared is kept, the update is
/// admitted; and where it says neither that nor that it is a reset, the update is refused for what the engine said of
/// following.
pub proof fn when_a_later_update_is_refused<
    E: Fn(&EngineCall, &Keyring) -> Result<LinearAnchor, EngineError>,
    H: Fn(&Keyring) -> [u8; 32],
    V: Fn(&[u8; 32]) -> bool,
>(prior: &[u8], update: &[u8], engine: E, hash: H, valid: V, e: VerifyError)
    requires
        call_ensures(ChainVerifier::admit_update::<E, H, V>, (&ChainVerifier, Some(prior), update, &engine, &hash, &valid), Err(e)),
        unwrapped(prior@) is Some,
        unwrapped(update@) is Some,
    ensures
        exists|head: Keyring, h: [u8; 32], candidate: Keyring| #[trigger]
            hash.ensures((&head,), h) && unwrapped(prior@) == Some(head@) && unwrapped(update@) == Some(#[trigger] candidate@) && if candidate.first_shared_revision
                > candidate.revision || head.first_shared_revision != 0 && candidate.first_shared_revision != head.first_shared_revision {
                e == VerifyError::SharedRegressed
            } else {
                exists|a: LinearAnchor, said: EngineError|
                    a.revision == head.revision && a.doc_hash@ == h@ && #[trigger] engine.ensures(
                        (&EngineCall::Transition(a), &candidate),
                        Err(said),
                    ) && (e == VerifyError::Rollback <==> said is Fork) && (e == VerifyError::Stale <==> said is NonSequential) && (e
                        == VerifyError::Unauthorized <==> said is UnendorsedOrdinaryChange || said is UnendorsedSetChange)
            },
{
    let r = Err::<Admitted, VerifyError>(e);
    let c = unwrapped(update@)->Some_0;
    let candidate = choose|candidate: Keyring|
        candidate@ == c && #[trigger] admission(engine, hash, valid, Some(prior@), update@, candidate, r);
    let k = unwrapped(prior@)->Some_0;
    assert(against_head(engine, hash, update@, candidate, k, r));
    let (head, h, v) = choose|kept: Keyring, h: [u8; 32], v: Result<KeyringAnchor, KeyringError>|
        kept@ == k && #[trigger] hashed(hash, kept, h) && #[trigger] transition(engine, anchor_of(k, h@), candidate, v) && match v {
            Ok(_) => followed(update@, candidate@, k.members, r),
            Err(KeyringError::FirstSharedRegressed) => r == Err::<Admitted, VerifyError>(VerifyError::SharedRegressed),
            Err(e) => as_reset(engine, update@, candidate, k, h@, e, r),
        };
    assert(hash.ensures((&head,), h));
    if marker_kept(k.first_shared_revision, candidate@) {
        let (call, verdict) = judged_answers(engine, CallContent::Transition(linear(anchor_of(k, h@))), candidate, v);
        let from = call->Transition_0;
        let said = verdict->Err_0;
        assert(call == EngineCall::Transition(from));
        assert(engine.ensures((&EngineCall::Transition(from), &candidate), Err(said)));
        let err = v->Err_0;
        assert(e == neutral(err));
    }
}

/// Whose signature counts: one of sixty-four bytes that checks out under a trusted key, which is then named; and where none
/// does under any, it is refused.
pub proof fn whose_signature_counts<C: Fn(&Keyring, &[u8; 32], &[u8; 64]) -> bool>(
    keyring: Keyring,
    trusted: Vec<[u8; 32]>,
    check: C,
    r: Result<[u8; 32], SigError>,
)
    requires
        call_ensures(verify_keyring_any::<C>, (&keyring, &trusted, &check), r),
    ensures
        r matches Ok(key) ==> trusted@.contains(key) && exists|i: int, sig: [u8; 64]|
            0 <= i < keyring.signatures@.len() && (#[trigger] keyring.signatures@[i]).signature@ == sig@ && #[trigger] check.ensures(
                (&keyring, &key, &sig),
                true,
            ),
        r is Err ==> forall|i: int, j: int|
            #![trigger keyring.signatures@[i], trusted@[j]]
            0 <= i < keyring.signatures@.len() && keyring.signatures@[i].signature@.len() == 64 && 0 <= j < trusted@.len() ==> fails(
                check,
                keyring,
                trusted@[j],
                keyring.signatures@[i].signature@,
            ),
{
    match r {
        Ok(key) => {
            let (i, j) = choose|i: int, j: int| #[trigger]
                crate::keyring_chain::keyring::first_match(check, keyring, trusted@, i, j) && key == trusted@[j];
            assert(trusted@[j] == key);
            let sig = choose|sig: [u8; 64]|
                sig@ == keyring.signatures@[i].signature@ && #[trigger] crate::keyring_chain::keyring::checked(
                    check,
                    keyring,
                    key,
                    sig,
                    true,
                );
            assert(check.ensures((&keyring, &key, &sig), true));
            assert(keyring.signatures@[i].signature@ == sig@);
        },
        Err(_) => {
            assert forall|i: int, j: int|
                #![trigger keyring.signatures@[i], trusted@[j]]
                0 <= i < keyring.signatures@.len() && keyring.signatures@[i].signature@.len() == 64 && 0 <= j < trusted@.len() implies fails(
                check,
                keyring,
                trusted@[j],
                keyring.signatures@[i].signature@,
            ) by {
                let want = keyring.signatures@[i].signature@;
                assert(crate::keyring_chain::keyring::none_of(check, keyring, trusted@, trusted@.len() as int, want));
                assert(crate::keyring_chain::keyring::verdict(check, keyring, trusted@[j], want, false));
                let sig = choose|sig: [u8; 64]|
                    sig@ == want && #[trigger] crate::keyring_chain::keyring::checked(check, keyring, trusted@[j], sig, false);
                assert(check.ensures((&keyring, &trusted@[j], &sig), false));
            }
        },
    }
}

/// The signature does not check out under the key.
pub open spec fn fails<C: Fn(&Keyring, &[u8; 32], &[u8; 64]) -> bool>(check: C, keyring: Keyring, key: [u8; 32], signature: Seq<u8>) -> bool {
    exists|sig: [u8; 64]| sig@ == signature && #[trigger] check.ensures((&keyring, &key, &sig), false)
}

/// The keyring governs exactly where the engine accepted it, and as it is; otherwise the engine's error is told.
pub open spec fn governs_if(verdict: Result<LinearAnchor, EngineError>, keyring: Keyring, r: Result<GoverningKeyring, KeyringError>) -> bool {
    match verdict {
        Ok(_) => r matches Ok(g) && g.governs() == keyring,
        Err(e) => r matches Err(k) && told_as(e, k),
    }
}

/// When a keyring governs as the next one: where it keeps the mark that its tree was shared, and the engine says that it
/// follows the prior anchor.
pub proof fn when_a_next_keyring_governs<E: Fn(&EngineCall, &Keyring) -> Result<LinearAnchor, EngineError>>(
    prior: KeyringAnchor,
    candidate: Keyring,
    engine: E,
    r: Result<GoverningKeyring, KeyringError>,
)
    requires
        call_ensures(GoverningKeyring::from_transition::<E>, (&prior, candidate, &engine), r),
    ensures
        regresses(prior, candidate) ==> r == Err::<GoverningKeyring, KeyringError>(KeyringError::FirstSharedRegressed),
        !regresses(prior, candidate) ==> exists|a: LinearAnchor, verdict: Result<LinearAnchor, EngineError>| #[trigger]
            engine.ensures((&EngineCall::Transition(a), &candidate), verdict) && is_given(prior, a) && governs_if(verdict, candidate, r),
{
    if !regresses(prior, candidate) {
        let v = choose|v: Result<KeyringAnchor, KeyringError>| #[trigger]
            transition(engine, prior@, candidate, v) && minted(v, candidate, r);
        let (c, verdict) = judged_answers(engine, CallContent::Transition(linear(prior@)), candidate, v);
        let a = c->Transition_0;
        assert(c == EngineCall::Transition(a));
        given_as_linear(prior, a);
        assert(engine.ensures((&EngineCall::Transition(a), &candidate), verdict));
    }
}

/// When a keyring governs as the first one, as a pinned one, or as a reset: where the engine says so of it, under the key,
/// the pins, or no authority.
pub proof fn when_a_keyring_governs_on_its_own<E: Fn(&EngineCall, &Keyring) -> Result<LinearAnchor, EngineError>>(
    keyring: Keyring,
    own_founder_key: [u8; 32],
    pinned_tree_id: &[u8],
    pinned_revision: u32,
    pinned_hash: [u8; 32],
    engine: E,
    first: Result<GoverningKeyring, KeyringError>,
    pinned: Result<GoverningKeyring, KeyringError>,
    reset: Result<GoverningKeyring, KeyringError>,
)
    requires
        call_ensures(GoverningKeyring::from_genesis::<E>, (keyring, &own_founder_key, &engine), first),
        call_ensures(GoverningKeyring::from_oob::<E>, (keyring, pinned_tree_id, pinned_revision, &pinned_hash, &engine), pinned),
        call_ensures(GoverningKeyring::from_reset::<E>, (keyring, &engine), reset),
    ensures
        exists|key: [u8; 32], verdict: Result<LinearAnchor, EngineError>|
            key@ == own_founder_key@ && #[trigger] engine.ensures((&EngineCall::Genesis(key), &keyring), verdict) && governs_if(
                verdict,
                keyring,
                first,
            ),
        exists|group_id: Vec<u8>, hash: [u8; 32], verdict: Result<LinearAnchor, EngineError>|
            group_id@ == pinned_tree_id@ && hash@ == pinned_hash@ && #[trigger] engine.ensures(
                (&(EngineCall::Pinned { group_id, revision: pinned_revision, hash }), &keyring),
                verdict,
            ) && governs_if(verdict, keyring, pinned),
        exists|verdict: Result<LinearAnchor, EngineError>| #[trigger]
            engine.ensures((&EngineCall::Reset(None), &keyring), verdict) && governs_if(verdict, keyring, reset),
{
    let v = choose|v: Result<KeyringAnchor, KeyringError>| #[trigger]
        judged(engine, CallContent::Genesis(own_founder_key@), keyring, v) && minted(v, keyring, first);
    let (c, verdict) = judged_answers(engine, CallContent::Genesis(own_founder_key@), keyring, v);
    let key = c->Genesis_0;
    assert(c == EngineCall::Genesis(key));
    assert(engine.ensures((&EngineCall::Genesis(key), &keyring), verdict) && governs_if(verdict, keyring, first));
    let pins = CallContent::Pinned { group_id: pinned_tree_id@, revision: pinned_revision, hash: pinned_hash@ };
    let w = choose|v: Result<KeyringAnchor, KeyringError>| #[trigger]
        judged(engine, pins, keyring, v) && minted(v, keyring, pinned);
    let (d, said) = judged_answers(engine, pins, keyring, w);
    let group_id = d->group_id;
    let hash = d->hash;
    assert(d == (EngineCall::Pinned { group_id, revision: pinned_revision, hash }));
    assert(engine.ensures((&(EngineCall::Pinned { group_id, revision: pinned_revision, hash }), &keyring), said) && governs_if(
        said,
        keyring,
        pinned,
    ));
    let x = choose|v: Result<KeyringAnchor, KeyringError>| #[trigger]
        judged(engine, CallContent::Reset(None), keyring, v) && minted(v, keyring, reset);
    let (e, told) = judged_answers(engine, CallContent::Reset(None), keyring, x);
    let none = e->Reset_0;
    assert(none is None);
    assert(e == EngineCall::Reset(None));
    assert(engine.ensures((&EngineCall::Reset(None), &keyring), told) && governs_if(told, keyring, reset));
}

/// What a governing keyring is referred to by: its revision, in four bytes, the highest first.
pub proof fn what_a_governing_keyring_is_referred_to_by(g: GoverningKeyring, revision: u32, r: Vec<u8>)
    requires
        call_ensures(GoverningKeyring::revision, (&g,), revision),
        call_ensures(GoverningKeyring::governing_ref, (&g,), r),
    ensures
        revision == g.governs().revision,
        r@.len() == 4,
        revision == r@[0] * 0x100_0000 + r@[1] * 0x1_0000 + r@[2] * 0x100 + r@[3],
{
    be_4(revision);
}

} // verus!
