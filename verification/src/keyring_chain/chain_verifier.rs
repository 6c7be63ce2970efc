//! Keyless admission of keyring revisions: the server's side of the chain.

use vstd::prelude::*;

use crate::keyring_api::{
    default_envelope, engine_of_tag, envelope_read, member_models, same_members, view_ignores_member_order, Admitted, EngineKind,
    EnvelopeError, MemberModel, MemberView, MembershipEnvelope, MembershipView, VerifyError, MEMBERSHIP_ENVELOPE_VERSION,
};
use crate::keyring_chain::blob_sync::hashed;
use crate::keyring_chain::chain::{
    anchor_of, authority, bootstrap_from_genesis, encode_governing_ref, judged, slice_view, transition, verify_reset,
    verify_transition, CallContent, EngineCall, EngineError, KeyringAnchor, KeyringError, LinearAnchor,
};
use crate::keyring_chain::doc::{founder_at, narrow_role, padded, pinned_rvk, role16, to_pk32};
use crate::keyring_chain::wire::{
    keyring_read, Keyring, KeyringContent, MemberContent, MEMBER_OWNER,
};
use crate::layout::be_bytes;
use crate::order::bytes_equal;
use crate::sorting::{distinct_keys, stable_sorting, Keyed};
use crate::text::copy_bytes;

verus! {

/// The keyring in a membership envelope of the chain engine.
pub open spec fn unwrapped(bytes: Seq<u8>) -> Option<KeyringContent> {
    match envelope_read(bytes, default_envelope()) {
        Some(e) => if e.version == MEMBERSHIP_ENVELOPE_VERSION && engine_of_tag(e.engine) == Some(EngineKind::Chain) {
            match keyring_read(e.body) {
                Ok(k) => Some(k),
                Err(_) => None,
            }
        } else {
            None
        },
        None => None,
    }
}

/// The keyring in a membership envelope of the chain engine.
pub fn unwrap_keyring(bytes: &[u8]) -> (r: Result<Keyring, VerifyError>)
    ensures
        match r {
            Ok(k) => unwrapped(bytes@) == Some(k@),
            Err(e) => e == VerifyError::Malformed && unwrapped(bytes@) is None,
        },
{
    let parsed = MembershipEnvelope::decode(bytes);
    let env: MembershipEnvelope = match parsed {
        Ok(e) => e,
        Err(e) => {
            proof {
                if let EnvelopeError::UnsupportedVersion(v) = e {
                    assert(parsed == Err::<MembershipEnvelope, EnvelopeError>(EnvelopeError::UnsupportedVersion(v)));
                }
            }
            return Err(VerifyError::Malformed);
        },
    };
    match env.engine_kind() {
        Ok(EngineKind::Chain) => {},
        _ => {
            return Err(VerifyError::Malformed);
        },
    }
    match Keyring::decode(env.body.as_slice()) {
        Ok(k) => Ok(k),
        Err(_) => Err(VerifyError::Malformed),
    }
}

/// A member as the shared view shows them.
pub open spec fn seat(m: MemberContent) -> MemberModel {
    MemberModel {
        member_id: m.member_id,
        role: role16(m.role),
        author_public_key: m.author_public_key,
        hpke_public_key: m.hpke_public_key,
    }
}

/// The view shows exactly these members, sorted by id.
pub open spec fn shows(members: Seq<MemberContent>, reset_boundary: bool, view: MembershipView) -> bool {
    &&& view.reset_boundary == reset_boundary
    &&& exists|listed: Seq<MemberView>|
        member_models(listed) == members.map_values(|m: MemberContent| seat(m)) && #[trigger] stable_sorting(
            listed,
            view.members@,
        )
}

/// The membership that a verified keyring resolves to.
pub fn membership_view(keyring: &Keyring) -> (r: MembershipView)
    ensures
        shows(keyring@.members, false, r),
{
    view_of(keyring, false)
}

fn view_of(keyring: &Keyring, reset_boundary: bool) -> (r: MembershipView)
    ensures
        shows(keyring@.members, reset_boundary, r),
{
    let mut listed: Vec<MemberView> = Vec::new();
    let mut i: usize = 0;
    while i < keyring.members.len()
        invariant
            i <= keyring.members.len(),
            listed@.len() == i,
            forall|j: int| 0 <= j < i ==> (#[trigger] listed@[j])@ == seat(keyring@.members[j]),
        decreases keyring.members.len() - i,
    {
        let m = &keyring.members[i];
        listed.push(
            MemberView {
                member_id: m.member_id.clone(),
                role: narrow_role(m.role),
                author_public_key: copy_bytes(m.author_public_key.as_slice()),
                hpke_public_key: copy_bytes(m.hpke_public_key.as_slice()),
            },
        );
        i = i + 1;
    }
    assert(member_models(listed@) =~= keyring@.members.map_values(|m: MemberContent| seat(m)));
    MembershipView::new(listed, reset_boundary)
}

/// The neutral refusal that a chain error stands for.
pub open spec fn neutral(e: KeyringError) -> VerifyError {
    match e {
        KeyringError::Fork => VerifyError::Rollback,
        KeyringError::NonSequential => VerifyError::Stale,
        KeyringError::UnendorsedOrdinaryChange => VerifyError::Unauthorized,
        KeyringError::UnendorsedSetChange => VerifyError::Unauthorized,
        KeyringError::FirstSharedRegressed => VerifyError::SharedRegressed,
        _ => VerifyError::Malformed,
    }
}

/// The neutral refusal that a chain error stands for.
pub fn classify(e: KeyringError) -> (r: VerifyError)
    ensures
        r == neutral(e),
{
    match e {
        KeyringError::Fork => VerifyError::Rollback,
        KeyringError::NonSequential => VerifyError::Stale,
        KeyringError::UnendorsedOrdinaryChange => VerifyError::Unauthorized,
        KeyringError::UnendorsedSetChange => VerifyError::Unauthorized,
        KeyringError::FirstSharedRegressed => VerifyError::SharedRegressed,
        KeyringError::TreeMismatch => VerifyError::Malformed,
        KeyringError::LayoutAhead => VerifyError::Malformed,
        KeyringError::BadStructure(_) => VerifyError::Malformed,
        KeyringError::WrapIncomplete => VerifyError::Malformed,
        KeyringError::BadBootstrap => VerifyError::Malformed,
        KeyringError::RevisionOverflow => VerifyError::Malformed,
    }
}

/// The founder's key, if there is a founder and the key has the right length.
pub open spec fn founder_key_of(members: Seq<MemberContent>) -> Option<Seq<u8>> {
    if exists|f: int| founder_at(members, f) {
        let key = members[choose|f: int| founder_at(members, f)].author_public_key;
        if key.len() == 32 {
            Some(key)
        } else {
            None
        }
    } else {
        None
    }
}

/// The founder's key, if there is a founder and the key has the right length.
pub fn founder_key(keyring: &Keyring) -> (r: Option<[u8; 32]>)
    ensures
        founder_key_of(keyring@.members) == (match r {
            Some(k) => Some(k@),
            None => None::<Seq<u8>>,
        }),
{
    let ghost all = keyring@.members;
    let mut f: usize = 0;
    while f < keyring.members.len() && keyring.members[f].role != MEMBER_OWNER
        invariant
            f <= keyring.members.len(),
            all == keyring@.members,
            forall|j: int| 0 <= j < f ==> (#[trigger] all[j]).role != MEMBER_OWNER,
        decreases keyring.members.len() - f,
    {
        f = f + 1;
    }
    if f == keyring.members.len() {
        assert(forall|g: int| !(#[trigger] founder_at(all, g)));
        return None;
    }
    proof {
        assert(founder_at(all, f as int));
        assert forall|g: int| #[trigger] founder_at(all, g) implies g == f by {}
    }
    let key = &keyring.members[f].author_public_key;
    if key.len() != 32 {
        return None;
    }
    let k: [u8; 32] = to_pk32(key.as_slice());
    assert(padded(key@) =~= key@);
    Some(k)
}

/// The outcome of an update that was admitted: it is the new state, and what it says is read off the keyring.
pub open spec fn admitted(
    update: Seq<u8>,
    k: KeyringContent,
    reset_boundary: bool,
    changed: bool,
    r: Result<Admitted, VerifyError>,
) -> bool {
    r matches Ok(a) && a.state@ == update && shows(k.members, reset_boundary, a.view) && a.changed == changed && a.tree_id@
        == k.tree_id && a.update_ref@ == be_bytes(k.revision as nat, 4)
}

/// The outcome of an update that follows the head: the membership changed where the views of the two differ.
pub open spec fn followed(
    update: Seq<u8>,
    k: KeyringContent,
    head: Seq<MemberContent>,
    r: Result<Admitted, VerifyError>,
) -> bool {
    r matches Ok(a) && admitted(update, k, false, a.changed, r) && exists|before: MembershipView| #[trigger]
        shows(head, false, before) && a.changed == (member_models(a.view.members@) != member_models(before.members@))
}

/// How a keyring comes out as a genesis under this founder key.
pub open spec fn founded<
    E: Fn(&EngineCall, &Keyring) -> Result<LinearAnchor, EngineError>,
    V: Fn(&[u8; 32]) -> bool,
>(engine: E, valid: V, update: Seq<u8>, candidate: Keyring, key: Seq<u8>, r: Result<Admitted, VerifyError>) -> bool {
    exists|k: [u8; 32], ok: bool|
        k@ == key && #[trigger] valid.ensures((&k,), ok) && if !ok {
            r == Err::<Admitted, VerifyError>(VerifyError::Malformed)
        } else {
            exists|v: Result<KeyringAnchor, KeyringError>| #[trigger]
                judged(engine, CallContent::Genesis(key), candidate, v) && match v {
                    Err(e) => r == Err::<Admitted, VerifyError>(neutral(e)),
                    Ok(_) => admitted(update, candidate@, false, true, r),
                }
        }
}

/// How a keyring comes out at first sight: it has to be a genesis signed by its own founder.
pub open spec fn first_sight<
    E: Fn(&EngineCall, &Keyring) -> Result<LinearAnchor, EngineError>,
    V: Fn(&[u8; 32]) -> bool,
>(engine: E, valid: V, update: Seq<u8>, candidate: Keyring, r: Result<Admitted, VerifyError>) -> bool {
    match founder_key_of(candidate@.members) {
        None => r == Err::<Admitted, VerifyError>(VerifyError::Malformed),
        Some(key) => founded(engine, valid, update, candidate, key, r),
    }
}

/// The candidate is one revision past the head, and names the head's hash.
pub open spec fn chains_on(candidate: KeyringContent, head: KeyringContent, hash: Seq<u8>) -> bool {
    candidate.revision == head.revision + 1 && candidate.prev_keyring_hash == hash
}

/// How a keyring that does not follow the head comes out: as a reset where it chains onto the head and stands under
/// the head's recovery authority, with the refusal `error` otherwise.
pub open spec fn as_reset<E: Fn(&EngineCall, &Keyring) -> Result<LinearAnchor, EngineError>>(
    engine: E,
    update: Seq<u8>,
    candidate: Keyring,
    head: KeyringContent,
    hash: Seq<u8>,
    error: KeyringError,
    r: Result<Admitted, VerifyError>,
) -> bool {
    if !chains_on(candidate@, head, hash) {
        r == Err::<Admitted, VerifyError>(neutral(error))
    } else {
        exists|v: Result<KeyringAnchor, KeyringError>| #[trigger]
            judged(engine, CallContent::Reset(authority(pinned_rvk(head.recovery_keys))), candidate, v) && match v {
                Err(_) => r == Err::<Admitted, VerifyError>(neutral(error)),
                Ok(_) => admitted(update, candidate@, true, true, r),
            }
    }
}

/// How a keyring comes out against the head: as its successor, or else as a reset. One that moves the marker of the
/// first share is neither.
pub open spec fn against_head<
    E: Fn(&EngineCall, &Keyring) -> Result<LinearAnchor, EngineError>,
    H: Fn(&Keyring) -> [u8; 32],
>(engine: E, hash: H, update: Seq<u8>, candidate: Keyring, head: KeyringContent, r: Result<Admitted, VerifyError>) -> bool {
    exists|kept: Keyring, h: [u8; 32], v: Result<KeyringAnchor, KeyringError>|
        kept@ == head && #[trigger] hashed(hash, kept, h) && #[trigger] transition(engine, anchor_of(head, h@), candidate, v)
            && match v {
            Ok(_) => followed(update, candidate@, head.members, r),
            Err(KeyringError::FirstSharedRegressed) => r == Err::<Admitted, VerifyError>(VerifyError::SharedRegressed),
            Err(e) => as_reset(engine, update, candidate, head, h@, e, r),
        }
}

/// How a keyring comes out against the prior state, or at first sight.
pub open spec fn admission<
    E: Fn(&EngineCall, &Keyring) -> Result<LinearAnchor, EngineError>,
    H: Fn(&Keyring) -> [u8; 32],
    V: Fn(&[u8; 32]) -> bool,
>(
    engine: E,
    hash: H,
    valid: V,
    prior: Option<Seq<u8>>,
    update: Seq<u8>,
    candidate: Keyring,
    r: Result<Admitted, VerifyError>,
) -> bool {
    match prior {
        None => first_sight(engine, valid, update, candidate, r),
        Some(p) => match unwrapped(p) {
            None => r == Err::<Admitted, VerifyError>(VerifyError::Malformed),
            Some(head) => against_head(engine, hash, update, candidate, head, r),
        },
    }
}

/// The chain's keyless verifier.
#[derive(Clone, Copy, Debug, Default)]
pub struct ChainVerifier;

impl ChainVerifier {
    /// Admits an update against the prior state, or at first sight. Both are membership envelopes.
    pub fn admit_update<
        E: Fn(&EngineCall, &Keyring) -> Result<LinearAnchor, EngineError>,
        H: Fn(&Keyring) -> [u8; 32],
        V: Fn(&[u8; 32]) -> bool,
    >(&self, prior_state: Option<&[u8]>, update: &[u8], engine: &E, hash: &H, valid: &V) -> (r: Result<Admitted, VerifyError>)
        requires
            forall|c: EngineCall, k: Keyring| engine.requires((&c, &k)),
            forall|k: Keyring| hash.requires((&k,)),
            forall|k: [u8; 32]| valid.requires((&k,)),
        ensures
            match unwrapped(update@) {
                None => r == Err::<Admitted, VerifyError>(VerifyError::Malformed),
                Some(c) => exists|candidate: Keyring|
                    candidate@ == c && #[trigger] admission(
                        *engine,
                        *hash,
                        *valid,
                        slice_view(prior_state),
                        update@,
                        candidate,
                        r,
                    ),
            },
    {
        let candidate: Keyring = match unwrap_keyring(update) {
            Ok(k) => k,
            Err(e) => {
                return Err(e);
            },
        };
        let r = match prior_state {
            None => ChainVerifier::admit_first(update, &candidate, engine, valid),
            Some(prior) => {
                match unwrap_keyring(prior) {
                    Err(e) => Err(e),
                    Ok(head) => ChainVerifier::admit_next(update, &candidate, &head, engine, hash),
                }
            },
        };
        assert(admission(*engine, *hash, *valid, slice_view(prior_state), update@, candidate, r));
        r
    }

    fn outcome(update: &[u8], candidate: &Keyring, view: MembershipView, changed: bool) -> (r: Result<Admitted, VerifyError>)
        requires
            shows(candidate@.members, view.reset_boundary, view),
        ensures
            admitted(update@, candidate@, view.reset_boundary, changed, r),
            r matches Ok(a) && a.view == view,
    {
        Ok(
            Admitted {
                state: copy_bytes(update),
                view,
                changed,
                tree_id: copy_bytes(candidate.tree_id.as_slice()),
                update_ref: encode_governing_ref(candidate.revision),
            },
        )
    }

    fn admit_first<E: Fn(&EngineCall, &Keyring) -> Result<LinearAnchor, EngineError>, V: Fn(&[u8; 32]) -> bool>(
        update: &[u8],
        candidate: &Keyring,
        engine: &E,
        valid: &V,
    ) -> (r: Result<Admitted, VerifyError>)
        requires
            forall|c: EngineCall, k: Keyring| engine.requires((&c, &k)),
            forall|k: [u8; 32]| valid.requires((&k,)),
        ensures
            first_sight(*engine, *valid, update@, *candidate, r),
    {
        let founder: [u8; 32] = match founder_key(candidate) {
            Some(k) => k,
            None => {
                return Err(VerifyError::Malformed);
            },
        };
        let ok = valid(&founder);
        assert(valid.ensures((&founder,), ok));
        if !ok {
            return Err(VerifyError::Malformed);
        }
        let v = bootstrap_from_genesis(candidate, &founder, engine);
        let ghost verdict = v;
        assert(judged(*engine, CallContent::Genesis(founder@), *candidate, verdict));
        match v {
            Err(e) => Err(classify(e)),
            Ok(_) => ChainVerifier::outcome(update, candidate, membership_view(candidate), true),
        }
    }

    fn admit_next<E: Fn(&EngineCall, &Keyring) -> Result<LinearAnchor, EngineError>, H: Fn(&Keyring) -> [u8; 32]>(
        update: &[u8],
        candidate: &Keyring,
        head: &Keyring,
        engine: &E,
        hash: &H,
    ) -> (r: Result<Admitted, VerifyError>)
        requires
            forall|c: EngineCall, k: Keyring| engine.requires((&c, &k)),
            forall|k: Keyring| hash.requires((&k,)),
        ensures
            against_head(*engine, *hash, update@, *candidate, head@, r),
    {
        let h: [u8; 32] = hash(head);
        assert(hashed(*hash, *head, h));
        let anchor: KeyringAnchor = KeyringAnchor::from_keyring(head, h);
        let v = verify_transition(&anchor, candidate, engine);
        let ghost verdict = v;
        assert(transition(*engine, anchor_of(head@, h@), *candidate, verdict));
        match v {
            Ok(_) => {
                let view: MembershipView = membership_view(candidate);
                let before: MembershipView = membership_view(head);
                let changed: bool = !same_members(&view.members, &before.members);
                assert(shows(head@.members, false, before));
                ChainVerifier::outcome(update, candidate, view, changed)
            },
            Err(KeyringError::FirstSharedRegressed) => Err(VerifyError::SharedRegressed),
            Err(e) => ChainVerifier::admit_reset(update, candidate, head, &h, &anchor, e, engine),
        }
    }

    fn admit_reset<E: Fn(&EngineCall, &Keyring) -> Result<LinearAnchor, EngineError>>(
        update: &[u8],
        candidate: &Keyring,
        head: &Keyring,
        h: &[u8; 32],
        anchor: &KeyringAnchor,
        error: KeyringError,
        engine: &E,
    ) -> (r: Result<Admitted, VerifyError>)
        requires
            forall|c: EngineCall, k: Keyring| engine.requires((&c, &k)),
            anchor@ == anchor_of(head@, h@),
        ensures
            as_reset(*engine, update@, *candidate, head@, h@, error, r),
    {
        let follows: bool = head.revision < u32::MAX && candidate.revision == head.revision + 1;
        if !follows || !bytes_equal(candidate.prev_keyring_hash.as_slice(), h.as_slice()) {
            return Err(classify(error));
        }
        proof {
            pinned_is_not_empty(head@.recovery_keys);
        }
        let v = if anchor.recovery_verifying_key.len() > 0 {
            verify_reset(Some(anchor.recovery_verifying_key.as_slice()), candidate, engine)
        } else {
            verify_reset(None, candidate, engine)
        };
        let ghost verdict = v;
        assert(judged(*engine, CallContent::Reset(authority(pinned_rvk(head@.recovery_keys))), *candidate, verdict));
        match v {
            Err(_) => Err(classify(error)),
            Ok(_) => ChainVerifier::outcome(update, candidate, view_of(candidate, true), true),
        }
    }
}

proof fn pinned_is_not_empty(keys: Seq<crate::keyring_chain::wire::RecoveryContent>)
    ensures
        pinned_rvk(keys) matches Some(v) ==> v.len() > 0,
    decreases keys.len(),
{
    if keys.len() > 0 {
        pinned_is_not_empty(keys.drop_first());
    }
}

/// No two members have one id.
pub open spec fn ids_are_distinct(members: Seq<MemberContent>) -> bool {
    forall|i: int, j: int| #![trigger members[i], members[j]]
        0 <= i < j < members.len() ==> members[i].member_id != members[j].member_id
}

proof fn listing_keeps_ids(members: Seq<MemberContent>, listed: Seq<MemberView>)
    requires
        ids_are_distinct(members),
        member_models(listed) == members.map_values(|m: MemberContent| seat(m)),
    ensures
        distinct_keys(listed),
{
    assert(listed.len() == member_models(listed).len());
    assert forall|i: int, j: int| #![trigger listed[i], listed[j]] 0 <= i < j < listed.len() implies listed[i].sort_key()
        != listed[j].sort_key() by {
        assert(member_models(listed)[i] == seat(members[i]));
        assert(member_models(listed)[j] == seat(members[j]));
    }
}

/// Listing the same members in another order is no change of membership.
pub proof fn a_reordering_is_no_change(
    a: Seq<MemberContent>,
    va: MembershipView,
    b: Seq<MemberContent>,
    vb: MembershipView,
)
    requires
        shows(a, false, va),
        shows(b, false, vb),
        ids_are_distinct(a),
        ids_are_distinct(b),
        a.to_set() == b.to_set(),
    ensures
        member_models(va.members@) == member_models(vb.members@),
{
    let f = |m: MemberContent| seat(m);
    let la = choose|l: Seq<MemberView>| member_models(l) == a.map_values(f) && #[trigger] stable_sorting(l, va.members@);
    let lb = choose|l: Seq<MemberView>| member_models(l) == b.map_values(f) && #[trigger] stable_sorting(l, vb.members@);
    listing_keeps_ids(a, la);
    listing_keeps_ids(b, lb);
    assert forall|x: MemberModel| member_models(la).to_set().contains(x) == member_models(lb).to_set().contains(x) by {
        if member_models(la).contains(x) {
            let i = choose|i: int| 0 <= i < a.len() && a.map_values(f)[i] == x;
            assert(a.to_set().contains(a[i]));
            let j = choose|j: int| 0 <= j < b.len() && b[j] == a[i];
            assert(b.map_values(f)[j] == x);
        }
        if member_models(lb).contains(x) {
            let i = choose|i: int| 0 <= i < b.len() && b.map_values(f)[i] == x;
            assert(b.to_set().contains(b[i]));
            let j = choose|j: int| 0 <= j < a.len() && a[j] == b[i];
            assert(a.map_values(f)[j] == x);
        }
    }
    assert(member_models(la).to_set() =~= member_models(lb).to_set());
    view_ignores_member_order(la, va.members@, lb, vb.members@);
}

/// No update un-shares a tree: against a head that was shared, whatever is admitted is shared since the same revision.
pub proof fn nothing_unshares_a_tree<
    E: Fn(&EngineCall, &Keyring) -> Result<LinearAnchor, EngineError>,
    H: Fn(&Keyring) -> [u8; 32],
>(engine: E, hash: H, update: Seq<u8>, candidate: Keyring, head: KeyringContent, r: Result<Admitted, VerifyError>)
    requires
        head.first_shared_revision != 0,
        against_head(engine, hash, update, candidate, head, r),
    ensures
        r is Ok ==> candidate@.first_shared_revision == head.first_shared_revision,
        candidate@.first_shared_revision != head.first_shared_revision ==> r == Err::<Admitted, VerifyError>(
            VerifyError::SharedRegressed,
        ),
{
}

} // verus!
