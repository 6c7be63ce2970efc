//! What a keyring and its drafts go through on the way to and from a blob store.

use vstd::prelude::*;

use crate::keyring_chain::blob_sync::{
    advancing, bootstrapping, countersigning, draft_key, got, hashed, head_guard, heading, history, installing, promoting,
    proposing, publishing, pulling, reads, resetting, rev_key, served, signed_draft, signing, undecoded, weighing, wrote,
    BlobError, Countersigning, KeyringChainBlobSync, Precondition, Promotion, PullError, SyncError, SyncState,
};
use crate::keyring_chain::chain::{
    anchor_of, judged, transition, walk, AnchorContent, CallContent, EngineCall, EngineError, KeyringAnchor, KeyringError, LinearAnchor,
};
use crate::keyring_chain::wire::{keyring_bytes, keyring_read, Keyring, KeyringContent, SignatureContent};
use crate::protobuf::Fault;
use crate::text::{decimal, hex_digit};

verus! {

/// Two numbers that are written alike are one.
pub proof fn numbers_are_written_apart(a: nat, b: nat)
    requires
        decimal(a) == decimal(b),
    ensures
        a == b,
    decreases a,
{
    let (da, db) = (decimal(a), decimal(b));
    if a < 10 {
        if b >= 10 {
            written_is_not_empty(b / 10);
            assert(db.len() >= 2);
        } else {
            assert(da[0] == hex_digit(a as int) && db[0] == hex_digit(b as int));
        }
    } else if b < 10 {
        written_is_not_empty(a / 10);
        assert(da.len() >= 2);
    } else {
        assert(da.last() == hex_digit((a % 10) as int));
        assert(db.last() == hex_digit((b % 10) as int));
        assert(da.drop_last() =~= decimal(a / 10));
        assert(db.drop_last() =~= decimal(b / 10));
        numbers_are_written_apart(a / 10, b / 10);
    }
}

proof fn written_is_not_empty(n: nat)
    ensures
        decimal(n).len() > 0,
    decreases n,
{
    if n >= 10 {
        written_is_not_empty(n / 10);
    }
}

/// Two revisions, two drafts, or a revision and a draft are never filed at one place, and none of them where the head is.
pub proof fn where_things_are_filed(m: u32, n: u32, a: &str, b: &str, at_m: String, at_n: String, at_a: String, at_b: String)
    requires
        call_ensures(rev_key, (m,), at_m),
        call_ensures(rev_key, (n,), at_n),
        call_ensures(draft_key, (a,), at_a),
        call_ensures(draft_key, (b,), at_b),
    ensures
        at_m@ == at_n@ <==> m == n,
        at_a@ == at_b@ <==> a@ == b@,
        at_m@ != at_a@,
        at_m@ != "keyring/head"@,
        at_a@ != "keyring/head"@,
{
    reveal_strlit("keyring/rev/");
    reveal_strlit("keyring/drafts/");
    reveal_strlit("keyring/head");
    let (rev, draft) = ("keyring/rev/"@, "keyring/drafts/"@);
    if at_m@ == at_n@ {
        assert(at_m@.skip(12) =~= decimal(m as nat));
        assert(at_n@.skip(12) =~= decimal(n as nat));
        numbers_are_written_apart(m as nat, n as nat);
    }
    if at_a@ == at_b@ {
        assert(at_a@.skip(15) =~= a@);
        assert(at_b@.skip(15) =~= b@);
    }
    assert(rev[8] == 'r' && draft[8] == 'd' && "keyring/head"@[8] == 'h');
    assert(at_m@[8] == 'r');
    assert(at_a@[8] == 'd');
}

/// The head is replaced only where it still is as it was last seen, and created only where there is none.
pub open spec fn guards(tag: Option<String>, guard: Precondition) -> bool {
    match tag {
        Some(t) => guard == Precondition::IfMatch(t),
        None => guard == Precondition::IfAbsent,
    }
}

/// The anchor is of this keyring.
pub open spec fn is_anchor_of(k: KeyringContent, a: AnchorContent) -> bool {
    a.tree_id == k.tree_id && a.revision == k.revision && a.governance_kind == k.governance_kind && a.governance_threshold
        == k.governance_threshold && a.first_shared_revision == k.first_shared_revision
}

/// The keyring was put at the head, under this guard, and got this tag.
pub open spec fn put_at_head<P: Fn(&str, &[u8], &Precondition) -> Result<String, BlobError>>(
    put: P,
    tag: Option<String>,
    bytes: Seq<u8>,
    answer: Result<String, BlobError>,
) -> bool {
    exists|guard: Precondition| guards(tag, guard) && #[trigger] wrote(put, "keyring/head"@, bytes, guard, answer)
}

/// The keyring was put into the history, where nothing may stand yet.
pub open spec fn put_into_history<P: Fn(&str, &[u8], &Precondition) -> Result<String, BlobError>>(
    put: P,
    revision: u32,
    bytes: Seq<u8>,
    answer: Result<String, BlobError>,
) -> bool {
    wrote(put, "keyring/rev/"@ + decimal(revision as nat), bytes, Precondition::IfAbsent, answer)
}

/// What publishing does. It succeeds where the bytes are a keyring and were put at the head, over what was last seen there,
/// after they were put into the history under their revision; what stands in the history already is left as it is. Then
/// the head's new tag and the keyring's anchor are kept. A head that has moved is a conflict. Where it fails, nothing that
/// is kept changes.
pub proof fn what_publishing_does<
    P: Fn(&str, &[u8], &Precondition) -> Result<String, BlobError>,
    H: Fn(&Keyring) -> [u8; 32],
>(put: P, hash: H, tag: Option<String>, before: SyncState, bytes: Seq<u8>, r: Result<(), SyncError>, after: SyncState)
    requires
        publishing(put, hash, head_guard(tag), before, bytes, r, after),
    ensures
        r is Err ==> after == before,
        r is Ok ==> (keyring_read(bytes) matches Ok(k) && (exists|filed: Result<String, BlobError>| #[trigger]
            put_into_history(put, k.revision, bytes, filed) && (filed is Ok || filed->Err_0 is PreconditionFailed)) && (exists|t: String|
            #[trigger] put_at_head(put, tag, bytes, Ok(t)) && after.head_etag == Some(t@)) && (after.anchor matches Some(a) && is_anchor_of(
            k,
            a,
        ) && exists|keyring: Keyring, h: [u8; 32]|
            keyring@ == k && #[trigger] hash.ensures((&keyring,), h) && a.keyring_hash == h@)),
        r == Err::<(), SyncError>(SyncError::Conflict) ==> exists|words: String| #[trigger]
            put_at_head(put, tag, bytes, Err(BlobError::PreconditionFailed(words))),
{
    let guard = head_guard(tag);
    assert(guards(tag, guard));
    if let Ok(k) = keyring_read(bytes) {
        let filed = choose|answer: Result<String, BlobError>| #[trigger]
            wrote(put, crate::keyring_chain::blob_sync::revision_key(k.revision), bytes, Precondition::IfAbsent, answer) && match answer {
                Ok(_) => heading(put, hash, guard, before, bytes, k, r, after),
                Err(BlobError::PreconditionFailed(_)) => heading(put, hash, guard, before, bytes, k, r, after),
                Err(e) => r == Err::<(), SyncError>(SyncError::Store(e)) && after == before,
            };
        assert(put_into_history(put, k.revision, bytes, filed));
        if filed is Ok || filed->Err_0 is PreconditionFailed {
            let answer = choose|answer: Result<String, BlobError>| #[trigger]
                wrote(put, crate::keyring_chain::blob_sync::HEAD@, bytes, guard, answer) && match answer {
                    Err(BlobError::PreconditionFailed(_)) => after == before && r == Err::<(), SyncError>(SyncError::Conflict),
                    Err(e) => after == before && r == Err::<(), SyncError>(SyncError::Store(e)),
                    Ok(t) => r is Ok && after.head_etag == Some(t@) && exists|keyring: Keyring, h: [u8; 32]|
                        keyring@ == k && #[trigger] hashed(hash, keyring, h) && after.anchor == Some(anchor_of(k, h@)),
                };
            assert(put_at_head(put, tag, bytes, answer));
            if let Ok(t) = answer {
                assert(put_at_head(put, tag, bytes, Ok(t)));
                let (keyring, h) = choose|keyring: Keyring, h: [u8; 32]|
                    keyring@ == k && #[trigger] hashed(hash, keyring, h) && after.anchor == Some(anchor_of(k, h@));
                assert(hash.ensures((&keyring,), h));
            }
            if let Err(BlobError::PreconditionFailed(words)) = answer {
                assert(put_at_head(put, tag, bytes, Err(BlobError::PreconditionFailed(words))));
            }
        }
    }
}

/// The store has this at its head.
pub open spec fn at_head<G: Fn(&str) -> Result<Option<(Vec<u8>, String)>, BlobError>>(
    get: G,
    answer: Result<Option<(Vec<u8>, String)>, BlobError>,
) -> bool {
    got(get, "keyring/head"@, answer)
}

/// The store has this keyring at its head, the engine accepts it on its own under this authority, and what is kept are its
/// tag and the anchor that the engine gave.
pub open spec fn taken_over<
    G: Fn(&str) -> Result<Option<(Vec<u8>, String)>, BlobError>,
    E: Fn(&EngineCall, &Keyring) -> Result<LinearAnchor, EngineError>,
>(
    get: G,
    engine: E,
    bytes: Vec<u8>,
    tag: String,
    keyring: Keyring,
    key: Option<Seq<u8>>,
    a: KeyringAnchor,
    after: SyncState,
) -> bool {
    &&& at_head(get, Ok(Some((bytes, tag))))
    &&& keyring_read(bytes@) == Ok::<KeyringContent, Fault>(keyring@)
    &&& judged(engine, CallContent::Reset(key), keyring, Ok(a))
    &&& after.anchor == Some(a@)
    &&& after.head_etag == Some(tag@)
}

/// What a first pull does: it takes over the head that the store has, where the engine accepts it on its own, under no
/// authority; it gives nothing where the store has none; and where it fails, nothing that is kept changes.
pub proof fn what_a_first_pull_does<
    G: Fn(&str) -> Result<Option<(Vec<u8>, String)>, BlobError>,
    E: Fn(&EngineCall, &Keyring) -> Result<LinearAnchor, EngineError>,
>(get: G, engine: E, before: SyncState, r: Result<Option<Vec<u8>>, SyncError>, after: SyncState)
    requires
        bootstrapping(get, engine, before, r, after),
    ensures
        r is Err ==> after == before,
        r == Ok::<Option<Vec<u8>>, SyncError>(None) ==> after == before && at_head(get, Ok(None)),
        r matches Ok(Some(bytes)) ==> exists|tag: String, keyring: Keyring, a: KeyringAnchor| #[trigger]
            taken_over(get, engine, bytes, tag, keyring, None, a, after),
{
    let answer = choose|answer: Result<Option<(Vec<u8>, String)>, BlobError>| #[trigger]
        got(get, crate::keyring_chain::blob_sync::HEAD@, answer) && match answer {
            Err(e) => r == Err::<Option<Vec<u8>>, SyncError>(SyncError::Store(e)) && after == before,
            Ok(None) => r == Ok::<Option<Vec<u8>>, SyncError>(None) && after == before,
            Ok(Some((bytes, tag))) => match keyring_read(bytes@) {
                Err(f) => (r matches Err(e) && undecoded(e, f)) && after == before,
                Ok(k) => exists|keyring: Keyring, v: Result<KeyringAnchor, KeyringError>|
                    keyring@ == k && #[trigger] judged(engine, CallContent::Reset(None), keyring, v) && match v {
                        Err(e) => r == Err::<Option<Vec<u8>>, SyncError>(SyncError::Chain(e)) && after == before,
                        Ok(a) => r == Ok::<Option<Vec<u8>>, SyncError>(Some(bytes)) && after == (SyncState {
                            anchor: Some(a@),
                            head_etag: Some(tag@),
                        }),
                    },
            },
        };
    assert(at_head(get, answer));
    if let Ok(None) = answer {
        assert(at_head(get, Ok(None)));
    }
    if let Ok(Some((bytes, tag))) = answer {
        if let Ok(k) = keyring_read(bytes@) {
            let (keyring, v) = choose|keyring: Keyring, v: Result<KeyringAnchor, KeyringError>|
                keyring@ == k && #[trigger] judged(engine, CallContent::Reset(None), keyring, v) && match v {
                    Err(e) => r == Err::<Option<Vec<u8>>, SyncError>(SyncError::Chain(e)) && after == before,
                    Ok(a) => r == Ok::<Option<Vec<u8>>, SyncError>(Some(bytes)) && after == (SyncState {
                        anchor: Some(a@),
                        head_etag: Some(tag@),
                    }),
                };
            if let Ok(a) = v {
                assert(r->Ok_0->Some_0 == bytes);
                assert(taken_over(get, engine, r->Ok_0->Some_0, tag, keyring, None, a, after));
            }
        }
    }
}

/// Every revision between the two, in order, as the store's history has it.
pub open spec fn between<G: Fn(&str) -> Result<Option<(Vec<u8>, String)>, BlobError>>(
    get: G,
    from: u32,
    to: u32,
    hops: Seq<Keyring>,
) -> bool {
    &&& hops.len() == to - from - 1
    &&& forall|i: int| 0 <= i < hops.len() ==> served(get, (from + 1 + i) as u32, #[trigger] hops[i])
}

/// The engine walks from the anchor over every revision between to the head, with this outcome.
pub open spec fn walks_up<
    G: Fn(&str) -> Result<Option<(Vec<u8>, String)>, BlobError>,
    E: Fn(&EngineCall, &Keyring) -> Result<LinearAnchor, EngineError>,
>(get: G, engine: E, anchor: AnchorContent, head: Keyring, v: Result<KeyringAnchor, KeyringError>) -> bool {
    exists|hops: Seq<Keyring>| between(get, anchor.revision, head.revision, hops) && #[trigger] walk(engine, anchor, hops.push(head), v)
}

/// What a pull answers where the head is ahead.
pub open spec fn moves_up<
    G: Fn(&str) -> Result<Option<(Vec<u8>, String)>, BlobError>,
    E: Fn(&EngineCall, &Keyring) -> Result<LinearAnchor, EngineError>,
>(
    get: G,
    engine: E,
    anchor: AnchorContent,
    head: Keyring,
    tag: String,
    before: SyncState,
    r: Result<Option<Vec<u8>>, PullError>,
    after: SyncState,
) -> bool {
    &&& r matches Ok(got) ==> got is Some && exists|a: KeyringAnchor| #[trigger]
        walks_up(get, engine, anchor, head, Ok(a)) && after.anchor == Some(a@) && after.head_etag == Some(tag@)
    &&& r is Err ==> after == before
    &&& r == Err::<Option<Vec<u8>>, PullError>(PullError::ResetPending) ==> walks_up(
        get,
        engine,
        anchor,
        head,
        Err(KeyringError::UnendorsedSetChange),
    )
    &&& r matches Err(PullError::Sync(SyncError::Chain(e))) ==> e != KeyringError::UnendorsedSetChange && walks_up(
        get,
        engine,
        anchor,
        head,
        Err(e),
    )
    &&& !(r matches Err(PullError::Rollback { .. }))
}

proof fn advancing_moves_up<
    G: Fn(&str) -> Result<Option<(Vec<u8>, String)>, BlobError>,
    E: Fn(&EngineCall, &Keyring) -> Result<LinearAnchor, EngineError>,
>(
    get: G,
    engine: E,
    anchor: AnchorContent,
    head: Keyring,
    bytes: Vec<u8>,
    tag: String,
    before: SyncState,
    r: Result<Option<Vec<u8>>, PullError>,
    after: SyncState,
)
    requires
        anchor.revision < head.revision,
        advancing(get, engine, anchor, head, bytes, tag@, before, r, after),
    ensures
        moves_up(get, engine, anchor, head, tag, before, r, after),
        r is Ok ==> r == Ok::<Option<Vec<u8>>, PullError>(Some(bytes)),
{
    let past = choose|past: Result<Seq<Keyring>, SyncError>| #[trigger]
        history(get, anchor.revision + 1, head.revision as int, past) && match past {
            Err(e) => r == Err::<Option<Vec<u8>>, PullError>(PullError::Sync(e)) && after == before,
            Ok(hops) => exists|v: Result<KeyringAnchor, KeyringError>| #[trigger]
                walk(engine, anchor, hops.push(head), v) && match v {
                    Ok(a) => r == Ok::<Option<Vec<u8>>, PullError>(Some(bytes)) && after == (SyncState {
                        anchor: Some(a@),
                        head_etag: Some(tag@),
                    }),
                    Err(e) => after == before && r == Err::<Option<Vec<u8>>, PullError>(
                        if e == KeyringError::UnendorsedSetChange {
                            PullError::ResetPending
                        } else {
                            PullError::Sync(SyncError::Chain(e))
                        },
                    ),
                },
        };
    match past {
        Ok(hops) => {
            let v = choose|v: Result<KeyringAnchor, KeyringError>| #[trigger]
                walk(engine, anchor, hops.push(head), v) && match v {
                    Ok(a) => r == Ok::<Option<Vec<u8>>, PullError>(Some(bytes)) && after == (SyncState {
                        anchor: Some(a@),
                        head_etag: Some(tag@),
                    }),
                    Err(e) => after == before && r == Err::<Option<Vec<u8>>, PullError>(
                        if e == KeyringError::UnendorsedSetChange {
                            PullError::ResetPending
                        } else {
                            PullError::Sync(SyncError::Chain(e))
                        },
                    ),
                };
            assert(between(get, anchor.revision, head.revision, hops));
            assert(walks_up(get, engine, anchor, head, v));
            match v {
                Ok(a) => {
                    assert(walks_up(get, engine, anchor, head, Ok(a)));
                },
                Err(e) => {
                    assert(walks_up(get, engine, anchor, head, Err(e)));
                },
            }
        },
        Err(e) => {
            assert(e !is Chain);
        },
    }
}

/// What a later pull does. It takes over a head of a higher revision, where the engine accepts, one after the other, every
/// revision since the anchor and the head at last; a walk that fails on a change of the set that was not endorsed is a
/// reset that waits to be confirmed. A head of the anchor's revision and digest is nothing new, and only its tag is kept;
/// one of another digest is refused. A head of a lower revision is a rollback, told with both revisions.
pub proof fn what_a_later_pull_does<
    G: Fn(&str) -> Result<Option<(Vec<u8>, String)>, BlobError>,
    E: Fn(&EngineCall, &Keyring) -> Result<LinearAnchor, EngineError>,
    H: Fn(&Keyring) -> [u8; 32],
>(
    get: G,
    engine: E,
    hash: H,
    anchor: AnchorContent,
    before: SyncState,
    bytes: Vec<u8>,
    tag: String,
    r: Result<Option<Vec<u8>>, PullError>,
    after: SyncState,
)
    requires
        pulling(get, engine, hash, anchor, before, r, after),
        forall|answer: Result<Option<(Vec<u8>, String)>, BlobError>| #[trigger] at_head(get, answer) ==> answer == Ok::<
            Option<(Vec<u8>, String)>,
            BlobError,
        >(Some((bytes, tag))),
        keyring_read(bytes@) is Ok,
    ensures
        ({
            let k = keyring_read(bytes@)->Ok_0;
            if k.revision < anchor.revision {
                after == before && r == Err::<Option<Vec<u8>>, PullError>(
                    PullError::Rollback { have: anchor.revision, served: k.revision },
                )
            } else if k.revision == anchor.revision {
                exists|head: Keyring, h: [u8; 32]|
                    head@ == k && #[trigger] hash.ensures((&head,), h) && after.anchor == before.anchor && (h@ == anchor.keyring_hash <==> r
                        == Ok::<Option<Vec<u8>>, PullError>(None)) && (r is Ok <==> after.head_etag == Some(tag@) && r == Ok::<
                        Option<Vec<u8>>,
                        PullError,
                    >(None)) && (r is Err ==> after == before)
            } else {
                (r is Ok ==> r == Ok::<Option<Vec<u8>>, PullError>(Some(bytes))) && exists|head: Keyring|
                    head@ == k && #[trigger] moves_up(get, engine, anchor, head, tag, before, r, after)
            }
        }),
{
    let k = keyring_read(bytes@)->Ok_0;
    let answer = choose|answer: Result<Option<(Vec<u8>, String)>, BlobError>| #[trigger]
        got(get, crate::keyring_chain::blob_sync::HEAD@, answer) && match answer {
            Err(e) => r == Err::<Option<Vec<u8>>, PullError>(PullError::Sync(SyncError::Store(e))) && after == before,
            Ok(None) => r == Ok::<Option<Vec<u8>>, PullError>(None) && after == before,
            Ok(Some((bytes, tag))) => match keyring_read(bytes@) {
                Err(f) => (r matches Err(PullError::Sync(e)) && undecoded(e, f)) && after == before,
                Ok(k) => if k.revision < anchor.revision {
                    after == before && r == Err::<Option<Vec<u8>>, PullError>(
                        PullError::Rollback { have: anchor.revision, served: k.revision },
                    )
                } else if k.revision == anchor.revision {
                    exists|head: Keyring, h: [u8; 32]|
                        head@ == k && #[trigger] hashed(hash, head, h) && if h@ == anchor.keyring_hash {
                            r == Ok::<Option<Vec<u8>>, PullError>(None) && after == (SyncState { head_etag: Some(tag@), ..before })
                        } else {
                            after == before && r == Err::<Option<Vec<u8>>, PullError>(
                                PullError::Sync(SyncError::Malformed("store served a different keyring at the same revision")),
                            )
                        }
                } else {
                    exists|head: Keyring|
                        head@ == k && #[trigger] advancing(get, engine, anchor, head, bytes, tag@, before, r, after)
                },
            },
        };
    assert(at_head(get, answer));
    if k.revision == anchor.revision {
        let (head, h) = choose|head: Keyring, h: [u8; 32]|
            head@ == k && #[trigger] hashed(hash, head, h) && if h@ == anchor.keyring_hash {
                r == Ok::<Option<Vec<u8>>, PullError>(None) && after == (SyncState { head_etag: Some(tag@), ..before })
            } else {
                after == before && r == Err::<Option<Vec<u8>>, PullError>(
                    PullError::Sync(SyncError::Malformed("store served a different keyring at the same revision")),
                )
            };
        assert(hash.ensures((&head,), h));
    } else if k.revision > anchor.revision {
        let head = choose|head: Keyring|
            head@ == k && #[trigger] advancing(get, engine, anchor, head, bytes, tag@, before, r, after);
        advancing_moves_up(get, engine, anchor, head, bytes, tag, before, r, after);
    }
}

/// The authority that a reset is held to: the one that the anchor has, padded to its length, or none where it has none.
pub open spec fn holds_to(anchor: Option<AnchorContent>, key: Option<Seq<u8>>) -> bool {
    match anchor {
        Some(a) => (key is None <==> a.recovery_verifying_key.len() == 0) && (a.recovery_verifying_key.len() == 32 ==> key == Some(
            a.recovery_verifying_key,
        )),
        None => key is None,
    }
}

/// What accepting a reset does: it takes over the store's head, which is not behind the anchor, where the engine accepts it
/// as a reset under the authority that the anchor has; and where it fails, nothing that is kept changes.
pub proof fn what_accepting_a_reset_does<
    G: Fn(&str) -> Result<Option<(Vec<u8>, String)>, BlobError>,
    E: Fn(&EngineCall, &Keyring) -> Result<LinearAnchor, EngineError>,
>(get: G, engine: E, before: SyncState, r: Result<Vec<u8>, SyncError>, after: SyncState)
    requires
        resetting(get, engine, before, r, after),
    ensures
        r is Err ==> after == before,
        r matches Ok(bytes) ==> exists|tag: String, keyring: Keyring, key: Option<Seq<u8>>, a: KeyringAnchor| #[trigger]
            taken_over(get, engine, bytes, tag, keyring, key, a, after) && holds_to(before.anchor, key) && (before.anchor matches Some(p)
                ==> keyring.revision >= p.revision),
{
    let key = crate::keyring_chain::chain::authority(crate::keyring_chain::blob_sync::pinned_authority(before.anchor));
    if let Some(p) = before.anchor {
        if p.recovery_verifying_key.len() == 32 {
            assert(crate::keyring_chain::doc::padded(p.recovery_verifying_key) =~= p.recovery_verifying_key);
        }
    }
    assert(holds_to(before.anchor, key));
    let answer = choose|answer: Result<Option<(Vec<u8>, String)>, BlobError>| #[trigger]
        got(get, crate::keyring_chain::blob_sync::HEAD@, answer) && match answer {
            Err(e) => r == Err::<Vec<u8>, SyncError>(SyncError::Store(e)) && after == before,
            Ok(None) => r == Err::<Vec<u8>, SyncError>(SyncError::Malformed("no head to accept")) && after == before,
            Ok(Some((bytes, tag))) => match keyring_read(bytes@) {
                Err(f) => (r matches Err(e) && undecoded(e, f)) && after == before,
                Ok(k) => if before.anchor matches Some(a) && k.revision < a.revision {
                    r == Err::<Vec<u8>, SyncError>(SyncError::Malformed("reset revision is behind the watermark")) && after == before
                } else {
                    exists|keyring: Keyring, v: Result<KeyringAnchor, KeyringError>|
                        keyring@ == k && #[trigger] judged(engine, CallContent::Reset(key), keyring, v) && match v {
                            Err(e) => r == Err::<Vec<u8>, SyncError>(SyncError::Chain(e)) && after == before,
                            Ok(a) => r == Ok::<Vec<u8>, SyncError>(bytes) && after == (SyncState {
                                anchor: Some(a@),
                                head_etag: Some(tag@),
                            }),
                        }
                },
            },
        };
    assert(at_head(get, answer));
    if let Ok(Some((bytes, tag))) = answer {
        assert(at_head(get, Ok(Some((bytes, tag)))));
        if let Ok(k) = keyring_read(bytes@) {
            if !(before.anchor matches Some(a) && k.revision < a.revision) {
                let (keyring, v) = choose|keyring: Keyring, v: Result<KeyringAnchor, KeyringError>|
                    keyring@ == k && #[trigger] judged(engine, CallContent::Reset(key), keyring, v) && match v {
                        Err(e) => r == Err::<Vec<u8>, SyncError>(SyncError::Chain(e)) && after == before,
                        Ok(a) => r == Ok::<Vec<u8>, SyncError>(bytes) && after == (SyncState {
                            anchor: Some(a@),
                            head_etag: Some(tag@),
                        }),
                    };
                if let Ok(a) = v {
                    assert(r->Ok_0 == bytes);
                    assert(taken_over(get, engine, r->Ok_0, tag, keyring, key, a, after));
                }
            }
        }
    }
}

/// Where a draft stands.
pub open spec fn draft_place(id: Seq<char>) -> Seq<char> {
    "keyring/drafts/"@ + id
}

/// What proposing does: where the bytes are a keyring, they are put as a draft under this id, where none stands yet; that
/// one stands already is a conflict.
pub proof fn what_proposing_does<P: Fn(&str, &[u8], &Precondition) -> Result<String, BlobError>>(
    sync: KeyringChainBlobSync,
    id: &str,
    bytes: &[u8],
    put: P,
    r: Result<(), SyncError>,
)
    requires
        call_ensures(KeyringChainBlobSync::propose::<P>, (&sync, id, bytes, &put), r),
    ensures
        keyring_read(bytes@) is Err ==> r matches Err(SyncError::Decode(_)),
        keyring_read(bytes@) is Ok ==> exists|answer: Result<String, BlobError>| #[trigger]
            wrote(put, draft_place(id@), bytes@, Precondition::IfAbsent, answer) && (r is Ok <==> answer is Ok) && (r == Err::<(), SyncError>(
                SyncError::Conflict,
            ) <==> (answer matches Err(BlobError::PreconditionFailed(_)))),
{
    if keyring_read(bytes@) is Ok {
        let answer = choose|answer: Result<String, BlobError>| #[trigger]
            wrote(put, crate::keyring_chain::blob_sync::proposal_key(id@), bytes@, Precondition::IfAbsent, answer) && match answer {
                Ok(_) => r is Ok,
                Err(BlobError::PreconditionFailed(_)) => r == Err::<(), SyncError>(SyncError::Conflict),
                Err(e) => r == Err::<(), SyncError>(SyncError::Store(e)),
            };
        assert(wrote(put, draft_place(id@), bytes@, Precondition::IfAbsent, answer));
    }
}

/// The draft with this signature added behind the others, and nothing else of it changed.
pub open spec fn with_signature(draft: KeyringContent, key: Seq<u8>, sig: Seq<u8>, k: KeyringContent) -> bool {
    &&& k == (KeyringContent { signatures: k.signatures, ..draft })
    &&& k.signatures.len() == draft.signatures.len() + 1
    &&& forall|i: int| 0 <= i < draft.signatures.len() ==> #[trigger] k.signatures[i] == draft.signatures[i]
    &&& k.signatures.last().signer_public_key == key
    &&& k.signatures.last().signature == sig
}

/// What countersigning does. It signs the draft that the store has only where that reads as the one that was reviewed, and
/// puts it back with the signature added, over the very draft that it read. That the draft has moved meanwhile asks for
/// another try.
pub proof fn what_countersigning_does<
    G: Fn(&str) -> Result<Option<(Vec<u8>, String)>, BlobError>,
    P: Fn(&str, &[u8], &Precondition) -> Result<String, BlobError>,
    C: Fn(&Keyring) -> Vec<u8>,
    S: Fn(&Keyring) -> [u8; 64],
>(
    get: G,
    put: P,
    content: C,
    sign: S,
    id: Seq<char>,
    signer: Seq<u8>,
    reviewed: Seq<u8>,
    r: Result<Countersigning, SyncError>,
)
    requires
        countersigning(get, put, content, sign, crate::keyring_chain::blob_sync::proposal_key(id), signer, reviewed, r),
    ensures
        r matches Ok(c) ==> exists|
            bytes: Vec<u8>,
            tag: String,
            draft: Keyring,
            read: Vec<u8>,
            sig: [u8; 64],
            k: KeyringContent,
            answer: Result<String, BlobError>,
        | #[trigger]
            got(get, draft_place(id), Ok(Some((bytes, tag)))) && keyring_read(bytes@) == Ok::<KeyringContent, Fault>(draft@)
                && #[trigger] content.ensures((&draft,), read) && read@ == reviewed && #[trigger] sign.ensures((&draft,), sig)
                && with_signature(draft@, signer, sig@, k) && #[trigger] wrote(
                put,
                draft_place(id),
                keyring_bytes(k),
                Precondition::IfMatch(tag),
                answer,
            ) && (c == Countersigning::Signed <==> answer is Ok) && (c == Countersigning::Retry <==> (answer matches Err(
                BlobError::PreconditionFailed(_),
            ))),
        r == Err::<Countersigning, SyncError>(SyncError::DraftContentChanged) ==> exists|
            bytes: Vec<u8>,
            tag: String,
            draft: Keyring,
            read: Vec<u8>,
        | #[trigger]
            got(get, draft_place(id), Ok(Some((bytes, tag)))) && keyring_read(bytes@) == Ok::<KeyringContent, Fault>(draft@)
                && #[trigger] content.ensures((&draft,), read) && read@ != reviewed,
{
    let key = crate::keyring_chain::blob_sync::proposal_key(id);
    assert(key == draft_place(id));
    let answer = choose|answer: Result<Option<(Vec<u8>, String)>, BlobError>| #[trigger]
        got(get, key, answer) && match answer {
            Err(e) => r == Err::<Countersigning, SyncError>(SyncError::Store(e)),
            Ok(None) => r == Err::<Countersigning, SyncError>(SyncError::Malformed("no such draft")),
            Ok(Some((bytes, tag))) => match keyring_read(bytes@) {
                Err(f) => r matches Err(e) && undecoded(e, f),
                Ok(k) => exists|draft: Keyring|
                    draft@ == k && #[trigger] signing(put, content, sign, key, signer, reviewed, draft, tag, r),
            },
        };
    if let Ok(Some((bytes, tag))) = answer {
        assert(got(get, draft_place(id), Ok(Some((bytes, tag)))));
        if let Ok(k) = keyring_read(bytes@) {
            let draft = choose|draft: Keyring|
                draft@ == k && #[trigger] signing(put, content, sign, key, signer, reviewed, draft, tag, r);
            signed_only_as_reviewed(put, content, sign, key, signer, reviewed, draft, tag, r);
        }
    }
}

proof fn signed_only_as_reviewed<
    P: Fn(&str, &[u8], &Precondition) -> Result<String, BlobError>,
    C: Fn(&Keyring) -> Vec<u8>,
    S: Fn(&Keyring) -> [u8; 64],
>(
    put: P,
    content: C,
    sign: S,
    key: Seq<char>,
    signer: Seq<u8>,
    reviewed: Seq<u8>,
    draft: Keyring,
    tag: String,
    r: Result<Countersigning, SyncError>,
)
    requires
        signing(put, content, sign, key, signer, reviewed, draft, tag, r),
    ensures
        r matches Ok(c) ==> exists|read: Vec<u8>, sig: [u8; 64], k: KeyringContent, answer: Result<String, BlobError>| #[trigger]
            content.ensures((&draft,), read) && read@ == reviewed && #[trigger] sign.ensures((&draft,), sig) && with_signature(
                draft@,
                signer,
                sig@,
                k,
            ) && #[trigger] wrote(put, key, keyring_bytes(k), Precondition::IfMatch(tag), answer) && (c == Countersigning::Signed <==> answer is Ok)
                && (c == Countersigning::Retry <==> (answer matches Err(BlobError::PreconditionFailed(_)))),
        r == Err::<Countersigning, SyncError>(SyncError::DraftContentChanged) ==> exists|read: Vec<u8>| #[trigger]
            content.ensures((&draft,), read) && read@ != reviewed,
{
    let c = choose|c: Vec<u8>| #[trigger]
        reads(content, draft, c) && if c@ != reviewed {
            r == Err::<Countersigning, SyncError>(SyncError::DraftContentChanged)
        } else {
            exists|k: KeyringContent, answer: Result<String, BlobError>|
                signed_draft(sign, draft, signer, k) && #[trigger] wrote(put, key, keyring_bytes(k), Precondition::IfMatch(tag), answer)
                    && match answer {
                    Ok(_) => r == Ok::<Countersigning, SyncError>(Countersigning::Signed),
                    Err(BlobError::PreconditionFailed(_)) => r == Ok::<Countersigning, SyncError>(Countersigning::Retry),
                    Err(e) => r == Err::<Countersigning, SyncError>(SyncError::Store(e)),
                }
        };
    assert(content.ensures((&draft,), c));
    if c@ == reviewed {
        let (k, answer) = choose|k: KeyringContent, answer: Result<String, BlobError>|
            signed_draft(sign, draft, signer, k) && #[trigger] wrote(put, key, keyring_bytes(k), Precondition::IfMatch(tag), answer)
                && match answer {
                Ok(_) => r == Ok::<Countersigning, SyncError>(Countersigning::Signed),
                Err(BlobError::PreconditionFailed(_)) => r == Ok::<Countersigning, SyncError>(Countersigning::Retry),
                Err(e) => r == Err::<Countersigning, SyncError>(SyncError::Store(e)),
            };
        let sig = choose|sig: [u8; 64]| #[trigger]
            sign.ensures((&draft,), sig) && k == (KeyringContent {
                signatures: draft@.signatures.push(SignatureContent { signer_public_key: signer, signature: sig@ }),
                ..draft@
            });
        assert(with_signature(draft@, signer, sig@, k));
    }
}

/// What promoting does. A draft is promoted where it follows the anchor and was put at the head, over what was last seen
/// there; then its anchor and the head's new tag are kept, and it is put into the history. A draft that follows another
/// head, or whose head has moved, is stale; one that lacks endorsement is not ready; and where it is not promoted, nothing
/// that is kept changes.
pub proof fn what_promoting_does<
    G: Fn(&str) -> Result<Option<(Vec<u8>, String)>, BlobError>,
    P: Fn(&str, &[u8], &Precondition) -> Result<String, BlobError>,
    E: Fn(&EngineCall, &Keyring) -> Result<LinearAnchor, EngineError>,
>(get: G, put: P, engine: E, tag: Option<String>, id: Seq<char>, before: SyncState, r: Result<Promotion, SyncError>, after: SyncState)
    requires
        promoting(get, put, engine, head_guard(tag), crate::keyring_chain::blob_sync::proposal_key(id), before, r, after),
    ensures
        r != Ok::<Promotion, SyncError>(Promotion::Promoted) ==> after == before,
        before.anchor is None ==> r is Err,
        r is Ok ==> exists|bytes: Vec<u8>, seen: String, draft: Keyring, v: Result<KeyringAnchor, KeyringError>| #[trigger]
            got(get, draft_place(id), Ok(Some((bytes, seen)))) && keyring_read(bytes@) == Ok::<KeyringContent, Fault>(draft@) && before.anchor is Some
                && #[trigger] transition(engine, before.anchor->Some_0, draft, v) && promoted_as(put, tag, bytes@, draft, v, r->Ok_0, after),
{
    let key = crate::keyring_chain::blob_sync::proposal_key(id);
    assert(key == draft_place(id));
    if let Some(anchor) = before.anchor {
        let answer = choose|answer: Result<Option<(Vec<u8>, String)>, BlobError>| #[trigger]
            got(get, key, answer) && match answer {
                Err(e) => r == Err::<Promotion, SyncError>(SyncError::Store(e)) && after == before,
                Ok(None) => r == Err::<Promotion, SyncError>(SyncError::Malformed("no such draft")) && after == before,
                Ok(Some((bytes, _))) => match keyring_read(bytes@) {
                    Err(f) => (r matches Err(e) && undecoded(e, f)) && after == before,
                    Ok(k) => exists|draft: Keyring|
                        draft@ == k && #[trigger] weighing(put, engine, head_guard(tag), anchor, before, bytes@, draft, r, after),
                },
            };
        if let Ok(Some((bytes, seen))) = answer {
            assert(got(get, draft_place(id), Ok(Some((bytes, seen)))));
            if let Ok(k) = keyring_read(bytes@) {
                let draft = choose|draft: Keyring|
                    draft@ == k && #[trigger] weighing(put, engine, head_guard(tag), anchor, before, bytes@, draft, r, after);
                weighed_as(put, engine, tag, anchor, before, bytes@, draft, r, after);
            }
        }
    }
}

/// How a draft of this verdict is promoted.
pub open spec fn promoted_as<P: Fn(&str, &[u8], &Precondition) -> Result<String, BlobError>>(
    put: P,
    tag: Option<String>,
    bytes: Seq<u8>,
    draft: Keyring,
    v: Result<KeyringAnchor, KeyringError>,
    p: Promotion,
    after: SyncState,
) -> bool {
    match p {
        Promotion::Promoted => v is Ok && after.anchor == Some(v->Ok_0@) && (exists|t: String| #[trigger]
            put_at_head(put, tag, bytes, Ok(t)) && after.head_etag == Some(t@)) && (exists|filed: Result<String, BlobError>| #[trigger]
            put_into_history(put, draft.revision, bytes, filed)),
        Promotion::NotReady => v is Err && (v->Err_0 is UnendorsedSetChange || v->Err_0 is UnendorsedOrdinaryChange),
        Promotion::Stale => v is Err && (v->Err_0 is Fork || v->Err_0 is NonSequential) || v is Ok && exists|words: String| #[trigger]
            put_at_head(put, tag, bytes, Err(BlobError::PreconditionFailed(words))),
    }
}

proof fn weighed_as<
    P: Fn(&str, &[u8], &Precondition) -> Result<String, BlobError>,
    E: Fn(&EngineCall, &Keyring) -> Result<LinearAnchor, EngineError>,
>(
    put: P,
    engine: E,
    tag: Option<String>,
    anchor: AnchorContent,
    before: SyncState,
    bytes: Seq<u8>,
    draft: Keyring,
    r: Result<Promotion, SyncError>,
    after: SyncState,
)
    requires
        weighing(put, engine, head_guard(tag), anchor, before, bytes, draft, r, after),
    ensures
        r != Ok::<Promotion, SyncError>(Promotion::Promoted) ==> after == before,
        r is Ok ==> exists|v: Result<KeyringAnchor, KeyringError>| #[trigger]
            transition(engine, anchor, draft, v) && promoted_as(put, tag, bytes, draft, v, r->Ok_0, after),
{
    let guard = head_guard(tag);
    assert(guards(tag, guard));
    let v = choose|v: Result<KeyringAnchor, KeyringError>| #[trigger]
        transition(engine, anchor, draft, v) && match v {
            Ok(a) => installing(
                put,
                guard,
                before,
                bytes,
                a@,
                crate::keyring_chain::blob_sync::revision_key(draft.revision),
                r,
                after,
            ),
            Err(KeyringError::Fork) => r == Ok::<Promotion, SyncError>(Promotion::Stale) && after == before,
            Err(KeyringError::NonSequential) => r == Ok::<Promotion, SyncError>(Promotion::Stale) && after == before,
            Err(KeyringError::UnendorsedSetChange) => r == Ok::<Promotion, SyncError>(Promotion::NotReady) && after == before,
            Err(KeyringError::UnendorsedOrdinaryChange) => r == Ok::<Promotion, SyncError>(Promotion::NotReady) && after == before,
            Err(e) => r == Err::<Promotion, SyncError>(SyncError::Chain(e)) && after == before,
        };
    if let Ok(a) = v {
        let at = crate::keyring_chain::blob_sync::revision_key(draft.revision);
        let answer = choose|answer: Result<String, BlobError>| #[trigger]
            wrote(put, crate::keyring_chain::blob_sync::HEAD@, bytes, guard, answer) && match answer {
                Ok(tag) => r == Ok::<Promotion, SyncError>(Promotion::Promoted) && after == (SyncState {
                    anchor: Some(a@),
                    head_etag: Some(tag@),
                }) && exists|filed: Result<String, BlobError>| #[trigger] wrote(put, at, bytes, Precondition::IfAbsent, filed),
                Err(BlobError::PreconditionFailed(_)) => r == Ok::<Promotion, SyncError>(Promotion::Stale) && after == before,
                Err(e) => r == Err::<Promotion, SyncError>(SyncError::Store(e)) && after == before,
            };
        assert(put_at_head(put, tag, bytes, answer));
        match answer {
            Ok(t) => {
                assert(put_at_head(put, tag, bytes, Ok(t)));
                let filed = choose|filed: Result<String, BlobError>| #[trigger] wrote(put, at, bytes, Precondition::IfAbsent, filed);
                assert(put_into_history(put, draft.revision, bytes, filed));
            },
            Err(BlobError::PreconditionFailed(words)) => {
                assert(put_at_head(put, tag, bytes, Err(BlobError::PreconditionFailed(words))));
            },
            _ => {},
        }
    }
}

/// Where the draft does not follow the anchor because it lacks endorsement, or because it follows another head, it is never
/// promoted; and it is told which.
pub proof fn what_is_not_promoted<
    P: Fn(&str, &[u8], &Precondition) -> Result<String, BlobError>,
    E: Fn(&EngineCall, &Keyring) -> Result<LinearAnchor, EngineError>,
>(
    put: P,
    engine: E,
    tag: Option<String>,
    anchor: AnchorContent,
    before: SyncState,
    bytes: Seq<u8>,
    draft: Keyring,
    r: Result<Promotion, SyncError>,
    after: SyncState,
    error: KeyringError,
)
    requires
        weighing(put, engine, head_guard(tag), anchor, before, bytes, draft, r, after),
        forall|v: Result<KeyringAnchor, KeyringError>| #[trigger]
            transition(engine, anchor, draft, v) ==> v == Err::<KeyringAnchor, KeyringError>(error),
    ensures
        error is Fork || error is NonSequential ==> r == Ok::<Promotion, SyncError>(Promotion::Stale),
        error is UnendorsedSetChange || error is UnendorsedOrdinaryChange ==> r == Ok::<Promotion, SyncError>(Promotion::NotReady),
        r is Ok ==> error is Fork || error is NonSequential || error is UnendorsedSetChange || error is UnendorsedOrdinaryChange,
{
}

/// Of a store that has this keyring at its head, and of an anchor that is not ahead of it: the reset is taken over exactly
/// where the engine accepts it under the authority that the anchor has. And of a first pull: the head is taken over exactly
/// where the engine accepts it under none.
pub proof fn when_a_head_is_taken_over<
    G: Fn(&str) -> Result<Option<(Vec<u8>, String)>, BlobError>,
    E: Fn(&EngineCall, &Keyring) -> Result<LinearAnchor, EngineError>,
>(
    get: G,
    engine: E,
    bytes: Vec<u8>,
    tag: String,
    before: SyncState,
    reset: Result<Vec<u8>, SyncError>,
    after_reset: SyncState,
    first: Result<Option<Vec<u8>>, SyncError>,
    after_first: SyncState,
)
    requires
        forall|answer: Result<Option<(Vec<u8>, String)>, BlobError>| #[trigger] at_head(get, answer) ==> answer == Ok::<
            Option<(Vec<u8>, String)>,
            BlobError,
        >(Some((bytes, tag))),
        keyring_read(bytes@) is Ok,
        before.anchor matches Some(a) ==> keyring_read(bytes@)->Ok_0.revision >= a.revision,
        resetting(get, engine, before, reset, after_reset),
        bootstrapping(get, engine, before, first, after_first),
    ensures
        exists|keyring: Keyring, key: Option<Seq<u8>>, v: Result<KeyringAnchor, KeyringError>| #[trigger]
            judged(engine, CallContent::Reset(key), keyring, v) && keyring@ == keyring_read(bytes@)->Ok_0 && holds_to(before.anchor, key)
                && answers_with(v, reset is Ok, match reset {
                Err(SyncError::Chain(e)) => Some(e),
                _ => None,
            }),
        exists|keyring: Keyring, v: Result<KeyringAnchor, KeyringError>| #[trigger]
            judged(engine, CallContent::Reset(None), keyring, v) && keyring@ == keyring_read(bytes@)->Ok_0 && answers_with(
                v,
                first is Ok,
                match first {
                    Err(SyncError::Chain(e)) => Some(e),
                    _ => None,
                },
            ),
{
    let k = keyring_read(bytes@)->Ok_0;
    let key = crate::keyring_chain::chain::authority(crate::keyring_chain::blob_sync::pinned_authority(before.anchor));
    if let Some(p) = before.anchor {
        if p.recovery_verifying_key.len() == 32 {
            assert(crate::keyring_chain::doc::padded(p.recovery_verifying_key) =~= p.recovery_verifying_key);
        }
    }
    assert(holds_to(before.anchor, key));
    assert forall|answer: Result<Option<(Vec<u8>, String)>, BlobError>| #[trigger]
        got(get, crate::keyring_chain::blob_sync::HEAD@, answer) implies answer == Ok::<Option<(Vec<u8>, String)>, BlobError>(
        Some((bytes, tag)),
    ) by {
        assert(at_head(get, answer));
    }
    let (x, v) = choose|keyring: Keyring, v: Result<KeyringAnchor, KeyringError>|
        keyring@ == k && #[trigger] judged(engine, CallContent::Reset(key), keyring, v) && match v {
            Err(e) => reset == Err::<Vec<u8>, SyncError>(SyncError::Chain(e)) && after_reset == before,
            Ok(a) => reset == Ok::<Vec<u8>, SyncError>(bytes) && after_reset == (SyncState {
                anchor: Some(a@),
                head_etag: Some(tag@),
            }),
        };
    assert(judged(engine, CallContent::Reset(key), x, v));
    let (y, w) = choose|keyring: Keyring, v: Result<KeyringAnchor, KeyringError>|
        keyring@ == k && #[trigger] judged(engine, CallContent::Reset(None), keyring, v) && match v {
            Err(e) => first == Err::<Option<Vec<u8>>, SyncError>(SyncError::Chain(e)) && after_first == before,
            Ok(a) => first == Ok::<Option<Vec<u8>>, SyncError>(Some(bytes)) && after_first == (SyncState {
                anchor: Some(a@),
                head_etag: Some(tag@),
            }),
        };
    assert(judged(engine, CallContent::Reset(None), y, w));
}

/// It succeeds exactly where the verdict does, and otherwise with the verdict's error.
pub open spec fn answers_with(v: Result<KeyringAnchor, KeyringError>, ok: bool, told: Option<KeyringError>) -> bool {
    match v {
        Ok(_) => ok,
        Err(e) => !ok && told == Some(e),
    }
}

} // verus!
