//! Carrying a keyring over a blob store: one head that is swapped under its tag, an append-only history beside it,
//! and drafts that co-owners sign in turn. The store is handed in as the calls it answers.

use vstd::prelude::*;

use crate::keyring_chain::chain::{
    anchor_of, authority, judged, transition, verify_reset, verify_transition, verify_walk, walk, AnchorContent,
    CallContent, EngineCall, EngineError, KeyringAnchor, KeyringError, LinearAnchor,
};
use crate::keyring_chain::keyring::sign_keyring;
use crate::keyring_chain::wire::{keyring_bytes, keyring_read, Keyring, KeyringContent, SignatureContent};
use crate::order::bytes_equal;
use crate::protobuf::{fault_text, Fault};
use crate::text::{concat, decimal, decimal_text};

verus! {

/// What a store says when it does not do what it was asked, with its own words for it.
#[derive(Clone, Debug, PartialEq, Eq)]
pub enum BlobError {
    PreconditionFailed(String),
    Gone(String),
    Backend(String),
}

/// When a write may go ahead.
#[derive(Clone, Debug, PartialEq, Eq)]
pub enum Precondition {
    Any,
    IfAbsent,
    IfMatch(String),
}

/// The key of a revision in the history.
pub open spec fn revision_key(n: u32) -> Seq<char> {
    "keyring/rev/"@ + decimal(n as nat)
}

/// The key of a draft.
pub open spec fn proposal_key(id: Seq<char>) -> Seq<char> {
    "keyring/drafts/"@ + id
}

/// The key of the head.
pub const HEAD: &'static str = "keyring/head";

/// The key of a revision in the history.
pub fn rev_key(n: u32) -> (r: String)
    ensures
        r@ == revision_key(n),
{
    let digits: String = decimal_text(n as u64);
    concat("keyring/rev/", digits.as_str())
}

/// The key of a draft.
pub fn draft_key(id: &str) -> (r: String)
    ensures
        r@ == proposal_key(id@),
{
    concat("keyring/drafts/", id)
}

/// Distinct proposals have distinct keys.
pub proof fn drafts_are_apart(a: Seq<char>, b: Seq<char>)
    requires
        proposal_key(a) == proposal_key(b),
    ensures
        a == b,
{
    let n = "keyring/drafts/"@.len() as int;
    assert(proposal_key(a).skip(n) =~= a);
    assert(proposal_key(b).skip(n) =~= b);
}

/// What came of promoting a draft.
#[derive(Clone, Copy, Debug, PartialEq, Eq, Structural)]
pub enum Promotion {
    /// The draft is the head now.
    Promoted,
    /// It lacks signatures.
    NotReady,
    /// The head moved; the draft must be built anew.
    Stale,
}

/// Why a transport step fails.
#[derive(Clone, Debug, PartialEq, Eq)]
pub enum SyncError {
    Store(BlobError),
    /// The bytes are no keyring, and why.
    Decode(String),
    Chain(KeyringError),
    Malformed(&'static str),
    /// The head advanced meanwhile.
    Conflict,
    /// The draft is not the one that was reviewed.
    DraftContentChanged,
}

impl SyncError {
    /// What went wrong, in words.
    pub fn message(&self) -> (r: String)
        ensures
            r@ == (match *self {
                SyncError::Store(e) => "blob store: "@ + blob_text(e),
                SyncError::Decode(e) => "keyring decode: "@ + e@,
                SyncError::Chain(e) => "chain rejected: "@ + error_name(e),
                SyncError::Malformed(m) => "malformed keyring transport state: "@ + m@,
                SyncError::Conflict => "head advanced concurrently; retry"@,
                SyncError::DraftContentChanged => "draft content changed since review; re-review before countersigning"@,
            }),
    {
        match self {
            SyncError::Store(e) => match e {
                BlobError::PreconditionFailed(words) => concat("blob store: ", words.as_str()),
                BlobError::Gone(words) => concat("blob store: ", words.as_str()),
                BlobError::Backend(words) => concat("blob store: ", words.as_str()),
            },
            SyncError::Decode(e) => concat("keyring decode: ", e.as_str()),
            SyncError::Chain(e) => {
                let name: String = name_of_error(*e);
                concat("chain rejected: ", name.as_str())
            },
            SyncError::Malformed(m) => concat("malformed keyring transport state: ", m),
            SyncError::Conflict => "head advanced concurrently; retry".to_owned(),
            SyncError::DraftContentChanged => {
                "draft content changed since review; re-review before countersigning".to_owned()
            },
        }
    }
}

/// The store's own words.
pub open spec fn blob_text(e: BlobError) -> Seq<char> {
    match e {
        BlobError::PreconditionFailed(words) => words@,
        BlobError::Gone(words) => words@,
        BlobError::Backend(words) => words@,
    }
}

/// A refusal's name.
pub open spec fn error_name(e: KeyringError) -> Seq<char> {
    match e {
        KeyringError::TreeMismatch => "TreeMismatch"@,
        KeyringError::LayoutAhead => "LayoutAhead"@,
        KeyringError::BadStructure(s) => "BadStructure(\""@ + s@ + "\")"@,
        KeyringError::NonSequential => "NonSequential"@,
        KeyringError::Fork => "Fork"@,
        KeyringError::UnendorsedOrdinaryChange => "UnendorsedOrdinaryChange"@,
        KeyringError::UnendorsedSetChange => "UnendorsedSetChange"@,
        KeyringError::WrapIncomplete => "WrapIncomplete"@,
        KeyringError::BadBootstrap => "BadBootstrap"@,
        KeyringError::RevisionOverflow => "RevisionOverflow"@,
        KeyringError::FirstSharedRegressed => "FirstSharedRegressed"@,
    }
}

fn name_of_error(e: KeyringError) -> (r: String)
    ensures
        r@ == error_name(e),
{
    match e {
        KeyringError::TreeMismatch => "TreeMismatch".to_owned(),
        KeyringError::LayoutAhead => "LayoutAhead".to_owned(),
        KeyringError::BadStructure(s) => {
            let open: String = concat("BadStructure(\"", s);
            concat(open.as_str(), "\")")
        },
        KeyringError::NonSequential => "NonSequential".to_owned(),
        KeyringError::Fork => "Fork".to_owned(),
        KeyringError::UnendorsedOrdinaryChange => "UnendorsedOrdinaryChange".to_owned(),
        KeyringError::UnendorsedSetChange => "UnendorsedSetChange".to_owned(),
        KeyringError::WrapIncomplete => "WrapIncomplete".to_owned(),
        KeyringError::BadBootstrap => "BadBootstrap".to_owned(),
        KeyringError::RevisionOverflow => "RevisionOverflow".to_owned(),
        KeyringError::FirstSharedRegressed => "FirstSharedRegressed".to_owned(),
    }
}

/// Why a pull does not go through.
#[derive(Clone, Debug, PartialEq, Eq)]
pub enum PullError {
    Sync(SyncError),
    /// The head that was served is older than what was accepted before.
    Rollback { have: u32, served: u32 },
    /// The head is a recovery reset, which has to be confirmed out of band.
    ResetPending,
}

impl PullError {
    /// What went wrong, in words.
    pub fn message(&self) -> (r: String)
        ensures
            *self matches PullError::Rollback { have, served } ==> r@ == "rollback: have revision "@ + decimal(have as nat)
                + ", store served "@ + decimal(served as nat),
            *self is ResetPending ==> r@ == "head is a recovery reset; awaiting out-of-band confirm"@,
            *self matches PullError::Sync(e) ==> call_ensures(SyncError::message, (&e,), r),
    {
        match self {
            PullError::Sync(e) => e.message(),
            PullError::Rollback { have, served } => {
                let a: String = decimal_text(*have as u64);
                let b: String = decimal_text(*served as u64);
                let start: String = concat("rollback: have revision ", a.as_str());
                let middle: String = concat(start.as_str(), ", store served ");
                concat(middle.as_str(), b.as_str())
            },
            PullError::ResetPending => "head is a recovery reset; awaiting out-of-band confirm".to_owned(),
        }
    }
}

/// The store was asked for `key` and answered `answer`.
pub open spec fn got<G: Fn(&str) -> Result<Option<(Vec<u8>, String)>, BlobError>>(
    get: G,
    key: Seq<char>,
    answer: Result<Option<(Vec<u8>, String)>, BlobError>,
) -> bool {
    exists|k: &str| k@ == key && #[trigger] get.ensures((k,), answer)
}

fn fetch<G: Fn(&str) -> Result<Option<(Vec<u8>, String)>, BlobError>>(get: &G, key: &str) -> (r: Result<
    Option<(Vec<u8>, String)>,
    BlobError,
>)
    requires
        forall|k: &str| get.requires((k,)),
    ensures
        got(*get, key@, r),
{
    let r = get(key);
    assert(get.ensures((key,), r));
    r
}

/// The store was asked to write `bytes` under `key` where `guard` holds, and answered `answer`.
pub open spec fn wrote<P: Fn(&str, &[u8], &Precondition) -> Result<String, BlobError>>(
    put: P,
    key: Seq<char>,
    bytes: Seq<u8>,
    guard: Precondition,
    answer: Result<String, BlobError>,
) -> bool {
    exists|k: &str, b: &[u8]| k@ == key && b@ == bytes && #[trigger] put.ensures((k, b, &guard), answer)
}

fn store<P: Fn(&str, &[u8], &Precondition) -> Result<String, BlobError>>(
    put: &P,
    key: &str,
    bytes: &[u8],
    guard: Precondition,
) -> (r: Result<String, BlobError>)
    requires
        forall|k: &str, b: &[u8], g: Precondition| put.requires((k, b, &g)),
    ensures
        wrote(*put, key@, bytes@, guard, r),
{
    let r = put(key, bytes, &guard);
    assert(put.ensures((key, bytes, &guard), r));
    r
}

/// The hash of this keyring is `h`.
pub open spec fn hashed<H: Fn(&Keyring) -> [u8; 32]>(hash: H, keyring: Keyring, h: [u8; 32]) -> bool {
    hash.ensures((&keyring,), h)
}

/// The error says that the bytes are no keyring, in the decoder's own account of the fault.
pub open spec fn undecoded(e: SyncError, f: Fault) -> bool {
    e matches SyncError::Decode(words) && words@ == fault_text(f)
}

/// Parses a keyring.
pub fn decode(bytes: &[u8]) -> (r: Result<Keyring, SyncError>)
    ensures
        match r {
            Ok(k) => keyring_read(bytes@) == Ok::<KeyringContent, Fault>(k@),
            Err(e) => keyring_read(bytes@) matches Err(f) && undecoded(e, f),
        },
{
    match Keyring::decode(bytes) {
        Ok(k) => Ok(k),
        Err(e) => Err(SyncError::Decode(e.message())),
    }
}

/// One replica's side of the transport: the keyring it trusts, and the head's tag as it last saw it.
#[derive(Debug)]
pub struct KeyringChainBlobSync {
    pub anchor: Option<KeyringAnchor>,
    pub head_etag: Option<String>,
}

/// What a replica holds.
pub struct SyncState {
    pub anchor: Option<AnchorContent>,
    pub head_etag: Option<Seq<char>>,
}

/// A tag, as the text it holds.
pub open spec fn tag_view(t: Option<String>) -> Option<Seq<char>> {
    match t {
        Some(s) => Some(s@),
        None => None,
    }
}

pub open spec fn anchor_view(a: Option<KeyringAnchor>) -> Option<AnchorContent> {
    match a {
        Some(k) => Some(k@),
        None => None,
    }
}

impl View for KeyringChainBlobSync {
    type V = SyncState;

    open spec fn view(&self) -> SyncState {
        SyncState { anchor: anchor_view(self.anchor), head_etag: tag_view(self.head_etag) }
    }
}

/// The head may be written where it is absent, or still has the tag that was last seen.
pub open spec fn head_guard(tag: Option<String>) -> Precondition {
    match tag {
        Some(t) => Precondition::IfMatch(t),
        None => Precondition::IfAbsent,
    }
}

/// How writing the head comes out, once the history has the revision.
pub open spec fn heading<
    P: Fn(&str, &[u8], &Precondition) -> Result<String, BlobError>,
    H: Fn(&Keyring) -> [u8; 32],
>(
    put: P,
    hash: H,
    guard: Precondition,
    before: SyncState,
    bytes: Seq<u8>,
    k: KeyringContent,
    r: Result<(), SyncError>,
    after: SyncState,
) -> bool {
    exists|answer: Result<String, BlobError>| #[trigger]
        wrote(put, HEAD@, bytes, guard, answer) && match answer {
            Err(BlobError::PreconditionFailed(_)) => after == before && r == Err::<(), SyncError>(SyncError::Conflict),
            Err(e) => after == before && r == Err::<(), SyncError>(SyncError::Store(e)),
            Ok(t) => r is Ok && after.head_etag == Some(t@) && exists|keyring: Keyring, h: [u8; 32]|
                keyring@ == k && #[trigger] hashed(hash, keyring, h) && after.anchor == Some(anchor_of(k, h@)),
        }
}

/// How writing the revision under its key in the history comes out, and then the head. That the history has the
/// revision already is fine: its content is the same.
pub open spec fn filing<
    P: Fn(&str, &[u8], &Precondition) -> Result<String, BlobError>,
    H: Fn(&Keyring) -> [u8; 32],
>(
    put: P,
    hash: H,
    guard: Precondition,
    key: Seq<char>,
    before: SyncState,
    bytes: Seq<u8>,
    k: KeyringContent,
    r: Result<(), SyncError>,
    after: SyncState,
) -> bool {
    exists|answer: Result<String, BlobError>| #[trigger]
        wrote(put, key, bytes, Precondition::IfAbsent, answer) && match answer {
            Ok(_) => heading(put, hash, guard, before, bytes, k, r, after),
            Err(BlobError::PreconditionFailed(_)) => heading(put, hash, guard, before, bytes, k, r, after),
            Err(e) => r == Err::<(), SyncError>(SyncError::Store(e)) && after == before,
        }
}

/// How publishing comes out.
pub open spec fn publishing<
    P: Fn(&str, &[u8], &Precondition) -> Result<String, BlobError>,
    H: Fn(&Keyring) -> [u8; 32],
>(put: P, hash: H, guard: Precondition, before: SyncState, bytes: Seq<u8>, r: Result<(), SyncError>, after: SyncState) -> bool {
    match keyring_read(bytes) {
        Err(f) => (r matches Err(e) && undecoded(e, f)) && after == before,
        Ok(k) => filing(put, hash, guard, revision_key(k.revision), before, bytes, k, r, after),
    }
}

/// How a first look at the head comes out: it has to stand on its own terms.
pub open spec fn bootstrapping<
    G: Fn(&str) -> Result<Option<(Vec<u8>, String)>, BlobError>,
    E: Fn(&EngineCall, &Keyring) -> Result<LinearAnchor, EngineError>,
>(get: G, engine: E, before: SyncState, r: Result<Option<Vec<u8>>, SyncError>, after: SyncState) -> bool {
    exists|answer: Result<Option<(Vec<u8>, String)>, BlobError>| #[trigger]
        got(get, HEAD@, answer) && match answer {
            Err(e) => r == Err::<Option<Vec<u8>>, SyncError>(SyncError::Store(e)) && after == before,
            Ok(None) => r == Ok::<Option<Vec<u8>>, SyncError>(None) && after == before,
            Ok(Some((bytes, tag))) => match keyring_read(bytes@) {
                Err(f) => (r matches Err(e) && undecoded(e, f)) && after == before,
                Ok(k) => exists|keyring: Keyring, v: Result<KeyringAnchor, KeyringError>|
                    keyring@ == k && #[trigger] judged(engine, CallContent::Reset(None), keyring, v) && match v {
                        Err(e) => r == Err::<Option<Vec<u8>>, SyncError>(SyncError::Chain(e)) && after == before,
                        Ok(a) => r == Ok::<Option<Vec<u8>>, SyncError>(Some(bytes)) && after == (SyncState {
                            anchor: Some(a@),
                            head_etag: Some(tag@),
                        }),
                    },
            },
        }
}

/// The history serves this keyring at revision `n`.
pub open spec fn served<G: Fn(&str) -> Result<Option<(Vec<u8>, String)>, BlobError>>(get: G, n: u32, k: Keyring) -> bool {
    exists|bytes: Vec<u8>, tag: String| #[trigger] got(get, revision_key(n), Ok(Some((bytes, tag)))) && keyring_read(bytes@)
        == Ok::<KeyringContent, Fault>(k@)
}

/// The history serves some keyring at revision `n`.
pub open spec fn serves<G: Fn(&str) -> Result<Option<(Vec<u8>, String)>, BlobError>>(get: G, n: u32) -> bool {
    exists|k: Keyring| served(get, n, k)
}

/// The history does not serve revision `n`, for this reason.
pub open spec fn unserved<G: Fn(&str) -> Result<Option<(Vec<u8>, String)>, BlobError>>(get: G, n: u32, e: SyncError) -> bool {
    exists|answer: Result<Option<(Vec<u8>, String)>, BlobError>| #[trigger]
        got(get, revision_key(n), answer) && match answer {
            Err(b) => e == SyncError::Store(b),
            Ok(None) => e == SyncError::Malformed("missing revision in history"),
            Ok(Some((bytes, _))) => keyring_read(bytes@) matches Err(f) && undecoded(e, f),
        }
}

/// The revisions from `from` up to but without `to`, in order, or why the first that is missing is.
pub open spec fn history<G: Fn(&str) -> Result<Option<(Vec<u8>, String)>, BlobError>>(
    get: G,
    from: int,
    to: int,
    r: Result<Seq<Keyring>, SyncError>,
) -> bool {
    match r {
        Ok(v) => v.len() == to - from && forall|i: int| 0 <= i < v.len() ==> served(get, (from + i) as u32, #[trigger] v[i]),
        Err(e) => exists|n: u32|
            from <= n < to && #[trigger] unserved(get, n, e) && forall|m: u32| from <= m < n ==> #[trigger] serves(get, m),
    }
}

/// What was gathered, as the keyrings it holds.
pub open spec fn gathered(r: Result<Vec<Keyring>, SyncError>) -> Result<Seq<Keyring>, SyncError> {
    match r {
        Ok(v) => Ok(v@),
        Err(e) => Err(e),
    }
}

fn gather<G: Fn(&str) -> Result<Option<(Vec<u8>, String)>, BlobError>>(get: &G, from: u32, to: u32) -> (r: Result<
    Vec<Keyring>,
    SyncError,
>)
    requires
        from <= to,
        forall|k: &str| get.requires((k,)),
    ensures
        history(*get, from as int, to as int, gathered(r)),
{
    let mut hops: Vec<Keyring> = Vec::new();
    let mut n: u32 = from;
    while n < to
        invariant
            from <= n <= to,
            forall|k: &str| get.requires((k,)),
            hops@.len() == n - from,
            forall|m: u32| from <= m < n ==> #[trigger] serves(*get, m),
            forall|i: int| 0 <= i < hops@.len() ==> served(*get, (from + i) as u32, #[trigger] hops@[i]),
        decreases to - n,
    {
        let key: String = rev_key(n);
        let answer = fetch(get, key.as_str());
        let ghost said = answer;
        assert(got(*get, revision_key(n), said));
        match answer {
            Err(e) => {
                let e2 = SyncError::Store(e);
                assert(unserved(*get, n, e2));
                return Err(e2);
            },
            Ok(None) => {
                let e2 = SyncError::Malformed("missing revision in history");
                assert(unserved(*get, n, e2));
                return Err(e2);
            },
            Ok(Some((bytes, tag))) => {
                match decode(bytes.as_slice()) {
                    Err(e) => {
                        assert(unserved(*get, n, e));
                        return Err(e);
                    },
                    Ok(k) => {
                        assert(got(*get, revision_key(n), Ok(Some((bytes, tag)))));
                        assert(served(*get, n, k));
                        hops.push(k);
                    },
                }
            },
        }
        n = n + 1;
    }
    Ok(hops)
}

/// How a walk over the history up to the head comes out.
pub open spec fn advancing<
    G: Fn(&str) -> Result<Option<(Vec<u8>, String)>, BlobError>,
    E: Fn(&EngineCall, &Keyring) -> Result<LinearAnchor, EngineError>,
>(
    get: G,
    engine: E,
    anchor: AnchorContent,
    head: Keyring,
    bytes: Vec<u8>,
    tag: Seq<char>,
    before: SyncState,
    r: Result<Option<Vec<u8>>, PullError>,
    after: SyncState,
) -> bool {
    exists|past: Result<Seq<Keyring>, SyncError>| #[trigger]
        history(get, anchor.revision + 1, head.revision as int, past) && match past {
            Err(e) => r == Err::<Option<Vec<u8>>, PullError>(PullError::Sync(e)) && after == before,
            Ok(hops) => exists|v: Result<KeyringAnchor, KeyringError>| #[trigger]
                walk(engine, anchor, hops.push(head), v) && match v {
                    Ok(a) => r == Ok::<Option<Vec<u8>>, PullError>(Some(bytes)) && after == (SyncState {
                        anchor: Some(a@),
                        head_etag: Some(tag),
                    }),
                    Err(e) => after == before && r == Err::<Option<Vec<u8>>, PullError>(
                        if e == KeyringError::UnendorsedSetChange {
                            PullError::ResetPending
                        } else {
                            PullError::Sync(SyncError::Chain(e))
                        },
                    ),
                },
        }
}

/// How a pull comes out against the anchor that is held.
pub open spec fn pulling<
    G: Fn(&str) -> Result<Option<(Vec<u8>, String)>, BlobError>,
    E: Fn(&EngineCall, &Keyring) -> Result<LinearAnchor, EngineError>,
    H: Fn(&Keyring) -> [u8; 32],
>(
    get: G,
    engine: E,
    hash: H,
    anchor: AnchorContent,
    before: SyncState,
    r: Result<Option<Vec<u8>>, PullError>,
    after: SyncState,
) -> bool {
    exists|answer: Result<Option<(Vec<u8>, String)>, BlobError>| #[trigger]
        got(get, HEAD@, answer) && match answer {
            Err(e) => r == Err::<Option<Vec<u8>>, PullError>(PullError::Sync(SyncError::Store(e))) && after == before,
            Ok(None) => r == Ok::<Option<Vec<u8>>, PullError>(None) && after == before,
            Ok(Some((bytes, tag))) => match keyring_read(bytes@) {
                Err(f) => (r matches Err(PullError::Sync(e)) && undecoded(e, f)) && after == before,
                Ok(k) => if k.revision < anchor.revision {
                    after == before && r == Err::<Option<Vec<u8>>, PullError>(
                        PullError::Rollback { have: anchor.revision, served: k.revision },
                    )
                } else if k.revision == anchor.revision {
                    exists|head: Keyring, h: [u8; 32]|
                        head@ == k && #[trigger] hashed(hash, head, h) && if h@ == anchor.keyring_hash {
                            r == Ok::<Option<Vec<u8>>, PullError>(None) && after == (SyncState {
                                head_etag: Some(tag@),
                                ..before
                            })
                        } else {
                            after == before && r == Err::<Option<Vec<u8>>, PullError>(
                                PullError::Sync(
                                    SyncError::Malformed("store served a different keyring at the same revision"),
                                ),
                            )
                        }
                } else {
                    exists|head: Keyring|
                        head@ == k && #[trigger] advancing(get, engine, anchor, head, bytes, tag@, before, r, after)
                },
            },
        }
}

/// The recovery authority that an anchor pins.
pub open spec fn pinned_authority(a: Option<AnchorContent>) -> Option<Seq<u8>> {
    match a {
        Some(k) if k.recovery_verifying_key.len() > 0 => Some(k.recovery_verifying_key),
        _ => None,
    }
}

/// How adopting the head as a reset comes out.
pub open spec fn resetting<
    G: Fn(&str) -> Result<Option<(Vec<u8>, String)>, BlobError>,
    E: Fn(&EngineCall, &Keyring) -> Result<LinearAnchor, EngineError>,
>(get: G, engine: E, before: SyncState, r: Result<Vec<u8>, SyncError>, after: SyncState) -> bool {
    exists|answer: Result<Option<(Vec<u8>, String)>, BlobError>| #[trigger]
        got(get, HEAD@, answer) && match answer {
            Err(e) => r == Err::<Vec<u8>, SyncError>(SyncError::Store(e)) && after == before,
            Ok(None) => r == Err::<Vec<u8>, SyncError>(SyncError::Malformed("no head to accept")) && after == before,
            Ok(Some((bytes, tag))) => match keyring_read(bytes@) {
                Err(f) => (r matches Err(e) && undecoded(e, f)) && after == before,
                Ok(k) => if before.anchor matches Some(a) && k.revision < a.revision {
                    r == Err::<Vec<u8>, SyncError>(SyncError::Malformed("reset revision is behind the watermark")) && after
                        == before
                } else {
                    exists|keyring: Keyring, v: Result<KeyringAnchor, KeyringError>|
                        keyring@ == k && #[trigger] judged(
                            engine,
                            CallContent::Reset(authority(pinned_authority(before.anchor))),
                            keyring,
                            v,
                        ) && match v {
                            Err(e) => r == Err::<Vec<u8>, SyncError>(SyncError::Chain(e)) && after == before,
                            Ok(a) => r == Ok::<Vec<u8>, SyncError>(bytes) && after == (SyncState {
                                anchor: Some(a@),
                                head_etag: Some(tag@),
                            }),
                        }
                },
            },
        }
}

impl KeyringChainBlobSync {
    /// A replica that trusts nothing yet.
    pub fn new() -> (r: KeyringChainBlobSync)
        ensures
            r@ == (SyncState { anchor: None, head_etag: None }),
    {
        KeyringChainBlobSync { anchor: None, head_etag: None }
    }

    /// The revision that this replica trusts.
    pub fn revision(&self) -> (r: Option<u32>)
        ensures
            r == (match self@.anchor {
                Some(a) => Some(a.revision),
                None => None,
            }),
    {
        match &self.anchor {
            Some(a) => Some(a.revision),
            None => None,
        }
    }

    fn guard(&self) -> (r: Precondition)
        ensures
            r == head_guard(self.head_etag),
    {
        match &self.head_etag {
            Some(t) => Precondition::IfMatch(t.clone()),
            None => Precondition::IfAbsent,
        }
    }

    /// Publishes a keyring made here: into the history, then as the head, and adopts it.
    pub fn publish<P: Fn(&str, &[u8], &Precondition) -> Result<String, BlobError>, H: Fn(&Keyring) -> [u8; 32]>(
        &mut self,
        bytes: &[u8],
        put: &P,
        hash: &H,
    ) -> (r: Result<(), SyncError>)
        requires
            forall|k: &str, b: &[u8], g: Precondition| put.requires((k, b, &g)),
            forall|k: Keyring| hash.requires((&k,)),
        ensures
            publishing(*put, *hash, head_guard(old(self).head_etag), old(self)@, bytes@, r, final(self)@),
    {
        let keyring: Keyring = match decode(bytes) {
            Ok(k) => k,
            Err(e) => {
                return Err(e);
            },
        };
        let key: String = rev_key(keyring.revision);
        let ghost k = keyring@;
        assert(keyring_read(bytes@) == Ok::<KeyringContent, Fault>(k) && k.revision == keyring.revision);
        let first = store(put, key.as_str(), bytes, Precondition::IfAbsent);
        let ghost first_said = first;
        assert(wrote(*put, revision_key(k.revision), bytes@, Precondition::IfAbsent, first_said));
        match first {
            Ok(_) => {},
            Err(BlobError::PreconditionFailed(_)) => {},
            Err(e) => {
                return Err(SyncError::Store(e));
            },
        }
        let second = store(put, HEAD, bytes, self.guard());
        let ghost second_said = second;
        assert(wrote(*put, HEAD@, bytes@, head_guard(self.head_etag), second_said));
        match second {
            Err(BlobError::PreconditionFailed(_)) => Err(SyncError::Conflict),
            Err(e) => Err(SyncError::Store(e)),
            Ok(tag) => {
                let h: [u8; 32] = hash(&keyring);
                assert(hashed(*hash, keyring, h));
                self.head_etag = Some(tag);
                self.anchor = Some(KeyringAnchor::from_keyring(&keyring, h));
                Ok(())
            },
        }
    }

    /// Trusts the head at first sight, if it stands on its own terms. Gives its bytes.
    pub fn bootstrap<
        G: Fn(&str) -> Result<Option<(Vec<u8>, String)>, BlobError>,
        E: Fn(&EngineCall, &Keyring) -> Result<LinearAnchor, EngineError>,
    >(&mut self, get: &G, engine: &E) -> (r: Result<Option<Vec<u8>>, SyncError>)
        requires
            forall|k: &str| get.requires((k,)),
            forall|c: EngineCall, k: Keyring| engine.requires((&c, &k)),
        ensures
            bootstrapping(*get, *engine, old(self)@, r, final(self)@),
    {
        let answer = fetch(get, HEAD);
        let ghost said = answer;
        assert(got(*get, HEAD@, said));
        match answer {
            Err(e) => Err(SyncError::Store(e)),
            Ok(None) => Ok(None),
            Ok(Some((bytes, tag))) => {
                let keyring: Keyring = match decode(bytes.as_slice()) {
                    Ok(k) => k,
                    Err(e) => {
                        return Err(e);
                    },
                };
                let v = verify_reset(None, &keyring, engine);
                let ghost verdict = v;
                assert(judged(*engine, CallContent::Reset(None), keyring, verdict));
                match v {
                    Err(e) => Err(SyncError::Chain(e)),
                    Ok(a) => {
                        self.anchor = Some(a);
                        self.head_etag = Some(tag);
                        Ok(Some(bytes))
                    },
                }
            },
        }
    }

    /// Pulls the head and walks to it. Gives its bytes where it advanced. A head behind the anchor is a rollback; one
    /// that the signers did not endorse is a reset that has to be confirmed.
    pub fn pull<
        G: Fn(&str) -> Result<Option<(Vec<u8>, String)>, BlobError>,
        E: Fn(&EngineCall, &Keyring) -> Result<LinearAnchor, EngineError>,
        H: Fn(&Keyring) -> [u8; 32],
    >(&mut self, get: &G, engine: &E, hash: &H) -> (r: Result<Option<Vec<u8>>, PullError>)
        requires
            forall|k: &str| get.requires((k,)),
            forall|c: EngineCall, k: Keyring| engine.requires((&c, &k)),
            forall|k: Keyring| hash.requires((&k,)),
        ensures
            match old(self)@.anchor {
                None => exists|b: Result<Option<Vec<u8>>, SyncError>| #[trigger]
                    bootstrapping(*get, *engine, old(self)@, b, final(self)@) && r == (match b {
                        Ok(v) => Ok::<Option<Vec<u8>>, PullError>(v),
                        Err(e) => Err::<Option<Vec<u8>>, PullError>(PullError::Sync(e)),
                    }),
                Some(a) => pulling(*get, *engine, *hash, a, old(self)@, r, final(self)@),
            },
    {
        let anchor: KeyringAnchor = match &self.anchor {
            Some(a) => a.duplicate(),
            None => {
                let b = self.bootstrap(get, engine);
                let ghost said = b;
                assert(bootstrapping(*get, *engine, old(self)@, said, self@));
                return match b {
                    Ok(v) => Ok(v),
                    Err(e) => Err(PullError::Sync(e)),
                };
            },
        };
        let answer = fetch(get, HEAD);
        let ghost said = answer;
        assert(got(*get, HEAD@, said));
        let (bytes, tag): (Vec<u8>, String) = match answer {
            Err(e) => {
                return Err(PullError::Sync(SyncError::Store(e)));
            },
            Ok(None) => {
                return Ok(None);
            },
            Ok(Some(found)) => found,
        };
        let head: Keyring = match decode(bytes.as_slice()) {
            Ok(k) => k,
            Err(e) => {
                return Err(PullError::Sync(e));
            },
        };
        if head.revision < anchor.revision {
            return Err(PullError::Rollback { have: anchor.revision, served: head.revision });
        }
        if head.revision == anchor.revision {
            let h: [u8; 32] = hash(&head);
            assert(hashed(*hash, head, h));
            if !bytes_equal(h.as_slice(), anchor.keyring_hash.as_slice()) {
                return Err(
                    PullError::Sync(SyncError::Malformed("store served a different keyring at the same revision")),
                );
            }
            self.head_etag = Some(tag);
            return Ok(None);
        }
        self.advance(anchor, head, bytes, tag, get, engine)
    }

    fn advance<
        G: Fn(&str) -> Result<Option<(Vec<u8>, String)>, BlobError>,
        E: Fn(&EngineCall, &Keyring) -> Result<LinearAnchor, EngineError>,
    >(&mut self, anchor: KeyringAnchor, head: Keyring, bytes: Vec<u8>, tag: String, get: &G, engine: &E) -> (r: Result<
        Option<Vec<u8>>,
        PullError,
    >)
        requires
            anchor.revision < head.revision,
            forall|k: &str| get.requires((k,)),
            forall|c: EngineCall, k: Keyring| engine.requires((&c, &k)),
        ensures
            advancing(*get, *engine, anchor@, head, bytes, tag@, old(self)@, r, final(self)@),
    {
        let past = gather(get, anchor.revision + 1, head.revision);
        let ghost found = gathered(past);
        assert(history(*get, anchor@.revision + 1, head.revision as int, found));
        let mut hops: Vec<Keyring> = match past {
            Ok(v) => v,
            Err(e) => {
                return Err(PullError::Sync(e));
            },
        };
        let ghost before = hops@;
        hops.push(head);
        let v = verify_walk(&anchor, &hops, engine);
        let ghost verdict = v;
        assert(walk(*engine, anchor@, before.push(head), verdict));
        match v {
            Ok(a) => {
                self.anchor = Some(a);
                self.head_etag = Some(tag);
                Ok(Some(bytes))
            },
            Err(KeyringError::UnendorsedSetChange) => Err(PullError::ResetPending),
            Err(e) => Err(PullError::Sync(SyncError::Chain(e))),
        }
    }

    /// Adopts the head as a recovery reset, once that was confirmed out of band. A reset behind the anchor is refused;
    /// one against an anchor that pins a recovery authority has to come from that authority.
    pub fn accept_reset<
        G: Fn(&str) -> Result<Option<(Vec<u8>, String)>, BlobError>,
        E: Fn(&EngineCall, &Keyring) -> Result<LinearAnchor, EngineError>,
    >(&mut self, get: &G, engine: &E) -> (r: Result<Vec<u8>, SyncError>)
        requires
            forall|k: &str| get.requires((k,)),
            forall|c: EngineCall, k: Keyring| engine.requires((&c, &k)),
        ensures
            resetting(*get, *engine, old(self)@, r, final(self)@),
    {
        let answer = fetch(get, HEAD);
        let ghost said = answer;
        assert(got(*get, HEAD@, said));
        let (bytes, tag): (Vec<u8>, String) = match answer {
            Err(e) => {
                return Err(SyncError::Store(e));
            },
            Ok(None) => {
                return Err(SyncError::Malformed("no head to accept"));
            },
            Ok(Some(found)) => found,
        };
        let keyring: Keyring = match decode(bytes.as_slice()) {
            Ok(k) => k,
            Err(e) => {
                return Err(e);
            },
        };
        if let Some(a) = &self.anchor {
            if keyring.revision < a.revision {
                return Err(SyncError::Malformed("reset revision is behind the watermark"));
            }
        }
        let v = match &self.anchor {
            Some(a) => {
                if a.recovery_verifying_key.len() > 0 {
                    verify_reset(Some(a.recovery_verifying_key.as_slice()), &keyring, engine)
                } else {
                    verify_reset(None, &keyring, engine)
                }
            },
            None => verify_reset(None, &keyring, engine),
        };
        let ghost verdict = v;
        assert(judged(*engine, CallContent::Reset(authority(pinned_authority(old(self)@.anchor))), keyring, verdict));
        match v {
            Err(e) => Err(SyncError::Chain(e)),
            Ok(a) => {
                self.anchor = Some(a);
                self.head_etag = Some(tag);
                Ok(bytes)
            },
        }
    }
}

/// How opening a draft comes out.
pub open spec fn proposing<P: Fn(&str, &[u8], &Precondition) -> Result<String, BlobError>>(
    put: P,
    key: Seq<char>,
    bytes: Seq<u8>,
    r: Result<(), SyncError>,
) -> bool {
    if let Err(f) = keyring_read(bytes) {
        r matches Err(e) && undecoded(e, f)
    } else {
        exists|answer: Result<String, BlobError>| #[trigger]
            wrote(put, key, bytes, Precondition::IfAbsent, answer) && match answer {
                Ok(_) => r is Ok,
                Err(BlobError::PreconditionFailed(_)) => r == Err::<(), SyncError>(SyncError::Conflict),
                Err(e) => r == Err::<(), SyncError>(SyncError::Store(e)),
            }
    }
}

/// What came of one try at a countersignature.
#[derive(Clone, Copy, Debug, PartialEq, Eq, Structural)]
pub enum Countersigning {
    Signed,
    /// Another signature landed first: fetch the draft anew and try again.
    Retry,
}

/// The signing bytes of this keyring are `c`.
pub open spec fn reads<C: Fn(&Keyring) -> Vec<u8>>(content: C, keyring: Keyring, c: Vec<u8>) -> bool {
    content.ensures((&keyring,), c)
}

/// The draft with one more signature, made over it.
pub open spec fn signed_draft<S: Fn(&Keyring) -> [u8; 64]>(sign: S, draft: Keyring, key: Seq<u8>, k: KeyringContent) -> bool {
    exists|sig: [u8; 64]| #[trigger]
        sign.ensures((&draft,), sig) && k == (KeyringContent {
            signatures: draft@.signatures.push(SignatureContent { signer_public_key: key, signature: sig@ }),
            ..draft@
        })
}

/// How a draft that was served comes out, against the content that was reviewed.
pub open spec fn signing<
    P: Fn(&str, &[u8], &Precondition) -> Result<String, BlobError>,
    C: Fn(&Keyring) -> Vec<u8>,
    S: Fn(&Keyring) -> [u8; 64],
>(
    put: P,
    content: C,
    sign: S,
    key: Seq<char>,
    signer: Seq<u8>,
    reviewed: Seq<u8>,
    draft: Keyring,
    tag: String,
    r: Result<Countersigning, SyncError>,
) -> bool {
    exists|c: Vec<u8>| #[trigger]
        reads(content, draft, c) && if c@ != reviewed {
            r == Err::<Countersigning, SyncError>(SyncError::DraftContentChanged)
        } else {
            exists|k: KeyringContent, answer: Result<String, BlobError>|
                signed_draft(sign, draft, signer, k) && #[trigger] wrote(
                    put,
                    key,
                    keyring_bytes(k),
                    Precondition::IfMatch(tag),
                    answer,
                ) && match answer {
                    Ok(_) => r == Ok::<Countersigning, SyncError>(Countersigning::Signed),
                    Err(BlobError::PreconditionFailed(_)) => r == Ok::<Countersigning, SyncError>(Countersigning::Retry),
                    Err(e) => r == Err::<Countersigning, SyncError>(SyncError::Store(e)),
                }
        }
}

/// How one try at a countersignature comes out.
pub open spec fn countersigning<
    G: Fn(&str) -> Result<Option<(Vec<u8>, String)>, BlobError>,
    P: Fn(&str, &[u8], &Precondition) -> Result<String, BlobError>,
    C: Fn(&Keyring) -> Vec<u8>,
    S: Fn(&Keyring) -> [u8; 64],
>(
    get: G,
    put: P,
    content: C,
    sign: S,
    key: Seq<char>,
    signer: Seq<u8>,
    reviewed: Seq<u8>,
    r: Result<Countersigning, SyncError>,
) -> bool {
    exists|answer: Result<Option<(Vec<u8>, String)>, BlobError>| #[trigger]
        got(get, key, answer) && match answer {
            Err(e) => r == Err::<Countersigning, SyncError>(SyncError::Store(e)),
            Ok(None) => r == Err::<Countersigning, SyncError>(SyncError::Malformed("no such draft")),
            Ok(Some((bytes, tag))) => match keyring_read(bytes@) {
                Err(f) => r matches Err(e) && undecoded(e, f),
                Ok(k) => exists|draft: Keyring|
                    draft@ == k && #[trigger] signing(put, content, sign, key, signer, reviewed, draft, tag, r),
            },
        }
}

/// A draft that follows the anchor becomes the head, unless the head moved.
pub open spec fn installing<P: Fn(&str, &[u8], &Precondition) -> Result<String, BlobError>>(
    put: P,
    guard: Precondition,
    before: SyncState,
    bytes: Seq<u8>,
    anchor: AnchorContent,
    history_key: Seq<char>,
    r: Result<Promotion, SyncError>,
    after: SyncState,
) -> bool {
    exists|answer: Result<String, BlobError>| #[trigger]
        wrote(put, HEAD@, bytes, guard, answer) && match answer {
            Ok(tag) => r == Ok::<Promotion, SyncError>(Promotion::Promoted) && after == (SyncState {
                anchor: Some(anchor),
                head_etag: Some(tag@),
            }) && exists|filed: Result<String, BlobError>| #[trigger]
                wrote(put, history_key, bytes, Precondition::IfAbsent, filed),
            Err(BlobError::PreconditionFailed(_)) => r == Ok::<Promotion, SyncError>(Promotion::Stale) && after == before,
            Err(e) => r == Err::<Promotion, SyncError>(SyncError::Store(e)) && after == before,
        }
}

/// How a draft comes out against the anchor that is held.
pub open spec fn weighing<
    P: Fn(&str, &[u8], &Precondition) -> Result<String, BlobError>,
    E: Fn(&EngineCall, &Keyring) -> Result<LinearAnchor, EngineError>,
>(
    put: P,
    engine: E,
    guard: Precondition,
    anchor: AnchorContent,
    before: SyncState,
    bytes: Seq<u8>,
    draft: Keyring,
    r: Result<Promotion, SyncError>,
    after: SyncState,
) -> bool {
    exists|v: Result<KeyringAnchor, KeyringError>| #[trigger]
        transition(engine, anchor, draft, v) && match v {
            Ok(a) => installing(put, guard, before, bytes, a@, revision_key(draft.revision), r, after),
            Err(KeyringError::Fork) => r == Ok::<Promotion, SyncError>(Promotion::Stale) && after == before,
            Err(KeyringError::NonSequential) => r == Ok::<Promotion, SyncError>(Promotion::Stale) && after == before,
            Err(KeyringError::UnendorsedSetChange) => r == Ok::<Promotion, SyncError>(Promotion::NotReady) && after
                == before,
            Err(KeyringError::UnendorsedOrdinaryChange) => r == Ok::<Promotion, SyncError>(Promotion::NotReady) && after
                == before,
            Err(e) => r == Err::<Promotion, SyncError>(SyncError::Chain(e)) && after == before,
        }
}

/// How promoting a draft comes out.
pub open spec fn promoting<
    G: Fn(&str) -> Result<Option<(Vec<u8>, String)>, BlobError>,
    P: Fn(&str, &[u8], &Precondition) -> Result<String, BlobError>,
    E: Fn(&EngineCall, &Keyring) -> Result<LinearAnchor, EngineError>,
>(
    get: G,
    put: P,
    engine: E,
    guard: Precondition,
    key: Seq<char>,
    before: SyncState,
    r: Result<Promotion, SyncError>,
    after: SyncState,
) -> bool {
    match before.anchor {
        None => r == Err::<Promotion, SyncError>(SyncError::Malformed("not bootstrapped")) && after == before,
        Some(anchor) => exists|answer: Result<Option<(Vec<u8>, String)>, BlobError>| #[trigger]
            got(get, key, answer) && match answer {
                Err(e) => r == Err::<Promotion, SyncError>(SyncError::Store(e)) && after == before,
                Ok(None) => r == Err::<Promotion, SyncError>(SyncError::Malformed("no such draft")) && after == before,
                Ok(Some((bytes, _))) => match keyring_read(bytes@) {
                    Err(f) => (r matches Err(e) && undecoded(e, f)) && after == before,
                    Ok(k) => exists|draft: Keyring|
                        draft@ == k && #[trigger] weighing(put, engine, guard, anchor, before, bytes@, draft, r, after),
                },
            },
    }
}

impl KeyringChainBlobSync {
    /// Opens a draft for others to sign. A proposal's name can be taken once.
    pub fn propose<P: Fn(&str, &[u8], &Precondition) -> Result<String, BlobError>>(
        &self,
        proposal_id: &str,
        candidate_bytes: &[u8],
        put: &P,
    ) -> (r: Result<(), SyncError>)
        requires
            forall|k: &str, b: &[u8], g: Precondition| put.requires((k, b, &g)),
        ensures
            proposing(*put, proposal_key(proposal_id@), candidate_bytes@, r),
    {
        if let Err(e) = decode(candidate_bytes) {
            return Err(e);
        }
        let key: String = draft_key(proposal_id);
        let answer = store(put, key.as_str(), candidate_bytes, Precondition::IfAbsent);
        let ghost said = answer;
        assert(wrote(*put, proposal_key(proposal_id@), candidate_bytes@, Precondition::IfAbsent, said));
        match answer {
            Ok(_) => Ok(()),
            Err(BlobError::PreconditionFailed(_)) => Err(SyncError::Conflict),
            Err(e) => Err(SyncError::Store(e)),
        }
    }

    /// A draft's bytes, if there is one of that name.
    pub fn get_draft<G: Fn(&str) -> Result<Option<(Vec<u8>, String)>, BlobError>>(&self, proposal_id: &str, get: &G) -> (r: Result<
        Option<Vec<u8>>,
        SyncError,
    >)
        requires
            forall|k: &str| get.requires((k,)),
        ensures
            exists|answer: Result<Option<(Vec<u8>, String)>, BlobError>| #[trigger]
                got(*get, proposal_key(proposal_id@), answer) && r == (match answer {
                    Err(e) => Err::<Option<Vec<u8>>, SyncError>(SyncError::Store(e)),
                    Ok(None) => Ok::<Option<Vec<u8>>, SyncError>(None),
                    Ok(Some((bytes, _))) => Ok::<Option<Vec<u8>>, SyncError>(Some(bytes)),
                }),
    {
        let key: String = draft_key(proposal_id);
        let answer = fetch(get, key.as_str());
        let ghost said = answer;
        assert(got(*get, proposal_key(proposal_id@), said));
        match answer {
            Err(e) => Err(SyncError::Store(e)),
            Ok(None) => Ok(None),
            Ok(Some((bytes, _))) => Ok(Some(bytes)),
        }
    }

    /// Tries to add a signature to the draft that was reviewed. Only what was reviewed is signed: a draft whose content
    /// is another is refused. The signatures that the stored draft carries are kept.
    pub fn countersign<
        G: Fn(&str) -> Result<Option<(Vec<u8>, String)>, BlobError>,
        P: Fn(&str, &[u8], &Precondition) -> Result<String, BlobError>,
        C: Fn(&Keyring) -> Vec<u8>,
        S: Fn(&Keyring) -> [u8; 64],
    >(
        &self,
        proposal_id: &str,
        reviewed_bytes: &[u8],
        signer_public_key: &[u8; 32],
        get: &G,
        put: &P,
        content: &C,
        sign: &S,
    ) -> (r: Result<Countersigning, SyncError>)
        requires
            forall|k: &str| get.requires((k,)),
            forall|k: &str, b: &[u8], g: Precondition| put.requires((k, b, &g)),
            forall|k: Keyring| content.requires((&k,)),
            forall|k: Keyring| sign.requires((&k,)),
        ensures
            match keyring_read(reviewed_bytes@) {
                Err(f) => r matches Err(e) && undecoded(e, f),
                Ok(k) => exists|reviewed: Keyring, c: Vec<u8>|
                    reviewed@ == k && #[trigger] reads(*content, reviewed, c) && countersigning(
                        *get,
                        *put,
                        *content,
                        *sign,
                        proposal_key(proposal_id@),
                        signer_public_key@,
                        c@,
                        r,
                    ),
            },
    {
        let reviewed: Keyring = match decode(reviewed_bytes) {
            Ok(k) => k,
            Err(e) => {
                return Err(e);
            },
        };
        let wanted: Vec<u8> = content(&reviewed);
        assert(reads(*content, reviewed, wanted));
        let key: String = draft_key(proposal_id);
        let answer = fetch(get, key.as_str());
        let ghost said = answer;
        assert(got(*get, proposal_key(proposal_id@), said));
        let (bytes, tag): (Vec<u8>, String) = match answer {
            Err(e) => {
                return Err(SyncError::Store(e));
            },
            Ok(None) => {
                return Err(SyncError::Malformed("no such draft"));
            },
            Ok(Some(found)) => found,
        };
        let draft: Keyring = match decode(bytes.as_slice()) {
            Ok(k) => k,
            Err(e) => {
                return Err(e);
            },
        };
        let ghost draft_value = draft;
        let r = self.countersign_draft(key.as_str(), draft, tag, wanted, signer_public_key, put, content, sign);
        assert(signing(
            *put,
            *content,
            *sign,
            proposal_key(proposal_id@),
            signer_public_key@,
            wanted@,
            draft_value,
            tag,
            r,
        ));
        r
    }

    fn countersign_draft<
        P: Fn(&str, &[u8], &Precondition) -> Result<String, BlobError>,
        C: Fn(&Keyring) -> Vec<u8>,
        S: Fn(&Keyring) -> [u8; 64],
    >(
        &self,
        key: &str,
        draft: Keyring,
        tag: String,
        wanted: Vec<u8>,
        signer_public_key: &[u8; 32],
        put: &P,
        content: &C,
        sign: &S,
    ) -> (r: Result<Countersigning, SyncError>)
        requires
            forall|k: &str, b: &[u8], g: Precondition| put.requires((k, b, &g)),
            forall|k: Keyring| content.requires((&k,)),
            forall|k: Keyring| sign.requires((&k,)),
        ensures
            signing(*put, *content, *sign, key@, signer_public_key@, wanted@, draft, tag, r),
    {
        let now: Vec<u8> = content(&draft);
        assert(reads(*content, draft, now));
        if !bytes_equal(now.as_slice(), wanted.as_slice()) {
            return Err(SyncError::DraftContentChanged);
        }
        let ghost before = draft;
        let mut candidate: Keyring = draft;
        sign_keyring(&mut candidate, signer_public_key, sign);
        let ghost k = candidate@;
        assert(signed_draft(*sign, before, signer_public_key@, k));
        let encoded: Vec<u8> = candidate.encode_to_vec();
        let answer = store(put, key, encoded.as_slice(), Precondition::IfMatch(tag));
        let ghost said = answer;
        assert(wrote(*put, key@, keyring_bytes(k), Precondition::IfMatch(tag), said));
        match answer {
            Ok(_) => Ok(Countersigning::Signed),
            Err(BlobError::PreconditionFailed(_)) => Ok(Countersigning::Retry),
            Err(e) => Err(SyncError::Store(e)),
        }
    }

    /// Tries to make a draft the head: it has to follow the anchor that is held. Once it is the head it is filed in the
    /// history and the draft is removed, as far as the store lets that happen.
    pub fn promote<
        G: Fn(&str) -> Result<Option<(Vec<u8>, String)>, BlobError>,
        P: Fn(&str, &[u8], &Precondition) -> Result<String, BlobError>,
        D: Fn(&str) -> Result<(), BlobError>,
        E: Fn(&EngineCall, &Keyring) -> Result<LinearAnchor, EngineError>,
    >(&mut self, proposal_id: &str, get: &G, put: &P, delete: &D, engine: &E) -> (r: Result<Promotion, SyncError>)
        requires
            forall|k: &str| get.requires((k,)),
            forall|k: &str, b: &[u8], g: Precondition| put.requires((k, b, &g)),
            forall|k: &str| delete.requires((k,)),
            forall|c: EngineCall, k: Keyring| engine.requires((&c, &k)),
        ensures
            promoting(
                *get,
                *put,
                *engine,
                head_guard(old(self).head_etag),
                proposal_key(proposal_id@),
                old(self)@,
                r,
                final(self)@,
            ),
            r == Ok::<Promotion, SyncError>(Promotion::Promoted) ==> exists|k: &str, gone: Result<(), BlobError>|
                k@ == proposal_key(proposal_id@) && #[trigger] delete.ensures((k,), gone),
    {
        let anchor: KeyringAnchor = match &self.anchor {
            Some(a) => a.duplicate(),
            None => {
                return Err(SyncError::Malformed("not bootstrapped"));
            },
        };
        let key: String = draft_key(proposal_id);
        let answer = fetch(get, key.as_str());
        let ghost said = answer;
        assert(got(*get, proposal_key(proposal_id@), said));
        let (bytes, tag): (Vec<u8>, String) = match answer {
            Err(e) => {
                return Err(SyncError::Store(e));
            },
            Ok(None) => {
                return Err(SyncError::Malformed("no such draft"));
            },
            Ok(Some(found)) => found,
        };
        let draft: Keyring = match decode(bytes.as_slice()) {
            Ok(k) => k,
            Err(e) => {
                return Err(e);
            },
        };
        let guard: Precondition = self.guard();
        let r = self.weigh(&anchor, &draft, bytes.as_slice(), guard, put, engine);
        proof {
            let held = old(self)@.anchor->0;
            assert(held == anchor@);
            assert(said == Ok::<Option<(Vec<u8>, String)>, BlobError>(Some((bytes, tag))));
            assert(weighing(*put, *engine, head_guard(old(self).head_etag), held, old(self)@, bytes@, draft, r, self@));
        }
        if let Ok(Promotion::Promoted) = r {
            let name: &str = key.as_str();
            let gone = delete(name);
            assert(delete.ensures((name,), gone));
        }
        r
    }

    fn weigh<
        P: Fn(&str, &[u8], &Precondition) -> Result<String, BlobError>,
        E: Fn(&EngineCall, &Keyring) -> Result<LinearAnchor, EngineError>,
    >(
        &mut self,
        anchor: &KeyringAnchor,
        draft: &Keyring,
        bytes: &[u8],
        guard: Precondition,
        put: &P,
        engine: &E,
    ) -> (r: Result<Promotion, SyncError>)
        requires
            forall|k: &str, b: &[u8], g: Precondition| put.requires((k, b, &g)),
            forall|c: EngineCall, k: Keyring| engine.requires((&c, &k)),
        ensures
            weighing(*put, *engine, guard, anchor@, old(self)@, bytes@, *draft, r, final(self)@),
    {
        let v = verify_transition(anchor, draft, engine);
        let ghost verdict = v;
        assert(transition(*engine, anchor@, *draft, verdict));
        match v {
            Ok(a) => {
                let answer = store(put, HEAD, bytes, guard);
                let ghost said = answer;
                assert(wrote(*put, HEAD@, bytes@, guard, said));
                match answer {
                    Ok(tag) => {
                        let key: String = rev_key(draft.revision);
                        let filed = store(put, key.as_str(), bytes, Precondition::IfAbsent);
                        assert(wrote(*put, revision_key(draft.revision), bytes@, Precondition::IfAbsent, filed));
                        self.head_etag = Some(tag);
                        self.anchor = Some(a);
                        Ok(Promotion::Promoted)
                    },
                    Err(BlobError::PreconditionFailed(_)) => Ok(Promotion::Stale),
                    Err(e) => Err(SyncError::Store(e)),
                }
            },
            Err(KeyringError::Fork) => Ok(Promotion::Stale),
            Err(KeyringError::NonSequential) => Ok(Promotion::Stale),
            Err(KeyringError::UnendorsedSetChange) => Ok(Promotion::NotReady),
            Err(KeyringError::UnendorsedOrdinaryChange) => Ok(Promotion::NotReady),
            Err(e) => Err(SyncError::Chain(e)),
        }
    }
}

/// A pull that fails leaves the replica as it was.
pub proof fn a_failed_pull_changes_nothing<
    G: Fn(&str) -> Result<Option<(Vec<u8>, String)>, BlobError>,
    E: Fn(&EngineCall, &Keyring) -> Result<LinearAnchor, EngineError>,
    H: Fn(&Keyring) -> [u8; 32],
>(
    get: G,
    engine: E,
    hash: H,
    anchor: AnchorContent,
    before: SyncState,
    r: Result<Option<Vec<u8>>, PullError>,
    after: SyncState,
)
    requires
        pulling(get, engine, hash, anchor, before, r, after),
        r is Err,
    ensures
        after == before,
{
}

/// A pull gives bytes back only where it moved to a head of a higher revision.
pub proof fn a_pull_only_moves_forward<
    G: Fn(&str) -> Result<Option<(Vec<u8>, String)>, BlobError>,
    E: Fn(&EngineCall, &Keyring) -> Result<LinearAnchor, EngineError>,
    H: Fn(&Keyring) -> [u8; 32],
>(
    get: G,
    engine: E,
    hash: H,
    anchor: AnchorContent,
    before: SyncState,
    bytes: Vec<u8>,
    after: SyncState,
)
    requires
        pulling(get, engine, hash, anchor, before, Ok(Some(bytes)), after),
    ensures
        keyring_read(bytes@) matches Ok(k) && k.revision > anchor.revision,
{
}

} // verus!
