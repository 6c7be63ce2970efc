//! What sealing an entry hands to the cipher, and which session opens one.

use vstd::prelude::*;

use crate::sealer::{
    adopted, attributed, author_at, epoch_models, holds, place_is_first, place_of, sealer_models, spliced, Aead, Author,
    AuthorModel, Compression, EntryKind, Envelope, Format, Key32, Kind, SealContext, SealOutcome, SealParams, Sealer,
    SealerError, SealerModel, SealerSet, SetModel,
};
use crate::sync::{seal_context, LogKind, SealCtx, SealerAdapter};

verus! {

/// The kind of an entry and the kind that a header tells are the same kind.
pub open spec fn same_kind(e: EntryKind, k: Kind) -> bool {
    ||| e == EntryKind::Snapshot && k == Kind::Snapshot
    ||| e == EntryKind::Delta && k == Kind::Delta
    ||| e == EntryKind::Media && k == Kind::Media
    ||| e == EntryKind::Proposal && k == Kind::Proposal
    ||| e == EntryKind::Cover && k == Kind::Cover
    ||| e == EntryKind::AppSecret && k == Kind::AppSecret
}

/// The two authors are the same, or both are absent.
pub open spec fn same_author(a: Option<Author>, b: Option<Author>) -> bool {
    match (a, b) {
        (Some(x), Some(y)) => x.signing_key@ == y.signing_key@ && x.member_id@ == y.member_id@ && x.governing_ref@
            == y.governing_ref@,
        (None, None) => true,
        _ => false,
    }
}

/// The parameters agree with the session in every field that the session has, and with the context in every field that
/// the context has.
pub open spec fn handed(s: Sealer, ctx: SealContext, p: SealParams) -> bool {
    &&& p.version == s.version
    &&& p.aead == s.aead
    &&& p.key_id@ == s.key_id@
    &&& p.tree_id@ == s.tree_id@
    &&& p.replica_id@ == s.replica_id@
    &&& same_author(p.author, s.author)
    &&& same_kind(ctx.kind, p.kind)
    &&& p.format == ctx.format
    &&& p.compression == ctx.compression
    &&& p.replica_counter == ctx.replica_counter
    &&& p.prev_ciphertext_hash@ == ctx.prev_ciphertext_hash@
    &&& p.covers_through_seq == ctx.covers_through_seq
    &&& p.blob_id@ == ctx.blob_id@
}

/// What the cipher is handed agrees with the session and with the context in every field that they have.
pub proof fn what_the_cipher_is_handed(s: Sealer, ctx: SealContext, p: SealParams)
    requires
        call_ensures(Sealer::params, (&s, &ctx), p),
    ensures
        handed(s, ctx, p),
{
    assert(p@.author == s@.author);
}

/// Entries that a session seals with ascending counters are sealed under ascending counters, and entries with one counter
/// under one.
pub proof fn counters_keep_their_order(s: Sealer, t: Sealer, a: SealContext, b: SealContext, p: SealParams, q: SealParams)
    requires
        call_ensures(Sealer::params, (&s, &a), p),
        call_ensures(Sealer::params, (&t, &b), q),
    ensures
        a.replica_counter < b.replica_counter <==> p.replica_counter < q.replica_counter,
        a.prev_ciphertext_hash@ == b.prev_ciphertext_hash@ <==> p.prev_ciphertext_hash@ == q.prev_ciphertext_hash@,
        a.covers_through_seq < b.covers_through_seq <==> p.covers_through_seq < q.covers_through_seq,
        a.blob_id@ == b.blob_id@ <==> p.blob_id@ == q.blob_id@,
        a.kind == b.kind <==> p.kind == q.kind,
{
    what_the_cipher_is_handed(s, a, p);
    what_the_cipher_is_handed(t, b, q);
}

/// The cipher was handed the session's key, the parameters of the session and the context, and the plaintext, and its
/// answer is what comes back: its failure as it is, and its envelope and the hash in its header where it has one.
pub open spec fn sealed_by<C: Fn(&Key32, &SealParams, &Vec<u8>) -> Result<Envelope, String>>(
    s: Sealer,
    ctx: SealContext,
    plaintext: Vec<u8>,
    cipher: C,
    r: Result<SealOutcome, SealerError>,
) -> bool {
    exists|k: Key32, p: SealParams, said: Result<Envelope, String>| #[trigger]
        cipher.ensures((&k, &p, &plaintext), said) && k@ == s.dek@ && handed(s, ctx, p) && answer_of(said, r)
}

/// What is returned for the cipher's answer.
pub open spec fn answer_of(said: Result<Envelope, String>, r: Result<SealOutcome, SealerError>) -> bool {
    match said {
        Err(e) => r matches Err(SealerError::Crypto(x)) && x == e,
        Ok(env) => match (env.header, r) {
            (Some(h), Ok(out)) => out.envelope@ == env.encoded@ && out.ciphertext_hash@ == h.ciphertext_hash@,
            (None, Err(e)) => e is NoHeader,
            _ => false,
        },
    }
}

/// A session seals an entry under its own key, with the parameters that it and the entry's context have.
pub proof fn how_a_session_seals<C: Fn(&Key32, &SealParams, &Vec<u8>) -> Result<Envelope, String>>(
    s: Sealer,
    ctx: SealContext,
    plaintext: Vec<u8>,
    cipher: C,
    r: Result<SealOutcome, SealerError>,
)
    requires
        call_ensures(Sealer::seal_entry::<C>, (&s, &ctx, &plaintext, &cipher), r),
    ensures
        sealed_by(s, ctx, plaintext, cipher, r),
{
    let said = choose|said: Result<Envelope, String>| #[trigger]
        crate::sealer::sealing(cipher, s@.dek, crate::sealer::params_for(s@, ctx@), plaintext, said) && crate::sealer::sealed(
            said,
            r,
        );
    let (k, p) = choose|k: Key32, p: SealParams| #[trigger]
        cipher.ensures((&k, &p, &plaintext), said) && k@ == s@.dek && p@ == crate::sealer::params_for(s@, ctx@);
    params_agree(s, ctx, p);
    assert(answer_of(said, r));
}

proof fn params_agree(s: Sealer, ctx: SealContext, p: SealParams)
    requires
        p@ == crate::sealer::params_for(s@, ctx@),
    ensures
        handed(s, ctx, p),
{
    assert(p@.author == s@.author);
}

/// The first of the sessions for this key stands at `i`.
pub open spec fn first_for(sealers: Seq<Sealer>, key_id: Seq<u8>, i: int) -> bool {
    0 <= i < sealers.len() && sealers[i].key_id@ == key_id && forall|j: int|
        0 <= j < i ==> (#[trigger] sealers[j]).key_id@ != key_id
}

proof fn the_first_is_placed(sealers: Seq<Sealer>, key_id: Seq<u8>)
    ensures
        holds(sealer_models(sealers), key_id) ==> first_for(sealers, key_id, place_of(sealer_models(sealers), key_id)),
        holds(sealer_models(sealers), key_id) <==> exists|i: int| first_for(sealers, key_id, i),
        forall|i: int| #[trigger] first_for(sealers, key_id, i) ==> i == place_of(sealer_models(sealers), key_id),
{
    let s = sealer_models(sealers);
    place_is_first(s, key_id);
    let p = place_of(s, key_id);
    if holds(s, key_id) {
        assert forall|j: int| 0 <= j < p implies (#[trigger] sealers[j]).key_id@ != key_id by {
            assert(s[j].key_id != key_id);
        }
        assert(s[p].key_id == key_id);
        assert(first_for(sealers, key_id, p));
    }
    assert forall|i: int| #[trigger] first_for(sealers, key_id, i) implies i == p by {
        assert(s[i].key_id == key_id);
        assert(holds(s, key_id));
        if p < i {
            assert(sealers[p].key_id@ != key_id);
            assert(s[p].key_id == key_id);
        }
        if i < p {
            assert(s[i].key_id != key_id);
        }
    }
}

/// A set of sessions seals with the session of its write epoch, and with none where it has none for it.
pub proof fn a_set_seals_under_its_write_epoch<C: Fn(&Key32, &SealParams, &Vec<u8>) -> Result<Envelope, String>>(
    set: SealerSet,
    ctx: SealContext,
    plaintext: Vec<u8>,
    cipher: C,
    r: Result<SealOutcome, SealerError>,
)
    requires
        call_ensures(SealerSet::seal_entry::<C>, (&set, &ctx, &plaintext, &cipher), r),
    ensures
        forall|i: int| #[trigger]
            first_for(set.sealers@, set.write_key_id@, i) ==> sealed_by(set.sealers@[i], ctx, plaintext, cipher, r),
        (forall|i: int| 0 <= i < set.sealers@.len() ==> (#[trigger] set.sealers@[i]).key_id@ != set.write_key_id@) ==> (
        r matches Err(e) && e is EpochUnreachable),
{
    the_first_is_placed(set.sealers@, set.write_key_id@);
    let models = sealer_models(set.sealers@);
    if holds(models, set.write_key_id@) {
        let p = place_of(models, set.write_key_id@);
        let s = set.sealers@[p];
        assert(models[p] == s@);
        let said = choose|said: Result<Envelope, String>| #[trigger]
            crate::sealer::sealing(cipher, s@.dek, crate::sealer::params_for(s@, ctx@), plaintext, said)
                && crate::sealer::sealed(said, r);
        let (k, q) = choose|k: Key32, q: SealParams| #[trigger]
            cipher.ensures((&k, &q, &plaintext), said) && k@ == s@.dek && q@ == crate::sealer::params_for(s@, ctx@);
        params_agree(s, ctx, q);
        assert(answer_of(said, r));
        assert(sealed_by(s, ctx, plaintext, cipher, r));
        let i = place_of(models, set.write_key_id@);
        assert(set.sealers@[i].key_id@ == set.write_key_id@);
    }
}

/// The context of an entry of the log has the counter, the previous hash and the covered position that it is made of, the
/// kind of the log's entry, no compression and no blob; a snapshot's body is a document, and the others' are operations.
pub proof fn what_a_log_entry_is_sealed_as(ctx: SealCtx, r: SealContext)
    requires
        call_ensures(seal_context, (&ctx,), r),
    ensures
        r.replica_counter == ctx.replica_counter,
        r.prev_ciphertext_hash@ == ctx.prev_ciphertext_hash@,
        r.covers_through_seq == ctx.covers_through_seq,
        r.compression == Compression::Uncompressed,
        r.blob_id@.len() == 0,
        ctx.kind == LogKind::Delta ==> r.kind == EntryKind::Delta && r.format == Format::OpenomOps,
        ctx.kind == LogKind::Snapshot ==> r.kind == EntryKind::Snapshot && r.format == Format::OpenomJson,
        ctx.kind == LogKind::Cover ==> r.kind == EntryKind::Cover && r.format == Format::OpenomOps,
{
}

/// What is sealed through the adapter is sealed with the session of the write epoch, in the context of the log's entry.
pub proof fn an_adapter_seals_log_entries<C: Fn(&Key32, &SealParams, &Vec<u8>) -> Result<Envelope, String>>(
    adapter: SealerAdapter,
    ctx: SealCtx,
    plaintext: Vec<u8>,
    cipher: C,
    r: Result<SealOutcome, SealerError>,
    within: SealContext,
    i: int,
)
    requires
        call_ensures(SealerAdapter::seal::<C>, (&adapter, &ctx, &plaintext, &cipher), r),
        call_ensures(seal_context, (&ctx,), within),
        first_for(adapter.set.sealers@, adapter.set.write_key_id@, i),
    ensures
        sealed_by(adapter.set.sealers@[i], within, plaintext, cipher, r),
{
    let set = adapter.set;
    the_first_is_placed(set.sealers@, set.write_key_id@);
    let models = sealer_models(set.sealers@);
    let s = set.sealers@[i];
    assert(models[i] == s@);
    let m = crate::sync::context_of(ctx.kind, ctx.replica_counter, ctx.prev_ciphertext_hash@, ctx.covers_through_seq);
    let said = choose|said: Result<Envelope, String>| #[trigger]
        crate::sealer::sealing(cipher, s@.dek, crate::sealer::params_for(s@, m), plaintext, said) && crate::sealer::sealed(
            said,
            r,
        );
    let (k, q) = choose|k: Key32, q: SealParams| #[trigger]
        cipher.ensures((&k, &q, &plaintext), said) && k@ == s@.dek && q@ == crate::sealer::params_for(s@, m);
    params_agree(s, within, q);
    assert(answer_of(said, r));
}

/// The contexts off the log carry what they are made of and nothing else.
pub proof fn what_other_entries_are_sealed_as(
    blob_id: Vec<u8>,
    media: SealContext,
    secret: SealContext,
    proposal: SealContext,
    counter: u64,
    prev: Vec<u8>,
    through: u64,
    snapshot: SealContext,
    cover: SealContext,
)
    requires
        call_ensures(SealContext::media, (blob_id,), media),
        call_ensures(SealContext::app_secret, (), secret),
        call_ensures(SealContext::proposal, (), proposal),
        call_ensures(SealContext::snapshot, (counter, prev, through), snapshot),
        call_ensures(SealContext::cover, (counter, prev), cover),
    ensures
        off_the_log(media, EntryKind::Media, Format::RawBytes) && media.blob_id@ == blob_id@,
        off_the_log(secret, EntryKind::AppSecret, Format::RawBytes) && secret.blob_id@.len() == 0,
        off_the_log(proposal, EntryKind::Proposal, Format::OpenomOps) && proposal.blob_id@.len() == 0,
        on_the_log(snapshot, EntryKind::Snapshot, counter, prev@) && snapshot.covers_through_seq == through,
        on_the_log(cover, EntryKind::Cover, counter, prev@) && cover.covers_through_seq == 0,
{
}

/// The context has no place in the log.
pub open spec fn off_the_log(c: SealContext, kind: EntryKind, format: Format) -> bool {
    c.kind == kind && c.format == format && c.compression == Compression::Uncompressed && c.replica_counter == 0
        && c.prev_ciphertext_hash@.len() == 0 && c.covers_through_seq == 0
}

/// The context has this place in the log.
pub open spec fn on_the_log(c: SealContext, kind: EntryKind, counter: u64, prev: Seq<u8>) -> bool {
    c.kind == kind && c.format == Format::OpenomJson && c.compression == Compression::Uncompressed && c.replica_counter == counter
        && c.prev_ciphertext_hash@ == prev && c.blob_id@.len() == 0
}

/// A session opens an envelope that has a header for its own tree, its own key and the kind that is expected, by handing
/// its key and the envelope to the cipher, whose answer is what comes back. It opens no other, and says what is wrong.
pub proof fn what_a_session_opens<C: Fn(&Key32, &Envelope) -> Result<Vec<u8>, String>>(
    s: Sealer,
    expect: EntryKind,
    env: Envelope,
    cipher: C,
    r: Result<Vec<u8>, SealerError>,
)
    requires
        call_ensures(Sealer::open_decoded::<C>, (&s, expect, &env, &cipher), r),
    ensures
        opened_by(s, expect, env, cipher, r),
{
}

/// See `what_a_session_opens`.
pub open spec fn opened_by<C: Fn(&Key32, &Envelope) -> Result<Vec<u8>, String>>(
    s: Sealer,
    expect: EntryKind,
    env: Envelope,
    cipher: C,
    r: Result<Vec<u8>, SealerError>,
) -> bool {
    match env.header {
        None => r matches Err(e) && e is NoHeader,
        Some(h) => if h.tree_id@ != s.tree_id@ || h.key_id@ != s.key_id@ {
            r matches Err(e) && e is WrongScope
        } else if !(h.kind matches Some(k) && same_kind(expect, k)) {
            r matches Err(e) && e is WrongKind
        } else {
            exists|k: Key32, said: Result<Vec<u8>, String>| #[trigger]
                cipher.ensures((&k, &env), said) && k@ == s.dek@ && match said {
                    Ok(p) => r matches Ok(q) && q == p,
                    Err(e) => r matches Err(SealerError::Crypto(x)) && x == e,
                }
        },
    }
}

/// A set of sessions opens an envelope with the session of the epoch that its header names, and with none where the header
/// is missing, is of another tree, or names an epoch that the set has no session for.
pub proof fn what_a_set_opens<C: Fn(&Key32, &Envelope) -> Result<Vec<u8>, String>>(
    set: SealerSet,
    expect: EntryKind,
    env: Envelope,
    cipher: C,
    r: Result<Vec<u8>, SealerError>,
)
    requires
        call_ensures(SealerSet::open_decoded::<C>, (&set, expect, &env, &cipher), r),
    ensures
        match env.header {
            None => r matches Err(e) && e is NoHeader,
            Some(h) => {
                &&& h.tree_id@ != set.tree_id@ ==> (r matches Err(e) && e is WrongScope)
                &&& h.tree_id@ == set.tree_id@ && (forall|i: int|
                    0 <= i < set.sealers@.len() ==> (#[trigger] set.sealers@[i]).key_id@ != h.key_id@) ==> (r matches Err(e)
                    && e is EpochUnreachable)
                &&& forall|i: int|
                    h.tree_id@ == set.tree_id@ && #[trigger] first_for(set.sealers@, h.key_id@, i) ==> opened_by(
                        set.sealers@[i],
                        expect,
                        env,
                        cipher,
                        r,
                    )
            },
        },
{
    if let Some(h) = env.header {
        the_first_is_placed(set.sealers@, h.key_id@);
        let models = sealer_models(set.sealers@);
        if h.tree_id@ == set.tree_id@ && holds(models, h.key_id@) {
            let p = place_of(models, h.key_id@);
            assert(models[p] == set.sealers@[p]@);
            assert(set.sealers@[p].key_id@ == h.key_id@);
        }
    }
}

/// The position that a snapshot covers is the one in its header, and the beginning where it has none or is no envelope.
pub proof fn what_a_snapshot_covers<D: Fn(&Vec<u8>) -> Result<Envelope, String>>(
    adapter: SealerAdapter,
    envelope: Vec<u8>,
    decode: D,
    r: u64,
)
    requires
        call_ensures(SealerAdapter::covers_through_seq::<D>, (&adapter, &envelope, &decode), r),
    ensures
        exists|said: Result<Envelope, String>| #[trigger]
            decode.ensures((&envelope,), said) && match said {
                Ok(env) => (env.header matches Some(h) ==> r == h.covers_through_seq) && (env.header is None ==> r == 0),
                Err(_) => r == 0,
            },
{
}

/// A new session has what it is made of, the default cipher, and no author.
pub proof fn what_a_new_session_has(
    version: u32,
    dek: Key32,
    tree_id: Vec<u8>,
    key_id: Vec<u8>,
    replica_id: Vec<u8>,
    r: Sealer,
)
    requires
        call_ensures(Sealer::from_unwrapped, (version, dek, tree_id, key_id, replica_id), r),
    ensures
        r.version == version,
        r.dek@ == dek@,
        r.aead == Aead::Xchacha20Poly1305,
        r.tree_id@ == tree_id@,
        r.key_id@ == key_id@,
        r.replica_id@ == replica_id@,
        r.author is None,
{
}

/// A new set has one session for each epoch in turn, under its key, for the set's tree and replica.
pub proof fn what_a_new_set_has(
    version: u32,
    tree_id: Vec<u8>,
    replica_id: Vec<u8>,
    epochs: Vec<(Vec<u8>, Key32)>,
    write_key_id: Vec<u8>,
    r: SealerSet,
)
    requires
        call_ensures(SealerSet::new, (version, tree_id, replica_id, epochs, write_key_id), r),
    ensures
        r.tree_id@ == tree_id@,
        r.write_key_id@ == write_key_id@,
        r.sealers@.len() == epochs@.len(),
        forall|i: int|
            0 <= i < r.sealers@.len() ==> {
                let s = #[trigger] r.sealers@[i];
                s.version == version && s.dek@ == epochs@[i].1@ && s.key_id@ == epochs@[i].0@ && s.tree_id@ == tree_id@
                    && s.replica_id@ == replica_id@ && s.aead == Aead::Xchacha20Poly1305 && s.author is None
            },
{
    let models = sealer_models(r.sealers@);
    assert(models.len() == epochs@.len());
    assert forall|i: int| 0 <= i < r.sealers@.len() implies {
        let s = #[trigger] r.sealers@[i];
        s.version == version && s.dek@ == epochs@[i].1@ && s.key_id@ == epochs@[i].0@ && s.tree_id@ == tree_id@ && s.replica_id@
            == replica_id@ && s.aead == Aead::Xchacha20Poly1305 && s.author is None
    } by {
        assert(models[i] == r.sealers@[i]@);
        assert(epoch_models(epochs@)[i] == (epochs@[i].0@, epochs@[i].1@));
    }
}

/// The first epoch with this id has this key.
pub open spec fn first_epoch(epochs: Seq<(Seq<u8>, Seq<u8>)>, id: Seq<u8>, dek: Seq<u8>) -> bool {
    exists|j: int|
        0 <= j < epochs.len() && #[trigger] epochs[j] == (id, dek) && forall|k: int| 0 <= k < j ==> (#[trigger] epochs[k]).0 != id
}

/// The two sessions differ in their author at most.
pub open spec fn same_session(a: SealerModel, b: SealerModel) -> bool {
    a.version == b.version && a.dek == b.dek && a.aead == b.aead && a.tree_id == b.tree_id && a.key_id == b.key_id && a.replica_id
        == b.replica_id
}

proof fn splicing_adds(s: Seq<SealerModel>, version: u32, epochs: Seq<(Seq<u8>, Seq<u8>)>, tree_id: Seq<u8>, replica_id: Seq<u8>)
    ensures
        ({
            let t = spliced(s, version, epochs, tree_id, replica_id);
            &&& t.len() >= s.len()
            &&& forall|i: int| 0 <= i < s.len() ==> #[trigger] t[i] == s[i]
            &&& forall|i: int|
                s.len() <= i < t.len() ==> {
                    let n = #[trigger] t[i];
                    n.version == version && n.tree_id == tree_id && n.replica_id == replica_id && n.aead
                        == Aead::Xchacha20Poly1305 && n.author is None && !holds(s, n.key_id) && first_epoch(
                        epochs,
                        n.key_id,
                        n.dek,
                    )
                }
            &&& forall|i: int, j: int| #![trigger t[i], t[j]]
                s.len() <= i < j < t.len() ==> t[i].key_id != t[j].key_id
            &&& forall|i: int| 0 <= i < epochs.len() ==> holds(t, (#[trigger] epochs[i]).0)
        }),
    decreases epochs.len(),
{
    if epochs.len() > 0 {
        let e0 = epochs.drop_last();
        let e = epochs.last();
        splicing_adds(s, version, e0, tree_id, replica_id);
        let before = spliced(s, version, e0, tree_id, replica_id);
        let t = spliced(s, version, epochs, tree_id, replica_id);
        assert forall|id: Seq<u8>, dek: Seq<u8>| #[trigger] first_epoch(e0, id, dek) implies first_epoch(epochs, id, dek) by {
            let j = choose|j: int|
                0 <= j < e0.len() && #[trigger] e0[j] == (id, dek) && forall|k: int| 0 <= k < j ==> (#[trigger] e0[k]).0 != id;
            assert(epochs[j] == (id, dek));
            assert forall|k: int| 0 <= k < j implies (#[trigger] epochs[k]).0 != id by {
                assert(e0[k].0 != id);
            }
        }
        if !holds(before, e.0) {
            let last = epochs.len() - 1;
            assert(epochs[last] == (e.0, e.1));
            assert forall|k: int| 0 <= k < last implies (#[trigger] epochs[k]).0 != e.0 by {
                assert(e0[k] == epochs[k]);
            }
            assert(first_epoch(epochs, e.0, e.1));
            if holds(s, e.0) {
                let i = choose|i: int| 0 <= i < s.len() && (#[trigger] s[i]).key_id == e.0;
                assert(before[i].key_id == e.0);
            }
            assert(t[before.len() as int].key_id == e.0);
            assert forall|i: int, j: int| #![trigger t[i], t[j]] s.len() <= i < j < t.len() implies t[i].key_id != t[j].key_id by {
                assert(t[i] == before[i]);
                if j < before.len() {
                    assert(t[j] == before[j]);
                }
            }
        }
        assert forall|i: int| 0 <= i < epochs.len() implies holds(t, (#[trigger] epochs[i]).0) by {
            if i < e0.len() {
                assert(e0[i] == epochs[i]);
                let k = choose|k: int| 0 <= k < before.len() && (#[trigger] before[k]).key_id == e0[i].0;
                assert(t[k].key_id == epochs[i].0);
            } else if holds(before, e.0) {
                let k = choose|k: int| 0 <= k < before.len() && (#[trigger] before[k]).key_id == e.0;
                assert(t[k].key_id == e.0);
            }
        }
    }
}

proof fn attributing_changes_one(s: Seq<SealerModel>, key_id: Seq<u8>, author: Option<AuthorModel>)
    ensures
        ({
            let t = attributed(s, key_id, author);
            &&& t.len() == s.len()
            &&& forall|i: int| 0 <= i < s.len() ==> same_session(s[i], #[trigger] t[i])
            &&& forall|i: int| 0 <= i < s.len() && i != place_of(s, key_id) ==> (#[trigger] t[i]).author == s[i].author
            &&& holds(s, key_id) ==> 0 <= place_of(s, key_id) < s.len() && t[place_of(s, key_id)].author == author
        }),
{
    place_is_first(s, key_id);
}

/// Adopting epochs keeps the tree and every session, each as it was but for its author, and adds one session for each
/// epoch that had none: under the epoch's key, for the set's tree, and for the replica that the set seals for. The write
/// epoch is the new one; the session that signed before signs no more, unless it is the new write epoch's; and the sessions
/// that did not sign for the old write epoch nor sign for the new one keep their author.
pub proof fn what_adoption_leaves(
    t: SetModel,
    version: u32,
    epochs: Seq<(Seq<u8>, Seq<u8>)>,
    write_key_id: Seq<u8>,
    governing_ref: Seq<u8>,
)
    ensures
        ({
            let after = adopted(t, version, epochs, write_key_id, governing_ref);
            let n = t.sealers.len() as int;
            &&& after.tree_id == t.tree_id
            &&& after.write_key_id == write_key_id
            &&& after.sealers.len() >= n
            &&& forall|i: int| 0 <= i < n ==> same_session(t.sealers[i], #[trigger] after.sealers[i])
            &&& forall|i: int|
                n <= i < after.sealers.len() ==> {
                    let s = #[trigger] after.sealers[i];
                    s.version == version && s.tree_id == t.tree_id && s.aead == Aead::Xchacha20Poly1305 && !holds(
                        t.sealers,
                        s.key_id,
                    ) && first_epoch(epochs, s.key_id, s.dek) && (n > 0 ==> s.replica_id == t.sealers[0].replica_id)
                }
            &&& forall|i: int, j: int| #![trigger after.sealers[i], after.sealers[j]]
                n <= i < j < after.sealers.len() ==> after.sealers[i].key_id != after.sealers[j].key_id
            &&& forall|i: int| 0 <= i < epochs.len() ==> holds(after.sealers, (#[trigger] epochs[i]).0)
            &&& forall|i: int|
                0 <= i < after.sealers.len() && i != place_of(after.sealers, write_key_id) ==> (#[trigger] after.sealers[i]).author
                    == (if i < n && i != place_of(t.sealers, t.write_key_id) {
                    t.sealers[i].author
                } else {
                    None
                })
        }),
{
    let replica_id = if t.sealers.len() == 0 {
        Seq::empty()
    } else {
        t.sealers[0].replica_id
    };
    let quiet = attributed(t.sealers, t.write_key_id, None);
    let grown = spliced(quiet, version, epochs, t.tree_id, replica_id);
    let after = adopted(t, version, epochs, write_key_id, governing_ref);
    attributing_changes_one(t.sealers, t.write_key_id, None);
    splicing_adds(quiet, version, epochs, t.tree_id, replica_id);
    assert forall|k: Seq<u8>| #[trigger] holds(t.sealers, k) implies holds(quiet, k) by {
        let i = choose|i: int| 0 <= i < t.sealers.len() && (#[trigger] t.sealers[i]).key_id == k;
        assert(quiet[i].key_id == k);
    }
    place_is_first(t.sealers, t.write_key_id);
    place_is_first(grown, write_key_id);
    place_is_first(after.sealers, write_key_id);
    match author_at(t.sealers, t.write_key_id) {
        Some(a) => {
            let moved = Some(AuthorModel { governing_ref, ..a });
            attributing_changes_one(grown, write_key_id, moved);
            assert forall|i: int| 0 <= i < grown.len() implies same_session(grown[i], #[trigger] after.sealers[i]) by {}
            assert(place_of(after.sealers, write_key_id) == place_of(grown, write_key_id)) by {
                let p = place_of(grown, write_key_id);
                let q = place_of(after.sealers, write_key_id);
                if p < q {
                    assert(after.sealers[p].key_id == grown[p].key_id);
                }
                if q < p {
                    assert(same_session(grown[q], after.sealers[q]));
                }
            }
            assert forall|i: int| 0 <= i < epochs.len() implies holds(after.sealers, (#[trigger] epochs[i]).0) by {
                assert(holds(grown, epochs[i].0));
                let k = choose|k: int| 0 <= k < grown.len() && (#[trigger] grown[k]).key_id == epochs[i].0;
                assert(after.sealers[k].key_id == epochs[i].0);
            }
            assert forall|i: int, j: int| #![trigger after.sealers[i], after.sealers[j]]
                t.sealers.len() <= i < j < after.sealers.len() implies after.sealers[i].key_id != after.sealers[j].key_id by {
                assert(grown[i].key_id != grown[j].key_id);
            }
        },
        None => {
            assert(after.sealers == grown);
            if holds(t.sealers, t.write_key_id) {
                assert(t.sealers[place_of(t.sealers, t.write_key_id)].author is None);
            }
        },
    }
    assert forall|i: int| 0 <= i < t.sealers.len() implies same_session(t.sealers[i], #[trigger] after.sealers[i]) by {
        assert(same_session(t.sealers[i], quiet[i]));
        assert(grown[i] == quiet[i]);
    }
    assert forall|i: int|
        0 <= i < after.sealers.len() && i != place_of(after.sealers, write_key_id) implies (#[trigger] after.sealers[i]).author
        == (if i < t.sealers.len() && i != place_of(t.sealers, t.write_key_id) {
        t.sealers[i].author
    } else {
        None
    }) by {
        assert(after.sealers[i].author == grown[i].author);
        if i < t.sealers.len() {
            assert(grown[i] == quiet[i]);
        }
    }
}

} // verus!
