//! The claim tree's side of document synchronisation: how entries are sealed, and how edits become deltas.

use vstd::prelude::*;

use crate::sealer::{
    routed, sealed, sealing, holds, params_for, place_of, Compression, ContextModel, EntryKind, Envelope, Format, Key32,
    SealContext, SealOutcome, SealParams, SealerError, SealerSet,
};
use crate::text::copy_bytes;
use crate::tree::{ingested, item_models, ChannelItem, Tree, TreeError};

verus! {

/// The format of claim entries.
pub const FORMAT: Format = Format::OpenomOps;

/// What an entry of a document's log is.
#[derive(Clone, Copy, Debug, PartialEq, Eq, Structural)]
pub enum LogKind {
    Delta,
    Snapshot,
    Cover,
}

/// What the log says of an entry that is to be sealed.
pub struct SealCtx {
    pub kind: LogKind,
    pub replica_counter: u64,
    pub prev_ciphertext_hash: Vec<u8>,
    pub covers_through_seq: u64,
}

/// The kind of the envelope of a log entry.
pub open spec fn entry_kind(k: LogKind) -> EntryKind {
    match k {
        LogKind::Delta => EntryKind::Delta,
        LogKind::Snapshot => EntryKind::Snapshot,
        LogKind::Cover => EntryKind::Cover,
    }
}

/// The format of the body of a log entry: operations, but for a snapshot.
pub open spec fn body_format(k: LogKind) -> Format {
    match k {
        LogKind::Snapshot => Format::OpenomJson,
        _ => Format::OpenomOps,
    }
}

/// What a log entry is sealed as.
pub open spec fn context_of(
    kind: LogKind,
    replica_counter: u64,
    prev_ciphertext_hash: Seq<u8>,
    covers_through_seq: u64,
) -> ContextModel {
    ContextModel {
        kind: entry_kind(kind),
        format: body_format(kind),
        compression: Compression::Uncompressed,
        replica_counter,
        prev_ciphertext_hash,
        covers_through_seq,
        blob_id: Seq::empty(),
    }
}

/// The kind of the envelope of a log entry.
pub fn to_entry_kind(k: LogKind) -> (r: EntryKind)
    ensures
        r == entry_kind(k),
{
    match k {
        LogKind::Delta => EntryKind::Delta,
        LogKind::Snapshot => EntryKind::Snapshot,
        LogKind::Cover => EntryKind::Cover,
    }
}

/// What a log entry is sealed as.
pub fn seal_context(ctx: &SealCtx) -> (r: SealContext)
    ensures
        r@ == context_of(ctx.kind, ctx.replica_counter, ctx.prev_ciphertext_hash@, ctx.covers_through_seq),
{
    let format: Format = match ctx.kind {
        LogKind::Snapshot => Format::OpenomJson,
        _ => FORMAT,
    };
    SealContext {
        kind: to_entry_kind(ctx.kind),
        format,
        compression: Compression::Uncompressed,
        replica_counter: ctx.replica_counter,
        prev_ciphertext_hash: copy_bytes(&ctx.prev_ciphertext_hash),
        covers_through_seq: ctx.covers_through_seq,
        blob_id: Vec::new(),
    }
}

/// The sealing sessions, as the log uses them.
pub struct SealerAdapter {
    pub set: SealerSet,
}

impl SealerAdapter {
    /// Seals a log entry under the write epoch.
    pub fn seal<C: Fn(&Key32, &SealParams, &Vec<u8>) -> Result<Envelope, String>>(
        &self,
        ctx: &SealCtx,
        plaintext: &Vec<u8>,
        cipher: &C,
    ) -> (r: Result<SealOutcome, SealerError>)
        requires
            forall|k: Key32, p: SealParams| cipher.requires((&k, &p, plaintext)),
        ensures
            !holds(self.set@.sealers, self.set@.write_key_id) ==> r == Err::<SealOutcome, SealerError>(
                SealerError::EpochUnreachable,
            ),
            holds(self.set@.sealers, self.set@.write_key_id) ==> exists|said: Result<Envelope, String>| #[trigger]
                sealing(
                    *cipher,
                    self.set@.sealers[place_of(self.set@.sealers, self.set@.write_key_id)].dek,
                    params_for(
                        self.set@.sealers[place_of(self.set@.sealers, self.set@.write_key_id)],
                        context_of(ctx.kind, ctx.replica_counter, ctx.prev_ciphertext_hash@, ctx.covers_through_seq),
                    ),
                    *plaintext,
                    said,
                ) && sealed(said, r),
    {
        let oc: SealContext = seal_context(ctx);
        self.set.seal_entry(&oc, plaintext, cipher)
    }

    /// Opens a log entry.
    pub fn open<
        D: Fn(&Vec<u8>) -> Result<Envelope, String>,
        C: Fn(&Key32, &Envelope) -> Result<Vec<u8>, String>,
    >(&self, kind: LogKind, envelope: &Vec<u8>, decode: &D, cipher: &C) -> (r: Result<Vec<u8>, SealerError>)
        requires
            decode.requires((envelope,)),
            forall|k: Key32, e: Envelope| cipher.requires((&k, &e)),
        ensures
            exists|said: Result<Envelope, String>| #[trigger]
                decode.ensures((envelope,), said) && match said {
                    Err(e) => r == Err::<Vec<u8>, SealerError>(SealerError::Decode(e)),
                    Ok(env) => routed(self.set@, *cipher, entry_kind(kind), env, r),
                },
    {
        self.set.open_entry(to_entry_kind(kind), envelope, decode, cipher)
    }

    /// How far a snapshot covers the log, by its envelope's header; nothing, where there is none to read.
    pub fn covers_through_seq<D: Fn(&Vec<u8>) -> Result<Envelope, String>>(&self, snapshot_envelope: &Vec<u8>, decode: &D) -> (r:
        u64)
        requires
            decode.requires((snapshot_envelope,)),
        ensures
            exists|said: Result<Envelope, String>| #[trigger]
                decode.ensures((snapshot_envelope,), said) && r == covered(said),
    {
        let said: Result<Envelope, String> = decode(snapshot_envelope);
        let ghost answer = said;
        let r: u64 = match said {
            Ok(env) => match env.header {
                Some(h) => h.covers_through_seq,
                None => 0,
            },
            Err(_) => 0,
        };
        assert(r == covered(answer));
        r
    }

    /// Seals a media blob, which is addressed by its id and never joins the log. Gives the envelope.
    pub fn seal_media<C: Fn(&Key32, &SealParams, &Vec<u8>) -> Result<Envelope, String>>(
        &self,
        blob_id: &Vec<u8>,
        plaintext: &Vec<u8>,
        cipher: &C,
    ) -> (r: Result<Vec<u8>, SealerError>)
        requires
            forall|k: Key32, p: SealParams| cipher.requires((&k, &p, plaintext)),
        ensures
            exists|ctx: SealContext, out: Result<SealOutcome, SealerError>| #[trigger]
                entered(self.set, ctx, *plaintext, *cipher, out) && ctx@ == (ContextModel {
                    blob_id: blob_id@,
                    ..crate::sealer::bare(EntryKind::Media, Format::RawBytes)
                }) && is_envelope_of(out, r),
    {
        let ctx: SealContext = SealContext::media(copy_bytes(blob_id));
        let out: Result<SealOutcome, SealerError> = self.set.seal_entry(&ctx, plaintext, cipher);
        assert(entered(self.set, ctx, *plaintext, *cipher, out));
        envelope_of(out)
    }

    /// Opens a media blob.
    pub fn open_media<
        D: Fn(&Vec<u8>) -> Result<Envelope, String>,
        C: Fn(&Key32, &Envelope) -> Result<Vec<u8>, String>,
    >(&self, envelope: &Vec<u8>, decode: &D, cipher: &C) -> (r: Result<Vec<u8>, SealerError>)
        requires
            decode.requires((envelope,)),
            forall|k: Key32, e: Envelope| cipher.requires((&k, &e)),
        ensures
            exists|said: Result<Envelope, String>| #[trigger]
                decode.ensures((envelope,), said) && match said {
                    Err(e) => r == Err::<Vec<u8>, SealerError>(SealerError::Decode(e)),
                    Ok(env) => routed(self.set@, *cipher, EntryKind::Media, env, r),
                },
    {
        self.set.open_entry(EntryKind::Media, envelope, decode, cipher)
    }

    /// Seals a batch as a proposal, which is not of the log. Gives the envelope.
    pub fn seal_proposal<C: Fn(&Key32, &SealParams, &Vec<u8>) -> Result<Envelope, String>>(&self, batch: &Vec<u8>, cipher: &C) -> (r:
        Result<Vec<u8>, SealerError>)
        requires
            forall|k: Key32, p: SealParams| cipher.requires((&k, &p, batch)),
        ensures
            exists|ctx: SealContext, out: Result<SealOutcome, SealerError>| #[trigger]
                entered(self.set, ctx, *batch, *cipher, out) && ctx@ == crate::sealer::bare(EntryKind::Proposal, FORMAT)
                    && is_envelope_of(out, r),
    {
        let ctx: SealContext = SealContext::proposal();
        let out: Result<SealOutcome, SealerError> = self.set.seal_entry(&ctx, batch, cipher);
        assert(entered(self.set, ctx, *batch, *cipher, out));
        envelope_of(out)
    }

    /// Opens a proposal.
    pub fn open_proposal<
        D: Fn(&Vec<u8>) -> Result<Envelope, String>,
        C: Fn(&Key32, &Envelope) -> Result<Vec<u8>, String>,
    >(&self, envelope: &Vec<u8>, decode: &D, cipher: &C) -> (r: Result<Vec<u8>, SealerError>)
        requires
            decode.requires((envelope,)),
            forall|k: Key32, e: Envelope| cipher.requires((&k, &e)),
        ensures
            exists|said: Result<Envelope, String>| #[trigger]
                decode.ensures((envelope,), said) && match said {
                    Err(e) => r == Err::<Vec<u8>, SealerError>(SealerError::Decode(e)),
                    Ok(env) => routed(self.set@, *cipher, EntryKind::Proposal, env, r),
                },
    {
        self.set.open_entry(EntryKind::Proposal, envelope, decode, cipher)
    }
}

/// How far an envelope covers the log.
pub open spec fn covered(said: Result<Envelope, String>) -> u64 {
    match said {
        Ok(env) => match env.header {
            Some(h) => h.covers_through_seq,
            None => 0,
        },
        Err(_) => 0,
    }
}

/// The entry was sealed under the set's write epoch, with this outcome.
pub open spec fn entered<C: Fn(&Key32, &SealParams, &Vec<u8>) -> Result<Envelope, String>>(
    set: SealerSet,
    ctx: SealContext,
    plaintext: Vec<u8>,
    cipher: C,
    out: Result<SealOutcome, SealerError>,
) -> bool {
    if holds(set@.sealers, set@.write_key_id) {
        exists|said: Result<Envelope, String>| #[trigger]
            sealing(
                cipher,
                set@.sealers[place_of(set@.sealers, set@.write_key_id)].dek,
                params_for(set@.sealers[place_of(set@.sealers, set@.write_key_id)], ctx@),
                plaintext,
                said,
            ) && sealed(said, out)
    } else {
        out == Err::<SealOutcome, SealerError>(SealerError::EpochUnreachable)
    }
}

/// The envelope of an outcome, or why there is none.
pub open spec fn is_envelope_of(out: Result<SealOutcome, SealerError>, r: Result<Vec<u8>, SealerError>) -> bool {
    match out {
        Ok(o) => r == Ok::<Vec<u8>, SealerError>(o.envelope),
        Err(e) => r == Err::<Vec<u8>, SealerError>(e),
    }
}

fn envelope_of(out: Result<SealOutcome, SealerError>) -> (r: Result<Vec<u8>, SealerError>)
    ensures
        is_envelope_of(out, r),
{
    match out {
        Ok(o) => Ok(o.envelope),
        Err(e) => Err(e),
    }
}

/// The claim tree, as document synchronisation drives it.
pub struct SyncTree {
    pub tree: Tree,
}

impl SyncTree {
    /// Applies a batch that was minted here, and gives the delta to seal. An empty batch gives an empty delta and changes
    /// nothing; one that cannot be encoded changes nothing either.
    pub fn apply_local<E: Fn(&Vec<ChannelItem>) -> Result<Vec<u8>, TreeError>>(&mut self, edit: &Vec<ChannelItem>, encode: E) -> (r:
        Result<Vec<u8>, TreeError>)
        requires
            old(self).tree.wf(),
            encode.requires((edit,)),
        ensures
            final(self).tree.wf(),
            edit@.len() == 0 ==> (r matches Ok(b) && b@.len() == 0) && final(self).tree@ == old(self).tree@,
            edit@.len() > 0 ==> encode.ensures((edit,), r),
            edit@.len() > 0 && r is Ok ==> final(self).tree@ == ingested(
                old(self).tree@,
                item_models(edit@),
                old(self).tree@.created_by,
            ),
            r is Err ==> final(self).tree@ == old(self).tree@,
    {
        if edit.len() == 0 {
            return Ok(Vec::new());
        }
        match encode(edit) {
            Ok(bytes) => {
                let committer: String = self.tree.created_by.clone();
                self.tree.ingest(edit, committer.as_str());
                Ok(bytes)
            },
            Err(e) => Err(e),
        }
    }

    /// Takes in a delta that someone committed.
    pub fn merge<D: Fn(&Vec<u8>) -> Result<Vec<ChannelItem>, TreeError>>(
        &mut self,
        delta: &Vec<u8>,
        committer: &str,
        decode: D,
    ) -> (r: Result<(), TreeError>)
        requires
            old(self).tree.wf(),
            decode.requires((delta,)),
        ensures
            final(self).tree.wf(),
            exists|said: Result<Vec<ChannelItem>, TreeError>| #[trigger]
                decode.ensures((delta,), said) && match said {
                    Ok(items) => r is Ok && final(self).tree@ == ingested(old(self).tree@, item_models(items@), committer@),
                    Err(e) => r == Err::<(), TreeError>(e) && final(self).tree@ == old(self).tree@,
                },
    {
        match self.tree.merge(delta, committer, decode) {
            Ok(_) => Ok(()),
            Err(e) => Err(e),
        }
    }

    /// The author of everything that is minted here.
    pub fn author(&self) -> (r: &str)
        ensures
            r@ == self.tree@.created_by,
    {
        self.tree.author()
    }
}

} // verus!
