//! The sealing session: which key seals an entry, under which header, and which key opens it again.

use vstd::prelude::*;

use crate::order::bytes_equal;
use crate::text::{concat, copy_bytes};

verus! {

/// A raw data key.
pub type Key32 = [u8; 32];

/// The kind of an entry, as an envelope's header tells it.
#[derive(Clone, Copy, Debug, PartialEq, Eq, Structural)]
pub enum Kind {
    Unspecified,
    Snapshot,
    Delta,
    Media,
    Proposal,
    Cover,
    AppSecret,
}

/// The kind of an entry that is sealed.
#[derive(Clone, Copy, Debug, PartialEq, Eq, Structural)]
pub enum EntryKind {
    /// A full tree snapshot.
    Snapshot,
    /// A change over a snapshot.
    Delta,
    /// A media blob.
    Media,
    /// A bundle of edits that awaits approval.
    Proposal,
    /// A marker that blesses the entries of a member who was since removed.
    Cover,
    /// A secret of the client's own, kept at rest.
    AppSecret,
}

/// The entry kind that a header's kind stands for.
pub open spec fn entry_of(k: Kind) -> Option<EntryKind> {
    match k {
        Kind::Snapshot => Some(EntryKind::Snapshot),
        Kind::Delta => Some(EntryKind::Delta),
        Kind::Media => Some(EntryKind::Media),
        Kind::Proposal => Some(EntryKind::Proposal),
        Kind::Cover => Some(EntryKind::Cover),
        Kind::AppSecret => Some(EntryKind::AppSecret),
        Kind::Unspecified => None,
    }
}

impl EntryKind {
    /// The kind that a header tells.
    pub open spec fn kind(self) -> Kind {
        match self {
            EntryKind::Snapshot => Kind::Snapshot,
            EntryKind::Delta => Kind::Delta,
            EntryKind::Media => Kind::Media,
            EntryKind::Proposal => Kind::Proposal,
            EntryKind::Cover => Kind::Cover,
            EntryKind::AppSecret => Kind::AppSecret,
        }
    }

    /// The kind that a header tells.
    pub fn to_proto(self) -> (r: Kind)
        ensures
            r == self.kind(),
    {
        match self {
            EntryKind::Snapshot => Kind::Snapshot,
            EntryKind::Delta => Kind::Delta,
            EntryKind::Media => Kind::Media,
            EntryKind::Proposal => Kind::Proposal,
            EntryKind::Cover => Kind::Cover,
            EntryKind::AppSecret => Kind::AppSecret,
        }
    }

    /// The entry kind that a header's kind stands for.
    pub fn from_proto(k: Kind) -> (r: Option<EntryKind>)
        ensures
            r == entry_of(k),
    {
        match k {
            Kind::Snapshot => Some(EntryKind::Snapshot),
            Kind::Delta => Some(EntryKind::Delta),
            Kind::Media => Some(EntryKind::Media),
            Kind::Proposal => Some(EntryKind::Proposal),
            Kind::Cover => Some(EntryKind::Cover),
            Kind::AppSecret => Some(EntryKind::AppSecret),
            Kind::Unspecified => None,
        }
    }
}

/// What the plaintext is.
#[derive(Clone, Copy, Debug, PartialEq, Eq, Structural)]
pub enum Format {
    OpenomJson,
    OpenomOps,
    RawBytes,
}

/// How the plaintext is compressed.
#[derive(Clone, Copy, Debug, PartialEq, Eq, Structural)]
pub enum Compression {
    Uncompressed,
    Zstd,
}

/// The cipher.
#[derive(Clone, Copy, Debug, PartialEq, Eq, Structural)]
pub enum Aead {
    Xchacha20Poly1305,
    Aes256Gcm,
}

/// What the caller says of one entry that is to be sealed.
pub struct SealContext {
    pub kind: EntryKind,
    pub format: Format,
    pub compression: Compression,
    pub replica_counter: u64,
    /// The hash of the previous entry of this replica; empty for the first.
    pub prev_ciphertext_hash: Vec<u8>,
    pub covers_through_seq: u64,
    /// For media only.
    pub blob_id: Vec<u8>,
}

/// What a context says.
#[verifier::ext_equal]
pub struct ContextModel {
    pub kind: EntryKind,
    pub format: Format,
    pub compression: Compression,
    pub replica_counter: u64,
    pub prev_ciphertext_hash: Seq<u8>,
    pub covers_through_seq: u64,
    pub blob_id: Seq<u8>,
}

impl View for SealContext {
    type V = ContextModel;

    open spec fn view(&self) -> ContextModel {
        ContextModel {
            kind: self.kind,
            format: self.format,
            compression: self.compression,
            replica_counter: self.replica_counter,
            prev_ciphertext_hash: self.prev_ciphertext_hash@,
            covers_through_seq: self.covers_through_seq,
            blob_id: self.blob_id@,
        }
    }
}

/// An entry without chain state, without compression and without a blob.
pub open spec fn bare(kind: EntryKind, format: Format) -> ContextModel {
    ContextModel {
        kind,
        format,
        compression: Compression::Uncompressed,
        replica_counter: 0,
        prev_ciphertext_hash: Seq::empty(),
        covers_through_seq: 0,
        blob_id: Seq::empty(),
    }
}

impl SealContext {
    /// A snapshot at the head of the chain.
    pub fn snapshot(replica_counter: u64, prev_ciphertext_hash: Vec<u8>, covers_through_seq: u64) -> (r: SealContext)
        ensures
            r@ == (ContextModel {
                replica_counter,
                prev_ciphertext_hash: prev_ciphertext_hash@,
                covers_through_seq,
                ..bare(EntryKind::Snapshot, Format::OpenomJson)
            }),
    {
        SealContext {
            kind: EntryKind::Snapshot,
            format: Format::OpenomJson,
            compression: Compression::Uncompressed,
            replica_counter,
            prev_ciphertext_hash,
            covers_through_seq,
            blob_id: Vec::new(),
        }
    }

    /// A cover marker at the head of the chain.
    pub fn cover(replica_counter: u64, prev_ciphertext_hash: Vec<u8>) -> (r: SealContext)
        ensures
            r@ == (ContextModel {
                replica_counter,
                prev_ciphertext_hash: prev_ciphertext_hash@,
                ..bare(EntryKind::Cover, Format::OpenomJson)
            }),
    {
        SealContext {
            kind: EntryKind::Cover,
            format: Format::OpenomJson,
            compression: Compression::Uncompressed,
            replica_counter,
            prev_ciphertext_hash,
            covers_through_seq: 0,
            blob_id: Vec::new(),
        }
    }

    /// A media blob, off the chain.
    pub fn media(blob_id: Vec<u8>) -> (r: SealContext)
        ensures
            r@ == (ContextModel { blob_id: blob_id@, ..bare(EntryKind::Media, Format::RawBytes) }),
    {
        SealContext {
            kind: EntryKind::Media,
            format: Format::RawBytes,
            compression: Compression::Uncompressed,
            replica_counter: 0,
            prev_ciphertext_hash: Vec::new(),
            covers_through_seq: 0,
            blob_id,
        }
    }

    /// A secret at rest, off the chain.
    pub fn app_secret() -> (r: SealContext)
        ensures
            r@ == bare(EntryKind::AppSecret, Format::RawBytes),
    {
        SealContext {
            kind: EntryKind::AppSecret,
            format: Format::RawBytes,
            compression: Compression::Uncompressed,
            replica_counter: 0,
            prev_ciphertext_hash: Vec::new(),
            covers_through_seq: 0,
            blob_id: Vec::new(),
        }
    }

    /// A proposal, off the chain.
    pub fn proposal() -> (r: SealContext)
        ensures
            r@ == bare(EntryKind::Proposal, Format::OpenomOps),
    {
        SealContext {
            kind: EntryKind::Proposal,
            format: Format::OpenomOps,
            compression: Compression::Uncompressed,
            replica_counter: 0,
            prev_ciphertext_hash: Vec::new(),
            covers_through_seq: 0,
            blob_id: Vec::new(),
        }
    }
}

/// A sealed entry, and the hash that the next entry of the chain records.
pub struct SealOutcome {
    pub envelope: Vec<u8>,
    pub ciphertext_hash: Vec<u8>,
}

/// Why an entry could not be sealed or opened.
#[derive(Debug, PartialEq, Eq)]
pub enum SealerError {
    /// The cipher failed.
    Crypto(String),
    /// The bytes are no envelope.
    Decode(String),
    /// The envelope has no header.
    NoHeader,
    /// The envelope is for another tree or key.
    WrongScope,
    /// The envelope is for an epoch whose key is not held.
    EpochUnreachable,
    /// The envelope is of another kind.
    WrongKind,
}

impl SealerError {
    /// What the error reads.
    pub open spec fn text(self) -> Seq<char> {
        match self {
            SealerError::Crypto(s) => "crypto: "@ + s@,
            SealerError::Decode(s) => "malformed envelope: "@ + s@,
            SealerError::NoHeader => "envelope has no header"@,
            SealerError::WrongScope => "envelope is out of scope for this sealer (tree_id/key_id mismatch)"@,
            SealerError::EpochUnreachable => "no key for this envelope's epoch"@,
            SealerError::WrongKind => "unexpected entry kind"@,
        }
    }

    /// What the error reads.
    pub fn message(&self) -> (r: String)
        ensures
            r@ == self.text(),
    {
        match self {
            SealerError::Crypto(s) => concat("crypto: ", s.as_str()),
            SealerError::Decode(s) => concat("malformed envelope: ", s.as_str()),
            SealerError::NoHeader => "envelope has no header".to_owned(),
            SealerError::WrongScope => "envelope is out of scope for this sealer (tree_id/key_id mismatch)".to_owned(),
            SealerError::EpochUnreachable => "no key for this envelope's epoch".to_owned(),
            SealerError::WrongKind => "unexpected entry kind".to_owned(),
        }
    }
}

/// Who signs the entries of a shared tree.
pub struct Author {
    pub signing_key: [u8; 32],
    pub member_id: String,
    /// The keyring head that the author goes by.
    pub governing_ref: Vec<u8>,
}

/// Who signs the entries of a shared tree.
#[verifier::ext_equal]
pub struct AuthorModel {
    pub signing_key: Seq<u8>,
    pub member_id: Seq<char>,
    pub governing_ref: Seq<u8>,
}

impl View for Author {
    type V = AuthorModel;

    open spec fn view(&self) -> AuthorModel {
        AuthorModel { signing_key: self.signing_key@, member_id: self.member_id@, governing_ref: self.governing_ref@ }
    }
}

/// An author, where there is one.
pub open spec fn opt_author(a: Option<Author>) -> Option<AuthorModel> {
    match a {
        Some(x) => Some(x@),
        None => None,
    }
}

impl Author {
    /// The same author.
    pub fn duplicate(&self) -> (r: Author)
        ensures
            r@ == self@,
    {
        Author {
            signing_key: self.signing_key,
            member_id: self.member_id.clone(),
            governing_ref: copy_bytes(&self.governing_ref),
        }
    }
}

/// Everything that is handed to the cipher beside the key and the plaintext.
pub struct SealParams {
    pub version: u32,
    pub kind: Kind,
    pub format: Format,
    pub aead: Aead,
    pub compression: Compression,
    pub key_id: Vec<u8>,
    pub tree_id: Vec<u8>,
    pub replica_id: Vec<u8>,
    pub replica_counter: u64,
    pub prev_ciphertext_hash: Vec<u8>,
    pub covers_through_seq: u64,
    pub blob_id: Vec<u8>,
    pub author: Option<Author>,
}

/// What is handed to the cipher.
#[verifier::ext_equal]
pub struct ParamsModel {
    pub version: u32,
    pub kind: Kind,
    pub format: Format,
    pub aead: Aead,
    pub compression: Compression,
    pub key_id: Seq<u8>,
    pub tree_id: Seq<u8>,
    pub replica_id: Seq<u8>,
    pub replica_counter: u64,
    pub prev_ciphertext_hash: Seq<u8>,
    pub covers_through_seq: u64,
    pub blob_id: Seq<u8>,
    pub author: Option<AuthorModel>,
}

impl View for SealParams {
    type V = ParamsModel;

    open spec fn view(&self) -> ParamsModel {
        ParamsModel {
            version: self.version,
            kind: self.kind,
            format: self.format,
            aead: self.aead,
            compression: self.compression,
            key_id: self.key_id@,
            tree_id: self.tree_id@,
            replica_id: self.replica_id@,
            replica_counter: self.replica_counter,
            prev_ciphertext_hash: self.prev_ciphertext_hash@,
            covers_through_seq: self.covers_through_seq,
            blob_id: self.blob_id@,
            author: opt_author(self.author),
        }
    }
}

/// The part of an envelope's header that is read here. A kind that is not known is none.
pub struct Header {
    pub tree_id: Vec<u8>,
    pub key_id: Vec<u8>,
    pub kind: Option<Kind>,
    pub ciphertext_hash: Vec<u8>,
    pub covers_through_seq: u64,
}

/// An envelope: its header, where it has one, and its bytes on the wire.
pub struct Envelope {
    pub header: Option<Header>,
    pub encoded: Vec<u8>,
}

/// A sealing session for one key of one tree.
pub struct Sealer {
    pub version: u32,
    pub dek: Key32,
    pub aead: Aead,
    pub tree_id: Vec<u8>,
    pub key_id: Vec<u8>,
    pub replica_id: Vec<u8>,
    pub author: Option<Author>,
}

/// What a session holds.
#[verifier::ext_equal]
pub struct SealerModel {
    pub version: u32,
    pub dek: Seq<u8>,
    pub aead: Aead,
    pub tree_id: Seq<u8>,
    pub key_id: Seq<u8>,
    pub replica_id: Seq<u8>,
    pub author: Option<AuthorModel>,
}

impl View for Sealer {
    type V = SealerModel;

    open spec fn view(&self) -> SealerModel {
        SealerModel {
            version: self.version,
            dek: self.dek@,
            aead: self.aead,
            tree_id: self.tree_id@,
            key_id: self.key_id@,
            replica_id: self.replica_id@,
            author: opt_author(self.author),
        }
    }
}

/// A session without an author, under the default cipher.
pub open spec fn session(version: u32, dek: Seq<u8>, tree_id: Seq<u8>, key_id: Seq<u8>, replica_id: Seq<u8>) -> SealerModel {
    SealerModel { version, dek, aead: Aead::Xchacha20Poly1305, tree_id, key_id, replica_id, author: None }
}

/// What a session hands to the cipher for an entry.
pub open spec fn params_for(s: SealerModel, ctx: ContextModel) -> ParamsModel {
    ParamsModel {
        version: s.version,
        kind: ctx.kind.kind(),
        format: ctx.format,
        aead: s.aead,
        compression: ctx.compression,
        key_id: s.key_id,
        tree_id: s.tree_id,
        replica_id: s.replica_id,
        replica_counter: ctx.replica_counter,
        prev_ciphertext_hash: ctx.prev_ciphertext_hash,
        covers_through_seq: ctx.covers_through_seq,
        blob_id: ctx.blob_id,
        author: s.author,
    }
}

/// What came of sealing, by what the cipher said.
pub open spec fn sealed(said: Result<Envelope, String>, r: Result<SealOutcome, SealerError>) -> bool {
    match said {
        Err(e) => r == Err::<SealOutcome, SealerError>(SealerError::Crypto(e)),
        Ok(env) => match env.header {
            None => r == Err::<SealOutcome, SealerError>(SealerError::NoHeader),
            Some(h) => r matches Ok(out) && out.envelope@ == env.encoded@ && out.ciphertext_hash@ == h.ciphertext_hash@,
        },
    }
}

/// The cipher was asked to seal the plaintext under this key and these parameters, and said this.
pub open spec fn sealing<C: Fn(&Key32, &SealParams, &Vec<u8>) -> Result<Envelope, String>>(
    cipher: C,
    dek: Seq<u8>,
    params: ParamsModel,
    plaintext: Vec<u8>,
    said: Result<Envelope, String>,
) -> bool {
    exists|k: Key32, p: SealParams| #[trigger] cipher.ensures((&k, &p, &plaintext), said) && k@ == dek && p@ == params
}

/// Why a session does not open an envelope of this header, where it does not.
pub open spec fn refusal(tree_id: Seq<u8>, key_id: Seq<u8>, expect: EntryKind, h: Header) -> Option<SealerError> {
    if h.tree_id@ != tree_id || h.key_id@ != key_id {
        Some(SealerError::WrongScope)
    } else if !(h.kind matches Some(k) && entry_of(k) == Some(expect)) {
        Some(SealerError::WrongKind)
    } else {
        None
    }
}

/// What came of opening, by what the envelope was and what the cipher said of it under a key.
pub open spec fn opened<C: Fn(&Key32, &Envelope) -> Result<Vec<u8>, String>>(
    cipher: C,
    dek: Seq<u8>,
    env: Envelope,
    r: Result<Vec<u8>, SealerError>,
) -> bool {
    exists|k: Key32, said: Result<Vec<u8>, String>| #[trigger]
        cipher.ensures((&k, &env), said) && k@ == dek && match said {
            Ok(p) => r == Ok::<Vec<u8>, SealerError>(p),
            Err(e) => r == Err::<Vec<u8>, SealerError>(SealerError::Crypto(e)),
        }
}

/// What comes of an envelope that was decoded, at a session.
pub open spec fn answered<C: Fn(&Key32, &Envelope) -> Result<Vec<u8>, String>>(
    s: SealerModel,
    cipher: C,
    expect: EntryKind,
    env: Envelope,
    r: Result<Vec<u8>, SealerError>,
) -> bool {
    match env.header {
        None => r == Err::<Vec<u8>, SealerError>(SealerError::NoHeader),
        Some(h) => match refusal(s.tree_id, s.key_id, expect, h) {
            Some(e) => r == Err::<Vec<u8>, SealerError>(e),
            None => opened(cipher, s.dek, env, r),
        },
    }
}

impl Sealer {
    /// A session for a key that was already unwrapped.
    pub fn from_unwrapped(version: u32, dek: Key32, tree_id: Vec<u8>, key_id: Vec<u8>, replica_id: Vec<u8>) -> (r: Sealer)
        ensures
            r@ == session(version, dek@, tree_id@, key_id@, replica_id@),
    {
        Sealer { version, dek, aead: Aead::Xchacha20Poly1305, tree_id, key_id, replica_id, author: None }
    }

    /// The session, with an author who signs its entries.
    pub fn with_author(self, signing_key: [u8; 32], member_id: String, governing_ref: Vec<u8>) -> (r: Sealer)
        ensures
            r@ == (SealerModel {
                author: Some(AuthorModel { signing_key: signing_key@, member_id: member_id@, governing_ref: governing_ref@ }),
                ..self@
            }),
    {
        let mut s = self;
        s.set_author(signing_key, member_id, governing_ref);
        s
    }

    /// Sets the author who signs this session's entries.
    pub fn set_author(&mut self, signing_key: [u8; 32], member_id: String, governing_ref: Vec<u8>)
        ensures
            final(self)@ == (SealerModel {
                author: Some(AuthorModel { signing_key: signing_key@, member_id: member_id@, governing_ref: governing_ref@ }),
                ..old(self)@
            }),
    {
        self.author = Some(Author { signing_key, member_id, governing_ref });
    }

    /// The session, under another cipher.
    pub fn with_aead(self, aead: Aead) -> (r: Sealer)
        ensures
            r@ == (SealerModel { aead, ..self@ }),
    {
        let mut s = self;
        s.aead = aead;
        s
    }

    /// The tree of this session.
    pub fn tree_id(&self) -> (r: &Vec<u8>)
        ensures
            r@ == self@.tree_id,
    {
        &self.tree_id
    }

    /// The key of this session.
    pub fn key_id(&self) -> (r: &Vec<u8>)
        ensures
            r@ == self@.key_id,
    {
        &self.key_id
    }

    /// What the cipher is handed for an entry.
    pub fn params(&self, ctx: &SealContext) -> (r: SealParams)
        ensures
            r@ == params_for(self@, ctx@),
    {
        SealParams {
            version: self.version,
            kind: ctx.kind.to_proto(),
            format: ctx.format,
            aead: self.aead,
            compression: ctx.compression,
            key_id: copy_bytes(&self.key_id),
            tree_id: copy_bytes(&self.tree_id),
            replica_id: copy_bytes(&self.replica_id),
            replica_counter: ctx.replica_counter,
            prev_ciphertext_hash: copy_bytes(&ctx.prev_ciphertext_hash),
            covers_through_seq: ctx.covers_through_seq,
            blob_id: copy_bytes(&ctx.blob_id),
            author: match &self.author {
                Some(a) => Some(a.duplicate()),
                None => None,
            },
        }
    }

    /// Seals an entry.
    pub fn seal_entry<C: Fn(&Key32, &SealParams, &Vec<u8>) -> Result<Envelope, String>>(
        &self,
        ctx: &SealContext,
        plaintext: &Vec<u8>,
        cipher: &C,
    ) -> (r: Result<SealOutcome, SealerError>)
        requires
            forall|k: Key32, p: SealParams| cipher.requires((&k, &p, plaintext)),
        ensures
            exists|said: Result<Envelope, String>| #[trigger]
                sealing(*cipher, self@.dek, params_for(self@, ctx@), *plaintext, said) && sealed(said, r),
    {
        let params: SealParams = self.params(ctx);
        let said: Result<Envelope, String> = cipher(&self.dek, &params, plaintext);
        assert(cipher.ensures((&self.dek, &params, plaintext), said));
        assert(sealing(*cipher, self@.dek, params_for(self@, ctx@), *plaintext, said));
        match said {
            Err(e) => Err(SealerError::Crypto(e)),
            Ok(env) => match env.header {
                None => Err(SealerError::NoHeader),
                Some(h) => Ok(SealOutcome { envelope: env.encoded, ciphertext_hash: h.ciphertext_hash }),
            },
        }
    }

    fn check_scope(&self, header: &Header) -> (r: Result<(), SealerError>)
        ensures
            r == if header.tree_id@ != self@.tree_id || header.key_id@ != self@.key_id {
                Err::<(), SealerError>(SealerError::WrongScope)
            } else {
                Ok(())
            },
    {
        if !bytes_equal(&header.tree_id, &self.tree_id) || !bytes_equal(&header.key_id, &self.key_id) {
            return Err(SealerError::WrongScope);
        }
        Ok(())
    }

    /// Opens an envelope that was decoded: it has to be for this session's tree and key, and of the kind that is expected.
    pub fn open_decoded<C: Fn(&Key32, &Envelope) -> Result<Vec<u8>, String>>(
        &self,
        expect: EntryKind,
        env: &Envelope,
        cipher: &C,
    ) -> (r: Result<Vec<u8>, SealerError>)
        requires
            forall|k: Key32| cipher.requires((&k, env)),
        ensures
            answered(self@, *cipher, expect, *env, r),
    {
        match &env.header {
            None => Err(SealerError::NoHeader),
            Some(h) => {
                if let Err(e) = self.check_scope(h) {
                    return Err(e);
                }
                let fits = match h.kind {
                    Some(k) => match EntryKind::from_proto(k) {
                        Some(found) => found == expect,
                        None => false,
                    },
                    None => false,
                };
                if !fits {
                    return Err(SealerError::WrongKind);
                }
                let said: Result<Vec<u8>, String> = cipher(&self.dek, env);
                assert(cipher.ensures((&self.dek, env), said));
                match said {
                    Ok(p) => Ok(p),
                    Err(e) => Err(SealerError::Crypto(e)),
                }
            },
        }
    }

    /// Opens an envelope.
    pub fn open_entry<
        D: Fn(&Vec<u8>) -> Result<Envelope, String>,
        C: Fn(&Key32, &Envelope) -> Result<Vec<u8>, String>,
    >(&self, expect: EntryKind, envelope_bytes: &Vec<u8>, decode: &D, cipher: &C) -> (r: Result<Vec<u8>, SealerError>)
        requires
            decode.requires((envelope_bytes,)),
            forall|k: Key32, e: Envelope| cipher.requires((&k, &e)),
        ensures
            exists|said: Result<Envelope, String>| #[trigger]
                decode.ensures((envelope_bytes,), said) && match said {
                    Err(e) => r == Err::<Vec<u8>, SealerError>(SealerError::Decode(e)),
                    Ok(env) => answered(self@, *cipher, expect, env, r),
                },
    {
        let said: Result<Envelope, String> = decode(envelope_bytes);
        match said {
            Err(e) => Err(SealerError::Decode(e)),
            Ok(env) => self.open_decoded(expect, &env, cipher),
        }
    }
}

/// Sessions for all the epochs that can be reached. New entries are sealed under the write epoch.
pub struct SealerSet {
    pub tree_id: Vec<u8>,
    pub write_key_id: Vec<u8>,
    pub sealers: Vec<Sealer>,
}

/// What a set of sessions holds.
#[verifier::ext_equal]
pub struct SetModel {
    pub tree_id: Seq<u8>,
    pub write_key_id: Seq<u8>,
    pub sealers: Seq<SealerModel>,
}

/// What the sessions hold.
pub open spec fn sealer_models(s: Seq<Sealer>) -> Seq<SealerModel> {
    Seq::new(s.len(), |i: int| s[i]@)
}

impl View for SealerSet {
    type V = SetModel;

    open spec fn view(&self) -> SetModel {
        SetModel { tree_id: self.tree_id@, write_key_id: self.write_key_id@, sealers: sealer_models(self.sealers@) }
    }
}

/// Where the first session for this key stands; past the end where there is none.
pub open spec fn place_of(s: Seq<SealerModel>, key_id: Seq<u8>) -> int
    decreases s.len(),
{
    if s.len() == 0 {
        0
    } else if s[0].key_id == key_id {
        0
    } else {
        1 + place_of(s.drop_first(), key_id)
    }
}

/// Some session is for this key.
pub open spec fn holds(s: Seq<SealerModel>, key_id: Seq<u8>) -> bool {
    exists|i: int| 0 <= i < s.len() && (#[trigger] s[i]).key_id == key_id
}

/// Where the first session for a key stands.
pub proof fn place_is_first(s: Seq<SealerModel>, key_id: Seq<u8>)
    ensures
        0 <= place_of(s, key_id) <= s.len(),
        place_of(s, key_id) < s.len() <==> holds(s, key_id),
        place_of(s, key_id) < s.len() ==> s[place_of(s, key_id)].key_id == key_id,
        forall|i: int| 0 <= i < place_of(s, key_id) ==> (#[trigger] s[i]).key_id != key_id,
    decreases s.len(),
{
    if s.len() > 0 {
        let r = s.drop_first();
        place_is_first(r, key_id);
        if s[0].key_id != key_id {
            assert forall|i: int| 0 <= i < place_of(s, key_id) implies (#[trigger] s[i]).key_id != key_id by {
                if i > 0 {
                    assert(r[i - 1] == s[i]);
                }
            }
            if holds(s, key_id) {
                let i = choose|i: int| 0 <= i < s.len() && (#[trigger] s[i]).key_id == key_id;
                assert(r[i - 1].key_id == key_id);
            }
            if holds(r, key_id) {
                assert(s[place_of(r, key_id) + 1] == r[place_of(r, key_id)]);
            }
        }
    }
}

/// The sessions, with the author of the first one for this key set.
pub open spec fn attributed(s: Seq<SealerModel>, key_id: Seq<u8>, author: Option<AuthorModel>) -> Seq<SealerModel> {
    if holds(s, key_id) {
        s.update(place_of(s, key_id), SealerModel { author, ..s[place_of(s, key_id)] })
    } else {
        s
    }
}

/// The author of the first session for this key.
pub open spec fn author_at(s: Seq<SealerModel>, key_id: Seq<u8>) -> Option<AuthorModel> {
    if holds(s, key_id) {
        s[place_of(s, key_id)].author
    } else {
        None
    }
}

/// The sessions, with one for each epoch that was not held.
pub open spec fn spliced(
    s: Seq<SealerModel>,
    version: u32,
    epochs: Seq<(Seq<u8>, Seq<u8>)>,
    tree_id: Seq<u8>,
    replica_id: Seq<u8>,
) -> Seq<SealerModel>
    decreases epochs.len(),
{
    if epochs.len() == 0 {
        s
    } else {
        let before = spliced(s, version, epochs.drop_last(), tree_id, replica_id);
        if holds(before, epochs.last().0) {
            before
        } else {
            before.push(session(version, epochs.last().1, tree_id, epochs.last().0, replica_id))
        }
    }
}

/// What a list of epochs holds: each key id with its key.
pub open spec fn epoch_models(s: Seq<(Vec<u8>, Key32)>) -> Seq<(Seq<u8>, Seq<u8>)> {
    Seq::new(s.len(), |i: int| (s[i].0@, s[i].1@))
}

/// The set once it adopted some epochs: the new ones are added, the write epoch moves, and the author moves along with the
/// keyring head that they now go by.
pub open spec fn adopted(
    t: SetModel,
    version: u32,
    epochs: Seq<(Seq<u8>, Seq<u8>)>,
    write_key_id: Seq<u8>,
    governing_ref: Seq<u8>,
) -> SetModel {
    let replica_id = if t.sealers.len() == 0 {
        Seq::empty()
    } else {
        t.sealers[0].replica_id
    };
    let author = author_at(t.sealers, t.write_key_id);
    let grown = spliced(attributed(t.sealers, t.write_key_id, None), version, epochs, t.tree_id, replica_id);
    SetModel {
        tree_id: t.tree_id,
        write_key_id,
        sealers: match author {
            Some(a) => attributed(grown, write_key_id, Some(AuthorModel { governing_ref, ..a })),
            None => grown,
        },
    }
}

/// Where the first session for this key stands; past the end where there is none.
fn find_sealer(sealers: &Vec<Sealer>, key_id: &Vec<u8>) -> (r: usize)
    ensures
        r == place_of(sealer_models(sealers@), key_id@),
        r < sealers@.len() <==> holds(sealer_models(sealers@), key_id@),
{
    let ghost s = sealer_models(sealers@);
    let mut i: usize = 0;
    proof {
        place_is_first(s, key_id@);
    }
    while i < sealers.len()
        invariant
            i <= sealers.len(),
            s == sealer_models(sealers@),
            forall|j: int| 0 <= j < i ==> (#[trigger] s[j]).key_id != key_id@,
            0 <= place_of(s, key_id@) <= s.len(),
            place_of(s, key_id@) < s.len() <==> holds(s, key_id@),
            place_of(s, key_id@) < s.len() ==> s[place_of(s, key_id@)].key_id == key_id@,
            forall|j: int| 0 <= j < place_of(s, key_id@) ==> (#[trigger] s[j]).key_id != key_id@,
        decreases sealers.len() - i,
    {
        assert(s[i as int] == sealers@[i as int]@);
        if bytes_equal(&sealers[i].key_id, key_id) {
            assert(holds(s, key_id@));
            return i;
        }
        i = i + 1;
    }
    i
}

/// Sets the author of the first session for this key.
fn attribute(sealers: &mut Vec<Sealer>, key_id: &Vec<u8>, author: Option<Author>)
    ensures
        sealer_models(final(sealers)@) == attributed(sealer_models(old(sealers)@), key_id@, opt_author(author)),
{
    let ghost before = sealer_models(sealers@);
    let at: usize = find_sealer(sealers, key_id);
    if at < sealers.len() {
        let ghost was = sealers@;
        sealers[at].author = author;
        proof {
            assert(sealer_models(sealers@) =~= attributed(before, key_id@, opt_author(author)));
        }
    } else {
        assert(sealer_models(sealers@) =~= attributed(before, key_id@, opt_author(author)));
    }
}

impl SealerSet {
    /// A set with a session for each epoch.
    pub fn new(version: u32, tree_id: Vec<u8>, replica_id: Vec<u8>, epochs: Vec<(Vec<u8>, Key32)>, write_key_id: Vec<u8>) -> (r: SealerSet)
        ensures
            r@ == (SetModel {
                tree_id: tree_id@,
                write_key_id: write_key_id@,
                sealers: epoch_models(epochs@).map_values(
                    |e: (Seq<u8>, Seq<u8>)| session(version, e.1, tree_id@, e.0, replica_id@),
                ),
            }),
    {
        let mut sealers: Vec<Sealer> = Vec::new();
        let mut i: usize = 0;
        while i < epochs.len()
            invariant
                i <= epochs.len(),
                sealers@.len() == i,
                forall|j: int|
                    0 <= j < i ==> (#[trigger] sealers@[j])@ == session(
                        version,
                        epochs@[j].1@,
                        tree_id@,
                        epochs@[j].0@,
                        replica_id@,
                    ),
            decreases epochs.len() - i,
        {
            sealers.push(
                Sealer::from_unwrapped(
                    version,
                    epochs[i].1,
                    copy_bytes(&tree_id),
                    copy_bytes(&epochs[i].0),
                    copy_bytes(&replica_id),
                ),
            );
            i = i + 1;
        }
        let r = SealerSet { tree_id, write_key_id, sealers };
        assert(r@.sealers =~= epoch_models(epochs@).map_values(
            |e: (Seq<u8>, Seq<u8>)| session(version, e.1, tree_id@, e.0, replica_id@),
        ));
        r
    }

    /// The set, with an author who signs what is sealed under the write epoch.
    pub fn with_author(self, signing_key: [u8; 32], member_id: String, governing_ref: Vec<u8>) -> (r: SealerSet)
        ensures
            r@ == (SetModel {
                sealers: attributed(
                    self@.sealers,
                    self@.write_key_id,
                    Some(AuthorModel { signing_key: signing_key@, member_id: member_id@, governing_ref: governing_ref@ }),
                ),
                ..self@
            }),
    {
        let mut s = self;
        let write: Vec<u8> = copy_bytes(&s.write_key_id);
        attribute(&mut s.sealers, &write, Some(Author { signing_key, member_id, governing_ref }));
        s
    }

    /// Takes the author of the write epoch's session away.
    fn take_author(&mut self) -> (r: Option<Author>)
        ensures
            opt_author(r) == author_at(old(self)@.sealers, old(self)@.write_key_id),
            final(self)@ == (SetModel {
                sealers: attributed(old(self)@.sealers, old(self)@.write_key_id, None),
                ..old(self)@
            }),
    {
        let at: usize = find_sealer(&self.sealers, &self.write_key_id);
        let r: Option<Author> = if at < self.sealers.len() {
            match &self.sealers[at].author {
                Some(a) => Some(a.duplicate()),
                None => None,
            }
        } else {
            None
        };
        let write: Vec<u8> = copy_bytes(&self.write_key_id);
        attribute(&mut self.sealers, &write, None);
        r
    }

    /// Adopts newly reachable epochs after a rotation. Gives how many of them were new.
    pub fn adopt_epochs(
        &mut self,
        version: u32,
        epochs: Vec<(Vec<u8>, Key32)>,
        write_key_id: Vec<u8>,
        governing_ref: Vec<u8>,
    ) -> (r: usize)
        ensures
            final(self)@ == adopted(old(self)@, version, epoch_models(epochs@), write_key_id@, governing_ref@),
            r == final(self)@.sealers.len() - old(self)@.sealers.len(),
    {
        let ghost start = self@;
        let ghost all = epoch_models(epochs@);
        let replica_id: Vec<u8> = if self.sealers.len() == 0 {
            Vec::new()
        } else {
            copy_bytes(&self.sealers[0].replica_id)
        };
        let ghost replica = if start.sealers.len() == 0 {
            Seq::empty()
        } else {
            start.sealers[0].replica_id
        };
        assert(replica_id@ =~= replica);
        let author: Option<Author> = self.take_author();
        let ghost bare_set = attributed(start.sealers, start.write_key_id, None);
        proof {
            attributing_keeps_keys(start.sealers, start.write_key_id, None);
            assert(self.sealers@.len() == self@.sealers.len());
        }
        let mut added: usize = 0;
        let mut i: usize = 0;
        assert(all.take(0) =~= Seq::empty());
        while i < epochs.len()
            invariant
                i <= epochs.len(),
                added <= i,
                all == epoch_models(epochs@),
                replica_id@ == replica,
                self.tree_id@ == start.tree_id,
                self.write_key_id@ == start.write_key_id,
                sealer_models(self.sealers@) == spliced(bare_set, version, all.take(i as int), start.tree_id, replica),
                self.sealers@.len() == start.sealers.len() + added,
            decreases epochs.len() - i,
        {
            let ghost before = sealer_models(self.sealers@);
            proof {
                assert(all.take(i + 1).drop_last() =~= all.take(i as int));
                assert(all.take(i + 1).last() == all[i as int]);
            }
            let at: usize = find_sealer(&self.sealers, &epochs[i].0);
            if at >= self.sealers.len() {
                let s: Sealer = Sealer::from_unwrapped(
                    version,
                    epochs[i].1,
                    copy_bytes(&self.tree_id),
                    copy_bytes(&epochs[i].0),
                    copy_bytes(&replica_id),
                );
                let ghost m = s@;
                self.sealers.push(s);
                assert(sealer_models(self.sealers@) =~= before.push(m));
                added = added + 1;
            }
            i = i + 1;
        }
        assert(all.take(i as int) =~= all);
        self.write_key_id = write_key_id;
        let ghost grown = sealer_models(self.sealers@);
        if let Some(a) = author {
            let moved = Author { signing_key: a.signing_key, member_id: a.member_id, governing_ref };
            let ghost signer = moved@;
            attribute(&mut self.sealers, &self.write_key_id, Some(moved));
            proof {
                attributing_keeps_keys(grown, write_key_id@, Some(signer));
            }
        }
        assert(self@ =~= adopted(start, version, all, write_key_id@, governing_ref@));
        added
    }

    /// A set of one epoch.
    pub fn single(sealer: Sealer) -> (r: SealerSet)
        ensures
            r@ == (SetModel { tree_id: sealer@.tree_id, write_key_id: sealer@.key_id, sealers: seq![sealer@] }),
    {
        let ghost m = sealer@;
        let tree_id: Vec<u8> = copy_bytes(&sealer.tree_id);
        let write_key_id: Vec<u8> = copy_bytes(&sealer.key_id);
        let mut sealers: Vec<Sealer> = Vec::new();
        sealers.push(sealer);
        let r = SealerSet { tree_id, write_key_id, sealers };
        assert(r@.sealers =~= seq![m]);
        r
    }

    /// The tree of this set.
    pub fn tree_id(&self) -> (r: &Vec<u8>)
        ensures
            r@ == self@.tree_id,
    {
        &self.tree_id
    }

    /// Seals an entry under the write epoch.
    pub fn seal_entry<C: Fn(&Key32, &SealParams, &Vec<u8>) -> Result<Envelope, String>>(
        &self,
        ctx: &SealContext,
        plaintext: &Vec<u8>,
        cipher: &C,
    ) -> (r: Result<SealOutcome, SealerError>)
        requires
            forall|k: Key32, p: SealParams| cipher.requires((&k, &p, plaintext)),
        ensures
            !holds(self@.sealers, self@.write_key_id) ==> r == Err::<SealOutcome, SealerError>(SealerError::EpochUnreachable),
            holds(self@.sealers, self@.write_key_id) ==> exists|said: Result<Envelope, String>| #[trigger]
                sealing(
                    *cipher,
                    self@.sealers[place_of(self@.sealers, self@.write_key_id)].dek,
                    params_for(self@.sealers[place_of(self@.sealers, self@.write_key_id)], ctx@),
                    *plaintext,
                    said,
                ) && sealed(said, r),
    {
        let at: usize = find_sealer(&self.sealers, &self.write_key_id);
        if at >= self.sealers.len() {
            return Err(SealerError::EpochUnreachable);
        }
        assert(self@.sealers[at as int] == self.sealers@[at as int]@);
        self.sealers[at].seal_entry(ctx, plaintext, cipher)
    }

    /// Opens an envelope with the session of its epoch.
    pub fn open_entry<
        D: Fn(&Vec<u8>) -> Result<Envelope, String>,
        C: Fn(&Key32, &Envelope) -> Result<Vec<u8>, String>,
    >(&self, expect: EntryKind, envelope_bytes: &Vec<u8>, decode: &D, cipher: &C) -> (r: Result<Vec<u8>, SealerError>)
        requires
            decode.requires((envelope_bytes,)),
            forall|k: Key32, e: Envelope| cipher.requires((&k, &e)),
        ensures
            exists|said: Result<Envelope, String>| #[trigger]
                decode.ensures((envelope_bytes,), said) && match said {
                    Err(e) => r == Err::<Vec<u8>, SealerError>(SealerError::Decode(e)),
                    Ok(env) => routed(self@, *cipher, expect, env, r),
                },
    {
        let said: Result<Envelope, String> = decode(envelope_bytes);
        match said {
            Err(e) => Err(SealerError::Decode(e)),
            Ok(env) => self.open_decoded(expect, &env, cipher),
        }
    }

    /// Opens an envelope that was decoded with the session of its epoch.
    pub fn open_decoded<C: Fn(&Key32, &Envelope) -> Result<Vec<u8>, String>>(
        &self,
        expect: EntryKind,
        env: &Envelope,
        cipher: &C,
    ) -> (r: Result<Vec<u8>, SealerError>)
        requires
            forall|k: Key32| cipher.requires((&k, env)),
        ensures
            routed(self@, *cipher, expect, *env, r),
    {
        match &env.header {
            None => Err(SealerError::NoHeader),
            Some(h) => {
                if !bytes_equal(&h.tree_id, &self.tree_id) {
                    return Err(SealerError::WrongScope);
                }
                let at: usize = find_sealer(&self.sealers, &h.key_id);
                if at >= self.sealers.len() {
                    return Err(SealerError::EpochUnreachable);
                }
                assert(self@.sealers[at as int] == self.sealers@[at as int]@);
                self.sealers[at].open_decoded(expect, env, cipher)
            },
        }
    }
}

/// What comes of an envelope that was decoded, at a set of sessions: another tree's is refused, one of an epoch that is not
/// held is out of reach, and any other goes to the first session for its epoch.
pub open spec fn routed<C: Fn(&Key32, &Envelope) -> Result<Vec<u8>, String>>(
    t: SetModel,
    cipher: C,
    expect: EntryKind,
    env: Envelope,
    r: Result<Vec<u8>, SealerError>,
) -> bool {
    match env.header {
        None => r == Err::<Vec<u8>, SealerError>(SealerError::NoHeader),
        Some(h) => if h.tree_id@ != t.tree_id {
            r == Err::<Vec<u8>, SealerError>(SealerError::WrongScope)
        } else if !holds(t.sealers, h.key_id@) {
            r == Err::<Vec<u8>, SealerError>(SealerError::EpochUnreachable)
        } else {
            answered(t.sealers[place_of(t.sealers, h.key_id@)], cipher, expect, env, r)
        },
    }
}

/// A kind is told and read back; and only the unspecified one stands for none.
pub proof fn kinds_round_trip(e: EntryKind, k: Kind)
    ensures
        entry_of(e.kind()) == Some(e),
        entry_of(k) is None <==> k == Kind::Unspecified,
        entry_of(k) matches Some(x) ==> x.kind() == k,
{
}

/// Kinds do not mix: what is told under one kind is refused under any other.
pub proof fn kinds_are_apart(s: SealerModel, sealed_as: EntryKind, expect: EntryKind, h: Header)
    requires
        h.tree_id@ == s.tree_id,
        h.key_id@ == s.key_id,
        h.kind == Some(sealed_as.kind()),
    ensures
        refusal(s.tree_id, s.key_id, expect, h) == if sealed_as == expect {
            None::<SealerError>
        } else {
            Some(SealerError::WrongKind)
        },
{
    kinds_round_trip(sealed_as, Kind::Unspecified);
}

/// What is held stays held, and stays where it stands.
proof fn splicing_keeps(
    s: Seq<SealerModel>,
    version: u32,
    epochs: Seq<(Seq<u8>, Seq<u8>)>,
    tree_id: Seq<u8>,
    replica_id: Seq<u8>,
)
    ensures
        s.len() <= spliced(s, version, epochs, tree_id, replica_id).len(),
        forall|i: int| 0 <= i < s.len() ==> #[trigger] spliced(s, version, epochs, tree_id, replica_id)[i] == s[i],
        forall|i: int| 0 <= i < epochs.len() ==> holds(spliced(s, version, epochs, tree_id, replica_id), (#[trigger] epochs[i]).0),
    decreases epochs.len(),
{
    if epochs.len() > 0 {
        let e = epochs.drop_last();
        let before = spliced(s, version, e, tree_id, replica_id);
        let after = spliced(s, version, epochs, tree_id, replica_id);
        splicing_keeps(s, version, e, tree_id, replica_id);
        assert forall|i: int| 0 <= i < epochs.len() implies holds(after, (#[trigger] epochs[i]).0) by {
            if i < e.len() {
                assert(e[i] == epochs[i]);
                let k = choose|k: int| 0 <= k < before.len() && (#[trigger] before[k]).key_id == e[i].0;
                assert(after[k] == before[k]);
            } else if !holds(before, epochs.last().0) {
                assert(after[before.len() as int].key_id == epochs[i].0);
            }
        }
    }
}

proof fn splicing_keeps_the_tree(
    s: Seq<SealerModel>,
    version: u32,
    epochs: Seq<(Seq<u8>, Seq<u8>)>,
    tree_id: Seq<u8>,
    replica_id: Seq<u8>,
)
    requires
        forall|i: int| 0 <= i < s.len() ==> (#[trigger] s[i]).tree_id == tree_id,
    ensures
        forall|i: int|
            0 <= i < spliced(s, version, epochs, tree_id, replica_id).len() ==> (#[trigger] spliced(
                s,
                version,
                epochs,
                tree_id,
                replica_id,
            )[i]).tree_id == tree_id,
    decreases epochs.len(),
{
    if epochs.len() > 0 {
        splicing_keeps_the_tree(s, version, epochs.drop_last(), tree_id, replica_id);
    }
}

proof fn splicing_held_adds_nothing(
    s: Seq<SealerModel>,
    version: u32,
    epochs: Seq<(Seq<u8>, Seq<u8>)>,
    tree_id: Seq<u8>,
    replica_id: Seq<u8>,
)
    requires
        forall|i: int| 0 <= i < epochs.len() ==> holds(s, (#[trigger] epochs[i]).0),
    ensures
        spliced(s, version, epochs, tree_id, replica_id) == s,
    decreases epochs.len(),
{
    if epochs.len() > 0 {
        let e = epochs.drop_last();
        assert forall|i: int| 0 <= i < e.len() implies holds(s, (#[trigger] e[i]).0) by {
            assert(e[i] == epochs[i]);
        }
        splicing_held_adds_nothing(s, version, e, tree_id, replica_id);
        assert(holds(s, epochs[epochs.len() - 1].0));
    }
}

proof fn attributing_keeps_keys(s: Seq<SealerModel>, key_id: Seq<u8>, author: Option<AuthorModel>)
    ensures
        attributed(s, key_id, author).len() == s.len(),
        forall|i: int| 0 <= i < s.len() ==> (#[trigger] attributed(s, key_id, author)[i]).key_id == s[i].key_id,
        forall|k: Seq<u8>| #[trigger] holds(attributed(s, key_id, author), k) == holds(s, k),
{
    place_is_first(s, key_id);
    let a = attributed(s, key_id, author);
    assert forall|k: Seq<u8>| #[trigger] holds(a, k) == holds(s, k) by {
        if holds(a, k) {
            let i = choose|i: int| 0 <= i < a.len() && (#[trigger] a[i]).key_id == k;
            assert(s[i].key_id == k);
        }
        if holds(s, k) {
            let i = choose|i: int| 0 <= i < s.len() && (#[trigger] s[i]).key_id == k;
            assert(a[i].key_id == k);
        }
    }
}

/// Adopting epochs puts their keys within reach, and keeps every key that was; and where the new write epoch is in reach,
/// what is sealed from then on is signed by the same author, who goes by the new keyring head.
pub proof fn adoption_moves_the_author(
    t: SetModel,
    version: u32,
    epochs: Seq<(Seq<u8>, Seq<u8>)>,
    write_key_id: Seq<u8>,
    governing_ref: Seq<u8>,
)
    ensures
        ({
            let after = adopted(t, version, epochs, write_key_id, governing_ref);
            &&& after.write_key_id == write_key_id
            &&& forall|k: Seq<u8>| #[trigger] holds(t.sealers, k) ==> holds(after.sealers, k)
            &&& forall|i: int| 0 <= i < epochs.len() ==> holds(after.sealers, (#[trigger] epochs[i]).0)
            &&& holds(after.sealers, write_key_id) ==> (author_at(t.sealers, t.write_key_id) matches Some(a) ==> author_at(
                after.sealers,
                write_key_id,
            ) == Some(AuthorModel { governing_ref, ..a }))
        }),
{
    let replica_id = if t.sealers.len() == 0 {
        Seq::empty()
    } else {
        t.sealers[0].replica_id
    };
    let bare_set = attributed(t.sealers, t.write_key_id, None);
    let grown = spliced(bare_set, version, epochs, t.tree_id, replica_id);
    let after = adopted(t, version, epochs, write_key_id, governing_ref);
    attributing_keeps_keys(t.sealers, t.write_key_id, None);
    splicing_keeps(bare_set, version, epochs, t.tree_id, replica_id);
    let author = author_at(t.sealers, t.write_key_id);
    let moved = match author {
        Some(a) => Some(AuthorModel { governing_ref, ..a }),
        None => None,
    };
    attributing_keeps_keys(grown, write_key_id, moved);
    assert forall|k: Seq<u8>| #[trigger] holds(t.sealers, k) implies holds(after.sealers, k) by {
        assert(holds(bare_set, k));
        let i = choose|i: int| 0 <= i < bare_set.len() && (#[trigger] bare_set[i]).key_id == k;
        assert(grown[i].key_id == k);
        assert(holds(grown, k));
    }
    place_is_first(grown, write_key_id);
    place_is_first(after.sealers, write_key_id);
    if author is Some && holds(after.sealers, write_key_id) {
        let p = place_of(grown, write_key_id);
        let q = place_of(after.sealers, write_key_id);
        assert(holds(grown, write_key_id));
        assert(after.sealers == attributed(grown, write_key_id, moved));
        if p < q {
            assert(after.sealers[p].key_id == grown[p].key_id);
        }
        if q < p {
            assert(after.sealers[q].key_id == grown[q].key_id);
        }
    }
}

/// Adopting again what is held adds nothing.
pub proof fn adoption_is_idempotent(
    t: SetModel,
    version: u32,
    epochs: Seq<(Seq<u8>, Seq<u8>)>,
    write_key_id: Seq<u8>,
    governing_ref: Seq<u8>,
    again: Seq<u8>,
)
    ensures
        ({
            let once = adopted(t, version, epochs, write_key_id, governing_ref);
            adopted(once, version, epochs, write_key_id, again).sealers.len() == once.sealers.len()
        }),
{
    let once = adopted(t, version, epochs, write_key_id, governing_ref);
    adoption_moves_the_author(t, version, epochs, write_key_id, governing_ref);
    attributing_keeps_keys(once.sealers, write_key_id, None);
    let bare_set = attributed(once.sealers, write_key_id, None);
    let replica_id = if once.sealers.len() == 0 {
        Seq::empty()
    } else {
        once.sealers[0].replica_id
    };
    assert forall|i: int| 0 <= i < epochs.len() implies holds(bare_set, (#[trigger] epochs[i]).0) by {
        assert(holds(once.sealers, epochs[i].0));
    }
    splicing_held_adds_nothing(bare_set, version, epochs, once.tree_id, replica_id);
    if let Some(a) = author_at(once.sealers, write_key_id) {
        attributing_keeps_keys(bare_set, write_key_id, Some(AuthorModel { governing_ref: again, ..a }));
    }
}

/// An envelope carries what it was sealed under.
pub open spec fn carries(env: Envelope, p: ParamsModel) -> bool {
    env.header matches Some(h) && h.tree_id@ == p.tree_id && h.key_id@ == p.key_id && h.kind == Some(p.kind)
}

/// Whatever the cipher answers of this envelope under this key, it is this text.
pub open spec fn opens_to<U: Fn(&Key32, &Envelope) -> Result<Vec<u8>, String>>(
    unlock: U,
    dek: Seq<u8>,
    env: Envelope,
    text: Seq<u8>,
) -> bool {
    forall|k: Key32, got: Result<Vec<u8>, String>|
        k@ == dek && #[trigger] unlock.ensures((&k, &env), got) ==> (got matches Ok(t) && t@ == text)
}

/// The cipher keeps its word: an envelope that it made is read from its bytes with what it was sealed under, and opens
/// under its key to what was sealed.
pub open spec fn faithful<
    L: Fn(&Key32, &SealParams, &Vec<u8>) -> Result<Envelope, String>,
    D: Fn(&Vec<u8>) -> Result<Envelope, String>,
    U: Fn(&Key32, &Envelope) -> Result<Vec<u8>, String>,
>(lock: L, read: D, unlock: U) -> bool {
    forall|k: Key32, p: SealParams, text: Vec<u8>, env: Envelope, bytes: Vec<u8>, said: Result<Envelope, String>|
        #[trigger] lock.ensures((&k, &p, &text), Ok::<Envelope, String>(env)) && bytes@ == env.encoded@
            && #[trigger] read.ensures((&bytes,), said) ==> (said matches Ok(e) && carries(e, p@) && opens_to(unlock, k@, e, text@))
}

/// Every session of the set is for its tree.
pub open spec fn of_one_tree(t: SetModel) -> bool {
    forall|i: int| 0 <= i < t.sealers.len() ==> (#[trigger] t.sealers[i]).tree_id == t.tree_id
}

/// The set holds this session's key for its tree.
pub open spec fn reaches(t: SetModel, s: SealerModel) -> bool {
    &&& t.tree_id == s.tree_id
    &&& holds(t.sealers, s.key_id)
    &&& t.sealers[place_of(t.sealers, s.key_id)].dek == s.dek
    &&& t.sealers[place_of(t.sealers, s.key_id)].tree_id == s.tree_id
}

/// Under a faithful cipher, what one session sealed opens, as the kind that it was sealed as, at every set that holds the
/// session's key.
pub proof fn what_is_sealed_opens<
    L: Fn(&Key32, &SealParams, &Vec<u8>) -> Result<Envelope, String>,
    D: Fn(&Vec<u8>) -> Result<Envelope, String>,
    U: Fn(&Key32, &Envelope) -> Result<Vec<u8>, String>,
>(
    lock: L,
    read: D,
    unlock: U,
    writer: SealerModel,
    ctx: ContextModel,
    plaintext: Vec<u8>,
    sealed_as: Result<Envelope, String>,
    out: SealOutcome,
    reader: SetModel,
    envelope: Vec<u8>,
    decoded: Result<Envelope, String>,
    r: Result<Vec<u8>, SealerError>,
)
    requires
        faithful(lock, read, unlock),
        reaches(reader, writer),
        sealing(lock, writer.dek, params_for(writer, ctx), plaintext, sealed_as),
        sealed(sealed_as, Ok(out)),
        envelope@ == out.envelope@,
        read.ensures((&envelope,), decoded),
        decoded matches Ok(env) ==> routed(reader, unlock, ctx.kind, env, r),
    ensures
        decoded is Ok,
        r matches Ok(p) && p@ == plaintext@,
{
    let (k, p) = choose|k: Key32, p: SealParams| #[trigger]
        lock.ensures((&k, &p, &plaintext), sealed_as) && k@ == writer.dek && p@ == params_for(writer, ctx);
    let made = sealed_as->Ok_0;
    assert(sealed_as == Ok::<Envelope, String>(made));
    assert(lock.ensures((&k, &p, &plaintext), Ok::<Envelope, String>(made)));
    assert(envelope@ == made.encoded@);
    let env = decoded->Ok_0;
    place_is_first(reader.sealers, writer.key_id);
    let s = reader.sealers[place_of(reader.sealers, writer.key_id)];
    kinds_are_apart(s, ctx.kind, ctx.kind, env.header->Some_0);
    assert(opened(unlock, s.dek, env, r));
}

/// Adopting epochs keeps a set to its tree, and keeps every session that was in reach: what was sealed before still opens.
pub proof fn adoption_keeps_what_is_reached(
    t: SetModel,
    version: u32,
    epochs: Seq<(Seq<u8>, Seq<u8>)>,
    write_key_id: Seq<u8>,
    governing_ref: Seq<u8>,
)
    requires
        of_one_tree(t),
    ensures
        of_one_tree(adopted(t, version, epochs, write_key_id, governing_ref)),
        forall|s: SealerModel| #[trigger] reaches(t, s) ==> reaches(adopted(t, version, epochs, write_key_id, governing_ref), s),
{
    let replica_id = if t.sealers.len() == 0 {
        Seq::empty()
    } else {
        t.sealers[0].replica_id
    };
    let bare_set = attributed(t.sealers, t.write_key_id, None);
    let grown = spliced(bare_set, version, epochs, t.tree_id, replica_id);
    let after = adopted(t, version, epochs, write_key_id, governing_ref);
    place_is_first(t.sealers, t.write_key_id);
    place_is_first(grown, write_key_id);
    splicing_keeps(bare_set, version, epochs, t.tree_id, replica_id);
    splicing_keeps_the_tree(bare_set, version, epochs, t.tree_id, replica_id);
    assert forall|i: int| 0 <= i < t.sealers.len() implies (#[trigger] after.sealers[i]).key_id == t.sealers[i].key_id
        && after.sealers[i].dek == t.sealers[i].dek && after.sealers[i].tree_id == t.sealers[i].tree_id by {
        assert(grown[i] == bare_set[i]);
    }
    assert forall|i: int| 0 <= i < after.sealers.len() implies (#[trigger] after.sealers[i]).tree_id == t.tree_id by {
        assert(grown[i].tree_id == t.tree_id);
    }
    assert forall|s: SealerModel| #[trigger] reaches(t, s) implies reaches(after, s) by {
        let p = place_of(t.sealers, s.key_id);
        let q = place_of(after.sealers, s.key_id);
        place_is_first(t.sealers, s.key_id);
        place_is_first(after.sealers, s.key_id);
        assert(after.sealers[p].key_id == s.key_id);
        assert(holds(after.sealers, s.key_id));
        if q < p {
            assert(after.sealers[q].key_id == t.sealers[q].key_id);
        }
        assert(p == q);
    }
}

} // verus!
