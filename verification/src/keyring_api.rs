//! The vocabulary that both keyring engines share: self-certifying member ids, the membership envelope, roles, the
//! resolved membership view, and the keyless verifier's seam.

use vstd::prelude::*;
use vstd::utf8::{encode_utf8, valid_utf8};

use crate::digest::{sha256, sha256_digest};
use crate::order::{bytes_equal, text_equal, text_less, Key};
use crate::protobuf::{
    delimited, delimited_read, delimited_reads_back, field_key_read, low_32, low_32_of, put_delimited, put_varint,
    pass_over, skipped, take_delimited, take_field_key, take_varint, text_of_utf8, varint, varint_read, varint_read_bounds,
    varint_reads_back,
};
use crate::sorted::ascending_unique;
use crate::sorting::{
    distinct_keys, distinct_sorting_is_strict, sorting_keeps_values, stable_sort, stable_sorting, Keyed,
};
use crate::text::{decimal, decimal_text, hex_of, push_hex};

verus! {

/// The first sixteen bytes of a digest, with the version and variant bits of a version-8 UUID.
pub open spec fn uuid8(d: Seq<u8>) -> Seq<u8> {
    d.take(16).update(6, (d[6] & 0x0f) | 0x80).update(8, (d[8] & 0x3f) | 0x80)
}

/// The canonical text of a UUID: lowercase hexadecimal in groups of 4, 2, 2, 2 and 6 bytes.
pub open spec fn uuid_text(b: Seq<u8>) -> Seq<char> {
    hex_of(b.subrange(0, 4)) + seq!['-'] + hex_of(b.subrange(4, 6)) + seq!['-'] + hex_of(b.subrange(6, 8)) + seq!['-']
        + hex_of(b.subrange(8, 10)) + seq!['-'] + hex_of(b.subrange(10, 16))
}

/// The member id that an author key certifies.
pub open spec fn member_id_of(author_pubkey: Seq<u8>) -> Seq<char> {
    uuid_text(uuid8(sha256_digest(author_pubkey)))
}

/// The canonical member id as bytes: a version-8 UUID over the SHA-256 digest of the author key. Whoever holds the
/// key can recompute it, so an id certifies its own key.
#[must_use]
pub fn derive_member_id_bytes(author_pubkey: &[u8]) -> (r: [u8; 16])
    ensures
        r@ == uuid8(sha256_digest(author_pubkey@)),
{
    let d: [u8; 32] = sha256(author_pubkey);
    let r: [u8; 16] = [
        d[0], d[1], d[2], d[3], d[4], d[5],
        (d[6] & 0x0f) | 0x80,
        d[7],
        (d[8] & 0x3f) | 0x80,
        d[9], d[10], d[11], d[12], d[13], d[14], d[15],
    ];
    assert(r@ =~= uuid8(d@));
    r
}

/// The canonical text of [`derive_member_id_bytes`].
#[must_use]
pub fn derive_member_id(author_pubkey: &[u8]) -> (r: String)
    ensures
        r@ == member_id_of(author_pubkey@),
{
    let b: [u8; 16] = derive_member_id_bytes(author_pubkey);
    let s = b.as_slice();
    let mut out: String = String::new();
    proof {
        reveal_strlit("-");
        assert("-"@ =~= seq!['-']);
    }
    push_hex(&mut out, vstd::slice::slice_subrange(s, 0, 4));
    out.append("-");
    push_hex(&mut out, vstd::slice::slice_subrange(s, 4, 6));
    out.append("-");
    push_hex(&mut out, vstd::slice::slice_subrange(s, 6, 8));
    out.append("-");
    push_hex(&mut out, vstd::slice::slice_subrange(s, 8, 10));
    out.append("-");
    push_hex(&mut out, vstd::slice::slice_subrange(s, 10, 16));
    assert(out@ =~= uuid_text(b@));
    out
}

/// Every derived id carries the version nibble 8 and the RFC 4122 variant.
pub proof fn derived_id_is_a_version_8_uuid(d: Seq<u8>)
    requires
        d.len() == 32,
    ensures
        uuid8(d).len() == 16,
        uuid8(d)[6] >> 4 == 8,
        uuid8(d)[8] >> 6 == 2,
{
    let a = d[6];
    let b = d[8];
    assert(((a & 0x0f) | 0x80) >> 4 == 8) by (bit_vector);
    assert(((b & 0x3f) | 0x80) >> 6 == 2) by (bit_vector);
}

/// Which keyring engine backs a tree.
#[derive(Clone, Copy, Debug, PartialEq, Eq, Hash, Structural)]
pub enum EngineKind {
    Chain,
    Dag,
}

/// The tag of an engine.
pub open spec fn engine_tag(kind: EngineKind) -> Seq<char> {
    match kind {
        EngineKind::Chain => "chain"@,
        EngineKind::Dag => "dag"@,
    }
}

/// The engine that a tag names.
pub open spec fn engine_of_tag(tag: Seq<char>) -> Option<EngineKind> {
    if tag == "chain"@ {
        Some(EngineKind::Chain)
    } else if tag == "dag"@ {
        Some(EngineKind::Dag)
    } else {
        None
    }
}

/// Each engine's tag names that engine, and no other tag names any.
pub proof fn engine_tags_round_trip(kind: EngineKind, tag: Seq<char>)
    ensures
        engine_of_tag(engine_tag(kind)) == Some(kind),
        engine_of_tag(tag) matches Some(k) ==> engine_tag(k) == tag,
{
    reveal_strlit("chain");
    reveal_strlit("dag");
    assert("chain"@.len() != "dag"@.len());
}

impl EngineKind {
    /// The canonical tag of this engine.
    #[must_use]
    pub fn as_tag(self) -> (r: &'static str)
        ensures
            r@ == engine_tag(self),
    {
        match self {
            EngineKind::Chain => "chain",
            EngineKind::Dag => "dag",
        }
    }

    /// The engine that `tag` names, or the offending tag.
    pub fn from_tag(tag: &str) -> (r: Result<EngineKind, UnknownEngine>)
        ensures
            match r {
                Ok(kind) => engine_of_tag(tag@) == Some(kind),
                Err(UnknownEngine(other)) => engine_of_tag(tag@) is None && other@ == tag@,
            },
    {
        if text_equal(tag, "chain") {
            Ok(EngineKind::Chain)
        } else if text_equal(tag, "dag") {
            Ok(EngineKind::Dag)
        } else {
            Err(UnknownEngine(tag.to_owned()))
        }
    }
}

impl std::str::FromStr for EngineKind {
    type Err = UnknownEngine;

    fn from_str(s: &str) -> Result<EngineKind, UnknownEngine> {
        EngineKind::from_tag(s)
    }
}

/// A tag that names no known engine.
#[derive(Clone, Debug, PartialEq, Eq)]
pub struct UnknownEngine(pub String);

impl UnknownEngine {
    /// What went wrong, in words.
    pub fn message(&self) -> (r: String)
        ensures
            r@ == "unknown keyring engine: "@ + self.0@,
    {
        crate::text::concat("unknown keyring engine: ", self.0.as_str())
    }
}

/// The current membership-envelope wire version.
pub const MEMBERSHIP_ENVELOPE_VERSION: u32 = 1;

/// The generic membership-update envelope: a version, the producing engine's tag, and an opaque body.
#[derive(Clone, Debug, PartialEq, Eq)]
pub struct MembershipEnvelope {
    pub version: u32,
    pub engine: String,
    pub body: Vec<u8>,
}

/// What an envelope holds.
pub struct EnvelopeModel {
    pub version: u32,
    pub engine: Seq<char>,
    pub body: Seq<u8>,
}

impl View for MembershipEnvelope {
    type V = EnvelopeModel;

    open spec fn view(&self) -> EnvelopeModel {
        EnvelopeModel { version: self.version, engine: self.engine@, body: self.body@ }
    }
}

/// The protobuf form of an envelope: fields 1, 2 and 3 in order, each left out at its default value.
pub open spec fn envelope_bytes(e: EnvelopeModel) -> Seq<u8> {
    version_field(e.version) + engine_field(e.engine) + body_field(e.body)
}

pub open spec fn version_field(version: u32) -> Seq<u8> {
    if version == 0 {
        Seq::empty()
    } else {
        seq![8u8] + varint(version as nat)
    }
}

pub open spec fn engine_field(engine: Seq<char>) -> Seq<u8> {
    if engine.len() == 0 {
        Seq::empty()
    } else {
        seq![18u8] + delimited(encode_utf8(engine))
    }
}

pub open spec fn body_field(body: Seq<u8>) -> Seq<u8> {
    if body.len() == 0 {
        Seq::empty()
    } else {
        seq![26u8] + delimited(body)
    }
}

/// Reads one field of an envelope into what the fields before it gave: the new value and how many bytes it took.
pub open spec fn envelope_field_read(b: Seq<u8>, e: EnvelopeModel) -> Option<(EnvelopeModel, nat)> {
    match field_key_read(b) {
        None => None,
        Some((tag, wire, used)) => {
            let rest = b.skip(used as int);
            if tag == 1 {
                match varint_read(rest, 0) {
                    Some((v, n)) if wire == 0 => Some((EnvelopeModel { version: low_32(v), ..e }, used + n)),
                    _ => None,
                }
            } else if tag == 2 {
                match delimited_read(rest) {
                    Some((v, n)) if wire == 2 && valid_utf8(v) => Some(
                        (EnvelopeModel { engine: vstd::utf8::decode_utf8(v), ..e }, used + n),
                    ),
                    _ => None,
                }
            } else if tag == 3 {
                match delimited_read(rest) {
                    Some((v, n)) if wire == 2 => Some((EnvelopeModel { body: v, ..e }, used + n)),
                    _ => None,
                }
            } else {
                match skipped(wire, tag, rest) {
                    Ok(n) => Some((e, used + n)),
                    Err(_) => None,
                }
            }
        },
    }
}

/// Reads the fields of an envelope until the bytes are used up; a later field replaces an earlier one.
pub open spec fn envelope_read(b: Seq<u8>, e: EnvelopeModel) -> Option<EnvelopeModel>
    decreases b.len(),
{
    if b.len() == 0 {
        Some(e)
    } else {
        match envelope_field_read(b, e) {
            Some((next, used)) => if 0 < used <= b.len() {
                envelope_read(b.skip(used as int), next)
            } else {
                None
            },
            None => None,
        }
    }
}

/// The envelope with every field at its default.
pub open spec fn default_envelope() -> EnvelopeModel {
    EnvelopeModel { version: 0, engine: Seq::empty(), body: Seq::empty() }
}

/// Reading an envelope's bytes gives back the envelope.
pub proof fn envelope_round_trips(e: EnvelopeModel)
    requires
        encode_utf8(e.engine).len() <= u64::MAX,
        e.body.len() <= u64::MAX,
    ensures
        envelope_read(envelope_bytes(e), default_envelope()) == Some(e),
{
    let d = default_envelope();
    let e1 = EnvelopeModel { version: e.version, ..d };
    let e2 = EnvelopeModel { engine: e.engine, ..e1 };
    let f1 = version_field(e.version);
    let f2 = engine_field(e.engine);
    let f3 = body_field(e.body);
    body_reads_back(e.body, e2);
    assert(EnvelopeModel { body: e.body, ..e2 } == e);
    engine_reads_back(e.engine, f3, e1);
    version_reads_back(e.version, f2 + f3, d);
    assert(envelope_bytes(e) =~= f1 + (f2 + f3));
}

proof fn body_reads_back(body: Seq<u8>, e: EnvelopeModel)
    requires
        body.len() <= u64::MAX,
        e.body == Seq::<u8>::empty(),
    ensures
        envelope_read(body_field(body), e) == Some(EnvelopeModel { body, ..e }),
{
    let f = body_field(body);
    if body.len() > 0 {
        key_reads_back(26, f, 3, 2);
        delimited_reads_back(body, Seq::empty());
        assert(f.skip(1) =~= delimited(body) + Seq::empty());
        assert(f.skip(f.len() as int) =~= Seq::<u8>::empty());
        assert(envelope_field_read(f, e) == Some((EnvelopeModel { body, ..e }, f.len())));
        assert(envelope_read(Seq::<u8>::empty(), EnvelopeModel { body, ..e }) == Some(EnvelopeModel { body, ..e }));
    } else {
        assert(body =~= Seq::<u8>::empty());
    }
}

proof fn engine_reads_back(engine: Seq<char>, rest: Seq<u8>, e: EnvelopeModel)
    requires
        encode_utf8(engine).len() <= u64::MAX,
        e.engine == Seq::<char>::empty(),
    ensures
        envelope_read(engine_field(engine) + rest, e) == envelope_read(rest, EnvelopeModel { engine, ..e }),
{
    let f = engine_field(engine);
    let all = f + rest;
    if engine.len() > 0 {
        let u = encode_utf8(engine);
        key_reads_back(18, all, 2, 2);
        delimited_reads_back(u, rest);
        assert(all.skip(1) =~= delimited(u) + rest);
        assert(all.skip(f.len() as int) =~= rest);
        vstd::utf8::encode_utf8_valid_utf8(engine);
        vstd::utf8::encode_utf8_decode_utf8(engine);
        assert(envelope_field_read(all, e) == Some((EnvelopeModel { engine, ..e }, f.len())));
    } else {
        assert(engine =~= Seq::<char>::empty());
        assert(all =~= rest);
    }
}

proof fn version_reads_back(version: u32, rest: Seq<u8>, e: EnvelopeModel)
    requires
        e.version == 0,
    ensures
        envelope_read(version_field(version) + rest, e) == envelope_read(rest, EnvelopeModel { version, ..e }),
{
    let f = version_field(version);
    let all = f + rest;
    if version != 0 {
        key_reads_back(8, all, 1, 0);
        varint_reads_back(version as u64, rest);
        assert(all.skip(1) =~= varint(version as nat) + rest);
        assert(all.skip(f.len() as int) =~= rest);
        assert(envelope_field_read(all, e) == Some((EnvelopeModel { version, ..e }, f.len())));
    } else {
        assert(all =~= rest);
    }
}

proof fn key_reads_back(key: u8, b: Seq<u8>, tag: nat, wire: nat)
    requires
        b.len() > 0,
        b[0] == key,
        key < 128,
        key == tag * 8 + wire,
        wire <= 5,
        tag > 0,
    ensures
        field_key_read(b) == Some((tag, wire, 1nat)),
{
    assert((tag * 8 + wire) / 8 == tag && (tag * 8 + wire) % 8 == wire) by (nonlinear_arith)
        requires
            wire <= 5,
    ;
}

impl MembershipEnvelope {
    /// Frames an engine's opaque update at the current version.
    #[must_use]
    pub fn wrap(engine: EngineKind, body: Vec<u8>) -> (r: MembershipEnvelope)
        ensures
            r@ == (EnvelopeModel { version: MEMBERSHIP_ENVELOPE_VERSION, engine: engine_tag(engine), body: body@ }),
    {
        MembershipEnvelope { version: MEMBERSHIP_ENVELOPE_VERSION, engine: engine.as_tag().to_owned(), body }
    }

    /// The protobuf form.
    #[must_use]
    pub fn encode(&self) -> (r: Vec<u8>)
        ensures
            r@ == envelope_bytes(self@),
    {
        let mut out: Vec<u8> = Vec::new();
        if self.version != 0 {
            out.push(8);
            put_varint(&mut out, self.version as u64);
        }
        assert(out@ =~= version_field(self.version));
        let engine = self.engine.as_str();
        if !engine.is_empty() {
            out.push(18);
            put_delimited(&mut out, engine.as_bytes());
        }
        assert(out@ =~= version_field(self.version) + engine_field(self.engine@));
        if self.body.len() > 0 {
            out.push(26);
            put_delimited(&mut out, self.body.as_slice());
        }
        assert(out@ =~= envelope_bytes(self@));
        out
    }

    /// Parses the protobuf form and refuses every version but the current one.
    pub fn decode(bytes: &[u8]) -> (r: Result<MembershipEnvelope, EnvelopeError>)
        ensures
            r matches Ok(e) ==> envelope_read(bytes@, default_envelope()) == Some(e@) && e.version
                == MEMBERSHIP_ENVELOPE_VERSION,
            r == Err::<MembershipEnvelope, EnvelopeError>(EnvelopeError::Malformed) <==> envelope_read(
                bytes@,
                default_envelope(),
            ) is None,
            forall|v: u32|
                r == Err::<MembershipEnvelope, EnvelopeError>(EnvelopeError::UnsupportedVersion(v)) <==> (envelope_read(
                    bytes@,
                    default_envelope(),
                ) matches Some(e) && e.version == v && v != MEMBERSHIP_ENVELOPE_VERSION),
    {
        match MembershipEnvelope::parse(bytes) {
            None => Err(EnvelopeError::Malformed),
            Some(e) => {
                if e.version != MEMBERSHIP_ENVELOPE_VERSION {
                    Err(EnvelopeError::UnsupportedVersion(e.version))
                } else {
                    Ok(e)
                }
            },
        }
    }

    fn parse(bytes: &[u8]) -> (r: Option<MembershipEnvelope>)
        ensures
            envelope_read(bytes@, default_envelope()) == (match r {
                Some(e) => Some(e@),
                None => None::<EnvelopeModel>,
            }),
    {
        let mut e = MembershipEnvelope { version: 0, engine: String::new(), body: Vec::new() };
        let mut at: usize = 0;
        assert(e@ =~= default_envelope());
        assert(bytes@.skip(0) =~= bytes@);
        while at < bytes.len()
            invariant
                at <= bytes.len(),
                envelope_read(bytes@, default_envelope()) == envelope_read(bytes@.skip(at as int), e@),
            decreases bytes.len() - at,
        {
            let here = vstd::slice::slice_subrange(bytes, at, bytes.len());
            let ghost b = bytes@.skip(at as int);
            let ghost before = e@;
            assert(here@ =~= b);
            match take_field_key(here) {
                None => {
                    return None;
                },
                Some((tag, wire, used)) => {
                    proof {
                        varint_read_bounds(b, 0);
                    }
                    let rest = vstd::slice::slice_subrange(here, used, here.len());
                    assert(rest@ =~= b.skip(used as int));
                    let taken: usize;
                    if tag == 1 {
                        match take_varint(rest) {
                            Some((v, n)) => {
                                if wire != 0 {
                                    return None;
                                }
                                e.version = low_32_of(v);
                                taken = n;
                            },
                            None => {
                                return None;
                            },
                        }
                    } else if tag == 2 {
                        match take_delimited(rest) {
                            Some((v, n)) => {
                                if wire != 2 {
                                    return None;
                                }
                                let ghost raw = v@;
                                match text_of_utf8(v) {
                                    Some(s) => {
                                        proof {
                                            vstd::utf8::encode_utf8_decode_utf8(s@);
                                        }
                                        e.engine = s;
                                        taken = n;
                                    },
                                    None => {
                                        return None;
                                    },
                                }
                            },
                            None => {
                                return None;
                            },
                        }
                    } else if tag == 3 {
                        match take_delimited(rest) {
                            Some((v, n)) => {
                                if wire != 2 {
                                    return None;
                                }
                                e.body = v;
                                taken = n;
                            },
                            None => {
                                return None;
                            },
                        }
                    } else {
                        match pass_over(wire, tag, rest) {
                            Ok(n) => {
                                taken = n;
                            },
                            Err(_) => {
                                return None;
                            },
                        }
                    }
                    proof {
                        varint_read_bounds(rest@, 0);
                        assert(envelope_field_read(b, before) == Some((e@, (used + taken) as nat)));
                        assert(b.skip(used + taken) =~= bytes@.skip(at + used + taken));
                    }
                    at = at + used + taken;
                },
            }
        }
        assert(bytes@.skip(at as int) =~= Seq::<u8>::empty());
        Some(e)
    }

    /// The producing engine.
    pub fn engine_kind(&self) -> (r: Result<EngineKind, UnknownEngine>)
        ensures
            match r {
                Ok(kind) => engine_of_tag(self.engine@) == Some(kind),
                Err(UnknownEngine(other)) => engine_of_tag(self.engine@) is None && other@ == self.engine@,
            },
    {
        EngineKind::from_tag(self.engine.as_str())
    }
}

/// Why an envelope does not decode.
#[derive(Clone, Copy, Debug, PartialEq, Eq, Structural)]
pub enum EnvelopeError {
    Malformed,
    UnsupportedVersion(u32),
}

impl EnvelopeError {
    /// What went wrong, in words.
    pub fn message(&self) -> (r: String)
        ensures
            r@ == (match *self {
                EnvelopeError::Malformed => "malformed membership envelope"@,
                EnvelopeError::UnsupportedVersion(v) => "unsupported membership envelope version: "@ + decimal(v as nat),
            }),
    {
        match *self {
            EnvelopeError::Malformed => "malformed membership envelope".to_owned(),
            EnvelopeError::UnsupportedVersion(v) => {
                let n: String = decimal_text(v as u64);
                crate::text::concat("unsupported membership envelope version: ", n.as_str())
            },
        }
    }
}

/// Roles, power-descending: lower is stronger.
pub const ROLE_OWNER: i16 = 1;
pub const ROLE_CO_OWNER: i16 = 2;
pub const ROLE_MAINTAINER: i16 = 3;
pub const ROLE_EDITOR: i16 = 4;
pub const ROLE_VIEWER: i16 = 5;

/// What is known of a member who was ever admitted: every author key they held, and the strongest role.
#[derive(Clone, Debug, PartialEq, Eq)]
pub struct EverMemberInfo {
    pub keys_ever_held: Vec<Vec<u8>>,
    pub strongest_role: i16,
}

/// One member of a resolved keyring.
#[derive(Clone, Debug, PartialEq, Eq)]
pub struct MemberView {
    pub member_id: String,
    pub role: i16,
    pub author_public_key: Vec<u8>,
    pub hpke_public_key: Vec<u8>,
}

/// What a member view holds.
pub struct MemberModel {
    pub member_id: Seq<char>,
    pub role: i16,
    pub author_public_key: Seq<u8>,
    pub hpke_public_key: Seq<u8>,
}

impl View for MemberView {
    type V = MemberModel;

    open spec fn view(&self) -> MemberModel {
        MemberModel {
            member_id: self.member_id@,
            role: self.role,
            author_public_key: self.author_public_key@,
            hpke_public_key: self.hpke_public_key@,
        }
    }
}

/// What a list of members holds.
pub open spec fn member_models(s: Seq<MemberView>) -> Seq<MemberModel> {
    Seq::new(s.len(), |i: int| s[i]@)
}

impl Keyed for MemberView {
    type By = String;

    open spec fn sort_key(&self) -> Seq<char> {
        self.member_id@
    }

    fn goes_before(&self, other: &MemberView) -> (r: bool) {
        assert(<String as Key>::before(self.sort_key(), other.sort_key()) == crate::order::text_before(
            self.member_id@,
            other.member_id@,
        ));
        text_less(self.member_id.as_str(), other.member_id.as_str())
    }
}

impl MemberView {
    /// A signer is a co-owner or stronger.
    #[must_use]
    pub fn is_signer(&self) -> (r: bool)
        ensures
            r == (self.role <= ROLE_CO_OWNER),
    {
        self.role <= ROLE_CO_OWNER
    }

    /// The owner.
    #[must_use]
    pub fn is_owner(&self) -> (r: bool)
        ensures
            r == (self.role == ROLE_OWNER),
    {
        self.role == ROLE_OWNER
    }
}

/// The resolved membership of a keyring.
#[derive(Clone, Debug, PartialEq, Eq)]
pub struct MembershipView {
    /// Active members, sorted by member id.
    pub members: Vec<MemberView>,
    /// This admission crossed a recovery re-founding.
    pub reset_boundary: bool,
}

impl MembershipView {
    /// A view of `members`, sorted by member id.
    #[must_use]
    pub fn new(members: Vec<MemberView>, reset_boundary: bool) -> (r: MembershipView)
        ensures
            stable_sorting(members@, r.members@),
            r.reset_boundary == reset_boundary,
    {
        MembershipView { members: stable_sort(members), reset_boundary }
    }

    /// The members who are signers, in their order.
    pub fn signers(&self) -> (r: Vec<&MemberView>)
        ensures
            Seq::new(r@.len(), |i: int| *r@[i]) == self.members@.filter(|m: MemberView| m.role <= ROLE_CO_OWNER),
    {
        let mut out: Vec<&MemberView> = Vec::new();
        let mut i: usize = 0;
        let ghost p = |m: MemberView| m.role <= ROLE_CO_OWNER;
        proof {
            reveal(Seq::filter);
            assert(Seq::new(out@.len(), |k: int| *out@[k]) =~= self.members@.take(0).filter(p));
        }
        while i < self.members.len()
            invariant
                i <= self.members.len(),
                p == (|m: MemberView| m.role <= ROLE_CO_OWNER),
                Seq::new(out@.len(), |k: int| *out@[k]) == self.members@.take(i as int).filter(p),
            decreases self.members.len() - i,
        {
            let m = &self.members[i];
            let ghost before = Seq::new(out@.len(), |k: int| *out@[k]);
            proof {
                assert(self.members@.take(i + 1) =~= self.members@.take(i as int).push(*m));
                self.members@.take(i as int).lemma_filter_push(*m, p);
            }
            if m.is_signer() {
                out.push(m);
                assert(Seq::new(out@.len(), |k: int| *out@[k]) =~= before.push(*m));
            }
            i = i + 1;
        }
        assert(self.members@.take(i as int) =~= self.members@);
        out
    }

    /// The first owner, if there is one.
    #[must_use]
    pub fn owner(&self) -> (r: Option<&MemberView>)
        ensures
            match r {
                Some(m) => exists|i: int|
                    0 <= i < self.members.len() && #[trigger] self.members@[i] == *m && m.role == ROLE_OWNER && forall|j: int|
                        0 <= j < i ==> (#[trigger] self.members@[j]).role != ROLE_OWNER,
                None => forall|i: int| 0 <= i < self.members.len() ==> (#[trigger] self.members@[i]).role != ROLE_OWNER,
            },
    {
        let mut i: usize = 0;
        while i < self.members.len()
            invariant
                i <= self.members.len(),
                forall|j: int| 0 <= j < i ==> (#[trigger] self.members@[j]).role != ROLE_OWNER,
            decreases self.members.len() - i,
        {
            if self.members[i].is_owner() {
                return Some(&self.members[i]);
            }
            i = i + 1;
        }
        None
    }
}

/// Whether two member lists hold the same.
pub fn same_members(a: &Vec<MemberView>, b: &Vec<MemberView>) -> (r: bool)
    ensures
        r == (member_models(a@) == member_models(b@)),
{
    if a.len() != b.len() {
        assert(member_models(a@).len() != member_models(b@).len());
        return false;
    }
    let mut i: usize = 0;
    while i < a.len()
        invariant
            i <= a.len(),
            a.len() == b.len(),
            forall|k: int| 0 <= k < i ==> (#[trigger] a@[k])@ == b@[k]@,
        decreases a.len() - i,
    {
        let x = &a[i];
        let y = &b[i];
        let same = text_equal(x.member_id.as_str(), y.member_id.as_str()) && x.role == y.role && bytes_equal(
            x.author_public_key.as_slice(),
            y.author_public_key.as_slice(),
        ) && bytes_equal(x.hpke_public_key.as_slice(), y.hpke_public_key.as_slice());
        if !same {
            assert(x@ != y@);
            assert(member_models(a@)[i as int] != member_models(b@)[i as int]);
            return false;
        }
        i = i + 1;
    }
    assert(member_models(a@) =~= member_models(b@));
    true
}

/// A resolved view does not depend on the order in which its members were found.
pub proof fn view_ignores_member_order(a: Seq<MemberView>, ra: Seq<MemberView>, b: Seq<MemberView>, rb: Seq<MemberView>)
    requires
        stable_sorting(a, ra),
        stable_sorting(b, rb),
        distinct_keys(a),
        distinct_keys(b),
        member_models(a).to_set() == member_models(b).to_set(),
    ensures
        member_models(ra) == member_models(rb),
{
    let key = |m: MemberModel| m.member_id;
    distinct_sorting_is_strict(a, ra);
    distinct_sorting_is_strict(b, rb);
    sorted_models(a, ra);
    sorted_models(b, rb);
    assert forall|x: MemberModel|
        #![trigger member_models(ra).contains(x)]
        #![trigger member_models(rb).contains(x)]
        member_models(ra).contains(x) <==> member_models(rb).contains(x) by {
        assert(member_models(ra).contains(x) == member_models(a).contains(x));
        assert(member_models(rb).contains(x) == member_models(b).contains(x));
        assert(member_models(a).to_set().contains(x) == member_models(a).contains(x));
        assert(member_models(b).to_set().contains(x) == member_models(b).contains(x));
    }
    assert forall|i: int, j: int| #![trigger member_models(ra)[i], member_models(ra)[j]] 0 <= i < j < ra.len() implies <String as Key>::before(
        key(member_models(ra)[i]),
        key(member_models(ra)[j]),
    ) by {
        assert(crate::sorting::key_before(ra[i], ra[j]));
    }
    assert forall|i: int, j: int| #![trigger member_models(rb)[i], member_models(rb)[j]] 0 <= i < j < rb.len() implies <String as Key>::before(
        key(member_models(rb)[i]),
        key(member_models(rb)[j]),
    ) by {
        assert(crate::sorting::key_before(rb[i], rb[j]));
    }
    ascending_unique::<MemberModel, String>(member_models(ra), member_models(rb), key);
}

/// A sorting shows the values that it sorts, and no others.
pub proof fn sorted_models(a: Seq<MemberView>, ra: Seq<MemberView>)
    requires
        stable_sorting(a, ra),
    ensures
        forall|x: MemberModel| #[trigger] member_models(ra).contains(x) <==> member_models(a).contains(x),
{
    sorting_keeps_values(a, ra);
    assert forall|x: MemberModel| #[trigger] member_models(ra).contains(x) <==> member_models(a).contains(x) by {
        if member_models(ra).contains(x) {
            let i = choose|i: int| 0 <= i < ra.len() && member_models(ra)[i] == x;
            assert(ra.contains(ra[i]));
            let j = choose|j: int| 0 <= j < a.len() && a[j] == ra[i];
            assert(member_models(a)[j] == x);
        }
        if member_models(a).contains(x) {
            let i = choose|i: int| 0 <= i < a.len() && member_models(a)[i] == x;
            assert(a.contains(a[i]));
            let j = choose|j: int| 0 <= j < ra.len() && ra[j] == a[i];
            assert(member_models(ra)[j] == x);
        }
    }
}

/// The outcome of admitting one update against prior trust state.
#[derive(Clone, Debug, PartialEq, Eq)]
pub struct Admitted {
    /// The engine-opaque trust state to persist.
    pub state: Vec<u8>,
    pub view: MembershipView,
    /// Whether the update changed the membership.
    pub changed: bool,
    /// The tree id read from the verified body.
    pub tree_id: Vec<u8>,
    /// The update's canonical position, read from the verified body.
    pub update_ref: Vec<u8>,
}

/// Why an update is refused.
#[derive(Clone, Copy, Debug, PartialEq, Eq, Structural)]
pub enum VerifyError {
    /// Undecodable or structurally invalid bytes.
    Malformed,
    /// A signature does not verify, or the author is unknown.
    Unauthenticated,
    /// Behind the trust state: a replay or a withheld hop.
    Stale,
    /// Authenticated, but the author lacks the authority.
    Unauthorized,
    /// The has-been-shared marker would regress.
    SharedRegressed,
    /// A rollback against trusted state.
    Rollback,
}

/// The keyless verifier's seam: admit an update against prior trust state.
pub trait KeyringVerifier {
    /// Admits `update` against `prior_state`; no prior state means first sight.
    fn admit_update(&self, prior_state: Option<&[u8]>, update: &[u8]) -> Result<Admitted, VerifyError>;
}

/// Who signs is every member from co-owner up, in the order in which they are listed; the owner is the first who is one.
pub proof fn who_signs(view: MembershipView, r: Vec<&MemberView>)
    requires
        call_ensures(MembershipView::signers, (&view,), r),
    ensures
        forall|i: int| 0 <= i < r@.len() ==> (#[trigger] r@[i]).role <= 2 && view.members@.contains(*r@[i]),
        forall|k: int|
            0 <= k < view.members@.len() && (#[trigger] view.members@[k]).role <= 2 ==> exists|i: int|
                0 <= i < r@.len() && *(#[trigger] r@[i]) == view.members@[k],
        r@.len() <= view.members@.len(),
{
    let p = |m: MemberView| m.role <= ROLE_CO_OWNER;
    let s = view.members@;
    s.filter_lemma(p);
    let out = Seq::new(r@.len(), |i: int| *r@[i]);
    assert(out == s.filter(p));
    assert forall|i: int| 0 <= i < r@.len() implies (#[trigger] r@[i]).role <= 2 && s.contains(*r@[i]) by {
        assert(out[i] == *r@[i]);
        assert(p(s.filter(p)[i]));
        s.lemma_filter_contains_rev(p, out[i]);
    }
    assert forall|k: int| 0 <= k < s.len() && (#[trigger] s[k]).role <= 2 implies exists|i: int|
        0 <= i < r@.len() && *(#[trigger] r@[i]) == s[k] by {
        assert(p(s[k]));
        assert(out.contains(s[k]));
        let i = choose|i: int| 0 <= i < out.len() && out[i] == s[k];
        assert(*r@[i] == s[k]);
    }
}

/// The first member whose role is the owner's stands here.
pub open spec fn first_owner(members: Seq<MemberView>, i: int) -> bool {
    &&& 0 <= i < members.len() && members[i].role == 1
    &&& forall|j: int| 0 <= j < i ==> (#[trigger] members[j]).role != 1
}

/// Whoever is named the owner is the first member whose role is the owner's.
pub proof fn who_owns(view: MembershipView, owner: &MemberView, i: int)
    requires
        call_ensures(MembershipView::owner, (&view,), Some(owner)),
        first_owner(view.members@, i),
    ensures
        *owner == view.members@[i],
{
    let s = view.members@;
    let k = choose|i: int|
        0 <= i < s.len() && #[trigger] s[i] == *owner && owner.role == ROLE_OWNER && forall|j: int|
            0 <= j < i ==> (#[trigger] s[j]).role != ROLE_OWNER;
    assert(first_owner(s, k));
    if i < k {
        assert(s[i].role != 1);
    }
    if k < i {
        assert(s[k].role != 1);
    }
}

/// A member signs from co-owner up, and owns as owner alone.
pub proof fn what_a_role_entitles_to(m: MemberView, signs: bool, owns: bool)
    requires
        call_ensures(MemberView::is_signer, (&m,), signs),
        call_ensures(MemberView::is_owner, (&m,), owns),
    ensures
        signs <==> m.role <= 2,
        owns <==> m.role == 1,
        owns ==> signs,
{
}

/// What a body is wrapped in: the first version of the envelope, under its engine's own tag, as it is.
pub proof fn what_a_body_is_wrapped_in(engine: EngineKind, body: Vec<u8>, r: MembershipEnvelope)
    requires
        call_ensures(MembershipEnvelope::wrap, (engine, body), r),
    ensures
        r.version == 1,
        engine is Chain ==> r.engine@ == "chain"@,
        engine is Dag ==> r.engine@ == "dag"@,
        r.body@ == body@,
{
}

/// What was wrapped and encoded is what decoding it gives back.
pub proof fn a_wrapped_body_comes_back(
    engine: EngineKind,
    body: Vec<u8>,
    wrapped: MembershipEnvelope,
    bytes: Vec<u8>,
    sent: &[u8],
    back: Result<MembershipEnvelope, EnvelopeError>,
)
    requires
        call_ensures(MembershipEnvelope::wrap, (engine, body), wrapped),
        call_ensures(MembershipEnvelope::encode, (&wrapped,), bytes),
        sent@ == bytes@,
        call_ensures(MembershipEnvelope::decode, (sent,), back),
        body@.len() <= u64::MAX,
    ensures
        back matches Ok(e) && e.version == 1 && e.engine@ == wrapped.engine@ && e.body@ == body@,
{
    reveal_strlit("chain");
    reveal_strlit("dag");
    assert(encode_utf8(wrapped.engine@).len() <= u64::MAX) by {
        vstd::utf8::is_ascii_chars_encode_utf8(wrapped.engine@);
    }
    envelope_round_trips(wrapped@);
    match back {
        Err(EnvelopeError::UnsupportedVersion(v)) => {
            assert(back == Err::<MembershipEnvelope, EnvelopeError>(EnvelopeError::UnsupportedVersion(v)));
        },
        _ => {},
    }
}

} // verus!
