//! The keyring document and its protobuf form.

use vstd::prelude::*;
use vstd::utf8::{decode_utf8, encode_utf8, valid_utf8};

use crate::keyring_chain::message::{
    alone, alone_reads_back, insides, insides_of_written, keyring_writable, nested_field, nested_read, outer, part_models,
    parts_of, parts_read, parts_read_back, spells, take_nested, take_parts, typed, writable, Nested, Part, PartModel,
};
use crate::protobuf::{
    all_bytes, field_fits, field_models, fields_bytes, last_bytes, last_varint, low_32, low_32_of, opt_bytes, opt_bytes_gives,
    opt_varint, opt_varint_gives, pieces, pieces_give, pieces_keep, pieces_step, put_opt_bytes, put_opt_varint, put_repeated,
    repeated, repeated_gives, separate, text_of_utf8, Fault, Field, FieldModel, Trouble,
};
use crate::text::copy_bytes;

verus! {

/// The keyring layout that is read and written.
pub const KEYRING_LAYOUT_VERSION: u32 = 1;

/// The founder's role, the strongest there is.
pub const MEMBER_OWNER: i32 = 1;

/// A co-owner's role: a signer, but not the founder.
pub const MEMBER_CO_OWNER: i32 = 2;

/// A key wrapped to a member's public key.
pub const WRAP_X25519_HPKE: i32 = 2;

/// A key wrapped to the founder's recovery root.
pub const WRAP_RRK_HPKE: i32 = 4;

/// The most bytes that stored key material may take; it is checked before anything is decoded.
pub const MAX_KEY_MATERIAL_BYTES: usize = 4194304;

/// One tree's key material and governance, at one revision.
#[derive(Clone, Debug, PartialEq, Eq)]
pub struct Keyring {
    pub tree_id: Vec<u8>,
    /// The key generations, in their canonical encoding.
    pub epochs: Vec<u8>,
    pub revision: u32,
    pub layout_version: u32,
    /// The digest of the revision before; empty at genesis.
    pub prev_keyring_hash: Vec<u8>,
    pub members: Vec<Member>,
    pub signatures: Vec<KeyringSignature>,
    pub recovery_keys: Vec<RecoveryKey>,
    pub governance_kind: u32,
    pub governance_threshold: u32,
    /// The revision at which the tree was first shared; zero where it never was.
    pub first_shared_revision: u32,
}

/// A member's role and keys.
#[derive(Clone, Debug, PartialEq, Eq)]
pub struct Member {
    pub member_id: String,
    pub role: i32,
    pub author_public_key: Vec<u8>,
    pub hpke_public_key: Vec<u8>,
}

/// One signature over a keyring. Who made it is a hint only.
#[derive(Clone, Debug, PartialEq, Eq)]
pub struct KeyringSignature {
    pub signer_public_key: Vec<u8>,
    pub signature: Vec<u8>,
}

/// The founder's recovery root.
#[derive(Clone, Debug, PartialEq, Eq)]
pub struct RecoveryKey {
    pub public_key: Vec<u8>,
    pub member_id: String,
    /// The recovery root's private key, wrapped, in its canonical encoding.
    pub wraps: Vec<u8>,
    /// The key that signs resets; empty where there is none.
    pub recovery_verifying_key: Vec<u8>,
}

/// What a keyring holds.
pub struct KeyringContent {
    pub tree_id: Seq<u8>,
    pub epochs: Seq<u8>,
    pub revision: u32,
    pub layout_version: u32,
    pub prev_keyring_hash: Seq<u8>,
    pub members: Seq<MemberContent>,
    pub signatures: Seq<SignatureContent>,
    pub recovery_keys: Seq<RecoveryContent>,
    pub governance_kind: u32,
    pub governance_threshold: u32,
    pub first_shared_revision: u32,
}

pub struct MemberContent {
    pub member_id: Seq<char>,
    pub role: i32,
    pub author_public_key: Seq<u8>,
    pub hpke_public_key: Seq<u8>,
}

pub struct SignatureContent {
    pub signer_public_key: Seq<u8>,
    pub signature: Seq<u8>,
}

pub struct RecoveryContent {
    pub public_key: Seq<u8>,
    pub member_id: Seq<char>,
    pub wraps: Seq<u8>,
    pub recovery_verifying_key: Seq<u8>,
}

impl View for Member {
    type V = MemberContent;

    open spec fn view(&self) -> MemberContent {
        MemberContent {
            member_id: self.member_id@,
            role: self.role,
            author_public_key: self.author_public_key@,
            hpke_public_key: self.hpke_public_key@,
        }
    }
}

impl View for KeyringSignature {
    type V = SignatureContent;

    open spec fn view(&self) -> SignatureContent {
        SignatureContent { signer_public_key: self.signer_public_key@, signature: self.signature@ }
    }
}

impl View for RecoveryKey {
    type V = RecoveryContent;

    open spec fn view(&self) -> RecoveryContent {
        RecoveryContent {
            public_key: self.public_key@,
            member_id: self.member_id@,
            wraps: self.wraps@,
            recovery_verifying_key: self.recovery_verifying_key@,
        }
    }
}

pub open spec fn member_contents(s: Seq<Member>) -> Seq<MemberContent> {
    Seq::new(s.len(), |i: int| s[i]@)
}

pub open spec fn signature_contents(s: Seq<KeyringSignature>) -> Seq<SignatureContent> {
    Seq::new(s.len(), |i: int| s[i]@)
}

pub open spec fn recovery_contents(s: Seq<RecoveryKey>) -> Seq<RecoveryContent> {
    Seq::new(s.len(), |i: int| s[i]@)
}

impl View for Keyring {
    type V = KeyringContent;

    open spec fn view(&self) -> KeyringContent {
        KeyringContent {
            tree_id: self.tree_id@,
            epochs: self.epochs@,
            revision: self.revision,
            layout_version: self.layout_version,
            prev_keyring_hash: self.prev_keyring_hash@,
            members: member_contents(self.members@),
            signatures: signature_contents(self.signatures@),
            recovery_keys: recovery_contents(self.recovery_keys@),
            governance_kind: self.governance_kind,
            governance_threshold: self.governance_threshold,
            first_shared_revision: self.first_shared_revision,
        }
    }
}

impl Default for Keyring {
    /// A keyring with nothing in it.
    fn default() -> (r: Keyring)
        ensures
            r@ == (KeyringContent {
                tree_id: Seq::empty(),
                epochs: Seq::empty(),
                revision: 0,
                layout_version: 0,
                prev_keyring_hash: Seq::empty(),
                members: Seq::empty(),
                signatures: Seq::empty(),
                recovery_keys: Seq::empty(),
                governance_kind: 0,
                governance_threshold: 0,
                first_shared_revision: 0,
            }),
    {
        let r = Keyring {
            tree_id: Vec::new(),
            epochs: Vec::new(),
            revision: 0,
            layout_version: 0,
            prev_keyring_hash: Vec::new(),
            members: Vec::new(),
            signatures: Vec::new(),
            recovery_keys: Vec::new(),
            governance_kind: 0,
            governance_threshold: 0,
            first_shared_revision: 0,
        };
        assert(r@.members =~= Seq::<MemberContent>::empty());
        assert(r@.signatures =~= Seq::<SignatureContent>::empty());
        assert(r@.recovery_keys =~= Seq::<RecoveryContent>::empty());
        r
    }
}

/// A signed thirty-two-bit integer as it is written: extended to sixty-four bits, in two's complement.
pub open spec fn signed_bits(v: i32) -> nat {
    if v >= 0 {
        v as nat
    } else {
        (0x1_0000_0000_0000_0000 + v) as nat
    }
}

/// The signed integer that the low thirty-two bits of an integer stand for.
pub open spec fn signed_of_bits(n: nat) -> i32 {
    let low = n % 0x1_0000_0000;
    if low < 0x8000_0000 {
        low as i32
    } else {
        (low - 0x1_0000_0000) as i32
    }
}

fn bits_of_signed(v: i32) -> (r: u64)
    ensures
        r == signed_bits(v),
{
    if v >= 0 {
        v as u64
    } else {
        let above: u64 = (-(v as i64)) as u64;
        u64::MAX - above + 1
    }
}

fn signed_from_bits(n: u64) -> (r: i32)
    ensures
        r == signed_of_bits(n as nat),
{
    let low: u64 = n % 0x1_0000_0000;
    if low < 0x8000_0000 {
        low as i32
    } else {
        (low as i64 - 0x1_0000_0000) as i32
    }
}

proof fn signed_bits_read_back(v: i32)
    ensures
        signed_of_bits(signed_bits(v)) == v,
{
    if v < 0 {
        let n = (0x1_0000_0000_0000_0000 + v) as nat;
        assert(n % 0x1_0000_0000 == 0x1_0000_0000 + v) by {
            assert(n == 0x1_0000_0000 * 0xffff_ffff + (0x1_0000_0000 + v));
            vstd::arithmetic::div_mod::lemma_fundamental_div_mod_converse(
                n as int,
                0x1_0000_0000,
                0xffff_ffff,
                0x1_0000_0000 + v,
            );
        }
    }
}

/// A member's fields.
pub open spec fn member_parts(m: MemberContent) -> Seq<(nat, Seq<(nat, FieldModel)>)> {
    seq![
        (1nat, opt_bytes(1, encode_utf8(m.member_id))),
        (2nat, opt_varint(2, signed_bits(m.role))),
        (3nat, opt_bytes(3, m.author_public_key)),
        (4nat, opt_bytes(4, m.hpke_public_key)),
    ]
}

/// A member as it is written.
pub open spec fn member_bytes(m: MemberContent) -> Seq<u8> {
    fields_bytes(pieces(member_parts(m)))
}

/// The member that a message's fields give: the last value of a field counts.
pub open spec fn member_of_fields(fs: Seq<(nat, FieldModel)>) -> MemberContent {
    MemberContent {
        member_id: decode_utf8(last_bytes(fs, 1)),
        role: signed_of_bits(last_varint(fs, 2)),
        author_public_key: last_bytes(fs, 3),
        hpke_public_key: last_bytes(fs, 4),
    }
}

/// Reads a member, or the first fault. Unknown fields are passed over.
pub open spec fn member_read(b: Seq<u8>) -> Result<MemberContent, Fault> {
    match nested_read(Nested::Member, false, b, 0, b.len()) {
        Ok(fs) => Ok(member_of_fields(fs)),
        Err(f) => Err(f),
    }
}

/// A signature's fields.
pub open spec fn signature_parts(s: SignatureContent) -> Seq<(nat, Seq<(nat, FieldModel)>)> {
    seq![(1nat, opt_bytes(1, s.signer_public_key)), (2nat, opt_bytes(2, s.signature))]
}

/// A signature as it is written.
pub open spec fn signature_bytes(s: SignatureContent) -> Seq<u8> {
    fields_bytes(pieces(signature_parts(s)))
}

/// The signature that a message's fields give.
pub open spec fn signature_of_fields(fs: Seq<(nat, FieldModel)>) -> SignatureContent {
    SignatureContent { signer_public_key: last_bytes(fs, 1), signature: last_bytes(fs, 2) }
}

/// Reads a signature, or the first fault.
pub open spec fn signature_read(b: Seq<u8>) -> Result<SignatureContent, Fault> {
    match nested_read(Nested::Signature, false, b, 0, b.len()) {
        Ok(fs) => Ok(signature_of_fields(fs)),
        Err(f) => Err(f),
    }
}

/// A recovery key's fields.
pub open spec fn recovery_parts(r: RecoveryContent) -> Seq<(nat, Seq<(nat, FieldModel)>)> {
    seq![
        (1nat, opt_bytes(1, r.public_key)),
        (2nat, opt_bytes(2, encode_utf8(r.member_id))),
        (3nat, opt_bytes(3, r.wraps)),
        (4nat, opt_bytes(4, r.recovery_verifying_key)),
    ]
}

/// A recovery key as it is written.
pub open spec fn recovery_bytes(r: RecoveryContent) -> Seq<u8> {
    fields_bytes(pieces(recovery_parts(r)))
}

/// The recovery key that a message's fields give.
pub open spec fn recovery_of_fields(fs: Seq<(nat, FieldModel)>) -> RecoveryContent {
    RecoveryContent {
        public_key: last_bytes(fs, 1),
        member_id: decode_utf8(last_bytes(fs, 2)),
        wraps: last_bytes(fs, 3),
        recovery_verifying_key: last_bytes(fs, 4),
    }
}

/// Reads a recovery key, or the first fault.
pub open spec fn recovery_read(b: Seq<u8>) -> Result<RecoveryContent, Fault> {
    match nested_read(Nested::Recovery, false, b, 0, b.len()) {
        Ok(fs) => Ok(recovery_of_fields(fs)),
        Err(f) => Err(f),
    }
}

pub open spec fn all_member_bytes(s: Seq<MemberContent>) -> Seq<Seq<u8>> {
    Seq::new(s.len(), |i: int| member_bytes(s[i]))
}

pub open spec fn all_signature_bytes(s: Seq<SignatureContent>) -> Seq<Seq<u8>> {
    Seq::new(s.len(), |i: int| signature_bytes(s[i]))
}

pub open spec fn all_recovery_bytes(s: Seq<RecoveryContent>) -> Seq<Seq<u8>> {
    Seq::new(s.len(), |i: int| recovery_bytes(s[i]))
}

/// A keyring's fields.
pub open spec fn keyring_parts(k: KeyringContent) -> Seq<(nat, Seq<(nat, FieldModel)>)> {
    seq![
        (1nat, opt_bytes(1, k.tree_id)),
        (2nat, opt_bytes(2, k.epochs)),
        (3nat, opt_varint(3, k.revision as nat)),
        (6nat, opt_varint(6, k.layout_version as nat)),
        (7nat, opt_bytes(7, k.prev_keyring_hash)),
        (9nat, repeated(9, all_member_bytes(k.members))),
        (10nat, repeated(10, all_signature_bytes(k.signatures))),
        (11nat, repeated(11, all_recovery_bytes(k.recovery_keys))),
        (12nat, opt_varint(12, k.governance_kind as nat)),
        (13nat, opt_varint(13, k.governance_threshold as nat)),
        (14nat, opt_varint(14, k.first_shared_revision as nat)),
    ]
}

/// A keyring as it is written.
pub open spec fn keyring_bytes(k: KeyringContent) -> Seq<u8> {
    fields_bytes(pieces(keyring_parts(k)))
}

pub open spec fn members_of(s: Seq<Seq<(nat, FieldModel)>>) -> Seq<MemberContent> {
    Seq::new(s.len(), |i: int| member_of_fields(s[i]))
}

pub open spec fn signatures_of(s: Seq<Seq<(nat, FieldModel)>>) -> Seq<SignatureContent> {
    Seq::new(s.len(), |i: int| signature_of_fields(s[i]))
}

pub open spec fn recoveries_of(s: Seq<Seq<(nat, FieldModel)>>) -> Seq<RecoveryContent> {
    Seq::new(s.len(), |i: int| recovery_of_fields(s[i]))
}

/// The keyring that a message's fields give: the last value of a plain field, every value of a repeated one.
pub open spec fn keyring_of_parts(parts: Seq<PartModel>) -> KeyringContent {
    let fs = outer(parts);
    KeyringContent {
        tree_id: last_bytes(fs, 1),
        epochs: last_bytes(fs, 2),
        revision: low_32(last_varint(fs, 3)),
        layout_version: low_32(last_varint(fs, 6)),
        prev_keyring_hash: last_bytes(fs, 7),
        members: members_of(insides(parts, 9)),
        signatures: signatures_of(insides(parts, 10)),
        recovery_keys: recoveries_of(insides(parts, 11)),
        governance_kind: low_32(last_varint(fs, 12)),
        governance_threshold: low_32(last_varint(fs, 13)),
        first_shared_revision: low_32(last_varint(fs, 14)),
    }
}

/// Reads a keyring, or the first fault.
pub open spec fn keyring_read(b: Seq<u8>) -> Result<KeyringContent, Fault> {
    match parts_read(b, 0) {
        Ok(parts) => Ok(keyring_of_parts(parts)),
        Err(f) => Err(f),
    }
}

/// The text that well-formed bytes hold.
fn text_of(bytes: &Vec<u8>) -> (r: String)
    requires
        valid_utf8(bytes@),
    ensures
        r@ == decode_utf8(bytes@),
{
    let copy: Vec<u8> = copy_bytes(bytes.as_slice());
    match text_of_utf8(copy) {
        Some(s) => {
            proof {
                vstd::utf8::encode_utf8_decode_utf8(s@);
            }
            s
        },
        None => String::new(),
    }
}

impl Member {
    /// The protobuf form.
    pub fn encode_to_vec(&self) -> (r: Vec<u8>)
        ensures
            r@ == member_bytes(self@),
    {
        let ghost p = member_parts(self@);
        proof {
            assert(p.take(0) =~= Seq::empty());
            pieces_step(p, 0);
            pieces_step(p, 1);
            pieces_step(p, 2);
            pieces_step(p, 3);
            assert(p.take(4) =~= p);
        }
        let mut out: Vec<u8> = Vec::new();
        put_opt_bytes(&mut out, 1, self.member_id.as_str().as_bytes(), Ghost(pieces(p.take(0))));
        put_opt_varint(&mut out, 2, bits_of_signed(self.role), Ghost(pieces(p.take(1))));
        put_opt_bytes(&mut out, 3, self.author_public_key.as_slice(), Ghost(pieces(p.take(2))));
        put_opt_bytes(&mut out, 4, self.hpke_public_key.as_slice(), Ghost(pieces(p.take(3))));
        out
    }
}

impl KeyringSignature {
    /// The protobuf form.
    pub fn encode_to_vec(&self) -> (r: Vec<u8>)
        ensures
            r@ == signature_bytes(self@),
    {
        let ghost p = signature_parts(self@);
        proof {
            assert(p.take(0) =~= Seq::empty());
            pieces_step(p, 0);
            pieces_step(p, 1);
            assert(p.take(2) =~= p);
        }
        let mut out: Vec<u8> = Vec::new();
        put_opt_bytes(&mut out, 1, self.signer_public_key.as_slice(), Ghost(pieces(p.take(0))));
        put_opt_bytes(&mut out, 2, self.signature.as_slice(), Ghost(pieces(p.take(1))));
        out
    }
}

impl RecoveryKey {
    /// The protobuf form.
    pub fn encode_to_vec(&self) -> (r: Vec<u8>)
        ensures
            r@ == recovery_bytes(self@),
    {
        let ghost p = recovery_parts(self@);
        proof {
            assert(p.take(0) =~= Seq::empty());
            pieces_step(p, 0);
            pieces_step(p, 1);
            pieces_step(p, 2);
            pieces_step(p, 3);
            assert(p.take(4) =~= p);
        }
        let mut out: Vec<u8> = Vec::new();
        put_opt_bytes(&mut out, 1, self.public_key.as_slice(), Ghost(pieces(p.take(0))));
        put_opt_bytes(&mut out, 2, self.member_id.as_str().as_bytes(), Ghost(pieces(p.take(1))));
        put_opt_bytes(&mut out, 3, self.wraps.as_slice(), Ghost(pieces(p.take(2))));
        put_opt_bytes(&mut out, 4, self.recovery_verifying_key.as_slice(), Ghost(pieces(p.take(3))));
        out
    }
}

impl Keyring {
    /// The protobuf form.
    pub fn encode_to_vec(&self) -> (r: Vec<u8>)
        ensures
            r@ == keyring_bytes(self@),
    {
        let ghost p = keyring_parts(self@);
        let mut out: Vec<u8> = Vec::new();
        assert(p.take(0) =~= Seq::empty());
        put_opt_bytes(&mut out, 1, self.tree_id.as_slice(), Ghost(pieces(p.take(0))));
        proof {
            pieces_step(p, 0);
        }
        put_opt_bytes(&mut out, 2, self.epochs.as_slice(), Ghost(pieces(p.take(1))));
        proof {
            pieces_step(p, 1);
        }
        put_opt_varint(&mut out, 3, self.revision as u64, Ghost(pieces(p.take(2))));
        proof {
            pieces_step(p, 2);
        }
        put_opt_varint(&mut out, 6, self.layout_version as u64, Ghost(pieces(p.take(3))));
        proof {
            pieces_step(p, 3);
        }
        put_opt_bytes(&mut out, 7, self.prev_keyring_hash.as_slice(), Ghost(pieces(p.take(4))));
        proof {
            pieces_step(p, 4);
        }
        self.put_members(&mut out, Ghost(pieces(p.take(5))));
        proof {
            pieces_step(p, 5);
        }
        self.put_signatures(&mut out, Ghost(pieces(p.take(6))));
        proof {
            pieces_step(p, 6);
        }
        self.put_recovery_keys(&mut out, Ghost(pieces(p.take(7))));
        proof {
            pieces_step(p, 7);
        }
        put_opt_varint(&mut out, 12, self.governance_kind as u64, Ghost(pieces(p.take(8))));
        proof {
            pieces_step(p, 8);
        }
        put_opt_varint(&mut out, 13, self.governance_threshold as u64, Ghost(pieces(p.take(9))));
        proof {
            pieces_step(p, 9);
        }
        put_opt_varint(&mut out, 14, self.first_shared_revision as u64, Ghost(pieces(p.take(10))));
        proof {
            pieces_step(p, 10);
            assert(p.take(11) =~= p);
        }
        out
    }

    fn put_members(&self, out: &mut Vec<u8>, Ghost(done): Ghost<Seq<(nat, FieldModel)>>)
        requires
            old(out)@ == fields_bytes(done),
        ensures
            final(out)@ == fields_bytes(done + repeated(9, all_member_bytes(self@.members))),
    {
        let ghost all = repeated(9, all_member_bytes(self@.members));
        let mut i: usize = 0;
        assert(done + all.take(0) =~= done);
        while i < self.members.len()
            invariant
                i <= self.members.len(),
                all == repeated(9, all_member_bytes(self@.members)),
                out@ == fields_bytes(done + all.take(i as int)),
            decreases self.members.len() - i,
        {
            let body: Vec<u8> = self.members[i].encode_to_vec();
            put_repeated(out, 9, body.as_slice(), Ghost(done + all.take(i as int)));
            assert((done + all.take(i as int)).push((9nat, FieldModel::Bytes(body@))) =~= done + all.take(i + 1));
            i = i + 1;
        }
        assert(all.take(i as int) =~= all);
    }

    fn put_signatures(&self, out: &mut Vec<u8>, Ghost(done): Ghost<Seq<(nat, FieldModel)>>)
        requires
            old(out)@ == fields_bytes(done),
        ensures
            final(out)@ == fields_bytes(done + repeated(10, all_signature_bytes(self@.signatures))),
    {
        let ghost all = repeated(10, all_signature_bytes(self@.signatures));
        let mut i: usize = 0;
        assert(done + all.take(0) =~= done);
        while i < self.signatures.len()
            invariant
                i <= self.signatures.len(),
                all == repeated(10, all_signature_bytes(self@.signatures)),
                out@ == fields_bytes(done + all.take(i as int)),
            decreases self.signatures.len() - i,
        {
            let body: Vec<u8> = self.signatures[i].encode_to_vec();
            put_repeated(out, 10, body.as_slice(), Ghost(done + all.take(i as int)));
            assert((done + all.take(i as int)).push((10nat, FieldModel::Bytes(body@))) =~= done + all.take(i + 1));
            i = i + 1;
        }
        assert(all.take(i as int) =~= all);
    }

    fn put_recovery_keys(&self, out: &mut Vec<u8>, Ghost(done): Ghost<Seq<(nat, FieldModel)>>)
        requires
            old(out)@ == fields_bytes(done),
        ensures
            final(out)@ == fields_bytes(done + repeated(11, all_recovery_bytes(self@.recovery_keys))),
    {
        let ghost all = repeated(11, all_recovery_bytes(self@.recovery_keys));
        let mut i: usize = 0;
        assert(done + all.take(0) =~= done);
        while i < self.recovery_keys.len()
            invariant
                i <= self.recovery_keys.len(),
                all == repeated(11, all_recovery_bytes(self@.recovery_keys)),
                out@ == fields_bytes(done + all.take(i as int)),
            decreases self.recovery_keys.len() - i,
        {
            let body: Vec<u8> = self.recovery_keys[i].encode_to_vec();
            put_repeated(out, 11, body.as_slice(), Ghost(done + all.take(i as int)));
            assert((done + all.take(i as int)).push((11nat, FieldModel::Bytes(body@))) =~= done + all.take(i + 1));
            i = i + 1;
        }
        assert(all.take(i as int) =~= all);
    }
}

impl Member {
    /// The member that these fields give.
    fn of_fields(fields: &Vec<(u32, Field)>) -> (r: Member)
        requires
            forall|i: int| 0 <= i < fields@.len() ==> typed(Nested::Member, #[trigger] field_models(fields@)[i]),
        ensures
            r@ == member_of_fields(field_models(fields@)),
    {
        let ghost fs = field_models(fields@);
        let mut m = Member {
            member_id: String::new(),
            role: 0,
            author_public_key: Vec::new(),
            hpke_public_key: Vec::new(),
        };
        let mut i: usize = 0;
        proof {
            empty_text();
            assert(m.member_id@ =~= Seq::<char>::empty());
        }
        while i < fields.len()
            invariant
                i <= fields.len(),
                fs == field_models(fields@),
                forall|k: int| 0 <= k < fields@.len() ==> typed(Nested::Member, #[trigger] fs[k]),
                m.member_id@ == decode_utf8(last_bytes(fs.take(i as int), 1)),
                m.role == signed_of_bits(last_varint(fs.take(i as int), 2)),
                m.author_public_key@ == last_bytes(fs.take(i as int), 3),
                m.hpke_public_key@ == last_bytes(fs.take(i as int), 4),
            decreases fields.len() - i,
        {
            let (tag, value) = &fields[i];
            assert(fs[i as int] == (*tag as nat, value.model()));
            assert(fs.take(i + 1).drop_last() =~= fs.take(i as int));
            match value {
                Field::Varint(v) => {
                    if *tag == 2 {
                        m.role = signed_from_bits(*v);
                    }
                },
                Field::Bytes(b) => {
                    if *tag == 1 {
                        assert(typed(Nested::Member, fs[i as int]));
                        m.member_id = text_of(b);
                    } else if *tag == 3 {
                        m.author_public_key = copy_bytes(b.as_slice());
                    } else if *tag == 4 {
                        m.hpke_public_key = copy_bytes(b.as_slice());
                    }
                },
                Field::Other => {},
            }
            i = i + 1;
        }
        assert(fs.take(i as int) =~= fs);
        m
    }

    /// Parses the protobuf form.
    pub fn decode(bytes: &[u8]) -> (r: Result<Member, Trouble>)
        ensures
            match r {
                Ok(m) => member_read(bytes@) == Ok::<MemberContent, Fault>(m@),
                Err(e) => member_read(bytes@) == Err::<MemberContent, Fault>(e@),
            },
    {
        match take_nested(Nested::Member, false, bytes, 0, bytes.len()) {
            Ok(fields) => Ok(Member::of_fields(&fields)),
            Err(e) => Err(e),
        }
    }
}

/// The empty text is written as no bytes.
proof fn empty_text()
    ensures
        decode_utf8(Seq::<u8>::empty()) == Seq::<char>::empty(),
        encode_utf8(Seq::<char>::empty()) == Seq::<u8>::empty(),
{
    assert(encode_utf8(Seq::<char>::empty()) =~= Seq::<u8>::empty());
    vstd::utf8::encode_utf8_decode_utf8(Seq::<char>::empty());
}

impl KeyringSignature {
    /// The signature that these fields give.
    fn of_fields(fields: &Vec<(u32, Field)>) -> (r: KeyringSignature)
        ensures
            r@ == signature_of_fields(field_models(fields@)),
    {
        let ghost fs = field_models(fields@);
        let mut m = KeyringSignature { signer_public_key: Vec::new(), signature: Vec::new() };
        let mut i: usize = 0;
        while i < fields.len()
            invariant
                i <= fields.len(),
                fs == field_models(fields@),
                m.signer_public_key@ == last_bytes(fs.take(i as int), 1),
                m.signature@ == last_bytes(fs.take(i as int), 2),
            decreases fields.len() - i,
        {
            let (tag, value) = &fields[i];
            assert(fs[i as int] == (*tag as nat, value.model()));
            assert(fs.take(i + 1).drop_last() =~= fs.take(i as int));
            if let Field::Bytes(b) = value {
                if *tag == 1 {
                    m.signer_public_key = copy_bytes(b.as_slice());
                } else if *tag == 2 {
                    m.signature = copy_bytes(b.as_slice());
                }
            }
            i = i + 1;
        }
        assert(fs.take(i as int) =~= fs);
        m
    }

    /// Parses the protobuf form.
    pub fn decode(bytes: &[u8]) -> (r: Result<KeyringSignature, Trouble>)
        ensures
            match r {
                Ok(m) => signature_read(bytes@) == Ok::<SignatureContent, Fault>(m@),
                Err(e) => signature_read(bytes@) == Err::<SignatureContent, Fault>(e@),
            },
    {
        match take_nested(Nested::Signature, false, bytes, 0, bytes.len()) {
            Ok(fields) => Ok(KeyringSignature::of_fields(&fields)),
            Err(e) => Err(e),
        }
    }
}

impl RecoveryKey {
    /// The recovery key that these fields give.
    fn of_fields(fields: &Vec<(u32, Field)>) -> (r: RecoveryKey)
        requires
            forall|i: int| 0 <= i < fields@.len() ==> typed(Nested::Recovery, #[trigger] field_models(fields@)[i]),
        ensures
            r@ == recovery_of_fields(field_models(fields@)),
    {
        let ghost fs = field_models(fields@);
        let mut m = RecoveryKey {
            public_key: Vec::new(),
            member_id: String::new(),
            wraps: Vec::new(),
            recovery_verifying_key: Vec::new(),
        };
        let mut i: usize = 0;
        proof {
            empty_text();
            assert(m.member_id@ =~= Seq::<char>::empty());
        }
        while i < fields.len()
            invariant
                i <= fields.len(),
                fs == field_models(fields@),
                forall|k: int| 0 <= k < fields@.len() ==> typed(Nested::Recovery, #[trigger] fs[k]),
                m.public_key@ == last_bytes(fs.take(i as int), 1),
                m.member_id@ == decode_utf8(last_bytes(fs.take(i as int), 2)),
                m.wraps@ == last_bytes(fs.take(i as int), 3),
                m.recovery_verifying_key@ == last_bytes(fs.take(i as int), 4),
            decreases fields.len() - i,
        {
            let (tag, value) = &fields[i];
            assert(fs[i as int] == (*tag as nat, value.model()));
            assert(fs.take(i + 1).drop_last() =~= fs.take(i as int));
            if let Field::Bytes(b) = value {
                if *tag == 1 {
                    m.public_key = copy_bytes(b.as_slice());
                } else if *tag == 2 {
                    assert(typed(Nested::Recovery, fs[i as int]));
                    m.member_id = text_of(b);
                } else if *tag == 3 {
                    m.wraps = copy_bytes(b.as_slice());
                } else if *tag == 4 {
                    m.recovery_verifying_key = copy_bytes(b.as_slice());
                }
            }
            i = i + 1;
        }
        assert(fs.take(i as int) =~= fs);
        m
    }

    /// Parses the protobuf form.
    pub fn decode(bytes: &[u8]) -> (r: Result<RecoveryKey, Trouble>)
        ensures
            match r {
                Ok(m) => recovery_read(bytes@) == Ok::<RecoveryContent, Fault>(m@),
                Err(e) => recovery_read(bytes@) == Err::<RecoveryContent, Fault>(e@),
            },
    {
        match take_nested(Nested::Recovery, false, bytes, 0, bytes.len()) {
            Ok(fields) => Ok(RecoveryKey::of_fields(&fields)),
            Err(e) => Err(e),
        }
    }
}

/// What a keyring holds once one more field has been read.
spec fn with_part(k: KeyringContent, p: PartModel) -> KeyringContent {
    match p.value {
        FieldModel::Bytes(b) => if p.tag == 1 {
            KeyringContent { tree_id: b, ..k }
        } else if p.tag == 2 {
            KeyringContent { epochs: b, ..k }
        } else if p.tag == 7 {
            KeyringContent { prev_keyring_hash: b, ..k }
        } else if p.tag == 9 {
            KeyringContent { members: k.members.push(member_of_fields(p.inside)), ..k }
        } else if p.tag == 10 {
            KeyringContent { signatures: k.signatures.push(signature_of_fields(p.inside)), ..k }
        } else if p.tag == 11 {
            KeyringContent { recovery_keys: k.recovery_keys.push(recovery_of_fields(p.inside)), ..k }
        } else {
            k
        },
        FieldModel::Varint(v) => if p.tag == 3 {
            KeyringContent { revision: low_32(v), ..k }
        } else if p.tag == 6 {
            KeyringContent { layout_version: low_32(v), ..k }
        } else if p.tag == 12 {
            KeyringContent { governance_kind: low_32(v), ..k }
        } else if p.tag == 13 {
            KeyringContent { governance_threshold: low_32(v), ..k }
        } else if p.tag == 14 {
            KeyringContent { first_shared_revision: low_32(v), ..k }
        } else {
            k
        },
        FieldModel::Other => k,
    }
}

proof fn part_by_part(parts: Seq<PartModel>, p: PartModel)
    ensures
        keyring_of_parts(parts.push(p)) == with_part(keyring_of_parts(parts), p),
{
    assert(parts.push(p).drop_last() =~= parts);
    assert(outer(parts.push(p)) =~= outer(parts).push((p.tag, p.value)));
    assert(outer(parts).push((p.tag, p.value)).drop_last() =~= outer(parts));
    let a = keyring_of_parts(parts.push(p));
    let b = with_part(keyring_of_parts(parts), p);
    assert(a.members =~= b.members);
    assert(a.signatures =~= b.signatures);
    assert(a.recovery_keys =~= b.recovery_keys);
}

impl Keyring {
    /// Reads one field into a keyring.
    fn take_part(&mut self, part: &Part)
        requires
            part.wf(),
        ensures
            final(self)@ == with_part(old(self)@, part.model()),
    {
        let ghost before = self@;
        let tag: u32 = part.tag;
        match &part.value {
            Field::Varint(v) => {
                if tag == 3 {
                    self.revision = low_32_of(*v);
                } else if tag == 6 {
                    self.layout_version = low_32_of(*v);
                } else if tag == 12 {
                    self.governance_kind = low_32_of(*v);
                } else if tag == 13 {
                    self.governance_threshold = low_32_of(*v);
                } else if tag == 14 {
                    self.first_shared_revision = low_32_of(*v);
                }
            },
            Field::Bytes(b) => {
                if tag == 1 {
                    self.tree_id = copy_bytes(b.as_slice());
                } else if tag == 2 {
                    self.epochs = copy_bytes(b.as_slice());
                } else if tag == 7 {
                    self.prev_keyring_hash = copy_bytes(b.as_slice());
                } else if tag == 9 {
                    let m: Member = Member::of_fields(&part.inside);
                    let ghost added = m@;
                    self.members.push(m);
                    assert(self@.members =~= before.members.push(added));
                } else if tag == 10 {
                    let s: KeyringSignature = KeyringSignature::of_fields(&part.inside);
                    let ghost added = s@;
                    self.signatures.push(s);
                    assert(self@.signatures =~= before.signatures.push(added));
                } else if tag == 11 {
                    let r: RecoveryKey = RecoveryKey::of_fields(&part.inside);
                    let ghost added = r@;
                    self.recovery_keys.push(r);
                    assert(self@.recovery_keys =~= before.recovery_keys.push(added));
                }
            },
            Field::Other => {},
        }
    }

    /// Parses the protobuf form.
    pub fn decode(bytes: &[u8]) -> (r: Result<Keyring, Trouble>)
        ensures
            match r {
                Ok(k) => keyring_read(bytes@) == Ok::<KeyringContent, Fault>(k@),
                Err(e) => keyring_read(bytes@) == Err::<KeyringContent, Fault>(e@),
            },
    {
        let parts: Vec<Part> = match take_parts(bytes) {
            Ok(p) => p,
            Err(e) => {
                return Err(e);
            },
        };
        let ghost ps = part_models(parts@);
        let mut k: Keyring = Keyring::default();
        let mut i: usize = 0;
        proof {
            let none = keyring_of_parts(ps.take(0));
            assert(none.members =~= Seq::<MemberContent>::empty());
            assert(none.signatures =~= Seq::<SignatureContent>::empty());
            assert(none.recovery_keys =~= Seq::<RecoveryContent>::empty());
        }
        while i < parts.len()
            invariant
                i <= parts.len(),
                ps == part_models(parts@),
                forall|n: int| 0 <= n < parts@.len() ==> (#[trigger] parts@[n]).wf(),
                k@ == keyring_of_parts(ps.take(i as int)),
            decreases parts.len() - i,
        {
            assert(ps[i as int] == parts@[i as int].model());
            k.take_part(&parts[i]);
            proof {
                assert(ps.take(i + 1) =~= ps.take(i as int).push(ps[i as int]));
                part_by_part(ps.take(i as int), ps[i as int]);
            }
            i = i + 1;
        }
        assert(ps.take(i as int) =~= ps);
        Ok(k)
    }
}

/// Sizes that a machine can hold.
pub open spec fn member_fits(m: MemberContent) -> bool {
    &&& encode_utf8(m.member_id).len() <= u64::MAX
    &&& m.author_public_key.len() <= u64::MAX
    &&& m.hpke_public_key.len() <= u64::MAX
    &&& member_bytes(m).len() <= u64::MAX
}

pub open spec fn signature_fits(s: SignatureContent) -> bool {
    &&& s.signer_public_key.len() <= u64::MAX
    &&& s.signature.len() <= u64::MAX
    &&& signature_bytes(s).len() <= u64::MAX
}

pub open spec fn recovery_fits(r: RecoveryContent) -> bool {
    &&& r.public_key.len() <= u64::MAX
    &&& encode_utf8(r.member_id).len() <= u64::MAX
    &&& r.wraps.len() <= u64::MAX
    &&& r.recovery_verifying_key.len() <= u64::MAX
    &&& recovery_bytes(r).len() <= u64::MAX
}

pub open spec fn keyring_fits(k: KeyringContent) -> bool {
    &&& k.tree_id.len() <= u64::MAX
    &&& k.epochs.len() <= u64::MAX
    &&& k.prev_keyring_hash.len() <= u64::MAX
    &&& forall|i: int| 0 <= i < k.members.len() ==> member_fits(#[trigger] k.members[i])
    &&& forall|i: int| 0 <= i < k.signatures.len() ==> signature_fits(#[trigger] k.signatures[i])
    &&& forall|i: int| 0 <= i < k.recovery_keys.len() ==> recovery_fits(#[trigger] k.recovery_keys[i])
}

proof fn member_is_writable(m: MemberContent)
    requires
        member_fits(m),
    ensures
        writable(Nested::Member, pieces(member_parts(m))),
        separate(member_parts(m)),
{
    let p = member_parts(m);
    let good = |f: (nat, FieldModel)| field_fits(f) && nested_field(Nested::Member, f.0) is Some && typed(Nested::Member, f);
    vstd::utf8::encode_utf8_valid_utf8(m.member_id);
    assert(separate(p));
    pieces_keep(p, good);
    let fs = pieces(p);
    assert forall|i: int| 0 <= i < fs.len() implies field_fits(#[trigger] fs[i]) && nested_field(Nested::Member, fs[i].0) is Some
        && typed(Nested::Member, fs[i]) by {
        assert(good(fs[i]));
    }
}

/// Reading a member gives back what was written, alone and within a keyring.
pub proof fn member_reads_back(m: MemberContent)
    requires
        member_fits(m),
    ensures
        member_read(member_bytes(m)) == Ok::<MemberContent, Fault>(m),
        member_of_fields(alone(Nested::Member, member_bytes(m))) == m,
{
    let p = member_parts(m);
    member_is_writable(m);
    alone_reads_back(Nested::Member, false, pieces(p));
    alone_reads_back(Nested::Member, true, pieces(p));
    vstd::utf8::encode_utf8_decode_utf8(m.member_id);
    signed_bits_read_back(m.role);
    pieces_give(p, 0);
    pieces_give(p, 1);
    pieces_give(p, 2);
    pieces_give(p, 3);
    opt_bytes_gives(1, encode_utf8(m.member_id), 0);
    opt_varint_gives(2, signed_bits(m.role), 0);
    opt_bytes_gives(3, m.author_public_key, 0);
    opt_bytes_gives(4, m.hpke_public_key, 0);
}

proof fn signature_is_writable(s: SignatureContent)
    requires
        signature_fits(s),
    ensures
        writable(Nested::Signature, pieces(signature_parts(s))),
        separate(signature_parts(s)),
{
    let p = signature_parts(s);
    let good = |f: (nat, FieldModel)|
        field_fits(f) && nested_field(Nested::Signature, f.0) is Some && typed(Nested::Signature, f);
    assert(separate(p));
    pieces_keep(p, good);
    let fs = pieces(p);
    assert forall|i: int| 0 <= i < fs.len() implies field_fits(#[trigger] fs[i]) && nested_field(Nested::Signature, fs[i].0) is Some
        && typed(Nested::Signature, fs[i]) by {
        assert(good(fs[i]));
    }
}

/// Reading a signature gives back what was written, alone and within a keyring.
pub proof fn signature_reads_back(s: SignatureContent)
    requires
        signature_fits(s),
    ensures
        signature_read(signature_bytes(s)) == Ok::<SignatureContent, Fault>(s),
        signature_of_fields(alone(Nested::Signature, signature_bytes(s))) == s,
{
    let p = signature_parts(s);
    signature_is_writable(s);
    alone_reads_back(Nested::Signature, false, pieces(p));
    alone_reads_back(Nested::Signature, true, pieces(p));
    pieces_give(p, 0);
    pieces_give(p, 1);
    opt_bytes_gives(1, s.signer_public_key, 0);
    opt_bytes_gives(2, s.signature, 0);
}

proof fn recovery_is_writable(r: RecoveryContent)
    requires
        recovery_fits(r),
    ensures
        writable(Nested::Recovery, pieces(recovery_parts(r))),
        separate(recovery_parts(r)),
{
    let p = recovery_parts(r);
    let good = |f: (nat, FieldModel)| field_fits(f) && nested_field(Nested::Recovery, f.0) is Some && typed(Nested::Recovery, f);
    vstd::utf8::encode_utf8_valid_utf8(r.member_id);
    assert(separate(p));
    pieces_keep(p, good);
    let fs = pieces(p);
    assert forall|i: int| 0 <= i < fs.len() implies field_fits(#[trigger] fs[i]) && nested_field(Nested::Recovery, fs[i].0) is Some
        && typed(Nested::Recovery, fs[i]) by {
        assert(good(fs[i]));
    }
}

/// Reading a recovery key gives back what was written, alone and within a keyring.
pub proof fn recovery_reads_back(r: RecoveryContent)
    requires
        recovery_fits(r),
    ensures
        recovery_read(recovery_bytes(r)) == Ok::<RecoveryContent, Fault>(r),
        recovery_of_fields(alone(Nested::Recovery, recovery_bytes(r))) == r,
{
    let p = recovery_parts(r);
    recovery_is_writable(r);
    alone_reads_back(Nested::Recovery, false, pieces(p));
    alone_reads_back(Nested::Recovery, true, pieces(p));
    vstd::utf8::encode_utf8_decode_utf8(r.member_id);
    pieces_give(p, 0);
    pieces_give(p, 1);
    pieces_give(p, 2);
    pieces_give(p, 3);
    opt_bytes_gives(1, r.public_key, 0);
    opt_bytes_gives(2, encode_utf8(r.member_id), 0);
    opt_bytes_gives(3, r.wraps, 0);
    opt_bytes_gives(4, r.recovery_verifying_key, 0);
}

proof fn members_are_writable(s: Seq<MemberContent>)
    requires
        forall|i: int| 0 <= i < s.len() ==> member_fits(#[trigger] s[i]),
    ensures
        forall|i: int|
            0 <= i < s.len() ==> keyring_writable((9nat, FieldModel::Bytes(#[trigger] all_member_bytes(s)[i]))),
{
    let all = all_member_bytes(s);
    assert forall|i: int| 0 <= i < s.len() implies keyring_writable((9nat, FieldModel::Bytes(#[trigger] all[i]))) by {
        assert(member_fits(s[i]));
        member_is_writable(s[i]);
        assert(spells(Nested::Member, all[i], pieces(member_parts(s[i]))));
    }
}

proof fn members_read_back(s: Seq<MemberContent>)
    requires
        forall|i: int| 0 <= i < s.len() ==> member_fits(#[trigger] s[i]),
    ensures
        members_of(all_member_bytes(s).map_values(|body: Seq<u8>| alone(Nested::Member, body))) == s,
{
    let back = members_of(all_member_bytes(s).map_values(|body: Seq<u8>| alone(Nested::Member, body)));
    assert forall|i: int| 0 <= i < s.len() implies back[i] == s[i] by {
        assert(member_fits(s[i]));
        member_reads_back(s[i]);
    }
    assert(back =~= s);
}

proof fn signatures_are_writable(s: Seq<SignatureContent>)
    requires
        forall|i: int| 0 <= i < s.len() ==> signature_fits(#[trigger] s[i]),
    ensures
        forall|i: int|
            0 <= i < s.len() ==> keyring_writable((10nat, FieldModel::Bytes(#[trigger] all_signature_bytes(s)[i]))),
{
    let all = all_signature_bytes(s);
    assert forall|i: int| 0 <= i < s.len() implies keyring_writable((10nat, FieldModel::Bytes(#[trigger] all[i]))) by {
        assert(signature_fits(s[i]));
        signature_is_writable(s[i]);
        assert(spells(Nested::Signature, all[i], pieces(signature_parts(s[i]))));
    }
}

proof fn signatures_read_back(s: Seq<SignatureContent>)
    requires
        forall|i: int| 0 <= i < s.len() ==> signature_fits(#[trigger] s[i]),
    ensures
        signatures_of(all_signature_bytes(s).map_values(|body: Seq<u8>| alone(Nested::Signature, body))) == s,
{
    let back = signatures_of(all_signature_bytes(s).map_values(|body: Seq<u8>| alone(Nested::Signature, body)));
    assert forall|i: int| 0 <= i < s.len() implies back[i] == s[i] by {
        assert(signature_fits(s[i]));
        signature_reads_back(s[i]);
    }
    assert(back =~= s);
}

proof fn recoveries_are_writable(s: Seq<RecoveryContent>)
    requires
        forall|i: int| 0 <= i < s.len() ==> recovery_fits(#[trigger] s[i]),
    ensures
        forall|i: int|
            0 <= i < s.len() ==> keyring_writable((11nat, FieldModel::Bytes(#[trigger] all_recovery_bytes(s)[i]))),
{
    let all = all_recovery_bytes(s);
    assert forall|i: int| 0 <= i < s.len() implies keyring_writable((11nat, FieldModel::Bytes(#[trigger] all[i]))) by {
        assert(recovery_fits(s[i]));
        recovery_is_writable(s[i]);
        assert(spells(Nested::Recovery, all[i], pieces(recovery_parts(s[i]))));
    }
}

proof fn recoveries_read_back(s: Seq<RecoveryContent>)
    requires
        forall|i: int| 0 <= i < s.len() ==> recovery_fits(#[trigger] s[i]),
    ensures
        recoveries_of(all_recovery_bytes(s).map_values(|body: Seq<u8>| alone(Nested::Recovery, body))) == s,
{
    let back = recoveries_of(all_recovery_bytes(s).map_values(|body: Seq<u8>| alone(Nested::Recovery, body)));
    assert forall|i: int| 0 <= i < s.len() implies back[i] == s[i] by {
        assert(recovery_fits(s[i]));
        recovery_reads_back(s[i]);
    }
    assert(back =~= s);
}

proof fn keyring_parts_hold(k: KeyringContent)
    requires
        keyring_fits(k),
    ensures
        separate(keyring_parts(k)),
        forall|i: int|
            0 <= i < pieces(keyring_parts(k)).len() ==> keyring_writable(#[trigger] pieces(keyring_parts(k))[i]),
{
    let p = keyring_parts(k);
    let good = |f: (nat, FieldModel)| keyring_writable(f);
    members_are_writable(k.members);
    signatures_are_writable(k.signatures);
    recoveries_are_writable(k.recovery_keys);
    assert(separate(p));
    assert forall|i: int, j: int| 0 <= i < p.len() && 0 <= j < (#[trigger] p[i]).1.len() implies good(#[trigger] p[i].1[j]) by {
        if i == 5 {
            assert(p[i].1[j] == (9nat, FieldModel::Bytes(all_member_bytes(k.members)[j])));
        } else if i == 6 {
            assert(p[i].1[j] == (10nat, FieldModel::Bytes(all_signature_bytes(k.signatures)[j])));
        } else if i == 7 {
            assert(p[i].1[j] == (11nat, FieldModel::Bytes(all_recovery_bytes(k.recovery_keys)[j])));
        }
    }
    pieces_keep(p, good);
    assert forall|i: int| 0 <= i < pieces(p).len() implies keyring_writable(#[trigger] pieces(p)[i]) by {
        assert(good(pieces(p)[i]));
    }
}

proof fn keyring_fields_give(k: KeyringContent)
    requires
        keyring_fits(k),
        separate(keyring_parts(k)),
    ensures
        ({
            let fs = pieces(keyring_parts(k));
            &&& last_bytes(fs, 1) == k.tree_id
            &&& last_bytes(fs, 2) == k.epochs
            &&& last_varint(fs, 3) == k.revision
            &&& last_varint(fs, 6) == k.layout_version
            &&& last_bytes(fs, 7) == k.prev_keyring_hash
            &&& all_bytes(fs, 9) == all_member_bytes(k.members)
            &&& all_bytes(fs, 10) == all_signature_bytes(k.signatures)
            &&& all_bytes(fs, 11) == all_recovery_bytes(k.recovery_keys)
            &&& last_varint(fs, 12) == k.governance_kind
            &&& last_varint(fs, 13) == k.governance_threshold
            &&& last_varint(fs, 14) == k.first_shared_revision
        }),
{
    let p = keyring_parts(k);
    let fs = pieces(p);
    assert forall|i: int| 0 <= i < 11 implies last_bytes(fs, (#[trigger] p[i]).0) == last_bytes(p[i].1, p[i].0) && last_varint(
        fs,
        p[i].0,
    ) == last_varint(p[i].1, p[i].0) && all_bytes(fs, p[i].0) == all_bytes(p[i].1, p[i].0) by {
        pieces_give(p, i);
    }
    assert(p[0].0 == 1 && p[1].0 == 2 && p[2].0 == 3 && p[3].0 == 6 && p[4].0 == 7 && p[5].0 == 9 && p[6].0 == 10 && p[7].0
        == 11 && p[8].0 == 12 && p[9].0 == 13 && p[10].0 == 14);
    opt_bytes_gives(1, k.tree_id, 0);
    opt_bytes_gives(2, k.epochs, 0);
    opt_bytes_gives(7, k.prev_keyring_hash, 0);
    opt_varint_gives(3, k.revision as nat, 0);
    opt_varint_gives(6, k.layout_version as nat, 0);
    opt_varint_gives(12, k.governance_kind as nat, 0);
    opt_varint_gives(13, k.governance_threshold as nat, 0);
    opt_varint_gives(14, k.first_shared_revision as nat, 0);
    repeated_gives(9, all_member_bytes(k.members), 0);
    repeated_gives(10, all_signature_bytes(k.signatures), 0);
    repeated_gives(11, all_recovery_bytes(k.recovery_keys), 0);
}

/// Decoding gives back the keyring that was encoded.
pub proof fn keyring_round_trips(k: KeyringContent)
    requires
        keyring_fits(k),
    ensures
        keyring_read(keyring_bytes(k)) == Ok::<KeyringContent, Fault>(k),
{
    let fs = pieces(keyring_parts(k));
    keyring_parts_hold(k);
    parts_read_back(fs, Seq::empty());
    assert(Seq::<u8>::empty() + fields_bytes(fs) =~= fields_bytes(fs));
    keyring_fields_give(k);
    insides_of_written(fs, 9, Nested::Member);
    insides_of_written(fs, 10, Nested::Signature);
    insides_of_written(fs, 11, Nested::Recovery);
    members_read_back(k.members);
    signatures_read_back(k.signatures);
    recoveries_read_back(k.recovery_keys);
}

/// Stored key material cannot be used: it does not decode, or it is too large.
#[derive(Clone, Copy, Debug, PartialEq, Eq, Structural)]
pub struct KeyMaterialError;

/// How a key is wrapped.
#[derive(Clone, Copy, Debug, PartialEq, Eq, Structural)]
pub enum WrapMethod {
    /// To a member's own key.
    MemberHpke,
    /// To the founder's recovery root.
    RrkHpke,
    /// Under a key that a secret gives.
    Kek,
}

/// A key wrapped for one recipient.
#[derive(Clone, Debug, PartialEq, Eq)]
pub struct Wrap {
    pub recipient: String,
    pub method: WrapMethod,
}

/// One key generation: its place, and for whom its key is wrapped.
#[derive(Clone, Debug, PartialEq, Eq)]
pub struct Epoch {
    pub ordinal: u64,
    pub wraps: Vec<Wrap>,
}

impl Keyring {
    /// The key generations, given what their bytes decode to. Bytes over the limit are refused whatever they hold.
    pub fn key_material(&self, decoded: Option<Vec<Epoch>>) -> (r: Result<Vec<Epoch>, KeyMaterialError>)
        ensures
            match decoded {
                Some(e) if self.epochs@.len() <= MAX_KEY_MATERIAL_BYTES => r == Ok::<Vec<Epoch>, KeyMaterialError>(e),
                _ => r == Err::<Vec<Epoch>, KeyMaterialError>(KeyMaterialError),
            },
    {
        if self.epochs.len() > MAX_KEY_MATERIAL_BYTES {
            return Err(KeyMaterialError);
        }
        match decoded {
            Some(e) => Ok(e),
            None => Err(KeyMaterialError),
        }
    }
}

impl RecoveryKey {
    /// The wraps of the recovery root's private key, given what their bytes decode to.
    pub fn escrow_wraps(&self, decoded: Option<Vec<Wrap>>) -> (r: Result<Vec<Wrap>, KeyMaterialError>)
        ensures
            match decoded {
                Some(w) if self.wraps@.len() <= MAX_KEY_MATERIAL_BYTES => r == Ok::<Vec<Wrap>, KeyMaterialError>(w),
                _ => r == Err::<Vec<Wrap>, KeyMaterialError>(KeyMaterialError),
            },
    {
        if self.wraps.len() > MAX_KEY_MATERIAL_BYTES {
            return Err(KeyMaterialError);
        }
        match decoded {
            Some(w) => Ok(w),
            None => Err(KeyMaterialError),
        }
    }
}

} // verus!
