//! The keyring's message: what it reads as, and what is said of bytes that it is not made of.

use openom::keyring_chain::wire::{Keyring, KeyringSignature, Member, RecoveryKey};
use openom::protobuf::{key_trouble, pass_over, pass_over_within};
use prost::bytes::{Buf, BufMut};
use prost::encoding::{bytes, int32, message, skip_field, string, uint32, DecodeContext, WireType};
use prost::{DecodeError, Message};

// ---- the same messages, as the outside decoder takes them -------------------------------------------

#[derive(Clone, Debug, Default)]
struct PlainMember {
    member_id: String,
    role: i32,
    author_public_key: Vec<u8>,
    hpke_public_key: Vec<u8>,
}

#[derive(Clone, Debug, Default)]
struct PlainSignature {
    signer_public_key: Vec<u8>,
    signature: Vec<u8>,
}

#[derive(Clone, Debug, Default)]
struct PlainRecovery {
    public_key: Vec<u8>,
    member_id: String,
    wraps: Vec<u8>,
    recovery_verifying_key: Vec<u8>,
}

#[derive(Clone, Debug, Default)]
struct PlainKeyring {
    tree_id: Vec<u8>,
    epochs: Vec<u8>,
    revision: u32,
    layout_version: u32,
    prev_keyring_hash: Vec<u8>,
    members: Vec<PlainMember>,
    signatures: Vec<PlainSignature>,
    recovery_keys: Vec<PlainRecovery>,
    governance_kind: u32,
    governance_threshold: u32,
    first_shared_revision: u32,
}

fn placed(r: Result<(), DecodeError>, message: &'static str, field: &'static str) -> Result<(), DecodeError> {
    r.map_err(|mut e| {
        e.push(message, field);
        e
    })
}

impl Message for PlainMember {
    fn encode_raw(&self, _: &mut impl BufMut) {}
    fn merge_field(&mut self, tag: u32, w: WireType, b: &mut impl Buf, c: DecodeContext) -> Result<(), DecodeError> {
        match tag {
            1 => placed(string::merge(w, &mut self.member_id, b, c), "Member", "member_id"),
            2 => placed(int32::merge(w, &mut self.role, b, c), "Member", "role"),
            3 => placed(bytes::merge(w, &mut self.author_public_key, b, c), "Member", "author_public_key"),
            4 => placed(bytes::merge(w, &mut self.hpke_public_key, b, c), "Member", "hpke_public_key"),
            _ => skip_field(w, tag, b, c),
        }
    }
    fn encoded_len(&self) -> usize {
        0
    }
    fn clear(&mut self) {}
}

impl Message for PlainSignature {
    fn encode_raw(&self, _: &mut impl BufMut) {}
    fn merge_field(&mut self, tag: u32, w: WireType, b: &mut impl Buf, c: DecodeContext) -> Result<(), DecodeError> {
        match tag {
            1 => placed(bytes::merge(w, &mut self.signer_public_key, b, c), "KeyringSignature", "signer_public_key"),
            2 => placed(bytes::merge(w, &mut self.signature, b, c), "KeyringSignature", "signature"),
            _ => skip_field(w, tag, b, c),
        }
    }
    fn encoded_len(&self) -> usize {
        0
    }
    fn clear(&mut self) {}
}

impl Message for PlainRecovery {
    fn encode_raw(&self, _: &mut impl BufMut) {}
    fn merge_field(&mut self, tag: u32, w: WireType, b: &mut impl Buf, c: DecodeContext) -> Result<(), DecodeError> {
        match tag {
            1 => placed(bytes::merge(w, &mut self.public_key, b, c), "RecoveryKey", "public_key"),
            2 => placed(string::merge(w, &mut self.member_id, b, c), "RecoveryKey", "member_id"),
            3 => placed(bytes::merge(w, &mut self.wraps, b, c), "RecoveryKey", "wraps"),
            4 => placed(bytes::merge(w, &mut self.recovery_verifying_key, b, c), "RecoveryKey", "recovery_verifying_key"),
            _ => skip_field(w, tag, b, c),
        }
    }
    fn encoded_len(&self) -> usize {
        0
    }
    fn clear(&mut self) {}
}

impl Message for PlainKeyring {
    fn encode_raw(&self, _: &mut impl BufMut) {}
    fn merge_field(&mut self, tag: u32, w: WireType, b: &mut impl Buf, c: DecodeContext) -> Result<(), DecodeError> {
        let k = "Keyring";
        match tag {
            1 => placed(bytes::merge(w, &mut self.tree_id, b, c), k, "tree_id"),
            2 => placed(bytes::merge(w, &mut self.epochs, b, c), k, "epochs"),
            3 => placed(uint32::merge(w, &mut self.revision, b, c), k, "revision"),
            6 => placed(uint32::merge(w, &mut self.layout_version, b, c), k, "layout_version"),
            7 => placed(bytes::merge(w, &mut self.prev_keyring_hash, b, c), k, "prev_keyring_hash"),
            9 => placed(message::merge_repeated(w, &mut self.members, b, c), k, "members"),
            10 => placed(message::merge_repeated(w, &mut self.signatures, b, c), k, "signatures"),
            11 => placed(message::merge_repeated(w, &mut self.recovery_keys, b, c), k, "recovery_keys"),
            12 => placed(uint32::merge(w, &mut self.governance_kind, b, c), k, "governance_kind"),
            13 => placed(uint32::merge(w, &mut self.governance_threshold, b, c), k, "governance_threshold"),
            14 => placed(uint32::merge(w, &mut self.first_shared_revision, b, c), k, "first_shared_revision"),
            _ => skip_field(w, tag, b, c),
        }
    }
    fn encoded_len(&self) -> usize {
        0
    }
    fn clear(&mut self) {}
}

fn told(bytes: &[u8]) -> Result<Keyring, String> {
    let k = PlainKeyring::decode(bytes).map_err(|e| e.to_string())?;
    Ok(Keyring {
        tree_id: k.tree_id,
        epochs: k.epochs,
        revision: k.revision,
        layout_version: k.layout_version,
        prev_keyring_hash: k.prev_keyring_hash,
        members: k
            .members
            .into_iter()
            .map(|m| Member {
                member_id: m.member_id,
                role: m.role,
                author_public_key: m.author_public_key,
                hpke_public_key: m.hpke_public_key,
            })
            .collect(),
        signatures: k
            .signatures
            .into_iter()
            .map(|s| KeyringSignature { signer_public_key: s.signer_public_key, signature: s.signature })
            .collect(),
        recovery_keys: k
            .recovery_keys
            .into_iter()
            .map(|r| RecoveryKey {
                public_key: r.public_key,
                member_id: r.member_id,
                wraps: r.wraps,
                recovery_verifying_key: r.recovery_verifying_key,
            })
            .collect(),
        governance_kind: k.governance_kind,
        governance_threshold: k.governance_threshold,
        first_shared_revision: k.first_shared_revision,
    })
}

fn read(bytes: &[u8]) -> Result<Keyring, String> {
    Keyring::decode(bytes).map_err(|e| e.message())
}

fn sample() -> Keyring {
    Keyring {
        tree_id: vec![7; 3],
        epochs: vec![1, 2],
        revision: 300,
        layout_version: 1,
        prev_keyring_hash: vec![4; 5],
        members: vec![
            Member { member_id: "a".into(), role: -2, author_public_key: vec![9], hpke_public_key: vec![8, 8] },
            Member { member_id: "\u{e9}".into(), role: 2, author_public_key: vec![], hpke_public_key: vec![] },
        ],
        signatures: vec![KeyringSignature { signer_public_key: vec![1], signature: vec![2; 4] }],
        recovery_keys: vec![RecoveryKey {
            public_key: vec![5],
            member_id: "o".into(),
            wraps: vec![6],
            recovery_verifying_key: vec![7],
        }],
        governance_kind: 2,
        governance_threshold: 3,
        first_shared_revision: 4,
    }
}

const PREFIX: &str = "failed to decode Protobuf message: ";

#[test]
fn decoding_reads_and_refuses_as_the_outside_decoder_does() {
    let whole = sample().encode_to_vec();
    assert_eq!(read(&whole), Ok(sample()));
    assert_eq!(told(&whole), Ok(sample()));
    let mut refused = 0;
    for n in 0..=whole.len() {
        assert_eq!(read(&whole[..n]), told(&whole[..n]), "cut at {n}");
    }
    for i in 0..whole.len() {
        for byte in 0..=255u8 {
            let mut other = whole.clone();
            other[i] = byte;
            let r = read(&other);
            refused += usize::from(r.is_err());
            assert_eq!(r, told(&other), "byte {i} is {byte}");
        }
    }
    assert!(refused > 1000, "many of these are refused: {refused}");
}

#[test]
fn a_refusal_says_where_and_why() {
    let says = |bytes: &[u8], words: &str| {
        assert_eq!(read(bytes), Err(format!("{PREFIX}{words}")));
        assert_eq!(told(bytes), Err(format!("{PREFIX}{words}")));
    };
    says(&[0x80], "invalid varint");
    says(&[0x80, 0x80, 0x80, 0x80, 0x10], "invalid key value: 4294967296");
    says(&[0x0f], "invalid wire type value: 7");
    says(&[0x00], "invalid tag value: 0");
    says(&[0x18], "Keyring.revision: invalid varint");
    says(&[0x1a, 0], "Keyring.revision: invalid wire type: LengthDelimited (expected Varint)");
    says(&[0x0d, 0, 0, 0, 0], "Keyring.tree_id: invalid wire type: ThirtyTwoBit (expected LengthDelimited)");
    says(&[0x49], "Keyring.members: invalid wire type: SixtyFourBit (expected LengthDelimited)");
    says(&[0x4b], "Keyring.members: invalid wire type: StartGroup (expected LengthDelimited)");
    says(&[0x4c], "Keyring.members: invalid wire type: EndGroup (expected LengthDelimited)");
    says(&[0x0a, 2, 1], "Keyring.tree_id: buffer underflow");
    says(&[0x4a, 3, 0x0a, 1], "Keyring.members: buffer underflow");
    says(&[0x4a, 3, 0x0a, 1, 0xff], "Member.member_id: Keyring.members: invalid string value: data is not UTF-8 encoded");
    says(&[0x4a, 1, 0x10], "Member.role: Keyring.members: invalid varint");
    says(&[0x52, 2, 0x0a, 1, 7], "Keyring.signatures: delimited length exceeded");
    says(&[0x5a, 1, 0x07], "Keyring.recovery_keys: invalid wire type value: 7");
    says(&[0x5a, 1, 0x2c], "Keyring.recovery_keys: unexpected end group tag");
    says(&[0x2c], "unexpected end group tag");
    says(&[0x2d, 1], "buffer underflow");
    says(&[0x29, 1, 2, 3, 4, 5, 6, 7], "buffer underflow");
    says(&[0x2b, 0x34], "unexpected end group tag");
    says(&[0x2b], "invalid varint");
    let deep: Vec<u8> = vec![0x2b; 101];
    says(&deep, "recursion limit reached");
}

#[test]
fn unknown_fields_are_passed_over() {
    let mut k = Keyring { revision: 5, ..Default::default() };
    let group = [0x2b, 0x08, 1, 0x2b, 0x2c, 0x2c];
    let fixed = [0x29, 0, 1, 2, 3, 4, 5, 6, 7, 0x2d, 0, 1, 2, 3, 0x40, 9, 0x42, 1, 0];
    let bytes: Vec<u8> = [&group[..], &k.encode_to_vec(), &fixed[..]].concat();
    assert_eq!(read(&bytes), Ok(k.clone()));
    assert_eq!(told(&bytes), Ok(k.clone()));
    k.members = vec![Member { member_id: "m".into(), role: 1, author_public_key: vec![], hpke_public_key: vec![] }];
    let member = [&group[..], &k.members[0].encode_to_vec(), &fixed[..]].concat();
    let nested = [&[0x18, 5, 0x4a, member.len() as u8][..], &member].concat();
    assert_eq!(read(&nested), Ok(k.clone()));
    assert_eq!(told(&nested), Ok(k));
    assert_eq!(pass_over(3, 5, &group[1..]), Ok(5));
    assert_eq!(pass_over(0, 5, &[]), Err("invalid varint".to_string()));
    assert_eq!(pass_over(5, 5, &[0; 4]), Ok(4));
    assert_eq!(key_trouble(&[0x06]), "invalid wire type value: 6");
}

#[test]
fn unknown_groups_lie_only_so_deep_in_each_other() {
    let groups = |n: usize| [vec![0x2b; n], vec![0x2c; n]].concat();
    let nested = |body: &[u8]| {
        let mut out = vec![0x4a];
        prost::encoding::encode_varint(body.len() as u64, &mut out);
        out.extend_from_slice(body);
        out
    };
    for n in 97..103 {
        let g = groups(n);
        for bytes in [g.clone(), nested(&g), nested(&g[..2 * n - 1]), nested(&[&g[..], &[0x07]].concat())] {
            assert_eq!(read(&bytes), told(&bytes), "{n} groups");
        }
    }
    assert!(read(&groups(100)).is_ok() && read(&groups(101)).is_err());
    assert!(read(&nested(&groups(99))).is_ok() && read(&nested(&groups(100))).is_err());
    assert_eq!(pass_over_within(3, 5, &[0x2c]), Ok(1));
    assert_eq!(pass_over_within(3, 5, &[0x34]), Err("unexpected end group tag".to_string()));
}

#[test]
fn nested_messages_stand_alone() {
    let m = sample().members[0].clone();
    assert_eq!(Member::decode(&m.encode_to_vec()), Ok(m));
    let s = sample().signatures[0].clone();
    assert_eq!(KeyringSignature::decode(&s.encode_to_vec()), Ok(s));
    let r = sample().recovery_keys[0].clone();
    assert_eq!(RecoveryKey::decode(&r.encode_to_vec()), Ok(r));
    assert_eq!(
        Member::decode(&[0x12, 0]).unwrap_err().message(),
        format!("{PREFIX}Member.role: invalid wire type: LengthDelimited (expected Varint)")
    );
    assert_eq!(
        KeyringSignature::decode(&[0x10, 0]).unwrap_err().message(),
        format!("{PREFIX}KeyringSignature.signature: invalid wire type: Varint (expected LengthDelimited)")
    );
    assert_eq!(
        RecoveryKey::decode(&[0x12, 2, 0x61]).unwrap_err().message(),
        format!("{PREFIX}RecoveryKey.member_id: buffer underflow")
    );
}
