//! A keyring as the chain engine sees it: the fields it signs over, the commitment to the whole payload, and the
//! structural rules that a keyring must meet before anything else is asked of it.

use vstd::prelude::*;
use vstd::utf8::encode_utf8;

use crate::digest::{sha256, sha256_digest};
use crate::keyring_chain::wire::{
    Epoch, Keyring, KeyringContent, Member, MemberContent, RecoveryContent, RecoveryKey, Wrap, WrapMethod,
    KEYRING_LAYOUT_VERSION, MAX_KEY_MATERIAL_BYTES, MEMBER_OWNER,
};
use crate::layout::{be_bytes, be_bytes_injective, byte_ranges, equal_split, layout_lengths, put_u32_be};
use crate::order::{text_equal, utf8_injective};
use crate::text::{copy_bytes, push_bytes};

verus! {

/// The most members a keyring may list.
pub const MAX_MEMBERS: usize = 4096;

/// The most key generations a keyring may hold.
pub const MAX_EPOCHS: usize = 4096;

/// A member's role: the lower, the stronger.
#[derive(Clone, Copy, Debug, PartialEq, Eq, Structural)]
pub struct KeyringRole(pub i16);

impl KeyringRole {
    /// Whether this role is as strong as the other.
    pub fn grants_at_least(&self, other: &KeyringRole) -> (r: bool)
        ensures
            r == (self.0 <= other.0),
    {
        self.0 <= other.0
    }

    pub fn is_founder(&self) -> (r: bool)
        ensures
            r == (self.0 == MEMBER_OWNER),
    {
        self.0 == 1
    }

    /// Founder and co-owners sign.
    pub fn is_signer(&self) -> (r: bool)
        ensures
            r == (1 <= self.0 <= 2),
    {
        1 <= self.0 && self.0 <= 2
    }
}

/// The first thirty-two bytes, with zeros where there are fewer.
pub open spec fn padded(b: Seq<u8>) -> Seq<u8> {
    Seq::new(32, |i: int|
        if i < b.len() {
            b[i]
        } else {
            0u8
        })
}

/// The first thirty-two bytes, with zeros where there are fewer.
pub fn to_pk32(bytes: &[u8]) -> (r: [u8; 32])
    ensures
        r@ == padded(bytes@),
{
    let mut out: [u8; 32] = [0u8; 32];
    let mut i: usize = 0;
    while i < 32 && i < bytes.len()
        invariant
            i <= 32,
            i <= bytes@.len(),
            forall|k: int| 0 <= k < 32 ==> #[trigger] out@[k] == (if k < i {
                bytes@[k]
            } else {
                0u8
            }),
        decreases 32 - i,
    {
        out[i] = bytes[i];
        i = i + 1;
    }
    assert(out@ =~= padded(bytes@));
    out
}

/// A role on the narrower axis that views use; one out of its range counts as the weakest.
pub open spec fn role16(role: i32) -> i16 {
    if i16::MIN <= role <= i16::MAX {
        role as i16
    } else {
        i16::MAX
    }
}

pub fn narrow_role(role: i32) -> (r: i16)
    ensures
        r == role16(role),
{
    if role >= i16::MIN as i32 && role <= i16::MAX as i32 {
        role as i16
    } else {
        i16::MAX
    }
}

/// A count as it is written, in thirty-two bits.
pub open spec fn short(n: nat) -> nat {
    if n <= u32::MAX {
        n
    } else {
        u32::MAX as nat
    }
}

/// A byte string with its length before it.
pub open spec fn counted(b: Seq<u8>) -> Seq<u8> {
    be_bytes(short(b.len()), 4) + b
}

/// A role as the commitment takes it: in two's complement, in thirty-two bits.
pub open spec fn role_number(role: i32) -> nat {
    if role >= 0 {
        role as nat
    } else {
        (role + 0x1_0000_0000) as nat
    }
}

/// A member as the commitment takes it.
pub open spec fn member_payload(m: MemberContent) -> Seq<u8> {
    counted(encode_utf8(m.member_id)) + (be_bytes(role_number(m.role), 4) + (counted(m.author_public_key) + counted(
        m.hpke_public_key,
    )))
}

/// A recovery key as the commitment takes it.
pub open spec fn recovery_payload(r: RecoveryContent) -> Seq<u8> {
    counted(r.public_key) + (counted(encode_utf8(r.member_id)) + (counted(r.wraps) + counted(r.recovery_verifying_key)))
}

pub open spec fn members_payload(s: Seq<MemberContent>) -> Seq<u8>
    decreases s.len(),
{
    if s.len() == 0 {
        Seq::empty()
    } else {
        member_payload(s[0]) + members_payload(s.drop_first())
    }
}

pub open spec fn recoveries_payload(s: Seq<RecoveryContent>) -> Seq<u8>
    decreases s.len(),
{
    if s.len() == 0 {
        Seq::empty()
    } else {
        recovery_payload(s[0]) + recoveries_payload(s.drop_first())
    }
}

/// The whole payload but for the signatures, in the form that the commitment is taken of.
pub open spec fn payload(k: KeyringContent) -> Seq<u8> {
    counted(encode_utf8("openom:keyring:payload:v1"@)) + (counted(k.tree_id) + (be_bytes(k.revision as nat, 4) + (be_bytes(
        k.layout_version as nat,
        4,
    ) + (counted(k.prev_keyring_hash) + (be_bytes(short(k.members.len()), 4) + (members_payload(k.members) + (counted(
        k.epochs,
    ) + (be_bytes(short(k.recovery_keys.len()), 4) + (recoveries_payload(k.recovery_keys) + (be_bytes(
        k.governance_kind as nat,
        4,
    ) + (be_bytes(k.governance_threshold as nat, 4) + be_bytes(k.first_shared_revision as nat, 4))))))))))))
}

fn put_count(out: &mut Vec<u8>, n: usize)
    ensures
        final(out)@ == old(out)@ + be_bytes(short(n as nat), 4),
{
    if n as u64 <= u32::MAX as u64 {
        put_u32_be(out, n as u32);
    } else {
        put_u32_be(out, u32::MAX);
    }
}

fn put_bytes(out: &mut Vec<u8>, b: &[u8])
    ensures
        final(out)@ == old(out)@ + counted(b@),
{
    let ghost start = out@;
    put_count(out, b.len());
    push_bytes(out, b);
    assert(out@ =~= start + counted(b@));
}

/// Appending a part moves it from what is still to come to what is there.
proof fn moved(start: Seq<u8>, part: Seq<u8>, rest: Seq<u8>)
    ensures
        (start + part) + rest == start + (part + rest),
{
    assert((start + part) + rest =~= start + (part + rest));
}

impl Member {
    fn put_payload(&self, out: &mut Vec<u8>)
        ensures
            final(out)@ == old(out)@ + member_payload(self@),
    {
        let ghost start = out@;
        let ghost m = self@;
        let ghost t3 = counted(m.hpke_public_key);
        let ghost t2 = counted(m.author_public_key) + t3;
        let ghost t1 = be_bytes(role_number(m.role), 4) + t2;
        put_bytes(out, self.member_id.as_str().as_bytes());
        proof {
            moved(start, counted(encode_utf8(m.member_id)), t1);
        }
        let ghost o1 = out@;
        let role: u32 = if self.role >= 0 {
            self.role as u32
        } else {
            (self.role as i64 + 0x1_0000_0000) as u32
        };
        put_u32_be(out, role);
        proof {
            moved(o1, be_bytes(role_number(m.role), 4), t2);
        }
        let ghost o2 = out@;
        put_bytes(out, self.author_public_key.as_slice());
        proof {
            moved(o2, counted(m.author_public_key), t3);
        }
        put_bytes(out, self.hpke_public_key.as_slice());
    }
}

impl RecoveryKey {
    fn put_payload(&self, out: &mut Vec<u8>)
        ensures
            final(out)@ == old(out)@ + recovery_payload(self@),
    {
        let ghost start = out@;
        let ghost m = self@;
        let ghost t3 = counted(m.recovery_verifying_key);
        let ghost t2 = counted(m.wraps) + t3;
        let ghost t1 = counted(encode_utf8(m.member_id)) + t2;
        put_bytes(out, self.public_key.as_slice());
        proof {
            moved(start, counted(m.public_key), t1);
        }
        let ghost o1 = out@;
        put_bytes(out, self.member_id.as_str().as_bytes());
        proof {
            moved(o1, counted(encode_utf8(m.member_id)), t2);
        }
        let ghost o2 = out@;
        put_bytes(out, self.wraps.as_slice());
        proof {
            moved(o2, counted(m.wraps), t3);
        }
        put_bytes(out, self.recovery_verifying_key.as_slice());
    }
}

fn put_members(out: &mut Vec<u8>, members: &Vec<Member>)
    ensures
        final(out)@ == old(out)@ + members_payload(crate::keyring_chain::wire::member_contents(members@)),
{
    let ghost all = crate::keyring_chain::wire::member_contents(members@);
    let ghost goal = out@ + members_payload(all);
    let mut i: usize = 0;
    assert(all.skip(0) =~= all);
    while i < members.len()
        invariant
            i <= members.len(),
            all == crate::keyring_chain::wire::member_contents(members@),
            out@ + members_payload(all.skip(i as int)) == goal,
        decreases members.len() - i,
    {
        let ghost before = out@;
        members[i].put_payload(out);
        proof {
            assert(all.skip(i as int)[0] == members@[i as int]@);
            assert(all.skip(i as int).drop_first() =~= all.skip(i + 1));
            moved(before, member_payload(members@[i as int]@), members_payload(all.skip(i + 1)));
        }
        i = i + 1;
    }
    assert(all.skip(i as int) =~= Seq::empty());
    assert(out@ + Seq::<u8>::empty() =~= out@);
}

fn put_recoveries(out: &mut Vec<u8>, keys: &Vec<RecoveryKey>)
    ensures
        final(out)@ == old(out)@ + recoveries_payload(crate::keyring_chain::wire::recovery_contents(keys@)),
{
    let ghost all = crate::keyring_chain::wire::recovery_contents(keys@);
    let ghost goal = out@ + recoveries_payload(all);
    let mut i: usize = 0;
    assert(all.skip(0) =~= all);
    while i < keys.len()
        invariant
            i <= keys.len(),
            all == crate::keyring_chain::wire::recovery_contents(keys@),
            out@ + recoveries_payload(all.skip(i as int)) == goal,
        decreases keys.len() - i,
    {
        let ghost before = out@;
        keys[i].put_payload(out);
        proof {
            assert(all.skip(i as int)[0] == keys@[i as int]@);
            assert(all.skip(i as int).drop_first() =~= all.skip(i + 1));
            moved(before, recovery_payload(keys@[i as int]@), recoveries_payload(all.skip(i + 1)));
        }
        i = i + 1;
    }
    assert(all.skip(i as int) =~= Seq::empty());
    assert(out@ + Seq::<u8>::empty() =~= out@);
}

/// The commitment to the whole payload but for the signatures.
pub fn payload_commit(keyring: &Keyring) -> (r: [u8; 32])
    ensures
        r@ == sha256_digest(payload(keyring@)),
{
    let ghost k = keyring@;
    let ghost t12 = be_bytes(k.first_shared_revision as nat, 4);
    let ghost t11 = be_bytes(k.governance_threshold as nat, 4) + t12;
    let ghost t10 = be_bytes(k.governance_kind as nat, 4) + t11;
    let ghost t9 = recoveries_payload(k.recovery_keys) + t10;
    let ghost t8 = be_bytes(short(k.recovery_keys.len()), 4) + t9;
    let ghost t7 = counted(k.epochs) + t8;
    let ghost t6 = members_payload(k.members) + t7;
    let ghost t5 = be_bytes(short(k.members.len()), 4) + t6;
    let ghost t4 = counted(k.prev_keyring_hash) + t5;
    let ghost t3 = be_bytes(k.layout_version as nat, 4) + t4;
    let ghost t2 = be_bytes(k.revision as nat, 4) + t3;
    let ghost t1 = counted(k.tree_id) + t2;
    let mut out: Vec<u8> = Vec::new();
    put_bytes(&mut out, "openom:keyring:payload:v1".as_bytes());
    let ghost o0 = out@;
    assert(o0 =~= counted(encode_utf8("openom:keyring:payload:v1"@)));
    put_bytes(&mut out, keyring.tree_id.as_slice());
    let ghost o1 = out@;
    put_u32_be(&mut out, keyring.revision);
    let ghost o2 = out@;
    put_u32_be(&mut out, keyring.layout_version);
    let ghost o3 = out@;
    put_bytes(&mut out, keyring.prev_keyring_hash.as_slice());
    let ghost o4 = out@;
    put_count(&mut out, keyring.members.len());
    let ghost o5 = out@;
    put_members(&mut out, &keyring.members);
    let ghost o6 = out@;
    put_bytes(&mut out, keyring.epochs.as_slice());
    let ghost o7 = out@;
    put_count(&mut out, keyring.recovery_keys.len());
    let ghost o8 = out@;
    put_recoveries(&mut out, &keyring.recovery_keys);
    let ghost o9 = out@;
    put_u32_be(&mut out, keyring.governance_kind);
    let ghost o10 = out@;
    put_u32_be(&mut out, keyring.governance_threshold);
    let ghost o11 = out@;
    put_u32_be(&mut out, keyring.first_shared_revision);
    proof {
        moved(o0, counted(k.tree_id), t2);
        moved(o1, be_bytes(k.revision as nat, 4), t3);
        moved(o2, be_bytes(k.layout_version as nat, 4), t4);
        moved(o3, counted(k.prev_keyring_hash), t5);
        moved(o4, be_bytes(short(k.members.len()), 4), t6);
        moved(o5, members_payload(k.members), t7);
        moved(o6, counted(k.epochs), t8);
        moved(o7, be_bytes(short(k.recovery_keys.len()), 4), t9);
        moved(o8, recoveries_payload(k.recovery_keys), t10);
        moved(o9, be_bytes(k.governance_kind as nat, 4), t11);
        moved(o10, be_bytes(k.governance_threshold as nat, 4), t12);
    }
    sha256(out.as_slice())
}

proof fn number_splits(a: nat, r: Seq<u8>, b: nat, s: Seq<u8>)
    requires
        be_bytes(a, 4) + r == be_bytes(b, 4) + s,
        a <= u32::MAX,
        b <= u32::MAX,
    ensures
        a == b,
        r == s,
{
    byte_ranges();
    layout_lengths(a, 4);
    layout_lengths(b, 4);
    equal_split(be_bytes(a, 4), r, be_bytes(b, 4), s);
    be_bytes_injective(a, b, 4);
}

proof fn counted_splits(a: Seq<u8>, r: Seq<u8>, b: Seq<u8>, s: Seq<u8>)
    requires
        counted(a) + r == counted(b) + s,
        a.len() <= u32::MAX,
        b.len() <= u32::MAX,
    ensures
        a == b,
        r == s,
{
    moved(be_bytes(short(a.len()), 4), a, r);
    moved(be_bytes(short(b.len()), 4), b, s);
    number_splits(a.len(), a + r, b.len(), b + s);
    equal_split(a, r, b, s);
}

/// Lengths that a thirty-two-bit count can tell apart.
pub open spec fn member_plain(m: MemberContent) -> bool {
    &&& encode_utf8(m.member_id).len() <= u32::MAX
    &&& m.author_public_key.len() <= u32::MAX
    &&& m.hpke_public_key.len() <= u32::MAX
}

pub open spec fn recovery_plain(r: RecoveryContent) -> bool {
    &&& r.public_key.len() <= u32::MAX
    &&& encode_utf8(r.member_id).len() <= u32::MAX
    &&& r.wraps.len() <= u32::MAX
    &&& r.recovery_verifying_key.len() <= u32::MAX
}

pub open spec fn keyring_plain(k: KeyringContent) -> bool {
    &&& k.tree_id.len() <= u32::MAX
    &&& k.epochs.len() <= u32::MAX
    &&& k.prev_keyring_hash.len() <= u32::MAX
    &&& k.members.len() <= u32::MAX
    &&& k.recovery_keys.len() <= u32::MAX
    &&& forall|i: int| 0 <= i < k.members.len() ==> member_plain(#[trigger] k.members[i])
    &&& forall|i: int| 0 <= i < k.recovery_keys.len() ==> recovery_plain(#[trigger] k.recovery_keys[i])
}

proof fn member_splits(a: MemberContent, r: Seq<u8>, b: MemberContent, s: Seq<u8>)
    requires
        member_plain(a),
        member_plain(b),
        member_payload(a) + r == member_payload(b) + s,
    ensures
        a == b,
        r == s,
{
    let (ta, tb) = (counted(a.hpke_public_key), counted(b.hpke_public_key));
    let (ua, ub) = (counted(a.author_public_key) + ta, counted(b.author_public_key) + tb);
    let (va, vb) = (be_bytes(role_number(a.role), 4) + ua, be_bytes(role_number(b.role), 4) + ub);
    moved(counted(encode_utf8(a.member_id)), va, r);
    moved(counted(encode_utf8(b.member_id)), vb, s);
    counted_splits(encode_utf8(a.member_id), va + r, encode_utf8(b.member_id), vb + s);
    utf8_injective(a.member_id, b.member_id);
    moved(be_bytes(role_number(a.role), 4), ua, r);
    moved(be_bytes(role_number(b.role), 4), ub, s);
    number_splits(role_number(a.role), ua + r, role_number(b.role), ub + s);
    moved(counted(a.author_public_key), ta, r);
    moved(counted(b.author_public_key), tb, s);
    counted_splits(a.author_public_key, ta + r, b.author_public_key, tb + s);
    counted_splits(a.hpke_public_key, r, b.hpke_public_key, s);
}

proof fn recovery_splits(a: RecoveryContent, r: Seq<u8>, b: RecoveryContent, s: Seq<u8>)
    requires
        recovery_plain(a),
        recovery_plain(b),
        recovery_payload(a) + r == recovery_payload(b) + s,
    ensures
        a == b,
        r == s,
{
    let (ta, tb) = (counted(a.recovery_verifying_key), counted(b.recovery_verifying_key));
    let (ua, ub) = (counted(a.wraps) + ta, counted(b.wraps) + tb);
    let (va, vb) = (counted(encode_utf8(a.member_id)) + ua, counted(encode_utf8(b.member_id)) + ub);
    moved(counted(a.public_key), va, r);
    moved(counted(b.public_key), vb, s);
    counted_splits(a.public_key, va + r, b.public_key, vb + s);
    moved(counted(encode_utf8(a.member_id)), ua, r);
    moved(counted(encode_utf8(b.member_id)), ub, s);
    counted_splits(encode_utf8(a.member_id), ua + r, encode_utf8(b.member_id), ub + s);
    utf8_injective(a.member_id, b.member_id);
    moved(counted(a.wraps), ta, r);
    moved(counted(b.wraps), tb, s);
    counted_splits(a.wraps, ta + r, b.wraps, tb + s);
    counted_splits(a.recovery_verifying_key, r, b.recovery_verifying_key, s);
}

proof fn members_split(a: Seq<MemberContent>, r: Seq<u8>, b: Seq<MemberContent>, s: Seq<u8>)
    requires
        a.len() == b.len(),
        forall|i: int| 0 <= i < a.len() ==> member_plain(#[trigger] a[i]),
        forall|i: int| 0 <= i < b.len() ==> member_plain(#[trigger] b[i]),
        members_payload(a) + r == members_payload(b) + s,
    ensures
        a == b,
        r == s,
    decreases a.len(),
{
    if a.len() == 0 {
        assert(a =~= b);
        assert(Seq::<u8>::empty() + r =~= r);
        assert(Seq::<u8>::empty() + s =~= s);
    } else {
        let (ra, rb) = (a.drop_first(), b.drop_first());
        moved(member_payload(a[0]), members_payload(ra), r);
        moved(member_payload(b[0]), members_payload(rb), s);
        member_splits(a[0], members_payload(ra) + r, b[0], members_payload(rb) + s);
        assert forall|i: int| 0 <= i < ra.len() implies member_plain(#[trigger] ra[i]) && member_plain(rb[i]) by {
            assert(ra[i] == a[i + 1] && rb[i] == b[i + 1]);
        }
        members_split(ra, r, rb, s);
        assert(a =~= seq![a[0]] + ra);
        assert(b =~= seq![b[0]] + rb);
    }
}

proof fn recoveries_split(a: Seq<RecoveryContent>, r: Seq<u8>, b: Seq<RecoveryContent>, s: Seq<u8>)
    requires
        a.len() == b.len(),
        forall|i: int| 0 <= i < a.len() ==> recovery_plain(#[trigger] a[i]),
        forall|i: int| 0 <= i < b.len() ==> recovery_plain(#[trigger] b[i]),
        recoveries_payload(a) + r == recoveries_payload(b) + s,
    ensures
        a == b,
        r == s,
    decreases a.len(),
{
    if a.len() == 0 {
        assert(a =~= b);
        assert(Seq::<u8>::empty() + r =~= r);
        assert(Seq::<u8>::empty() + s =~= s);
    } else {
        let (ra, rb) = (a.drop_first(), b.drop_first());
        moved(recovery_payload(a[0]), recoveries_payload(ra), r);
        moved(recovery_payload(b[0]), recoveries_payload(rb), s);
        recovery_splits(a[0], recoveries_payload(ra) + r, b[0], recoveries_payload(rb) + s);
        assert forall|i: int| 0 <= i < ra.len() implies recovery_plain(#[trigger] ra[i]) && recovery_plain(rb[i]) by {
            assert(ra[i] == a[i + 1] && rb[i] == b[i + 1]);
        }
        recoveries_split(ra, r, rb, s);
        assert(a =~= seq![a[0]] + ra);
        assert(b =~= seq![b[0]] + rb);
    }
}

/// The payload binds every field but the signatures: two keyrings with one payload agree in all of them.
pub proof fn payload_binds_every_field(a: KeyringContent, b: KeyringContent)
    requires
        keyring_plain(a),
        keyring_plain(b),
        payload(a) == payload(b),
    ensures
        (KeyringContent { signatures: b.signatures, ..a }) == b,
{
    let (a12, b12) = (be_bytes(a.first_shared_revision as nat, 4), be_bytes(b.first_shared_revision as nat, 4));
    let (a11, b11) = (be_bytes(a.governance_threshold as nat, 4) + a12, be_bytes(b.governance_threshold as nat, 4) + b12);
    let (a10, b10) = (be_bytes(a.governance_kind as nat, 4) + a11, be_bytes(b.governance_kind as nat, 4) + b11);
    let (a9, b9) = (recoveries_payload(a.recovery_keys) + a10, recoveries_payload(b.recovery_keys) + b10);
    let (a8, b8) = (be_bytes(a.recovery_keys.len(), 4) + a9, be_bytes(b.recovery_keys.len(), 4) + b9);
    let (a7, b7) = (counted(a.epochs) + a8, counted(b.epochs) + b8);
    let (a6, b6) = (members_payload(a.members) + a7, members_payload(b.members) + b7);
    let (a5, b5) = (be_bytes(a.members.len(), 4) + a6, be_bytes(b.members.len(), 4) + b6);
    let (a4, b4) = (counted(a.prev_keyring_hash) + a5, counted(b.prev_keyring_hash) + b5);
    let (a3, b3) = (be_bytes(a.layout_version as nat, 4) + a4, be_bytes(b.layout_version as nat, 4) + b4);
    let (a2, b2) = (be_bytes(a.revision as nat, 4) + a3, be_bytes(b.revision as nat, 4) + b3);
    let (a1, b1) = (counted(a.tree_id) + a2, counted(b.tree_id) + b2);
    let tag = counted(encode_utf8("openom:keyring:payload:v1"@));
    equal_split(tag, a1, tag, b1);
    counted_splits(a.tree_id, a2, b.tree_id, b2);
    number_splits(a.revision as nat, a3, b.revision as nat, b3);
    number_splits(a.layout_version as nat, a4, b.layout_version as nat, b4);
    counted_splits(a.prev_keyring_hash, a5, b.prev_keyring_hash, b5);
    number_splits(a.members.len(), a6, b.members.len(), b6);
    members_split(a.members, a7, b.members, b7);
    counted_splits(a.epochs, a8, b.epochs, b8);
    number_splits(a.recovery_keys.len(), a9, b.recovery_keys.len(), b9);
    recoveries_split(a.recovery_keys, a10, b.recovery_keys, b10);
    number_splits(a.governance_kind as nat, a11, b.governance_kind as nat, b11);
    number_splits(a.governance_threshold as nat, a12, b.governance_threshold as nat, b12);
    byte_ranges();
    be_bytes_injective(a.first_shared_revision as nat, b.first_shared_revision as nat, 4);
}

/// Signatures are no part of the payload.
pub proof fn payload_ignores_signatures(a: KeyringContent, b: KeyringContent)
    requires
        (KeyringContent { signatures: b.signatures, ..a }) == b,
    ensures
        payload(a) == payload(b),
{
}

/// What a key generation holds, as far as the structural rules read it.
pub struct EpochContent {
    pub ordinal: u64,
    pub wraps: Seq<(Seq<char>, WrapMethod)>,
}

pub open spec fn wrap_contents(s: Seq<Wrap>) -> Seq<(Seq<char>, WrapMethod)> {
    Seq::new(s.len(), |i: int| (s[i].recipient@, s[i].method))
}

impl View for Epoch {
    type V = EpochContent;

    open spec fn view(&self) -> EpochContent {
        EpochContent { ordinal: self.ordinal, wraps: wrap_contents(self.wraps@) }
    }
}

pub open spec fn epoch_contents(s: Seq<Epoch>) -> Seq<EpochContent> {
    Seq::new(s.len(), |i: int| s[i]@)
}

/// The generation with the highest ordinal, the last of them where several have it.
pub open spec fn newest(s: Seq<EpochContent>) -> EpochContent
    decreases s.len(),
{
    if s.len() <= 1 {
        s[0]
    } else {
        let before = newest(s.drop_last());
        if s.last().ordinal >= before.ordinal {
            s.last()
        } else {
            before
        }
    }
}

/// The generation's key is wrapped for `id` in this way.
pub open spec fn wrapped_for(e: EpochContent, id: Seq<char>, method: WrapMethod) -> bool {
    e.wraps.contains((id, method))
}

/// The first owner stands at `f`.
pub open spec fn founder_at(members: Seq<MemberContent>, f: int) -> bool {
    &&& 0 <= f < members.len()
    &&& members[f].role == MEMBER_OWNER
    &&& forall|j: int| 0 <= j < f ==> (#[trigger] members[j]).role != MEMBER_OWNER
}

/// In this generation the founder is reached through the recovery root, and everyone else through their own key.
pub open spec fn everyone_wrapped(e: EpochContent, members: Seq<MemberContent>, founder: Seq<char>) -> bool {
    &&& wrapped_for(e, founder, WrapMethod::RrkHpke)
    &&& forall|i: int|
        0 <= i < members.len() && (#[trigger] members[i]).member_id != founder ==> wrapped_for(
            e,
            members[i].member_id,
            WrapMethod::MemberHpke,
        )
}

/// Nobody is locked out of the newest generation.
pub open spec fn wraps_complete(epochs: Seq<EpochContent>, members: Seq<MemberContent>) -> bool {
    epochs.len() > 0 && exists|f: int| #[trigger]
        founder_at(members, f) && everyone_wrapped(newest(epochs), members, members[f].member_id)
}

/// Why a keyring is structurally refused, if it is: `epochs` is what its key generations decode to, and `escrow` tells
/// of each recovery key whether its wraps decode.
pub open spec fn structure_fault(k: KeyringContent, epochs: Option<Seq<EpochContent>>, escrow: Seq<bool>) -> Option<&'static str> {
    if k.layout_version > KEYRING_LAYOUT_VERSION {
        Some("layout ahead")
    } else if k.members.len() > MAX_MEMBERS {
        Some("list too large")
    } else if epochs is None || k.epochs.len() > MAX_KEY_MATERIAL_BYTES || exists|i: int|
        0 <= i < k.recovery_keys.len() && ((#[trigger] k.recovery_keys[i]).wraps.len() > MAX_KEY_MATERIAL_BYTES || !escrow[i]) {
        Some("key material malformed")
    } else if epochs->0.len() > MAX_EPOCHS {
        Some("list too large")
    } else if epochs->0.len() == 0 {
        Some("no epochs")
    } else if exists|i: int| 0 <= i < epochs->0.len() && (#[trigger] epochs->0[i]).ordinal >= epochs->0.len() {
        Some("epoch ordinal out of range")
    } else if exists|i: int|
        0 <= i < k.members.len() && 1 <= (#[trigger] k.members[i]).role <= 2 && k.members[i].author_public_key.len() != 32 {
        Some("signer key malformed")
    } else if !wraps_complete(epochs->0, k.members) {
        Some("wrap incomplete")
    } else {
        None
    }
}

/// What the key generations decode to.
pub open spec fn decoded(epochs: Option<Vec<Epoch>>) -> Option<Seq<EpochContent>> {
    match epochs {
        Some(e) => Some(epoch_contents(e@)),
        None => None,
    }
}

fn is_wrapped_for(e: &Epoch, id: &str, method: WrapMethod) -> (r: bool)
    ensures
        r == wrapped_for(e@, id@, method),
{
    let mut i: usize = 0;
    while i < e.wraps.len()
        invariant
            i <= e.wraps.len(),
            forall|k: int| 0 <= k < i ==> #[trigger] e@.wraps[k] != (id@, method),
        decreases e.wraps.len() - i,
    {
        assert(e@.wraps[i as int] == (e.wraps@[i as int].recipient@, e.wraps@[i as int].method));
        if e.wraps[i].method == method && text_equal(e.wraps[i].recipient.as_str(), id) {
            return true;
        }
        i = i + 1;
    }
    false
}

fn newest_of(epochs: &Vec<Epoch>) -> (r: usize)
    requires
        epochs@.len() > 0,
    ensures
        r < epochs@.len(),
        epochs@[r as int]@ == newest(epoch_contents(epochs@)),
{
    let ghost all = epoch_contents(epochs@);
    let mut best: usize = 0;
    let mut i: usize = 1;
    while i < epochs.len()
        invariant
            1 <= i <= epochs@.len(),
            best < i,
            all == epoch_contents(epochs@),
            epochs@[best as int]@ == newest(all.take(i as int)),
        decreases epochs.len() - i,
    {
        assert(all.take(i + 1).drop_last() =~= all.take(i as int));
        if epochs[i].ordinal >= epochs[best].ordinal {
            best = i;
        }
        i = i + 1;
    }
    assert(all.take(i as int) =~= all);
    best
}

/// Whether nobody is locked out of the newest generation.
pub fn wrap_complete(epochs: &Vec<Epoch>, members: &Vec<Member>) -> (r: bool)
    ensures
        r == wraps_complete(epoch_contents(epochs@), crate::keyring_chain::wire::member_contents(members@)),
{
    let ghost all = crate::keyring_chain::wire::member_contents(members@);
    if epochs.len() == 0 {
        return false;
    }
    let n: usize = newest_of(epochs);
    let mut f: usize = 0;
    while f < members.len() && members[f].role != MEMBER_OWNER
        invariant
            f <= members.len(),
            all == crate::keyring_chain::wire::member_contents(members@),
            forall|j: int| 0 <= j < f ==> (#[trigger] all[j]).role != MEMBER_OWNER,
        decreases members.len() - f,
    {
        f = f + 1;
    }
    if f == members.len() {
        assert(forall|g: int| !(#[trigger] founder_at(all, g)));
        return false;
    }
    let founder = &members[f];
    let ghost e = epochs@[n as int]@;
    proof {
        assert(founder_at(all, f as int));
        assert forall|g: int| #[trigger] founder_at(all, g) implies g == f by {}
    }
    if !is_wrapped_for(&epochs[n], founder.member_id.as_str(), WrapMethod::RrkHpke) {
        return false;
    }
    let mut i: usize = 0;
    while i < members.len()
        invariant
            i <= members.len(),
            n < epochs@.len(),
            f < members@.len(),
            *founder == members@[f as int],
            e == epochs@[n as int]@,
            e == newest(epoch_contents(epochs@)),
            all == crate::keyring_chain::wire::member_contents(members@),
            forall|g: int| #[trigger] founder_at(all, g) ==> g == f,
            forall|k: int|
                0 <= k < i && (#[trigger] all[k]).member_id != founder.member_id@ ==> wrapped_for(
                    e,
                    all[k].member_id,
                    WrapMethod::MemberHpke,
                ),
        decreases members.len() - i,
    {
        let m = &members[i];
        assert(all[i as int] == m@);
        if !text_equal(m.member_id.as_str(), founder.member_id.as_str()) && !is_wrapped_for(
            &epochs[n],
            m.member_id.as_str(),
            WrapMethod::MemberHpke,
        ) {
            assert(!everyone_wrapped(e, all, all[f as int].member_id));
            return false;
        }
        i = i + 1;
    }
    assert(everyone_wrapped(e, all, all[f as int].member_id));
    true
}

/// The structural rules that a keyring must meet before its signatures are looked at.
pub fn structure(keyring: &Keyring, epochs: &Option<Vec<Epoch>>, escrow: &Vec<bool>) -> (r: Result<(), &'static str>)
    requires
        escrow@.len() == keyring.recovery_keys@.len(),
    ensures
        r == (match structure_fault(keyring@, decoded(*epochs), escrow@) {
            Some(fault) => Err::<(), &'static str>(fault),
            None => Ok::<(), &'static str>(()),
        }),
{
    let ghost k = keyring@;
    if keyring.layout_version > KEYRING_LAYOUT_VERSION {
        return Err("layout ahead");
    }
    if keyring.members.len() > MAX_MEMBERS {
        return Err("list too large");
    }
    if keyring.epochs.len() > MAX_KEY_MATERIAL_BYTES {
        return Err("key material malformed");
    }
    let e = match epochs {
        Some(e) => e,
        None => {
            return Err("key material malformed");
        },
    };
    let mut j: usize = 0;
    while j < keyring.recovery_keys.len()
        invariant
            j <= keyring.recovery_keys.len(),
            k == keyring@,
            escrow@.len() == keyring.recovery_keys@.len(),
            *epochs == Some(*e),
            k.layout_version <= KEYRING_LAYOUT_VERSION,
            k.members.len() <= MAX_MEMBERS,
            forall|n: int|
                0 <= n < j ==> (#[trigger] k.recovery_keys[n]).wraps.len() <= MAX_KEY_MATERIAL_BYTES && escrow@[n],
        decreases keyring.recovery_keys.len() - j,
    {
        assert(k.recovery_keys[j as int] == keyring.recovery_keys@[j as int]@);
        if keyring.recovery_keys[j].wraps.len() > MAX_KEY_MATERIAL_BYTES || !escrow[j] {
            return Err("key material malformed");
        }
        j = j + 1;
    }
    let ghost es = epoch_contents(e@);
    if e.len() > MAX_EPOCHS {
        return Err("list too large");
    }
    if e.len() == 0 {
        return Err("no epochs");
    }
    let total: usize = e.len();
    let mut n: usize = 0;
    let mut in_range: bool = true;
    while n < total
        invariant
            n <= total,
            total == e@.len(),
            es == epoch_contents(e@),
            in_range == (forall|m: int| 0 <= m < n ==> (#[trigger] es[m]).ordinal < es.len()),
        decreases total - n,
    {
        assert(es[n as int] == e@[n as int]@);
        if e[n].ordinal >= total as u64 {
            in_range = false;
        }
        n = n + 1;
    }
    if !in_range {
        return Err("epoch ordinal out of range");
    }
    let mut i: usize = 0;
    let mut keyed: bool = true;
    while i < keyring.members.len()
        invariant
            i <= keyring.members.len(),
            k == keyring@,
            keyed == (forall|j: int|
                0 <= j < i ==> !(1 <= (#[trigger] k.members[j]).role <= 2 && k.members[j].author_public_key.len() != 32)),
        decreases keyring.members.len() - i,
    {
        let m = &keyring.members[i];
        assert(k.members[i as int] == m@);
        if 1 <= m.role && m.role <= 2 && m.author_public_key.len() != 32 {
            keyed = false;
        }
        i = i + 1;
    }
    if !keyed {
        return Err("signer key malformed");
    }
    if !wrap_complete(e, &keyring.members) {
        return Err("wrap incomplete");
    }
    Ok(())
}

/// The recovery verifying key that a keyring pins: the first that is not empty.
pub open spec fn pinned_rvk(keys: Seq<RecoveryContent>) -> Option<Seq<u8>>
    decreases keys.len(),
{
    if keys.len() == 0 {
        None
    } else if keys[0].recovery_verifying_key.len() > 0 {
        Some(keys[0].recovery_verifying_key)
    } else {
        pinned_rvk(keys.drop_first())
    }
}

/// The recovery verifying key that a keyring pins: the first that is not empty.
pub fn reset_rvk(keyring: &Keyring) -> (r: Option<Vec<u8>>)
    ensures
        pinned_rvk(keyring@.recovery_keys) == (match r {
            Some(v) => Some(v@),
            None => None::<Seq<u8>>,
        }),
{
    let ghost all = keyring@.recovery_keys;
    let mut i: usize = 0;
    assert(all.skip(0) =~= all);
    while i < keyring.recovery_keys.len()
        invariant
            i <= keyring.recovery_keys.len(),
            all == keyring@.recovery_keys,
            pinned_rvk(all) == pinned_rvk(all.skip(i as int)),
        decreases keyring.recovery_keys.len() - i,
    {
        assert(all.skip(i as int)[0] == keyring.recovery_keys@[i as int]@);
        assert(all.skip(i as int).drop_first() =~= all.skip(i + 1));
        if keyring.recovery_keys[i].recovery_verifying_key.len() > 0 {
            return Some(copy_bytes(keyring.recovery_keys[i].recovery_verifying_key.as_slice()));
        }
        i = i + 1;
    }
    assert(all.skip(i as int) =~= Seq::empty());
    None
}

/// A member as the engine sees it.
#[derive(Clone, Debug, PartialEq, Eq)]
pub struct Signer {
    pub id: String,
    pub role: KeyringRole,
    pub public_key: [u8; 32],
}

/// What a signer holds.
pub struct SignerContent {
    pub id: Seq<char>,
    pub role: KeyringRole,
    pub public_key: Seq<u8>,
}

impl View for Signer {
    type V = SignerContent;

    open spec fn view(&self) -> SignerContent {
        SignerContent { id: self.id@, role: self.role, public_key: self.public_key@ }
    }
}

pub open spec fn signer_contents(s: Seq<Signer>) -> Seq<SignerContent> {
    Seq::new(s.len(), |i: int| s[i]@)
}

/// The signatures that have the right length, in order.
pub open spec fn usable_signatures(s: Seq<crate::keyring_chain::wire::SignatureContent>) -> Seq<Seq<u8>>
    decreases s.len(),
{
    if s.len() == 0 {
        Seq::empty()
    } else if s.last().signature.len() == 64 {
        usable_signatures(s.drop_last()).push(s.last().signature)
    } else {
        usable_signatures(s.drop_last())
    }
}

pub open spec fn byte_views(s: Seq<[u8; 64]>) -> Seq<Seq<u8>> {
    Seq::new(s.len(), |i: int| s[i]@)
}

/// A keyring in the terms of the engine.
#[derive(Clone, Debug, PartialEq, Eq)]
pub struct KeyringDoc {
    pub group_id: Vec<u8>,
    pub revision: u32,
    pub prev_hash: [u8; 32],
    pub layout_version: u32,
    pub members: Vec<Signer>,
    pub governance_kind: u32,
    pub governance_threshold: u32,
    pub recovery_authority: Option<[u8; 32]>,
    pub signatures: Vec<[u8; 64]>,
    pub payload_commitment: [u8; 32],
}

impl KeyringDoc {
    /// What the engine reads of a keyring.
    pub fn new(keyring: &Keyring) -> (r: KeyringDoc)
        ensures
            r.group_id@ == keyring@.tree_id,
            r.revision == keyring.revision,
            r.prev_hash@ == padded(keyring@.prev_keyring_hash),
            r.layout_version == keyring.layout_version,
            signer_contents(r.members@) == keyring@.members.map_values(
                |m: MemberContent|
                    SignerContent {
                        id: m.member_id,
                        role: KeyringRole(role16(m.role)),
                        public_key: padded(m.author_public_key),
                    },
            ),
            r.governance_kind == keyring.governance_kind,
            r.governance_threshold == keyring.governance_threshold,
            match r.recovery_authority {
                Some(key) => pinned_rvk(keyring@.recovery_keys) matches Some(v) && key@ == padded(v),
                None => pinned_rvk(keyring@.recovery_keys) is None,
            },
            byte_views(r.signatures@) == usable_signatures(keyring@.signatures),
            r.payload_commitment@ == sha256_digest(payload(keyring@)),
    {
        let recovery_authority: Option<[u8; 32]> = match reset_rvk(keyring) {
            Some(v) => Some(to_pk32(v.as_slice())),
            None => None,
        };
        KeyringDoc {
            group_id: copy_bytes(keyring.tree_id.as_slice()),
            revision: keyring.revision,
            prev_hash: to_pk32(keyring.prev_keyring_hash.as_slice()),
            layout_version: keyring.layout_version,
            members: doc_members(keyring),
            governance_kind: keyring.governance_kind,
            governance_threshold: keyring.governance_threshold,
            recovery_authority,
            signatures: doc_signatures(keyring),
            payload_commitment: payload_commit(keyring),
        }
    }
}

fn doc_members(keyring: &Keyring) -> (r: Vec<Signer>)
    ensures
        signer_contents(r@) == keyring@.members.map_values(
            |m: MemberContent|
                SignerContent { id: m.member_id, role: KeyringRole(role16(m.role)), public_key: padded(m.author_public_key) },
        ),
{
    let mut out: Vec<Signer> = Vec::new();
    let mut i: usize = 0;
    while i < keyring.members.len()
        invariant
            i <= keyring.members.len(),
            out@.len() == i,
            forall|j: int|
                0 <= j < i ==> (#[trigger] out@[j])@ == (SignerContent {
                    id: keyring@.members[j].member_id,
                    role: KeyringRole(role16(keyring@.members[j].role)),
                    public_key: padded(keyring@.members[j].author_public_key),
                }),
        decreases keyring.members.len() - i,
    {
        let m = &keyring.members[i];
        out.push(
            Signer {
                id: m.member_id.clone(),
                role: KeyringRole(narrow_role(m.role)),
                public_key: to_pk32(m.author_public_key.as_slice()),
            },
        );
        i = i + 1;
    }
    assert(signer_contents(out@) =~= keyring@.members.map_values(
        |m: MemberContent|
            SignerContent { id: m.member_id, role: KeyringRole(role16(m.role)), public_key: padded(m.author_public_key) },
    ));
    out
}

fn doc_signatures(keyring: &Keyring) -> (r: Vec<[u8; 64]>)
    ensures
        byte_views(r@) == usable_signatures(keyring@.signatures),
{
    let ghost all = keyring@.signatures;
    let mut out: Vec<[u8; 64]> = Vec::new();
    let mut i: usize = 0;
    assert(byte_views(out@) =~= Seq::<Seq<u8>>::empty());
    while i < keyring.signatures.len()
        invariant
            i <= keyring.signatures.len(),
            all == keyring@.signatures,
            byte_views(out@) == usable_signatures(all.take(i as int)),
        decreases keyring.signatures.len() - i,
    {
        assert(all.take(i + 1).drop_last() =~= all.take(i as int));
        assert(all[i as int] == keyring.signatures@[i as int]@);
        let ghost before = byte_views(out@);
        if let Ok(sig) = crate::keyring_dag::codec::sig64(keyring.signatures[i].signature.as_slice()) {
            out.push(sig);
            assert(byte_views(out@) =~= before.push(sig@));
        }
        i = i + 1;
    }
    assert(all.take(i as int) =~= all);
    out
}

} // verus!
