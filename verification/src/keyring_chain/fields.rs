//! Under which numbers a keyring's fields are written.

use vstd::prelude::*;
use vstd::utf8::decode_utf8;

use crate::keyring_chain::message::{insides, outer, parts_read, PartModel};
use crate::keyring_chain::wire::{keyring_read, KeyringContent, MemberContent, RecoveryContent, SignatureContent};
use crate::protobuf::{last_bytes, last_varint, Fault, FieldModel};

verus! {

/// The number under this tag: the last that the message has there, or zero where it has none.
pub open spec fn number_under(fs: Seq<(nat, FieldModel)>, tag: nat, v: nat) -> bool {
    ||| exists|i: int|
        0 <= i < fs.len() && #[trigger] fs[i] == (tag, FieldModel::Varint(v)) && forall|j: int|
            i < j < fs.len() ==> !((#[trigger] fs[j]).0 == tag && fs[j].1 is Varint)
    ||| v == 0 && forall|j: int| 0 <= j < fs.len() ==> !((#[trigger] fs[j]).0 == tag && fs[j].1 is Varint)
}

/// The bytes under this tag: the last that the message has there, or none where it has none.
pub open spec fn bytes_under(fs: Seq<(nat, FieldModel)>, tag: nat, v: Seq<u8>) -> bool {
    ||| exists|i: int|
        0 <= i < fs.len() && #[trigger] fs[i] == (tag, FieldModel::Bytes(v)) && forall|j: int|
            i < j < fs.len() ==> !((#[trigger] fs[j]).0 == tag && fs[j].1 is Bytes)
    ||| v.len() == 0 && forall|j: int| 0 <= j < fs.len() ==> !((#[trigger] fs[j]).0 == tag && fs[j].1 is Bytes)
}

proof fn last_number_is_under(fs: Seq<(nat, FieldModel)>, tag: nat)
    ensures
        number_under(fs, tag, last_varint(fs, tag)),
    decreases fs.len(),
{
    if fs.len() > 0 {
        let n = fs.len() - 1;
        let t = fs.drop_last();
        if fs[n].0 == tag && fs[n].1 is Varint {
            assert(fs[n] == (tag, FieldModel::Varint(last_varint(fs, tag))));
        } else {
            last_number_is_under(t, tag);
            let v = last_varint(t, tag);
            if exists|i: int|
                0 <= i < t.len() && #[trigger] t[i] == (tag, FieldModel::Varint(v)) && forall|j: int|
                    i < j < t.len() ==> !((#[trigger] t[j]).0 == tag && t[j].1 is Varint) {
                let i = choose|i: int|
                    0 <= i < t.len() && #[trigger] t[i] == (tag, FieldModel::Varint(v)) && forall|j: int|
                        i < j < t.len() ==> !((#[trigger] t[j]).0 == tag && t[j].1 is Varint);
                assert(fs[i] == (tag, FieldModel::Varint(v)));
                assert forall|j: int| i < j < fs.len() implies !((#[trigger] fs[j]).0 == tag && fs[j].1 is Varint) by {
                    if j < n {
                        assert(t[j] == fs[j]);
                    }
                }
            } else {
                assert forall|j: int| 0 <= j < fs.len() implies !((#[trigger] fs[j]).0 == tag && fs[j].1 is Varint) by {
                    if j < n {
                        assert(t[j] == fs[j]);
                    }
                }
            }
        }
    }
}

proof fn last_bytes_are_under(fs: Seq<(nat, FieldModel)>, tag: nat)
    ensures
        bytes_under(fs, tag, last_bytes(fs, tag)),
    decreases fs.len(),
{
    if fs.len() > 0 {
        let n = fs.len() - 1;
        let t = fs.drop_last();
        if fs[n].0 == tag && fs[n].1 is Bytes {
            assert(fs[n] == (tag, FieldModel::Bytes(last_bytes(fs, tag))));
        } else {
            last_bytes_are_under(t, tag);
            let v = last_bytes(t, tag);
            if exists|i: int|
                0 <= i < t.len() && #[trigger] t[i] == (tag, FieldModel::Bytes(v)) && forall|j: int|
                    i < j < t.len() ==> !((#[trigger] t[j]).0 == tag && t[j].1 is Bytes) {
                let i = choose|i: int|
                    0 <= i < t.len() && #[trigger] t[i] == (tag, FieldModel::Bytes(v)) && forall|j: int|
                        i < j < t.len() ==> !((#[trigger] t[j]).0 == tag && t[j].1 is Bytes);
                assert(fs[i] == (tag, FieldModel::Bytes(v)));
                assert forall|j: int| i < j < fs.len() implies !((#[trigger] fs[j]).0 == tag && fs[j].1 is Bytes) by {
                    if j < n {
                        assert(t[j] == fs[j]);
                    }
                }
            } else {
                assert forall|j: int| 0 <= j < fs.len() implies !((#[trigger] fs[j]).0 == tag && fs[j].1 is Bytes) by {
                    if j < n {
                        assert(t[j] == fs[j]);
                    }
                }
            }
        }
    }
}

/// The number under this tag, cut to thirty-two bits.
pub open spec fn word_under(fs: Seq<(nat, FieldModel)>, tag: nat, v: u32) -> bool {
    exists|n: nat| #[trigger] number_under(fs, tag, n) && v == n % 0x1_0000_0000
}

/// The text under this tag.
pub open spec fn text_under(fs: Seq<(nat, FieldModel)>, tag: nat, v: Seq<char>) -> bool {
    exists|b: Seq<u8>| #[trigger] bytes_under(fs, tag, b) && v == decode_utf8(b)
}

/// The message is this member: their id is field one, their role, as thirty-two bits with a sign, field two, and their keys
/// fields three and four.
pub open spec fn is_member(fs: Seq<(nat, FieldModel)>, m: MemberContent) -> bool {
    &&& text_under(fs, 1, m.member_id)
    &&& exists|n: nat| #[trigger] number_under(fs, 2, n) && (m.role - n) % 0x1_0000_0000 == 0
    &&& bytes_under(fs, 3, m.author_public_key)
    &&& bytes_under(fs, 4, m.hpke_public_key)
}

/// The message is this signature: its signer is field one, its bytes are field two.
pub open spec fn is_signature(fs: Seq<(nat, FieldModel)>, s: SignatureContent) -> bool {
    bytes_under(fs, 1, s.signer_public_key) && bytes_under(fs, 2, s.signature)
}

/// The message is this recovery root.
pub open spec fn is_recovery(fs: Seq<(nat, FieldModel)>, r: RecoveryContent) -> bool {
    bytes_under(fs, 1, r.public_key) && text_under(fs, 2, r.member_id) && bytes_under(fs, 3, r.wraps) && bytes_under(
        fs,
        4,
        r.recovery_verifying_key,
    )
}

/// Under which numbers a keyring's fields are read: its tree under one, its generations under two, its revision under
/// three, its layout under six, the digest before under seven, its members under nine, its signatures under ten, its
/// recovery roots under eleven, its governance under twelve and thirteen, and its shared mark under fourteen.
pub proof fn which_field_is_which(b: Seq<u8>, parts: Seq<PartModel>, k: KeyringContent)
    requires
        keyring_read(b) == Ok::<KeyringContent, Fault>(k),
        parts_read(b, 0) == Ok::<Seq<PartModel>, Fault>(parts),
    ensures
        bytes_under(outer(parts), 1, k.tree_id),
        bytes_under(outer(parts), 2, k.epochs),
        word_under(outer(parts), 3, k.revision),
        word_under(outer(parts), 6, k.layout_version),
        bytes_under(outer(parts), 7, k.prev_keyring_hash),
        word_under(outer(parts), 12, k.governance_kind),
        word_under(outer(parts), 13, k.governance_threshold),
        word_under(outer(parts), 14, k.first_shared_revision),
        k.members.len() == insides(parts, 9).len(),
        forall|i: int| 0 <= i < k.members.len() ==> is_member(insides(parts, 9)[i], #[trigger] k.members[i]),
        k.signatures.len() == insides(parts, 10).len(),
        forall|i: int| 0 <= i < k.signatures.len() ==> is_signature(insides(parts, 10)[i], #[trigger] k.signatures[i]),
        k.recovery_keys.len() == insides(parts, 11).len(),
        forall|i: int| 0 <= i < k.recovery_keys.len() ==> is_recovery(insides(parts, 11)[i], #[trigger] k.recovery_keys[i]),
{
    let fs = outer(parts);
    last_bytes_are_under(fs, 1);
    last_bytes_are_under(fs, 2);
    last_number_is_under(fs, 3);
    last_number_is_under(fs, 6);
    last_bytes_are_under(fs, 7);
    last_number_is_under(fs, 12);
    last_number_is_under(fs, 13);
    last_number_is_under(fs, 14);
    assert forall|i: int| 0 <= i < k.members.len() implies is_member(insides(parts, 9)[i], #[trigger] k.members[i]) by {
        let m = insides(parts, 9)[i];
        last_bytes_are_under(m, 1);
        last_number_is_under(m, 2);
        last_bytes_are_under(m, 3);
        last_bytes_are_under(m, 4);
        let n = last_varint(m, 2);
        assert((k.members[i].role - n) % 0x1_0000_0000 == 0) by {
            let low = n % 0x1_0000_0000;
            assert(n == 0x1_0000_0000 * (n / 0x1_0000_0000) + low);
        }
        assert(number_under(m, 2, n));
    }
    assert forall|i: int| 0 <= i < k.signatures.len() implies is_signature(insides(parts, 10)[i], #[trigger] k.signatures[i]) by {
        last_bytes_are_under(insides(parts, 10)[i], 1);
        last_bytes_are_under(insides(parts, 10)[i], 2);
    }
    assert forall|i: int| 0 <= i < k.recovery_keys.len() implies is_recovery(insides(parts, 11)[i], #[trigger] k.recovery_keys[i]) by {
        let r = insides(parts, 11)[i];
        last_bytes_are_under(r, 1);
        last_bytes_are_under(r, 2);
        last_bytes_are_under(r, 3);
        last_bytes_are_under(r, 4);
    }
}

/// The positions, in rising order, of the parts under this tag that have a body.
pub open spec fn places_under(parts: Seq<PartModel>, tag: nat, at: Seq<int>) -> bool {
    &&& forall|i: int| 0 <= i < at.len() ==> 0 <= #[trigger] at[i] < parts.len() && parts[at[i]].tag == tag && parts[at[i]].value is Bytes
    &&& forall|i: int| 0 <= i < parts.len() && (#[trigger] parts[i]).tag == tag && parts[i].value is Bytes ==> at.contains(i)
    &&& forall|i: int, j: int| 0 <= i < j < at.len() ==> #[trigger] at[i] < #[trigger] at[j]
}

/// The nested messages under a tag are those of every part under it, in order.
pub proof fn which_messages_are_nested(parts: Seq<PartModel>, tag: nat) -> (at: Seq<int>)
    ensures
        places_under(parts, tag, at),
        insides(parts, tag).len() == at.len(),
        forall|i: int| 0 <= i < at.len() ==> #[trigger] insides(parts, tag)[i] == parts[at[i]].inside,
    decreases parts.len(),
{
    if parts.len() == 0 {
        Seq::empty()
    } else {
        let t = parts.drop_last();
        let n = parts.len() - 1;
        let before = which_messages_are_nested(t, tag);
        assert forall|i: int| 0 <= i < n implies parts[i] == t[i] by {}
        if parts[n].tag == tag && parts[n].value is Bytes {
            let at = before.push(n);
            assert forall|i: int| 0 <= i < parts.len() && (#[trigger] parts[i]).tag == tag && parts[i].value is Bytes implies at.contains(i) by {
                if i < n {
                    assert(t[i] == parts[i]);
                    let k = choose|k: int| 0 <= k < before.len() && before[k] == i;
                    assert(at[k] == i);
                } else {
                    assert(at[before.len() as int] == i);
                }
            }
            assert forall|i: int| 0 <= i < at.len() implies 0 <= #[trigger] at[i] < parts.len() && parts[at[i]].tag == tag
                && parts[at[i]].value is Bytes by {
                if i < before.len() {
                    assert(t[before[i]] == parts[at[i]]);
                }
            }
            assert forall|i: int| 0 <= i < at.len() implies #[trigger] insides(parts, tag)[i] == parts[at[i]].inside by {
                if i < before.len() {
                    assert(insides(t, tag)[i] == t[before[i]].inside);
                    assert(t[before[i]] == parts[at[i]]);
                }
            }
            at
        } else {
            assert forall|i: int| 0 <= i < parts.len() && (#[trigger] parts[i]).tag == tag && parts[i].value is Bytes implies before.contains(i) by {
                assert(t[i] == parts[i]);
            }
            assert forall|i: int| 0 <= i < before.len() implies 0 <= #[trigger] before[i] < parts.len() && parts[before[i]].tag == tag
                && parts[before[i]].value is Bytes by {
                assert(t[before[i]] == parts[before[i]]);
            }
            before
        }
    }
}

} // verus!
