//! In which order the bytes lie that a keyring's commitment covers.

use vstd::prelude::*;
use vstd::utf8::encode_utf8;

use crate::keyring_chain::doc::{counted, member_payload, members_payload, payload, recoveries_payload, recovery_payload, role_number, short};
use crate::keyring_chain::wire::{KeyringContent, MemberContent, RecoveryContent};
use crate::layout::{be_bytes, layout_lengths};

verus! {

proof fn starts_with(x: Seq<u8>, y: Seq<u8>)
    ensures
        (x + y).take(x.len() as int) == x,
{
    assert((x + y).take(x.len() as int) =~= x);
}

/// A member's bytes have the id first, the role second, the author's key third, and the sealing key last: what members
/// agree in from the start, their bytes agree in from the start.
pub proof fn how_a_member_is_laid_out(a: MemberContent, b: MemberContent)
    requires
        a.member_id == b.member_id,
    ensures
        ({
            let n = 4 + encode_utf8(a.member_id).len();
            member_payload(a).take(n as int) == member_payload(b).take(n as int)
        }),
        a.role == b.role ==> ({
            let n = 8 + encode_utf8(a.member_id).len();
            member_payload(a).take(n as int) == member_payload(b).take(n as int)
        }),
        a.role == b.role && a.author_public_key == b.author_public_key ==> ({
            let n = 12 + encode_utf8(a.member_id).len() + a.author_public_key.len();
            member_payload(a).take(n as int) == member_payload(b).take(n as int)
        }),
{
    let id = counted(encode_utf8(a.member_id));
    layout_lengths(short(encode_utf8(a.member_id).len()), 4);
    layout_lengths(role_number(a.role), 4);
    layout_lengths(role_number(b.role), 4);
    layout_lengths(short(a.author_public_key.len()), 4);
    let (ra, rb) = (be_bytes(role_number(a.role), 4), be_bytes(role_number(b.role), 4));
    let (ka, kb) = (counted(a.author_public_key), counted(b.author_public_key));
    let (ha, hb) = (counted(a.hpke_public_key), counted(b.hpke_public_key));
    starts_with(id, ra + (ka + ha));
    starts_with(id, rb + (kb + hb));
    assert(member_payload(a) =~= (id + ra) + (ka + ha));
    assert(member_payload(b) =~= (id + rb) + (kb + hb));
    starts_with(id + ra, ka + ha);
    starts_with(id + rb, kb + hb);
    assert(member_payload(a) =~= (id + ra + ka) + ha);
    assert(member_payload(b) =~= (id + rb + kb) + hb);
    starts_with(id + ra + ka, ha);
    starts_with(id + rb + kb, hb);
}

/// A recovery root's bytes have its key first, its member second, the wraps third, and the verifying key last.
pub proof fn how_a_recovery_root_is_laid_out(a: RecoveryContent, b: RecoveryContent)
    requires
        a.public_key == b.public_key,
    ensures
        ({
            let n = 4 + a.public_key.len();
            recovery_payload(a).take(n as int) == recovery_payload(b).take(n as int)
        }),
        a.member_id == b.member_id ==> ({
            let n = 8 + a.public_key.len() + encode_utf8(a.member_id).len();
            recovery_payload(a).take(n as int) == recovery_payload(b).take(n as int)
        }),
        a.member_id == b.member_id && a.wraps == b.wraps ==> ({
            let n = 12 + a.public_key.len() + encode_utf8(a.member_id).len() + a.wraps.len();
            recovery_payload(a).take(n as int) == recovery_payload(b).take(n as int)
        }),
{
    let p = counted(a.public_key);
    layout_lengths(short(a.public_key.len()), 4);
    layout_lengths(short(encode_utf8(a.member_id).len()), 4);
    layout_lengths(short(a.wraps.len()), 4);
    let (ia, ib) = (counted(encode_utf8(a.member_id)), counted(encode_utf8(b.member_id)));
    let (wa, wb) = (counted(a.wraps), counted(b.wraps));
    let (va, vb) = (counted(a.recovery_verifying_key), counted(b.recovery_verifying_key));
    starts_with(p, ia + (wa + va));
    starts_with(p, ib + (wb + vb));
    assert(recovery_payload(a) =~= (p + ia) + (wa + va));
    assert(recovery_payload(b) =~= (p + ib) + (wb + vb));
    starts_with(p + ia, wa + va);
    starts_with(p + ib, wb + vb);
    assert(recovery_payload(a) =~= (p + ia + wa) + va);
    assert(recovery_payload(b) =~= (p + ib + wb) + vb);
    starts_with(p + ia + wa, va);
    starts_with(p + ib + wb, vb);
}

/// The bytes of every keyring begin with the same label, as its length in four bytes and the label itself; after it come
/// the tree, the revision, the layout, the digest before, and the count of the members.
pub proof fn how_a_keyring_begins(a: KeyringContent, b: KeyringContent)
    ensures
        payload(a).take(29) == be_bytes(25, 4) + encode_utf8("openom:keyring:payload:v1"@),
        payload(b).take(29) == payload(a).take(29),
        a.tree_id == b.tree_id ==> ({
            let n = 33 + a.tree_id.len();
            payload(a).take(n as int) == payload(b).take(n as int)
        }),
        a.tree_id == b.tree_id && a.revision == b.revision ==> ({
            let n = 37 + a.tree_id.len();
            payload(a).take(n as int) == payload(b).take(n as int)
        }),
        a.tree_id == b.tree_id && a.revision == b.revision && a.layout_version == b.layout_version ==> ({
            let n = 41 + a.tree_id.len();
            payload(a).take(n as int) == payload(b).take(n as int)
        }),
        a.tree_id == b.tree_id && a.revision == b.revision && a.layout_version == b.layout_version && a.prev_keyring_hash
            == b.prev_keyring_hash ==> ({
            let n = 45 + a.tree_id.len() + a.prev_keyring_hash.len();
            payload(a).take(n as int) == payload(b).take(n as int)
        }),
{
    begins(a);
    begins(b);
    layout_lengths(short(a.tree_id.len()), 4);
    layout_lengths(a.revision as nat, 4);
    layout_lengths(a.layout_version as nat, 4);
    layout_lengths(short(a.prev_keyring_hash.len()), 4);
}

proof fn begins(k: KeyringContent)
    ensures
        ({
            let l = be_bytes(25, 4) + encode_utf8("openom:keyring:payload:v1"@);
            let t = l + counted(k.tree_id);
            let r = t + be_bytes(k.revision as nat, 4);
            let v = r + be_bytes(k.layout_version as nat, 4);
            let h = v + counted(k.prev_keyring_hash);
            &&& l.len() == 29
            &&& payload(k).take(l.len() as int) == l
            &&& payload(k).take(t.len() as int) == t
            &&& payload(k).take(r.len() as int) == r
            &&& payload(k).take(v.len() as int) == v
            &&& payload(k).take(h.len() as int) == h
        }),
{
    label_is_plain();
    layout_lengths(25, 4);
    let l = be_bytes(25, 4) + encode_utf8("openom:keyring:payload:v1"@);
    let t = l + counted(k.tree_id);
    let r = t + be_bytes(k.revision as nat, 4);
    let v = r + be_bytes(k.layout_version as nat, 4);
    let h = v + counted(k.prev_keyring_hash);
    assert(l == counted(encode_utf8("openom:keyring:payload:v1"@)));
    let rest = payload(k).skip(h.len() as int);
    assert(payload(k) =~= h + rest);
    starts_with(h, rest);
    assert(payload(k) =~= v + (counted(k.prev_keyring_hash) + rest));
    starts_with(v, counted(k.prev_keyring_hash) + rest);
    let more = be_bytes(k.layout_version as nat, 4) + (counted(k.prev_keyring_hash) + rest);
    assert(payload(k) =~= r + more);
    starts_with(r, more);
    assert(payload(k) =~= t + (be_bytes(k.revision as nat, 4) + more));
    starts_with(t, be_bytes(k.revision as nat, 4) + more);
    assert(payload(k) =~= l + (counted(k.tree_id) + (be_bytes(k.revision as nat, 4) + more)));
    starts_with(l, counted(k.tree_id) + (be_bytes(k.revision as nat, 4) + more));
}

proof fn label_is_plain()
    ensures
        encode_utf8("openom:keyring:payload:v1"@).len() == 25,
{
    reveal_strlit("openom:keyring:payload:v1");
    vstd::utf8::is_ascii_chars_encode_utf8("openom:keyring:payload:v1"@);
}

/// The bytes of a keyring end with its governance, kind before threshold, and its shared mark, four bytes each.
pub proof fn how_a_keyring_ends(k: KeyringContent)
    ensures
        payload(k).len() >= 12,
        payload(k).skip(payload(k).len() - 12) == be_bytes(k.governance_kind as nat, 4) + be_bytes(k.governance_threshold as nat, 4)
            + be_bytes(k.first_shared_revision as nat, 4),
{
    layout_lengths(k.governance_kind as nat, 4);
    layout_lengths(k.governance_threshold as nat, 4);
    layout_lengths(k.first_shared_revision as nat, 4);
    let end = be_bytes(k.governance_kind as nat, 4) + be_bytes(k.governance_threshold as nat, 4) + be_bytes(
        k.first_shared_revision as nat,
        4,
    );
    let y0 = be_bytes(k.governance_kind as nat, 4) + (be_bytes(k.governance_threshold as nat, 4) + be_bytes(
        k.first_shared_revision as nat,
        4,
    ));
    assert(y0.skip(0) =~= end);
    let x1 = recoveries_payload(k.recovery_keys);
    keeps_its_end(x1, y0, end);
    let x2 = be_bytes(short(k.recovery_keys.len()), 4);
    keeps_its_end(x2, x1 + y0, end);
    let y2 = x2 + (x1 + y0);
    keeps_its_end(counted(k.epochs), y2, end);
    let y3 = counted(k.epochs) + y2;
    keeps_its_end(members_payload(k.members), y3, end);
    let y4 = members_payload(k.members) + y3;
    keeps_its_end(be_bytes(short(k.members.len()), 4), y4, end);
    let y5 = be_bytes(short(k.members.len()), 4) + y4;
    keeps_its_end(counted(k.prev_keyring_hash), y5, end);
    let y6 = counted(k.prev_keyring_hash) + y5;
    keeps_its_end(be_bytes(k.layout_version as nat, 4), y6, end);
    let y7 = be_bytes(k.layout_version as nat, 4) + y6;
    keeps_its_end(be_bytes(k.revision as nat, 4), y7, end);
    let y8 = be_bytes(k.revision as nat, 4) + y7;
    keeps_its_end(counted(k.tree_id), y8, end);
    let y9 = counted(k.tree_id) + y8;
    keeps_its_end(counted(encode_utf8("openom:keyring:payload:v1"@)), y9, end);
    assert(payload(k) == counted(encode_utf8("openom:keyring:payload:v1"@)) + y9);
}

proof fn keeps_its_end(x: Seq<u8>, y: Seq<u8>, end: Seq<u8>)
    requires
        y.len() >= 12,
        y.skip(y.len() - 12) == end,
    ensures
        (x + y).len() >= 12,
        (x + y).skip((x + y).len() - 12) == end,
{
    assert((x + y).skip((x + y).len() - 12) =~= y.skip(y.len() - 12));
}

/// Between them lie the members, then the generations, then the recovery roots: keyrings that agree in what comes before
/// agree in their bytes up to there.
pub proof fn what_lies_between(a: KeyringContent, b: KeyringContent)
    requires
        a.tree_id == b.tree_id,
        a.revision == b.revision,
        a.layout_version == b.layout_version,
        a.prev_keyring_hash == b.prev_keyring_hash,
        a.members == b.members,
    ensures
        ({
            let n = 49 + a.tree_id.len() + a.prev_keyring_hash.len() + members_payload(a.members).len();
            payload(a).take(n as int) == payload(b).take(n as int)
        }),
        a.epochs == b.epochs ==> ({
            let n = 53 + a.tree_id.len() + a.prev_keyring_hash.len() + members_payload(a.members).len() + a.epochs.len();
            payload(a).take(n as int) == payload(b).take(n as int)
        }),
{
    between(a);
    between(b);
    layout_lengths(short(a.epochs.len()), 4);
}

proof fn between(k: KeyringContent)
    ensures
        ({
            let h = be_bytes(25, 4) + encode_utf8("openom:keyring:payload:v1"@) + counted(k.tree_id) + be_bytes(k.revision as nat, 4)
                + be_bytes(k.layout_version as nat, 4) + counted(k.prev_keyring_hash);
            let m = h + be_bytes(short(k.members.len()), 4) + members_payload(k.members);
            let e = m + counted(k.epochs);
            &&& m.len() == 49 + k.tree_id.len() + k.prev_keyring_hash.len() + members_payload(k.members).len()
            &&& payload(k).take(m.len() as int) == m
            &&& payload(k).take(e.len() as int) == e
        }),
{
    label_is_plain();
    layout_lengths(25, 4);
    layout_lengths(short(k.tree_id.len()), 4);
    layout_lengths(k.revision as nat, 4);
    layout_lengths(k.layout_version as nat, 4);
    layout_lengths(short(k.prev_keyring_hash.len()), 4);
    layout_lengths(short(k.members.len()), 4);
    layout_lengths(short(k.epochs.len()), 4);
    let h = be_bytes(25, 4) + encode_utf8("openom:keyring:payload:v1"@) + counted(k.tree_id) + be_bytes(k.revision as nat, 4) + be_bytes(
        k.layout_version as nat,
        4,
    ) + counted(k.prev_keyring_hash);
    let m = h + be_bytes(short(k.members.len()), 4) + members_payload(k.members);
    let e = m + counted(k.epochs);
    let rest = payload(k).skip(e.len() as int);
    assert(payload(k) =~= e + rest);
    starts_with(e, rest);
    assert(payload(k) =~= m + (counted(k.epochs) + rest));
    starts_with(m, counted(k.epochs) + rest);
}

} // verus!
