//! In which order the bytes lie that a checkpoint's signature covers.

use vstd::prelude::*;
use vstd::utf8::encode_utf8;

use crate::keyring_dag::checkpoint::{
    checkpoint_bytes, checkpoint_tag, counted, entry_bytes, sealing_entry_bytes, CheckpointModel, EntryModel, SealingModel,
};
use crate::layout::{layout_lengths, le_bytes, twos_complement_16};

verus! {

proof fn starts_with(x: Seq<u8>, y: Seq<u8>)
    ensures
        (x + y).take(x.len() as int) == x,
{
    assert((x + y).take(x.len() as int) =~= x);
}

/// An entry's bytes have the id first, then the role, the two counters, the author's key, and the sealing key last: what
/// entries agree in from the start, their bytes agree in from the start.
pub proof fn how_an_entry_is_laid_out(a: EntryModel, b: EntryModel)
    requires
        a.id == b.id,
        a.state.role == b.state.role,
    ensures
        ({
            let n = 10 + encode_utf8(a.id).len();
            entry_bytes(a).take(n as int) == entry_bytes(b).take(n as int)
        }),
        a.state.member_counter == b.state.member_counter ==> ({
            let n = 18 + encode_utf8(a.id).len();
            entry_bytes(a).take(n as int) == entry_bytes(b).take(n as int)
        }),
        a.state.member_counter == b.state.member_counter && a.state.access_counter == b.state.access_counter ==> ({
            let n = 26 + encode_utf8(a.id).len();
            entry_bytes(a).take(n as int) == entry_bytes(b).take(n as int)
        }),
        a.state.member_counter == b.state.member_counter && a.state.access_counter == b.state.access_counter
            && a.state.author_public_key == b.state.author_public_key ==> ({
            let n = 58 + encode_utf8(a.id).len();
            entry_bytes(a).take(n as int) == entry_bytes(b).take(n as int)
        }),
{
    entry_begins(a);
    entry_begins(b);
}

proof fn entry_begins(e: EntryModel)
    ensures
        ({
            let r = counted(encode_utf8(e.id)) + le_bytes(twos_complement_16(e.state.role.0), 2);
            let m = r + le_bytes(e.state.member_counter as nat, 8);
            let c = m + le_bytes(e.state.access_counter as nat, 8);
            let k = c + e.state.author_public_key@;
            &&& r.len() == 10 + encode_utf8(e.id).len()
            &&& m.len() == r.len() + 8 && c.len() == m.len() + 8 && k.len() == c.len() + 32
            &&& entry_bytes(e).take(r.len() as int) == r
            &&& entry_bytes(e).take(m.len() as int) == m
            &&& entry_bytes(e).take(c.len() as int) == c
            &&& entry_bytes(e).take(k.len() as int) == k
        }),
{
    layout_lengths(encode_utf8(e.id).len(), 8);
    layout_lengths(twos_complement_16(e.state.role.0), 2);
    layout_lengths(e.state.member_counter as nat, 8);
    layout_lengths(e.state.access_counter as nat, 8);
    let r = counted(encode_utf8(e.id)) + le_bytes(twos_complement_16(e.state.role.0), 2);
    let m = r + le_bytes(e.state.member_counter as nat, 8);
    let c = m + le_bytes(e.state.access_counter as nat, 8);
    let k = c + e.state.author_public_key@;
    let h = e.state.hpke_public_key@;
    assert(entry_bytes(e) =~= k + h);
    starts_with(k, h);
    assert(k + h =~= c + (e.state.author_public_key@ + h));
    starts_with(c, e.state.author_public_key@ + h);
    let rest = le_bytes(e.state.access_counter as nat, 8) + (e.state.author_public_key@ + h);
    assert(k + h =~= m + rest);
    starts_with(m, rest);
    assert(k + h =~= r + (le_bytes(e.state.member_counter as nat, 8) + rest));
    starts_with(r, le_bytes(e.state.member_counter as nat, 8) + rest);
}

/// A sealing's bytes have the op's id first, its origin's byte second, then what was sealed, and its author last.
pub proof fn how_a_sealing_is_laid_out(a: SealingModel, b: SealingModel)
    requires
        a.op_id == b.op_id,
    ensures
        sealing_entry_bytes(a).take(32) == a.op_id@,
        a.origin == b.origin ==> sealing_entry_bytes(a)[32] == sealing_entry_bytes(b)[32],
        a.origin == b.origin && a.bytes == b.bytes ==> ({
            let n = 41 + a.bytes.len();
            sealing_entry_bytes(a).take(n as int) == sealing_entry_bytes(b).take(n as int)
        }),
{
    layout_lengths(a.bytes.len(), 8);
    let oa = seq![crate::keyring_dag::checkpoint::origin_byte(a.origin)];
    let ob = seq![crate::keyring_dag::checkpoint::origin_byte(b.origin)];
    let (wa, wb) = (counted(encode_utf8(a.author)), counted(encode_utf8(b.author)));
    starts_with(a.op_id@, oa + (counted(a.bytes) + wa));
    assert(sealing_entry_bytes(a) =~= (a.op_id@ + oa + counted(a.bytes)) + wa);
    assert(sealing_entry_bytes(b) =~= (b.op_id@ + ob + counted(b.bytes)) + wb);
    starts_with(a.op_id@ + oa + counted(a.bytes), wa);
    starts_with(b.op_id@ + ob + counted(b.bytes), wb);
}

/// The bytes of every checkpoint begin with the same label.
pub proof fn what_a_checkpoint_begins_with(c: CheckpointModel)
    ensures
        checkpoint_bytes(c).take(20) == encode_utf8("openom:checkpoint:v1"@),
{
    reveal_strlit("openom:checkpoint:v1");
    let label = "openom:checkpoint:v1"@;
    vstd::utf8::is_ascii_chars_encode_utf8(label);
    assert(label.len() == 20);
    assert(checkpoint_tag() =~= encode_utf8(label));
    let rest = checkpoint_bytes(c).skip(20);
    assert(checkpoint_bytes(c) =~= checkpoint_tag() + rest);
    starts_with(checkpoint_tag(), rest);
}

} // verus!
