//! Minting ops: signing a draft and addressing the signed op by its content.

use vstd::prelude::*;

use crate::keyring_dag::access::{KeyringAction, KeyringOp};
use crate::keyring_dag::anchor::{honest, OpDraft, StoredOp};
use crate::keyring_dag::codec::{copy_action, copy_ids, OpModel};
use crate::text::copy_bytes;

verus! {

/// `signature` is over what `encode` makes of the draft.
pub open spec fn signed<E: Fn(&OpDraft) -> Vec<u8>, S: Fn(&Vec<u8>) -> [u8; 64]>(
    encode: E,
    sign: S,
    draft: OpDraft,
    bytes: Vec<u8>,
    signature: [u8; 64],
) -> bool {
    encode.ensures((&draft,), bytes) && sign.ensures((&bytes,), signature)
}

/// The op is the draft, under this signature and key.
pub open spec fn carries(op: OpModel, draft: OpDraft, signature: [u8; 64], author_public_key: [u8; 32]) -> bool {
    &&& op.group_id == draft.group_id@
    &&& op.parents == draft.parents@
    &&& op.author == draft.author@
    &&& op.action == draft.action.model()
    &&& op.sealing == draft.sealing@
    &&& op.signature == signature@
    &&& op.author_public_key == author_public_key
}

fn sign_draft<E: Fn(&OpDraft) -> Vec<u8>, S: Fn(&Vec<u8>) -> [u8; 64]>(
    id: [u8; 32],
    draft: &OpDraft,
    author_public_key: [u8; 32],
    encode: &E,
    sign: &S,
) -> (r: KeyringOp)
    requires
        encode.requires((draft,)),
        forall|b: Vec<u8>| sign.requires((&b,)),
    ensures
        r.id == id,
        exists|bytes: Vec<u8>, signature: [u8; 64]| #[trigger]
            signed(*encode, *sign, *draft, bytes, signature) && carries(r.model(), *draft, signature, author_public_key),
{
    let bytes: Vec<u8> = encode(draft);
    let signature: [u8; 64] = sign(&bytes);
    assert(signed(*encode, *sign, *draft, bytes, signature));
    KeyringOp {
        id,
        group_id: copy_bytes(draft.group_id.as_slice()),
        parents: copy_ids(&draft.parents),
        author: draft.author.clone(),
        action: copy_action(&draft.action),
        signature,
        author_public_key,
        sealing: copy_bytes(draft.sealing.as_slice()),
    }
}

/// Signs an op that is bound to no tree and carries no sealing, under an id of the caller's.
pub fn sign_op<E: Fn(&OpDraft) -> Vec<u8>, S: Fn(&Vec<u8>) -> [u8; 64]>(
    id: [u8; 32],
    parents: Vec<[u8; 32]>,
    author: String,
    action: KeyringAction,
    author_public_key: [u8; 32],
    encode: &E,
    sign: &S,
) -> (r: KeyringOp)
    requires
        forall|d: OpDraft| encode.requires((&d,)),
        forall|b: Vec<u8>| sign.requires((&b,)),
    ensures
        r.id == id,
        exists|draft: OpDraft, bytes: Vec<u8>, signature: [u8; 64]| #[trigger]
            signed(*encode, *sign, draft, bytes, signature) && carries(r.model(), draft, signature, author_public_key)
                && draft.group_id@.len() == 0 && draft.sealing@.len() == 0 && draft.parents == parents && draft.author == author
                && draft.action == action,
{
    let draft = OpDraft { group_id: Vec::new(), parents, author, action, sealing: Vec::new() };
    sign_draft(id, &draft, author_public_key, encode, sign)
}

/// The op with no id of its own was addressed as `id`.
pub open spec fn addressed<A: Fn(&KeyringOp) -> [u8; 32]>(address: A, unnamed: KeyringOp, id: [u8; 32]) -> bool {
    address.ensures((&unnamed,), id)
}

/// Signs a draft, and names the op by its content: `address` is the content id of everything in an op but its id.
pub fn mint<E: Fn(&OpDraft) -> Vec<u8>, S: Fn(&Vec<u8>) -> [u8; 64], A: Fn(&KeyringOp) -> [u8; 32]>(
    draft: &OpDraft,
    author_public_key: [u8; 32],
    encode: &E,
    sign: &S,
    address: &A,
) -> (r: StoredOp)
    requires
        encode.requires((draft,)),
        forall|b: Vec<u8>| sign.requires((&b,)),
        forall|o: KeyringOp| address.requires((&o,)),
    ensures
        honest(r.model()),
        exists|bytes: Vec<u8>, signature: [u8; 64]| #[trigger]
            signed(*encode, *sign, *draft, bytes, signature) && carries(r.op.model(), *draft, signature, author_public_key),
        exists|unnamed: KeyringOp| #[trigger]
            addressed(*address, unnamed, r.content_id) && r.op == (KeyringOp { id: r.op.id, ..unnamed }),
{
    let unnamed: KeyringOp = sign_draft([0; 32], draft, author_public_key, encode, sign);
    let id: [u8; 32] = address(&unnamed);
    assert(addressed(*address, unnamed, id));
    let op = KeyringOp { id, ..unnamed };
    StoredOp { op, content_id: id }
}

} // verus!
