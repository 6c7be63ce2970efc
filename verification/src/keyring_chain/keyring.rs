//! Signing a keyring, and finding a signature by a trusted key.

use vstd::prelude::*;

use crate::keyring_chain::wire::{Keyring, KeyringContent, KeyringSignature, SignatureContent};
use crate::keyring_dag::codec::sig64;
use crate::text::copy_bytes;

verus! {

/// No trusted key verifies any of the signatures.
#[derive(Clone, Copy, Debug, PartialEq, Eq, Structural)]
pub struct SigError;

/// The check says `ok` of this key and signature on this keyring.
pub open spec fn checked<C: Fn(&Keyring, &[u8; 32], &[u8; 64]) -> bool>(
    check: C,
    keyring: Keyring,
    key: [u8; 32],
    sig: [u8; 64],
    ok: bool,
) -> bool {
    check.ensures((&keyring, &key, &sig), ok)
}

/// `after` is `before` with one signature more: the one that `sign` makes over it, under this key's name.
pub open spec fn signed<S: Fn(&Keyring) -> [u8; 64]>(sign: S, key: [u8; 32], before: Keyring, after: Keyring) -> bool {
    exists|sig: [u8; 64]| #[trigger]
        sign.ensures((&before,), sig) && after@ == (KeyringContent {
            signatures: before@.signatures.push(SignatureContent { signer_public_key: key@, signature: sig@ }),
            ..before@
        })
}

/// Appends the signature that `sign` makes over the keyring's signing bytes.
pub fn sign_keyring<S: Fn(&Keyring) -> [u8; 64]>(keyring: &mut Keyring, signer_public_key: &[u8; 32], sign: &S)
    requires
        forall|k: Keyring| sign.requires((&k,)),
    ensures
        signed(*sign, *signer_public_key, *old(keyring), *final(keyring)),
{
    let ghost before = *keyring;
    let sig: [u8; 64] = sign(&*keyring);
    assert(sign.ensures((&before,), sig));
    let s = KeyringSignature {
        signer_public_key: copy_bytes(signer_public_key.as_slice()),
        signature: copy_bytes(sig.as_slice()),
    };
    let ghost added = s@;
    keyring.signatures.push(s);
    assert(keyring@.signatures =~= before@.signatures.push(added));
    assert(keyring@.members =~= before@.members);
    assert(keyring@.recovery_keys =~= before@.recovery_keys);
}

/// The check was made of this key on these signature bytes, and said `ok`.
pub open spec fn verdict<C: Fn(&Keyring, &[u8; 32], &[u8; 64]) -> bool>(
    check: C,
    keyring: Keyring,
    key: [u8; 32],
    signature: Seq<u8>,
    ok: bool,
) -> bool {
    exists|sig: [u8; 64]| sig@ == signature && #[trigger] checked(check, keyring, key, sig, ok)
}

/// None of the first `n` keys verifies the signature.
pub open spec fn none_of<C: Fn(&Keyring, &[u8; 32], &[u8; 64]) -> bool>(
    check: C,
    keyring: Keyring,
    trusted: Seq<[u8; 32]>,
    n: int,
    signature: Seq<u8>,
) -> bool {
    forall|j: int| 0 <= j < n ==> verdict(check, keyring, #[trigger] trusted[j], signature, false)
}

/// No trusted key verifies any of the first `n` signatures. One of the wrong length is passed over.
pub open spec fn none_before<C: Fn(&Keyring, &[u8; 32], &[u8; 64]) -> bool>(
    check: C,
    keyring: Keyring,
    trusted: Seq<[u8; 32]>,
    n: int,
) -> bool {
    forall|i: int|
        0 <= i < n && (#[trigger] keyring.signatures@[i]).signature@.len() == 64 ==> none_of(
            check,
            keyring,
            trusted,
            trusted.len() as int,
            keyring.signatures@[i].signature@,
        )
}

/// The `j`-th trusted key verifies the `i`-th signature, no key before it does, and no trusted key verifies an earlier
/// signature.
pub open spec fn first_match<C: Fn(&Keyring, &[u8; 32], &[u8; 64]) -> bool>(
    check: C,
    keyring: Keyring,
    trusted: Seq<[u8; 32]>,
    i: int,
    j: int,
) -> bool {
    &&& 0 <= i < keyring.signatures@.len()
    &&& 0 <= j < trusted.len()
    &&& verdict(check, keyring, trusted[j], keyring.signatures@[i].signature@, true)
    &&& none_of(check, keyring, trusted, j, keyring.signatures@[i].signature@)
    &&& none_before(check, keyring, trusted, i)
}

/// What a search for a trusted signer comes to: the first trusted key that verifies the first signature that any of them
/// verifies, or nothing where none verifies any.
pub open spec fn searched<C: Fn(&Keyring, &[u8; 32], &[u8; 64]) -> bool>(
    check: C,
    keyring: Keyring,
    trusted: Seq<[u8; 32]>,
    r: Result<[u8; 32], SigError>,
) -> bool {
    match r {
        Ok(key) => exists|i: int, j: int| #[trigger] first_match(check, keyring, trusted, i, j) && key == trusted[j],
        Err(_) => none_before(check, keyring, trusted, keyring.signatures@.len() as int),
    }
}

/// Finds a trusted key that made one of the keyring's signatures. Whom a signature names is not looked at, and one of
/// the wrong length is passed over; every trusted key is tried on every other.
pub fn verify_keyring_any<C: Fn(&Keyring, &[u8; 32], &[u8; 64]) -> bool>(
    keyring: &Keyring,
    trusted: &Vec<[u8; 32]>,
    check: &C,
) -> (r: Result<[u8; 32], SigError>)
    requires
        forall|k: Keyring, p: [u8; 32], s: [u8; 64]| check.requires((&k, &p, &s)),
    ensures
        searched(*check, *keyring, trusted@, r),
{
    let mut i: usize = 0;
    while i < keyring.signatures.len()
        invariant
            i <= keyring.signatures.len(),
            forall|k: Keyring, p: [u8; 32], s: [u8; 64]| check.requires((&k, &p, &s)),
            none_before(*check, *keyring, trusted@, i as int),
        decreases keyring.signatures.len() - i,
    {
        if let Ok(sig) = sig64(keyring.signatures[i].signature.as_slice()) {
            let mut j: usize = 0;
            while j < trusted.len()
                invariant
                    j <= trusted.len(),
                    i < keyring.signatures@.len(),
                    sig@ == keyring.signatures@[i as int].signature@,
                    forall|k: Keyring, p: [u8; 32], s: [u8; 64]| check.requires((&k, &p, &s)),
                    none_before(*check, *keyring, trusted@, i as int),
                    none_of(*check, *keyring, trusted@, j as int, sig@),
                decreases trusted.len() - j,
            {
                let ok = check(keyring, &trusted[j], &sig);
                assert(checked(*check, *keyring, trusted@[j as int], sig, ok));
                if ok {
                    assert(first_match(*check, *keyring, trusted@, i as int, j as int));
                    return Ok(trusted[j]);
                }
                j = j + 1;
            }
        }
        i = i + 1;
    }
    Err(SigError)
}

/// Whether the keyring carries a signature by this key.
pub fn verify_keyring<C: Fn(&Keyring, &[u8; 32], &[u8; 64]) -> bool>(
    keyring: &Keyring,
    verifying_key: &[u8; 32],
    check: &C,
) -> (r: Result<(), SigError>)
    requires
        forall|k: Keyring, p: [u8; 32], s: [u8; 64]| check.requires((&k, &p, &s)),
    ensures
        match r {
            Ok(_) => searched(*check, *keyring, seq![*verifying_key], Ok(*verifying_key)),
            Err(_) => searched(*check, *keyring, seq![*verifying_key], Err(SigError)),
        },
{
    let mut trusted: Vec<[u8; 32]> = Vec::new();
    trusted.push(*verifying_key);
    assert(trusted@ =~= seq![*verifying_key]);
    match verify_keyring_any(keyring, &trusted, check) {
        Ok(_) => Ok(()),
        Err(_) => Err(SigError),
    }
}

/// `later` says what `before` says, and carries its signatures and perhaps more.
pub open spec fn signed_on(before: KeyringContent, later: KeyringContent) -> bool {
    &&& later == (KeyringContent { signatures: later.signatures, ..before })
    &&& before.signatures.is_prefix_of(later.signatures)
}

/// Whoever signs, and however often, a keyring says what it said before and keeps the signatures that it had.
pub proof fn signing_only_adds<S: Fn(&Keyring) -> [u8; 64]>(
    sign: S,
    key: [u8; 32],
    first: KeyringContent,
    before: Keyring,
    after: Keyring,
)
    requires
        signed_on(first, before@),
        signed(sign, key, before, after),
    ensures
        signed_on(first, after@),
        after@.signatures.len() == before@.signatures.len() + 1,
        after@.signatures.last().signer_public_key == key@,
        after@.signatures.last().signature.len() == 64,
{
    let more = after@.signatures;
    assert(more.subrange(0, before@.signatures.len() as int) =~= before@.signatures);
    assert forall|i: int| 0 <= i < first.signatures.len() implies first.signatures[i] == more[i] by {
        assert(first.signatures[i] == before@.signatures[i]);
    }
}

/// The check accepts under this key what `sign` made, on every keyring that says what was signed. Signatures are no part
/// of what is signed.
pub open spec fn made_for<S: Fn(&Keyring) -> [u8; 64], C: Fn(&Keyring, &[u8; 32], &[u8; 64]) -> bool>(
    sign: S,
    check: C,
    key: [u8; 32],
) -> bool {
    forall|k: Keyring, later: Keyring, sig: [u8; 64], ok: bool|
        #[trigger] sign.ensures((&k,), sig) && later@ == (KeyringContent { signatures: later@.signatures, ..k@ })
            && #[trigger] checked(check, later, key, sig, ok) ==> ok
}

/// Under a scheme whose check accepts what its signer made, a keyring that was signed verifies, and still does after
/// whatever signatures come on top: a search finds a signer wherever the key is among those that are trusted.
pub proof fn what_is_signed_verifies<S: Fn(&Keyring) -> [u8; 64], C: Fn(&Keyring, &[u8; 32], &[u8; 64]) -> bool>(
    sign: S,
    check: C,
    key: [u8; 32],
    before: Keyring,
    after: Keyring,
    later: Keyring,
    trusted: Seq<[u8; 32]>,
    r: Result<[u8; 32], SigError>,
)
    requires
        made_for(sign, check, key),
        signed(sign, key, before, after),
        signed_on(after@, later@),
        trusted.contains(key),
        searched(check, later, trusted, r),
    ensures
        r is Ok,
{
    if r is Err {
        let sig = choose|sig: [u8; 64]| #[trigger]
            sign.ensures((&before,), sig) && after@ == (KeyringContent {
                signatures: before@.signatures.push(SignatureContent { signer_public_key: key@, signature: sig@ }),
                ..before@
            });
        let n = before@.signatures.len() as int;
        assert(after@.signatures[n].signature == sig@);
        assert(later@.signatures[n] == after@.signatures[n]);
        assert(later.signatures@[n].signature@ == sig@);
        let j = choose|j: int| 0 <= j < trusted.len() && trusted[j] == key;
        assert(verdict(check, later, trusted[j], sig@, false));
        let s = choose|s: [u8; 64]| s@ == sig@ && #[trigger] checked(check, later, key, s, false);
        assert(s =~= sig);
    }
}

} // verus!
