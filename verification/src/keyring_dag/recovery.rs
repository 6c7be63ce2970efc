//! The recovery verifying key: which key of the recovery secret authorizes a re-founding.

use vstd::prelude::*;
use vstd::utf8::encode_utf8;

verus! {

/// The label that keeps the recovery key apart from every other key of the same secret.
pub const RVK_LABEL: &'static str = "keyeo:rvk:v1";

/// `key` is what `derive` makes of the secret under the recovery label.
pub open spec fn derived<K, F: Fn(&[u8; 32], &[u8]) -> K>(derive: F, rrk_secret: [u8; 32], label: &[u8], key: K) -> bool {
    label@ == encode_utf8(RVK_LABEL@) && derive.ensures((&rrk_secret, label), key)
}

/// `key` is the recovery key of the secret.
pub open spec fn recovery_key<K, F: Fn(&[u8; 32], &[u8]) -> K>(derive: F, rrk_secret: [u8; 32], key: K) -> bool {
    exists|label: &[u8]| #[trigger] derived(derive, rrk_secret, label, key)
}

/// `r` is the public half of the recovery key of the secret.
pub open spec fn recovery_public<K, F: Fn(&[u8; 32], &[u8]) -> K, P: Fn(&K) -> [u8; 32]>(
    derive: F,
    public: P,
    rrk_secret: [u8; 32],
    r: [u8; 32],
) -> bool {
    exists|k: K| #[trigger] recovery_key(derive, rrk_secret, k) && public.ensures((&k,), r)
}

/// The recovery key of a secret; `derive` makes a signing key of a secret and a label.
pub fn derive_rvk<K, F: Fn(&[u8; 32], &[u8]) -> K>(rrk_secret: &[u8; 32], derive: &F) -> (r: K)
    requires
        forall|label: &[u8]| derive.requires((rrk_secret, label)),
    ensures
        recovery_key(*derive, *rrk_secret, r),
{
    let label: &[u8] = RVK_LABEL.as_bytes();
    let key: K = derive(rrk_secret, label);
    assert(derived(*derive, *rrk_secret, label, key));
    key
}

/// The public half of the recovery key, which the founding pins.
pub fn rvk_public<K, F: Fn(&[u8; 32], &[u8]) -> K, P: Fn(&K) -> [u8; 32]>(
    rrk_secret: &[u8; 32],
    derive: &F,
    public: &P,
) -> (r: [u8; 32])
    requires
        forall|label: &[u8]| derive.requires((rrk_secret, label)),
        forall|k: K| public.requires((&k,)),
    ensures
        recovery_public(*derive, *public, *rrk_secret, r),
{
    let key: K = derive_rvk(rrk_secret, derive);
    public(&key)
}

/// What `derive` makes is decided by the secret and the bytes of the label.
pub open spec fn derives_one_key<K, F: Fn(&[u8; 32], &[u8]) -> K>(derive: F) -> bool {
    forall|s: [u8; 32], l: &[u8], m: &[u8], a: K, b: K|
        l@ == m@ && #[trigger] derive.ensures((&s, l), a) && #[trigger] derive.ensures((&s, m), b) ==> a == b
}

/// The public half is decided by the key.
pub open spec fn has_one_public_half<K, P: Fn(&K) -> [u8; 32]>(public: P) -> bool {
    forall|k: K, a: [u8; 32], b: [u8; 32]| #[trigger] public.ensures((&k,), a) && #[trigger] public.ensures((&k,), b) ==> a == b
}

/// A secret has one recovery key: under a derivation that is decided by what it is handed, every call gives the same public
/// half, and it is that of the recovery key.
pub proof fn a_secret_has_one_recovery_key<K, F: Fn(&[u8; 32], &[u8]) -> K, P: Fn(&K) -> [u8; 32]>(
    derive: F,
    public: P,
    rrk_secret: [u8; 32],
    key: K,
    again: K,
    a: [u8; 32],
    b: [u8; 32],
)
    requires
        derives_one_key(derive),
        has_one_public_half(public),
        recovery_key(derive, rrk_secret, key),
        recovery_key(derive, rrk_secret, again),
        recovery_public(derive, public, rrk_secret, a),
        recovery_public(derive, public, rrk_secret, b),
    ensures
        key == again,
        a == b,
        public.ensures((&key,), a),
{
    let l = choose|l: &[u8]| #[trigger] derived(derive, rrk_secret, l, key);
    let m = choose|m: &[u8]| #[trigger] derived(derive, rrk_secret, m, again);
    assert(derive.ensures((&rrk_secret, l), key) && derive.ensures((&rrk_secret, m), again));
    let x = choose|k: K| #[trigger] recovery_key(derive, rrk_secret, k) && public.ensures((&k,), a);
    let y = choose|k: K| #[trigger] recovery_key(derive, rrk_secret, k) && public.ensures((&k,), b);
    let lx = choose|l: &[u8]| #[trigger] derived(derive, rrk_secret, l, x);
    let ly = choose|l: &[u8]| #[trigger] derived(derive, rrk_secret, l, y);
    assert(derive.ensures((&rrk_secret, lx), x) && derive.ensures((&rrk_secret, ly), y));
    assert(x == key && y == key);
}

/// Keys that were made of different secrets, or under different labels, have different public halves.
pub open spec fn tells_keys_apart<K, F: Fn(&[u8; 32], &[u8]) -> K, P: Fn(&K) -> [u8; 32]>(derive: F, public: P) -> bool {
    forall|s: [u8; 32], l: &[u8], a: K, x: [u8; 32], t: [u8; 32], m: &[u8], b: K, y: [u8; 32]|
        #[trigger] derive.ensures((&s, l), a) && #[trigger] public.ensures((&a,), x) && #[trigger] derive.ensures((&t, m), b)
            && #[trigger] public.ensures((&b,), y) && (s != t || l@ != m@) ==> x != y
}

/// Under a derivation that tells keys apart, other secrets have other recovery keys, and the recovery key is none of the
/// keys that the same secret, or another, gives under another label.
pub proof fn recovery_keys_are_apart<K, F: Fn(&[u8; 32], &[u8]) -> K, P: Fn(&K) -> [u8; 32]>(
    derive: F,
    public: P,
    rrk_secret: [u8; 32],
    r: [u8; 32],
    other_secret: [u8; 32],
    label: &[u8],
    other: K,
    half: [u8; 32],
)
    requires
        tells_keys_apart(derive, public),
        recovery_public(derive, public, rrk_secret, r),
        derive.ensures((&other_secret, label), other),
        public.ensures((&other,), half),
        other_secret != rrk_secret || label@ != encode_utf8(RVK_LABEL@),
    ensures
        r != half,
{
    let k = choose|k: K| #[trigger] recovery_key(derive, rrk_secret, k) && public.ensures((&k,), r);
    let l = choose|l: &[u8]| #[trigger] derived(derive, rrk_secret, l, k);
    assert(derive.ensures((&rrk_secret, l), k) && public.ensures((&k,), r));
}

} // verus!
