//! Strict total orders on byte strings and texts, and the keys that sorted collections are built on.

use vstd::prelude::*;
use vstd::utf8::encode_utf8;

verus! {

/// The lexicographic order of byte strings: the first differing byte decides, a proper prefix comes first.
pub open spec fn bytes_before(a: Seq<u8>, b: Seq<u8>) -> bool
    decreases a.len(),
{
    if b.len() == 0 {
        false
    } else if a.len() == 0 {
        true
    } else if a[0] != b[0] {
        a[0] < b[0]
    } else {
        bytes_before(a.drop_first(), b.drop_first())
    }
}

/// The order of texts: that of their UTF-8 bytes, as `str` is ordered.
pub open spec fn text_before(a: Seq<char>, b: Seq<char>) -> bool {
    bytes_before(encode_utf8(a), encode_utf8(b))
}

pub proof fn bytes_before_irreflexive(a: Seq<u8>)
    ensures
        !bytes_before(a, a),
    decreases a.len(),
{
    if a.len() > 0 {
        bytes_before_irreflexive(a.drop_first());
    }
}

pub proof fn bytes_before_transitive(a: Seq<u8>, b: Seq<u8>, c: Seq<u8>)
    requires
        bytes_before(a, b),
        bytes_before(b, c),
    ensures
        bytes_before(a, c),
    decreases a.len(),
{
    if a.len() > 0 && a[0] == b[0] && b[0] == c[0] {
        bytes_before_transitive(a.drop_first(), b.drop_first(), c.drop_first());
    }
}

pub proof fn bytes_before_total(a: Seq<u8>, b: Seq<u8>)
    ensures
        a == b || bytes_before(a, b) || bytes_before(b, a),
    decreases a.len(),
{
    if a.len() > 0 && b.len() > 0 && a[0] == b[0] {
        bytes_before_total(a.drop_first(), b.drop_first());
        if a.drop_first() == b.drop_first() {
            assert(a =~= seq![a[0]] + a.drop_first());
            assert(b =~= seq![b[0]] + b.drop_first());
        }
    } else if a.len() == 0 && b.len() == 0 {
        assert(a =~= b);
    }
}

/// Two texts with the same UTF-8 bytes are the same text.
pub proof fn utf8_injective(a: Seq<char>, b: Seq<char>)
    requires
        encode_utf8(a) == encode_utf8(b),
    ensures
        a == b,
{
    vstd::utf8::encode_utf8_decode_utf8(a);
    vstd::utf8::encode_utf8_decode_utf8(b);
}

pub proof fn text_before_total(a: Seq<char>, b: Seq<char>)
    ensures
        a == b || text_before(a, b) || text_before(b, a),
{
    bytes_before_total(encode_utf8(a), encode_utf8(b));
    if encode_utf8(a) == encode_utf8(b) {
        utf8_injective(a, b);
    }
}

proof fn bytes_before_step(a: Seq<u8>, b: Seq<u8>, i: int)
    requires
        0 <= i <= a.len(),
        i <= b.len(),
        a.take(i) == b.take(i),
    ensures
        bytes_before(a, b) == bytes_before(a.skip(i), b.skip(i)),
    decreases i,
{
    if i == 0 {
        assert(a.skip(0) =~= a);
        assert(b.skip(0) =~= b);
    } else {
        assert(a[0] == a.take(i)[0] && b[0] == b.take(i)[0]);
        assert(a.drop_first().take(i - 1) =~= a.take(i).drop_first());
        assert(b.drop_first().take(i - 1) =~= b.take(i).drop_first());
        bytes_before_step(a.drop_first(), b.drop_first(), i - 1);
        assert(a.drop_first().skip(i - 1) =~= a.skip(i));
        assert(b.drop_first().skip(i - 1) =~= b.skip(i));
    }
}

/// Whether `a` comes before `b`.
pub fn bytes_less(a: &[u8], b: &[u8]) -> (r: bool)
    ensures
        r == bytes_before(a@, b@),
{
    let mut i: usize = 0;
    while i < a.len() && i < b.len() && a[i] == b[i]
        invariant
            i <= a.len(),
            i <= b.len(),
            a@.take(i as int) == b@.take(i as int),
        decreases a.len() - i,
    {
        assert(a@.take(i + 1) =~= a@.take(i as int).push(a@[i as int]));
        assert(b@.take(i + 1) =~= b@.take(i as int).push(b@[i as int]));
        i = i + 1;
    }
    proof {
        bytes_before_step(a@, b@, i as int);
    }
    if i == b.len() {
        false
    } else if i == a.len() {
        true
    } else {
        a[i] < b[i]
    }
}

/// Whether the two byte strings are the same.
pub fn bytes_equal(a: &[u8], b: &[u8]) -> (r: bool)
    ensures
        r == (a@ == b@),
{
    if a.len() != b.len() {
        return false;
    }
    let mut i: usize = 0;
    while i < a.len()
        invariant
            i <= a.len(),
            a.len() == b.len(),
            forall|k: int| 0 <= k < i ==> a@[k] == b@[k],
        decreases a.len() - i,
    {
        if a[i] != b[i] {
            assert(a@[i as int] != b@[i as int]);
            return false;
        }
        i = i + 1;
    }
    assert(a@ =~= b@);
    true
}

/// Whether the two texts are the same.
pub fn text_equal(a: &str, b: &str) -> (r: bool)
    ensures
        r == (a@ == b@),
{
    let r = bytes_equal(a.as_bytes(), b.as_bytes());
    proof {
        if r {
            utf8_injective(a@, b@);
        }
    }
    r
}

/// Whether text `a` comes before text `b`.
pub fn text_less(a: &str, b: &str) -> (r: bool)
    ensures
        r == text_before(a@, b@),
{
    bytes_less(a.as_bytes(), b.as_bytes())
}

/// A value that can key a sorted collection: it stands for a mathematical value, its model, and its models are
/// strictly and totally ordered.
pub trait Key: Sized {
    type Model;

    spec fn model(&self) -> Self::Model;

    spec fn before(a: Self::Model, b: Self::Model) -> bool;

    proof fn before_irreflexive(a: Self::Model)
        ensures
            !Self::before(a, a),
    ;

    proof fn before_transitive(a: Self::Model, b: Self::Model, c: Self::Model)
        requires
            Self::before(a, b),
            Self::before(b, c),
        ensures
            Self::before(a, c),
    ;

    proof fn before_total(a: Self::Model, b: Self::Model)
        ensures
            a == b || Self::before(a, b) || Self::before(b, a),
    ;

    fn less(&self, other: &Self) -> (r: bool)
        ensures
            r == Self::before(self.model(), other.model()),
    ;

    fn duplicate(&self) -> (r: Self)
        ensures
            r.model() == self.model(),
    ;
}

impl Key for String {
    type Model = Seq<char>;

    open spec fn model(&self) -> Seq<char> {
        self@
    }

    open spec fn before(a: Seq<char>, b: Seq<char>) -> bool {
        text_before(a, b)
    }

    proof fn before_irreflexive(a: Seq<char>) {
        bytes_before_irreflexive(encode_utf8(a));
    }

    proof fn before_transitive(a: Seq<char>, b: Seq<char>, c: Seq<char>) {
        bytes_before_transitive(encode_utf8(a), encode_utf8(b), encode_utf8(c));
    }

    proof fn before_total(a: Seq<char>, b: Seq<char>) {
        text_before_total(a, b);
    }

    fn less(&self, other: &String) -> (r: bool) {
        let r = text_less(self.as_str(), other.as_str());
        assert(Self::before(self.model(), other.model()) == text_before(self@, other@));
        r
    }

    fn duplicate(&self) -> (r: String) {
        self.clone()
    }
}

impl Key for [u8; 32] {
    type Model = Seq<u8>;

    open spec fn model(&self) -> Seq<u8> {
        self@
    }

    open spec fn before(a: Seq<u8>, b: Seq<u8>) -> bool {
        bytes_before(a, b)
    }

    proof fn before_irreflexive(a: Seq<u8>) {
        bytes_before_irreflexive(a);
    }

    proof fn before_transitive(a: Seq<u8>, b: Seq<u8>, c: Seq<u8>) {
        bytes_before_transitive(a, b, c);
    }

    proof fn before_total(a: Seq<u8>, b: Seq<u8>) {
        bytes_before_total(a, b);
    }

    fn less(&self, other: &[u8; 32]) -> (r: bool) {
        let r = bytes_less(self.as_slice(), other.as_slice());
        assert(Self::before(self.model(), other.model()) == bytes_before(self@, other@));
        r
    }

    fn duplicate(&self) -> (r: [u8; 32]) {
        *self
    }
}

impl Key for u64 {
    type Model = u64;

    open spec fn model(&self) -> u64 {
        *self
    }

    open spec fn before(a: u64, b: u64) -> bool {
        a < b
    }

    proof fn before_irreflexive(a: u64) {
    }

    proof fn before_transitive(a: u64, b: u64, c: u64) {
    }

    proof fn before_total(a: u64, b: u64) {
    }

    fn less(&self, other: &u64) -> (r: bool) {
        *self < *other
    }

    fn duplicate(&self) -> (r: u64) {
        *self
    }
}

impl<A: Key, B: Key> Key for (A, B) {
    type Model = (A::Model, B::Model);

    open spec fn model(&self) -> (A::Model, B::Model) {
        (self.0.model(), self.1.model())
    }

    open spec fn before(a: (A::Model, B::Model), b: (A::Model, B::Model)) -> bool {
        A::before(a.0, b.0) || (a.0 == b.0 && B::before(a.1, b.1))
    }

    proof fn before_irreflexive(a: (A::Model, B::Model)) {
        A::before_irreflexive(a.0);
        B::before_irreflexive(a.1);
    }

    proof fn before_transitive(
        a: (A::Model, B::Model),
        b: (A::Model, B::Model),
        c: (A::Model, B::Model),
    ) {
        if A::before(a.0, b.0) && A::before(b.0, c.0) {
            A::before_transitive(a.0, b.0, c.0);
        } else if a.0 == b.0 && b.0 == c.0 {
            B::before_transitive(a.1, b.1, c.1);
        }
    }

    proof fn before_total(a: (A::Model, B::Model), b: (A::Model, B::Model)) {
        A::before_total(a.0, b.0);
        B::before_total(a.1, b.1);
    }

    fn less(&self, other: &(A, B)) -> (r: bool) {
        if self.0.less(&other.0) {
            true
        } else if other.0.less(&self.0) {
            proof {
                if self.0.model() == other.0.model() {
                    A::before_irreflexive(self.0.model());
                }
            }
            false
        } else {
            proof {
                A::before_total(self.0.model(), other.0.model());
            }
            self.1.less(&other.1)
        }
    }

    fn duplicate(&self) -> (r: (A, B)) {
        (self.0.duplicate(), self.1.duplicate())
    }
}

/// Whether the two keys stand for the same value.
pub fn same_key<K: Key>(a: &K, b: &K) -> (r: bool)
    ensures
        r == (a.model() == b.model()),
{
    let r = !a.less(b) && !b.less(a);
    proof {
        K::before_total(a.model(), b.model());
        K::before_irreflexive(a.model());
    }
    r
}

/// A number by which the greater goes first.
#[derive(Clone, Copy, Debug, PartialEq, Eq)]
pub struct Desc(pub i128);

impl Key for Desc {
    type Model = int;

    open spec fn model(&self) -> int {
        self.0 as int
    }

    open spec fn before(a: int, b: int) -> bool {
        a > b
    }

    proof fn before_irreflexive(a: int) {
    }

    proof fn before_transitive(a: int, b: int, c: int) {
    }

    proof fn before_total(a: int, b: int) {
    }

    fn less(&self, other: &Desc) -> (r: bool) {
        self.0 > other.0
    }

    fn duplicate(&self) -> (r: Desc) {
        Desc(self.0)
    }
}

/// The first list comes before the second, item by item; a list comes before its extensions.
pub open spec fn list_before<K: Key>(a: Seq<K::Model>, b: Seq<K::Model>) -> bool
    decreases a.len(),
{
    if b.len() == 0 {
        false
    } else if a.len() == 0 {
        true
    } else {
        K::before(a[0], b[0]) || (a[0] == b[0] && list_before::<K>(a.drop_first(), b.drop_first()))
    }
}

proof fn list_before_irreflexive<K: Key>(a: Seq<K::Model>)
    ensures
        !list_before::<K>(a, a),
    decreases a.len(),
{
    if a.len() > 0 {
        K::before_irreflexive(a[0]);
        list_before_irreflexive::<K>(a.drop_first());
    }
}

proof fn list_before_transitive<K: Key>(a: Seq<K::Model>, b: Seq<K::Model>, c: Seq<K::Model>)
    requires
        list_before::<K>(a, b),
        list_before::<K>(b, c),
    ensures
        list_before::<K>(a, c),
    decreases a.len(),
{
    if a.len() > 0 {
        if K::before(a[0], b[0]) && K::before(b[0], c[0]) {
            K::before_transitive(a[0], b[0], c[0]);
        } else if a[0] == b[0] && b[0] == c[0] && !K::before(a[0], b[0]) && !K::before(b[0], c[0]) {
            list_before_transitive::<K>(a.drop_first(), b.drop_first(), c.drop_first());
        }
    }
}

proof fn list_before_total<K: Key>(a: Seq<K::Model>, b: Seq<K::Model>)
    ensures
        a == b || list_before::<K>(a, b) || list_before::<K>(b, a),
    decreases a.len(),
{
    if a.len() == 0 || b.len() == 0 {
        if a.len() == 0 && b.len() == 0 {
            assert(a =~= b);
        }
    } else {
        K::before_total(a[0], b[0]);
        list_before_total::<K>(a.drop_first(), b.drop_first());
        if a[0] == b[0] && a.drop_first() == b.drop_first() {
            assert(a =~= seq![a[0]] + a.drop_first());
            assert(b =~= seq![b[0]] + b.drop_first());
        }
    }
}

/// The values that a list of keys stands for.
pub open spec fn list_model<K: Key>(s: Seq<K>) -> Seq<K::Model> {
    Seq::new(s.len(), |i: int| s[i].model())
}

impl<K: Key> Key for Vec<K> {
    type Model = Seq<K::Model>;

    open spec fn model(&self) -> Seq<K::Model> {
        list_model(self@)
    }

    open spec fn before(a: Seq<K::Model>, b: Seq<K::Model>) -> bool {
        list_before::<K>(a, b)
    }

    proof fn before_irreflexive(a: Seq<K::Model>) {
        list_before_irreflexive::<K>(a);
    }

    proof fn before_transitive(a: Seq<K::Model>, b: Seq<K::Model>, c: Seq<K::Model>) {
        list_before_transitive::<K>(a, b, c);
    }

    proof fn before_total(a: Seq<K::Model>, b: Seq<K::Model>) {
        list_before_total::<K>(a, b);
    }

    fn less(&self, other: &Vec<K>) -> (r: bool) {
        let ghost a = self.model();
        let ghost b = other.model();
        let mut i: usize = 0;
        assert(a.skip(0) =~= a);
        assert(b.skip(0) =~= b);
        while i < self.len() && i < other.len()
            invariant
                i <= self.len(),
                i <= other.len(),
                a == list_model(self@),
                b == list_model(other@),
                list_before::<K>(a, b) == list_before::<K>(a.skip(i as int), b.skip(i as int)),
            decreases self.len() - i,
        {
            let ghost (ra, rb) = (a.skip(i as int), b.skip(i as int));
            proof {
                assert(ra[0] == self@[i as int].model() && rb[0] == other@[i as int].model());
                assert(ra.drop_first() =~= a.skip(i + 1));
                assert(rb.drop_first() =~= b.skip(i + 1));
            }
            if self[i].less(&other[i]) {
                return true;
            }
            if other[i].less(&self[i]) {
                proof {
                    if ra[0] == rb[0] {
                        K::before_irreflexive(ra[0]);
                    }
                }
                return false;
            }
            proof {
                K::before_total(ra[0], rb[0]);
            }
            i = i + 1;
        }
        i < other.len()
    }

    fn duplicate(&self) -> (r: Vec<K>) {
        let mut out: Vec<K> = Vec::new();
        let mut i: usize = 0;
        while i < self.len()
            invariant
                i <= self.len(),
                out@.len() == i,
                forall|j: int| 0 <= j < i ==> (#[trigger] out@[j]).model() == self@[j].model(),
            decreases self.len() - i,
        {
            out.push(self[i].duplicate());
            i = i + 1;
        }
        assert(list_model(out@) =~= list_model(self@));
        out
    }
}

} // verus!
