//! Total orders on what identifies things: the order of texts by their UTF-8
//! bytes, and the trait that gives a key its order.
use vstd::prelude::*;
use vstd::utf8::{decode_utf8, encode_utf8, encode_utf8_decode_utf8};

verus! {

/// How one key stands to another.
#[derive(Debug, Clone, Copy, PartialEq, Eq, Structural)]
pub enum Order {
    Before,
    Same,
    After,
}

/// The lexicographic order of byte strings.
pub open spec fn bytes_before(a: Seq<u8>, b: Seq<u8>) -> bool
    decreases a.len(),
{
    if b.len() == 0 {
        false
    } else if a.len() == 0 {
        true
    } else if a[0] != b[0] {
        a[0] < b[0]
    } else {
        bytes_before(a.drop_first(), b.drop_first())
    }
}

/// The order of texts: by their UTF-8 bytes.
pub open spec fn text_before(a: Seq<char>, b: Seq<char>) -> bool {
    bytes_before(encode_utf8(a), encode_utf8(b))
}

pub proof fn lemma_bytes_irreflexive(a: Seq<u8>)
    ensures
        !bytes_before(a, a),
    decreases a.len(),
{
    if a.len() > 0 {
        lemma_bytes_irreflexive(a.drop_first());
    }
}

pub proof fn lemma_bytes_transitive(a: Seq<u8>, b: Seq<u8>, c: Seq<u8>)
    requires
        bytes_before(a, b),
        bytes_before(b, c),
    ensures
        bytes_before(a, c),
    decreases a.len(),
{
    if a.len() > 0 && a[0] == b[0] && b[0] == c[0] {
        lemma_bytes_transitive(a.drop_first(), b.drop_first(), c.drop_first());
    }
}

pub proof fn lemma_bytes_total(a: Seq<u8>, b: Seq<u8>)
    ensures
        bytes_before(a, b) || a == b || bytes_before(b, a),
    decreases a.len(),
{
    if a.len() > 0 && b.len() > 0 && a[0] == b[0] {
        lemma_bytes_total(a.drop_first(), b.drop_first());
        if a.drop_first() == b.drop_first() {
            assert(a =~= seq![a[0]] + a.drop_first());
            assert(b =~= seq![b[0]] + b.drop_first());
        }
    } else if a.len() == 0 && b.len() == 0 {
        assert(a =~= b);
    }
}

/// Two texts with the same bytes are the same text.
pub proof fn lemma_same_bytes_same_text(a: Seq<char>, b: Seq<char>)
    requires
        encode_utf8(a) == encode_utf8(b),
    ensures
        a == b,
{
    encode_utf8_decode_utf8(a);
    encode_utf8_decode_utf8(b);
}

pub proof fn lemma_text_irreflexive(a: Seq<char>)
    ensures
        !text_before(a, a),
{
    lemma_bytes_irreflexive(encode_utf8(a));
}

pub proof fn lemma_text_transitive(a: Seq<char>, b: Seq<char>, c: Seq<char>)
    requires
        text_before(a, b),
        text_before(b, c),
    ensures
        text_before(a, c),
{
    lemma_bytes_transitive(encode_utf8(a), encode_utf8(b), encode_utf8(c));
}

pub proof fn lemma_text_total(a: Seq<char>, b: Seq<char>)
    ensures
        text_before(a, b) || a == b || text_before(b, a),
{
    lemma_bytes_total(encode_utf8(a), encode_utf8(b));
    if encode_utf8(a) == encode_utf8(b) {
        lemma_same_bytes_same_text(a, b);
    }
}

/// Compares two byte strings lexicographically.
pub fn compare_bytes(a: &[u8], b: &[u8]) -> (order: Order)
    ensures
        match order {
            Order::Before => bytes_before(a@, b@),
            Order::Same => a@ == b@,
            Order::After => bytes_before(b@, a@),
        },
{
    let mut i: usize = 0;
    proof {
        assert(a@.subrange(0, a@.len() as int) =~= a@);
        assert(b@.subrange(0, b@.len() as int) =~= b@);
    }
    while i < a.len() && i < b.len()
        invariant
            i <= a@.len(),
            i <= b@.len(),
            a@.subrange(0, i as int) == b@.subrange(0, i as int),
            bytes_before(a@, b@) == bytes_before(
                a@.subrange(i as int, a@.len() as int),
                b@.subrange(i as int, b@.len() as int),
            ),
            bytes_before(b@, a@) == bytes_before(
                b@.subrange(i as int, b@.len() as int),
                a@.subrange(i as int, a@.len() as int),
            ),
        decreases a@.len() - i,
    {
        let ghost ra = a@.subrange(i as int, a@.len() as int);
        let ghost rb = b@.subrange(i as int, b@.len() as int);
        if a[i] < b[i] {
            assert(ra[0] == a@[i as int] && rb[0] == b@[i as int]);
            return Order::Before;
        }
        if b[i] < a[i] {
            assert(ra[0] == a@[i as int] && rb[0] == b@[i as int]);
            return Order::After;
        }
        proof {
            assert(ra[0] == rb[0]);
            assert(ra.drop_first() =~= a@.subrange(i + 1, a@.len() as int));
            assert(rb.drop_first() =~= b@.subrange(i + 1, b@.len() as int));
            assert(a@.subrange(0, i + 1) =~= a@.subrange(0, i as int).push(a@[i as int]));
            assert(b@.subrange(0, i + 1) =~= b@.subrange(0, i as int).push(b@[i as int]));
        }
        i += 1;
    }
    if i < b.len() {
        Order::Before
    } else if i < a.len() {
        Order::After
    } else {
        assert(a@ =~= a@.subrange(0, i as int));
        assert(b@ =~= b@.subrange(0, i as int));
        Order::Same
    }
}

/// Compares two texts in the order of their UTF-8 bytes.
pub fn compare_text(a: &str, b: &str) -> (order: Order)
    ensures
        match order {
            Order::Before => text_before(a@, b@),
            Order::Same => a@ == b@,
            Order::After => text_before(b@, a@),
        },
{
    let order = compare_bytes(a.as_bytes(), b.as_bytes());
    proof {
        if order is Same {
            lemma_same_bytes_same_text(a@, b@);
        }
    }
    order
}

/// Whether two texts are the same.
pub fn same_text(a: &str, b: &str) -> (same: bool)
    ensures
        same == (a@ == b@),
{
    match compare_text(a, b) {
        Order::Same => true,
        Order::Before => {
            proof {
                lemma_text_irreflexive(a@);
            }
            false
        },
        Order::After => {
            proof {
                lemma_text_irreflexive(a@);
            }
            false
        },
    }
}

/// A value that can be copied: the copy has the same view.
pub trait Dup: View + Sized {
    fn dup(&self) -> (copy: Self)
        ensures
            copy@ == self@,
    ;
}

impl Dup for u32 {
    fn dup(&self) -> (copy: Self) {
        *self
    }
}

impl Dup for u64 {
    fn dup(&self) -> (copy: Self) {
        *self
    }
}

impl Dup for String {
    fn dup(&self) -> (copy: Self) {
        self.clone()
    }
}

/// A key: its views are totally ordered, and the order can be computed.
pub trait Key: Dup {
    spec fn before(a: Self::V, b: Self::V) -> bool;

    proof fn irreflexive(a: Self::V)
        ensures
            !Self::before(a, a),
    ;

    proof fn transitive(a: Self::V, b: Self::V, c: Self::V)
        requires
            Self::before(a, b),
            Self::before(b, c),
        ensures
            Self::before(a, c),
    ;

    proof fn total(a: Self::V, b: Self::V)
        ensures
            Self::before(a, b) || a == b || Self::before(b, a),
    ;

    fn compare(&self, other: &Self) -> (order: Order)
        ensures
            match order {
                Order::Before => Self::before(self@, other@),
                Order::Same => self@ == other@,
                Order::After => Self::before(other@, self@),
            },
    ;
}

impl Key for String {
    open spec fn before(a: Seq<char>, b: Seq<char>) -> bool {
        text_before(a, b)
    }

    proof fn irreflexive(a: Seq<char>) {
        lemma_text_irreflexive(a);
    }

    proof fn transitive(a: Seq<char>, b: Seq<char>, c: Seq<char>) {
        lemma_text_transitive(a, b, c);
    }

    proof fn total(a: Seq<char>, b: Seq<char>) {
        lemma_text_total(a, b);
    }

    fn compare(&self, other: &Self) -> (order: Order) {
        compare_text(self.as_str(), other.as_str())
    }
}

/// The order of pairs: by the first part, then by the second.
pub open spec fn pair_before<A: Key, B: Key>(a: (A::V, B::V), b: (A::V, B::V)) -> bool {
    A::before(a.0, b.0) || (a.0 == b.0 && B::before(a.1, b.1))
}

pub proof fn lemma_pair_irreflexive<A: Key, B: Key>(a: (A::V, B::V))
    ensures
        !pair_before::<A, B>(a, a),
{
    A::irreflexive(a.0);
    B::irreflexive(a.1);
}

pub proof fn lemma_pair_transitive<A: Key, B: Key>(
    a: (A::V, B::V),
    b: (A::V, B::V),
    c: (A::V, B::V),
)
    requires
        pair_before::<A, B>(a, b),
        pair_before::<A, B>(b, c),
    ensures
        pair_before::<A, B>(a, c),
{
    if A::before(a.0, b.0) && A::before(b.0, c.0) {
        A::transitive(a.0, b.0, c.0);
    }
    if B::before(a.1, b.1) && B::before(b.1, c.1) {
        B::transitive(a.1, b.1, c.1);
    }
}

pub proof fn lemma_pair_total<A: Key, B: Key>(a: (A::V, B::V), b: (A::V, B::V))
    ensures
        pair_before::<A, B>(a, b) || a == b || pair_before::<A, B>(b, a),
{
    A::total(a.0, b.0);
    B::total(a.1, b.1);
}

/// Whether two keys are the same.
pub fn same_key<K: Key>(a: &K, b: &K) -> (same: bool)
    ensures
        same == (a@ == b@),
{
    proof {
        K::irreflexive(a@);
    }
    match a.compare(b) {
        Order::Same => true,
        Order::Before => false,
        Order::After => false,
    }
}

} // verus!
