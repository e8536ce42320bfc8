//! The order of terms: lexicographic by the bytes of their UTF-8 encoding.

use vstd::prelude::*;
use vstd::utf8::{encode_utf8, encode_utf8_decode_utf8};

verus! {

/// Whether `a` comes before `b` in lexicographic order.
pub open spec fn bytes_lt(a: Seq<u8>, b: Seq<u8>) -> bool
    decreases a.len(),
{
    if b.len() == 0 {
        false
    } else if a.len() == 0 {
        true
    } else if a[0] != b[0] {
        a[0] < b[0]
    } else {
        bytes_lt(a.skip(1), b.skip(1))
    }
}

/// Whether the term `a` comes before the term `b`.
pub open spec fn term_lt(a: Seq<char>, b: Seq<char>) -> bool {
    bytes_lt(encode_utf8(a), encode_utf8(b))
}

/// How two terms stand to each other.
#[derive(Debug, Clone, Copy, PartialEq, Eq, Structural)]
pub enum Comparison {
    Before,
    Same,
    After,
}

/// No sequence comes before itself.
pub proof fn lemma_bytes_lt_irreflexive(a: Seq<u8>)
    ensures
        !bytes_lt(a, a),
    decreases a.len(),
{
    if a.len() > 0 {
        lemma_bytes_lt_irreflexive(a.skip(1));
    }
}

/// The lexicographic order is transitive.
pub proof fn lemma_bytes_lt_transitive(a: Seq<u8>, b: Seq<u8>, c: Seq<u8>)
    requires
        bytes_lt(a, b),
        bytes_lt(b, c),
    ensures
        bytes_lt(a, c),
    decreases a.len(),
{
    if a.len() > 0 && a[0] == b[0] && b[0] == c[0] {
        lemma_bytes_lt_transitive(a.skip(1), b.skip(1), c.skip(1));
    }
}

/// Of two different sequences one comes before the other.
pub proof fn lemma_bytes_lt_total(a: Seq<u8>, b: Seq<u8>)
    ensures
        bytes_lt(a, b) || bytes_lt(b, a) || a == b,
    decreases a.len(),
{
    if a.len() > 0 && b.len() > 0 && a[0] == b[0] {
        lemma_bytes_lt_total(a.skip(1), b.skip(1));
        if a.skip(1) == b.skip(1) {
            assert(a =~= seq![a[0]] + a.skip(1));
            assert(b =~= seq![b[0]] + b.skip(1));
        }
    } else if a.len() == 0 && b.len() == 0 {
        assert(a =~= b);
    }
}

/// No term comes before itself.
pub proof fn lemma_term_lt_irreflexive(a: Seq<char>)
    ensures
        !term_lt(a, a),
{
    lemma_bytes_lt_irreflexive(encode_utf8(a));
}

/// The order of terms is transitive.
pub proof fn lemma_term_lt_transitive(a: Seq<char>, b: Seq<char>, c: Seq<char>)
    requires
        term_lt(a, b),
        term_lt(b, c),
    ensures
        term_lt(a, c),
{
    lemma_bytes_lt_transitive(encode_utf8(a), encode_utf8(b), encode_utf8(c));
}

/// Of two different terms one comes before the other.
pub proof fn lemma_term_lt_total(a: Seq<char>, b: Seq<char>)
    ensures
        term_lt(a, b) || term_lt(b, a) || a == b,
{
    lemma_bytes_lt_total(encode_utf8(a), encode_utf8(b));
    if encode_utf8(a) == encode_utf8(b) {
        encode_utf8_decode_utf8(a);
        encode_utf8_decode_utf8(b);
    }
}

/// Compares two terms.
pub fn compare_terms(a: &str, b: &str) -> (order: Comparison)
    ensures
        order == Comparison::Before <==> term_lt(a@, b@),
        order == Comparison::Same <==> a@ == b@,
        order == Comparison::After <==> term_lt(b@, a@),
{
    let left = a.as_bytes();
    let right = b.as_bytes();
    let ghost x = encode_utf8(a@);
    let ghost y = encode_utf8(b@);
    let mut i: usize = 0;
    assert(x.skip(0) =~= x && y.skip(0) =~= y);
    while i < left.len() && i < right.len() && left[i] == right[i]
        invariant
            left@ == x,
            right@ == y,
            i <= x.len(),
            i <= y.len(),
            bytes_lt(x, y) == bytes_lt(x.skip(i as int), y.skip(i as int)),
            bytes_lt(y, x) == bytes_lt(y.skip(i as int), x.skip(i as int)),
            x.take(i as int) == y.take(i as int),
        decreases x.len() - i,
    {
        assert(x.skip(i as int).skip(1) =~= x.skip(i + 1));
        assert(y.skip(i as int).skip(1) =~= y.skip(i + 1));
        assert(x.take(i + 1) =~= x.take(i as int).push(x[i as int]));
        assert(y.take(i + 1) =~= y.take(i as int).push(y[i as int]));
        i += 1;
    }
    proof {
        lemma_term_lt_irreflexive(a@);
        lemma_term_lt_total(a@, b@);
        if term_lt(a@, b@) && term_lt(b@, a@) {
            lemma_term_lt_transitive(a@, b@, a@);
        }
    }
    if i == left.len() && i == right.len() {
        proof {
            assert(x =~= x.take(i as int));
            assert(y =~= y.take(i as int));
            encode_utf8_decode_utf8(a@);
            encode_utf8_decode_utf8(b@);
        }
        Comparison::Same
    } else if i == left.len() {
        Comparison::Before
    } else if i == right.len() {
        Comparison::After
    } else if left[i] < right[i] {
        Comparison::Before
    } else {
        Comparison::After
    }
}

} // verus!
