//! The order in which secret names are kept and listed.
//!
//! Names are ordered as Rust orders `str`: lexicographically by their UTF-8
//! bytes (which is also the order of their code points).
use vstd::prelude::*;
use vstd::utf8::{encode_utf8, encode_utf8_decode_utf8};

verus! {

/// Lexicographic "strictly before" on byte sequences.
pub open spec fn bytes_lt(a: Seq<u8>, b: Seq<u8>) -> bool
    decreases a.len(),
{
    if b.len() == 0 {
        false
    } else if a.len() == 0 {
        true
    } else if a[0] < b[0] {
        true
    } else if a[0] > b[0] {
        false
    } else {
        bytes_lt(a.drop_first(), b.drop_first())
    }
}

/// The order on names: that of their UTF-8 encodings.
pub open spec fn name_lt(a: Seq<char>, b: Seq<char>) -> bool {
    bytes_lt(encode_utf8(a), encode_utf8(b))
}

/// No sequence is before itself.
pub proof fn lemma_bytes_lt_irreflexive(a: Seq<u8>)
    ensures
        !bytes_lt(a, a),
    decreases a.len(),
{
    if a.len() > 0 {
        lemma_bytes_lt_irreflexive(a.drop_first());
    }
}

/// Two sequences are equal, or exactly one of them is before the other.
pub proof fn lemma_bytes_lt_trichotomy(a: Seq<u8>, b: Seq<u8>)
    ensures
        a == b || bytes_lt(a, b) || bytes_lt(b, a),
        !(bytes_lt(a, b) && bytes_lt(b, a)),
        bytes_lt(a, b) ==> a != b,
    decreases a.len(),
{
    if a.len() > 0 && b.len() > 0 && a[0] == b[0] {
        lemma_bytes_lt_trichotomy(a.drop_first(), b.drop_first());
        if a.drop_first() == b.drop_first() {
            assert(a =~= seq![a[0]] + a.drop_first());
            assert(b =~= seq![b[0]] + b.drop_first());
        }
    } else if a.len() == 0 && b.len() == 0 {
        assert(a =~= b);
    }
    if bytes_lt(a, b) {
        lemma_bytes_lt_irreflexive(a);
    }
}

/// The order is transitive.
pub proof fn lemma_bytes_lt_transitive(a: Seq<u8>, b: Seq<u8>, c: Seq<u8>)
    requires
        bytes_lt(a, b),
        bytes_lt(b, c),
    ensures
        bytes_lt(a, c),
    decreases a.len(),
{
    if a.len() > 0 && a[0] == b[0] && b[0] == c[0] {
        lemma_bytes_lt_transitive(a.drop_first(), b.drop_first(), c.drop_first());
    }
}

/// Names are equal, or exactly one of them is before the other.
pub proof fn lemma_name_lt_trichotomy(a: Seq<char>, b: Seq<char>)
    ensures
        a == b || name_lt(a, b) || name_lt(b, a),
        !(name_lt(a, b) && name_lt(b, a)),
        !name_lt(a, a),
{
    lemma_bytes_lt_trichotomy(encode_utf8(a), encode_utf8(b));
    lemma_bytes_lt_irreflexive(encode_utf8(a));
    if encode_utf8(a) == encode_utf8(b) {
        encode_utf8_decode_utf8(a);
        encode_utf8_decode_utf8(b);
    }
}

/// The order on names is transitive.
pub proof fn lemma_name_lt_transitive(a: Seq<char>, b: Seq<char>, c: Seq<char>)
    requires
        name_lt(a, b),
        name_lt(b, c),
    ensures
        name_lt(a, c),
{
    lemma_bytes_lt_transitive(encode_utf8(a), encode_utf8(b), encode_utf8(c));
}

/// Where one name stands relative to another.
#[derive(Debug, Clone, Copy, PartialEq, Eq, Structural)]
pub enum KeyOrder {
    Before,
    Same,
    After,
}

/// Compare two names in the order of `str`.
pub fn compare_keys(a: &str, b: &str) -> (r: KeyOrder)
    ensures
        r == KeyOrder::Before <==> name_lt(a@, b@),
        r == KeyOrder::Same <==> a@ == b@,
        r == KeyOrder::After <==> name_lt(b@, a@),
{
    proof {
        lemma_name_lt_trichotomy(a@, b@);
    }
    let x = a.as_bytes();
    let y = b.as_bytes();
    let ghost xs = x@;
    let ghost ys = y@;
    assert(xs.skip(0) =~= xs);
    assert(ys.skip(0) =~= ys);
    let mut i: usize = 0;
    while i < x.len() && i < y.len()
        invariant
            xs == x@,
            ys == y@,
            xs == encode_utf8(a@),
            ys == encode_utf8(b@),
            i <= xs.len(),
            i <= ys.len(),
            xs.take(i as int) == ys.take(i as int),
            bytes_lt(xs, ys) == bytes_lt(xs.skip(i as int), ys.skip(i as int)),
            bytes_lt(ys, xs) == bytes_lt(ys.skip(i as int), xs.skip(i as int)),
        decreases xs.len() - i,
    {
        if x[i] < y[i] {
            return KeyOrder::Before;
        } else if x[i] > y[i] {
            return KeyOrder::After;
        }
        assert(xs.skip(i as int).drop_first() =~= xs.skip(i + 1));
        assert(ys.skip(i as int).drop_first() =~= ys.skip(i + 1));
        assert(xs.take(i + 1) =~= xs.take(i as int).push(xs[i as int]));
        assert(ys.take(i + 1) =~= ys.take(i as int).push(ys[i as int]));
        i = i + 1;
    }
    if i < y.len() {
        KeyOrder::Before
    } else if i < x.len() {
        KeyOrder::After
    } else {
        proof {
            assert(xs =~= xs.take(i as int));
            assert(ys =~= ys.take(i as int));
            encode_utf8_decode_utf8(a@);
            encode_utf8_decode_utf8(b@);
        }
        KeyOrder::Same
    }
}

} // verus!
