//! The order in which keys are listed: strings compared byte by byte over
//! their UTF-8 encoding, a shorter string before any of its extensions.

use vstd::prelude::*;
use vstd::utf8::{encode_utf8, encode_utf8_decode_utf8};

verus! {

/// How two texts stand to each other in the listing order.
#[derive(Clone, Copy, Debug, PartialEq, Eq, Structural)]
pub enum TextOrder {
    Before,
    Same,
    After,
}

/// `a` comes strictly before `b` when, at the first position where they
/// differ, `a` has the smaller byte, or when `a` ends there and `b` goes on.
pub open spec fn bytes_before(a: Seq<u8>, b: Seq<u8>) -> bool
    decreases a.len(),
{
    if b.len() == 0 {
        false
    } else if a.len() == 0 {
        true
    } else if a[0] != b[0] {
        a[0] < b[0]
    } else {
        bytes_before(a.drop_first(), b.drop_first())
    }
}

/// The listing order on texts.
pub open spec fn text_before(a: Seq<char>, b: Seq<char>) -> bool {
    bytes_before(encode_utf8(a), encode_utf8(b))
}

/// The relation of `a` to `b` as a three-way result.
pub open spec fn text_order(a: Seq<char>, b: Seq<char>) -> TextOrder {
    if a == b {
        TextOrder::Same
    } else if text_before(a, b) {
        TextOrder::Before
    } else {
        TextOrder::After
    }
}

/// No byte string comes before itself.
pub proof fn lemma_bytes_before_irreflexive(a: Seq<u8>)
    ensures
        !bytes_before(a, a),
    decreases a.len(),
{
    if a.len() > 0 {
        lemma_bytes_before_irreflexive(a.drop_first());
    }
}

/// The byte order is transitive.
pub proof fn lemma_bytes_before_transitive(a: Seq<u8>, b: Seq<u8>, c: Seq<u8>)
    requires
        bytes_before(a, b),
        bytes_before(b, c),
    ensures
        bytes_before(a, c),
    decreases a.len(),
{
    if a.len() > 0 && b.len() > 0 && c.len() > 0 && a[0] == b[0] && b[0] == c[0] {
        lemma_bytes_before_transitive(a.drop_first(), b.drop_first(), c.drop_first());
    }
}

/// Of two different byte strings one comes before the other.
pub proof fn lemma_bytes_before_total(a: Seq<u8>, b: Seq<u8>)
    ensures
        a == b || bytes_before(a, b) || bytes_before(b, a),
    decreases a.len(),
{
    if a.len() > 0 && b.len() > 0 && a[0] == b[0] {
        lemma_bytes_before_total(a.drop_first(), b.drop_first());
        if a.drop_first() == b.drop_first() {
            assert(a =~= seq![a[0]] + a.drop_first());
            assert(b =~= seq![b[0]] + b.drop_first());
        }
    } else if a.len() == 0 && b.len() == 0 {
        assert(a =~= b);
    }
}

/// The relation of `a` to `b` as byte strings.
pub open spec fn bytes_order(a: Seq<u8>, b: Seq<u8>) -> TextOrder {
    if a == b {
        TextOrder::Same
    } else if bytes_before(a, b) {
        TextOrder::Before
    } else {
        TextOrder::After
    }
}

/// Compares two byte strings: the first differing byte decides, and a proper
/// prefix comes first.
pub fn compare_bytes(x: &[u8], y: &[u8]) -> (o: TextOrder)
    ensures
        o == bytes_order(x@, y@),
{
    let mut i: usize = 0;
    assert(x@.skip(0) =~= x@ && y@.skip(0) =~= y@);
    while i < x.len() && i < y.len()
        invariant
            i <= x@.len(),
            i <= y@.len(),
            x@.subrange(0, i as int) == y@.subrange(0, i as int),
            bytes_before(x@, y@) == bytes_before(x@.skip(i as int), y@.skip(i as int)),
        decreases x@.len() - i,
    {
        let p = x[i];
        let q = y[i];
        proof {
            let xs = x@.skip(i as int);
            let ys = y@.skip(i as int);
            assert(xs[0] == p && ys[0] == q);
            assert(xs.drop_first() =~= x@.skip(i + 1));
            assert(ys.drop_first() =~= y@.skip(i + 1));
        }
        if p < q {
            return TextOrder::Before;
        }
        if q < p {
            return TextOrder::After;
        }
        assert(x@.subrange(0, i + 1) =~= x@.subrange(0, i as int).push(p));
        assert(y@.subrange(0, i + 1) =~= y@.subrange(0, i as int).push(q));
        i += 1;
    }
    proof {
        if x@.len() == y@.len() {
            assert(x@ =~= x@.subrange(0, i as int));
            assert(y@ =~= y@.subrange(0, i as int));
        }
    }
    if x.len() < y.len() {
        TextOrder::Before
    } else if y.len() < x.len() {
        TextOrder::After
    } else {
        TextOrder::Same
    }
}

/// Compares two strings in the listing order.
pub fn compare_text(a: &str, b: &str) -> (o: TextOrder)
    ensures
        o == text_order(a@, b@),
{
    proof {
        if encode_utf8(a@) == encode_utf8(b@) {
            lemma_same_encoding(a@, b@);
        }
    }
    compare_bytes(a.as_bytes(), b.as_bytes())
}

/// Whether two strings hold the same text.
pub fn same_text(a: &str, b: &str) -> (r: bool)
    ensures
        r == (a@ == b@),
{
    match compare_text(a, b) {
        TextOrder::Same => true,
        _ => false,
    }
}

/// Two texts with the same encoding are the same text.
pub proof fn lemma_same_encoding(a: Seq<char>, b: Seq<char>)
    requires
        encode_utf8(a) == encode_utf8(b),
    ensures
        a == b,
{
    encode_utf8_decode_utf8(a);
    encode_utf8_decode_utf8(b);
}

/// No text comes before itself.
pub proof fn lemma_text_before_irreflexive(a: Seq<char>)
    ensures
        !text_before(a, a),
{
    lemma_bytes_before_irreflexive(encode_utf8(a));
}

/// The listing order is transitive.
pub proof fn lemma_text_before_transitive(a: Seq<char>, b: Seq<char>, c: Seq<char>)
    requires
        text_before(a, b),
        text_before(b, c),
    ensures
        text_before(a, c),
{
    lemma_bytes_before_transitive(encode_utf8(a), encode_utf8(b), encode_utf8(c));
}

/// Of two different texts one comes before the other.
pub proof fn lemma_text_before_total(a: Seq<char>, b: Seq<char>)
    ensures
        a == b || text_before(a, b) || text_before(b, a),
{
    lemma_bytes_before_total(encode_utf8(a), encode_utf8(b));
    if encode_utf8(a) == encode_utf8(b) {
        lemma_same_encoding(a, b);
    }
}

} // verus!
