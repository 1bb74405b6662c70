//! Strings as UTF-8 bytes, and the order of keys.

use vstd::prelude::*;
use vstd::utf8::{decode_utf8, encode_utf8, valid_utf8};
use vstd::utf8::{encode_utf8_decode_utf8, encode_utf8_valid_utf8};

verus! {

/// The text that `String::from_utf8_lossy` makes of bytes that are not valid
/// UTF-8: each invalid sequence becomes U+FFFD.
pub uninterp spec fn utf8_replaced(bytes: Seq<u8>) -> Seq<char>;

/// The text read from `bytes`: what they encode where they are valid UTF-8,
/// and the text with replacement characters where they are not.
pub open spec fn lossy_text(bytes: Seq<u8>) -> Seq<char> {
    if valid_utf8(bytes) {
        decode_utf8(bytes)
    } else {
        utf8_replaced(bytes)
    }
}

/// The UTF-8 bytes of a text.
pub open spec fn text_bytes(text: Seq<char>) -> Seq<u8> {
    encode_utf8(text)
}

/// Reading the bytes of a text gives the text back.
pub proof fn lemma_text_round_trip(text: Seq<char>)
    ensures
        lossy_text(text_bytes(text)) == text,
{
    encode_utf8_valid_utf8(text);
    encode_utf8_decode_utf8(text);
}

/// Two texts with the same bytes are the same text.
pub proof fn lemma_text_bytes_injective(a: Seq<char>, b: Seq<char>)
    requires
        text_bytes(a) == text_bytes(b),
    ensures
        a == b,
{
    lemma_text_round_trip(a);
    lemma_text_round_trip(b);
}

/// `String::from_utf8_lossy`, owned: valid UTF-8 is decoded as it stands,
/// anything else with U+FFFD in place of each invalid sequence.
#[verifier::external_body]
pub(crate) fn string_from_utf8_lossy(bytes: &[u8]) -> (s: String)
    ensures
        s@ == if valid_utf8(bytes@) {
            decode_utf8(bytes@)
        } else {
            utf8_replaced(bytes@)
        },
{
    String::from_utf8_lossy(bytes).into_owned()
}

/// Whether `a` comes before `b` in the lexicographic order of bytes.
pub open spec fn bytes_before(a: Seq<u8>, b: Seq<u8>) -> bool
    decreases a.len(),
{
    if b.len() == 0 {
        false
    } else if a.len() == 0 {
        true
    } else if a[0] != b[0] {
        a[0] < b[0]
    } else {
        bytes_before(a.drop_first(), b.drop_first())
    }
}

/// Whether the key `a` comes before the key `b`: keys are ordered as their
/// UTF-8 bytes are.
pub open spec fn key_before(a: Seq<char>, b: Seq<char>) -> bool {
    bytes_before(text_bytes(a), text_bytes(b))
}

/// The order of bytes in terms of a first difference: `a` comes before `b`
/// when it is a proper prefix of `b` or holds the smaller byte where they
/// first differ.
proof fn lemma_bytes_before_at(a: Seq<u8>, b: Seq<u8>, k: int)
    requires
        0 <= k <= a.len(),
        k <= b.len(),
        a.subrange(0, k) == b.subrange(0, k),
    ensures
        k == a.len() && k == b.len() ==> !bytes_before(a, b) && !bytes_before(b, a) && a == b,
        k == a.len() && k < b.len() ==> bytes_before(a, b) && !bytes_before(b, a),
        k < a.len() && k == b.len() ==> !bytes_before(a, b) && bytes_before(b, a),
        k < a.len() && k < b.len() && a[k] < b[k] ==> bytes_before(a, b) && !bytes_before(b, a),
        k < a.len() && k < b.len() && a[k] > b[k] ==> !bytes_before(a, b) && bytes_before(b, a),
    decreases k,
{
    if k == 0 {
        if a.len() == 0 && b.len() == 0 {
            assert(a =~= b);
        }
    } else {
        assert(a[0] == a.subrange(0, k)[0]);
        assert(b[0] == b.subrange(0, k)[0]);
        assert(a.drop_first().subrange(0, k - 1) =~= a.subrange(0, k).drop_first());
        assert(b.drop_first().subrange(0, k - 1) =~= b.subrange(0, k).drop_first());
        lemma_bytes_before_at(a.drop_first(), b.drop_first(), k - 1);
        if k == a.len() && k == b.len() {
            assert(a =~= seq![a[0]] + a.drop_first());
            assert(b =~= seq![b[0]] + b.drop_first());
        }
    }
}

/// The order of bytes is irreflexive and transitive, and of two different
/// byte strings one comes before the other.
pub proof fn lemma_bytes_before_order(a: Seq<u8>, b: Seq<u8>, c: Seq<u8>)
    ensures
        !bytes_before(a, a),
        bytes_before(a, b) && bytes_before(b, c) ==> bytes_before(a, c),
        a != b ==> bytes_before(a, b) || bytes_before(b, a),
        !(bytes_before(a, b) && bytes_before(b, a)),
    decreases a.len(),
{
    if a.len() > 0 {
        lemma_bytes_before_order(a.drop_first(), a.drop_first(), a.drop_first());
    }
    if a.len() > 0 && b.len() > 0 {
        if c.len() > 0 {
            lemma_bytes_before_order(a.drop_first(), b.drop_first(), c.drop_first());
        } else {
            lemma_bytes_before_order(a.drop_first(), b.drop_first(), b.drop_first());
        }
        if a[0] == b[0] && a.drop_first() == b.drop_first() {
            assert(a =~= seq![a[0]] + a.drop_first());
            assert(b =~= seq![b[0]] + b.drop_first());
        }
    } else if a.len() == 0 && b.len() == 0 {
        assert(a =~= b);
    }
}

/// How two byte strings stand to each other in the order.
#[derive(Clone, Copy, PartialEq, Eq, Structural, Debug)]
pub enum Order {
    Before,
    Same,
    After,
}

/// Compares two byte strings lexicographically.
pub fn compare_bytes(a: &[u8], b: &[u8]) -> (o: Order)
    ensures
        o == Order::Before <==> bytes_before(a@, b@),
        o == Order::Same <==> a@ == b@,
        o == Order::After <==> bytes_before(b@, a@),
{
    let mut k: usize = 0;
    while k < a.len() && k < b.len() && a[k] == b[k]
        invariant
            k <= a@.len(),
            k <= b@.len(),
            a@.subrange(0, k as int) == b@.subrange(0, k as int),
        decreases a@.len() - k,
    {
        assert(a@.subrange(0, k + 1) =~= a@.subrange(0, k as int).push(a@[k as int]));
        assert(b@.subrange(0, k + 1) =~= b@.subrange(0, k as int).push(b@[k as int]));
        k += 1;
    }
    proof {
        lemma_bytes_before_at(a@, b@, k as int);
        lemma_bytes_before_order(a@, b@, a@);
    }
    if k == a.len() {
        if k == b.len() {
            Order::Same
        } else {
            Order::Before
        }
    } else if k == b.len() {
        Order::After
    } else if a[k] < b[k] {
        Order::Before
    } else {
        Order::After
    }
}

/// Compares two keys in the order of their UTF-8 bytes.
pub fn compare_keys(a: &str, b: &str) -> (o: Order)
    ensures
        o == Order::Before <==> key_before(a@, b@),
        o == Order::Same <==> a@ == b@,
        o == Order::After <==> key_before(b@, a@),
{
    let o = compare_bytes(a.as_bytes(), b.as_bytes());
    proof {
        if text_bytes(a@) == text_bytes(b@) {
            lemma_text_bytes_injective(a@, b@);
        }
    }
    o
}

} // verus!
