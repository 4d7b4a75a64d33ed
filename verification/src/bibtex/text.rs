//! Text as bytes: where a UTF-8 buffer may be cut, and how a table whose keys
//! are strings is read as a table whose keys are the strings' bytes.

use vstd::prelude::*;
use vstd::string::StringSliceAdditionalSpecFns;
use vstd::utf8::{
    decode_utf8, decode_utf8_encode_utf8, encode_utf8, encode_utf8_decode_utf8,
    encode_utf8_valid_utf8, is_char_boundary_iff_not_is_continuation_byte,
    is_char_boundary_start_end_of_seq, is_continuation_byte, pop_first_scalar, valid_utf8,
    valid_utf8_split,
};
use vstd::relations::injective_on;
use vstd::set_lib::lemma_map_size;

verus! {

/// Whether a buffer may be cut at `i`: at its end, or before a byte that does
/// not continue a character.
pub open spec fn is_boundary(s: Seq<u8>, i: int) -> bool {
    i == s.len() || (0 <= i < s.len() && !is_continuation_byte(s[i]))
}

/// After an ASCII byte a UTF-8 buffer may be cut.
pub proof fn lemma_boundary_after_ascii(s: Seq<u8>, p: int)
    requires
        valid_utf8(s),
        0 <= p < s.len(),
        s[p] < 0x80,
    ensures
        is_boundary(s, p + 1),
{
    if p + 1 < s.len() {
        is_char_boundary_iff_not_is_continuation_byte(s, p);
        valid_utf8_split(s, p);
        let tail = s.subrange(p, s.len() as int);
        assert(tail[0] == s[p]);
        let rest = pop_first_scalar(tail);
        assert(rest =~= s.subrange(p + 1, s.len() as int));
        assert(valid_utf8(rest));
        assert(rest[0] == s[p + 1]);
    }
}

/// Between two places where a UTF-8 buffer may be cut stands UTF-8 text.
pub proof fn lemma_text_between_boundaries(s: Seq<u8>, start: int, end: int)
    requires
        valid_utf8(s),
        0 <= start <= end <= s.len(),
        is_boundary(s, start),
        is_boundary(s, end),
    ensures
        valid_utf8(s.subrange(start, end)),
{
    if end < s.len() {
        is_char_boundary_iff_not_is_continuation_byte(s, end);
    } else {
        is_char_boundary_start_end_of_seq(s);
    }
    valid_utf8_split(s, end);
    let front = s.subrange(0, end);
    if start < end {
        is_char_boundary_iff_not_is_continuation_byte(front, start);
    } else {
        is_char_boundary_start_end_of_seq(front);
    }
    valid_utf8_split(front, start);
    assert(front.subrange(start, end) =~= s.subrange(start, end));
}

/// The part of `s` between two places where it may be cut.
pub(crate) fn cut<'a>(s: &'a str, start: usize, end: usize) -> (r: &'a str)
    requires
        start <= end <= s.spec_bytes().len(),
        is_boundary(s.spec_bytes(), start as int),
        is_boundary(s.spec_bytes(), end as int),
    ensures
        r.spec_bytes() == s.spec_bytes().subrange(start as int, end as int),
{
    proof {
        let bytes = s.spec_bytes();
        encode_utf8_valid_utf8(s@);
        if (end as int) < bytes.len() {
            is_char_boundary_iff_not_is_continuation_byte(bytes, end as int);
        } else {
            is_char_boundary_start_end_of_seq(bytes);
        }
        valid_utf8_split(bytes, end as int);
    }
    let (head, _) = s.split_at(end);
    proof {
        let front = head.spec_bytes();
        assert(front =~= s.spec_bytes().subrange(0, end as int));
        if start < end {
            is_char_boundary_iff_not_is_continuation_byte(front, start as int);
        } else {
            is_char_boundary_start_end_of_seq(front);
        }
    }
    let (_, r) = head.split_at(start);
    assert(r.spec_bytes() =~= s.spec_bytes().subrange(start as int, end as int));
    r
}

/// Whether two byte strings hold the same.
pub fn same_bytes(a: &[u8], b: &[u8]) -> (r: bool)
    ensures
        r == (a@ == b@),
{
    if a.len() != b.len() {
        return false;
    }
    let mut i: usize = 0;
    while i < a.len()
        invariant
            a@.len() == b@.len(),
            0 <= i <= a@.len(),
            a@.subrange(0, i as int) == b@.subrange(0, i as int),
        decreases a@.len() - i,
    {
        if a[i] != b[i] {
            assert(a@[i as int] != b@[i as int]);
            return false;
        }
        assert(a@.subrange(0, i + 1) =~= a@.subrange(0, i as int).push(a@[i as int]));
        assert(b@.subrange(0, i + 1) =~= b@.subrange(0, i as int).push(b@[i as int]));
        i = i + 1;
    }
    assert(a@ =~= a@.subrange(0, a@.len() as int));
    assert(b@ =~= b@.subrange(0, b@.len() as int));
    true
}

/// A table keyed by strings, read as a table keyed by the strings' bytes,
/// with each value seen through `f`.
pub open spec fn by_bytes<V, W>(m: Map<Seq<char>, V>, f: spec_fn(V) -> W) -> Map<Seq<u8>, W> {
    Map::new(
        |k: Seq<u8>| valid_utf8(k) && m.contains_key(decode_utf8(k)),
        |k: Seq<u8>| f(m[decode_utf8(k)]),
    )
}

/// The empty table has no bytes for keys either.
pub proof fn lemma_by_bytes_empty<V, W>(f: spec_fn(V) -> W)
    ensures
        by_bytes(Map::<Seq<char>, V>::empty(), f) == Map::<Seq<u8>, W>::empty(),
{
    assert(by_bytes(Map::<Seq<char>, V>::empty(), f) =~= Map::<Seq<u8>, W>::empty());
}

/// A string is a key of the table exactly if its bytes are a key of the
/// table read by bytes, and both lead to the same value.
pub proof fn lemma_by_bytes_lookup<V, W>(m: Map<Seq<char>, V>, f: spec_fn(V) -> W, k: Seq<char>)
    ensures
        by_bytes(m, f).contains_key(encode_utf8(k)) == m.contains_key(k),
        m.contains_key(k) ==> by_bytes(m, f)[encode_utf8(k)] == f(m[k]),
{
    encode_utf8_valid_utf8(k);
    encode_utf8_decode_utf8(k);
}

/// Adding under a string adds under the string's bytes.
pub proof fn lemma_by_bytes_insert<V, W>(
    m: Map<Seq<char>, V>,
    f: spec_fn(V) -> W,
    k: Seq<char>,
    v: V,
)
    ensures
        by_bytes(m.insert(k, v), f) == by_bytes(m, f).insert(encode_utf8(k), f(v)),
{
    encode_utf8_valid_utf8(k);
    encode_utf8_decode_utf8(k);
    let left = by_bytes(m.insert(k, v), f);
    let right = by_bytes(m, f).insert(encode_utf8(k), f(v));
    assert forall|b: Seq<u8>| #[trigger] left.dom().contains(b) == right.dom().contains(b) by {
        if valid_utf8(b) {
            decode_utf8_encode_utf8(b);
        }
    }
    assert forall|b: Seq<u8>| #[trigger] left.dom().contains(b) implies left[b] == right[b] by {
        decode_utf8_encode_utf8(b);
    }
    assert(left =~= right);
}

/// A finite table has as many keys read by bytes as it has keys.
pub proof fn lemma_by_bytes_len<V, W>(m: Map<Seq<char>, V>, f: spec_fn(V) -> W)
    requires
        m.dom().finite(),
    ensures
        by_bytes(m, f).dom().finite(),
        by_bytes(m, f).len() == m.len(),
{
    let encode = |k: Seq<char>| encode_utf8(k);
    assert(injective_on(encode, m.dom())) by {
        assert forall|a: Seq<char>, b: Seq<char>|
            m.dom().contains(a) && m.dom().contains(b) && #[trigger] encode(a) == #[trigger] encode(
                b,
            ) implies a == b by {
            encode_utf8_decode_utf8(a);
            encode_utf8_decode_utf8(b);
        }
    }
    let keys = by_bytes(m, f).dom();
    assert forall|b: Seq<u8>| #[trigger] keys.contains(b) == m.dom().map(encode).contains(b) by {
        if keys.contains(b) {
            decode_utf8_encode_utf8(b);
            assert(m.dom().contains(decode_utf8(b)) && b == encode(decode_utf8(b)));
        }
        if m.dom().map(encode).contains(b) {
            let k = choose|k: Seq<char>| m.dom().contains(k) && b == encode(k);
            encode_utf8_valid_utf8(k);
            encode_utf8_decode_utf8(k);
        }
    }
    assert(m.dom().map(encode) =~= keys);
    lemma_map_size(m.dom(), keys, encode);
}

} // verus!
