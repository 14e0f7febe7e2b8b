//! Slicing text at byte offsets.
//!
//! The engine reports where a match lies as byte offsets into the UTF-8
//! encoding of the text it searched. The functions here say, over the
//! characters of a text, what such offsets denote, and cut a string at them
//! without ever splitting a character.

use vstd::prelude::*;
use vstd::string::*;
use vstd::utf8::*;

verus! {

/// The length of `text` in bytes.
pub open spec fn byte_len(text: Seq<char>) -> nat {
    encode_utf8(text).len()
}

/// Whether byte offset `at` lies between two characters of `text`, or at one
/// of its ends.
pub open spec fn splits_at(text: Seq<char>, at: int) -> bool {
    is_char_boundary(encode_utf8(text), at)
}

/// Whether `from` and `to` delimit a piece of `text`.
pub open spec fn is_span(text: Seq<char>, from: int, to: int) -> bool {
    from <= to && splits_at(text, from) && splits_at(text, to)
}

/// The characters of `text` whose bytes lie in `from..to`.
pub open spec fn slice(text: Seq<char>, from: int, to: int) -> Seq<char> {
    decode_utf8(encode_utf8(text).subrange(from, to))
}

/// What is left of `text` from byte offset `from` on.
pub open spec fn tail(text: Seq<char>, from: int) -> Seq<char> {
    slice(text, from, byte_len(text) as int)
}

/// A piece cut out of well-formed bytes between two character boundaries is
/// well formed itself, and its character boundaries are those of the whole,
/// shifted.
pub proof fn lemma_boundary_within(bytes: Seq<u8>, p: int, q: int, i: int)
    requires
        valid_utf8(bytes),
        p <= q,
        is_char_boundary(bytes, p),
        is_char_boundary(bytes, q),
    ensures
        0 <= p <= q <= bytes.len(),
        valid_utf8(bytes.subrange(p, q)),
        is_char_boundary(bytes.subrange(p, q), i) <==> (0 <= i <= q - p && is_char_boundary(
            bytes,
            p + i,
        )),
{
    assert(0 <= p && q <= bytes.len()) by {
        reveal_with_fuel(is_char_boundary, 2);
    }
    let head = bytes.subrange(0, q);
    let piece = bytes.subrange(p, q);
    valid_utf8_split(bytes, q);
    assert(is_char_boundary(head, p)) by {
        if p < q {
            is_char_boundary_iff_not_is_continuation_byte(bytes, p);
            is_char_boundary_iff_not_is_continuation_byte(head, p);
        } else {
            is_char_boundary_start_end_of_seq(head);
        }
    }
    valid_utf8_split(head, p);
    assert(head.subrange(p, q) =~= piece);
    if 0 <= i < q - p {
        is_char_boundary_iff_not_is_continuation_byte(bytes, p + i);
        is_char_boundary_iff_not_is_continuation_byte(piece, i);
    } else if i == q - p {
        is_char_boundary_start_end_of_seq(piece);
    } else {
        reveal_with_fuel(is_char_boundary, 2);
    }
}

/// The bytes of a slice are the bytes of the whole between the two offsets,
/// and a position inside the slice splits it exactly when the same position
/// splits the whole.
pub proof fn lemma_slice(text: Seq<char>, from: int, to: int, i: int)
    requires
        is_span(text, from, to),
    ensures
        0 <= from <= to <= byte_len(text),
        encode_utf8(slice(text, from, to)) == encode_utf8(text).subrange(from, to),
        byte_len(slice(text, from, to)) == to - from,
        splits_at(slice(text, from, to), i) <==> (0 <= i <= to - from && splits_at(text, from + i)),
{
    let bytes = encode_utf8(text);
    encode_utf8_valid_utf8(text);
    lemma_boundary_within(bytes, from, to, i);
    decode_utf8_encode_utf8(bytes.subrange(from, to));
}

/// Slicing a slice is slicing the whole at the shifted offsets.
pub proof fn lemma_slice_of_slice(text: Seq<char>, from: int, to: int, a: int, b: int)
    requires
        is_span(text, from, to),
        is_span(slice(text, from, to), a, b),
    ensures
        is_span(text, from + a, from + b),
        from + b <= to,
        slice(slice(text, from, to), a, b) == slice(text, from + a, from + b),
{
    lemma_slice(text, from, to, a);
    lemma_slice(text, from, to, b);
    assert(encode_utf8(text).subrange(from, to).subrange(a, b) =~= encode_utf8(text).subrange(
        from + a,
        from + b,
    ));
}

/// A text is the slice of itself between its two ends.
pub proof fn lemma_slice_all(text: Seq<char>)
    ensures
        is_span(text, 0, byte_len(text) as int),
        slice(text, 0, byte_len(text) as int) == text,
{
    let bytes = encode_utf8(text);
    encode_utf8_valid_utf8(text);
    is_char_boundary_start_end_of_seq(bytes);
    assert(bytes.subrange(0, bytes.len() as int) =~= bytes);
    encode_utf8_decode_utf8(text);
}

/// The piece of `text` between byte offsets `from` and `to`, where the two
/// delimit one: `from` does not exceed `to`, and neither falls inside a
/// character or beyond the end.
pub fn cut<'a>(text: &'a str, from: usize, to: usize) -> (r: Option<&'a str>)
    ensures
        r is Some <==> is_span(text@, from as int, to as int),
        r matches Some(piece) ==> piece@ == slice(text@, from as int, to as int),
{
    if from > to || !text.is_char_boundary(from) || !text.is_char_boundary(to) {
        return None;
    }
    let (head, _) = text.split_at(to);
    proof {
        encode_utf8_valid_utf8(text@);
        lemma_boundary_within(text.spec_bytes(), 0, to as int, from as int);
        assert(text.spec_bytes().subrange(0, to as int) == head.spec_bytes());
    }
    let (_, piece) = head.split_at(from);
    proof {
        assert(piece.spec_bytes() =~= text.spec_bytes().subrange(from as int, to as int));
        encode_utf8_decode_utf8(piece@);
    }
    Some(piece)
}

/// What is left of `text` from byte offset `at` on, where `at` does not fall
/// inside a character or beyond the end.
pub fn behind<'a>(text: &'a str, at: usize) -> (r: Option<&'a str>)
    ensures
        r is Some <==> splits_at(text@, at as int),
        r matches Some(rest) ==> rest@ == tail(text@, at as int),
{
    if !text.is_char_boundary(at) {
        return None;
    }
    let (_, rest) = text.split_at(at);
    proof {
        encode_utf8_decode_utf8(rest@);
    }
    Some(rest)
}

/// The length of `text` in bytes.
pub fn length(text: &str) -> (n: usize)
    ensures
        n == byte_len(text@),
{
    text.as_bytes().len()
}

/// Whether two strings hold the same text.
pub fn same_text(left: &str, right: &str) -> (same: bool)
    ensures
        same == (left@ == right@),
{
    let a = left.as_bytes();
    let b = right.as_bytes();
    proof {
        encode_utf8_decode_utf8(left@);
        encode_utf8_decode_utf8(right@);
    }
    if a.len() != b.len() {
        return false;
    }
    let mut i: usize = 0;
    while i < a.len()
        invariant
            i <= a.len(),
            a@.len() == b@.len(),
            a@.take(i as int) == b@.take(i as int),
            a@ == encode_utf8(left@),
            b@ == encode_utf8(right@),
        decreases a.len() - i,
    {
        if a[i] != b[i] {
            return false;
        }
        assert(a@.take(i + 1) =~= a@.take(i as int).push(a@[i as int]));
        assert(b@.take(i + 1) =~= b@.take(i as int).push(b@[i as int]));
        i += 1;
    }
    assert(a@.take(i as int) =~= a@);
    assert(b@.take(i as int) =~= b@);
    true
}

} // verus!
