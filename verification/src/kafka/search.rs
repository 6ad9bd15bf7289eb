//! Looking for bytes in bytes, and for text in bytes that need not be text.

use vstd::prelude::*;
use vstd::utf8::{decode_utf8, encode_scalar, encode_utf8, is_char_boundary, valid_utf8};

verus! {

/// The needle stands in the haystack at a position.
pub open spec fn stands_at(haystack: Seq<u8>, needle: Seq<u8>, at: int) -> bool {
    0 <= at && at + needle.len() <= haystack.len() && haystack.subrange(at, at + needle.len())
        == needle
}

/// `memchr::memchr` gives the first position of a byte.
pub assume_specification[ memchr::memchr ](needle: u8, haystack: &[u8]) -> (r: Option<usize>)
    ensures
        match r {
            Some(at) => at < haystack@.len() && haystack@[at as int] == needle && forall|i: int|
                0 <= i < at ==> haystack@[i] != needle,
            None => forall|i: int| 0 <= i < haystack@.len() ==> haystack@[i] != needle,
        },
;

/// `memchr::memchr2` gives the first position of either of two bytes.
pub assume_specification[ memchr::memchr2 ](
    needle1: u8,
    needle2: u8,
    haystack: &[u8],
) -> (r: Option<usize>)
    ensures
        match r {
            Some(at) => at < haystack@.len() && (haystack@[at as int] == needle1
                || haystack@[at as int] == needle2) && forall|i: int|
                0 <= i < at ==> haystack@[i] != needle1 && haystack@[i] != needle2,
            None => forall|i: int|
                0 <= i < haystack@.len() ==> haystack@[i] != needle1 && haystack@[i] != needle2,
        },
;

/// `memchr::memmem::find` gives the first position at which the needle stands.
pub assume_specification[ memchr::memmem::find ](haystack: &[u8], needle: &[u8]) -> (r: Option<
    usize,
>)
    ensures
        match r {
            Some(at) => stands_at(haystack@, needle@, at as int) && forall|i: int|
                0 <= i < at ==> !stands_at(haystack@, needle@, i),
            None => forall|i: int| !stands_at(haystack@, needle@, i),
        },
;

/// `std::str::from_utf8` gives the text whose encoding the bytes are, where
/// they are the encoding of one.
#[verifier::external_body]
pub(crate) fn text_of_utf8(bytes: &[u8]) -> (r: Option<&str>)
    ensures
        r is Some <==> valid_utf8(bytes@),
        r is Some ==> r->0@ == decode_utf8(bytes@),
{
    std::str::from_utf8(bytes).ok()
}

/// The first chunk of `[u8]::utf8_chunks` starts with the longest beginning of
/// the bytes that is text, possibly empty.
#[verifier::external_body]
pub(crate) fn leading_text(bytes: &[u8]) -> (r: &str)
    ensures
        encode_utf8(r@).len() <= bytes@.len(),
        encode_utf8(r@) == bytes@.take(encode_utf8(r@).len() as int),
        forall|m: int| encode_utf8(r@).len() < m <= bytes@.len() ==> !valid_utf8(
            #[trigger] bytes@.take(m),
        ),
{
    bytes.utf8_chunks().next().map_or("", |chunk| chunk.valid())
}

/// The bytes from `i` to `j` are text, and this text has a property.
pub open spec fn is_piece(
    haystack: Seq<u8>,
    i: int,
    j: int,
    wanted: spec_fn(Seq<char>) -> bool,
) -> bool {
    &&& 0 <= i <= j <= haystack.len()
    &&& valid_utf8(haystack.subrange(i, j))
    &&& wanted(decode_utf8(haystack.subrange(i, j)))
}

/// Somewhere in the bytes stands a text with a property.
pub open spec fn holds_text(haystack: Seq<u8>, wanted: spec_fn(Seq<char>) -> bool) -> bool {
    exists|i: int, j: int| is_piece(haystack, i, j, wanted)
}

/// Encoding goes character by character.
pub proof fn lemma_encode_concat(a: Seq<char>, b: Seq<char>)
    ensures
        encode_utf8(a + b) == encode_utf8(a) + encode_utf8(b),
    decreases a.len(),
{
    if a.len() == 0 {
        assert(a + b =~= b);
        assert(encode_utf8(a) + encode_utf8(b) =~= encode_utf8(b));
    } else {
        lemma_encode_concat(a.drop_first(), b);
        assert((a + b).drop_first() =~= a.drop_first() + b);
        assert(encode_utf8(a + b) =~= encode_utf8(a) + encode_utf8(b));
    }
}

/// How many bytes a character takes in UTF-8.
pub fn width(c: char) -> (r: usize)
    ensures
        r == encode_scalar(c as u32).len(),
        1 <= r <= 4,
{
    let v: u32 = c as u32;
    if v <= 0x7f {
        1
    } else if v <= 0x7ff {
        2
    } else if v <= 0xffff {
        3
    } else {
        4
    }
}

pub proof fn lemma_encode_step(chars: Seq<char>, k: int)
    requires
        0 <= k < chars.len(),
    ensures
        encode_utf8(chars.take(k + 1)) == encode_utf8(chars.take(k)) + encode_scalar(
            chars[k] as u32,
        ),
        encode_utf8(chars) == encode_utf8(chars.take(k)) + encode_utf8(chars.skip(k)),
        encode_utf8(chars.skip(k)) == encode_scalar(chars[k] as u32) + encode_utf8(
            chars.skip(k + 1),
        ),
{
    let one = seq![chars[k]];
    assert(chars.take(k + 1) =~= chars.take(k) + one);
    lemma_encode_concat(chars.take(k), one);
    assert(one.drop_first() =~= Seq::empty());
    assert(encode_utf8(Seq::<char>::empty()) =~= Seq::<u8>::empty());
    assert(one[0] == chars[k]);
    assert(encode_utf8(one) == encode_scalar(one[0] as u32) + encode_utf8(one.drop_first()));
    assert(encode_utf8(one) =~= encode_scalar(chars[k] as u32));
    assert(chars =~= chars.take(k) + chars.skip(k));
    lemma_encode_concat(chars.take(k), chars.skip(k));
    assert(chars.skip(k).drop_first() =~= chars.skip(k + 1));
}

/// A text in the bytes lies either inside the longest text that starts at `pos`
/// or wholly behind it: it cannot span a byte that belongs to no text.
pub proof fn lemma_piece_inside_or_behind(
    haystack: Seq<u8>,
    pos: int,
    end: int,
    i: int,
    j: int,
) -> (r: (int, int))
    requires
        0 <= pos <= end <= haystack.len(),
        valid_utf8(haystack.subrange(pos, end)),
        forall|m: int|
            end < m <= haystack.len() ==> !valid_utf8(#[trigger] haystack.subrange(pos, m)),
        pos <= i < j <= haystack.len(),
        valid_utf8(haystack.subrange(i, j)),
        i <= end,
    ensures
        i < end,
        j <= end,
        ({
            let chunk = decode_utf8(haystack.subrange(pos, end));
            &&& 0 <= r.0 <= r.1 <= chunk.len()
            &&& chunk.subrange(r.0, r.1) == decode_utf8(haystack.subrange(i, j))
        }),
{
    let chunk = haystack.subrange(pos, end);
    let piece = haystack.subrange(i, j);
    vstd::utf8::is_char_boundary_start_end_of_seq(piece);
    vstd::utf8::is_char_boundary_iff_not_is_continuation_byte(piece, 0);
    let before = haystack.subrange(pos, i);
    if i < end {
        assert(chunk[i - pos] == piece[0]);
        vstd::utf8::is_char_boundary_iff_not_is_continuation_byte(chunk, i - pos);
        vstd::utf8::valid_utf8_split(chunk, i - pos);
        assert(chunk.subrange(0, i - pos) =~= before);
    } else {
        assert(before =~= chunk);
    }
    vstd::utf8::valid_utf8_concat(before, piece);
    assert(haystack.subrange(pos, j) =~= before + piece);
    assert(j <= end);
    vstd::utf8::decode_utf8_split(chunk, i - pos);
    let tail = chunk.subrange(i - pos, chunk.len() as int);
    vstd::utf8::valid_utf8_split(chunk, i - pos);
    // The piece ends at a boundary of the tail: what follows it is text too.
    assert(before + piece =~= chunk.subrange(0, j - pos));
    lemma_rest_is_text(before + piece, chunk, j - pos);
    assert(tail.subrange(0, j - i) =~= piece);
    if j < end {
        vstd::utf8::is_char_boundary_iff_not_is_continuation_byte(chunk, j - pos);
        assert(tail[j - i] == chunk[j - pos]);
        vstd::utf8::is_char_boundary_iff_not_is_continuation_byte(tail, j - i);
    } else {
        vstd::utf8::is_char_boundary_start_end_of_seq(tail);
    }
    vstd::utf8::decode_utf8_split(tail, j - i);
    let a = decode_utf8(before).len() as int;
    let b = a + decode_utf8(piece).len();
    let all = decode_utf8(chunk);
    assert(all.subrange(a, b) =~= decode_utf8(piece));
    (a, b)
}

/// Where a beginning of a text is text itself, it ends between characters.
proof fn lemma_rest_is_text(head: Seq<u8>, whole: Seq<u8>, at: int)
    requires
        valid_utf8(head),
        valid_utf8(whole),
        0 <= at <= whole.len(),
        head == whole.subrange(0, at),
    ensures
        is_char_boundary(whole, at),
    decreases head.len(),
{
    if at > 0 {
        let rest_head = vstd::utf8::pop_first_scalar(head);
        let rest_whole = vstd::utf8::pop_first_scalar(whole);
        let n = vstd::utf8::length_of_first_scalar(head);
        assert(head[0] == whole[0]);
        assert(n == vstd::utf8::length_of_first_scalar(whole));
        assert(rest_head =~= rest_whole.subrange(0, at - n));
        lemma_rest_is_text(rest_head, rest_whole, at - n);
    }
}

/// Some of the characters of a text in the bytes are a text in the bytes.
pub proof fn lemma_chars_are_a_piece(
    haystack: Seq<u8>,
    pos: int,
    chars: Seq<char>,
    a: int,
    b: int,
) -> (r: (int, int))
    requires
        0 <= pos,
        pos + encode_utf8(chars).len() <= haystack.len(),
        encode_utf8(chars) == haystack.subrange(pos, pos + encode_utf8(chars).len()),
        0 <= a <= b <= chars.len(),
    ensures
        0 <= r.0 <= r.1 <= haystack.len(),
        valid_utf8(haystack.subrange(r.0, r.1)),
        decode_utf8(haystack.subrange(r.0, r.1)) == chars.subrange(a, b),
{
    let x = chars.take(a);
    let y = chars.subrange(a, b);
    let z = chars.skip(b);
    assert(chars =~= x + (y + z));
    lemma_encode_concat(x, y + z);
    lemma_encode_concat(y, z);
    let i = pos + encode_utf8(x).len();
    let j = i + encode_utf8(y).len();
    let all = encode_utf8(chars);
    assert(all.subrange(i - pos, j - pos) =~= encode_utf8(y));
    assert(haystack.subrange(i, j) =~= all.subrange(i - pos, j - pos));
    vstd::utf8::encode_utf8_valid_utf8(y);
    vstd::utf8::encode_utf8_decode_utf8(y);
    (i, j)
}

} // verus!
