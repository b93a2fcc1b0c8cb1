//! Byte offsets into UTF-8 text, measured against the characters they
//! separate.

use vstd::prelude::*;
use vstd::utf8::*;

verus! {

/// The number of bytes that `chars` occupies once encoded as UTF-8.
pub open spec fn utf8_len(chars: Seq<char>) -> nat {
    encode_utf8(chars).len()
}

/// Whether the byte offset `offset` falls between two characters of `text`,
/// or at its very start or end.
pub open spec fn is_boundary(text: Seq<char>, offset: int) -> bool {
    is_char_boundary(encode_utf8(text), offset)
}

/// The characters of `text` between the byte offsets `start` and `end`.
pub open spec fn chars_between(text: Seq<char>, start: int, end: int) -> Seq<char> {
    decode_utf8(encode_utf8(text).subrange(start, end))
}

/// The characters of `text` that lie behind the byte offset `offset`.
pub open spec fn chars_from(text: Seq<char>, offset: int) -> Seq<char> {
    chars_between(text, offset, encode_utf8(text).len() as int)
}

/// The number of bytes that the character starting with `lead` occupies.
pub open spec fn width_of(lead: u8) -> int {
    if lead <= 0x7f {
        1
    } else if 0xc0 <= lead <= 0xdf {
        2
    } else if 0xe0 <= lead <= 0xef {
        3
    } else {
        4
    }
}

/// Encoding distributes over concatenation.
pub proof fn lemma_encode_concat(a: Seq<char>, b: Seq<char>)
    ensures
        encode_utf8(a + b) == encode_utf8(a) + encode_utf8(b),
    decreases a.len(),
{
    if a.len() == 0 {
        assert(a + b == b);
        assert(encode_utf8(a) + encode_utf8(b) == encode_utf8(b));
    } else {
        lemma_encode_concat(a.drop_first(), b);
        assert((a + b).drop_first() == a.drop_first() + b);
        assert(encode_utf8(a + b) == encode_scalar(a[0] as u32) + (encode_utf8(a.drop_first())
            + encode_utf8(b)));
    }
}

/// Every character occupies at least one byte.
pub proof fn lemma_len_at_least_chars(chars: Seq<char>)
    ensures
        utf8_len(chars) >= chars.len(),
    decreases chars.len(),
{
    if chars.len() > 0 {
        lemma_len_at_least_chars(chars.drop_first());
    }
}

/// Taking one more character of a text adds the bytes of that character.
pub proof fn lemma_prefix_step(chars: Seq<char>, i: int)
    requires
        0 <= i < chars.len(),
    ensures
        utf8_len(chars.take(i + 1)) == utf8_len(chars.take(i)) + encode_scalar(
            chars[i] as u32,
        ).len(),
{
    let one = seq![chars[i]];
    assert(chars.take(i + 1) == chars.take(i) + one);
    lemma_encode_concat(chars.take(i), one);
    assert(one.drop_first() == Seq::<char>::empty());
    assert(encode_utf8(one) == encode_scalar(chars[i] as u32) + encode_utf8(one.drop_first()));
}

/// Facts about the suffix of a text that starts at a character boundary: it
/// is the encoding of the characters behind the boundary, and when it is not
/// empty its first byte tells how many bytes its first character occupies.
pub proof fn lemma_suffix(text: Seq<char>, offset: int)
    requires
        is_boundary(text, offset),
    ensures
        0 <= offset <= utf8_len(text),
        encode_utf8(text).subrange(offset, utf8_len(text) as int) == encode_utf8(
            chars_from(text, offset),
        ),
        offset < utf8_len(text) ==> {
            let rest = chars_from(text, offset);
            &&& rest.len() > 0
            &&& width_of(encode_utf8(text)[offset]) == encode_scalar(rest[0] as u32).len()
            &&& offset + width_of(encode_utf8(text)[offset]) <= utf8_len(text)
            &&& is_boundary(text, offset + width_of(encode_utf8(text)[offset]))
            &&& chars_from(text, offset + width_of(encode_utf8(text)[offset])) == rest.drop_first()
        },
        offset == utf8_len(text) ==> chars_from(text, offset).len() == 0,
{
    let bytes = encode_utf8(text);
    let tail = bytes.subrange(offset, bytes.len() as int);
    encode_utf8_valid_utf8(text);
    lemma_boundary_in_range(bytes, offset);
    valid_utf8_split(bytes, offset);
    decode_utf8_encode_utf8(tail);
    if offset < bytes.len() {
        let rest = chars_from(text, offset);
        assert(tail.len() > 0);
        assert(rest.len() > 0);
        encode_utf8_first_scalar(rest);
        let w = width_of(bytes[offset]);
        assert(tail[0] == bytes[offset]);
        assert(w == length_of_first_scalar(tail));
        lemma_boundary_step(bytes, offset);
        assert(pop_first_scalar(tail) == bytes.subrange(offset + w, bytes.len() as int));
        assert(decode_utf8(tail) == seq![decode_first_scalar(tail) as char] + decode_utf8(
            pop_first_scalar(tail),
        ));
        assert(rest.drop_first() == decode_utf8(pop_first_scalar(tail)));
    } else {
        assert(tail.len() == 0);
    }
}

/// A character boundary cuts a text in two: the characters before it, which
/// occupy exactly the bytes before it, and the characters behind it.
pub proof fn lemma_boundary_splits(text: Seq<char>, offset: int)
    requires
        is_boundary(text, offset),
    ensures
        chars_between(text, 0, offset) + chars_from(text, offset) == text,
        utf8_len(chars_between(text, 0, offset)) == offset,
{
    let bytes = encode_utf8(text);
    encode_utf8_valid_utf8(text);
    lemma_boundary_in_range(bytes, offset);
    valid_utf8_split(bytes, offset);
    decode_utf8_split(bytes, offset);
    encode_utf8_decode_utf8(text);
    decode_utf8_encode_utf8(bytes.subrange(0, offset));
}

/// A character boundary lies inside the text.
proof fn lemma_boundary_in_range(bytes: Seq<u8>, index: int)
    requires
        valid_utf8(bytes),
        is_char_boundary(bytes, index),
    ensures
        0 <= index <= bytes.len(),
{
}

/// The end of the character that starts at a boundary is a boundary too.
proof fn lemma_boundary_step(bytes: Seq<u8>, index: int)
    requires
        valid_utf8(bytes),
        is_char_boundary(bytes, index),
        0 <= index < bytes.len(),
    ensures
        valid_first_scalar(bytes.subrange(index, bytes.len() as int)),
        index + length_of_first_scalar(bytes.subrange(index, bytes.len() as int)) <= bytes.len(),
        is_char_boundary(
            bytes,
            index + length_of_first_scalar(bytes.subrange(index, bytes.len() as int)),
        ),
    decreases bytes.len(),
{
    let first = length_of_first_scalar(bytes);
    if index == 0 {
        assert(bytes.subrange(0, bytes.len() as int) == bytes);
        is_char_boundary_start_end_of_seq(pop_first_scalar(bytes));
    } else {
        let popped = pop_first_scalar(bytes);
        assert(is_char_boundary(popped, index - first));
        lemma_boundary_in_range(popped, index - first);
        assert(popped.subrange(index - first, popped.len() as int) == bytes.subrange(
            index,
            bytes.len() as int,
        ));
        lemma_boundary_step(popped, index - first);
    }
}

} // verus!
