//! How texts are encoded: each character by itself, and ASCII characters as
//! bytes that occur in no other.

use vstd::prelude::*;
use vstd::utf8::{char_is_scalar, encode_scalar, encode_utf8};

use crate::search::{first_index, lemma_first_index};

verus! {

/// Texts one after the other are encoded one after the other.
pub proof fn lemma_encode_add(a: Seq<char>, b: Seq<char>)
    ensures
        encode_utf8(a + b) == encode_utf8(a) + encode_utf8(b),
    decreases a.len(),
{
    if a.len() == 0 {
        assert(a + b == b);
    } else {
        assert((a + b).drop_first() == a.drop_first() + b);
        lemma_encode_add(a.drop_first(), b);
    }
}

/// A text of one character is that character's encoding.
pub proof fn lemma_encode_one(c: char)
    ensures
        encode_utf8(seq![c]) == encode_scalar(c as u32),
{
    reveal_with_fuel(encode_utf8, 2);
    assert(seq![c].drop_first() == Seq::<char>::empty());
}

/// A character below U+0080 is one byte of the same value; any other is bytes
/// of at least 0x80.
pub proof fn lemma_encode_scalar(c: char)
    ensures
        c as u32 <= 0x7f ==> encode_scalar(c as u32) == seq![c as u8],
        c as u32 > 0x7f ==> forall|i: int|
            0 <= i < encode_scalar(c as u32).len() ==> #[trigger] encode_scalar(c as u32)[i]
                >= 0x80,
        encode_scalar(c as u32).len() > 0,
{
    char_is_scalar(c);
    let s = c as u32;
    assert(s <= 0x7f ==> (s & 0x7F) as u8 == s as u8) by (bit_vector);
    assert(0xC0u8 | ((s >> 6) & 0x1F) as u8 >= 0x80) by (bit_vector);
    assert(0xE0u8 | ((s >> 12) & 0x0F) as u8 >= 0x80) by (bit_vector);
    assert(0xF0u8 | ((s >> 18) & 0x7) as u8 >= 0x80) by (bit_vector);
    assert(0x80u8 | (s & 0x3F) as u8 >= 0x80) by (bit_vector);
    assert(0x80u8 | ((s >> 6) & 0x3F) as u8 >= 0x80) by (bit_vector);
    assert(0x80u8 | ((s >> 12) & 0x3F) as u8 >= 0x80) by (bit_vector);
}

/// An ASCII byte in a character's encoding is that character.
pub proof fn lemma_encode_scalar_ascii(x: char, c: char)
    requires
        c as u32 <= 0x7f,
    ensures
        x == c ==> encode_scalar(x as u32) == seq![c as u8],
        x != c ==> forall|i: int|
            0 <= i < encode_scalar(x as u32).len() ==> #[trigger] encode_scalar(x as u32)[i]
                != c as u8,
        encode_scalar(x as u32).len() > 0,
{
    lemma_encode_scalar(x);
    let a = x as u32;
    let b = c as u32;
    assert(a <= 0x7f && b <= 0x7f && a != b ==> a as u8 != b as u8) by (bit_vector);
    assert(b <= 0x7f ==> b as u8 <= 0x7f) by (bit_vector);
}

/// A text without a certain ASCII character has none of its bytes.
pub proof fn lemma_encode_without(text: Seq<char>, c: char)
    requires
        c as u32 <= 0x7f,
        forall|i: int| 0 <= i < text.len() ==> #[trigger] text[i] != c,
    ensures
        forall|i: int|
            0 <= i < encode_utf8(text).len() ==> #[trigger] encode_utf8(text)[i] != c as u8,
    decreases text.len(),
{
    if text.len() > 0 {
        let rest = text.drop_first();
        assert forall|i: int| 0 <= i < rest.len() implies #[trigger] rest[i] != c by {
            assert(rest[i] == text[i + 1]);
        }
        lemma_encode_without(rest, c);
        lemma_encode_scalar_ascii(text[0], c);
        let first = encode_scalar(text[0] as u32);
        let all = encode_utf8(text);
        assert(text[0] != c);
        assert forall|i: int| 0 <= i < all.len() implies #[trigger] all[i] != c as u8 by {
            if i < first.len() {
                assert(all[i] == first[i]);
            } else {
                assert(all[i] == encode_utf8(rest)[i - first.len()]);
            }
        }
    }
}

/// The last byte of a text is an ASCII byte exactly where its last character
/// is that character.
pub proof fn lemma_encode_last(text: Seq<char>, c: char)
    requires
        text.len() > 0,
        c as u32 <= 0x7f,
    ensures
        encode_utf8(text).len() > 0,
        encode_utf8(text).last() == c as u8 <==> text.last() == c,
        text.last() == c ==> encode_utf8(text).drop_last() == encode_utf8(text.drop_last()),
{
    let head = text.drop_last();
    let last = seq![text.last()];
    assert(text == head + last);
    lemma_encode_add(head, last);
    lemma_encode_one(text.last());
    lemma_encode_scalar_ascii(text.last(), c);
    let tail = encode_scalar(text.last() as u32);
    assert(encode_utf8(text).last() == tail.last());
    assert(tail.last() == tail[tail.len() - 1]);
    if text.last() == c {
        assert(encode_utf8(text).drop_last() == encode_utf8(head));
    }
}

/// The bytes of a text fall in two at the first of a certain ASCII character,
/// as the text does; where it has none, there is no such byte.
pub proof fn lemma_encode_first(text: Seq<char>, c: char)
    requires
        c as u32 <= 0x7f,
    ensures
        ({
            let at = first_index(text, c) as int;
            let head = encode_utf8(text.take(at));
            &&& 0 <= at <= text.len()
            &&& forall|i: int| 0 <= i < head.len() ==> #[trigger] head[i] != c as u8
            &&& at == text.len() ==> head == encode_utf8(text)
            &&& at < text.len() ==> encode_utf8(text) == head + seq![c as u8] + encode_utf8(
                text.skip(at + 1),
            )
        }),
{
    let at = first_index(text, c) as int;
    let head = text.take(at);
    lemma_first_index(text, c);
    lemma_encode_without(head, c);
    if at == text.len() {
        assert(head == text);
    } else {
        let mark = seq![c];
        let tail = text.skip(at + 1);
        assert(text == head + mark + tail);
        lemma_encode_add(head + mark, tail);
        lemma_encode_add(head, mark);
        lemma_encode_one(c);
        lemma_encode_scalar_ascii(c, c);
    }
}

} // verus!
