//! Bytes and characters: a file read as either has the same lines and the
//! same occurrences.

use vstd::prelude::*;
use vstd::utf8::{
    char_u32_cast, decode_first_scalar, decode_utf8, decode_utf8_split, encode_scalar, encode_utf8,
    encode_utf8_decode_utf8, encode_utf8_first_scalar, encode_utf8_valid_utf8, is_char_boundary,
    is_char_boundary_iff_not_is_continuation_byte, length_of_first_scalar, pop_first_scalar,
    valid_utf8, valid_utf8_split,
};

use crate::anchor::bears;
use crate::encoding::{
    lemma_encode_add, lemma_encode_last, lemma_encode_one, lemma_encode_scalar,
    lemma_encode_scalar_ascii, lemma_encode_without,
};
use crate::laws::files::{lemma_first_line_of, one_line};
use crate::lines::{logical, split_lines, LF};
use crate::search::{first_index, lemma_first_index, occurs, occurs_at};
use crate::suggest::holds;
use crate::text::{logical_lines, pieces, without_cr, without_crs};

verus! {

/// Bytes of valid UTF-8 that begin with an encoded text decode to characters
/// that begin with that text.
proof fn lemma_decode_prefix(bytes: Seq<u8>, text: Seq<char>)
    requires
        valid_utf8(bytes),
        encode_utf8(text).len() <= bytes.len(),
        bytes.take(encode_utf8(text).len() as int) == encode_utf8(text),
    ensures
        text.len() <= decode_utf8(bytes).len(),
        decode_utf8(bytes).take(text.len() as int) == text,
    decreases text.len(),
{
    if text.len() > 0 {
        let code = encode_utf8(text);
        let rest = text.drop_first();
        encode_utf8_first_scalar(text);
        encode_utf8_valid_utf8(text);
        lemma_encode_scalar(text[0]);
        let k = encode_scalar(text[0] as u32).len() as int;
        assert forall|i: int| 0 <= i < code.len() implies #[trigger] bytes[i] == code[i] by {
            assert(bytes[i] == bytes.take(code.len() as int)[i]);
        }
        assert(code[0] == bytes[0]);
        assert(length_of_first_scalar(bytes) == k);
        assert(decode_first_scalar(bytes) == decode_first_scalar(code));
        let tail = pop_first_scalar(bytes);
        assert(tail == bytes.skip(k));
        assert(encode_utf8(rest) == code.skip(k));
        assert(tail.take(encode_utf8(rest).len() as int) == encode_utf8(rest));
        lemma_decode_prefix(tail, rest);
        let all = decode_utf8(bytes);
        char_u32_cast(text[0], decode_first_scalar(bytes));
        assert(all == seq![text[0]] + decode_utf8(tail));
        assert(all.take(text.len() as int) == seq![text[0]] + rest);
    } else {
        assert(decode_utf8(bytes).take(0) == text);
    }
}

/// One text stands in another exactly where its bytes stand in the other's.
pub proof fn occurrences_by_byte_are_by_character(text: Seq<char>, guard: Seq<char>)
    ensures
        occurs(encode_utf8(text), encode_utf8(guard)) <==> occurs(text, guard),
{
    let bytes = encode_utf8(text);
    let code = encode_utf8(guard);
    if occurs(text, guard) {
        let at = choose|at: int| occurs_at(text, guard, at);
        let before = text.take(at);
        let after = text.skip(at + guard.len());
        assert(text == before + guard + after);
        lemma_encode_add(before + guard, after);
        lemma_encode_add(before, guard);
        let place = encode_utf8(before).len() as int;
        assert(bytes.subrange(place, place + code.len()) == code);
        assert(occurs_at(bytes, code, place));
    }
    if occurs(bytes, code) {
        if guard.len() == 0 {
            assert(text.subrange(0, 0) == guard);
            assert(occurs_at(text, guard, 0));
        } else {
            let place = choose|place: int| occurs_at(bytes, code, place);
            encode_utf8_valid_utf8(text);
            encode_utf8_valid_utf8(guard);
            encode_utf8_decode_utf8(text);
            lemma_encode_scalar(guard[0]);
            assert(code[0] == bytes.subrange(place, place + code.len())[0]);
            assert(code[0] == bytes[place]);
            assert(is_char_boundary(code, 0));
            is_char_boundary_iff_not_is_continuation_byte(code, 0);
            is_char_boundary_iff_not_is_continuation_byte(bytes, place);
            valid_utf8_split(bytes, place);
            decode_utf8_split(bytes, place);
            let low = bytes.subrange(place, bytes.len() as int);
            assert(low.take(code.len() as int) == bytes.subrange(place, place + code.len()));
            lemma_decode_prefix(low, guard);
            let before = decode_utf8(bytes.subrange(0, place));
            let at = before.len() as int;
            let all = before + decode_utf8(low);
            assert(all == text);
            assert(text.subrange(at, at + guard.len()) == decode_utf8(low).take(
                guard.len() as int,
            ));
            assert(occurs_at(text, guard, at));
        }
    }
}

/// No piece of a text holds a line feed, there is at least one, and the last
/// ends as the text does.
proof fn lemma_pieces(text: Seq<char>)
    ensures
        pieces(text).len() > 0,
        forall|i: int, j: int|
            0 <= i < pieces(text).len() && 0 <= j < pieces(text)[i].len() ==> #[trigger] pieces(
                text,
            )[i][j] != '\n',
        pieces(text).last().len() > 0 ==> text.len() > 0 && pieces(text).last().last()
            == text.last(),
    decreases text.len(),
{
    lemma_first_index(text, '\n');
    let at = first_index(text, '\n') as int;
    let all = pieces(text);
    if at < text.len() {
        let rest = text.skip(at + 1);
        lemma_pieces(rest);
        assert(all == seq![text.take(at)] + pieces(rest));
        assert forall|i: int, j: int|
            0 <= i < all.len() && 0 <= j < all[i].len() implies #[trigger] all[i][j] != '\n' by {
            if i == 0 {
                assert(all[0][j] == text[j]);
            } else {
                assert(all[i] == pieces(rest)[i - 1]);
            }
        }
        assert(all.last() == pieces(rest).last());
    } else {
        assert(all == seq![text]);
    }
}

/// The physical lines of an encoded text are its pieces, each with its line
/// feed; what follows the last line feed is a line only where it is not empty.
proof fn lemma_rows_of_text(text: Seq<char>)
    ensures
        ({
            let rows = split_lines(encode_utf8(text));
            let parts = pieces(text);
            &&& parts.len() > 0
            &&& parts.last().len() == 0 ==> rows.len() == parts.len() - 1
            &&& parts.last().len() > 0 ==> rows.len() == parts.len() && rows.last() == encode_utf8(
                parts.last(),
            )
            &&& forall|i: int|
                0 <= i < parts.len() - 1 ==> #[trigger] rows[i] == encode_utf8(parts[i]).push(LF)
        }),
    decreases text.len(),
{
    lemma_first_index(text, '\n');
    lemma_pieces(text);
    let at = first_index(text, '\n') as int;
    let parts = pieces(text);
    let bytes = encode_utf8(text);
    let rows = split_lines(bytes);
    if at < text.len() {
        let head = text.take(at);
        let rest = text.skip(at + 1);
        lemma_rows_of_text(rest);
        assert(parts == seq![head] + pieces(rest));
        assert(text == head + seq!['\n'] + rest);
        lemma_encode_add(head + seq!['\n'], rest);
        lemma_encode_add(head, seq!['\n']);
        lemma_encode_one('\n');
        lemma_encode_scalar_ascii('\n', '\n');
        lemma_encode_without(head, '\n');
        let line = encode_utf8(head).push(LF);
        assert(encode_utf8(head) + seq![LF] == line);
        assert(bytes == line + encode_utf8(rest));
        assert(one_line(line)) by {
            assert forall|i: int| 0 <= i < line.len() - 1 implies #[trigger] line[i] != LF by {
                assert(line[i] == encode_utf8(head)[i]);
            }
        }
        lemma_first_line_of(line, encode_utf8(rest));
        assert(bytes.take(line.len() as int) == line);
        assert(bytes.skip(line.len() as int) == encode_utf8(rest));
        let below = split_lines(encode_utf8(rest));
        assert(rows == seq![line] + below);
        assert(parts.last() == pieces(rest).last());
        assert forall|i: int| 0 <= i < parts.len() - 1 implies #[trigger] rows[i] == encode_utf8(
            parts[i],
        ).push(LF) by {
            if i > 0 {
                assert(rows[i] == below[i - 1]);
                assert(parts[i] == pieces(rest)[i - 1]);
            }
        }
    } else {
        assert(parts == seq![text]);
        if text.len() > 0 {
            assert forall|i: int| 0 <= i < text.len() implies #[trigger] text[i] != '\n' by {}
            lemma_encode_without(text, '\n');
            lemma_encode_last(text, '\n');
            assert(one_line(bytes));
            assert(bytes + Seq::<u8>::empty() == bytes);
            lemma_first_line_of(bytes, Seq::<u8>::empty());
            assert(bytes.take(bytes.len() as int) == bytes);
            assert(bytes.skip(bytes.len() as int) == Seq::<u8>::empty());
            assert(split_lines(Seq::<u8>::empty()) == Seq::<Seq<u8>>::empty());
            assert(rows == seq![bytes]);
        }
    }
}

/// The content of an encoded line is its text without a carriage return at
/// the end.
proof fn lemma_content_of_line(line: Seq<char>)
    requires
        forall|i: int| 0 <= i < line.len() ==> #[trigger] line[i] != '\n',
    ensures
        logical(encode_utf8(line).push(LF)) == encode_utf8(without_cr(line)),
        logical(encode_utf8(line)) == encode_utf8(line),
{
    let bytes = encode_utf8(line);
    lemma_encode_without(line, '\n');
    if line.len() > 0 {
        lemma_encode_last(line, '\r');
        lemma_encode_last(line, '\n');
        if line.last() == '\r' {
            assert(logical(bytes.push(LF)) == bytes.drop_last());
        } else {
            assert(logical(bytes.push(LF)) == bytes);
        }
    } else {
        assert(logical(bytes.push(LF)) == bytes);
    }
    assert(logical(bytes) == bytes);
}

/// A text that does not end with a carriage return has the same lines whether
/// it is cut as bytes or as characters.
pub proof fn lines_by_byte_are_by_character(text: Seq<char>)
    requires
        text.len() == 0 || text.last() != '\r',
    ensures
        ({
            let rows = split_lines(encode_utf8(text));
            let lines = logical_lines(text);
            &&& rows.len() == lines.len()
            &&& forall|i: int|
                0 <= i < lines.len() ==> logical(#[trigger] rows[i]) == encode_utf8(lines[i])
        }),
{
    let rows = split_lines(encode_utf8(text));
    let lines = logical_lines(text);
    let parts = pieces(text);
    lemma_pieces(text);
    lemma_rows_of_text(text);
    let last = parts.len() - 1;
    assert(without_crs(parts).last() == without_cr(parts.last()));
    assert forall|i: int| 0 <= i < lines.len() implies logical(#[trigger] rows[i]) == encode_utf8(
        lines[i],
    ) by {
        assert(lines[i] == without_cr(parts[i]));
        lemma_content_of_line(parts[i]);
        if i == last {
            assert(parts[i] == parts.last());
        }
    }
}

/// A guard is borne by a line of the file exactly where the hook sees it in
/// that line. A guard that ends with a carriage return is left out where the
/// text does.
pub proof fn guards_by_byte_are_by_character(text: Seq<char>, num: int, guard: Seq<char>)
    requires
        guard.len() > 0,
        text.len() > 0 && text.last() == '\r' ==> guard.last() != '\r',
    ensures
        bears(split_lines(encode_utf8(text)), num, guard) <==> 1 <= num
            <= logical_lines(text).len() && holds(logical_lines(text)[num - 1], guard),
{
    let rows = split_lines(encode_utf8(text));
    let lines = logical_lines(text);
    if text.len() == 0 || text.last() != '\r' {
        lines_by_byte_are_by_character(text);
        if 1 <= num <= lines.len() {
            assert(logical(rows[num - 1]) == encode_utf8(lines[num - 1]));
        }
    } else {
        let parts = pieces(text);
        let i = num - 1;
        lemma_pieces(text);
        lemma_rows_of_text(text);
        assert(without_crs(parts).last() == without_cr(parts.last()));
        if 0 <= i < parts.len() {
            lemma_content_of_line(parts[i]);
            if i < lines.len() {
                assert(lines[i] == without_cr(parts[i]));
            }
            if i == parts.len() - 1 && parts.last().len() > 0 {
                let whole = encode_utf8(parts.last());
                let short = encode_utf8(without_cr(parts.last()));
                let code = encode_utf8(guard);
                lemma_encode_last(parts.last(), '\r');
                lemma_encode_last(guard, '\r');
                assert(parts.last().last() == '\r');
                assert(short == whole.drop_last());
                assert(logical(rows[i]) == whole);
                lemma_occurs_short(whole, code);
                if without_cr(parts.last()).len() == 0 {
                    assert(short.len() == 0);
                    assert(!occurs(short, code));
                } else {
                    assert(lines[i] == without_cr(parts.last()));
                }
            }
        }
    }
}

/// A sequence stands in another without its last item too, unless it ends with
/// that item.
proof fn lemma_occurs_short(hay: Seq<u8>, needle: Seq<u8>)
    requires
        hay.len() > 0,
        needle.len() > 0,
        needle.last() != hay.last(),
    ensures
        occurs(hay, needle) <==> occurs(hay.drop_last(), needle),
{
    let short = hay.drop_last();
    if occurs(hay, needle) {
        let at = choose|at: int| occurs_at(hay, needle, at);
        if at + needle.len() == hay.len() {
            assert(hay.subrange(at, at + needle.len()).last() == hay.last());
        }
        assert(short.subrange(at, at + needle.len()) == hay.subrange(at, at + needle.len()));
        assert(occurs_at(short, needle, at));
    }
    if occurs(short, needle) {
        let at = choose|at: int| occurs_at(short, needle, at);
        assert(short.subrange(at, at + needle.len()) == hay.subrange(at, at + needle.len()));
        assert(occurs_at(hay, needle, at));
    }
}

} // verus!
