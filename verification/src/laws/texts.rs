//! Texts as lines: how a text is divided, and what it is put together from.

use vstd::prelude::*;

use crate::search::{first_index, lemma_first_index};
use crate::text::{logical_lines, pieces, without_cr, without_crs};

verus! {

/// The text holds no `c`.
pub open spec fn lacks(text: Seq<char>, c: char) -> bool {
    forall|i: int| 0 <= i < text.len() ==> #[trigger] text[i] != c
}

/// The text with a carriage return in front of every line feed.
pub open spec fn with_crlf(text: Seq<char>) -> Seq<char>
    decreases text.len(),
{
    if text.len() == 0 {
        seq![]
    } else if text.last() == '\n' {
        with_crlf(text.drop_last()) + seq!['\r', '\n']
    } else {
        with_crlf(text.drop_last()).push(text.last())
    }
}

/// The lines, with a line feed between two of them.
pub open spec fn joined(lines: Seq<Seq<char>>) -> Seq<char>
    decreases lines.len(),
{
    if lines.len() == 0 {
        seq![]
    } else if lines.len() == 1 {
        lines[0]
    } else {
        joined(lines.drop_last()).push('\n') + lines.last()
    }
}

/// The text without a line feed at its end.
pub open spec fn without_final_newline(text: Seq<char>) -> Seq<char> {
    if text.len() > 0 && text.last() == '\n' {
        text.drop_last()
    } else {
        text
    }
}

/// A line feed with none before it is the first.
proof fn lemma_first_newline(text: Seq<char>, at: int)
    requires
        0 <= at < text.len(),
        text[at] == '\n',
        lacks(text.take(at), '\n'),
    ensures
        first_index(text, '\n') == at,
{
    lemma_first_index(text, '\n');
    let k = first_index(text, '\n') as int;
    if k < at {
        assert(text.take(at)[k] == text[k]);
    }
}

/// A text without a line feed is one piece.
proof fn lemma_one_piece(text: Seq<char>)
    requires
        lacks(text, '\n'),
    ensures
        pieces(text) == seq![text],
{
    lemma_first_index(text, '\n');
}

/// A line feed at the end of a text starts another piece, an empty one.
proof fn lemma_pieces_newline(text: Seq<char>)
    ensures
        pieces(text.push('\n')) == pieces(text).push(seq![]),
    decreases text.len(),
{
    let longer = text.push('\n');
    let at = first_index(text, '\n') as int;
    lemma_first_index(text, '\n');
    assert(longer.take(at) == text.take(at));
    lemma_first_newline(longer, at);
    if at == text.len() {
        assert(text.take(at) == text);
        assert(longer.skip(at + 1) == Seq::<char>::empty());
        lemma_one_piece(Seq::<char>::empty());
        assert(seq![text] + seq![Seq::<char>::empty()] == seq![text].push(seq![]));
    } else {
        let rest = text.skip(at + 1);
        assert(longer.skip(at + 1) == rest.push('\n'));
        lemma_pieces_newline(rest);
        assert(seq![text.take(at)] + pieces(rest).push(seq![]) == (seq![text.take(at)] + pieces(
            rest,
        )).push(seq![]));
    }
}

/// Any other character at the end of a text goes into its last piece.
proof fn lemma_pieces_char(text: Seq<char>, c: char)
    requires
        c != '\n',
    ensures
        pieces(text).len() > 0,
        pieces(text.push(c)) == pieces(text).drop_last().push(pieces(text).last().push(c)),
    decreases text.len(),
{
    let longer = text.push(c);
    let at = first_index(text, '\n') as int;
    lemma_first_index(text, '\n');
    if at == text.len() {
        lemma_one_piece(longer);
        assert(seq![text].drop_last() == Seq::<Seq<char>>::empty());
    } else {
        let rest = text.skip(at + 1);
        assert(longer.take(at) == text.take(at));
        lemma_first_newline(longer, at);
        assert(longer.skip(at + 1) == rest.push(c));
        lemma_pieces_char(rest, c);
        let first = seq![text.take(at)];
        assert((first + pieces(rest)).drop_last() == first + pieces(rest).drop_last());
        assert((first + pieces(rest)).last() == pieces(rest).last());
    }
}

/// The pieces of a text hold no line feed, and no character that it lacks.
/// Joined, they are the text, and the last is empty just where the text is
/// empty or ends with a line feed.
pub proof fn lemma_pieces(text: Seq<char>, c: char)
    ensures
        pieces(text).len() > 0,
        forall|i: int| 0 <= i < pieces(text).len() ==> lacks(#[trigger] pieces(text)[i], '\n'),
        lacks(text, c) ==> forall|i: int|
            0 <= i < pieces(text).len() ==> lacks(#[trigger] pieces(text)[i], c),
        joined(pieces(text)) == text,
        pieces(text).last().len() == 0 <==> text.len() == 0 || text.last() == '\n',
        text.len() > 0 && text.last() != '\n' ==> pieces(text).last().last() == text.last(),
    decreases text.len(),
{
    if text.len() == 0 {
        lemma_one_piece(text);
    } else {
        let shorter = text.drop_last();
        let end = text.last();
        let before = pieces(shorter);
        let now = pieces(text);
        lemma_pieces(shorter, c);
        assert(text == shorter.push(end));
        if lacks(text, c) {
            assert(lacks(shorter, c)) by {
                assert forall|i: int| 0 <= i < shorter.len() implies #[trigger] shorter[i] != c by {
                    assert(shorter[i] == text[i]);
                }
            }
            assert(text[text.len() - 1] != c);
        }
        if end == '\n' {
            lemma_pieces_newline(shorter);
            assert(now.drop_last() == before);
            assert(shorter.push('\n') + Seq::<char>::empty() == text);
        } else {
            lemma_pieces_char(shorter, end);
            assert(now.drop_last() == before.drop_last());
            assert(now.last() == before.last().push(end));
            if now.len() > 1 {
                let head = joined(before.drop_last()).push('\n');
                assert(head + before.last().push(end) == (head + before.last()).push(end));
            }
            assert forall|i: int| 0 <= i < now.len() implies lacks(#[trigger] now[i], '\n') && (
            lacks(text, c) ==> lacks(now[i], c)) by {
                if i < now.len() - 1 {
                    assert(now[i] == before[i]);
                } else {
                    assert(lacks(before[i], '\n'));
                }
            }
        }
    }
}

/// Lines without carriage returns have none to lose.
proof fn lemma_no_crs(lines: Seq<Seq<char>>)
    requires
        forall|i: int| 0 <= i < lines.len() ==> lacks(#[trigger] lines[i], '\r'),
    ensures
        without_crs(lines) == lines,
{
    assert forall|i: int| 0 <= i < lines.len() implies without_cr(#[trigger] lines[i])
        == lines[i] by {
        assert(lacks(lines[i], '\r'));
    }
    assert(without_crs(lines) == lines);
}

/// No line holds a line feed.
pub proof fn lines_hold_no_newline(text: Seq<char>, i: int)
    requires
        0 <= i < logical_lines(text).len(),
    ensures
        lacks(logical_lines(text)[i], '\n'),
{
    lemma_pieces(text, '\n');
    let piece = pieces(text)[i];
    let line = logical_lines(text)[i];
    assert(lacks(piece, '\n'));
    assert(line == without_cr(piece));
    assert forall|k: int| 0 <= k < line.len() implies #[trigger] line[k] != '\n' by {
        assert(line[k] == piece[k]);
    }
}

/// The lines of a text without carriage returns, with line feeds between them,
/// are the text without its final line feed.
pub proof fn lines_make_up_the_text(text: Seq<char>)
    requires
        lacks(text, '\r'),
    ensures
        joined(logical_lines(text)) == without_final_newline(text),
{
    let all = pieces(text);
    lemma_pieces(text, '\r');
    lemma_no_crs(all);
    if all.last().len() == 0 && all.len() > 1 {
        assert(joined(all) == joined(all.drop_last()).push('\n') + all.last());
        assert(text == joined(all.drop_last()).push('\n'));
        assert(text.drop_last() == joined(all.drop_last()));
    } else if all.last().len() == 0 {
        assert(all.drop_last() == Seq::<Seq<char>>::empty());
    }
}

/// A final line feed makes no difference to the lines of a text. A text that is
/// empty, or ends with a line feed or a carriage return, is left out.
pub proof fn final_newline_makes_no_line(text: Seq<char>)
    requires
        text.len() > 0,
        text.last() != '\n',
        text.last() != '\r',
    ensures
        logical_lines(text.push('\n')) == logical_lines(text),
{
    let all = pieces(text);
    lemma_pieces(text, '\n');
    lemma_pieces_newline(text);
    assert(without_cr(all.last()) == all.last());
    assert(without_crs(all).last() == all.last());
    assert(without_crs(all.push(seq![])) == without_crs(all).push(seq![]));
    assert(without_crs(all).push(seq![]).drop_last() == without_crs(all));
}

/// An empty text has no lines.
pub proof fn empty_text_has_no_lines(text: Seq<char>)
    requires
        text.len() == 0,
    ensures
        logical_lines(text) == Seq::<Seq<char>>::empty(),
{
    lemma_one_piece(text);
    assert(without_crs(seq![text]) == seq![text]);
}

/// Without their carriage returns, the pieces of a text that has them in front
/// of its line feeds are those of the text without them. The last piece has
/// none.
proof fn lemma_pieces_crlf(text: Seq<char>)
    requires
        lacks(text, '\r'),
    ensures
        without_crs(pieces(with_crlf(text))) == pieces(text),
        pieces(with_crlf(text)).last() == pieces(text).last(),
        pieces(with_crlf(text)).len() > 0,
    decreases text.len(),
{
    if text.len() == 0 {
        lemma_one_piece(text);
        assert(with_crlf(text) == text);
        assert(without_crs(seq![text]) == seq![text]);
    } else {
        let shorter = text.drop_last();
        let end = text.last();
        let wide = with_crlf(shorter);
        let before = pieces(shorter);
        let there = pieces(wide);
        assert(text == shorter.push(end));
        assert(text[text.len() - 1] != '\r');
        assert(lacks(shorter, '\r')) by {
            assert forall|i: int| 0 <= i < shorter.len() implies #[trigger] shorter[i] != '\r' by {
                assert(shorter[i] == text[i]);
            }
        }
        lemma_pieces_crlf(shorter);
        lemma_pieces(shorter, '\r');
        let open = without_crs(there.drop_last());
        assert(open == before.drop_last()) by {
            assert(open == without_crs(there).drop_last());
        }
        if end == '\n' {
            lemma_pieces_char(wide, '\r');
            lemma_pieces_newline(wide.push('\r'));
            lemma_pieces_newline(shorter);
            assert(with_crlf(text) == wide.push('\r').push('\n'));
            let closed = there.last().push('\r');
            let now = there.drop_last().push(closed).push(seq![]);
            assert(pieces(with_crlf(text)) == now);
            assert(without_cr(closed) == before.last());
            assert(without_crs(now) == open.push(without_cr(closed)).push(seq![]));
            assert(before == before.drop_last().push(before.last()));
        } else {
            lemma_pieces_char(wide, end);
            lemma_pieces_char(shorter, end);
            let closed = there.last().push(end);
            let now = there.drop_last().push(closed);
            assert(with_crlf(text) == wide.push(end));
            assert(closed.last() == end);
            assert(without_cr(closed) == closed);
            assert(without_crs(now) == open.push(without_cr(closed)));
            assert(pieces(text) == before.drop_last().push(before.last().push(end)));
        }
    }
}

/// Carriage returns in front of the line feeds make no difference to the lines
/// of a text.
pub proof fn crlf_makes_no_difference(text: Seq<char>)
    requires
        lacks(text, '\r'),
    ensures
        logical_lines(with_crlf(text)) == logical_lines(text),
{
    lemma_pieces_crlf(text);
    lemma_pieces(text, '\r');
    lemma_no_crs(pieces(text));
}

} // verus!
