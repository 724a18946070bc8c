//! Files as lines: reading and writing lose nothing and join nothing.

use vstd::prelude::*;
use vstd::utf8::{
    is_char_boundary, length_of_first_scalar, pop_first_scalar, valid_utf8, valid_utf8_concat,
    valid_utf8_split,
};

use crate::lines::{first_line_len, flatten, lemma_first_line_len, split_lines, terminated, LF};

verus! {

/// A line holds no line feed but the one that ends it.
pub open spec fn one_line(line: Seq<u8>) -> bool {
    forall|i: int| 0 <= i < line.len() - 1 ==> #[trigger] line[i] != LF
}

/// No two lines run together: each holds at most one line feed, at its end,
/// and each but the last has it.
pub open spec fn unjoined(lines: Seq<Seq<u8>>) -> bool {
    &&& forall|i: int| 0 <= i < lines.len() ==> one_line(#[trigger] lines[i])
    &&& forall|i: int| 0 <= i < lines.len() - 1 ==> terminated(#[trigger] lines[i])
}

/// No line is without bytes.
pub open spec fn filled(lines: Seq<Seq<u8>>) -> bool {
    forall|i: int| 0 <= i < lines.len() ==> (#[trigger] lines[i]).len() > 0
}

/// The lines can be those of a file: not joined, and none without bytes.
pub open spec fn file_lines(lines: Seq<Seq<u8>>) -> bool {
    unjoined(lines) && filled(lines)
}

/// Cutting bytes into lines and laying the lines out again gives the bytes
/// back.
pub proof fn reading_loses_nothing(bytes: Seq<u8>)
    ensures
        flatten(split_lines(bytes)) == bytes,
    decreases bytes.len(),
{
    if bytes.len() > 0 {
        lemma_first_line_len(bytes);
        let n = first_line_len(bytes) as int;
        reading_loses_nothing(bytes.skip(n));
        let lines = split_lines(bytes);
        assert(lines.skip(1) == split_lines(bytes.skip(n)));
        assert(bytes == bytes.take(n) + bytes.skip(n));
    }
}

/// The first line of some bytes is one line, with its line feed unless it is
/// all there is.
proof fn lemma_first_line(bytes: Seq<u8>)
    requires
        bytes.len() > 0,
    ensures
        one_line(bytes.take(first_line_len(bytes) as int)),
        first_line_len(bytes) < bytes.len() ==> terminated(
            bytes.take(first_line_len(bytes) as int),
        ),
    decreases bytes.len(),
{
    lemma_first_line_len(bytes);
    let line = bytes.take(first_line_len(bytes) as int);
    if bytes[0] != LF && bytes.len() > 1 {
        let rest = bytes.skip(1);
        lemma_first_line_len(rest);
        lemma_first_line(rest);
        let tail = rest.take(first_line_len(rest) as int);
        assert(line.skip(1) == tail);
        assert forall|i: int| 0 <= i < line.len() - 1 implies #[trigger] line[i] != LF by {
            if i > 0 {
                assert(line[i] == tail[i - 1]);
            }
        }
        if first_line_len(bytes) < bytes.len() {
            assert(line.last() == tail.last());
        }
    } else if bytes.len() == 1 {
        assert(first_line_len(bytes.skip(1)) == 0);
    }
}

/// The lines that bytes are cut into are not joined, and none is empty.
pub proof fn lines_read_are_lines(bytes: Seq<u8>)
    ensures
        file_lines(split_lines(bytes)),
    decreases bytes.len(),
{
    if bytes.len() > 0 {
        lemma_first_line_len(bytes);
        lemma_first_line(bytes);
        let n = first_line_len(bytes) as int;
        let rest = split_lines(bytes.skip(n));
        lines_read_are_lines(bytes.skip(n));
        let lines = split_lines(bytes);
        assert forall|i: int| 0 <= i < lines.len() implies one_line(#[trigger] lines[i])
            && lines[i].len() > 0 by {
            if i > 0 {
                assert(lines[i] == rest[i - 1]);
            }
        }
        assert forall|i: int| 0 <= i < lines.len() - 1 implies terminated(#[trigger] lines[i]) by {
            if i > 0 {
                assert(lines[i] == rest[i - 1]);
            } else {
                assert(rest.len() > 0);
            }
        }
    }
}

/// The first line of bytes that start with a terminated line is that line.
pub proof fn lemma_first_line_of(line: Seq<u8>, rest: Seq<u8>)
    requires
        line.len() > 0,
        one_line(line),
        terminated(line) || rest.len() == 0,
    ensures
        first_line_len(line + rest) == line.len(),
    decreases line.len(),
{
    let bytes = line + rest;
    if bytes[0] == LF {
        assert(line.len() == 1);
    } else if line.len() > 1 {
        assert(bytes.skip(1) == line.skip(1) + rest);
        assert(one_line(line.skip(1))) by {
            assert forall|i: int| 0 <= i < line.skip(1).len() - 1 implies #[trigger] line.skip(
                1,
            )[i] != LF by {
                assert(line.skip(1)[i] == line[i + 1]);
            }
        }
        lemma_first_line_of(line.skip(1), rest);
    } else {
        assert(rest.len() == 0);
        assert(first_line_len(bytes.skip(1)) == 0);
    }
}

/// Laying out the lines of a file and reading them again gives the same lines
/// back.
pub proof fn lines_are_read_back(lines: Seq<Seq<u8>>)
    requires
        file_lines(lines),
    ensures
        split_lines(flatten(lines)) == lines,
{
    writing_joins_nothing(lines);
}

/// Laying out lines that are not joined and reading them again gives the same
/// lines back. An empty line at the end leaves no trace.
pub proof fn writing_joins_nothing(lines: Seq<Seq<u8>>)
    requires
        unjoined(lines),
    ensures
        lines.len() > 0 && lines.last().len() == 0 ==> split_lines(flatten(lines))
            == lines.drop_last(),
        lines.len() == 0 || lines.last().len() > 0 ==> split_lines(flatten(lines)) == lines,
    decreases lines.len(),
{
    if lines.len() > 0 {
        let line = lines[0];
        let rest = lines.skip(1);
        let bytes = flatten(lines);
        assert(unjoined(rest)) by {
            assert forall|i: int| 0 <= i < rest.len() implies one_line(#[trigger] rest[i]) by {
                assert(rest[i] == lines[i + 1]);
            }
            assert forall|i: int| 0 <= i < rest.len() - 1 implies terminated(
                #[trigger] rest[i],
            ) by {
                assert(rest[i] == lines[i + 1]);
            }
        }
        writing_joins_nothing(rest);
        if rest.len() == 0 {
            assert(flatten(rest) == Seq::<u8>::empty());
            assert(bytes == line);
            if line.len() > 0 {
                assert(line + Seq::<u8>::empty() == line);
                lemma_first_line_of(line, Seq::<u8>::empty());
                assert(bytes.take(line.len() as int) == line);
                assert(bytes.skip(line.len() as int) == Seq::<u8>::empty());
                assert(split_lines(bytes) == seq![line]);
            }
        } else {
            assert(terminated(lines[0]));
            lemma_first_line_of(line, flatten(rest));
            assert(bytes.take(line.len() as int) == line);
            assert(bytes.skip(line.len() as int) == flatten(rest));
            assert(split_lines(bytes) == seq![line] + split_lines(flatten(rest)));
            assert(lines.last() == rest.last());
            assert(lines.drop_last() == seq![line] + rest.drop_last());
            assert(lines == seq![line] + rest);
        }
    }
}

/// Bytes without a line feed at the front only put off the end of the line.
proof fn lemma_first_line_skip(bytes: Seq<u8>, k: int)
    requires
        0 <= k <= bytes.len(),
        forall|j: int| 0 <= j < k ==> #[trigger] bytes[j] != LF,
    ensures
        first_line_len(bytes) == k + first_line_len(bytes.skip(k)),
    decreases k,
{
    if k > 0 {
        let rest = bytes.skip(1);
        assert forall|j: int| 0 <= j < k - 1 implies #[trigger] rest[j] != LF by {
            assert(rest[j] == bytes[j + 1]);
        }
        lemma_first_line_skip(rest, k - 1);
        assert(rest.skip(k - 1) == bytes.skip(k));
    } else {
        assert(bytes.skip(0) == bytes);
    }
}

/// A line of valid UTF-8 ends between characters.
proof fn lemma_line_boundary(bytes: Seq<u8>)
    requires
        valid_utf8(bytes),
    ensures
        is_char_boundary(bytes, first_line_len(bytes) as int),
    decreases bytes.len(),
{
    lemma_first_line_len(bytes);
    if bytes.len() > 0 {
        let k = length_of_first_scalar(bytes);
        let rest = pop_first_scalar(bytes);
        if bytes[0] == LF {
            assert(k == 1);
            assert(is_char_boundary(rest, 0));
        } else {
            lemma_first_line_skip(bytes, k);
            assert(rest == bytes.skip(k));
            lemma_line_boundary(rest);
        }
    }
}

/// Every line is valid UTF-8.
pub open spec fn valid_lines(lines: Seq<Seq<u8>>) -> bool {
    forall|i: int| 0 <= i < lines.len() ==> valid_utf8(#[trigger] lines[i])
}

/// The lines of valid UTF-8 are valid UTF-8, each by itself.
pub proof fn lines_of_text_are_text(bytes: Seq<u8>)
    requires
        valid_utf8(bytes),
    ensures
        valid_lines(split_lines(bytes)),
    decreases bytes.len(),
{
    if bytes.len() > 0 {
        lemma_first_line_len(bytes);
        lemma_line_boundary(bytes);
        let n = first_line_len(bytes) as int;
        valid_utf8_split(bytes, n);
        assert(bytes.subrange(0, n) == bytes.take(n));
        assert(bytes.subrange(n, bytes.len() as int) == bytes.skip(n));
        lines_of_text_are_text(bytes.skip(n));
        let rest = split_lines(bytes.skip(n));
        let lines = split_lines(bytes);
        assert forall|i: int| 0 <= i < lines.len() implies valid_utf8(#[trigger] lines[i]) by {
            if i > 0 {
                assert(lines[i] == rest[i - 1]);
            }
        }
    }
}

/// Lines of valid UTF-8 lay out to valid UTF-8.
pub proof fn text_lines_make_text(lines: Seq<Seq<u8>>)
    requires
        valid_lines(lines),
    ensures
        valid_utf8(flatten(lines)),
    decreases lines.len(),
{
    if lines.len() > 0 {
        let rest = lines.skip(1);
        assert forall|i: int| 0 <= i < rest.len() implies valid_utf8(#[trigger] rest[i]) by {
            assert(rest[i] == lines[i + 1]);
        }
        text_lines_make_text(rest);
        valid_utf8_concat(lines[0], flatten(rest));
    }
}

} // verus!
