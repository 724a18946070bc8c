//! The numbered view that a call prints, row by row.

use vstd::prelude::*;
use vstd::utf8::{decode_utf8, decode_utf8_encode_utf8, encode_utf8, valid_utf8};

use crate::laws::calls::lemma_valid_logical;
use crate::laws::files::valid_lines;
use crate::lines::logical;
use crate::numeral::decimal_text;
use crate::render::{lines_word, shown_text, with_affected, with_row, with_rows, with_seam};

verus! {

/// The row of line `num`, counted from one: a mark and a space, the number, a
/// tab, and what the line says.
pub open spec fn row(lines: Seq<Seq<u8>>, num: int, mark: char) -> Seq<char> {
    seq![mark, ' '] + decimal_text(num as nat) + seq!['\t'] + decode_utf8(logical(lines[num - 1]))
        + seq!['\n']
}

/// The rows of the lines `from` to `to`, one after the other.
pub open spec fn list(lines: Seq<Seq<u8>>, from: int, to: int, mark: char) -> Seq<char>
    decreases to - from + 1,
{
    if to < from {
        seq![]
    } else {
        row(lines, from, mark) + list(lines, from + 1, to, mark)
    }
}

/// The larger of two numbers.
pub open spec fn larger(a: int, b: int) -> int {
    if a < b {
        b
    } else {
        a
    }
}

/// The smaller of two numbers.
pub open spec fn smaller(a: int, b: int) -> int {
    if a < b {
        a
    } else {
        b
    }
}

/// The lines `from` to `to`, marked, with up to three lines above and below
/// them. Of more than six, the first three and the last three are shown.
pub open spec fn window(lines: Seq<Seq<u8>>, from: int, to: int) -> Seq<char> {
    list(lines, larger(1, from - 3), from - 1, ' ') + (if to - from + 1 <= 6 {
        list(lines, from, to, '>')
    } else {
        list(lines, from, from + 2, '>') + "  …\n"@ + list(lines, to - 2, to, '>')
    }) + list(lines, to + 1, smaller(to + 3, lines.len() as int), ' ')
}

/// The lines around the place where line `from` was: up to three above it, and
/// three from there on; at the end of the file the last three.
pub open spec fn seam_window(lines: Seq<Seq<u8>>, from: int) -> Seq<char> {
    let at = smaller(from, lines.len() as int + 1);
    list(lines, larger(1, at - 3), smaller(at + 2, lines.len() as int), ' ')
}

proof fn lemma_row(out: Seq<char>, lines: Seq<Seq<u8>>, num: int, affected: bool)
    requires
        valid_lines(lines),
        1 <= num <= lines.len(),
    ensures
        with_row(out, lines, num, affected) == out + row(
            lines,
            num,
            if affected {
                '>'
            } else {
                ' '
            },
        ),
{
    reveal_strlit(">");
    reveal_strlit(" ");
    reveal_strlit("\t");
    reveal_strlit("\n");
    lemma_valid_logical(lines[num - 1]);
    assert(">"@ == seq!['>'] && " "@ == seq![' '] && "\t"@ == seq!['\t'] && "\n"@ == seq!['\n']);
    let mark = if affected {
        '>'
    } else {
        ' '
    };
    assert(seq![mark] + seq![' '] == seq![mark, ' ']);
    assert(with_row(out, lines, num, affected) =~= out + row(lines, num, mark));
}

proof fn lemma_list_end(lines: Seq<Seq<u8>>, from: int, to: int, mark: char)
    requires
        from <= to,
    ensures
        list(lines, from, to, mark) == list(lines, from, to - 1, mark) + row(lines, to, mark),
    decreases to - from,
{
    if from < to {
        lemma_list_end(lines, from + 1, to, mark);
        assert(row(lines, from, mark) + (list(lines, from + 1, to - 1, mark) + row(lines, to, mark))
            == row(lines, from, mark) + list(lines, from + 1, to - 1, mark) + row(lines, to, mark));
    } else {
        reveal_with_fuel(list, 2);
        assert(row(lines, from, mark) + Seq::<char>::empty() == Seq::<char>::empty() + row(
            lines,
            to,
            mark,
        ));
    }
}

proof fn lemma_rows(
    out: Seq<char>,
    lines: Seq<Seq<u8>>,
    start: int,
    end: int,
    affected: bool,
)
    requires
        valid_lines(lines),
        1 <= start,
        end <= lines.len() + 1,
    ensures
        with_rows(out, lines, start, end, affected) == out + list(
            lines,
            start,
            end - 1,
            if affected {
                '>'
            } else {
                ' '
            },
        ),
    decreases end - start,
{
    let mark = if affected {
        '>'
    } else {
        ' '
    };
    if end <= start {
        assert(out + Seq::<char>::empty() == out);
    } else {
        lemma_rows(out, lines, start, end - 1, affected);
        lemma_row(with_rows(out, lines, start, end - 1, affected), lines, end - 1, affected);
        lemma_list_end(lines, start, end - 1, mark);
        assert(out + list(lines, start, end - 2, mark) + row(lines, end - 1, mark) == out + (list(
            lines,
            start,
            end - 2,
            mark,
        ) + row(lines, end - 1, mark)));
    }
}

/// What is shown of a file of text around lines that a block takes up are the
/// rows of these lines and of their neighbors.
pub proof fn views_show_a_window(out: Seq<char>, lines: Seq<Seq<u8>>, from: int, to: int)
    requires
        valid_lines(lines),
        1 <= from <= to <= lines.len(),
    ensures
        with_affected(out, lines, from, to) == out + window(lines, from, to),
{
    let first = larger(1, from - 3);
    let last = smaller(to + 3, lines.len() as int);
    let above = list(lines, first, from - 1, ' ');
    let below = list(lines, to + 1, last, ' ');
    let start = out + above;
    lemma_rows(out, lines, first, from, false);
    if to - from < 6 {
        let block = list(lines, from, to, '>');
        lemma_rows(start, lines, from, to + 1, true);
        lemma_rows(start + block, lines, to + 1, last + 1, false);
        assert(start + block + below =~= out + (above + block + below));
    } else {
        let front = list(lines, from, from + 2, '>');
        let back = list(lines, to - 2, to, '>');
        let gap = "  …\n"@;
        lemma_rows(start, lines, from, from + 3, true);
        lemma_rows(start + front + gap, lines, to - 2, to + 1, true);
        lemma_rows(start + front + gap + back, lines, to + 1, last + 1, false);
        assert(start + front + gap + back + below =~= out + (above + (front + gap + back) + below));
    }
}

/// What is shown of a file of text around a place where lines were taken out are
/// the rows of its neighbors.
pub proof fn seams_show_a_window(out: Seq<char>, lines: Seq<Seq<u8>>, from: int)
    requires
        valid_lines(lines),
        1 <= from,
    ensures
        with_seam(out, lines, from) == out + seam_window(lines, from),
{
    if lines.len() > 0 {
        let at = smaller(from, lines.len() as int + 1);
        lemma_rows(out, lines, larger(1, at - 3), smaller(at + 2, lines.len() as int) + 1, false);
    } else {
        assert(out + seam_window(lines, from) == out);
    }
}

/// One line is a line, and any other number of them are lines.
pub proof fn only_one_is_a_line(n: nat)
    ensures
        n == 1 ==> lines_word(n) == "line"@,
        n != 1 ==> lines_word(n) == "lines"@,
{
}

/// A line is shown as its content says, where that is text.
pub proof fn lines_are_shown_as_they_are(line: Seq<u8>)
    requires
        valid_utf8(logical(line)),
    ensures
        encode_utf8(shown_text(line)) == logical(line),
{
    decode_utf8_encode_utf8(logical(line));
}

} // verus!
