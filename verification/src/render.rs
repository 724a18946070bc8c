//! The numbered view that a successful call prints.

use vstd::prelude::*;
use vstd::utf8::{decode_utf8, decode_utf8_encode_utf8, encode_utf8, valid_utf8};

use crate::lines::{content, logical, rows, Lines};
use crate::numeral::{decimal, decimal_text};
use crate::outside::{from_utf8_lossy, lossy_text};

verus! {

/// A line as it is shown: its content, decoded; what is not UTF-8 is decoded
/// as far as it goes.
pub open spec fn shown_text(line: Seq<u8>) -> Seq<char> {
    if valid_utf8(logical(line)) {
        decode_utf8(logical(line))
    } else {
        lossy_text(logical(line))
    }
}

/// The word for `n` lines.
pub open spec fn lines_word(n: nat) -> Seq<char> {
    if n == 1 {
        "line"@
    } else {
        "lines"@
    }
}

/// `out`, followed by the row of line `num`, counted from one: a gutter mark,
/// the number, a tab, the text.
pub open spec fn with_row(
    out: Seq<char>,
    lines: Seq<Seq<u8>>,
    num: int,
    affected: bool,
) -> Seq<char> {
    out + (if affected {
        ">"@
    } else {
        " "@
    }) + " "@ + decimal_text(num as nat) + "\t"@ + shown_text(lines[num - 1]) + "\n"@
}

/// `out`, followed by the rows of the lines from `start` up to but not with
/// `end`.
pub open spec fn with_rows(
    out: Seq<char>,
    lines: Seq<Seq<u8>>,
    start: int,
    end: int,
    affected: bool,
) -> Seq<char>
    decreases end - start,
{
    if end <= start {
        out
    } else {
        with_row(with_rows(out, lines, start, end - 1, affected), lines, end - 1, affected)
    }
}

/// Three lines before line `num`, or the first line.
pub open spec fn three_above(num: int) -> int {
    if num > 3 {
        num - 3
    } else {
        1
    }
}

/// `out`, followed by the affected lines `start` to `end` with three lines of
/// context on each side. Of more than six affected lines the middle is left
/// out.
pub open spec fn with_affected(
    out: Seq<char>,
    lines: Seq<Seq<u8>>,
    start: int,
    end: int,
) -> Seq<char> {
    let above = with_rows(out, lines, three_above(start), start, false);
    let block = if end - start < 6 {
        with_rows(above, lines, start, end + 1, true)
    } else {
        with_rows(
            with_rows(above, lines, start, start + 3, true) + "  …\n"@,
            lines,
            end - 2,
            end + 1,
            true,
        )
    };
    let last = if end + 3 < lines.len() {
        end + 3
    } else {
        lines.len() as int
    };
    with_rows(block, lines, end + 1, last + 1, false)
}

/// `out`, followed by the lines around a seam: three above `seam`, and `seam`
/// with two below it. An empty file shows nothing.
pub open spec fn with_seam(out: Seq<char>, lines: Seq<Seq<u8>>, seam: int) -> Seq<char> {
    if lines.len() == 0 {
        out
    } else {
        let center = if seam < lines.len() + 1 {
            seam
        } else {
            lines.len() as int + 1
        };
        let last = if center + 2 < lines.len() {
            center + 2
        } else {
            lines.len() as int
        };
        with_rows(out, lines, three_above(center), last + 1, false)
    }
}

/// Decoded content of a line, for display. Nothing of a line of UTF-8 is lost.
pub fn display_text(line: &[u8]) -> (text: String)
    ensures
        text@ == shown_text(line@),
        valid_utf8(logical(line@)) ==> encode_utf8(text@) == logical(line@),
{
    let text = from_utf8_lossy(content(line));
    proof {
        if valid_utf8(logical(line@)) {
            decode_utf8_encode_utf8(logical(line@));
        }
    }
    text
}

/// The word for `n` lines.
pub fn plural(n: usize) -> (word: &'static str)
    ensures
        word@ == lines_word(n as nat),
{
    if n == 1 {
        "line"
    } else {
        "lines"
    }
}

/// Adds the row of line `num`, counted from one.
pub fn push_row(out: &mut String, lines: &Lines, num: usize, affected: bool)
    requires
        1 <= num <= lines@.len(),
    ensures
        final(out)@ == with_row(old(out)@, rows(lines@), num as int, affected),
{
    out.append(if affected { ">" } else { " " });
    out.append(" ");
    out.append(decimal(num as u64).as_str());
    out.append("\t");
    out.append(display_text(lines[num - 1].as_slice()).as_str());
    out.append("\n");
}

/// Adds the rows of the lines `start` to `last`, counted from one.
fn push_rows(out: &mut String, lines: &Lines, start: usize, last: usize, affected: bool)
    requires
        1 <= start,
        last <= lines@.len(),
    ensures
        final(out)@ == with_rows(old(out)@, rows(lines@), start as int, last + 1, affected),
{
    if start > last {
        return;
    }
    let mut i: usize = start;
    while i < last
        invariant
            1 <= start <= i <= last <= lines@.len(),
            out@ == with_rows(old(out)@, rows(lines@), start as int, i as int, affected),
        decreases last - i,
    {
        push_row(out, lines, i, affected);
        i += 1;
    }
    push_row(out, lines, last, affected);
}

/// Adds the affected lines `start` to `end`, counted from one, with three
/// lines of context above and below.
pub fn render_affected(out: &mut String, lines: &Lines, start: usize, end: usize)
    requires
        1 <= start <= end <= lines@.len(),
    ensures
        final(out)@ == with_affected(old(out)@, rows(lines@), start as int, end as int),
{
    let n: usize = lines.len();
    let first: usize = if start > 3 { start - 3 } else { 1 };
    push_rows(out, lines, first, start - 1, false);
    if end - start < 6 {
        push_rows(out, lines, start, end, true);
    } else {
        push_rows(out, lines, start, start + 2, true);
        out.append("  …\n");
        push_rows(out, lines, end - 2, end, true);
    }
    if end < n {
        let last: usize = if n - end > 3 { end + 3 } else { n };
        push_rows(out, lines, end + 1, last, false);
    }
}

/// Adds the lines around the place where a block was taken out; `seam_line` is
/// the line, counted from one, that followed it.
pub fn render_seam(out: &mut String, lines: &Lines, seam_line: usize)
    ensures
        final(out)@ == with_seam(old(out)@, rows(lines@), seam_line as int),
{
    let n: usize = lines.len();
    if n == 0 {
        return;
    }
    let center: usize = if seam_line <= n { seam_line } else { n + 1 };
    let first: usize = if center > 3 { center - 3 } else { 1 };
    let last: usize = if center < n && n - center > 2 { center + 2 } else { n };
    push_rows(out, lines, first, last, false);
}

} // verus!
