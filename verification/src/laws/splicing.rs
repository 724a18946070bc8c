//! Setting a block in, taking it out and narrowing a seam, told of the lines.

use vstd::prelude::*;

use crate::laws::files::{one_line, unjoined};
use crate::laws::relocating::{
    ends_line, file_end, lemma_closed, lemma_set_in_stands, lemma_stripped, stands, stripped,
};
use crate::laws::wording::lemma_newline_blank;
use crate::lines::{logical, terminated};
use crate::splice::{
    collapsed, ending, gap_of, inserted, landed, leading_fill, newline_of, overlap, removed,
    set_in, unended, without,
};

verus! {

/// A block that is set in stands between the lines above and below its place.
/// Left out is one that ends with an empty line, at the end of a file without a
/// final newline.
pub proof fn inserted_blocks_stand_in_their_place(
    lines: Seq<Seq<u8>>,
    gap: int,
    block: Seq<Seq<u8>>,
    above: nat,
    below: nat,
)
    requires
        0 <= gap <= lines.len(),
        block.len() > 0,
        gap < lines.len() || file_end(lines) != Some(false) || logical(block.last()).len() > 0,
    ensures
        stands(
            inserted(lines, gap, block, above, below),
            lines.take(gap),
            block,
            lines.skip(gap),
            above,
            below,
            newline_of(lines),
            file_end(lines),
            gap + leading_fill(lines, gap, above),
        ),
        landed(block, gap == lines.len(), ending(lines)).len() == block.len(),
{
    lemma_newline_blank(lines);
    assert(ending(lines) == file_end(lines));
    lemma_set_in_stands(
        lines,
        gap,
        block,
        above,
        below,
        ending(lines),
        newline_of(lines),
        gap + leading_fill(lines, gap, above),
    );
}

/// At the end of a file without a final newline empty lines go from the end of a
/// block, and what is left stands there; where nothing is left, the file stays as
/// it is.
pub proof fn inserted_blocks_end_as_the_file_does(
    lines: Seq<Seq<u8>>,
    block: Seq<Seq<u8>>,
    above: nat,
    below: nat,
)
    requires
        file_end(lines) == Some(false),
        forall|i: int|
            0 <= i < block.len() ==> ends_line(#[trigger] block[i]) && one_line(block[i]),
    ensures
        ({
            let after = inserted(lines, lines.len() as int, block, above, below);
            let middle = landed(block, true, ending(lines));
            &&& stripped(middle, block)
            &&& middle.len() == 0 ==> after == lines
            &&& middle.len() > 0 ==> stands(
                after,
                lines,
                middle,
                Seq::empty(),
                above,
                below,
                newline_of(lines),
                Some(false),
                lines.len() as int + leading_fill(lines, lines.len() as int, above),
            )
        }),
{
    let n = lines.len() as int;
    let middle = landed(block, true, ending(lines));
    assert(middle == unended(block));
    assert forall|i: int| 0 <= i < block.len() implies terminated(#[trigger] block[i]) by {
        assert(ends_line(block[i]));
    }
    lemma_stripped(block);
    if middle.len() > 0 {
        let k = middle.len() as int;
        let last = logical(block[k - 1]);
        assert(middle.last() == last);
        assert(ends_line(block[k - 1]));
        lemma_unended_again(block);
        lemma_newline_blank(lines);
        lemma_set_in_stands(
            lines,
            n,
            middle,
            above,
            below,
            Some(false),
            newline_of(lines),
            n + leading_fill(lines, n, above),
        );
        assert(lines.take(n) == lines);
        assert(lines.skip(n) == Seq::<Seq<u8>>::empty());
        assert(landed(middle, true, Some(false)) == middle);
        assert(set_in(lines, n, middle, above, below, Some(false), newline_of(lines)) == inserted(
            lines,
            n,
            block,
            above,
            below,
        ));
    }
}

proof fn lemma_unended_again(lines: Seq<Seq<u8>>)
    requires
        forall|i: int|
            0 <= i < lines.len() ==> ends_line(#[trigger] lines[i]) && one_line(lines[i]),
        unended(lines).len() > 0,
    ensures
        unended(unended(lines)) == unended(lines),
        logical(unended(lines).last()).len() > 0,
        logical(unended(lines).last()) == unended(lines).last(),
    decreases lines.len(),
{
    let n = lines.len() as int;
    assert(ends_line(lines[n - 1]) && one_line(lines[n - 1]));
    if logical(lines.last()).len() == 0 {
        let rest = lines.drop_last();
        assert forall|i: int| 0 <= i < rest.len() implies ends_line(#[trigger] rest[i])
            && one_line(rest[i]) by {
            assert(ends_line(lines[i]) && one_line(lines[i]));
        }
        lemma_unended_again(rest);
    } else {
        let line = lines.last();
        let text = logical(line);
        assert(text.last() == line[text.len() - 1]);
        assert(text.take(text.len() as int) == text);
        assert(unended(lines).last() == text);
    }
}

/// The lines that are taken out go and the others stay as they are. Where the
/// end of a file goes that had no final newline, the rest ends without one.
pub proof fn removed_lines_go(lines: Seq<Seq<u8>>, from: int, to: int)
    requires
        unjoined(lines),
        1 <= from <= to <= lines.len(),
    ensures
        to < lines.len() || ends_line(lines.last()) ==> removed(lines, from, to) == lines.take(
            from - 1,
        ) + lines.skip(to),
        to == lines.len() && !ends_line(lines.last()) ==> stripped(
            removed(lines, from, to),
            lines.take(from - 1),
        ),
{
    let head = lines.take(from - 1);
    if to == lines.len() {
        assert(without(lines, from, to) == head);
        assert(head + lines.skip(to) == head);
        assert forall|i: int| 0 <= i < head.len() implies terminated(#[trigger] head[i]) by {
            assert(terminated(lines[i]));
        }
        lemma_stripped(head);
        if head.len() > 0 {
            assert(terminated(head[head.len() - 1]));
            lemma_closed(head);
        }
    }
}

/// A seam between `lead` blank lines and `trail` gives up the fewer of them,
/// from the line of the seam on, where the file has so many lines there; else it
/// stays as it is.
pub proof fn narrowed_seams_lose_the_fewer(
    lines: Seq<Seq<u8>>,
    seam: int,
    lead: nat,
    trail: nat,
    fewer: int,
)
    requires
        fewer == lead || fewer == trail,
        fewer <= lead && fewer <= trail,
        0 <= seam,
    ensures
        ({
            let fits = 1 <= seam && seam - 1 + fewer <= lines.len();
            let after = collapsed(lines, seam, lead, trail);
            &&& overlap(lines, seam, lead, trail) == if fits {
                fewer
            } else {
                0
            }
            &&& fewer == 0 || !fits ==> after == lines
            &&& fewer > 0 && fits ==> after == removed(lines, seam, seam - 1 + fewer)
        }),
{
}

/// A place behind a line has as many lines above it as the line has in front of
/// it, and itself; one before a line has one less. Line zero stands for the top.
pub proof fn places_lie_beside_their_line(line: nat)
    ensures
        gap_of(line, false) == line,
        line > 0 ==> gap_of(line, true) + 1 == line,
        gap_of(0, true) == 0,
{
}

} // verus!
