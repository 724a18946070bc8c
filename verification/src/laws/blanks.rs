//! Blank lines at the seams: as many as before, never more.

use vstd::prelude::*;

use crate::laws::files::unjoined;
use crate::laws::seams::{insertion_keeps_bytes, lemma_run_is_blank, lemma_tidied};
use crate::laws::wording::{lemma_mark_logical, lemma_mark_terminator, lemma_newline_blank};
use crate::lines::{blank, logical, terminated};
use crate::ops::{narrowed_by, staying, tidied};
use crate::splice::{
    ending, inserted, landed, leading_fill, lemma_run_below_bound, run_above, run_below,
    trailing_fill,
};

verus! {

/// The wider of two runs.
pub open spec fn wider(a: nat, b: nat) -> nat {
    if a < b {
        b
    } else {
        a
    }
}

/// A run above an index depends on nothing but which lines above it are blank.
pub proof fn lemma_run_above_same(a: Seq<Seq<u8>>, b: Seq<Seq<u8>>, gap: int)
    requires
        forall|i: int| 0 <= i < gap ==> blank(#[trigger] a[i]) == blank(b[i]),
    ensures
        run_above(a, gap) == run_above(b, gap),
    decreases gap,
{
    if gap > 0 {
        assert(blank(a[gap - 1]) == blank(b[gap - 1]));
        lemma_run_above_same(a, b, gap - 1);
    }
}

/// A run below an index depends on nothing but which lines below it are blank.
pub proof fn lemma_run_below_same(a: Seq<Seq<u8>>, i: int, b: Seq<Seq<u8>>, j: int)
    requires
        a.len() - i == b.len() - j,
        forall|k: int|
            i <= k < a.len() ==> blank(#[trigger] a[k]) == blank(b[k - i + j]),
    ensures
        run_below(a, i) == run_below(b, j),
    decreases a.len() - i,
{
    if i < a.len() {
        assert(blank(a[i]) == blank(b[i - i + j]));
        assert forall|k: int| i + 1 <= k < a.len() implies blank(#[trigger] a[k]) == blank(
            b[k - (i + 1) + (j + 1)],
        ) by {
            assert(blank(a[k]) == blank(b[k - i + j]));
        }
        lemma_run_below_same(a, i + 1, b, j + 1);
    }
}

/// Blank lines right above an index add to the run above them.
pub proof fn lemma_run_above_more(lines: Seq<Seq<u8>>, gap: int, count: int)
    requires
        0 <= count <= gap,
        forall|i: int| gap - count <= i < gap ==> blank(#[trigger] lines[i]),
    ensures
        run_above(lines, gap) == count + run_above(lines, gap - count),
    decreases count,
{
    if count > 0 {
        assert(blank(lines[gap - 1]));
        lemma_run_above_more(lines, gap - 1, count - 1);
    }
}

/// Blank lines from an index on add to the run below them.
pub proof fn lemma_run_below_more(lines: Seq<Seq<u8>>, gap: int, count: int)
    requires
        0 <= count,
        gap + count <= lines.len(),
        forall|i: int| gap <= i < gap + count ==> blank(#[trigger] lines[i]),
    ensures
        run_below(lines, gap) == count + run_below(lines, gap + count),
    decreases count,
{
    if count > 0 {
        assert(blank(lines[gap]));
        lemma_run_below_more(lines, gap + 1, count - 1);
    }
}

/// A block lands with as many blank lines above it as it had, or as were there
/// already if those are more; at the top of a file nothing is added. Below it
/// is the same, and at the end of a file nothing is added. Something of the
/// block must land: a block without any content leaves no trace at the end of a
/// file without a final newline.
pub proof fn insertion_mirrors_blanks(
    lines: Seq<Seq<u8>>,
    gap: int,
    block: Seq<Seq<u8>>,
    above: nat,
    below: nat,
)
    requires
        0 <= gap <= lines.len(),
        landed(block, gap == lines.len(), ending(lines)).len() > 0,
    ensures
        ({
            let after = inserted(lines, gap, block, above, below);
            let first = gap + leading_fill(lines, gap, above);
            let end = first + landed(block, gap == lines.len(), ending(lines)).len();
            &&& gap > 0 ==> run_above(after, first) == wider(above, run_above(lines, gap))
            &&& gap == 0 ==> first == 0
            &&& gap < lines.len() ==> run_below(after, end) == wider(below, run_below(lines, gap))
            &&& gap == lines.len() ==> end == after.len()
        }),
{
    let after = inserted(lines, gap, block, above, below);
    let lead = leading_fill(lines, gap, above) as int;
    let trail = trailing_fill(lines, gap, below) as int;
    let first = gap + lead;
    let size = landed(block, gap == lines.len(), ending(lines)).len();
    let end = first + size;
    insertion_keeps_bytes(lines, gap, block, above, below);
    lemma_newline_blank(lines);
    assert forall|i: int| 0 <= i < gap implies blank(#[trigger] after[i]) == blank(lines[i]) by {
        if i == gap - 1 {
            lemma_mark_terminator(lines[i]);
        }
    }
    lemma_run_above_same(after, lines, gap);
    lemma_run_above_more(after, first, lead);
    assert forall|k: int| end + trail <= k < after.len() implies blank(#[trigger] after[k])
        == blank(lines[k - (end + trail) + gap]) by {
        assert(after[k] == lines[k - lead - size - trail]);
    }
    lemma_run_below_same(after, end + trail, lines, gap);
    lemma_run_below_more(after, end, trail);
}

/// Where a block was taken out and the seam tidied, the wider of the two runs
/// of blank lines around it is left; nothing goes where one side had none. Left
/// out is a seam right below an empty line at the end of a file without a final
/// newline: such a file cannot end with an empty line.
pub proof fn tidying_keeps_wider_run(lines: Seq<Seq<u8>>, from: int, to: int)
    requires
        unjoined(lines),
        1 <= from <= to <= lines.len(),
        ({
            ||| terminated(lines.last())
            ||| from == 1
            ||| logical(lines[from - 2]).len() > 0
            ||| to + narrowed_by(lines, from, to) < lines.len()
        }),
    ensures
        ({
            let after = tidied(lines, from, to);
            let lead = run_above(lines, from - 1);
            let trail = run_below(lines, to);
            &&& run_above(after, from - 1) == lead
            &&& run_above(after, from - 1) + run_below(after, from - 1) == wider(lead, trail)
            &&& after.len() == lines.len() - (to - from + 1) - (lead + trail - wider(lead, trail))
        }),
{
    let after = tidied(lines, from, to);
    let rest = staying(lines, from, to);
    let n = narrowed_by(lines, from, to);
    lemma_tidied(lines, from, to);
    lemma_run_below_bound(lines, to);
    lemma_same_blanks(lines, from, to);
    assert forall|i: int| 0 <= i < from - 1 implies blank(#[trigger] after[i]) == blank(
        lines[i],
    ) by {
        assert(blank(after[i]) == blank(rest[i]));
    }
    lemma_run_above_same(after, lines, from - 1);
    assert forall|k: int| from - 1 <= k < after.len() implies blank(#[trigger] after[k]) == blank(
        lines[k - (from - 1) + (to + n)],
    ) by {
        assert(blank(after[k]) == blank(rest[k]));
        assert(rest[k] == lines[k - (from - 1) + (to + n)]);
    }
    lemma_run_below_same(after, from - 1, lines, to + n);
    assert forall|i: int| to <= i < to + n implies blank(#[trigger] lines[i]) by {
        lemma_run_is_blank(lines, to, i);
    }
    lemma_run_below_more(lines, to, n);
}

/// Line by line as many are blank as among the lines that stay.
proof fn lemma_same_blanks(lines: Seq<Seq<u8>>, from: int, to: int)
    requires
        unjoined(lines),
        1 <= from <= to <= lines.len(),
        ({
            ||| terminated(lines.last())
            ||| from == 1
            ||| logical(lines[from - 2]).len() > 0
            ||| to + narrowed_by(lines, from, to) < lines.len()
        }),
    ensures
        ({
            let after = tidied(lines, from, to);
            let rest = staying(lines, from, to);
            &&& after.len() == rest.len()
            &&& forall|i: int| 0 <= i < rest.len() ==> blank(#[trigger] after[i]) == blank(rest[i])
        }),
{
    let rest = staying(lines, from, to);
    lemma_tidied(lines, from, to);
    if to + narrowed_by(lines, from, to) == lines.len() && rest.len() > 0 {
        lemma_mark_terminator(rest.last());
        if !terminated(lines.last()) {
            assert(rest == lines.take(from - 1));
            assert(rest.last() == lines[from - 2]);
            lemma_mark_logical(rest.last());
        }
    }
}

} // verus!
