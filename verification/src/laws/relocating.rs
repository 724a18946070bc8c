//! What a call that is carried out writes, told of the files before and after.

use vstd::prelude::*;
use vstd::utf8::valid_utf8;

use crate::anchor::{number_view, parsed_flags, resolution, ContextView};
use crate::error::{ErrorView, Role};
use crate::laws::blanks::{
    lemma_run_above_more, lemma_run_above_same, lemma_run_below_more, lemma_run_below_same, wider,
};
use crate::laws::calls::{
    calls_come_to_plans, contexts, dest_of, ends_resolve, file_is_read_back, lemma_valid_moved,
    lemma_valid_tidied, lemma_valid_with_block, names_other, other_of, place_of, proper_span,
    source_is_read_back, span_end, span_start, target_is_read_back,
};
use crate::laws::files::{file_lines, unjoined, valid_lines};
use crate::laws::resolving::{
    all_flags_are_read, all_read_as, coordinates_resolve_to_the_line_that_fits, fits, only_fit,
};
use crate::laws::seams::{lemma_tidied, lemma_unended};
use crate::laws::showing::{seam_window, seams_show_a_window, views_show_a_window, window};
use crate::laws::wording::{lemma_mark_terminator, lemma_newline_blank};
use crate::lines::{blank, logical, split_lines, terminated, with_terminator};
use crate::numeral::decimal_text;
use crate::ops::{
    block_of, block_start, call_step, cross_plan, delete_plan, intra_plan,
    lemma_resolution_in_file, lemma_shifted_gap, loaded, moved, moved_start, narrowed_by,
    receiving, relocated, relocated_start, shifted_gap, staying, tidied, with_block, DestState,
    FileState, OpArgs, PlanView, StepView, Verb,
};
use crate::render::{with_affected, with_seam};
use crate::search::texts;
use crate::splice::{
    ended, ending, landed, leading_fill, newline_of, repeated, run_above, run_below, set_in,
    terminate_last, trailing_fill, unended,
};
use crate::text::option_text;

verus! {

/// The line ends with a line feed.
pub open spec fn ends_line(line: Seq<u8>) -> bool {
    line.len() > 0 && line.last() == 10
}

/// The lines, a line feed behind the last where it has none.
pub open spec fn lf_ended(lines: Seq<Seq<u8>>) -> Seq<Seq<u8>> {
    if lines.len() == 0 || ends_line(lines.last()) {
        lines
    } else {
        lines.drop_last().push(lines.last().push(10))
    }
}

/// `n` times the same line.
pub open spec fn copies(line: Seq<u8>, n: nat) -> Seq<Seq<u8>> {
    Seq::new(n, |i: int| line)
}

/// How many are lacking of those that are wanted.
pub open spec fn lacking(wanted: nat, present: nat) -> nat {
    if wanted <= present {
        0
    } else {
        (wanted - present) as nat
    }
}

/// A block as it stands where something follows it, or where it ends a file:
/// there it ends as the file does, and in a file that was empty as it did.
pub open spec fn settled_in(
    block: Seq<Seq<u8>>,
    followed: bool,
    file_ends: Option<bool>,
) -> Seq<Seq<u8>> {
    if followed || file_ends == Some(true) {
        lf_ended(block)
    } else if file_ends == Some(false) {
        block.drop_last().push(logical(block.last()))
    } else {
        block
    }
}

/// The file `after` holds the lines of `head`, the block and the lines of
/// `tail`, in this order, and between them blank lines, so that above the block
/// there are as many as there were above it before, or as many as `head` ends
/// with, whichever are more, and below it likewise. At the top of a file and at
/// its end none are added. Every line is as it was, but for a line feed where
/// the last line of `head` or of the block had none, and for the end of a block
/// that ends the file. The block starts at index `first`.
pub open spec fn stands(
    after: Seq<Seq<u8>>,
    head: Seq<Seq<u8>>,
    block: Seq<Seq<u8>>,
    tail: Seq<Seq<u8>>,
    above: nat,
    below: nat,
    newline: Seq<u8>,
    file_ends: Option<bool>,
    first: int,
) -> bool {
    let before = run_above(head, head.len() as int);
    let behind = run_below(tail, 0);
    let lead = if head.len() == 0 {
        0
    } else {
        lacking(above, before)
    };
    let trail = if tail.len() == 0 {
        0
    } else {
        lacking(below, behind)
    };
    &&& first == head.len() + lead
    &&& after == lf_ended(head) + copies(newline, lead) + settled_in(
        block,
        tail.len() > 0,
        file_ends,
    ) + copies(newline, trail) + tail
    &&& head.len() > 0 ==> run_above(after, first) == wider(above, before)
    &&& tail.len() > 0 ==> run_below(after, first + block.len()) == wider(below, behind)
}

/// The file `now` is what is left of the lines `then`, each of which had its
/// line feed, where the file must end without one: lines without any content go
/// from the end, and the line above them gives up its terminator.
pub open spec fn stripped(now: Seq<Seq<u8>>, then: Seq<Seq<u8>>) -> bool {
    let n = now.len() as int;
    &&& n <= then.len()
    &&& forall|i: int| n <= i < then.len() ==> logical(#[trigger] then[i]).len() == 0
    &&& n > 0 ==> logical(then[n - 1]).len() > 0 && now == then.take(n - 1).push(
        logical(then[n - 1]),
    )
}

/// How many blank lines a file gives up with its lines `from` to `to`: as many
/// as stand above them, or as many as stand below, whichever are fewer.
pub open spec fn doubled(lines: Seq<Seq<u8>>, from: int, to: int) -> int {
    let lead = run_above(lines, from - 1) as int;
    let trail = run_below(lines, to) as int;
    if lead <= trail {
        lead
    } else {
        trail
    }
}

/// The other lines of a file that gives up its lines `from` to `to`, without the
/// blank lines right below them that go too.
pub open spec fn others(lines: Seq<Seq<u8>>, from: int, to: int) -> Seq<Seq<u8>> {
    lines.take(from - 1) + lines.skip(to + doubled(lines, from, to))
}

/// The file still ends with the line that it ended with, or it ended with a line
/// feed, so that any line can end it.
pub open spec fn end_is_kept(lines: Seq<Seq<u8>>, from: int, to: int) -> bool {
    to + doubled(lines, from, to) < lines.len() || ends_line(lines.last())
}

/// The file `after` is the file `lines` without its lines `from` to `to`.
#[verifier::opaque]
pub open spec fn given_up(
    after: Seq<Seq<u8>>,
    lines: Seq<Seq<u8>>,
    from: int,
    to: int,
) -> bool {
    if end_is_kept(lines, from, to) {
        after == others(lines, from, to)
    } else {
        stripped(after, others(lines, from, to))
    }
}

/// How a file that is to receive a block ends.
pub open spec fn file_end(lines: Seq<Seq<u8>>) -> Option<bool> {
    if lines.len() == 0 {
        None
    } else {
        Some(ends_line(lines.last()))
    }
}

/// The file `after` is the file `target` with a copy of the lines `from` to `to`
/// of the file `lines` in front of its index `place`.
#[verifier::opaque]
pub open spec fn received(
    after: Seq<Seq<u8>>,
    target: Seq<Seq<u8>>,
    place: int,
    lines: Seq<Seq<u8>>,
    from: int,
    to: int,
    first: int,
) -> bool {
    stands(
        after,
        target.take(place),
        lines.subrange(from - 1, to),
        target.skip(place),
        run_above(lines, from - 1),
        run_below(lines, to),
        newline_of(target),
        file_end(target),
        first,
    )
}

/// How many of the other lines of a file stand above the index `place`.
pub open spec fn others_above(lines: Seq<Seq<u8>>, from: int, to: int, place: int) -> int {
    if place < from {
        place
    } else {
        place - (to - from + 1) - doubled(lines, from, to)
    }
}

/// The file `after` is the file `lines` with its lines `from` to `to` moved to
/// the index `place`, `tail` being what stands below them.
pub open spec fn carried_above(
    after: Seq<Seq<u8>>,
    lines: Seq<Seq<u8>>,
    from: int,
    to: int,
    place: int,
    first: int,
    tail: Seq<Seq<u8>>,
) -> bool {
    let rest = others(lines, from, to);
    let at = others_above(lines, from, to, place);
    &&& end_is_kept(lines, from, to) ==> tail == rest.skip(at)
    &&& !end_is_kept(lines, from, to) ==> stripped(tail, rest.skip(at))
    &&& stands(
        after,
        rest.take(at),
        lines.subrange(from - 1, to),
        tail,
        run_above(lines, from - 1),
        run_below(lines, to),
        newline_of(rest),
        file_end(lines),
        first,
    )
}

/// The file `after` is the file `lines` with its lines `from` to `to` moved to
/// the index `place`. Where they stand there already, nothing changes.
#[verifier::opaque]
pub open spec fn carried(
    after: Seq<Seq<u8>>,
    lines: Seq<Seq<u8>>,
    from: int,
    to: int,
    place: int,
    first: int,
) -> bool {
    if place == from - 1 || place == to {
        after == lines && first == from - 1
    } else {
        exists|tail: Seq<Seq<u8>>|
            #[trigger] carried_above(after, lines, from, to, place, first, tail)
    }
}

proof fn lemma_head_run(lines: Seq<Seq<u8>>, gap: int)
    requires
        0 <= gap <= lines.len(),
    ensures
        run_above(lines.take(gap), gap) == run_above(lines, gap),
        run_below(lines.skip(gap), 0) == run_below(lines, gap),
{
    lemma_run_above_same(lines.take(gap), lines, gap);
    lemma_run_below_same(lines.skip(gap), 0, lines, gap);
}

pub proof fn lemma_closed(lines: Seq<Seq<u8>>)
    ensures
        terminate_last(lines) == lf_ended(lines),
        lines.len() > 0 && ends_line(lines.last()) ==> terminate_last(lines) == lines,
{
    if lines.len() > 0 {
        assert(lines == lines.drop_last().push(lines.last()));
        assert(terminate_last(lines) == lf_ended(lines));
    }
}

/// The blank lines around a block that stands between two parts of a file.
proof fn lemma_runs(
    head: Seq<Seq<u8>>,
    middle: Seq<Seq<u8>>,
    tail: Seq<Seq<u8>>,
    lead: nat,
    trail: nat,
    newline: Seq<u8>,
)
    requires
        blank(newline),
    ensures
        ({
            let after = lf_ended(head) + copies(newline, lead) + middle + copies(newline, trail)
                + tail;
            let first = head.len() + lead as int;
            &&& run_above(after, first) == lead + run_above(head, head.len() as int)
            &&& run_below(after, first + middle.len()) == trail + run_below(tail, 0)
        }),
{
    let top = lf_ended(head);
    let after = top + copies(newline, lead) + middle + copies(newline, trail) + tail;
    let n = head.len() as int;
    let first = n + lead as int;
    let end = first + middle.len() as int;
    assert(top.len() == n);
    if n > 0 {
        lemma_mark_terminator(head.last());
        assert(head.last().push(10) == with_terminator(head.last()) || ends_line(head.last()));
    }
    assert forall|i: int| 0 <= i < n implies blank(#[trigger] after[i]) == blank(head[i]) by {
        assert(after[i] == top[i]);
        if i == n - 1 && !ends_line(head.last()) {
            assert(top[i] == head.last().push(10));
        }
    }
    lemma_run_above_same(after, head, n);
    assert forall|i: int| first - lead <= i < first implies blank(#[trigger] after[i]) by {
        assert(after[i] == newline);
    }
    lemma_run_above_more(after, first, lead as int);
    assert forall|i: int| end <= i < end + trail implies blank(#[trigger] after[i]) by {
        assert(after[i] == newline);
    }
    lemma_run_below_more(after, end, trail as int);
    assert forall|k: int| end + trail <= k < after.len() implies blank(#[trigger] after[k])
        == blank(tail[k - (end + trail) + 0]) by {
        assert(after[k] == tail[k - (end + trail)]);
    }
    lemma_run_below_same(after, end + trail, tail, 0);
}

/// A block that is set in stands between what was above it and below it.
pub proof fn lemma_set_in_stands(
    lines: Seq<Seq<u8>>,
    gap: int,
    block: Seq<Seq<u8>>,
    above: nat,
    below: nat,
    end: Option<bool>,
    newline: Seq<u8>,
    first: int,
)
    requires
        0 <= gap <= lines.len(),
        block.len() > 0,
        gap < lines.len() || end != Some(false) || logical(block.last()).len() > 0,
        blank(newline),
        first == gap + leading_fill(lines, gap, above),
    ensures
        stands(
            set_in(lines, gap, block, above, below, end, newline),
            lines.take(gap),
            block,
            lines.skip(gap),
            above,
            below,
            newline,
            end,
            first,
        ),
{
    let head = lines.take(gap);
    let tail = lines.skip(gap);
    let middle = landed(block, gap >= lines.len(), end);
    let after = set_in(lines, gap, block, above, below, end, newline);
    let lead = leading_fill(lines, gap, above);
    let trail = trailing_fill(lines, gap, below);
    lemma_head_run(lines, gap);
    lemma_closed(head);
    lemma_closed(block);
    if !terminated(block.last()) {
        assert(logical(block.last()) == block.last());
    }
    assert(block == block.drop_last().push(block.last()));
    assert(middle == settled_in(block, tail.len() > 0, end)) by {
        if gap >= lines.len() && end == Some(false) {
            assert(unended(block) == block.drop_last().push(logical(block.last())));
        }
    }
    assert(repeated(newline, lead) == copies(newline, lead));
    assert(repeated(newline, trail) == copies(newline, trail));
    assert(middle.len() == block.len());
    lemma_runs(head, middle, tail, lead, trail, newline);
}

proof fn lemma_received(
    target: Seq<Seq<u8>>,
    place: int,
    lines: Seq<Seq<u8>>,
    from: int,
    to: int,
)
    requires
        0 <= place <= target.len(),
        1 <= from <= to <= lines.len(),
        logical(lines[to - 1]).len() > 0,
    ensures
        received(
            with_block(target, place, lines, from, to),
            target,
            place,
            lines,
            from,
            to,
            block_start(target, place, lines, from) - 1,
        ),
{
    reveal(received);
    let block = block_of(lines, from, to);
    assert(block.last() == lines[to - 1]);
    lemma_newline_blank(target);
    assert(ending(target) == file_end(target));
    lemma_set_in_stands(
        target,
        place,
        block,
        run_above(lines, from - 1),
        run_below(lines, to),
        ending(target),
        newline_of(target),
        block_start(target, place, lines, from) - 1,
    );
}

pub proof fn lemma_stripped(lines: Seq<Seq<u8>>)
    requires
        forall|i: int| 0 <= i < lines.len() ==> terminated(#[trigger] lines[i]),
    ensures
        stripped(unended(lines), lines),
{
    let now = unended(lines);
    let n = now.len() as int;
    lemma_unended(lines);
    if n > 0 {
        assert(terminated(lines[n - 1]));
        assert(now =~= lines.take(n - 1).push(logical(lines[n - 1])));
    }
}

/// The end of lines that stay, made to end as the file did.
proof fn lemma_ended_part(lines: Seq<Seq<u8>>, from: int, to: int, at: int)
    requires
        unjoined(lines),
        1 <= from <= to <= lines.len(),
        0 <= at <= staying(lines, from, to).len(),
    ensures
        staying(lines, from, to) == others(lines, from, to),
        narrowed_by(lines, from, to) == doubled(lines, from, to),
        ({
            let part = others(lines, from, to).skip(at);
            let tail = ended(part, terminated(lines.last()));
            &&& end_is_kept(lines, from, to) ==> tail == part
            &&& !end_is_kept(lines, from, to) ==> stripped(tail, part)
        }),
{
    let rest = staying(lines, from, to);
    let n = narrowed_by(lines, from, to);
    lemma_tidied(lines, from, to);
    let part = rest.skip(at);
    if to + n < lines.len() {
        if part.len() > 0 {
            assert(part.last() == lines.last());
            lemma_closed(part);
        }
    } else {
        assert forall|i: int| 0 <= i < part.len() implies terminated(#[trigger] part[i]) by {
            assert(part[i] == lines[at + i]);
        }
        if part.len() > 0 {
            assert(terminated(part[part.len() - 1]));
        }
        lemma_closed(part);
        lemma_stripped(part);
    }
}

proof fn lemma_given_up(lines: Seq<Seq<u8>>, from: int, to: int)
    requires
        unjoined(lines),
        1 <= from <= to <= lines.len(),
    ensures
        given_up(tidied(lines, from, to), lines, from, to),
{
    reveal(given_up);
    lemma_tidied(lines, from, to);
    lemma_ended_part(lines, from, to, 0);
    let rest = others(lines, from, to);
    assert(rest.skip(0) == rest);
}

proof fn lemma_carried(lines: Seq<Seq<u8>>, from: int, to: int, place: int)
    requires
        unjoined(lines),
        1 <= from <= to <= lines.len(),
        logical(lines[to - 1]).len() > 0,
        0 <= place <= lines.len(),
        place < from || place >= to,
    ensures
        carried(
            moved(lines, from, to, place),
            lines,
            from,
            to,
            place,
            moved_start(lines, from, to, place) - 1,
        ),
{
    reveal(carried);
    if place != from - 1 && place != to {
        let block = block_of(lines, from, to);
        let rest = staying(lines, from, to);
        let at = shifted_gap(lines, from, to, place);
        let target = receiving(lines, from, to, place);
        let tail = ended(rest.skip(at), terminated(lines.last()));
        lemma_shifted_gap(lines, from, to, place);
        lemma_ended_part(lines, from, to, at);
        lemma_newline_blank(rest);
        assert(block.last() == lines[to - 1]);
        assert(target.take(at) == rest.take(at));
        assert(target.skip(at) == tail);
        lemma_set_in_stands(
            target,
            at,
            block,
            run_above(lines, from - 1),
            run_below(lines, to),
            Some(terminated(lines.last())),
            newline_of(rest),
            moved_start(lines, from, to, place) - 1,
        );
        assert(carried_above(
            moved(lines, from, to, place),
            lines,
            from,
            to,
            place,
            moved_start(lines, from, to, place) - 1,
            tail,
        ));
    }
}

/// The guard, with its number and its neighbors where they are given, names line
/// `num` of the file: it is not empty, the line and no other has it and all its
/// neighbors, and the number is the line's.
pub open spec fn names_line(
    lines: Seq<Seq<u8>>,
    num: int,
    number: Option<usize>,
    guard: Option<String>,
    flags: Seq<String>,
) -> bool {
    exists|context: Seq<ContextView>|
        #[trigger] names_with(lines, num, number, guard, flags, context)
}

/// The same, `context` being what the flags of the neighbors are read as.
pub open spec fn names_with(
    lines: Seq<Seq<u8>>,
    num: int,
    number: Option<usize>,
    guard: Option<String>,
    flags: Seq<String>,
    context: Seq<ContextView>,
) -> bool {
    &&& guard is Some && guard->0@.len() > 0
    &&& number matches Some(n) ==> n == num
    &&& all_read_as(texts(flags), context)
    &&& only_fit(lines, num, guard->0@, context)
}

/// The call names the place in front of index `place`: right after the line that
/// its destination names or right before it, or at the top of the file.
pub open spec fn names_place(lines: Seq<Seq<u8>>, place: int, args: OpArgs) -> bool {
    &&& args.before != args.after
    &&& args.dest == Some(0usize) ==> place == 0 && args.after && args.dest_guard is None
        && args.dest_context@.len() == 0
    &&& args.dest != Some(0usize) ==> names_line(
        lines,
        if args.before {
            place + 1
        } else {
            place
        },
        args.dest,
        args.dest_guard,
        args.dest_context@,
    )
}

proof fn lemma_named(
    lines: Seq<Seq<u8>>,
    path: Seq<char>,
    role: Role,
    number: Option<usize>,
    guard: Option<String>,
    flags: Seq<String>,
    context: Seq<ContextView>,
    num: nat,
)
    ensures
        parsed_flags(texts(flags), role) == Ok::<Seq<ContextView>, ErrorView>(context)
            && resolution(
            lines,
            path,
            role,
            number_view(number),
            option_text(guard),
            context,
        ) == Ok::<nat, ErrorView>(num) <==> names_with(
            lines,
            num as int,
            number,
            guard,
            flags,
            context,
        ),
{
    all_flags_are_read(texts(flags), role, context);
    coordinates_resolve_to_the_line_that_fits(
        lines,
        path,
        role,
        number_view(number),
        option_text(guard),
        context,
        num,
    );
}

/// The word for so many lines.
pub open spec fn line_word(size: nat) -> Seq<char> {
    if size == 1 {
        "line"@
    } else {
        "lines"@
    }
}

/// What a relocation says first: how many lines went, and which lines of which
/// file they are now.
pub open spec fn summary_of(
    verb: Verb,
    size: nat,
    path: Seq<char>,
    first: int,
) -> Seq<char> {
    (if verb == Verb::Move {
        "moved"@
    } else {
        "copied"@
    }) + " "@ + decimal_text(size) + " "@ + line_word(size) + " → "@ + path + ":"@ + decimal_text(
        (first + 1) as nat,
    ) + "-"@ + decimal_text((first + size) as nat)
}

/// The plan relocates the lines `from` to `to` of the file `lines`, at `path`,
/// into another file. What it prints tells where they are, and shows them there
/// and, after a move, the place that they left.
pub open spec fn relocates_into(
    verb: Verb,
    path: Seq<char>,
    lines: Seq<Seq<u8>>,
    from: int,
    to: int,
    other: Seq<char>,
    other_lines: Seq<Seq<u8>>,
    place: int,
    first: int,
    plan: PlanView,
) -> bool {
    &&& plan.writes.len() == if verb == Verb::Move {
        2int
    } else {
        1int
    }
    &&& plan.writes[0].0 == other
    &&& received(split_lines(plan.writes[0].1), other_lines, place, lines, from, to, first)
    &&& verb == Verb::Move ==> plan.writes[1].0 == path && given_up(
        split_lines(plan.writes[1].1),
        lines,
        from,
        to,
    )
    &&& ({
        let size = (to - from + 1) as nat;
        let summary = summary_of(verb, size, other, first) + " (from "@ + path + ":"@
            + decimal_text(from as nat) + "-"@ + decimal_text(to as nat) + ")\n"@;
        let view = other + ":\n"@ + window(
            split_lines(plan.writes[0].1),
            first + 1,
            first + size,
        );
        plan.output == if verb == Verb::Move {
            summary + "\n"@ + view + "\n"@ + path + ":  ("@ + decimal_text(size) + " "@
                + line_word(size) + " removed at "@ + decimal_text(from as nat) + ")\n"@
                + seam_window(split_lines(plan.writes[1].1), from)
        } else {
            summary + view
        }
    })
}

/// The plan relocates the lines `from` to `to` within the file `lines`, at
/// `path`. What it prints tells where they are, and shows them.
pub open spec fn relocates_within(
    verb: Verb,
    path: Seq<char>,
    lines: Seq<Seq<u8>>,
    from: int,
    to: int,
    place: int,
    first: int,
    plan: PlanView,
) -> bool {
    &&& plan.writes.len() == 1
    &&& plan.writes[0].0 == path
    &&& verb == Verb::Copy ==> received(
        split_lines(plan.writes[0].1),
        lines,
        place,
        lines,
        from,
        to,
        first,
    )
    &&& verb == Verb::Move ==> carried(
        split_lines(plan.writes[0].1),
        lines,
        from,
        to,
        place,
        first,
    )
    &&& plan.output == summary_of(verb, (to - from + 1) as nat, path, first) + "\n"@ + window(
        split_lines(plan.writes[0].1),
        first + 1,
        first + 1 + (to - from),
    )
}

/// The plan deletes the lines `from` to `to` of the file `lines`, at `path`. What
/// it prints tells so, and shows the place that they left.
pub open spec fn deletes(
    path: Seq<char>,
    lines: Seq<Seq<u8>>,
    from: int,
    to: int,
    plan: PlanView,
) -> bool {
    let size = (to - from + 1) as nat;
    &&& plan.writes.len() == 1
    &&& plan.writes[0].0 == path
    &&& given_up(split_lines(plan.writes[0].1), lines, from, to)
    &&& plan.output == "deleted "@ + decimal_text(size) + " "@ + line_word(size) + " from "@ + path
        + ":"@ + decimal_text(from as nat) + "-"@ + decimal_text(to as nat) + "\n"@ + seam_window(
        split_lines(plan.writes[0].1),
        from,
    )
}

/// What was read from a file that could be read.
pub open spec fn lines_in(file: FileState) -> Seq<Seq<u8>> {
    split_lines(file->Present_0->Ok_0@)
}

/// The file could be read, and is text.
pub open spec fn is_text(file: FileState) -> bool {
    file matches FileState::Present(Ok(bytes)) && valid_utf8(bytes@)
}

/// The plan is what the call asks for: its lines `from` to `to` are the ones
/// that the call names, and it deletes them or relocates them to `place`.
pub open spec fn is_asked_for(
    verb: Verb,
    args: OpArgs,
    source: FileState,
    dest: Option<DestState>,
    plan: PlanView,
    from: int,
    to: int,
    place: int,
    first: int,
) -> bool {
    let lines = lines_in(source);
    &&& is_text(source)
    &&& names_line(lines, from, args.from, args.from_guard, args.from_context@)
    &&& names_line(lines, to, args.to, args.to_guard, args.to_context@)
    &&& from <= to
    &&& args.force ==> verb == Verb::Move && deletes(args.file@, lines, from, to, plan)
    &&& !args.force && names_other(args, dest) ==> {
        let file = dest->0->Other_0;
        &&& is_text(file)
        &&& names_place(lines_in(file), place, args)
        &&& relocates_into(
            verb,
            args.file@,
            lines,
            from,
            to,
            args.dest_file->0@,
            lines_in(file),
            place,
            first,
            plan,
        )
    }
    &&& !args.force && !names_other(args, dest) ==> {
        &&& names_place(lines, place, args)
        &&& place < from || place >= to
        &&& relocates_within(verb, args.file@, lines, from, to, place, first, plan)
    }
}

proof fn lemma_delete_plan(path: Seq<char>, lines: Seq<Seq<u8>>, from: int, to: int)
    requires
        proper_span(lines, from, to),
    ensures
        deletes(path, lines, from, to, delete_plan(path, lines, from, to)),
{
    let rest = tidied(lines, from, to);
    lemma_given_up(lines, from, to);
    source_is_read_back(lines, from, to);
    lemma_valid_tidied(lines, from, to);
    let size = (to - from + 1) as nat;
    let head = "deleted "@ + decimal_text(size) + " "@ + line_word(size) + " from "@ + path + ":"@
        + decimal_text(from as nat) + "-"@ + decimal_text(to as nat) + "\n"@;
    seams_show_a_window(head, rest, from);
}

#[verifier::rlimit(30)]
proof fn lemma_intra_plan(
    verb: Verb,
    path: Seq<char>,
    lines: Seq<Seq<u8>>,
    from: int,
    to: int,
    place: int,
)
    requires
        proper_span(lines, from, to),
        0 <= place <= lines.len(),
        place < from || place >= to,
    ensures
        relocates_within(
            verb,
            path,
            lines,
            from,
            to,
            place,
            relocated_start(verb, lines, from, to, place) - 1,
            intra_plan(verb, path, lines, from, to, place),
        ),
{
    let after = relocated(verb, lines, from, to, place);
    let start = relocated_start(verb, lines, from, to, place);
    let size = (to - from + 1) as nat;
    lemma_received(lines, place, lines, from, to);
    lemma_carried(lines, from, to, place);
    file_is_read_back(verb, lines, from, to, place);
    lemma_valid_moved(lines, from, to, place);
    lemma_valid_with_block(lines, place, lines, from, to);
    lemma_in_file(verb, lines, from, to, place);
    let head = summary_of(verb, size, path, start - 1) + "\n"@;
    views_show_a_window(head, after, start, start + (to - from));
}

/// The block of a relocation within a file stands in the file.
proof fn lemma_in_file(verb: Verb, lines: Seq<Seq<u8>>, from: int, to: int, place: int)
    requires
        proper_span(lines, from, to),
        0 <= place <= lines.len(),
        place < from || place >= to,
    ensures
        ({
            let start = relocated_start(verb, lines, from, to, place);
            1 <= start && start + (to - from) <= relocated(verb, lines, from, to, place).len()
        }),
{
    reveal(received);
    reveal(carried);
    lemma_received(lines, place, lines, from, to);
    lemma_carried(lines, from, to, place);
    let after = relocated(verb, lines, from, to, place);
    let first = relocated_start(verb, lines, from, to, place) - 1;
    if verb == Verb::Move && place != from - 1 && place != to {
        let tail = choose|tail: Seq<Seq<u8>>|
            #[trigger] carried_above(after, lines, from, to, place, first, tail);
        assert(carried_above(after, lines, from, to, place, first, tail));
    }
}

#[verifier::rlimit(30)]
proof fn lemma_cross_plan(
    verb: Verb,
    path: Seq<char>,
    lines: Seq<Seq<u8>>,
    from: int,
    to: int,
    other: Seq<char>,
    other_lines: Seq<Seq<u8>>,
    place: int,
)
    requires
        proper_span(lines, from, to),
        file_lines(other_lines),
        valid_lines(other_lines),
        0 <= place <= other_lines.len(),
    ensures
        relocates_into(
            verb,
            path,
            lines,
            from,
            to,
            other,
            other_lines,
            place,
            block_start(other_lines, place, lines, from) - 1,
            cross_plan(verb, path, lines, from, to, other, other_lines, place),
        ),
{
    let after = with_block(other_lines, place, lines, from, to);
    let start = block_start(other_lines, place, lines, from);
    let rest = tidied(lines, from, to);
    let size = (to - from + 1) as nat;
    lemma_received(other_lines, place, lines, from, to);
    lemma_given_up(lines, from, to);
    target_is_read_back(other_lines, place, lines, from, to);
    source_is_read_back(lines, from, to);
    lemma_valid_with_block(other_lines, place, lines, from, to);
    lemma_valid_tidied(lines, from, to);
    lemma_other_file(other_lines, place, lines, from, to);
    lemma_cross_output(verb, path, from, to, other, after, rest, start);
}

/// The block of a relocation into another file stands in that file.
proof fn lemma_other_file(
    target: Seq<Seq<u8>>,
    place: int,
    lines: Seq<Seq<u8>>,
    from: int,
    to: int,
)
    requires
        proper_span(lines, from, to),
        0 <= place <= target.len(),
    ensures
        ({
            let start = block_start(target, place, lines, from);
            1 <= start && start + (to - from) <= with_block(target, place, lines, from, to).len()
        }),
{
    reveal(received);
    lemma_received(target, place, lines, from, to);
}

/// What a relocation into another file prints, given the two files after it.
proof fn lemma_cross_output(
    verb: Verb,
    path: Seq<char>,
    from: int,
    to: int,
    other: Seq<char>,
    after: Seq<Seq<u8>>,
    rest: Seq<Seq<u8>>,
    start: int,
)
    requires
        1 <= from <= to,
        valid_lines(after),
        valid_lines(rest),
        1 <= start,
        start + (to - from) <= after.len(),
    ensures
        ({
            let size = (to - from + 1) as nat;
            let summary = summary_of(verb, size, other, start - 1) + " (from "@ + path + ":"@
                + decimal_text(from as nat) + "-"@ + decimal_text(to as nat) + ")\n"@;
            let view = other + ":\n"@ + window(after, start, start - 1 + size);
            &&& with_affected(summary + other + ":\n"@, after, start, start + (to - from))
                == summary + view
            &&& with_seam(
                with_affected(
                    summary + "\n"@ + other + ":\n"@,
                    after,
                    start,
                    start + (to - from),
                ) + "\n"@ + path + ":  ("@ + decimal_text(size) + " "@ + line_word(size)
                    + " removed at "@ + decimal_text(from as nat) + ")\n"@,
                rest,
                from,
            ) == summary + "\n"@ + view + "\n"@ + path + ":  ("@ + decimal_text(size) + " "@
                + line_word(size) + " removed at "@ + decimal_text(from as nat) + ")\n"@
                + seam_window(rest, from)
        }),
{
    let size = (to - from + 1) as nat;
    let last = start + (to - from);
    let summary = summary_of(verb, size, other, start - 1) + " (from "@ + path + ":"@
        + decimal_text(from as nat) + "-"@ + decimal_text(to as nat) + ")\n"@;
    let shown = window(after, start, last);
    views_show_a_window(summary + "\n"@ + other + ":\n"@, after, start, last);
    views_show_a_window(summary + other + ":\n"@, after, start, last);
    lemma_regrouped(summary + "\n"@, other, ":\n"@, shown);
    lemma_regrouped(summary, other, ":\n"@, shown);
    let next = summary + "\n"@ + other + ":\n"@ + shown + "\n"@ + path + ":  ("@ + decimal_text(
        size,
    ) + " "@ + line_word(size) + " removed at "@ + decimal_text(from as nat) + ")\n"@;
    seams_show_a_window(next, rest, from);
}

proof fn lemma_regrouped(a: Seq<char>, b: Seq<char>, c: Seq<char>, d: Seq<char>)
    ensures
        a + b + c + d == a + (b + c + d),
{
    assert(a + b + c + d =~= a + (b + c + d));
}

/// The lines that a call resolves to are the ones that it names.
proof fn lemma_names(
    args: OpArgs,
    lines: Seq<Seq<u8>>,
    other: Option<(Seq<char>, Seq<Seq<u8>>)>,
)
    requires
        contexts(args) is Some,
        ends_resolve(args, lines, (contexts(args)->0).from, (contexts(args)->0).to),
    ensures
        names_line(
            lines,
            span_start(args, lines, (contexts(args)->0).from),
            args.from,
            args.from_guard,
            args.from_context@,
        ),
        names_line(
            lines,
            span_end(args, lines, (contexts(args)->0).to),
            args.to,
            args.to_guard,
            args.to_context@,
        ),
        dest_of(args, lines, other, (contexts(args)->0).dest) is Ok && args.before != args.after
            ==> names_place(
            match other {
                Some((_, dest_lines)) => dest_lines,
                None => lines,
            },
            place_of(args, lines, other, (contexts(args)->0).dest),
            args,
        ),
{
    let known = contexts(args)->0;
    let from = span_start(args, lines, known.from);
    let to = span_end(args, lines, known.to);
    lemma_named(
        lines,
        args.file@,
        Role::From,
        args.from,
        args.from_guard,
        args.from_context@,
        known.from,
        from as nat,
    );
    assert(names_with(lines, from, args.from, args.from_guard, args.from_context@, known.from));
    lemma_named(
        lines,
        args.file@,
        Role::To,
        args.to,
        args.to_guard,
        args.to_context@,
        known.to,
        to as nat,
    );
    assert(names_with(lines, to, args.to, args.to_guard, args.to_context@, known.to));
    let found = dest_of(args, lines, other, known.dest);
    if found is Ok && args.before != args.after {
        all_flags_are_read(texts(args.dest_context@), Role::Dest, known.dest);
        if args.dest != Some(0usize) {
            let (path, file) = match other {
                Some((path, dest_lines)) => (path, dest_lines),
                None => (args.file@, lines),
            };
            let num = found->Ok_0;
            lemma_named(
                file,
                path,
                Role::Dest,
                args.dest,
                args.dest_guard,
                args.dest_context@,
                known.dest,
                num,
            );
            assert(names_with(
                file,
                num as int,
                args.dest,
                args.dest_guard,
                args.dest_context@,
                known.dest,
            ));
            lemma_resolution_in_file(
                file,
                path,
                Role::Dest,
                number_view(args.dest),
                args.dest_guard->0@,
                known.dest,
            );
        } else {
            assert(texts(args.dest_context@).len() == args.dest_context@.len());
        }
    }
}

/// A call that is carried out does what it asks for: with the lines that it
/// names, at the place that it names, and with nothing else.
#[verifier::rlimit(60)]
pub proof fn calls_do_what_they_ask_for(
    verb: Verb,
    args: OpArgs,
    source: FileState,
    dest: Option<DestState>,
    plan: PlanView,
)
    requires
        call_step(verb, args, Some(source), dest) == Ok::<StepView, ErrorView>(
            StepView::Apply(plan),
        ),
    ensures
        exists|from: int, to: int, place: int, first: int|
            #[trigger] is_asked_for(verb, args, source, dest, plan, from, to, place, first),
{
    calls_come_to_plans(verb, args, source, dest, plan);
    let lines = loaded(args.file@, false, source)->Ok_0;
    let known = contexts(args)->0;
    let from = span_start(args, lines, known.from);
    let to = span_end(args, lines, known.to);
    let other = other_of(args, dest);
    let place = place_of(args, lines, other, known.dest);
    lemma_names(args, lines, other);
    assert(is_text(source) && lines == lines_in(source));
    if args.force {
        lemma_delete_plan(args.file@, lines, from, to);
        assert(is_asked_for(verb, args, source, dest, plan, from, to, place, 0));
    } else {
        match other {
            Some((path, dest_lines)) => {
                let first = block_start(dest_lines, place, lines, from) - 1;
                lemma_cross_plan(verb, args.file@, lines, from, to, path, dest_lines, place);
                assert(is_asked_for(verb, args, source, dest, plan, from, to, place, first));
            },
            None => {
                let first = relocated_start(verb, lines, from, to, place) - 1;
                lemma_intra_plan(verb, args.file@, lines, from, to, place);
                assert(is_asked_for(verb, args, source, dest, plan, from, to, place, first));
            },
        }
    }
}

/// A file that received a block still holds every line that it held, each in
/// its place above the block or below it, and it holds every line of the block;
/// all else is blank. The blank lines around the block are as many as around the
/// span, or as many as there were, whichever are more.
pub proof fn received_files_hold_every_line(
    after: Seq<Seq<u8>>,
    target: Seq<Seq<u8>>,
    place: int,
    lines: Seq<Seq<u8>>,
    from: int,
    to: int,
    first: int,
)
    requires
        received(after, target, place, lines, from, to, first),
        0 <= place <= target.len(),
        1 <= from <= to <= lines.len(),
    ensures
        ({
            let size = to - from + 1;
            let next = after.len() - (target.len() - place);
            &&& 0 <= place <= first
            &&& first + size <= next
            &&& forall|i: int|
                0 <= i < place ==> #[trigger] after[i] == target[i] || (i == place - 1
                    && !ends_line(target[i]) && after[i] == target[i].push(10))
            &&& forall|i: int| place <= i < first ==> blank(#[trigger] after[i])
            &&& forall|i: int|
                first <= i < first + size - 1 ==> #[trigger] after[i] == lines[i - first + from - 1]
            &&& ({
                let last = lines[to - 1];
                let landed = after[first + size - 1];
                landed == last || landed == last.push(10) || landed == logical(last)
            })
            &&& forall|i: int| first + size <= i < next ==> blank(#[trigger] after[i])
            &&& forall|i: int|
                next <= i < after.len() ==> #[trigger] after[i] == target[i - next + place]
            &&& place > 0 ==> run_above(after, first) == wider(
                run_above(lines, from - 1),
                run_above(target, place),
            )
            &&& place < target.len() ==> run_below(after, first + size) == wider(
                run_below(lines, to),
                run_below(target, place),
            )
        }),
{
    reveal(received);
    let head = target.take(place);
    let tail = target.skip(place);
    let block = lines.subrange(from - 1, to);
    let newline = newline_of(target);
    lemma_newline_blank(target);
    lemma_head_run(target, place);
    let top = lf_ended(head);
    let middle = settled_in(block, tail.len() > 0, file_end(target));
    let size = to - from + 1;
    let next = after.len() - tail.len();
    assert(top.len() == place);
    assert(middle.len() == size);
    let lead = copies(newline, (first - place) as nat);
    let trail = copies(newline, (next - first - size) as nat);
    assert(after == top + lead + middle + trail + tail);
    assert forall|i: int| 0 <= i < place implies #[trigger] after[i] == target[i] || (i == place - 1
        && !ends_line(target[i]) && after[i] == target[i].push(10)) by {
        assert(after[i] == top[i]);
        assert(head[i] == target[i]);
    }
    assert forall|i: int| first <= i < first + size - 1 implies #[trigger] after[i] == lines[i
        - first + from - 1] by {
        assert(after[i] == middle[i - first]);
        assert(middle[i - first] == block[i - first]);
    }
    assert(after[first + size - 1] == middle[size - 1]);
    assert(block.last() == lines[to - 1]);
}

/// A guard names one line at most.
pub proof fn names_are_unique(
    lines: Seq<Seq<u8>>,
    one: int,
    other: int,
    number: Option<usize>,
    guard: Option<String>,
    flags: Seq<String>,
)
    requires
        names_line(lines, one, number, guard, flags),
        names_line(lines, other, number, guard, flags),
    ensures
        one == other,
{
    let a = choose|a: Seq<ContextView>| #[trigger] names_with(lines, one, number, guard, flags, a);
    let b = choose|b: Seq<ContextView>|
        #[trigger] names_with(lines, other, number, guard, flags, b);
    all_flags_are_read(texts(flags), Role::From, a);
    all_flags_are_read(texts(flags), Role::From, b);
    assert(a == b);
    assert(fits(lines, one, guard->0@, a));
}

} // verus!
