//! Calls: what is read, what is written, and when nothing is.

use vstd::prelude::*;
use vstd::utf8::{
    encode_utf8, encode_utf8_valid_utf8, is_char_boundary_iff_not_is_continuation_byte,
    is_continuation_byte, valid_utf8, valid_utf8_concat, valid_utf8_split,
};

use crate::anchor::{number_view, parsed_flags, ContextView};
use crate::error::{exit_code, failure_count, ErrorView, OutcomeView, Role};
use crate::laws::advice::{
    context_list, ends_with_cr, nearest_is_decisive, suggested_anchors_resolve, unique_in,
};
use crate::laws::coordinates::neighbor_flags_read_back;
use crate::laws::files::{
    file_lines, lines_are_read_back, lines_of_text_are_text, lines_read_are_lines,
    text_lines_make_text, valid_lines,
};
use crate::laws::seams::{
    ending_is_that_of_last_line, ends_with_newline, giving_up_keeps_bytes, insertion_joins_nothing,
    insertion_keeps_bytes, insertion_keeps_ending, lemma_block_unjoined, lemma_tidied,
    lemma_unended, move_kept, moving_joins_nothing, moving_keeps_bytes, moving_keeps_ending,
    rest_kept, same_but_terminator, tidying_joins_nothing, tidying_keeps_ending,
};
use crate::lines::{flatten, logical, split_lines, terminated, with_terminator, CR, LF};
use crate::numeral::signed_text;
use crate::ops::{
    applied, block_of, block_start, call_step, cross_plan, delete_plan, deletion, dest_resolution,
    from_resolution, in_place, intra_plan, last_failure, lemma_resolution_in_file,
    lemma_shifted_gap, loaded, moved, narrowed_by, outcome_of, receiving, relocated, relocation,
    shifted_gap, sourced, staying, tidied, to_resolution, with_block, DestState, FileState, OpArgs,
    PlanView, StepView, Verb,
};
use crate::search::{occurs_at, texts};
use crate::splice::{
    ended, ending, gap_of, landed, leading_fill, newline_of, repeated, run_above, run_below,
    set_in, terminate_last, trailing_fill, unended, uses_crlf, without,
};
use crate::suggest::{anchor_of, end_anchors, reach};
use crate::text::{logical_lines, option_text};

verus! {

/// Once the source is given it is not asked for again, and with both files
/// given nothing is. The destination is asked for only where a call names one
/// and is not a deletion.
pub proof fn reading_comes_to_an_end(
    verb: Verb,
    args: OpArgs,
    source: FileState,
    dest: Option<DestState>,
)
    ensures
        call_step(verb, args, Some(source), dest) != Ok::<StepView, ErrorView>(
            StepView::ReadSource,
        ),
        call_step(verb, args, Some(source), dest) == Ok::<StepView, ErrorView>(StepView::ReadDest)
            ==> dest is None && args.dest_file is Some && !args.force,
{
}

/// A file that does not exist is refused, as the source and as the destination:
/// none is ever created.
pub proof fn missing_files_are_refused(
    verb: Verb,
    args: OpArgs,
    source: FileState,
    dest: Option<DestState>,
)
    requires
        source is Missing || (args.dest_file is Some && !args.force && dest == Some(
            DestState::Other(FileState::Missing),
        )),
    ensures
        call_step(verb, args, Some(source), dest) is Err,
{
}

/// The neighbor anchors of a call.
#[verifier::ext_equal]
pub struct Contexts {
    pub from: Seq<ContextView>,
    pub to: Seq<ContextView>,
    pub dest: Seq<ContextView>,
}

/// The neighbor anchors of a call, where all of them can be read.
pub open spec fn contexts(args: OpArgs) -> Option<Contexts> {
    match (
        parsed_flags(texts(args.from_context@), Role::From),
        parsed_flags(texts(args.to_context@), Role::To),
        parsed_flags(texts(args.dest_context@), Role::Dest),
    ) {
        (Ok(from), Ok(to), Ok(dest)) => Some(Contexts { from, to, dest }),
        _ => None,
    }
}

/// Both ends of the span resolve, the start not after the end.
pub open spec fn ends_resolve(
    args: OpArgs,
    lines: Seq<Seq<u8>>,
    from_ctx: Seq<ContextView>,
    to_ctx: Seq<ContextView>,
) -> bool {
    let from = from_resolution(lines, args, from_ctx);
    let to = to_resolution(lines, args, to_ctx);
    from is Ok && to is Ok && from->Ok_0 <= to->Ok_0
}

/// Something is done only where both ends of the span resolve, the start not
/// after the end, in a source that could be read. Forcing a deletion does not
/// soften this.
#[verifier::rlimit(30)]
pub proof fn plans_rest_on_resolved_ends(
    verb: Verb,
    args: OpArgs,
    source: FileState,
    dest: Option<DestState>,
)
    requires
        call_step(verb, args, Some(source), dest) matches Ok(StepView::Apply(_)),
    ensures
        contexts(args) is Some,
        loaded(args.file@, false, source) is Ok,
        ends_resolve(
            args,
            loaded(args.file@, false, source)->Ok_0,
            (contexts(args)->0).from,
            (contexts(args)->0).to,
        ),
{
    let lines = loaded(args.file@, false, source)->Ok_0;
    let Contexts { from: from_ctx, to: to_ctx, dest: dest_ctx } = contexts(args)->0;
    lemma_deletion_ends(verb, args, lines, from_ctx, to_ctx);
    lemma_relocation_ends(verb, args, lines, other_of(args, dest), from_ctx, to_ctx, dest_ctx);
}

proof fn lemma_deletion_ends(
    verb: Verb,
    args: OpArgs,
    lines: Seq<Seq<u8>>,
    from_ctx: Seq<ContextView>,
    to_ctx: Seq<ContextView>,
)
    ensures
        deletion(verb, args, lines, from_ctx, to_ctx) is Ok ==> ends_resolve(
            args,
            lines,
            from_ctx,
            to_ctx,
        ),
{
    lemma_two_outcomes(
        seq![
            outcome_of(Role::From, from_resolution(lines, args, from_ctx)),
            outcome_of(Role::To, to_resolution(lines, args, to_ctx)),
        ],
    );
}

proof fn lemma_relocation_ends(
    verb: Verb,
    args: OpArgs,
    lines: Seq<Seq<u8>>,
    other: Option<(Seq<char>, Seq<Seq<u8>>)>,
    from_ctx: Seq<ContextView>,
    to_ctx: Seq<ContextView>,
    dest_ctx: Seq<ContextView>,
)
    ensures
        relocation(verb, args, lines, other, from_ctx, to_ctx, dest_ctx) is Ok ==> ends_resolve(
            args,
            lines,
            from_ctx,
            to_ctx,
        ) && dest_of(args, lines, other, dest_ctx) is Ok,
{
    lemma_three_outcomes(
        seq![
            outcome_of(Role::From, from_resolution(lines, args, from_ctx)),
            outcome_of(Role::To, to_resolution(lines, args, to_ctx)),
            outcome_of(Role::Dest, dest_of(args, lines, other, dest_ctx)),
        ],
    );
}

/// The destination file of a call and its lines, where that is not the source.
pub open spec fn other_of(args: OpArgs, dest: Option<DestState>) -> Option<
    (Seq<char>, Seq<Seq<u8>>),
> {
    match (args.dest_file, dest) {
        (Some(path), Some(DestState::Other(file))) => match loaded(path@, true, file) {
            Ok(lines) => Some((path@, lines)),
            Err(_) => None,
        },
        _ => None,
    }
}

/// The call names a destination file that is not the source.
pub open spec fn names_other(args: OpArgs, dest: Option<DestState>) -> bool {
    args.dest_file is Some && dest is Some && dest->0 is Other
}

/// What the destination of a call resolves to.
pub open spec fn dest_of(
    args: OpArgs,
    lines: Seq<Seq<u8>>,
    other: Option<(Seq<char>, Seq<Seq<u8>>)>,
    context: Seq<ContextView>,
) -> Result<nat, ErrorView> {
    match other {
        Some((path, dest_lines)) => dest_resolution(
            dest_lines,
            path,
            args,
            context,
            args.before,
            number_view(args.dest),
        ),
        None => dest_resolution(
            lines,
            args.file@,
            args,
            context,
            args.before,
            number_view(args.dest),
        ),
    }
}

pub proof fn lemma_two_outcomes(outcomes: Seq<OutcomeView>)
    requires
        outcomes.len() == 2,
    ensures
        failure_count(outcomes) == bit(outcomes[0].result is Err) + bit(outcomes[1].result is Err),
{
    reveal_with_fuel(failure_count, 3);
    assert(outcomes.drop_last().last() == outcomes[0]);
}

pub proof fn lemma_three_outcomes(outcomes: Seq<OutcomeView>)
    requires
        outcomes.len() == 3,
    ensures
        failure_count(outcomes) == bit(outcomes[0].result is Err) + bit(outcomes[1].result is Err)
            + bit(outcomes[2].result is Err),
{
    reveal_with_fuel(failure_count, 4);
    assert(outcomes.drop_last().last() == outcomes[1]);
    assert(outcomes.drop_last().drop_last().last() == outcomes[0]);
}

/// One for yes, zero for no.
pub open spec fn bit(yes: bool) -> nat {
    if yes {
        1
    } else {
        0
    }
}

/// Two or more coordinates that fail are reported together, with every
/// coordinate of the call, the resolved ones too; one that fails alone is
/// reported by itself. A destination flag that makes no sense is reported
/// before either.
pub proof fn failures_are_reported_together(
    verb: Verb,
    args: OpArgs,
    lines: Seq<Seq<u8>>,
    other: Option<(Seq<char>, Seq<Seq<u8>>)>,
    from_ctx: Seq<ContextView>,
    to_ctx: Seq<ContextView>,
    dest_ctx: Seq<ContextView>,
)
    ensures
        ({
            let from = from_resolution(lines, args, from_ctx);
            let to = to_resolution(lines, args, to_ctx);
            let dest = dest_of(args, lines, other, dest_ctx);
            let count = bit(from is Err) + bit(to is Err) + bit(dest is Err);
            let report = relocation(verb, args, lines, other, from_ctx, to_ctx, dest_ctx);
            if dest is Err && exit_code(dest->Err_0) == 2 {
                report == Err::<PlanView, ErrorView>(dest->Err_0)
            } else if count >= 2 {
                report == Err::<PlanView, ErrorView>(
                    ErrorView::Multi(
                        seq![
                            outcome_of(Role::From, from),
                            outcome_of(Role::To, to),
                            outcome_of(Role::Dest, dest),
                        ],
                    ),
                )
            } else if from is Err {
                report == Err::<PlanView, ErrorView>(from->Err_0)
            } else if to is Err {
                report == Err::<PlanView, ErrorView>(to->Err_0)
            } else if dest is Err {
                report == Err::<PlanView, ErrorView>(dest->Err_0)
            } else {
                true
            }
        }),
{
    let from = from_resolution(lines, args, from_ctx);
    let to = to_resolution(lines, args, to_ctx);
    let dest = dest_of(args, lines, other, dest_ctx);
    let outcomes = seq![
        outcome_of(Role::From, from),
        outcome_of(Role::To, to),
        outcome_of(Role::Dest, dest),
    ];
    lemma_three_outcomes(outcomes);
    reveal_with_fuel(last_failure, 4);
    assert(outcomes.drop_last().last() == outcomes[1]);
    assert(outcomes.drop_last().drop_last().last() == outcomes[0]);
}

/// A deletion is asked for by force alone: with a destination, a position, or
/// as a copy it is refused as a misuse, and without force a call without a
/// destination is.
pub proof fn deletion_needs_force_alone(
    verb: Verb,
    args: OpArgs,
    lines: Seq<Seq<u8>>,
    dest: Option<DestState>,
    from_ctx: Seq<ContextView>,
    to_ctx: Seq<ContextView>,
    dest_ctx: Seq<ContextView>,
)
    requires
        ({
            ||| args.force && (verb == Verb::Copy || args.dest is Some || args.dest_guard is Some
                || args.dest_context@.len() > 0 || args.dest_file is Some || args.before
                || args.after)
            ||| !args.force && args.dest is None && args.dest_guard is None
        }),
    ensures
        ({
            let report = sourced(verb, args, lines, dest, from_ctx, to_ctx, dest_ctx);
            report is Err && exit_code(report->Err_0) == 2
        }),
{
}

/// Within one file a destination inside the span is refused.
pub proof fn destination_inside_span_is_refused(
    verb: Verb,
    args: OpArgs,
    lines: Seq<Seq<u8>>,
    from_ctx: Seq<ContextView>,
    to_ctx: Seq<ContextView>,
    dest_ctx: Seq<ContextView>,
    from: nat,
    to: nat,
    dest: nat,
)
    requires
        from_resolution(lines, args, from_ctx) == Ok::<nat, ErrorView>(from),
        to_resolution(lines, args, to_ctx) == Ok::<nat, ErrorView>(to),
        dest_of(args, lines, None, dest_ctx) == Ok::<nat, ErrorView>(dest),
        1 <= from <= dest <= to,
    ensures
        relocation(verb, args, lines, None, from_ctx, to_ctx, dest_ctx) == Err::<
            PlanView,
            ErrorView,
        >(ErrorView::DestInSpan { dest, from, to }),
{
    let outcomes = seq![
        outcome_of(Role::From, Ok(from)),
        outcome_of(Role::To, Ok(to)),
        outcome_of(Role::Dest, Ok(dest)),
    ];
    lemma_three_outcomes(outcomes);
}

/// A relocated block stands in its file, at the lines that the call reports, as
/// it stood in the source: every line byte for byte, but for the terminator of
/// the last. That line must hold something, as one that a guard was found on
/// does.
pub proof fn block_lands_whole(
    target: Seq<Seq<u8>>,
    gap: int,
    lines: Seq<Seq<u8>>,
    from: int,
    to: int,
)
    requires
        0 <= gap <= target.len(),
        1 <= from <= to <= lines.len(),
        logical(lines[to - 1]).len() > 0,
    ensures
        ({
            let after = with_block(target, gap, lines, from, to);
            let first = block_start(target, gap, lines, from);
            let last = first + (to - from);
            &&& 1 <= first && last <= after.len()
            &&& forall|num: int|
                first <= num < last ==> #[trigger] after[num - 1] == lines[num - first + from - 1]
            &&& same_but_terminator(after[last - 1], lines[to - 1])
        }),
{
    let after = with_block(target, gap, lines, from, to);
    let block = block_of(lines, from, to);
    let middle = landed(block, gap == target.len(), ending(target));
    let first = block_start(target, gap, lines, from);
    insertion_keeps_bytes(
        target,
        gap,
        block,
        run_above(lines, from - 1),
        run_below(lines, to),
    );
    assert(block.last() == lines[to - 1]);
    assert(middle.len() == block.len());
    assert forall|num: int| first <= num <= first + (to - from) implies #[trigger] after[num - 1]
        == middle[num - first] by {
    }
    assert forall|num: int| first <= num < first + (to - from) implies #[trigger] after[num - 1]
        == lines[num - first + from - 1] by {
        assert(after[num - 1] == middle[num - first]);
        assert(middle[num - first] == block[num - first]);
    }
}

/// A file that a block was set into is read back line by line as it was laid
/// out.
pub proof fn target_is_read_back(
    target: Seq<Seq<u8>>,
    gap: int,
    lines: Seq<Seq<u8>>,
    from: int,
    to: int,
)
    requires
        file_lines(target),
        file_lines(lines),
        0 <= gap <= target.len(),
        1 <= from <= to <= lines.len(),
    ensures
        file_lines(with_block(target, gap, lines, from, to)),
        split_lines(flatten(with_block(target, gap, lines, from, to))) == with_block(
            target,
            gap,
            lines,
            from,
            to,
        ),
{
    lemma_block_unjoined(lines, from, to);
    insertion_joins_nothing(
        target,
        gap,
        block_of(lines, from, to),
        run_above(lines, from - 1),
        run_below(lines, to),
    );
    lines_are_read_back(with_block(target, gap, lines, from, to));
}

/// A file that gave up a block is read back line by line as it was laid out.
pub proof fn source_is_read_back(lines: Seq<Seq<u8>>, from: int, to: int)
    requires
        file_lines(lines),
        1 <= from <= to <= lines.len(),
    ensures
        file_lines(tidied(lines, from, to)),
        split_lines(flatten(tidied(lines, from, to))) == tidied(lines, from, to),
{
    tidying_joins_nothing(lines, from, to);
    lines_are_read_back(tidied(lines, from, to));
}

/// A file that a block was moved or copied within is read back line by line as
/// it was laid out.
pub proof fn file_is_read_back(verb: Verb, lines: Seq<Seq<u8>>, from: int, to: int, gap: int)
    requires
        file_lines(lines),
        1 <= from <= to <= lines.len(),
        0 <= gap <= lines.len(),
        gap < from || gap >= to,
    ensures
        file_lines(relocated(verb, lines, from, to, gap)),
        split_lines(flatten(relocated(verb, lines, from, to, gap))) == relocated(
            verb,
            lines,
            from,
            to,
            gap,
        ),
{
    moving_joins_nothing(lines, from, to, gap);
    target_is_read_back(lines, gap, lines, from, to);
    lines_are_read_back(relocated(verb, lines, from, to, gap));
}

/// A destination file that was not empty keeps its trailing-newline state.
pub proof fn target_keeps_final_newline(
    target: Seq<Seq<u8>>,
    gap: int,
    lines: Seq<Seq<u8>>,
    from: int,
    to: int,
)
    requires
        file_lines(target),
        file_lines(lines),
        0 <= gap <= target.len(),
        1 <= from <= to <= lines.len(),
        target.len() > 0,
    ensures
        ends_with_newline(flatten(with_block(target, gap, lines, from, to))) == ends_with_newline(
            flatten(target),
        ),
{
    lemma_block_unjoined(lines, from, to);
    target_is_read_back(target, gap, lines, from, to);
    insertion_keeps_ending(
        target,
        gap,
        block_of(lines, from, to),
        run_above(lines, from - 1),
        run_below(lines, to),
    );
    ending_is_that_of_last_line(target);
    ending_is_that_of_last_line(with_block(target, gap, lines, from, to));
}

/// A source keeps its trailing-newline state when it gives up a block. Left out
/// is a file that ended with a newline and gave up all its lines.
pub proof fn source_keeps_final_newline(lines: Seq<Seq<u8>>, from: int, to: int)
    requires
        file_lines(lines),
        1 <= from <= to <= lines.len(),
        to - from + 1 < lines.len() || !terminated(lines.last()),
    ensures
        ends_with_newline(flatten(tidied(lines, from, to))) == ends_with_newline(flatten(lines)),
{
    source_is_read_back(lines, from, to);
    tidying_keeps_ending(lines, from, to);
    ending_is_that_of_last_line(lines);
    ending_is_that_of_last_line(tidied(lines, from, to));
}

/// A file keeps its trailing-newline state when a block moves or is copied
/// within it. The last line of the block must hold something, as one that a
/// guard was found on does.
pub proof fn file_keeps_final_newline(
    verb: Verb,
    lines: Seq<Seq<u8>>,
    from: int,
    to: int,
    gap: int,
)
    requires
        file_lines(lines),
        1 <= from <= to <= lines.len(),
        logical(lines[to - 1]).len() > 0,
        0 <= gap <= lines.len(),
        gap < from || gap >= to,
    ensures
        ends_with_newline(flatten(relocated(verb, lines, from, to, gap))) == ends_with_newline(
            flatten(lines),
        ),
{
    target_keeps_final_newline(lines, gap, lines, from, to);
    moving_keeps_ending(lines, from, to, gap);
    file_is_read_back(verb, lines, from, to, gap);
    ending_is_that_of_last_line(lines);
    ending_is_that_of_last_line(relocated(verb, lines, from, to, gap));
}

proof fn lemma_valid_push(line: Seq<u8>)
    requires
        valid_utf8(line),
    ensures
        valid_utf8(with_terminator(line)),
{
    if !terminated(line) {
        let end = seq![LF];
        assert(valid_utf8(end)) by {
            reveal_with_fuel(valid_utf8, 2);
        }
        valid_utf8_concat(line, end);
        assert(line + end == line.push(LF));
    }
}

proof fn lemma_valid_drop_last(line: Seq<u8>)
    requires
        valid_utf8(line),
        line.len() > 0,
        line.last() < 0x80,
    ensures
        valid_utf8(line.drop_last()),
{
    let at = line.len() - 1;
    assert(!is_continuation_byte(line[at]));
    is_char_boundary_iff_not_is_continuation_byte(line, at);
    valid_utf8_split(line, at);
    assert(line.subrange(0, at) == line.drop_last());
}

pub proof fn lemma_valid_logical(line: Seq<u8>)
    requires
        valid_utf8(line),
    ensures
        valid_utf8(logical(line)),
{
    if terminated(line) {
        lemma_valid_drop_last(line);
        let short = line.drop_last();
        if line.len() > 1 && line[line.len() - 2] == CR {
            assert(short.last() == CR);
            lemma_valid_drop_last(short);
            assert(logical(line) == short.drop_last());
        } else {
            assert(logical(line) == short);
        }
    } else {
        assert(logical(line) == line);
    }
}

proof fn lemma_valid_add(a: Seq<Seq<u8>>, b: Seq<Seq<u8>>)
    requires
        valid_lines(a),
        valid_lines(b),
    ensures
        valid_lines(a + b),
{
    let all = a + b;
    assert forall|i: int| 0 <= i < all.len() implies valid_utf8(#[trigger] all[i]) by {
        if i < a.len() {
            assert(all[i] == a[i]);
        } else {
            assert(all[i] == b[i - a.len()]);
        }
    }
}

proof fn lemma_valid_part(lines: Seq<Seq<u8>>, from: int, to: int)
    requires
        valid_lines(lines),
        0 <= from <= to <= lines.len(),
    ensures
        valid_lines(lines.subrange(from, to)),
{
    let part = lines.subrange(from, to);
    assert forall|i: int| 0 <= i < part.len() implies valid_utf8(#[trigger] part[i]) by {
        assert(part[i] == lines[from + i]);
    }
}

proof fn lemma_valid_ends(lines: Seq<Seq<u8>>)
    requires
        valid_lines(lines),
    ensures
        valid_lines(terminate_last(lines)),
        valid_lines(unended(lines)),
{
    if lines.len() > 0 {
        lemma_valid_push(lines[lines.len() - 1]);
    }
    lemma_unended(lines);
    let cut = unended(lines);
    assert forall|i: int| 0 <= i < cut.len() implies valid_utf8(#[trigger] cut[i]) by {
        lemma_valid_logical(lines[i]);
    }
}

proof fn lemma_valid_newline(lines: Seq<Seq<u8>>)
    ensures
        valid_utf8(newline_of(lines)),
{
    reveal_with_fuel(valid_utf8, 3);
    let line = newline_of(lines);
    if uses_crlf(lines) {
        let rest = vstd::utf8::pop_first_scalar(line);
        assert(rest == seq![LF]);
    }
}

proof fn lemma_valid_without(lines: Seq<Seq<u8>>, from: int, to: int)
    requires
        valid_lines(lines),
        1 <= from <= lines.len(),
        from - 1 <= to <= lines.len(),
    ensures
        valid_lines(without(lines, from, to)),
{
    lemma_valid_part(lines, 0, from - 1);
    lemma_valid_part(lines, to, lines.len() as int);
    assert(lines.subrange(0, from - 1) == lines.take(from - 1));
    assert(lines.subrange(to, lines.len() as int) == lines.skip(to));
    lemma_valid_add(lines.take(from - 1), lines.skip(to));
}

pub proof fn lemma_valid_tidied(lines: Seq<Seq<u8>>, from: int, to: int)
    requires
        valid_lines(lines),
        1 <= from <= to <= lines.len(),
    ensures
        valid_lines(tidied(lines, from, to)),
{
    lemma_tidied(lines, from, to);
    lemma_valid_without(lines, from, to + narrowed_by(lines, from, to));
    lemma_valid_ends(staying(lines, from, to));
}

proof fn lemma_valid_set_in(
    lines: Seq<Seq<u8>>,
    gap: int,
    block: Seq<Seq<u8>>,
    above: nat,
    below: nat,
    end: Option<bool>,
    newline: Seq<u8>,
)
    requires
        valid_lines(lines),
        valid_lines(block),
        0 <= gap <= lines.len(),
        valid_utf8(newline),
    ensures
        valid_lines(set_in(lines, gap, block, above, below, end, newline)),
{
    let head = terminate_last(lines.take(gap));
    let fill = repeated(newline, leading_fill(lines, gap, above));
    let middle = landed(block, gap >= lines.len(), end);
    let lower = repeated(newline, trailing_fill(lines, gap, below));
    let tail = lines.skip(gap);
    lemma_valid_part(lines, 0, gap);
    lemma_valid_part(lines, gap, lines.len() as int);
    assert(lines.subrange(0, gap) == lines.take(gap));
    assert(lines.subrange(gap, lines.len() as int) == lines.skip(gap));
    lemma_valid_ends(lines.take(gap));
    lemma_valid_ends(block);
    lemma_valid_add(head, fill);
    lemma_valid_add(head + fill, middle);
    lemma_valid_add(head + fill + middle, lower);
    lemma_valid_add(head + fill + middle + lower, tail);
}

pub proof fn lemma_valid_with_block(
    target: Seq<Seq<u8>>,
    gap: int,
    lines: Seq<Seq<u8>>,
    from: int,
    to: int,
)
    requires
        valid_lines(target),
        valid_lines(lines),
        0 <= gap <= target.len(),
        1 <= from <= to <= lines.len(),
    ensures
        valid_lines(with_block(target, gap, lines, from, to)),
{
    lemma_valid_part(lines, from - 1, to);
    lemma_valid_newline(target);
    lemma_valid_set_in(
        target,
        gap,
        block_of(lines, from, to),
        run_above(lines, from - 1),
        run_below(lines, to),
        ending(target),
        newline_of(target),
    );
}

pub proof fn lemma_valid_moved(lines: Seq<Seq<u8>>, from: int, to: int, gap: int)
    requires
        valid_lines(lines),
        1 <= from <= to <= lines.len(),
        0 <= gap <= lines.len(),
        gap < from || gap >= to,
    ensures
        valid_lines(moved(lines, from, to, gap)),
{
    let rest = staying(lines, from, to);
    let at = shifted_gap(lines, from, to, gap);
    lemma_shifted_gap(lines, from, to, gap);
    lemma_valid_without(lines, from, to + narrowed_by(lines, from, to));
    lemma_valid_part(rest, 0, at);
    lemma_valid_part(rest, at, rest.len() as int);
    assert(rest.subrange(0, at) == rest.take(at));
    assert(rest.subrange(at, rest.len() as int) == rest.skip(at));
    lemma_valid_ends(rest.skip(at));
    lemma_valid_add(rest.take(at), ended(rest.skip(at), terminated(lines.last())));
    lemma_valid_part(lines, from - 1, to);
    lemma_valid_newline(rest);
    lemma_valid_set_in(
        receiving(lines, from, to, gap),
        at,
        block_of(lines, from, to),
        run_above(lines, from - 1),
        run_below(lines, to),
        Some(terminated(lines.last())),
        newline_of(rest),
    );
}

proof fn lemma_loaded(path: Seq<char>, is_dest: bool, file: FileState)
    ensures
        loaded(path, is_dest, file) matches Ok(lines) ==> file_lines(lines) && valid_lines(lines),
{
    if let FileState::Present(Ok(bytes)) = file {
        lines_read_are_lines(bytes@);
        if valid_utf8(bytes@) {
            lines_of_text_are_text(bytes@);
        }
    }
}

proof fn lemma_ends_bound(
    args: OpArgs,
    lines: Seq<Seq<u8>>,
    from_ctx: Seq<ContextView>,
    to_ctx: Seq<ContextView>,
)
    ensures
        from_resolution(lines, args, from_ctx) matches Ok(num) ==> 1 <= num <= lines.len(),
        to_resolution(lines, args, to_ctx) matches Ok(num) ==> 1 <= num <= lines.len() && logical(
            lines[num - 1],
        ).len() > 0,
{
    lemma_resolution_in_file(
        lines,
        args.file@,
        Role::From,
        number_view(args.from),
        option_text(args.from_guard),
        from_ctx,
    );
    lemma_resolution_in_file(
        lines,
        args.file@,
        Role::To,
        number_view(args.to),
        option_text(args.to_guard),
        to_ctx,
    );
}

proof fn lemma_dest_bound(
    args: OpArgs,
    lines: Seq<Seq<u8>>,
    path: Seq<char>,
    context: Seq<ContextView>,
)
    ensures
        dest_resolution(
            lines,
            path,
            args,
            context,
            args.before,
            number_view(args.dest),
        ) matches Ok(num) ==> num <= lines.len(),
{
    if let Some(guard) = args.dest_guard {
        lemma_resolution_in_file(
            lines,
            path,
            Role::Dest,
            number_view(args.dest),
            guard@,
            context,
        );
    }
}

/// The first line of the span of a call, counted from one.
pub open spec fn span_start(args: OpArgs, lines: Seq<Seq<u8>>, context: Seq<ContextView>) -> int {
    from_resolution(lines, args, context)->Ok_0 as int
}

/// The last line of the span of a call, counted from one.
pub open spec fn span_end(args: OpArgs, lines: Seq<Seq<u8>>, context: Seq<ContextView>) -> int {
    to_resolution(lines, args, context)->Ok_0 as int
}

/// The index in front of which the block of a call lands.
pub open spec fn place_of(
    args: OpArgs,
    lines: Seq<Seq<u8>>,
    other: Option<(Seq<char>, Seq<Seq<u8>>)>,
    context: Seq<ContextView>,
) -> int {
    gap_of(dest_of(args, lines, other, context)->Ok_0, args.before) as int
}

/// `from` to `to` is a span of the lines of a file, and its last line holds
/// something.
pub open spec fn proper_span(lines: Seq<Seq<u8>>, from: int, to: int) -> bool {
    &&& file_lines(lines)
    &&& valid_lines(lines)
    &&& 1 <= from <= to <= lines.len()
    &&& logical(lines[to - 1]).len() > 0
}

/// The plan is that of a relocation of `from` to `to` to index `gap`, which is
/// a place in the file that receives the block, and not inside the block.
pub open spec fn plan_of_relocation(
    verb: Verb,
    path: Seq<char>,
    lines: Seq<Seq<u8>>,
    from: int,
    to: int,
    other: Option<(Seq<char>, Seq<Seq<u8>>)>,
    gap: int,
    plan: PlanView,
) -> bool {
    match other {
        Some((dest_path, dest_lines)) => {
            &&& file_lines(dest_lines)
            &&& valid_lines(dest_lines)
            &&& 0 <= gap <= dest_lines.len()
            &&& plan == cross_plan(verb, path, lines, from, to, dest_path, dest_lines, gap)
        },
        None => {
            &&& 0 <= gap <= lines.len()
            &&& gap < from || gap >= to
            &&& plan == intra_plan(verb, path, lines, from, to, gap)
        },
    }
}

proof fn lemma_deletion_plan(
    verb: Verb,
    args: OpArgs,
    lines: Seq<Seq<u8>>,
    from_ctx: Seq<ContextView>,
    to_ctx: Seq<ContextView>,
)
    requires
        file_lines(lines),
        valid_lines(lines),
    ensures
        deletion(verb, args, lines, from_ctx, to_ctx) matches Ok(plan) ==> {
            let from = span_start(args, lines, from_ctx);
            let to = span_end(args, lines, to_ctx);
            proper_span(lines, from, to) && plan == delete_plan(args.file@, lines, from, to)
        },
{
    lemma_ends_bound(args, lines, from_ctx, to_ctx);
    lemma_deletion_ends(verb, args, lines, from_ctx, to_ctx);
}

proof fn lemma_relocation_plan(
    verb: Verb,
    args: OpArgs,
    lines: Seq<Seq<u8>>,
    other: Option<(Seq<char>, Seq<Seq<u8>>)>,
    from_ctx: Seq<ContextView>,
    to_ctx: Seq<ContextView>,
    dest_ctx: Seq<ContextView>,
)
    requires
        file_lines(lines),
        valid_lines(lines),
        other matches Some((_, dest_lines)) ==> file_lines(dest_lines) && valid_lines(dest_lines),
    ensures
        relocation(verb, args, lines, other, from_ctx, to_ctx, dest_ctx) matches Ok(plan) ==> {
            let from = span_start(args, lines, from_ctx);
            let to = span_end(args, lines, to_ctx);
            let gap = place_of(args, lines, other, dest_ctx);
            proper_span(lines, from, to) && plan_of_relocation(
                verb,
                args.file@,
                lines,
                from,
                to,
                other,
                gap,
                plan,
            )
        },
{
    lemma_ends_bound(args, lines, from_ctx, to_ctx);
    lemma_relocation_ends(verb, args, lines, other, from_ctx, to_ctx, dest_ctx);
    match other {
        Some((path, dest_lines)) => lemma_dest_bound(args, dest_lines, path, dest_ctx),
        None => lemma_dest_bound(args, lines, args.file@, dest_ctx),
    }
}

/// A call that is carried out is a deletion where it is forced, and else a
/// relocation, of the span that its ends resolve to, in the source as it was
/// read.
#[verifier::rlimit(60)]
pub proof fn calls_come_to_plans(
    verb: Verb,
    args: OpArgs,
    source: FileState,
    dest: Option<DestState>,
    plan: PlanView,
)
    requires
        call_step(verb, args, Some(source), dest) == Ok::<StepView, ErrorView>(
            StepView::Apply(plan),
        ),
    ensures
        contexts(args) is Some,
        loaded(args.file@, false, source) is Ok,
        !args.force && names_other(args, dest) ==> other_of(args, dest) is Some,
        args.force ==> verb == Verb::Move,
        !args.force ==> args.before != args.after,
        ends_resolve(
            args,
            loaded(args.file@, false, source)->Ok_0,
            (contexts(args)->0).from,
            (contexts(args)->0).to,
        ),
        !args.force ==> dest_of(
            args,
            loaded(args.file@, false, source)->Ok_0,
            other_of(args, dest),
            (contexts(args)->0).dest,
        ) is Ok,
        ({
            let lines = loaded(args.file@, false, source)->Ok_0;
            let known = contexts(args)->0;
            let from = span_start(args, lines, known.from);
            let to = span_end(args, lines, known.to);
            let other = other_of(args, dest);
            let gap = place_of(args, lines, other, known.dest);
            plan_of_call(verb, args.force, args.file@, lines, from, to, other, gap, plan)
        }),
{
    let lines = loaded(args.file@, false, source)->Ok_0;
    let Contexts { from: from_ctx, to: to_ctx, dest: dest_ctx } = contexts(args)->0;
    let other = other_of(args, dest);
    lemma_loaded(args.file@, false, source);
    if let Some(DestState::Other(file)) = dest {
        if let Some(path) = args.dest_file {
            lemma_loaded(path@, true, file);
        }
    }
    lemma_deletion_plan(verb, args, lines, from_ctx, to_ctx);
    lemma_relocation_plan(verb, args, lines, other, from_ctx, to_ctx, dest_ctx);
    lemma_deletion_ends(verb, args, lines, from_ctx, to_ctx);
    lemma_relocation_ends(verb, args, lines, other, from_ctx, to_ctx, dest_ctx);
}

/// A relocation into another file writes that file first; a move then writes
/// the source, and a copy never does. Anything else writes the source alone.
#[verifier::rlimit(30)]
pub proof fn destination_is_written_first(
    verb: Verb,
    args: OpArgs,
    source: FileState,
    dest: Option<DestState>,
    plan: PlanView,
)
    requires
        call_step(verb, args, Some(source), dest) == Ok::<StepView, ErrorView>(
            StepView::Apply(plan),
        ),
    ensures
        !args.force && names_other(args, dest) ==> {
            &&& plan.writes.len() == if verb == Verb::Move { 2int } else { 1int }
            &&& plan.writes[0].0 == args.dest_file->0@
            &&& verb == Verb::Move ==> plan.writes[1].0 == args.file@
        },
        args.force || !names_other(args, dest) ==> plan.writes.len() == 1 && plan.writes[0].0
            == args.file@,
{
    calls_come_to_plans(verb, args, source, dest, plan);
}

/// Every write of the plan is valid UTF-8.
pub open spec fn writes_text(plan: PlanView) -> bool {
    forall|i: int| 0 <= i < plan.writes.len() ==> valid_utf8((#[trigger] plan.writes[i]).1)
}

/// The plan is that of a call on the span `from` to `to`: a deletion where it is
/// forced, and else a relocation.
pub open spec fn plan_of_call(
    verb: Verb,
    force: bool,
    path: Seq<char>,
    lines: Seq<Seq<u8>>,
    from: int,
    to: int,
    other: Option<(Seq<char>, Seq<Seq<u8>>)>,
    gap: int,
    plan: PlanView,
) -> bool {
    &&& proper_span(lines, from, to)
    &&& force ==> plan == delete_plan(path, lines, from, to)
    &&& !force ==> plan_of_relocation(verb, path, lines, from, to, other, gap, plan)
}

proof fn lemma_plan_writes_text(
    verb: Verb,
    force: bool,
    path: Seq<char>,
    lines: Seq<Seq<u8>>,
    from: int,
    to: int,
    other: Option<(Seq<char>, Seq<Seq<u8>>)>,
    gap: int,
    plan: PlanView,
)
    requires
        plan_of_call(verb, force, path, lines, from, to, other, gap, plan),
    ensures
        writes_text(plan),
{
    lemma_valid_tidied(lines, from, to);
    text_lines_make_text(tidied(lines, from, to));
    if !force {
        match other {
            Some((_, dest_lines)) => {
                lemma_valid_with_block(dest_lines, gap, lines, from, to);
                text_lines_make_text(with_block(dest_lines, gap, lines, from, to));
            },
            None => {
                lemma_valid_moved(lines, from, to, gap);
                lemma_valid_with_block(lines, gap, lines, from, to);
                text_lines_make_text(relocated(verb, lines, from, to, gap));
            },
        }
    }
}

/// Whatever a call writes is valid UTF-8, so that the next call can read it.
#[verifier::rlimit(30)]
pub proof fn only_text_is_written(
    verb: Verb,
    args: OpArgs,
    source: FileState,
    dest: Option<DestState>,
    plan: PlanView,
)
    requires
        call_step(verb, args, Some(source), dest) == Ok::<StepView, ErrorView>(
            StepView::Apply(plan),
        ),
    ensures
        writes_text(plan),
{
    calls_come_to_plans(verb, args, source, dest, plan);
    let lines = loaded(args.file@, false, source)->Ok_0;
    let known = contexts(args)->0;
    let from = span_start(args, lines, known.from);
    let to = span_end(args, lines, known.to);
    let other = other_of(args, dest);
    let gap = place_of(args, lines, other, known.dest);
    lemma_plan_writes_text(verb, args.force, args.file@, lines, from, to, other, gap, plan);
}

/// The files that the plan of a call writes end with a newline if they did
/// before, and without one if they did not. Left out are a source that gave up
/// all its lines, and a destination that was empty.
pub open spec fn newlines_kept(
    verb: Verb,
    lines: Seq<Seq<u8>>,
    other: Option<(Seq<char>, Seq<Seq<u8>>)>,
    plan: PlanView,
) -> bool {
    let ends = ends_with_newline(flatten(lines));
    match other {
        Some((_, dest_lines)) => {
            &&& dest_lines.len() > 0 ==> ends_with_newline(plan.writes[0].1) == ends_with_newline(
                flatten(dest_lines),
            )
            &&& verb == Verb::Move && plan.writes[1].1.len() > 0 ==> ends_with_newline(
                plan.writes[1].1,
            ) == ends
        },
        None => plan.writes[0].1.len() > 0 ==> ends_with_newline(plan.writes[0].1) == ends,
    }
}

proof fn lemma_plan_keeps_newlines(
    verb: Verb,
    force: bool,
    path: Seq<char>,
    lines: Seq<Seq<u8>>,
    from: int,
    to: int,
    other: Option<(Seq<char>, Seq<Seq<u8>>)>,
    gap: int,
    plan: PlanView,
)
    requires
        plan_of_call(verb, force, path, lines, from, to, other, gap, plan),
    ensures
        newlines_kept(verb, lines, if force { None } else { other }, plan),
{
    lemma_left_ending(lines, from, to);
    if !force {
        match other {
            Some((_, dest_lines)) => {
                if dest_lines.len() > 0 {
                    target_keeps_final_newline(dest_lines, gap, lines, from, to);
                }
            },
            None => {
                file_keeps_final_newline(verb, lines, from, to, gap);
            },
        }
    }
}

/// Every file that a call writes keeps its trailing-newline state. The files are
/// told of by the lines that were read from them.
#[verifier::rlimit(30)]
pub proof fn calls_keep_final_newlines(
    verb: Verb,
    args: OpArgs,
    source: FileState,
    dest: Option<DestState>,
    plan: PlanView,
)
    requires
        call_step(verb, args, Some(source), dest) == Ok::<StepView, ErrorView>(
            StepView::Apply(plan),
        ),
    ensures
        newlines_kept(
            verb,
            loaded(args.file@, false, source)->Ok_0,
            if args.force {
                None
            } else {
                other_of(args, dest)
            },
            plan,
        ),
{
    calls_come_to_plans(verb, args, source, dest, plan);
    let lines = loaded(args.file@, false, source)->Ok_0;
    let known = contexts(args)->0;
    let from = span_start(args, lines, known.from);
    let to = span_end(args, lines, known.to);
    let other = other_of(args, dest);
    let gap = place_of(args, lines, other, known.dest);
    lemma_plan_keeps_newlines(verb, args.force, args.file@, lines, from, to, other, gap, plan);
}

/// What a source is left with ends as the source did, if anything is left.
proof fn lemma_left_ending(lines: Seq<Seq<u8>>, from: int, to: int)
    requires
        file_lines(lines),
        1 <= from <= to <= lines.len(),
    ensures
        flatten(tidied(lines, from, to)).len() > 0 ==> ends_with_newline(
            flatten(tidied(lines, from, to)),
        ) == ends_with_newline(flatten(lines)),
{
    if to - from + 1 < lines.len() || !terminated(lines.last()) {
        source_keeps_final_newline(lines, from, to);
    } else {
        let rest = tidied(lines, from, to);
        giving_up_keeps_bytes(lines, from, to);
        assert(rest.len() == 0);
    }
}

/// The source, as the plan of a call on the span `from` to `to` writes it and it
/// is then read: the other lines of the file are as they were, and all of them
/// where the span is moved to its own place.
pub open spec fn other_lines_kept(
    force: bool,
    path: Seq<char>,
    lines: Seq<Seq<u8>>,
    from: int,
    to: int,
    other: Option<(Seq<char>, Seq<Seq<u8>>)>,
    gap: int,
    plan: PlanView,
) -> bool {
    let after = split_lines(plan.writes.last().1);
    &&& plan.writes.last().0 == path
    &&& force || other is Some ==> rest_kept(lines, from, to, after)
    &&& !force && other is None && in_place(from, to, gap) ==> after == lines
    &&& !force && other is None && !in_place(from, to, gap) ==> move_kept(
        lines,
        from,
        to,
        gap,
        after,
    )
}

proof fn lemma_plan_keeps_other_lines(
    force: bool,
    path: Seq<char>,
    lines: Seq<Seq<u8>>,
    from: int,
    to: int,
    other: Option<(Seq<char>, Seq<Seq<u8>>)>,
    gap: int,
    plan: PlanView,
)
    requires
        plan_of_call(Verb::Move, force, path, lines, from, to, other, gap, plan),
    ensures
        other_lines_kept(force, path, lines, from, to, other, gap, plan),
{
    giving_up_keeps_bytes(lines, from, to);
    source_is_read_back(lines, from, to);
    if !force && other is None {
        file_is_read_back(Verb::Move, lines, from, to, gap);
        if !in_place(from, to, gap) {
            moving_keeps_bytes(lines, from, to, gap);
        }
    }
}

/// A call that moves a span, within its file or to another, or deletes it,
/// leaves the other lines of the source as they were. A move to the span's own
/// place leaves the file as it is.
#[verifier::rlimit(30)]
pub proof fn calls_keep_other_lines(
    args: OpArgs,
    source: FileState,
    dest: Option<DestState>,
    plan: PlanView,
)
    requires
        call_step(Verb::Move, args, Some(source), dest) == Ok::<StepView, ErrorView>(
            StepView::Apply(plan),
        ),
    ensures
        ({
            let lines = loaded(args.file@, false, source)->Ok_0;
            let known = contexts(args)->0;
            let from = span_start(args, lines, known.from);
            let to = span_end(args, lines, known.to);
            let other = other_of(args, dest);
            let gap = place_of(args, lines, other, known.dest);
            other_lines_kept(args.force, args.file@, lines, from, to, other, gap, plan)
        }),
{
    calls_come_to_plans(Verb::Move, args, source, dest, plan);
    let lines = loaded(args.file@, false, source)->Ok_0;
    let known = contexts(args)->0;
    let from = span_start(args, lines, known.from);
    let to = span_end(args, lines, known.to);
    let other = other_of(args, dest);
    let gap = place_of(args, lines, other, known.dest);
    lemma_plan_keeps_other_lines(args.force, args.file@, lines, from, to, other, gap, plan);
}

/// A neighbor anchor as the values of its flag.
pub open spec fn flag_values(context: Option<(int, Seq<char>)>) -> Seq<Seq<char>> {
    match context {
        Some((offset, guard)) => seq![signed_text(offset) + ":"@ + guard],
        None => seq![],
    }
}

/// The flags suggested for an anchor are read as that anchor.
proof fn lemma_flags_of_anchor(lines: Seq<Seq<char>>, at: int, dir: int, role: Role)
    requires
        dir != 0,
    ensures
        ({
            let context = anchor_of(lines, at, dir).context;
            parsed_flags(flag_values(context), role) == Ok::<Seq<ContextView>, ErrorView>(
                context_list(context),
            )
        }),
{
    let anchor = anchor_of(lines, at, dir);
    let values = flag_values(anchor.context);
    reveal_with_fuel(parsed_flags, 2);
    if anchor.context is Some {
        nearest_is_decisive(lines, at, anchor.guard, dir, 0, reach(lines));
        let (offset, guard) = anchor.context->0;
        assert(guard.len() > 0);
        neighbor_flags_read_back(offset as i64, guard, role);
        assert(values.drop_last() == Seq::<Seq<char>>::empty());
        assert(values.last() == signed_text(offset) + ":"@ + guard);
        assert(context_list(anchor.context) == Seq::<ContextView>::empty().push(
            ContextView { offset, guard },
        ));
    }
}

/// A call that asks for a deletion and nothing else.
pub open spec fn asks_to_delete(args: OpArgs) -> bool {
    &&& args.force
    &&& args.dest is None
    &&& args.dest_guard is None
    &&& args.dest_context@.len() == 0
    &&& args.dest_file is None
    &&& !args.before
    &&& !args.after
}

/// A deletion whose ends resolve in order is planned.
pub proof fn resolved_deletion_is_planned(
    args: OpArgs,
    lines: Seq<Seq<u8>>,
    from_ctx: Seq<ContextView>,
    to_ctx: Seq<ContextView>,
    from: nat,
    to: nat,
)
    requires
        asks_to_delete(args),
        from_resolution(lines, args, from_ctx) == Ok::<nat, ErrorView>(from),
        to_resolution(lines, args, to_ctx) == Ok::<nat, ErrorView>(to),
        from <= to,
    ensures
        deletion(Verb::Move, args, lines, from_ctx, to_ctx) == Ok::<PlanView, ErrorView>(
            delete_plan(args.file@, lines, from as int, to as int),
        ),
{
    lemma_two_outcomes(
        seq![
            outcome_of(Role::From, from_resolution(lines, args, from_ctx)),
            outcome_of(Role::To, to_resolution(lines, args, to_ctx)),
        ],
    );
}

/// A forced call comes to its deletion, once the source is read.
proof fn lemma_forced_call(
    args: OpArgs,
    source: FileState,
    lines: Seq<Seq<u8>>,
    from_ctx: Seq<ContextView>,
    to_ctx: Seq<ContextView>,
)
    requires
        asks_to_delete(args),
        loaded(args.file@, false, source) == Ok::<Seq<Seq<u8>>, ErrorView>(lines),
        parsed_flags(texts(args.from_context@), Role::From) == Ok::<Seq<ContextView>, ErrorView>(
            from_ctx,
        ),
        parsed_flags(texts(args.to_context@), Role::To) == Ok::<Seq<ContextView>, ErrorView>(
            to_ctx,
        ),
    ensures
        call_step(Verb::Move, args, Some(source), None) == applied(
            deletion(Verb::Move, args, lines, from_ctx, to_ctx),
        ),
{
    assert(texts(args.dest_context@) == Seq::<Seq<char>>::empty());
}

/// The command suggested for deleting a block deletes it: given the file as
/// it was when the command was made, both ends resolve, and the block goes.
/// Both anchors must have been found unique; guards that end with a carriage
/// return are left out where the text does.
#[verifier::rlimit(30)]
pub proof fn suggested_deletion_works(
    text: Seq<char>,
    block: Seq<Seq<char>>,
    start: nat,
    args: OpArgs,
    source: FileState,
)
    requires
        block.len() > 0,
        occurs_at(logical_lines(text), block, start - 1),
        source matches FileState::Present(Ok(bytes)) && bytes@ == encode_utf8(text),
        ({
            let ends = end_anchors(block, start as int, Some(text));
            &&& unique_in(logical_lines(text), ends.0)
            &&& unique_in(logical_lines(text), ends.1)
            &&& text.len() > 0 && text.last() == '\r' ==> !ends_with_cr(ends.0) && !ends_with_cr(
                ends.1,
            )
            &&& number_view(args.from) == Some(start)
            &&& number_view(args.to) == Some((start + block.len() - 1) as nat)
            &&& option_text(args.from_guard) == ends.0.guard
            &&& option_text(args.to_guard) == ends.1.guard
            &&& texts(args.from_context@) == flag_values(ends.0.context)
            &&& texts(args.to_context@) == flag_values(ends.1.context)
        }),
        asks_to_delete(args),
    ensures
        call_step(Verb::Move, args, Some(source), None) == Ok::<StepView, ErrorView>(
            StepView::Apply(
                delete_plan(
                    args.file@,
                    split_lines(encode_utf8(text)),
                    start as int,
                    start + block.len() - 1,
                ),
            ),
        ),
{
    let lines = logical_lines(text);
    let rows = split_lines(encode_utf8(text));
    let ends = end_anchors(block, start as int, Some(text));
    let last = (start + block.len() - 1) as nat;
    encode_utf8_valid_utf8(text);
    suggested_anchors_resolve(text, start - 1, 1, args.file@, Role::From);
    suggested_anchors_resolve(text, last - 1, -1, args.file@, Role::To);
    lemma_flags_of_anchor(lines, start - 1, 1, Role::From);
    lemma_flags_of_anchor(lines, last - 1, -1, Role::To);
    let from_ctx = context_list(ends.0.context);
    let to_ctx = context_list(ends.1.context);
    resolved_deletion_is_planned(args, rows, from_ctx, to_ctx, start, last);
    lemma_forced_call(args, source, rows, from_ctx, to_ctx);
}

} // verus!
