//! The operations: from flags and file contents to what is to be written.
//!
//! Nothing here touches a disk. [`run`] is given what has been read so far and
//! answers with the next thing to read, or with the complete plan of writes.

use vstd::prelude::*;
use vstd::utf8::{encode_utf8, valid_utf8};

use crate::anchor::{
    bears, context_view, matching, number_view, parse_context, parsed_flags, resolution, resolve,
    satisfied, ContextSpec, ContextView,
};
use crate::error::{
    count_failures, exit_code, failure_count, outcome_view, outcomes_view, result_view, ErrorView,
    OutcomeView, Role, RoleOutcome, SpanError,
};
use crate::lines::{
    file_bytes, flatten, has_terminator, logical, rows, split_lines, terminated, Lines,
};
use crate::numeral::{decimal, decimal_text};
use crate::outside::{lines_with_terminator, utf8_text};
use crate::render::{lines_word, plural, render_affected, render_seam, with_affected, with_seam};
use crate::search::{occurs_at, texts};
use crate::splice::{
    blank_run_above, blank_run_below, collapse_seam_blank, collapsed, ended, gap_for, gap_of,
    insert_block, inserted, leading_fill, lemma_run_above_bound, lemma_run_below_bound, newline,
    newline_of, remove_block, removed, run_above, run_below, set_block, set_ending, set_in,
    without,
};
use crate::text::{option_text, text_or_empty};

verus! {

/// Whether the block is moved or duplicated.
#[derive(Clone, Copy, Debug, PartialEq, Eq, Structural)]
pub enum Verb {
    Move,
    Copy,
}

/// The word for a verb in a summary.
pub open spec fn verb_word(verb: Verb) -> Seq<char> {
    match verb {
        Verb::Move => "moved"@,
        Verb::Copy => "copied"@,
    }
}

impl Verb {
    /// The past-tense word for a summary.
    pub fn summary_word(self) -> (word: &'static str)
        ensures
            word@ == verb_word(self),
    {
        match self {
            Verb::Move => "moved",
            Verb::Copy => "copied",
        }
    }
}

/// The flags of one call. A coordinate is addressed by its guard; a number is
/// an optional cross-check.
pub struct OpArgs {
    /// The source file; the destination is the same file unless another is
    /// named.
    pub file: String,
    pub from: Option<usize>,
    pub from_guard: Option<String>,
    pub to: Option<usize>,
    pub to_guard: Option<String>,
    /// Line zero is the top of the destination and takes no guard.
    pub dest: Option<usize>,
    pub dest_guard: Option<String>,
    pub before: bool,
    pub after: bool,
    /// Delete the span instead of relocating it.
    pub force: bool,
    pub dest_file: Option<String>,
    /// Neighbor anchors, each `offset:guard`.
    pub from_context: Vec<String>,
    pub to_context: Vec<String>,
    pub dest_context: Vec<String>,
}

/// What was found at a path.
pub enum FileState {
    /// No such file.
    Missing,
    /// Its bytes, or the reason it could not be read.
    Present(Result<Vec<u8>, String>),
}

/// What was found at the path of a destination file.
pub enum DestState {
    /// The same file on disk as the source.
    SameAsSource,
    /// Another file, or none.
    Other(FileState),
}

/// One file to be replaced as a whole.
pub struct FileWrite {
    pub path: String,
    pub bytes: Vec<u8>,
}

/// What a call does: the files to replace, in this order and only as long as
/// each write succeeds, and the text to print after the last.
pub struct Plan {
    pub writes: Vec<FileWrite>,
    pub output: String,
}

/// What a call needs next.
pub enum Step {
    /// The state of the source file.
    ReadSource,
    /// The state of the destination file.
    ReadDest,
    /// Nothing more: this is what to do.
    Apply(Plan),
}

/// A [`Plan`] as a mathematical value: paths with bytes, and the output.
#[verifier::ext_equal]
pub struct PlanView {
    pub writes: Seq<(Seq<char>, Seq<u8>)>,
    pub output: Seq<char>,
}

/// A [`Step`] as a mathematical value.
#[verifier::ext_equal]
pub enum StepView {
    ReadSource,
    ReadDest,
    Apply(PlanView),
}

/// Writes as mathematical values.
pub open spec fn writes_view(writes: Seq<FileWrite>) -> Seq<(Seq<char>, Seq<u8>)> {
    writes.map_values(|w: FileWrite| (w.path@, w.bytes@))
}

impl View for Plan {
    type V = PlanView;

    open spec fn view(&self) -> PlanView {
        PlanView { writes: writes_view(self.writes@), output: self.output@ }
    }
}

impl View for Step {
    type V = StepView;

    open spec fn view(&self) -> StepView {
        match *self {
            Step::ReadSource => StepView::ReadSource,
            Step::ReadDest => StepView::ReadDest,
            Step::Apply(plan) => StepView::Apply(plan@),
        }
    }
}

/// What the contents of a file, or the failure to read them, come to: its
/// lines, or an error where it could not be read or is not UTF-8.
pub open spec fn read_outcome(path: Seq<char>, read: Result<Vec<u8>, String>) -> Result<
    Seq<Seq<u8>>,
    ErrorView,
> {
    match read {
        Err(reason) => Err(ErrorView::Io("cannot read "@ + path + ": "@ + reason@)),
        Ok(bytes) => if valid_utf8(bytes@) {
            Ok(split_lines(bytes@))
        } else {
            Err(ErrorView::Io(path + " is not valid UTF-8"@))
        },
    }
}

/// What the state of a file comes to: a missing file is an error of its own.
pub open spec fn loaded(path: Seq<char>, is_dest: bool, file: FileState) -> Result<
    Seq<Seq<u8>>,
    ErrorView,
> {
    match file {
        FileState::Missing => Err(ErrorView::FileMissing { path, is_dest }),
        FileState::Present(read) => read_outcome(path, read),
    }
}

/// Lines read from bytes.
pub open spec fn lines_result_view(lines: Result<Lines, SpanError>) -> Result<
    Seq<Seq<u8>>,
    ErrorView,
> {
    match lines {
        Ok(lines) => Ok(rows(lines@)),
        Err(error) => Err(error@),
    }
}

/// Refuses a path at which there is no file: files are never created. What was
/// read is handed on.
pub fn ensure_exists<'a>(path: &str, is_dest: bool, file: &'a FileState) -> (found: Result<
    &'a Result<Vec<u8>, String>,
    SpanError,
>)
    ensures
        match found {
            Ok(read) => *file == FileState::Present(*read),
            Err(error) => *file is Missing && error@ == (ErrorView::FileMissing {
                path: path@,
                is_dest,
            }),
        },
{
    match file {
        FileState::Present(read) => Ok(read),
        FileState::Missing => Err(SpanError::FileMissing { path: path.to_owned(), is_dest }),
    }
}

/// The contents of a file as physical lines that keep their terminators. What
/// cannot be read, or is not UTF-8, is refused; the bytes are never changed.
pub fn read_lines(path: &str, read: &Result<Vec<u8>, String>) -> (lines: Result<Lines, SpanError>)
    ensures
        lines_result_view(lines) == read_outcome(path@, *read),
{
    match read {
        Err(reason) => {
            let mut s = "cannot read ".to_owned();
            s.append(path);
            s.append(": ");
            s.append(reason.as_str());
            Err(SpanError::Io(s))
        },
        Ok(bytes) => {
            if utf8_text(bytes.as_slice()).is_none() {
                let mut s = path.to_owned();
                s.append(" is not valid UTF-8");
                return Err(SpanError::Io(s));
            }
            Ok(lines_with_terminator(bytes.as_slice()))
        },
    }
}

/// The lines of a file in the given state.
fn load(path: &str, is_dest: bool, file: &FileState) -> (lines: Result<Lines, SpanError>)
    ensures
        lines_result_view(lines) == loaded(path@, is_dest, *file),
{
    match ensure_exists(path, is_dest, file) {
        Err(error) => Err(error),
        Ok(read) => read_lines(path, read),
    }
}

/// What the destination coordinate resolves to. Line zero is the top of the
/// file: it stands alone, without guard or context, and only after it is there
/// a place. Any other destination is resolved as the other coordinates are.
pub open spec fn dest_resolution(
    lines: Seq<Seq<u8>>,
    path: Seq<char>,
    args: OpArgs,
    context: Seq<ContextView>,
    before: bool,
    dest: Option<nat>,
) -> Result<nat, ErrorView> {
    if dest == Some(0nat) {
        if before {
            Err(ErrorView::Usage("--dest 0 (top of file) requires --after"@))
        } else if args.dest_guard is Some {
            Err(ErrorView::Usage("--dest 0 takes no --dest-guard"@))
        } else if context.len() > 0 {
            Err(ErrorView::Usage("--dest 0 takes no --dest-context"@))
        } else {
            Ok(0)
        }
    } else {
        match args.dest_guard {
            None => Err(ErrorView::EmptyGuard { role: Role::Dest }),
            Some(guard) => resolution(lines, path, Role::Dest, dest, guard@, context),
        }
    }
}

/// Resolves the destination coordinate.
pub fn resolve_dest(
    lines: &Lines,
    path: &str,
    args: &OpArgs,
    dest_ctx: &[ContextSpec],
    before: bool,
    dest: Option<usize>,
) -> (found: Result<usize, SpanError>)
    ensures
        result_view(found) == dest_resolution(
            rows(lines@),
            path@,
            *args,
            context_view(dest_ctx@),
            before,
            number_view(dest),
        ),
{
    if let Some(n) = dest {
        if n == 0 {
            if before {
                return Err(SpanError::Usage("--dest 0 (top of file) requires --after".to_owned()));
            }
            if args.dest_guard.is_some() {
                return Err(SpanError::Usage("--dest 0 takes no --dest-guard".to_owned()));
            }
            if dest_ctx.len() > 0 {
                return Err(SpanError::Usage("--dest 0 takes no --dest-context".to_owned()));
            }
            return Ok(0);
        }
    }
    match &args.dest_guard {
        None => Err(SpanError::EmptyGuard { role: Role::Dest }),
        Some(guard) => resolve(lines, path, Role::Dest, dest, guard.as_str(), dest_ctx),
    }
}

/// The last failure among the outcomes.
pub open spec fn last_failure(outcomes: Seq<OutcomeView>) -> ErrorView
    decreases outcomes.len(),
{
    if outcomes.len() == 0 {
        arbitrary()
    } else {
        match outcomes.last().result {
            Err(error) => error,
            Ok(_) => last_failure(outcomes.drop_last()),
        }
    }
}

/// What several coordinates come to together: a single failure speaks for
/// itself, and two or more are reported with every coordinate, passed or not.
pub open spec fn settled(outcomes: Seq<OutcomeView>) -> Option<ErrorView> {
    if failure_count(outcomes) == 0 {
        None
    } else if failure_count(outcomes) == 1 {
        Some(last_failure(outcomes))
    } else {
        Some(ErrorView::Multi(outcomes))
    }
}

/// No failures: every outcome is a line.
proof fn lemma_no_failure(outcomes: Seq<OutcomeView>)
    requires
        failure_count(outcomes) == 0,
    ensures
        forall|i: int| 0 <= i < outcomes.len() ==> (#[trigger] outcomes[i]).result is Ok,
    decreases outcomes.len(),
{
    if outcomes.len() > 0 {
        lemma_no_failure(outcomes.drop_last());
        assert forall|i: int| 0 <= i < outcomes.len() implies (#[trigger] outcomes[i]).result
            is Ok by {
            if i < outcomes.len() - 1 {
                assert(outcomes[i] == outcomes.drop_last()[i]);
            }
        }
    }
}

/// Settles the outcomes of several coordinates.
fn settle(outcomes: Vec<RoleOutcome>) -> (lines: Result<Vec<usize>, SpanError>)
    ensures
        match lines {
            Ok(lines) => {
                &&& settled(outcomes_view(outcomes@)) is None
                &&& lines@.len() == outcomes@.len()
                &&& forall|i: int|
                    0 <= i < lines@.len() ==> outcomes_view(outcomes@)[i].result == Ok::<
                        nat,
                        ErrorView,
                    >(#[trigger] lines@[i] as nat)
            },
            Err(error) => settled(outcomes_view(outcomes@)) == Some(error@),
        },
{
    let ghost all = outcomes_view(outcomes@);
    let mut rest = outcomes;
    let failures: usize = count_failures(&rest);
    if failures >= 2 {
        return Err(SpanError::Multi(rest));
    }
    if failures == 1 {
        loop
            invariant
                all == outcomes_view(outcomes@),
                failure_count(outcomes_view(rest@)) == 1,
                last_failure(outcomes_view(rest@)) == last_failure(all),
                settled(all) == Some(last_failure(all)),
            decreases rest@.len(),
        {
            let ghost now = outcomes_view(rest@);
            match rest.pop() {
                None => {
                    assert(now.len() == 0);
                    assert(false);
                    return Ok(Vec::new());
                },
                Some(outcome) => {
                    assert(outcomes_view(rest@) == now.drop_last());
                    assert(now.last() == outcome_view(outcome));
                    if let Err(error) = outcome.result {
                        return Err(error);
                    }
                },
            }
        }
    }
    proof {
        lemma_no_failure(all);
    }
    let mut lines: Vec<usize> = Vec::new();
    let mut i: usize = 0;
    while i < rest.len()
        invariant
            i == lines@.len() <= rest@.len(),
            all == outcomes_view(rest@),
            all == outcomes_view(outcomes@),
            forall|j: int| 0 <= j < all.len() ==> (#[trigger] all[j]).result is Ok,
            forall|j: int|
                0 <= j < i ==> all[j].result == Ok::<nat, ErrorView>(#[trigger] lines@[j] as nat),
        decreases rest@.len() - i,
    {
        assert(all[i as int] == outcome_view(rest@[i as int]));
        if let Ok(line) = rest[i].result {
            lines.push(line);
        } else {
            assert(false);
            return Ok(lines);
        }
        i += 1;
    }
    Ok(lines)
}

/// The outcome of a coordinate of the given role.
pub open spec fn outcome_of(role: Role, result: Result<nat, ErrorView>) -> OutcomeView {
    OutcomeView { role, result }
}

/// What the start of the span resolves to.
pub open spec fn from_resolution(
    lines: Seq<Seq<u8>>,
    args: OpArgs,
    context: Seq<ContextView>,
) -> Result<nat, ErrorView> {
    resolution(
        lines,
        args.file@,
        Role::From,
        number_view(args.from),
        option_text(args.from_guard),
        context,
    )
}

/// What the end of the span resolves to.
pub open spec fn to_resolution(
    lines: Seq<Seq<u8>>,
    args: OpArgs,
    context: Seq<ContextView>,
) -> Result<nat, ErrorView> {
    resolution(
        lines,
        args.file@,
        Role::To,
        number_view(args.to),
        option_text(args.to_guard),
        context,
    )
}

/// The lines `from` to `to`, counted from one.
pub open spec fn block_of(lines: Seq<Seq<u8>>, from: int, to: int) -> Seq<Seq<u8>> {
    lines.subrange(from - 1, to)
}

/// The source after its block went: the block out, and the doubled blank run
/// narrowed.
pub open spec fn tidied(lines: Seq<Seq<u8>>, from: int, to: int) -> Seq<Seq<u8>> {
    collapsed(
        removed(lines, from, to),
        from,
        run_above(lines, from - 1),
        run_below(lines, to),
    )
}

/// How many blank lines go when the seam of the block `from` to `to` is
/// tidied: the narrower of the two runs around it.
pub open spec fn narrowed_by(lines: Seq<Seq<u8>>, from: int, to: int) -> int {
    let lead = run_above(lines, from - 1);
    let trail = run_below(lines, to);
    if lead < trail {
        lead as int
    } else {
        trail as int
    }
}

/// The lines that stay where they are when the block `from` to `to` moves, just
/// as they are: the block out, and the doubled blank run narrowed.
pub open spec fn staying(lines: Seq<Seq<u8>>, from: int, to: int) -> Seq<Seq<u8>> {
    without(lines, from, to + narrowed_by(lines, from, to))
}

/// Where in [`staying`] an index of the file ends up.
pub open spec fn shifted_gap(lines: Seq<Seq<u8>>, from: int, to: int, gap: int) -> int {
    let at = if gap < from {
        gap
    } else {
        gap - (to - from + 1)
    };
    if at >= from {
        at - narrowed_by(lines, from, to)
    } else {
        at
    }
}

/// The file that receives a block that moves within it to index `gap`, just
/// before it lands: the lines that stay, and what will be below the block ends
/// as the file does.
pub open spec fn receiving(lines: Seq<Seq<u8>>, from: int, to: int, gap: int) -> Seq<Seq<u8>> {
    let rest = staying(lines, from, to);
    let at = shifted_gap(lines, from, to, gap);
    rest.take(at) + ended(rest.skip(at), terminated(lines.last()))
}

/// The index `gap` is the place where the block `from` to `to` already stands.
pub open spec fn in_place(from: int, to: int, gap: int) -> bool {
    gap == from - 1 || gap == to
}

/// The file after the block `from` to `to` moved within it to index `gap`. A
/// block that is in place stays there.
pub open spec fn moved(lines: Seq<Seq<u8>>, from: int, to: int, gap: int) -> Seq<Seq<u8>> {
    if in_place(from, to, gap) {
        lines
    } else {
        set_in(
            receiving(lines, from, to, gap),
            shifted_gap(lines, from, to, gap),
            block_of(lines, from, to),
            run_above(lines, from - 1),
            run_below(lines, to),
            Some(terminated(lines.last())),
            newline_of(staying(lines, from, to)),
        )
    }
}

/// The line, counted from one, at which a block that moved starts.
pub open spec fn moved_start(lines: Seq<Seq<u8>>, from: int, to: int, gap: int) -> int {
    if in_place(from, to, gap) {
        from
    } else {
        block_start(
            receiving(lines, from, to, gap),
            shifted_gap(lines, from, to, gap),
            lines,
            from,
        )
    }
}

/// The file `target` after the block `from` to `to` of `lines` landed in it at
/// index `gap`.
pub open spec fn with_block(
    target: Seq<Seq<u8>>,
    gap: int,
    lines: Seq<Seq<u8>>,
    from: int,
    to: int,
) -> Seq<Seq<u8>> {
    inserted(
        target,
        gap,
        block_of(lines, from, to),
        run_above(lines, from - 1),
        run_below(lines, to),
    )
}

/// The line, counted from one, at which that block starts.
pub open spec fn block_start(
    target: Seq<Seq<u8>>,
    gap: int,
    lines: Seq<Seq<u8>>,
    from: int,
) -> int {
    gap + leading_fill(target, gap, run_above(lines, from - 1)) + 1
}

/// The file after its block `from` to `to` was moved or copied to index `gap`.
pub open spec fn relocated(
    verb: Verb,
    lines: Seq<Seq<u8>>,
    from: int,
    to: int,
    gap: int,
) -> Seq<Seq<u8>> {
    match verb {
        Verb::Move => moved(lines, from, to, gap),
        Verb::Copy => with_block(lines, gap, lines, from, to),
    }
}

/// The line, counted from one, at which the moved or copied block starts.
pub open spec fn relocated_start(
    verb: Verb,
    lines: Seq<Seq<u8>>,
    from: int,
    to: int,
    gap: int,
) -> int {
    match verb {
        Verb::Move => moved_start(lines, from, to, gap),
        Verb::Copy => block_start(lines, gap, lines, from),
    }
}

/// `moved 3 lines → path:first-last`.
pub open spec fn summary_text(
    verb: Verb,
    count: nat,
    path: Seq<char>,
    first: nat,
    last: nat,
) -> Seq<char> {
    verb_word(verb) + " "@ + decimal_text(count) + " "@ + lines_word(count) + " → "@ + path + ":"@
        + decimal_text(first) + "-"@ + decimal_text(last)
}

/// The plan of a relocation within one file.
pub open spec fn intra_plan(
    verb: Verb,
    path: Seq<char>,
    lines: Seq<Seq<u8>>,
    from: int,
    to: int,
    gap: int,
) -> PlanView {
    let after = relocated(verb, lines, from, to, gap);
    let first = relocated_start(verb, lines, from, to, gap);
    let last = first + (to - from);
    PlanView {
        writes: seq![(path, flatten(after))],
        output: with_affected(
            summary_text(verb, (to - from + 1) as nat, path, first as nat, last as nat) + "\n"@,
            after,
            first,
            last,
        ),
    }
}

/// The plan of a relocation into another file: the destination is written
/// first, and only a move writes the source.
pub open spec fn cross_plan(
    verb: Verb,
    path: Seq<char>,
    lines: Seq<Seq<u8>>,
    from: int,
    to: int,
    dest_path: Seq<char>,
    dest_lines: Seq<Seq<u8>>,
    gap: int,
) -> PlanView {
    let after = with_block(dest_lines, gap, lines, from, to);
    let first = block_start(dest_lines, gap, lines, from);
    let last = first + (to - from);
    let count = (to - from + 1) as nat;
    let summary = summary_text(verb, count, dest_path, first as nat, last as nat) + " (from "@
        + path + ":"@ + decimal_text(from as nat) + "-"@ + decimal_text(to as nat) + ")\n"@;
    if verb == Verb::Move {
        let rest = tidied(lines, from, to);
        PlanView {
            writes: seq![(dest_path, flatten(after)), (path, flatten(rest))],
            output: with_seam(
                with_affected(summary + "\n"@ + dest_path + ":\n"@, after, first, last) + "\n"@
                    + path + ":  ("@ + decimal_text(count) + " "@ + lines_word(count)
                    + " removed at "@ + decimal_text(from as nat) + ")\n"@,
                rest,
                from,
            ),
        }
    } else {
        PlanView {
            writes: seq![(dest_path, flatten(after))],
            output: with_affected(summary + dest_path + ":\n"@, after, first, last),
        }
    }
}

/// The plan of a deletion.
pub open spec fn delete_plan(
    path: Seq<char>,
    lines: Seq<Seq<u8>>,
    from: int,
    to: int,
) -> PlanView {
    let count = (to - from + 1) as nat;
    let rest = tidied(lines, from, to);
    PlanView {
        writes: seq![(path, flatten(rest))],
        output: with_seam(
            "deleted "@ + decimal_text(count) + " "@ + lines_word(count) + " from "@ + path + ":"@
                + decimal_text(from as nat) + "-"@ + decimal_text(to as nat) + "\n"@,
            rest,
            from,
        ),
    }
}

/// What a relocation comes to once the files are read. `other` is the
/// destination file and its lines, where that is not the source.
pub open spec fn relocation(
    verb: Verb,
    args: OpArgs,
    lines: Seq<Seq<u8>>,
    other: Option<(Seq<char>, Seq<Seq<u8>>)>,
    from_ctx: Seq<ContextView>,
    to_ctx: Seq<ContextView>,
    dest_ctx: Seq<ContextView>,
) -> Result<PlanView, ErrorView> {
    let from = from_resolution(lines, args, from_ctx);
    let to = to_resolution(lines, args, to_ctx);
    let dest = match other {
        Some((path, dest_lines)) => dest_resolution(
            dest_lines,
            path,
            args,
            dest_ctx,
            args.before,
            number_view(args.dest),
        ),
        None => dest_resolution(
            lines,
            args.file@,
            args,
            dest_ctx,
            args.before,
            number_view(args.dest),
        ),
    };
    let outcomes = seq![
        outcome_of(Role::From, from),
        outcome_of(Role::To, to),
        outcome_of(Role::Dest, dest),
    ];
    if dest is Err && exit_code(dest->Err_0) == 2 {
        Err(dest->Err_0)
    } else if settled(outcomes) is Some {
        Err(settled(outcomes)->0)
    } else {
        let (from, to, dest) = (from->Ok_0 as int, to->Ok_0 as int, dest->Ok_0);
        let gap = gap_of(dest, args.before) as int;
        if from > to {
            Err(ErrorView::FromAfterTo { from: from as nat, to: to as nat })
        } else {
            match other {
                Some((dest_path, dest_lines)) => Ok(
                    cross_plan(verb, args.file@, lines, from, to, dest_path, dest_lines, gap),
                ),
                None => if dest != 0 && from <= dest <= to {
                    Err(ErrorView::DestInSpan { dest, from: from as nat, to: to as nat })
                } else {
                    Ok(intra_plan(verb, args.file@, lines, from, to, gap))
                },
            }
        }
    }
}

/// What a deletion comes to once the file is read: nothing that names a
/// destination goes with it, and only `move` has it.
pub open spec fn deletion(
    verb: Verb,
    args: OpArgs,
    lines: Seq<Seq<u8>>,
    from_ctx: Seq<ContextView>,
    to_ctx: Seq<ContextView>,
) -> Result<PlanView, ErrorView> {
    let from = from_resolution(lines, args, from_ctx);
    let to = to_resolution(lines, args, to_ctx);
    let outcomes = seq![outcome_of(Role::From, from), outcome_of(Role::To, to)];
    if verb != Verb::Move {
        Err(
            ErrorView::Usage(
                "copy requires a destination; only `move` removes a span (and only with --force)"@,
            ),
        )
    } else if args.dest is Some || args.dest_guard is Some || args.dest_context@.len() > 0 {
        Err(
            ErrorView::Usage(
                "--force applies only when removing a span (a `move` with no destination)"@,
            ),
        )
    } else if args.dest_file is Some {
        Err(
            ErrorView::Usage(
                "--dest-file is meaningless when removing a span (there is no destination)"@,
            ),
        )
    } else if args.before || args.after {
        Err(
            ErrorView::Usage(
                "--before / --after are meaningless when removing a span (there is no destination)"@,
            ),
        )
    } else if settled(outcomes) is Some {
        Err(settled(outcomes)->0)
    } else {
        let (from, to) = (from->Ok_0 as int, to->Ok_0 as int);
        if from > to {
            Err(ErrorView::FromAfterTo { from: from as nat, to: to as nat })
        } else {
            Ok(delete_plan(args.file@, lines, from, to))
        }
    }
}

/// A plan, as the last step.
pub open spec fn applied(plan: Result<PlanView, ErrorView>) -> Result<StepView, ErrorView> {
    match plan {
        Ok(plan) => Ok(StepView::Apply(plan)),
        Err(error) => Err(error),
    }
}

/// What a call comes to once the source is read.
pub open spec fn sourced(
    verb: Verb,
    args: OpArgs,
    lines: Seq<Seq<u8>>,
    dest: Option<DestState>,
    from_ctx: Seq<ContextView>,
    to_ctx: Seq<ContextView>,
    dest_ctx: Seq<ContextView>,
) -> Result<StepView, ErrorView> {
    if args.force {
        applied(deletion(verb, args, lines, from_ctx, to_ctx))
    } else if args.dest is None && args.dest_guard is None {
        Err(
            ErrorView::Usage(
                "relocation requires a destination (--dest and/or --dest-guard); deleting the span instead requires --force"@,
            ),
        )
    } else if args.before == args.after {
        Err(ErrorView::Usage("exactly one of --before / --after is required"@))
    } else {
        match args.dest_file {
            None => applied(relocation(verb, args, lines, None, from_ctx, to_ctx, dest_ctx)),
            Some(path) => match dest {
                None => Ok(StepView::ReadDest),
                Some(DestState::SameAsSource) => applied(
                    relocation(verb, args, lines, None, from_ctx, to_ctx, dest_ctx),
                ),
                Some(DestState::Other(file)) => match loaded(path@, true, file) {
                    Err(error) => Err(error),
                    Ok(dest_lines) => applied(
                        relocation(
                            verb,
                            args,
                            lines,
                            Some((path@, dest_lines)),
                            from_ctx,
                            to_ctx,
                            dest_ctx,
                        ),
                    ),
                },
            },
        }
    }
}

/// What a call comes to, given what has been read so far.
pub open spec fn call_step(
    verb: Verb,
    args: OpArgs,
    source: Option<FileState>,
    dest: Option<DestState>,
) -> Result<StepView, ErrorView> {
    match parsed_flags(texts(args.from_context@), Role::From) {
        Err(error) => Err(error),
        Ok(from_ctx) => match parsed_flags(texts(args.to_context@), Role::To) {
            Err(error) => Err(error),
            Ok(to_ctx) => match parsed_flags(texts(args.dest_context@), Role::Dest) {
                Err(error) => Err(error),
                Ok(dest_ctx) => match source {
                    None => Ok(StepView::ReadSource),
                    Some(file) => match loaded(args.file@, false, file) {
                        Err(error) => Err(error),
                        Ok(lines) => sourced(verb, args, lines, dest, from_ctx, to_ctx, dest_ctx),
                    },
                },
            },
        },
    }
}

/// A coordinate resolves to a line of the file, and to one that holds
/// something: a guard is never empty.
pub proof fn lemma_resolution_in_file(
    lines: Seq<Seq<u8>>,
    path: Seq<char>,
    role: Role,
    addressed: Option<nat>,
    guard: Seq<char>,
    context: Seq<ContextView>,
)
    ensures
        resolution(lines, path, role, addressed, guard, context) matches Ok(num) ==> 1 <= num
            <= lines.len() && logical(lines[num - 1]).len() > 0,
{
    lemma_matching_in_file(lines, guard, context, lines.len() as int);
    let found = matching(lines, guard, context, lines.len() as int);
    if resolution(lines, path, role, addressed, guard, context) is Ok {
        assert(satisfied(lines, found[0] as int, guard, context));
        lemma_borne_guard(lines, found[0] as int, guard);
    }
}

/// A line that bears a guard holds something.
proof fn lemma_borne_guard(lines: Seq<Seq<u8>>, num: int, guard: Seq<char>)
    requires
        guard.len() > 0,
        bears(lines, num, guard),
    ensures
        logical(lines[num - 1]).len() > 0,
{
    let line = logical(lines[num - 1]);
    let at = choose|at: int| occurs_at(line, encode_utf8(guard), at);
    assert(occurs_at(line, encode_utf8(guard), at));
    assert(encode_utf8(guard).len() > 0);
}

proof fn lemma_matching_in_file(
    lines: Seq<Seq<u8>>,
    guard: Seq<char>,
    context: Seq<ContextView>,
    n: int,
)
    ensures
        forall|k: int|
            0 <= k < matching(lines, guard, context, n).len() ==> 1 <= #[trigger] matching(
                lines,
                guard,
                context,
                n,
            )[k] <= n && satisfied(
                lines,
                matching(lines, guard, context, n)[k] as int,
                guard,
                context,
            ),
    decreases n,
{
    if n > 0 {
        lemma_matching_in_file(lines, guard, context, n - 1);
        let found = matching(lines, guard, context, n);
        let earlier = matching(lines, guard, context, n - 1);
        assert forall|k: int| 0 <= k < found.len() implies 1 <= #[trigger] found[k] <= n
            && satisfied(lines, found[k] as int, guard, context) by {
            if k < earlier.len() {
                assert(found[k] == earlier[k]);
            }
        }
    }
}

/// The lines that stay are some of the file's, and the place where a moved
/// block lands is a place among them.
pub proof fn lemma_shifted_gap(lines: Seq<Seq<u8>>, from: int, to: int, gap: int)
    requires
        1 <= from <= to <= lines.len(),
        0 <= gap <= lines.len(),
        gap < from || gap >= to,
    ensures
        0 <= narrowed_by(lines, from, to) <= from - 1,
        to + narrowed_by(lines, from, to) <= lines.len(),
        0 <= shifted_gap(lines, from, to, gap) <= staying(lines, from, to).len(),
{
    lemma_run_above_bound(lines, from - 1);
    lemma_run_below_bound(lines, to);
}

/// A copy of the lines `from` to `to`, counted from one.
fn copy_block(lines: &Lines, from: usize, to: usize) -> (block: Lines)
    requires
        1 <= from <= to <= lines@.len(),
    ensures
        rows(block@) == block_of(rows(lines@), from as int, to as int),
{
    let mut block: Lines = Vec::new();
    let mut i: usize = from - 1;
    let ghost file = rows(lines@);
    while i < to
        invariant
            1 <= from <= to <= lines@.len(),
            from - 1 <= i <= to,
            file == rows(lines@),
            rows(block@) == file.subrange(from - 1, i as int),
        decreases to - i,
    {
        let ghost before = rows(block@);
        let line = lines[i].clone();
        assert(line@ == file[i as int]);
        block.push(line);
        assert(rows(block@) == before.push(file[i as int]));
        assert(file.subrange(from - 1, i + 1) == before.push(file[i as int]));
        i += 1;
    }
    block
}

/// `moved 3 lines → path:first-last`.
fn summary(verb: Verb, count: usize, path: &str, first: usize, last: usize) -> (text: String)
    ensures
        text@ == summary_text(verb, count as nat, path@, first as nat, last as nat),
{
    let mut s = verb.summary_word().to_owned();
    s.append(" ");
    s.append(decimal(count as u64).as_str());
    s.append(" ");
    s.append(plural(count));
    s.append(" → ");
    s.append(path);
    s.append(":");
    s.append(decimal(first as u64).as_str());
    s.append("-");
    s.append(decimal(last as u64).as_str());
    s
}

/// The write that replaces the file at `path` by the given lines.
fn write_of(path: &str, lines: &Lines) -> (write: FileWrite)
    ensures
        write.path@ == path@,
        write.bytes@ == flatten(rows(lines@)),
{
    FileWrite { path: path.to_owned(), bytes: file_bytes(lines) }
}

/// Sets the block `from` to `to` of `lines` into `target` at index `gap` and
/// returns the lines it takes up there.
fn place_block(
    target: &mut Lines,
    gap: usize,
    lines: &Lines,
    from: usize,
    to: usize,
) -> (range: (usize, usize))
    requires
        1 <= from <= to <= lines@.len(),
        logical(rows(lines@)[to - 1]).len() > 0,
        gap <= old(target)@.len(),
    ensures
        rows(final(target)@) == with_block(
            rows(old(target)@),
            gap as int,
            rows(lines@),
            from as int,
            to as int,
        ),
        range.0 == block_start(rows(old(target)@), gap as int, rows(lines@), from as int),
        range.1 == range.0 + (to - from),
        1 <= range.0 <= range.1 <= final(target)@.len(),
{
    let above: usize = blank_run_above(lines, from - 1);
    let below: usize = blank_run_below(lines, to);
    let block = copy_block(lines, from, to);
    assert(rows(block@).last() == rows(lines@)[to - 1]);
    insert_block(target, gap, block, above, below)
}

/// Takes the block `from` to `to` out of `lines` and tidies the seam.
fn take_out(lines: &mut Lines, from: usize, to: usize)
    requires
        1 <= from <= to <= old(lines)@.len(),
    ensures
        rows(final(lines)@) == tidied(rows(old(lines)@), from as int, to as int),
{
    let above: usize = blank_run_above(lines, from - 1);
    let below: usize = blank_run_below(lines, to);
    remove_block(lines, from, to);
    let _ = collapse_seam_blank(lines, from, above, below);
}

/// Moves the block `from` to `to` within its file to index `gap` and returns
/// the file and the lines the block takes up.
fn move_within(lines: Lines, from: usize, to: usize, gap: usize) -> (after: (
    Lines,
    (usize, usize),
))
    requires
        1 <= from <= to <= lines@.len(),
        logical(rows(lines@)[to - 1]).len() > 0,
        gap <= lines@.len(),
        gap < from || gap >= to,
    ensures
        rows(after.0@) == moved(rows(lines@), from as int, to as int, gap as int),
        after.1.0 == moved_start(rows(lines@), from as int, to as int, gap as int),
        after.1.1 == after.1.0 + (to - from),
        1 <= after.1.0 <= after.1.1 <= after.0@.len(),
{
    let ghost file = rows(lines@);
    let mut target = lines;
    if gap == from - 1 || gap == to {
        return (target, (from, to));
    }
    proof {
        lemma_shifted_gap(file, from as int, to as int, gap as int);
    }
    let above: usize = blank_run_above(&target, from - 1);
    let below: usize = blank_run_below(&target, to);
    let block = copy_block(&target, from, to);
    assert(rows(block@).last() == file[to - 1]);
    let with_newline = has_terminator(target[target.len() - 1].as_slice());
    let narrowed: usize = if above < below { above } else { below };
    let insert_at: usize = if gap < from { gap } else { gap - (to - from + 1) };
    let at: usize = if insert_at >= from { insert_at - narrowed } else { insert_at };

    // Every line that stays keeps its terminator until the block is back in the
    // file, and only then does the file's end get what it had.
    let mut below_block = target.split_off(to + narrowed);
    target.truncate(from - 1);
    target.append(&mut below_block);
    assert(rows(target@) == staying(file, from as int, to as int));
    let nl = newline(&target);
    let ghost rest = rows(target@);
    let mut tail = target.split_off(at);
    assert(rows(tail@) == rest.skip(at as int));
    set_ending(&mut tail, with_newline);
    target.append(&mut tail);
    assert(rows(target@) == receiving(file, from as int, to as int, gap as int));
    assert(rows(target@).len() == target@.len());
    let range = set_block(&mut target, at, block, above, below, Some(with_newline), &nl);
    (target, range)
}

/// Relocates the block `from` to `to` within its file to index `gap` and
/// returns the file and the lines the block takes up.
fn relocate_within(verb: Verb, lines: Lines, from: usize, to: usize, gap: usize) -> (after: (
    Lines,
    (usize, usize),
))
    requires
        1 <= from <= to <= lines@.len(),
        logical(rows(lines@)[to - 1]).len() > 0,
        gap <= lines@.len(),
        gap < from || gap >= to,
    ensures
        rows(after.0@) == relocated(verb, rows(lines@), from as int, to as int, gap as int),
        after.1.0 == relocated_start(verb, rows(lines@), from as int, to as int, gap as int),
        after.1.1 == after.1.0 + (to - from),
        1 <= after.1.0 <= after.1.1 <= after.0@.len(),
{
    if verb == Verb::Move {
        return move_within(lines, from, to, gap);
    }
    let above: usize = blank_run_above(&lines, from - 1);
    let below: usize = blank_run_below(&lines, to);
    let block = copy_block(&lines, from, to);
    assert(rows(block@).last() == rows(lines@)[to - 1]);
    let mut target = lines;
    let range = insert_block(&mut target, gap, block, above, below);
    (target, range)
}

/// Plans a relocation within one file.
fn plan_intra(
    verb: Verb,
    path: &str,
    lines: Lines,
    from: usize,
    to: usize,
    gap: usize,
) -> (plan: Plan)
    requires
        1 <= from <= to <= lines@.len(),
        logical(rows(lines@)[to - 1]).len() > 0,
        gap <= lines@.len(),
        gap < from || gap >= to,
    ensures
        plan@ == intra_plan(verb, path@, rows(lines@), from as int, to as int, gap as int),
{
    let (after, range) = relocate_within(verb, lines, from, to, gap);
    let mut writes: Vec<FileWrite> = Vec::new();
    writes.push(write_of(path, &after));
    let mut output = summary(verb, to - from + 1, path, range.0, range.1);
    output.append("\n");
    render_affected(&mut output, &after, range.0, range.1);
    let plan = Plan { writes, output };
    assert(plan@.writes == seq![(path@, flatten(rows(after@)))]);
    plan
}

/// Plans a relocation into another file.
#[verifier::rlimit(30)]
fn plan_cross(
    verb: Verb,
    path: &str,
    lines: Lines,
    from: usize,
    to: usize,
    dest_path: &str,
    dest_lines: Lines,
    gap: usize,
) -> (plan: Plan)
    requires
        1 <= from <= to <= lines@.len(),
        logical(rows(lines@)[to - 1]).len() > 0,
        gap <= dest_lines@.len(),
    ensures
        plan@ == cross_plan(
            verb,
            path@,
            rows(lines@),
            from as int,
            to as int,
            dest_path@,
            rows(dest_lines@),
            gap as int,
        ),
{
    let mut rest = lines;
    let mut after = dest_lines;
    let blen: usize = to - from + 1;
    let range = place_block(&mut after, gap, &rest, from, to);

    let mut writes: Vec<FileWrite> = Vec::new();
    writes.push(write_of(dest_path, &after));
    let mut output = summary(verb, blen, dest_path, range.0, range.1);
    output.append(" (from ");
    output.append(path);
    output.append(":");
    output.append(decimal(from as u64).as_str());
    output.append("-");
    output.append(decimal(to as u64).as_str());
    output.append(")\n");
    if verb == Verb::Move {
        take_out(&mut rest, from, to);
        writes.push(write_of(path, &rest));
        output.append("\n");
        output.append(dest_path);
        output.append(":\n");
        render_affected(&mut output, &after, range.0, range.1);
        output.append("\n");
        output.append(path);
        output.append(":  (");
        output.append(decimal(blen as u64).as_str());
        output.append(" ");
        output.append(plural(blen));
        output.append(" removed at ");
        output.append(decimal(from as u64).as_str());
        output.append(")\n");
        render_seam(&mut output, &rest, from);
        let plan = Plan { writes, output };
        assert(plan@.writes == seq![
            (dest_path@, flatten(rows(after@))),
            (path@, flatten(rows(rest@))),
        ]);
        plan
    } else {
        output.append(dest_path);
        output.append(":\n");
        render_affected(&mut output, &after, range.0, range.1);
        let plan = Plan { writes, output };
        assert(plan@.writes == seq![(dest_path@, flatten(rows(after@)))]);
        plan
    }
}

/// A planned call as a mathematical value.
pub open spec fn plan_result_view(plan: Result<Plan, SpanError>) -> Result<PlanView, ErrorView> {
    match plan {
        Ok(plan) => Ok(plan@),
        Err(error) => Err(error@),
    }
}

/// A step of a call as a mathematical value.
pub open spec fn step_result_view(step: Result<Step, SpanError>) -> Result<StepView, ErrorView> {
    match step {
        Ok(step) => Ok(step@),
        Err(error) => Err(error@),
    }
}

/// What a reference that may be absent refers to.
pub open spec fn observed<T>(item: Option<&T>) -> Option<T> {
    match item {
        Some(item) => Some(*item),
        None => None,
    }
}

/// Both ends of a span resolve to lines of the file.
proof fn lemma_ends_in_file(
    lines: Seq<Seq<u8>>,
    args: OpArgs,
    from_ctx: Seq<ContextView>,
    to_ctx: Seq<ContextView>,
)
    ensures
        from_resolution(lines, args, from_ctx) matches Ok(num) ==> 1 <= num <= lines.len(),
        to_resolution(lines, args, to_ctx) matches Ok(num) ==> 1 <= num <= lines.len() && logical(
            lines[num - 1],
        ).len() > 0,
{
    lemma_resolution_in_file(
        lines,
        args.file@,
        Role::From,
        number_view(args.from),
        option_text(args.from_guard),
        from_ctx,
    );
    lemma_resolution_in_file(
        lines,
        args.file@,
        Role::To,
        number_view(args.to),
        option_text(args.to_guard),
        to_ctx,
    );
}

/// The destination resolves to a line of the file, or to its top.
proof fn lemma_dest_in_file(
    lines: Seq<Seq<u8>>,
    path: Seq<char>,
    args: OpArgs,
    context: Seq<ContextView>,
    before: bool,
    dest: Option<nat>,
)
    ensures
        dest_resolution(lines, path, args, context, before, dest) matches Ok(num) ==> num
            <= lines.len(),
{
    if let Some(guard) = args.dest_guard {
        lemma_resolution_in_file(lines, path, Role::Dest, dest, guard@, context);
    }
}

/// Resolves the start of the span.
fn resolve_from(lines: &Lines, args: &OpArgs, context: &[ContextSpec]) -> (found: Result<
    usize,
    SpanError,
>)
    ensures
        result_view(found) == from_resolution(rows(lines@), *args, context_view(context@)),
{
    resolve(
        lines,
        args.file.as_str(),
        Role::From,
        args.from,
        text_or_empty(&args.from_guard),
        context,
    )
}

/// Resolves the end of the span.
fn resolve_to(lines: &Lines, args: &OpArgs, context: &[ContextSpec]) -> (found: Result<
    usize,
    SpanError,
>)
    ensures
        result_view(found) == to_resolution(rows(lines@), *args, context_view(context@)),
{
    resolve(
        lines,
        args.file.as_str(),
        Role::To,
        args.to,
        text_or_empty(&args.to_guard),
        context,
    )
}

/// Plans a deletion.
fn plan_delete(path: &str, lines: Lines, from: usize, to: usize) -> (plan: Plan)
    requires
        1 <= from <= to <= lines@.len(),
    ensures
        plan@ == delete_plan(path@, rows(lines@), from as int, to as int),
{
    let mut rest = lines;
    let blen: usize = to - from + 1;
    take_out(&mut rest, from, to);
    let mut writes: Vec<FileWrite> = Vec::new();
    writes.push(write_of(path, &rest));
    let mut output = "deleted ".to_owned();
    output.append(decimal(blen as u64).as_str());
    output.append(" ");
    output.append(plural(blen));
    output.append(" from ");
    output.append(path);
    output.append(":");
    output.append(decimal(from as u64).as_str());
    output.append("-");
    output.append(decimal(to as u64).as_str());
    output.append("\n");
    render_seam(&mut output, &rest, from);
    let plan = Plan { writes, output };
    assert(plan@.writes == seq![(path@, flatten(rows(rest@)))]);
    plan
}

/// A destination file and its lines as mathematical values.
pub open spec fn other_view(other: Option<(&str, Lines)>) -> Option<(Seq<char>, Seq<Seq<u8>>)> {
    match other {
        Some((path, lines)) => Some((path@, rows(lines@))),
        None => None,
    }
}

/// Plans a relocation once the files are read: all three coordinates are
/// resolved before any failure is reported.
fn relocate(
    verb: Verb,
    args: &OpArgs,
    src_lines: Lines,
    other: Option<(&str, Lines)>,
    from_ctx: &[ContextSpec],
    to_ctx: &[ContextSpec],
    dest_ctx: &[ContextSpec],
) -> (plan: Result<Plan, SpanError>)
    ensures
        plan_result_view(plan) == relocation(
            verb,
            *args,
            rows(src_lines@),
            other_view(other),
            context_view(from_ctx@),
            context_view(to_ctx@),
            context_view(dest_ctx@),
        ),
{
    let ghost file = rows(src_lines@);
    let from_res = resolve_from(&src_lines, args, from_ctx);
    let to_res = resolve_to(&src_lines, args, to_ctx);
    let dest_res = match &other {
        Some((path, lines)) => {
            proof {
                lemma_dest_in_file(
                    rows(lines@),
                    path@,
                    *args,
                    context_view(dest_ctx@),
                    args.before,
                    number_view(args.dest),
                );
            }
            resolve_dest(lines, path, args, dest_ctx, args.before, args.dest)
        },
        None => {
            proof {
                lemma_dest_in_file(
                    file,
                    args.file@,
                    *args,
                    context_view(dest_ctx@),
                    args.before,
                    number_view(args.dest),
                );
            }
            resolve_dest(
                &src_lines,
                args.file.as_str(),
                args,
                dest_ctx,
                args.before,
                args.dest,
            )
        },
    };
    proof {
        lemma_ends_in_file(file, *args, context_view(from_ctx@), context_view(to_ctx@));
    }
    let ghost found = seq![
        outcome_of(Role::From, result_view(from_res)),
        outcome_of(Role::To, result_view(to_res)),
        outcome_of(Role::Dest, result_view(dest_res)),
    ];
    let dest_res = match dest_res {
        Err(error) => {
            if error.code() == 2 {
                return Err(error);
            }
            Err(error)
        },
        Ok(line) => Ok(line),
    };
    let outcomes = vec![
        RoleOutcome { role: Role::From, result: from_res },
        RoleOutcome { role: Role::To, result: to_res },
        RoleOutcome { role: Role::Dest, result: dest_res },
    ];
    assert(outcomes_view(outcomes@) == found);
    match settle(outcomes) {
        Err(error) => Err(error),
        Ok(resolved) => {
            let from: usize = resolved[0];
            let to: usize = resolved[1];
            let dest_line: usize = resolved[2];
            assert(found[0].result == Ok::<nat, ErrorView>(from as nat));
            assert(found[1].result == Ok::<nat, ErrorView>(to as nat));
            assert(found[2].result == Ok::<nat, ErrorView>(dest_line as nat));
            if from > to {
                return Err(SpanError::FromAfterTo { from, to });
            }
            let gap: usize = gap_for(dest_line, args.before);
            match other {
                Some((dest_path, dest_lines)) => Ok(
                    plan_cross(
                        verb,
                        args.file.as_str(),
                        src_lines,
                        from,
                        to,
                        dest_path,
                        dest_lines,
                        gap,
                    ),
                ),
                None => {
                    if dest_line != 0 && dest_line >= from && dest_line <= to {
                        return Err(SpanError::DestInSpan { dest: dest_line, from, to });
                    }
                    Ok(plan_intra(verb, args.file.as_str(), src_lines, from, to, gap))
                },
            }
        },
    }
}

/// The deletion of a span by reference: takes the lines out and puts them
/// nowhere. Anything that names a destination is refused, and both ends of the
/// span are checked as strictly as for a relocation.
pub fn run_delete(
    verb: Verb,
    args: &OpArgs,
    src_lines: Lines,
    from_ctx: &[ContextSpec],
    to_ctx: &[ContextSpec],
) -> (plan: Result<Plan, SpanError>)
    ensures
        plan_result_view(plan) == deletion(
            verb,
            *args,
            rows(src_lines@),
            context_view(from_ctx@),
            context_view(to_ctx@),
        ),
{
    if verb != Verb::Move {
        return Err(
            SpanError::Usage(
                "copy requires a destination; only `move` removes a span (and only with --force)".to_owned(),
            ),
        );
    }
    if args.dest.is_some() || args.dest_guard.is_some() || args.dest_context.len() > 0 {
        return Err(
            SpanError::Usage(
                "--force applies only when removing a span (a `move` with no destination)".to_owned(),
            ),
        );
    }
    if args.dest_file.is_some() {
        return Err(
            SpanError::Usage(
                "--dest-file is meaningless when removing a span (there is no destination)".to_owned(),
            ),
        );
    }
    if args.before || args.after {
        return Err(
            SpanError::Usage(
                "--before / --after are meaningless when removing a span (there is no destination)".to_owned(),
            ),
        );
    }
    let ghost file = rows(src_lines@);
    let from_res = resolve_from(&src_lines, args, from_ctx);
    let to_res = resolve_to(&src_lines, args, to_ctx);
    proof {
        lemma_ends_in_file(file, *args, context_view(from_ctx@), context_view(to_ctx@));
    }
    let ghost found = seq![
        outcome_of(Role::From, result_view(from_res)),
        outcome_of(Role::To, result_view(to_res)),
    ];
    let outcomes = vec![
        RoleOutcome { role: Role::From, result: from_res },
        RoleOutcome { role: Role::To, result: to_res },
    ];
    assert(outcomes_view(outcomes@) == found);
    match settle(outcomes) {
        Err(error) => Err(error),
        Ok(resolved) => {
            let from: usize = resolved[0];
            let to: usize = resolved[1];
            assert(found[0].result == Ok::<nat, ErrorView>(from as nat));
            assert(found[1].result == Ok::<nat, ErrorView>(to as nat));
            if from > to {
                return Err(SpanError::FromAfterTo { from, to });
            }
            Ok(plan_delete(args.file.as_str(), src_lines, from, to))
        },
    }
}

/// Validates the flags, resolves every coordinate, and plans the call.
///
/// `source` and `dest` are the files as far as they have been read. Where one
/// is still needed, the answer says which, and the call is made again with it.
/// All coordinates are resolved before any of them is reported, and there is
/// no plan unless all of them resolved, so a failing call writes nothing.
pub fn run(
    verb: Verb,
    args: &OpArgs,
    source: Option<&FileState>,
    dest: Option<&DestState>,
) -> (step: Result<Step, SpanError>)
    ensures
        step_result_view(step) == call_step(verb, *args, observed(source), observed(dest)),
{
    let from_ctx = match parse_context(args.from_context.as_slice(), Role::From) {
        Err(error) => return Err(error),
        Ok(context) => context,
    };
    let to_ctx = match parse_context(args.to_context.as_slice(), Role::To) {
        Err(error) => return Err(error),
        Ok(context) => context,
    };
    let dest_ctx = match parse_context(args.dest_context.as_slice(), Role::Dest) {
        Err(error) => return Err(error),
        Ok(context) => context,
    };
    let file = match source {
        None => return Ok(Step::ReadSource),
        Some(file) => file,
    };
    let src_lines = match load(args.file.as_str(), false, file) {
        Err(error) => return Err(error),
        Ok(lines) => lines,
    };
    if args.force {
        return match run_delete(
            verb,
            args,
            src_lines,
            from_ctx.as_slice(),
            to_ctx.as_slice(),
        ) {
            Err(error) => Err(error),
            Ok(plan) => Ok(Step::Apply(plan)),
        };
    }
    if args.dest.is_none() && args.dest_guard.is_none() {
        return Err(
            SpanError::Usage(
                "relocation requires a destination (--dest and/or --dest-guard); deleting the span instead requires --force".to_owned(),
            ),
        );
    }
    if args.before == args.after {
        return Err(SpanError::Usage("exactly one of --before / --after is required".to_owned()));
    }
    let other = match &args.dest_file {
        None => None,
        Some(path) => match dest {
            None => return Ok(Step::ReadDest),
            Some(DestState::SameAsSource) => None,
            Some(DestState::Other(file)) => match load(path.as_str(), true, file) {
                Err(error) => return Err(error),
                Ok(lines) => Some((path.as_str(), lines)),
            },
        },
    };
    match relocate(
        verb,
        args,
        src_lines,
        other,
        from_ctx.as_slice(),
        to_ctx.as_slice(),
        dest_ctx.as_slice(),
    ) {
        Err(error) => Err(error),
        Ok(plan) => Ok(Step::Apply(plan)),
    }
}

} // verus!
