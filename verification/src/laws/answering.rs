//! Which calls are carried out, what the others are told, and when a file is
//! asked for.

use vstd::prelude::*;
use vstd::utf8::valid_utf8;

use crate::anchor::{number_view, parsed_flags, resolution, ContextView};
use crate::error::{failure_count, ErrorView, OutcomeView, Role};
use crate::laws::calls::{
    dest_of, destination_inside_span_is_refused, lemma_three_outcomes, lemma_two_outcomes,
    names_other,
};
use crate::laws::relocating::{
    calls_do_what_they_ask_for, is_asked_for, is_text, lines_in, names_line, names_place,
    names_with,
};
use crate::laws::resolving::{
    all_flags_are_read, all_read_as, coordinates_resolve_to_the_line_that_fits, fails_with,
    failures_have_their_reason, first_unread, fits, only_fit, unreadable_flags_are_refused,
};
use crate::ops::{
    call_step, deletion, from_resolution, last_failure, lemma_resolution_in_file, loaded,
    outcome_of, relocation, sourced, to_resolution, DestState, FileState, OpArgs, PlanView,
    StepView, Verb,
};
use crate::search::texts;
use crate::text::option_text;

verus! {

/// Every one of the flags can be read as a neighbor anchor.
pub open spec fn readable(flags: Seq<String>) -> bool {
    exists|context: Seq<ContextView>| #[trigger] all_read_as(texts(flags), context)
}

/// What the flags are read as.
pub open spec fn read(flags: Seq<String>) -> Seq<ContextView> {
    choose|context: Seq<ContextView>| #[trigger] all_read_as(texts(flags), context)
}

proof fn lemma_readable(flags: Seq<String>, role: Role)
    ensures
        readable(flags) ==> parsed_flags(texts(flags), role) == Ok::<Seq<ContextView>, ErrorView>(
            read(flags),
        ),
        !readable(flags) ==> parsed_flags(texts(flags), role) is Err && first_unread(
            texts(flags),
            role,
            parsed_flags(texts(flags), role)->Err_0,
        ),
{
    if readable(flags) {
        all_flags_are_read(texts(flags), role, read(flags));
    } else {
        if let Ok(context) = parsed_flags(texts(flags), role) {
            all_flags_are_read(texts(flags), role, context);
            assert(all_read_as(texts(flags), context));
        }
        unreadable_flags_are_refused(texts(flags), role);
    }
}

/// What a coordinate comes to: the only line that fits, or the reason why it is
/// none.
pub open spec fn comes_to(
    lines: Seq<Seq<u8>>,
    path: Seq<char>,
    role: Role,
    number: Option<usize>,
    guard: Option<String>,
    flags: Seq<String>,
    result: Result<nat, ErrorView>,
) -> bool {
    let text = match guard {
        Some(guard) => guard@,
        None => seq![],
    };
    let addressed = match number {
        Some(n) => Some(n as nat),
        None => None,
    };
    match result {
        Ok(num) => {
            &&& text.len() > 0
            &&& addressed is None || addressed == Some(num)
            &&& only_fit(lines, num as int, text, read(flags))
        },
        Err(error) => fails_with(lines, path, role, addressed, text, read(flags), error),
    }
}

proof fn lemma_comes_to(
    lines: Seq<Seq<u8>>,
    path: Seq<char>,
    role: Role,
    number: Option<usize>,
    guard: Option<String>,
    flags: Seq<String>,
)
    ensures
        comes_to(
            lines,
            path,
            role,
            number,
            guard,
            flags,
            resolution(lines, path, role, number_view(number), option_text(guard), read(flags)),
        ),
{
    let addressed = number_view(number);
    let text = option_text(guard);
    match resolution(lines, path, role, addressed, text, read(flags)) {
        Ok(num) => coordinates_resolve_to_the_line_that_fits(
            lines,
            path,
            role,
            addressed,
            text,
            read(flags),
            num,
        ),
        Err(error) => failures_have_their_reason(
            lines,
            path,
            role,
            addressed,
            text,
            read(flags),
            error,
        ),
    }
}

/// What the destination comes to: the top of the file where line zero is asked
/// for, else a coordinate as any other.
pub open spec fn dest_comes_to(
    lines: Seq<Seq<u8>>,
    path: Seq<char>,
    args: OpArgs,
    result: Result<nat, ErrorView>,
) -> bool {
    if args.dest == Some(0usize) {
        result == Ok::<nat, ErrorView>(0)
    } else {
        comes_to(
            lines,
            path,
            Role::Dest,
            args.dest,
            args.dest_guard,
            args.dest_context@,
            result,
        )
    }
}

/// How many of the coordinates failed.
pub open spec fn failed(outcomes: Seq<OutcomeView>) -> nat
    decreases outcomes.len(),
{
    if outcomes.len() == 0 {
        0
    } else {
        failed(outcomes.skip(1)) + if outcomes[0].result is Err {
            1nat
        } else {
            0
        }
    }
}

/// The error tells of the coordinates that failed: of one alone by itself, and
/// of two or more together with every coordinate of the call, in order.
pub open spec fn tells_of(error: ErrorView, outcomes: Seq<OutcomeView>) -> bool {
    &&& failed(outcomes) == 1 ==> exists|i: int|
        0 <= i < outcomes.len() && (#[trigger] outcomes[i]).result == Err::<nat, ErrorView>(error)
    &&& failed(outcomes) >= 2 ==> error == ErrorView::Multi(outcomes)
}

/// What a call for a deletion is told that is not carried out, once the source
/// is read.
pub open spec fn deletion_refused(
    args: OpArgs,
    lines: Seq<Seq<u8>>,
    from: Result<nat, ErrorView>,
    to: Result<nat, ErrorView>,
    error: ErrorView,
) -> bool {
    let outcomes = seq![
        OutcomeView { role: Role::From, result: from },
        OutcomeView { role: Role::To, result: to },
    ];
    &&& comes_to(
        lines,
        args.file@,
        Role::From,
        args.from,
        args.from_guard,
        args.from_context@,
        from,
    )
    &&& comes_to(lines, args.file@, Role::To, args.to, args.to_guard, args.to_context@, to)
    &&& if failed(outcomes) > 0 {
        tells_of(error, outcomes)
    } else {
        from->Ok_0 > to->Ok_0 && error == (ErrorView::FromAfterTo {
            from: from->Ok_0,
            to: to->Ok_0,
        })
    }
}

/// What a call for a relocation is told that is not carried out, once the files
/// are read. `target` is the file that the destination is looked for in, and
/// `within` whether that is the source.
pub open spec fn relocation_refused(
    args: OpArgs,
    lines: Seq<Seq<u8>>,
    path: Seq<char>,
    target: Seq<Seq<u8>>,
    within: bool,
    from: Result<nat, ErrorView>,
    to: Result<nat, ErrorView>,
    dest: Result<nat, ErrorView>,
    error: ErrorView,
) -> bool {
    let outcomes = seq![
        OutcomeView { role: Role::From, result: from },
        OutcomeView { role: Role::To, result: to },
        OutcomeView { role: Role::Dest, result: dest },
    ];
    &&& comes_to(
        lines,
        args.file@,
        Role::From,
        args.from,
        args.from_guard,
        args.from_context@,
        from,
    )
    &&& comes_to(lines, args.file@, Role::To, args.to, args.to_guard, args.to_context@, to)
    &&& dest_comes_to(target, path, args, dest)
    &&& if failed(outcomes) > 0 {
        tells_of(error, outcomes)
    } else if from->Ok_0 > to->Ok_0 {
        error == (ErrorView::FromAfterTo { from: from->Ok_0, to: to->Ok_0 })
    } else {
        within && args.dest != Some(0usize) && from->Ok_0 <= dest->Ok_0 <= to->Ok_0 && error == (
        ErrorView::DestInSpan { dest: dest->Ok_0, from: from->Ok_0, to: to->Ok_0 })
    }
}

/// What is wrong with a file that cannot be worked on.
pub open spec fn file_refused(
    path: Seq<char>,
    is_dest: bool,
    file: FileState,
    error: ErrorView,
) -> bool {
    match file {
        FileState::Missing => error == (ErrorView::FileMissing { path, is_dest }),
        FileState::Present(Err(reason)) => error == ErrorView::Io(
            "cannot read "@ + path + ": "@ + reason@,
        ),
        FileState::Present(Ok(bytes)) => !valid_utf8(bytes@) && error == ErrorView::Io(
            path + " is not valid UTF-8"@,
        ),
    }
}

/// What a call is told whose flags do not go together.
pub open spec fn misuse(verb: Verb, args: OpArgs) -> Seq<char> {
    if !args.force {
        if args.dest is None && args.dest_guard is None {
            "relocation requires a destination (--dest and/or --dest-guard); deleting the span instead requires --force"@
        } else {
            "exactly one of --before / --after is required"@
        }
    } else if verb == Verb::Copy {
        "copy requires a destination; only `move` removes a span (and only with --force)"@
    } else if args.dest is Some || args.dest_guard is Some || args.dest_context@.len() > 0 {
        "--force applies only when removing a span (a `move` with no destination)"@
    } else if args.dest_file is Some {
        "--dest-file is meaningless when removing a span (there is no destination)"@
    } else {
        "--before / --after are meaningless when removing a span (there is no destination)"@
    }
}

/// What a call is told that asks for the top of a file and more.
pub open spec fn top_misuse(args: OpArgs) -> Seq<char> {
    if args.before {
        "--dest 0 (top of file) requires --after"@
    } else if args.dest_guard is Some {
        "--dest 0 takes no --dest-guard"@
    } else {
        "--dest 0 takes no --dest-context"@
    }
}

/// The flags of the call do not go together: a deletion is asked for by force
/// and a move alone, and a relocation by a destination and one of two sides, of
/// which the top of the file has one and takes nothing else.
pub open spec fn misused(verb: Verb, args: OpArgs) -> bool {
    if args.force {
        verb == Verb::Copy || args.dest is Some || args.dest_guard is Some
            || args.dest_context@.len() > 0 || args.dest_file is Some || args.before || args.after
    } else {
        (args.dest is None && args.dest_guard is None) || args.before == args.after
    }
}

/// The top of the file is asked for together with something that it does not
/// take.
pub open spec fn top_misused(args: OpArgs) -> bool {
    args.dest == Some(0usize) && (args.before || args.dest_guard is Some
        || args.dest_context@.len() > 0)
}

/// Why a call is refused: the first of these that holds. A neighbor anchor that
/// cannot be read; a source that cannot be worked on; flags that do not go
/// together; a destination that cannot be worked on; a top of file with more to
/// it; coordinates that do not resolve; a span that ends before it starts; a
/// destination within it.
pub open spec fn refused_for(
    verb: Verb,
    args: OpArgs,
    source: FileState,
    dest: Option<DestState>,
    error: ErrorView,
) -> bool {
    if !readable(args.from_context@) {
        first_unread(texts(args.from_context@), Role::From, error)
    } else if !readable(args.to_context@) {
        first_unread(texts(args.to_context@), Role::To, error)
    } else if !readable(args.dest_context@) {
        first_unread(texts(args.dest_context@), Role::Dest, error)
    } else if !is_text(source) {
        file_refused(args.file@, false, source, error)
    } else if misused(verb, args) {
        error == ErrorView::Usage(misuse(verb, args))
    } else if args.force {
        exists|from: Result<nat, ErrorView>, to: Result<nat, ErrorView>|
            #[trigger] deletion_refused(args, lines_in(source), from, to, error)
    } else if names_other(args, dest) && !is_text(dest->0->Other_0) {
        file_refused(args.dest_file->0@, true, dest->0->Other_0, error)
    } else if top_misused(args) {
        error == ErrorView::Usage(top_misuse(args))
    } else if names_other(args, dest) {
        exists|
            from: Result<nat, ErrorView>,
            to: Result<nat, ErrorView>,
            at: Result<nat, ErrorView>,
        |
            #[trigger] relocation_refused(
                args,
                lines_in(source),
                args.dest_file->0@,
                lines_in(dest->0->Other_0),
                false,
                from,
                to,
                at,
                error,
            )
    } else {
        exists|
            from: Result<nat, ErrorView>,
            to: Result<nat, ErrorView>,
            at: Result<nat, ErrorView>,
        |
            #[trigger] relocation_refused(
                args,
                lines_in(source),
                args.file@,
                lines_in(source),
                true,
                from,
                to,
                at,
                error,
            )
    }
}

proof fn lemma_failed_two(outcomes: Seq<OutcomeView>)
    requires
        outcomes.len() == 2,
    ensures
        failed(outcomes) == failure_count(outcomes),
{
    lemma_two_outcomes(outcomes);
    reveal_with_fuel(failed, 3);
    assert(outcomes.skip(1)[0] == outcomes[1]);
}

proof fn lemma_failed_three(outcomes: Seq<OutcomeView>)
    requires
        outcomes.len() == 3,
    ensures
        failed(outcomes) == failure_count(outcomes),
{
    lemma_three_outcomes(outcomes);
    reveal_with_fuel(failed, 4);
    assert(outcomes.skip(1)[0] == outcomes[1]);
    assert(outcomes.skip(1).skip(1)[0] == outcomes[2]);
}

proof fn lemma_last_failure(outcomes: Seq<OutcomeView>)
    requires
        failure_count(outcomes) >= 1,
    ensures
        exists|i: int|
            0 <= i < outcomes.len() && (#[trigger] outcomes[i]).result == Err::<nat, ErrorView>(
                last_failure(outcomes),
            ),
    decreases outcomes.len(),
{
    let n = outcomes.len() - 1;
    if outcomes.last().result is Err {
        assert(outcomes[n].result == Err::<nat, ErrorView>(last_failure(outcomes)));
    } else {
        let earlier = outcomes.drop_last();
        lemma_last_failure(earlier);
        let i = choose|i: int|
            0 <= i < earlier.len() && (#[trigger] earlier[i]).result == Err::<nat, ErrorView>(
                last_failure(earlier),
            );
        assert(outcomes[i] == earlier[i]);
    }
}

proof fn lemma_deletion_refused(verb: Verb, args: OpArgs, lines: Seq<Seq<u8>>, error: ErrorView)
    requires
        args.force,
        !misused(verb, args),
        deletion(verb, args, lines, read(args.from_context@), read(args.to_context@)) == Err::<
            PlanView,
            ErrorView,
        >(error),
    ensures
        exists|from: Result<nat, ErrorView>, to: Result<nat, ErrorView>|
            #[trigger] deletion_refused(args, lines, from, to, error),
{
    let from = from_resolution(lines, args, read(args.from_context@));
    let to = to_resolution(lines, args, read(args.to_context@));
    let outcomes = seq![outcome_of(Role::From, from), outcome_of(Role::To, to)];
    lemma_comes_to(
        lines,
        args.file@,
        Role::From,
        args.from,
        args.from_guard,
        args.from_context@,
    );
    lemma_comes_to(lines, args.file@, Role::To, args.to, args.to_guard, args.to_context@);
    lemma_failed_two(outcomes);
    lemma_two_outcomes(outcomes);
    if failure_count(outcomes) >= 1 {
        lemma_last_failure(outcomes);
    }
    assert(deletion_refused(args, lines, from, to, error));
}

proof fn lemma_relocation_refused(
    verb: Verb,
    args: OpArgs,
    lines: Seq<Seq<u8>>,
    other: Option<(Seq<char>, Seq<Seq<u8>>)>,
    path: Seq<char>,
    target: Seq<Seq<u8>>,
    within: bool,
    error: ErrorView,
)
    requires
        !args.force,
        !misused(verb, args),
        !top_misused(args),
        readable(args.dest_context@),
        within == (other is None),
        match other {
            Some((named, file)) => path == named && target == file,
            None => path == args.file@ && target == lines,
        },
        relocation(
            verb,
            args,
            lines,
            other,
            read(args.from_context@),
            read(args.to_context@),
            read(args.dest_context@),
        ) == Err::<PlanView, ErrorView>(error),
    ensures
        exists|
            from: Result<nat, ErrorView>,
            to: Result<nat, ErrorView>,
            at: Result<nat, ErrorView>,
        |
            #[trigger] relocation_refused(
                args,
                lines,
                path,
                target,
                within,
                from,
                to,
                at,
                error,
            ),
{
    let from = from_resolution(lines, args, read(args.from_context@));
    let to = to_resolution(lines, args, read(args.to_context@));
    let context = read(args.dest_context@);
    let at = dest_of(args, lines, other, context);
    let outcomes = seq![
        outcome_of(Role::From, from),
        outcome_of(Role::To, to),
        outcome_of(Role::Dest, at),
    ];
    lemma_comes_to(
        lines,
        args.file@,
        Role::From,
        args.from,
        args.from_guard,
        args.from_context@,
    );
    lemma_comes_to(lines, args.file@, Role::To, args.to, args.to_guard, args.to_context@);
    lemma_comes_to(
        target,
        path,
        Role::Dest,
        args.dest,
        args.dest_guard,
        args.dest_context@,
    );
    assert(all_read_as(texts(args.dest_context@), context));
    assert(context.len() == args.dest_context@.len());
    assert(dest_comes_to(target, path, args, at));
    lemma_failed_three(outcomes);
    lemma_three_outcomes(outcomes);
    if failure_count(outcomes) >= 1 {
        lemma_last_failure(outcomes);
    }
    lemma_resolution_in_file(
        lines,
        args.file@,
        Role::From,
        number_view(args.from),
        option_text(args.from_guard),
        read(args.from_context@),
    );
    lemma_resolution_in_file(
        target,
        path,
        Role::Dest,
        number_view(args.dest),
        option_text(args.dest_guard),
        context,
    );
    assert(relocation_refused(args, lines, path, target, within, from, to, at, error));
}

/// A call that is refused is told the first thing that is wrong with it.
#[verifier::rlimit(60)]
pub proof fn refusals_have_their_reason(
    verb: Verb,
    args: OpArgs,
    source: FileState,
    dest: Option<DestState>,
    error: ErrorView,
)
    requires
        call_step(verb, args, Some(source), dest) == Err::<StepView, ErrorView>(error),
    ensures
        refused_for(verb, args, source, dest, error),
{
    lemma_readable(args.from_context@, Role::From);
    lemma_readable(args.to_context@, Role::To);
    lemma_readable(args.dest_context@, Role::Dest);
    if readable(args.from_context@) && readable(args.to_context@) && readable(args.dest_context@)
        && is_text(source) {
        let from = read(args.from_context@);
        let to = read(args.to_context@);
        let at = read(args.dest_context@);
        let lines = lines_in(source);
        assert(loaded(args.file@, false, source) == Ok::<Seq<Seq<u8>>, ErrorView>(lines));
        assert(sourced(verb, args, lines, dest, from, to, at) == Err::<StepView, ErrorView>(error));
        lemma_sourced_refused(verb, args, source, dest, error);
    }
}

#[verifier::rlimit(60)]
proof fn lemma_sourced_refused(
    verb: Verb,
    args: OpArgs,
    source: FileState,
    dest: Option<DestState>,
    error: ErrorView,
)
    requires
        readable(args.from_context@),
        readable(args.to_context@),
        readable(args.dest_context@),
        is_text(source),
        sourced(
            verb,
            args,
            lines_in(source),
            dest,
            read(args.from_context@),
            read(args.to_context@),
            read(args.dest_context@),
        ) == Err::<StepView, ErrorView>(error),
    ensures
        refused_for(verb, args, source, dest, error),
{
    let lines = lines_in(source);
    let from = read(args.from_context@);
    let to = read(args.to_context@);
    let at = read(args.dest_context@);
    if !misused(verb, args) {
        if args.force {
            lemma_deletion_refused(verb, args, lines, error);
        } else if names_other(args, dest) {
            let file = dest->0->Other_0;
            let path = args.dest_file->0@;
            if is_text(file) {
                assert(loaded(path, true, file) == Ok::<Seq<Seq<u8>>, ErrorView>(lines_in(file)));
                let other = Some((path, lines_in(file)));
                assert(relocation(verb, args, lines, other, from, to, at) == Err::<
                    PlanView,
                    ErrorView,
                >(error));
                if top_misused(args) {
                    lemma_top_misused(verb, args, lines, other, from, to, error);
                } else {
                    lemma_relocation_refused(
                        verb,
                        args,
                        lines,
                        other,
                        path,
                        lines_in(file),
                        false,
                        error,
                    );
                }
            }
        } else {
            assert(relocation(verb, args, lines, None, from, to, at) == Err::<
                PlanView,
                ErrorView,
            >(error));
            if top_misused(args) {
                lemma_top_misused(verb, args, lines, None, from, to, error);
            } else {
                lemma_relocation_refused(
                    verb,
                    args,
                    lines,
                    None,
                    args.file@,
                    lines,
                    true,
                    error,
                );
            }
        }
    }
}

proof fn lemma_top_misused(
    verb: Verb,
    args: OpArgs,
    lines: Seq<Seq<u8>>,
    other: Option<(Seq<char>, Seq<Seq<u8>>)>,
    from: Seq<ContextView>,
    to: Seq<ContextView>,
    error: ErrorView,
)
    requires
        top_misused(args),
        readable(args.dest_context@),
        relocation(verb, args, lines, other, from, to, read(args.dest_context@)) == Err::<
            PlanView,
            ErrorView,
        >(error),
    ensures
        error == ErrorView::Usage(top_misuse(args)),
{
    let context = read(args.dest_context@);
    assert(all_read_as(texts(args.dest_context@), context));
    assert(context.len() == args.dest_context@.len());
}

/// With nothing read yet, a call asks for the source where its neighbor anchors
/// can be read, and is refused where not.
pub proof fn the_source_is_asked_for_first(verb: Verb, args: OpArgs, dest: Option<DestState>)
    ensures
        readable(args.from_context@) && readable(args.to_context@) && readable(args.dest_context@)
            ==> call_step(verb, args, None, dest) == Ok::<StepView, ErrorView>(
            StepView::ReadSource,
        ),
        !(readable(args.from_context@) && readable(args.to_context@) && readable(
            args.dest_context@,
        )) ==> call_step(verb, args, None, dest) is Err,
{
    lemma_readable(args.from_context@, Role::From);
    lemma_readable(args.to_context@, Role::To);
    lemma_readable(args.dest_context@, Role::Dest);
}

/// With the source read, a relocation that names a destination file asks for it,
/// where nothing is wrong so far.
pub proof fn the_destination_is_asked_for_next(verb: Verb, args: OpArgs, source: FileState)
    requires
        readable(args.from_context@),
        readable(args.to_context@),
        readable(args.dest_context@),
        is_text(source),
        !args.force,
        !misused(verb, args),
        args.dest_file is Some,
    ensures
        call_step(verb, args, Some(source), None) == Ok::<StepView, ErrorView>(StepView::ReadDest),
{
    lemma_readable(args.from_context@, Role::From);
    lemma_readable(args.to_context@, Role::To);
    lemma_readable(args.dest_context@, Role::Dest);
}

/// The call is right: its flags go together, its files are text, its ends name
/// lines in order, and its destination, if it is to have one, names a place that
/// does not lie within the span.
pub open spec fn is_right(
    verb: Verb,
    args: OpArgs,
    source: FileState,
    dest: Option<DestState>,
    from: int,
    to: int,
    place: int,
) -> bool {
    let lines = lines_in(source);
    &&& !misused(verb, args)
    &&& is_text(source)
    &&& names_line(lines, from, args.from, args.from_guard, args.from_context@)
    &&& names_line(lines, to, args.to, args.to_guard, args.to_context@)
    &&& from <= to
    &&& !args.force ==> {
        &&& args.dest_file is None || dest is Some
        &&& names_other(args, dest) ==> is_text(dest->0->Other_0) && names_place(
            lines_in(dest->0->Other_0),
            place,
            args,
        )
        &&& !names_other(args, dest) ==> names_place(lines, place, args) && (place < from || place
            >= to) && (args.dest != Some(0usize) ==> if args.before {
            place + 1 < from || place + 1 > to
        } else {
            place < from || place > to
        })
    }
}

/// A call that is right is carried out.
#[verifier::rlimit(60)]
pub proof fn right_calls_are_carried_out(
    verb: Verb,
    args: OpArgs,
    source: FileState,
    dest: Option<DestState>,
    from: int,
    to: int,
    place: int,
)
    requires
        is_right(verb, args, source, dest, from, to, place),
    ensures
        call_step(verb, args, Some(source), dest) matches Ok(StepView::Apply(_)),
{
    let lines = lines_in(source);
    let a = choose|a: Seq<ContextView>|
        #[trigger] names_with(lines, from, args.from, args.from_guard, args.from_context@, a);
    let b = choose|b: Seq<ContextView>|
        #[trigger] names_with(lines, to, args.to, args.to_guard, args.to_context@, b);
    assert(all_read_as(texts(args.from_context@), a));
    assert(all_read_as(texts(args.to_context@), b));
    if args.dest_context@.len() == 0 {
        assert(all_read_as(texts(args.dest_context@), Seq::<ContextView>::empty()));
    } else {
        let target = if names_other(args, dest) {
            lines_in(dest->0->Other_0)
        } else {
            lines
        };
        let num = if args.before {
            place + 1
        } else {
            place
        };
        let c = choose|c: Seq<ContextView>|
            #[trigger] names_with(
                target,
                num,
                args.dest,
                args.dest_guard,
                args.dest_context@,
                c,
            );
        assert(all_read_as(texts(args.dest_context@), c));
    }
    lemma_readable(args.from_context@, Role::From);
    lemma_readable(args.to_context@, Role::To);
    lemma_readable(args.dest_context@, Role::Dest);
    let result = call_step(verb, args, Some(source), dest);
    if let Err(error) = result {
        refusals_have_their_reason(verb, args, source, dest, error);
        lemma_right_not_refused(verb, args, source, dest, from, to, place, error);
    }
}

/// The one line that fits is what a coordinate comes to.
proof fn lemma_comes_to_named(
    lines: Seq<Seq<u8>>,
    path: Seq<char>,
    role: Role,
    number: Option<usize>,
    guard: Option<String>,
    flags: Seq<String>,
    num: int,
    result: Result<nat, ErrorView>,
)
    requires
        names_line(lines, num, number, guard, flags),
        comes_to(lines, path, role, number, guard, flags, result),
    ensures
        result == Ok::<nat, ErrorView>(num as nat),
        1 <= num <= lines.len(),
{
    let context = choose|context: Seq<ContextView>|
        #[trigger] names_with(lines, num, number, guard, flags, context);
    assert(all_read_as(texts(flags), context));
    all_flags_are_read(texts(flags), role, context);
    all_flags_are_read(texts(flags), role, read(flags));
    assert(context == read(flags));
    assert(only_fit(lines, num, guard->0@, read(flags)));
    assert(fits(lines, num, guard->0@, read(flags)));
    if let Ok(other) = result {
        assert(fits(lines, other as int, guard->0@, read(flags)));
    } else {
        let chosen = choose|k: int| #[trigger] only_fit(lines, k, guard->0@, read(flags));
        assert(only_fit(lines, chosen, guard->0@, read(flags)));
        assert(fits(lines, chosen, guard->0@, read(flags)));
        assert(chosen == num);
    }
}

proof fn lemma_right_not_refused(
    verb: Verb,
    args: OpArgs,
    source: FileState,
    dest: Option<DestState>,
    from: int,
    to: int,
    place: int,
    error: ErrorView,
)
    requires
        is_right(verb, args, source, dest, from, to, place),
        readable(args.from_context@),
        readable(args.to_context@),
        readable(args.dest_context@),
    ensures
        !refused_for(verb, args, source, dest, error),
{
    if refused_for(verb, args, source, dest, error) {
    let lines = lines_in(source);
    let path = args.file@;
    let (f, t) = (args.from_context@, args.to_context@);
    if args.force {
        let (a, b) = choose|a: Result<nat, ErrorView>, b: Result<nat, ErrorView>|
            #[trigger] deletion_refused(args, lines, a, b, error);
        lemma_comes_to_named(lines, path, Role::From, args.from, args.from_guard, f, from, a);
        lemma_comes_to_named(lines, path, Role::To, args.to, args.to_guard, t, to, b);
        reveal_with_fuel(failed, 3);
        assert(failed(seq![
            OutcomeView { role: Role::From, result: a },
            OutcomeView { role: Role::To, result: b },
        ]) == 0);
    } else {
        let within = !names_other(args, dest);
        let (dest_path, target) = if within {
            (path, lines)
        } else {
            (args.dest_file->0@, lines_in(dest->0->Other_0))
        };
        let (a, b, c) = choose|
            a: Result<nat, ErrorView>,
            b: Result<nat, ErrorView>,
            c: Result<nat, ErrorView>,
        |
            #[trigger] relocation_refused(
                args,
                lines,
                dest_path,
                target,
                within,
                a,
                b,
                c,
                error,
            );
        assert(relocation_refused(args, lines, dest_path, target, within, a, b, c, error));
        lemma_comes_to_named(lines, path, Role::From, args.from, args.from_guard, f, from, a);
        lemma_comes_to_named(lines, path, Role::To, args.to, args.to_guard, t, to, b);
        let num = if args.before {
            place + 1
        } else {
            place
        };
        if args.dest != Some(0usize) {
            lemma_comes_to_named(
                target,
                dest_path,
                Role::Dest,
                args.dest,
                args.dest_guard,
                args.dest_context@,
                num,
                c,
            );
        }
        reveal_with_fuel(failed, 4);
        assert(failed(seq![
            OutcomeView { role: Role::From, result: a },
            OutcomeView { role: Role::To, result: b },
            OutcomeView { role: Role::Dest, result: c },
        ]) == 0);
    }
    }
}

/// A destination within the span keeps a relocation from being carried out.
proof fn lemma_dest_outside(
    verb: Verb,
    args: OpArgs,
    lines: Seq<Seq<u8>>,
    from: int,
    to: int,
    num: int,
)
    requires
        readable(args.dest_context@),
        args.dest != Some(0usize),
        names_line(lines, from, args.from, args.from_guard, args.from_context@),
        names_line(lines, to, args.to, args.to_guard, args.to_context@),
        names_line(lines, num, args.dest, args.dest_guard, args.dest_context@),
        relocation(
            verb,
            args,
            lines,
            None,
            read(args.from_context@),
            read(args.to_context@),
            read(args.dest_context@),
        ) is Ok,
    ensures
        num < from || num > to,
{
    let path = args.file@;
    let (f, t, d) = (args.from_context@, args.to_context@, args.dest_context@);
    let a = from_resolution(lines, args, read(f));
    let b = to_resolution(lines, args, read(t));
    let c = dest_of(args, lines, None, read(d));
    lemma_comes_to(lines, path, Role::From, args.from, args.from_guard, f);
    lemma_comes_to(lines, path, Role::To, args.to, args.to_guard, t);
    lemma_comes_to(lines, path, Role::Dest, args.dest, args.dest_guard, d);
    lemma_comes_to_named(lines, path, Role::From, args.from, args.from_guard, f, from, a);
    lemma_comes_to_named(lines, path, Role::To, args.to, args.to_guard, t, to, b);
    lemma_comes_to_named(lines, path, Role::Dest, args.dest, args.dest_guard, d, num, c);
    if from <= num <= to {
        destination_inside_span_is_refused(
            verb,
            args,
            lines,
            read(f),
            read(t),
            read(d),
            from as nat,
            to as nat,
            num as nat,
        );
    }
}

/// No other call is: one that is carried out is right.
#[verifier::rlimit(60)]
pub proof fn only_right_calls_are_carried_out(
    verb: Verb,
    args: OpArgs,
    source: FileState,
    dest: Option<DestState>,
    plan: PlanView,
)
    requires
        call_step(verb, args, Some(source), dest) == Ok::<StepView, ErrorView>(
            StepView::Apply(plan),
        ),
    ensures
        exists|from: int, to: int, place: int|
            #[trigger] is_right(verb, args, source, dest, from, to, place),
{
    calls_do_what_they_ask_for(verb, args, source, dest, plan);
    let (from, to, place, first) = choose|from: int, to: int, place: int, first: int|
        #[trigger] is_asked_for(verb, args, source, dest, plan, from, to, place, first);
    lemma_readable(args.from_context@, Role::From);
    lemma_readable(args.to_context@, Role::To);
    lemma_readable(args.dest_context@, Role::Dest);
    let lines = lines_in(source);
    if !args.force && !names_other(args, dest) && args.dest != Some(0usize) {
        let num = if args.before {
            place + 1
        } else {
            place
        };
        lemma_dest_outside(verb, args, lines, from, to, num);
    }
    assert(is_right(verb, args, source, dest, from, to, place));
}

} // verus!
