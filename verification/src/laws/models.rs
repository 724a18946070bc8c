//! What stands for a value in a statement holds all that the value does.

use vstd::prelude::*;

use crate::anchor::{context_view, number_view, ContextSpec};
use crate::candidate::{candidates_view, Candidate};
use crate::error::{result_view, ErrorView, RoleOutcome, SpanError};
use crate::hook::{read_view, scan_view, Scan, Verdict, VerdictView};
use crate::lines::{rows, Lines};
use crate::ops::{
    lines_result_view, observed, plan_result_view, step_result_view, DestState, FileState, Plan,
    PlanView, Step, StepView,
};
use crate::search::texts;
use crate::suggest::{slice_view, Anchor};
use crate::text::{option_text, option_view, slices};
use crate::twin::{hits_view, Hit};

verus! {

/// A step stands for itself, with its writes, each of them by path and bytes in
/// its place, and its output.
pub proof fn steps_are_modeled(step: Step, plan: Plan)
    ensures
        step is ReadSource <==> step@ is ReadSource,
        step is ReadDest <==> step@ is ReadDest,
        step == Step::Apply(plan) ==> step@ == StepView::Apply(plan@),
        plan@.output == plan.output@,
        plan@.writes.len() == plan.writes@.len(),
        forall|i: int|
            0 <= i < plan.writes@.len() ==> (#[trigger] plan@.writes[i]).0 == plan.writes@[i].path@
                && plan@.writes[i].1 == plan.writes@[i].bytes@,
        step_result_view(Ok(step)) == Ok::<StepView, ErrorView>(step@),
        plan_result_view(Ok(plan)) == Ok::<PlanView, ErrorView>(plan@),
{
}

/// An error stands for itself, with every part of it.
pub proof fn errors_are_modeled(error: SpanError)
    ensures
        match error {
            SpanError::GuardNotFound { role, guard, path } => error@ == (ErrorView::GuardNotFound {
                role,
                guard: guard@,
                path: path@,
            }),
            SpanError::Ambiguous { role, guard, matches, path } => error@ matches
                ErrorView::Ambiguous { role: r, guard: g, matches: m, path: p } && r == role && g
                == guard@ && p == path@ && m.len() == matches@.len() && forall|i: int|
                0 <= i < m.len() ==> (#[trigger] m[i]).0 == matches@[i].0 && m[i].1
                    == matches@[i].1@,
            SpanError::Drift { role, guard, addressed, actual } => error@ == (ErrorView::Drift {
                role,
                guard: guard@,
                addressed: addressed as nat,
                actual: actual as nat,
            }),
            SpanError::OutOfRange { role, line, count, path } => error@ == (
            ErrorView::OutOfRange { role, line: line as nat, count: count as nat, path: path@ }),
            SpanError::DestInSpan { dest, from, to } => error@ == (ErrorView::DestInSpan {
                dest: dest as nat,
                from: from as nat,
                to: to as nat,
            }),
            SpanError::FromAfterTo { from, to } => error@ == (ErrorView::FromAfterTo {
                from: from as nat,
                to: to as nat,
            }),
            SpanError::EmptyGuard { role } => error@ == (ErrorView::EmptyGuard { role }),
            SpanError::FileMissing { path, is_dest } => error@ == (ErrorView::FileMissing {
                path: path@,
                is_dest,
            }),
            SpanError::Multi(outcomes) => error@ matches ErrorView::Multi(all) && all.len()
                == outcomes@.len() && forall|i: int|
                0 <= i < all.len() ==> #[trigger] all[i] == outcomes@[i]@,
            SpanError::Usage(text) => error@ == ErrorView::Usage(text@),
            SpanError::Io(text) => error@ == ErrorView::Io(text@),
        },
        step_result_view(Err(error)) == Err::<StepView, ErrorView>(error@),
        plan_result_view(Err(error)) == Err::<PlanView, ErrorView>(error@),
        result_view(Err(error)) == Err::<nat, ErrorView>(error@),
        lines_result_view(Err(error)) == Err::<Seq<Seq<u8>>, ErrorView>(error@),
{
}

/// The outcome of a coordinate stands for itself.
pub proof fn outcomes_are_modeled(outcome: RoleOutcome, line: usize, lines: Lines)
    ensures
        outcome@.role == outcome.role,
        match outcome.result {
            Ok(line) => outcome@.result == Ok::<nat, ErrorView>(line as nat),
            Err(error) => outcome@.result == Err::<nat, ErrorView>(error@),
        },
        result_view(Ok(line)) == Ok::<nat, ErrorView>(line as nat),
        lines_result_view(Ok(lines)) == Ok::<Seq<Seq<u8>>, ErrorView>(rows(lines@)),
        number_view(Some(line)) == Some(line as nat),
        number_view(None) is None,
{
}

/// A verdict stands for itself.
pub proof fn verdicts_are_modeled(verdict: Verdict)
    ensures
        match verdict {
            Verdict::Search(i) => verdict@ == VerdictView::Search(i as int),
            Verdict::ReadTwin(i) => verdict@ == VerdictView::ReadTwin(i as int),
            Verdict::ReadEdited(i) => verdict@ == VerdictView::ReadEdited(i as int),
            Verdict::Allow => verdict@ is Allow,
            Verdict::Deny(reply) => verdict@ == VerdictView::Deny(reply@),
        },
{
}

/// What a verdict is asked for with stands for itself.
pub proof fn questions_are_modeled(scan: &Scan, text: &str)
    ensures
        scan_view(Some(scan)) == Some(*scan),
        scan_view(None) is None,
        read_view(Some(Some(text))) == Some(Some(text@)),
        read_view(Some(None)) == Some(None::<Seq<char>>),
        read_view(None) is None,
        slice_view(Some(text)) == Some(text@),
        slice_view(None) is None,
{
}

/// What has been read stands for itself, as far as it has been.
pub proof fn files_are_modeled(source: &FileState, dest: &DestState)
    ensures
        observed(Some(source)) == Some(*source),
        observed(Some(dest)) == Some(*dest),
        observed::<FileState>(None) is None,
        observed::<DestState>(None) is None,
{
}

/// A candidate stands for itself, with every line of its block.
pub proof fn candidates_are_modeled(candidates: Seq<Candidate>, i: int)
    requires
        0 <= i < candidates.len(),
    ensures
        candidates_view(candidates).len() == candidates.len(),
        candidates_view(candidates)[i] == candidates[i]@,
        candidates[i]@.tell == candidates[i].tell,
        candidates[i]@.file == match candidates[i].file {
            Some(file) => Some(file@),
            None => None,
        },
        candidates[i]@.block.len() == candidates[i].block@.len(),
        forall|k: int|
            0 <= k < candidates[i].block@.len() ==> #[trigger] candidates[i]@.block[k]
                == candidates[i].block@[k]@,
{
}

/// An anchor stands for itself, and so do the neighbor anchors of a coordinate.
pub proof fn anchors_are_modeled(anchor: Anchor, context: Seq<ContextSpec>, i: int)
    requires
        0 <= i < context.len(),
    ensures
        anchor@.guard == anchor.guard@,
        anchor@.context == match anchor.context {
            Some((offset, guard)) => Some((offset as int, guard@)),
            None => None,
        },
        context_view(context).len() == context.len(),
        context_view(context)[i].offset == context[i].offset,
        context_view(context)[i].guard == context[i].guard@,
{
}

/// Occurrences stand for themselves, each in its place.
pub proof fn hits_are_modeled(hits: Seq<Hit>, i: int)
    requires
        0 <= i < hits.len(),
    ensures
        hits_view(hits).len() == hits.len(),
        hits_view(hits)[i].0 == hits[i].path@,
        hits_view(hits)[i].1 == hits[i].start,
{
}

/// Lines and texts stand for themselves, each in its place.
pub proof fn lists_are_modeled(lines: Seq<Vec<u8>>, items: Seq<String>, parts: Seq<&str>, i: int)
    ensures
        rows(lines).len() == lines.len(),
        texts(items).len() == items.len(),
        slices(parts).len() == parts.len(),
        0 <= i < lines.len() ==> rows(lines)[i] == lines[i]@,
        0 <= i < items.len() ==> texts(items)[i] == items[i]@,
        0 <= i < parts.len() ==> slices(parts)[i] == parts[i]@,
{
}

/// A text that may be absent stands for itself, or for an empty one.
pub proof fn absent_texts_are_modeled(text: String)
    ensures
        option_view(Some(text)) == Some(text@),
        option_view(None) is None,
        option_text(Some(text)) == text@,
        option_text(None).len() == 0,
{
}

} // verus!
