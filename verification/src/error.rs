//! Every way a call can fail, with its message and its exit code.

use vstd::prelude::*;

use crate::numeral::{decimal, decimal_text};
use crate::outside::{quote, quoted_text};
use crate::search::texts;

verus! {

/// Which coordinate a failure is about.
#[derive(Clone, Copy, Debug, PartialEq, Eq, Structural)]
pub enum Role {
    From,
    To,
    Dest,
}

/// The name of a role in flags and messages.
pub open spec fn role_text(role: Role) -> Seq<char> {
    match role {
        Role::From => "from"@,
        Role::To => "to"@,
        Role::Dest => "dest"@,
    }
}

impl Role {
    /// The lowercase flag stem, for messages and hints.
    pub fn as_str(self) -> (text: &'static str)
        ensures
            text@ == role_text(self),
    {
        match self {
            Role::From => "from",
            Role::To => "to",
            Role::Dest => "dest",
        }
    }
}

/// Every loud failure.
#[derive(Debug)]
pub enum SpanError {
    /// No line satisfies the anchor.
    GuardNotFound { role: Role, guard: String, path: String },
    /// Several lines satisfy the anchor: each of them as its number, counted
    /// from one, and its content.
    Ambiguous { role: Role, guard: String, matches: Vec<(usize, String)>, path: String },
    /// One line satisfies the anchor, but not the one that was addressed.
    Drift { role: Role, guard: String, addressed: usize, actual: usize },
    /// The addressed line is not a line of the file.
    OutOfRange { role: Role, line: usize, count: usize, path: String },
    /// The destination lies within the span.
    DestInSpan { dest: usize, from: usize, to: usize },
    /// The span ends before it starts.
    FromAfterTo { from: usize, to: usize },
    /// A guard is missing or empty.
    EmptyGuard { role: Role },
    /// A file does not exist; it is never created.
    FileMissing { path: String, is_dest: bool },
    /// Two or more coordinates failed: the outcome of every one.
    Multi(Vec<RoleOutcome>),
    /// Flags that do not go together.
    Usage(String),
    /// A file could not be read or written, or is not UTF-8.
    Io(String),
}

/// How one coordinate came out.
#[derive(Debug)]
pub struct RoleOutcome {
    pub role: Role,
    /// The line it resolved to, or why it did not.
    pub result: Result<usize, SpanError>,
}

/// A [`SpanError`] as a mathematical value.
#[verifier::ext_equal]
pub enum ErrorView {
    GuardNotFound { role: Role, guard: Seq<char>, path: Seq<char> },
    Ambiguous { role: Role, guard: Seq<char>, matches: Seq<(nat, Seq<char>)>, path: Seq<char> },
    Drift { role: Role, guard: Seq<char>, addressed: nat, actual: nat },
    OutOfRange { role: Role, line: nat, count: nat, path: Seq<char> },
    DestInSpan { dest: nat, from: nat, to: nat },
    FromAfterTo { from: nat, to: nat },
    EmptyGuard { role: Role },
    FileMissing { path: Seq<char>, is_dest: bool },
    Multi(Seq<OutcomeView>),
    Usage(Seq<char>),
    Io(Seq<char>),
}

/// A [`RoleOutcome`] as a mathematical value.
#[verifier::ext_equal]
pub struct OutcomeView {
    pub role: Role,
    pub result: Result<nat, ErrorView>,
}

/// The candidates of an ambiguous anchor as mathematical values.
pub open spec fn matches_view(matches: Seq<(usize, String)>) -> Seq<(nat, Seq<char>)> {
    matches.map_values(|m: (usize, String)| (m.0 as nat, m.1@))
}

/// What an error says.
pub open spec fn error_view(error: SpanError) -> ErrorView
    decreases error,
{
    match error {
        SpanError::GuardNotFound { role, guard, path } => ErrorView::GuardNotFound {
            role,
            guard: guard@,
            path: path@,
        },
        SpanError::Ambiguous { role, guard, matches, path } => ErrorView::Ambiguous {
            role,
            guard: guard@,
            matches: matches_view(matches@),
            path: path@,
        },
        SpanError::Drift { role, guard, addressed, actual } => ErrorView::Drift {
            role,
            guard: guard@,
            addressed: addressed as nat,
            actual: actual as nat,
        },
        SpanError::OutOfRange { role, line, count, path } => ErrorView::OutOfRange {
            role,
            line: line as nat,
            count: count as nat,
            path: path@,
        },
        SpanError::DestInSpan { dest, from, to } => ErrorView::DestInSpan {
            dest: dest as nat,
            from: from as nat,
            to: to as nat,
        },
        SpanError::FromAfterTo { from, to } => ErrorView::FromAfterTo {
            from: from as nat,
            to: to as nat,
        },
        SpanError::EmptyGuard { role } => ErrorView::EmptyGuard { role },
        SpanError::FileMissing { path, is_dest } => ErrorView::FileMissing { path: path@, is_dest },
        SpanError::Multi(outcomes) => ErrorView::Multi(outcomes_view(outcomes@)),
        SpanError::Usage(text) => ErrorView::Usage(text@),
        SpanError::Io(text) => ErrorView::Io(text@),
    }
}

/// What each of several outcomes says.
pub open spec fn outcomes_view(outcomes: Seq<RoleOutcome>) -> Seq<OutcomeView>
    decreases outcomes,
{
    Seq::new(
        outcomes.len(),
        |i: int|
            if 0 <= i < outcomes.len() {
                outcome_view(outcomes[i])
            } else {
                arbitrary()
            },
    )
}

/// What an outcome says.
pub open spec fn outcome_view(outcome: RoleOutcome) -> OutcomeView
    decreases outcome,
{
    OutcomeView {
        role: outcome.role,
        result: match outcome.result {
            Ok(line) => Ok(line as nat),
            Err(error) => Err(error_view(error)),
        },
    }
}

impl View for SpanError {
    type V = ErrorView;

    open spec fn view(&self) -> ErrorView {
        error_view(*self)
    }
}

impl View for RoleOutcome {
    type V = OutcomeView;

    open spec fn view(&self) -> OutcomeView {
        outcome_view(*self)
    }
}

/// A result as a mathematical value.
pub open spec fn result_view(result: Result<usize, SpanError>) -> Result<nat, ErrorView> {
    match result {
        Ok(line) => Ok(line as nat),
        Err(error) => Err(error@),
    }
}

/// The process exit code that goes with an error: 2 for bad flags, 3 for file
/// trouble, 1 for a coordinate that did not resolve.
pub open spec fn exit_code(error: ErrorView) -> int {
    match error {
        ErrorView::Usage(_) => 2,
        ErrorView::Io(_) => 3,
        ErrorView::FileMissing { .. } => 3,
        _ => 1,
    }
}

/// How many characters of a line an error listing shows.
pub const LISTED_CHARS: usize = 60;

/// A line as an error listing shows it: cut after 60 characters, and marked
/// where it was cut.
pub open spec fn clipped_text(text: Seq<char>) -> Seq<char> {
    if text.len() <= LISTED_CHARS {
        text
    } else {
        text.take(LISTED_CHARS as int) + "…"@
    }
}

/// `head`, followed by the first `n` candidates, a row each.
pub open spec fn candidate_rows(
    head: Seq<char>,
    indent: Seq<char>,
    matches: Seq<(nat, Seq<char>)>,
    n: int,
) -> Seq<char>
    decreases n,
{
    if n <= 0 {
        head
    } else {
        candidate_rows(head, indent, matches, n - 1) + indent + decimal_text(matches[n - 1].0)
            + "\t"@ + clipped_text(matches[n - 1].1) + "\n"@
    }
}

/// How many of the outcomes are failures.
pub open spec fn failure_count(outcomes: Seq<OutcomeView>) -> nat
    decreases outcomes.len(),
{
    if outcomes.len() == 0 {
        0
    } else {
        failure_count(outcomes.drop_last()) + if outcomes.last().result is Err {
            1nat
        } else {
            0
        }
    }
}

/// The text that the message of an error quotes: a guard, or the path of a
/// missing file; nothing where it quotes none.
pub open spec fn quoted_part(error: ErrorView) -> Seq<char> {
    match error {
        ErrorView::GuardNotFound { guard, .. } => guard,
        ErrorView::Ambiguous { guard, .. } => guard,
        ErrorView::Drift { guard, .. } => guard,
        ErrorView::FileMissing { path, .. } => path,
        _ => seq![],
    }
}

/// The text that one coordinate's part of the report quotes.
pub open spec fn outcome_part(outcome: OutcomeView) -> Seq<char> {
    match outcome.result {
        Ok(_) => seq![],
        Err(error) => quoted_part(error),
    }
}

/// What each of several outcomes quotes, in quotation marks.
pub open spec fn quoted_parts(outcomes: Seq<OutcomeView>) -> Seq<Seq<char>> {
    outcomes.map_values(|outcome: OutcomeView| quoted_text(outcome_part(outcome)))
}

/// `head`, followed by the report of the first `n` outcomes. `quoted` is what
/// each of them quotes.
pub open spec fn outcome_rows(
    head: Seq<char>,
    outcomes: Seq<OutcomeView>,
    quoted: Seq<Seq<char>>,
    n: int,
) -> Seq<char>
    decreases outcomes, n,
{
    if n <= 0 || n > outcomes.len() {
        head
    } else {
        outcome_rows(head, outcomes, quoted, n - 1) + outcome_quoting(
            outcomes[n - 1],
            quoted[n - 1],
        )
    }
}

/// The consolidated report of several outcomes. `quoted` is what each of them
/// quotes.
pub open spec fn report_quoting(outcomes: Seq<OutcomeView>, quoted: Seq<Seq<char>>) -> Seq<char>
    decreases outcomes, outcomes.len() + 1,
{
    outcome_rows(
        "error: "@ + decimal_text(failure_count(outcomes)) + (if failure_count(outcomes) == 1 {
            " coordinate"@
        } else {
            " coordinates"@
        }) + " failed:\n"@,
        outcomes,
        quoted,
        outcomes.len() as int,
    ).drop_last()
}

/// One coordinate's part of the consolidated report, given what it quotes.
pub open spec fn outcome_quoting(outcome: OutcomeView, quoted: Seq<char>) -> Seq<char>
    decreases outcome, 0int,
{
    let role = role_text(outcome.role);
    match outcome.result {
        Ok(line) => "  --"@ + role + "\tok: line "@ + decimal_text(line) + "\n"@,
        Err(ErrorView::Drift { addressed, actual, .. }) => "  --"@ + role
            + "\tdrift: anchor "@ + quoted + " resolved at line "@ + decimal_text(actual)
            + ", not "@ + decimal_text(addressed) + " (retry with --"@ + role + " "@ + decimal_text(
            actual,
        ) + ")\n"@,
        Err(ErrorView::GuardNotFound { path, .. }) => "  --"@ + role
            + "\tguard-not-found: "@ + quoted + " not found in "@ + path + "\n"@,
        Err(ErrorView::Ambiguous { matches, .. }) => candidate_rows(
            "  --"@ + role + "\tambiguous-anchor: "@ + quoted + " matches "@
                + decimal_text(matches.len()) + " lines (add --"@ + role + "-context):\n"@,
            "       "@,
            matches,
            matches.len() as int,
        ),
        Err(ErrorView::OutOfRange { line, count, path, .. }) => "  --"@ + role
            + "\tout-of-range: line "@ + decimal_text(line) + " is outside [1, "@ + decimal_text(
            count,
        ) + "] in "@ + path + "\n"@,
        Err(ErrorView::EmptyGuard { .. }) => "  --"@ + role + "\tempty-guard: --"@ + role
            + "-guard must be a non-empty substring\n"@,
        Err(other) => "  --"@ + role + "\t"@ + message_quoting(other, quoted) + "\n"@,
    }
}

/// The message of an error, given what it quotes: the reason word, the
/// coordinate, and a hint.
pub open spec fn message_quoting(error: ErrorView, quoted: Seq<char>) -> Seq<char>
    decreases error, 0int,
{
    match error {
        ErrorView::GuardNotFound { role, path, .. } => "error: guard-not-found: --"@ + role_text(
            role,
        ) + "-guard "@ + quoted + " not found in "@ + path,
        ErrorView::Ambiguous { role, matches, path, .. } => candidate_rows(
            "error: ambiguous-anchor: --"@ + role_text(role) + "-guard "@ + quoted
                + " matches "@ + decimal_text(matches.len()) + " lines in "@ + path + ":\n"@,
            "   "@,
            matches,
            matches.len() as int,
        ) + "  hint: add --"@ + role_text(role)
            + "-context (e.g. a distinctive neighbor line) to make it unique"@,
        ErrorView::Drift { role, addressed, actual, .. } => "error: drift: --"@ + role_text(role)
            + " anchor "@ + quoted + " resolved at line "@ + decimal_text(actual)
            + ", not "@ + decimal_text(addressed) + "; retry with --"@ + role_text(role) + " "@
            + decimal_text(actual),
        ErrorView::OutOfRange { role, line, count, path } => "error: out-of-range: --"@ + role_text(
            role,
        ) + " "@ + decimal_text(line) + " is outside [1, "@ + decimal_text(count) + "] in "@ + path,
        ErrorView::DestInSpan { dest, from, to } => "error: dest-in-span: --dest "@ + decimal_text(
            dest,
        ) + " lies within ["@ + decimal_text(from) + ", "@ + decimal_text(to)
            + "]; choose a destination outside the span"@,
        ErrorView::FromAfterTo { from, to } => "error: from-after-to: --from "@ + decimal_text(from)
            + " is greater than --to "@ + decimal_text(to),
        ErrorView::EmptyGuard { role } => "error: empty-guard: --"@ + role_text(role)
            + "-guard must be a non-empty substring"@,
        ErrorView::FileMissing { is_dest, .. } => if is_dest {
            "error: io: destination file "@ + quoted
                + " does not exist; span relocates into existing files only"@
        } else {
            "error: io: file "@ + quoted + " does not exist"@
        },
        ErrorView::Multi(outcomes) => report_quoting(outcomes, quoted_parts(outcomes)),
        ErrorView::Usage(text) => "error: usage: "@ + text,
        ErrorView::Io(text) => "error: io: "@ + text,
    }
}

/// The message of an error.
pub open spec fn message_text(error: ErrorView) -> Seq<char> {
    message_quoting(error, quoted_text(quoted_part(error)))
}

/// One coordinate's part of the consolidated report.
pub open spec fn consolidated_text(outcome: OutcomeView) -> Seq<char> {
    outcome_quoting(outcome, quoted_text(outcome_part(outcome)))
}

/// Cuts a line for an error listing after 60 characters, and marks the cut.
pub fn truncate_content(text: &str) -> (clipped: String)
    ensures
        clipped@ == clipped_text(text@),
{
    if text.unicode_len() <= LISTED_CHARS {
        text.to_owned()
    } else {
        let mut cut = text.substring_char(0, LISTED_CHARS).to_owned();
        cut.append("…");
        cut
    }
}

/// Adds a row for every candidate.
fn push_candidates(out: &mut String, indent: &str, matches: &Vec<(usize, String)>)
    ensures
        final(out)@ == candidate_rows(
            old(out)@,
            indent@,
            matches_view(matches@),
            matches@.len() as int,
        ),
{
    let mut i: usize = 0;
    while i < matches.len()
        invariant
            i <= matches@.len(),
            out@ == candidate_rows(old(out)@, indent@, matches_view(matches@), i as int),
        decreases matches@.len() - i,
    {
        out.append(indent);
        out.append(decimal(matches[i].0 as u64).as_str());
        out.append("\t");
        out.append(truncate_content(matches[i].1.as_str()).as_str());
        out.append("\n");
        i += 1;
    }
}

impl RoleOutcome {
    /// The text that this part of the report quotes.
    fn quoted_part(&self) -> (text: &str)
        ensures
            text@ == outcome_part(self@),
    {
        match &self.result {
            Ok(_) => {
                proof {
                    reveal_strlit("");
                }
                ""
            },
            Err(error) => error.quoted_part(),
        }
    }

    /// One coordinate's part of the consolidated report: `ok` and the line, or
    /// the reason it failed.
    pub fn consolidated_line(&self) -> (text: String)
        ensures
            text@ == consolidated_text(self@),
    {
        self.consolidated_line_with(quote(self.quoted_part()).as_str())
    }

    /// One coordinate's part of the consolidated report, given the guard or the
    /// path that it quotes, in quotation marks.
    pub fn consolidated_line_with(&self, quoted: &str) -> (text: String)
        ensures
            text@ == outcome_quoting(self@, quoted@),
        decreases self, 0int,
    {
        let role = self.role.as_str();
        let mut s = "  --".to_owned();
        s.append(role);
        match &self.result {
            Ok(line) => {
                s.append("\tok: line ");
                s.append(decimal(*line as u64).as_str());
                s.append("\n");
            },
            Err(SpanError::Drift { addressed, actual, .. }) => {
                s.append("\tdrift: anchor ");
                s.append(quoted);
                s.append(" resolved at line ");
                s.append(decimal(*actual as u64).as_str());
                s.append(", not ");
                s.append(decimal(*addressed as u64).as_str());
                s.append(" (retry with --");
                s.append(role);
                s.append(" ");
                s.append(decimal(*actual as u64).as_str());
                s.append(")\n");
            },
            Err(SpanError::GuardNotFound { path, .. }) => {
                s.append("\tguard-not-found: ");
                s.append(quoted);
                s.append(" not found in ");
                s.append(path.as_str());
                s.append("\n");
            },
            Err(SpanError::Ambiguous { matches, .. }) => {
                s.append("\tambiguous-anchor: ");
                s.append(quoted);
                s.append(" matches ");
                s.append(decimal(matches.len() as u64).as_str());
                s.append(" lines (add --");
                s.append(role);
                s.append("-context):\n");
                push_candidates(&mut s, "       ", matches);
            },
            Err(SpanError::OutOfRange { line, count, path, .. }) => {
                s.append("\tout-of-range: line ");
                s.append(decimal(*line as u64).as_str());
                s.append(" is outside [1, ");
                s.append(decimal(*count as u64).as_str());
                s.append("] in ");
                s.append(path.as_str());
                s.append("\n");
            },
            Err(SpanError::EmptyGuard { .. }) => {
                s.append("\tempty-guard: --");
                s.append(role);
                s.append("-guard must be a non-empty substring\n");
            },
            Err(other) => {
                s.append("\t");
                s.append(other.message_with(quoted).as_str());
                s.append("\n");
            },
        }
        s
    }
}

impl SpanError {
    /// The process exit code.
    pub fn code(&self) -> (code: i32)
        ensures
            code == exit_code(self@),
            1 <= code <= 3,
    {
        match self {
            SpanError::Usage(_) => 2,
            SpanError::Io(_) => 3,
            SpanError::FileMissing { .. } => 3,
            _ => 1,
        }
    }

    /// The text that the message quotes: a guard, or the path of a missing file.
    fn quoted_part(&self) -> (text: &str)
        ensures
            text@ == quoted_part(self@),
    {
        match self {
            SpanError::GuardNotFound { guard, .. } => guard.as_str(),
            SpanError::Ambiguous { guard, .. } => guard.as_str(),
            SpanError::Drift { guard, .. } => guard.as_str(),
            SpanError::FileMissing { path, .. } => path.as_str(),
            _ => {
                proof {
                    reveal_strlit("");
                }
                ""
            },
        }
    }

    /// The message for the error stream.
    pub fn message(&self) -> (text: String)
        ensures
            text@ == message_text(self@),
    {
        self.message_with(quote(self.quoted_part()).as_str())
    }

    /// The message, given the guard or the path that it quotes, in quotation
    /// marks.
    pub fn message_with(&self, quoted: &str) -> (text: String)
        ensures
            text@ == message_quoting(self@, quoted@),
        decreases self, 0int,
    {
        match self {
            SpanError::GuardNotFound { role, path, .. } => {
                let mut s = "error: guard-not-found: --".to_owned();
                s.append(role.as_str());
                s.append("-guard ");
                s.append(quoted);
                s.append(" not found in ");
                s.append(path.as_str());
                s
            },
            SpanError::Ambiguous { role, matches, path, .. } => {
                let mut s = "error: ambiguous-anchor: --".to_owned();
                s.append(role.as_str());
                s.append("-guard ");
                s.append(quoted);
                s.append(" matches ");
                s.append(decimal(matches.len() as u64).as_str());
                s.append(" lines in ");
                s.append(path.as_str());
                s.append(":\n");
                push_candidates(&mut s, "   ", matches);
                s.append("  hint: add --");
                s.append(role.as_str());
                s.append("-context (e.g. a distinctive neighbor line) to make it unique");
                s
            },
            SpanError::Drift { role, addressed, actual, .. } => {
                let mut s = "error: drift: --".to_owned();
                s.append(role.as_str());
                s.append(" anchor ");
                s.append(quoted);
                s.append(" resolved at line ");
                s.append(decimal(*actual as u64).as_str());
                s.append(", not ");
                s.append(decimal(*addressed as u64).as_str());
                s.append("; retry with --");
                s.append(role.as_str());
                s.append(" ");
                s.append(decimal(*actual as u64).as_str());
                s
            },
            SpanError::OutOfRange { role, line, count, path } => {
                let mut s = "error: out-of-range: --".to_owned();
                s.append(role.as_str());
                s.append(" ");
                s.append(decimal(*line as u64).as_str());
                s.append(" is outside [1, ");
                s.append(decimal(*count as u64).as_str());
                s.append("] in ");
                s.append(path.as_str());
                s
            },
            SpanError::DestInSpan { dest, from, to } => {
                let mut s = "error: dest-in-span: --dest ".to_owned();
                s.append(decimal(*dest as u64).as_str());
                s.append(" lies within [");
                s.append(decimal(*from as u64).as_str());
                s.append(", ");
                s.append(decimal(*to as u64).as_str());
                s.append("]; choose a destination outside the span");
                s
            },
            SpanError::FromAfterTo { from, to } => {
                let mut s = "error: from-after-to: --from ".to_owned();
                s.append(decimal(*from as u64).as_str());
                s.append(" is greater than --to ");
                s.append(decimal(*to as u64).as_str());
                s
            },
            SpanError::EmptyGuard { role } => {
                let mut s = "error: empty-guard: --".to_owned();
                s.append(role.as_str());
                s.append("-guard must be a non-empty substring");
                s
            },
            SpanError::FileMissing { is_dest, .. } => {
                if *is_dest {
                    let mut s = "error: io: destination file ".to_owned();
                    s.append(quoted);
                    s.append(" does not exist; span relocates into existing files only");
                    s
                } else {
                    let mut s = "error: io: file ".to_owned();
                    s.append(quoted);
                    s.append(" does not exist");
                    s
                }
            },
            SpanError::Multi(outcomes) => report(outcomes),
            SpanError::Usage(text) => {
                let mut s = "error: usage: ".to_owned();
                s.append(text.as_str());
                s
            },
            SpanError::Io(text) => {
                let mut s = "error: io: ".to_owned();
                s.append(text.as_str());
                s
            },
        }
    }
}

/// Counts the failures among the outcomes.
pub(crate) fn count_failures(outcomes: &Vec<RoleOutcome>) -> (count: usize)
    ensures
        count == failure_count(outcomes_view(outcomes@)),
{
    let ghost all = outcomes_view(outcomes@);
    let mut count: usize = 0;
    let mut i: usize = 0;
    assert(all.take(0) == Seq::<OutcomeView>::empty());
    while i < outcomes.len()
        invariant
            count <= i <= outcomes@.len(),
            all == outcomes_view(outcomes@),
            count == failure_count(all.take(i as int)),
        decreases outcomes@.len() - i,
    {
        assert(all.take(i + 1).drop_last() == all.take(i as int));
        assert(all[i as int] == outcome_view(outcomes@[i as int]));
        if outcomes[i].result.is_err() {
            count += 1;
        }
        i += 1;
    }
    assert(all.take(i as int) == all);
    count
}

/// The consolidated report of several coordinates.
fn report(outcomes: &Vec<RoleOutcome>) -> (text: String)
    ensures
        text@ == report_quoting(
            outcomes_view(outcomes@),
            quoted_parts(outcomes_view(outcomes@)),
        ),
    decreases outcomes, 1int,
{
    let ghost all = outcomes_view(outcomes@);
    let mut quoted: Vec<String> = Vec::new();
    let mut i: usize = 0;
    while i < outcomes.len()
        invariant
            i <= outcomes@.len(),
            all == outcomes_view(outcomes@),
            texts(quoted@) == quoted_parts(all).take(i as int),
        decreases outcomes@.len() - i,
    {
        let text = quote(outcomes[i].quoted_part());
        assert(text@ == quoted_parts(all)[i as int]);
        quoted.push(text);
        assert(texts(quoted@) == quoted_parts(all).take(i as int).push(text@));
        assert(quoted_parts(all).take(i + 1) == quoted_parts(all).take(i as int).push(text@));
        i += 1;
    }
    assert(quoted_parts(all).take(i as int) == quoted_parts(all));
    assert(texts(quoted@).len() == quoted@.len());
    report_with(outcomes, quoted.as_slice())
}

/// The consolidated report of several coordinates, given what each of them
/// quotes, in quotation marks.
pub fn report_with(outcomes: &Vec<RoleOutcome>, quoted: &[String]) -> (text: String)
    requires
        quoted@.len() == outcomes@.len(),
    ensures
        text@ == report_quoting(outcomes_view(outcomes@), texts(quoted@)),
    decreases outcomes, 0int,
{
    let failures: usize = count_failures(outcomes);
    let mut s = "error: ".to_owned();
    s.append(decimal(failures as u64).as_str());
    s.append(if failures == 1 { " coordinate" } else { " coordinates" });
    s.append(" failed:\n");
    let ghost head = s@;
    proof {
        reveal_strlit("error: ");
    }
    let mut i: usize = 0;
    while i < outcomes.len()
        invariant
            i <= outcomes@.len() == quoted@.len(),
            s@.len() > 0,
            s@ == outcome_rows(head, outcomes_view(outcomes@), texts(quoted@), i as int),
        decreases outcomes@.len() - i,
    {
        s.append(outcomes[i].consolidated_line_with(quoted[i].as_str()).as_str());
        i += 1;
    }
    let n: usize = s.as_str().unicode_len();
    s.as_str().substring_char(0, n - 1).to_owned()
}

} // verus!
