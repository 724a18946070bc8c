//! What an edit would add or remove, as far as it may be half of a move.

use vstd::prelude::*;

use crate::search::texts;
use crate::text::{
    added, added_lines, block_lines, logical_lines, option_text, option_view, same_text,
    text_or_empty, trimmed_lines,
};

verus! {

/// How many lines an inserted block must have to be looked at.
pub const DENY_MIN_LINES: usize = 5;

/// How many lines a deleted block must have to be looked at. The bar is higher
/// than for an insertion: most large deletions are nothing else, and no second
/// occurrence of the block confirms the suspicion.
pub const DELETE_DENY_MIN_LINES: usize = 10;

/// Whether a block is being added to a file or removed from it.
#[derive(Clone, Copy, Debug, PartialEq, Eq, Structural)]
pub enum Tell {
    /// Text being written: the second half of a move or a copy.
    Insertion,
    /// Text being removed: the first half of a move.
    Deletion,
}

/// A block that an edit would add or remove, as lines without blank ones at
/// the two ends, and the file being edited.
pub struct Candidate {
    pub block: Vec<String>,
    pub tell: Tell,
    pub file: Option<String>,
}

/// A [`Candidate`] as a mathematical value.
#[verifier::ext_equal]
pub struct CandidateView {
    pub block: Seq<Seq<char>>,
    pub tell: Tell,
    pub file: Option<Seq<char>>,
}

impl View for Candidate {
    type V = CandidateView;

    open spec fn view(&self) -> CandidateView {
        CandidateView {
            block: texts(self.block@),
            tell: self.tell,
            file: option_view(self.file),
        }
    }
}

/// Candidates as mathematical values.
pub open spec fn candidates_view(candidates: Seq<Candidate>) -> Seq<CandidateView> {
    candidates.map_values(|c: Candidate| c@)
}

/// One replacement of a text by another; a text that is absent counts as
/// empty.
pub struct EditInput {
    pub old_string: Option<String>,
    pub new_string: Option<String>,
}

/// What a tool was called with, as far as the editing tools have it. A part
/// that the call lacks, or gives in another shape, is absent.
pub struct ToolInput {
    pub file_path: Option<String>,
    pub content: Option<String>,
    pub old_string: Option<String>,
    pub new_string: Option<String>,
    pub edits: Option<Vec<EditInput>>,
}

/// The candidate that a block makes, where it is large enough.
pub open spec fn sizable(
    block: Seq<Seq<char>>,
    bar: nat,
    tell: Tell,
    file: Option<Seq<char>>,
) -> Seq<CandidateView> {
    if block.len() >= bar {
        seq![CandidateView { block, tell, file }]
    } else {
        seq![]
    }
}

/// The candidate that writing a text makes.
pub open spec fn written(content: Seq<char>, file: Option<Seq<char>>) -> Seq<CandidateView> {
    sizable(
        trimmed_lines(logical_lines(content)),
        DENY_MIN_LINES as nat,
        Tell::Insertion,
        file,
    )
}

/// The candidate that an edit makes: what it removes where it puts nothing in
/// its place, else what it adds.
pub open spec fn edited(old_text: Seq<char>, new_text: Seq<char>, file: Option<Seq<char>>) -> Seq<
    CandidateView,
> {
    if new_text.len() == 0 {
        sizable(
            trimmed_lines(logical_lines(old_text)),
            DELETE_DENY_MIN_LINES as nat,
            Tell::Deletion,
            file,
        )
    } else {
        sizable(
            added(logical_lines(old_text), logical_lines(new_text)),
            DENY_MIN_LINES as nat,
            Tell::Insertion,
            file,
        )
    }
}

/// The candidates that the first `n` edits make.
pub open spec fn all_edited(edits: Seq<EditInput>, n: int, file: Option<Seq<char>>) -> Seq<
    CandidateView,
>
    decreases n,
{
    if n <= 0 {
        seq![]
    } else {
        all_edited(edits, n - 1, file) + edited(
            option_text(edits[n - 1].old_string),
            option_text(edits[n - 1].new_string),
            file,
        )
    }
}

/// The candidates that a call of a tool makes: only the editing tools make
/// any.
pub open spec fn called(tool: Seq<char>, input: ToolInput) -> Seq<CandidateView> {
    let file = option_view(input.file_path);
    if tool == "Write"@ {
        match input.content {
            Some(content) => written(content@, file),
            None => seq![],
        }
    } else if tool == "Edit"@ {
        edited(option_text(input.old_string), option_text(input.new_string), file)
    } else if tool == "MultiEdit"@ {
        match input.edits {
            Some(edits) => all_edited(edits@, edits@.len() as int, file),
            None => seq![],
        }
    } else {
        seq![]
    }
}

/// A copy of an optional text.
fn copy_option(text: &Option<String>) -> (copy: Option<String>)
    ensures
        option_view(copy) == option_view(*text),
{
    match text {
        Some(text) => Some(text.as_str().to_owned()),
        None => None,
    }
}

/// Adds the candidate that a block makes, where it is large enough.
fn push_sizable(
    out: &mut Vec<Candidate>,
    block: Vec<String>,
    bar: usize,
    tell: Tell,
    file: &Option<String>,
)
    ensures
        candidates_view(final(out)@) == candidates_view(old(out)@) + sizable(
            texts(block@),
            bar as nat,
            tell,
            option_view(*file),
        ),
{
    assert(texts(block@).len() == block@.len());
    if block.len() >= bar {
        let candidate = Candidate { block, tell, file: copy_option(file) };
        out.push(candidate);
        assert(candidates_view(out@) == candidates_view(old(out)@).push(candidate@));
    }
    assert(candidates_view(out@) == candidates_view(old(out)@) + sizable(
        texts(block@),
        bar as nat,
        tell,
        option_view(*file),
    ));
}

/// Adds the candidate that an edit from `old` to `new` makes: a pure deletion
/// is the first half of a move, and what is genuinely added is the second.
pub fn push_edit(out: &mut Vec<Candidate>, old_text: &str, new_text: &str, file: &Option<String>)
    ensures
        candidates_view(final(out)@) == candidates_view(old(out)@) + edited(
            old_text@,
            new_text@,
            option_view(*file),
        ),
{
    if new_text.is_empty() {
        push_sizable(out, block_lines(old_text), DELETE_DENY_MIN_LINES, Tell::Deletion, file);
    } else {
        push_sizable(
            out,
            added_lines(old_text, new_text),
            DENY_MIN_LINES,
            Tell::Insertion,
            file,
        );
    }
}

/// The candidates in a call of a tool.
pub fn candidates(tool: &str, input: &ToolInput) -> (found: Vec<Candidate>)
    ensures
        candidates_view(found@) == called(tool@, *input),
{
    let ghost file = option_view(input.file_path);
    let mut out: Vec<Candidate> = Vec::new();
    assert(candidates_view(out@) == Seq::<CandidateView>::empty());
    if same_text(tool, "Write") {
        if let Some(content) = &input.content {
            push_sizable(
                &mut out,
                block_lines(content.as_str()),
                DENY_MIN_LINES,
                Tell::Insertion,
                &input.file_path,
            );
            assert(candidates_view(out@) == written(content@, file));
        }
    } else if same_text(tool, "Edit") {
        push_edit(
            &mut out,
            text_or_empty(&input.old_string),
            text_or_empty(&input.new_string),
            &input.file_path,
        );
        assert(candidates_view(out@) == edited(
            option_text(input.old_string),
            option_text(input.new_string),
            file,
        ));
    } else if same_text(tool, "MultiEdit") {
        if let Some(edits) = &input.edits {
            let mut i: usize = 0;
            while i < edits.len()
                invariant
                    i <= edits@.len(),
                    file == option_view(input.file_path),
                    candidates_view(out@) == all_edited(edits@, i as int, file),
                decreases edits@.len() - i,
            {
                push_edit(
                    &mut out,
                    text_or_empty(&edits[i].old_string),
                    text_or_empty(&edits[i].new_string),
                    &input.file_path,
                );
                i += 1;
            }
        }
    }
    out
}

} // verus!
