//! The hook: whether an edit is refused, and with which reply.
//!
//! [`decide`] is given what has been found out so far and answers with the
//! next thing to find out, or with its verdict. An edit that is not refused is
//! allowed without a word.

use vstd::prelude::*;

use crate::candidate::{candidates_view, Candidate, CandidateView, Tell};
use crate::outside::{entries_view, nested_object, nested_object_text, strip_prefix};
use crate::path::{below, components, left_behind, portable};
use crate::suggest::{
    delete_fork_reason, deletion_reason, deny_reason, insertion_reason, slice_view,
    sole_occurrence, Twin,
};
use crate::twin::{fits_at, Hit};

verus! {

/// What a search of the workspace found.
pub struct Scan {
    /// The verbatim occurrences of the block, in the order they were found.
    pub twins: Vec<Twin>,
    /// The path of the edited file as it is shown; of no meaning where the
    /// edit names no file.
    pub edited: String,
}

/// What the hook needs next, or its verdict.
pub enum Verdict {
    /// A search of the workspace for the block of this candidate.
    Search(usize),
    /// The text of the file of this occurrence.
    ReadTwin(usize),
    /// The text of the file of this candidate.
    ReadEdited(usize),
    /// The edit goes ahead.
    Allow,
    /// The edit is refused, with this reply.
    Deny(String),
}

/// A [`Verdict`] as a mathematical value.
#[verifier::ext_equal]
pub enum VerdictView {
    Search(int),
    ReadTwin(int),
    ReadEdited(int),
    Allow,
    Deny(Seq<char>),
}

impl View for Verdict {
    type V = VerdictView;

    open spec fn view(&self) -> VerdictView {
        match *self {
            Verdict::Search(i) => VerdictView::Search(i as int),
            Verdict::ReadTwin(i) => VerdictView::ReadTwin(i as int),
            Verdict::ReadEdited(i) => VerdictView::ReadEdited(i as int),
            Verdict::Allow => VerdictView::Allow,
            Verdict::Deny(reply) => VerdictView::Deny(reply@),
        }
    }
}

/// The index of the largest of the first `n` candidates, the last of several.
pub open spec fn largest(candidates: Seq<CandidateView>, n: int) -> int
    decreases n,
{
    if n <= 1 {
        0
    } else {
        let earlier = largest(candidates, n - 1);
        if candidates[n - 1].block.len() >= candidates[earlier].block.len() {
            n - 1
        } else {
            earlier
        }
    }
}

/// The index of the first occurrence, from `i` on, that is not in the edited
/// file.
pub open spec fn first_elsewhere(twins: Seq<Twin>, i: int) -> Option<int>
    decreases twins.len() - i,
{
    if i >= twins.len() {
        None
    } else if !twins[i].edited {
        Some(i)
    } else {
        first_elsewhere(twins, i + 1)
    }
}

/// The occurrence that an inserted block is taken to come from: the first that
/// is not in the edited file, or else the first.
pub open spec fn origin(twins: Seq<Twin>) -> int {
    match first_elsewhere(twins, 0) {
        Some(i) => i,
        None => 0,
    }
}

/// The reply that refuses an edit for the given reason.
pub open spec fn denial(reason: Seq<char>) -> Seq<char> {
    nested_object_text(
        "hookSpecificOutput"@,
        seq![
            ("hookEventName"@, "PreToolUse"@),
            ("permissionDecision"@, "deny"@),
            ("permissionDecisionReason"@, reason),
        ],
    )
}

/// What is done about an insertion: it is refused where the block stands
/// anywhere already. `read` is the text of the file it stands in, once it has
/// been read, as far as it could be.
pub open spec fn insertion_verdict(
    candidate: CandidateView,
    scan: Scan,
    read: Option<Option<Seq<char>>>,
) -> VerdictView {
    let twin = scan.twins@[origin(scan.twins@)];
    if scan.twins@.len() == 0 {
        VerdictView::Allow
    } else {
        match read {
            None => VerdictView::ReadTwin(origin(scan.twins@)),
            Some(text) => VerdictView::Deny(
                denial(
                    insertion_reason(
                        candidate.block,
                        twin.path@,
                        twin.start as nat,
                        text,
                        if candidate.file is Some && !twin.edited {
                            Some(scan.edited@)
                        } else {
                            None
                        },
                    ),
                ),
            ),
        }
    }
}

/// What is done about a deletion: it is refused where the block stands in the
/// edited file exactly once. `read` is the text of that file, once it has been
/// read, as far as it could be.
pub open spec fn deletion_verdict(
    candidate: CandidateView,
    at: int,
    scan: Scan,
    read: Option<Option<Seq<char>>>,
) -> VerdictView {
    let twin = match first_elsewhere(scan.twins@, 0) {
        Some(i) => Some(scan.twins@[i].path@),
        None => None,
    };
    if candidate.file is None {
        VerdictView::Allow
    } else {
        match read {
            None => VerdictView::ReadEdited(at),
            Some(None) => VerdictView::Allow,
            Some(Some(text)) => match sole_occurrence(text, candidate.block) {
                None => VerdictView::Allow,
                Some(start) => VerdictView::Deny(
                    denial(deletion_reason(candidate.block, scan.edited@, start, text, twin)),
                ),
            },
        }
    }
}

/// What is done about an edit with these candidates: the largest decides.
pub open spec fn verdict_on(
    candidates: Seq<CandidateView>,
    scan: Option<Scan>,
    read: Option<Option<Seq<char>>>,
) -> VerdictView {
    let at = largest(candidates, candidates.len() as int);
    if candidates.len() == 0 {
        VerdictView::Allow
    } else {
        match scan {
            None => VerdictView::Search(at),
            Some(scan) => match candidates[at].tell {
                Tell::Insertion => insertion_verdict(candidates[at], scan, read),
                Tell::Deletion => deletion_verdict(candidates[at], at, scan, read),
            },
        }
    }
}

/// What was read, as a mathematical value.
pub open spec fn read_view(read: Option<Option<&str>>) -> Option<Option<Seq<char>>> {
    match read {
        Some(text) => Some(slice_view(text)),
        None => None,
    }
}

/// A scan that may be absent, as a mathematical value.
pub open spec fn scan_view(scan: Option<&Scan>) -> Option<Scan> {
    match scan {
        Some(scan) => Some(*scan),
        None => None,
    }
}

/// Each occurrence is one of a block with `n` lines, and there are some.
pub open spec fn plausible(twins: Seq<Twin>, n: nat) -> bool {
    forall|i: int| 0 <= i < twins.len() ==> n > 0 && fits_at((#[trigger] twins[i]).start, n)
}

/// A path as it is shown, given what is left of it below the root, if it lies
/// there.
pub fn shown_path(rest: Option<String>, path: &str) -> (shown: String)
    ensures
        rest matches Some(rest) ==> shown@ == rest@,
        rest is None ==> shown@ == path@,
{
    match rest {
        Some(rest) => rest,
        None => path.to_owned(),
    }
}

/// `shown` is how a path is shown: what is left of it below the root where it
/// lies there, else the path itself. Of paths and roots that platforms read in
/// different ways it is left open which lie below which; [`shown_path`] does what
/// remains.
pub open spec fn shown_below(path: Seq<char>, root: Seq<char>, shown: Seq<char>) -> bool {
    &&& path == root ==> shown.len() == 0
    &&& portable(path) && portable(root) && below(path, root) ==> left_behind(
        path,
        components(root).len() as int,
        shown,
    )
    &&& portable(path) && portable(root) && !below(path, root) ==> shown == path
}

/// A path as it is shown: below the root where it lies there.
pub fn display_path(path: &str, root: &str) -> (shown: String)
    ensures
        shown_below(path@, root@, shown@),
{
    shown_path(strip_prefix(path, root), path)
}

/// An occurrence as it is reported, its path as it is shown below the root.
pub fn twin_of(hit: &Hit, root: &str, edited: bool) -> (twin: Twin)
    ensures
        shown_below(hit.path@, root@, twin.path@),
        twin.start == hit.start,
        twin.edited == edited,
{
    Twin { path: display_path(hit.path.as_str(), root), start: hit.start, edited }
}

/// What a search below the root found, as it is reported: the occurrences in
/// their order, each with whether it stands in the edited file, and that file,
/// where there is one.
pub fn scan_of(hits: &[Hit], in_edited: &[bool], file: Option<&str>, root: &str) -> (scan: Scan)
    requires
        in_edited@.len() == hits@.len(),
    ensures
        scan.twins@.len() == hits@.len(),
        forall|i: int|
            0 <= i < hits@.len() ==> {
                let twin = #[trigger] scan.twins@[i];
                &&& shown_below(hits@[i].path@, root@, twin.path@)
                &&& twin.start == hits@[i].start
                &&& twin.edited == in_edited@[i]
            },
        file matches Some(path) ==> shown_below(path@, root@, scan.edited@),
        file is None ==> scan.edited@.len() == 0,
{
    let mut twins: Vec<Twin> = Vec::new();
    let mut i: usize = 0;
    while i < hits.len()
        invariant
            i == twins@.len(),
            i <= hits@.len() == in_edited@.len(),
            forall|j: int|
                0 <= j < i ==> {
                    let twin = #[trigger] twins@[j];
                    &&& shown_below(hits@[j].path@, root@, twin.path@)
                    &&& twin.start == hits@[j].start
                    &&& twin.edited == in_edited@[j]
                },
        decreases hits@.len() - i,
    {
        twins.push(twin_of(&hits[i], root, in_edited[i]));
        i += 1;
    }
    let edited = match file {
        Some(path) => display_path(path, root),
        None => String::new(),
    };
    Scan { twins, edited }
}

/// The reply that refuses an edit for the given reason.
pub fn deny_payload(reason: String) -> (reply: String)
    ensures
        reply@ == denial(reason@),
{
    let mut entries: Vec<(String, String)> = Vec::new();
    entries.push(("hookEventName".to_owned(), "PreToolUse".to_owned()));
    entries.push(("permissionDecision".to_owned(), "deny".to_owned()));
    entries.push(("permissionDecisionReason".to_owned(), reason));
    assert(entries_view(entries@) == seq![
        ("hookEventName"@, "PreToolUse"@),
        ("permissionDecision"@, "deny"@),
        ("permissionDecisionReason"@, reason@),
    ]);
    nested_object("hookSpecificOutput", entries)
}

/// The index of the largest candidate, the last of several.
fn largest_index(cands: &[Candidate]) -> (at: usize)
    requires
        cands@.len() > 0,
    ensures
        at == largest(candidates_view(cands@), cands@.len() as int),
        at < cands@.len(),
{
    let ghost all = candidates_view(cands@);
    let mut at: usize = 0;
    let mut i: usize = 1;
    while i < cands.len()
        invariant
            all == candidates_view(cands@),
            at < i <= cands@.len(),
            at == largest(all, i as int),
        decreases cands@.len() - i,
    {
        assert(all[i as int].block.len() == cands@[i as int].block@.len());
        assert(all[at as int].block.len() == cands@[at as int].block@.len());
        if cands[i].block.len() >= cands[at].block.len() {
            at = i;
        }
        i += 1;
    }
    at
}

/// The index of the first occurrence that is not in the edited file.
fn find_elsewhere(twins: &Vec<Twin>) -> (found: Option<usize>)
    ensures
        match found {
            Some(i) => i < twins@.len() && first_elsewhere(twins@, 0) == Some(i as int),
            None => first_elsewhere(twins@, 0) is None,
        },
{
    let mut i: usize = 0;
    while i < twins.len()
        invariant
            i <= twins@.len(),
            first_elsewhere(twins@, 0) == first_elsewhere(twins@, i as int),
        decreases twins@.len() - i,
    {
        if !twins[i].edited {
            return Some(i);
        }
        i += 1;
    }
    None
}

/// Decides about an edit with these candidates. The largest block is the one
/// that counts: an insertion is refused where the block stands somewhere
/// already, a deletion where the block stands in the edited file exactly once.
///
/// `scan` is what a search for its block found, and `read` the text of the
/// file that was asked for, or nothing where it could not be read. Where one
/// of them is still needed, the answer says which, and the call is made again
/// with it.
pub fn decide(cands: &[Candidate], scan: Option<&Scan>, read: Option<Option<&str>>) -> (verdict:
    Verdict)
    requires
        scan matches Some(scan) ==> cands@.len() > 0 ==> plausible(
            scan.twins@,
            candidates_view(cands@)[largest(
                candidates_view(cands@),
                cands@.len() as int,
            )].block.len(),
        ),
    ensures
        verdict@ == verdict_on(candidates_view(cands@), scan_view(scan), read_view(read)),
{
    if cands.len() == 0 {
        return Verdict::Allow;
    }
    let at: usize = largest_index(cands);
    let candidate = &cands[at];
    assert(candidates_view(cands@)[at as int] == candidate@);
    assert(candidate@.block.len() == candidate.block@.len());
    let scan = match scan {
        None => return Verdict::Search(at),
        Some(scan) => scan,
    };
    let elsewhere = find_elsewhere(&scan.twins);
    match candidate.tell {
        Tell::Insertion => {
            if scan.twins.len() == 0 {
                return Verdict::Allow;
            }
            let i: usize = match elsewhere {
                Some(i) => i,
                None => 0,
            };
            match read {
                None => Verdict::ReadTwin(i),
                Some(text) => {
                    let dest = if candidate.file.is_some() { Some(scan.edited.as_str()) } else {
                        None
                    };
                    let reason = deny_reason(
                        candidate.block.as_slice(),
                        &scan.twins[i],
                        text,
                        dest,
                    );
                    Verdict::Deny(deny_payload(reason))
                },
            }
        },
        Tell::Deletion => {
            if candidate.file.is_none() {
                return Verdict::Allow;
            }
            let text = match read {
                None => return Verdict::ReadEdited(at),
                Some(text) => text,
            };
            let twin = match elsewhere {
                Some(i) => Some(scan.twins[i].path.as_str()),
                None => None,
            };
            match delete_fork_reason(candidate, twin, scan.edited.as_str(), text) {
                Some(reason) => Verdict::Deny(deny_payload(reason)),
                None => Verdict::Allow,
            }
        },
    }
}

} // verus!
