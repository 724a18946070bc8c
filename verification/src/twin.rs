//! Verbatim occurrences of a block, and where to look for them.

use vstd::prelude::*;
use vstd::utf8::{decode_utf8, valid_utf8};

use crate::outside::utf8_text;
use crate::search::{occurs_at, texts};
use crate::text::{logical_lines, same_text, slices, split_logical};

verus! {

/// Larger files are not searched: a block that is being moved lives in
/// ordinary text.
pub const MAX_SCAN_BYTES: u64 = 2097152;

/// One verbatim occurrence of a block: the file, and the line, counted from
/// one, at which it starts.
pub struct Hit {
    pub path: String,
    pub start: usize,
}

/// Occurrences as mathematical values.
pub open spec fn hits_view(hits: Seq<Hit>) -> Seq<(Seq<char>, nat)> {
    hits.map_values(|hit: Hit| (hit.path@, hit.start as nat))
}

/// The lines, counted from one and among the first `n`, at which the block
/// stands: line by line the same, every line in full.
pub open spec fn starts(lines: Seq<Seq<char>>, block: Seq<Seq<char>>, n: int) -> Seq<nat>
    decreases n,
{
    if n <= 0 {
        seq![]
    } else if occurs_at(lines, block, n - 1) {
        starts(lines, block, n - 1).push(n as nat)
    } else {
        starts(lines, block, n - 1)
    }
}

/// The lines of a text at which the block stands. An empty block stands
/// nowhere.
pub open spec fn occurrences(text: Seq<char>, block: Seq<Seq<char>>) -> Seq<nat> {
    if block.len() == 0 {
        seq![]
    } else {
        starts(logical_lines(text), block, logical_lines(text).len() as int)
    }
}

/// The occurrences of a block in the file at `path`.
pub open spec fn hits_in(path: Seq<char>, text: Seq<char>, block: Seq<Seq<char>>) -> Seq<
    (Seq<char>, nat),
> {
    occurrences(text, block).map_values(|start: nat| (path, start))
}

/// A block of `n` lines can start at line `start`, counted from one: its last
/// line has a number too.
pub open spec fn fits_at(start: usize, n: nat) -> bool {
    1 <= start && start + n - 1 <= usize::MAX
}

/// Each of the starts is a line at which the whole block fits and stands.
pub proof fn lemma_starts(lines: Seq<Seq<char>>, block: Seq<Seq<char>>, n: int)
    ensures
        forall|k: int|
            0 <= k < starts(lines, block, n).len() ==> {
                let start = #[trigger] starts(lines, block, n)[k];
                1 <= start <= n && occurs_at(lines, block, start - 1)
            },
    decreases n,
{
    if n > 0 {
        lemma_starts(lines, block, n - 1);
        let found = starts(lines, block, n);
        let earlier = starts(lines, block, n - 1);
        assert forall|k: int| 0 <= k < found.len() implies {
            let start = #[trigger] found[k];
            1 <= start <= n && occurs_at(lines, block, start - 1)
        } by {
            if k < earlier.len() {
                assert(found[k] == earlier[k]);
            }
        }
    }
}

/// Whether the block stands in `lines` from index `at` on.
pub(crate) fn stands_at(lines: &Vec<&str>, block: &[String], at: usize) -> (yes: bool)
    requires
        at + block@.len() <= lines@.len(),
    ensures
        yes == occurs_at(slices(lines@), texts(block@), at as int),
{
    let ghost file = slices(lines@);
    let ghost wanted = texts(block@);
    let ghost part = file.subrange(at as int, at + wanted.len());
    let count: usize = lines.len();
    let mut k: usize = 0;
    while k < block.len()
        invariant
            k <= block@.len(),
            at + block@.len() <= lines@.len() == count,
            file == slices(lines@),
            wanted == texts(block@),
            part == file.subrange(at as int, at + wanted.len()),
            forall|j: int| 0 <= j < k ==> part[j] == wanted[j],
        decreases block@.len() - k,
    {
        if !same_text(lines[at + k], block[k].as_str()) {
            assert(part[k as int] != wanted[k as int]);
            return false;
        }
        k += 1;
    }
    assert(part == wanted);
    true
}

/// Adds every verbatim occurrence of `block` in `text`. Every line must be the
/// same in full: a near miss is no occurrence.
pub fn find_in_text(text: &str, block: &[String], path: &str, hits: &mut Vec<Hit>)
    ensures
        hits_view(final(hits)@) == hits_view(old(hits)@) + hits_in(path@, text@, texts(block@)),
        forall|k: int|
            old(hits)@.len() <= k < final(hits)@.len() ==> fits_at(
                (#[trigger] final(hits)@[k]).start,
                block@.len(),
            ),
{
    let lines = split_logical(text);
    let ghost file = slices(lines@);
    let ghost wanted = texts(block@);
    let ghost before = hits_view(hits@);
    let len: usize = block.len();
    assert(wanted.len() == len && file.len() == lines@.len());
    assert(before + Seq::<(Seq<char>, nat)>::empty() == before);
    if len == 0 {
        assert(hits_in(path@, text@, wanted) == Seq::<(Seq<char>, nat)>::empty());
        return;
    }
    let mut i: usize = 0;
    assert(starts(file, wanted, 0).map_values(|start: nat| (path@, start)) == Seq::<
        (Seq<char>, nat),
    >::empty());
    while i < lines.len()
        invariant
            i <= lines@.len() == file.len(),
            len == block@.len() == wanted.len(),
            file == slices(lines@),
            wanted == texts(block@),
            hits_view(hits@) == before + starts(file, wanted, i as int).map_values(
                |start: nat| (path@, start),
            ),
            forall|k: int|
                old(hits)@.len() <= k < hits@.len() ==> fits_at(
                    (#[trigger] hits@[k]).start,
                    len as nat,
                ),
        decreases lines@.len() - i,
    {
        let ghost found = starts(file, wanted, i as int);
        let ghost earlier = hits_view(hits@);
        if len <= lines.len() - i && stands_at(&lines, block, i) {
            hits.push(Hit { path: path.to_owned(), start: i + 1 });
            assert(hits_view(hits@) == earlier.push((path@, (i + 1) as nat)));
            assert(found.push((i + 1) as nat).map_values(|start: nat| (path@, start))
                == found.map_values(|start: nat| (path@, start)).push((path@, (i + 1) as nat)));
            assert(starts(file, wanted, i + 1) == found.push((i + 1) as nat));
        } else {
            assert(!occurs_at(file, wanted, i as int));
        }
        i += 1;
    }
}

/// Adds every verbatim occurrence of `block` in a file with the given bytes.
/// Only valid UTF-8 is text.
pub fn find_in_file(bytes: &[u8], block: &[String], path: &str, hits: &mut Vec<Hit>)
    ensures
        valid_utf8(bytes@) ==> hits_view(final(hits)@) == hits_view(old(hits)@) + hits_in(
            path@,
            decode_utf8(bytes@),
            texts(block@),
        ),
        !valid_utf8(bytes@) ==> hits_view(final(hits)@) == hits_view(old(hits)@),
        forall|k: int|
            old(hits)@.len() <= k < final(hits)@.len() ==> fits_at(
                (#[trigger] final(hits)@[k]).start,
                block@.len(),
            ),
{
    if let Some(text) = utf8_text(bytes) {
        find_in_text(text, block, path, hits);
    }
    assert(hits_view(hits@).len() == hits@.len());
}

/// A directory of this name is not searched: hidden ones, and those that hold
/// build products or other people's code.
pub open spec fn skipped_dir(name: Seq<char>) -> bool {
    ||| name == ".git"@
    ||| name == "target"@
    ||| name == "node_modules"@
    ||| name.len() > 0 && name[0] == '.'
}

/// Something met in a directory, as far as the search needs it.
pub enum Entry {
    /// A directory, with its name where that is text.
    Dir(Option<String>),
    /// A regular file, with its size in bytes where that is known.
    File(Option<u64>),
    /// Anything else: a link, a device.
    Other,
}

/// What the search does with an entry.
#[derive(Clone, Copy, Debug, PartialEq, Eq, Structural)]
pub enum Visit {
    /// Goes on inside.
    Enter,
    /// Looks for the block in it.
    Search,
    /// Leaves it out.
    Pass,
}

/// What the search does with an entry: directories are entered unless their
/// name tells against it, and files are searched unless they are too large or
/// their size is not known.
pub open spec fn visit_of(entry: Entry) -> Visit {
    match entry {
        Entry::Dir(Some(name)) => if skipped_dir(name@) {
            Visit::Pass
        } else {
            Visit::Enter
        },
        Entry::Dir(None) => Visit::Enter,
        Entry::File(Some(size)) => if size > MAX_SCAN_BYTES {
            Visit::Pass
        } else {
            Visit::Search
        },
        Entry::File(None) => Visit::Pass,
        Entry::Other => Visit::Pass,
    }
}

/// Whether a directory of this name is left out of the search.
fn skips_dir(name: &str) -> (yes: bool)
    ensures
        yes == skipped_dir(name@),
{
    same_text(name, ".git") || same_text(name, "target") || same_text(name, "node_modules") || (
    !name.is_empty() && name.get_char(0) == '.')
}

/// What the search does with an entry.
pub fn visit(entry: &Entry) -> (choice: Visit)
    ensures
        choice == visit_of(*entry),
{
    match entry {
        Entry::Dir(Some(name)) => {
            if skips_dir(name.as_str()) {
                Visit::Pass
            } else {
                Visit::Enter
            }
        },
        Entry::Dir(None) => Visit::Enter,
        Entry::File(Some(size)) => {
            if *size > MAX_SCAN_BYTES {
                Visit::Pass
            } else {
                Visit::Search
            }
        },
        Entry::File(None) => Visit::Pass,
        Entry::Other => Visit::Pass,
    }
}

} // verus!
