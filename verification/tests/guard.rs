//! The hook, on a workspace held in memory.

use serde_json::Value;
use span::candidate::{candidates, Candidate, ToolInput};
use span::hook::{decide as verdict, scan_of, Scan, Verdict};
use span::twin::{find_in_file, Hit};

const ROOT: &str = "/work";

/// Files below the root, by their full paths.
struct Workspace {
    files: Vec<(String, String)>,
}

impl Workspace {
    fn read(&self, path: &str) -> Option<&str> {
        self.files.iter().find(|file| file.0 == path).map(|file| file.1.as_str())
    }

    /// What a search for the candidate's block finds.
    fn scan(&self, candidate: &Candidate) -> (Scan, Vec<String>) {
        let mut hits: Vec<Hit> = Vec::new();
        for (path, text) in &self.files {
            find_in_file(text.as_bytes(), &candidate.block, path, &mut hits);
        }
        let file = candidate.file.as_deref();
        let in_edited: Vec<bool> =
            hits.iter().map(|hit| file == Some(hit.path.as_str())).collect();
        let scan = scan_of(&hits, &in_edited, file, ROOT);
        (scan, hits.into_iter().map(|hit| hit.path).collect())
    }
}

/// The reply to a call of a tool, or nothing where it is allowed.
fn decide(dir: &Workspace, tool: &str, input: &ToolInput) -> Option<Value> {
    let cands = candidates(tool, input);
    let mut scan: Option<(Scan, Vec<String>)> = None;
    let mut read: Option<Option<&str>> = None;
    loop {
        match verdict(&cands, scan.as_ref().map(|found| &found.0), read) {
            Verdict::Search(i) => {
                assert!(scan.is_none());
                scan = Some(dir.scan(&cands[i]));
            }
            Verdict::ReadTwin(i) => {
                assert!(read.is_none());
                read = Some(dir.read(&scan.as_ref().unwrap().1[i]));
            }
            Verdict::ReadEdited(i) => {
                assert!(read.is_none());
                read = Some(dir.read(cands[i].file.as_deref().unwrap()));
            }
            Verdict::Allow => return None,
            Verdict::Deny(reply) => {
                let value: Value = serde_json::from_str(&reply).expect("the reply is JSON");
                return Some(value["hookSpecificOutput"].clone());
            }
        }
    }
}

/// The reason of a refusal.
fn deny_reason(out: &Value) -> String {
    assert_eq!(
        out["permissionDecision"].as_str(),
        Some("deny"),
        "expected a deny decision, got: {out}"
    );
    out["permissionDecisionReason"].as_str().expect("deny reason string").to_string()
}

/// A workspace with one file.
fn workspace(name: &str, contents: &str) -> Workspace {
    Workspace { files: vec![(format!("{ROOT}/{name}"), contents.to_string())] }
}

/// A call that has nothing.
fn nothing() -> ToolInput {
    ToolInput {
        file_path: None,
        content: None,
        old_string: None,
        new_string: None,
        edits: None,
    }
}

/// An `Edit` that replaces `old` in `file` by nothing.
fn delete_payload(file: &str, old: &str) -> ToolInput {
    ToolInput {
        file_path: Some(format!("{ROOT}/{file}")),
        old_string: Some(old.to_string()),
        new_string: Some(String::new()),
        ..nothing()
    }
}

/// A `Write` of `content` into `file`.
fn write_payload(file: &str, content: &str) -> ToolInput {
    ToolInput {
        file_path: Some(format!("{ROOT}/{file}")),
        content: Some(content.to_string()),
        ..nothing()
    }
}

// A 14-line module: a 12-line function that ends with a bare `}` on line 12, and
// a second `}` on line 14, so that the closing brace is ambiguous by itself.
const HELPER_MOD: &str = "fn helper() {\n    let a = 1;\n    let b = 2;\n    let c = 3;\n    let d = 4;\n    let e = 5;\n    let f = 6;\n    let g = 7;\n    let h = 8;\n    let i = 9;\n    let j = 10;\n}\nfn other() {\n}\n";

/// The first 12 lines of the module: the function.
fn helper_fn() -> String {
    let lines: Vec<&str> = HELPER_MOD.lines().collect();
    format!("{}\n", lines[..12].join("\n"))
}

/// A large deletion is refused with two commands, one to relocate the block and
/// one to delete it, both by reference. No second occurrence is needed.
#[test]
fn large_deletion_denied_with_fork() {
    let dir = workspace("mod.rs", HELPER_MOD);
    let out = decide(&dir, "Edit", &delete_payload("mod.rs", &helper_fn()))
        .expect("a 12-line deletion must not be a silent allow");
    let reason = deny_reason(&out);

    assert!(reason.contains("span move mod.rs"), "reason: {reason}");
    assert!(reason.contains("--dest <LINE>"), "relocate arm missing: {reason}");
    assert!(reason.contains("--force"), "delete arm missing: {reason}");
    assert!(reason.contains("--from 1"), "reason: {reason}");
    assert!(reason.contains("--to 12"), "reason: {reason}");
    assert!(reason.contains("--from-guard \"fn helper() {\""), "reason: {reason}");
}

/// The closing `}` also stands on line 14, so the command brings a neighbor with
/// it that makes the anchor unique.
#[test]
fn delete_fork_auto_attaches_context_for_ambiguous_endpoint() {
    let dir = workspace("mod.rs", HELPER_MOD);
    let reason =
        deny_reason(&decide(&dir, "Edit", &delete_payload("mod.rs", &helper_fn())).unwrap());

    assert!(reason.contains("--to-guard \"}\""), "reason: {reason}");
    assert!(
        reason.contains("--to-context \"-1:let j = 10;\""),
        "expected auto context for ambiguous brace: {reason}"
    );
}

/// A small deletion is nobody's business.
#[test]
fn small_deletion_without_twin_is_silent() {
    let dir = workspace(
        "code.rs",
        "fn f() {\n    uniq_one();\n    uniq_two();\n    uniq_three();\n}\n",
    );
    let old = "    uniq_one();\n    uniq_two();\n    uniq_three();\n";
    assert!(
        decide(&dir, "Edit", &delete_payload("code.rs", old)).is_none(),
        "a 3-line no-twin deletion should pass silently"
    );
}

/// A large block that stands nowhere yet is new, and passes.
#[test]
fn new_large_block_without_twin_is_silent() {
    let dir = Workspace { files: Vec::new() };
    let content: String = (0..20).map(|i| format!("brand_new_unique_line_{i}\n")).collect();
    assert!(
        decide(&dir, "Write", &write_payload("new.rs", &content)).is_none(),
        "a new block with no twin should pass silently"
    );
}

/// Writing a block that stands verbatim in another file is refused, with the
/// coordinates of that occurrence.
#[test]
fn insertion_with_twin_denied_and_uniquely_anchored() {
    let dir = workspace("mod.rs", HELPER_MOD);
    let reason = deny_reason(
        &decide(&dir, "Write", &write_payload("dest.rs", &helper_fn()))
            .expect("inserting a twinned block must deny"),
    );

    assert!(
        reason.contains("already exists verbatim at mod.rs:1-12"),
        "reason: {reason}"
    );
    assert!(reason.contains("span move mod.rs"), "reason: {reason}");
    assert!(
        reason.contains("--to-context \"-1:let j = 10;\""),
        "expected unique anchor on insertion deny: {reason}"
    );
}

/// A payload that is no call of a tool is met with silence.
#[test]
fn malformed_input_fails_open() {
    let dir = Workspace { files: Vec::new() };
    assert!(
        decide(&dir, "", &nothing()).is_none(),
        "unknown payload should be silent"
    );
}

/// A block that stands twice in the edited file could be addressed at the wrong
/// place, so its deletion gets no command.
#[test]
fn duplicated_block_deletion_never_emits_wrong_target_command() {
    let body = HELPER_MOD.lines().take(12).collect::<Vec<_>>().join("\n");
    let file = format!("mod dest_region {{\n{body}\n}}\nmod source_region {{\n{body}\n}}\n");
    let dir = workspace("mod.rs", &file);

    match decide(&dir, "Edit", &delete_payload("mod.rs", &body)) {
        None => {}
        Some(out) => {
            assert_ne!(
                out["permissionDecision"].as_str(),
                Some("deny"),
                "must not hard-deny a duplicated-block deletion with a wrong-target command: {out}"
            );
            let ctx = out["additionalContext"].as_str().unwrap_or("");
            assert!(
                !ctx.contains("--force") && !ctx.contains("--from"),
                "a reminder must not embed assembled command coordinates: {ctx}"
            );
        }
    }
}

/// Where every line of a block is duplicated, the neighbor that tells the two
/// apart may be far away, and is found.
#[test]
fn fully_duplicated_block_gets_far_context_anchor() {
    let dir = workspace(
        "src.txt",
        "dup1\ndup2\ndup3\ndup4\ndup5\nMIDDLE_UNIQUE\ndup1\ndup2\ndup3\ndup4\ndup5\n",
    );
    let reason = deny_reason(
        &decide(
            &dir,
            "Write",
            &write_payload("dest.txt", "dup1\ndup2\ndup3\ndup4\ndup5\n"),
        )
        .expect("a twinned insertion must deny"),
    );
    assert!(reason.contains("--from-context"), "no context emitted: {reason}");
    assert!(
        reason.contains("MIDDLE_UNIQUE"),
        "far disambiguator not used: {reason}"
    );
}
