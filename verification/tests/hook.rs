//! Candidates, occurrences, suggestions and verdicts.

use span::anchor::{parse_context, resolve};
use span::candidate::{candidates, push_edit, Candidate, EditInput, Tell, ToolInput};
use span::error::Role;
use span::hook::{
    decide, deny_payload, display_path, scan_of, shown_path, twin_of, Scan, Verdict,
};
use span::ops::{read_lines, run, FileState, OpArgs, Step, Verb};
use span::suggest::{
    context_flag, context_flag_with, delete_fork_reason, deny_reason, guard_for,
    resolve_endpoint_guards, unique_anchor, Anchor, Twin,
};
use span::text::split_logical;
use span::twin::{find_in_file, find_in_text, visit, Entry, Hit, Visit};

fn numbered(n: usize) -> String {
    (1..=n).map(|i| format!("line {i}\n")).collect()
}

fn block(n: usize) -> Vec<String> {
    (1..=n).map(|i| format!("line {i}")).collect()
}

fn nothing() -> ToolInput {
    ToolInput { file_path: None, content: None, old_string: None, new_string: None, edits: None }
}

fn starts(text: &str, block: &[String]) -> Vec<usize> {
    let mut hits = Vec::new();
    find_in_text(text, block, "p", &mut hits);
    assert!(hits.iter().all(|hit| hit.path == "p"));
    hits.iter().map(|hit| hit.start).collect()
}

fn lines(items: &[&str]) -> Vec<String> {
    items.iter().map(|item| item.to_string()).collect()
}

#[test]
fn candidates_clear_their_bars() {
    let count = |old: &str, new: &str| {
        let mut out = Vec::new();
        push_edit(&mut out, old, new, &Some("f".to_string()));
        out
    };
    assert!(count("", &numbered(4)).is_empty());
    let found = count("", &numbered(5));
    assert_eq!(found.len(), 1);
    assert!(found[0].tell == Tell::Insertion);
    assert_eq!(found[0].block, block(5));
    assert_eq!(found[0].file.as_deref(), Some("f"));
    assert!(count(&numbered(9), "").is_empty());
    let found = count(&format!("\n{}\n", numbered(10)), "");
    assert_eq!(found.len(), 1);
    assert!(found[0].tell == Tell::Deletion);
    assert_eq!(found[0].block, block(10));
    // Lines that an edit keeps do not count.
    assert!(count(&numbered(20), &format!("{}more\n", numbered(20))).is_empty());
}

#[test]
fn only_editing_tools_make_candidates() {
    let input = ToolInput {
        file_path: Some("f".to_string()),
        content: Some(numbered(6)),
        old_string: Some(numbered(12)),
        new_string: None,
        edits: Some(vec![
            EditInput { old_string: Some(numbered(11)), new_string: None },
            EditInput { old_string: None, new_string: Some(numbered(3)) },
            EditInput { old_string: None, new_string: Some(numbered(7)) },
        ]),
    };
    let sizes = |tool: &str| {
        candidates(tool, &input)
            .iter()
            .map(|found| (found.tell == Tell::Insertion, found.block.len()))
            .collect::<Vec<_>>()
    };
    assert_eq!(sizes("Write"), [(true, 6)]);
    assert_eq!(sizes("Edit"), [(false, 12)]);
    assert_eq!(sizes("MultiEdit"), [(false, 11), (true, 7)]);
    assert!(sizes("Bash").is_empty());
    assert!(sizes("write").is_empty());
    assert!(candidates("Write", &nothing()).is_empty());
    assert!(candidates("Edit", &nothing()).is_empty());
    assert!(candidates("MultiEdit", &nothing()).is_empty());
}

#[test]
fn occurrences_are_verbatim() {
    let text = "x\na\nb\na\nb\r\na\nb c\n";
    assert_eq!(starts(text, &lines(&["a", "b"])), [2, 4]);
    assert_eq!(starts("a\na\na\n", &lines(&["a", "a"])), [1, 2]);
    assert!(starts(text, &lines(&["b", "x"])).is_empty());
    assert!(starts(text, &[]).is_empty());
    assert!(starts("a", &lines(&["a", "b"])).is_empty());
}

#[test]
fn only_text_files_are_searched() {
    let wanted = lines(&["a", "b"]);
    let mut hits: Vec<Hit> = Vec::new();
    find_in_file(b"a\nb\n", &wanted, "one", &mut hits);
    find_in_file(b"a\nb\n\xff", &wanted, "two", &mut hits);
    find_in_file(b"\n\na\nb", &wanted, "three", &mut hits);
    let found: Vec<(&str, usize)> =
        hits.iter().map(|hit| (hit.path.as_str(), hit.start)).collect();
    assert_eq!(found, [("one", 1), ("three", 3)]);
}

#[test]
fn some_places_are_not_searched() {
    let dir = |name: &str| visit(&Entry::Dir(Some(name.to_string())));
    for name in [".git", "target", "node_modules", ".cache", "."] {
        assert_eq!(dir(name), Visit::Pass, "{name}");
    }
    for name in ["src", "targets", "git", ""] {
        assert_eq!(dir(name), Visit::Enter, "{name}");
    }
    assert_eq!(visit(&Entry::Dir(None)), Visit::Enter);
    assert_eq!(visit(&Entry::File(Some(0))), Visit::Search);
    assert_eq!(visit(&Entry::File(Some(2 * 1024 * 1024))), Visit::Search);
    assert_eq!(visit(&Entry::File(Some(2 * 1024 * 1024 + 1))), Visit::Pass);
    assert_eq!(visit(&Entry::File(None)), Visit::Pass);
    assert_eq!(visit(&Entry::Other), Visit::Pass);
}

#[test]
fn paths_are_shown_below_the_root() {
    assert_eq!(display_path("/work/src/a.rs", "/work"), "src/a.rs");
    assert_eq!(display_path("/work/src/a.rs", "/work/"), "src/a.rs");
    assert_eq!(display_path("/workshop/a.rs", "/work"), "/workshop/a.rs");
    assert_eq!(display_path("/else/a.rs", "/work"), "/else/a.rs");
    assert_eq!(display_path("/work", "/work"), "");
    assert_eq!(display_path("work/src/a.rs", "work"), "src/a.rs");
    assert_eq!(display_path("/work/src/a.rs", "work"), "/work/src/a.rs");
    assert_eq!(display_path("work/src/a.rs", "/work"), "work/src/a.rs");
    assert_eq!(display_path("/work/../a", "/work"), "../a");
    assert_eq!(display_path("/work/.hidden/a..b", "/work/.hidden"), "a..b");
    assert_eq!(display_path("/work", "/work/src"), "/work");
    assert_eq!(display_path("./src/a.rs", "."), "src/a.rs");
    assert_eq!(display_path("./src/a.rs", "./"), "src/a.rs");
    assert_eq!(display_path("src/a.rs", "."), "src/a.rs");
    assert_eq!(display_path("./src/a.rs", "src"), "./src/a.rs");
    assert_eq!(display_path(".hidden/a", "."), ".hidden/a");
    assert_eq!(display_path("../a", "."), "../a");
    assert_eq!(display_path("/work/a.rs", "."), "/work/a.rs");
    assert_eq!(display_path("/work/a.rs", "/"), "work/a.rs");
    assert_eq!(display_path("work/a.rs", "/"), "work/a.rs");
    assert_eq!(display_path("./work/a.rs", "/"), "./work/a.rs");
    assert_eq!(display_path("/work", "/work/"), "");
    assert_eq!(display_path("/workshop/a.rs", "/work/"), "/workshop/a.rs");
    assert_eq!(display_path("work/a.rs", "work/"), "a.rs");
    assert_eq!(display_path("/work//src/a.rs", "/work"), "src/a.rs");
    assert_eq!(display_path("/work/src//a.rs", "/work"), "src//a.rs");
    assert_eq!(display_path("/work/./src/./a.rs", "/work"), "src/./a.rs");
    assert_eq!(display_path("/work/src/a.rs", "/work//./"), "src/a.rs");
    assert_eq!(display_path("/./work/a.rs", "/work"), "a.rs");
    assert_eq!(display_path("././a.rs", "."), "a.rs");
    assert_eq!(display_path("/work/a:b/c:d.rs", "/work"), "a:b/c:d.rs");
    assert_eq!(display_path("/work:1/a.rs", "/work:1"), "a.rs");
    assert_eq!(display_path("/work:1/a.rs", "/work"), "/work:1/a.rs");
    assert_eq!(display_path("/work/", "/work"), "");
    assert_eq!(display_path("/work/src/", "/work").trim_end_matches('/'), "src");
    assert_eq!(display_path("/work/a.rs", ""), "/work/a.rs");
    assert_eq!(display_path("./a.rs", ""), "./a.rs");
    assert_eq!(display_path("", "."), "");
    assert_eq!(shown_path(Some("src".to_string()), "/work/src"), "src");
    assert_eq!(shown_path(None, "/work/src"), "/work/src");
}

#[test]
fn occurrences_are_reported_below_the_root() {
    let hit = |path: &str, start: usize| Hit { path: path.to_string(), start };
    let twin = twin_of(&hit("/work/src/a.rs", 7), "/work", true);
    assert_eq!((twin.path.as_str(), twin.start, twin.edited), ("src/a.rs", 7, true));

    let hits = [hit("/work/b.rs", 1), hit("/else/c.rs", 9)];
    let scan = scan_of(&hits, &[true, false], Some("/work/b.rs"), "/work");
    let found: Vec<_> =
        scan.twins.iter().map(|twin| (twin.path.as_str(), twin.start, twin.edited)).collect();
    assert_eq!(found, [("b.rs", 1, true), ("/else/c.rs", 9, false)]);
    assert_eq!(scan.edited, "b.rs");
    let scan = scan_of(&[], &[], None, "/work");
    assert!(scan.twins.is_empty() && scan.edited.is_empty());
}

#[test]
fn guards_are_trimmed_and_cut() {
    assert_eq!(guard_for("  let x = 1;\t"), "let x = 1;");
    assert_eq!(guard_for(" \t"), "<pick a distinctive line>");
    assert_eq!(guard_for(""), "<pick a distinctive line>");
    let sixty = "é".repeat(60);
    assert_eq!(guard_for(&format!(" {sixty} ")), sixty);
    assert_eq!(guard_for(&format!("{sixty}tail")), sixty);
}

fn shape(anchor: &Anchor) -> (&str, Option<(i64, &str)>) {
    let context = anchor.context.as_ref().map(|found| (found.0, found.1.as_str()));
    (anchor.guard.as_str(), context)
}

#[test]
fn anchors_borrow_the_nearest_neighbor() {
    let file = ["fn a() {", "}", "fn b() {", "}", ""];
    assert_eq!(shape(&unique_anchor(&file, 0, 1)), ("fn a() {", None));
    assert_eq!(shape(&unique_anchor(&file, 1, -1)), ("}", Some((-1, "fn a() {"))));
    assert_eq!(shape(&unique_anchor(&file, 1, 1)), ("}", Some((1, "fn b() {"))));
    assert_eq!(shape(&unique_anchor(&file, 3, -1)), ("}", Some((-1, "fn b() {"))));
    assert_eq!(shape(&unique_anchor(&file, 4, 1)), ("<pick a distinctive line>", None));
    assert_eq!(shape(&unique_anchor(&["x", "x"], 0, 1)), ("x", Some((1, "x"))));
    assert_eq!(shape(&unique_anchor(&["x x", "x"], 1, 1)), ("x", Some((-1, "x x"))));
}

#[test]
fn anchors_do_without_where_nothing_helps() {
    let file = ["x", "", "x"];
    assert_eq!(shape(&unique_anchor(&file, 0, 1)), ("x", Some((2, "x"))));
    let file = ["x", "", "x", "", "x"];
    assert_eq!(shape(&unique_anchor(&file, 2, 1)), ("x", None));
}

#[test]
fn neighbor_anchors_become_flags() {
    assert_eq!(context_flag("from", &None), "");
    assert_eq!(context_flag_with("from", None), "");
    assert_eq!(context_flag_with("to", Some("'-1:x'")), " --to-context '-1:x'");
    assert_eq!(
        context_flag("to", &Some((-12, "say \"a:b\"".to_string()))),
        " --to-context \"-12:say \\\"a:b\\\"\""
    );
}

#[test]
fn endpoints_fall_back_to_their_own_text() {
    let wanted = lines(&["}", "mid", "}"]);
    let ends = resolve_endpoint_guards(&wanted, 1, None);
    assert_eq!((shape(&ends.0), shape(&ends.1)), (("}", None), ("}", None)));
    let ends = resolve_endpoint_guards(&wanted, 2, Some("}\nmid\n}\n"));
    assert_eq!((shape(&ends.0), shape(&ends.1)), (("}", None), ("}", None)));
    let ends = resolve_endpoint_guards(&wanted, 1, Some("}\nchanged\n}\n"));
    assert_eq!((shape(&ends.0), shape(&ends.1)), (("}", None), ("}", None)));
    let ends = resolve_endpoint_guards(&wanted, 1, Some("}\nmid\n}\n"));
    assert_eq!(shape(&ends.0), ("}", Some((1, "mid"))));
    assert_eq!(shape(&ends.1), ("}", Some((-1, "mid"))));
}

#[test]
fn insertion_reasons_name_both_files() {
    let twin = |edited: bool| Twin { path: "src/a.rs".to_string(), start: 3, edited };
    let text = format!("top\n\n{}", numbered(5));
    let reason = deny_reason(&block(5), &twin(false), Some(&text), Some("b.rs"));
    assert_eq!(
        reason,
        "This 5-line block already exists verbatim at src/a.rs:3-7. Re-emitting it through the string editor risks silent corruption and carries the bytes as input on every later turn. Relocate it by reference with span instead:\n\n  span move src/a.rs --from 3 --from-guard \"line 1\" --to 7 --to-guard \"line 5\" --dest <LINE> --dest-guard \"<TEXT ON DEST LINE>\" --after --dest-file b.rs\n\nFill in --dest/--dest-guard for the insertion point (choose --before or --after), and use `span copy` (same flags) if you are duplicating rather than moving."
    );
    assert!(!deny_reason(&block(5), &twin(true), None, Some("b.rs")).contains("--dest-file"));
    assert!(!deny_reason(&block(5), &twin(false), None, None).contains("--dest-file"));
}

#[test]
fn deletion_reasons_give_both_commands() {
    let candidate = Candidate { block: block(10), tell: Tell::Deletion, file: None };
    let text = format!("top\n{}end\n", numbered(10));
    let reason = delete_fork_reason(&candidate, Some("b.rs"), "a.rs", Some(&text)).unwrap();
    // `line 1` also stands in `line 10`, so a neighbor comes with it.
    let coords = "--from 2 --from-guard \"line 1\" --from-context \"1:line 2\" --to 11 --to-guard \"line 10\"";
    assert_eq!(
        reason,
        format!("Deleting this 10-line block through the string editor forces you to reproduce all 10 lines verbatim in old_string — the same re-emit cost and corruption risk span removes. It also appears verbatim at b.rs, so this looks like the source half of a move. Do it by reference instead:\n\n  Relocating it? →\n    span move a.rs {coords} --dest <LINE> --dest-guard \"<TEXT ON DEST LINE>\" --after\n\n  Genuinely deleting it? →\n    span move a.rs {coords} --force\n\nThe delete form requires --force as a deliberate acknowledgment; deletes run via `span … --force` go through your shell and are not interrupted by this hook.")
    );
    let alone = delete_fork_reason(&candidate, None, "a.rs", Some(&text)).unwrap();
    assert!(!alone.contains("also appears"));
    assert!(delete_fork_reason(&candidate, None, "a.rs", None).is_none());
    assert!(delete_fork_reason(&candidate, None, "a.rs", Some("top\n")).is_none());
    let twice = format!("{text}{text}");
    assert!(delete_fork_reason(&candidate, None, "a.rs", Some(&twice)).is_none());
}

#[test]
fn a_denial_is_one_object_within_another() {
    assert_eq!(
        deny_payload("say \"no\"\n→".to_string()),
        "{\"hookSpecificOutput\":{\"hookEventName\":\"PreToolUse\",\"permissionDecision\":\"deny\",\"permissionDecisionReason\":\"say \\\"no\\\"\\n→\"}}"
    );
}

fn candidate(n: usize, tell: Tell, file: Option<&str>) -> Candidate {
    Candidate { block: block(n), tell, file: file.map(|path| path.to_string()) }
}

fn twin(path: &str, edited: bool) -> Twin {
    Twin { path: path.to_string(), start: 1, edited }
}

#[test]
fn the_last_of_the_largest_candidates_counts() {
    let cands = [
        candidate(6, Tell::Insertion, None),
        candidate(8, Tell::Insertion, None),
        candidate(8, Tell::Insertion, None),
        candidate(7, Tell::Insertion, None),
    ];
    assert!(matches!(decide(&cands, None, None), Verdict::Search(2)));
    assert!(matches!(decide(&cands[..2], None, None), Verdict::Search(1)));
    assert!(matches!(decide(&[], None, None), Verdict::Allow));
}

#[test]
fn insertions_are_taken_to_come_from_elsewhere() {
    let cands = [candidate(5, Tell::Insertion, Some("/work/e.rs"))];
    let scan = |twins: Vec<Twin>| Scan { twins, edited: "e.rs".to_string() };
    let none = scan(Vec::new());
    assert!(matches!(decide(&cands, Some(&none), None), Verdict::Allow));
    let mixed = scan(vec![twin("e.rs", true), twin("a.rs", false), twin("b.rs", false)]);
    assert!(matches!(decide(&cands, Some(&mixed), None), Verdict::ReadTwin(1)));
    let own = scan(vec![twin("e.rs", true), twin("e.rs", true)]);
    assert!(matches!(decide(&cands, Some(&own), None), Verdict::ReadTwin(0)));
    let text = numbered(5);
    let reply = match decide(&cands, Some(&mixed), Some(Some(&text))) {
        Verdict::Deny(reply) => reply,
        _ => panic!("expected a denial"),
    };
    assert_eq!(
        reply,
        deny_payload(deny_reason(&block(5), &mixed.twins[1], Some(&text), Some("e.rs")))
    );
}

#[test]
fn deletions_need_the_edited_file() {
    let scan = Scan {
        twins: vec![twin("e.rs", true), twin("a.rs", false)],
        edited: "e.rs".to_string(),
    };
    let nameless = [candidate(10, Tell::Deletion, None)];
    assert!(matches!(decide(&nameless, Some(&scan), Some(Some("x"))), Verdict::Allow));
    let cands = [candidate(10, Tell::Deletion, Some("/work/e.rs"))];
    assert!(matches!(decide(&cands, Some(&scan), None), Verdict::ReadEdited(0)));
    assert!(matches!(decide(&cands, Some(&scan), Some(None)), Verdict::Allow));
    assert!(matches!(decide(&cands, Some(&scan), Some(Some("x"))), Verdict::Allow));
    let text = numbered(10);
    let reply = match decide(&cands, Some(&scan), Some(Some(&text))) {
        Verdict::Deny(reply) => reply,
        _ => panic!("expected a denial"),
    };
    let reason = delete_fork_reason(&cands[0], Some("a.rs"), "e.rs", Some(&text)).unwrap();
    assert_eq!(reply, deny_payload(reason));
}

/// The suggested coordinates resolve to the ends of the block, and the suggested
/// deletion deletes it.
#[test]
fn suggested_commands_work() {
    let texts = [
        "fn a() {\n    x();\n}\n\nfn b() {\n    x();\n}\n",
        "fn a() {\r\n    x();\r\n}\r\n\r\nfn b() {\r\n    x();\r\n}",
        "dup\nmid\ndup\nüü\ndup\nmid\ndup\n",
    ];
    for text in texts {
        let all = split_logical(text);
        let file = read_lines("f", &Ok(text.as_bytes().to_vec())).unwrap();
        assert_eq!(file.len(), all.len());
        for at in 0..all.len() {
            for dir in [1i64, -1] {
                let anchor = unique_anchor(&all, at, dir);
                if anchor.guard == "<pick a distinctive line>" {
                    continue;
                }
                let flags: Vec<String> = anchor
                    .context
                    .iter()
                    .map(|found| format!("{}:{}", found.0, found.1))
                    .collect();
                let context = parse_context(&flags, Role::From).unwrap();
                let line =
                    resolve(&file, "f", Role::From, Some(at + 1), &anchor.guard, &context).unwrap();
                assert_eq!(line, at + 1);
                let line = resolve(&file, "f", Role::To, None, &anchor.guard, &context).unwrap();
                assert_eq!(line, at + 1);
            }
        }
    }

    let text = "fn a() {\n    x();\n}\nfn b() {\n    x();\n}\n";
    let wanted = lines(&["fn b() {", "    x();", "}"]);
    let ends = resolve_endpoint_guards(&wanted, 4, Some(text));
    let flags = |anchor: &Anchor| -> Vec<String> {
        anchor.context.iter().map(|found| format!("{}:{}", found.0, found.1)).collect()
    };
    let args = OpArgs {
        file: "f".to_string(),
        from: Some(4),
        from_guard: Some(ends.0.guard.clone()),
        to: Some(6),
        to_guard: Some(ends.1.guard.clone()),
        dest: None,
        dest_guard: None,
        before: false,
        after: false,
        force: true,
        dest_file: None,
        from_context: flags(&ends.0),
        to_context: flags(&ends.1),
        dest_context: Vec::new(),
    };
    let source = FileState::Present(Ok(text.as_bytes().to_vec()));
    match run(Verb::Move, &args, Some(&source), None) {
        Ok(Step::Apply(plan)) => {
            assert_eq!(plan.writes[0].bytes, b"fn a() {\n    x();\n}\n");
        }
        _ => panic!("expected a plan"),
    }
}

/// A guard that was cut right behind a carriage return also stands on a last
/// line that ends with that carriage return and has no newline.
#[test]
fn a_trailing_carriage_return_can_mislead_a_guard() {
    let stem = "s".repeat(59);
    let text = format!("{stem}\rtail\n{stem}\r");
    let all = split_logical(&text);
    let anchor = unique_anchor(&all, 0, 1);
    assert_eq!(anchor.guard, format!("{stem}\r"));
    assert!(anchor.context.is_none());
    let file = read_lines("f", &Ok(text.as_bytes().to_vec())).unwrap();
    assert!(resolve(&file, "f", Role::From, None, &anchor.guard, &[]).is_err());
}
