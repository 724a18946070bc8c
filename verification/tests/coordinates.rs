//! Anchors, neighbor anchors, and what failing ones say.

use span::anchor::{parse_context, resolve, satisfies, ContextSpec};
use span::error::{report_with, truncate_content, Role, RoleOutcome, SpanError};
use span::lines::Lines;
use span::ops::{ensure_exists, resolve_dest, FileState, OpArgs};

fn lines(text: &str) -> Lines {
    text.split_inclusive('\n').map(|line| line.as_bytes().to_vec()).collect()
}

fn near(offset: i64, guard: &str) -> ContextSpec {
    ContextSpec { offset, guard: guard.to_string() }
}

fn message<T>(result: Result<T, SpanError>) -> String {
    match result {
        Ok(_) => panic!("expected a failure"),
        Err(error) => error.message(),
    }
}

fn flags() -> OpArgs {
    OpArgs {
        file: "f".to_string(),
        from: None,
        from_guard: None,
        to: None,
        to_guard: None,
        dest: None,
        dest_guard: None,
        before: false,
        after: true,
        force: false,
        dest_file: None,
        from_context: Vec::new(),
        to_context: Vec::new(),
        dest_context: Vec::new(),
    }
}

#[test]
fn a_guard_is_a_substring_of_the_content() {
    let file = lines("alpha\r\nbeta\ngamma");
    assert!(satisfies(&file, 1, "lph", &[]));
    assert!(!satisfies(&file, 1, "ALPHA", &[]));
    assert!(!satisfies(&file, 1, "alpha\r", &[]));
    assert!(!satisfies(&file, 2, "alpha", &[]));
    assert!(satisfies(&file, 2, "beta", &[near(-1, "alpha"), near(1, "gamma")]));
    assert!(!satisfies(&file, 2, "beta", &[near(-1, "gamma")]));
    assert!(!satisfies(&file, 2, "beta", &[near(2, "gamma")]));
    assert!(!satisfies(&file, 2, "beta", &[near(-2, "alpha")]));
    assert!(!satisfies(&file, 2, "beta", &[near(i64::MAX, "alpha")]));
    assert!(!satisfies(&file, 2, "beta", &[near(i64::MIN, "alpha")]));
}

#[test]
fn the_only_match_is_the_line() {
    let file = lines("x {\n}\ny {\n}\n");
    assert_eq!(resolve(&file, "f", Role::From, None, "y {", &[]).unwrap(), 3);
    assert_eq!(resolve(&file, "f", Role::From, Some(3), "y {", &[]).unwrap(), 3);
    assert_eq!(resolve(&file, "f", Role::To, None, "}", &[near(-1, "y")]).unwrap(), 4);
    assert_eq!(resolve(&file, "f", Role::To, Some(4), "}", &[near(-1, "y")]).unwrap(), 4);
}

#[test]
fn coordinates_fail_loudly() {
    let file = lines("x {\n}\ny {\n}\n");
    assert_eq!(
        message(resolve(&file, "f", Role::From, None, "", &[])),
        "error: empty-guard: --from-guard must be a non-empty substring"
    );
    assert_eq!(
        message(resolve(&file, "f", Role::To, Some(5), "y", &[])),
        "error: out-of-range: --to 5 is outside [1, 4] in f"
    );
    assert_eq!(
        message(resolve(&file, "f", Role::To, Some(0), "y", &[])),
        "error: out-of-range: --to 0 is outside [1, 4] in f"
    );
    assert_eq!(
        message(resolve(&file, "f", Role::Dest, None, "no \"z\"", &[])),
        "error: guard-not-found: --dest-guard \"no \\\"z\\\"\" not found in f"
    );
    assert_eq!(
        message(resolve(&file, "f", Role::From, Some(1), "y", &[])),
        "error: drift: --from anchor \"y\" resolved at line 3, not 1; retry with --from 3"
    );
    assert_eq!(
        message(resolve(&file, "f", Role::To, Some(2), "}", &[])),
        "error: ambiguous-anchor: --to-guard \"}\" matches 2 lines in f:\n   2\t}\n   4\t}\n  hint: add --to-context (e.g. a distinctive neighbor line) to make it unique"
    );
    for result in [
        resolve(&file, "f", Role::From, None, "", &[]),
        resolve(&file, "f", Role::To, Some(5), "y", &[]),
        resolve(&file, "f", Role::To, None, "}", &[]),
    ] {
        assert_eq!(result.unwrap_err().code(), 1);
    }
}

#[test]
fn top_of_file_stands_alone() {
    let file = lines("a\nb\n");
    let mut args = flags();
    assert_eq!(resolve_dest(&file, "f", &args, &[], false, Some(0)).unwrap(), 0);
    assert_eq!(
        message(resolve_dest(&file, "f", &args, &[], true, Some(0))),
        "error: usage: --dest 0 (top of file) requires --after"
    );
    assert_eq!(
        message(resolve_dest(&file, "f", &args, &[near(1, "a")], false, Some(0))),
        "error: usage: --dest 0 takes no --dest-context"
    );
    assert_eq!(
        message(resolve_dest(&file, "f", &args, &[], false, Some(1))),
        "error: empty-guard: --dest-guard must be a non-empty substring"
    );
    args.dest_guard = Some("b".to_string());
    assert_eq!(
        message(resolve_dest(&file, "f", &args, &[], false, Some(0))),
        "error: usage: --dest 0 takes no --dest-guard"
    );
    assert_eq!(resolve_dest(&file, "f", &args, &[], false, None).unwrap(), 2);
    assert_eq!(resolve_dest(&file, "f", &args, &[], false, Some(2)).unwrap(), 2);
}

#[test]
fn neighbor_flags_split_at_the_first_colon() {
    let specs = ["-3:fn a::b".to_string(), "+2: x:y".to_string()];
    let context = parse_context(&specs, Role::To).unwrap();
    assert_eq!(context.len(), 2);
    assert_eq!((context[0].offset, context[0].guard.as_str()), (-3, "fn a::b"));
    assert_eq!((context[1].offset, context[1].guard.as_str()), (2, " x:y"));
    assert!(parse_context(&[], Role::To).unwrap().is_empty());
}

#[test]
fn malformed_neighbor_flags_are_refused() {
    let one = |text: &str| parse_context(&[text.to_string()], Role::From);
    assert_eq!(
        message(one("no\tcolon")),
        "error: usage: --from-context \"no\\tcolon\" must be of the form offset:guard"
    );
    assert_eq!(
        message(one("x:guard")),
        "error: usage: --from-context offset \"x\" is not an integer"
    );
    assert_eq!(
        message(one("0:guard")),
        "error: usage: --from-context offset must be non-zero"
    );
    assert_eq!(
        message(one("1:")),
        "error: empty-guard: --from-guard must be a non-empty substring"
    );
    assert_eq!(one("x:guard").err().unwrap().code(), 2);
    assert_eq!(one("1:").err().unwrap().code(), 1);
    let specs = ["1:a".to_string(), "0:b".to_string(), "c".to_string()];
    assert_eq!(
        message(parse_context(&specs, Role::Dest)),
        "error: usage: --dest-context offset must be non-zero"
    );
}

#[test]
fn listed_lines_are_cut_after_sixty_characters() {
    let sixty = "ä".repeat(60);
    assert_eq!(truncate_content(&sixty), sixty);
    assert_eq!(truncate_content(&format!("{sixty}b")), format!("{sixty}…"));
    assert_eq!(truncate_content(""), "");
}

#[test]
fn several_failures_are_reported_as_one() {
    let outcome = |role, result| RoleOutcome { role, result };
    let path = || "f".to_string();
    let error = SpanError::Multi(vec![
        outcome(
            Role::From,
            Err(SpanError::GuardNotFound { role: Role::From, guard: "q".to_string(), path: path() }),
        ),
        outcome(Role::To, Ok(7)),
        outcome(
            Role::Dest,
            Err(SpanError::Ambiguous {
                role: Role::Dest,
                guard: "}".to_string(),
                matches: vec![(2, "}".to_string()), (4, " }".to_string())],
                path: path(),
            }),
        ),
    ]);
    assert_eq!(
        error.message(),
        "error: 2 coordinates failed:\n  --from\tguard-not-found: \"q\" not found in f\n  --to\tok: line 7\n  --dest\tambiguous-anchor: \"}\" matches 2 lines (add --dest-context):\n       2\t}\n       4\t }"
    );
    assert_eq!(error.code(), 1);

    let error = SpanError::Multi(vec![
        outcome(
            Role::From,
            Err(SpanError::OutOfRange { role: Role::From, line: 9, count: 3, path: path() }),
        ),
        outcome(Role::To, Err(SpanError::EmptyGuard { role: Role::To })),
        outcome(Role::Dest, Err(SpanError::Usage("odd".to_string()))),
    ]);
    assert_eq!(
        error.message(),
        "error: 3 coordinates failed:\n  --from\tout-of-range: line 9 is outside [1, 3] in f\n  --to\tempty-guard: --to-guard must be a non-empty substring\n  --dest\terror: usage: odd"
    );

    let drift = outcome(
        Role::To,
        Err(SpanError::Drift {
            role: Role::To,
            guard: "}".to_string(),
            addressed: 3,
            actual: 5,
        }),
    );
    assert_eq!(
        drift.consolidated_line(),
        "  --to\tdrift: anchor \"}\" resolved at line 5, not 3 (retry with --to 5)\n"
    );
    assert_eq!(
        SpanError::Multi(vec![drift]).message(),
        "error: 1 coordinate failed:\n  --to\tdrift: anchor \"}\" resolved at line 5, not 3 (retry with --to 5)"
    );
}

#[test]
fn every_failure_has_its_message_and_code() {
    let error = SpanError::DestInSpan { dest: 3, from: 2, to: 4 };
    assert_eq!(
        error.message(),
        "error: dest-in-span: --dest 3 lies within [2, 4]; choose a destination outside the span"
    );
    assert_eq!(error.code(), 1);
    let error = SpanError::FromAfterTo { from: 4, to: 2 };
    assert_eq!(error.message(), "error: from-after-to: --from 4 is greater than --to 2");
    assert_eq!(error.code(), 1);
    let error = ensure_exists("o \"x\".md", true, &FileState::Missing).unwrap_err();
    assert_eq!(
        error.message(),
        "error: io: destination file \"o \\\"x\\\".md\" does not exist; span relocates into existing files only"
    );
    assert_eq!(error.code(), 3);
    let error = ensure_exists("o.md", false, &FileState::Missing).unwrap_err();
    assert_eq!(error.message(), "error: io: file \"o.md\" does not exist");
    let present = FileState::Present(Ok(vec![7]));
    assert_eq!(ensure_exists("o.md", false, &present).unwrap(), &Ok(vec![7]));
    let error = SpanError::Io("full".to_string());
    assert_eq!((error.message().as_str(), error.code()), ("error: io: full", 3));
    let error = SpanError::Usage("odd".to_string());
    assert_eq!((error.message().as_str(), error.code()), ("error: usage: odd", 2));
}

#[test]
fn messages_take_what_they_quote() {
    let drift = |role: Role| SpanError::Drift {
        role,
        guard: "unused".to_string(),
        addressed: 3,
        actual: 5,
    };
    assert_eq!(
        drift(Role::To).message_with("<q>"),
        "error: drift: --to anchor <q> resolved at line 5, not 3; retry with --to 5"
    );
    let missing = SpanError::FileMissing { path: "unused".to_string(), is_dest: false };
    assert_eq!(missing.message_with("<q>"), "error: io: file <q> does not exist");
    let odd = SpanError::Usage("odd".to_string());
    assert_eq!(odd.message_with("<q>"), "error: usage: odd");

    let failed = RoleOutcome { role: Role::To, result: Err(drift(Role::To)) };
    assert_eq!(
        failed.consolidated_line_with("<q>"),
        "  --to\tdrift: anchor <q> resolved at line 5, not 3 (retry with --to 5)\n"
    );
    let passed = RoleOutcome { role: Role::From, result: Ok(7) };
    assert_eq!(passed.consolidated_line_with("<q>"), "  --from\tok: line 7\n");
    assert_eq!(
        report_with(&vec![passed, failed], &["<p>".to_string(), "<q>".to_string()]),
        "error: 1 coordinate failed:\n  --from\tok: line 7\n  --to\tdrift: anchor <q> resolved at line 5, not 3 (retry with --to 5)"
    );
}

#[test]
fn guards_are_quoted_with_their_escapes() {
    let quoted = |guard: &str| {
        let error = SpanError::GuardNotFound {
            role: Role::From,
            guard: guard.to_string(),
            path: "f".to_string(),
        };
        error.message()
    };
    assert_eq!(
        quoted(" it's {a} ~\u{e9}"),
        "error: guard-not-found: --from-guard \" it's {a} ~\u{e9}\" not found in f"
    );
    assert_eq!(
        quoted("\"\\\t\u{0}"),
        "error: guard-not-found: --from-guard \"\\\"\\\\\\t\\0\" not found in f"
    );
}
