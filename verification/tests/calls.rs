//! Steps of a call, its plan and its output.

use span::lines::Lines;
use span::ops::{run, run_delete, DestState, FileState, OpArgs, Plan, Step, Verb};
use span::render::{push_row, render_affected, render_seam};

fn flags(from: &str, to: &str, dest: Option<&str>) -> OpArgs {
    OpArgs {
        file: "f".to_string(),
        from: None,
        from_guard: Some(from.to_string()),
        to: None,
        to_guard: Some(to.to_string()),
        dest: None,
        dest_guard: dest.map(|text| text.to_string()),
        before: false,
        after: dest.is_some(),
        force: dest.is_none(),
        dest_file: None,
        from_context: Vec::new(),
        to_context: Vec::new(),
        dest_context: Vec::new(),
    }
}

fn file(text: &str) -> FileState {
    FileState::Present(Ok(text.as_bytes().to_vec()))
}

fn plan(verb: Verb, args: &OpArgs, source: &str) -> Plan {
    match run(verb, args, Some(&file(source)), None) {
        Ok(Step::Apply(plan)) => plan,
        Ok(_) => panic!("expected a plan"),
        Err(error) => panic!("{}", error.message()),
    }
}

fn refusal(verb: Verb, args: &OpArgs, source: &str, dest: Option<&DestState>) -> (i32, String) {
    match run(verb, args, Some(&file(source)), dest) {
        Ok(_) => panic!("expected a refusal"),
        Err(error) => (error.code(), error.message()),
    }
}

fn written(plan: &Plan) -> Vec<(&str, &str)> {
    plan.writes
        .iter()
        .map(|write| (write.path.as_str(), std::str::from_utf8(&write.bytes).unwrap()))
        .collect()
}

fn lines(text: &str) -> Lines {
    text.split_inclusive('\n').map(|line| line.as_bytes().to_vec()).collect()
}

#[test]
fn files_are_asked_for_one_by_one() {
    let mut args = flags("b", "b", Some("z"));
    args.dest_file = Some("g".to_string());
    assert!(matches!(run(Verb::Move, &args, None, None), Ok(Step::ReadSource)));
    let source = file("a\nb\nc\n");
    assert!(matches!(run(Verb::Move, &args, Some(&source), None), Ok(Step::ReadDest)));
    let dest = DestState::Other(file("y\nz\n"));
    assert!(matches!(run(Verb::Move, &args, Some(&source), Some(&dest)), Ok(Step::Apply(_))));
    args.from_context.push("bad".to_string());
    assert_eq!(run(Verb::Move, &args, None, None).err().unwrap().code(), 2);
}

#[test]
fn missing_and_unreadable_sources_are_refused() {
    let args = flags("b", "b", Some("c"));
    let error = run(Verb::Move, &args, Some(&FileState::Missing), None).err().unwrap();
    assert_eq!(error.message(), "error: io: file \"f\" does not exist");
    let broken = FileState::Present(Err("denied".to_string()));
    let error = run(Verb::Move, &args, Some(&broken), None).err().unwrap();
    assert_eq!(error.message(), "error: io: cannot read f: denied");
    let odd = FileState::Present(Ok(vec![0x62, 0xff]));
    let error = run(Verb::Move, &args, Some(&odd), None).err().unwrap();
    assert_eq!(error.message(), "error: io: f is not valid UTF-8");
}

#[test]
fn a_move_within_a_file_is_one_write() {
    let plan = plan(Verb::Move, &flags("b", "c", Some("d")), "a\nb\nc\nd\ne");
    assert_eq!(written(&plan), [("f", "a\nd\nb\nc\ne")]);
    assert_eq!(plan.output, "moved 2 lines → f:3-4\n  1\ta\n  2\td\n> 3\tb\n> 4\tc\n  5\te\n");
}

#[test]
fn a_copy_keeps_the_lines_it_came_from() {
    let mut args = flags("a", "a", Some("c"));
    args.before = true;
    args.after = false;
    let plan = plan(Verb::Copy, &args, "a\nb\nc\n");
    assert_eq!(written(&plan), [("f", "a\nb\na\nc\n")]);
    assert_eq!(plan.output, "copied 1 line → f:3-3\n  1\ta\n  2\tb\n> 3\ta\n  4\tc\n");
}

#[test]
fn a_move_across_files_writes_the_destination_first() {
    let mut args = flags("b", "b", Some("z"));
    args.dest_file = Some("g".to_string());
    let dest = DestState::Other(file("y\nz\n"));
    let source = file("a\nb\nc\n");
    let plan = match run(Verb::Move, &args, Some(&source), Some(&dest)) {
        Ok(Step::Apply(plan)) => plan,
        _ => panic!("expected a plan"),
    };
    assert_eq!(written(&plan), [("g", "y\nz\nb\n"), ("f", "a\nc\n")]);
    assert_eq!(
        plan.output,
        "moved 1 line → g:3-3 (from f:2-2)\n\ng:\n  1\ty\n  2\tz\n> 3\tb\n\nf:  (1 line removed at 2)\n  1\ta\n  2\tc\n"
    );
    let plan = match run(Verb::Copy, &args, Some(&source), Some(&dest)) {
        Ok(Step::Apply(plan)) => plan,
        _ => panic!("expected a plan"),
    };
    assert_eq!(written(&plan), [("g", "y\nz\nb\n")]);
    assert_eq!(plan.output, "copied 1 line → g:3-3 (from f:2-2)\ng:\n  1\ty\n  2\tz\n> 3\tb\n");
}

#[test]
fn a_destination_that_is_the_source_is_no_other_file() {
    let mut args = flags("a", "c", Some("b"));
    args.dest_file = Some("./f".to_string());
    assert_eq!(
        refusal(Verb::Move, &args, "a\nb\nc\n", Some(&DestState::SameAsSource)),
        (
            1,
            "error: dest-in-span: --dest 2 lies within [1, 3]; choose a destination outside the span"
                .to_string()
        )
    );
    let dest = DestState::Other(FileState::Missing);
    let (code, message) = refusal(Verb::Move, &args, "a\nb\nc\n", Some(&dest));
    assert_eq!(code, 3);
    assert_eq!(
        message,
        "error: io: destination file \"./f\" does not exist; span relocates into existing files only"
    );
}

#[test]
fn a_deletion_shows_the_seam() {
    let plan = plan(Verb::Move, &flags("b", "c", None), "a\nb\nc\nd\n");
    assert_eq!(written(&plan), [("f", "a\nd\n")]);
    assert_eq!(plan.output, "deleted 2 lines from f:2-3\n  1\ta\n  2\td\n");
}

#[test]
fn a_deletion_can_leave_nothing() {
    let plan = plan(Verb::Move, &flags("a", "b", None), "a\nb\n");
    assert_eq!(written(&plan), [("f", "")]);
    assert_eq!(plan.output, "deleted 2 lines from f:1-2\n");
    let kept = run_delete(Verb::Move, &flags("b", "b", None), lines("a\nb\n"), &[], &[]);
    assert_eq!(written(&kept.ok().unwrap()), [("f", "a\n")]);
}

#[test]
fn a_file_without_a_final_newline_gets_none() {
    let gone = flags("GONE", "GONE", None);
    let left = |text: &str| {
        let plan = plan(Verb::Move, &gone, text);
        assert_eq!(written(&plan).len(), 1);
        String::from_utf8(plan.writes[0].bytes.clone()).unwrap()
    };
    assert_eq!(left("a\n\nGONE"), "a");
    assert_eq!(left("a\r\n\r\n\r\nGONE"), "a");
    assert_eq!(left("a\n  \nGONE"), "a\n  ");
    assert_eq!(left("\n\nGONE"), "");
    assert_eq!(left("a\n\nGONE\n\n "), "a\n\n ");
    assert_eq!(left("a\n\n\nGONE\n\n "), "a");
    assert_eq!(left("a\n\nGONE\n"), "a\n\n");
    assert_eq!(left("GONE"), "");
    assert_eq!(plan(Verb::Move, &gone, "a\n\nGONE").output, "deleted 1 line from f:3-3\n  1\ta\n");
}

#[test]
fn a_move_leaves_the_endings_of_other_lines_alone() {
    let moved = |from: &str, dest: &str, before: bool, text: &str| {
        let mut args = flags(from, from, Some(dest));
        args.before = before;
        args.after = !before;
        let plan = plan(Verb::Move, &args, text);
        String::from_utf8(plan.writes[0].bytes.clone()).unwrap()
    };
    assert_eq!(moved("b", "a", false, "a\r\nb"), "a\r\nb");
    assert_eq!(moved("a", "b", true, "a\r\nb"), "a\r\nb");
    assert_eq!(moved("b", "a", true, "a\r\nb"), "b\na");
    assert_eq!(moved("a", "b", false, "a\r\nb"), "b\na");
    assert_eq!(moved("c", "a", false, "a\r\nb\r\nc"), "a\r\nc\nb");
    assert_eq!(moved("a", "c", false, "a\r\nb\r\nc"), "b\r\nc\na");
    assert_eq!(moved("c", "a", false, "a\r\n\r\nc"), "a\r\n\r\nc");
    assert_eq!(moved("c", "a", true, "a\r\n\r\nc"), "c\na");
    assert_eq!(moved("b", "a", false, "a\nb\r"), "a\nb\r");
    assert_eq!(moved("b", "c", false, "a\r\nb\r\nc\r\n"), "a\r\nc\r\nb\r\n");
}

#[test]
fn a_move_to_its_own_place_changes_nothing() {
    for text in ["a\n\t\nb\n \nc\n", "a\r\n\t\r\nb\n\nc", "a\n\t\nb"] {
        let mut args = flags("b", "b", Some("\t"));
        let plan = plan(Verb::Move, &args, text);
        assert_eq!(written(&plan), [("f", text)]);
        assert!(plan.output.starts_with("moved 1 line → f:3-3\n"));
        args.dest_guard = Some("b".to_string());
        assert_eq!(refusal(Verb::Move, &args, text, None).0, 1);
    }
}

#[test]
fn a_source_keeps_its_other_lines_as_they_were() {
    let mut args = flags("b", "c", Some("z"));
    args.dest_file = Some("g".to_string());
    let cases = [
        ("a\r\nb\nc\nd", "a\r\nd"),
        ("a\r\nb\nc", "a"),
        ("a\r\n\nb\nc\n \n\td\r\n", "a\r\n\n\td\r\n"),
        ("b\nc\n", ""),
    ];
    for (before, after) in cases {
        let source = file(before);
        let dest = DestState::Other(file("y\nz"));
        let plan = match run(Verb::Move, &args, Some(&source), Some(&dest)) {
            Ok(Step::Apply(plan)) => plan,
            _ => panic!("expected a plan"),
        };
        let (path, rest) = written(&plan)[1];
        assert_eq!((path, rest), ("f", after));
        assert!(!written(&plan)[0].1.ends_with('\n'));
    }
}

#[test]
fn a_span_runs_from_top_to_bottom() {
    assert_eq!(
        refusal(Verb::Move, &flags("c", "a", Some("b")), "a\nb\nc\n", None),
        (1, "error: from-after-to: --from 3 is greater than --to 1".to_string())
    );
    assert_eq!(
        refusal(Verb::Move, &flags("c", "a", None), "a\nb\nc\n", None),
        (1, "error: from-after-to: --from 3 is greater than --to 1".to_string())
    );
}

#[test]
fn one_failure_speaks_for_itself_and_two_together() {
    assert_eq!(
        refusal(Verb::Move, &flags("a", "q", Some("b")), "a\nb\n", None).1,
        "error: guard-not-found: --to-guard \"q\" not found in f"
    );
    assert_eq!(
        refusal(Verb::Move, &flags("a", "q", Some("r")), "a\nb\n", None).1,
        "error: 2 coordinates failed:\n  --from\tok: line 1\n  --to\tguard-not-found: \"q\" not found in f\n  --dest\tguard-not-found: \"r\" not found in f"
    );
    assert_eq!(
        refusal(Verb::Move, &flags("p", "q", None), "a\nb\n", None).1,
        "error: 2 coordinates failed:\n  --from\tguard-not-found: \"p\" not found in f\n  --to\tguard-not-found: \"q\" not found in f"
    );
    // A destination flag that makes no sense comes before any of them.
    let mut args = flags("p", "q", Some("r"));
    args.dest = Some(0);
    assert_eq!(
        refusal(Verb::Move, &args, "a\nb\n", None),
        (2, "error: usage: --dest 0 takes no --dest-guard".to_string())
    );
}

#[test]
fn positions_are_given_exactly_once() {
    let mut args = flags("a", "a", Some("b"));
    args.before = true;
    assert_eq!(
        refusal(Verb::Move, &args, "a\nb\n", None),
        (2, "error: usage: exactly one of --before / --after is required".to_string())
    );
    args.before = false;
    args.after = false;
    assert_eq!(refusal(Verb::Copy, &args, "a\nb\n", None).0, 2);
}

#[test]
fn a_forced_call_takes_no_destination_file() {
    let mut args = flags("a", "a", None);
    args.dest_file = Some("g".to_string());
    assert_eq!(
        refusal(Verb::Move, &args, "a\nb\n", None),
        (
            2,
            "error: usage: --dest-file is meaningless when removing a span (there is no destination)"
                .to_string()
        )
    );
    args.dest_file = None;
    args.dest_context.push("1:b".to_string());
    assert_eq!(
        refusal(Verb::Move, &args, "a\nb\n", None),
        (
            2,
            "error: usage: --force applies only when removing a span (a `move` with no destination)"
                .to_string()
        )
    );
}

#[test]
fn rows_carry_a_mark_a_number_and_the_text() {
    let file = lines("one\r\ntwo");
    let mut out = String::new();
    push_row(&mut out, &file, 1, true);
    push_row(&mut out, &file, 2, false);
    assert_eq!(out, "> 1\tone\n  2\ttwo\n");
}

#[test]
fn long_blocks_are_shown_by_their_ends() {
    let file = lines("1\n2\n3\n4\n5\n6\n7\n8\n9\n10\n11\n12\n");
    let mut out = String::new();
    render_affected(&mut out, &file, 4, 9);
    assert_eq!(
        out,
        "  1\t1\n  2\t2\n  3\t3\n> 4\t4\n> 5\t5\n> 6\t6\n> 7\t7\n> 8\t8\n> 9\t9\n  10\t10\n  11\t11\n  12\t12\n"
    );
    let mut out = String::new();
    render_affected(&mut out, &file, 5, 11);
    assert_eq!(
        out,
        "  2\t2\n  3\t3\n  4\t4\n> 5\t5\n> 6\t6\n> 7\t7\n  …\n> 9\t9\n> 10\t10\n> 11\t11\n  12\t12\n"
    );
}

#[test]
fn seams_show_three_lines_above_and_below() {
    let file = lines("1\n2\n3\n4\n5\n6\n7\n8\n");
    let mut out = String::new();
    render_seam(&mut out, &file, 5);
    assert_eq!(out, "  2\t2\n  3\t3\n  4\t4\n  5\t5\n  6\t6\n  7\t7\n");
    let mut out = String::new();
    render_seam(&mut out, &file, 1);
    assert_eq!(out, "  1\t1\n  2\t2\n  3\t3\n");
    let mut out = String::new();
    render_seam(&mut out, &file, 40);
    assert_eq!(out, "  6\t6\n  7\t7\n  8\t8\n");
    let mut out = String::new();
    render_seam(&mut out, &Lines::new(), 1);
    assert_eq!(out, "");
}

#[test]
fn moving_down_and_up_keeps_the_order_of_the_rest() {
    let text = "a\n\nb\n\nc\nd\n";
    let down = plan(Verb::Move, &flags("b", "b", Some("c")), text);
    assert_eq!(written(&down), [("f", "a\n\nc\n\nb\n\nd\n")]);
    let mut args = flags("d", "d", Some("a"));
    args.before = true;
    args.after = false;
    let up = plan(Verb::Move, &args, text);
    assert_eq!(written(&up), [("f", "d\na\n\nb\n\nc\n")]);
}

#[test]
fn verbs_have_their_words() {
    assert_eq!(Verb::Move.summary_word(), "moved");
    assert_eq!(Verb::Copy.summary_word(), "copied");
}
