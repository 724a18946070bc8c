//! Lines, terminators, blanks, numerals and whitespace.

use span::lines::{
    content, ensure_terminator, file_bytes, has_terminator, is_blank, strip_terminator, Lines,
};
use span::numeral::{decimal, parse_offset, signed_decimal};
use span::ops::read_lines;
use span::render::{display_text, plural};
use span::splice::{
    blank_run_above, blank_run_below, collapse_seam_blank, gap_for, insert_block, newline,
    remove_block,
};
use span::text::{added_lines, block_lines, split_logical, trim, trim_blank_lines};

fn lines(items: &[&str]) -> Lines {
    items.iter().map(|item| item.as_bytes().to_vec()).collect()
}

fn texts(lines: &Lines) -> Vec<String> {
    lines.iter().map(|line| String::from_utf8(line.clone()).unwrap()).collect()
}

#[test]
fn content_leaves_the_terminator_out() {
    assert_eq!(content(b"abc\n"), b"abc");
    assert_eq!(content(b"abc\r\n"), b"abc");
    assert_eq!(content(b"abc\r\r\n"), b"abc\r");
    assert_eq!(content(b"abc\r"), b"abc\r");
    assert_eq!(content(b"\n"), b"");
    assert_eq!(content(b"\r\n"), b"");
    assert_eq!(content(b""), b"");
}

#[test]
fn terminators_are_added_and_taken() {
    assert!(has_terminator(b"a\n"));
    assert!(!has_terminator(b"a\r"));
    assert!(!has_terminator(b""));

    let mut line = b"a".to_vec();
    ensure_terminator(&mut line);
    assert_eq!(line, b"a\n");
    ensure_terminator(&mut line);
    assert_eq!(line, b"a\n");

    let mut line = b"a\r\n".to_vec();
    strip_terminator(&mut line);
    assert_eq!(line, b"a");
    let mut line = b"a\r".to_vec();
    strip_terminator(&mut line);
    assert_eq!(line, b"a\r");
}

#[test]
fn blank_lines_hold_nothing_but_ascii_whitespace() {
    assert!(is_blank(b""));
    assert!(is_blank(b"\n"));
    assert!(is_blank(b" \t\x0c\r\n"));
    assert!(!is_blank(b"\x0b\n"));
    assert!(!is_blank("\u{a0}\n".as_bytes()));
    assert!(!is_blank(b" x\n"));
}

#[test]
fn reading_and_writing_lose_nothing() {
    for text in ["", "a", "a\n", "a\nb", "\n\n", "a\r\nb\rc\r\n", "ä\n\u{1f600}\n"] {
        let read = read_lines("f", &Ok(text.as_bytes().to_vec())).unwrap();
        assert_eq!(file_bytes(&read), text.as_bytes());
        let again = read_lines("f", &Ok(file_bytes(&read))).unwrap();
        assert_eq!(again, read);
    }
    let read = read_lines("f", &Ok(b"a\nb\r\nc".to_vec())).unwrap();
    assert_eq!(texts(&read), ["a\n", "b\r\n", "c"]);
}

#[test]
fn what_is_not_text_is_refused() {
    let error = read_lines("f", &Ok(b"a\xff\n".to_vec())).unwrap_err();
    assert_eq!(error.message(), "error: io: f is not valid UTF-8");
    assert_eq!(error.code(), 3);
    let error = read_lines("f", &Err("permission denied".to_string())).unwrap_err();
    assert_eq!(error.message(), "error: io: cannot read f: permission denied");
    assert_eq!(error.code(), 3);
}

#[test]
fn lines_are_shown_decoded() {
    assert_eq!(display_text("grün\r\n".as_bytes()), "grün");
    assert_eq!(display_text(b"a\xffb\n"), "a\u{fffd}b");
    assert_eq!(plural(1), "line");
    assert_eq!(plural(0), "lines");
    assert_eq!(plural(2), "lines");
}

#[test]
fn blank_runs_are_counted_outward() {
    let file = lines(&["a\n", "\n", " \n", "b\n", "\n", "\n"]);
    assert_eq!(blank_run_above(&file, 3), 2);
    assert_eq!(blank_run_above(&file, 2), 1);
    assert_eq!(blank_run_above(&file, 1), 0);
    assert_eq!(blank_run_above(&file, 0), 0);
    assert_eq!(blank_run_below(&file, 4), 2);
    assert_eq!(blank_run_below(&file, 1), 2);
    assert_eq!(blank_run_below(&file, 6), 0);
    assert_eq!(blank_run_below(&file, 7), 0);
    assert_eq!(blank_run_below(&file, usize::MAX), 0);
}

#[test]
fn added_blanks_follow_the_file() {
    assert_eq!(newline(&lines(&["a\n", "b\r\n"])), b"\r\n");
    assert_eq!(newline(&lines(&["a\n", "b\r"])), b"\n");
    assert_eq!(newline(&lines(&[])), b"\n");
}

#[test]
fn gaps_lie_before_or_after_a_line() {
    assert_eq!(gap_for(0, false), 0);
    assert_eq!(gap_for(0, true), 0);
    assert_eq!(gap_for(4, true), 3);
    assert_eq!(gap_for(4, false), 4);
}

#[test]
fn insertion_mirrors_blanks_and_reports_its_lines() {
    let mut file = lines(&["a\n", "\n", "b"]);
    let range = insert_block(&mut file, 2, lines(&["X\n", "Y"]), 2, 1);
    assert_eq!(texts(&file), ["a\n", "\n", "\n", "X\n", "Y\n", "\n", "b"]);
    assert_eq!(range, (4, 5));
}

#[test]
fn insertion_at_the_end_takes_over_the_ending() {
    let mut file = lines(&["a"]);
    let range = insert_block(&mut file, 1, lines(&["X\r\n"]), 0, 3);
    assert_eq!(texts(&file), ["a\n", "X"]);
    assert_eq!(range, (2, 2));

    let mut file = lines(&["a\n"]);
    insert_block(&mut file, 1, lines(&["X"]), 0, 0);
    assert_eq!(texts(&file), ["a\n", "X\n"]);

    let mut file = lines(&[]);
    let range = insert_block(&mut file, 0, lines(&["X"]), 2, 2);
    assert_eq!(texts(&file), ["X"]);
    assert_eq!(range, (1, 1));
}

#[test]
fn an_empty_block_changes_nothing() {
    let mut file = lines(&["a\n", "b"]);
    let range = insert_block(&mut file, 1, lines(&[]), 1, 1);
    assert_eq!(texts(&file), ["a\n", "b"]);
    assert_eq!(range, (1, 1));
    let range = insert_block(&mut file, 9, lines(&[]), 1, 1);
    assert_eq!(texts(&file), ["a\n", "b"]);
    assert_eq!(range, (9, 9));
}

#[test]
fn a_block_without_content_cannot_end_a_file_without_a_newline() {
    let mut file = lines(&["a"]);
    assert_eq!(insert_block(&mut file, 1, lines(&["\r\n", "\n"]), 1, 1), (1, 1));
    assert_eq!(texts(&file), ["a"]);
    assert_eq!(insert_block(&mut file, 1, lines(&["X\n", "\n"]), 0, 0), (2, 2));
    assert_eq!(texts(&file), ["a\n", "X"]);
    let mut file = lines(&["a\n"]);
    assert_eq!(insert_block(&mut file, 1, lines(&["\n"]), 0, 0), (2, 2));
    assert_eq!(texts(&file), ["a\n", "\n"]);
}

#[test]
fn taking_a_block_out_again_gives_the_file_back() {
    let files: [&[&str]; 6] =
        [&[], &["a"], &["a\r\n"], &["a\n", "\n", "b"], &["\n", "b\r\n"], &["a\rb"]];
    let blocks: [&[&str]; 4] = [&["X\n"], &["X"], &["\n", "X\r\n", "Y"], &["X\n", "\n"]];
    for file in files {
        for block in blocks {
            for gap in 0..=file.len() {
                let mut now = lines(file);
                let (first, last) = insert_block(&mut now, gap, lines(block), 0, 0);
                assert!(now.len() > file.len());
                remove_block(&mut now, first, last);
                assert_eq!(texts(&now), file);
            }
        }
    }
}

#[test]
fn removal_keeps_the_ending() {
    let mut file = lines(&["a\n", "b\n", "c"]);
    remove_block(&mut file, 2, 3);
    assert_eq!(texts(&file), ["a"]);

    let mut file = lines(&["a\n", "\r\n", "\n", "c"]);
    remove_block(&mut file, 4, 4);
    assert_eq!(texts(&file), ["a"]);

    let mut file = lines(&["\n", "c"]);
    remove_block(&mut file, 2, 2);
    assert!(file.is_empty());

    let mut file = lines(&["a\r\n", "b\n", "c\n"]);
    remove_block(&mut file, 2, 3);
    assert_eq!(texts(&file), ["a\r\n"]);

    let mut file = lines(&["a\n", "b\n", "c"]);
    remove_block(&mut file, 1, 2);
    assert_eq!(texts(&file), ["c"]);

    let mut file = lines(&["a\n"]);
    remove_block(&mut file, 1, 1);
    assert!(file.is_empty());
}

#[test]
fn a_seam_keeps_the_wider_run() {
    let mut file = lines(&["a\n", "\n", "\n", "\n", "b\n"]);
    assert_eq!(collapse_seam_blank(&mut file, 3, 1, 2), 1);
    assert_eq!(texts(&file), ["a\n", "\n", "\n", "b\n"]);
    assert_eq!(collapse_seam_blank(&mut file, 2, 0, 2), 0);
    assert_eq!(collapse_seam_blank(&mut file, 2, 2, 0), 0);
    assert_eq!(collapse_seam_blank(&mut file, 0, 1, 1), 0);
    assert_eq!(collapse_seam_blank(&mut file, 4, 9, 9), 0);
    assert_eq!(texts(&file), ["a\n", "\n", "\n", "b\n"]);

    let mut file = lines(&["a\n", "\n", " "]);
    assert_eq!(collapse_seam_blank(&mut file, 3, 1, 1), 1);
    assert_eq!(texts(&file), ["a"]);
}

#[test]
fn numerals_are_decimal() {
    for n in [0u64, 7, 10, 99, 100, 12345, u64::MAX] {
        assert_eq!(decimal(n), n.to_string());
    }
    for n in [0i64, 5, -5, 10, -10, i64::MAX, i64::MIN] {
        assert_eq!(signed_decimal(n), n.to_string());
    }
}

#[test]
fn offsets_are_read_as_integers_are() {
    let cases = [
        "", "-", "+", "0", "-0", "+0", "7", "+7", "-7", "007", "-007", "1 ", " 1", "1_0", "0x1",
        "--1", "+-1", "1-", "٣", "9223372036854775807", "9223372036854775808",
        "-9223372036854775808", "-9223372036854775809", "99999999999999999999999", "-1a",
    ];
    for case in cases {
        assert_eq!(parse_offset(case), case.parse::<i64>().ok(), "{case:?}");
    }
    for n in [1i64, -1, 42, -42, i64::MIN, i64::MAX] {
        assert_eq!(parse_offset(&signed_decimal(n)), Some(n));
    }
}

#[test]
fn trimming_knows_every_whitespace_character() {
    for code in 0..=0x10ffffu32 {
        if let Some(c) = char::from_u32(code) {
            let text: String = [c, 'x', c, 'y', c].iter().collect();
            assert_eq!(trim(&text), text.trim(), "U+{code:04X}");
        }
    }
    assert_eq!(trim(" \t "), "");
    assert_eq!(trim(""), "");
}

#[test]
fn logical_lines_leave_the_endings_out() {
    assert_eq!(split_logical("a\nb\n"), ["a", "b"]);
    assert_eq!(split_logical("a\r\n\r\nb"), ["a", "", "b"]);
    assert_eq!(split_logical("a\r\r\n"), ["a\r"]);
    assert_eq!(split_logical("a\n\n"), ["a", ""]);
    assert_eq!(split_logical("a\n\r"), ["a"]);
    assert!(split_logical("").is_empty());
    assert_eq!(split_logical("\n"), [""]);
}

#[test]
fn dividing_a_text_keeps_all_but_its_endings() {
    for text in ["", "\n", "a", "a\n", "a\nb", "\n\na\n\n", "ä\n\u{2028}b\n"] {
        let lines = split_logical(text);
        assert!(lines.iter().all(|line| !line.contains('\n')));
        assert_eq!(lines.join("\n"), text.strip_suffix('\n').unwrap_or(text));
        assert_eq!(split_logical(&text.replace('\n', "\r\n")), lines);
        if !text.is_empty() && !text.ends_with('\n') {
            assert_eq!(split_logical(&format!("{text}\n")), lines);
        }
    }
}

#[test]
fn blocks_have_no_blank_ends() {
    assert_eq!(block_lines("\n \na\n\nb\n\t\n"), ["a", "", "b"]);
    assert!(block_lines("\n \n\u{3000}\n").is_empty());
    assert_eq!(trim_blank_lines(&["", "x", ""]), ["x"]);
    assert!(trim_blank_lines(&[]).is_empty());
}

#[test]
fn an_edit_adds_what_lies_between_kept_lines() {
    assert_eq!(added_lines("top\nend\n", "top\nx\ny\nend\n"), ["x", "y"]);
    assert_eq!(added_lines("top\nold\nend", "top\nnew\nend"), ["new"]);
    assert!(added_lines("a\nb\nc", "a\nb\nc").is_empty());
    assert!(added_lines("a\nb\nc", "a\nc").is_empty());
    assert_eq!(added_lines("", "\na\n\n"), ["a"]);
    // A kept line that occurs twice is given to the front first.
    assert_eq!(added_lines("x\nw", "x\nz\nx\nw"), ["z", "x"]);
    assert_eq!(added_lines("a", "a\na\na"), ["a", "a"]);
}
