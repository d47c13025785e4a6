use axiomatic::error::{CompError, Position};

#[test]
fn position_starts_at_line_one_column_one() {
    assert_eq!(Position::new(), Position { line: 1, column: 1, index: 0 });
}

#[test]
fn error_holds_what_it_was_given() {
    let e = CompError::new(String::from("bad"), Position { line: 2, column: 3, index: 9 }, 4);
    assert_eq!(e.message, "bad");
    assert_eq!(e.pos, Position { line: 2, column: 3, index: 9 });
    assert_eq!(e.len, 4);
}

#[test]
fn pretty_print_marks_the_characters() {
    let e = CompError::new(String::from("oops"), Position { line: 2, column: 3, index: 7 }, 2);
    assert_eq!(
        e.pretty_print("first\r\nab@@cd\nthird"),
        "--> input:2:3\n ab@@cd\n   ^^\nerror: oops\n"
    );
}

#[test]
fn pretty_print_clips_carets_at_the_line_end() {
    let e = CompError::new(String::from("long"), Position { line: 1, column: 2, index: 1 }, 10);
    assert_eq!(e.pretty_print("abc"), "--> input:1:2\n abc\n  ^^\nerror: long\n");
}

#[test]
fn pretty_print_past_the_line_end_has_no_carets() {
    let e = CompError::new(String::from("end"), Position { line: 1, column: 5, index: 4 }, 1);
    assert_eq!(e.pretty_print("abc"), "--> input:1:5\n abc\nerror: end\n");
}

#[test]
fn pretty_print_past_the_last_line() {
    let e = CompError::new(String::from("gone"), Position { line: 3, column: 1, index: 0 }, 1);
    assert_eq!(e.pretty_print("one\ntwo\n"), "Error at position 3: gone");
}

#[test]
fn pretty_print_counts_bytes_of_the_line() {
    // the line "é" is two bytes long, so a caret can stand under column 2
    let e = CompError::new(String::from("u"), Position { line: 1, column: 2, index: 1 }, 1);
    assert_eq!(e.pretty_print("\u{e9}"), "--> input:1:2\n \u{e9}\n  ^\nerror: u\n");
}
