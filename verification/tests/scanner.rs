//! Tests of the highlighter and the task locator against the real
//! engine.

use nadi_scan::highlight::{highlight, Span};
use nadi_scan::locate::{locate_task, script_error_position, tasks_in_text};
use nadi_scan::tokens::{classify, Category};

use nadi_core::parser::tokenizer::TaskToken;
use nadi_core::tasks::TaskKeyword;

fn span(start: usize, end: usize, category: Category) -> Span {
    Span { start, end, category }
}

#[test]
fn highlight_single_statement_covers_input() {
    // `node foo()` tokenizes as keyword, space, function name and two
    // parentheses; spans cover everything except the skipped space and
    // the unstyled parentheses, with no gap and no overlap otherwise.
    let spans = highlight("node foo()");
    assert_eq!(
        spans,
        vec![span(0, 4, Category::Keyword), span(5, 8, Category::FunctionName)]
    );
    // Ordered and disjoint, inside the input.
    let mut last_end = 0;
    for sp in &spans {
        assert!(last_end <= sp.start);
        assert!(sp.start < sp.end);
        assert!(sp.end <= "node foo()".chars().count());
        last_end = sp.end;
    }
}

#[test]
fn highlight_literals() {
    // variable, assignment and integer literal; whitespace skipped.
    let spans = highlight("x = 1");
    assert_eq!(
        spans,
        vec![
            span(0, 1, Category::Variable),
            span(2, 3, Category::AssignOp),
            span(4, 5, Category::NumberLit),
        ]
    );
}

#[test]
fn highlight_one_malformed_line() {
    // The middle line cannot tokenize (`~` is no token); exactly that
    // line, break included, becomes one error span, and both neighbours
    // are classified as usual.
    let text = "node foo()\n~~~\nnetwork bar()\n";
    let spans = highlight(text);
    assert_eq!(
        spans,
        vec![
            span(0, 4, Category::Keyword),
            span(5, 8, Category::FunctionName),
            span(11, 15, Category::ErrorLine),
            span(15, 22, Category::Keyword),
            span(23, 26, Category::FunctionName),
        ]
    );
}

#[test]
fn highlight_unterminated_string_line_is_all_error() {
    // An open quote makes the whole line a lexical error: it is tagged
    // as one error span in full, not partially highlighted.
    let spans = highlight("node \"abc\n");
    assert_eq!(spans, vec![span(0, 10, Category::ErrorLine)]);
}

#[test]
fn highlight_is_idempotent() {
    let text = "node foo()\n~~~\nnetwork bar()\nx = 1\n";
    let first = highlight(text);
    let second = highlight(text);
    assert_eq!(first, second);
}

#[test]
fn highlight_empty_text() {
    assert_eq!(highlight(""), vec![]);
}

#[test]
fn locate_single_line_statement() {
    // Cursor on a single complete one-line statement: the range is
    // exactly that line and one task is parsed.
    let r = locate_task("node foo()", 0);
    assert_eq!(r.start_line, 0);
    assert_eq!(r.end_line, 1);
    assert_eq!(r.text, "node foo()");
    assert_eq!(r.tasks.len(), 1);
}

#[test]
fn locate_two_statements_cursor_first() {
    let r = locate_task("node foo()\nnetwork bar()\n", 0);
    assert_eq!(r.start_line, 0);
    assert_eq!(r.end_line, 1);
    assert_eq!(r.text, "node foo()");
    assert_eq!(r.tasks.len(), 1);
    assert_eq!(format!("{}", r.tasks[0]), "node foo()");
}

#[test]
fn locate_two_statements_cursor_second() {
    let r = locate_task("node foo()\nnetwork bar()\n", 1);
    assert_eq!(r.start_line, 1);
    assert_eq!(r.end_line, 2);
    assert_eq!(r.text, "network bar()");
    assert_eq!(r.tasks.len(), 1);
    assert_eq!(format!("{}", r.tasks[0]), "network bar()");
}

#[test]
fn locate_statement_with_bracket_closing_lines_later() {
    // The node list's bracket opens on the first line and closes only
    // on the third: every shorter slice parses as unclosed, so the
    // range must span all three lines, not fewer.
    let text = "node[a,\nb,\nc] foo()\n";
    let r = locate_task(text, 0);
    assert_eq!(r.start_line, 0);
    assert_eq!(r.end_line, 3);
    assert_eq!(r.tasks.len(), 1);
}

#[test]
fn locate_skips_in_line_as_start() {
    // A line opening with the mid-statement keyword `in` cannot start a
    // statement: the backward scan continues past it to line 0, and the
    // two lines together parse as one statement (`in` is a binary
    // operator of the expression on the line before).
    let r = locate_task("node foo()\nin x\n", 1);
    assert_eq!(r.start_line, 0);
    assert_eq!(r.end_line, 2);
    assert_eq!(r.tasks.len(), 1);
}

#[test]
fn locate_skips_match_line_as_start() {
    let r = locate_task("node foo()\nmatch y\n", 1);
    assert_eq!(r.start_line, 0);
}

#[test]
fn locate_empty_buffer() {
    // Cursor line 0 of an empty buffer: the empty range, no tasks, no
    // failure.
    let r = locate_task("", 0);
    assert_eq!(r.start_line, 0);
    assert_eq!(r.end_line, 0);
    assert_eq!(r.text, "");
    assert_eq!(r.tasks.len(), 0);
}

#[test]
fn locate_cursor_past_end() {
    let r = locate_task("node foo()", 7);
    assert!(r.start_line <= 1);
    assert!(r.end_line <= 1);
}

#[test]
fn tasks_in_text_parses_script() {
    let tasks = tasks_in_text("node foo()\nnetwork bar()\n").expect("script parses");
    assert_eq!(tasks.len(), 2);
}

#[test]
fn tasks_in_text_unclosed_is_none() {
    assert!(tasks_in_text("node[a,").is_none());
}

#[test]
fn tasks_in_text_invalid_token_is_none() {
    assert!(tasks_in_text("~~").is_none());
}

#[test]
fn classification_table() {
    assert_eq!(classify(&TaskToken::Comment), Some(Category::Comment));
    assert_eq!(
        classify(&TaskToken::Keyword(TaskKeyword::Node)),
        Some(Category::Keyword)
    );
    assert_eq!(classify(&TaskToken::Function), Some(Category::FunctionName));
    assert_eq!(classify(&TaskToken::Variable), Some(Category::Variable));
    assert_eq!(classify(&TaskToken::Bool), Some(Category::BoolLit));
    assert_eq!(
        classify(&TaskToken::String(String::from("s"))),
        Some(Category::StringLit)
    );
    assert_eq!(classify(&TaskToken::Integer), Some(Category::NumberLit));
    assert_eq!(classify(&TaskToken::Float), Some(Category::NumberLit));
    assert_eq!(classify(&TaskToken::Date), Some(Category::DateTimeLit));
    assert_eq!(classify(&TaskToken::Time), Some(Category::DateTimeLit));
    assert_eq!(classify(&TaskToken::DateTime), Some(Category::DateTimeLit));
    assert_eq!(classify(&TaskToken::PathSep), Some(Category::PathSep));
    assert_eq!(classify(&TaskToken::Assignment), Some(Category::AssignOp));
    // Skipped kinds get no span, including ones the table does not know.
    assert_eq!(classify(&TaskToken::WhiteSpace), None);
    assert_eq!(classify(&TaskToken::NewLine), None);
    assert_eq!(classify(&TaskToken::Comma), None);
    assert_eq!(classify(&TaskToken::Invalid('~')), None);
}

#[test]
fn highlight_comment_and_datetime() {
    let spans = highlight("# note\n");
    assert_eq!(spans, vec![span(0, 6, Category::Comment)]);
    let spans = highlight("x = 2020-01-01");
    assert_eq!(
        spans,
        vec![
            span(0, 1, Category::Variable),
            span(2, 3, Category::AssignOp),
            span(4, 14, Category::DateTimeLit),
        ]
    );
}

#[test]
fn highlight_error_on_first_line() {
    let spans = highlight("~~~\nx = 1");
    assert_eq!(
        spans,
        vec![
            span(0, 4, Category::ErrorLine),
            span(4, 5, Category::Variable),
            span(6, 7, Category::AssignOp),
            span(8, 9, Category::NumberLit),
        ]
    );
}

#[test]
fn highlight_two_consecutive_bad_lines() {
    let spans = highlight("~\n~\nx = 1\n");
    assert_eq!(
        spans,
        vec![
            span(0, 2, Category::ErrorLine),
            span(2, 4, Category::ErrorLine),
            span(4, 5, Category::Variable),
            span(6, 7, Category::AssignOp),
            span(8, 9, Category::NumberLit),
        ]
    );
}

#[test]
fn highlight_prefix_unscannable_still_tags_error_line() {
    // A string literal spanning the line break makes the prefix before
    // the failing line unscannable on its own; the prefix is then left
    // unstyled, but the failing line still gets its error span in full.
    let spans = highlight("\"x\ny\" ~\n");
    assert_eq!(spans, vec![span(3, 8, Category::ErrorLine)]);
}

#[test]
fn locate_cursor_in_middle_of_statement() {
    // Cursor on a continuation line: the backward scan finds the
    // statement's start line above it.
    let r = locate_task("node[a,\nb,\nc] foo()\n", 1);
    assert_eq!(r.start_line, 0);
    assert_eq!(r.end_line, 3);
    assert_eq!(r.tasks.len(), 1);
}

#[test]
fn locate_parse_error_returns_empty_tasks() {
    // A slice that fails to parse with a structural error other than an
    // unclosed one is still returned as the boundary, with no tasks.
    let r = locate_task("node foo()\nexit exit\n", 1);
    assert_eq!(r.start_line, 1);
    assert_eq!(r.end_line, 2);
    assert_eq!(r.tasks.len(), 0);
}

#[test]
fn tasks_in_text_trailing_tokens_is_none() {
    // Two statements on one line: the first parses, the rest is left
    // over, so the text as a whole is not a valid script.
    assert!(tasks_in_text("exit exit").is_none());
}

#[test]
fn locate_rejected_date_literal_halts() {
    // The engine's calendar rejects month and day ninety-nine; the
    // locator treats the line as a failed parse instead of handing the
    // literal to the parser, which would abort on it.
    let r = locate_task("env 9999-99-99", 0);
    assert_eq!(r.start_line, 0);
    assert_eq!(r.end_line, 1);
    assert_eq!(r.tasks.len(), 0);
}

#[test]
fn tasks_in_text_rejected_date_is_none() {
    assert!(tasks_in_text("env 9999-99-99").is_none());
    assert!(tasks_in_text("env 25:99").is_none());
    assert!(tasks_in_text("env 9999-99-99 00:00").is_none());
}

#[test]
fn tasks_in_text_accepts_valid_date() {
    let tasks = tasks_in_text("env 2020-01-01").expect("valid date parses");
    assert_eq!(tasks.len(), 1);
}

#[test]
fn error_position_of_clean_script_is_none() {
    assert_eq!(script_error_position("node foo()\nnetwork bar()\n"), None);
    assert_eq!(script_error_position(""), None);
}

#[test]
fn error_position_of_invalid_character() {
    // The invalid character opens the text: line zero, column zero.
    assert_eq!(script_error_position("~~"), Some((0, 0)));
    // One statement line before it, nothing on its own line before it.
    assert_eq!(script_error_position("node foo()\n~~x"), Some((1, 0)));
}

#[test]
fn error_position_of_rejected_date() {
    // `env ` stands before the bad date literal on line zero.
    assert_eq!(script_error_position("env 9999-99-99"), Some((0, 4)));
}

#[test]
fn error_position_of_trailing_statement() {
    // The second `exit` is the first token the parser cannot consume.
    assert_eq!(script_error_position("exit exit"), Some((0, 5)));
}

#[test]
fn error_position_of_unclosed_bracket() {
    let p = script_error_position("node[a,");
    assert!(p.is_some());
    assert_eq!(p.unwrap().0, 0);
}
