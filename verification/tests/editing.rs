//! Tests of the markup escaping and the comment toggle.

use nadi_core::parser::tokenizer::TaskToken;
use nadi_core::tasks::TaskKeyword;

use nadi_scan::comment::toggle_comment;
use nadi_scan::markup::{escape_markup, token_markup};

#[test]
fn escape_replaces_reserved_characters() {
    assert_eq!(escape_markup("a<b&c>d"), "a&lt;b&amp;c&gt;d");
    assert_eq!(escape_markup(""), "");
    assert_eq!(escape_markup("plain"), "plain");
    assert_eq!(escape_markup("&&"), "&amp;&amp;");
}

#[test]
fn token_markup_wraps_escaped_content() {
    assert_eq!(
        token_markup("red", "x<y"),
        "<span foreground=\"red\">x&lt;y</span>"
    );
    assert_eq!(token_markup("blue", ""), "<span foreground=\"blue\"></span>");
}

#[test]
fn toggle_comments_plain_lines() {
    assert_eq!(toggle_comment("a\nb"), "# a\n# b");
    assert_eq!(toggle_comment("node foo()\n"), "# node foo()\n");
}

#[test]
fn toggle_uncomments_comment_lines() {
    assert_eq!(toggle_comment("# a\n# b\n"), "a\nb\n");
    assert_eq!(toggle_comment("#x\n"), "x\n");
    assert_eq!(toggle_comment("  # y\n"), "  y\n");
}

#[test]
fn toggle_mixed_lines_comments_all() {
    // One non-comment line makes the whole selection gain marks, and a
    // blank line keeps only its break.
    assert_eq!(toggle_comment("# a\nb\n"), "# # a\n# b\n");
    assert_eq!(toggle_comment("a\n\nb"), "# a\n\n# b");
}

#[test]
fn toggle_blank_lines_between_comments() {
    assert_eq!(toggle_comment("  \n# a\n"), "\na\n");
}

#[test]
fn toggle_treats_unicode_whitespace_as_blank() {
    // A line of no-break spaces is blank, as the editor's trimming
    // treats it.
    assert_eq!(toggle_comment("\u{a0}\u{a0}\n# a\n"), "\na\n");
}

#[test]
fn toggle_empty_selection() {
    assert_eq!(toggle_comment(""), "");
}

#[test]
#[allow(deprecated)]
fn text_markup_uses_engine_colours() {
    let kw = TaskToken::Keyword(TaskKeyword::Node).syntax_color();
    let expected = format!("<span foreground=\"{kw}\">node</span>");
    assert_eq!(nadi_scan::markup::text_markup("node"), expected);
}

#[test]
fn text_markup_escapes_content() {
    let m = nadi_scan::markup::text_markup("x");
    assert!(m.starts_with("<span foreground=\""));
    assert!(m.ends_with("\">x</span>"));
    let m2 = nadi_scan::markup::text_markup(">");
    assert!(m2.contains("&gt;"));
    assert!(!m2.contains(">x"));
}
