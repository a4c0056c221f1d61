use ollama_completion::has_leading_newline;
use ollama_completion::text::blank;
use ollama_completion::text::contains;
use ollama_completion::text::offered_text;
use ollama_completion::text::same_text;
use ollama_completion::text::split_before;
use ollama_completion::text::trim_end;
use ollama_completion::trim_to_end_of_line_unless_leading_newline;

#[test]
fn test_has_leading_newline() {
    assert!(has_leading_newline("\nfoo"));
    assert!(has_leading_newline("  \nfoo"));
    assert!(has_leading_newline("\t\nfoo"));
    assert!(!has_leading_newline("foo\nbar"));
    assert!(!has_leading_newline("foo"));
    assert!(!has_leading_newline(""));
}

#[test]
fn test_trim_to_end_of_line_unless_leading_newline() {
    assert_eq!(
        trim_to_end_of_line_unless_leading_newline("foo\nbar"),
        "foo"
    );
    assert_eq!(
        trim_to_end_of_line_unless_leading_newline("foo bar"),
        "foo bar"
    );
    assert_eq!(
        trim_to_end_of_line_unless_leading_newline("\nfoo\nbar"),
        "\nfoo\nbar"
    );
    assert_eq!(
        trim_to_end_of_line_unless_leading_newline("  \nfoo"),
        "  \nfoo"
    );
}

#[test]
fn white_space_before_a_line_break_is_the_unicode_property() {
    for c in '\0'..=char::MAX {
        if c == '\n' {
            continue;
        }
        let white_space = matches!(c, '\u{9}'..='\u{d}' | '\u{20}' | '\u{85}' | '\u{a0}'
            | '\u{1680}' | '\u{2000}'..='\u{200a}' | '\u{2028}' | '\u{2029}' | '\u{202f}'
            | '\u{205f}' | '\u{3000}');
        let text = format!("{}\n", c);
        assert_eq!(has_leading_newline(&text), white_space, "{:?}", c);
    }
}

#[test]
fn trimming_a_second_time_changes_nothing() {
    for text in ["foo\nbar", "", "\n", " \n x\ny", "é\r\nx", "  x \n"] {
        let once = trim_to_end_of_line_unless_leading_newline(text);
        assert_eq!(trim_to_end_of_line_unless_leading_newline(once), once);
    }
}

#[test]
fn trimming_the_end_takes_only_white_space() {
    for text in ["foo \t\n", "", "  ", "é\u{3000}", " a b ", "x\u{200b}"] {
        assert_eq!(trim_end(text), text.trim_end());
        assert_eq!(blank(text), text.trim().is_empty());
    }
}

#[test]
fn one_line_is_offered_without_white_space_at_its_end() {
    assert_eq!(offered_text("let x = 1;  \nlet y"), "let x = 1;");
    assert_eq!(offered_text("\n  return;\n"), "\n  return;");
    assert_eq!(offered_text("   "), "");
    assert_eq!(offered_text(" \n "), "");
}

#[test]
fn splitting_before_a_character() {
    assert_eq!(split_before("qwen2.5-coder:7b", ':'), "qwen2.5-coder");
    assert_eq!(split_before("a:b:c", ':'), "a");
    assert_eq!(split_before(":b", ':'), "");
    assert_eq!(split_before("é", ':'), "é");
}

#[test]
fn searching_for_a_part() {
    assert!(contains("tcp: Connection refused (os error)", "Connection refused"));
    assert!(!contains("Connection refuse", "Connection refused"));
    assert!(contains("aab", "ab"));
    assert!(contains("", ""));
    assert!(contains("é", ""));
    assert!(!contains("", "x"));
}

#[test]
fn comparing_texts() {
    assert!(same_text("é", "é"));
    assert!(same_text("", ""));
    assert!(!same_text("é", "e\u{301}"));
    assert!(!same_text("ab", "abc"));
}
