use execute::command_tokens;

#[test]
fn empty_line_has_no_tokens() {
    assert!(command_tokens("").is_empty());
}

#[test]
fn blank_line_has_no_tokens() {
    assert!(command_tokens("   \t \n ").is_empty());
}

#[test]
fn leading_trailing_and_runs_of_spaces_separate() {
    assert_eq!(vec!["a", "b", "c"], command_tokens("   a  b\t\tc   "));
}

#[test]
fn unicode_white_space_separates() {
    assert_eq!(vec!["a", "b", "c", "d"], command_tokens("a\u{3000}b\u{a0}c\u{2009}d"));
}

#[test]
fn other_characters_do_not_separate() {
    assert_eq!(vec!["a\u{200b}b", "\u{e9}t\u{e9}"], command_tokens("a\u{200b}b \u{e9}t\u{e9}"));
}

#[test]
fn empty_quotes_give_empty_tokens() {
    assert_eq!(vec![""], command_tokens("''"));
    assert_eq!(vec![""], command_tokens("\"\""));
    assert_eq!(vec!["a", "", "b"], command_tokens("a '' b"));
    assert_eq!(vec!["a", ""], command_tokens("a \"\""));
}

#[test]
fn three_fragments_join() {
    assert_eq!(vec!["abc"], command_tokens("'a'\"b\"'c'"));
    assert_eq!(vec!["abc"], command_tokens("a'b'c"));
    assert_eq!(vec!["abc"], command_tokens("'a'b\"c\""));
    assert_eq!(vec!["abcd", "e"], command_tokens("'a'b\"c\"d e"));
}

#[test]
fn closed_quote_then_unquoted_text_then_spaces() {
    assert_eq!(vec!["ab", "c"], command_tokens("'a'b  c"));
    assert_eq!(vec!["ab"], command_tokens("'a'b "));
    assert_eq!(vec!["a b"], command_tokens("'a'\\ b  "));
}

#[test]
fn escaped_quotes_and_backslashes_are_literal() {
    assert_eq!(vec!["it's"], command_tokens(r"it\'s"));
    assert_eq!(vec!["a\\b"], command_tokens(r"a\\b"));
    assert_eq!(vec!["say \"hi\""], command_tokens(r#"say\ \"hi\""#));
}

#[test]
fn backslash_escapes_inside_quotes() {
    assert_eq!(vec!["a'b"], command_tokens(r"'a\'b'"));
    assert_eq!(vec!["a b"], command_tokens(r#""a\ b""#));
}

#[test]
fn trailing_backslash_is_dropped() {
    assert_eq!(vec!["abc"], command_tokens("abc\\"));
    assert!(command_tokens("\\").is_empty());
    assert_eq!(vec!["a"], command_tokens("a \\"));
}

#[test]
fn lone_open_quote_gives_empty_token() {
    assert_eq!(vec!["a", ""], command_tokens("a '"));
}

#[test]
fn spaced_words_read_back() {
    let words = vec!["ls", "-la", "/tmp/dir", "x=1"];
    assert_eq!(words, command_tokens(&words.join(" ")));
}
