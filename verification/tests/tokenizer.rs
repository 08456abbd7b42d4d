use my_shell::tokenizer::tokenize;
use my_shell::tokenizer::Token;
use my_shell::tokenizer::Token::{And, Append, Or, Pipe, RedirectIn, RedirectOut, Semicolon};

fn w(s: &str) -> Token {
    Token::Word(s.to_string())
}

// === Words and quotes ===

#[test]
fn test_basic_words() {
    assert_eq!(
        tokenize("echo hello world"),
        vec![w("echo"), w("hello"), w("world")]
    );
}

#[test]
fn test_double_quotes() {
    assert_eq!(
        tokenize("echo \"hello world\""),
        vec![w("echo"), w("hello world")]
    );
}

#[test]
fn test_single_quotes() {
    assert_eq!(
        tokenize("echo 'hello world'"),
        vec![w("echo"), w("hello world")]
    );
}

#[test]
fn test_extra_whitespace() {
    assert_eq!(tokenize("  echo   hello  "), vec![w("echo"), w("hello")]);
}

// === Pipes ===

#[test]
fn test_pipe() {
    assert_eq!(
        tokenize("ls | grep foo"),
        vec![w("ls"), Pipe, w("grep"), w("foo")]
    );
}

#[test]
fn test_pipe_no_spaces() {
    assert_eq!(
        tokenize("ls|grep foo"),
        vec![w("ls"), Pipe, w("grep"), w("foo")]
    );
}

// === Logical operators ===

#[test]
fn tokenizer_test_and_operator() {
    assert_eq!(
        tokenize("echo hello && echo world"),
        vec![w("echo"), w("hello"), And, w("echo"), w("world")]
    );
}

#[test]
fn tokenizer_test_or_operator() {
    assert_eq!(
        tokenize("echo hello || echo world"),
        vec![w("echo"), w("hello"), Or, w("echo"), w("world")]
    );
}

// === Semicolons ===

#[test]
fn tokenizer_test_semicolon() {
    assert_eq!(
        tokenize("echo hello ; echo world"),
        vec![w("echo"), w("hello"), Semicolon, w("echo"), w("world")]
    );
}

// === Redirects ===

#[test]
fn test_redirect_out() {
    assert_eq!(
        tokenize("echo hello > out.txt"),
        vec![w("echo"), w("hello"), RedirectOut, w("out.txt")]
    );
}

#[test]
fn test_redirect_in() {
    assert_eq!(
        tokenize("cat < input.txt"),
        vec![w("cat"), RedirectIn, w("input.txt")]
    );
}

#[test]
fn test_append() {
    assert_eq!(
        tokenize("echo hello >> out.txt"),
        vec![w("echo"), w("hello"), Append, w("out.txt")]
    );
}

// === Operators inside quotes should be treated as words ===

#[test]
fn test_pipe_in_quotes() {
    assert_eq!(
        tokenize("echo \"hello | world\""),
        vec![w("echo"), w("hello | world")]
    );
}

#[test]
fn test_and_in_quotes() {
    assert_eq!(
        tokenize("echo \"hello && world\""),
        vec![w("echo"), w("hello && world")]
    );
}

#[test]
fn test_semicolon_in_quotes() {
    assert_eq!(
        tokenize("echo \"hello ; world\""),
        vec![w("echo"), w("hello ; world")]
    );
}

// === Mixed ===

#[test]
fn test_complex_pipeline_with_redirect() {
    assert_eq!(
        tokenize("cat < in.txt | grep foo > out.txt"),
        vec![
            w("cat"),
            RedirectIn,
            w("in.txt"),
            Pipe,
            w("grep"),
            w("foo"),
            RedirectOut,
            w("out.txt")
        ]
    );
}

#[test]
fn test_chain_with_pipe() {
    assert_eq!(
        tokenize("echo hello && ls | grep foo"),
        vec![
            w("echo"),
            w("hello"),
            And,
            w("ls"),
            Pipe,
            w("grep"),
            w("foo")
        ]
    );
}

// === Edge cases ===

#[test]
fn single_ampersand_only_ends_the_word() {
    assert_eq!(tokenize("a&b"), vec![w("a"), w("b")]);
    assert_eq!(tokenize("a & b"), vec![w("a"), w("b")]);
}

#[test]
fn empty_quotes_give_no_word() {
    assert_eq!(tokenize("\"\""), vec![]);
    assert_eq!(tokenize("a '' b"), vec![w("a"), w("b")]);
}

#[test]
fn quotes_join_with_adjacent_text() {
    assert_eq!(tokenize("ab\"c d\"e"), vec![w("abc de")]);
}

#[test]
fn unterminated_quote_keeps_the_rest() {
    assert_eq!(tokenize("echo 'a | b"), vec![w("echo"), w("a | b")]);
}

#[test]
fn triple_operators() {
    assert_eq!(tokenize("a|||b"), vec![w("a"), Or, Pipe, w("b")]);
    assert_eq!(tokenize("a>>>b"), vec![w("a"), Append, RedirectOut, w("b")]);
}

#[test]
fn unicode_whitespace_separates_words() {
    assert_eq!(tokenize("a\u{a0}b\u{3000}c"), vec![w("a"), w("b"), w("c")]);
    assert_eq!(tokenize("a\tb\nc"), vec![w("a"), w("b"), w("c")]);
}

#[test]
fn quoted_string_is_one_word() {
    assert_eq!(tokenize("'a && b ; c > d'"), vec![w("a && b ; c > d")]);
    assert_eq!(tokenize("\"x 'y' | z\""), vec![w("x 'y' | z")]);
}

#[test]
fn words_are_never_empty() {
    for t in tokenize("  '' \"\" a ; '' | \"\" ") {
        if let Token::Word(s) = t {
            assert!(!s.is_empty());
        }
    }
}

#[test]
fn whitespace_runs_only_separate() {
    assert_eq!(tokenize("a \t\n\r b"), tokenize("a b"));
    assert_eq!(tokenize("a   |   b"), tokenize("a|b"));
}

// === Escape sequences ===

#[test]
fn backslash_escapes_a_space() {
    assert_eq!(tokenize("echo a\\ b"), vec![w("echo"), w("a b")]);
}

#[test]
fn backslash_escapes_operators_and_quotes() {
    assert_eq!(tokenize("echo a\\|b \\; \\&\\&"), vec![w("echo"), w("a|b"), w(";"), w("&&")]);
    assert_eq!(tokenize("echo \\\"hi\\'"), vec![w("echo"), w("\"hi'")]);
    assert_eq!(tokenize("a\\\\b"), vec![w("a\\b")]);
}

#[test]
fn trailing_backslash_is_kept() {
    assert_eq!(tokenize("echo a\\"), vec![w("echo"), w("a\\")]);
}

#[test]
fn double_quotes_honour_escaped_quote_and_backslash() {
    assert_eq!(tokenize("echo \"say \\\"hi\\\"\""), vec![w("echo"), w("say \"hi\"")]);
    assert_eq!(tokenize("\"a\\\\b\""), vec![w("a\\b")]);
    assert_eq!(tokenize("\"a\\nb\""), vec![w("a\\nb")]);
}

#[test]
fn single_quotes_keep_backslashes() {
    assert_eq!(tokenize("'a\\ b\\'"), vec![w("a\\ b\\")]);
}

// === Joining lines ===

#[test]
fn joining_with_a_space_joins_tokens() {
    let a = "ls -la|grep x&";
    let b = "'q r' ; wc";
    let mut expected = tokenize(a);
    expected.extend(tokenize(b));
    assert_eq!(tokenize(&format!("{} {}", a, b)), expected);
}

#[test]
fn plain_line_splits_at_whitespace() {
    let line = " ab\tc\u{a0}d  e\n\u{2028}";
    let expected: Vec<Token> = line.split_whitespace().map(w).collect();
    assert_eq!(tokenize(line), expected);
    assert_eq!(tokenize(line), vec![w("ab"), w("c"), w("d"), w("e")]);
}

#[test]
fn joining_after_closed_quotes_and_escapes_joins_tokens() {
    let a = "x\\ y 'q r' \"s\\\"t\" z\\\\";
    let b = "| wc";
    let mut expected = tokenize(a);
    expected.extend(tokenize(b));
    assert_eq!(tokenize(&format!("{} {}", a, b)), expected);
}

#[test]
fn a_trailing_backslash_escapes_the_joining_space() {
    assert_eq!(tokenize("a\\ b"), vec![w("a b")]);
    assert_eq!(tokenize("a\\"), vec![w("a\\")]);
}

#[test]
fn lone_backslashes_in_double_quotes_stay() {
    assert_eq!(tokenize("\"a\\b c\\d\""), vec![w("a\\b c\\d")]);
}
