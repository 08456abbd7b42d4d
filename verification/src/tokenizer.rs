//! Character-level tokenizer with quote handling.

use vstd::prelude::*;
use crate::text::{chars_of, is_unicode_ws, is_whitespace};

verus! {

broadcast use vstd::string::group_string_axioms;

/// A lexical token of a command line.
#[derive(Debug, PartialEq)]
pub enum Token {
    Word(String),
    Pipe,
    And,
    Or,
    Semicolon,
    RedirectIn,
    RedirectOut,
    Append,
}

/// The mathematical value of a token: a word is its sequence of characters.
pub enum SpecToken {
    Word(Seq<char>),
    Pipe,
    And,
    Or,
    Semicolon,
    RedirectIn,
    RedirectOut,
    Append,
}

impl View for Token {
    type V = SpecToken;

    open spec fn view(&self) -> SpecToken {
        match self {
            Token::Word(s) => SpecToken::Word(s@),
            Token::Pipe => SpecToken::Pipe,
            Token::And => SpecToken::And,
            Token::Or => SpecToken::Or,
            Token::Semicolon => SpecToken::Semicolon,
            Token::RedirectIn => SpecToken::RedirectIn,
            Token::RedirectOut => SpecToken::RedirectOut,
            Token::Append => SpecToken::Append,
        }
    }
}

impl Clone for Token {
    fn clone(&self) -> (r: Self)
        ensures
            r@ == self@,
    {
        match self {
            Token::Word(s) => Token::Word(s.clone()),
            Token::Pipe => Token::Pipe,
            Token::And => Token::And,
            Token::Or => Token::Or,
            Token::Semicolon => Token::Semicolon,
            Token::RedirectIn => Token::RedirectIn,
            Token::RedirectOut => Token::RedirectOut,
            Token::Append => Token::Append,
        }
    }
}

/// The values of a sequence of tokens.
pub open spec fn tokens_view(ts: Seq<Token>) -> Seq<SpecToken> {
    ts.map_values(|t: Token| t@)
}

pub open spec fn is_quote(c: char) -> bool {
    c == '"' || c == '\''
}

/// The tokens that ending the current word produces: the word itself, unless it is empty.
pub open spec fn flushed(word: Seq<char>) -> Seq<SpecToken> {
    if word.len() == 0 {
        Seq::empty()
    } else {
        seq![SpecToken::Word(word)]
    }
}

/// True when the character after position `i` of `s` is `d`.
pub open spec fn next_is(s: Seq<char>, i: int, d: char) -> bool {
    i + 1 < s.len() && s[i + 1] == d
}

/// The tokens of `s` from position `i` on, where `word` holds the characters
/// of the word read so far and `quote` the quote character that is open, if any.
///
/// Inside single quotes every character but the closing quote belongs to the
/// word. Inside double quotes so does every character but the closing quote,
/// except that `\"` and `\\` stand for `"` and `\`. Outside quotes a
/// backslash makes the character after it part of the word, whatever it is (a
/// backslash at the very end stays as it is), a quote character opens a quoted
/// part, whitespace (Unicode `White_Space`) ends the word, `|`, `||`, `>`, `>>`, `&&`, `;` and `<` end the
/// word and are operators, a lone `&` only ends the word, and anything else is
/// part of the word.
pub open spec fn lex_from(s: Seq<char>, i: int, word: Seq<char>, quote: Option<char>) -> Seq<
    SpecToken,
>
    decreases s.len() - i,
{
    if i < 0 || i >= s.len() {
        flushed(word)
    } else {
        let c = s[i];
        match quote {
            Some(q) => if c == q {
                lex_from(s, i + 1, word, None)
            } else if q == '"' && c == '\\' && (next_is(s, i, '"') || next_is(s, i, '\\')) {
                lex_from(s, i + 2, word.push(s[i + 1]), quote)
            } else {
                lex_from(s, i + 1, word.push(c), quote)
            },
            None => if c == '\\' {
                if i + 1 < s.len() {
                    lex_from(s, i + 2, word.push(s[i + 1]), None)
                } else {
                    lex_from(s, i + 1, word.push(c), None)
                }
            } else if is_quote(c) {
                lex_from(s, i + 1, word, Some(c))
            } else if is_unicode_ws(c) {
                flushed(word) + lex_from(s, i + 1, Seq::empty(), None)
            } else if c == '|' {
                if next_is(s, i, '|') {
                    flushed(word) + seq![SpecToken::Or] + lex_from(s, i + 2, Seq::empty(), None)
                } else {
                    flushed(word) + seq![SpecToken::Pipe] + lex_from(s, i + 1, Seq::empty(), None)
                }
            } else if c == '>' {
                if next_is(s, i, '>') {
                    flushed(word) + seq![SpecToken::Append] + lex_from(
                        s,
                        i + 2,
                        Seq::empty(),
                        None,
                    )
                } else {
                    flushed(word) + seq![SpecToken::RedirectOut] + lex_from(
                        s,
                        i + 1,
                        Seq::empty(),
                        None,
                    )
                }
            } else if c == '&' {
                if next_is(s, i, '&') {
                    flushed(word) + seq![SpecToken::And] + lex_from(s, i + 2, Seq::empty(), None)
                } else {
                    flushed(word) + lex_from(s, i + 1, Seq::empty(), None)
                }
            } else if c == ';' {
                flushed(word) + seq![SpecToken::Semicolon] + lex_from(
                    s,
                    i + 1,
                    Seq::empty(),
                    None,
                )
            } else if c == '<' {
                flushed(word) + seq![SpecToken::RedirectIn] + lex_from(
                    s,
                    i + 1,
                    Seq::empty(),
                    None,
                )
            } else {
                lex_from(s, i + 1, word.push(c), None)
            },
        }
    }
}

/// The tokens of a whole command line.
pub open spec fn spec_tokenize(s: Seq<char>) -> Seq<SpecToken> {
    lex_from(s, 0, Seq::empty(), None)
}

/// Splits a command line into tokens.
pub fn tokenize(input: &str) -> (tokens: Vec<Token>)
    ensures
        tokens_view(tokens@) == spec_tokenize(input@),
        forall|k: int|
            0 <= k < tokens@.len() ==> (#[trigger] tokens@[k]@ matches SpecToken::Word(w)
                ==> w.len() > 0),
{
    let chars = chars_of(input);
    let n = chars.len();
    let mut tokens: Vec<Token> = Vec::new();
    let mut current_word = String::new();
    let mut quote_char: Option<char> = None;
    let mut i: usize = 0;
    while i < n
        invariant
            n == chars@.len(),
            chars@ == input@,
            i <= n,
            tokens_view(tokens@) + lex_from(chars@, i as int, current_word@, quote_char)
                == spec_tokenize(input@),
        decreases n - i,
    {
        let c = chars[i];
        let ghost s = chars@;
        let ghost old_view = tokens_view(tokens@);
        let ghost w = current_word@;
        match quote_char {
            Some(q) => {
                if c == q {
                    quote_char = None;
                    i = i + 1;
                } else if q == '"' && c == '\\' && i + 1 < n && (chars[i + 1] == '"' || chars[i
                    + 1] == '\\') {
                    current_word.push(chars[i + 1]);
                    i = i + 2;
                } else {
                    current_word.push(c);
                    i = i + 1;
                }
            },
            None => {
                if c == '\\' {
                    if i + 1 < n {
                        current_word.push(chars[i + 1]);
                        i = i + 2;
                    } else {
                        current_word.push(c);
                        i = i + 1;
                    }
                } else if c == '"' || c == '\'' {
                    quote_char = Some(c);
                    i = i + 1;
                } else if is_whitespace(c) {
                    flush_word(&mut current_word, &mut tokens);
                    i = i + 1;
                    assert(tokens_view(tokens@) + lex_from(s, i as int, current_word@, quote_char)
                        =~= old_view + (flushed(w) + lex_from(s, i as int, Seq::empty(), None)));
                } else if c == '|' {
                    flush_word(&mut current_word, &mut tokens);
                    let ghost mid = tokens_view(tokens@);
                    if i + 1 < n && chars[i + 1] == '|' {
                        tokens.push(Token::Or);
                        i = i + 2;
                    } else {
                        tokens.push(Token::Pipe);
                        i = i + 1;
                    }
                    assert(tokens_view(tokens@) =~= mid.push(tokens@.last()@));
                    assert(tokens_view(tokens@) + lex_from(s, i as int, current_word@, quote_char)
                        =~= old_view + (flushed(w) + seq![tokens@.last()@] + lex_from(
                        s,
                        i as int,
                        Seq::empty(),
                        None,
                    )));
                } else if c == '>' {
                    flush_word(&mut current_word, &mut tokens);
                    let ghost mid = tokens_view(tokens@);
                    if i + 1 < n && chars[i + 1] == '>' {
                        tokens.push(Token::Append);
                        i = i + 2;
                    } else {
                        tokens.push(Token::RedirectOut);
                        i = i + 1;
                    }
                    assert(tokens_view(tokens@) =~= mid.push(tokens@.last()@));
                    assert(tokens_view(tokens@) + lex_from(s, i as int, current_word@, quote_char)
                        =~= old_view + (flushed(w) + seq![tokens@.last()@] + lex_from(
                        s,
                        i as int,
                        Seq::empty(),
                        None,
                    )));
                } else if c == '&' {
                    flush_word(&mut current_word, &mut tokens);
                    let ghost mid = tokens_view(tokens@);
                    if i + 1 < n && chars[i + 1] == '&' {
                        tokens.push(Token::And);
                        i = i + 2;
                        assert(tokens_view(tokens@) =~= mid.push(tokens@.last()@));
                        assert(tokens_view(tokens@) + lex_from(
                            s,
                            i as int,
                            current_word@,
                            quote_char,
                        ) =~= old_view + (flushed(w) + seq![SpecToken::And] + lex_from(
                            s,
                            i as int,
                            Seq::empty(),
                            None,
                        )));
                    } else {
                        i = i + 1;
                        assert(tokens_view(tokens@) + lex_from(
                            s,
                            i as int,
                            current_word@,
                            quote_char,
                        ) =~= old_view + (flushed(w) + lex_from(s, i as int, Seq::empty(), None)));
                    }
                } else if c == ';' || c == '<' {
                    flush_word(&mut current_word, &mut tokens);
                    let ghost mid = tokens_view(tokens@);
                    if c == ';' {
                        tokens.push(Token::Semicolon);
                    } else {
                        tokens.push(Token::RedirectIn);
                    }
                    i = i + 1;
                    assert(tokens_view(tokens@) =~= mid.push(tokens@.last()@));
                    assert(tokens_view(tokens@) + lex_from(s, i as int, current_word@, quote_char)
                        =~= old_view + (flushed(w) + seq![tokens@.last()@] + lex_from(
                        s,
                        i as int,
                        Seq::empty(),
                        None,
                    )));
                } else {
                    current_word.push(c);
                    i = i + 1;
                }
            },
        }
    }
    let ghost before = tokens_view(tokens@);
    if !current_word.as_str().is_empty() {
        tokens.push(Token::Word(current_word.clone()));
        assert(tokens_view(tokens@) =~= before.push(tokens@.last()@));
    }
    assert(tokens_view(tokens@) =~= spec_tokenize(input@));
    proof {
        lemma_lex_words_nonempty(input@, 0, Seq::empty(), None);
        assert forall|k: int| 0 <= k < tokens@.len() implies (#[trigger] tokens@[k]@ matches SpecToken::Word(
            w,
        ) ==> w.len() > 0) by {
            assert(tokens_view(tokens@)[k] == tokens@[k]@);
        }
    }
    tokens
}

/// Ends the current word: a non-empty word becomes a `Word` token and the word
/// is emptied.
fn flush_word(current_word: &mut String, tokens: &mut Vec<Token>)
    ensures
        final(current_word)@ == Seq::<char>::empty(),
        tokens_view(final(tokens)@) == tokens_view(old(tokens)@) + flushed(old(current_word)@),
{
    let ghost before = tokens_view(tokens@);
    if !current_word.as_str().is_empty() {
        tokens.push(Token::Word(current_word.clone()));
        *current_word = String::new();
        assert(tokens_view(tokens@) =~= before + flushed(old(current_word)@));
    } else {
        assert(tokens_view(tokens@) =~= before + flushed(old(current_word)@));
    }
}

/// Every `Word` token that the tokenizer produces is non-empty, whatever word
/// has been read so far.
pub proof fn lemma_lex_words_nonempty(s: Seq<char>, i: int, word: Seq<char>, quote: Option<char>)
    ensures
        forall|k: int|
            0 <= k < lex_from(s, i, word, quote).len() ==> (#[trigger] lex_from(
                s,
                i,
                word,
                quote,
            )[k] matches SpecToken::Word(w) ==> w.len() > 0),
    decreases s.len() - i,
{
    if i < 0 || i >= s.len() {
    } else {
        let c = s[i];
        let e = Seq::<char>::empty();
        match quote {
            Some(q) => if c == q {
                lemma_lex_words_nonempty(s, i + 1, word, None);
            } else if q == '"' && c == '\\' && (next_is(s, i, '"') || next_is(s, i, '\\')) {
                lemma_lex_words_nonempty(s, i + 2, word.push(s[i + 1]), quote);
            } else {
                lemma_lex_words_nonempty(s, i + 1, word.push(c), quote);
            },
            None => {
                if c == '\\' {
                    if i + 1 < s.len() {
                        lemma_lex_words_nonempty(s, i + 2, word.push(s[i + 1]), None);
                    } else {
                        lemma_lex_words_nonempty(s, i + 1, word.push(c), None);
                    }
                } else if is_quote(c) {
                    lemma_lex_words_nonempty(s, i + 1, word, Some(c));
                } else if is_unicode_ws(c) || c == '|' || c == '>' || c == '&' || c == ';' || c
                    == '<' {
                    lemma_lex_words_nonempty(s, i + 1, e, None);
                    if i + 2 <= s.len() {
                        lemma_lex_words_nonempty(s, i + 2, e, None);
                    }
                } else {
                    lemma_lex_words_nonempty(s, i + 1, word.push(c), None);
                }
            },
        }
    }
}


/// Inside an open quote everything up to the matching closing quote is added
/// to the word as it stands.
pub proof fn lemma_lex_in_quote(s: Seq<char>, i: int, j: int, word: Seq<char>, q: char)
    requires
        0 <= i <= j < s.len(),
        s[j] == q,
        forall|k: int| i <= k < j ==> s[k] != q,
        forall|k: int| i <= k < j && q == '"' && #[trigger] s[k] == '\\' ==> k + 1 < j && s[k + 1] != '\\',
    ensures
        lex_from(s, i, word, Some(q)) == lex_from(s, j + 1, word + s.subrange(i, j), None),
    decreases j - i,
{
    if i == j {
        assert(word + s.subrange(i, j) =~= word);
    } else {
        lemma_lex_in_quote(s, i + 1, j, word.push(s[i]), q);
        assert(word.push(s[i]) + s.subrange(i + 1, j) =~= word + s.subrange(i, j));
    }
}

/// A quoted string is one word, whatever it holds (spaces, `|`, `&&`, `;`,
/// redirections, the other kind of quote, backslashes), as long as it is not
/// empty, does not hold its own quote character and, in double quotes, holds
/// no escape (`\\` or a backslash at its end).
pub proof fn law_quoted_string_is_one_word(q: char, w: Seq<char>)
    requires
        is_quote(q),
        w.len() > 0,
        forall|k: int| 0 <= k < w.len() ==> w[k] != q,
        forall|k: int| 0 <= k < w.len() && q == '"' && #[trigger] w[k] == '\\' ==> k + 1 < w.len() && w[k + 1] != '\\',
    ensures
        spec_tokenize(seq![q] + w + seq![q]) == seq![SpecToken::Word(w)],
{
    let s = seq![q] + w + seq![q];
    let n = w.len() as int;
    assert(s[0] == q);
    assert(s[n + 1] == q);
    assert forall|k: int| 1 <= k < n + 1 implies s[k] != q by {
        assert(s[k] == w[k - 1]);
    }
    assert forall|k: int| 1 <= k < n + 1 && q == '"' && #[trigger] s[k] == '\\' implies k + 1 < n + 1 && s[k + 1] != '\\' by {
        assert(s[k] == w[k - 1]);
        assert(s[k + 1] == w[k]);
    }
    lemma_lex_in_quote(s, 1, n + 1, Seq::empty(), q);
    assert(Seq::<char>::empty() + s.subrange(1, n + 1) =~= w);
}


/// Outside quotes and between words, whitespace only separates: a run of
/// whitespace of any length gives the same tokens as none.
pub proof fn law_whitespace_run_separates(s: Seq<char>, i: int, j: int)
    requires
        0 <= i <= j <= s.len(),
        forall|k: int| i <= k < j ==> is_unicode_ws(#[trigger] s[k]),
    ensures
        lex_from(s, i, Seq::empty(), None) == lex_from(s, j, Seq::empty(), None),
    decreases j - i,
{
    if i < j {
        assert(is_unicode_ws(s[i]));
        assert(flushed(Seq::<char>::empty()) =~= Seq::<SpecToken>::empty());
        assert(lex_from(s, i, Seq::empty(), None) =~= lex_from(s, i + 1, Seq::empty(), None));
        law_whitespace_run_separates(s, i + 1, j);
    }
}


proof fn lemma_push_avoids(word: Seq<char>, d: char, c: char, s: Seq<char>, k: int)
    requires
        !word.contains(c),
        !s.contains(c),
        0 <= k < s.len(),
        s[k] == d,
    ensures
        !word.push(d).contains(c),
{
    if word.push(d).contains(c) {
        let m = choose|m: int| 0 <= m < word.push(d).len() && word.push(d)[m] == c;
        if m < word.len() {
            assert(word[m] == c);
        }
    }
}

/// A word holds no character that is neither in the line nor in the word read
/// so far; in particular, a line without `c` gives words without `c`.
pub proof fn lemma_lex_words_avoid(s: Seq<char>, i: int, word: Seq<char>, quote: Option<char>, c: char)
    requires
        !s.contains(c),
        !word.contains(c),
    ensures
        forall|k: int|
            0 <= k < lex_from(s, i, word, quote).len() ==> (#[trigger] lex_from(
                s,
                i,
                word,
                quote,
            )[k] matches SpecToken::Word(w) ==> !w.contains(c)),
    decreases s.len() - i,
{
    if 0 <= i < s.len() {
        let d = s[i];
        let e = Seq::<char>::empty();
        lemma_push_avoids(word, d, c, s, i);
        match quote {
            Some(q) => if d == q {
                lemma_lex_words_avoid(s, i + 1, word, None, c);
            } else if q == '"' && d == '\\' && (next_is(s, i, '"') || next_is(s, i, '\\')) {
                lemma_push_avoids(word, s[i + 1], c, s, i + 1);
                lemma_lex_words_avoid(s, i + 2, word.push(s[i + 1]), quote, c);
            } else {
                lemma_lex_words_avoid(s, i + 1, word.push(d), quote, c);
            },
            None => {
                if d == '\\' {
                    if i + 1 < s.len() {
                        lemma_push_avoids(word, s[i + 1], c, s, i + 1);
                        lemma_lex_words_avoid(s, i + 2, word.push(s[i + 1]), None, c);
                    } else {
                        lemma_lex_words_avoid(s, i + 1, word.push(d), None, c);
                    }
                } else if is_quote(d) {
                    lemma_lex_words_avoid(s, i + 1, word, Some(d), c);
                } else if is_unicode_ws(d) || d == '|' || d == '>' || d == '&' || d == ';' || d
                    == '<' {
                    lemma_lex_words_avoid(s, i + 1, e, None, c);
                    if i + 2 <= s.len() {
                        lemma_lex_words_avoid(s, i + 2, e, None, c);
                    }
                } else {
                    lemma_lex_words_avoid(s, i + 1, word.push(d), None, c);
                }
            },
        }
    }
}


/// Outside quotes a backslash makes the character after it part of the word,
/// whatever it is: it neither ends the word nor becomes an operator.
pub proof fn law_backslash_escapes_next_char(s: Seq<char>, i: int, word: Seq<char>)
    requires
        0 <= i,
        i + 1 < s.len(),
        s[i] == '\\',
    ensures
        lex_from(s, i, word, None) == lex_from(s, i + 2, word.push(s[i + 1]), None),
{
}

/// Lexing is the same on `b` as on the end of a longer line that ends with `b`.
pub proof fn lemma_lex_shift(s: Seq<char>, b: Seq<char>, off: int, k: int, word: Seq<char>, quote: Option<char>)
    requires
        0 <= off,
        s.len() == off + b.len(),
        forall|j: int| 0 <= j < b.len() ==> s[off + j] == #[trigger] b[j],
        0 <= k <= b.len(),
    ensures
        lex_from(s, off + k, word, quote) == lex_from(b, k, word, quote),
    decreases b.len() - k,
{
    if k < b.len() {
        let c = b[k];
        let e = Seq::<char>::empty();
        assert(s[off + k] == c);
        if k + 1 < b.len() {
            assert(s[off + k + 1] == b[k + 1]);
        }
        assert(next_is(s, off + k, '|') == next_is(b, k, '|'));
        assert(next_is(s, off + k, '>') == next_is(b, k, '>'));
        assert(next_is(s, off + k, '&') == next_is(b, k, '&'));
        assert(next_is(s, off + k, '"') == next_is(b, k, '"'));
        assert(next_is(s, off + k, '\\') == next_is(b, k, '\\'));
        lemma_lex_shift(s, b, off, k + 1, word, None);
        lemma_lex_shift(s, b, off, k + 1, word, Some(c));
        lemma_lex_shift(s, b, off, k + 1, word.push(c), quote);
        lemma_lex_shift(s, b, off, k + 1, word.push(c), None);
        lemma_lex_shift(s, b, off, k + 1, e, None);
        if k + 2 <= b.len() {
            lemma_lex_shift(s, b, off, k + 2, word.push(b[k + 1]), quote);
            lemma_lex_shift(s, b, off, k + 2, word.push(b[k + 1]), None);
            lemma_lex_shift(s, b, off, k + 2, e, None);
        }
    }
}

/// True when lexing `s` from position `i`, with `quote` open, ends with a
/// quote still open or with a backslash outside quotes as the last character,
/// which a following character would be escaped by.
pub open spec fn ends_open(s: Seq<char>, i: int, quote: Option<char>) -> bool
    decreases s.len() - i,
{
    if i < 0 || i >= s.len() {
        quote is Some
    } else {
        let c = s[i];
        match quote {
            Some(q) => if c == q {
                ends_open(s, i + 1, None)
            } else if q == '"' && c == '\\' && (next_is(s, i, '"') || next_is(s, i, '\\')) {
                ends_open(s, i + 2, quote)
            } else {
                ends_open(s, i + 1, quote)
            },
            None => if c == '\\' {
                if i + 1 < s.len() {
                    ends_open(s, i + 2, None)
                } else {
                    true
                }
            } else if is_quote(c) {
                ends_open(s, i + 1, Some(c))
            } else {
                ends_open(s, i + 1, None)
            },
        }
    }
}

/// `sep` is spelled as the tokens `t`, and `b` does not start with a
/// character that would lengthen it into another operator.
pub open spec fn separator(sep: Seq<char>, t: Seq<SpecToken>, b: Seq<char>) -> bool {
    ||| sep.len() == 1 && is_unicode_ws(sep[0]) && t == Seq::<SpecToken>::empty()
    ||| sep == seq![';'] && t == seq![SpecToken::Semicolon]
    ||| sep == seq!['<'] && t == seq![SpecToken::RedirectIn]
    ||| sep == seq!['|'] && t == seq![SpecToken::Pipe] && (b.len() == 0 || b[0] != '|')
    ||| sep == seq!['>'] && t == seq![SpecToken::RedirectOut] && (b.len() == 0 || b[0] != '>')
    ||| sep == seq!['|', '|'] && t == seq![SpecToken::Or]
    ||| sep == seq!['>', '>'] && t == seq![SpecToken::Append]
    ||| sep == seq!['&', '&'] && t == seq![SpecToken::And]
}

/// The last character of `a` does not join the first of `sep` into a longer
/// operator.
pub open spec fn no_joining_operator(a: Seq<char>, sep: Seq<char>) -> bool {
    (sep[0] == '|' || sep[0] == '>' || sep[0] == '&') ==> (a.len() == 0 || a.last() != sep[0])
}

proof fn lemma_lex_concat(
    a: Seq<char>,
    sep: Seq<char>,
    t: Seq<SpecToken>,
    b: Seq<char>,
    i: int,
    word: Seq<char>,
    quote: Option<char>,
)
    requires
        separator(sep, t, b),
        no_joining_operator(a, sep),
        0 <= i <= a.len(),
        !ends_open(a, i, quote),
    ensures
        lex_from(a + sep + b, i, word, quote) == lex_from(a, i, word, quote) + (t + lex_from(
            a + sep + b,
            (a.len() + sep.len()) as int,
            Seq::empty(),
            None,
        )),
    decreases a.len() - i,
{
    let s = a + sep + b;
    let e = Seq::<char>::empty();
    let r = t + lex_from(s, (a.len() + sep.len()) as int, e, None);
    let n = a.len() as int;
    assert(s[n] == sep[0]);
    if sep.len() == 2 {
        assert(s[n + 1] == sep[1]);
    } else if b.len() > 0 {
        assert(s[n + 1] == b[0]);
    }
    if i == a.len() {
        assert(quote is None);
        assert(flushed(word) + r =~= flushed(word) + t + lex_from(s, (a.len() + sep.len()) as int, e, None));
        assert(lex_from(s, i, word, quote) == flushed(word) + r);
    } else {
        let c = a[i];
        assert(s[i] == c);
        if i + 1 < a.len() {
            assert(s[i + 1] == a[i + 1]);
        }
        assert(c == '|' ==> next_is(s, i, '|') == next_is(a, i, '|'));
        assert(c == '>' ==> next_is(s, i, '>') == next_is(a, i, '>'));
        assert(c == '&' ==> next_is(s, i, '&') == next_is(a, i, '&'));
        assert(next_is(s, i, '"') == next_is(a, i, '"'));
        assert(next_is(s, i, '\\') == next_is(a, i, '\\'));
        match quote {
            Some(q) => {
                if c == q {
                    lemma_lex_concat(a, sep, t, b, i + 1, word, None);
                } else if q == '"' && c == '\\' && (next_is(a, i, '"') || next_is(a, i, '\\')) {
                    lemma_lex_concat(a, sep, t, b, i + 2, word.push(a[i + 1]), quote);
                } else {
                    lemma_lex_concat(a, sep, t, b, i + 1, word.push(c), quote);
                }
            },
            None => {
                if c == '\\' {
                    lemma_lex_concat(a, sep, t, b, i + 2, word.push(a[i + 1]), None);
                } else if is_quote(c) {
                    lemma_lex_concat(a, sep, t, b, i + 1, word, Some(c));
                } else if is_unicode_ws(c) || c == ';' || c == '<' || (c == '|' && !next_is(a, i, '|'))
                    || (c == '>' && !next_is(a, i, '>')) || (c == '&' && !next_is(a, i, '&')) {
                    lemma_lex_concat(a, sep, t, b, i + 1, e, None);
                } else if c == '|' || c == '>' || c == '&' {
                    assert(!ends_open(a, i + 1, None));
                    assert(!ends_open(a, i + 2, None));
                    lemma_lex_concat(a, sep, t, b, i + 2, e, None);
                } else {
                    lemma_lex_concat(a, sep, t, b, i + 1, word.push(c), None);
                }
                let f = flushed(word);
                if i + 1 <= a.len() {
                    assert(f + (lex_from(a, i + 1, e, None) + r) =~= (f + lex_from(a, i + 1, e, None)) + r);
                    assert(f + seq![SpecToken::Pipe] + (lex_from(a, i + 1, e, None) + r) =~= (f + seq![SpecToken::Pipe] + lex_from(a, i + 1, e, None)) + r);
                    assert(f + seq![SpecToken::RedirectOut] + (lex_from(a, i + 1, e, None) + r) =~= (f + seq![SpecToken::RedirectOut] + lex_from(a, i + 1, e, None)) + r);
                    assert(f + seq![SpecToken::Semicolon] + (lex_from(a, i + 1, e, None) + r) =~= (f + seq![SpecToken::Semicolon] + lex_from(a, i + 1, e, None)) + r);
                    assert(f + seq![SpecToken::RedirectIn] + (lex_from(a, i + 1, e, None) + r) =~= (f + seq![SpecToken::RedirectIn] + lex_from(a, i + 1, e, None)) + r);
                }
                if i + 2 <= a.len() {
                    assert(f + seq![SpecToken::Or] + (lex_from(a, i + 2, e, None) + r) =~= (f + seq![SpecToken::Or] + lex_from(a, i + 2, e, None)) + r);
                    assert(f + seq![SpecToken::Append] + (lex_from(a, i + 2, e, None) + r) =~= (f + seq![SpecToken::Append] + lex_from(a, i + 2, e, None)) + r);
                    assert(f + seq![SpecToken::And] + (lex_from(a, i + 2, e, None) + r) =~= (f + seq![SpecToken::And] + lex_from(a, i + 2, e, None)) + r);
                }
            },
        }
    }
}

proof fn lemma_tokenize_join(a: Seq<char>, sep: Seq<char>, t: Seq<SpecToken>, b: Seq<char>)
    requires
        separator(sep, t, b),
        no_joining_operator(a, sep),
        !ends_open(a, 0, None),
    ensures
        spec_tokenize(a + sep + b) == spec_tokenize(a) + t + spec_tokenize(b),
{
    let s = a + sep + b;
    lemma_lex_concat(a, sep, t, b, 0, Seq::empty(), None);
    let off = (a.len() + sep.len()) as int;
    assert forall|j: int| 0 <= j < b.len() implies s[off + j] == #[trigger] b[j] by {}
    lemma_lex_shift(s, b, off, 0, Seq::empty(), None);
    assert(spec_tokenize(a) + (t + spec_tokenize(b)) =~= spec_tokenize(a) + t + spec_tokenize(b));
}

/// Joining two lines with whitespace joins their tokens, when lexing the first
/// line leaves no quote open and does not end in a backslash that would
/// escape the whitespace.
pub proof fn law_tokenize_concat(a: Seq<char>, b: Seq<char>)
    requires
        !ends_open(a, 0, None),
    ensures
        spec_tokenize(a + seq![' '] + b) == spec_tokenize(a) + spec_tokenize(b),
        forall|c: char| is_unicode_ws(c) ==> spec_tokenize(a + seq![c] + b) == spec_tokenize(a) + spec_tokenize(b),
{
    assert forall|c: char| is_unicode_ws(c) implies spec_tokenize(a + seq![c] + b) == spec_tokenize(a) + spec_tokenize(b) by {
        lemma_tokenize_join(a, seq![c], Seq::empty(), b);
        assert(spec_tokenize(a) + Seq::<SpecToken>::empty() =~= spec_tokenize(a));
    }
    assert(is_unicode_ws(' '));
}

/// An operator outside quotes always separates: it ends the word before it,
/// whatever that word is, and stands as its own token between the tokens of
/// the text before it and those of the text after it. This holds when lexing
/// the text before leaves no quote or escape open, and no neighbouring `|`,
/// `>` or `&` joins with the operator into a longer one.
pub proof fn law_operator_separates(a: Seq<char>, op: Seq<char>, b: Seq<char>)
    requires
        !ends_open(a, 0, None),
        op.len() > 0,
        no_joining_operator(a, op),
        (op == seq!['|'] || op == seq!['>']) ==> (b.len() == 0 || b[0] != op[0]),
    ensures
        op == seq![';'] ==> spec_tokenize(a + op + b) == spec_tokenize(a) + seq![SpecToken::Semicolon] + spec_tokenize(b),
        op == seq!['<'] ==> spec_tokenize(a + op + b) == spec_tokenize(a) + seq![SpecToken::RedirectIn] + spec_tokenize(b),
        op == seq!['|'] ==> spec_tokenize(a + op + b) == spec_tokenize(a) + seq![SpecToken::Pipe] + spec_tokenize(b),
        op == seq!['>'] ==> spec_tokenize(a + op + b) == spec_tokenize(a) + seq![SpecToken::RedirectOut] + spec_tokenize(b),
        op == seq!['|', '|'] ==> spec_tokenize(a + op + b) == spec_tokenize(a) + seq![SpecToken::Or] + spec_tokenize(b),
        op == seq!['>', '>'] ==> spec_tokenize(a + op + b) == spec_tokenize(a) + seq![SpecToken::Append] + spec_tokenize(b),
        op == seq!['&', '&'] ==> spec_tokenize(a + op + b) == spec_tokenize(a) + seq![SpecToken::And] + spec_tokenize(b),
{
    if op == seq![';'] {
        lemma_tokenize_join(a, op, seq![SpecToken::Semicolon], b);
    } else if op == seq!['<'] {
        lemma_tokenize_join(a, op, seq![SpecToken::RedirectIn], b);
    } else if op == seq!['|'] {
        lemma_tokenize_join(a, op, seq![SpecToken::Pipe], b);
    } else if op == seq!['>'] {
        lemma_tokenize_join(a, op, seq![SpecToken::RedirectOut], b);
    } else if op == seq!['|', '|'] {
        lemma_tokenize_join(a, op, seq![SpecToken::Or], b);
    } else if op == seq!['>', '>'] {
        lemma_tokenize_join(a, op, seq![SpecToken::Append], b);
    } else if op == seq!['&', '&'] {
        lemma_tokenize_join(a, op, seq![SpecToken::And], b);
    }
}


/// The characters with a meaning of their own outside words: quotes, the
/// backslash and the operator characters.
pub open spec fn is_special(c: char) -> bool {
    is_quote(c) || c == '\\' || c == '|' || c == '&' || c == ';' || c == '<' || c == '>'
}

/// The words of `s` from position `i` on, `word` being the word read so far,
/// when words are separated by runs of whitespace.
pub open spec fn words_from(s: Seq<char>, i: int, word: Seq<char>) -> Seq<Seq<char>>
    decreases s.len() - i,
{
    let done = if word.len() == 0 {
        Seq::<Seq<char>>::empty()
    } else {
        seq![word]
    };
    if i < 0 || i >= s.len() {
        done
    } else if is_unicode_ws(s[i]) {
        done + words_from(s, i + 1, Seq::empty())
    } else {
        words_from(s, i + 1, word.push(s[i]))
    }
}

/// The non-empty parts of `s` between runs of whitespace, as
/// `str::split_whitespace` gives them.
pub open spec fn split_whitespace(s: Seq<char>) -> Seq<Seq<char>> {
    words_from(s, 0, Seq::empty())
}

pub open spec fn words_as_tokens(ws: Seq<Seq<char>>) -> Seq<SpecToken> {
    ws.map_values(|w: Seq<char>| SpecToken::Word(w))
}

proof fn lemma_lex_plain_words(s: Seq<char>, i: int, word: Seq<char>)
    requires
        forall|j: int| 0 <= j < s.len() ==> !is_special(#[trigger] s[j]),
    ensures
        lex_from(s, i, word, None) == words_as_tokens(words_from(s, i, word)),
    decreases s.len() - i,
{
    let done = if word.len() == 0 {
        Seq::<Seq<char>>::empty()
    } else {
        seq![word]
    };
    assert(words_as_tokens(done) =~= flushed(word));
    if 0 <= i < s.len() {
        assert(!is_special(s[i]));
        lemma_lex_plain_words(s, i + 1, Seq::empty());
        lemma_lex_plain_words(s, i + 1, word.push(s[i]));
        let rest = words_from(s, i + 1, Seq::empty());
        assert(words_as_tokens(done + rest) =~= words_as_tokens(done) + words_as_tokens(rest));
    }
}

/// A line with no quote, backslash or operator character splits into the
/// words that `str::split_whitespace` gives.
pub proof fn law_plain_line_splits_at_whitespace(s: Seq<char>)
    requires
        forall|j: int| 0 <= j < s.len() ==> !is_special(#[trigger] s[j]),
    ensures
        spec_tokenize(s) == words_as_tokens(split_whitespace(s)),
{
    lemma_lex_plain_words(s, 0, Seq::empty());
}

} // verus!
