//! Command classification, chaining and pipeline splitting.

use vstd::prelude::*;
use vstd::string::{StrSliceExecFns, StringExecFns};
use crate::text::{all_whitespace, is_blank, str_equals};
use crate::tokenizer::{
    ends_open, law_operator_separates, lemma_lex_words_avoid, no_joining_operator, spec_tokenize,
    tokenize, tokens_view, SpecToken, Token,
};

verus! {

broadcast use vstd::string::group_string_axioms;

/// What one command line asks for.
#[derive(Debug, PartialEq)]
pub enum ParsedCommand {
    Empty,
    Exit,
    Builtin(SimpleCommand),
    External(SimpleCommand),
    Pipeline(Vec<SimpleCommand>),
}

/// A program name with its arguments and redirections.
#[derive(Debug, PartialEq)]
pub struct SimpleCommand {
    pub name: String,
    pub args: Vec<String>,
    pub stdin_redirect: Option<String>,
    pub stdout_redirect: Option<String>,
    pub append_redirect: Option<String>,
}

/// The operator that joins a command to the one before it.
#[derive(Debug, PartialEq, Eq, Clone, Copy)]
pub enum Operator {
    And,
    Or,
    Then,
}

/// A command together with the operator that joins it to the previous one
/// (`None` for the first command of a line).
#[derive(Debug, PartialEq)]
pub struct ChainedCommand {
    pub command: ParsedCommand,
    pub condition: Option<Operator>,
}

/// The value of a `SimpleCommand`: strings taken as character sequences.
pub struct SpecSimpleCommand {
    pub name: Seq<char>,
    pub args: Seq<Seq<char>>,
    pub stdin_redirect: Option<Seq<char>>,
    pub stdout_redirect: Option<Seq<char>>,
    pub append_redirect: Option<Seq<char>>,
}

/// The value of a `ParsedCommand`.
pub enum SpecParsedCommand {
    Empty,
    Exit,
    Builtin(SpecSimpleCommand),
    External(SpecSimpleCommand),
    Pipeline(Seq<SpecSimpleCommand>),
}

/// The value of a `ChainedCommand`.
pub struct SpecChainedCommand {
    pub command: SpecParsedCommand,
    pub condition: Option<Operator>,
}

pub open spec fn opt_view(o: Option<String>) -> Option<Seq<char>> {
    match o {
        Some(s) => Some(s@),
        None => None,
    }
}

pub open spec fn strings_view(v: Seq<String>) -> Seq<Seq<char>> {
    v.map_values(|s: String| s@)
}

impl View for SimpleCommand {
    type V = SpecSimpleCommand;

    open spec fn view(&self) -> SpecSimpleCommand {
        SpecSimpleCommand {
            name: self.name@,
            args: strings_view(self.args@),
            stdin_redirect: opt_view(self.stdin_redirect),
            stdout_redirect: opt_view(self.stdout_redirect),
            append_redirect: opt_view(self.append_redirect),
        }
    }
}

pub open spec fn simples_view(v: Seq<SimpleCommand>) -> Seq<SpecSimpleCommand> {
    v.map_values(|c: SimpleCommand| c@)
}

impl View for ParsedCommand {
    type V = SpecParsedCommand;

    open spec fn view(&self) -> SpecParsedCommand {
        match self {
            ParsedCommand::Empty => SpecParsedCommand::Empty,
            ParsedCommand::Exit => SpecParsedCommand::Exit,
            ParsedCommand::Builtin(c) => SpecParsedCommand::Builtin(c@),
            ParsedCommand::External(c) => SpecParsedCommand::External(c@),
            ParsedCommand::Pipeline(v) => SpecParsedCommand::Pipeline(simples_view(v@)),
        }
    }
}

impl View for ChainedCommand {
    type V = SpecChainedCommand;

    open spec fn view(&self) -> SpecChainedCommand {
        SpecChainedCommand { command: self.command@, condition: self.condition }
    }
}

pub open spec fn chained_view(v: Seq<ChainedCommand>) -> Seq<SpecChainedCommand> {
    v.map_values(|c: ChainedCommand| c@)
}

// ---------------------------------------------------------------------------
// Tilde expansion and command names
// ---------------------------------------------------------------------------

/// A word `~`, or one that starts with `~/`, has its leading `~` replaced by
/// the home directory; any other word is left as it is.
pub open spec fn spec_expand_tilde(t: Seq<char>, home: Seq<char>) -> Seq<char> {
    if t == seq!['~'] || (t.len() >= 2 && t[0] == '~' && t[1] == '/') {
        home + t.drop_first()
    } else {
        t
    }
}

pub open spec fn exit_name() -> Seq<char> {
    seq!['e', 'x', 'i', 't']
}

/// The names of the commands that the shell runs itself.
pub open spec fn is_builtin_name(name: Seq<char>) -> bool {
    name == seq!['c', 'd'] || name == seq!['p', 'w', 'd']
}

// ---------------------------------------------------------------------------
// A simple command: name, arguments and redirections
// ---------------------------------------------------------------------------

/// A simple command while it is being read: the name is not known until the
/// first word.
pub struct SimpleDraft {
    pub name: Option<Seq<char>>,
    pub args: Seq<Seq<char>>,
    pub stdin_redirect: Option<Seq<char>>,
    pub stdout_redirect: Option<Seq<char>>,
    pub append_redirect: Option<Seq<char>>,
}

pub open spec fn empty_draft() -> SimpleDraft {
    SimpleDraft {
        name: None,
        args: Seq::empty(),
        stdin_redirect: None,
        stdout_redirect: None,
        append_redirect: None,
    }
}

pub open spec fn finish_draft(d: SimpleDraft) -> SpecSimpleCommand {
    SpecSimpleCommand {
        name: match d.name {
            Some(n) => n,
            None => Seq::empty(),
        },
        args: d.args,
        stdin_redirect: d.stdin_redirect,
        stdout_redirect: d.stdout_redirect,
        append_redirect: d.append_redirect,
    }
}

pub open spec fn is_redirect(t: SpecToken) -> bool {
    t is RedirectIn || t is RedirectOut || t is Append
}

/// The tokens that a simple command may hold: words and redirections.
pub open spec fn is_command_token(t: SpecToken) -> bool {
    t is Word || is_redirect(t)
}

/// The path named after the redirection at `i`: the word that follows it, if a
/// word follows it.
pub open spec fn redirect_target(toks: Seq<SpecToken>, i: int) -> Option<Seq<char>> {
    if i + 1 < toks.len() {
        match toks[i + 1] {
            SpecToken::Word(p) => Some(p),
            _ => None,
        }
    } else {
        None
    }
}

/// How many tokens the token at `i` takes: a redirection takes the token after
/// it too, whatever that token is.
pub open spec fn token_width(toks: Seq<SpecToken>, i: int) -> int {
    if is_redirect(toks[i]) && i + 1 < toks.len() {
        2
    } else {
        1
    }
}

/// The draft after the token at `i` (and, for a redirection, its target).
pub open spec fn apply_token(d: SimpleDraft, toks: Seq<SpecToken>, i: int, home: Seq<char>) -> SimpleDraft {
    let target = match redirect_target(toks, i) {
        Some(p) => Some(spec_expand_tilde(p, home)),
        None => None,
    };
    match toks[i] {
        SpecToken::RedirectIn => if target is Some {
            SimpleDraft { stdin_redirect: target, ..d }
        } else {
            d
        },
        SpecToken::RedirectOut => if target is Some {
            SimpleDraft { stdout_redirect: target, ..d }
        } else {
            d
        },
        SpecToken::Append => if target is Some {
            SimpleDraft { append_redirect: target, ..d }
        } else {
            d
        },
        SpecToken::Word(w) => if d.name is None {
            SimpleDraft { name: Some(w), ..d }
        } else {
            SimpleDraft { args: d.args.push(spec_expand_tilde(w, home)), ..d }
        },
        _ => d,
    }
}

/// The simple command that the tokens from position `i` on complete, starting
/// from draft `d`.
pub open spec fn simple_from(toks: Seq<SpecToken>, i: int, d: SimpleDraft, home: Seq<char>) -> SpecSimpleCommand
    decreases toks.len() - i,
{
    if i < 0 || i >= toks.len() {
        finish_draft(d)
    } else {
        simple_from(toks, i + token_width(toks, i), apply_token(d, toks, i, home), home)
    }
}

/// The simple command that a sequence of words and redirections stands for:
/// the first word is the name, the other words are the arguments (with `~`
/// expanded), and each redirection takes the word after it as its path, the
/// last one of each kind winning.
pub open spec fn spec_parse_simple(toks: Seq<SpecToken>, home: Seq<char>) -> SpecSimpleCommand {
    simple_from(toks, 0, empty_draft(), home)
}

/// One command of a line that is not a pipeline.
pub open spec fn spec_parse_single(toks: Seq<SpecToken>, home: Seq<char>) -> SpecParsedCommand {
    let c = spec_parse_simple(toks, home);
    if c.name == exit_name() {
        SpecParsedCommand::Exit
    } else if is_builtin_name(c.name) {
        SpecParsedCommand::Builtin(c)
    } else {
        SpecParsedCommand::External(c)
    }
}

// ---------------------------------------------------------------------------
// Splitting on `|`, `&&`, `||` and `;`
// ---------------------------------------------------------------------------

/// The parts of `toks` between `|` tokens (one more than there are pipes).
pub open spec fn pipe_pieces(toks: Seq<SpecToken>) -> Seq<Seq<SpecToken>>
    decreases toks.len(),
{
    if toks.len() == 0 {
        seq![Seq::empty()]
    } else {
        let prev = pipe_pieces(toks.drop_last());
        if toks.last() is Pipe {
            prev.push(Seq::empty())
        } else {
            prev.update(prev.len() - 1, prev.last().push(toks.last()))
        }
    }
}

/// A segment between chaining operators: one command, or a pipeline of two or
/// more simple commands.
pub open spec fn spec_parse_segment(seg: Seq<SpecToken>, home: Seq<char>) -> SpecParsedCommand {
    let ps = pipe_pieces(seg);
    if ps.len() == 1 {
        spec_parse_single(ps[0], home)
    } else {
        SpecParsedCommand::Pipeline(ps.map_values(|p: Seq<SpecToken>| spec_parse_simple(p, home)))
    }
}

/// The chaining operator that a token stands for, if any.
pub open spec fn op_of(t: SpecToken) -> Option<Operator> {
    match t {
        SpecToken::And => Some(Operator::And),
        SpecToken::Or => Some(Operator::Or),
        SpecToken::Semicolon => Some(Operator::Then),
        _ => None,
    }
}

/// The segments of `toks` between chaining operators, each with the operator
/// before it (`None` for the first).
pub open spec fn chain_pieces(toks: Seq<SpecToken>) -> Seq<(Option<Operator>, Seq<SpecToken>)>
    decreases toks.len(),
{
    if toks.len() == 0 {
        seq![(None, Seq::empty())]
    } else {
        let prev = chain_pieces(toks.drop_last());
        match op_of(toks.last()) {
            Some(o) => prev.push((Some(o), Seq::empty())),
            None => prev.update(prev.len() - 1, (prev.last().0, prev.last().1.push(toks.last()))),
        }
    }
}

pub open spec fn chained_of(p: (Option<Operator>, Seq<SpecToken>), home: Seq<char>) -> SpecChainedCommand {
    SpecChainedCommand { command: spec_parse_segment(p.1, home), condition: p.0 }
}

/// What a whole command line means: a blank line is `Empty`; otherwise one
/// chained command per segment between `&&`, `||` and `;`.
pub open spec fn spec_parse(s: Seq<char>, home: Seq<char>) -> Seq<SpecChainedCommand> {
    if all_whitespace(s) {
        seq![SpecChainedCommand { command: SpecParsedCommand::Empty, condition: None }]
    } else {
        chain_pieces(spec_tokenize(s)).map_values(
            |p: (Option<Operator>, Seq<SpecToken>)| chained_of(p, home),
        )
    }
}

// ---------------------------------------------------------------------------
// Executable parser
// ---------------------------------------------------------------------------

/// Replaces a leading `~` of `token` by `home` when the token is `~` or starts
/// with `~/`.
fn expand_tilde(token: String, home: &str) -> (r: String)
    ensures
        r@ == spec_expand_tilde(token@, home@),
{
    let t = token.as_str();
    let n = t.unicode_len();
    if (n == 1 && t.get_char(0) == '~') || (n >= 2 && t.get_char(0) == '~' && t.get_char(1) == '/') {
        proof {
            if n == 1 {
                assert(t@ =~= seq!['~']);
            }
        }
        let rest = t.substring_char(1, n);
        let mut r = String::from_str(home);
        r.append(rest);
        assert(rest@ =~= token@.drop_first());
        r
    } else {
        proof {
            if token@ == seq!['~'] {
                assert(token@[0] == '~');
            }
        }
        token
    }
}

/// True for the names of the commands that the shell runs itself.
fn is_builtin(cmd: &str) -> (b: bool)
    ensures
        b == is_builtin_name(cmd@),
{
    proof {
        reveal_strlit("cd");
        reveal_strlit("pwd");
        assert("cd"@ =~= seq!['c', 'd']);
        assert("pwd"@ =~= seq!['p', 'w', 'd']);
    }
    str_equals(cmd, "cd") || str_equals(cmd, "pwd")
}


/// The draft that the executable state of `parse_simple_command` stands for.
pub open spec fn draft_of(
    name: Option<String>,
    args: Seq<String>,
    stdin_redirect: Option<String>,
    stdout_redirect: Option<String>,
    append_redirect: Option<String>,
) -> SimpleDraft {
    SimpleDraft {
        name: opt_view(name),
        args: strings_view(args),
        stdin_redirect: opt_view(stdin_redirect),
        stdout_redirect: opt_view(stdout_redirect),
        append_redirect: opt_view(append_redirect),
    }
}

/// Reads a name, its arguments and its redirections from words and
/// redirection tokens.
fn parse_simple_command(tokens: &[Token], home: &str) -> (c: SimpleCommand)
    requires
        forall|k: int| 0 <= k < tokens@.len() ==> is_command_token(#[trigger] tokens@[k]@),
    ensures
        c@ == spec_parse_simple(tokens_view(tokens@), home@),
{
    let ghost tv = tokens_view(tokens@);
    let mut name: Option<String> = None;
    let mut args: Vec<String> = Vec::new();
    let mut stdin_redirect: Option<String> = None;
    let mut stdout_redirect: Option<String> = None;
    let mut append_redirect: Option<String> = None;
    let n = tokens.len();
    let mut i: usize = 0;
    assert(strings_view(args@) =~= Seq::<Seq<char>>::empty());
    assert(draft_of(name, args@, stdin_redirect, stdout_redirect, append_redirect) == empty_draft());
    while i < n
        invariant
            n == tokens@.len(),
            tv == tokens_view(tokens@),
            i <= n,
            forall|k: int| 0 <= k < tokens@.len() ==> is_command_token(#[trigger] tokens@[k]@),
            simple_from(tv, i as int, draft_of(name, args@, stdin_redirect, stdout_redirect, append_redirect), home@)
                == spec_parse_simple(tv, home@),
        decreases n - i,
    {
        let ghost d = draft_of(name, args@, stdin_redirect, stdout_redirect, append_redirect);
        let ghost old_i = i as int;
        assert(tv[i as int] == tokens@[i as int]@);
        proof {
            if i + 1 < n {
                assert(tv[i + 1] == tokens@[i + 1]@);
            }
        }
        match &tokens[i] {
            Token::RedirectIn => {
                if i + 1 < n {
                    if let Token::Word(path) = &tokens[i + 1] {
                        stdin_redirect = Some(expand_tilde(path.clone(), home));
                    }
                    i = i + 2;
                } else {
                    i = i + 1;
                }
            },
            Token::RedirectOut => {
                if i + 1 < n {
                    if let Token::Word(path) = &tokens[i + 1] {
                        stdout_redirect = Some(expand_tilde(path.clone(), home));
                    }
                    i = i + 2;
                } else {
                    i = i + 1;
                }
            },
            Token::Append => {
                if i + 1 < n {
                    if let Token::Word(path) = &tokens[i + 1] {
                        append_redirect = Some(expand_tilde(path.clone(), home));
                    }
                    i = i + 2;
                } else {
                    i = i + 1;
                }
            },
            Token::Word(w) => {
                if name.is_none() {
                    name = Some(w.clone());
                } else {
                    let ghost before = args@;
                    args.push(expand_tilde(w.clone(), home));
                    assert(strings_view(args@) =~= strings_view(before).push(args@.last()@));
                }
                i = i + 1;
            },
            _ => {
                assert(false);
                i = i + 1;
            },
        }
        assert(i == old_i + token_width(tv, old_i));
        assert(draft_of(name, args@, stdin_redirect, stdout_redirect, append_redirect)
            == apply_token(d, tv, old_i, home@));
    }
    let name = match name {
        Some(n) => n,
        None => String::new(),
    };
    SimpleCommand { name, args, stdin_redirect, stdout_redirect, append_redirect }
}


/// Tells a single command apart: `exit`, a builtin, or an external program.
fn parse_single_command(tokens: &[Token], home: &str) -> (c: ParsedCommand)
    requires
        forall|k: int| 0 <= k < tokens@.len() ==> is_command_token(#[trigger] tokens@[k]@),
    ensures
        c@ == spec_parse_single(tokens_view(tokens@), home@),
{
    let cmd = parse_simple_command(tokens, home);
    proof {
        reveal_strlit("exit");
        assert("exit"@ =~= exit_name());
    }
    if str_equals(cmd.name.as_str(), "exit") {
        ParsedCommand::Exit
    } else if is_builtin(cmd.name.as_str()) {
        ParsedCommand::Builtin(cmd)
    } else {
        ParsedCommand::External(cmd)
    }
}

/// Parses the tokens between chaining operators: one command, or a pipeline
/// when the tokens hold a `|`.
fn parse_segment(segment: Vec<Token>, home: &str) -> (c: ParsedCommand)
    requires
        forall|k: int| 0 <= k < segment@.len() ==> (#[trigger] segment@[k]@ is Pipe
            || is_command_token(segment@[k]@)),
    ensures
        c@ == spec_parse_segment(tokens_view(segment@), home@),
{
    let ghost tv = tokens_view(segment@);
    let n = segment.len();
    let mut done: Vec<Vec<Token>> = Vec::new();
    let mut current: Vec<Token> = Vec::new();
    let mut i: usize = 0;
    assert(tv.take(0) =~= Seq::<SpecToken>::empty());
    assert(tokens_view(current@) =~= Seq::<SpecToken>::empty());
    while i < n
        invariant
            n == segment@.len(),
            tv == tokens_view(segment@),
            i <= n,
            forall|k: int| 0 <= k < segment@.len() ==> (#[trigger] segment@[k]@ is Pipe
                || is_command_token(segment@[k]@)),
            done@.len() + 1 == pipe_pieces(tv.take(i as int)).len(),
            forall|j: int| 0 <= j < done@.len() ==> tokens_view(#[trigger] done@[j]@) == pipe_pieces(tv.take(i as int))[j],
            tokens_view(current@) == pipe_pieces(tv.take(i as int))[done@.len() as int],
            forall|j: int, k: int| 0 <= j < done@.len() && 0 <= k < done@[j]@.len() ==> is_command_token(#[trigger] done@[j]@[k]@),
            forall|k: int| 0 <= k < current@.len() ==> is_command_token(#[trigger] current@[k]@),
        decreases n - i,
    {
        let ghost prev = pipe_pieces(tv.take(i as int));
        assert(tv.take(i + 1).drop_last() =~= tv.take(i as int));
        assert(tv.take(i + 1).last() == segment@[i as int]@);
        let t = segment[i].clone();
        if let Token::Pipe = t {
            let ghost old_done = done@;
            done.push(current);
            current = Vec::new();
            assert(tokens_view(current@) =~= Seq::<SpecToken>::empty());
            assert forall|j: int| 0 <= j < done@.len() implies tokens_view(#[trigger] done@[j]@) == pipe_pieces(tv.take(i + 1))[j] by {
                if j < old_done.len() {
                    assert(done@[j] == old_done[j]);
                }
            }
        } else {
            let ghost old_cur = tokens_view(current@);
            current.push(t);
            assert(tokens_view(current@) =~= old_cur.push(t@));
        }
        i = i + 1;
    }
    assert(tv.take(n as int) =~= tv);
    let ghost ps = pipe_pieces(tv);
    if done.len() == 0 {
        parse_single_command(current.as_slice(), home)
    } else {
        done.push(current);
        let m = done.len();
        let mut cmds: Vec<SimpleCommand> = Vec::new();
        let mut j: usize = 0;
        while j < m
            invariant
                m == done@.len(),
                m == ps.len(),
                j <= m,
                cmds@.len() == j,
                forall|q: int| 0 <= q < m ==> tokens_view(#[trigger] done@[q]@) == ps[q],
                forall|q: int, k: int| 0 <= q < done@.len() && 0 <= k < done@[q]@.len() ==> is_command_token(#[trigger] done@[q]@[k]@),
                forall|q: int| 0 <= q < j ==> (#[trigger] cmds@[q])@ == spec_parse_simple(ps[q], home@),
            decreases m - j,
        {
            let c = parse_simple_command(done[j].as_slice(), home);
            cmds.push(c);
            j = j + 1;
        }
        assert(simples_view(cmds@) =~= ps.map_values(|p: Seq<SpecToken>| spec_parse_simple(p, home@)));
        ParsedCommand::Pipeline(cmds)
    }
}


/// Parses a command line. `home` is the home directory that `~` stands for.
///
/// A blank line gives one `Empty` command. Otherwise the line is split into
/// tokens, the tokens into segments at `&&`, `||` and `;`, and each segment
/// becomes one chained command: the first with no condition, each later one
/// with the operator before it.
pub fn parse(input: &str, home: &str) -> (result: Vec<ChainedCommand>)
    ensures
        chained_view(result@) == spec_parse(input@, home@),
{
    if is_blank(input) {
        let mut v: Vec<ChainedCommand> = Vec::new();
        v.push(ChainedCommand { command: ParsedCommand::Empty, condition: None });
        assert(chained_view(v@) =~= spec_parse(input@, home@));
        return v;
    }
    let tokens = tokenize(input);
    let ghost tv = tokens_view(tokens@);
    let n = tokens.len();
    let mut result: Vec<ChainedCommand> = Vec::new();
    let mut current_segment: Vec<Token> = Vec::new();
    let mut current_condition: Option<Operator> = None;
    let mut i: usize = 0;
    assert(tv.take(0) =~= Seq::<SpecToken>::empty());
    assert(tokens_view(current_segment@) =~= Seq::<SpecToken>::empty());
    while i < n
        invariant
            n == tokens@.len(),
            tv == tokens_view(tokens@),
            i <= n,
            result@.len() + 1 == chain_pieces(tv.take(i as int)).len(),
            forall|j: int| 0 <= j < result@.len() ==> (#[trigger] result@[j])@ == chained_of(chain_pieces(tv.take(i as int))[j], home@),
            tokens_view(current_segment@) == chain_pieces(tv.take(i as int))[result@.len() as int].1,
            current_condition == chain_pieces(tv.take(i as int))[result@.len() as int].0,
            forall|k: int| 0 <= k < current_segment@.len() ==> op_of(#[trigger] current_segment@[k]@) is None,
        decreases n - i,
    {
        assert(tv.take(i + 1).drop_last() =~= tv.take(i as int));
        assert(tv.take(i + 1).last() == tokens@[i as int]@);
        let ghost old_result = result@;
        match &tokens[i] {
            Token::And | Token::Or | Token::Semicolon => {
                proof {
                    assert forall|k: int| 0 <= k < current_segment@.len() implies (#[trigger] current_segment@[k]@ is Pipe
                        || is_command_token(current_segment@[k]@)) by {
                        assert(op_of(current_segment@[k]@) is None);
                    }
                }
                let parsed_command = parse_segment(current_segment, home);
                result.push(ChainedCommand { command: parsed_command, condition: current_condition });
                current_condition = match &tokens[i] {
                    Token::And => Some(Operator::And),
                    Token::Or => Some(Operator::Or),
                    _ => Some(Operator::Then),
                };
                current_segment = Vec::new();
                assert(tokens_view(current_segment@) =~= Seq::<SpecToken>::empty());
                assert forall|j: int| 0 <= j < result@.len() implies (#[trigger] result@[j])@ == chained_of(chain_pieces(tv.take(i + 1))[j], home@) by {
                    if j < old_result.len() {
                        assert(result@[j] == old_result[j]);
                    }
                }
            },
            _ => {
                let ghost old_seg = tokens_view(current_segment@);
                let t = tokens[i].clone();
                current_segment.push(t);
                assert(tokens_view(current_segment@) =~= old_seg.push(tokens@[i as int]@));
            },
        }
        i = i + 1;
    }
    assert(tv.take(n as int) =~= tv);
    proof {
        assert forall|k: int| 0 <= k < current_segment@.len() implies (#[trigger] current_segment@[k]@ is Pipe
            || is_command_token(current_segment@[k]@)) by {
            assert(op_of(current_segment@[k]@) is None);
        }
    }
    let ghost old_result = result@;
    let command = parse_segment(current_segment, home);
    result.push(ChainedCommand { condition: current_condition, command });
    assert forall|j: int| 0 <= j < result@.len() implies (#[trigger] result@[j])@ == chained_of(chain_pieces(tv)[j], home@) by {
        if j < old_result.len() {
            assert(result@[j] == old_result[j]);
        }
    }
    assert(chained_view(result@) =~= spec_parse(input@, home@));
    result
}


// ---------------------------------------------------------------------------
// Laws
// ---------------------------------------------------------------------------

/// The number of chaining operators (`&&`, `||`, `;`) among `toks`.
pub open spec fn count_ops(toks: Seq<SpecToken>) -> nat
    decreases toks.len(),
{
    if toks.len() == 0 {
        0
    } else {
        count_ops(toks.drop_last()) + if op_of(toks.last()) is Some {
            1nat
        } else {
            0nat
        }
    }
}

/// The number of `|` tokens among `toks`.
pub open spec fn count_pipes(toks: Seq<SpecToken>) -> nat
    decreases toks.len(),
{
    if toks.len() == 0 {
        0
    } else {
        count_pipes(toks.drop_last()) + if toks.last() is Pipe {
            1nat
        } else {
            0nat
        }
    }
}

/// Splitting at chaining operators gives one segment more than there are
/// operators; the first segment has no operator before it, every later one
/// has one; and no segment holds an operator.
pub proof fn lemma_chain_pieces_shape(toks: Seq<SpecToken>)
    ensures
        chain_pieces(toks).len() == count_ops(toks) + 1,
        chain_pieces(toks)[0].0 is None,
        forall|j: int| 1 <= j < chain_pieces(toks).len() ==> (#[trigger] chain_pieces(toks)[j]).0 is Some,
        forall|j: int, k: int|
            0 <= j < chain_pieces(toks).len() && 0 <= k < chain_pieces(toks)[j].1.len()
                ==> op_of(#[trigger] chain_pieces(toks)[j].1[k]) is None,
    decreases toks.len(),
{
    if toks.len() > 0 {
        let prev = chain_pieces(toks.drop_last());
        lemma_chain_pieces_shape(toks.drop_last());
        let cur = chain_pieces(toks);
        match op_of(toks.last()) {
            Some(o) => {
                assert forall|j: int, k: int|
                    0 <= j < cur.len() && 0 <= k < cur[j].1.len() implies op_of(#[trigger] cur[j].1[k]) is None by {
                    assert(cur[j] == prev[j]);
                }
            },
            None => {
                assert forall|j: int, k: int|
                    0 <= j < cur.len() && 0 <= k < cur[j].1.len() implies op_of(#[trigger] cur[j].1[k]) is None by {
                    if j < prev.len() - 1 {
                        assert(cur[j] == prev[j]);
                    } else if k < prev.last().1.len() {
                        assert(cur[j].1[k] == prev.last().1[k]);
                    }
                }
                assert forall|j: int| 1 <= j < cur.len() implies (#[trigger] cur[j]).0 is Some by {
                    if j < prev.len() - 1 {
                        assert(cur[j] == prev[j]);
                    }
                }
            },
        }
    }
}

/// Splitting at `|` gives one piece more than there are pipes, and no piece
/// holds a `|`.
pub proof fn lemma_pipe_pieces_shape(toks: Seq<SpecToken>)
    ensures
        pipe_pieces(toks).len() == count_pipes(toks) + 1,
        forall|j: int, k: int|
            0 <= j < pipe_pieces(toks).len() && 0 <= k < pipe_pieces(toks)[j].len()
                ==> !(#[trigger] pipe_pieces(toks)[j][k] is Pipe),
    decreases toks.len(),
{
    if toks.len() > 0 {
        let prev = pipe_pieces(toks.drop_last());
        lemma_pipe_pieces_shape(toks.drop_last());
        let cur = pipe_pieces(toks);
        assert forall|j: int, k: int|
            0 <= j < cur.len() && 0 <= k < cur[j].len() implies !(#[trigger] cur[j][k] is Pipe) by {
            if j < prev.len() - 1 {
                assert(cur[j] == prev[j]);
            } else if j == prev.len() - 1 && k < prev.last().len() {
                assert(cur[j][k] == prev.last()[k]);
            }
        }
    }
}

/// Whatever the line, parsing gives at least one command; the first has no
/// condition and every later one is joined by an operator. A non-blank line
/// gives exactly one command more than it has `&&`, `||` and `;` operators.
pub proof fn law_parse_chain_shape(s: Seq<char>, home: Seq<char>)
    ensures
        spec_parse(s, home).len() >= 1,
        spec_parse(s, home)[0].condition is None,
        forall|j: int| 1 <= j < spec_parse(s, home).len() ==> (#[trigger] spec_parse(s, home)[j]).condition is Some,
        !all_whitespace(s) ==> spec_parse(s, home).len() == count_ops(spec_tokenize(s)) + 1,
{
    if !all_whitespace(s) {
        lemma_chain_pieces_shape(spec_tokenize(s));
    }
}

/// A pipeline always joins at least two commands.
pub proof fn law_pipeline_has_two_commands(s: Seq<char>, home: Seq<char>)
    ensures
        forall|j: int|
            0 <= j < spec_parse(s, home).len() ==> ((#[trigger] spec_parse(s, home)[j]).command matches SpecParsedCommand::Pipeline(
                v,
            ) ==> v.len() >= 2),
{
    if !all_whitespace(s) {
        let cp = chain_pieces(spec_tokenize(s));
        assert forall|j: int|
            0 <= j < spec_parse(s, home).len() implies ((#[trigger] spec_parse(s, home)[j]).command matches SpecParsedCommand::Pipeline(
                v,
            ) ==> v.len() >= 2) by {
            lemma_pipe_pieces_shape(cp[j].1);
        }
    }
}

/// `Empty` is the answer to a blank line and to nothing else.
pub proof fn law_empty_iff_blank(s: Seq<char>, home: Seq<char>)
    ensures
        all_whitespace(s) <==> exists|j: int|
            0 <= j < spec_parse(s, home).len() && (#[trigger] spec_parse(s, home)[j]).command is Empty,
{
    if all_whitespace(s) {
        assert(spec_parse(s, home)[0].command is Empty);
    }
}


/// Every token of every segment satisfies `p` when every token of `toks` does.
pub proof fn lemma_chain_pieces_keep(toks: Seq<SpecToken>, p: spec_fn(SpecToken) -> bool)
    requires
        forall|k: int| 0 <= k < toks.len() ==> p(#[trigger] toks[k]),
    ensures
        forall|j: int, k: int|
            0 <= j < chain_pieces(toks).len() && 0 <= k < chain_pieces(toks)[j].1.len()
                ==> p(#[trigger] chain_pieces(toks)[j].1[k]),
    decreases toks.len(),
{
    if toks.len() > 0 {
        let prev = chain_pieces(toks.drop_last());
        lemma_chain_pieces_keep(toks.drop_last(), p);
        lemma_chain_pieces_shape(toks.drop_last());
        let cur = chain_pieces(toks);
        assert(p(toks.last()));
        assert forall|j: int, k: int| 0 <= j < cur.len() && 0 <= k < cur[j].1.len() implies p(#[trigger] cur[j].1[k]) by {
            if j < prev.len() - 1 {
                assert(cur[j] == prev[j]);
            } else if j == prev.len() - 1 && op_of(toks.last()) is None && k < prev.last().1.len() {
                assert(cur[j].1[k] == prev.last().1[k]);
            } else if j == prev.len() - 1 && op_of(toks.last()) is Some {
                assert(cur[j] == prev[j]);
            }
        }
    }
}

/// Every token of every piece satisfies `p` when every token of `toks` does.
pub proof fn lemma_pipe_pieces_keep(toks: Seq<SpecToken>, p: spec_fn(SpecToken) -> bool)
    requires
        forall|k: int| 0 <= k < toks.len() ==> p(#[trigger] toks[k]),
    ensures
        forall|j: int, k: int|
            0 <= j < pipe_pieces(toks).len() && 0 <= k < pipe_pieces(toks)[j].len()
                ==> p(#[trigger] pipe_pieces(toks)[j][k]),
    decreases toks.len(),
{
    if toks.len() > 0 {
        let prev = pipe_pieces(toks.drop_last());
        lemma_pipe_pieces_keep(toks.drop_last(), p);
        lemma_pipe_pieces_shape(toks.drop_last());
        let cur = pipe_pieces(toks);
        assert(p(toks.last()));
        assert forall|j: int, k: int| 0 <= j < cur.len() && 0 <= k < cur[j].len() implies p(#[trigger] cur[j][k]) by {
            if j < prev.len() - 1 {
                assert(cur[j] == prev[j]);
            } else if j == prev.len() - 1 && !(toks.last() is Pipe) && k < prev.last().len() {
                assert(cur[j][k] == prev.last()[k]);
            } else if j == prev.len() - 1 && toks.last() is Pipe {
                assert(cur[j] == prev[j]);
            }
        }
    }
}

/// The token is not a word that holds `~`.
pub open spec fn tilde_free(t: SpecToken) -> bool {
    t matches SpecToken::Word(w) ==> !w.contains('~')
}

proof fn lemma_expand_without_tilde(w: Seq<char>, home: Seq<char>)
    requires
        !w.contains('~'),
    ensures
        spec_expand_tilde(w, home) == w,
{
    if w.len() > 0 {
        assert(w[0] != '~');
    }
}

proof fn lemma_simple_home_independent(toks: Seq<SpecToken>, i: int, d: SimpleDraft, h1: Seq<char>, h2: Seq<char>)
    requires
        forall|k: int| 0 <= k < toks.len() ==> tilde_free(#[trigger] toks[k]),
    ensures
        simple_from(toks, i, d, h1) == simple_from(toks, i, d, h2),
    decreases toks.len() - i,
{
    if 0 <= i < toks.len() {
        assert(tilde_free(toks[i]));
        if let SpecToken::Word(w) = toks[i] {
            lemma_expand_without_tilde(w, h1);
            lemma_expand_without_tilde(w, h2);
        }
        if i + 1 < toks.len() {
            assert(tilde_free(toks[i + 1]));
            if let SpecToken::Word(p) = toks[i + 1] {
                lemma_expand_without_tilde(p, h1);
                lemma_expand_without_tilde(p, h2);
            }
        }
        assert(apply_token(d, toks, i, h1) == apply_token(d, toks, i, h2));
        lemma_simple_home_independent(toks, i + token_width(toks, i), apply_token(d, toks, i, h1), h1, h2);
    }
}

proof fn lemma_segment_home_independent(seg: Seq<SpecToken>, h1: Seq<char>, h2: Seq<char>)
    requires
        forall|k: int| 0 <= k < seg.len() ==> tilde_free(#[trigger] seg[k]),
    ensures
        spec_parse_segment(seg, h1) == spec_parse_segment(seg, h2),
{
    let ps = pipe_pieces(seg);
    lemma_pipe_pieces_keep(seg, |t: SpecToken| tilde_free(t));
    assert forall|j: int| 0 <= j < ps.len() implies spec_parse_simple(#[trigger] ps[j], h1) == spec_parse_simple(ps[j], h2) by {
        assert forall|k: int| 0 <= k < ps[j].len() implies tilde_free(#[trigger] ps[j][k]) by {
            assert((|t: SpecToken| tilde_free(t))(ps[j][k]));
        }
        lemma_simple_home_independent(ps[j], 0, empty_draft(), h1, h2);
    }
    if ps.len() != 1 {
        assert(ps.map_values(|p: Seq<SpecToken>| spec_parse_simple(p, h1)) =~= ps.map_values(
            |p: Seq<SpecToken>| spec_parse_simple(p, h2),
        ));
    } else {
        assert(spec_parse_simple(ps[0], h1) == spec_parse_simple(ps[0], h2));
    }
}

/// The home directory only matters through `~`: a line without `~` means the
/// same whatever the home directory is.
pub proof fn law_parse_ignores_home_without_tilde(s: Seq<char>, h1: Seq<char>, h2: Seq<char>)
    requires
        !s.contains('~'),
    ensures
        spec_parse(s, h1) == spec_parse(s, h2),
{
    if !all_whitespace(s) {
        let toks = spec_tokenize(s);
        lemma_lex_words_avoid(s, 0, Seq::empty(), None, '~');
        assert forall|k: int| 0 <= k < toks.len() implies (|t: SpecToken| tilde_free(t))(#[trigger] toks[k]) by {
            assert(tilde_free(toks[k]));
        }
        let cp = chain_pieces(toks);
        lemma_chain_pieces_keep(toks, |t: SpecToken| tilde_free(t));
        assert forall|j: int| 0 <= j < cp.len() implies chained_of(#[trigger] cp[j], h1) == chained_of(cp[j], h2) by {
            assert forall|k: int| 0 <= k < cp[j].1.len() implies tilde_free(#[trigger] cp[j].1[k]) by {
                assert((|t: SpecToken| tilde_free(t))(cp[j].1[k]));
            }
            lemma_segment_home_independent(cp[j].1, h1, h2);
        }
        assert(spec_parse(s, h1) =~= spec_parse(s, h2));
    }
}


// ---------------------------------------------------------------------------
// Laws on names, arguments and redirections
// ---------------------------------------------------------------------------

/// Words as tokens.
pub open spec fn word_tokens(ws: Seq<Seq<char>>) -> Seq<SpecToken> {
    ws.map_values(|x: Seq<char>| SpecToken::Word(x))
}

proof fn lemma_words_keep_redirects(toks: Seq<SpecToken>, j: int, d: SimpleDraft, home: Seq<char>)
    requires
        0 <= j <= toks.len(),
        forall|k: int| j <= k < toks.len() ==> #[trigger] toks[k] is Word,
    ensures
        simple_from(toks, j, d, home).stdin_redirect == d.stdin_redirect,
        simple_from(toks, j, d, home).stdout_redirect == d.stdout_redirect,
        simple_from(toks, j, d, home).append_redirect == d.append_redirect,
    decreases toks.len() - j,
{
    if j < toks.len() {
        assert(toks[j] is Word);
        lemma_words_keep_redirects(toks, j + 1, apply_token(d, toks, j, home), home);
    }
}

proof fn lemma_redirect_sets_field(
    toks: Seq<SpecToken>,
    i: int,
    p: int,
    w: Seq<char>,
    d: SimpleDraft,
    home: Seq<char>,
)
    requires
        0 <= i <= p,
        p + 1 < toks.len(),
        is_redirect(toks[p]),
        toks[p + 1] == SpecToken::Word(w),
        forall|k: int| i <= k < p ==> #[trigger] toks[k] is Word,
        forall|k: int| p + 2 <= k < toks.len() ==> #[trigger] toks[k] is Word,
    ensures
        toks[p] is RedirectIn ==> simple_from(toks, i, d, home).stdin_redirect == Some(spec_expand_tilde(w, home))
            && simple_from(toks, i, d, home).stdout_redirect == d.stdout_redirect
            && simple_from(toks, i, d, home).append_redirect == d.append_redirect,
        toks[p] is RedirectOut ==> simple_from(toks, i, d, home).stdout_redirect == Some(spec_expand_tilde(w, home))
            && simple_from(toks, i, d, home).stdin_redirect == d.stdin_redirect
            && simple_from(toks, i, d, home).append_redirect == d.append_redirect,
        toks[p] is Append ==> simple_from(toks, i, d, home).append_redirect == Some(spec_expand_tilde(w, home))
            && simple_from(toks, i, d, home).stdin_redirect == d.stdin_redirect
            && simple_from(toks, i, d, home).stdout_redirect == d.stdout_redirect,
    decreases p - i,
{
    if i < p {
        assert(toks[i] is Word);
        lemma_redirect_sets_field(toks, i + 1, p, w, apply_token(d, toks, i, home), home);
    } else {
        assert(token_width(toks, p) == 2);
        assert(redirect_target(toks, p) == Some(w));
        lemma_words_keep_redirects(toks, p + 2, apply_token(d, toks, p, home), home);
    }
}

/// The path that a redirection records is the word after it, with `~` (alone
/// or before `/`) replaced by the home directory, for `<`, `>` and `>>` alike,
/// wherever the redirection stands among the words of the command.
pub proof fn law_redirect_path_is_tilde_expanded(
    pre: Seq<Seq<char>>,
    kind: SpecToken,
    w: Seq<char>,
    post: Seq<Seq<char>>,
    home: Seq<char>,
)
    requires
        is_redirect(kind),
    ensures
        ({
            let c = spec_parse_simple(word_tokens(pre) + seq![kind, SpecToken::Word(w)] + word_tokens(post), home);
            let e = if w == seq!['~'] || (w.len() >= 2 && w[0] == '~' && w[1] == '/') {
                home + w.drop_first()
            } else {
                w
            };
            &&& kind is RedirectIn ==> c.stdin_redirect == Some(e) && c.stdout_redirect is None
                && c.append_redirect is None
            &&& kind is RedirectOut ==> c.stdout_redirect == Some(e) && c.stdin_redirect is None
                && c.append_redirect is None
            &&& kind is Append ==> c.append_redirect == Some(e) && c.stdin_redirect is None
                && c.stdout_redirect is None
        }),
{
    let toks = word_tokens(pre) + seq![kind, SpecToken::Word(w)] + word_tokens(post);
    let p = pre.len() as int;
    assert(toks[p] == kind);
    assert(toks[p + 1] == SpecToken::Word(w));
    assert forall|k: int| 0 <= k < p implies #[trigger] toks[k] is Word by {
        assert(toks[k] == word_tokens(pre)[k]);
    }
    assert forall|k: int| p + 2 <= k < toks.len() implies #[trigger] toks[k] is Word by {
        assert(toks[k] == word_tokens(post)[k - p - 2]);
    }
    lemma_redirect_sets_field(toks, 0, p, w, empty_draft(), home);
}

proof fn lemma_words_name_args(ws: Seq<Seq<char>>, i: int, home: Seq<char>)
    requires
        1 <= i <= ws.len(),
    ensures
        simple_from(
            word_tokens(ws),
            i,
            SimpleDraft {
                name: Some(ws[0]),
                args: ws.subrange(1, i).map_values(|x: Seq<char>| spec_expand_tilde(x, home)),
                stdin_redirect: None,
                stdout_redirect: None,
                append_redirect: None,
            },
            home,
        ) == (SpecSimpleCommand {
            name: ws[0],
            args: ws.drop_first().map_values(|x: Seq<char>| spec_expand_tilde(x, home)),
            stdin_redirect: None,
            stdout_redirect: None,
            append_redirect: None,
        }),
    decreases ws.len() - i,
{
    let toks = word_tokens(ws);
    if i == ws.len() {
        assert(ws.subrange(1, i) =~= ws.drop_first());
    } else {
        assert(toks[i] == SpecToken::Word(ws[i]));
        assert(ws.subrange(1, i + 1).map_values(|x: Seq<char>| spec_expand_tilde(x, home))
            =~= ws.subrange(1, i).map_values(|x: Seq<char>| spec_expand_tilde(x, home)).push(
            spec_expand_tilde(ws[i], home),
        ));
        lemma_words_name_args(ws, i + 1, home);
    }
}

/// A command of plain words: the first word is the name, as it is; every
/// later word is an argument, in order, with `~` (alone or before `/`)
/// replaced by the home directory; and there is no redirection.
pub proof fn law_words_are_name_and_arguments(ws: Seq<Seq<char>>, home: Seq<char>)
    requires
        ws.len() > 0,
    ensures
        spec_parse_simple(word_tokens(ws), home) == (SpecSimpleCommand {
            name: ws[0],
            args: ws.drop_first().map_values(
                |x: Seq<char>|
                    if x == seq!['~'] || (x.len() >= 2 && x[0] == '~' && x[1] == '/') {
                        home + x.drop_first()
                    } else {
                        x
                    },
            ),
            stdin_redirect: None,
            stdout_redirect: None,
            append_redirect: None,
        }),
{
    let toks = word_tokens(ws);
    assert(toks[0] == SpecToken::Word(ws[0]));
    assert(ws.subrange(1, 1).map_values(|x: Seq<char>| spec_expand_tilde(x, home)) =~= Seq::<Seq<char>>::empty());
    lemma_words_name_args(ws, 1, home);
    assert(ws.drop_first().map_values(|x: Seq<char>| spec_expand_tilde(x, home)) =~= ws.drop_first().map_values(
        |x: Seq<char>|
            if x == seq!['~'] || (x.len() >= 2 && x[0] == '~' && x[1] == '/') {
                home + x.drop_first()
            } else {
                x
            },
    ));
}


/// A command of plain words is `exit` when its first word is `exit`, a builtin
/// when its first word is `cd` or `pwd`, and otherwise an external program,
/// whatever arguments follow.
pub proof fn law_command_classification(ws: Seq<Seq<char>>, home: Seq<char>)
    requires
        ws.len() > 0,
    ensures
        (spec_parse_single(word_tokens(ws), home) is Exit) <==> ws[0] == seq!['e', 'x', 'i', 't'],
        (spec_parse_single(word_tokens(ws), home) matches SpecParsedCommand::Builtin(c)
            && c.name == ws[0]) <==> (ws[0] == seq!['c', 'd'] || ws[0] == seq!['p', 'w', 'd']),
        (spec_parse_single(word_tokens(ws), home) matches SpecParsedCommand::External(c)
            && c.name == ws[0]) <==> !(ws[0] == seq!['e', 'x', 'i', 't'] || ws[0] == seq!['c', 'd']
            || ws[0] == seq!['p', 'w', 'd']),
{
    law_words_are_name_and_arguments(ws, home);
}

proof fn lemma_chain_no_ops(toks: Seq<SpecToken>)
    requires
        forall|k: int| 0 <= k < toks.len() ==> op_of(#[trigger] toks[k]) is None,
    ensures
        chain_pieces(toks) == seq![(None::<Operator>, toks)],
    decreases toks.len(),
{
    if toks.len() > 0 {
        lemma_chain_no_ops(toks.drop_last());
        assert(op_of(toks[toks.len() - 1]) is None);
        assert(toks.drop_last().push(toks.last()) =~= toks);
        let prev = chain_pieces(toks.drop_last());
        assert(chain_pieces(toks) == prev.update(0, (prev[0].0, prev[0].1.push(toks.last()))));
        assert(chain_pieces(toks) =~= seq![(None::<Operator>, toks)]);
    } else {
        assert(toks =~= Seq::<SpecToken>::empty());
    }
}

proof fn lemma_chain_then(p: Seq<SpecToken>, op: SpecToken, ws: Seq<SpecToken>)
    requires
        op_of(op) is Some,
        forall|k: int| 0 <= k < ws.len() ==> op_of(#[trigger] ws[k]) is None,
    ensures
        chain_pieces(p + seq![op] + ws) == chain_pieces(p).push((op_of(op), ws)),
    decreases ws.len(),
{
    let x = p + seq![op] + ws;
    if ws.len() == 0 {
        assert(x.drop_last() =~= p);
        assert(x.last() == op);
        assert(ws =~= Seq::<SpecToken>::empty());
    } else {
        assert(x.drop_last() =~= p + seq![op] + ws.drop_last());
        assert(x.last() == ws.last());
        assert(op_of(ws[ws.len() - 1]) is None);
        lemma_chain_then(p, op, ws.drop_last());
        assert(ws.drop_last().push(ws.last()) =~= ws);
        let prev = chain_pieces(x.drop_last());
        assert(op_of(x.last()) is None);
        assert(chain_pieces(x) == prev.update(prev.len() - 1, (prev.last().0, prev.last().1.push(x.last()))));
        assert(chain_pieces(x) =~= chain_pieces(p).push((op_of(op), ws)));
    }
}

/// `&&`, `||` and `;` join two commands: the first runs unconditionally and
/// the second carries the operator (`And`, `Or` or `Then`), when neither side
/// holds another chaining operator.
pub proof fn law_chain_operator_conditions(t1: Seq<SpecToken>, op: SpecToken, t2: Seq<SpecToken>)
    requires
        op is And || op is Or || op is Semicolon,
        forall|k: int| 0 <= k < t1.len() ==> !(#[trigger] t1[k] is And || t1[k] is Or || t1[k] is Semicolon),
        forall|k: int| 0 <= k < t2.len() ==> !(#[trigger] t2[k] is And || t2[k] is Or || t2[k] is Semicolon),
    ensures
        chain_pieces(t1 + seq![op] + t2) == seq![
            (None::<Operator>, t1),
            (Some(
                if op is And {
                    Operator::And
                } else if op is Or {
                    Operator::Or
                } else {
                    Operator::Then
                },
            ), t2),
        ],
{
    assert forall|k: int| 0 <= k < t1.len() implies op_of(#[trigger] t1[k]) is None by {
        assert(!(t1[k] is And || t1[k] is Or || t1[k] is Semicolon));
    }
    assert forall|k: int| 0 <= k < t2.len() implies op_of(#[trigger] t2[k]) is None by {
        assert(!(t2[k] is And || t2[k] is Or || t2[k] is Semicolon));
    }
    lemma_chain_no_ops(t1);
    lemma_chain_then(t1, op, t2);
}

/// A line `a && b` (or `a || b`, `a ; b`) parses as the command of `a` with no
/// condition followed by the command of `b` with the operator as its
/// condition, when neither side holds another chaining operator.
pub proof fn law_parse_chained_line(a: Seq<char>, op: Seq<char>, b: Seq<char>, home: Seq<char>)
    requires
        op == seq!['&', '&'] || op == seq!['|', '|'] || op == seq![';'],
        !ends_open(a, 0, None),
        no_joining_operator(a, op),
        forall|k: int| 0 <= k < spec_tokenize(a).len() ==> !(#[trigger] spec_tokenize(a)[k] is And
            || spec_tokenize(a)[k] is Or || spec_tokenize(a)[k] is Semicolon),
        forall|k: int| 0 <= k < spec_tokenize(b).len() ==> !(#[trigger] spec_tokenize(b)[k] is And
            || spec_tokenize(b)[k] is Or || spec_tokenize(b)[k] is Semicolon),
    ensures
        spec_parse(a + op + b, home) == seq![
            SpecChainedCommand { command: spec_parse_segment(spec_tokenize(a), home), condition: None },
            SpecChainedCommand {
                command: spec_parse_segment(spec_tokenize(b), home),
                condition: Some(
                    if op == seq!['&', '&'] {
                        Operator::And
                    } else if op == seq!['|', '|'] {
                        Operator::Or
                    } else {
                        Operator::Then
                    },
                ),
            },
        ],
{
    let s = a + op + b;
    let n = a.len() as int;
    assert(s[n] == op[0]);
    assert(!crate::text::is_unicode_ws(s[n]));
    law_operator_separates(a, op, b);
    let tok = if op == seq!['&', '&'] {
        SpecToken::And
    } else if op == seq!['|', '|'] {
        SpecToken::Or
    } else {
        SpecToken::Semicolon
    };
    assert(spec_tokenize(s) == spec_tokenize(a) + seq![tok] + spec_tokenize(b));
    law_chain_operator_conditions(spec_tokenize(a), tok, spec_tokenize(b));
    assert(spec_parse(s, home) =~= seq![
        SpecChainedCommand { command: spec_parse_segment(spec_tokenize(a), home), condition: None },
        SpecChainedCommand {
            command: spec_parse_segment(spec_tokenize(b), home),
            condition: Some(
                if op == seq!['&', '&'] {
                    Operator::And
                } else if op == seq!['|', '|'] {
                    Operator::Or
                } else {
                    Operator::Then
                },
            ),
        },
    ]);
}


proof fn lemma_pipe_no_pipes(toks: Seq<SpecToken>)
    requires
        forall|k: int| 0 <= k < toks.len() ==> !(#[trigger] toks[k] is Pipe),
    ensures
        pipe_pieces(toks) == seq![toks],
    decreases toks.len(),
{
    if toks.len() > 0 {
        lemma_pipe_no_pipes(toks.drop_last());
        assert(!(toks[toks.len() - 1] is Pipe));
        assert(toks.drop_last().push(toks.last()) =~= toks);
        let prev = pipe_pieces(toks.drop_last());
        assert(pipe_pieces(toks) == prev.update(0, prev[0].push(toks.last())));
        assert(pipe_pieces(toks) =~= seq![toks]);
    } else {
        assert(toks =~= Seq::<SpecToken>::empty());
    }
}

proof fn lemma_pipe_then(p: Seq<SpecToken>, ws: Seq<SpecToken>)
    requires
        forall|k: int| 0 <= k < ws.len() ==> !(#[trigger] ws[k] is Pipe),
    ensures
        pipe_pieces(p + seq![SpecToken::Pipe] + ws) == pipe_pieces(p).push(ws),
    decreases ws.len(),
{
    let x = p + seq![SpecToken::Pipe] + ws;
    if ws.len() == 0 {
        assert(x.drop_last() =~= p);
        assert(x.last() == SpecToken::Pipe);
        assert(ws =~= Seq::<SpecToken>::empty());
    } else {
        assert(x.drop_last() =~= p + seq![SpecToken::Pipe] + ws.drop_last());
        assert(x.last() == ws.last());
        assert(!(ws[ws.len() - 1] is Pipe));
        lemma_pipe_then(p, ws.drop_last());
        assert(ws.drop_last().push(ws.last()) =~= ws);
        let prev = pipe_pieces(x.drop_last());
        assert(pipe_pieces(x) == prev.update(prev.len() - 1, prev.last().push(x.last())));
        assert(pipe_pieces(x) =~= pipe_pieces(p).push(ws));
    }
}

/// `a | b` is a pipeline of exactly two commands, the simple command of `a`
/// then that of `b`, when neither side holds another `|`; without any `|` a
/// segment is a single command.
pub proof fn law_pipe_joins_two_commands(t1: Seq<SpecToken>, t2: Seq<SpecToken>, home: Seq<char>)
    requires
        forall|k: int| 0 <= k < t1.len() ==> !(#[trigger] t1[k] is Pipe),
        forall|k: int| 0 <= k < t2.len() ==> !(#[trigger] t2[k] is Pipe),
    ensures
        spec_parse_segment(t1 + seq![SpecToken::Pipe] + t2, home) == SpecParsedCommand::Pipeline(
            seq![spec_parse_simple(t1, home), spec_parse_simple(t2, home)],
        ),
        spec_parse_segment(t1, home) == spec_parse_single(t1, home),
{
    lemma_pipe_no_pipes(t1);
    lemma_pipe_then(t1, t2);
    let ps = pipe_pieces(t1 + seq![SpecToken::Pipe] + t2);
    assert(ps =~= seq![t1, t2]);
    assert(ps.map_values(|p: Seq<SpecToken>| spec_parse_simple(p, home)) =~= seq![
        spec_parse_simple(t1, home),
        spec_parse_simple(t2, home),
    ]);
}

} // verus!
