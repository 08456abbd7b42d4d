use my_shell::parser::parse;
use my_shell::parser::{ChainedCommand, Operator, ParsedCommand, SimpleCommand};

const HOME: &str = "/home/tester";

fn simple(name: &str, args: Vec<&str>) -> SimpleCommand {
    SimpleCommand {
        name: name.to_string(),
        args: args.into_iter().map(String::from).collect(),
        stdin_redirect: None,
        stdout_redirect: None,
        append_redirect: None,
    }
}

fn single(cmd: ParsedCommand) -> Vec<ChainedCommand> {
    vec![ChainedCommand {
        condition: None,
        command: cmd,
    }]
}

// === Basic commands ===

#[test]
fn test_empty_input() {
    assert_eq!(parse("", HOME), single(ParsedCommand::Empty));
}

#[test]
fn test_whitespace() {
    assert_eq!(parse("   ", HOME), single(ParsedCommand::Empty));
}

#[test]
fn test_exit() {
    assert_eq!(parse("exit", HOME), single(ParsedCommand::Exit));
}

#[test]
fn test_builtin_cd_with_no_args() {
    assert_eq!(
        parse("cd", HOME),
        single(ParsedCommand::Builtin(simple("cd", vec![])))
    );
}

#[test]
fn test_builtin_cd_with_args() {
    assert_eq!(
        parse("cd home", HOME),
        single(ParsedCommand::Builtin(simple("cd", vec!["home"])))
    );
}

#[test]
fn test_builtin_pwd_with_no_args() {
    assert_eq!(
        parse("pwd", HOME),
        single(ParsedCommand::Builtin(simple("pwd", vec![])))
    );
}

#[test]
fn test_builtin_pwd_with_args() {
    assert_eq!(
        parse("pwd home", HOME),
        single(ParsedCommand::Builtin(simple("pwd", vec!["home"])))
    );
}

#[test]
fn test_external_command() {
    assert_eq!(
        parse("ls", HOME),
        single(ParsedCommand::External(simple("ls", vec![])))
    );
}

#[test]
fn test_external_command_with_args() {
    assert_eq!(
        parse("ls -la /tmp", HOME),
        single(ParsedCommand::External(simple("ls", vec!["-la", "/tmp"])))
    );
}

// === Pipes ===

#[test]
fn test_two_command_pipeline() {
    assert_eq!(
        parse("ls | grep foo", HOME),
        single(ParsedCommand::Pipeline(vec![
            simple("ls", vec![]),
            simple("grep", vec!["foo"]),
        ]))
    );
}

#[test]
fn test_three_command_pipeline() {
    assert_eq!(
        parse("ls -la | grep foo | wc -l", HOME),
        single(ParsedCommand::Pipeline(vec![
            simple("ls", vec!["-la"]),
            simple("grep", vec!["foo"]),
            simple("wc", vec!["-l"]),
        ]))
    );
}

#[test]
fn test_pipeline_with_extra_whitespace() {
    assert_eq!(
        parse("ls   |   grep   foo", HOME),
        single(ParsedCommand::Pipeline(vec![
            simple("ls", vec![]),
            simple("grep", vec!["foo"]),
        ]))
    );
}

// === I/O Redirection ===

#[test]
fn test_stdout_redirect() {
    assert_eq!(
        parse("echo hello > out.txt", HOME),
        single(ParsedCommand::External(SimpleCommand {
            name: "echo".to_string(),
            args: vec!["hello".to_string()],
            stdin_redirect: None,
            stdout_redirect: Some("out.txt".to_string()),
            append_redirect: None,
        }))
    );
}

#[test]
fn test_stdin_redirect() {
    assert_eq!(
        parse("cat < input.txt", HOME),
        single(ParsedCommand::External(SimpleCommand {
            name: "cat".to_string(),
            args: vec![],
            stdin_redirect: Some("input.txt".to_string()),
            stdout_redirect: None,
            append_redirect: None,
        }))
    );
}

#[test]
fn test_append_redirect() {
    assert_eq!(
        parse("echo hello >> out.txt", HOME),
        single(ParsedCommand::External(SimpleCommand {
            name: "echo".to_string(),
            args: vec!["hello".to_string()],
            stdin_redirect: None,
            stdout_redirect: None,
            append_redirect: Some("out.txt".to_string()),
        }))
    );
}

#[test]
fn test_stdin_and_stdout_redirect() {
    assert_eq!(
        parse("grep foo < input.txt > output.txt", HOME),
        single(ParsedCommand::External(SimpleCommand {
            name: "grep".to_string(),
            args: vec!["foo".to_string()],
            stdin_redirect: Some("input.txt".to_string()),
            stdout_redirect: Some("output.txt".to_string()),
            append_redirect: None,
        }))
    );
}

#[test]
fn test_redirect_with_multiple_args() {
    assert_eq!(
        parse("ls -la -h > out.txt", HOME),
        single(ParsedCommand::External(SimpleCommand {
            name: "ls".to_string(),
            args: vec!["-la".to_string(), "-h".to_string()],
            stdin_redirect: None,
            stdout_redirect: Some("out.txt".to_string()),
            append_redirect: None,
        }))
    );
}

#[test]
fn test_redirect_in_pipeline() {
    assert_eq!(
        parse("cat < input.txt | grep foo > output.txt", HOME),
        single(ParsedCommand::Pipeline(vec![
            SimpleCommand {
                name: "cat".to_string(),
                args: vec![],
                stdin_redirect: Some("input.txt".to_string()),
                stdout_redirect: None,
                append_redirect: None,
            },
            SimpleCommand {
                name: "grep".to_string(),
                args: vec!["foo".to_string()],
                stdin_redirect: None,
                stdout_redirect: Some("output.txt".to_string()),
                append_redirect: None,
            },
        ]))
    );
}

// === Quoted Arguments ===

#[test]
fn test_double_quoted_argument() {
    assert_eq!(
        parse("echo \"hello world\"", HOME),
        single(ParsedCommand::External(simple("echo", vec!["hello world"])))
    );
}

#[test]
fn test_single_quoted_argument() {
    assert_eq!(
        parse("echo 'hello world'", HOME),
        single(ParsedCommand::External(simple("echo", vec!["hello world"])))
    );
}

#[test]
fn test_multiple_quoted_arguments() {
    assert_eq!(
        parse("echo \"hello\" \"world\"", HOME),
        single(ParsedCommand::External(simple(
            "echo",
            vec!["hello", "world"]
        )))
    );
}

#[test]
fn test_mixed_quoted_and_unquoted() {
    assert_eq!(
        parse("echo hello \"big world\"", HOME),
        single(ParsedCommand::External(simple(
            "echo",
            vec!["hello", "big world"]
        )))
    );
}

#[test]
fn test_single_quotes_preserve_double_quotes() {
    assert_eq!(
        parse("echo 'hello \"world\"'", HOME),
        single(ParsedCommand::External(simple(
            "echo",
            vec!["hello \"world\""]
        )))
    );
}

#[test]
fn test_double_quotes_preserve_single_quotes() {
    assert_eq!(
        parse("echo \"hello 'world'\"", HOME),
        single(ParsedCommand::External(simple(
            "echo",
            vec!["hello 'world'"]
        )))
    );
}

#[test]
fn test_quoted_redirect_filename() {
    assert_eq!(
        parse("echo hello > \"my file.txt\"", HOME),
        single(ParsedCommand::External(SimpleCommand {
            name: "echo".to_string(),
            args: vec!["hello".to_string()],
            stdin_redirect: None,
            stdout_redirect: Some("my file.txt".to_string()),
            append_redirect: None,
        }))
    );
}

// === Tilde Expansion ===

#[test]
fn test_tilde_as_argument() {
    let home = HOME.to_string();
    assert_eq!(
        parse("cd ~", HOME),
        single(ParsedCommand::Builtin(simple("cd", vec![&home])))
    );
}

#[test]
fn test_tilde_with_path() {
    let home = HOME.to_string();
    let expected = format!("{}/projects", home);
    assert_eq!(
        parse("ls ~/projects", HOME),
        single(ParsedCommand::External(simple("ls", vec![&expected])))
    );
}

#[test]
fn test_tilde_in_redirect() {
    let home = HOME.to_string();
    let expected = format!("{}/out.txt", home);
    assert_eq!(
        parse("echo hello > ~/out.txt", HOME),
        single(ParsedCommand::External(SimpleCommand {
            name: "echo".to_string(),
            args: vec!["hello".to_string()],
            stdin_redirect: None,
            stdout_redirect: Some(expected),
            append_redirect: None,
        }))
    );
}

#[test]
fn test_tilde_not_at_start() {
    assert_eq!(
        parse("echo foo~bar", HOME),
        single(ParsedCommand::External(simple("echo", vec!["foo~bar"])))
    );
}

// === Chained Commands ===

#[test]
fn parser_test_and_operator() {
    assert_eq!(
        parse("echo hello && echo world", HOME),
        vec![
            ChainedCommand {
                condition: None,
                command: ParsedCommand::External(simple("echo", vec!["hello"])),
            },
            ChainedCommand {
                condition: Some(Operator::And),
                command: ParsedCommand::External(simple("echo", vec!["world"])),
            },
        ]
    );
}

#[test]
fn parser_test_or_operator() {
    assert_eq!(
        parse("ls /fake || echo fallback", HOME),
        vec![
            ChainedCommand {
                condition: None,
                command: ParsedCommand::External(simple("ls", vec!["/fake"])),
            },
            ChainedCommand {
                condition: Some(Operator::Or),
                command: ParsedCommand::External(simple("echo", vec!["fallback"])),
            },
        ]
    );
}

#[test]
fn parser_test_semicolon() {
    assert_eq!(
        parse("echo hello ; echo world", HOME),
        vec![
            ChainedCommand {
                condition: None,
                command: ParsedCommand::External(simple("echo", vec!["hello"])),
            },
            ChainedCommand {
                condition: Some(Operator::Then),
                command: ParsedCommand::External(simple("echo", vec!["world"])),
            },
        ]
    );
}

#[test]
fn test_chain_with_pipeline() {
    assert_eq!(
        parse("echo hello && ls | grep foo", HOME),
        vec![
            ChainedCommand {
                condition: None,
                command: ParsedCommand::External(simple("echo", vec!["hello"])),
            },
            ChainedCommand {
                condition: Some(Operator::And),
                command: ParsedCommand::Pipeline(vec![
                    simple("ls", vec![]),
                    simple("grep", vec!["foo"]),
                ]),
            },
        ]
    );
}

#[test]
fn test_three_way_chain() {
    assert_eq!(
        parse("cmd1 && cmd2 || cmd3", HOME),
        vec![
            ChainedCommand {
                condition: None,
                command: ParsedCommand::External(simple("cmd1", vec![])),
            },
            ChainedCommand {
                condition: Some(Operator::And),
                command: ParsedCommand::External(simple("cmd2", vec![])),
            },
            ChainedCommand {
                condition: Some(Operator::Or),
                command: ParsedCommand::External(simple("cmd3", vec![])),
            },
        ]
    );
}

// === Edge cases ===

#[test]
fn quotes_only_line_is_a_nameless_command() {
    assert_eq!(
        parse("\"\"", HOME),
        single(ParsedCommand::External(simple("", vec![])))
    );
}

#[test]
fn non_ascii_blank_line_is_empty() {
    assert_eq!(parse(" \u{a0}\u{3000}\t", HOME), single(ParsedCommand::Empty));
}

#[test]
fn exit_in_a_pipeline_is_a_program() {
    assert_eq!(
        parse("exit | cat", HOME),
        single(ParsedCommand::Pipeline(vec![
            simple("exit", vec![]),
            simple("cat", vec![]),
        ]))
    );
}

#[test]
fn exit_with_arguments_is_exit() {
    assert_eq!(parse("exit 3", HOME), single(ParsedCommand::Exit));
}

#[test]
fn export_is_not_parsed_as_builtin() {
    assert_eq!(
        parse("export A=1", HOME),
        single(ParsedCommand::External(simple("export", vec!["A=1"])))
    );
}

#[test]
fn trailing_pipe_gives_a_nameless_stage() {
    assert_eq!(
        parse("ls |", HOME),
        single(ParsedCommand::Pipeline(vec![
            simple("ls", vec![]),
            simple("", vec![]),
        ]))
    );
}

#[test]
fn leading_operator_gives_a_nameless_first_command() {
    assert_eq!(
        parse("&& ls", HOME),
        vec![
            ChainedCommand {
                condition: None,
                command: ParsedCommand::External(simple("", vec![])),
            },
            ChainedCommand {
                condition: Some(Operator::And),
                command: ParsedCommand::External(simple("ls", vec![])),
            },
        ]
    );
}

#[test]
fn redirect_without_target_is_ignored() {
    assert_eq!(
        parse("echo hi >", HOME),
        single(ParsedCommand::External(simple("echo", vec!["hi"])))
    );
}

#[test]
fn redirect_followed_by_redirect_drops_both_tokens() {
    assert_eq!(
        parse("cat < > out.txt", HOME),
        single(ParsedCommand::External(simple("cat", vec!["out.txt"])))
    );
}

#[test]
fn last_redirect_of_a_kind_wins() {
    assert_eq!(
        parse("echo a > one > two", HOME),
        single(ParsedCommand::External(SimpleCommand {
            name: "echo".to_string(),
            args: vec!["a".to_string()],
            stdin_redirect: None,
            stdout_redirect: Some("two".to_string()),
            append_redirect: None,
        }))
    );
}

#[test]
fn command_name_is_not_tilde_expanded() {
    assert_eq!(
        parse("~/bin/tool ~", HOME),
        single(ParsedCommand::External(simple("~/bin/tool", vec![HOME])))
    );
}

#[test]
fn tilde_followed_by_a_name_is_kept() {
    assert_eq!(
        parse("ls ~other", HOME),
        single(ParsedCommand::External(simple("ls", vec!["~other"])))
    );
}

#[test]
fn chain_counts_one_more_command_than_operators() {
    let r = parse("a ; b && c || d | e ; f", HOME);
    assert_eq!(r.len(), 5);
    assert_eq!(r[0].condition, None);
    for c in &r[1..] {
        assert!(c.condition.is_some());
    }
}

#[test]
fn home_only_matters_through_tilde() {
    let line = "cat < in.txt | grep foo > out.txt && cd /tmp";
    assert_eq!(parse(line, "/home/a"), parse(line, "/somewhere/else"));
    assert_ne!(parse("cd ~", "/home/a"), parse("cd ~", "/home/b"));
}

#[test]
fn escaped_space_stays_in_the_argument() {
    assert_eq!(
        parse("cat my\\ file.txt > out\\ put", HOME),
        single(ParsedCommand::External(SimpleCommand {
            name: "cat".to_string(),
            args: vec!["my file.txt".to_string()],
            stdin_redirect: None,
            stdout_redirect: Some("out put".to_string()),
            append_redirect: None,
        }))
    );
}
