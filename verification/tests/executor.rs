use my_shell::executor::{plan_pipeline, stage_io, StageIo, StdinSource, StdoutTarget};
use my_shell::parser::SimpleCommand;

fn cmd(name: &str, stdin: Option<&str>, stdout: Option<&str>, append: Option<&str>) -> SimpleCommand {
    SimpleCommand {
        name: name.to_string(),
        args: vec![],
        stdin_redirect: stdin.map(String::from),
        stdout_redirect: stdout.map(String::from),
        append_redirect: append.map(String::from),
    }
}

#[test]
fn single_command_inherits_everything() {
    assert_eq!(
        stage_io(&cmd("ls", None, None, None), false, true),
        StageIo {
            stdin: StdinSource::Inherit,
            stdout: StdoutTarget::Inherit,
            also_create: None
        }
    );
}

#[test]
fn append_wins_over_truncate_but_both_are_created() {
    assert_eq!(
        stage_io(&cmd("echo", None, Some("a"), Some("b")), false, true),
        StageIo {
            stdin: StdinSource::Inherit,
            stdout: StdoutTarget::Append("b".to_string()),
            also_create: Some("a".to_string())
        }
    );
}

#[test]
fn pipeline_is_wired_stage_to_stage() {
    let plan = plan_pipeline(&[
        cmd("cat", Some("in"), None, None),
        cmd("grep", None, None, None),
        cmd("wc", None, Some("out"), None),
    ]);
    assert_eq!(
        plan,
        vec![
            StageIo {
                stdin: StdinSource::File("in".to_string()),
                stdout: StdoutTarget::NextStage,
                also_create: None
            },
            StageIo {
                stdin: StdinSource::PreviousStage,
                stdout: StdoutTarget::NextStage,
                also_create: None
            },
            StageIo {
                stdin: StdinSource::PreviousStage,
                stdout: StdoutTarget::Truncate("out".to_string()),
                also_create: None
            },
        ]
    );
}

#[test]
fn stage_after_redirected_output_reads_the_terminal() {
    let plan = plan_pipeline(&[cmd("a", None, Some("f"), None), cmd("b", None, None, None)]);
    assert_eq!(plan[0].stdout, StdoutTarget::Truncate("f".to_string()));
    assert_eq!(plan[1].stdin, StdinSource::Inherit);
    assert_eq!(plan[1].stdout, StdoutTarget::Inherit);
}

#[test]
fn input_file_wins_over_pipe() {
    let plan = plan_pipeline(&[cmd("a", None, None, None), cmd("b", Some("f"), None, None)]);
    assert_eq!(plan[1].stdin, StdinSource::File("f".to_string()));
}
