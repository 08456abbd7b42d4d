use my_shell::builtins::{builtin_action, BuiltinAction};
use my_shell::parser::SimpleCommand;

fn cmd(name: &str, args: Vec<&str>) -> SimpleCommand {
    SimpleCommand {
        name: name.to_string(),
        args: args.into_iter().map(String::from).collect(),
        stdin_redirect: None,
        stdout_redirect: None,
        append_redirect: None,
    }
}

#[test]
fn cd_without_argument_goes_home() {
    assert_eq!(builtin_action(&cmd("cd", vec![])), BuiltinAction::ChangeToHome);
}

#[test]
fn cd_uses_first_argument() {
    assert_eq!(
        builtin_action(&cmd("cd", vec!["/tmp", "ignored"])),
        BuiltinAction::ChangeDir("/tmp".to_string())
    );
}

#[test]
fn pwd_prints_directory() {
    assert_eq!(builtin_action(&cmd("pwd", vec![])), BuiltinAction::PrintDir);
}

#[test]
fn pwd_refuses_arguments() {
    assert_eq!(
        builtin_action(&cmd("pwd", vec!["x"])),
        BuiltinAction::PwdTooManyArguments
    );
}

#[test]
fn export_splits_at_first_equals() {
    assert_eq!(
        builtin_action(&cmd("export", vec!["KEY=a=b"])),
        BuiltinAction::SetVar {
            key: "KEY".to_string(),
            value: "a=b".to_string()
        }
    );
    assert_eq!(
        builtin_action(&cmd("export", vec!["=v"])),
        BuiltinAction::SetVar {
            key: "".to_string(),
            value: "v".to_string()
        }
    );
    assert_eq!(
        builtin_action(&cmd("export", vec!["K="])),
        BuiltinAction::SetVar {
            key: "K".to_string(),
            value: "".to_string()
        }
    );
}

#[test]
fn export_without_equals_is_invalid() {
    assert_eq!(
        builtin_action(&cmd("export", vec!["KEY"])),
        BuiltinAction::ExportInvalidFormat
    );
}

#[test]
fn export_without_argument_is_missing() {
    assert_eq!(
        builtin_action(&cmd("export", vec![])),
        BuiltinAction::ExportMissingArgument
    );
}

#[test]
fn fixed_statuses() {
    assert_eq!(builtin_action(&cmd("pwd", vec!["x"])).fixed_status(), Some(1));
    assert_eq!(builtin_action(&cmd("export", vec!["K"])).fixed_status(), Some(1));
    assert_eq!(builtin_action(&cmd("export", vec![])).fixed_status(), Some(1));
    assert_eq!(builtin_action(&cmd("export", vec!["K=v"])).fixed_status(), Some(0));
    assert_eq!(builtin_action(&cmd("cd", vec![])).fixed_status(), None);
    assert_eq!(builtin_action(&cmd("pwd", vec![])).fixed_status(), None);
}
