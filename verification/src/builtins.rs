//! What the builtin commands `cd`, `pwd` and `export` ask for.
//!
//! Acting on the answer (changing directory, printing, setting a variable)
//! is left to the caller.

use vstd::prelude::*;
use vstd::string::{StrSliceExecFns, StringExecFns};
use crate::parser::SimpleCommand;
use crate::text::str_equals;

verus! {

broadcast use vstd::string::group_string_axioms;

/// What running a builtin command amounts to.
#[derive(Debug, PartialEq)]
pub enum BuiltinAction {
    /// `cd` with no argument: change to the home directory.
    ChangeToHome,
    /// `cd DIR`: change to the first argument.
    ChangeDir(String),
    /// `pwd`: print the working directory.
    PrintDir,
    /// `pwd` with arguments, which it does not take.
    PwdTooManyArguments,
    /// `export KEY=VALUE`: set an environment variable.
    SetVar { key: String, value: String },
    /// `export` whose first argument holds no `=`.
    ExportInvalidFormat,
    /// `export` with no argument.
    ExportMissingArgument,
}

/// The value of a `BuiltinAction`.
pub enum SpecBuiltinAction {
    ChangeToHome,
    ChangeDir(Seq<char>),
    PrintDir,
    PwdTooManyArguments,
    SetVar { key: Seq<char>, value: Seq<char> },
    ExportInvalidFormat,
    ExportMissingArgument,
}

impl View for BuiltinAction {
    type V = SpecBuiltinAction;

    open spec fn view(&self) -> SpecBuiltinAction {
        match self {
            BuiltinAction::ChangeToHome => SpecBuiltinAction::ChangeToHome,
            BuiltinAction::ChangeDir(d) => SpecBuiltinAction::ChangeDir(d@),
            BuiltinAction::PrintDir => SpecBuiltinAction::PrintDir,
            BuiltinAction::PwdTooManyArguments => SpecBuiltinAction::PwdTooManyArguments,
            BuiltinAction::SetVar { key, value } => SpecBuiltinAction::SetVar {
                key: key@,
                value: value@,
            },
            BuiltinAction::ExportInvalidFormat => SpecBuiltinAction::ExportInvalidFormat,
            BuiltinAction::ExportMissingArgument => SpecBuiltinAction::ExportMissingArgument,
        }
    }
}

/// The exit status of an action whose status does not depend on the system:
/// 1 for a refused command, 0 for setting a variable. Changing or printing
/// the directory succeeds or fails with the system, so it has none here.
pub open spec fn spec_fixed_status(a: SpecBuiltinAction) -> Option<i32> {
    match a {
        SpecBuiltinAction::PwdTooManyArguments => Some(1),
        SpecBuiltinAction::ExportInvalidFormat => Some(1),
        SpecBuiltinAction::ExportMissingArgument => Some(1),
        SpecBuiltinAction::SetVar { .. } => Some(0),
        _ => None,
    }
}

impl BuiltinAction {
    /// The exit status of this action when it does not depend on the system.
    pub fn fixed_status(&self) -> (r: Option<i32>)
        ensures
            r == spec_fixed_status(self@),
    {
        match self {
            BuiltinAction::PwdTooManyArguments => Some(1),
            BuiltinAction::ExportInvalidFormat => Some(1),
            BuiltinAction::ExportMissingArgument => Some(1),
            BuiltinAction::SetVar { .. } => Some(0),
            _ => None,
        }
    }
}

pub open spec fn cd_name() -> Seq<char> {
    seq!['c', 'd']
}

pub open spec fn pwd_name() -> Seq<char> {
    seq!['p', 'w', 'd']
}

pub open spec fn export_name() -> Seq<char> {
    seq!['e', 'x', 'p', 'o', 'r', 't']
}

/// The names that `builtin_action` answers for.
pub open spec fn handles_builtin(name: Seq<char>) -> bool {
    name == cd_name() || name == pwd_name() || name == export_name()
}

/// The position of the first `=` in `s` at or after `i`, if any.
pub open spec fn first_eq_from(s: Seq<char>, i: int) -> Option<int>
    decreases s.len() - i,
{
    if i < 0 || i >= s.len() {
        None
    } else if s[i] == '=' {
        Some(i)
    } else {
        first_eq_from(s, i + 1)
    }
}

/// `export ARG`: `ARG` split at its first `=` into a key and a value.
pub open spec fn spec_export(arg: Seq<char>) -> SpecBuiltinAction {
    match first_eq_from(arg, 0) {
        Some(k) => SpecBuiltinAction::SetVar { key: arg.take(k), value: arg.skip(k + 1) },
        None => SpecBuiltinAction::ExportInvalidFormat,
    }
}

/// What the builtin `name` asks for, given its arguments.
pub open spec fn spec_builtin_action(name: Seq<char>, args: Seq<Seq<char>>) -> SpecBuiltinAction {
    if name == cd_name() {
        if args.len() == 0 {
            SpecBuiltinAction::ChangeToHome
        } else {
            SpecBuiltinAction::ChangeDir(args[0])
        }
    } else if name == pwd_name() {
        if args.len() == 0 {
            SpecBuiltinAction::PrintDir
        } else {
            SpecBuiltinAction::PwdTooManyArguments
        }
    } else if args.len() == 0 {
        SpecBuiltinAction::ExportMissingArgument
    } else {
        spec_export(args[0])
    }
}

/// Splits an `export` argument at its first `=`.
fn export_action(arg: &str) -> (a: BuiltinAction)
    ensures
        a@ == spec_export(arg@),
{
    let n = arg.unicode_len();
    let mut i: usize = 0;
    while i < n
        invariant
            n == arg@.len(),
            i <= n,
            first_eq_from(arg@, i as int) == first_eq_from(arg@, 0),
        decreases n - i,
    {
        if arg.get_char(i) == '=' {
            let key = String::from_str(arg.substring_char(0, i));
            let value = String::from_str(arg.substring_char(i + 1, n));
            assert(arg@.subrange(0, i as int) =~= arg@.take(i as int));
            assert(arg@.subrange(i + 1, n as int) =~= arg@.skip(i + 1));
            return BuiltinAction::SetVar { key, value };
        }
        i = i + 1;
    }
    BuiltinAction::ExportInvalidFormat
}

/// Decides what the builtin command `command` asks for: `cd` changes to its
/// first argument or, without one, to the home directory; `pwd` prints the
/// working directory and takes no arguments; `export KEY=VALUE` sets a
/// variable.
pub fn builtin_action(command: &SimpleCommand) -> (a: BuiltinAction)
    requires
        handles_builtin(command.name@),
    ensures
        a@ == spec_builtin_action(command@.name, command@.args),
{
    proof {
        reveal_strlit("cd");
        reveal_strlit("pwd");
        assert("cd"@ =~= cd_name());
        assert("pwd"@ =~= pwd_name());
    }
    let name = command.name.as_str();
    if str_equals(name, "cd") {
        if command.args.len() == 0 {
            BuiltinAction::ChangeToHome
        } else {
            BuiltinAction::ChangeDir(command.args[0].clone())
        }
    } else if str_equals(name, "pwd") {
        if command.args.len() == 0 {
            BuiltinAction::PrintDir
        } else {
            BuiltinAction::PwdTooManyArguments
        }
    } else if command.args.len() == 0 {
        BuiltinAction::ExportMissingArgument
    } else {
        export_action(command.args[0].as_str())
    }
}


proof fn lemma_first_eq_from(s: Seq<char>, i: int)
    requires
        0 <= i <= s.len(),
    ensures
        match first_eq_from(s, i) {
            Some(k) => i <= k < s.len() && s[k] == '=' && forall|m: int| i <= m < k ==> s[m] != '=',
            None => forall|m: int| i <= m < s.len() ==> s[m] != '=',
        },
    decreases s.len() - i,
{
    if i < s.len() && s[i] != '=' {
        lemma_first_eq_from(s, i + 1);
    }
}

/// `cd` and `export` act on their first argument only, whatever follows it:
/// `cd DIR ...` changes to `DIR`; `export ARG ...` with a `=` in `ARG` sets the
/// variable named by what comes before the first `=` to what comes after it,
/// and without a `=` is refused.
pub proof fn law_builtins_use_first_argument(args: Seq<Seq<char>>)
    requires
        args.len() > 0,
    ensures
        spec_builtin_action(cd_name(), args) == SpecBuiltinAction::ChangeDir(args[0]),
        spec_builtin_action(export_name(), args) == spec_builtin_action(export_name(), seq![args[0]]),
        match spec_builtin_action(export_name(), args) {
            SpecBuiltinAction::SetVar { key, value } => key + seq!['='] + value == args[0] && !key.contains('='),
            SpecBuiltinAction::ExportInvalidFormat => !args[0].contains('='),
            _ => false,
        },
{
    let a = args[0];
    assert(cd_name() != export_name());
    assert(pwd_name() != export_name());
    lemma_first_eq_from(a, 0);
    match first_eq_from(a, 0) {
        Some(k) => {
            assert(a.take(k) + seq!['='] + a.skip(k + 1) =~= a);
            if a.take(k).contains('=') {
                let m = choose|m: int| 0 <= m < a.take(k).len() && a.take(k)[m] == '=';
                assert(a[m] == '=');
            }
        },
        None => {
            if a.contains('=') {
                let m = choose|m: int| 0 <= m < a.len() && a[m] == '=';
                assert(a[m] == '=');
            }
        },
    }
}


/// Without arguments `cd` goes home, `pwd` prints the directory and `export`
/// is refused; `pwd` with any argument is refused.
pub proof fn law_builtins_without_arguments(args: Seq<Seq<char>>)
    ensures
        args.len() == 0 ==> spec_builtin_action(cd_name(), args) == SpecBuiltinAction::ChangeToHome,
        args.len() == 0 ==> spec_builtin_action(pwd_name(), args) == SpecBuiltinAction::PrintDir,
        args.len() == 0 ==> spec_builtin_action(export_name(), args) == SpecBuiltinAction::ExportMissingArgument,
        args.len() > 0 ==> spec_builtin_action(pwd_name(), args) == SpecBuiltinAction::PwdTooManyArguments,
{
    assert(cd_name() != pwd_name());
    assert(cd_name() != export_name());
    assert(pwd_name() != export_name());
}

} // verus!
