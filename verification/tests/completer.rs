use my_shell::completer::{
    builtin_candidates, command_candidates, glob_pattern, path_candidate, names_with_prefix, path_dirs, sorted_unique, CompletionKind, ShellHelper,
};

fn strings(v: Vec<&str>) -> Vec<String> {
    v.into_iter().map(String::from).collect()
}

#[test]
fn first_word_completes_commands() {
    assert_eq!(ShellHelper.completion_target("ec", 2), (0, CompletionKind::Command));
}

#[test]
fn later_word_completes_paths() {
    assert_eq!(ShellHelper.completion_target("ls sr", 5), (3, CompletionKind::Path));
    assert_eq!(ShellHelper.completion_target("ls a b/c d", 8), (5, CompletionKind::Path));
}

#[test]
fn empty_word_completes_nothing() {
    assert_eq!(ShellHelper.completion_target("ls ", 3), (3, CompletionKind::Nothing));
    assert_eq!(ShellHelper.completion_target("", 0), (0, CompletionKind::Nothing));
}

#[test]
fn cursor_in_the_middle_uses_text_before_it() {
    assert_eq!(ShellHelper.completion_target("grep foo", 3), (0, CompletionKind::Command));
}

#[test]
fn multibyte_text_counts_bytes() {
    let line = "é x";
    assert_eq!(ShellHelper.completion_target(line, line.len()), (3, CompletionKind::Path));
}

#[test]
fn builtins_matching_prefix() {
    assert_eq!(builtin_candidates("e"), strings(vec!["exit", "export"]));
    assert_eq!(builtin_candidates("p"), strings(vec!["pwd"]));
    assert_eq!(builtin_candidates("x"), strings(vec![]));
    assert_eq!(builtin_candidates("cd"), strings(vec!["cd"]));
}

#[test]
fn names_are_filtered_in_order() {
    let names = strings(vec!["gzip", "grep", "ls", "g"]);
    assert_eq!(names_with_prefix(&names, "gr"), strings(vec!["grep"]));
    assert_eq!(names_with_prefix(&names, "g"), strings(vec!["gzip", "grep", "g"]));
}

#[test]
fn path_is_split_at_colons() {
    assert_eq!(path_dirs("/bin:/usr/bin"), strings(vec!["/bin", "/usr/bin"]));
    assert_eq!(path_dirs(""), strings(vec![""]));
    assert_eq!(path_dirs("a::b:"), strings(vec!["a", "", "b", ""]));
}

#[test]
fn candidates_are_sorted_without_duplicates() {
    let input = strings(vec!["pwd", "cd", "pwd", "ab", "a", "Zed", "é"]);
    assert_eq!(sorted_unique(&input), strings(vec!["Zed", "a", "ab", "cd", "pwd", "é"]));
    assert_eq!(ShellHelper.finish(&input), sorted_unique(&input));
}

#[test]
fn sorted_order_matches_string_order() {
    let mut input = strings(vec!["b/", "b", "a-b", "a_b", "ä", "z", "B"]);
    let r = sorted_unique(&input);
    input.sort();
    input.dedup();
    assert_eq!(r, input);
}

#[test]
fn command_candidates_join_builtins_and_listings() {
    let listings = vec![strings(vec!["exa", "ls"]), strings(vec![]), strings(vec!["expr", "exit"])];
    assert_eq!(
        command_candidates("ex", &listings),
        strings(vec!["exit", "export", "exa", "expr", "exit"])
    );
}

#[test]
fn glob_pattern_and_path_candidates() {
    assert_eq!(glob_pattern("src/ma"), "src/ma*");
    assert_eq!(path_candidate("src".to_string(), true), "src/");
    assert_eq!(path_candidate("main.rs".to_string(), false), "main.rs");
}
