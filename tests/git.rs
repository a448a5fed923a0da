use monobuild::git::{Command, Git, GitError, Mode};

#[test]
fn base_on_feature_branch() {
    let mut actual_command: Option<Command> = None;
    let expected_command = Some(vec![
        "git".into(),
        "merge-base".into(),
        "main".into(),
        "HEAD".into(),
    ]);

    let mock_exec = |cmd: Command| -> Result<String, String> {
        actual_command = Some(cmd);

        Ok("abc\n".to_string()) // check new line is trimmed
    };

    let mut git = Git::new(mock_exec);

    let actual = git.diff_base(Mode::Feature("main".to_string()));
    let expected = Ok("abc".to_string());

    assert_eq!(actual, expected);
    assert_eq!(actual_command, expected_command);
}

#[test]
fn base_on_main_branch() {
    let mut actual_command: Option<Command> = None;
    let expected_command = None;

    let mock_exec = |cmd: Command| -> Result<String, String> {
        actual_command = Some(cmd);

        Ok("abc\n".to_string())
    };

    let mut git = Git::new(mock_exec);

    let actual = git.diff_base(Mode::Main("HEAD^1".to_string()));
    let expected = Ok("HEAD^1".to_string());

    assert_eq!(actual, expected);
    assert_eq!(actual_command, expected_command);
}

#[test]
fn diff_on_feature_branch() {
    let mut actual_commands: Vec<Command> = vec![];
    let expected_command: Vec<String> = vec![
        "git".into(),
        "diff".into(),
        "--no-commit-id".into(),
        "--name-only".into(),
        "-r".into(),
        "main".into(),
    ];

    let mock_exec = |cmd: Command| -> Result<String, String> {
        actual_commands.push(cmd);

        if actual_commands.len() < 2 {
            Ok("main\n".to_string())
        } else {
            Ok("one\ntwo\nthree\n".to_string())
        }
    };

    let mut git = Git::new(mock_exec);

    let actual = git.diff(Mode::Feature("main".to_string()));
    let expected = Ok(vec!["one".to_string(), "two".to_string(), "three".to_string()]);

    assert_eq!(actual, expected);
    assert_eq!(actual_commands[1], expected_command);
}

#[test]
fn diff_on_main_branch() {
    let mut actual_commands: Vec<Command> = vec![];
    let expected_command: Vec<String> = vec![
        "git".into(),
        "diff".into(),
        "--no-commit-id".into(),
        "--name-only".into(),
        "-r".into(),
        "HEAD^1".into(),
    ];

    let mock_exec = |cmd: Command| -> Result<String, String> {
        actual_commands.push(cmd);

        Ok("one\ntwo\nthree\n".to_string())
    };

    let mut git = Git::new(mock_exec);

    let actual = git.diff(Mode::Main("HEAD^1".to_string()));
    let expected = Ok(vec!["one".to_string(), "two".to_string(), "three".to_string()]);

    assert_eq!(actual, expected);
    assert_eq!(actual_commands[0], expected_command);
}

#[test]
fn merge_base_failure_names_the_branch() {
    let mut git = Git::new(|_cmd: Command| -> Result<String, String> { Err("no such branch".to_string()) });

    let actual = git.diff_base(Mode::Feature("dev".to_string()));

    assert_eq!(actual, Err(GitError::MergeBase("dev".to_string(), "no such branch".to_string())));
}

#[test]
fn diff_failure_is_reported() {
    let mut calls = 0;
    let mut git = Git::new(|_cmd: Command| -> Result<String, String> {
        calls += 1;
        if calls == 1 {
            Ok("base\n".to_string())
        } else {
            Err("broken".to_string())
        }
    });

    let actual = git.diff(Mode::Feature("main".to_string()));

    assert_eq!(actual, Err(GitError::Diff("broken".to_string())));
}
