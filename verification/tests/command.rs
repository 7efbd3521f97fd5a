use kvlog::command::{Action, Command};

fn words(items: &[&str]) -> Vec<String> {
    items.iter().map(|s| s.to_string()).collect()
}

#[test]
fn action_words_parse() {
    assert_eq!(Action::from_str("set"), Ok(Action::Put));
    assert_eq!(Action::from_str("get"), Ok(Action::Get));
    assert_eq!(Action::from_str("del"), Ok(Action::Del));
    assert_eq!(Action::from_str("exit"), Ok(Action::Exit));
    assert_eq!(Action::from_str("load"), Ok(Action::Load));
    assert_eq!(Action::from_str("put"), Err(()));
    assert_eq!(Action::from_str(""), Err(()));
    assert_eq!(Action::from_str("SET"), Err(()));
}

#[test]
fn build_set_command() {
    let cmd = Command::build(&words(&["set", "k", "v"])).unwrap();
    assert_eq!(cmd.action, Action::Put);
    assert_eq!(cmd.key, Some("k".to_string()));
    assert_eq!(cmd.val, Some("v".to_string()));
}

#[test]
fn build_get_command() {
    let cmd = Command::build(&words(&["get", "k"])).unwrap();
    assert_eq!(cmd.action, Action::Get);
    assert_eq!(cmd.key, Some("k".to_string()));
    assert_eq!(cmd.val, None);
}

#[test]
fn build_del_command() {
    let cmd = Command::build(&words(&["del", "k"])).unwrap();
    assert_eq!(cmd.action, Action::Del);
    assert_eq!(cmd.key, Some("k".to_string()));
    assert_eq!(cmd.val, None);
}

#[test]
fn build_load_command() {
    let cmd = Command::build(&words(&["load", "other.log"])).unwrap();
    assert_eq!(cmd.action, Action::Load);
    assert_eq!(cmd.key, Some("other.log".to_string()));
    assert_eq!(cmd.val, None);
}

#[test]
fn build_exit_takes_no_key() {
    let cmd = Command::build(&words(&["exit"])).unwrap();
    assert_eq!(cmd.action, Action::Exit);
    assert_eq!(cmd.key, None);
    assert_eq!(cmd.val, None);
}

#[test]
fn build_rejects_missing_parts() {
    assert_eq!(Command::build(&words(&[])), Err("Didn't get a command"));
    assert_eq!(Command::build(&words(&["frobnicate"])), Err("Invalid action"));
    assert_eq!(Command::build(&words(&["get"])), Err("Didn't get a key"));
    assert_eq!(
        Command::build(&words(&["set", "k"])),
        Err("Didn't get a value for 'set' command")
    );
}

#[test]
fn build_ignores_extra_words() {
    let cmd = Command::build(&words(&["get", "k", "extra"])).unwrap();
    assert_eq!(cmd.action, Action::Get);
    assert_eq!(cmd.key, Some("k".to_string()));
    assert_eq!(cmd.val, None);
}
