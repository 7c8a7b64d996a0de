use echo::options::{flags, Flags};

fn args(tokens: &[&str]) -> Vec<String> {
    tokens.iter().map(|token| token.to_string()).collect()
}

#[test]
fn new_flags_enable_nothing() {
    assert!(!Flags::new().enable_backslash_commands);
}

#[test]
fn no_arguments_no_start() {
    let (found, start) = flags(&args(&[]));
    assert!(!found.enable_backslash_commands);
    assert_eq!(start, None);
}

#[test]
fn only_flags_no_start() {
    let (found, start) = flags(&args(&["-e"]));
    assert!(found.enable_backslash_commands);
    assert_eq!(start, None);
    let (found, start) = flags(&args(&["-x", "-y"]));
    assert!(!found.enable_backslash_commands);
    assert_eq!(start, None);
}

#[test]
fn enable_flag_before_the_tokens() {
    let (found, start) = flags(&args(&["-e", "a\\nb"]));
    assert!(found.enable_backslash_commands);
    assert_eq!(start, Some(1));
}

#[test]
fn other_flags_are_ignored() {
    let (found, start) = flags(&args(&["-x", "a"]));
    assert!(!found.enable_backslash_commands);
    assert_eq!(start, Some(1));
    let (found, start) = flags(&args(&["-x", "-e", "-n", "a", "b"]));
    assert!(found.enable_backslash_commands);
    assert_eq!(start, Some(3));
    let (found, start) = flags(&args(&["-ee", "--", "a"]));
    assert!(!found.enable_backslash_commands);
    assert_eq!(start, Some(2));
}

#[test]
fn first_ordinary_token_ends_the_flags() {
    let (found, start) = flags(&args(&["a", "-e"]));
    assert!(!found.enable_backslash_commands);
    assert_eq!(start, Some(0));
}

#[test]
fn bare_hyphen_and_empty_token_are_ordinary() {
    let (found, start) = flags(&args(&["-"]));
    assert!(!found.enable_backslash_commands);
    assert_eq!(start, Some(0));
    let (found, start) = flags(&args(&[""]));
    assert!(!found.enable_backslash_commands);
    assert_eq!(start, Some(0));
    let (found, start) = flags(&args(&["-e", "-", "-e"]));
    assert!(found.enable_backslash_commands);
    assert_eq!(start, Some(1));
    let (found, start) = flags(&args(&["", "-e"]));
    assert!(!found.enable_backslash_commands);
    assert_eq!(start, Some(0));
}
