use echo::line::output_line;

fn line(tokens: &[&str]) -> Vec<u8> {
    let args: Vec<String> = tokens.iter().map(|token| token.to_string()).collect();
    output_line(&args)
}

#[test]
fn without_the_flag_a_token_is_printed_verbatim() {
    assert_eq!(line(&["a\\nb"]), b"a\\nb\n".to_vec());
    assert_eq!(line(&["a\\nb"]).len(), 5);
}

#[test]
fn with_the_flag_a_command_is_translated() {
    assert_eq!(line(&["-e", "line1\\nline2"]), b"line1\nline2\n".to_vec());
}

#[test]
fn tokens_are_joined_by_single_spaces() {
    assert_eq!(line(&["a", "b", "c"]), b"a b c\n".to_vec());
}

#[test]
fn nothing_to_print_gives_an_empty_line() {
    assert_eq!(line(&[]), b"\n".to_vec());
    assert_eq!(line(&["-e"]), b"\n".to_vec());
    assert_eq!(line(&["-x", "-e"]), b"\n".to_vec());
}

#[test]
fn every_token_behind_the_flags_is_translated() {
    assert_eq!(line(&["-e", "a\\tb", "c\\\\d", "-e", "\\q"]), b"a\tb c\\d -e \\q\n".to_vec());
}

#[test]
fn ignored_flags_are_not_printed() {
    assert_eq!(line(&["-x", "a\\nb", "c"]), b"a\\nb c\n".to_vec());
    assert_eq!(line(&["--", "-e", "a\\nb"]), b"a\nb\n".to_vec());
}

#[test]
fn a_flag_behind_the_first_token_is_a_token() {
    assert_eq!(line(&["a", "-e", "b\\n"]), b"a -e b\\n\n".to_vec());
}

#[test]
fn empty_tokens_still_take_their_place() {
    assert_eq!(line(&["", ""]), b" \n".to_vec());
    assert_eq!(line(&["-e", "a", "", "b"]), b"a  b\n".to_vec());
    assert_eq!(line(&["-", "x"]), b"- x\n".to_vec());
}
