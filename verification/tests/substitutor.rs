use echo::escape::CommandKind;
use echo::line::translate;
use echo::scanner::{backslash_ranges, BackslashCommandRanges};
use echo::substitutor::{replace_commands, substitute_bytes};

fn replaced(token: &str) -> String {
    let mut text = token.to_string();
    replace_commands(&mut text, backslash_ranges(token));
    text
}

#[test]
fn token_without_backslash_is_unchanged() {
    assert_eq!(translate("hello"), "hello");
    assert_eq!(translate(""), "");
    assert_eq!(translate("naïve text n r t"), "naïve text n r t");
    assert_eq!(replaced("hello"), "hello");
}

#[test]
fn newline_command_becomes_one_line_feed() {
    let out = translate("a\\nb");
    assert_eq!(out.as_bytes().to_vec(), vec![b'a', 10, b'b']);
    assert_eq!(out.len(), "a\\nb".len() - 1);
    assert_eq!(replaced("a\\nb"), "a\nb");
}

#[test]
fn escaped_backslash_is_not_read_twice() {
    let out = translate("\\\\n");
    assert_eq!(out.as_bytes().to_vec(), vec![b'\\', b'n']);
    assert_eq!(out.len(), 2);
}

#[test]
fn trailing_backslash_is_kept() {
    assert_eq!(translate("end\\"), "end\\");
    assert_eq!(translate("\\"), "\\");
    assert_eq!(translate("\\n\\"), "\n\\");
}

#[test]
fn unknown_command_is_kept() {
    assert_eq!(translate("\\q"), "\\q");
    assert_eq!(translate("a\\0b\\xc"), "a\\0b\\xc");
}

#[test]
fn each_command_gives_its_literal() {
    assert_eq!(translate("\\n").as_bytes().to_vec(), vec![10]);
    assert_eq!(translate("\\r").as_bytes().to_vec(), vec![13]);
    assert_eq!(translate("\\t").as_bytes().to_vec(), vec![9]);
    assert_eq!(translate("\\\\").as_bytes().to_vec(), vec![92]);
}

#[test]
fn several_kinds_in_one_token() {
    assert_eq!(translate("\\n\\t"), "\n\t");
    assert_eq!(translate("x\\ty\\nz\\rw\\\\v"), "x\ty\nz\rw\\v");
    assert_eq!(translate("\\t\\n\\t\\n"), "\t\n\t\n");
    assert_eq!(replaced("\\r\\n\\t\\\\"), "\r\n\t\\");
}

#[test]
fn length_drops_by_one_for_each_occurrence() {
    let token = "a\\nb\\tc\\\\d\\re\\q\\";
    let ranges = backslash_ranges(token);
    let count: usize =
        ranges.n.len() + ranges.r.len() + ranges.t.len() + ranges.back_slash.len();
    assert_eq!(count, 4);
    let mut text = token.to_string();
    replace_commands(&mut text, ranges);
    assert_eq!(text.len(), token.len() - count);
    assert_eq!(text, "a\nb\tc\\d\re\\q\\");
}

#[test]
fn multi_byte_characters_pass_through() {
    assert_eq!(translate("é\\tü"), "é\tü");
    assert_eq!(translate("日本\\n語"), "日本\n語");
    assert_eq!(translate("\\\\😀\\r"), "\\😀\r");
}

#[test]
fn empty_ranges_leave_the_token_as_it_is() {
    let mut text = "a\\nb".to_string();
    replace_commands(&mut text, BackslashCommandRanges::new());
    assert_eq!(text, "a\\nb");
    let out = substitute_bytes(b"a\\nb", &BackslashCommandRanges::new());
    assert_eq!(out, b"a\\nb".to_vec());
}

#[test]
fn some_of_the_commands_may_be_replaced() {
    let mut ranges = BackslashCommandRanges::new();
    ranges.record(CommandKind::Tab, 4);
    let mut text = "a\\nb\\tc".to_string();
    replace_commands(&mut text, ranges);
    assert_eq!(text, "a\\nb\tc");
}

#[test]
fn bytes_are_replaced_where_the_ranges_say() {
    let mut ranges = BackslashCommandRanges::new();
    ranges.record(CommandKind::Tab, 1);
    ranges.record(CommandKind::Newline, 4);
    let out = substitute_bytes(b"abcdefg", &ranges);
    assert_eq!(out, b"a\td\ng".to_vec());
}

#[test]
fn bytes_of_a_scanned_token_are_translated() {
    let token = "x\\ty\\nz\\rw\\\\v\\";
    let out = substitute_bytes(token.as_bytes(), &backslash_ranges(token));
    assert_eq!(out, b"x\ty\nz\rw\\v\\".to_vec());
}

#[test]
fn scanning_then_replacing_is_translating() {
    for token in ["", "\\", "\\\\", "a\\nb", "\\\\n", "\\q\\t", "end\\", "\\\\\\\\\\n"] {
        assert_eq!(replaced(token), translate(token));
    }
}
