use echo::escape::CommandKind;
use echo::scanner::{backslash_ranges, BackslashCommandRanges};
use std::ops::Range;

fn none() -> Vec<Range<usize>> {
    Vec::new()
}

#[test]
fn new_holds_no_ranges() {
    let ranges = BackslashCommandRanges::new();
    assert_eq!(ranges.n, none());
    assert_eq!(ranges.r, none());
    assert_eq!(ranges.t, none());
    assert_eq!(ranges.back_slash, none());
}

#[test]
fn record_appends_a_two_byte_range_to_its_command() {
    let mut ranges = BackslashCommandRanges::new();
    ranges.record(CommandKind::Tab, 0);
    ranges.record(CommandKind::Newline, 2);
    ranges.record(CommandKind::Tab, 7);
    assert_eq!(ranges.n, vec![2..4]);
    assert_eq!(ranges.t, vec![0..2, 7..9]);
    assert_eq!(ranges.r, none());
    assert_eq!(ranges.back_slash, none());
}

#[test]
fn scan_of_empty_token_finds_nothing() {
    let ranges = backslash_ranges("");
    assert_eq!(ranges.n, none());
    assert_eq!(ranges.r, none());
    assert_eq!(ranges.t, none());
    assert_eq!(ranges.back_slash, none());
}

#[test]
fn scan_of_plain_token_finds_nothing() {
    let ranges = backslash_ranges("hello, world");
    assert_eq!(ranges.n, none());
    assert_eq!(ranges.r, none());
    assert_eq!(ranges.t, none());
    assert_eq!(ranges.back_slash, none());
}

#[test]
fn scan_groups_each_command_by_kind() {
    let ranges = backslash_ranges("\\n\\t\\r\\\\");
    assert_eq!(ranges.n, vec![0..2]);
    assert_eq!(ranges.t, vec![2..4]);
    assert_eq!(ranges.r, vec![4..6]);
    assert_eq!(ranges.back_slash, vec![6..8]);
}

#[test]
fn scan_keeps_each_group_ascending() {
    let ranges = backslash_ranges("a\\nb\\tc\\nd\\n");
    assert_eq!(ranges.n, vec![1..3, 7..9, 10..12]);
    assert_eq!(ranges.t, vec![4..6]);
    assert_eq!(ranges.r, none());
    assert_eq!(ranges.back_slash, none());
}

#[test]
fn scan_resumes_behind_an_escaped_backslash() {
    let ranges = backslash_ranges("\\\\n");
    assert_eq!(ranges.back_slash, vec![0..2]);
    assert_eq!(ranges.n, none());
    assert_eq!(ranges.r, none());
    assert_eq!(ranges.t, none());
}

#[test]
fn scan_pairs_a_run_of_backslashes_from_the_left() {
    let ranges = backslash_ranges("\\\\\\n");
    assert_eq!(ranges.back_slash, vec![0..2]);
    assert_eq!(ranges.n, vec![2..4]);
    let ranges = backslash_ranges("\\\\\\\\\\");
    assert_eq!(ranges.back_slash, vec![0..2, 2..4]);
    assert_eq!(ranges.n, none());
}

#[test]
fn scan_leaves_a_trailing_backslash_unmatched() {
    let ranges = backslash_ranges("end\\");
    assert_eq!(ranges.n, none());
    assert_eq!(ranges.r, none());
    assert_eq!(ranges.t, none());
    assert_eq!(ranges.back_slash, none());
}

#[test]
fn scan_passes_over_an_unknown_letter() {
    let ranges = backslash_ranges("\\q\\n");
    assert_eq!(ranges.n, vec![2..4]);
    assert_eq!(ranges.back_slash, none());
    let ranges = backslash_ranges("\\q");
    assert_eq!(ranges.n, none());
    assert_eq!(ranges.r, none());
    assert_eq!(ranges.t, none());
    assert_eq!(ranges.back_slash, none());
}

#[test]
fn scan_counts_positions_in_bytes() {
    // `é` takes two bytes, so the command begins at byte 2.
    let ranges = backslash_ranges("é\\t");
    assert_eq!(ranges.t, vec![2..4]);
}

#[test]
fn occurrences_never_overlap_and_stay_in_bounds() {
    let token = "\\\\\\\\n\\t\\\\\\r\\";
    let ranges = backslash_ranges(token);
    let mut all: Vec<Range<usize>> = Vec::new();
    all.extend(ranges.n);
    all.extend(ranges.r);
    all.extend(ranges.t);
    all.extend(ranges.back_slash);
    all.sort_by_key(|range| range.start);
    for range in &all {
        assert_eq!(range.end, range.start + 2);
        assert!(range.end <= token.len());
    }
    for pair in all.windows(2) {
        assert!(pair[0].end <= pair[1].start);
    }
}

#[test]
fn command_letters_and_literals() {
    assert_eq!(CommandKind::from_letter(b'n'), Some(CommandKind::Newline));
    assert_eq!(CommandKind::from_letter(b'r'), Some(CommandKind::CarriageReturn));
    assert_eq!(CommandKind::from_letter(b't'), Some(CommandKind::Tab));
    assert_eq!(CommandKind::from_letter(b'\\'), Some(CommandKind::Backslash));
    assert_eq!(CommandKind::from_letter(b'q'), None);
    assert_eq!(CommandKind::from_letter(b'N'), None);
    assert_eq!(CommandKind::Newline.literal(), b'\n');
    assert_eq!(CommandKind::CarriageReturn.literal(), b'\r');
    assert_eq!(CommandKind::Tab.literal(), b'\t');
    assert_eq!(CommandKind::Backslash.literal(), b'\\');
}
