//! What holds of scanning and substituting together.

use crate::escape::{escape_at, translated, translated_from, CommandKind, BACKSLASH};
use crate::scanner::{lemma_wf_widens, lemma_with_keeps_wf, scan, starts_from, OccurrenceSet};
use crate::substitutor::{substitute, substitute_from};
use vstd::prelude::*;

verus! {

/// A scan that begins at position `i` finds nothing before `i`.
proof fn lemma_starts_from_at_or_after(token: Seq<u8>, i: int, kind: CommandKind)
    requires
        0 <= i,
    ensures
        forall|j: int|
            0 <= j < starts_from(token, i, kind).len() ==> #[trigger] starts_from(token, i, kind)[j]
                >= i,
    decreases token.len() - i,
{
    let here = starts_from(token, i, kind);
    if i < token.len() {
        match escape_at(token, i) {
            Some(found) => {
                lemma_starts_from_at_or_after(token, i + 2, kind);
                let rest = starts_from(token, i + 2, kind);
                assert forall|j: int| 0 <= j < here.len() implies #[trigger] here[j] >= i by {
                    if found == kind {
                        if j > 0 {
                            assert(here[j] == rest[j - 1]);
                        }
                    } else {
                        assert(here[j] == rest[j]);
                    }
                }
            },
            None => {
                lemma_starts_from_at_or_after(token, i + 1, kind);
                assert(here == starts_from(token, i + 1, kind));
                assert forall|j: int| 0 <= j < here.len() implies #[trigger] here[j] >= i by {}
            },
        }
    } else {
        assert(here.len() == 0);
    }
}

/// A position that lies behind all of `front` and before all of `back` is
/// not among the two put together.
proof fn lemma_absent_between(front: Seq<int>, back: Seq<int>, i: int)
    requires
        forall|j: int| 0 <= j < front.len() ==> #[trigger] front[j] < i,
        forall|j: int| 0 <= j < back.len() ==> #[trigger] back[j] > i,
    ensures
        !(front + back).contains(i),
{
    let whole = front + back;
    assert forall|j: int| 0 <= j < whole.len() implies #[trigger] whole[j] != i by {
        if j < front.len() {
            assert(whole[j] == front[j]);
        } else {
            assert(whole[j] == back[j - front.len()]);
        }
    }
}

/// Where `found` are the occurrences of `kind` before position `i`, and the
/// scan finds no occurrence of `kind` at `i` itself, none of the scan's
/// occurrences of `kind` starts at `i`.
proof fn lemma_kind_absent(token: Seq<u8>, found: Seq<int>, i: int, resume: int, kind: CommandKind)
    requires
        0 <= i < resume,
        forall|j: int| 0 <= j < found.len() ==> #[trigger] found[j] + 2 <= i,
        scan(token).of_kind(kind) == found + starts_from(token, resume, kind),
    ensures
        !scan(token).of_kind(kind).contains(i),
{
    lemma_starts_from_at_or_after(token, resume, kind);
    lemma_absent_between(found, starts_from(token, resume, kind), i);
}

/// The state of a scan that has reached position `i`: `found` holds what it
/// has recorded, and the rest of the scan will add what it finds from `i` on.
spec fn scan_reached(token: Seq<u8>, found: OccurrenceSet, i: int) -> bool {
    &&& 0 <= i <= token.len()
    &&& found.wf(i)
    &&& forall|kind: CommandKind| #[trigger]
        scan(token).of_kind(kind) == found.of_kind(kind) + starts_from(token, i, kind)
}

/// From any state that the scan reaches: the finished scan is well formed,
/// substituting its occurrences from there on is escape processing from there
/// on, and what remains loses one byte for each occurrence not yet recorded.
proof fn lemma_scan_from(token: Seq<u8>, found: OccurrenceSet, i: int)
    requires
        scan_reached(token, found, i),
    ensures
        scan(token).wf(token.len() as int),
        substitute_from(token, scan(token), i) == translated_from(token, i),
        translated_from(token, i).len() + scan(token).count() == token.len() - i + found.count(),
    decreases token.len() - i,
{
    let whole = scan(token);
    let n = CommandKind::Newline;
    let r = CommandKind::CarriageReturn;
    let t = CommandKind::Tab;
    let b = CommandKind::Backslash;
    assert(whole.of_kind(n) == found.of_kind(n) + starts_from(token, i, n));
    assert(whole.of_kind(r) == found.of_kind(r) + starts_from(token, i, r));
    assert(whole.of_kind(t) == found.of_kind(t) + starts_from(token, i, t));
    assert(whole.of_kind(b) == found.of_kind(b) + starts_from(token, i, b));
    if i >= token.len() {
        assert(whole.n =~= found.n);
        assert(whole.r =~= found.r);
        assert(whole.t =~= found.t);
        assert(whole.back_slash =~= found.back_slash);
        assert(whole == found);
    } else {
        match escape_at(token, i) {
            Some(kind) => {
                let grown = found.with(kind, i);
                lemma_with_keeps_wf(found, kind, i);
                assert forall|other: CommandKind| #[trigger]
                    whole.of_kind(other) == grown.of_kind(other) + starts_from(
                        token,
                        i + 2,
                        other,
                    ) by {
                    assert(whole.of_kind(other) == found.of_kind(other) + starts_from(
                        token,
                        i,
                        other,
                    ));
                    assert(found.of_kind(other) + starts_from(token, i, other) =~= grown.of_kind(
                        other,
                    ) + starts_from(token, i + 2, other));
                }
                lemma_scan_from(token, grown, i + 2);
                assert forall|other: CommandKind| other != kind implies !(#[trigger] whole.of_kind(
                    other,
                )).contains(i) by {
                    assert(grown.of_kind(other) == found.of_kind(other));
                    assert forall|j: int| 0 <= j < found.of_kind(other).len() implies (
                    #[trigger] found.of_kind(other)[j]) + 2 <= i by {}
                    lemma_kind_absent(token, found.of_kind(other), i, i + 2, other);
                }
                assert(whole.of_kind(kind)[found.of_kind(kind).len() as int] == i);
                assert(whole.of_kind(kind).contains(i));
                assert(whole.kind_at(i) == Some(kind));
                assert(grown.count() == found.count() + 1);
            },
            None => {
                lemma_wf_widens(found, i, i + 1);
                assert forall|other: CommandKind| #[trigger]
                    whole.of_kind(other) == found.of_kind(other) + starts_from(
                        token,
                        i + 1,
                        other,
                    ) by {
                    assert(whole.of_kind(other) == found.of_kind(other) + starts_from(
                        token,
                        i,
                        other,
                    ));
                }
                lemma_scan_from(token, found, i + 1);
                assert forall|other: CommandKind| !(#[trigger] whole.of_kind(other)).contains(
                    i,
                ) by {
                    assert forall|j: int| 0 <= j < found.of_kind(other).len() implies (
                    #[trigger] found.of_kind(other)[j]) + 2 <= i by {}
                    lemma_kind_absent(token, found.of_kind(other), i, i + 1, other);
                }
                assert(!whole.of_kind(n).contains(i));
                assert(!whole.of_kind(r).contains(i));
                assert(!whole.of_kind(t).contains(i));
                assert(!whole.of_kind(b).contains(i));
                assert(whole.kind_at(i) == None::<CommandKind>);
            },
        }
    }
}

/// The scan starts with nothing recorded.
proof fn lemma_scan_begins(token: Seq<u8>)
    ensures
        scan_reached(token, OccurrenceSet::empty(), 0),
{
    let found = OccurrenceSet::empty();
    assert forall|kind: CommandKind| #[trigger]
        scan(token).of_kind(kind) == found.of_kind(kind) + starts_from(token, 0, kind) by {
        assert(found.of_kind(kind) + starts_from(token, 0, kind) =~= starts_from(token, 0, kind));
    }
}

/// What the scanner finds in any token is well formed for that token: every
/// occurrence lies within the token, no byte belongs to two occurrences, and
/// the occurrences of each command are ascending.
pub proof fn lemma_scan_well_formed(token: Seq<u8>)
    ensures
        scan(token).wf(token.len() as int),
{
    lemma_scan_begins(token);
    lemma_scan_from(token, OccurrenceSet::empty(), 0);
}

/// Scanning a token and substituting what the scan found is escape
/// processing: reading the token from left to right, each command gives its
/// literal and every other byte gives itself.
pub proof fn lemma_substitute_scan_is_translated(token: Seq<u8>)
    ensures
        substitute(token, scan(token)) == translated(token),
{
    lemma_scan_begins(token);
    lemma_scan_from(token, OccurrenceSet::empty(), 0);
}

/// Escape processing shortens a token by exactly one byte for each
/// occurrence that the scanner finds in it.
pub proof fn lemma_translated_length(token: Seq<u8>)
    ensures
        translated(token).len() == token.len() - scan(token).count(),
{
    lemma_scan_begins(token);
    lemma_scan_from(token, OccurrenceSet::empty(), 0);
}

/// Where no command begins from position `i` on, the scan finds nothing
/// there and escape processing keeps every byte.
proof fn lemma_no_command_from(token: Seq<u8>, i: int)
    requires
        0 <= i <= token.len(),
        forall|j: int| escape_at(token, j) is None,
    ensures
        forall|kind: CommandKind| (#[trigger] starts_from(token, i, kind)).len() == 0,
        translated_from(token, i) == token.subrange(i, token.len() as int),
    decreases token.len() - i,
{
    if i < token.len() {
        assert(escape_at(token, i) is None);
        lemma_no_command_from(token, i + 1);
    }
    assert forall|kind: CommandKind| (#[trigger] starts_from(token, i, kind)).len() == 0 by {
        if i < token.len() {
            assert(starts_from(token, i, kind) == starts_from(token, i + 1, kind));
        }
    }
    assert(translated_from(token, i) =~= token.subrange(i, token.len() as int));
}

/// A token in which no backslash is followed by a command letter is left
/// unchanged by escape processing, and the scanner finds no occurrence in
/// it. Such is a backslash before any other byte, and one that ends the token.
pub proof fn lemma_without_command_unchanged(token: Seq<u8>)
    requires
        forall|i: int| escape_at(token, i) is None,
    ensures
        scan(token) == OccurrenceSet::empty(),
        translated(token) == token,
        substitute(token, scan(token)) == token,
{
    lemma_no_command_from(token, 0);
    lemma_substitute_scan_is_translated(token);
    assert(token.subrange(0, token.len() as int) =~= token);
    assert(scan(token).n =~= Seq::<int>::empty());
    assert(scan(token).r =~= Seq::<int>::empty());
    assert(scan(token).t =~= Seq::<int>::empty());
    assert(scan(token).back_slash =~= Seq::<int>::empty());
}

/// A token that holds no backslash is left unchanged by escape processing.
pub proof fn lemma_plain_token_unchanged(token: Seq<u8>)
    requires
        !token.contains(BACKSLASH),
    ensures
        substitute(token, scan(token)) == token,
        translated(token) == token,
{
    assert forall|i: int| escape_at(token, i) is None by {
        if 0 <= i && i + 1 < token.len() && token[i] == BACKSLASH {
            assert(token.contains(BACKSLASH));
        }
    }
    lemma_without_command_unchanged(token);
}

/// A token whose only backslash is its last byte is left unchanged by escape
/// processing: nothing follows that backslash, so it begins no command.
pub proof fn lemma_trailing_backslash_unchanged(token: Seq<u8>)
    requires
        forall|i: int| 0 <= i < token.len() - 1 ==> token[i] != BACKSLASH,
    ensures
        substitute(token, scan(token)) == token,
        translated(token) == token,
{
    lemma_without_command_unchanged(token);
}

/// A token in which every backslash is followed by a byte that is no command
/// letter is left unchanged by escape processing.
pub proof fn lemma_unknown_commands_unchanged(token: Seq<u8>)
    requires
        forall|i: int|
            0 <= i < token.len() - 1 && token[i] == BACKSLASH ==> CommandKind::spec_from_letter(
                #[trigger] token[i + 1],
            ) is None,
    ensures
        substitute(token, scan(token)) == token,
        translated(token) == token,
{
    assert forall|i: int| escape_at(token, i) is None by {
        if 0 <= i && i + 1 < token.len() && token[i] == BACKSLASH {
            assert(CommandKind::spec_from_letter(token[i + 1]) is None);
        }
    }
    lemma_without_command_unchanged(token);
}

} // verus!
