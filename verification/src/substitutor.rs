//! The substitutor: a token rewritten with each located command replaced
//! by the control character it stands for.

use crate::escape::CommandKind;
use crate::scanner::{BackslashCommandRanges, OccurrenceSet};
use crate::text::{lemma_substitute_keeps_utf8, string_from_utf8};
use vstd::prelude::*;
use vstd::string::StringSliceAdditionalSpecFns;
use vstd::utf8::{encode_utf8, encode_utf8_valid_utf8};

verus! {

/// What a left-to-right copy of `token` gives from position `i` on: where an
/// occurrence of `set` starts, the literal of its command in place of its two
/// bytes; elsewhere the byte as it is.
pub open spec fn substitute_from(token: Seq<u8>, set: OccurrenceSet, i: int) -> Seq<u8>
    decreases token.len() + 1 - i,
{
    if i < 0 || i >= token.len() {
        seq![]
    } else {
        match set.kind_at(i) {
            Some(kind) => seq![kind.spec_literal()] + substitute_from(token, set, i + 2),
            None => seq![token[i]] + substitute_from(token, set, i + 1),
        }
    }
}

/// `token` with every occurrence of `set` replaced by its literal.
pub open spec fn substitute(token: Seq<u8>, set: OccurrenceSet) -> Seq<u8> {
    substitute_from(token, set, 0)
}

/// The copy has dealt with the first `next` of `starts`, which all end at or
/// before position `i`; the others start at `i` or later.
spec fn behind(starts: Seq<int>, next: int, i: int) -> bool {
    &&& 0 <= next <= starts.len()
    &&& forall|j: int| 0 <= j < next ==> #[trigger] starts[j] + 2 <= i
    &&& forall|j: int| next <= j < starts.len() ==> #[trigger] starts[j] >= i
}

/// Where the occurrence held at index `next` of its command starts at `i`,
/// `i` belongs to that command, and every other occurrence that has not
/// started before `i` starts at `i + 2` or later.
proof fn lemma_found_at(set: OccurrenceSet, len: int, kind: CommandKind, next: int, i: int)
    requires
        set.wf(len),
        0 <= next < set.of_kind(kind).len(),
        set.of_kind(kind)[next] == i,
    ensures
        set.kind_at(i) == Some(kind),
        forall|other: CommandKind, j: int|
            0 <= j < set.of_kind(other).len() && #[trigger] set.of_kind(other)[j] >= i && !(other
                == kind && j == next) ==> set.of_kind(other)[j] >= i + 2,
{
    assert forall|other: CommandKind| other != kind implies !(#[trigger] set.of_kind(
        other,
    )).contains(i) by {
        if set.of_kind(other).contains(i) {
            let j = choose|j: int| 0 <= j < set.of_kind(other).len() && set.of_kind(other)[j] == i;
            assert(set.of_kind(other)[j] + 2 <= set.of_kind(kind)[next] || set.of_kind(kind)[next]
                + 2 <= set.of_kind(other)[j]);
        }
    }
    assert(set.of_kind(kind).contains(i));
    assert(set.of_kind(CommandKind::Newline) == set.n);
    assert(set.of_kind(CommandKind::CarriageReturn) == set.r);
    assert(set.of_kind(CommandKind::Tab) == set.t);
    assert(set.of_kind(CommandKind::Backslash) == set.back_slash);
}

/// Where the next occurrence of a command does not start at `i`, none of
/// that command does, and the copy may move on by one byte.
proof fn lemma_none_at(set: OccurrenceSet, kind: CommandKind, next: int, i: int)
    requires
        set.ascending(),
        behind(set.of_kind(kind), next, i),
        next < set.of_kind(kind).len() ==> set.of_kind(kind)[next] != i,
    ensures
        !set.of_kind(kind).contains(i),
        behind(set.of_kind(kind), next, i + 1),
{
    let starts = set.of_kind(kind);
    assert forall|j: int| next <= j < starts.len() implies #[trigger] starts[j] >= i + 1 by {
        if j > next {
            assert(set.of_kind(kind)[next] < set.of_kind(kind)[j]);
        }
    }
    assert forall|j: int| 0 <= j < starts.len() implies #[trigger] starts[j] != i by {
        if j < next {
            assert(starts[j] + 2 <= i);
        } else {
            assert(starts[j] >= i + 1);
        }
    }
}

/// Once the copy has reached the end of the token, it has dealt with every
/// occurrence of a command.
proof fn lemma_all_dealt_with(set: OccurrenceSet, len: int, kind: CommandKind, next: int)
    requires
        set.in_bounds(len),
        behind(set.of_kind(kind), next, len),
    ensures
        next == set.of_kind(kind).len(),
{
    if next < set.of_kind(kind).len() {
        assert(set.of_kind(kind)[next] + 2 <= len);
    }
}

/// Copies the bytes of `token` with each two-byte range of `ranges` replaced
/// by the literal of its command: a line feed, a carriage return, a
/// horizontal tab or a single backslash. Every other byte stays as it is, and
/// in its order.
///
/// The copy runs once from left to right, so no replacement moves the bytes
/// that a later range speaks of. It is shorter than the token by one byte
/// for each range.
pub fn substitute_bytes(token: &[u8], ranges: &BackslashCommandRanges) -> (out: Vec<u8>)
    requires
        ranges.wf(token@.len() as int),
    ensures
        out@ == substitute(token@, ranges@),
        out@.len() == token@.len() - ranges@.count(),
{
    let len = token.len();
    let mut out: Vec<u8> = Vec::new();
    let mut i: usize = 0;
    let mut next_n: usize = 0;
    let mut next_r: usize = 0;
    let mut next_t: usize = 0;
    let mut next_b: usize = 0;
    let ghost set = ranges@;
    while i < len
        invariant
            len == token@.len(),
            i <= len,
            set == ranges@,
            ranges.wf(len as int),
            behind(set.of_kind(CommandKind::Newline), next_n as int, i as int),
            behind(set.of_kind(CommandKind::CarriageReturn), next_r as int, i as int),
            behind(set.of_kind(CommandKind::Tab), next_t as int, i as int),
            behind(set.of_kind(CommandKind::Backslash), next_b as int, i as int),
            out@.len() + next_n + next_r + next_t + next_b == i,
            out@ + substitute_from(token@, set, i as int) == substitute(token@, set),
        decreases len - i,
    {
        let ghost copied = out@;
        let mut found: Option<CommandKind> = None;
        if next_n < ranges.n.len() && ranges.n[next_n].start == i {
            proof {
                lemma_found_at(set, len as int, CommandKind::Newline, next_n as int, i as int);
            }
            found = Some(CommandKind::Newline);
            next_n += 1;
        } else if next_r < ranges.r.len() && ranges.r[next_r].start == i {
            proof {
                lemma_found_at(
                    set,
                    len as int,
                    CommandKind::CarriageReturn,
                    next_r as int,
                    i as int,
                );
            }
            found = Some(CommandKind::CarriageReturn);
            next_r += 1;
        } else if next_t < ranges.t.len() && ranges.t[next_t].start == i {
            proof {
                lemma_found_at(set, len as int, CommandKind::Tab, next_t as int, i as int);
            }
            found = Some(CommandKind::Tab);
            next_t += 1;
        } else if next_b < ranges.back_slash.len() && ranges.back_slash[next_b].start == i {
            proof {
                lemma_found_at(set, len as int, CommandKind::Backslash, next_b as int, i as int);
            }
            found = Some(CommandKind::Backslash);
            next_b += 1;
        } else {
            proof {
                lemma_none_at(set, CommandKind::Newline, next_n as int, i as int);
                lemma_none_at(set, CommandKind::CarriageReturn, next_r as int, i as int);
                lemma_none_at(set, CommandKind::Tab, next_t as int, i as int);
                lemma_none_at(set, CommandKind::Backslash, next_b as int, i as int);
            }
        }
        assert(found == set.kind_at(i as int));
        match found {
            Some(kind) => {
                out.push(kind.literal());
                assert(out@ + substitute_from(token@, set, i + 2) =~= copied + substitute_from(
                    token@,
                    set,
                    i as int,
                ));
                i += 2;
            },
            None => {
                out.push(token[i]);
                assert(out@ + substitute_from(token@, set, i + 1) =~= copied + substitute_from(
                    token@,
                    set,
                    i as int,
                ));
                i += 1;
            },
        }
    }
    proof {
        lemma_all_dealt_with(set, len as int, CommandKind::Newline, next_n as int);
        lemma_all_dealt_with(set, len as int, CommandKind::CarriageReturn, next_r as int);
        lemma_all_dealt_with(set, len as int, CommandKind::Tab, next_t as int);
        lemma_all_dealt_with(set, len as int, CommandKind::Backslash, next_b as int);
        assert(out@ =~= substitute(token@, set));
    }
    out
}

/// Replaces the backslash commands of `token` that `ranges` locates by the
/// characters they stand for: `\n` by a line feed, `\r` by a carriage
/// return, `\t` by a horizontal tab and `\\` by a single backslash. The
/// rest of the token stays as it is.
///
/// The ranges count bytes of the token as it is before the call. It becomes
/// shorter by one byte for each of them.
pub fn replace_commands(token: &mut String, ranges: BackslashCommandRanges)
    requires
        ranges.wf(encode_utf8(old(token)@).len() as int),
        ranges@.marks_commands(encode_utf8(old(token)@)),
    ensures
        encode_utf8(final(token)@) == substitute(encode_utf8(old(token)@), ranges@),
        encode_utf8(final(token)@).len() == encode_utf8(old(token)@).len() - ranges@.count(),
{
    let out = substitute_bytes(token.as_str().as_bytes(), &ranges);
    proof {
        encode_utf8_valid_utf8(token@);
        lemma_substitute_keeps_utf8(encode_utf8(token@), ranges@);
    }
    // The bytes are valid UTF-8, so they always make a string.
    if let Some(text) = string_from_utf8(out) {
        *token = text;
    }
}

} // verus!
