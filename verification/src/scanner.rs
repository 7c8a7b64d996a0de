//! The scanner: where in a token the backslash commands stand.

use crate::escape::{escape_at, CommandKind, BACKSLASH};
use std::ops::Range;
use vstd::prelude::*;
use vstd::string::StringSliceAdditionalSpecFns;

verus! {

/// Backslash command (like `\n`) ranges.
///
/// Each field holds, in ascending order, the byte ranges of one command.
#[derive(Debug)]
pub struct BackslashCommandRanges {
    pub n: Vec<Range<usize>>,
    pub r: Vec<Range<usize>>,
    pub t: Vec<Range<usize>>,
    pub back_slash: Vec<Range<usize>>,
}

/// What a `BackslashCommandRanges` stands for: for each command, the start
/// positions of its occurrences in the order in which they are held.
pub struct OccurrenceSet {
    pub n: Seq<int>,
    pub r: Seq<int>,
    pub t: Seq<int>,
    pub back_slash: Seq<int>,
}

impl OccurrenceSet {
    /// The set without any occurrence.
    pub open spec fn empty() -> OccurrenceSet {
        OccurrenceSet { n: seq![], r: seq![], t: seq![], back_slash: seq![] }
    }

    /// The start positions of the occurrences of `kind`.
    pub open spec fn of_kind(self, kind: CommandKind) -> Seq<int> {
        match kind {
            CommandKind::Newline => self.n,
            CommandKind::CarriageReturn => self.r,
            CommandKind::Tab => self.t,
            CommandKind::Backslash => self.back_slash,
        }
    }

    /// This set with one more occurrence of `kind`, at `start`, held last.
    pub open spec fn with(self, kind: CommandKind, start: int) -> OccurrenceSet {
        match kind {
            CommandKind::Newline => OccurrenceSet { n: self.n.push(start), ..self },
            CommandKind::CarriageReturn => OccurrenceSet { r: self.r.push(start), ..self },
            CommandKind::Tab => OccurrenceSet { t: self.t.push(start), ..self },
            CommandKind::Backslash => OccurrenceSet {
                back_slash: self.back_slash.push(start),
                ..self
            },
        }
    }

    /// The number of occurrences, all commands together.
    pub open spec fn count(self) -> nat {
        self.n.len() + self.r.len() + self.t.len() + self.back_slash.len()
    }

    /// The command of the occurrence that starts at position `i`, if one does.
    pub open spec fn kind_at(self, i: int) -> Option<CommandKind> {
        if self.n.contains(i) {
            Some(CommandKind::Newline)
        } else if self.r.contains(i) {
            Some(CommandKind::CarriageReturn)
        } else if self.t.contains(i) {
            Some(CommandKind::Tab)
        } else if self.back_slash.contains(i) {
            Some(CommandKind::Backslash)
        } else {
            None
        }
    }

    /// Every occurrence lies within the first `len` bytes.
    pub open spec fn in_bounds(self, len: int) -> bool {
        forall|kind: CommandKind, j: int|
            0 <= j < self.of_kind(kind).len() ==> 0 <= #[trigger] self.of_kind(kind)[j]
                && self.of_kind(kind)[j] + 2 <= len
    }

    /// The occurrences of each command are held by ascending start.
    pub open spec fn ascending(self) -> bool {
        forall|kind: CommandKind, j1: int, j2: int|
            0 <= j1 < j2 < self.of_kind(kind).len() ==> #[trigger] self.of_kind(kind)[j1]
                < #[trigger] self.of_kind(kind)[j2]
    }

    /// No byte belongs to two occurrences.
    pub open spec fn disjoint(self) -> bool {
        forall|k1: CommandKind, j1: int, k2: CommandKind, j2: int|
            0 <= j1 < self.of_kind(k1).len() && 0 <= j2 < self.of_kind(k2).len() && (k1 != k2 || j1
                != j2) ==> (#[trigger] self.of_kind(k1)[j1]) + 2 <= (#[trigger] self.of_kind(
                k2,
            )[j2]) || self.of_kind(k2)[j2] + 2 <= self.of_kind(k1)[j1]
    }

    /// Every occurrence stands where `token` spells its command: a backslash
    /// at its start, and the command's letter behind it.
    pub open spec fn marks_commands(self, token: Seq<u8>) -> bool {
        forall|kind: CommandKind, j: int|
            0 <= j < self.of_kind(kind).len() ==> escape_at(
                token,
                #[trigger] self.of_kind(kind)[j],
            ) == Some(kind)
    }

    /// The set is well formed for a token of `len` bytes: its occurrences lie
    /// within the token, do not overlap, and each command's are ascending.
    pub open spec fn wf(self, len: int) -> bool {
        self.in_bounds(len) && self.ascending() && self.disjoint()
    }
}

/// The start positions of a sequence of ranges.
pub open spec fn starts(ranges: Seq<Range<usize>>) -> Seq<int> {
    ranges.map_values(|r: Range<usize>| r.start as int)
}

/// Every range of the sequence is exactly two bytes wide.
pub open spec fn two_wide(ranges: Seq<Range<usize>>) -> bool {
    forall|j: int| 0 <= j < ranges.len() ==> (#[trigger] ranges[j]).end == ranges[j].start + 2
}

impl View for BackslashCommandRanges {
    type V = OccurrenceSet;

    open spec fn view(&self) -> OccurrenceSet {
        OccurrenceSet {
            n: starts(self.n@),
            r: starts(self.r@),
            t: starts(self.t@),
            back_slash: starts(self.back_slash@),
        }
    }
}

/// The start positions, ascending, of the occurrences of `kind` that a
/// left-to-right scan of `token` finds when it begins at position `i`. A scan
/// that finds a command at a position resumes two bytes on, so the second
/// byte of a command never begins another.
pub open spec fn starts_from(token: Seq<u8>, i: int, kind: CommandKind) -> Seq<int>
    decreases token.len() - i,
{
    if i < 0 || i >= token.len() {
        seq![]
    } else {
        match escape_at(token, i) {
            Some(found) => if found == kind {
                seq![i] + starts_from(token, i + 2, kind)
            } else {
                starts_from(token, i + 2, kind)
            },
            None => starts_from(token, i + 1, kind),
        }
    }
}

/// Whatever a scan finds stands where the token spells that command.
proof fn lemma_starts_from_marks(token: Seq<u8>, i: int, kind: CommandKind)
    requires
        0 <= i,
    ensures
        forall|j: int|
            0 <= j < starts_from(token, i, kind).len() ==> escape_at(
                token,
                #[trigger] starts_from(token, i, kind)[j],
            ) == Some(kind),
    decreases token.len() - i,
{
    let here = starts_from(token, i, kind);
    if i < token.len() {
        match escape_at(token, i) {
            Some(found) => {
                lemma_starts_from_marks(token, i + 2, kind);
                let rest = starts_from(token, i + 2, kind);
                assert forall|j: int| 0 <= j < here.len() implies escape_at(
                    token,
                    #[trigger] here[j],
                ) == Some(kind) by {
                    if found == kind {
                        if j > 0 {
                            assert(here[j] == rest[j - 1]);
                        }
                    } else {
                        assert(here[j] == rest[j]);
                    }
                }
            },
            None => {
                lemma_starts_from_marks(token, i + 1, kind);
                assert(here == starts_from(token, i + 1, kind));
                assert forall|j: int| 0 <= j < here.len() implies escape_at(
                    token,
                    #[trigger] here[j],
                ) == Some(kind) by {}
            },
        }
    } else {
        assert(here.len() == 0);
    }
}

/// Every occurrence that a scan of `token` finds stands where the token
/// spells its command.
pub proof fn lemma_scan_marks_commands(token: Seq<u8>)
    ensures
        scan(token).marks_commands(token),
{
    lemma_starts_from_marks(token, 0, CommandKind::Newline);
    lemma_starts_from_marks(token, 0, CommandKind::CarriageReturn);
    lemma_starts_from_marks(token, 0, CommandKind::Tab);
    lemma_starts_from_marks(token, 0, CommandKind::Backslash);
    let set = scan(token);
    assert forall|kind: CommandKind, j: int| 0 <= j < set.of_kind(kind).len() implies escape_at(
        token,
        #[trigger] set.of_kind(kind)[j],
    ) == Some(kind) by {
        assert(set.of_kind(kind) == starts_from(token, 0, kind));
    }
}

/// The occurrences that a scan of the whole of `token` finds.
pub open spec fn scan(token: Seq<u8>) -> OccurrenceSet {
    OccurrenceSet {
        n: starts_from(token, 0, CommandKind::Newline),
        r: starts_from(token, 0, CommandKind::CarriageReturn),
        t: starts_from(token, 0, CommandKind::Tab),
        back_slash: starts_from(token, 0, CommandKind::Backslash),
    }
}

impl BackslashCommandRanges {
    /// The ranges are well formed for a token of `len` bytes: each is two
    /// bytes wide, and their starts form a well-formed occurrence set.
    pub open spec fn wf(&self, len: int) -> bool {
        &&& two_wide(self.n@)
        &&& two_wide(self.r@)
        &&& two_wide(self.t@)
        &&& two_wide(self.back_slash@)
        &&& self@.wf(len)
    }

    /// No ranges at all.
    pub fn new() -> (ranges: BackslashCommandRanges)
        ensures
            ranges@ == OccurrenceSet::empty(),
            ranges.wf(0),
    {
        let ranges = BackslashCommandRanges {
            n: Vec::new(),
            r: Vec::new(),
            t: Vec::new(),
            back_slash: Vec::new(),
        };
        assert(ranges@.n =~= seq![]);
        assert(ranges@.r =~= seq![]);
        assert(ranges@.t =~= seq![]);
        assert(ranges@.back_slash =~= seq![]);
        ranges
    }

    /// Records an occurrence of `kind` whose two bytes begin at `start`,
    /// behind those of the same command that are already held.
    pub fn record(&mut self, kind: CommandKind, start: usize)
        requires
            start + 2 <= usize::MAX,
            old(self).wf(start as int),
        ensures
            final(self)@ == old(self)@.with(kind, start as int),
            final(self).wf(start + 2),
    {
        let range = Range { start: start, end: start + 2 };
        match kind {
            CommandKind::Newline => {
                self.n.push(range);
                assert(self@.n =~= old(self)@.n.push(start as int));
            },
            CommandKind::CarriageReturn => {
                self.r.push(range);
                assert(self@.r =~= old(self)@.r.push(start as int));
            },
            CommandKind::Tab => {
                self.t.push(range);
                assert(self@.t =~= old(self)@.t.push(start as int));
            },
            CommandKind::Backslash => {
                self.back_slash.push(range);
                assert(self@.back_slash =~= old(self)@.back_slash.push(start as int));
            },
        }
        proof {
            lemma_with_keeps_wf(old(self)@, kind, start as int);
        }
    }
}

/// A well-formed set for `start` bytes stays well formed, for two bytes more,
/// when an occurrence at `start` is added to it.
pub proof fn lemma_with_keeps_wf(set: OccurrenceSet, kind: CommandKind, start: int)
    requires
        0 <= start,
        set.wf(start),
    ensures
        set.with(kind, start).wf(start + 2),
{
    let grown = set.with(kind, start);
    assert forall|k: CommandKind, j: int| 0 <= j < grown.of_kind(k).len() implies 0
        <= #[trigger] grown.of_kind(k)[j] && grown.of_kind(k)[j] + 2 <= start + 2 by {
        if j < set.of_kind(k).len() {
            assert(grown.of_kind(k)[j] == set.of_kind(k)[j]);
        }
    }
    assert forall|k: CommandKind, j1: int, j2: int|
        0 <= j1 < j2 < grown.of_kind(k).len() implies #[trigger] grown.of_kind(k)[j1]
        < #[trigger] grown.of_kind(k)[j2] by {
        assert(grown.of_kind(k)[j1] == set.of_kind(k)[j1]);
        if j2 < set.of_kind(k).len() {
            assert(grown.of_kind(k)[j2] == set.of_kind(k)[j2]);
        }
    }
    assert forall|k1: CommandKind, j1: int, k2: CommandKind, j2: int|
        0 <= j1 < grown.of_kind(k1).len() && 0 <= j2 < grown.of_kind(k2).len() && (k1 != k2 || j1
            != j2) implies (#[trigger] grown.of_kind(k1)[j1]) + 2 <= (#[trigger] grown.of_kind(
        k2,
    )[j2]) || grown.of_kind(k2)[j2] + 2 <= grown.of_kind(k1)[j1] by {
        if j1 < set.of_kind(k1).len() {
            assert(grown.of_kind(k1)[j1] == set.of_kind(k1)[j1]);
        }
        if j2 < set.of_kind(k2).len() {
            assert(grown.of_kind(k2)[j2] == set.of_kind(k2)[j2]);
        }
    }
}

/// Locates the backslash commands of `token`.
///
/// The token is scanned from left to right. A backslash that is followed,
/// inside the token, by `n`, `r`, `t` or another backslash begins an
/// occurrence, and the scan resumes behind its two bytes. Any other
/// backslash, and a backslash that ends the token, is ordinary content.
pub fn backslash_ranges(token: &str) -> (ranges: BackslashCommandRanges)
    ensures
        ranges@ == scan(token.spec_bytes()),
        ranges.wf(token.spec_bytes().len() as int),
        ranges@.marks_commands(token.spec_bytes()),
{
    let bytes = token.as_bytes();
    let len = bytes.len();
    let mut commands = BackslashCommandRanges::new();
    let mut i: usize = 0;
    while i < len
        invariant
            bytes@ == token.spec_bytes(),
            len == bytes@.len(),
            i <= len,
            commands.wf(i as int),
            commands@.n + starts_from(bytes@, i as int, CommandKind::Newline) == scan(bytes@).n,
            commands@.r + starts_from(bytes@, i as int, CommandKind::CarriageReturn) == scan(
                bytes@,
            ).r,
            commands@.t + starts_from(bytes@, i as int, CommandKind::Tab) == scan(bytes@).t,
            commands@.back_slash + starts_from(bytes@, i as int, CommandKind::Backslash) == scan(
                bytes@,
            ).back_slash,
        decreases len - i,
    {
        let ghost before = commands@;
        let mut found: Option<CommandKind> = None;
        if bytes[i] == BACKSLASH && i + 1 < len {
            found = CommandKind::from_letter(bytes[i + 1]);
        }
        assert(found == escape_at(bytes@, i as int));
        match found {
            Some(kind) => {
                commands.record(kind, i);
                proof {
                    let next = i + 2;
                    assert(commands@.n + starts_from(bytes@, next, CommandKind::Newline)
                        =~= before.n + starts_from(bytes@, i as int, CommandKind::Newline));
                    assert(commands@.r + starts_from(bytes@, next, CommandKind::CarriageReturn)
                        =~= before.r + starts_from(bytes@, i as int, CommandKind::CarriageReturn));
                    assert(commands@.t + starts_from(bytes@, next, CommandKind::Tab) =~= before.t
                        + starts_from(bytes@, i as int, CommandKind::Tab));
                    assert(commands@.back_slash + starts_from(
                        bytes@,
                        next,
                        CommandKind::Backslash,
                    ) =~= before.back_slash + starts_from(
                        bytes@,
                        i as int,
                        CommandKind::Backslash,
                    ));
                }
                i += 2;
            },
            None => {
                proof {
                    lemma_wf_widens(commands@, i as int, i + 1);
                }
                i += 1;
            },
        }
    }
    proof {
        assert(commands@.n =~= scan(bytes@).n);
        assert(commands@.r =~= scan(bytes@).r);
        assert(commands@.t =~= scan(bytes@).t);
        assert(commands@.back_slash =~= scan(bytes@).back_slash);
        lemma_scan_marks_commands(bytes@);
    }
    commands
}

/// A set that is well formed for a token is well formed for a longer one.
pub proof fn lemma_wf_widens(set: OccurrenceSet, len: int, longer: int)
    requires
        set.wf(len),
        len <= longer,
    ensures
        set.wf(longer),
{
}

} // verus!
