//! Option recognition: which leading tokens of a command line are flags,
//! and where the tokens to print begin.

use vstd::prelude::*;
use vstd::string::StringSliceAdditionalSpecFns;
use vstd::utf8::encode_utf8;

verus! {

/// The byte `-`, which introduces a flag.
pub const HYPHEN: u8 = 45;

/// The letter of the flag that enables backslash commands.
pub const LETTER_E: u8 = 101;

/// What the flags of a command line ask for.
#[derive(Clone, Copy, Debug, PartialEq, Eq)]
pub struct Flags {
    pub enable_backslash_commands: bool,
}

impl Flags {
    /// The flags of a command line that gives none: nothing is enabled.
    pub fn new() -> (flags: Flags)
        ensures
            !flags.enable_backslash_commands,
    {
        Flags { enable_backslash_commands: false }
    }
}

/// The bytes of each token of a command line.
pub open spec fn bytes_of(args: Seq<String>) -> Seq<Seq<u8>> {
    args.map_values(|arg: String| encode_utf8(arg@))
}

/// A token is a flag if it begins with `-` and has a byte behind it. The
/// empty token and a bare `-` are ordinary tokens.
pub open spec fn is_flag(token: Seq<u8>) -> bool {
    token.len() >= 2 && token[0] == HYPHEN
}

/// The token is `-e`, the flag that enables backslash commands.
pub open spec fn is_enable_flag(token: Seq<u8>) -> bool {
    token.len() == 2 && token[0] == HYPHEN && token[1] == LETTER_E
}

/// The first `count` tokens are all flags.
pub open spec fn all_flags(tokens: Seq<Seq<u8>>, count: int) -> bool {
    forall|i: int| 0 <= i < count ==> is_flag(#[trigger] tokens[i])
}

/// One of the first `count` tokens is `-e`.
pub open spec fn enabled_within(tokens: Seq<Seq<u8>>, count: int) -> bool {
    exists|i: int| 0 <= i < count && is_enable_flag(#[trigger] tokens[i])
}

/// The number of flags that `tokens` has from position `i` on before its
/// first ordinary token, added to `i`.
pub open spec fn flag_run_from(tokens: Seq<Seq<u8>>, i: int) -> int
    decreases tokens.len() - i,
{
    if i < 0 || i >= tokens.len() {
        tokens.len() as int
    } else if is_flag(tokens[i]) {
        flag_run_from(tokens, i + 1)
    } else {
        i
    }
}

/// The length of the leading run of flags: the position of the first
/// ordinary token, or the number of tokens where all are flags.
pub open spec fn flag_run(tokens: Seq<Seq<u8>>) -> int {
    flag_run_from(tokens, 0)
}

/// Returns a `Flags` instance and the index at which the flags end and the
/// tokens to print begin.
///
/// If there are only flags in the arguments, it returns `None` as index. Of
/// the flags, `-e` enables backslash commands; any other is ignored.
pub fn flags(args: &Vec<String>) -> (found: (Flags, Option<usize>))
    ensures
        match found.1 {
            Some(start) => {
                &&& start < args@.len()
                &&& start == flag_run(bytes_of(args@))
                &&& !is_flag(bytes_of(args@)[start as int])
                &&& all_flags(bytes_of(args@), start as int)
                &&& found.0.enable_backslash_commands == enabled_within(
                    bytes_of(args@),
                    start as int,
                )
            },
            None => {
                &&& flag_run(bytes_of(args@)) == args@.len()
                &&& all_flags(bytes_of(args@), args@.len() as int)
                &&& found.0.enable_backslash_commands == enabled_within(
                    bytes_of(args@),
                    args@.len() as int,
                )
            },
        },
{
    let ghost tokens = bytes_of(args@);
    let mut arguments = Flags::new();
    let mut index: usize = 0;
    while index < args.len()
        invariant
            tokens == bytes_of(args@),
            index <= args@.len(),
            all_flags(tokens, index as int),
            flag_run_from(tokens, index as int) == flag_run(tokens),
            arguments.enable_backslash_commands == enabled_within(tokens, index as int),
        decreases args@.len() - index,
    {
        let bytes = args[index].as_str().as_bytes();
        assert(bytes@ == tokens[index as int]);
        if !(bytes.len() >= 2 && bytes[0] == HYPHEN) {
            return (arguments, Some(index));
        }
        if bytes.len() == 2 && bytes[1] == LETTER_E {
            arguments.enable_backslash_commands = true;
        }
        assert(enabled_within(tokens, index + 1) == (enabled_within(tokens, index as int)
            || is_enable_flag(tokens[index as int])));
        index += 1;
    }
    (arguments, None)
}

} // verus!
