//! The line that a command line asks for: its tokens behind the flags,
//! translated where `-e` is given, joined by single spaces and ended by a
//! line feed.

use crate::escape::{translated, LINE_FEED};
use crate::options::{bytes_of, enabled_within, flag_run, flags};
use crate::scanner::backslash_ranges;
use crate::substitutor::replace_commands;
use crate::theorems::lemma_substitute_scan_is_translated;
use vstd::prelude::*;
use vstd::string::StrSliceExecFns;
use vstd::string::StringSliceAdditionalSpecFns;
use vstd::utf8::encode_utf8;

verus! {

/// The byte that separates two tokens of the line.
pub const SPACE: u8 = 32;

/// The tokens one after another, with a single space between two of them.
pub open spec fn joined(tokens: Seq<Seq<u8>>) -> Seq<u8>
    decreases tokens.len(),
{
    if tokens.len() == 0 {
        seq![]
    } else if tokens.len() == 1 {
        tokens[0]
    } else {
        joined(tokens.drop_last()) + seq![SPACE] + tokens.last()
    }
}

/// The tokens of a command line that are printed, as they are printed: those
/// behind the leading run of flags, each after escape processing if `-e` is
/// among the flags.
pub open spec fn shown(tokens: Seq<Seq<u8>>) -> Seq<Seq<u8>> {
    let start = flag_run(tokens);
    let positional = tokens.subrange(start, tokens.len() as int);
    if enabled_within(tokens, start) {
        positional.map_values(|token: Seq<u8>| translated(token))
    } else {
        positional
    }
}

/// The line printed for a command line: what is shown of it, joined, and a
/// line feed.
pub open spec fn line_of(tokens: Seq<Seq<u8>>) -> Seq<u8> {
    joined(shown(tokens)) + seq![LINE_FEED]
}

/// Without `-e` among its flags, a command line is printed verbatim: the
/// line holds the tokens behind the flags byte for byte, backslashes and all.
pub proof fn lemma_without_enable_flag_verbatim(tokens: Seq<Seq<u8>>)
    requires
        !enabled_within(tokens, flag_run(tokens)),
    ensures
        line_of(tokens) == joined(tokens.subrange(flag_run(tokens), tokens.len() as int)) + seq![
            LINE_FEED,
        ],
{
}

/// Translates the backslash commands of `token` into the characters they
/// stand for: the token is scanned, and what the scan located is replaced.
pub fn translate(token: &str) -> (text: String)
    ensures
        encode_utf8(text@) == translated(token.spec_bytes()),
{
    let mut text = token.to_owned();
    let ranges = backslash_ranges(token);
    replace_commands(&mut text, ranges);
    proof {
        lemma_substitute_scan_is_translated(token.spec_bytes());
    }
    text
}

/// Computes the line to print for the command line `args` (the program's
/// own name left out): the tokens behind the flags, separated by single
/// spaces and followed by one line feed. With `-e` among the flags each token
/// is translated first.
pub fn output_line(args: &Vec<String>) -> (line: Vec<u8>)
    ensures
        line@ == line_of(bytes_of(args@)),
{
    let ghost tokens = bytes_of(args@);
    let (options, start) = flags(args);
    let mut line: Vec<u8> = Vec::new();
    match start {
        Some(first) => {
            let mut i: usize = first;
            while i < args.len()
                invariant
                    tokens == bytes_of(args@),
                    first == flag_run(tokens),
                    first <= i <= args@.len(),
                    options.enable_backslash_commands == enabled_within(tokens, first as int),
                    line@ == joined(shown(tokens).subrange(0, i - first)),
                decreases args@.len() - i,
            {
                let ghost before = shown(tokens).subrange(0, i - first);
                let ghost after = shown(tokens).subrange(0, i - first + 1);
                let arg = args[i].as_str();
                assert(arg.spec_bytes() == tokens[i as int]);
                let mut token = if options.enable_backslash_commands {
                    translate(arg).as_str().as_bytes_vec()
                } else {
                    arg.as_bytes_vec()
                };
                assert(token@ == shown(tokens)[i - first]);
                assert(after.drop_last() =~= before);
                assert(after.last() == token@);
                if i > first {
                    line.push(SPACE);
                }
                line.append(&mut token);
                assert(line@ =~= joined(after));
                i += 1;
            }
            assert(shown(tokens).subrange(0, i - first) =~= shown(tokens));
        },
        None => {
            assert(shown(tokens) =~= Seq::<Seq<u8>>::empty());
        },
    }
    line.push(LINE_FEED);
    line
}

} // verus!
