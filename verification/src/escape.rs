//! The four backslash commands and the bytes they are written with.

use vstd::prelude::*;

verus! {

/// The byte `\`, which introduces a command.
pub const BACKSLASH: u8 = 92;

/// The command letter `n`.
pub const LETTER_N: u8 = 110;

/// The command letter `r`.
pub const LETTER_R: u8 = 114;

/// The command letter `t`.
pub const LETTER_T: u8 = 116;

/// The line-feed control character.
pub const LINE_FEED: u8 = 10;

/// The carriage-return control character.
pub const CARRIAGE_RETURN: u8 = 13;

/// The horizontal-tab control character.
pub const TAB: u8 = 9;

/// One of the four recognised backslash commands.
#[derive(Clone, Copy, Debug, PartialEq, Eq, Structural)]
pub enum CommandKind {
    /// `\n`
    Newline,
    /// `\r`
    CarriageReturn,
    /// `\t`
    Tab,
    /// `\\`
    Backslash,
}

impl CommandKind {
    /// The single byte that the command is replaced by.
    pub open spec fn spec_literal(self) -> u8 {
        match self {
            CommandKind::Newline => LINE_FEED,
            CommandKind::CarriageReturn => CARRIAGE_RETURN,
            CommandKind::Tab => TAB,
            CommandKind::Backslash => BACKSLASH,
        }
    }

    /// The single byte that the command is replaced by.
    #[verifier::when_used_as_spec(spec_literal)]
    pub fn literal(self) -> (b: u8)
        ensures
            b == self.spec_literal(),
    {
        match self {
            CommandKind::Newline => LINE_FEED,
            CommandKind::CarriageReturn => CARRIAGE_RETURN,
            CommandKind::Tab => TAB,
            CommandKind::Backslash => BACKSLASH,
        }
    }

    /// The command that `letter` selects when it follows a backslash, if any.
    pub open spec fn spec_from_letter(letter: u8) -> Option<CommandKind> {
        if letter == LETTER_N {
            Some(CommandKind::Newline)
        } else if letter == LETTER_R {
            Some(CommandKind::CarriageReturn)
        } else if letter == LETTER_T {
            Some(CommandKind::Tab)
        } else if letter == BACKSLASH {
            Some(CommandKind::Backslash)
        } else {
            None
        }
    }

    /// The command that `letter` selects when it follows a backslash, if any.
    #[verifier::when_used_as_spec(spec_from_letter)]
    pub fn from_letter(letter: u8) -> (kind: Option<CommandKind>)
        ensures
            kind == CommandKind::spec_from_letter(letter),
    {
        if letter == LETTER_N {
            Some(CommandKind::Newline)
        } else if letter == LETTER_R {
            Some(CommandKind::CarriageReturn)
        } else if letter == LETTER_T {
            Some(CommandKind::Tab)
        } else if letter == BACKSLASH {
            Some(CommandKind::Backslash)
        } else {
            None
        }
    }
}

/// The command whose two-byte source form begins at position `i` of `token`:
/// a backslash at `i`, and a command letter at `i + 1` inside the token.
pub open spec fn escape_at(token: Seq<u8>, i: int) -> Option<CommandKind> {
    if 0 <= i && i + 1 < token.len() && token[i] == BACKSLASH {
        CommandKind::spec_from_letter(token[i + 1])
    } else {
        None
    }
}

/// What escape processing makes of `token` from position `i` on, read from
/// left to right: the literal of a command in place of the two bytes that
/// spell it, any other byte as it is. The byte behind a backslash that begins
/// a command is part of that command and begins none itself.
pub open spec fn translated_from(token: Seq<u8>, i: int) -> Seq<u8>
    decreases token.len() - i,
{
    if i < 0 || i >= token.len() {
        seq![]
    } else {
        match escape_at(token, i) {
            Some(kind) => seq![kind.spec_literal()] + translated_from(token, i + 2),
            None => seq![token[i]] + translated_from(token, i + 1),
        }
    }
}

/// What escape processing makes of `token`.
pub open spec fn translated(token: Seq<u8>) -> Seq<u8> {
    translated_from(token, 0)
}

} // verus!
