//! Tokens as text: the bytes of a token are UTF-8, and replacing its
//! commands keeps them so.

use crate::escape::{escape_at, CommandKind};
use crate::scanner::OccurrenceSet;
use crate::substitutor::{substitute, substitute_from};
use vstd::prelude::*;
use vstd::utf8::*;

verus! {

/// Makes a string of bytes that are UTF-8.
///
/// This is `String::from_utf8` of the standard library, which is believed
/// here and not proved: it gives a string exactly when the bytes are valid
/// UTF-8, and the string it gives is encoded by those very bytes.
#[verifier::external_body]
pub(crate) fn string_from_utf8(bytes: Vec<u8>) -> (text: Option<String>)
    ensures
        text is Some <==> valid_utf8(bytes@),
        text is Some ==> encode_utf8(text.unwrap()@) == bytes@,
{
    String::from_utf8(bytes).ok()
}

/// The literal of a command is a character of one byte.
proof fn lemma_literal_is_utf8(kind: CommandKind)
    ensures
        valid_utf8(seq![kind.spec_literal()]),
{
    let chars = seq![kind.spec_literal() as char];
    assert(is_ascii_chars(chars));
    is_ascii_chars_encode_utf8(chars);
    encode_utf8_valid_utf8(chars);
    assert(encode_utf8(chars) =~= seq![kind.spec_literal()]);
}

/// Where the occurrences of `set` mark commands of `token`, an occurrence
/// starts only where the token spells a command.
proof fn lemma_kind_at_marked(token: Seq<u8>, set: OccurrenceSet, i: int)
    requires
        set.marks_commands(token),
    ensures
        set.kind_at(i) is Some ==> escape_at(token, i) == set.kind_at(i),
{
    if set.kind_at(i) is Some {
        let kind = set.kind_at(i).unwrap();
        assert(set.of_kind(kind).contains(i));
        let j = choose|j: int| 0 <= j < set.of_kind(kind).len() && set.of_kind(kind)[j] == i;
        assert(escape_at(token, set.of_kind(kind)[j]) == Some(kind));
    }
}

/// Where no occurrence starts at any of the `count` positions from `i` on,
/// the copy takes those bytes as they are.
proof fn lemma_copies_run(token: Seq<u8>, set: OccurrenceSet, i: int, count: int)
    requires
        0 <= i,
        0 <= count,
        i + count <= token.len(),
        forall|p: int| i <= p < i + count ==> set.kind_at(p) is None,
    ensures
        substitute_from(token, set, i) == token.subrange(i, i + count) + substitute_from(
            token,
            set,
            i + count,
        ),
    decreases count,
{
    if count == 0 {
        assert(token.subrange(i, i) + substitute_from(token, set, i) =~= substitute_from(
            token,
            set,
            i,
        ));
    } else {
        assert(set.kind_at(i) is None);
        lemma_copies_run(token, set, i + 1, count - 1);
        assert(seq![token[i]] + (token.subrange(i + 1, i + count) + substitute_from(
            token,
            set,
            i + count,
        )) =~= token.subrange(i, i + count) + substitute_from(token, set, i + count));
    }
}

/// From a position of `token` where a character begins, the copy with the
/// marked commands replaced is valid UTF-8.
proof fn lemma_substitute_from_keeps_utf8(token: Seq<u8>, set: OccurrenceSet, i: int)
    requires
        0 <= i <= token.len(),
        valid_utf8(token.subrange(i, token.len() as int)),
        set.marks_commands(token),
    ensures
        valid_utf8(substitute_from(token, set, i)),
    decreases token.len() - i,
{
    let len = token.len() as int;
    let rest = token.subrange(i, len);
    if i < len {
        assert(rest[0] == token[i]);
        assert(valid_first_scalar(rest));
        let width = length_of_first_scalar(rest);
        assert(pop_first_scalar(rest) =~= token.subrange(i + width, len));
        lemma_kind_at_marked(token, set, i);
        match set.kind_at(i) {
            Some(kind) => {
                let after = token.subrange(i + 1, len);
                assert(width == 1);
                assert(valid_utf8(after));
                assert(after[0] == token[i + 1]);
                assert(valid_first_scalar(after));
                assert(length_of_first_scalar(after) == 1);
                assert(pop_first_scalar(after) =~= token.subrange(i + 2, len));
                assert(valid_utf8(pop_first_scalar(after)));
                lemma_substitute_from_keeps_utf8(token, set, i + 2);
                lemma_literal_is_utf8(kind);
                valid_utf8_concat(seq![kind.spec_literal()], substitute_from(token, set, i + 2));
            },
            None => {
                assert forall|p: int| i <= p < i + width implies set.kind_at(p) is None by {
                    lemma_kind_at_marked(token, set, p);
                    if p > i {
                        assert(rest[p - i] == token[p]);
                        assert(is_continuation_byte(token[p]));
                    }
                }
                lemma_copies_run(token, set, i, width);
                lemma_substitute_from_keeps_utf8(token, set, i + width);
                let first = token.subrange(i, i + width);
                assert(first =~= take_first_scalar(rest));
                assert(valid_utf8(first)) by {
                    reveal_with_fuel(valid_utf8, 2);
                    assert(first[0] == rest[0]);
                    if width >= 2 {
                        assert(first[1] == rest[1]);
                    }
                    if width >= 3 {
                        assert(first[2] == rest[2]);
                    }
                    if width >= 4 {
                        assert(first[3] == rest[3]);
                    }
                    assert(valid_first_scalar(first));
                    assert(pop_first_scalar(first) =~= Seq::<u8>::empty());
                }
                valid_utf8_concat(first, substitute_from(token, set, i + width));
            },
        }
    }
}

/// Replacing commands in a token that is valid UTF-8 gives valid UTF-8: a
/// command is two characters of one byte each, and its literal is one.
pub proof fn lemma_substitute_keeps_utf8(token: Seq<u8>, set: OccurrenceSet)
    requires
        valid_utf8(token),
        set.marks_commands(token),
    ensures
        valid_utf8(substitute(token, set)),
{
    assert(token.subrange(0, token.len() as int) =~= token);
    lemma_substitute_from_keeps_utf8(token, set, 0);
}

} // verus!
