//! The model of a backend: what it may make of a path before it routes it.
//!
//! A backend rewrites a path in any number of moves, in any order. Each move stands for
//! one behavior that is always considered, or that a configuration declares. Decoding
//! goes over the whole path, at most as often as declared; every other move acts at one
//! place. As long as a decode pass may still come, the escape of a structural byte may also
//! be read on its own.

use vstd::prelude::*;

use crate::anchor;
use crate::config::{CaseSensitivity, DecodeDepth, GuardConfig};
use crate::percent;
use crate::structural;
use crate::structural::Encodings;

verus! {

/// The declared behaviors of a backend.
pub ghost struct Parsing {
    /// `\` separates segments.
    pub backslash: bool,
    /// Which alternate spellings are read as the characters they stand for.
    pub enc: Encodings,
    /// ASCII letters are lowercased.
    pub fold: bool,
}

/// A path under way, and how many decode passes may still come.
#[verifier::ext_equal]
pub ghost struct State {
    pub bytes: Seq<u8>,
    pub passes: nat,
}

/// One move of a backend.
pub ghost enum Move {
    /// Percent-decode the whole path once.
    Decode,
    /// Read the escape at `at` as the structural byte that it stands for.
    Unescape { at: int },
    /// Drop the slash at `at`, which follows another.
    Merge { at: int },
    /// Drop the parameter from the `;` at `at` up to the end of its segment.
    Strip { at: int, end: int },
    /// Drop the segment `.` that begins at `at`.
    Stay { at: int },
    /// Drop the segment `..` that begins at `at`, and the segment before it.
    Climb { at: int },
    /// Read the `\` at `at` as a slash.
    Backslash { at: int },
    /// Read the alternate spelling at `at` as the character that it stands for.
    Spell { at: int },
    /// Lowercase the letter at `at`.
    Lower { at: int },
    /// End the path at the NUL at `at`.
    Truncate { at: int },
}

/// What a configuration declares of the backend.
pub open spec fn declared(config: GuardConfig) -> Parsing {
    let classes = config.structural_classes;
    Parsing {
        backslash: classes.backslash,
        enc: Encodings {
            overlong_slash: classes.overlong_slash,
            overlong_dot: classes.overlong_dot,
            double_decode: config.decode_depth == DecodeDepth::UpToTwo,
            unicode: classes.unicode,
        },
        fold: config.case_sensitivity == CaseSensitivity::Insensitive,
    }
}

/// How often the backend may decode, by what a configuration declares.
pub open spec fn passes(config: GuardConfig) -> nat {
    match config.decode_depth {
        DecodeDepth::UpToOne => 1,
        DecodeDepth::UpToTwo => 2,
    }
}

/// Whether the character is a hexadecimal digit of this value.
pub open spec fn digit(c: u8, value: int) -> bool {
    ||| 0 <= value < 10 && c == 0x30 + value
    ||| 10 <= value < 16 && c == 0x41 + (value - 10)
    ||| 10 <= value < 16 && c == 0x61 + (value - 10)
}

/// Whether the byte is spelled `%XX` at `at`.
pub open spec fn escapes(s: Seq<u8>, at: int, b: u8) -> bool {
    &&& 0 <= at && at + 3 <= s.len()
    &&& s[at] == 0x25
    &&& digit(s[at + 1], b as int / 16)
    &&& digit(s[at + 2], b as int % 16)
}

/// The byte that is spelled `%XX` at `at`, if one is.
pub open spec fn escaped(s: Seq<u8>, at: int) -> Option<u8> {
    if exists|b: u8| escapes(s, at, b) {
        Some(choose|b: u8| escapes(s, at, b))
    } else {
        None
    }
}

/// The path with each escape replaced by its byte, from left to right, once.
pub open spec fn decoded(s: Seq<u8>) -> Seq<u8>
    decreases s.len(),
{
    if s.len() == 0 {
        Seq::empty()
    } else {
        match escaped(s, 0) {
            Some(b) => seq![b] + decoded(s.skip(3)),
            None => seq![s[0]] + decoded(s.skip(1)),
        }
    }
}

/// The path after `n` such replacements.
pub open spec fn decoded_times(s: Seq<u8>, n: nat) -> Seq<u8>
    decreases n,
{
    if n == 0 {
        s
    } else {
        decoded(decoded_times(s, (n - 1) as nat))
    }
}

/// Whether the bytes at `at` are the fullwidth form of an ASCII character.
pub open spec fn fullwidth(s: Seq<u8>, at: int, c: u8) -> bool {
    &&& 0 <= at && at + 3 <= s.len()
    &&& s[at] == 0xEF && s[at + 1] == 0xBC && s[at + 2] == 0x60 + c
}

/// Whether the `width` bytes at `at` are a longer UTF-8 form of an ASCII character than the
/// shortest: leading zero bits fill it up.
pub open spec fn overlong(s: Seq<u8>, at: int, c: u8, width: int) -> bool {
    &&& 0 <= at && at + width <= s.len()
    &&& s[at + width - 1] == 0x80 + c
    &&& {
        ||| width == 2 && s[at] == 0xC0
        ||| width == 3 && s[at] == 0xE0 && s[at + 1] == 0x80
        ||| width == 4 && s[at] == 0xF0 && s[at + 1] == 0x80 && s[at + 2] == 0x80
    }
}

/// Whether a declared alternate spelling of the structural character, so many bytes wide,
/// stands at `at`.
pub open spec fn spells(s: Seq<u8>, enc: Encodings, at: int, c: u8, width: int) -> bool {
    ||| enc.unicode && width == 3 && fullwidth(s, at, c) && (c == 0x2F || c == 0x2E || c == 0x3B
        || c == 0x5C)
    ||| enc.overlong_slash && c == 0x2F && overlong(s, at, c, width)
    ||| enc.overlong_dot && c == 0x2E && overlong(s, at, c, width)
}

/// The character that is spelled at `at` and the width of its spelling, if one is.
pub open spec fn spelling(s: Seq<u8>, enc: Encodings, at: int) -> Option<(u8, int)> {
    if exists|c: u8, width: int| spells(s, enc, at, c, width) {
        Some(choose|found: (u8, int)| spells(s, enc, at, found.0, found.1))
    } else {
        None
    }
}

/// The letter as a backend that folds case reads it.
pub open spec fn lowercased(b: u8) -> u8 {
    if 'A' as u8 <= b <= 'Z' as u8 {
        (b - 'A' as u8 + 'a' as u8) as u8
    } else {
        b
    }
}

/// The path with every letter read so.
pub open spec fn lowercase(s: Seq<u8>) -> Seq<u8> {
    Seq::new(s.len(), |i: int| lowercased(s[i]))
}

/// A path without the bytes from `from` up to `to`.
pub open spec fn cut(s: Seq<u8>, from: int, to: int) -> Seq<u8> {
    s.take(from) + s.skip(to)
}

/// A path with one byte in place of the `width` bytes at `at`.
pub open spec fn spliced(s: Seq<u8>, at: int, width: int, b: u8) -> Seq<u8> {
    s.take(at) + seq![b] + s.skip(at + width)
}

/// Whether a segment may begin at `at`: a slash stands before it.
pub open spec fn after_slash(s: Seq<u8>, at: int) -> bool {
    1 <= at <= s.len() && s[at - 1] == 0x2F
}

/// Whether a segment ends at `at`: there the path ends, or a slash stands.
pub open spec fn before_slash(s: Seq<u8>, at: int) -> bool {
    at == s.len() || (0 <= at < s.len() && s[at] == 0x2F)
}

/// The place behind the slash at `at`, or the end.
pub open spec fn behind_slash(s: Seq<u8>, at: int) -> int {
    if at < s.len() {
        at + 1
    } else {
        at
    }
}

/// Where the segment begins that ends at `at`.
pub open spec fn segment_start(s: Seq<u8>, at: int) -> int
    decreases at,
{
    if at <= 0 || s[at - 1] == 0x2F {
        at
    } else {
        segment_start(s, at - 1)
    }
}

/// Where the segment begins before the one that begins at `at`; the root has none.
pub open spec fn parent_start(s: Seq<u8>, at: int) -> int {
    if at <= 1 {
        at
    } else {
        segment_start(s, at - 1)
    }
}

/// Whether the byte separates segments.
pub open spec fn separator(p: Parsing, b: u8) -> bool {
    b == 0x2F || (p.backslash && b == 0x5C)
}

/// Whether a backend that decodes may look for the byte: a separator, a dot, the beginning
/// of a parameter, or a NUL.
pub open spec fn structural_byte(p: Parsing, b: u8) -> bool {
    separator(p, b) || b == 0x2E || b == 0x3B || b == 0
}

/// What a move makes of a path; `None` where it does not apply.
pub open spec fn rewritten(p: Parsing, s: Seq<u8>, step: Move) -> Option<Seq<u8>> {
    match step {
        Move::Decode => Some(decoded(s)),
        Move::Unescape { at } => match escaped(s, at) {
            Some(b) => if structural_byte(p, b) {
                Some(spliced(s, at, 3, b))
            } else {
                None
            },
            None => None,
        },
        Move::Merge { at } => if after_slash(s, at) && at < s.len() && s[at] == 0x2F {
            Some(cut(s, at, at + 1))
        } else {
            None
        },
        Move::Strip { at, end } => if 0 <= at < end <= s.len() && s[at] == 0x3B && (forall|i: int|
            at < i < end ==> s[i] != 0x2F) && (end == s.len() || separator(p, s[end])) {
            Some(cut(s, at, end))
        } else {
            None
        },
        Move::Stay { at } => if after_slash(s, at) && at < s.len() && s[at] == 0x2E && before_slash(
            s,
            at + 1,
        ) {
            Some(cut(s, at, behind_slash(s, at + 1)))
        } else {
            None
        },
        Move::Climb { at } => if after_slash(s, at) && at + 1 < s.len() && s[at] == 0x2E && s[at
            + 1] == 0x2E && before_slash(s, at + 2) {
            Some(cut(s, parent_start(s, at), behind_slash(s, at + 2)))
        } else {
            None
        },
        Move::Backslash { at } => if p.backslash && 0 <= at < s.len() && s[at] == 0x5C {
            Some(s.update(at, 0x2F))
        } else {
            None
        },
        Move::Spell { at } => match spelling(s, p.enc, at) {
            Some((b, width)) => if b == 0x5C && !p.backslash {
                None
            } else {
                Some(spliced(s, at, width, b))
            },
            None => None,
        },
        Move::Lower { at } => if p.fold && 0 <= at < s.len() {
            Some(s.update(at, lowercased(s[at])))
        } else {
            None
        },
        Move::Truncate { at } => if 0 <= at < s.len() && s[at] == 0 {
            Some(s.take(at))
        } else {
            None
        },
    }
}

/// The state behind a move; `None` where the move does not apply.
pub open spec fn moved(p: Parsing, state: State, step: Move) -> Option<State> {
    if (step is Decode || step is Unescape) && state.passes == 0 {
        None
    } else {
        match rewritten(p, state.bytes, step) {
            Some(bytes) => Some(
                State {
                    bytes,
                    passes: if step is Decode {
                        (state.passes - 1) as nat
                    } else {
                        state.passes
                    },
                },
            ),
            None => None,
        }
    }
}

/// The state behind some moves; `None` where one of them does not apply.
pub open spec fn after(p: Parsing, start: State, moves: Seq<Move>) -> Option<State>
    decreases moves.len(),
{
    if moves.len() == 0 {
        Some(start)
    } else {
        match after(p, start, moves.drop_last()) {
            Some(state) => moved(p, state, moves.last()),
            None => None,
        }
    }
}

/// The scanner reads the same escapes.
pub broadcast proof fn lemma_escaped(s: Seq<u8>, at: int)
    ensures
        #[trigger] escaped(s, at) == percent::escape_at(s, at),
{
    if let Some(b) = percent::escape_at(s, at) {
        assert(escapes(s, at, b));
    }
    assert forall|b: u8| escapes(s, at, b) implies percent::escape_at(s, at) == Some(b) by {
        assert(b == (b / 16) * 16 + b % 16);
    }
}

/// The scanner decodes the same way.
pub broadcast proof fn lemma_decoded(s: Seq<u8>)
    ensures
        #[trigger] decoded(s) == percent::decode(s),
    decreases s.len(),
{
    if s.len() > 0 {
        lemma_escaped(s, 0);
        if escaped(s, 0) is Some {
            assert(s.len() >= 3);
            lemma_decoded(s.skip(3));
        } else {
            lemma_decoded(s.skip(1));
        }
    }
}

/// So it does any number of times.
pub broadcast proof fn lemma_decoded_times(s: Seq<u8>, n: nat)
    ensures
        #[trigger] decoded_times(s, n) == percent::decode_times(s, n),
    decreases n,
{
    if n > 0 {
        lemma_decoded_times(s, (n - 1) as nat);
        lemma_decoded(decoded_times(s, (n - 1) as nat));
    }
}

/// A byte that is spelled at a place is what the scanner reads there.
pub proof fn lemma_escapes(s: Seq<u8>, at: int, b: u8)
    ensures
        escapes(s, at, b) <==> percent::escape_at(s, at) == Some(b),
{
    lemma_escaped(s, at);
    if escapes(s, at, b) {
        assert(b == (b / 16) * 16 + b % 16);
    }
}

/// The scanner reads the same alternate spellings.
pub broadcast proof fn lemma_spelling(s: Seq<u8>, enc: Encodings, at: int)
    ensures
        #[trigger] spelling(s, enc, at) == structural::form_at(s, enc, at),
{
    if let Some((c, width)) = structural::form_at(s, enc, at) {
        assert(spells(s, enc, at, c, width));
    }
    assert forall|c: u8, width: int| spells(s, enc, at, c, width) implies structural::form_at(
        s,
        enc,
        at,
    ) == Some((c, width)) by {}
    if exists|c: u8, width: int| spells(s, enc, at, c, width) {
        let (c, width) = choose|c: u8, width: int| spells(s, enc, at, c, width);
        let pair = (c, width);
        assert(spells(s, enc, at, pair.0, pair.1));
    }
}

/// What is spelled at a place is what the scanner reads there.
pub proof fn lemma_spells(s: Seq<u8>, enc: Encodings, at: int, c: u8, width: int)
    requires
        spells(s, enc, at, c, width),
    ensures
        structural::form_at(s, enc, at) == Some((c, width)),
{
}

/// The guard lowercases the same letters.
pub broadcast proof fn lemma_lowercased(b: u8)
    ensures
        #[trigger] lowercased(b) == anchor::lower(b),
{
}

pub proof fn lemma_lowercase(s: Seq<u8>)
    ensures
        lowercase(s) == anchor::folded(s),
{
    assert(lowercase(s) =~= anchor::folded(s));
}

} // verus!
