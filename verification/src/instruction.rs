//! The instruction set and the symbol table that maps source characters to it.

use vstd::prelude::*;
use vstd::std_specs::iter::IteratorSpec;
use vstd::utf8::{
    encode_scalar, encode_utf8, encode_utf8_decode_utf8, is_ascii_chars,
    is_ascii_chars_encode_utf8,
};
use crate::encoding::{encoded_len, lemma_encoding_is_no_shorter, lemma_encoding_splits};

verus! {

/// One instruction of a compiled program.
///
/// The counted variants carry the length of the run of symbols they were
/// folded from. The two jumps carry the index of their partner bracket in the
/// instruction sequence.
#[derive(Clone, Copy, Debug, PartialEq, Eq, Structural)]
pub enum InstKind {
    /// `+`: add the count to the current cell, wrapping at eight bits.
    Add(usize),
    /// `-`: subtract the count from the current cell, wrapping at eight bits.
    Subtract(usize),
    /// `>`: move the cell pointer right by the count.
    MoveRight(usize),
    /// `<`: move the cell pointer left by the count.
    MoveLeft(usize),
    /// `.`: emit the current cell as one byte.
    Output,
    /// `,`: read one byte into the current cell.
    Input,
    /// `[`: if the current cell is zero, continue after the partner at this index.
    JumpIfZero(usize),
    /// `]`: if the current cell is not zero, continue after the partner at this index.
    JumpIfNonZero(usize),
}

/// Whether repetitions of `c` are folded into one counted instruction.
pub open spec fn is_foldable(c: char) -> bool {
    c == '+' || c == '-' || c == '<' || c == '>'
}

/// The instruction that a run of `count` symbols `c` stands for, if `c` is a
/// symbol of the language. Jumps come out with a placeholder target of zero.
pub open spec fn instruction_for(c: char, count: usize) -> Option<InstKind> {
    if c == '+' {
        Some(InstKind::Add(count))
    } else if c == '-' {
        Some(InstKind::Subtract(count))
    } else if c == '>' {
        Some(InstKind::MoveRight(count))
    } else if c == '<' {
        Some(InstKind::MoveLeft(count))
    } else if c == '.' {
        Some(InstKind::Output)
    } else if c == ',' {
        Some(InstKind::Input)
    } else if c == '[' {
        Some(InstKind::JumpIfZero(0))
    } else if c == ']' {
        Some(InstKind::JumpIfNonZero(0))
    } else {
        None
    }
}

/// The number of elements at the front of `s` that are equal to `c`.
pub open spec fn run_length(s: Seq<char>, c: char) -> nat
    decreases s.len(),
{
    if s.len() == 0 || s[0] != c {
        0
    } else {
        1 + run_length(s.skip(1), c)
    }
}

/// The number of characters that the first token of `s` takes up: the whole
/// run for a foldable symbol, one character for anything else.
pub open spec fn token_len(s: Seq<char>) -> nat {
    if s.len() == 0 {
        0
    } else if is_foldable(s[0]) {
        run_length(s, s[0])
    } else {
        1
    }
}

/// A run is made of `c` throughout and ends at the end of `s` or in front of
/// the first character that differs from `c`.
pub proof fn lemma_run_length_is_maximal(s: Seq<char>, c: char)
    ensures
        run_length(s, c) <= s.len(),
        forall|i: int| 0 <= i < run_length(s, c) ==> s[i] == c,
        run_length(s, c) < s.len() ==> s[run_length(s, c) as int] != c,
    decreases s.len(),
{
    if s.len() > 0 && s[0] == c {
        let rest = s.skip(1);
        lemma_run_length_is_maximal(rest, c);
        assert forall|i: int| 0 <= i < run_length(s, c) implies s[i] == c by {
            if i > 0 {
                assert(rest[i - 1] == c);
            }
        }
        if run_length(s, c) < s.len() {
            assert(rest[run_length(rest, c) as int] != c);
        }
    }
}

/// The first token of a non-empty text is not empty and lies within the text.
pub proof fn lemma_token_len_bounds(s: Seq<char>)
    requires
        s.len() > 0,
    ensures
        1 <= token_len(s) <= s.len(),
{
    lemma_run_length_is_maximal(s, s[0]);
}

/// The encoding of the first token of a text takes the bytes of its first
/// character and one byte for every further symbol of a run.
proof fn lemma_token_encoding(s: Seq<char>)
    requires
        s.len() > 0,
    ensures
        encode_utf8(s.take(token_len(s) as int)).len() == encode_scalar(s[0] as u32).len()
            + token_len(s) - 1,
{
    let token = s.take(token_len(s) as int);
    lemma_run_length_is_maximal(s, s[0]);
    if is_foldable(s[0]) {
        assert(is_ascii_chars(token));
        is_ascii_chars_encode_utf8(token);
    } else {
        assert(token.drop_first() =~= Seq::<char>::empty());
        assert(encode_utf8(Seq::<char>::empty()) =~= Seq::<u8>::empty());
    }
}

impl InstKind {
    /// Takes the first token off the front of `s`.
    ///
    /// Returns `None` at the end of the text. Otherwise returns the part of
    /// `s` that the token is made of and the instruction that it stands for,
    /// if it stands for one: a run of one foldable symbol becomes one counted
    /// instruction, any other symbol one instruction, and a character outside
    /// the language none.
    pub fn parse(s: &str) -> (r: Option<(&str, Option<InstKind>)>)
        ensures
            match r {
                None => s@.len() == 0,
                Some((token, inst)) => {
                    &&& 0 < token_len(s@) <= s@.len() <= usize::MAX
                    &&& token@ == s@.subrange(0, token_len(s@) as int)
                    &&& inst == instruction_for(s@[0], token_len(s@) as usize)
                },
            },
    {
        let mut chars = s.chars();
        let first_char = match chars.next() {
            Some(c) => c,
            None => {
                return None;
            },
        };
        // A run has no more symbols than the text has bytes.
        let size = s.as_bytes().len();
        let mut count: usize = 1;
        proof {
            lemma_encoding_is_no_shorter(s@);
            assert(chars.remaining() =~= s@.skip(1));
        }
        if matches!(first_char, '<' | '>' | '+' | '-') {
            loop
                invariant_except_break
                    chars.remaining() == s@.skip(count as int),
                invariant
                    1 <= count <= s@.len() <= size,
                    chars.obeys_prophetic_iter_laws(),
                    run_length(s@, first_char) == count + run_length(
                        s@.skip(count as int),
                        first_char,
                    ),
                ensures
                    count == run_length(s@, first_char),
                decreases size - count,
            {
                match chars.next() {
                    Some(c) => {
                        if c != first_char {
                            break ;
                        }
                        assert(s@.skip(count as int).skip(1) =~= s@.skip(count + 1));
                        count += 1;
                    },
                    None => {
                        break ;
                    },
                }
            }
        }
        proof {
            lemma_token_encoding(s@);
            lemma_encoding_splits(s@, count as int);
        }
        let (token, _) = s.split_at(encoded_len(first_char) + (count - 1));
        proof {
            encode_utf8_decode_utf8(token@);
            encode_utf8_decode_utf8(s@.take(count as int));
        }
        Some((token, InstKind::map_inst(first_char, count)))
    }

    /// Maps a symbol and the length of its run to an instruction; any
    /// character outside the eight symbols maps to nothing.
    pub fn map_inst(c: char, count: usize) -> (inst: Option<InstKind>)
        ensures
            inst == instruction_for(c, count),
    {
        match c {
            '+' => Some(InstKind::Add(count)),
            '-' => Some(InstKind::Subtract(count)),
            '>' => Some(InstKind::MoveRight(count)),
            '<' => Some(InstKind::MoveLeft(count)),
            '.' => Some(InstKind::Output),
            ',' => Some(InstKind::Input),
            '[' => Some(InstKind::JumpIfZero(0)),
            ']' => Some(InstKind::JumpIfNonZero(0)),
            _ => None,
        }
    }
}

} // verus!
