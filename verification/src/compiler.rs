//! The compiler: one pass over the source text that folds runs of repeated
//! symbols into counted instructions and resolves every bracket to the index
//! of its partner.

use vstd::prelude::*;
use vstd::utf8::encode_utf8_decode_utf8;
use crate::encoding::{lemma_encoding_is_no_shorter, lemma_encoding_splits};
use crate::instruction::{
    instruction_for, is_foldable, lemma_run_length_is_maximal, lemma_token_len_bounds, token_len,
    InstKind,
};
use crate::pairing::{
    counts_positive, is_pair, jump_delta, lemma_nesting_depends_on_prefix, lemma_same_shape_pair,
    nesting, same_shape, unresolved, well_formed,
};

verus! {

/// Why a source text was rejected.
#[derive(Clone, Copy, Debug, PartialEq, Eq, Structural)]
pub enum CompileError {
    /// A bracket has no partner. `position` is the index of the offending
    /// character in the source text: the first `]` that closes nothing or,
    /// where every `]` closes something, the last `[` that is never closed.
    UnmatchedBracket { position: usize },
}

/// The change in bracket depth that a character makes.
pub open spec fn bracket_delta(c: char) -> int {
    if c == '[' {
        1
    } else if c == ']' {
        -1
    } else {
        0
    }
}

/// The bracket depth in front of position `i`: the number of `[` less the
/// number of `]` among the first `i` characters.
pub open spec fn depth_at(s: Seq<char>, i: int) -> int
    decreases i,
{
    if i <= 0 {
        0
    } else {
        depth_at(s, i - 1) + bracket_delta(s[i - 1])
    }
}

/// The brackets of `s` are properly nested: no `]` comes before its `[`, and
/// every `[` is closed.
pub open spec fn balanced(s: Seq<char>) -> bool {
    &&& forall|i: int| 0 <= i <= s.len() ==> depth_at(s, i) >= 0
    &&& depth_at(s, s.len() as int) == 0
}

/// The `[` at `p` is never closed.
pub open spec fn unmatched_open(s: Seq<char>, p: int) -> bool {
    &&& 0 <= p < s.len()
    &&& s[p] == '['
    &&& forall|j: int| p < j <= s.len() ==> depth_at(s, j) > depth_at(s, p)
}

/// The `]` at `p` is the first that closes nothing.
pub open spec fn first_unmatched_close(s: Seq<char>, p: int) -> bool {
    &&& 0 <= p < s.len()
    &&& s[p] == ']'
    &&& depth_at(s, p) == 0
    &&& forall|i: int| 0 <= i <= p ==> depth_at(s, i) >= 0
}

/// Every `]` of `s` closes something, and the `[` at `p` is the last that is
/// never closed.
pub open spec fn last_unmatched_open(s: Seq<char>, p: int) -> bool {
    &&& forall|i: int| 0 <= i <= s.len() ==> depth_at(s, i) >= 0
    &&& unmatched_open(s, p)
    &&& forall|q: int| p < q < s.len() ==> !unmatched_open(s, q)
}

/// `p` is the position that a rejection of `s` reports.
pub open spec fn offending(s: Seq<char>, p: int) -> bool {
    first_unmatched_close(s, p) || last_unmatched_open(s, p)
}

/// A text with an offending position is not balanced.
pub proof fn lemma_offending_is_unbalanced(s: Seq<char>, p: int)
    requires
        offending(s, p),
    ensures
        !balanced(s),
{
    if first_unmatched_close(s, p) {
        assert(depth_at(s, p + 1) == depth_at(s, p) + bracket_delta(s[p]));
    } else {
        assert(depth_at(s, s.len() as int) > depth_at(s, p));
    }
}

/// A text has at most one offending position.
pub proof fn lemma_offending_is_unique(s: Seq<char>, p: int, q: int)
    requires
        offending(s, p),
        offending(s, q),
    ensures
        p == q,
{
    if first_unmatched_close(s, p) {
        assert(depth_at(s, p + 1) == depth_at(s, p) + bracket_delta(s[p]));
    }
    if first_unmatched_close(s, q) {
        assert(depth_at(s, q + 1) == depth_at(s, q) + bracket_delta(s[q]));
    }
}

/// The instructions that `s` stands for, in order, with the jumps still
/// unresolved: the text is cut into tokens from the left, and each token that
/// is made of a symbol of the language gives one instruction.
pub open spec fn tokens(s: Seq<char>) -> Seq<InstKind>
    decreases s.len(),
    via tokens_decreases
{
    if s.len() == 0 {
        Seq::empty()
    } else {
        let n = token_len(s);
        let rest = tokens(s.skip(n as int));
        match instruction_for(s[0], n as usize) {
            Some(inst) => seq![inst] + rest,
            None => rest,
        }
    }
}

/// Every token takes at least one character, so less text is left behind it.
#[via_fn]
proof fn tokens_decreases(s: Seq<char>) {
    if s.len() > 0 {
        lemma_token_len_bounds(s);
    }
}

/// The program with every jump target put back to the placeholder.
spec fn shape(program: Seq<InstKind>) -> Seq<InstKind> {
    Seq::new(program.len(), |i: int| unresolved(program[i]))
}

/// Entry `k` of the stack of loops still open: the `[` at source position
/// `entry.1`, compiled to the instruction at `entry.0`, stands at depth `k`
/// and nothing behind it has come back to that depth.
spec fn open_loop(
    s: Seq<char>,
    position: int,
    program: Seq<InstKind>,
    k: int,
    entry: (usize, usize),
) -> bool {
    let at = entry.0 as int;
    let p = entry.1 as int;
    &&& 0 <= p < position
    &&& s[p] == '['
    &&& depth_at(s, p) == k
    &&& forall|j: int| p < j <= position ==> depth_at(s, j) > k
    &&& 0 <= at < program.len()
    &&& program[at] is JumpIfZero
    &&& nesting(program, at) == k
    &&& forall|j: int| at < j <= program.len() ==> nesting(program, j) > k
}

/// The jump at `i`, if it is one, names its partner or is still on the stack.
spec fn settled(program: Seq<InstKind>, pending: Seq<(usize, usize)>, i: int) -> bool {
    match program[i] {
        InstKind::JumpIfZero(target) => is_pair(program, i, target as int) || (0 <= nesting(
            program,
            i,
        ) < pending.len() && pending[nesting(program, i)].0 == i),
        InstKind::JumpIfNonZero(target) => is_pair(program, target as int, i),
        _ => true,
    }
}

/// What holds between tokens while the source is scanned: `program` is what
/// the first `position` characters compile to, and `pending` is the stack of
/// the loops that are still open, innermost last.
spec fn scanning(
    s: Seq<char>,
    position: int,
    program: Seq<InstKind>,
    pending: Seq<(usize, usize)>,
) -> bool {
    &&& 0 <= position <= s.len() <= usize::MAX
    &&& tokens(s) =~= shape(program) + tokens(s.skip(position))
    &&& forall|i: int| 0 <= i <= position ==> depth_at(s, i) >= 0
    &&& depth_at(s, position) == pending.len()
    &&& nesting(program, program.len() as int) == pending.len()
    &&& counts_positive(program)
    &&& forall|k: int|
        0 <= k < pending.len() ==> open_loop(s, position, program, k, #[trigger] pending[k])
    &&& forall|i: int| 0 <= i < program.len() ==> #[trigger] settled(program, pending, i)
}

/// Nothing is compiled and no loop is open before the first character.
proof fn lemma_scan_start(s: Seq<char>)
    requires
        s.len() <= usize::MAX,
    ensures
        scanning(s, 0, Seq::empty(), Seq::empty()),
{
    assert(s.skip(0) =~= s);
    assert(shape(Seq::empty()) + tokens(s) =~= tokens(s));
}

/// Bracket depth does not change over characters that are no brackets.
proof fn lemma_depth_flat(s: Seq<char>, from: int, to: int)
    requires
        0 <= from <= to <= s.len(),
        forall|i: int| from <= i < to ==> bracket_delta(#[trigger] s[i]) == 0,
    ensures
        forall|j: int| from <= j <= to ==> #[trigger] depth_at(s, j) == depth_at(s, from),
    decreases to - from,
{
    if from < to {
        lemma_depth_flat(s, from, to - 1);
        assert(bracket_delta(s[to - 1]) == 0);
        assert(depth_at(s, to) == depth_at(s, to - 1) + bracket_delta(s[to - 1]));
    }
}

/// The first token at `position`: its length, and that only a token of one
/// character can hold a bracket.
proof fn lemma_token_at(s: Seq<char>, position: int)
    requires
        0 <= position < s.len(),
    ensures
        1 <= token_len(s.skip(position)) <= s.len() - position,
        s.skip(position)[0] == s[position],
        s.skip(position).skip(token_len(s.skip(position)) as int) =~= s.skip(
            position + token_len(s.skip(position)),
        ),
        bracket_delta(s[position]) != 0 ==> token_len(s.skip(position)) == 1,
        bracket_delta(s[position]) == 0 ==> forall|j: int|
            position <= j <= position + token_len(s.skip(position)) ==> #[trigger] depth_at(s, j)
                == depth_at(s, position),
{
    let rest = s.skip(position);
    let n = token_len(rest) as int;
    lemma_token_len_bounds(rest);
    if bracket_delta(s[position]) == 0 {
        assert forall|i: int| position <= i < position + n implies bracket_delta(#[trigger] s[i])
            == 0 by {
            if is_foldable(rest[0]) {
                lemma_run_length_is_maximal(rest, rest[0]);
                assert(rest[i - position] == rest[0]);
            }
        }
        lemma_depth_flat(s, position, position + n);
    }
}

/// Adding instructions behind a program, or changing the target of a jump in
/// it, leaves the nesting depths and the pairs of the program as they were.
proof fn lemma_program_grows(old_program: Seq<InstKind>, program: Seq<InstKind>)
    requires
        old_program.len() <= program.len(),
        forall|i: int|
            0 <= i < old_program.len() ==> unresolved(#[trigger] old_program[i]) == unresolved(
                program[i],
            ),
    ensures
        forall|i: int|
            0 <= i <= old_program.len() ==> #[trigger] nesting(program, i) == nesting(
                old_program,
                i,
            ),
        forall|a: int, b: int| #[trigger]
            is_pair(old_program, a, b) ==> is_pair(program, a, b),
{
    assert forall|i: int| 0 <= i < old_program.len() implies jump_delta(
        #[trigger] old_program[i],
    ) == jump_delta(program[i]) by {
        assert(unresolved(old_program[i]) == unresolved(program[i]));
    }
    lemma_nesting_depends_on_prefix(old_program, program, old_program.len() as int);
    assert forall|a: int, b: int| #[trigger] is_pair(old_program, a, b) implies is_pair(
        program,
        a,
        b,
    ) by {
        lemma_same_shape_pair(old_program, program, a, b);
    }
}

/// Scanning moves over a token that holds no bracket.
proof fn lemma_scan_plain(
    s: Seq<char>,
    position: int,
    program: Seq<InstKind>,
    pending: Seq<(usize, usize)>,
)
    requires
        scanning(s, position, program, pending),
        position < s.len(),
        bracket_delta(s[position]) == 0,
    ensures
        scanning(
            s,
            position + token_len(s.skip(position)),
            match instruction_for(s[position], token_len(s.skip(position)) as usize) {
                Some(inst) => program.push(inst),
                None => program,
            },
            pending,
        ),
{
    let rest = s.skip(position);
    let n = token_len(rest);
    let after = position + n;
    lemma_token_at(s, position);
    let grown = match instruction_for(s[position], n as usize) {
        Some(inst) => program.push(inst),
        None => program,
    };
    lemma_program_grows(program, grown);
    assert(tokens(s) =~= shape(grown) + tokens(s.skip(after))) by {
        match instruction_for(s[position], n as usize) {
            Some(inst) => {
                assert(unresolved(inst) == inst);
                assert(shape(grown) =~= shape(program) + seq![inst]);
            },
            None => {},
        }
    }
    assert(nesting(grown, grown.len() as int) == pending.len()) by {
        if grown.len() > program.len() {
            assert(nesting(grown, grown.len() as int) == nesting(grown, grown.len() - 1)
                + jump_delta(grown[grown.len() - 1]));
        }
    }
    assert forall|k: int| 0 <= k < pending.len() implies open_loop(
        s,
        after,
        grown,
        k,
        #[trigger] pending[k],
    ) by {
        assert(open_loop(s, position, program, k, pending[k]));
    }
    assert forall|i: int| 0 <= i < grown.len() implies #[trigger] settled(grown, pending, i) by {
        if i < program.len() {
            assert(settled(program, pending, i));
        }
    }
}

/// Scanning moves over a `[`: its instruction is emitted with a placeholder
/// and goes on the stack.
proof fn lemma_scan_open(
    s: Seq<char>,
    position: int,
    program: Seq<InstKind>,
    pending: Seq<(usize, usize)>,
)
    requires
        scanning(s, position, program, pending),
        position < s.len(),
        s[position] == '[',
        program.len() <= usize::MAX,
    ensures
        scanning(
            s,
            position + 1,
            program.push(InstKind::JumpIfZero(0)),
            pending.push((program.len() as usize, position as usize)),
        ),
{
    let grown = program.push(InstKind::JumpIfZero(0));
    let stack = pending.push((program.len() as usize, position as usize));
    lemma_token_at(s, position);
    lemma_program_grows(program, grown);
    assert(shape(grown) =~= shape(program) + seq![InstKind::JumpIfZero(0)]);
    assert(depth_at(s, position + 1) == depth_at(s, position) + bracket_delta(s[position]));
    assert(nesting(grown, grown.len() as int) == nesting(grown, grown.len() - 1) + jump_delta(
        grown[grown.len() - 1],
    ));
    assert forall|k: int| 0 <= k < stack.len() implies open_loop(
        s,
        position + 1,
        grown,
        k,
        #[trigger] stack[k],
    ) by {
        if k < pending.len() {
            assert(open_loop(s, position, program, k, pending[k]));
        }
    }
    assert forall|i: int| 0 <= i < grown.len() implies #[trigger] settled(grown, stack, i) by {
        if i < program.len() {
            assert(settled(program, pending, i));
        }
    }
}

/// Scanning moves over a `]` that closes the innermost open loop: the two
/// ends are given each other's index.
proof fn lemma_scan_close(
    s: Seq<char>,
    position: int,
    program: Seq<InstKind>,
    pending: Seq<(usize, usize)>,
)
    requires
        scanning(s, position, program, pending),
        position < s.len(),
        s[position] == ']',
        pending.len() > 0,
        program.len() <= usize::MAX,
    ensures
        pending.last().0 < program.len(),
        scanning(
            s,
            position + 1,
            program.update(
                pending.last().0 as int,
                InstKind::JumpIfZero(program.len() as usize),
            ).push(InstKind::JumpIfNonZero(pending.last().0)),
            pending.drop_last(),
        ),
{
    let top = pending.len() - 1;
    let opening = pending[top].0 as int;
    let closing = program.len() as int;
    assert(open_loop(s, position, program, top, pending[top]));
    let grown = program.update(opening, InstKind::JumpIfZero(closing as usize)).push(
        InstKind::JumpIfNonZero(opening as usize),
    );
    let stack = pending.drop_last();
    lemma_token_at(s, position);
    lemma_program_grows(program, grown);
    assert(shape(grown) =~= shape(program) + seq![InstKind::JumpIfNonZero(0)]);
    assert(depth_at(s, position + 1) == depth_at(s, position) + bracket_delta(s[position]));
    assert(nesting(grown, closing + 1) == nesting(grown, closing) + jump_delta(grown[closing]));
    assert(is_pair(grown, opening, closing));
    assert forall|k: int| 0 <= k < stack.len() implies open_loop(
        s,
        position + 1,
        grown,
        k,
        #[trigger] stack[k],
    ) by {
        assert(open_loop(s, position, program, k, pending[k]));
    }
    assert forall|i: int| 0 <= i < grown.len() implies #[trigger] settled(grown, stack, i) by {
        if i < program.len() && i != opening {
            assert(settled(program, pending, i));
        }
    }
}

/// A `]` met while no loop is open is the first that closes nothing.
proof fn lemma_scan_stray_close(
    s: Seq<char>,
    position: int,
    program: Seq<InstKind>,
    pending: Seq<(usize, usize)>,
)
    requires
        scanning(s, position, program, pending),
        position < s.len(),
        s[position] == ']',
        pending.len() == 0,
    ensures
        !balanced(s),
        first_unmatched_close(s, position),
{
    assert(depth_at(s, position + 1) == depth_at(s, position) + bracket_delta(s[position]));
}

/// At the end of the source the program is complete if no loop is open;
/// otherwise the innermost open loop is the last `[` that is never closed.
proof fn lemma_scan_end(s: Seq<char>, program: Seq<InstKind>, pending: Seq<(usize, usize)>)
    requires
        scanning(s, s.len() as int, program, pending),
    ensures
        pending.len() == 0 ==> balanced(s) && same_shape(program, tokens(s)) && well_formed(
            program,
        ),
        pending.len() > 0 ==> !balanced(s) && last_unmatched_open(s, pending.last().1 as int),
{
    if pending.len() == 0 {
        assert(s.skip(s.len() as int) =~= Seq::<char>::empty());
        assert(tokens(s) =~= shape(program));
        assert forall|i: int| 0 <= i < program.len() implies match #[trigger] program[i] {
            InstKind::JumpIfZero(target) => is_pair(program, i, target as int),
            InstKind::JumpIfNonZero(target) => is_pair(program, target as int, i),
            _ => true,
        } by {
            assert(settled(program, pending, i));
        }
        assert forall|i: int| 0 <= i < program.len() implies unresolved(#[trigger] program[i])
            == unresolved(tokens(s)[i]) by {
            assert(tokens(s)[i] == unresolved(program[i]));
        }
    } else {
        let top = pending.len() - 1;
        let p = pending[top].1 as int;
        assert(open_loop(s, s.len() as int, program, top, pending[top]));
        assert forall|q: int| p < q < s.len() implies !unmatched_open(s, q) by {
            assert(depth_at(s, q) > top);
        }
    }
}

/// Compiles source text into an instruction sequence.
///
/// Characters outside the eight symbols are skipped. A run of one of `+`,
/// `-`, `<`, `>` becomes one instruction that carries the length of the run;
/// a skipped character ends a run. Every bracket becomes a jump that carries
/// the index of its partner.
///
/// The text is rejected exactly when its brackets are not balanced, and the
/// error names the offending character.
pub fn compile(source: &str) -> (result: Result<Vec<InstKind>, CompileError>)
    ensures
        match result {
            Ok(program) => {
                &&& balanced(source@)
                &&& same_shape(program@, tokens(source@))
                &&& well_formed(program@)
            },
            Err(CompileError::UnmatchedBracket { position }) => {
                &&& !balanced(source@)
                &&& offending(source@, position as int)
            },
        },
{
    let mut remaining: &str = source;
    let mut position: usize = 0;
    let mut instructions: Vec<InstKind> = Vec::new();
    // The loops that are still open, innermost last: for each, the index of
    // its instruction and the position of its `[` in the source.
    let mut pending: Vec<(usize, usize)> = Vec::new();
    // No position is greater than the number of bytes of the source.
    let size = source.as_bytes().len();
    proof {
        lemma_encoding_is_no_shorter(source@);
        lemma_scan_start(source@);
        assert(source@.skip(0) =~= source@);
    }
    loop
        invariant
            source@.len() <= size,
            remaining@ == source@.skip(position as int),
            scanning(source@, position as int, instructions@, pending@),
        ensures
            position == source@.len(),
            scanning(source@, position as int, instructions@, pending@),
        decreases size - position,
    {
        match InstKind::parse(remaining) {
            None => {
                break ;
            },
            Some((token, inst)) => {
                proof {
                    lemma_token_at(source@, position as int);
                }
                match inst {
                    Some(InstKind::JumpIfZero(_)) => {
                        let opening = instructions.len();
                        proof {
                            lemma_scan_open(source@, position as int, instructions@, pending@);
                        }
                        pending.push((opening, position));
                        instructions.push(InstKind::JumpIfZero(0));
                    },
                    Some(InstKind::JumpIfNonZero(_)) => {
                        let ghost stack = pending@;
                        match pending.pop() {
                            None => {
                                proof {
                                    lemma_scan_stray_close(
                                        source@,
                                        position as int,
                                        instructions@,
                                        stack,
                                    );
                                }
                                return Err(CompileError::UnmatchedBracket { position });
                            },
                            Some((opening, _)) => {
                                let closing = instructions.len();
                                proof {
                                    lemma_scan_close(
                                        source@,
                                        position as int,
                                        instructions@,
                                        stack,
                                    );
                                }
                                instructions.set(opening, InstKind::JumpIfZero(closing));
                                instructions.push(InstKind::JumpIfNonZero(opening));
                            },
                        }
                    },
                    Some(other) => {
                        proof {
                            lemma_scan_plain(source@, position as int, instructions@, pending@);
                        }
                        instructions.push(other);
                    },
                    None => {
                        proof {
                            lemma_scan_plain(source@, position as int, instructions@, pending@);
                        }
                    },
                }
                // A token is a run of symbols or a single character.
                let symbols = match inst {
                    Some(InstKind::Add(n)) => n,
                    Some(InstKind::Subtract(n)) => n,
                    Some(InstKind::MoveRight(n)) => n,
                    Some(InstKind::MoveLeft(n)) => n,
                    _ => 1,
                };
                proof {
                    lemma_encoding_splits(remaining@, symbols as int);
                }
                let (_, rest) = remaining.split_at(token.as_bytes().len());
                proof {
                    encode_utf8_decode_utf8(rest@);
                    encode_utf8_decode_utf8(remaining@.skip(symbols as int));
                }
                position = position + symbols;
                remaining = rest;
            },
        }
    }
    proof {
        lemma_scan_end(source@, instructions@, pending@);
    }
    match pending.pop() {
        Some((_, position)) => Err(CompileError::UnmatchedBracket { position }),
        None => Ok(instructions),
    }
}

} // verus!
