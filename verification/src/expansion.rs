//! The expansion of a program: every instruction written out as the single
//! symbols it was folded from, and where each instruction and each loop of
//! the program is found again in it.

use vstd::prelude::*;
use crate::compiler::tokens;
use crate::instruction::{
    instruction_for, is_foldable, lemma_run_length_is_maximal, lemma_token_len_bounds, token_len,
    InstKind,
};
use crate::pairing::{
    counts_positive, is_pair, jump_delta, lemma_close_is_unique, lemma_open_is_unique, nesting,
    same_shape, unresolved, well_formed, well_paired,
};

verus! {

/// The number of symbols that an instruction stands for.
pub open spec fn width(inst: InstKind) -> nat {
    match inst {
        InstKind::Add(n) => n as nat,
        InstKind::Subtract(n) => n as nat,
        InstKind::MoveRight(n) => n as nat,
        InstKind::MoveLeft(n) => n as nat,
        _ => 1,
    }
}

/// The instruction for one symbol of the kind of `inst`, with a jump left
/// unresolved.
pub open spec fn single(inst: InstKind) -> InstKind {
    match inst {
        InstKind::Add(_) => InstKind::Add(1),
        InstKind::Subtract(_) => InstKind::Subtract(1),
        InstKind::MoveRight(_) => InstKind::MoveRight(1),
        InstKind::MoveLeft(_) => InstKind::MoveLeft(1),
        InstKind::Output => InstKind::Output,
        InstKind::Input => InstKind::Input,
        InstKind::JumpIfZero(_) => InstKind::JumpIfZero(0),
        InstKind::JumpIfNonZero(_) => InstKind::JumpIfNonZero(0),
    }
}

/// The program with every instruction replaced by as many single
/// instructions as it stands for symbols, jumps unresolved.
pub open spec fn expand(program: Seq<InstKind>) -> Seq<InstKind>
    decreases program.len(),
{
    if program.len() == 0 {
        Seq::empty()
    } else {
        expand(program.drop_last()) + Seq::new(
            width(program.last()),
            |k: int| single(program.last()),
        )
    }
}

/// The instructions that `s` stands for when nothing is folded, jumps
/// unresolved: one instruction for every symbol of the language in `s`.
pub open spec fn symbols(s: Seq<char>) -> Seq<InstKind>
    decreases s.len(),
{
    if s.len() == 0 {
        Seq::empty()
    } else {
        match instruction_for(s[0], 1) {
            Some(inst) => seq![inst] + symbols(s.skip(1)),
            None => symbols(s.skip(1)),
        }
    }
}

/// Where instruction `i` of a program begins in its expansion: the number of
/// symbols that the first `i` instructions stand for.
pub open spec fn offset(program: Seq<InstKind>, i: int) -> nat
    decreases i,
{
    if i <= 0 {
        0
    } else {
        offset(program, i - 1) + width(program[i - 1])
    }
}

/// `expanded` is `folded` with nothing folded: the expansion of `folded`
/// with its jumps resolved.
pub open spec fn is_unfolding(folded: Seq<InstKind>, expanded: Seq<InstKind>) -> bool {
    same_shape(expanded, expand(folded)) && well_paired(expanded)
}

/// The instruction whose symbols hold position `x` of the expansion.
pub open spec fn origin(program: Seq<InstKind>, x: int) -> int {
    choose|i: int|
        0 <= i < program.len() && #[trigger] offset(program, i) <= x < offset(program, i + 1)
}

/// The expansion of a program with its jumps resolved: each jump names the
/// place that its partner has come to.
pub open spec fn unfold(folded: Seq<InstKind>) -> Seq<InstKind> {
    Seq::new(
        offset(folded, folded.len() as int),
        |x: int|
            match folded[origin(folded, x)] {
                InstKind::JumpIfZero(t) => InstKind::JumpIfZero(offset(folded, t as int) as usize),
                InstKind::JumpIfNonZero(t) => InstKind::JumpIfNonZero(
                    offset(folded, t as int) as usize,
                ),
                other => single(other),
            },
    )
}

/// The offset behind an instruction is the offset in front of it and its
/// width.
pub proof fn lemma_offset_step(program: Seq<InstKind>, i: int)
    requires
        0 <= i,
    ensures
        offset(program, i + 1) == offset(program, i) + width(program[i]),
{
}

/// The offset of an instruction looks only at the widths of the instructions
/// in front of it.
proof fn lemma_offset_of_prefix(a: Seq<InstKind>, b: Seq<InstKind>, n: int)
    requires
        0 <= n <= a.len(),
        n <= b.len(),
        forall|i: int| 0 <= i < n ==> width(#[trigger] a[i]) == width(b[i]),
    ensures
        offset(a, n) == offset(b, n),
    decreases n,
{
    if n > 0 {
        lemma_offset_of_prefix(a, b, n - 1);
        assert(width(a[n - 1]) == width(b[n - 1]));
    }
}

/// Offsets do not fall from one instruction to a later one.
pub proof fn lemma_offset_monotone(program: Seq<InstKind>, i: int, j: int)
    requires
        0 <= i <= j,
    ensures
        offset(program, i) <= offset(program, j),
    decreases j - i,
{
    if i < j {
        lemma_offset_monotone(program, i, j - 1);
    }
}

/// Where every instruction stands for at least one symbol, offsets rise from
/// one instruction to a later one.
pub proof fn lemma_offset_strict(program: Seq<InstKind>, i: int, j: int)
    requires
        counts_positive(program),
        0 <= i < j <= program.len(),
    ensures
        offset(program, i) < offset(program, j),
    decreases j - i,
{
    assert(width(program[j - 1]) >= 1);
    if i < j - 1 {
        lemma_offset_strict(program, i, j - 1);
    }
}

/// The symbols of two programs put one behind the other are those of the
/// first and those of the second.
proof fn lemma_offset_concat(a: Seq<InstKind>, b: Seq<InstKind>, i: int)
    requires
        0 <= i <= b.len(),
    ensures
        offset(a + b, a.len() + i) == offset(a, a.len() as int) + offset(b, i),
    decreases i,
{
    if i == 0 {
        lemma_offset_of_prefix(a + b, a, a.len() as int);
    } else {
        lemma_offset_concat(a, b, i - 1);
        assert((a + b)[a.len() + i - 1] == b[i - 1]);
    }
}

/// The expansion is as long as the program stands for symbols.
pub proof fn lemma_expand_len(program: Seq<InstKind>)
    ensures
        expand(program).len() == offset(program, program.len() as int),
    decreases program.len(),
{
    if program.len() > 0 {
        let front = program.drop_last();
        lemma_expand_len(front);
        lemma_offset_of_prefix(front, program, front.len() as int);
    }
}

/// Symbol `k` of instruction `i` is found at `offset(program, i) + k` of the
/// expansion.
proof fn lemma_expand_at(program: Seq<InstKind>, i: int, k: int)
    requires
        0 <= i < program.len(),
        0 <= k < width(program[i]),
    ensures
        offset(program, i) + k < expand(program).len(),
        expand(program)[offset(program, i) + k] == single(program[i]),
    decreases program.len(),
{
    let front = program.drop_last();
    lemma_expand_len(front);
    lemma_expand_len(program);
    lemma_offset_of_prefix(front, program, front.len() as int);
    if i < program.len() - 1 {
        lemma_expand_at(front, i, k);
        lemma_offset_of_prefix(front, program, i);
    }
}

/// The expansion of two programs put one behind the other is the expansion
/// of the first followed by that of the second.
proof fn lemma_expand_concat(a: Seq<InstKind>, b: Seq<InstKind>)
    ensures
        expand(a + b) =~= expand(a) + expand(b),
    decreases b.len(),
{
    if b.len() == 0 {
        assert(a + b =~= a);
    } else {
        lemma_expand_concat(a, b.drop_last());
        assert((a + b).drop_last() =~= a + b.drop_last());
    }
}

/// Programs of one shape have one expansion.
proof fn lemma_expand_of_same_shape(a: Seq<InstKind>, b: Seq<InstKind>)
    requires
        same_shape(a, b),
    ensures
        expand(a) == expand(b),
    decreases a.len(),
{
    if a.len() > 0 {
        assert(unresolved(a.last()) == unresolved(b[a.len() - 1]));
        assert forall|i: int| 0 <= i < a.len() - 1 implies unresolved(
            #[trigger] a.drop_last()[i],
        ) == unresolved(b.drop_last()[i]) by {
            assert(unresolved(a[i]) == unresolved(b[i]));
        }
        lemma_expand_of_same_shape(a.drop_last(), b.drop_last());
        assert(Seq::new(width(a.last()), |k: int| single(a.last())) =~= Seq::new(
            width(b.last()),
            |k: int| single(b.last()),
        ));
    }
}

/// Every position of the expansion belongs to an instruction of the program.
proof fn lemma_origin(program: Seq<InstKind>, x: int, n: int) -> (i: int)
    requires
        0 <= n <= program.len(),
        0 <= x < offset(program, n),
    ensures
        0 <= i < n,
        offset(program, i) <= x < offset(program, i + 1),
    decreases n,
{
    if x >= offset(program, n - 1) {
        n - 1
    } else {
        lemma_origin(program, x, n - 1)
    }
}

/// The origin of a position of the expansion is an instruction whose symbols
/// hold the position.
proof fn lemma_origin_holds(program: Seq<InstKind>, x: int)
    requires
        0 <= x < offset(program, program.len() as int),
    ensures
        0 <= origin(program, x) < program.len(),
        offset(program, origin(program, x)) <= x < offset(program, origin(program, x) + 1),
{
    let i = lemma_origin(program, x, program.len() as int);
    assert(offset(program, i) <= x < offset(program, i + 1));
}

/// A text that begins with `k` times the foldable symbol `c` stands for `k`
/// single instructions of that symbol, followed by what the rest stands for.
proof fn lemma_symbols_of_run(s: Seq<char>, c: char, k: nat)
    requires
        is_foldable(c),
        k <= s.len(),
        forall|i: int| 0 <= i < k ==> s[i] == c,
    ensures
        symbols(s) =~= Seq::new(k, |j: int| instruction_for(c, 1)->0) + symbols(s.skip(k as int)),
    decreases k,
{
    if k == 0 {
        assert(s.skip(0) =~= s);
    } else {
        let rest = s.skip(1);
        assert forall|i: int| 0 <= i < k - 1 implies rest[i] == c by {
            assert(s[i + 1] == c);
        }
        lemma_symbols_of_run(rest, c, (k - 1) as nat);
        assert(rest.skip(k - 1) =~= s.skip(k as int));
    }
}

/// Folding and then expanding gives what the text stands for with nothing
/// folded.
pub proof fn lemma_expansion_of_tokens(s: Seq<char>)
    requires
        s.len() <= usize::MAX,
    ensures
        expand(tokens(s)) == symbols(s),
    decreases s.len(),
{
    if s.len() > 0 {
        lemma_token_len_bounds(s);
        let c = s[0];
        let n = token_len(s);
        let rest = tokens(s.skip(n as int));
        lemma_expansion_of_tokens(s.skip(n as int));
        if is_foldable(c) {
            lemma_run_length_is_maximal(s, c);
            lemma_symbols_of_run(s, c, n);
        }
        match instruction_for(c, n as usize) {
            Some(inst) => {
                lemma_expand_concat(seq![inst], rest);
                assert(seq![inst].drop_last() =~= Seq::<InstKind>::empty());
                assert(expand(Seq::<InstKind>::empty()) =~= Seq::<InstKind>::empty());
                assert(expand(seq![inst]) =~= Seq::new(width(inst), |k: int| single(inst)));
                assert(expand(tokens(s)) =~= symbols(s));
            },
            None => {},
        }
    } else {
        assert(tokens(s) =~= Seq::<InstKind>::empty());
    }
}

/// The instructions that a text stands for stand for no more symbols than
/// the text has characters.
proof fn lemma_tokens_width(s: Seq<char>)
    requires
        s.len() <= usize::MAX,
    ensures
        offset(tokens(s), tokens(s).len() as int) <= s.len(),
    decreases s.len(),
{
    if s.len() > 0 {
        lemma_token_len_bounds(s);
        let n = token_len(s);
        let rest = tokens(s.skip(n as int));
        lemma_tokens_width(s.skip(n as int));
        match instruction_for(s[0], n as usize) {
            Some(inst) => {
                lemma_offset_concat(seq![inst], rest, rest.len() as int);
                assert(offset(seq![inst], 1) == offset(seq![inst], 0) + width(seq![inst][0]));
            },
            None => {},
        }
    }
}

/// What stands at symbol `k` of instruction `i` in an unfolding: the single
/// form of the instruction, up to the target of a jump.
pub proof fn lemma_unfolding_at(folded: Seq<InstKind>, expanded: Seq<InstKind>, i: int, k: int)
    requires
        same_shape(expanded, expand(folded)),
        0 <= i < folded.len(),
        0 <= k < width(folded[i]),
    ensures
        offset(folded, i) + k < expanded.len(),
        unresolved(expanded[offset(folded, i) + k]) == single(folded[i]),
        jump_delta(expanded[offset(folded, i) + k]) == jump_delta(folded[i]),
{
    lemma_expand_at(folded, i, k);
    let x = offset(folded, i) + k;
    assert(unresolved(expanded[x]) == unresolved(expand(folded)[x]));
}

/// The nesting depth in front of symbol `k` of instruction `i` of an
/// unfolding is the depth in front of instruction `i` of the folded program;
/// behind a jump, it is the depth behind the jump.
proof fn lemma_nesting_is_carried(
    folded: Seq<InstKind>,
    expanded: Seq<InstKind>,
    i: int,
    k: int,
)
    requires
        same_shape(expanded, expand(folded)),
        0 <= i < folded.len(),
        0 <= k <= width(folded[i]),
    ensures
        nesting(expanded, offset(folded, i) + k) == if k == 0 || jump_delta(folded[i]) == 0 {
            nesting(folded, i)
        } else {
            nesting(folded, i + 1)
        },
    decreases i, k,
{
    let x = offset(folded, i) + k;
    if k > 0 {
        lemma_nesting_is_carried(folded, expanded, i, k - 1);
        lemma_unfolding_at(folded, expanded, i, k - 1);
        assert(nesting(expanded, x) == nesting(expanded, x - 1) + jump_delta(expanded[x - 1]));
        assert(nesting(folded, i + 1) == nesting(folded, i) + jump_delta(folded[i]));
    } else if i > 0 {
        lemma_nesting_is_carried(folded, expanded, i - 1, width(folded[i - 1]) as int);
        assert(nesting(folded, i) == nesting(folded, i - 1) + jump_delta(folded[i - 1]));
    }
}

/// The nesting depth at the end of an unfolding is that at the end of the
/// folded program, and likewise in front of every instruction.
proof fn lemma_nesting_at_offset(folded: Seq<InstKind>, expanded: Seq<InstKind>, i: int)
    requires
        same_shape(expanded, expand(folded)),
        0 <= i <= folded.len(),
    ensures
        nesting(expanded, offset(folded, i) as int) == nesting(folded, i),
{
    if i < folded.len() {
        lemma_nesting_is_carried(folded, expanded, i, 0);
    } else if i > 0 {
        lemma_nesting_is_carried(folded, expanded, i - 1, width(folded[i - 1]) as int);
        assert(nesting(folded, i) == nesting(folded, i - 1) + jump_delta(folded[i - 1]));
    }
}

/// The two ends of a loop of the folded program are the two ends of a loop of
/// its unfolding.
proof fn lemma_pair_is_carried(
    folded: Seq<InstKind>,
    expanded: Seq<InstKind>,
    open: int,
    close: int,
)
    requires
        same_shape(expanded, expand(folded)),
        is_pair(folded, open, close),
    ensures
        is_pair(expanded, offset(folded, open) as int, offset(folded, close) as int),
{
    let o = offset(folded, open) as int;
    let c = offset(folded, close) as int;
    lemma_expand_len(folded);
    lemma_unfolding_at(folded, expanded, open, 0);
    lemma_unfolding_at(folded, expanded, close, 0);
    lemma_offset_monotone(folded, open + 1, close);
    lemma_offset_monotone(folded, close + 1, folded.len() as int);
    lemma_nesting_at_offset(folded, expanded, open);
    lemma_nesting_at_offset(folded, expanded, close + 1);
    assert forall|x: int| o < x <= c implies nesting(expanded, x) > nesting(expanded, o) by {
        lemma_offset_monotone(folded, close, folded.len() as int);
        let i = lemma_origin(folded, x, folded.len() as int);
        if i <= open {
            lemma_offset_monotone(folded, i + 1, open + 1);
        }
        if i > close {
            lemma_offset_monotone(folded, close + 1, i);
        }
        assert(open < i <= close);
        lemma_nesting_is_carried(folded, expanded, i, x - offset(folded, i));
        if x - offset(folded, i) > 0 && jump_delta(folded[i]) != 0 {
            assert(width(folded[i]) == 1);
        }
        assert(nesting(folded, i) > nesting(folded, open));
    }
}

/// The jump that a jump of the folded program becomes in the unfolding names
/// the place that the partner has come to.
pub proof fn lemma_target_is_carried(folded: Seq<InstKind>, expanded: Seq<InstKind>, i: int)
    requires
        well_paired(folded),
        is_unfolding(folded, expanded),
        0 <= i < folded.len(),
    ensures
        folded[i] matches InstKind::JumpIfZero(t) ==> 0 <= t < folded.len() && expanded[offset(
            folded,
            i,
        ) as int] == InstKind::JumpIfZero(offset(folded, t as int) as usize) && offset(
            folded,
            t as int,
        ) <= usize::MAX,
        folded[i] matches InstKind::JumpIfNonZero(t) ==> 0 <= t < folded.len() && expanded[offset(
            folded,
            i,
        ) as int] == InstKind::JumpIfNonZero(offset(folded, t as int) as usize) && offset(
            folded,
            t as int,
        ) <= usize::MAX,
{
    let at = offset(folded, i) as int;
    match folded[i] {
        InstKind::JumpIfZero(t) => {
            assert(is_pair(folded, i, t as int));
            lemma_unfolding_at(folded, expanded, i, 0);
            lemma_pair_is_carried(folded, expanded, i, t as int);
            let u = expanded[at]->JumpIfZero_0;
            assert(is_pair(expanded, at, u as int));
            lemma_close_is_unique(expanded, at, u as int, offset(folded, t as int) as int);
        },
        InstKind::JumpIfNonZero(t) => {
            assert(is_pair(folded, t as int, i));
            lemma_unfolding_at(folded, expanded, i, 0);
            lemma_pair_is_carried(folded, expanded, t as int, i);
            let u = expanded[at]->JumpIfNonZero_0;
            assert(is_pair(expanded, u as int, at));
            lemma_open_is_unique(expanded, u as int, offset(folded, t as int) as int, at);
        },
        _ => {},
    }
}

/// The unfolding that `unfold` gives has the shape of the expansion.
proof fn lemma_unfold_shape(folded: Seq<InstKind>)
    ensures
        same_shape(unfold(folded), expand(folded)),
{
    let expanded = unfold(folded);
    lemma_expand_len(folded);
    assert forall|x: int| 0 <= x < expanded.len() implies unresolved(#[trigger] expanded[x])
        == unresolved(expand(folded)[x]) by {
        lemma_origin_holds(folded, x);
        let i = origin(folded, x);
        lemma_expand_at(folded, i, x - offset(folded, i));
    }
}

/// A jump of the unfolding that `unfold` gives stands where a jump of the
/// folded program has come to, and names the place that its partner has come
/// to.
proof fn lemma_unfold_jump(folded: Seq<InstKind>, x: int)
    requires
        well_paired(folded),
        offset(folded, folded.len() as int) <= usize::MAX,
        0 <= x < unfold(folded).len(),
        jump_delta(unfold(folded)[x]) != 0,
    ensures
        ({
            let i = origin(folded, x);
            &&& 0 <= i < folded.len()
            &&& x == offset(folded, i)
            &&& folded[i] matches InstKind::JumpIfZero(t) ==> is_pair(folded, i, t as int)
                && unfold(folded)[x] == InstKind::JumpIfZero(offset(folded, t as int) as usize)
                && offset(folded, t as int) <= usize::MAX
            &&& folded[i] matches InstKind::JumpIfNonZero(t) ==> is_pair(folded, t as int, i)
                && unfold(folded)[x] == InstKind::JumpIfNonZero(offset(folded, t as int) as usize)
                && offset(folded, t as int) <= usize::MAX
            &&& jump_delta(folded[i]) != 0
        }),
{
    lemma_origin_holds(folded, x);
    let i = origin(folded, x);
    match folded[i] {
        InstKind::JumpIfZero(t) => {
            assert(is_pair(folded, i, t as int));
            lemma_offset_monotone(folded, t as int, folded.len() as int);
        },
        InstKind::JumpIfNonZero(t) => {
            assert(is_pair(folded, t as int, i));
            lemma_offset_monotone(folded, t as int, folded.len() as int);
        },
        _ => {},
    }
}

/// Every well-formed program whose symbols can be counted in a `usize` has an
/// unfolding.
pub proof fn lemma_unfolding_exists(folded: Seq<InstKind>)
    requires
        well_formed(folded),
        offset(folded, folded.len() as int) <= usize::MAX,
    ensures
        is_unfolding(folded, unfold(folded)),
{
    let expanded = unfold(folded);
    lemma_unfold_shape(folded);
    assert forall|x: int| 0 <= x < expanded.len() implies match #[trigger] expanded[x] {
        InstKind::JumpIfZero(target) => is_pair(expanded, x, target as int),
        InstKind::JumpIfNonZero(target) => is_pair(expanded, target as int, x),
        _ => true,
    } by {
        if jump_delta(expanded[x]) != 0 {
            lemma_unfold_jump(folded, x);
            let i = origin(folded, x);
            match folded[i] {
                InstKind::JumpIfZero(t) => {
                    lemma_pair_is_carried(folded, expanded, i, t as int);
                },
                InstKind::JumpIfNonZero(t) => {
                    lemma_pair_is_carried(folded, expanded, t as int, i);
                },
                _ => {},
            }
        }
    }
}

/// Every program that a text compiles to has an unfolding.
pub proof fn lemma_compiled_program_unfolds(source: Seq<char>, program: Seq<InstKind>)
    requires
        source.len() <= usize::MAX,
        same_shape(program, tokens(source)),
        well_formed(program),
    ensures
        is_unfolding(program, unfold(program)),
{
    lemma_tokens_width(source);
    assert forall|i: int| 0 <= i < program.len() implies width(#[trigger] program[i]) == width(
        tokens(source)[i],
    ) by {
        assert(unresolved(program[i]) == unresolved(tokens(source)[i]));
    }
    lemma_offset_of_prefix(program, tokens(source), program.len() as int);
    lemma_unfolding_exists(program);
}

/// The program that a text stands for with nothing folded, once its jumps
/// are resolved, is the unfolding of the program that the text compiles to.
pub proof fn lemma_symbols_unfold_tokens(
    source: Seq<char>,
    folded: Seq<InstKind>,
    expanded: Seq<InstKind>,
)
    requires
        source.len() <= usize::MAX,
        same_shape(folded, tokens(source)),
        same_shape(expanded, symbols(source)),
        well_paired(expanded),
    ensures
        is_unfolding(folded, expanded),
{
    lemma_expansion_of_tokens(source);
    lemma_expand_of_same_shape(folded, tokens(source));
}

} // verus!
