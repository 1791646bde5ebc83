//! Bracket pairing over an instruction sequence.
//!
//! A program is well paired when every jump carries the index of the bracket
//! that closes or opens its loop. Pairing is stated through the nesting depth
//! of each position: a loop closes at the first position after its opening
//! where the depth has come back to the depth in front of the opening.

use vstd::prelude::*;
use crate::instruction::InstKind;

verus! {

/// The change in nesting depth that an instruction makes.
pub open spec fn jump_delta(inst: InstKind) -> int {
    match inst {
        InstKind::JumpIfZero(_) => 1,
        InstKind::JumpIfNonZero(_) => -1,
        _ => 0,
    }
}

/// The nesting depth in front of position `i`: the number of opening jumps
/// less the number of closing jumps among the first `i` instructions.
pub open spec fn nesting(program: Seq<InstKind>, i: int) -> int
    decreases i,
{
    if i <= 0 {
        0
    } else {
        nesting(program, i - 1) + jump_delta(program[i - 1])
    }
}

/// `open` and `close` are the two ends of one loop.
pub open spec fn is_pair(program: Seq<InstKind>, open: int, close: int) -> bool {
    &&& 0 <= open < close < program.len()
    &&& program[open] is JumpIfZero
    &&& program[close] is JumpIfNonZero
    &&& nesting(program, close + 1) == nesting(program, open)
    &&& forall|k: int| open < k <= close ==> nesting(program, k) > nesting(program, open)
}

/// Every jump names its partner.
pub open spec fn well_paired(program: Seq<InstKind>) -> bool {
    forall|i: int|
        0 <= i < program.len() ==> match #[trigger] program[i] {
            InstKind::JumpIfZero(target) => is_pair(program, i, target as int),
            InstKind::JumpIfNonZero(target) => is_pair(program, target as int, i),
            _ => true,
        }
}

/// Every counted instruction stands for at least one symbol.
pub open spec fn counts_positive(program: Seq<InstKind>) -> bool {
    forall|i: int|
        0 <= i < program.len() ==> match #[trigger] program[i] {
            InstKind::Add(n) => n >= 1,
            InstKind::Subtract(n) => n >= 1,
            InstKind::MoveRight(n) => n >= 1,
            InstKind::MoveLeft(n) => n >= 1,
            _ => true,
        }
}

/// The invariant of a compiled program.
pub open spec fn well_formed(program: Seq<InstKind>) -> bool {
    well_paired(program) && counts_positive(program)
}

/// The instruction with a jump's target put back to the placeholder zero.
pub open spec fn unresolved(inst: InstKind) -> InstKind {
    match inst {
        InstKind::JumpIfZero(_) => InstKind::JumpIfZero(0),
        InstKind::JumpIfNonZero(_) => InstKind::JumpIfNonZero(0),
        _ => inst,
    }
}

/// Two programs are made of the same instructions, jump targets aside.
pub open spec fn same_shape(a: Seq<InstKind>, b: Seq<InstKind>) -> bool {
    &&& a.len() == b.len()
    &&& forall|i: int| 0 <= i < a.len() ==> unresolved(#[trigger] a[i]) == unresolved(b[i])
}

/// Nesting depth looks only at the kinds of the instructions in front of a
/// position.
pub proof fn lemma_nesting_depends_on_prefix(a: Seq<InstKind>, b: Seq<InstKind>, n: int)
    requires
        0 <= n <= a.len(),
        n <= b.len(),
        forall|i: int| 0 <= i < n ==> jump_delta(#[trigger] a[i]) == jump_delta(b[i]),
    ensures
        forall|i: int| 0 <= i <= n ==> #[trigger] nesting(a, i) == nesting(b, i),
    decreases n,
{
    if n > 0 {
        lemma_nesting_depends_on_prefix(a, b, n - 1);
        assert(jump_delta(a[n - 1]) == jump_delta(b[n - 1]));
        assert(nesting(a, n - 1) == nesting(b, n - 1));
        assert(nesting(a, n) == nesting(a, n - 1) + jump_delta(a[n - 1]));
        assert(nesting(b, n) == nesting(b, n - 1) + jump_delta(b[n - 1]));
    }
}

/// A loop has one closing end.
pub proof fn lemma_close_is_unique(program: Seq<InstKind>, open: int, c1: int, c2: int)
    requires
        is_pair(program, open, c1),
        is_pair(program, open, c2),
    ensures
        c1 == c2,
{
    if c1 < c2 {
        assert(nesting(program, c1 + 1) > nesting(program, open));
    } else if c2 < c1 {
        assert(nesting(program, c2 + 1) > nesting(program, open));
    }
}

/// A loop has one opening end.
pub proof fn lemma_open_is_unique(program: Seq<InstKind>, o1: int, o2: int, close: int)
    requires
        is_pair(program, o1, close),
        is_pair(program, o2, close),
    ensures
        o1 == o2,
{
    if o1 < o2 {
        // o2 lies inside the loop that o1 opens, so it is nested deeper.
        assert(nesting(program, o2) > nesting(program, o1));
    } else if o2 < o1 {
        assert(nesting(program, o1) > nesting(program, o2));
    }
}

/// In a well-paired program the target of a jump's target is the jump itself.
pub proof fn lemma_pairing_is_involution(program: Seq<InstKind>, i: int)
    requires
        well_paired(program),
        0 <= i < program.len(),
    ensures
        program[i] matches InstKind::JumpIfZero(t) ==> 0 <= t < program.len()
            && program[t as int] == InstKind::JumpIfNonZero(i as usize),
        program[i] matches InstKind::JumpIfNonZero(t) ==> 0 <= t < program.len()
            && program[t as int] == InstKind::JumpIfZero(i as usize),
{
    match program[i] {
        InstKind::JumpIfZero(t) => {
            assert(is_pair(program, i, t as int));
            match program[t as int] {
                InstKind::JumpIfNonZero(back) => {
                    assert(is_pair(program, back as int, t as int));
                    lemma_open_is_unique(program, i, back as int, t as int);
                },
                _ => {},
            }
        },
        InstKind::JumpIfNonZero(t) => {
            assert(is_pair(program, t as int, i));
            match program[t as int] {
                InstKind::JumpIfZero(forth) => {
                    assert(is_pair(program, t as int, forth as int));
                    lemma_close_is_unique(program, t as int, i, forth as int);
                },
                _ => {},
            }
        },
        _ => {},
    }
}

/// Pairing fixes the targets: two well-paired programs of one shape are equal.
pub proof fn lemma_pairing_is_determined(a: Seq<InstKind>, b: Seq<InstKind>)
    requires
        same_shape(a, b),
        well_paired(a),
        well_paired(b),
    ensures
        a == b,
{
    assert forall|i: int| 0 <= i < a.len() implies jump_delta(#[trigger] a[i]) == jump_delta(
        b[i],
    ) by {
        assert(unresolved(a[i]) == unresolved(b[i]));
    }
    lemma_nesting_depends_on_prefix(a, b, a.len() as int);
    assert forall|i: int| 0 <= i < a.len() implies a[i] == b[i] by {
        assert(unresolved(a[i]) == unresolved(b[i]));
        match a[i] {
            InstKind::JumpIfZero(t) => {
                let u = b[i]->JumpIfZero_0;
                assert(is_pair(a, i, t as int));
                assert(is_pair(b, i, u as int));
                lemma_same_shape_pair(b, a, i, u as int);
                lemma_close_is_unique(a, i, t as int, u as int);
            },
            InstKind::JumpIfNonZero(t) => {
                let u = b[i]->JumpIfNonZero_0;
                assert(is_pair(a, t as int, i));
                assert(is_pair(b, u as int, i));
                lemma_same_shape_pair(b, a, u as int, i);
                lemma_open_is_unique(a, t as int, u as int, i);
            },
            _ => {},
        }
    }
    assert(a =~= b);
}

/// A pair in one program is a pair in every program that has the same
/// instruction kinds up to and including the closing end.
pub proof fn lemma_same_shape_pair(a: Seq<InstKind>, b: Seq<InstKind>, open: int, close: int)
    requires
        is_pair(a, open, close),
        close < b.len(),
        forall|i: int| 0 <= i <= close ==> unresolved(#[trigger] a[i]) == unresolved(b[i]),
    ensures
        is_pair(b, open, close),
{
    assert forall|i: int| 0 <= i < close + 1 implies jump_delta(#[trigger] a[i]) == jump_delta(
        b[i],
    ) by {
        assert(unresolved(a[i]) == unresolved(b[i]));
    }
    lemma_nesting_depends_on_prefix(a, b, close + 1);
    assert(unresolved(a[open]) == unresolved(b[open]));
    assert(unresolved(a[close]) == unresolved(b[close]));
    assert forall|k: int| open < k <= close implies nesting(b, k) > nesting(b, open) by {
        assert(nesting(a, k) > nesting(a, open));
    }
}

} // verus!
