//! Run-length folding cannot be observed: a program and the program with
//! every repeated symbol written out as an instruction of its own do the same
//! to the tape and to the two streams.

use vstd::prelude::*;
use crate::expansion::{
    expand, is_unfolding, lemma_expand_len, lemma_offset_monotone, lemma_offset_step,
    lemma_offset_strict, lemma_target_is_carried, lemma_unfolding_at, offset, single, width,
};
use crate::instruction::InstKind;
use crate::machine::{
    advance, advance_n, cell_add, cell_sub, finished, in_bounds, lemma_advance_n_last,
    lemma_advance_n_split, lemma_finished_is_fixed, lemma_stays_finished, start, Machine, Run,
};
use crate::pairing::{jump_delta, same_shape, well_formed};

verus! {

/// A run of the folded program and a run of its unfolding have come equally
/// far: same tape, same streams, same error, and, where none, the same
/// pointer and the cursor of the unfolding where that of the folded program
/// has come to.
pub open spec fn corresponds(folded: Seq<InstKind>, a: Run, b: Run) -> bool {
    &&& a.machine.tape == b.machine.tape
    &&& a.output == b.output
    &&& a.consumed == b.consumed
    &&& a.fault == b.fault
    &&& a.fault is None ==> {
        &&& a.machine.pointer == b.machine.pointer
        &&& b.machine.cursor == offset(folded, a.machine.cursor as int)
    }
}

/// `k` single additions in a row add `k` to the current cell.
proof fn lemma_single_adds(program: Seq<InstKind>, input: Seq<u8>, r: Run, k: nat)
    requires
        r.fault is None,
        r.machine.pointer < r.machine.tape.len(),
        r.machine.cursor + k <= program.len(),
        forall|x: int|
            r.machine.cursor <= x < r.machine.cursor + k ==> #[trigger] program[x]
                == InstKind::Add(1),
    ensures
        advance_n(program, input, r, k) == (Run {
            machine: Machine {
                cursor: r.machine.cursor + k,
                tape: r.machine.tape.update(
                    r.machine.pointer as int,
                    cell_add(r.machine.tape[r.machine.pointer as int], k as int),
                ),
                ..r.machine
            },
            ..r
        }),
    decreases k,
{
    let m = r.machine;
    if k == 0 {
        assert(m.tape.update(m.pointer as int, cell_add(m.tape[m.pointer as int], 0)) =~= m.tape);
    } else {
        lemma_single_adds(program, input, r, (k - 1) as nat);
        lemma_advance_n_last(program, input, r, (k - 1) as nat);
        let before = advance_n(program, input, r, (k - 1) as nat);
        assert(program[m.cursor + k - 1] == InstKind::Add(1));
        assert(advance(program, input, before).machine.tape =~= m.tape.update(
            m.pointer as int,
            cell_add(m.tape[m.pointer as int], k as int),
        ));
    }
}

/// `k` single subtractions in a row subtract `k` from the current cell.
proof fn lemma_single_subtracts(program: Seq<InstKind>, input: Seq<u8>, r: Run, k: nat)
    requires
        r.fault is None,
        r.machine.pointer < r.machine.tape.len(),
        r.machine.cursor + k <= program.len(),
        forall|x: int|
            r.machine.cursor <= x < r.machine.cursor + k ==> #[trigger] program[x]
                == InstKind::Subtract(1),
    ensures
        advance_n(program, input, r, k) == (Run {
            machine: Machine {
                cursor: r.machine.cursor + k,
                tape: r.machine.tape.update(
                    r.machine.pointer as int,
                    cell_sub(r.machine.tape[r.machine.pointer as int], k as int),
                ),
                ..r.machine
            },
            ..r
        }),
    decreases k,
{
    let m = r.machine;
    if k == 0 {
        assert(m.tape.update(m.pointer as int, cell_sub(m.tape[m.pointer as int], 0)) =~= m.tape);
    } else {
        lemma_single_subtracts(program, input, r, (k - 1) as nat);
        lemma_advance_n_last(program, input, r, (k - 1) as nat);
        let before = advance_n(program, input, r, (k - 1) as nat);
        assert(program[m.cursor + k - 1] == InstKind::Subtract(1));
        assert(advance(program, input, before).machine.tape =~= m.tape.update(
            m.pointer as int,
            cell_sub(m.tape[m.pointer as int], k as int),
        ));
    }
}

/// `k` single moves to the right in a row that stay on the tape move the
/// pointer by `k`.
proof fn lemma_single_rights(program: Seq<InstKind>, input: Seq<u8>, r: Run, k: nat)
    requires
        r.fault is None,
        r.machine.pointer + k < r.machine.tape.len(),
        r.machine.cursor + k <= program.len(),
        forall|x: int|
            r.machine.cursor <= x < r.machine.cursor + k ==> #[trigger] program[x]
                == InstKind::MoveRight(1),
    ensures
        advance_n(program, input, r, k) == (Run {
            machine: Machine {
                cursor: r.machine.cursor + k,
                pointer: r.machine.pointer + k,
                ..r.machine
            },
            ..r
        }),
    decreases k,
{
    if k > 0 {
        lemma_single_rights(program, input, r, (k - 1) as nat);
        lemma_advance_n_last(program, input, r, (k - 1) as nat);
        assert(program[r.machine.cursor + k - 1] == InstKind::MoveRight(1));
    }
}

/// `k` single moves to the left in a row that stay on the tape move the
/// pointer by `k`.
proof fn lemma_single_lefts(program: Seq<InstKind>, input: Seq<u8>, r: Run, k: nat)
    requires
        r.fault is None,
        k <= r.machine.pointer,
        r.machine.cursor + k <= program.len(),
        forall|x: int|
            r.machine.cursor <= x < r.machine.cursor + k ==> #[trigger] program[x]
                == InstKind::MoveLeft(1),
    ensures
        advance_n(program, input, r, k) == (Run {
            machine: Machine {
                cursor: r.machine.cursor + k,
                pointer: (r.machine.pointer - k) as nat,
                ..r.machine
            },
            ..r
        }),
    decreases k,
{
    if k > 0 {
        lemma_single_lefts(program, input, r, (k - 1) as nat);
        lemma_advance_n_last(program, input, r, (k - 1) as nat);
        assert(program[r.machine.cursor + k - 1] == InstKind::MoveLeft(1));
    }
}

/// The block of symbols of instruction `i` in the unfolding is made of the
/// single form of the instruction, if that is no jump.
proof fn lemma_block_is_uniform(folded: Seq<InstKind>, expanded: Seq<InstKind>, i: int)
    requires
        same_shape(expanded, expand(folded)),
        0 <= i < folded.len(),
        jump_delta(folded[i]) == 0,
    ensures
        offset(folded, i) + width(folded[i]) <= expanded.len(),
        forall|x: int|
            offset(folded, i) <= x < offset(folded, i) + width(folded[i])
                ==> #[trigger] expanded[x] == single(folded[i]),
{
    lemma_expand_len(folded);
    lemma_offset_monotone(folded, i + 1, folded.len() as int);
    assert forall|x: int|
        offset(folded, i) <= x < offset(folded, i) + width(folded[i]) implies #[trigger] expanded[x]
        == single(folded[i]) by {
        lemma_unfolding_at(folded, expanded, i, x - offset(folded, i));
    }
}

/// One step of the folded program is matched by as many steps of its
/// unfolding as the instruction stands for symbols, or by fewer where a move
/// leaves the tape on the way.
proof fn lemma_step_is_matched(
    folded: Seq<InstKind>,
    expanded: Seq<InstKind>,
    input: Seq<u8>,
    a: Run,
    b: Run,
) -> (w: nat)
    requires
        well_formed(folded),
        is_unfolding(folded, expanded),
        in_bounds(folded, a.machine),
        corresponds(folded, a, b),
        !finished(folded, a),
    ensures
        w >= 1,
        in_bounds(folded, advance(folded, input, a).machine),
        corresponds(folded, advance(folded, input, a), advance_n(expanded, input, b, w)),
{
    let i = a.machine.cursor as int;
    let at = offset(folded, i);
    let pointer = a.machine.pointer;
    let tape = a.machine.tape;
    lemma_offset_step(folded, i);
    lemma_target_is_carried(folded, expanded, i);
    assert(advance_n(expanded, input, b, 1) == advance(expanded, input, b)) by {
        lemma_advance_n_last(expanded, input, b, 0);
    }
    match folded[i] {
        InstKind::Add(n) => {
            lemma_block_is_uniform(folded, expanded, i);
            lemma_single_adds(expanded, input, b, n as nat);
            n as nat
        },
        InstKind::Subtract(n) => {
            lemma_block_is_uniform(folded, expanded, i);
            lemma_single_subtracts(expanded, input, b, n as nat);
            n as nat
        },
        InstKind::MoveRight(n) => {
            lemma_block_is_uniform(folded, expanded, i);
            if pointer + n < tape.len() {
                lemma_single_rights(expanded, input, b, n as nat);
                n as nat
            } else {
                let room = (tape.len() - 1 - pointer) as nat;
                lemma_single_rights(expanded, input, b, room);
                lemma_advance_n_last(expanded, input, b, room);
                assert(expanded[at as int + room] == InstKind::MoveRight(1));
                room + 1
            }
        },
        InstKind::MoveLeft(n) => {
            lemma_block_is_uniform(folded, expanded, i);
            if n <= pointer {
                lemma_single_lefts(expanded, input, b, n as nat);
                n as nat
            } else {
                lemma_single_lefts(expanded, input, b, pointer);
                lemma_advance_n_last(expanded, input, b, pointer);
                assert(expanded[at as int + pointer] == InstKind::MoveLeft(1));
                pointer + 1
            }
        },
        InstKind::Output => {
            lemma_block_is_uniform(folded, expanded, i);
            assert(expanded[at as int] == InstKind::Output);
            1
        },
        InstKind::Input => {
            lemma_block_is_uniform(folded, expanded, i);
            assert(expanded[at as int] == InstKind::Input);
            1
        },
        InstKind::JumpIfZero(t) => {
            lemma_unfolding_at(folded, expanded, i, 0);
            lemma_offset_step(folded, t as int);
            1
        },
        InstKind::JumpIfNonZero(t) => {
            lemma_unfolding_at(folded, expanded, i, 0);
            lemma_offset_step(folded, t as int);
            1
        },
    }
}

/// Where the two runs have come equally far, one has come to its end exactly
/// when the other has.
proof fn lemma_finished_together(
    folded: Seq<InstKind>,
    expanded: Seq<InstKind>,
    a: Run,
    b: Run,
)
    requires
        well_formed(folded),
        is_unfolding(folded, expanded),
        in_bounds(folded, a.machine),
        corresponds(folded, a, b),
    ensures
        finished(folded, a) == finished(expanded, b),
{
    lemma_expand_len(folded);
    if a.fault is None && a.machine.cursor < folded.len() {
        lemma_offset_strict(folded, a.machine.cursor as int, folded.len() as int);
    }
}

/// Every number of steps of the folded program is matched by some number of
/// steps of its unfolding, and by no fewer as long as the run goes on.
pub proof fn lemma_run_is_matched(
    folded: Seq<InstKind>,
    expanded: Seq<InstKind>,
    input: Seq<u8>,
    a: Run,
    b: Run,
    n: nat,
) -> (m: nat)
    requires
        well_formed(folded),
        is_unfolding(folded, expanded),
        in_bounds(folded, a.machine),
        corresponds(folded, a, b),
    ensures
        in_bounds(folded, advance_n(folded, input, a, n).machine),
        corresponds(folded, advance_n(folded, input, a, n), advance_n(expanded, input, b, m)),
        !finished(folded, advance_n(folded, input, a, n)) ==> m >= n,
    decreases n,
{
    if n == 0 {
        0
    } else if finished(folded, a) {
        lemma_finished_is_fixed(folded, input, a, n);
        0
    } else {
        let w = lemma_step_is_matched(folded, expanded, input, a, b);
        let rest = lemma_run_is_matched(
            folded,
            expanded,
            input,
            advance(folded, input, a),
            advance_n(expanded, input, b, w),
            (n - 1) as nat,
        );
        lemma_advance_n_split(expanded, input, b, w, rest);
        w + rest
    }
}

/// A run that has come to its end after `i` steps is at the same end after
/// `j` steps, if it has come to its end then too.
proof fn lemma_one_end(program: Seq<InstKind>, input: Seq<u8>, r: Run, i: nat, j: nat)
    requires
        finished(program, advance_n(program, input, r, i)),
        finished(program, advance_n(program, input, r, j)),
    ensures
        advance_n(program, input, r, i) == advance_n(program, input, r, j),
{
    if i <= j {
        lemma_stays_finished(program, input, r, i, j);
    } else {
        lemma_stays_finished(program, input, r, j, i);
    }
}

/// Folding cannot be observed, from the folded side: where the folded
/// program, started at its first instruction, has come to its end after `n`
/// steps, its unfolding comes to its end after the `m` steps returned, with
/// the same output, the same tape, the same input consumed and the same
/// error, if any.
pub proof fn lemma_folding_is_transparent(
    folded: Seq<InstKind>,
    expanded: Seq<InstKind>,
    input: Seq<u8>,
    machine: Machine,
    n: nat,
) -> (m: nat)
    requires
        well_formed(folded),
        is_unfolding(folded, expanded),
        machine.cursor == 0,
        machine.pointer < machine.tape.len(),
        finished(folded, advance_n(folded, input, start(machine), n)),
    ensures
        ({
            let a = advance_n(folded, input, start(machine), n);
            let b = advance_n(expanded, input, start(machine), m);
            &&& finished(expanded, b)
            &&& b.output == a.output
            &&& b.machine.tape == a.machine.tape
            &&& b.consumed == a.consumed
            &&& b.fault == a.fault
        }),
{
    let begin = start(machine);
    let m = lemma_run_is_matched(folded, expanded, input, begin, begin, n);
    lemma_finished_together(
        folded,
        expanded,
        advance_n(folded, input, begin, n),
        advance_n(expanded, input, begin, m),
    );
    m
}

/// Folding cannot be observed, from the unfolded side: where the unfolding
/// of a program, started at its first instruction, has come to its end after
/// `m` steps, the folded program has come to its end after no more than `m`
/// steps, with the same output, the same tape, the same input consumed and
/// the same error, if any.
pub proof fn lemma_unfolding_is_transparent(
    folded: Seq<InstKind>,
    expanded: Seq<InstKind>,
    input: Seq<u8>,
    machine: Machine,
    m: nat,
)
    requires
        well_formed(folded),
        is_unfolding(folded, expanded),
        machine.cursor == 0,
        machine.pointer < machine.tape.len(),
        finished(expanded, advance_n(expanded, input, start(machine), m)),
    ensures
        ({
            let a = advance_n(folded, input, start(machine), m);
            let b = advance_n(expanded, input, start(machine), m);
            &&& finished(folded, a)
            &&& a.output == b.output
            &&& a.machine.tape == b.machine.tape
            &&& a.consumed == b.consumed
            &&& a.fault == b.fault
        }),
{
    let begin = start(machine);
    let a = advance_n(folded, input, begin, m);
    let b = advance_n(expanded, input, begin, m);
    let matched = lemma_run_is_matched(folded, expanded, input, begin, begin, m);
    let c = advance_n(expanded, input, begin, matched);
    lemma_finished_together(folded, expanded, a, c);
    if !finished(folded, a) {
        // The unfolding has made at least `m` steps by then, so it is at its end.
        lemma_stays_finished(expanded, input, begin, m, matched);
    }
    lemma_one_end(expanded, input, begin, m, matched);
}

} // verus!
