//! The optimizer keeps what a program does.

use crate::lexer::{optimized, optimized_operation, rewritten, transfer};
use crate::machine::{
    after, applied, left, raised, run, run_loop, run_operation, wrapped, Outcome, State,
};
use crate::machine_proofs::{
    lemma_raised_sum, lemma_run_concat, lemma_run_loop_free, lemma_run_loop_more_fuel,
    lemma_run_more_fuel, lemma_run_wf, lemma_wrapped_round_trip, loop_free, performed,
};
use crate::token::Operation;
use vstd::prelude::*;

verus! {

/// A program of one operation runs as the operation does.
pub proof fn lemma_run_single(op: Operation, s: State, fuel: nat)
    ensures
        run(seq![op], s, fuel) == run_operation(op, s, fuel),
{
    let program = seq![op];
    assert(program[0] == op);
    assert(program.drop_first() =~= Seq::<Operation>::empty());
    match run_operation(op, s, fuel) {
        Outcome::Halted { state, spent } => {
            assert(run(program.drop_first(), state, left(fuel, spent)) == Outcome::Halted {
                state,
                spent: 0,
            });
        },
        _ => {},
    }
}

/// A loop with an empty body that halts has changed nothing: it halts only
/// where it is not entered.
pub proof fn lemma_empty_loop(s: State, fuel: nat)
    requires
        run_loop(Seq::empty(), s, fuel) is Halted,
    ensures
        run_loop(Seq::empty(), s, fuel).state() == s,
        s.cell() == 0,
    decreases fuel,
{
    let body = Seq::<Operation>::empty();
    if s.cell() != 0 {
        assert(run(body, s, (fuel - 1) as nat) == Outcome::Halted { state: s, spent: 0 });
        lemma_empty_loop(s, (fuel - 1) as nat);
    }
}

/// A loop that decrements the current cell by one, where it halts, leaves
/// zero in the current cell and everything else as it was.
pub proof fn lemma_decrement_loop(s: State, fuel: nat)
    requires
        s.wf(),
        run_loop(seq![Operation::SubValue(1)], s, fuel) is Halted,
    ensures
        run_loop(seq![Operation::SubValue(1)], s, fuel).state() == s.with_cell(0),
    decreases fuel,
{
    let body = seq![Operation::SubValue(1)];
    if s.cell() == 0 {
        assert(s.with_cell(0).cells =~= s.cells);
    } else {
        let next = applied(Operation::SubValue(1), s);
        lemma_run_single(Operation::SubValue(1), s, (fuel - 1) as nat);
        assert(run(body, s, (fuel - 1) as nat) == Outcome::Halted { state: next, spent: 0 });
        lemma_decrement_loop(next, (fuel - 1) as nat);
        assert(next.with_cell(0).cells =~= s.with_cell(0).cells);
    }
}

/// Whether `body` has one of the shapes of a transfer loop with this offset
/// and factor: a decrement by one before or behind a move, an addition and
/// the move back.
pub open spec fn is_transfer_body(body: Seq<Operation>, offset: int, factor: u8) -> bool {
    &&& body.len() == 4
    &&& {
        ||| body[0] == Operation::SubValue(1) && transfer(body[1], body[2], body[3]) == Some(
            (offset, factor),
        )
        ||| body[3] == Operation::SubValue(1) && transfer(body[0], body[1], body[2]) == Some(
            (offset, factor),
        )
    }
}

/// The state after one pass through the body of a transfer loop: one less in
/// the current cell and `factor` more in the cell at `offset`. Where both
/// are one cell, it holds `factor - 1` more.
pub open spec fn transferred_once(s: State, offset: int, factor: u8) -> State {
    let target = wrapped(s.ptr + offset) as int;
    if target == s.ptr {
        s.with_cell(raised(s.cell(), factor - 1))
    } else {
        let sum = raised(s.cells[target], factor as int);
        State { cells: s.cells.update(target, sum), ..s }.with_cell(raised(s.cell(), -1))
    }
}

/// A move, an addition and the move back add to the cell at the offset and
/// change nothing else.
proof fn lemma_there_and_back(
    s: State,
    there: Operation,
    add: Operation,
    back: Operation,
    offset: int,
    factor: u8,
)
    requires
        s.wf(),
        transfer(there, add, back) == Some((offset, factor)),
    ensures
        applied(back, applied(add, applied(there, s))) == (State {
            cells: s.cells.update(
                wrapped(s.ptr + offset) as int,
                raised(s.cells[wrapped(s.ptr + offset) as int], factor as int),
            ),
            ..s
        }),
{
    lemma_wrapped_round_trip(s.ptr as int, offset);
    lemma_wrapped_round_trip(s.ptr as int, -offset);
    let moved = applied(there, s);
    assert(moved.ptr == wrapped(s.ptr + offset));
    assert(moved.cells == s.cells);
    let added = applied(add, moved);
    assert(added.ptr == moved.ptr);
    let returned = applied(back, added);
    assert(returned.ptr == s.ptr);
    assert(returned.cells == added.cells);
}

/// One pass through the body of a transfer loop halts on any fuel, spends
/// none, and ends in the state told by [`transferred_once`].
pub proof fn lemma_transfer_body(body: Seq<Operation>, offset: int, factor: u8, s: State, fuel: nat)
    requires
        s.wf(),
        is_transfer_body(body, offset, factor),
    ensures
        run(body, s, fuel) == (Outcome::Halted {
            state: transferred_once(s, offset, factor),
            spent: 0,
        }),
{
    assert(loop_free(body)) by {
        assert forall|i: int| 0 <= i < body.len() implies !(#[trigger] body[i] is Loop) by {
            if i == 0 {
            } else if i == 1 {
            } else if i == 2 {
            } else {
                assert(i == 3);
            }
        }
    }
    lemma_run_loop_free(body, s, fuel);
    let s1 = applied(body[0], s);
    let s2 = applied(body[1], s1);
    let s3 = applied(body[2], s2);
    let s4 = applied(body[3], s3);
    assert(performed(body, s) == s4) by {
        let b1 = body.drop_first();
        let b2 = b1.drop_first();
        let b3 = b2.drop_first();
        let b4 = b3.drop_first();
        assert(b1[0] == body[1]);
        assert(b2[0] == body[2]);
        assert(b3[0] == body[3]);
        assert(b4.len() == 0);
        assert(performed(b4, s4) == s4);
        assert(performed(b3, s3) == s4);
        assert(performed(b2, s2) == s4);
        assert(performed(b1, s1) == s4);
    }
    let target = wrapped(s.ptr + offset) as int;
    let goal = transferred_once(s, offset, factor);
    if body[0] == Operation::SubValue(1) && transfer(body[1], body[2], body[3]) == Some(
        (offset, factor),
    ) {
        lemma_there_and_back(s1, body[1], body[2], body[3], offset, factor);
        if target == s.ptr {
            lemma_raised_sum(s.cell(), -1, factor as int, factor - 1);
        }
        assert(s4.cells =~= goal.cells);
        assert(s4 == goal);
    } else {
        lemma_there_and_back(s, body[0], body[1], body[2], offset, factor);
        if target == s.ptr {
            lemma_raised_sum(s.cell(), factor as int, -1, factor - 1);
        }
        assert(s4.cells =~= goal.cells);
        assert(s4 == goal);
    }
}

/// A transfer after one pass through the body of its loop ends where the
/// transfer ends without the pass.
proof fn lemma_transfer_after_pass(s: State, offset: int, factor: u8)
    requires
        s.wf(),
        s.cell() != 0,
    ensures
        applied(
            Operation::TransferMultiply { offset, factor },
            transferred_once(s, offset, factor),
        ) == applied(Operation::TransferMultiply { offset, factor }, s),
{
    let op = Operation::TransferMultiply { offset, factor };
    let once = transferred_once(s, offset, factor);
    let target = wrapped(s.ptr + offset) as int;
    let value = s.cell() as int;
    if target != s.ptr {
        assert(once.cell() == value - 1);
        assert(once.cells[target] == raised(s.cells[target], factor as int));
        assert((value - 1) * factor == value * factor - factor) by (nonlinear_arith);
        lemma_raised_sum(
            s.cells[target],
            factor as int,
            (value - 1) * factor,
            value * factor,
        );
    }
    assert(applied(op, once).cells =~= applied(op, s).cells);
}

/// A transfer where the current cell is zero changes nothing.
proof fn lemma_transfer_of_zero(s: State, offset: int, factor: u8)
    requires
        s.wf(),
        s.cell() == 0,
    ensures
        applied(Operation::TransferMultiply { offset, factor }, s) == s,
{
    let op = Operation::TransferMultiply { offset, factor };
    assert(0 * factor == 0);
    assert(applied(op, s).cells =~= s.cells);
}

/// A transfer loop, where it halts, ends in the state that the transfer
/// makes in one step.
pub proof fn lemma_transfer_loop(body: Seq<Operation>, offset: int, factor: u8, s: State, fuel: nat)
    requires
        s.wf(),
        is_transfer_body(body, offset, factor),
        run_loop(body, s, fuel) is Halted,
    ensures
        run_loop(body, s, fuel).state() == applied(
            Operation::TransferMultiply { offset, factor },
            s,
        ),
    decreases fuel,
{
    if s.cell() == 0 {
        lemma_transfer_of_zero(s, offset, factor);
    } else {
        let once = transferred_once(s, offset, factor);
        lemma_transfer_body(body, offset, factor, s, (fuel - 1) as nat);
        lemma_run_wf(body, s, (fuel - 1) as nat);
        lemma_transfer_loop(body, offset, factor, once, (fuel - 1) as nat);
        lemma_transfer_after_pass(s, offset, factor);
    }
}

/// Whether `better` ends as `outcome` does, where that halts: in the same
/// state, after no more loop iterations.
pub open spec fn as_good(better: Outcome, outcome: Outcome) -> bool {
    outcome matches Outcome::Halted { state, spent } ==> {
        &&& better matches Outcome::Halted { state: end, spent: fewer }
        &&& end == state
        &&& fewer <= spent
    }
}

/// The optimizer keeps what a program does. Where a program halts on some
/// fuel, the optimized program halts on the same fuel in the same state: with
/// the same tape, pointer, input left and output written, after no more loop
/// iterations. So a loop that is dropped for its empty body was never
/// entered, and a loop that is rewritten as a reset or a transfer ended as
/// the reset or the transfer does.
pub proof fn lemma_optimized_sound(program: Seq<Operation>, s: State, fuel: nat)
    requires
        s.wf(),
    ensures
        as_good(run(optimized(program), s, fuel), run(program, s, fuel)),
    decreases fuel, program, 0nat,
{
    if program.len() > 0 && run(program, s, fuel) is Halted {
        let front = program.drop_last();
        let last = program.last();
        assert(front + seq![last] =~= program);
        lemma_run_concat(front, seq![last], s, fuel);
        lemma_run_concat(optimized(front), optimized_operation(last), s, fuel);
        let first = run(front, s, fuel);
        assert(first is Halted);
        lemma_optimized_sound(front, s, fuel);
        lemma_run_more_fuel(front, s, fuel, fuel);
        lemma_run_wf(front, s, fuel);
        let middle = first.state();
        let better = run(optimized(front), s, fuel);
        let rest = left(fuel, first->spent);
        let more = left(fuel, better->spent);
        lemma_run_single(last, middle, rest);
        lemma_optimized_operation_sound(last, middle, rest);
        let end = run(optimized_operation(last), middle, rest);
        lemma_run_more_fuel(optimized_operation(last), middle, rest, more);
        lemma_run_more_fuel(optimized(front), s, fuel, fuel);
    }
}

/// As [`lemma_optimized_sound`], for one operation and what the optimizer
/// makes of it.
pub proof fn lemma_optimized_operation_sound(op: Operation, s: State, fuel: nat)
    requires
        s.wf(),
    ensures
        as_good(run(optimized_operation(op), s, fuel), run_operation(op, s, fuel)),
    decreases fuel, op, 0nat,
{
    match op {
        Operation::Loop(body) => {
            if run_loop(body, s, fuel) is Halted {
                let inner = optimized(body);
                lemma_optimized_loop_sound(body, s, fuel);
                if inner.len() == 0 {
                    assert(inner =~= Seq::<Operation>::empty());
                    lemma_empty_loop(s, fuel);
                } else {
                    lemma_rewritten_sound(inner, s, fuel);
                    lemma_run_single(rewritten(inner), s, fuel);
                }
            }
        },
        _ => {
            lemma_run_single(op, s, fuel);
        },
    }
}

/// As [`lemma_optimized_sound`], for a loop and the loop with the optimized
/// body.
pub proof fn lemma_optimized_loop_sound(body: Seq<Operation>, s: State, fuel: nat)
    requires
        s.wf(),
    ensures
        as_good(run_loop(optimized(body), s, fuel), run_loop(body, s, fuel)),
    decreases fuel, body, 1nat,
{
    if s.cell() != 0 && run_loop(body, s, fuel) is Halted {
        let inner = optimized(body);
        let less = (fuel - 1) as nat;
        let once = run(body, s, less);
        lemma_optimized_sound(body, s, less);
        lemma_run_more_fuel(body, s, less, less);
        lemma_run_wf(body, s, less);
        let better = run(inner, s, less);
        let middle = once.state();
        let rest = left(less, once->spent);
        let more = left(less, better->spent);
        lemma_optimized_loop_sound(body, middle, rest);
        lemma_run_loop_more_fuel(inner, middle, rest, more);
    }
}

/// What takes the place of a loop ends as the loop does, where the loop
/// halts, and spends no more.
pub proof fn lemma_rewritten_sound(body: Seq<Operation>, s: State, fuel: nat)
    requires
        s.wf(),
    ensures
        as_good(run_operation(rewritten(body), s, fuel), run_loop(body, s, fuel)),
{
    if run_loop(body, s, fuel) is Halted {
        match rewritten(body) {
            Operation::ResetToZero => {
                assert(body =~= seq![Operation::SubValue(1)]);
                lemma_decrement_loop(s, fuel);
            },
            Operation::TransferMultiply { offset, factor } => {
                assert(is_transfer_body(body, offset, factor));
                lemma_transfer_loop(body, offset, factor, s, fuel);
            },
            _ => {},
        }
    }
}

} // verus!
