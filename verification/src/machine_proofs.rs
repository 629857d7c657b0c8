//! Facts about evaluation.

use crate::machine::{
    after, applied, left, raised, run, run_loop, run_operation, wrapped, Outcome, State,
    HEAP_SIZE,
};
use crate::token::Operation;
use vstd::prelude::*;

verus! {

/// The state after a program without loops: its operations applied one after
/// the other.
pub open spec fn performed(program: Seq<Operation>, s: State) -> State
    decreases program.len(),
{
    if program.len() == 0 {
        s
    } else {
        performed(program.drop_first(), applied(program[0], s))
    }
}

/// Whether no operation of `program` is a loop.
pub open spec fn loop_free(program: Seq<Operation>) -> bool {
    forall|i: int| 0 <= i < program.len() ==> !(#[trigger] program[i] is Loop)
}

/// Evaluation starts with the tape at its length and the pointer on it.
pub proof fn lemma_start_wf(input: Seq<u8>, output: Seq<u8>)
    ensures
        State::start(input, output).wf(),
{
}

/// An operation leaves the tape at its length and the pointer on it.
pub proof fn lemma_applied_wf(op: Operation, s: State)
    requires
        s.wf(),
    ensures
        applied(op, s).wf(),
{
}

/// Evaluation leaves the tape at its length and the pointer on it, however it
/// ends.
pub proof fn lemma_run_wf(program: Seq<Operation>, s: State, fuel: nat)
    requires
        s.wf(),
    ensures
        run(program, s, fuel).state().wf(),
    decreases fuel, program, 0nat,
{
    if program.len() > 0 {
        lemma_run_operation_wf(program[0], s, fuel);
        match run_operation(program[0], s, fuel) {
            Outcome::Halted { state, spent } => {
                lemma_run_wf(program.drop_first(), state, left(fuel, spent));
            },
            _ => {},
        }
    }
}

/// As [`lemma_run_wf`], for one operation.
pub proof fn lemma_run_operation_wf(op: Operation, s: State, fuel: nat)
    requires
        s.wf(),
    ensures
        run_operation(op, s, fuel).state().wf(),
    decreases fuel, op, 0nat,
{
    match op {
        Operation::Loop(body) => {
            lemma_run_loop_wf(body, s, fuel);
        },
        _ => {
            lemma_applied_wf(op, s);
        },
    }
}

/// As [`lemma_run_wf`], for a loop.
pub proof fn lemma_run_loop_wf(body: Seq<Operation>, s: State, fuel: nat)
    requires
        s.wf(),
    ensures
        run_loop(body, s, fuel).state().wf(),
    decreases fuel, body, 1nat,
{
    if s.cell() != 0 && fuel > 0 {
        lemma_run_wf(body, s, (fuel - 1) as nat);
        match run(body, s, (fuel - 1) as nat) {
            Outcome::Halted { state, spent } => {
                lemma_run_loop_wf(body, state, left((fuel - 1) as nat, spent));
            },
            _ => {},
        }
    }
}

/// A run that halts has spent no more than its fuel, and ends the same way on
/// any larger amount of fuel.
pub proof fn lemma_run_more_fuel(program: Seq<Operation>, s: State, fuel: nat, more: nat)
    requires
        run(program, s, fuel) is Halted,
        fuel <= more,
    ensures
        run(program, s, fuel)->spent <= fuel,
        run(program, s, more) == run(program, s, fuel),
    decreases fuel, program, 0nat,
{
    if program.len() > 0 {
        lemma_run_operation_more_fuel(program[0], s, fuel, more);
        let first = run_operation(program[0], s, fuel);
        lemma_run_more_fuel(
            program.drop_first(),
            first.state(),
            left(fuel, first->spent),
            left(more, first->spent),
        );
    }
}

/// As [`lemma_run_more_fuel`], for one operation.
pub proof fn lemma_run_operation_more_fuel(op: Operation, s: State, fuel: nat, more: nat)
    requires
        run_operation(op, s, fuel) is Halted,
        fuel <= more,
    ensures
        run_operation(op, s, fuel)->spent <= fuel,
        run_operation(op, s, more) == run_operation(op, s, fuel),
    decreases fuel, op, 0nat,
{
    match op {
        Operation::Loop(body) => {
            lemma_run_loop_more_fuel(body, s, fuel, more);
        },
        _ => {},
    }
}

/// As [`lemma_run_more_fuel`], for a loop.
pub proof fn lemma_run_loop_more_fuel(body: Seq<Operation>, s: State, fuel: nat, more: nat)
    requires
        run_loop(body, s, fuel) is Halted,
        fuel <= more,
    ensures
        run_loop(body, s, fuel)->spent <= fuel,
        run_loop(body, s, more) == run_loop(body, s, fuel),
    decreases fuel, body, 1nat,
{
    if s.cell() != 0 {
        lemma_run_more_fuel(body, s, (fuel - 1) as nat, (more - 1) as nat);
        let once = run(body, s, (fuel - 1) as nat);
        lemma_run_loop_more_fuel(
            body,
            once.state(),
            left((fuel - 1) as nat, once->spent),
            left((more - 1) as nat, once->spent),
        );
    }
}

/// Running two programs in a row is running the first and then the second on
/// the fuel that the first left.
pub proof fn lemma_run_concat(first: Seq<Operation>, second: Seq<Operation>, s: State, fuel: nat)
    ensures
        run(first + second, s, fuel) == match run(first, s, fuel) {
            Outcome::Halted { state, spent } => after(
                spent,
                run(second, state, left(fuel, spent)),
            ),
            exhausted => exhausted,
        },
    decreases first.len(),
{
    if first.len() == 0 {
        assert(first + second =~= second);
    } else {
        let whole = first + second;
        assert(whole[0] == first[0]);
        assert(whole.drop_first() =~= first.drop_first() + second);
        match run_operation(first[0], s, fuel) {
            Outcome::Halted { state, spent } => {
                lemma_run_concat(first.drop_first(), second, state, left(fuel, spent));
                match run(first.drop_first(), state, left(fuel, spent)) {
                    Outcome::Halted { state: then, spent: more } => {
                        if spent + more <= fuel {
                        } else {
                            // more than the fuel cannot be spent
                            lemma_run_operation_more_fuel(first[0], s, fuel, fuel);
                            lemma_run_more_fuel(
                                first.drop_first(),
                                state,
                                left(fuel, spent),
                                left(fuel, spent),
                            );
                        }
                    },
                    _ => {},
                }
            },
            _ => {},
        }
    }
}

/// A program without loops halts on any fuel, spends none, and ends in the
/// state that its operations make one after the other.
pub proof fn lemma_run_loop_free(program: Seq<Operation>, s: State, fuel: nat)
    requires
        loop_free(program),
    ensures
        run(program, s, fuel) == (Outcome::Halted { state: performed(program, s), spent: 0 }),
    decreases program.len(),
{
    if program.len() > 0 {
        assert(!(program[0] is Loop));
        let rest = program.drop_first();
        assert forall|i: int| 0 <= i < rest.len() implies !(#[trigger] rest[i] is Loop) by {
            assert(rest[i] == program[i + 1]);
        }
        lemma_run_loop_free(rest, applied(program[0], s), fuel);
        assert(run_operation(program[0], s, fuel) == Outcome::Halted {
            state: applied(program[0], s),
            spent: 0,
        });
    }
}

/// Going `count` cells one way from a cell and `count` cells back ends on
/// that cell.
pub proof fn lemma_wrapped_round_trip(ptr: int, count: int)
    requires
        0 <= ptr < HEAP_SIZE,
    ensures
        wrapped(wrapped(ptr - count) + count) == ptr,
        wrapped(wrapped(ptr + count) - count) == ptr,
{
    let n = HEAP_SIZE as int;
    vstd::arithmetic::div_mod::lemma_add_mod_noop(ptr - count, count, n);
    vstd::arithmetic::div_mod::lemma_sub_mod_noop(ptr + count, count, n);
    vstd::arithmetic::div_mod::lemma_mod_twice(ptr - count, n);
    vstd::arithmetic::div_mod::lemma_mod_twice(ptr + count, n);
    vstd::arithmetic::div_mod::lemma_add_mod_noop((ptr - count) % n, count, n);
    vstd::arithmetic::div_mod::lemma_sub_mod_noop((ptr + count) % n, count, n);
    vstd::arithmetic::div_mod::lemma_small_mod(ptr as nat, n as nat);
}

/// Going on from a cell in two moves ends where one move by the sum ends.
pub proof fn lemma_wrapped_sum(ptr: int, first: int, second: int)
    ensures
        wrapped(wrapped(ptr + first) + second) == wrapped(ptr + first + second),
        wrapped(wrapped(ptr - first) - second) == wrapped(ptr - first - second),
{
    let n = HEAP_SIZE as int;
    vstd::arithmetic::div_mod::lemma_add_mod_noop(ptr + first, second, n);
    vstd::arithmetic::div_mod::lemma_mod_twice(ptr + first, n);
    vstd::arithmetic::div_mod::lemma_add_mod_noop((ptr + first) % n, second, n);
    vstd::arithmetic::div_mod::lemma_sub_mod_noop(ptr - first, second, n);
    vstd::arithmetic::div_mod::lemma_mod_twice(ptr - first, n);
    vstd::arithmetic::div_mod::lemma_sub_mod_noop((ptr - first) % n, second, n);
}

/// The pointer wraps at both ends of the tape: one cell back from the first
/// cell is the last cell, one cell on from the last cell is the first, and
/// moving back by any number of cells and on by as many returns to the cell
/// where the move began, as does moving on and then back.
pub proof fn lemma_pointer_wraps(s: State, count: nat)
    requires
        s.wf(),
    ensures
        s.ptr == 0 ==> applied(Operation::MoveBackward(1), s).ptr == HEAP_SIZE - 1,
        s.ptr == HEAP_SIZE - 1 ==> applied(Operation::MoveForward(1), s).ptr == 0,
        applied(Operation::MoveForward(count), applied(Operation::MoveBackward(count), s)) == s,
        applied(Operation::MoveBackward(count), applied(Operation::MoveForward(count), s)) == s,
{
    lemma_wrapped_round_trip(s.ptr as int, count as int);
}

/// A reset halts on any fuel, spends none, and leaves zero in the current
/// cell and everything else as it was.
pub proof fn lemma_reset_to_zero(s: State, fuel: nat)
    ensures
        run(seq![Operation::ResetToZero], s, fuel) == (Outcome::Halted {
            state: s.with_cell(0),
            spent: 0,
        }),
        s.wf() ==> s.with_cell(0).cell() == 0,
{
    lemma_run_loop_free(seq![Operation::ResetToZero], s, fuel);
    reveal_with_fuel(performed, 2);
}

/// Adding to a cell in two steps is adding in one step any count that is
/// the sum of the two modulo 256.
pub proof fn lemma_raised_sum(value: u8, first: int, second: int, sum: int)
    requires
        (sum - first - second) % 256 == 0,
    ensures
        raised(raised(value, first), second) == raised(value, sum),
{
    let one = (value + first) % 256;
    assert(0 <= one < 256);
    assert(raised(value, first) as int == one);
    assert((one + second) % 256 == (value + first + second) % 256) by {
        vstd::arithmetic::div_mod::lemma_add_mod_noop(value + first, second, 256);
        vstd::arithmetic::div_mod::lemma_mod_twice(value + first, 256);
        vstd::arithmetic::div_mod::lemma_add_mod_noop(one, second, 256);
    }
    assert((value + sum) % 256 == (value + first + second) % 256) by {
        let known = value + first + second;
        vstd::arithmetic::div_mod::lemma_add_mod_noop(known, sum - first - second, 256);
        vstd::arithmetic::div_mod::lemma_mod_twice(value + first + second, 256);
    }
}

} // verus!
