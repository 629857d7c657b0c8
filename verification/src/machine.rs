//! The abstract machine: what a program does to a tape, an input and an
//! output, told as mathematics.

use crate::token::Operation;
use vstd::prelude::*;

verus! {

/// Number of cells on the tape.
pub const HEAP_SIZE: usize = 30_000;

/// Everything that evaluation reads or changes.
#[verifier::ext_equal]
pub struct State {
    /// The cells of the tape.
    pub cells: Seq<u8>,
    /// The index of the current cell.
    pub ptr: nat,
    /// The bytes of the input that have not been read yet.
    pub input: Seq<u8>,
    /// The bytes written so far.
    pub output: Seq<u8>,
}

/// How the evaluation of a program ends.
pub enum Outcome {
    /// The program ran to its end, after `spent` loop iterations.
    Halted { state: State, spent: nat },
    /// The fuel ran out when another loop iteration was due; `state` is the
    /// state reached by then.
    Exhausted { state: State },
}

impl Outcome {
    /// The state in which the evaluation ended.
    pub open spec fn state(self) -> State {
        match self {
            Outcome::Halted { state, .. } => state,
            Outcome::Exhausted { state } => state,
        }
    }
}

/// The bytes of the text that [`format!`] makes of the cells shown by a debug
/// dump: a line break, the cells as a bracketed list of decimal numbers, and
/// a line break.
pub uninterp spec fn debug_text(cells: Seq<u8>) -> Seq<u8>;

impl State {
    /// The tape has its fixed length and the pointer is on it.
    pub open spec fn wf(self) -> bool {
        &&& self.cells.len() == HEAP_SIZE
        &&& self.ptr < HEAP_SIZE
    }

    /// The state in which evaluation starts: a tape of zeros, the pointer on
    /// the first cell.
    pub open spec fn start(input: Seq<u8>, output: Seq<u8>) -> State {
        State { cells: Seq::new(HEAP_SIZE as nat, |i: int| 0u8), ptr: 0, input, output }
    }

    /// The value of the current cell.
    pub open spec fn cell(self) -> u8 {
        self.cells[self.ptr as int]
    }

    /// The same state with `value` in the current cell.
    pub open spec fn with_cell(self, value: u8) -> State {
        State { cells: self.cells.update(self.ptr as int, value), ..self }
    }
}

/// The index on the tape that `index` wraps to.
pub open spec fn wrapped(index: int) -> nat {
    (index % (HEAP_SIZE as int)) as nat
}

/// The value of a cell that held `value` after `count` was added to it.
pub open spec fn raised(value: u8, count: int) -> u8 {
    ((value + count) % 256) as u8
}

/// The cells of a debug dump: the cells before the first one that is the
/// fourth zero in a row.
pub open spec fn dumped(cells: Seq<u8>) -> Seq<u8> {
    cells.take(dump_end(cells, 0) as int)
}

/// Whether `cells[at]` is a zero that follows three zeros.
pub open spec fn fourth_zero(cells: Seq<u8>, at: int) -> bool {
    &&& 3 <= at < cells.len()
    &&& cells[at - 3] == 0
    &&& cells[at - 2] == 0
    &&& cells[at - 1] == 0
    &&& cells[at] == 0
}

/// The first index from `from` on at which a fourth zero in a row stands, or
/// the length of `cells` if there is none.
pub open spec fn dump_end(cells: Seq<u8>, from: nat) -> nat
    decreases cells.len() - from,
{
    if from >= cells.len() {
        cells.len()
    } else if fourth_zero(cells, from as int) {
        from
    } else {
        dump_end(cells, from + 1)
    }
}

/// The state after one operation that is not a loop. On a loop the state is
/// returned unchanged: loops are run by [`run_loop`].
pub open spec fn applied(op: Operation, s: State) -> State {
    match op {
        Operation::AddValue(n) => s.with_cell(raised(s.cell(), n as int)),
        Operation::SubValue(n) => s.with_cell(raised(s.cell(), -(n as int))),
        Operation::MoveForward(n) => State { ptr: wrapped(s.ptr as int + n as int), ..s },
        Operation::MoveBackward(n) => State { ptr: wrapped(s.ptr as int - n as int), ..s },
        Operation::Output => State { output: s.output.push(s.cell()), ..s },
        Operation::InputByte => if s.input.len() > 0 {
            State { input: s.input.drop_first(), ..s.with_cell(s.input[0]) }
        } else {
            s.with_cell(0)
        },
        Operation::Loop(_) => s,
        Operation::DebugDump => State { output: s.output + debug_text(dumped(s.cells)), ..s },
        Operation::ResetToZero => s.with_cell(0),
        Operation::TransferMultiply { offset, factor } => {
            let target = wrapped(s.ptr as int + offset) as int;
            let sum = raised(s.cells[target], s.cell() * factor);
            State { cells: s.cells.update(target, sum), ..s }.with_cell(0)
        },
    }
}

/// What is left of `fuel` once `spent` is taken from it.
pub open spec fn left(fuel: nat, spent: nat) -> nat {
    if spent <= fuel {
        (fuel - spent) as nat
    } else {
        0
    }
}

/// `outcome`, with `spent` more loop iterations counted if it halted.
pub open spec fn after(spent: nat, outcome: Outcome) -> Outcome {
    match outcome {
        Outcome::Halted { state, spent: more } => Outcome::Halted { state, spent: spent + more },
        exhausted => exhausted,
    }
}

/// The outcome of running `program` from `s`, with fuel for at most `fuel`
/// loop iterations: the first operation is run, and the rest on the fuel that
/// it left.
pub open spec fn run(program: Seq<Operation>, s: State, fuel: nat) -> Outcome
    decreases fuel, program, 0nat,
{
    if program.len() == 0 {
        Outcome::Halted { state: s, spent: 0 }
    } else {
        match run_operation(program[0], s, fuel) {
            Outcome::Halted { state, spent } => after(
                spent,
                run(program.drop_first(), state, left(fuel, spent)),
            ),
            exhausted => exhausted,
        }
    }
}

/// The outcome of running one operation from `s`.
pub open spec fn run_operation(op: Operation, s: State, fuel: nat) -> Outcome
    decreases fuel, op, 0nat,
{
    match op {
        Operation::Loop(body) => run_loop(body, s, fuel),
        _ => Outcome::Halted { state: applied(op, s), spent: 0 },
    }
}

/// The outcome of repeating `body` from `s` for as long as the current cell is
/// not zero. The cell is looked at before every iteration, and every
/// iteration costs one unit of fuel.
pub open spec fn run_loop(body: Seq<Operation>, s: State, fuel: nat) -> Outcome
    decreases fuel, body, 1nat,
{
    if s.cell() == 0 {
        Outcome::Halted { state: s, spent: 0 }
    } else if fuel == 0 {
        Outcome::Exhausted { state: s }
    } else {
        match run(body, s, (fuel - 1) as nat) {
            Outcome::Halted { state, spent } => after(
                1 + spent,
                run_loop(body, state, left((fuel - 1) as nat, spent)),
            ),
            exhausted => exhausted,
        }
    }
}

} // verus!
