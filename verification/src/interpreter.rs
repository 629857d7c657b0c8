//! Brainfuck interpreter.

use crate::error::BrainfuckError;
use crate::machine::{
    after, applied, debug_text, dump_end, dumped, fourth_zero, raised, run, run_loop,
    run_operation, wrapped, Outcome, State, HEAP_SIZE,
};
use crate::token::{operation_of, program_of, Block, PreCompiledPattern, Token};
use vstd::prelude::*;

verus! {

/// A source of input bytes, read front to back.
pub struct ByteSource {
    bytes: Vec<u8>,
    pos: usize,
}

impl View for ByteSource {
    type V = Seq<u8>;

    /// The bytes that have not been read yet.
    closed spec fn view(&self) -> Seq<u8> {
        self.bytes@.skip(self.pos as int)
    }
}

impl ByteSource {
    #[verifier::type_invariant]
    spec fn in_bounds(self) -> bool {
        self.pos <= self.bytes.len()
    }

    /// A source that yields `bytes`, first to last.
    pub fn new(bytes: Vec<u8>) -> (source: ByteSource)
        ensures
            source@ == bytes@,
    {
        ByteSource { bytes, pos: 0 }
    }
}

/// The machine state that the evaluator's variables stand for.
pub open spec fn state_of(memory: Seq<u8>, ptr: usize, input: Seq<u8>, output: Seq<u8>) -> State {
    State { cells: memory, ptr: ptr as nat, input, output }
}

/// Formats the cells of a debug dump with [`format!`]: a line break, the
/// cells in the `Debug` form of a vector (a bracketed, comma-separated list
/// of decimal numbers), and a line break. The text depends on the cells
/// alone; its bytes are given the name [`debug_text`].
#[verifier::external_body]
fn format_cells(cells: &Vec<u8>) -> (text: Vec<u8>)
    ensures
        text@ == debug_text(cells@),
{
    format!("\n{:?}\n", cells).into_bytes()
}

/// The fuel of [`interpret`]: the largest there is.
pub const MAX_FUEL: u64 = 0xffff_ffff_ffff_ffff;

/// What a run that ends as `outcome` leaves its caller: success where it
/// halted and [`BrainfuckError::OutOfFuel`] where the fuel ran out, and in
/// both cases the input not read and the output written until then.
pub open spec fn leaves(
    outcome: Outcome,
    result: Result<(), BrainfuckError>,
    input: Seq<u8>,
    out: Seq<u8>,
) -> bool {
    &&& outcome.state().input == input
    &&& outcome.state().output == out
    &&& match outcome {
        Outcome::Halted { .. } => result is Ok,
        Outcome::Exhausted { .. } => result matches Err(BrainfuckError::OutOfFuel),
    }
}

/// Interpret Brainfuck program.
///
/// The program runs on a fresh tape of [`HEAP_SIZE`] zeroed cells with the
/// pointer on the first cell. It reads from `input` and appends what it
/// writes to `out`. The run has [`MAX_FUEL`] loop iterations to end in; see
/// [`interpret_with_fuel`].
///
/// # Arguments
///
/// * `src` - The [`Block`] to interpret.
/// * `input` - The input stream.
/// * `out` - The output stream.
///
/// # Errors
///
/// [`BrainfuckError::OutOfFuel`] if the program has not ended after
/// [`MAX_FUEL`] loop iterations.
pub fn interpret(src: &Block, input: &mut ByteSource, out: &mut Vec<u8>) -> (result: Result<
    (),
    BrainfuckError,
>)
    ensures
        leaves(
            run(program_of(src@), State::start(old(input)@, old(out)@), MAX_FUEL as nat),
            result,
            final(input)@,
            final(out)@,
        ),
{
    interpret_with_fuel(src, input, out, MAX_FUEL)
}

/// Interpret Brainfuck program within a bound on its loop iterations.
///
/// As [`interpret`], but with `fuel` for the loop iterations: where one more
/// iteration is due and none is left, the run stops, and `input` and `out`
/// keep what was read and written until then.
///
/// # Arguments
///
/// * `src` - The [`Block`] to interpret.
/// * `input` - The input stream.
/// * `out` - The output stream.
/// * `fuel` - The number of loop iterations allowed.
///
/// # Errors
///
/// [`BrainfuckError::OutOfFuel`] if the program has not ended after `fuel`
/// loop iterations.
pub fn interpret_with_fuel(
    src: &Block,
    input: &mut ByteSource,
    out: &mut Vec<u8>,
    fuel: u64,
) -> (result: Result<(), BrainfuckError>)
    ensures
        leaves(
            run(program_of(src@), State::start(old(input)@, old(out)@), fuel as nat),
            result,
            final(input)@,
            final(out)@,
        ),
{
    let mut memory = vec![0u8; HEAP_SIZE];
    let mut ptr: usize = 0;
    let mut fuel = fuel;
    assert(memory@ =~= State::start(input@, out@).cells);
    interpret_block(src, &mut memory, &mut ptr, input, out, &mut fuel)
}

/// Reads one byte from the input; an exhausted input yields 0.
pub fn read_u8(input: &mut ByteSource) -> (byte: u8)
    ensures
        old(input)@.len() > 0 ==> {
            &&& byte == old(input)@[0]
            &&& final(input)@ == old(input)@.drop_first()
        },
        old(input)@.len() == 0 ==> {
            &&& byte == 0
            &&& final(input)@ == old(input)@
        },
{
    proof {
        use_type_invariant(&*input);
    }
    if input.pos < input.bytes.len() {
        let byte = input.bytes[input.pos];
        input.pos = input.pos + 1;
        assert(input@ =~= old(input)@.drop_first());
        byte
    } else {
        0
    }
}

/// The index `count` cells after `ptr`, wrapping at the end of the tape.
fn forward(ptr: usize, count: usize) -> (index: usize)
    requires
        ptr < HEAP_SIZE,
    ensures
        index == wrapped(ptr + count),
{
    (ptr + count % HEAP_SIZE) % HEAP_SIZE
}

/// The index `count` cells before `ptr`, wrapping at the start of the tape.
fn backward(ptr: usize, count: usize) -> (index: usize)
    requires
        ptr < HEAP_SIZE,
    ensures
        index == wrapped(ptr - count),
{
    (ptr + (HEAP_SIZE - count % HEAP_SIZE)) % HEAP_SIZE
}

/// The index `offset` cells from `ptr`, wrapping at both ends of the tape.
fn displaced(ptr: usize, offset: isize) -> (index: usize)
    requires
        ptr < HEAP_SIZE,
    ensures
        index == wrapped(ptr + offset),
{
    if offset >= 0 {
        forward(ptr, offset as usize)
    } else {
        // -(offset + 1) fits even where -offset does not
        let below: usize = (-(offset + 1)) as usize;
        backward(backward(ptr, below), 1)
    }
}

/// The cells that a debug dump shows: the cells of `memory` before the first
/// one that is the fourth zero in a row.
fn dump_cells(memory: &Vec<u8>) -> (cells: Vec<u8>)
    ensures
        cells@ == dumped(memory@),
{
    let mut cells: Vec<u8> = Vec::new();
    let mut zeros: usize = 0;
    let mut i: usize = 0;
    while i < memory.len()
        invariant
            i <= memory.len(),
            cells@ == memory@.take(i as int),
            zeros <= 3,
            zeros <= i,
            forall|j: int| i - zeros <= j < i ==> memory[j] == 0,
            zeros < 3 ==> zeros == i || memory[i - zeros - 1] != 0,
            dump_end(memory@, 0) == dump_end(memory@, i as nat),
        decreases memory.len() - i,
    {
        let cell = memory[i];
        if cell == 0 {
            if zeros == 3 {
                assert(fourth_zero(memory@, i as int));
                return cells;
            }
            zeros = zeros + 1;
        } else {
            zeros = 0;
        }
        assert(!fourth_zero(memory@, i as int));
        cells.push(cell);
        i = i + 1;
        assert(cells@ =~= memory@.take(i as int));
    }
    assert(memory@.take(i as int) =~= memory@);
    cells
}

/// The value of a cell that held `value` after `count` is added to it.
fn raise(value: u8, count: u8) -> (sum: u8)
    ensures
        sum == raised(value, count as int),
{
    value.wrapping_add(count)
}

/// The value of a cell that held `value` after `count` is taken from it.
fn lower(value: u8, count: u8) -> (difference: u8)
    ensures
        difference == raised(value, -(count as int)),
{
    value.wrapping_sub(count)
}

/// The value of a cell that held `target` after `factor` times `value` is
/// added to it.
fn raise_by_product(target: u8, value: u8, factor: u8) -> (sum: u8)
    ensures
        sum == raised(target, value * factor),
{
    // the product comes first: the target may be the current cell
    let product = value.wrapping_mul(factor);
    proof {
        vstd::arithmetic::div_mod::lemma_add_mod_noop_right(
            target as int,
            value as int * factor as int,
            256,
        );
    }
    target.wrapping_add(product)
}

/// Performs one token that is not a loop.
fn perform(
    token: &Token,
    memory: &mut Vec<u8>,
    ptr: &mut usize,
    input: &mut ByteSource,
    out: &mut Vec<u8>,
)
    requires
        !(token is Closure),
        old(memory).len() == HEAP_SIZE,
        *old(ptr) < HEAP_SIZE,
    ensures
        final(memory).len() == HEAP_SIZE,
        *final(ptr) < HEAP_SIZE,
        state_of(final(memory)@, *final(ptr), final(input)@, final(out)@) == applied(
            operation_of(*token),
            state_of(old(memory)@, *old(ptr), old(input)@, old(out)@),
        ),
{
    let ghost before = state_of(memory@, *ptr, input@, out@);
    match token {
        Token::Increment(x) => {
            let value = raise(memory[*ptr], *x);
            memory[*ptr] = value;
            assert(state_of(memory@, *ptr, input@, out@) =~= applied(operation_of(*token), before));
        },
        Token::Decrement(x) => {
            let value = lower(memory[*ptr], *x);
            memory[*ptr] = value;
            assert(state_of(memory@, *ptr, input@, out@) =~= applied(operation_of(*token), before));
        },
        Token::Next(count) => {
            *ptr = forward(*ptr, *count);
            assert(state_of(memory@, *ptr, input@, out@) =~= applied(operation_of(*token), before));
        },
        Token::Prev(count) => {
            *ptr = backward(*ptr, *count);
            assert(state_of(memory@, *ptr, input@, out@) =~= applied(operation_of(*token), before));
        },
        Token::Print => {
            out.push(memory[*ptr]);
            assert(state_of(memory@, *ptr, input@, out@) =~= applied(operation_of(*token), before));
        },
        Token::Input => {
            let byte = read_u8(input);
            memory[*ptr] = byte;
            assert(state_of(memory@, *ptr, input@, out@) =~= applied(operation_of(*token), before));
        },
        Token::Closure(_) => {},
        Token::Debug => {
            let cells = dump_cells(memory);
            let mut text = format_cells(&cells);
            out.append(&mut text);
            assert(state_of(memory@, *ptr, input@, out@) =~= applied(operation_of(*token), before));
        },
        Token::Pattern(PreCompiledPattern::SetToZero) => {
            memory[*ptr] = 0;
            assert(state_of(memory@, *ptr, input@, out@) =~= applied(operation_of(*token), before));
        },
        Token::Pattern(PreCompiledPattern::Multiply { dest_offset, factor }) => {
            let target = displaced(*ptr, *dest_offset);
            let value = raise_by_product(memory[target], memory[*ptr], *factor);
            memory[target] = value;
            memory[*ptr] = 0;
            assert(state_of(memory@, *ptr, input@, out@) =~= applied(operation_of(*token), before));
        },
    }
}

/// Runs `block` on the tape `memory` with the pointer `ptr`, reading from
/// `input` and writing to `out`. Every loop iteration takes one unit from
/// `fuel`; where an iteration is due and none is left, the run stops there
/// with [`BrainfuckError::OutOfFuel`].
#[verifier::loop_isolation(false)]
pub fn interpret_block(
    block: &Block,
    memory: &mut Vec<u8>,
    ptr: &mut usize,
    input: &mut ByteSource,
    out: &mut Vec<u8>,
    fuel: &mut u64,
) -> (result: Result<(), BrainfuckError>)
    requires
        old(memory).len() == HEAP_SIZE,
        *old(ptr) < HEAP_SIZE,
    ensures
        final(memory).len() == HEAP_SIZE,
        *final(ptr) < HEAP_SIZE,
        match run(
            program_of(block@),
            state_of(old(memory)@, *old(ptr), old(input)@, old(out)@),
            *old(fuel) as nat,
        ) {
            Outcome::Halted { state, spent } => {
                &&& result is Ok
                &&& state_of(final(memory)@, *final(ptr), final(input)@, final(out)@) == state
                &&& *final(fuel) == *old(fuel) - spent
            },
            Outcome::Exhausted { state } => {
                &&& result matches Err(BrainfuckError::OutOfFuel)
                &&& state_of(final(memory)@, *final(ptr), final(input)@, final(out)@) == state
                &&& *final(fuel) == 0
            },
        },
    decreases *old(fuel),
{
    let ghost program = program_of(block@);
    let ghost start = state_of(memory@, *ptr, input@, out@);
    let ghost fuel0 = *fuel;
    let mut i: usize = 0;
    assert(program.skip(0) =~= program);
    while i < block.len()
        invariant
            i <= block.len(),
            memory.len() == HEAP_SIZE,
            *ptr < HEAP_SIZE,
            *fuel <= fuel0,
            run(program, start, fuel0 as nat) == after(
                (fuel0 - *fuel) as nat,
                run(program.skip(i as int), state_of(memory@, *ptr, input@, out@), *fuel as nat),
            ),
        decreases block.len() - i,
    {
        let ghost here = state_of(memory@, *ptr, input@, out@);
        let ghost rest = program.skip(i as int);
        assert(rest[0] == operation_of(block@[i as int]));
        assert(rest.drop_first() =~= program.skip(i + 1));
        match &block[i] {
            Token::Closure(body) => {
                let ghost ops = program_of(body@);
                let ghost entry_fuel = *fuel;
                while memory[*ptr] != 0
                    invariant
                        memory.len() == HEAP_SIZE,
                        *ptr < HEAP_SIZE,
                        *fuel <= entry_fuel <= fuel0,
                        run_loop(ops, here, entry_fuel as nat) == after(
                            (entry_fuel - *fuel) as nat,
                            run_loop(
                                ops,
                                state_of(memory@, *ptr, input@, out@),
                                *fuel as nat,
                            ),
                        ),
                    decreases *fuel,
                {
                    let ghost now = state_of(memory@, *ptr, input@, out@);
                    let ghost before = *fuel;
                    if *fuel == 0 {
                        assert(run_operation(rest[0], here, entry_fuel as nat)
                            == Outcome::Exhausted { state: now });
                        return Err(BrainfuckError::OutOfFuel);
                    }
                    *fuel = *fuel - 1;
                    match interpret_block(body, memory, ptr, input, out, fuel) {
                        Ok(()) => {
                            assert(run(ops, now, (before - 1) as nat) is Halted);
                        },
                        Err(e) => {
                            assert(run(ops, now, (before - 1) as nat) is Exhausted);
                            assert(run_operation(rest[0], here, entry_fuel as nat)
                                == run_loop(ops, now, before as nat));
                            return Err(e);
                        },
                    }
                }
                assert(run_operation(rest[0], here, entry_fuel as nat) == Outcome::Halted {
                    state: state_of(memory@, *ptr, input@, out@),
                    spent: (entry_fuel - *fuel) as nat,
                });
            },
            token => {
                perform(token, memory, ptr, input, out);
            },
        }
        i = i + 1;
    }
    Ok(())
}

} // verus!
