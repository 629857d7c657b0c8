//! Program trees: the executable tokens and their mathematical model.

use vstd::prelude::*;

verus! {

/// One step of a program, as a mathematical value.
pub enum Operation {
    /// Add to the current cell, modulo 256.
    AddValue(u8),
    /// Subtract from the current cell, modulo 256.
    SubValue(u8),
    /// Advance the tape pointer, wrapping at the end of the tape.
    MoveForward(nat),
    /// Retreat the tape pointer, wrapping at the start of the tape.
    MoveBackward(nat),
    /// Emit the current cell as one byte.
    Output,
    /// Read one byte into the current cell.
    InputByte,
    /// Repeat the body while the current cell is not zero.
    Loop(Seq<Operation>),
    /// Emit a dump of the leading cells of the tape.
    DebugDump,
    /// Set the current cell to zero.
    ResetToZero,
    /// Add the current cell times `factor` to the cell at `offset`, then zero
    /// the current cell.
    TransferMultiply { offset: int, factor: u8 },
}

/// Recognized Brainfuck tokens.
#[derive(Debug, PartialEq)]
pub enum Token {
    /// Increment the value at the current memory location.
    Increment(u8),
    /// Decrement the value at the current memory location.
    Decrement(u8),
    /// Go to the next byte in memory.
    Next(usize),
    /// Go to the previous byte in memory.
    Prev(usize),
    /// Print the value at the current memory location.
    Print,
    /// Set the value at the current memory location from the input.
    Input,
    /// Repeat the block while the current memory location is not zero.
    Closure(Block),
    /// Print the content of the memory as numbers.
    Debug,
    /// A block with a known pre-compiled result.
    Pattern(PreCompiledPattern),
}

/// Pre-compiled patterns of Brainfuck code.
#[derive(Debug, Clone, Copy, PartialEq)]
pub enum PreCompiledPattern {
    /// Set the current memory location to zero.
    SetToZero,
    /// Add the current byte multiplied by a constant to the destination byte.
    Multiply {
        /// The offset from the current byte to store the result.
        dest_offset: isize,
        /// The constant to multiply the source byte with.
        factor: u8,
    },
}

/// Vector of [`Token`]s making up a single block of code.
pub type Block = Vec<Token>;

/// The operation that a token stands for.
pub open spec fn operation_of(token: Token) -> Operation
    decreases token,
{
    match token {
        Token::Increment(n) => Operation::AddValue(n),
        Token::Decrement(n) => Operation::SubValue(n),
        Token::Next(n) => Operation::MoveForward(n as nat),
        Token::Prev(n) => Operation::MoveBackward(n as nat),
        Token::Print => Operation::Output,
        Token::Input => Operation::InputByte,
        Token::Closure(block) => Operation::Loop(program_of(block@)),
        Token::Debug => Operation::DebugDump,
        Token::Pattern(PreCompiledPattern::SetToZero) => Operation::ResetToZero,
        Token::Pattern(PreCompiledPattern::Multiply { dest_offset, factor }) => {
            Operation::TransferMultiply { offset: dest_offset as int, factor }
        },
    }
}

/// The program that a block of tokens stands for: the operation of each
/// token, in their order.
pub open spec fn program_of(block: Seq<Token>) -> Seq<Operation>
    decreases block,
{
    Seq::new(
        block.len(),
        |i: int|
            if 0 <= i < block.len() {
                operation_of(block[i])
            } else {
                // no index of the sequence comes here
                Operation::Output
            },
    )
}

impl View for Token {
    type V = Operation;

    open spec fn view(&self) -> Operation {
        operation_of(*self)
    }
}

/// A block with one more token stands for its program with one more
/// operation.
pub proof fn lemma_program_push(block: Seq<Token>, token: Token)
    ensures
        program_of(block.push(token)) == program_of(block).push(operation_of(token)),
{
    assert(program_of(block.push(token)) =~= program_of(block).push(operation_of(token)));
}

impl Clone for Token {
    /// A copy that stands for the same operation.
    #[verifier::loop_isolation(false)]
    fn clone(&self) -> (copy: Token)
        ensures
            copy@ == self@,
        decreases self,
    {
        match self {
            Token::Increment(n) => Token::Increment(*n),
            Token::Decrement(n) => Token::Decrement(*n),
            Token::Next(n) => Token::Next(*n),
            Token::Prev(n) => Token::Prev(*n),
            Token::Print => Token::Print,
            Token::Input => Token::Input,
            Token::Closure(block) => {
                let mut copy: Vec<Token> = Vec::new();
                let mut i: usize = 0;
                while i < block.len()
                    invariant
                        i <= block.len(),
                        copy.len() == i,
                        forall|j: int| 0 <= j < i ==> (#[trigger] copy[j])@ == block[j]@,
                    decreases block.len() - i,
                {
                    copy.push(block[i].clone());
                    i = i + 1;
                }
                assert(program_of(copy@) =~= program_of(block@));
                Token::Closure(copy)
            },
            Token::Debug => Token::Debug,
            Token::Pattern(pattern) => Token::Pattern(*pattern),
        }
    }
}

} // verus!
