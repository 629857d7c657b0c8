use brainfuck_interpreter::error::{BrainfuckError, LexerError};
use brainfuck_interpreter::interpreter::{
    interpret, interpret_block, interpret_with_fuel, read_u8, ByteSource, MAX_FUEL,
};
use brainfuck_interpreter::lexer::{lex, lex_with, LexerOptions};
use brainfuck_interpreter::machine::HEAP_SIZE;
use brainfuck_interpreter::token::{Block, PreCompiledPattern, Token};

/// Runs `block` on `memory` from `ptr` with no input; gives the result, the
/// pointer, the output and the fuel left.
fn run_on(
    block: &Block,
    memory: &mut Vec<u8>,
    ptr: usize,
    fuel: u64,
) -> (Result<(), BrainfuckError>, usize, Vec<u8>, u64) {
    let mut ptr = ptr;
    let mut fuel = fuel;
    let mut out = Vec::new();
    let mut input = ByteSource::new(Vec::new());
    let result = interpret_block(block, memory, &mut ptr, &mut input, &mut out, &mut fuel);
    (result, ptr, out, fuel)
}

fn output_of(src: &str, input: &[u8], fuel: u64) -> (Result<(), BrainfuckError>, Vec<u8>) {
    let block = lex(src.to_string()).unwrap();
    let mut out = Vec::new();
    let mut input = ByteSource::new(input.to_vec());
    let result = interpret_with_fuel(&block, &mut input, &mut out, fuel);
    (result, out)
}

#[test]
fn coalesced_program_ends_as_single_steps_do() {
    let src = "+++>>--<<<+>>>>>>++++<-";
    let block = lex(src.to_string()).unwrap();
    let mut coalesced = vec![0u8; HEAP_SIZE];
    let (result, ptr, _, _) = run_on(&block, &mut coalesced, 0, 0);
    assert!(result.is_ok());

    let singles: Block = src
        .chars()
        .map(|c| match c {
            '+' => Token::Increment(1),
            '-' => Token::Decrement(1),
            '>' => Token::Next(1),
            _ => Token::Prev(1),
        })
        .collect();
    let mut stepped = vec![0u8; HEAP_SIZE];
    let (result, stepped_ptr, _, _) = run_on(&singles, &mut stepped, 0, 0);
    assert!(result.is_ok());

    assert_eq!(ptr, stepped_ptr);
    assert_eq!(ptr, 4);
    assert_eq!(coalesced, stepped);
    assert_eq!(coalesced[0], 3);
    assert_eq!(coalesced[2], 254);
    assert_eq!(coalesced[HEAP_SIZE - 1], 1);
    assert_eq!(coalesced[4], 255);
    assert_eq!(coalesced[5], 4);
}

#[test]
fn increments_wrap_at_256() {
    let many = format!("+++{}.", "+".repeat(256));
    assert_eq!(output_of(&many, &[], 0).1, vec![3]);
    let one_more = format!("{}.", "+".repeat(257));
    assert_eq!(output_of(&one_more, &[], 0).1, vec![1]);
    assert_eq!(output_of("-.", &[], 0).1, vec![255]);
    assert_eq!(output_of("-+.", &[], 0).1, vec![0]);
}

#[test]
fn set_to_zero_clears_any_cell_without_fuel() {
    let block = vec![Token::Pattern(PreCompiledPattern::SetToZero)];
    for value in [0u8, 1, 2, 127, 255] {
        let mut memory = vec![0u8; HEAP_SIZE];
        memory[9] = value;
        memory[10] = 77;
        let (result, ptr, out, fuel) = run_on(&block, &mut memory, 9, 0);
        assert!(result.is_ok());
        assert_eq!(ptr, 9);
        assert_eq!(memory[9], 0);
        assert_eq!(memory[10], 77);
        assert_eq!(out, Vec::<u8>::new());
        assert_eq!(fuel, 0);
    }
}

#[test]
fn decrement_loop_ends_as_set_to_zero_does() {
    let block = vec![Token::Closure(vec![Token::Decrement(1)])];
    let mut memory = vec![0u8; HEAP_SIZE];
    memory[0] = 200;
    let (result, _, _, fuel) = run_on(&block, &mut memory, 0, 1000);
    assert!(result.is_ok());
    assert_eq!(memory[0], 0);
    assert_eq!(fuel, 800);
}

#[test]
fn transfer_moves_five_onto_three() {
    let block = lex("[->+<]".to_string()).unwrap();
    let mut memory = vec![0u8; HEAP_SIZE];
    memory[0] = 5;
    memory[1] = 3;
    let (result, ptr, _, fuel) = run_on(&block, &mut memory, 0, 0);
    assert!(result.is_ok());
    assert_eq!(ptr, 0);
    assert_eq!(memory[0], 0);
    assert_eq!(memory[1], 8);
    assert_eq!(fuel, 0);
}

#[test]
fn transfer_loop_ends_as_multiply_does() {
    let plain = vec![Token::Closure(vec![
        Token::Decrement(1),
        Token::Prev(2),
        Token::Increment(3),
        Token::Next(2),
    ])];
    let pattern = vec![Token::Pattern(PreCompiledPattern::Multiply { dest_offset: -2, factor: 3 })];
    let mut looped = vec![0u8; HEAP_SIZE];
    looped[1] = 100;
    looped[HEAP_SIZE - 1] = 9;
    let mut stepped = looped.clone();
    let (result, ptr, _, fuel) = run_on(&plain, &mut looped, 1, 100);
    assert!(result.is_ok());
    assert_eq!(fuel, 0);
    let (result, stepped_ptr, _, _) = run_on(&pattern, &mut stepped, 1, 0);
    assert!(result.is_ok());
    assert_eq!(ptr, stepped_ptr);
    assert_eq!(looped, stepped);
    assert_eq!(stepped[1], 0);
    // 9 + 100 * 3 = 309 = 256 + 53
    assert_eq!(stepped[HEAP_SIZE - 1], 53);
}

#[test]
fn multiply_onto_the_current_cell_leaves_zero() {
    for dest_offset in [0isize, 30_000, -60_000] {
        let block = vec![Token::Pattern(PreCompiledPattern::Multiply { dest_offset, factor: 3 })];
        let mut memory = vec![0u8; HEAP_SIZE];
        memory[4] = 5;
        memory[5] = 1;
        let (result, ptr, _, _) = run_on(&block, &mut memory, 4, 0);
        assert!(result.is_ok());
        assert_eq!(ptr, 4);
        assert_eq!(memory[4], 0);
        assert_eq!(memory[5], 1);
    }
}

#[test]
fn multiply_reaches_the_ends_of_the_offsets() {
    let far = vec![Token::Pattern(PreCompiledPattern::Multiply {
        dest_offset: isize::MIN,
        factor: 1,
    })];
    let mut memory = vec![0u8; HEAP_SIZE];
    memory[0] = 2;
    let (result, _, _, _) = run_on(&far, &mut memory, 0, 0);
    assert!(result.is_ok());
    let target = (isize::MIN).rem_euclid(30_000) as usize;
    assert_eq!(memory[target], 2);
    assert_eq!(memory[0], 0);
}

#[test]
fn pointer_wraps_at_both_ends() {
    let mut memory = vec![0u8; HEAP_SIZE];
    let back = vec![Token::Prev(1)];
    let on = vec![Token::Next(1)];
    let (_, ptr, _, _) = run_on(&back, &mut memory, 0, 0);
    assert_eq!(ptr, HEAP_SIZE - 1);
    let (_, ptr, _, _) = run_on(&on, &mut memory, ptr, 0);
    assert_eq!(ptr, 0);
    let (_, ptr, _, _) = run_on(&on, &mut memory, HEAP_SIZE - 1, 0);
    assert_eq!(ptr, 0);
    let (_, ptr, _, _) = run_on(&vec![Token::Next(30_000)], &mut memory, 17, 0);
    assert_eq!(ptr, 17);
    let (_, ptr, _, _) = run_on(&vec![Token::Prev(usize::MAX)], &mut memory, 0, 0);
    assert_eq!(ptr, 30_000 - usize::MAX % 30_000);
    let (_, ptr, _, _) = run_on(&vec![Token::Next(usize::MAX)], &mut memory, ptr, 0);
    assert_eq!(ptr, 0);
    assert_eq!(output_of("<+.>.", &[], 0).1, vec![1, 0]);
}

#[test]
fn input_is_read_byte_by_byte_and_ends_in_zeros() {
    let (result, out) = output_of(",.", &[b'A'], 0);
    assert!(result.is_ok());
    assert_eq!(out, vec![b'A']);
    let (result, out) = output_of(",.", &[], 0);
    assert!(result.is_ok());
    assert_eq!(out, vec![0]);
    assert_eq!(output_of("+,.", &[], 0).1, vec![0]);
    assert_eq!(output_of(",.,.,.,.", &[7, 0, 9], 0).1, vec![7, 0, 9, 0]);
}

#[test]
fn input_keeps_what_was_not_read() {
    let block = lex(",,".to_string()).unwrap();
    let mut input = ByteSource::new(vec![1, 2, 3]);
    let mut out = Vec::new();
    assert!(interpret(&block, &mut input, &mut out).is_ok());
    assert_eq!(read_u8(&mut input), 3);
    assert_eq!(read_u8(&mut input), 0);
    assert_eq!(read_u8(&mut input), 0);
}

#[test]
fn output_is_appended_as_raw_bytes() {
    let block = lex("-.+++.".to_string()).unwrap();
    let mut input = ByteSource::new(Vec::new());
    let mut out = vec![b'x'];
    assert!(interpret(&block, &mut input, &mut out).is_ok());
    assert_eq!(out, vec![b'x', 255, 2]);
}

#[test]
fn loop_is_skipped_where_the_cell_is_zero() {
    let (result, out) = output_of("[.+]>[[.]].", &[], 0);
    assert!(result.is_ok());
    assert_eq!(out, vec![0]);
}

#[test]
fn nested_loops_multiply() {
    // 3 * 4 iterations of the inner loop and 3 of the outer one
    let (result, out) = output_of("+++[>++++[>+.<-]<-]", &[], 15);
    assert!(result.is_ok());
    assert_eq!(out, (1..=12).collect::<Vec<u8>>());
    let (result, out) = output_of("+++[>++++[>+.<-]<-]", &[], 14);
    assert!(matches!(result, Err(BrainfuckError::OutOfFuel)));
    assert_eq!(out, (1..=11).collect::<Vec<u8>>());
}

#[test]
fn endless_loop_runs_out_of_fuel() {
    let (result, out) = output_of("+[.]", &[], 3);
    assert!(matches!(result, Err(BrainfuckError::OutOfFuel)));
    assert_eq!(out, vec![1, 1, 1]);
    let (result, out) = output_of("+[>+<]", &[], 1000);
    assert!(matches!(result, Err(BrainfuckError::OutOfFuel)));
    assert_eq!(out, Vec::<u8>::new());
    let (result, _) = output_of("+[]", &[], 0);
    assert!(result.is_ok());
}

#[test]
fn fuel_counts_loop_iterations() {
    let block = vec![Token::Closure(vec![Token::Decrement(1), Token::Print])];
    let mut memory = vec![0u8; HEAP_SIZE];
    memory[0] = 3;
    let (result, _, out, fuel) = run_on(&block, &mut memory, 0, 3);
    assert!(result.is_ok());
    assert_eq!(out, vec![2, 1, 0]);
    assert_eq!(fuel, 0);

    let mut memory = vec![0u8; HEAP_SIZE];
    memory[0] = 3;
    let (result, ptr, out, fuel) = run_on(&block, &mut memory, 0, 2);
    assert!(matches!(result, Err(BrainfuckError::OutOfFuel)));
    assert_eq!(out, vec![2, 1]);
    assert_eq!(memory[0], 1);
    assert_eq!(ptr, 0);
    assert_eq!(fuel, 0);

    let straight = vec![Token::Increment(1), Token::Next(1), Token::Print];
    let mut memory = vec![0u8; HEAP_SIZE];
    let (result, _, _, fuel) = run_on(&straight, &mut memory, 0, 7);
    assert!(result.is_ok());
    assert_eq!(fuel, 7);
}

#[test]
fn debug_dump_shows_cells_up_to_the_fourth_zero_in_a_row() {
    let mut memory = vec![0u8; HEAP_SIZE];
    let (result, _, out, _) = run_on(&vec![Token::Debug], &mut memory, 0, 0);
    assert!(result.is_ok());
    assert_eq!(out, b"\n[0, 0, 0]\n".to_vec());

    let mut memory = vec![0u8; HEAP_SIZE];
    memory[0] = 1;
    memory[2] = 200;
    memory[6] = 3;
    memory[11] = 4;
    let (_, _, out, _) = run_on(&vec![Token::Debug], &mut memory, 5, 0);
    assert_eq!(out, b"\n[1, 0, 200, 0, 0, 0, 3, 0, 0, 0]\n".to_vec());

    let mut memory = vec![9u8; HEAP_SIZE];
    let (_, _, out, _) = run_on(&vec![Token::Debug], &mut memory, 0, 0);
    assert_eq!(out.len(), 3 * HEAP_SIZE + 2);
}

#[test]
fn debug_token_runs_from_source() {
    let options = LexerOptions { comments: false, debug_token: true };
    let block = lex_with("+>++#.".to_string(), &options).unwrap();
    let mut input = ByteSource::new(Vec::new());
    let mut out = Vec::new();
    assert!(interpret(&block, &mut input, &mut out).is_ok());
    assert_eq!(out, b"\n[1, 2, 0, 0, 0]\n\x02".to_vec());
}

#[test]
fn errors_convert_into_the_interpreter_error() {
    let parse = BrainfuckError::from(LexerError::UnclosedBlock);
    assert!(matches!(parse, BrainfuckError::ParserError(LexerError::UnclosedBlock)));
    let syntax = BrainfuckError::from(LexerError::SyntaxError('x'));
    assert!(matches!(syntax, BrainfuckError::ParserError(LexerError::SyntaxError('x'))));
    let eof = BrainfuckError::from(LexerError::UnexpectedEOF);
    assert!(matches!(eof, BrainfuckError::ParserError(LexerError::UnexpectedEOF)));
    let io = std::io::Error::new(std::io::ErrorKind::BrokenPipe, "closed");
    match BrainfuckError::from(io) {
        BrainfuckError::IOError(e) => assert_eq!(e.kind(), std::io::ErrorKind::BrokenPipe),
        _ => panic!("an io error is kept as one"),
    }
}

#[test]
fn each_run_starts_on_a_fresh_tape() {
    let block = lex("+.".to_string()).unwrap();
    let mut first = Vec::new();
    let mut second = Vec::new();
    assert!(interpret(&block, &mut ByteSource::new(vec![]), &mut first).is_ok());
    assert!(interpret(&block, &mut ByteSource::new(vec![]), &mut second).is_ok());
    assert_eq!(first, vec![1]);
    assert_eq!(second, vec![1]);
}

#[test]
fn interpret_has_the_largest_fuel() {
    assert_eq!(MAX_FUEL, u64::MAX);
    // 255 iterations of the loop, each a transfer of 255 to the third cell
    let block = lex("-[>-[>+<-]<-]>>.".to_string()).unwrap();
    let mut out = Vec::new();
    assert!(interpret(&block, &mut ByteSource::new(vec![]), &mut out).is_ok());
    assert_eq!(out, vec![1]);
}
