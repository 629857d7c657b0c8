use brainfuck_interpreter::error::LexerError;
use brainfuck_interpreter::lexer::{lex, lex_symbols, lex_with, optimize_block, LexerOptions};
use brainfuck_interpreter::token::{PreCompiledPattern, Token};

fn multiply(dest_offset: isize, factor: u8) -> Token {
    Token::Pattern(PreCompiledPattern::Multiply { dest_offset, factor })
}

#[test]
fn counts_of_value_tokens_wrap_at_256() {
    assert_eq!(lex("+".repeat(255)), Ok(vec![Token::Increment(255)]));
    assert_eq!(lex("+".repeat(256)), Ok(vec![Token::Increment(0)]));
    assert_eq!(lex("+".repeat(257)), Ok(vec![Token::Increment(1)]));
    assert_eq!(lex("-".repeat(256)), Ok(vec![Token::Decrement(0)]));
    assert_eq!(lex("-".repeat(513)), Ok(vec![Token::Decrement(1)]));
}

#[test]
fn counts_of_move_tokens_do_not_wrap() {
    assert_eq!(lex(">".repeat(256)), Ok(vec![Token::Next(256)]));
    assert_eq!(lex("<".repeat(30_001)), Ok(vec![Token::Prev(30_001)]));
}

#[test]
fn runs_of_different_symbols_stay_apart() {
    let expected = vec![
        Token::Increment(2),
        Token::Decrement(1),
        Token::Increment(1),
        Token::Next(3),
        Token::Prev(1),
        Token::Next(1),
    ];
    assert_eq!(lex("++-+>>><>".to_string()), Ok(expected));
}

#[test]
fn empty_source_is_an_empty_block() {
    assert_eq!(lex(String::new()), Ok(vec![]));
    assert_eq!(lex(" \t\r\n".to_string()), Ok(vec![]));
}

#[test]
fn whitespace_of_any_kind_is_dropped() {
    let src = "+\t+\u{a0}+\u{2003}+\r\n+".to_string();
    assert_eq!(lex(src), Ok(vec![Token::Increment(5)]));
}

#[test]
fn unmatched_close_is_a_syntax_error() {
    assert_eq!(lex("]".to_string()), Err(LexerError::SyntaxError(']')));
    assert_eq!(lex("+>.]".to_string()), Err(LexerError::SyntaxError(']')));
    assert_eq!(lex("+]+[".to_string()), Err(LexerError::SyntaxError(']')));
    assert_eq!(lex("[+]]".to_string()), Err(LexerError::SyntaxError(']')));
    assert_eq!(lex("]x".to_string()), Err(LexerError::SyntaxError(']')));
}

#[test]
fn unclosed_open_is_an_unclosed_block() {
    assert_eq!(lex("[".to_string()), Err(LexerError::UnclosedBlock));
    assert_eq!(lex("+[>".to_string()), Err(LexerError::UnclosedBlock));
    assert_eq!(lex("[[+]".to_string()), Err(LexerError::UnclosedBlock));
    assert_eq!(lex("[[[".to_string()), Err(LexerError::UnclosedBlock));
}

#[test]
fn first_error_wins() {
    assert_eq!(lex("[x".to_string()), Err(LexerError::SyntaxError('x')));
    assert_eq!(lex("y]".to_string()), Err(LexerError::SyntaxError('y')));
    assert_eq!(lex("[]]x".to_string()), Err(LexerError::SyntaxError(']')));
}

#[test]
fn strict_lexer_rejects_unknown_symbols() {
    assert_eq!(lex("a".to_string()), Err(LexerError::SyntaxError('a')));
    assert_eq!(lex("+é".to_string()), Err(LexerError::SyntaxError('é')));
    assert_eq!(lex("#".to_string()), Err(LexerError::SyntaxError('#')));
}

#[test]
fn default_options_are_strict() {
    let options = LexerOptions::default();
    assert!(!options.comments);
    assert!(!options.debug_token);
    assert_eq!(lex_with("a".to_string(), &options), Err(LexerError::SyntaxError('a')));
}

#[test]
fn comments_are_skipped_and_break_runs() {
    let options = LexerOptions { comments: true, debug_token: false };
    let expected = vec![Token::Increment(1), Token::Increment(1)];
    assert_eq!(lex_with("+a+".to_string(), &options), Ok(expected));
    assert_eq!(lex_with("#".to_string(), &options), Ok(vec![]));
    assert_eq!(lex_with("a]".to_string(), &options), Err(LexerError::SyntaxError(']')));
    assert_eq!(lex_with("[a".to_string(), &options), Err(LexerError::UnclosedBlock));
}

#[test]
fn debug_tokens_do_not_coalesce() {
    let options = LexerOptions { comments: false, debug_token: true };
    let expected = vec![Token::Debug, Token::Debug, Token::Increment(1)];
    assert_eq!(lex_with("##+".to_string(), &options), Ok(expected));
    assert_eq!(lex_with("x".to_string(), &options), Err(LexerError::SyntaxError('x')));
}

#[test]
fn loops_left_empty_are_dropped_at_any_depth() {
    assert_eq!(lex("[]".to_string()), Ok(vec![]));
    assert_eq!(lex("[[][[]]]".to_string()), Ok(vec![]));
    assert_eq!(lex("+[[]]".to_string()), Ok(vec![Token::Increment(1)]));
    let expected = vec![Token::Closure(vec![Token::Print])];
    assert_eq!(lex("[[].[[]]]".to_string()), Ok(expected));
}

#[test]
fn decrement_loop_becomes_set_to_zero() {
    let zero = Token::Pattern(PreCompiledPattern::SetToZero);
    assert_eq!(lex("+[-]".to_string()), Ok(vec![Token::Increment(1), zero.clone()]));
    assert_eq!(lex("[[-]]".to_string()), Ok(vec![Token::Closure(vec![zero])]));
    let twice = vec![Token::Closure(vec![Token::Decrement(2)])];
    assert_eq!(lex("[--]".to_string()), Ok(twice));
    let up = vec![Token::Closure(vec![Token::Increment(1)])];
    assert_eq!(lex("[+]".to_string()), Ok(up));
}

#[test]
fn transfer_loops_become_multiply_in_all_four_shapes() {
    assert_eq!(lex("[->+<]".to_string()), Ok(vec![multiply(1, 1)]));
    assert_eq!(lex("[-<<+++>>]".to_string()), Ok(vec![multiply(-2, 3)]));
    assert_eq!(lex("[>>>+<<<-]".to_string()), Ok(vec![multiply(3, 1)]));
    assert_eq!(lex("[<++>-]".to_string()), Ok(vec![multiply(-1, 2)]));
}

#[test]
fn other_shapes_stay_loops() {
    let two_targets = vec![Token::Closure(vec![
        Token::Decrement(1),
        Token::Next(1),
        Token::Increment(1),
        Token::Next(1),
        Token::Increment(1),
        Token::Prev(2),
    ])];
    assert_eq!(lex("[->+>+<<]".to_string()), Ok(two_targets));
    let same_way = vec![Token::Closure(vec![
        Token::Decrement(1),
        Token::Next(1),
        Token::Increment(1),
        Token::Next(1),
    ])];
    assert_eq!(lex("[->+>]".to_string()), Ok(same_way));
    let by_two = vec![Token::Closure(vec![
        Token::Decrement(2),
        Token::Next(1),
        Token::Increment(1),
        Token::Prev(1),
    ])];
    assert_eq!(lex("[-->+<]".to_string()), Ok(by_two));
    let subtracting = vec![Token::Closure(vec![
        Token::Decrement(1),
        Token::Next(1),
        Token::Decrement(1),
        Token::Prev(1),
    ])];
    assert_eq!(lex("[->-<]".to_string()), Ok(subtracting));
}

#[test]
fn lex_symbols_reads_a_source_without_whitespace() {
    let options = LexerOptions::default();
    let symbols: Vec<char> = "++[->+<].".chars().collect();
    let expected = vec![Token::Increment(2), multiply(1, 1), Token::Print];
    assert_eq!(lex_symbols(&symbols, &options), Ok(expected));
    let blank = vec!['+', ' ', '+'];
    assert_eq!(lex_symbols(&blank, &options), Err(LexerError::SyntaxError(' ')));
}

#[test]
fn optimize_block_rewrites_from_the_inside_out() {
    let block = vec![
        Token::Closure(vec![]),
        Token::Closure(vec![Token::Closure(vec![Token::Decrement(1)]), Token::Closure(vec![])]),
        Token::Closure(vec![
            Token::Closure(vec![]),
            Token::Decrement(1),
            Token::Prev(4),
            Token::Increment(7),
            Token::Next(4),
        ]),
        Token::Debug,
    ];
    let expected = vec![
        Token::Closure(vec![Token::Pattern(PreCompiledPattern::SetToZero)]),
        multiply(-4, 7),
        Token::Debug,
    ];
    assert_eq!(optimize_block(&block), expected);
}

#[test]
fn optimize_block_keeps_moves_too_long_for_an_offset() {
    let far = usize::MAX;
    let block = vec![Token::Closure(vec![
        Token::Decrement(1),
        Token::Next(far),
        Token::Increment(1),
        Token::Prev(far),
    ])];
    assert_eq!(optimize_block(&block), block);
}

#[test]
fn tokens_clone_to_equal_tokens() {
    let token = Token::Closure(vec![
        Token::Increment(3),
        Token::Closure(vec![Token::Print, multiply(-1, 2)]),
        Token::Input,
        Token::Debug,
    ]);
    assert_eq!(token.clone(), token);
}
