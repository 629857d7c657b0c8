use brainfuck_interpreter::error::LexerError;
use brainfuck_interpreter::lexer::{lex, lex_with, LexerOptions};
use brainfuck_interpreter::token::{PreCompiledPattern, Token};

#[test]
fn value_tokens() {
    let src = "+".to_string();
    let expected = vec![Token::Increment(1)];
    assert_eq!(lex(src), Ok(expected));

    let src = "-".to_string();
    let expected = vec![Token::Decrement(1)];
    assert_eq!(lex(src), Ok(expected));
}

#[test]
fn move_tokens() {
    let src = ">".to_string();
    let expected = vec![Token::Next(1)];
    assert_eq!(lex(src), Ok(expected));

    let src = "<".to_string();
    let expected = vec![Token::Prev(1)];
    assert_eq!(lex(src), Ok(expected));
}

#[test]
fn io_tokens() {
    let src = ".".to_string();
    let expected = vec![Token::Print];
    assert_eq!(lex(src), Ok(expected));

    let src = ",".to_string();
    let expected = vec![Token::Input];
    assert_eq!(lex(src), Ok(expected));
}

#[test]
fn closure_tokens() {
    let src = "[.]".to_string();
    let expected = vec![Token::Closure(vec![Token::Print])];
    assert_eq!(lex(src), Ok(expected));
}

#[test]
fn repeatable_tokens() {
    let src = "+++".to_string();
    let expected = vec![Token::Increment(3)];
    assert_eq!(lex(src), Ok(expected));

    let src = "-----".to_string();
    let expected = vec![Token::Decrement(5)];
    assert_eq!(lex(src), Ok(expected));

    let src = ">>".to_string();
    let expected = vec![Token::Next(2)];
    assert_eq!(lex(src), Ok(expected));

    let src = "<<<<<<".to_string();
    let expected = vec![Token::Prev(6)];
    assert_eq!(lex(src), Ok(expected));
}

#[test]
fn non_repeatable_tokens() {
    let src = "...".to_string();
    let expected = vec![Token::Print, Token::Print, Token::Print];
    assert_eq!(lex(src), Ok(expected));

    let src = ",,".to_string();
    let expected = vec![Token::Input, Token::Input];
    assert_eq!(lex(src), Ok(expected));

    let src = "[.][.]".to_string();
    let expected = vec![
        Token::Closure(vec![Token::Print]),
        Token::Closure(vec![Token::Print]),
    ];
    assert_eq!(lex(src), Ok(expected));
}

#[test]
fn ignore_empty_closures() {
    let src = "[+][][][][+]".to_string();
    let expected = vec![
        Token::Closure(vec![Token::Increment(1)]),
        Token::Closure(vec![Token::Increment(1)]),
    ];
    assert_eq!(lex(src), Ok(expected));
}

#[test]
fn closure_token_capture() {
    let src = "[+]".to_string();
    let expected = vec![Token::Closure(vec![Token::Increment(1)])];
    assert_eq!(lex(src), Ok(expected));

    let src = "+[+]".to_string();
    let expected = vec![
        Token::Increment(1),
        Token::Closure(vec![Token::Increment(1)]),
    ];
    assert_eq!(lex(src), Ok(expected));

    let src = "[+]+".to_string();
    let expected = vec![
        Token::Closure(vec![Token::Increment(1)]),
        Token::Increment(1),
    ];
    assert_eq!(lex(src), Ok(expected));

    let src = "+[+]+".to_string();
    let expected = vec![
        Token::Increment(1),
        Token::Closure(vec![Token::Increment(1)]),
        Token::Increment(1),
    ];
    assert_eq!(lex(src), Ok(expected));
}

#[test]
fn closure_errors() {
    let src = "[][".to_string();
    assert_eq!(lex(src), Err(LexerError::UnclosedBlock));

    let src = "[]]".to_string();
    assert_eq!(lex(src), Err(LexerError::SyntaxError(']')));
}

#[test]
fn whitespace() {
    let src = "+ +\n\n\n - -    ".to_string();
    let expected = vec![Token::Increment(2), Token::Decrement(2)];
    assert_eq!(lex(src), Ok(expected));
}

#[test]
fn comments() {
    let options = LexerOptions { comments: true, debug_token: false };
    let src = "[ This is a comment ]+Inside of the- code".to_string();
    let expected = vec![Token::Increment(1), Token::Decrement(1)];
    assert_eq!(lex_with(src, &options), Ok(expected));
}

#[test]
fn debug_token() {
    let options = LexerOptions { comments: false, debug_token: true };
    let src = "#".to_string();
    let expected = vec![Token::Debug];
    assert_eq!(lex_with(src, &options), Ok(expected));
}

#[test]
fn set_to_zero_pattern() {
    let src = "[-]".to_string();
    let expected = vec![Token::Pattern(PreCompiledPattern::SetToZero)];
    assert_eq!(lex(src), Ok(expected));
}

#[test]
fn multiply_pattern() {
    let src = "[->+<]".to_string();
    let expected = vec![Token::Pattern(PreCompiledPattern::Multiply {
        dest_offset: 1,
        factor: 1,
    })];
    assert_eq!(lex(src), Ok(expected));

    let src = "[->>>+<<<]".to_string();
    let expected = vec![Token::Pattern(PreCompiledPattern::Multiply {
        dest_offset: 3,
        factor: 1,
    })];
    assert_eq!(lex(src), Ok(expected));

    let src = "[->++++<]".to_string();
    let expected = vec![Token::Pattern(PreCompiledPattern::Multiply {
        dest_offset: 1,
        factor: 4,
    })];
    assert_eq!(lex(src), Ok(expected));
}

#[test]
fn uneven_offsets() {
    let src = "[->>+<]".to_string();
    let expected = vec![Token::Closure(vec![
        Token::Decrement(1),
        Token::Next(2),
        Token::Increment(1),
        Token::Prev(1),
    ])];
    assert_eq!(lex(src), Ok(expected));
}
