//! Lexical analysis

use crate::error::LexerError;
use crate::lexer_proofs::lemma_optimized_no_empty_loop;
use crate::token::{
    lemma_program_push, operation_of, program_of, Block, Operation, PreCompiledPattern, Token,
};
use itertools::Itertools;
use vstd::prelude::*;

verus! {

/// Symbol that increments the current cell.
pub const TOKEN_INCREMENT: char = '+';

/// Symbol that decrements the current cell.
pub const TOKEN_DECREMENT: char = '-';

/// Symbol that moves to the next cell.
pub const TOKEN_NEXT: char = '>';

/// Symbol that moves to the previous cell.
pub const TOKEN_PREV: char = '<';

/// Symbol that prints the current cell.
pub const TOKEN_PRINT: char = '.';

/// Symbol that reads into the current cell.
pub const TOKEN_INPUT: char = ',';

/// Symbol that opens a loop.
pub const TOKEN_LOOP_BEGIN: char = '[';

/// Symbol that closes a loop.
pub const TOKEN_LOOP_END: char = ']';

/// Symbol that dumps the memory, where the debug token is switched on.
pub const TOKEN_DEBUG: char = '#';

/// What the lexer does with symbols outside the eight commands.
#[derive(Debug, Clone, Copy, PartialEq, Eq)]
pub struct LexerOptions {
    /// Skip unknown symbols as comments instead of rejecting them.
    pub comments: bool,
    /// Read [`TOKEN_DEBUG`] as [`Token::Debug`].
    pub debug_token: bool,
}

impl Default for LexerOptions {
    /// The strict lexer: no comments, no debug token.
    fn default() -> (options: LexerOptions)
        ensures
            !options.comments,
            !options.debug_token,
    {
        LexerOptions { comments: false, debug_token: false }
    }
}

/// A symbol with the number of times it stands in a row.
pub type Run = (char, nat);

/// Whether `c` has the Unicode property `White_Space`, as
/// [`char::is_whitespace`] tells it.
pub uninterp spec fn is_whitespace(c: char) -> bool;

/// Asks [`char::is_whitespace`] whether `c` is whitespace. The answer depends
/// on `c` alone and is given the name [`is_whitespace`].
#[verifier::external_body]
fn char_is_whitespace(c: char) -> (white: bool)
    ensures
        white == is_whitespace(c),
{
    c.is_whitespace()
}

/// Whether `c` is one of the symbols with a meaning of its own: the eight
/// commands and the debug symbol.
pub open spec fn is_symbol(c: char) -> bool {
    ||| is_repeatable(c)
    ||| c == TOKEN_PRINT
    ||| c == TOKEN_INPUT
    ||| c == TOKEN_LOOP_BEGIN
    ||| c == TOKEN_LOOP_END
    ||| c == TOKEN_DEBUG
}

/// Whether `c` is one of the four symbols that coalesce: those that change
/// the current cell or move the pointer.
pub open spec fn is_repeatable(c: char) -> bool {
    ||| c == TOKEN_INCREMENT
    ||| c == TOKEN_DECREMENT
    ||| c == TOKEN_NEXT
    ||| c == TOKEN_PREV
}

/// Whether the lexer reads `c` at all. Whitespace is dropped before anything
/// else happens; none of the symbols is whitespace, so they are kept without
/// asking.
pub open spec fn is_significant(c: char) -> bool {
    is_symbol(c) || !is_whitespace(c)
}

/// The source without its whitespace.
pub open spec fn significant(src: Seq<char>) -> Seq<char> {
    src.filter(|c: char| is_significant(c))
}

/// Every symbol as a run of one.
pub open spec fn unit_runs(symbols: Seq<char>) -> Seq<Run> {
    Seq::new(symbols.len(), |i: int| (symbols[i], 1nat))
}

/// The one run that two neighbouring runs make, if they merge: they do when
/// both are of the same repeatable symbol.
pub open spec fn merged(a: Run, b: Run) -> Option<Run> {
    if a.0 == b.0 && is_repeatable(a.0) {
        Some((a.0, a.1 + b.1))
    } else {
        None
    }
}

/// The runs that come out when `held` and then `rest` are coalesced: `held`
/// takes in what follows for as long as it merges, is then given out, and the
/// run that did not merge is held next.
pub open spec fn coalesced_from(held: Run, rest: Seq<Run>) -> Seq<Run>
    decreases rest.len(),
{
    if rest.len() == 0 {
        seq![held]
    } else {
        match merged(held, rest[0]) {
            Some(joined) => coalesced_from(joined, rest.drop_first()),
            None => seq![held] + coalesced_from(rest[0], rest.drop_first()),
        }
    }
}

/// Run-length coalescing: neighbouring runs that merge are made one.
pub open spec fn coalesced(runs: Seq<Run>) -> Seq<Run> {
    if runs.len() == 0 {
        Seq::empty()
    } else {
        coalesced_from(runs[0], runs.drop_first())
    }
}

/// The runs that a vector of counted symbols stands for.
pub open spec fn runs_of(items: Seq<(char, usize)>) -> Seq<Run> {
    Seq::new(items.len(), |i: int| (items[i].0, items[i].1 as nat))
}

/// The operation that a run stands for, unless its symbol is a bracket or
/// unknown.
pub open spec fn operation_for(run: Run, options: LexerOptions) -> Option<Operation> {
    if run.0 == TOKEN_INCREMENT {
        Some(Operation::AddValue((run.1 % 256) as u8))
    } else if run.0 == TOKEN_DECREMENT {
        Some(Operation::SubValue((run.1 % 256) as u8))
    } else if run.0 == TOKEN_NEXT {
        Some(Operation::MoveForward(run.1))
    } else if run.0 == TOKEN_PREV {
        Some(Operation::MoveBackward(run.1))
    } else if run.0 == TOKEN_PRINT {
        Some(Operation::Output)
    } else if run.0 == TOKEN_INPUT {
        Some(Operation::InputByte)
    } else if run.0 == TOKEN_DEBUG && options.debug_token {
        Some(Operation::DebugDump)
    } else {
        None
    }
}

/// `frames` with `op` added at the end of the innermost block.
pub open spec fn extended(frames: Seq<Seq<Operation>>, op: Operation) -> Seq<Seq<Operation>> {
    frames.drop_last().push(frames.last().push(op))
}

/// `frames` with the innermost block closed: it becomes a loop at the end of
/// the block around it.
pub open spec fn closed(frames: Seq<Seq<Operation>>) -> Seq<Seq<Operation>> {
    extended(frames.drop_last(), Operation::Loop(frames.last()))
}

/// The program that `runs` make when they are read from left to right into
/// `frames`: the blocks that are open where `runs` begin, the outermost
/// first, each with the operations read into it so far.
pub open spec fn parse_from(
    runs: Seq<Run>,
    frames: Seq<Seq<Operation>>,
    options: LexerOptions,
) -> Result<Seq<Operation>, LexerError>
    decreases runs.len(),
{
    if runs.len() == 0 {
        if frames.len() == 1 {
            Ok(frames[0])
        } else {
            Err(LexerError::UnclosedBlock)
        }
    } else if runs[0].0 == TOKEN_LOOP_BEGIN {
        parse_from(runs.drop_first(), frames.push(Seq::empty()), options)
    } else if runs[0].0 == TOKEN_LOOP_END {
        if frames.len() < 2 {
            Err(LexerError::SyntaxError(TOKEN_LOOP_END))
        } else {
            parse_from(runs.drop_first(), closed(frames), options)
        }
    } else {
        match operation_for(runs[0], options) {
            Some(op) => parse_from(runs.drop_first(), extended(frames, op), options),
            None => if options.comments {
                parse_from(runs.drop_first(), frames, options)
            } else {
                Err(LexerError::SyntaxError(runs[0].0))
            },
        }
    }
}

/// The program that `runs` make: the structural parse.
pub open spec fn parsed(runs: Seq<Run>, options: LexerOptions) -> Result<
    Seq<Operation>,
    LexerError,
> {
    parse_from(runs, seq![Seq::empty()], options)
}

/// The offset and the factor of a transfer, where the three operations are a
/// move, an addition and the move back by as many cells. The offset has the
/// sign of the first move. A move too long for a signed offset is no
/// transfer.
pub open spec fn transfer(there: Operation, add: Operation, back: Operation) -> Option<(int, u8)> {
    match (there, add, back) {
        (Operation::MoveForward(k), Operation::AddValue(f), Operation::MoveBackward(j)) => {
            if k == j && k <= isize::MAX {
                Some((k as int, f))
            } else {
                None
            }
        },
        (Operation::MoveBackward(k), Operation::AddValue(f), Operation::MoveForward(j)) => {
            if k == j && k <= isize::MAX {
                Some((-(k as int), f))
            } else {
                None
            }
        },
        _ => None,
    }
}

/// The operation that takes the place of a loop with the body `body`: a
/// closed form where the body has one of the known shapes, the loop itself
/// otherwise. The shapes are a single decrement by one, and a decrement by
/// one before or behind a transfer.
pub open spec fn rewritten(body: Seq<Operation>) -> Operation {
    if body.len() == 1 && body[0] == Operation::SubValue(1) {
        Operation::ResetToZero
    } else if body.len() == 4 && body[0] == Operation::SubValue(1) && transfer(
        body[1],
        body[2],
        body[3],
    ) is Some {
        let found = transfer(body[1], body[2], body[3])->0;
        Operation::TransferMultiply { offset: found.0, factor: found.1 }
    } else if body.len() == 4 && body[3] == Operation::SubValue(1) && transfer(
        body[0],
        body[1],
        body[2],
    ) is Some {
        let found = transfer(body[0], body[1], body[2])->0;
        Operation::TransferMultiply { offset: found.0, factor: found.1 }
    } else {
        Operation::Loop(body)
    }
}

/// The optimized program: every loop has its body optimized first; a loop
/// whose body is then empty is dropped, and any other loop is rewritten where
/// its body has a known shape.
pub open spec fn optimized(program: Seq<Operation>) -> Seq<Operation>
    decreases program,
{
    if program.len() == 0 {
        Seq::empty()
    } else {
        optimized(program.drop_last()) + optimized_operation(program.last())
    }
}

/// What one operation becomes in the optimized program: nothing, or one
/// operation.
pub open spec fn optimized_operation(op: Operation) -> Seq<Operation>
    decreases op,
{
    match op {
        Operation::Loop(body) => {
            let inner = optimized(body);
            if inner.len() == 0 {
                Seq::empty()
            } else {
                seq![rewritten(inner)]
            }
        },
        _ => seq![op],
    }
}

/// Whether no loop in `program`, at any depth, has an empty body.
pub open spec fn no_empty_loop(program: Seq<Operation>) -> bool
    decreases program,
{
    forall|i: int| 0 <= i < program.len() ==> no_empty_loop_in(#[trigger] program[i])
}

/// Whether `op` is no loop with an empty body and holds none.
pub open spec fn no_empty_loop_in(op: Operation) -> bool
    decreases op,
{
    match op {
        Operation::Loop(body) => body.len() > 0 && no_empty_loop(body),
        _ => true,
    }
}

/// What the analysis of `symbols` gives: the symbols are coalesced into
/// runs and parsed, and the program is optimized.
pub open spec fn analysis(symbols: Seq<char>, options: LexerOptions) -> Result<
    Seq<Operation>,
    LexerError,
> {
    match parsed(coalesced(unit_runs(symbols)), options) {
        Ok(program) => Ok(optimized(program)),
        Err(e) => Err(e),
    }
}

/// What lexing `src` gives: the analysis of `src` without its whitespace.
pub open spec fn lexed(src: Seq<char>, options: LexerOptions) -> Result<
    Seq<Operation>,
    LexerError,
> {
    analysis(significant(src), options)
}

/// Whether `result` is `expected`: the same error, or a block that stands
/// for the same program and holds no loop with an empty body.
pub open spec fn stands_for(
    result: Result<Block, LexerError>,
    expected: Result<Seq<Operation>, LexerError>,
) -> bool {
    match result {
        Ok(block) => {
            &&& expected == Ok::<Seq<Operation>, LexerError>(program_of(block@))
            &&& no_empty_loop(program_of(block@))
        },
        Err(e) => expected == Err::<Seq<Operation>, LexerError>(e),
    }
}

/// Whether `c` is one of the four symbols that coalesce.
fn repeatable(c: char) -> (yes: bool)
    ensures
        yes == is_repeatable(c),
{
    c == TOKEN_INCREMENT || c == TOKEN_DECREMENT || c == TOKEN_NEXT || c == TOKEN_PREV
}

/// Merges two neighbouring runs into one where they are of the same
/// repeatable symbol and the sum of their counts fits; hands both back
/// otherwise.
fn merge_runs(a: (char, usize), b: (char, usize)) -> (joined: Result<
    (char, usize),
    ((char, usize), (char, usize)),
>)
    ensures
        match joined {
            Ok(run) => {
                &&& a.0 == b.0
                &&& is_repeatable(a.0)
                &&& run.0 == a.0
                &&& run.1 == a.1 + b.1
            },
            Err(pair) => {
                &&& pair == (a, b)
                &&& !(a.0 == b.0 && is_repeatable(a.0) && a.1 + b.1 <= usize::MAX)
            },
        },
{
    if a.0 == b.0 && repeatable(a.0) {
        match a.1.checked_add(b.1) {
            Some(count) => Ok((a.0, count)),
            None => Err((a, b)),
        }
    } else {
        Err((a, b))
    }
}

/// Coalesces with [`Itertools::coalesce`], which hands each item and its
/// successor to [`merge_runs`]: on `Ok` the merged run takes the place of
/// both and meets the next item, on `Err` the first is given out and the
/// second is held. The run held at the end is given out too. Every count on
/// the way in is 1, so no sum of counts exceeds the number of items and
/// `merge_runs` never declines for want of room.
#[verifier::external_body]
fn coalesce_runs(items: Vec<(char, usize)>) -> (runs: Vec<(char, usize)>)
    requires
        forall|i: int| 0 <= i < items.len() ==> (#[trigger] items[i]).1 == 1,
    ensures
        runs_of(runs@) == coalesced(runs_of(items@)),
{
    items.into_iter().coalesce(|a, b| merge_runs(a, b)).collect()
}

/// Whether `c` is one of the symbols with a meaning of its own.
fn symbol(c: char) -> (yes: bool)
    ensures
        yes == is_symbol(c),
{
    repeatable(c) || c == TOKEN_PRINT || c == TOKEN_INPUT || c == TOKEN_LOOP_BEGIN || c
        == TOKEN_LOOP_END || c == TOKEN_DEBUG
}

/// The symbols of `src` that the lexer reads: all but its whitespace.
fn significant_chars(src: &str) -> (symbols: Vec<char>)
    ensures
        symbols@ == significant(src@),
{
    let mut symbols: Vec<char> = Vec::new();
    for c in it: src.chars()
        invariant
            it.seq() == src@,
            symbols@ == significant(src@.take(it.index())),
    {
        proof {
            let before = src@.take(it.index());
            let now = src@.take(it.index() + 1);
            reveal(Seq::filter);
            assert(now.drop_last() =~= before);
            assert(now.last() == c);
        }
        if symbol(c) || !char_is_whitespace(c) {
            symbols.push(c);
        }
    }
    assert(src@.take(src@.len() as int) =~= src@);
    symbols
}

/// Every symbol as a run of one.
fn unit_items(symbols: &Vec<char>) -> (items: Vec<(char, usize)>)
    ensures
        runs_of(items@) == unit_runs(symbols@),
        forall|i: int| 0 <= i < items.len() ==> (#[trigger] items[i]).1 == 1,
{
    let mut items: Vec<(char, usize)> = Vec::new();
    let mut i: usize = 0;
    while i < symbols.len()
        invariant
            i <= symbols.len(),
            items.len() == i,
            forall|j: int| 0 <= j < i ==> (#[trigger] items[j]) == (symbols[j], 1usize),
        decreases symbols.len() - i,
    {
        items.push((symbols[i], 1));
        i = i + 1;
    }
    assert(runs_of(items@) =~= unit_runs(symbols@));
    items
}

/// Tokenize runs to Brainfuck block, from `pos` on. A loop is read by a call
/// of its own, which ends behind the bracket that closes it; `outer` holds
/// the blocks that are open around the one to read.
#[verifier::loop_isolation(false)]
fn tokenize_block(
    runs: &Vec<(char, usize)>,
    pos: &mut usize,
    is_closure: bool,
    options: &LexerOptions,
    Ghost(outer): Ghost<Seq<Seq<Operation>>>,
) -> (result: Result<Block, LexerError>)
    requires
        *old(pos) <= runs.len(),
        is_closure <==> outer.len() > 0,
    ensures
        *old(pos) <= *final(pos) <= runs.len(),
        parse_from(runs_of(runs@).skip(*old(pos) as int), outer.push(Seq::empty()), *options) == (
        match result {
            Ok(block) => if is_closure {
                parse_from(
                    runs_of(runs@).skip(*final(pos) as int),
                    extended(outer, Operation::Loop(program_of(block@))),
                    *options,
                )
            } else {
                Ok(program_of(block@))
            },
            Err(e) => Err(e),
        }),
    decreases runs.len() - *old(pos),
{
    let ghost all = runs_of(runs@);
    let ghost start = *pos;
    let mut block: Vec<Token> = Vec::new();
    assert(program_of(block@) =~= Seq::empty());
    while *pos < runs.len()
        invariant
            start <= *pos <= runs.len(),
            parse_from(all.skip(start as int), outer.push(Seq::empty()), *options) == parse_from(
                all.skip(*pos as int),
                outer.push(program_of(block@)),
                *options,
            ),
        decreases runs.len() - *pos,
    {
        let ghost frames = outer.push(program_of(block@));
        let ghost rest = all.skip(*pos as int);
        let (ch, count) = runs[*pos];
        *pos = *pos + 1;
        assert(rest[0] == (ch, count as nat));
        assert(rest.drop_first() =~= all.skip(*pos as int));
        let token: Option<Token> = if ch == TOKEN_INCREMENT {
            Some(Token::Increment((count % 256) as u8))
        } else if ch == TOKEN_DECREMENT {
            Some(Token::Decrement((count % 256) as u8))
        } else if ch == TOKEN_NEXT {
            Some(Token::Next(count))
        } else if ch == TOKEN_PREV {
            Some(Token::Prev(count))
        } else if ch == TOKEN_PRINT {
            Some(Token::Print)
        } else if ch == TOKEN_INPUT {
            Some(Token::Input)
        } else if ch == TOKEN_LOOP_BEGIN {
            match tokenize_block(runs, pos, true, options, Ghost(frames)) {
                Ok(body) => {
                    assert(extended(frames, Operation::Loop(program_of(body@))) =~= outer.push(
                        program_of(block@).push(Operation::Loop(program_of(body@))),
                    ));
                    Some(Token::Closure(body))
                },
                Err(e) => {
                    return Err(e);
                },
            }
        } else if ch == TOKEN_LOOP_END {
            if is_closure {
                assert(closed(frames) =~= extended(outer, Operation::Loop(program_of(block@))));
                return Ok(block);
            } else {
                return Err(LexerError::SyntaxError(ch));
            }
        } else if ch == TOKEN_DEBUG && options.debug_token {
            Some(Token::Debug)
        } else if options.comments {
            None
        } else {
            return Err(LexerError::SyntaxError(ch));
        };
        match token {
            Some(token) => {
                proof {
                    lemma_program_push(block@, token);
                    assert(extended(frames, operation_of(token)) =~= outer.push(
                        program_of(block@).push(operation_of(token)),
                    ));
                }
                block.push(token);
            },
            None => {},
        }
    }
    if is_closure {
        Err(LexerError::UnclosedBlock)
    } else {
        Ok(block)
    }
}

/// Whether `token` is a decrement by one.
fn decrements_once(token: &Token) -> (yes: bool)
    ensures
        yes == (operation_of(*token) == Operation::SubValue(1)),
{
    match token {
        Token::Decrement(n) => *n == 1,
        _ => false,
    }
}

/// The offset and the factor of a transfer, where the three tokens are a
/// move, an increment and the move back.
fn transfer_of(there: &Token, add: &Token, back: &Token) -> (found: Option<(isize, u8)>)
    ensures
        match found {
            Some((offset, factor)) => transfer(
                operation_of(*there),
                operation_of(*add),
                operation_of(*back),
            ) == Some((offset as int, factor)),
            None => transfer(operation_of(*there), operation_of(*add), operation_of(*back))
                is None,
        },
{
    match (there, add, back) {
        (Token::Next(k), Token::Increment(f), Token::Prev(j)) => {
            if *k == *j && *k <= isize::MAX as usize {
                Some((*k as isize, *f))
            } else {
                None
            }
        },
        (Token::Prev(k), Token::Increment(f), Token::Next(j)) => {
            if *k == *j && *k <= isize::MAX as usize {
                Some((-(*k as isize), *f))
            } else {
                None
            }
        },
        _ => None,
    }
}

/// The token that takes the place of a loop with the body `body`.
fn rewrite(body: Block) -> (token: Token)
    ensures
        operation_of(token) == rewritten(program_of(body@)),
{
    if body.len() == 1 && decrements_once(&body[0]) {
        return Token::Pattern(PreCompiledPattern::SetToZero);
    }
    if body.len() == 4 && decrements_once(&body[0]) {
        match transfer_of(&body[1], &body[2], &body[3]) {
            Some((dest_offset, factor)) => {
                return Token::Pattern(PreCompiledPattern::Multiply { dest_offset, factor });
            },
            None => {},
        }
    }
    if body.len() == 4 && decrements_once(&body[3]) {
        match transfer_of(&body[0], &body[1], &body[2]) {
            Some((dest_offset, factor)) => {
                return Token::Pattern(PreCompiledPattern::Multiply { dest_offset, factor });
            },
            None => {},
        }
    }
    Token::Closure(body)
}

/// Optimizes a block: loops are optimized from the inside out, loops left
/// with an empty body are dropped, and loops of a known shape become
/// patterns.
#[verifier::loop_isolation(false)]
pub fn optimize_block(block: &Block) -> (better: Block)
    ensures
        program_of(better@) == optimized(program_of(block@)),
        no_empty_loop(program_of(better@)),
    decreases block,
{
    let ghost program = program_of(block@);
    let mut better: Vec<Token> = Vec::new();
    let mut i: usize = 0;
    assert(program_of(better@) =~= optimized(program.take(0)));
    while i < block.len()
        invariant
            i <= block.len(),
            program_of(better@) == optimized(program.take(i as int)),
        decreases block.len() - i,
    {
        let ghost before = program.take(i as int);
        let ghost now = program.take(i + 1);
        assert(now.drop_last() =~= before);
        assert(now.last() == operation_of(block@[i as int]));
        match &block[i] {
            Token::Closure(body) => {
                let inner = optimize_block(body);
                assert(now.last() == Operation::Loop(program_of(body@)));
                if inner.len() > 0 {
                    let token = rewrite(inner);
                    proof {
                        lemma_program_push(better@, token);
                    }
                    better.push(token);
                    assert(optimized_operation(now.last()) =~= seq![operation_of(token)]);
                } else {
                    assert(optimized_operation(now.last()) =~= Seq::empty());
                }
            },
            token => {
                let copy = token.clone();
                proof {
                    lemma_program_push(better@, copy);
                }
                better.push(copy);
                assert(optimized_operation(now.last()) =~= seq![operation_of(copy)]);
            },
        }
        assert(program_of(better@) =~= optimized(now));
        i = i + 1;
    }
    assert(program.take(i as int) =~= program);
    proof {
        lemma_optimized_no_empty_loop(program);
    }
    better
}

/// Analyzes a source that holds no whitespace: coalesces its symbols into
/// runs, parses them into a block and optimizes the block.
///
/// # Errors
///
/// [`LexerError::SyntaxError`] with the first symbol that is out of place: a
/// closing bracket outside any loop, or, unless `options.comments` is set, a
/// symbol that is no command. [`LexerError::UnclosedBlock`] if the source
/// ends inside a loop.
pub fn lex_symbols(symbols: &Vec<char>, options: &LexerOptions) -> (result: Result<
    Block,
    LexerError,
>)
    ensures
        stands_for(result, analysis(symbols@, *options)),
{
    let runs = coalesce_runs(unit_items(symbols));
    let mut pos: usize = 0;
    assert(runs_of(runs@).skip(0) =~= runs_of(runs@));
    assert(Seq::<Seq<Operation>>::empty().push(Seq::empty()) =~= seq![Seq::empty()]);
    match tokenize_block(&runs, &mut pos, false, options, Ghost(Seq::empty())) {
        Ok(block) => Ok(optimize_block(&block)),
        Err(e) => Err(e),
    }
}

/// Parse Brainfuck program, with a choice of what to do with symbols that are
/// no commands.
///
/// # Arguments
///
/// * `src` - The Brainfuck source to parse.
/// * `options` - Whether unknown symbols are comments, and whether the debug
///   symbol is a token.
///
/// # Errors
///
/// If the given source cannot be lexed, a [`LexerError`] will be returned.
pub fn lex_with(src: String, options: &LexerOptions) -> (result: Result<Block, LexerError>)
    ensures
        stands_for(result, lexed(src@, *options)),
{
    let symbols = significant_chars(src.as_str());
    lex_symbols(&symbols, options)
}

/// Parse Brainfuck program.
///
/// This function takes in a source string as an argument and parses it to a
/// block of [`Token`]s, and then optimizes it as much as possible. It is
/// strict: a symbol that is neither a command nor whitespace is an error.
///
/// # Arguments
///
/// * `src` - The Brainfuck source to parse.
///
/// # Errors
///
/// If the given source cannot be lexed, a [`LexerError`] will be returned.
pub fn lex(src: String) -> (result: Result<Block, LexerError>)
    ensures
        stands_for(result, lexed(src@, LexerOptions { comments: false, debug_token: false })),
{
    lex_with(src, &LexerOptions { comments: false, debug_token: false })
}

} // verus!
