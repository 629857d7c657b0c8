//! Facts about lexical analysis.

use crate::error::LexerError;
use crate::lexer::{
    analysis, closed, coalesced, coalesced_from, extended, is_repeatable, is_significant,
    is_symbol, lexed, merged, no_empty_loop, no_empty_loop_in, operation_for, optimized,
    optimized_operation, parse_from, parsed, significant, unit_runs, LexerOptions, Run,
    TOKEN_DECREMENT, TOKEN_INCREMENT, TOKEN_LOOP_BEGIN, TOKEN_LOOP_END,
};
use crate::machine::{applied, run, Outcome, State};
use crate::machine_proofs::{lemma_applied_wf, lemma_run_loop_free, loop_free, performed};
use crate::token::Operation;
use vstd::prelude::*;

verus! {

/// No loop with an empty body is left in an optimized program.
pub proof fn lemma_optimized_no_empty_loop(program: Seq<Operation>)
    ensures
        no_empty_loop(optimized(program)),
    decreases program,
{
    if program.len() > 0 {
        lemma_optimized_no_empty_loop(program.drop_last());
        let front = optimized(program.drop_last());
        let back = optimized_operation(program.last());
        match program.last() {
            Operation::Loop(body) => {
                lemma_optimized_no_empty_loop(body);
            },
            _ => {},
        }
        assert forall|i: int| 0 <= i < (front + back).len() implies no_empty_loop_in(
            #[trigger] (front + back)[i],
        ) by {
            if i < front.len() {
                assert((front + back)[i] == front[i]);
            } else {
                assert((front + back)[i] == back[i - front.len()]);
            }
        }
    }
}

/// The source is kept whole where every character of it is a symbol: no
/// symbol is dropped as whitespace.
pub proof fn lemma_significant_symbols(src: Seq<char>)
    requires
        forall|i: int| 0 <= i < src.len() ==> is_symbol(#[trigger] src[i]),
    ensures
        significant(src) == src,
    decreases src.len(),
{
    reveal(Seq::filter);
    if src.len() > 0 {
        lemma_significant_symbols(src.drop_last());
        assert(src.drop_last().push(src.last()) =~= src);
    }
}

/// `count` times the symbol `c`.
pub open spec fn repeated(c: char, count: nat) -> Seq<char> {
    Seq::new(count, |i: int| c)
}

/// A run that is held takes in any number of further symbols of its kind.
proof fn lemma_coalesced_from_repeated(held: Run, count: nat)
    requires
        is_repeatable(held.0),
    ensures
        coalesced_from(held, unit_runs(repeated(held.0, count))) == seq![
            (held.0, held.1 + count),
        ],
    decreases count,
{
    let rest = unit_runs(repeated(held.0, count));
    if count > 0 {
        assert(rest.drop_first() =~= unit_runs(repeated(held.0, (count - 1) as nat)));
        lemma_coalesced_from_repeated((held.0, held.1 + 1), (count - 1) as nat);
    }
}

/// A repeatable symbol that stands `count` times in a row becomes one run of
/// `count`.
pub proof fn lemma_coalesced_repeated(c: char, count: nat)
    requires
        is_repeatable(c),
        count > 0,
    ensures
        coalesced(unit_runs(repeated(c, count))) == seq![(c, count)],
{
    let runs = unit_runs(repeated(c, count));
    assert(runs.drop_first() =~= unit_runs(repeated(c, (count - 1) as nat)));
    lemma_coalesced_from_repeated((c, 1), (count - 1) as nat);
}

/// Counts of increments wrap at 256. A source of `count` increments in a row
/// is lexed to one addition of `count` modulo 256, so `count + 256`
/// increments are lexed to what `count` increments are. The addition halts
/// on any fuel and leaves a cell that held `v` at `v + count` modulo 256: a
/// multiple of 256 increments leaves the state as it was.
pub proof fn lemma_increments_wrap(count: nat, options: LexerOptions, s: State, fuel: nat)
    requires
        s.wf(),
        count > 0,
    ensures
        lexed(repeated(TOKEN_INCREMENT, count), options) == Ok::<Seq<Operation>, LexerError>(
            seq![Operation::AddValue((count % 256) as u8)],
        ),
        lexed(repeated(TOKEN_INCREMENT, count + 256), options) == lexed(
            repeated(TOKEN_INCREMENT, count),
            options,
        ),
        run(seq![Operation::AddValue((count % 256) as u8)], s, fuel) == (Outcome::Halted {
            state: s.with_cell(((s.cell() + count) % 256) as u8),
            spent: 0,
        }),
        count % 256 == 0 ==> s.with_cell(((s.cell() + count) % 256) as u8) == s,
{
    lemma_lexed_single_run(TOKEN_INCREMENT, count, options);
    lemma_lexed_single_run(TOKEN_INCREMENT, count + 256, options);
    assert((count + 256) % 256 == count % 256);
    lemma_addition_runs(((count % 256) as u8), s, fuel);
    let sum = (s.cell() + count) % 256;
    assert(crate::machine::raised(s.cell(), (count % 256) as int) == sum) by {
        vstd::arithmetic::div_mod::lemma_add_mod_noop_right(s.cell() as int, count as int, 256);
    }
    if count % 256 == 0 {
        assert(sum == s.cell());
        assert(s.with_cell(s.cell()).cells =~= s.cells);
    }
}

/// An addition by itself halts on any fuel, spends none and raises the
/// current cell.
proof fn lemma_addition_runs(count: u8, s: State, fuel: nat)
    ensures
        run(seq![Operation::AddValue(count)], s, fuel) == (Outcome::Halted {
            state: s.with_cell(crate::machine::raised(s.cell(), count as int)),
            spent: 0,
        }),
{
    let op = Operation::AddValue(count);
    assert(loop_free(seq![op]));
    lemma_run_loop_free(seq![op], s, fuel);
    assert(performed(seq![op], s) == applied(op, s)) by {
        reveal_with_fuel(performed, 2);
    }
}

/// A source that is one repeatable symbol `count` times in a row is lexed to
/// the one operation that the run stands for.
pub proof fn lemma_lexed_single_run(c: char, count: nat, options: LexerOptions)
    requires
        is_repeatable(c),
        count > 0,
    ensures
        lexed(repeated(c, count), options) == Ok::<Seq<Operation>, LexerError>(
            seq![operation_for((c, count), options)->0],
        ),
{
    let src = repeated(c, count);
    lemma_significant_symbols(src);
    lemma_coalesced_repeated(c, count);
    let runs = seq![(c, count)];
    let op = operation_for((c, count), options)->0;
    let frames = seq![Seq::<Operation>::empty()];
    assert(runs.drop_first().len() == 0);
    assert(extended(frames, op) =~= seq![seq![op]]);
    assert(parse_from(runs.drop_first(), extended(frames, op), options) == Ok::<
        Seq<Operation>,
        LexerError,
    >(seq![op]));
    assert(parsed(runs, options) == Ok::<Seq<Operation>, LexerError>(seq![op]));
    let program = seq![op];
    assert(program.drop_last() =~= Seq::<Operation>::empty());
    assert(optimized(program.drop_last()) =~= Seq::<Operation>::empty());
    assert(optimized_operation(op) == seq![op]);
    assert(optimized(program) =~= program);
}

/// Whether the parser takes a run of `c` in its stride: `c` is no bracket,
/// and it is a command or comments are allowed.
pub open spec fn is_plain(c: char, options: LexerOptions) -> bool {
    &&& c != TOKEN_LOOP_BEGIN
    &&& c != TOKEN_LOOP_END
    &&& (options.comments || operation_for((c, 1), options) is Some)
}

/// The operations that one run adds to a block: its operation, or nothing
/// where the symbol is none.
pub open spec fn read(run: Run, options: LexerOptions) -> Seq<Operation> {
    match operation_for(run, options) {
        Some(op) => seq![op],
        None => Seq::empty(),
    }
}

/// The operations that `runs` add to a block, in their order.
pub open spec fn contributions(runs: Seq<Run>, options: LexerOptions) -> Seq<Operation>
    decreases runs.len(),
{
    if runs.len() == 0 {
        Seq::empty()
    } else {
        read(runs[0], options) + contributions(runs.drop_first(), options)
    }
}

/// Every symbol of `src` as an operation of its own.
pub open spec fn one_by_one(src: Seq<char>, options: LexerOptions) -> Seq<Operation> {
    contributions(unit_runs(src), options)
}

/// Runs without brackets that the parser accepts go into the innermost open
/// block and leave the other blocks as they are.
pub proof fn lemma_parse_plain(runs: Seq<Run>, frames: Seq<Seq<Operation>>, options: LexerOptions)
    requires
        frames.len() > 0,
        forall|i: int| 0 <= i < runs.len() ==> is_plain((#[trigger] runs[i]).0, options),
    ensures
        parse_from(runs, frames, options) == parse_from(
            Seq::empty(),
            frames.drop_last().push(frames.last() + contributions(runs, options)),
            options,
        ),
    decreases runs.len(),
{
    if runs.len() == 0 {
        assert(frames.drop_last().push(frames.last() + contributions(runs, options)) =~= frames);
    } else {
        let rest = runs.drop_first();
        assert(is_plain(runs[0].0, options));
        assert forall|i: int| 0 <= i < rest.len() implies is_plain(
            (#[trigger] rest[i]).0,
            options,
        ) by {
            assert(rest[i] == runs[i + 1]);
        }
        match operation_for(runs[0], options) {
            Some(op) => {
                let next = extended(frames, op);
                lemma_parse_plain(rest, next, options);
                assert(next.drop_last() =~= frames.drop_last());
                assert(next.last() + contributions(rest, options) =~= frames.last()
                    + contributions(runs, options));
            },
            None => {
                lemma_parse_plain(rest, frames, options);
                assert(contributions(runs, options) =~= contributions(rest, options));
            },
        }
    }
}

/// Coalescing brings in no symbol: what holds of the symbol held and of every
/// symbol that follows holds of the symbol of every run that comes out.
pub proof fn lemma_coalesced_from_symbols(held: Run, rest: Seq<Run>, holds: spec_fn(char) -> bool)
    requires
        holds(held.0),
        forall|i: int| 0 <= i < rest.len() ==> holds((#[trigger] rest[i]).0),
    ensures
        forall|i: int|
            0 <= i < coalesced_from(held, rest).len() ==> holds(
                (#[trigger] coalesced_from(held, rest)[i]).0,
            ),
        coalesced_from(held, rest).len() > 0,
        coalesced_from(held, rest)[0].0 == held.0,
    decreases rest.len(),
{
    if rest.len() > 0 {
        let tail = rest.drop_first();
        assert(holds(rest[0].0));
        assert forall|i: int| 0 <= i < tail.len() implies holds((#[trigger] tail[i]).0) by {
            assert(tail[i] == rest[i + 1]);
        }
        match merged(held, rest[0]) {
            Some(joined) => {
                lemma_coalesced_from_symbols(joined, tail, holds);
            },
            None => {
                lemma_coalesced_from_symbols(rest[0], tail, holds);
                let out = coalesced_from(held, rest);
                let inner = coalesced_from(rest[0], tail);
                assert(out == seq![held] + inner);
                assert forall|i: int| 0 <= i < out.len() implies holds((#[trigger] out[i]).0) by {
                    if i > 0 {
                        assert(out[i] == inner[i - 1]);
                    }
                }
            },
        }
    }
}

/// As [`lemma_coalesced_from_symbols`], for a whole sequence of runs.
pub proof fn lemma_coalesced_symbols(runs: Seq<Run>, holds: spec_fn(char) -> bool)
    requires
        forall|i: int| 0 <= i < runs.len() ==> holds((#[trigger] runs[i]).0),
    ensures
        forall|i: int|
            0 <= i < coalesced(runs).len() ==> holds((#[trigger] coalesced(runs)[i]).0),
{
    if runs.len() > 0 {
        let tail = runs.drop_first();
        assert(holds(runs[0].0));
        assert forall|i: int| 0 <= i < tail.len() implies holds((#[trigger] tail[i]).0) by {
            assert(tail[i] == runs[i + 1]);
        }
        lemma_coalesced_from_symbols(runs[0], tail, holds);
    }
}

/// The operations of two programs without loops in a row are performed one
/// program after the other.
pub proof fn lemma_performed_concat(first: Seq<Operation>, second: Seq<Operation>, s: State)
    ensures
        performed(first + second, s) == performed(second, performed(first, s)),
    decreases first.len(),
{
    if first.len() == 0 {
        assert(first + second =~= second);
    } else {
        assert((first + second).drop_first() =~= first.drop_first() + second);
        lemma_performed_concat(first.drop_first(), second, applied(first[0], s));
    }
}

/// A program without loops is left as it is by the optimizer.
pub proof fn lemma_optimized_loop_free(program: Seq<Operation>)
    requires
        loop_free(program),
    ensures
        optimized(program) == program,
    decreases program.len(),
{
    if program.len() > 0 {
        let front = program.drop_last();
        assert forall|i: int| 0 <= i < front.len() implies !(#[trigger] front[i] is Loop) by {
            assert(front[i] == program[i]);
        }
        lemma_optimized_loop_free(front);
        assert(!(program[program.len() - 1] is Loop));
        assert(optimized_operation(program.last()) == seq![program.last()]);
        assert(front + seq![program.last()] =~= program);
    }
}

/// What two runs of one repeatable symbol do in a row is what the run of
/// their sum does.
pub proof fn lemma_merged_effect(a: Run, b: Run, options: LexerOptions, s: State)
    requires
        s.wf(),
        merged(a, b) is Some,
    ensures
        applied(
            operation_for(merged(a, b)->0, options)->0,
            s,
        ) == applied(operation_for(b, options)->0, applied(operation_for(a, options)->0, s)),
{
    if a.0 == TOKEN_INCREMENT {
        lemma_added_twice(s, (a.1 % 256) as u8, (b.1 % 256) as u8, ((a.1 + b.1) % 256) as u8);
    } else if a.0 == TOKEN_DECREMENT {
        lemma_subtracted_twice(
            s,
            (a.1 % 256) as u8,
            (b.1 % 256) as u8,
            ((a.1 + b.1) % 256) as u8,
        );
    } else {
        lemma_moved_twice(s, a.1, b.1);
    }
}

/// Two additions in a row are one addition of the sum modulo 256.
proof fn lemma_added_twice(s: State, first: u8, second: u8, sum: u8)
    requires
        s.wf(),
        sum == (first + second) % 256,
    ensures
        applied(Operation::AddValue(sum), s) == applied(
            Operation::AddValue(second),
            applied(Operation::AddValue(first), s),
        ),
{
    let at = s.ptr as int;
    let once = s.with_cell(crate::machine::raised(s.cell(), first as int));
    let twice = once.with_cell(crate::machine::raised(once.cell(), second as int));
    let both = s.with_cell(crate::machine::raised(s.cell(), sum as int));
    crate::machine_proofs::lemma_raised_sum(s.cell(), first as int, second as int, sum as int);
    assert(once.cell() == crate::machine::raised(s.cell(), first as int));
    assert(twice.cells =~= both.cells);
    assert(twice == both);
}

/// Two subtractions in a row are one subtraction of the sum modulo 256.
proof fn lemma_subtracted_twice(s: State, first: u8, second: u8, sum: u8)
    requires
        s.wf(),
        sum == (first + second) % 256,
    ensures
        applied(Operation::SubValue(sum), s) == applied(
            Operation::SubValue(second),
            applied(Operation::SubValue(first), s),
        ),
{
    let once = s.with_cell(crate::machine::raised(s.cell(), -(first as int)));
    let twice = once.with_cell(crate::machine::raised(once.cell(), -(second as int)));
    let both = s.with_cell(crate::machine::raised(s.cell(), -(sum as int)));
    crate::machine_proofs::lemma_raised_sum(
        s.cell(),
        -(first as int),
        -(second as int),
        -(sum as int),
    );
    assert(once.cell() == crate::machine::raised(s.cell(), -(first as int)));
    assert(twice.cells =~= both.cells);
    assert(twice == both);
}

/// Two moves in one direction are one move by the sum.
proof fn lemma_moved_twice(s: State, first: nat, second: nat)
    requires
        s.wf(),
    ensures
        applied(Operation::MoveForward(first + second), s) == applied(
            Operation::MoveForward(second),
            applied(Operation::MoveForward(first), s),
        ),
        applied(Operation::MoveBackward(first + second), s) == applied(
            Operation::MoveBackward(second),
            applied(Operation::MoveBackward(first), s),
        ),
{
    crate::machine_proofs::lemma_wrapped_sum(s.ptr as int, first as int, second as int);
}

/// Coalescing keeps the effect: the runs that come out do to a state what the
/// run held and the runs behind it do one after the other.
pub proof fn lemma_coalesced_from_effect(held: Run, rest: Seq<Run>, options: LexerOptions, s: State)
    requires
        s.wf(),
        is_repeatable(held.0),
        forall|i: int| 0 <= i < rest.len() ==> is_repeatable((#[trigger] rest[i]).0),
    ensures
        performed(contributions(coalesced_from(held, rest), options), s) == performed(
            contributions(rest, options),
            applied(operation_for(held, options)->0, s),
        ),
    decreases rest.len(),
{
    let op = operation_for(held, options)->0;
    if rest.len() == 0 {
        let out = seq![held];
        assert(out.drop_first() =~= Seq::<Run>::empty());
        assert(contributions(out.drop_first(), options) =~= Seq::<Operation>::empty());
        assert(contributions(out, options) =~= seq![op]);
        assert(contributions(rest, options) =~= Seq::<Operation>::empty());
        reveal_with_fuel(performed, 2);
    } else {
        let tail = rest.drop_first();
        assert(is_repeatable(rest[0].0));
        assert forall|i: int| 0 <= i < tail.len() implies is_repeatable((#[trigger] tail[i]).0) by {
            assert(tail[i] == rest[i + 1]);
        }
        let next = operation_for(rest[0], options)->0;
        let after_held = applied(op, s);
        lemma_applied_wf(op, s);
        // the runs behind `held`, one by one
        assert(contributions(rest, options) =~= seq![next] + contributions(tail, options));
        lemma_performed_concat(seq![next], contributions(tail, options), after_held);
        assert(performed(seq![next], after_held) == applied(next, after_held)) by {
            reveal_with_fuel(performed, 2);
        }
        match merged(held, rest[0]) {
            Some(joined) => {
                lemma_coalesced_from_effect(joined, tail, options, s);
                lemma_merged_effect(held, rest[0], options, s);
            },
            None => {
                let inner = coalesced_from(rest[0], tail);
                let out = seq![held] + inner;
                assert(out.drop_first() =~= inner);
                assert(contributions(out, options) =~= seq![op] + contributions(inner, options));
                lemma_performed_concat(seq![op], contributions(inner, options), s);
                assert(performed(seq![op], s) == after_held) by {
                    reveal_with_fuel(performed, 2);
                }
                lemma_coalesced_from_effect(rest[0], tail, options, after_held);
            },
        }
    }
}

/// The operations of runs of repeatable symbols hold no loop.
pub proof fn lemma_contributions_loop_free(runs: Seq<Run>, options: LexerOptions)
    requires
        forall|i: int| 0 <= i < runs.len() ==> is_repeatable((#[trigger] runs[i]).0),
    ensures
        loop_free(contributions(runs, options)),
    decreases runs.len(),
{
    if runs.len() > 0 {
        let tail = runs.drop_first();
        assert(is_repeatable(runs[0].0));
        assert forall|i: int| 0 <= i < tail.len() implies is_repeatable((#[trigger] tail[i]).0) by {
            assert(tail[i] == runs[i + 1]);
        }
        lemma_contributions_loop_free(tail, options);
        let all = contributions(runs, options);
        let behind = contributions(tail, options);
        assert forall|i: int| 0 <= i < all.len() implies !(#[trigger] all[i] is Loop) by {
            if i > 0 {
                assert(all[i] == behind[i - 1]);
            }
        }
    }
}

/// Run-length coalescing changes nothing that a program does. A source made
/// of the four repeatable symbols alone is lexed without error, and the
/// program runs on any fuel, from any state, to the state that the symbols
/// reach when each is performed by itself, one by one.
pub proof fn lemma_coalescing_keeps_effect(
    src: Seq<char>,
    options: LexerOptions,
    s: State,
    fuel: nat,
)
    requires
        s.wf(),
        forall|i: int| 0 <= i < src.len() ==> is_repeatable(#[trigger] src[i]),
    ensures
        lexed(src, options) is Ok,
        run(lexed(src, options)->Ok_0, s, fuel) == run(one_by_one(src, options), s, fuel),
        run(lexed(src, options)->Ok_0, s, fuel) == (Outcome::Halted {
            state: performed(one_by_one(src, options), s),
            spent: 0,
        }),
{
    lemma_significant_symbols(src);
    let units = unit_runs(src);
    let runs = coalesced(units);
    let holds = |c: char| is_repeatable(c);
    assert forall|i: int| 0 <= i < units.len() implies holds((#[trigger] units[i]).0) by {
        assert(units[i].0 == src[i]);
    }
    lemma_coalesced_symbols(units, holds);
    assert forall|i: int| 0 <= i < runs.len() implies is_plain((#[trigger] runs[i]).0, options) by {
        assert(holds(runs[i].0));
    }
    assert forall|i: int| 0 <= i < runs.len() implies is_repeatable((#[trigger] runs[i]).0) by {
        assert(holds(runs[i].0));
    }
    assert forall|i: int| 0 <= i < units.len() implies is_repeatable((#[trigger] units[i]).0) by {
        assert(holds(units[i].0));
    }
    let frames = seq![Seq::<Operation>::empty()];
    lemma_parse_plain(runs, frames, options);
    let program = contributions(runs, options);
    assert(frames.drop_last().push(frames.last() + program) =~= seq![program]);
    assert(parsed(runs, options) == Ok::<Seq<Operation>, LexerError>(program));
    lemma_contributions_loop_free(runs, options);
    lemma_contributions_loop_free(units, options);
    lemma_optimized_loop_free(program);
    lemma_run_loop_free(program, s, fuel);
    lemma_run_loop_free(one_by_one(src, options), s, fuel);
    if units.len() > 0 {
        let tail = units.drop_first();
        assert forall|i: int| 0 <= i < tail.len() implies is_repeatable((#[trigger] tail[i]).0) by {
            assert(tail[i] == units[i + 1]);
        }
        lemma_coalesced_from_effect(units[0], tail, options, s);
        let op = operation_for(units[0], options)->0;
        assert(contributions(units, options) =~= seq![op] + contributions(tail, options));
        lemma_performed_concat(seq![op], contributions(tail, options), s);
        assert(performed(seq![op], s) == applied(op, s)) by {
            reveal_with_fuel(performed, 2);
        }
    }
}

/// The open blocks after the parser has read a run without brackets that it
/// accepts.
pub open spec fn taken(frames: Seq<Seq<Operation>>, run: Run, options: LexerOptions) -> Seq<
    Seq<Operation>,
> {
    match operation_for(run, options) {
        Some(op) => extended(frames, op),
        None => frames,
    }
}

/// Whitespace apart, a source is what is left of its parts; a symbol is
/// never dropped, and what is left of characters that the parser accepts is
/// accepted.
proof fn lemma_significant_parts(before: Seq<char>, c: char, behind: Seq<char>)
    requires
        is_symbol(c),
    ensures
        significant(before + seq![c] + behind) == significant(before) + seq![c] + significant(
            behind,
        ),
{
    let keep = |c: char| is_significant(c);
    Seq::filter_distributes_over_add(before + seq![c], behind, keep);
    Seq::filter_distributes_over_add(before, seq![c], keep);
    assert(seq![c].filter(keep) =~= seq![c]) by {
        reveal(Seq::filter);
        assert(seq![c].drop_last() =~= Seq::<char>::empty());
        assert(seq![c].last() == c);
    }
}

/// What holds of every character of a source holds of every character that
/// is left without the whitespace.
proof fn lemma_significant_keeps(src: Seq<char>, holds: spec_fn(char) -> bool)
    requires
        forall|i: int| 0 <= i < src.len() ==> holds(#[trigger] src[i]),
    ensures
        forall|i: int| 0 <= i < significant(src).len() ==> holds(#[trigger] significant(src)[i]),
    decreases src.len(),
{
    reveal(Seq::filter);
    let kept = significant(src);
    if src.len() > 0 {
        let front = src.drop_last();
        assert forall|i: int| 0 <= i < front.len() implies holds(#[trigger] front[i]) by {
            assert(front[i] == src[i]);
        }
        lemma_significant_keeps(front, holds);
        let sub = significant(front);
        assert(holds(src[src.len() - 1]));
        assert(kept == if is_significant(src.last()) {
            sub.push(src.last())
        } else {
            sub
        });
        assert forall|i: int| 0 <= i < kept.len() implies holds(#[trigger] kept[i]) by {
            if i < sub.len() {
                assert(kept[i] == sub[i]);
            }
        }
    } else {
        assert(kept.len() == 0);
    }
}

/// The error that ends the reading of `symbols` with `depth` loops open, if
/// one does. The symbols are read from left to right: a closing bracket
/// while no loop is open is a syntax error, and so is a symbol that the
/// parser does not accept; a loop still open at the end is an unclosed block.
pub open spec fn first_error(depth: nat, symbols: Seq<char>, options: LexerOptions) -> Option<
    LexerError,
>
    decreases symbols.len(),
{
    if symbols.len() == 0 {
        if depth == 0 {
            None
        } else {
            Some(LexerError::UnclosedBlock)
        }
    } else if symbols[0] == TOKEN_LOOP_BEGIN {
        first_error(depth + 1, symbols.drop_first(), options)
    } else if symbols[0] == TOKEN_LOOP_END {
        if depth == 0 {
            Some(LexerError::SyntaxError(TOKEN_LOOP_END))
        } else {
            first_error((depth - 1) as nat, symbols.drop_first(), options)
        }
    } else if is_plain(symbols[0], options) {
        first_error(depth, symbols.drop_first(), options)
    } else {
        Some(LexerError::SyntaxError(symbols[0]))
    }
}

/// Whether `result` fails with `error`, or succeeds where there is none.
pub open spec fn fails_with(
    result: Result<Seq<Operation>, LexerError>,
    error: Option<LexerError>,
) -> bool {
    match error {
        Some(e) => result == Err::<Seq<Operation>, LexerError>(e),
        None => result is Ok,
    }
}

/// The parse of coalesced symbols fails with their first error: that of the
/// symbol held and the symbols behind it, read with the loops open that
/// `frames` holds.
proof fn lemma_parse_first_error(
    held: Run,
    symbols: Seq<char>,
    frames: Seq<Seq<Operation>>,
    options: LexerOptions,
)
    requires
        frames.len() >= 1,
    ensures
        fails_with(
            parse_from(coalesced_from(held, unit_runs(symbols)), frames, options),
            first_error((frames.len() - 1) as nat, seq![held.0] + symbols, options),
        ),
    decreases symbols.len(),
{
    let all = seq![held.0] + symbols;
    let depth = (frames.len() - 1) as nat;
    let rest = unit_runs(symbols);
    let out = coalesced_from(held, rest);
    assert(all[0] == held.0);
    assert(all.drop_first() =~= symbols);
    let opens = held.0 == TOKEN_LOOP_BEGIN;
    let closes = held.0 == TOKEN_LOOP_END;
    let stops = closes && depth == 0 || !opens && !closes && !is_plain(held.0, options);
    // the blocks open behind `held`, where it is no error
    let next = if opens {
        frames.push(Seq::empty())
    } else if closes {
        closed(frames)
    } else {
        taken(frames, held, options)
    };
    let deeper: nat = if opens {
        depth + 1
    } else if closes {
        (depth - 1) as nat
    } else {
        depth
    };
    let error = first_error(depth, all, options);
    if stops {
        // `held` is not repeatable, so it is given out as it is
        assert(out[0] == held) by {
            if symbols.len() > 0 {
                assert(merged(held, rest[0]) is None);
                assert(out == seq![held] + coalesced_from(rest[0], rest.drop_first()));
            }
        }
        assert(error == Some(LexerError::SyntaxError(held.0)));
        assert(parse_from(out, frames, options) == Err::<Seq<Operation>, LexerError>(
            LexerError::SyntaxError(held.0),
        ));
    } else {
        assert(error == first_error(deeper, symbols, options));
        assert(next.len() == deeper + 1);
        if symbols.len() == 0 {
            assert(out[0] == held);
            assert(out.drop_first() =~= Seq::<Run>::empty());
            assert(parse_from(out, frames, options) == parse_from(
                Seq::<Run>::empty(),
                next,
                options,
            ));
        } else {
            let tail = rest.drop_first();
            let behind = symbols.drop_first();
            assert(rest[0] == (symbols[0], 1nat));
            assert(tail =~= unit_runs(behind));
            match merged(held, rest[0]) {
                Some(joined) => {
                    assert(is_plain(held.0, options));
                    assert(symbols[0] == held.0);
                    assert(first_error(depth, symbols, options) == first_error(
                        depth,
                        behind,
                        options,
                    ));
                    lemma_parse_first_error(joined, behind, frames, options);
                    let again = seq![joined.0] + behind;
                    assert(again[0] == held.0);
                    assert(again.drop_first() =~= behind);
                    assert(first_error(depth, again, options) == first_error(
                        depth,
                        behind,
                        options,
                    ));
                },
                None => {
                    let inner = coalesced_from(rest[0], tail);
                    assert(out == seq![held] + inner);
                    assert(out[0] == held);
                    assert(out.drop_first() =~= inner);
                    lemma_parse_first_error(rest[0], behind, next, options);
                    assert((seq![rest[0].0] + behind) =~= symbols);
                    assert(parse_from(out, frames, options) == parse_from(inner, next, options));
                },
            }
        }
    }
}

/// The analysis fails with the first error of the symbols and succeeds where
/// there is none: the first symbol that is out of place is a syntax error,
/// and a source that ends inside a loop is an unclosed block.
pub proof fn lemma_analysis_first_error(symbols: Seq<char>, options: LexerOptions)
    ensures
        fails_with(analysis(symbols, options), first_error(0, symbols, options)),
{
    if symbols.len() > 0 {
        let units = unit_runs(symbols);
        assert(units[0] == (symbols[0], 1nat));
        assert(units.drop_first() =~= unit_runs(symbols.drop_first()));
        assert((seq![symbols[0]] + symbols.drop_first()) =~= symbols);
        lemma_parse_first_error(
            units[0],
            symbols.drop_first(),
            seq![Seq::<Operation>::empty()],
            options,
        );
    } else {
        assert(coalesced(unit_runs(symbols)) =~= Seq::<Run>::empty());
    }
}

/// Symbols that the parser accepts, none of them a bracket, bring no error
/// and leave the open loops open.
proof fn lemma_first_error_behind_plain(
    depth: nat,
    plain: Seq<char>,
    behind: Seq<char>,
    options: LexerOptions,
)
    requires
        forall|i: int| 0 <= i < plain.len() ==> is_plain(#[trigger] plain[i], options),
    ensures
        first_error(depth, plain + behind, options) == first_error(depth, behind, options),
    decreases plain.len(),
{
    if plain.len() == 0 {
        assert(plain + behind =~= behind);
    } else {
        let rest = plain.drop_first();
        assert((plain + behind)[0] == plain[0]);
        assert(is_plain(plain[0], options));
        assert((plain + behind).drop_first() =~= rest + behind);
        assert forall|i: int| 0 <= i < rest.len() implies is_plain(#[trigger] rest[i], options) by {
            assert(rest[i] == plain[i + 1]);
        }
        lemma_first_error_behind_plain(depth, rest, behind, options);
    }
}

/// An unmatched closing bracket is a syntax error. Where a closing bracket
/// stands in the source with no opening bracket before it, and the lexer
/// accepts every character before it, lexing fails with the bracket as the
/// offending symbol, whatever stands behind it.
pub proof fn lemma_unmatched_close(before: Seq<char>, behind: Seq<char>, options: LexerOptions)
    requires
        forall|i: int| 0 <= i < before.len() ==> is_plain(#[trigger] before[i], options),
    ensures
        lexed(before + seq![TOKEN_LOOP_END] + behind, options) == Err::<
            Seq<Operation>,
            LexerError,
        >(LexerError::SyntaxError(TOKEN_LOOP_END)),
{
    lemma_significant_parts(before, TOKEN_LOOP_END, behind);
    let plain = significant(before);
    let rear = seq![TOKEN_LOOP_END] + significant(behind);
    lemma_significant_keeps(before, |c: char| is_plain(c, options));
    assert(plain + seq![TOKEN_LOOP_END] + significant(behind) =~= plain + rear);
    lemma_first_error_behind_plain(0, plain, rear, options);
    assert(rear[0] == TOKEN_LOOP_END);
    lemma_analysis_first_error(plain + rear, options);
}

/// Whether `c` opens a loop or is taken by the parser in its stride.
pub open spec fn is_open_or_plain(c: char, options: LexerOptions) -> bool {
    c == TOKEN_LOOP_BEGIN || is_plain(c, options)
}

/// Where no bracket closes a loop, a loop that is open stays open to the end.
proof fn lemma_first_error_unclosed(depth: nat, symbols: Seq<char>, options: LexerOptions)
    requires
        forall|i: int| 0 <= i < symbols.len() ==> is_open_or_plain(#[trigger] symbols[i], options),
        depth > 0 || symbols.contains(TOKEN_LOOP_BEGIN),
    ensures
        first_error(depth, symbols, options) == Some(LexerError::UnclosedBlock),
    decreases symbols.len(),
{
    if symbols.len() > 0 {
        let behind = symbols.drop_first();
        assert(is_open_or_plain(symbols[0], options));
        assert forall|i: int| 0 <= i < behind.len() implies is_open_or_plain(
            #[trigger] behind[i],
            options,
        ) by {
            assert(behind[i] == symbols[i + 1]);
        }
        if symbols[0] == TOKEN_LOOP_BEGIN {
            lemma_first_error_unclosed(depth + 1, behind, options);
        } else {
            if depth == 0 {
                let at = choose|i: int| 0 <= i < symbols.len() && symbols[i] == TOKEN_LOOP_BEGIN;
                assert(behind[at - 1] == TOKEN_LOOP_BEGIN);
            }
            lemma_first_error_unclosed(depth, behind, options);
        }
    }
}

/// A loop that is never closed is an unclosed block. Where the source holds
/// an opening bracket and no closing bracket, and the lexer accepts every
/// other character of it, lexing fails with [`LexerError::UnclosedBlock`].
pub proof fn lemma_unclosed_open(src: Seq<char>, options: LexerOptions)
    requires
        src.contains(TOKEN_LOOP_BEGIN),
        forall|i: int| 0 <= i < src.len() ==> is_open_or_plain(#[trigger] src[i], options),
    ensures
        lexed(src, options) == Err::<Seq<Operation>, LexerError>(LexerError::UnclosedBlock),
{
    let symbols = significant(src);
    lemma_significant_keeps(src, |c: char| is_open_or_plain(c, options));
    let at = choose|i: int| 0 <= i < src.len() && src[i] == TOKEN_LOOP_BEGIN;
    src.lemma_filter_contains(|c: char| is_significant(c), at);
    lemma_first_error_unclosed(0, symbols, options);
    lemma_analysis_first_error(symbols, options);
}

} // verus!
