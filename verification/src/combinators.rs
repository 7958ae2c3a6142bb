//! Combinators: functions that build a parser out of other parsers.
//!
//! Each combinator comes with a relation that says which results the parser it
//! builds can produce, in terms of what its parts can produce.

use vstd::prelude::*;
use crate::parser::{Parser, ParserOutput, meaning, lemma_function_is_parser};

verus! {

/// The input-output relation of a transform: which `b` a call on `a` can return.
pub open spec fn relation<F, A, B>(f: &F) -> spec_fn(A, B) -> bool where F: Fn(A) -> B {
    |a: A, b: B| call_ensures(*f, (a,), b)
}

/// Whether the sequence of `first` and `second` may be run on `input`: `first`
/// may be run on it, and `second` on whatever `first` can leave over.
pub open spec fn pair_requires<'a, P1, P2, R1, R2>(first: &P1, second: &P2, input: &'a str) -> bool where
    P1: Parser<'a, R1>,
    P2: Parser<'a, R2>,
 {
    &&& first.parse_requires(input)
    &&& forall|middle: &'a str, value1: R1| #[trigger]
        first.parse_ensures(input, Ok((middle, value1))) ==> second.parse_requires(middle)
}

/// Whether the sequence of `first` and `second` can succeed on `input` with
/// the two values, leaving `remainder`: `first` yields `value1` and leaves some
/// middle, on which `second` yields `value2` and leaves `remainder`.
pub open spec fn pair_succeeds<'a, R1, R2>(
    first: spec_fn(&'a str, ParserOutput<'a, R1>) -> bool,
    second: spec_fn(&'a str, ParserOutput<'a, R2>) -> bool,
    input: &'a str,
    remainder: &'a str,
    value1: R1,
    value2: R2,
) -> bool {
    exists|middle: &'a str| #[trigger]
        first(input, Ok((middle, value1))) && second(middle, Ok((remainder, value2)))
}

/// Whether the sequence of `first` and `second` can fail on `input` handing
/// back `rejected`: it is the failure of `first` on the input or, after a
/// success of `first`, the failure of `second` on what `first` left.
pub open spec fn pair_fails<'a, R1, R2>(
    first: spec_fn(&'a str, ParserOutput<'a, R1>) -> bool,
    second: spec_fn(&'a str, ParserOutput<'a, R2>) -> bool,
    input: &'a str,
    rejected: &'a str,
) -> bool {
    ||| first(input, Err(rejected))
    ||| exists|middle: &'a str, value1: R1| #[trigger]
        first(input, Ok((middle, value1))) && second(middle, Err(rejected))
}

/// The results of running `first` and then, on what it leaves over, `second`.
pub open spec fn pair_ensures<'a, R1, R2>(
    first: spec_fn(&'a str, ParserOutput<'a, R1>) -> bool,
    second: spec_fn(&'a str, ParserOutput<'a, R2>) -> bool,
    input: &'a str,
    out: ParserOutput<'a, (R1, R2)>,
) -> bool {
    match out {
        Ok((remainder, (value1, value2))) => pair_succeeds(
            first,
            second,
            input,
            remainder,
            value1,
            value2,
        ),
        Err(rejected) => pair_fails(first, second, input, rejected),
    }
}

/// Sequences two parsers: runs `parser1`, then `parser2` on the remainder.
/// The first failure ends the run and is handed on as it is.
pub fn pair<'a, P1, P2, R1, R2>(parser1: P1, parser2: P2) -> (paired: impl Parser<'a, (R1, R2)>) where
    P1: Parser<'a, R1>,
    P2: Parser<'a, R2>,

    ensures
        forall|input: &'a str|
            pair_requires(&parser1, &parser2, input) ==> #[trigger] paired.parse_requires(input),
        forall|input: &'a str, out: ParserOutput<'a, (R1, R2)>| #[trigger]
            paired.parse_ensures(input, out) ==> pair_ensures(
                meaning(&parser1),
                meaning(&parser2),
                input,
                out,
            ),
{
    let paired = move |input: &'a str| -> (out: ParserOutput<'a, (R1, R2)>)
        requires
            pair_requires(&parser1, &parser2, input),
        ensures
            pair_ensures(meaning(&parser1), meaning(&parser2), input, out),
        {
            match parser1.parse(input) {
                Ok((next_input, result1)) => {
                    assert(meaning(&parser1)(input, Ok((next_input, result1))));
                    match parser2.parse(next_input) {
                        Ok((final_input, result2)) => Ok((final_input, (result1, result2))),
                        Err(err) => Err(err),
                    }
                },
                Err(err) => Err(err),
            }
        };
    proof {
        lemma_function_is_parser(&paired);
    }
    paired
}

/// Whether the mapping of `parser` through `map_fn` may be run on `input`:
/// `parser` may be run on it, and `map_fn` may be called on every value that
/// `parser` can yield there.
pub open spec fn map_requires<'a, P, F, A, B>(parser: &P, map_fn: &F, input: &'a str) -> bool where
    P: Parser<'a, A>,
    F: Fn(A) -> B,
 {
    &&& parser.parse_requires(input)
    &&& forall|remainder: &'a str, value: A| #[trigger]
        parser.parse_ensures(input, Ok((remainder, value))) ==> call_requires(*map_fn, (value,))
}

/// Whether the mapping of `parser` through `transform` can succeed on `input`
/// with `value`, leaving `remainder`: `parser` leaves that remainder with some
/// value that `transform` turns into `value`.
pub open spec fn map_succeeds<'a, A, B>(
    parser: spec_fn(&'a str, ParserOutput<'a, A>) -> bool,
    transform: spec_fn(A, B) -> bool,
    input: &'a str,
    remainder: &'a str,
    value: B,
) -> bool {
    exists|inner: A| #[trigger] parser(input, Ok((remainder, inner))) && transform(inner, value)
}

/// The results of running `parser` and passing the value of a success through
/// `transform`. The remainder of a success and every failure are those of `parser`.
pub open spec fn map_ensures<'a, A, B>(
    parser: spec_fn(&'a str, ParserOutput<'a, A>) -> bool,
    transform: spec_fn(A, B) -> bool,
    input: &'a str,
    out: ParserOutput<'a, B>,
) -> bool {
    match out {
        Ok((remainder, value)) => map_succeeds(parser, transform, input, remainder, value),
        Err(rejected) => parser(input, Err(rejected)),
    }
}

/// Changes the value that a parser yields: runs `parser` and applies `map_fn`
/// to the value of a success. Failures and remainders pass through untouched.
pub fn map<'a, P, F, A, B>(parser: P, map_fn: F) -> (mapped: impl Parser<'a, B>) where
    P: Parser<'a, A>,
    F: Fn(A) -> B,

    ensures
        forall|input: &'a str|
            map_requires(&parser, &map_fn, input) ==> #[trigger] mapped.parse_requires(input),
        forall|input: &'a str, out: ParserOutput<'a, B>| #[trigger]
            mapped.parse_ensures(input, out) ==> map_ensures(
                meaning(&parser),
                relation(&map_fn),
                input,
                out,
            ),
{
    let mapped = move |input: &'a str| -> (out: ParserOutput<'a, B>)
        requires
            map_requires(&parser, &map_fn, input),
        ensures
            map_ensures(meaning(&parser), relation(&map_fn), input, out),
        {
            match parser.parse(input) {
                Ok((next_input, result)) => {
                    assert(meaning(&parser)(input, Ok((next_input, result))));
                    Ok((next_input, map_fn(result)))
                },
                Err(err) => Err(err),
            }
        };
    proof {
        lemma_function_is_parser(&mapped);
    }
    mapped
}

/// The results of running `first` and then `second` and keeping only the
/// value of `first`: those of their sequence, with the second value dropped.
pub open spec fn left_ensures<'a, R1, R2>(
    first: spec_fn(&'a str, ParserOutput<'a, R1>) -> bool,
    second: spec_fn(&'a str, ParserOutput<'a, R2>) -> bool,
    input: &'a str,
    out: ParserOutput<'a, R1>,
) -> bool {
    match out {
        Ok((remainder, value1)) => exists|value2: R2| #[trigger]
            pair_succeeds(first, second, input, remainder, value1, value2),
        Err(rejected) => pair_fails(first, second, input, rejected),
    }
}

/// Runs `parser1` and then `parser2`, and yields the value of `parser1` alone.
/// It is the sequence of the two, mapped through the projection to the first
/// value.
pub fn left<'a, P1, P2, R1, R2>(parser1: P1, parser2: P2) -> (projected: impl Parser<'a, R1>) where
    P1: Parser<'a, R1>,
    P2: Parser<'a, R2>,

    ensures
        forall|input: &'a str|
            pair_requires(&parser1, &parser2, input) ==> #[trigger] projected.parse_requires(input),
        forall|input: &'a str, out: ParserOutput<'a, R1>| #[trigger]
            projected.parse_ensures(input, out) ==> left_ensures(
                meaning(&parser1),
                meaning(&parser2),
                input,
                out,
            ),
{
    map(pair(parser1, parser2), |both: (R1, R2)| -> (left: R1)
        ensures
            left == both.0,
        { both.0 })
}

/// Wraps a parser without changing what it does.
pub fn identity_combinator<'a, P, O>(parser: P) -> (wrapped: impl Parser<'a, O>) where
    P: Parser<'a, O>,

    ensures
        forall|input: &'a str|
            parser.parse_requires(input) ==> #[trigger] wrapped.parse_requires(input),
        forall|input: &'a str, out: ParserOutput<'a, O>| #[trigger]
            wrapped.parse_ensures(input, out) ==> parser.parse_ensures(input, out),
{
    let wrapped = move |input: &'a str| -> (out: ParserOutput<'a, O>)
        requires
            parser.parse_requires(input),
        ensures
            parser.parse_ensures(input, out),
        { parser.parse(input) };
    proof {
        lemma_function_is_parser(&wrapped);
    }
    wrapped
}

/// Wraps a parser as a plain function, without changing what it does.
pub fn identity_combinator_2<'a, P, O>(parser: P) -> (wrapped: impl Fn(&'a str) -> ParserOutput<
    'a,
    O,
>) where P: Parser<'a, O>
    ensures
        forall|input: &'a str|
            parser.parse_requires(input) ==> #[trigger] call_requires(wrapped, (input,)),
        forall|input: &'a str, out: ParserOutput<'a, O>| #[trigger]
            call_ensures(wrapped, (input,), out) ==> parser.parse_ensures(input, out),
{
    move |input: &'a str| -> (out: ParserOutput<'a, O>)
        requires
            parser.parse_requires(input),
        ensures
            parser.parse_ensures(input, out),
        { parser.parse(input) }
}

} // verus!
