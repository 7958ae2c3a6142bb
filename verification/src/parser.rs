//! The parser capability and the shape of a parse result.

use vstd::prelude::*;

verus! {

/// What a parser hands back: on success the unconsumed remainder together with
/// the parsed value, on failure the input at the point where matching stopped.
pub type ParserOutput<'a, Output> = Result<(&'a str, Output), &'a str>;

/// A parse result with its string slices read as character sequences.
pub open spec fn outcome_view<'a, Output>(out: ParserOutput<'a, Output>) -> Result<
    (Seq<char>, Output),
    Seq<char>,
> {
    match out {
        Ok((remainder, value)) => Ok((remainder@, value)),
        Err(rejected) => Err(rejected@),
    }
}

/// A parse result whose value is text, with every string read as a character sequence.
pub open spec fn text_outcome_view<'a>(out: ParserOutput<'a, String>) -> Result<
    (Seq<char>, Seq<char>),
    Seq<char>,
> {
    match out {
        Ok((remainder, value)) => Ok((remainder@, value@)),
        Err(rejected) => Err(rejected@),
    }
}

/// The capability of parsing: anything that can be run on an input and either
/// succeeds with a value and the remaining input, or fails.
///
/// A parser is described by two predicates. `parse_requires` says on which
/// inputs it may be run; `parse_ensures` relates an input to every result that
/// running it on that input can produce.
pub trait Parser<'a, Output> {
    /// Whether the parser may be run on `input`.
    spec fn parse_requires(&self, input: &'a str) -> bool;

    /// Whether `out` is a result that the parser can produce on `input`.
    spec fn parse_ensures(&self, input: &'a str, out: ParserOutput<'a, Output>) -> bool;

    /// Runs the parser on `input`.
    fn parse(&self, input: &'a str) -> (out: ParserOutput<'a, Output>)
        requires
            self.parse_requires(input),
        ensures
            self.parse_ensures(input, out),
    ;
}

/// Every function from an input to a parse result is a parser: running it is
/// calling it.
impl<'a, F, Output> Parser<'a, Output> for F where F: Fn(&'a str) -> ParserOutput<'a, Output> {
    open spec fn parse_requires(&self, input: &'a str) -> bool {
        call_requires(*self, (input,))
    }

    open spec fn parse_ensures(&self, input: &'a str, out: ParserOutput<'a, Output>) -> bool {
        call_ensures(*self, (input,), out)
    }

    fn parse(&self, input: &'a str) -> (out: ParserOutput<'a, Output>) {
        self(input)
    }
}

/// What a parser means: the relation between inputs and the results it can
/// produce on them.
pub open spec fn meaning<'a, P, Output>(parser: &P) -> spec_fn(
    &'a str,
    ParserOutput<'a, Output>,
) -> bool where P: Parser<'a, Output> {
    |input: &'a str, out: ParserOutput<'a, Output>| parser.parse_ensures(input, out)
}

/// A function used as a parser has exactly the contract it has as a function:
/// it may be run where it may be called, and produces what a call produces.
pub proof fn lemma_function_is_parser<'a, F, Output>(f: &F) where
    F: Fn(&'a str) -> ParserOutput<'a, Output>,

    ensures
        forall|input: &'a str| #[trigger]
            f.parse_requires(input) <==> call_requires(*f, (input,)),
        forall|input: &'a str, out: ParserOutput<'a, Output>| #[trigger]
            f.parse_ensures(input, out) <==> call_ensures(*f, (input,), out),
{
}

} // verus!
