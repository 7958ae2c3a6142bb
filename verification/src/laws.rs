//! Laws of the parsers and combinators, proved over their relations.

use vstd::prelude::*;
use crate::parser::{ParserOutput, outcome_view};
use crate::parser::{Parser, meaning, lemma_function_is_parser};
use crate::combinators::{
    pair_requires, pair_ensures, pair_succeeds, pair_fails, map_ensures, left_ensures, relation,
};
use crate::primitives::{
    spec_identifier, spec_match_literal, identifier_end, is_identifier_start, is_identifier_part,
    take_first_char, identifier,
};

verus! {

/// The transform that hands its argument back.
pub open spec fn identity_relation<A>() -> spec_fn(A, A) -> bool {
    |a: A, b: A| b == a
}

/// The transform that applies `f` and then `g`.
pub open spec fn then_relation<A, B, C>(f: spec_fn(A, B) -> bool, g: spec_fn(B, C) -> bool) -> spec_fn(
    A,
    C,
) -> bool {
    |a: A, c: C| exists|b: B| #[trigger] f(a, b) && g(b, c)
}

/// The transform that keeps the first value of a pair.
pub open spec fn first_relation<R1, R2>() -> spec_fn((R1, R2), R1) -> bool {
    |both: (R1, R2), kept: R1| kept == both.0
}

/// The relation of `parser` mapped through `transform`.
pub open spec fn mapped<'a, A, B>(
    parser: spec_fn(&'a str, ParserOutput<'a, A>) -> bool,
    transform: spec_fn(A, B) -> bool,
) -> spec_fn(&'a str, ParserOutput<'a, B>) -> bool {
    |input: &'a str, out: ParserOutput<'a, B>| map_ensures(parser, transform, input, out)
}

/// The relation of `first` followed by `second`, with the value of `first` kept.
pub open spec fn kept_left<'a, R1, R2>(
    first: spec_fn(&'a str, ParserOutput<'a, R1>) -> bool,
    second: spec_fn(&'a str, ParserOutput<'a, R2>) -> bool,
) -> spec_fn(&'a str, ParserOutput<'a, R1>) -> bool {
    |input: &'a str, out: ParserOutput<'a, R1>| left_ensures(first, second, input, out)
}

/// The relation of `first` followed by `second`.
pub open spec fn paired<'a, R1, R2>(
    first: spec_fn(&'a str, ParserOutput<'a, R1>) -> bool,
    second: spec_fn(&'a str, ParserOutput<'a, R2>) -> bool,
) -> spec_fn(&'a str, ParserOutput<'a, (R1, R2)>) -> bool {
    |input: &'a str, out: ParserOutput<'a, (R1, R2)>| pair_ensures(first, second, input, out)
}

/// Mapping changes no failure: a mapped parser fails on an input exactly when
/// the parser under it fails there, and hands back the same rejected input.
pub proof fn lemma_map_preserves_failure<'a, A, B>(
    parser: spec_fn(&'a str, ParserOutput<'a, A>) -> bool,
    transform: spec_fn(A, B) -> bool,
    input: &'a str,
    rejected: &'a str,
)
    ensures
        map_ensures(parser, transform, input, Err(rejected)) <==> parser(input, Err(rejected)),
{
}

/// Mapping transforms the value of a success and leaves its remainder alone:
/// a mapped parser succeeds with a value and a remainder exactly when the
/// parser under it leaves that remainder with a value that the transform turns
/// into the mapped one.
pub proof fn lemma_map_transforms_success<'a, A, B>(
    parser: spec_fn(&'a str, ParserOutput<'a, A>) -> bool,
    transform: spec_fn(A, B) -> bool,
    input: &'a str,
    remainder: &'a str,
    value: B,
)
    ensures
        map_ensures(parser, transform, input, Ok((remainder, value))) <==> exists|inner: A| #[trigger]
            parser(input, Ok((remainder, inner))) && transform(inner, value),
{
}

/// Mapping through the identity changes nothing.
pub proof fn lemma_map_identity<'a, A>(
    parser: spec_fn(&'a str, ParserOutput<'a, A>) -> bool,
    input: &'a str,
    out: ParserOutput<'a, A>,
)
    ensures
        map_ensures(parser, identity_relation(), input, out) <==> parser(input, out),
{
    match out {
        Ok((remainder, value)) => {
            if parser(input, out) {
                assert(parser(input, Ok((remainder, value))) && identity_relation()(value, value));
            }
        },
        Err(_) => {},
    }
}

/// Mapping twice is mapping once through the composed transform.
pub proof fn lemma_map_composition<'a, A, B, C>(
    parser: spec_fn(&'a str, ParserOutput<'a, A>) -> bool,
    f: spec_fn(A, B) -> bool,
    g: spec_fn(B, C) -> bool,
    input: &'a str,
    out: ParserOutput<'a, C>,
)
    ensures
        map_ensures(mapped(parser, f), g, input, out) <==> map_ensures(
            parser,
            then_relation(f, g),
            input,
            out,
        ),
{
    match out {
        Ok((remainder, value)) => {
            if map_ensures(mapped(parser, f), g, input, out) {
                let middle: B = choose|middle: B| #[trigger]
                    mapped(parser, f)(input, Ok((remainder, middle))) && g(middle, value);
                let inner: A = choose|inner: A| #[trigger]
                    parser(input, Ok((remainder, inner))) && f(inner, middle);
                assert(f(inner, middle) && g(middle, value));
                assert(parser(input, Ok((remainder, inner))) && then_relation(f, g)(inner, value));
            }
            if map_ensures(parser, then_relation(f, g), input, out) {
                let inner: A = choose|inner: A| #[trigger]
                    parser(input, Ok((remainder, inner))) && then_relation(f, g)(inner, value);
                let middle: B = choose|middle: B| #[trigger] f(inner, middle) && g(middle, value);
                assert(parser(input, Ok((remainder, inner))) && f(inner, middle));
                assert(mapped(parser, f)(input, Ok((remainder, middle))) && g(middle, value));
            }
        },
        Err(_) => {},
    }
}

/// A parser mapped through a function that hands its argument back does what
/// the parser does: every result of the mapped parser is a result of the
/// parser itself.
pub proof fn lemma_map_through_identity_function<'a, P, F, A>(
    parser: &P,
    map_fn: &F,
    input: &'a str,
    out: ParserOutput<'a, A>,
) where P: Parser<'a, A>, F: Fn(A) -> A
    requires
        forall|a: A, b: A| #[trigger] call_ensures(*map_fn, (a,), b) ==> b == a,
        map_ensures(meaning(parser), relation(map_fn), input, out),
    ensures
        parser.parse_ensures(input, out),
{
    lemma_map_monotone(
        meaning(parser),
        meaning(parser),
        relation(map_fn),
        identity_relation(),
        input,
        out,
    );
    lemma_map_identity(meaning(parser), input, out);
}

/// A parser mapped through `f` and mapped again through `g` does what the
/// parser mapped through `f` followed by `g` does. Here `inner` stands for the
/// parser that the first mapping built.
pub proof fn lemma_map_of_mapped_parser<'a, P, M, F, G, A, B, C>(
    parser: &P,
    inner: &M,
    f: &F,
    g: &G,
    input: &'a str,
    out: ParserOutput<'a, C>,
) where P: Parser<'a, A>, M: Parser<'a, B>, F: Fn(A) -> B, G: Fn(B) -> C
    requires
        forall|i: &'a str, o: ParserOutput<'a, B>| #[trigger]
            inner.parse_ensures(i, o) ==> map_ensures(meaning(parser), relation(f), i, o),
        map_ensures(meaning(inner), relation(g), input, out),
    ensures
        map_ensures(meaning(parser), then_relation(relation(f), relation(g)), input, out),
{
    lemma_map_monotone(
        meaning(inner),
        mapped(meaning(parser), relation(f)),
        relation(g),
        relation(g),
        input,
        out,
    );
    lemma_map_composition(meaning(parser), relation(f), relation(g), input, out);
}

/// A mapped parser can only do more where the parser under it, or the
/// transform, can do more.
pub proof fn lemma_map_monotone<'a, A, B>(
    parser: spec_fn(&'a str, ParserOutput<'a, A>) -> bool,
    wider_parser: spec_fn(&'a str, ParserOutput<'a, A>) -> bool,
    transform: spec_fn(A, B) -> bool,
    wider_transform: spec_fn(A, B) -> bool,
    input: &'a str,
    out: ParserOutput<'a, B>,
)
    requires
        forall|o: ParserOutput<'a, A>| #[trigger] parser(input, o) ==> wider_parser(input, o),
        forall|a: A, b: B| #[trigger] transform(a, b) ==> wider_transform(a, b),
        map_ensures(parser, transform, input, out),
    ensures
        map_ensures(wider_parser, wider_transform, input, out),
{
    match out {
        Ok((remainder, value)) => {
            let inner: A = choose|inner: A| #[trigger]
                parser(input, Ok((remainder, inner))) && transform(inner, value);
            assert(wider_parser(input, Ok((remainder, inner))) && wider_transform(inner, value));
        },
        Err(_) => {},
    }
}

/// A sequence can only do more where its parts can do more.
pub proof fn lemma_pair_monotone<'a, R1, R2>(
    first: spec_fn(&'a str, ParserOutput<'a, R1>) -> bool,
    wider_first: spec_fn(&'a str, ParserOutput<'a, R1>) -> bool,
    second: spec_fn(&'a str, ParserOutput<'a, R2>) -> bool,
    wider_second: spec_fn(&'a str, ParserOutput<'a, R2>) -> bool,
    input: &'a str,
    out: ParserOutput<'a, (R1, R2)>,
)
    requires
        forall|o: ParserOutput<'a, R1>| #[trigger] first(input, o) ==> wider_first(input, o),
        forall|middle: &'a str, o: ParserOutput<'a, R2>| #[trigger]
            second(middle, o) ==> wider_second(middle, o),
        pair_ensures(first, second, input, out),
    ensures
        pair_ensures(wider_first, wider_second, input, out),
{
    match out {
        Ok((remainder, (value1, value2))) => {
            let middle: &'a str = choose|middle: &'a str| #[trigger]
                first(input, Ok((middle, value1))) && second(middle, Ok((remainder, value2)));
            assert(wider_first(input, Ok((middle, value1))) && wider_second(
                middle,
                Ok((remainder, value2)),
            ));
        },
        Err(rejected) => {
            if !first(input, Err(rejected)) {
                let (middle, value1): (&'a str, R1) = choose|middle: &'a str, value1: R1| #[trigger]
                    first(input, Ok((middle, value1))) && second(middle, Err(rejected));
                assert(wider_first(input, Ok((middle, value1))) && wider_second(
                    middle,
                    Err(rejected),
                ));
            }
        },
    }
}

/// A sequence stops at the first failure: where the first parser can only
/// fail on an input, the sequence can only fail there too, with a failure of
/// the first parser, whatever the second parser is.
pub proof fn lemma_pair_short_circuits<'a, R1, R2>(
    first: spec_fn(&'a str, ParserOutput<'a, R1>) -> bool,
    second: spec_fn(&'a str, ParserOutput<'a, R2>) -> bool,
    input: &'a str,
    out: ParserOutput<'a, (R1, R2)>,
)
    requires
        forall|o: ParserOutput<'a, R1>| #[trigger] first(input, o) ==> o is Err,
        pair_ensures(first, second, input, out),
    ensures
        out matches Err(rejected) && first(input, Err(rejected)),
{
    match out {
        Ok((remainder, (value1, value2))) => {
            let middle: &'a str = choose|middle: &'a str| #[trigger]
                first(input, Ok((middle, value1))) && second(middle, Ok((remainder, value2)));
            assert(false);
        },
        Err(rejected) => {
            if !first(input, Err(rejected)) {
                let (middle, value1): (&'a str, R1) = choose|middle: &'a str, value1: R1| #[trigger]
                    first(input, Ok((middle, value1))) && second(middle, Err(rejected));
                assert(false);
            }
        },
    }
}

/// Where the first parser can only fail on an input, the sequence may be run
/// on it without the second parser being fit to run on anything: the second
/// parser is not reached.
pub proof fn lemma_pair_skips_second<'a, P1, P2, R1, R2>(first: &P1, second: &P2, input: &'a str) where
    P1: Parser<'a, R1>,
    P2: Parser<'a, R2>,

    requires
        first.parse_requires(input),
        forall|o: ParserOutput<'a, R1>| #[trigger] first.parse_ensures(input, o) ==> o is Err,
    ensures
        pair_requires(first, second, input),
{
    assert forall|middle: &'a str, value1: R1| #[trigger]
        first.parse_ensures(input, Ok((middle, value1))) implies second.parse_requires(middle) by {
        let o: ParserOutput<'a, R1> = Ok((middle, value1));
        assert(o is Ok);
    }
}

/// Keeping the left value of a sequence succeeds exactly when the sequence
/// succeeds, with the first value and the remainder after both parsers, and
/// fails exactly when the sequence fails, with the same rejected input.
pub proof fn lemma_left_follows_pair<'a, R1, R2>(
    first: spec_fn(&'a str, ParserOutput<'a, R1>) -> bool,
    second: spec_fn(&'a str, ParserOutput<'a, R2>) -> bool,
    input: &'a str,
    out: ParserOutput<'a, R1>,
)
    ensures
        out matches Ok((remainder, value1)) ==> (left_ensures(first, second, input, out)
            <==> exists|value2: R2| #[trigger]
            pair_ensures(first, second, input, Ok((remainder, (value1, value2))))),
        out matches Err(rejected) ==> (left_ensures(first, second, input, out) <==> pair_ensures(
            first,
            second,
            input,
            Err(rejected),
        )),
{
    match out {
        Ok((remainder, value1)) => {
            if left_ensures(first, second, input, out) {
                let value2: R2 = choose|value2: R2| #[trigger]
                    pair_succeeds(first, second, input, remainder, value1, value2);
                assert(pair_ensures(first, second, input, Ok((remainder, (value1, value2)))));
            }
            if exists|value2: R2| #[trigger]
                pair_ensures(first, second, input, Ok((remainder, (value1, value2)))) {
                let value2: R2 = choose|value2: R2| #[trigger]
                    pair_ensures(first, second, input, Ok((remainder, (value1, value2))));
                assert(pair_succeeds(first, second, input, remainder, value1, value2));
            }
        },
        Err(_) => {},
    }
}

/// Keeping the left value of a sequence is the sequence mapped through the
/// projection to the first value.
pub proof fn lemma_left_is_mapped_pair<'a, R1, R2>(
    first: spec_fn(&'a str, ParserOutput<'a, R1>) -> bool,
    second: spec_fn(&'a str, ParserOutput<'a, R2>) -> bool,
    input: &'a str,
    out: ParserOutput<'a, R1>,
)
    ensures
        left_ensures(first, second, input, out) <==> map_ensures(
            paired(first, second),
            first_relation(),
            input,
            out,
        ),
{
    match out {
        Ok((remainder, value1)) => {
            if left_ensures(first, second, input, out) {
                let value2: R2 = choose|value2: R2| #[trigger]
                    pair_succeeds(first, second, input, remainder, value1, value2);
                let both = (value1, value2);
                assert(paired(first, second)(input, Ok((remainder, both))) && first_relation()(
                    both,
                    value1,
                ));
            }
            if map_ensures(paired(first, second), first_relation(), input, out) {
                let both: (R1, R2) = choose|both: (R1, R2)| #[trigger]
                    paired(first, second)(input, Ok((remainder, both))) && first_relation()(
                        both,
                        value1,
                    );
                assert(pair_succeeds(first, second, input, remainder, value1, both.1));
            }
        },
        Err(_) => {},
    }
}

/// A literal matches exactly the inputs that begin with it. A match leaves
/// what follows the literal, so that the literal and the remainder together are
/// the input; a mismatch hands the input back.
pub proof fn lemma_match_literal_splits_input(expected: Seq<char>, s: Seq<char>)
    ensures
        spec_match_literal(expected, s) is Ok <==> expected.is_prefix_of(s),
        spec_match_literal(expected, s) matches Ok((remainder, _)) ==> expected + remainder == s,
        spec_match_literal(expected, s) matches Err(rejected) ==> rejected == s,
{
    if expected.is_prefix_of(s) {
        assert(expected + s.skip(expected.len() as int) =~= s);
    }
}

/// The run of identifier characters that begins at `from` ends inside the
/// text, holds identifier characters only, and cannot be made longer.
pub proof fn lemma_identifier_end_is_maximal(s: Seq<char>, from: int)
    requires
        0 <= from <= s.len(),
    ensures
        from <= identifier_end(s, from) <= s.len(),
        forall|i: int| from <= i < identifier_end(s, from) ==> is_identifier_part(#[trigger] s[i]),
        identifier_end(s, from) < s.len() ==> !is_identifier_part(s[identifier_end(s, from)]),
    decreases s.len() - from,
{
    if from < s.len() && is_identifier_part(s[from]) {
        lemma_identifier_end_is_maximal(s, from + 1);
    }
}

/// What reading an identifier does on every input.
///
/// It fails, handing the input back, exactly when the input is empty or does
/// not begin with an alphabetic character. Otherwise the value is not empty,
/// begins with that character and holds identifier characters only; the value
/// followed by the remainder is the input; and the remainder does not begin
/// with an identifier character, so the value is as long as it can be.
pub proof fn lemma_identifier_reads_longest_name(s: Seq<char>)
    ensures
        spec_identifier(s) is Err <==> s.len() == 0 || !is_identifier_start(s[0]),
        spec_identifier(s) matches Err(rejected) ==> rejected == s,
        spec_identifier(s) matches Ok((remainder, value)) ==> {
            &&& value.len() >= 1
            &&& value + remainder == s
            &&& is_identifier_start(value[0])
            &&& forall|i: int| 0 <= i < value.len() ==> is_identifier_part(#[trigger] value[i])
            &&& remainder.len() > 0 ==> !is_identifier_part(remainder[0])
        },
{
    if s.len() > 0 && is_identifier_start(s[0]) {
        lemma_identifier_end_is_maximal(s, 1);
        let end = identifier_end(s, 1);
        assert(s.take(end) + s.skip(end) =~= s);
    }
}

/// Whether every remainder that `parser` leaves is a suffix of the input it
/// was run on.
pub open spec fn leaves_suffix<'a, T>(parser: spec_fn(&'a str, ParserOutput<'a, T>) -> bool) -> bool {
    forall|input: &'a str, remainder: &'a str, value: T| #[trigger]
        parser(input, Ok((remainder, value))) ==> remainder@.is_suffix_of(input@)
}

/// A sequence of parsers that leave suffixes leaves a suffix.
pub proof fn lemma_pair_leaves_suffix<'a, R1, R2>(
    first: spec_fn(&'a str, ParserOutput<'a, R1>) -> bool,
    second: spec_fn(&'a str, ParserOutput<'a, R2>) -> bool,
)
    requires
        leaves_suffix(first),
        leaves_suffix(second),
    ensures
        leaves_suffix(paired(first, second)),
{
    assert forall|input: &'a str, remainder: &'a str, both: (R1, R2)| #[trigger]
        paired(first, second)(input, Ok((remainder, both))) implies remainder@.is_suffix_of(
        input@,
    ) by {
        let middle: &'a str = choose|middle: &'a str| #[trigger]
            first(input, Ok((middle, both.0))) && second(middle, Ok((remainder, both.1)));
        assert(middle@.is_suffix_of(input@));
        assert(remainder@.is_suffix_of(middle@));
        let cut = middle@.len() - remainder@.len();
        let skipped = input@.len() - middle@.len();
        assert(remainder@ =~= input@.subrange(skipped + cut, input@.len() as int));
    }
}

/// A mapped parser leaves a suffix where the parser under it does.
pub proof fn lemma_map_leaves_suffix<'a, A, B>(
    parser: spec_fn(&'a str, ParserOutput<'a, A>) -> bool,
    transform: spec_fn(A, B) -> bool,
)
    requires
        leaves_suffix(parser),
    ensures
        leaves_suffix(mapped(parser, transform)),
{
    assert forall|input: &'a str, remainder: &'a str, value: B| #[trigger]
        mapped(parser, transform)(input, Ok((remainder, value))) implies remainder@.is_suffix_of(
        input@,
    ) by {
        let inner: A = choose|inner: A| #[trigger]
            parser(input, Ok((remainder, inner))) && transform(inner, value);
    }
}

/// Keeping the left value of a sequence of parsers that leave suffixes leaves
/// a suffix.
pub proof fn lemma_left_leaves_suffix<'a, R1, R2>(
    first: spec_fn(&'a str, ParserOutput<'a, R1>) -> bool,
    second: spec_fn(&'a str, ParserOutput<'a, R2>) -> bool,
)
    requires
        leaves_suffix(first),
        leaves_suffix(second),
    ensures
        leaves_suffix(kept_left(first, second)),
{
    lemma_pair_leaves_suffix(first, second);
    assert forall|input: &'a str, remainder: &'a str, value1: R1| #[trigger]
        kept_left(first, second)(input, Ok((remainder, value1))) implies remainder@.is_suffix_of(
        input@,
    ) by {
        let value2: R2 = choose|value2: R2| #[trigger]
            pair_succeeds(first, second, input, remainder, value1, value2);
        assert(paired(first, second)(input, Ok((remainder, (value1, value2)))));
    }
}

/// Taking the first character leaves a suffix of the input, and is a function
/// of the text.
pub proof fn lemma_take_first_char_is_regular<'a>()
    ensures
        leaves_suffix(meaning::<'a, _, char>(&take_first_char)),
        deterministic(meaning::<'a, _, char>(&take_first_char)),
{
    lemma_function_is_parser::<'a, _, char>(&take_first_char);
    let parser = meaning::<'a, _, char>(&take_first_char);
    assert forall|input: &'a str, remainder: &'a str, value: char| #[trigger]
        parser(input, Ok((remainder, value))) implies remainder@.is_suffix_of(input@) by {
        assert(remainder@ =~= input@.subrange(1, input@.len() as int));
    }
}

/// Reading an identifier leaves a suffix of the input.
pub proof fn lemma_identifier_leaves_suffix<'a>()
    ensures
        leaves_suffix(meaning::<'a, _, String>(&identifier)),
{
    lemma_function_is_parser::<'a, _, String>(&identifier);
    let parser = meaning::<'a, _, String>(&identifier);
    assert forall|input: &'a str, remainder: &'a str, value: String| #[trigger]
        parser(input, Ok((remainder, value))) implies remainder@.is_suffix_of(input@) by {
        lemma_identifier_end_is_maximal(input@, 1);
        let end = identifier_end(input@, 1);
        assert(remainder@ =~= input@.subrange(end, input@.len() as int));
    }
}

/// Whether `parser` is a function of the text it is given: on inputs that
/// read the same, the results it can produce read the same.
pub open spec fn deterministic<'a, T>(parser: spec_fn(&'a str, ParserOutput<'a, T>) -> bool) -> bool {
    forall|input1: &'a str, input2: &'a str, out1: ParserOutput<'a, T>, out2: ParserOutput<'a, T>|
        input1@ == input2@ && #[trigger] parser(input1, out1) && #[trigger] parser(input2, out2)
            ==> outcome_view(out1) == outcome_view(out2)
}

/// Whether `transform` is a function: it relates each argument to one result
/// at most.
pub open spec fn functional<A, B>(transform: spec_fn(A, B) -> bool) -> bool {
    forall|a: A, b1: B, b2: B| #[trigger] transform(a, b1) && #[trigger] transform(a, b2) ==> b1 == b2
}

/// A sequence of deterministic parsers is deterministic.
pub proof fn lemma_pair_deterministic<'a, R1, R2>(
    first: spec_fn(&'a str, ParserOutput<'a, R1>) -> bool,
    second: spec_fn(&'a str, ParserOutput<'a, R2>) -> bool,
)
    requires
        deterministic(first),
        deterministic(second),
    ensures
        deterministic(paired(first, second)),
{
    assert forall|
        input1: &'a str,
        input2: &'a str,
        out1: ParserOutput<'a, (R1, R2)>,
        out2: ParserOutput<'a, (R1, R2)>,
    |
        input1@ == input2@ && #[trigger] paired(first, second)(input1, out1) && #[trigger] paired(
            first,
            second,
        )(input2, out2) implies outcome_view(out1) == outcome_view(out2) by {
        let (first1, second1) = pair_trace(first, second, input1, out1);
        let (first2, second2) = pair_trace(first, second, input2, out2);
        assert(outcome_view(first1) == outcome_view(first2));
        if first1 is Ok {
            assert(outcome_view(second1->Some_0) == outcome_view(second2->Some_0));
        }
    }
}

/// The steps behind a result of a sequence: the result of the first parser
/// on the input and, where that was a success, the result of the second
/// parser on what was left.
pub proof fn pair_trace<'a, R1, R2>(
    first: spec_fn(&'a str, ParserOutput<'a, R1>) -> bool,
    second: spec_fn(&'a str, ParserOutput<'a, R2>) -> bool,
    input: &'a str,
    out: ParserOutput<'a, (R1, R2)>,
) -> (steps: (ParserOutput<'a, R1>, Option<ParserOutput<'a, R2>>))
    requires
        pair_ensures(first, second, input, out),
    ensures
        first(input, steps.0),
        match steps.0 {
            Ok((middle, value1)) => steps.1 matches Some(out2) && second(middle, out2) && match out2 {
                Ok((remainder, value2)) => out == Ok::<(&'a str, (R1, R2)), &'a str>(
                    (remainder, (value1, value2)),
                ),
                Err(rejected) => out == Err::<(&'a str, (R1, R2)), &'a str>(rejected),
            },
            Err(rejected) => steps.1 is None && out == Err::<(&'a str, (R1, R2)), &'a str>(
                rejected,
            ),
        },
{
    match out {
        Ok((remainder, (value1, value2))) => {
            let middle: &'a str = choose|middle: &'a str| #[trigger]
                first(input, Ok((middle, value1))) && second(middle, Ok((remainder, value2)));
            (Ok((middle, value1)), Some(Ok((remainder, value2))))
        },
        Err(rejected) => {
            if first(input, Err(rejected)) {
                (Err(rejected), None)
            } else {
                let (middle, value1): (&'a str, R1) = choose|middle: &'a str, value1: R1| #[trigger]
                    first(input, Ok((middle, value1))) && second(middle, Err(rejected));
                (Ok((middle, value1)), Some(Err(rejected)))
            }
        },
    }
}

/// A deterministic parser mapped through a function is deterministic.
pub proof fn lemma_map_deterministic<'a, A, B>(
    parser: spec_fn(&'a str, ParserOutput<'a, A>) -> bool,
    transform: spec_fn(A, B) -> bool,
)
    requires
        deterministic(parser),
        functional(transform),
    ensures
        deterministic(mapped(parser, transform)),
{
    assert forall|
        input1: &'a str,
        input2: &'a str,
        out1: ParserOutput<'a, B>,
        out2: ParserOutput<'a, B>,
    |
        input1@ == input2@ && #[trigger] mapped(parser, transform)(input1, out1) && #[trigger] mapped(
            parser,
            transform,
        )(input2, out2) implies outcome_view(out1) == outcome_view(out2) by {
        let under1 = map_trace(parser, transform, input1, out1);
        let under2 = map_trace(parser, transform, input2, out2);
        assert(outcome_view(under1) == outcome_view(under2));
    }
}

/// The step behind a result of a mapped parser: the result of the parser
/// under it.
pub proof fn map_trace<'a, A, B>(
    parser: spec_fn(&'a str, ParserOutput<'a, A>) -> bool,
    transform: spec_fn(A, B) -> bool,
    input: &'a str,
    out: ParserOutput<'a, B>,
) -> (under: ParserOutput<'a, A>)
    requires
        map_ensures(parser, transform, input, out),
    ensures
        parser(input, under),
        match under {
            Ok((remainder, inner)) => out matches Ok((mapped_remainder, value))
                && mapped_remainder == remainder && transform(inner, value),
            Err(rejected) => out == Err::<(&'a str, B), &'a str>(rejected),
        },
{
    match out {
        Ok((remainder, value)) => {
            let inner: A = choose|inner: A| #[trigger]
                parser(input, Ok((remainder, inner))) && transform(inner, value);
            Ok((remainder, inner))
        },
        Err(rejected) => Err(rejected),
    }
}

} // verus!
