//! Leaf parsers: they look at the input directly and build on no other parser.

use vstd::prelude::*;
use vstd::std_specs::iter::IteratorSpec;
use vstd::string::*;
use vstd::utf8::*;
use crate::parser::{ParserOutput, outcome_view, text_outcome_view};
use crate::text::{
    byte_length, split_at_boundary, same_text, lemma_prefix_boundary, byte_len, unicode_alphabetic,
    unicode_numeric,
};

verus! {

/// The result of taking one character off the front of `s`.
pub open spec fn spec_take_first_char(s: Seq<char>) -> Result<(Seq<char>, char), Seq<char>> {
    if s.len() > 0 {
        Ok((s.skip(1), s[0]))
    } else {
        Err(s)
    }
}

/// Consumes the first character of the input, whatever its width in bytes.
/// Fails on empty input.
pub fn take_first_char(input: &str) -> (out: ParserOutput<'_, char>)
    ensures
        outcome_view(out) == spec_take_first_char(input@),
        out matches Err(rejected) ==> rejected == input,
{
    broadcast use {axiom_spec_iter, next_postcondition};

    let first_char = input.chars().next();

    match first_char {
        Some(c) => {
            proof {
                let head = seq![c];
                let tail = input@.skip(1);
                assert(input@ =~= head + tail);
                assert(input@.take(1) =~= head);
                lemma_prefix_boundary(head, tail);
                assert(encode_utf8(head) =~= encode_scalar(c as u32)) by {
                    reveal_with_fuel(encode_utf8, 2);
                }
            }
            let (_, rest) = split_at_boundary(input, c.len_utf8());
            Ok((rest, c))
        },
        _ => Err(input),
    }
}

/// The result of matching the literal `expected` against the front of `s`.
pub open spec fn spec_match_literal(expected: Seq<char>, s: Seq<char>) -> Result<
    (Seq<char>, ()),
    Seq<char>,
> {
    if expected.is_prefix_of(s) {
        Ok((s.skip(expected.len() as int), ()))
    } else {
        Err(s)
    }
}

/// Builds a parser that accepts exactly the inputs beginning with `expected`,
/// consumes that literal and yields nothing but the remainder.
pub fn match_literal(expected: &'static str) -> (parser: impl Fn(&str) -> ParserOutput<()>)
    ensures
        forall|input: &str| call_requires(parser, (input,)),
        forall|input: &str, out: ParserOutput<()>| #[trigger]
            call_ensures(parser, (input,), out) ==> {
                &&& outcome_view(out) == spec_match_literal(expected@, input@)
                &&& out matches Err(rejected) ==> rejected == input
            },
{
    move |input: &str| -> (out: ParserOutput<()>)
        ensures
            outcome_view(out) == spec_match_literal(expected@, input@),
            out matches Err(rejected) ==> rejected == input,
    {
        proof {
            if expected@.is_prefix_of(input@) {
                let tail = input@.skip(expected@.len() as int);
                assert(input@ =~= expected@ + tail);
                assert(input@.take(expected@.len() as int) =~= expected@);
                lemma_prefix_boundary(expected@, tail);
            }
        }
        let expected_len = byte_length(expected);
        if input.is_char_boundary(expected_len) {
            let (next, rest) = split_at_boundary(input, expected_len);
            if same_text(next, expected) {
                Ok((rest, ()))
            } else {
                Err(input)
            }
        } else {
            Err(input)
        }
    }
}

/// Whether an identifier may begin with `c`: any alphabetic character.
pub open spec fn is_identifier_start(c: char) -> bool {
    unicode_alphabetic(c)
}

/// Whether an identifier may go on with `c`: any alphanumeric character, or a dash.
pub open spec fn is_identifier_part(c: char) -> bool {
    unicode_alphabetic(c) || unicode_numeric(c) || c == '-'
}

/// The index at which the run of identifier characters of `s` that begins at
/// `from` stops: the first position at or after `from` that holds no identifier
/// character, or the end of `s`.
pub open spec fn identifier_end(s: Seq<char>, from: int) -> int
    decreases s.len() - from,
{
    if 0 <= from < s.len() && is_identifier_part(s[from]) {
        identifier_end(s, from + 1)
    } else {
        from
    }
}

/// The result of reading an identifier off the front of `s`: one alphabetic
/// character followed by the longest run of identifier characters.
pub open spec fn spec_identifier(s: Seq<char>) -> Result<(Seq<char>, Seq<char>), Seq<char>> {
    if s.len() > 0 && is_identifier_start(s[0]) {
        let end = identifier_end(s, 1);
        Ok((s.skip(end), s.take(end)))
    } else {
        Err(s)
    }
}

/// The run of identifier characters that begins at `from` ends at `end` if
/// all characters up to `end` are identifier characters and the one at `end`,
/// if there is one, is not.
pub proof fn lemma_identifier_end_is_unique(s: Seq<char>, from: int, end: int)
    requires
        0 <= from <= end <= s.len(),
        forall|i: int| from <= i < end ==> is_identifier_part(#[trigger] s[i]),
        end < s.len() ==> !is_identifier_part(s[end]),
    ensures
        identifier_end(s, from) == end,
    decreases end - from,
{
    if from < end {
        lemma_identifier_end_is_unique(s, from + 1, end);
    }
}

/// Whether `out` is a result of reading, off the front of `s`, one character
/// that `starts` accepts and then characters for as long as `continues`
/// accepts them.
///
/// A success holds at least that first character, its value followed by its
/// remainder is `s`, and `continues` has turned down the first character of the
/// remainder, if there is one. A failure hands `s` back, and comes when `s` is
/// empty or `starts` has turned down its first character.
pub open spec fn reads_name<S, C>(
    starts: &S,
    continues: &C,
    s: Seq<char>,
    out: Result<(Seq<char>, Seq<char>), Seq<char>>,
) -> bool where S: Fn(char) -> bool, C: Fn(char) -> bool {
    match out {
        Ok((remainder, value)) => {
            &&& value.len() >= 1
            &&& value + remainder == s
            &&& call_ensures(*starts, (s[0],), true)
            &&& forall|i: int| 1 <= i < value.len() ==> call_ensures(*continues, (#[trigger] s[i],), true)
            &&& remainder.len() > 0 ==> call_ensures(*continues, (remainder[0],), false)
        },
        Err(rejected) => {
            &&& rejected == s
            &&& s.len() == 0 || call_ensures(*starts, (s[0],), false)
        },
    }
}

/// Reads a name off the front of the input: one character that `starts`
/// accepts, then characters for as long as `continues` accepts them. Fails,
/// consuming nothing, unless the input begins with a character that `starts`
/// accepts.
pub fn identifier_with_rules<'a, S, C>(input: &'a str, starts: S, continues: C) -> (out: ParserOutput<
    'a,
    String,
>) where S: Fn(char) -> bool, C: Fn(char) -> bool
    requires
        input@.len() > 0 ==> call_requires(starts, (input@[0],)),
        forall|i: int| 1 <= i < input@.len() ==> call_requires(continues, (#[trigger] input@[i],)),
    ensures
        reads_name(&starts, &continues, input@, text_outcome_view(out)),
        out matches Err(rejected) ==> rejected == input,
{
    broadcast use {axiom_spec_iter, next_postcondition};

    let mut matched = String::new();
    let mut chars = input.chars();

    match chars.next() {
        Some(next) if starts(next) => matched.push(next),
        _ => return Err(input),
    }

    assert(matched@ =~= input@.take(1));
    loop
        invariant_except_break
            chars.remaining() == input@.skip(matched@.len() as int),
            chars.obeys_prophetic_iter_laws(),
        invariant
            forall|i: int|
                1 <= i < input@.len() ==> call_requires(continues, (#[trigger] input@[i],)),
            1 <= matched@.len() <= input@.len(),
            matched@ == input@.take(matched@.len() as int),
            call_ensures(starts, (input@[0],), true),
            forall|i: int|
                1 <= i < matched@.len() ==> call_ensures(continues, (#[trigger] input@[i],), true),
        ensures
            matched@.len() < input@.len() ==> call_ensures(
                continues,
                (input@[matched@.len() as int],),
                false,
            ),
        decreases input@.len() - matched@.len(),
    {
        let ghost taken = matched@.len() as int;
        match chars.next() {
            Some(next) => {
                if continues(next) {
                    matched.push(next);
                    assert(matched@ =~= input@.take(taken + 1));
                    assert(chars.remaining() =~= input@.skip(taken + 1));
                } else {
                    break ;
                }
            },
            None => {
                break ;
            },
        }
    }

    let next_index = byte_length(matched.as_str());
    proof {
        let end = matched@.len() as int;
        assert(input@ =~= input@.take(end) + input@.skip(end));
        lemma_prefix_boundary(input@.take(end), input@.skip(end));
    }
    let (_, rest) = split_at_boundary(input, next_index);
    Ok((rest, matched))
}

/// Reads an identifier: a letter, then letters, digits and dashes for as long
/// as they last. Fails, consuming nothing, unless the input begins with a letter.
pub fn identifier(input: &str) -> (out: ParserOutput<'_, String>)
    ensures
        text_outcome_view(out) == spec_identifier(input@),
        out matches Err(rejected) ==> rejected == input,
{
    let starts = |c: char| -> (accepted: bool)
        ensures
            accepted == is_identifier_start(c),
        { c.is_alphabetic() };
    let continues = |c: char| -> (accepted: bool)
        ensures
            accepted == is_identifier_part(c),
        { c.is_alphanumeric() || c == '-' };
    let out = identifier_with_rules(input, starts, continues);
    proof {
        if let Ok((remainder, value)) = text_outcome_view(out) {
            lemma_identifier_end_is_unique(input@, 1, value.len() as int);
            assert(remainder =~= input@.skip(value.len() as int));
            assert(value =~= input@.take(value.len() as int));
        }
    }
    out
}

} // verus!
