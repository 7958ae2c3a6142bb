use parser_combinators::combinators::{identity_combinator, identity_combinator_2, left, pair};
use parser_combinators::parser::{Parser, ParserOutput};
use parser_combinators::primitives::{identifier, match_literal, take_first_char};

fn never_run(_input: &str) -> ParserOutput<'_, ()> {
    panic!("the second parser was run after the first had failed")
}

fn length(text: String) -> usize {
    text.len()
}

fn double(n: usize) -> usize {
    n * 2
}

#[test]
fn test_pair() {
    let tag_opener = pair(match_literal("<"), identifier);

    assert_eq!(
        Ok(("/>", ((), "hello".to_string()))),
        tag_opener.parse("<hello/>")
    );
    assert_eq!(Ok(("", ((), "id-1".to_string()))), tag_opener.parse("<id-1"));
    assert_eq!(Err("+hello/>"), tag_opener.parse("+hello/>"));
    assert_eq!(Err("!hello/>"), tag_opener.parse("<!hello/>"));
}

#[test]
fn left_keeps_the_first_value() {
    let left_c = left(take_first_char, take_first_char);
    assert_eq!(Ok(("llo", 'h')), left_c.parse("hello"));
}

#[test]
fn left_fails_where_either_parser_fails() {
    let left_c = left(take_first_char, take_first_char);
    assert_eq!(Err(""), left_c.parse(""));
    // The first parser consumed "h"; the failure is that of the second parser,
    // on what the first one left.
    assert_eq!(Err(""), left_c.parse("h"));

    let name_then_close = left(identifier, match_literal(">"));
    assert_eq!(Ok(("rest", "name".to_string())), name_then_close.parse("name>rest"));
    assert_eq!(Err("<rest"), name_then_close.parse("name<rest"));
    assert_eq!(Err("1name>"), name_then_close.parse("1name>"));
}

#[test]
fn left_agrees_with_pair() {
    for input in ["<a>", "<abc", "abc", "<", "", "<1", "<é-1 x"] {
        let paired = pair(match_literal("<"), identifier);
        let kept = left(match_literal("<"), identifier);
        match (paired.parse(input), kept.parse(input)) {
            (Ok((pair_rest, (first, _second))), Ok((left_rest, value))) => {
                assert_eq!(pair_rest, left_rest);
                assert_eq!(first, value);
            }
            (Err(pair_rejected), Err(left_rejected)) => {
                assert_eq!(pair_rejected, left_rejected)
            }
            (paired_out, left_out) => panic!("{:?} against {:?}", paired_out, left_out),
        }
    }
}

#[test]
fn pair_yields_both_values_in_order() {
    let two = pair(take_first_char, take_first_char);
    assert_eq!(Ok(("c", ('a', 'b'))), two.parse("abc"));
    assert_eq!(Ok(("", ('é', '😎'))), two.parse("é😎"));
}

#[test]
fn pair_does_not_run_the_second_parser_after_a_failure() {
    let guarded = pair(match_literal("<"), never_run);
    assert_eq!(Err("foo"), guarded.parse("foo"));
    assert_eq!(Err(""), guarded.parse(""));

    let first_alone = match_literal("<");
    for input in ["foo", "", ">", "a<"] {
        assert_eq!(first_alone(input).map(|(rest, ())| rest), guarded.parse(input).map(|(rest, _)| rest));
    }
}

#[test]
fn pair_does_not_go_back_after_the_second_parser_fails() {
    let two = pair(match_literal("<"), match_literal("a"));
    // The failure is reported where the second parser stood, after "<".
    assert_eq!(Err("b"), two.parse("<b"));
    assert_eq!(Err(""), two.parse("<"));
}

#[test]
fn pair_nests() {
    let three = pair(pair(match_literal("<"), identifier), match_literal(">"));
    assert_eq!(
        Ok(("text", (((), "p".to_string()), ()))),
        three.parse("<p>text")
    );
    assert_eq!(Err("/>"), three.parse("<p/>"));
}

#[test]
fn map_transforms_the_value_and_keeps_the_remainder() {
    let name_length = parser_combinators::combinators::map(identifier, length);
    assert_eq!(Ok(("=1", 4)), name_length.parse("name=1"));
    assert_eq!(Ok(("", 7)), name_length.parse("größe"));
}

#[test]
fn map_hands_failures_on_unchanged() {
    let name_length = parser_combinators::combinators::map(identifier, length);
    assert_eq!(Err("!name"), name_length.parse("!name"));
    assert_eq!(Err(""), name_length.parse(""));
    for input in ["", "1", "a", "-a", "ab cd"] {
        let mapped = parser_combinators::combinators::map(identifier, length);
        assert_eq!(identifier(input).is_err(), mapped.parse(input).is_err());
        if let Err(rejected) = identifier(input) {
            assert_eq!(Err(rejected), mapped.parse(input));
        }
    }
}

#[test]
fn map_with_the_identity_changes_nothing() {
    for input in ["name rest", "", "1", "x", "a-b-c>"] {
        let same = parser_combinators::combinators::map(identifier, |value: String| value);
        assert_eq!(identifier(input), same.parse(input));
    }
}

#[test]
fn map_twice_is_map_of_the_composition() {
    for input in ["name rest", "", "1", "x", "a-b-c>"] {
        let twice = parser_combinators::combinators::map(
            parser_combinators::combinators::map(identifier, length),
            double,
        );
        let once =
            parser_combinators::combinators::map(identifier, |value: String| double(length(value)));
        assert_eq!(once.parse(input), twice.parse(input));
    }
    let twice = parser_combinators::combinators::map(
        parser_combinators::combinators::map(identifier, length),
        double,
    );
    assert_eq!(Ok((" rest", 8)), twice.parse("name rest"));
}

#[test]
fn identity_combinator_changes_nothing() {
    let wrapped = identity_combinator(take_first_char);
    assert_eq!(Ok(("ello", 'h')), wrapped.parse("hello"));
    assert_eq!(Err(""), wrapped.parse(""));

    let wrapped_name = identity_combinator(identifier);
    for input in ["name rest", "", "1", "x", "name-😎"] {
        assert_eq!(identifier(input), wrapped_name.parse(input));
    }
}

#[test]
fn identity_combinator_2_gives_a_function() {
    let wrapped = identity_combinator_2(take_first_char);
    assert_eq!(Ok(("ello", 'h')), wrapped("hello"));
    assert_eq!(Err(""), wrapped(""));

    let wrapped_pair = identity_combinator_2(pair(match_literal("<"), identifier));
    assert_eq!(Ok((">", ((), "a".to_string()))), wrapped_pair("<a>"));
    assert_eq!(Err("a>"), wrapped_pair("a>"));
}

#[test]
fn functions_and_closures_are_parsers() {
    assert_eq!(Ok(("bc", 'a')), take_first_char.parse("abc"));
    assert_eq!(Ok(("", "abc".to_string())), identifier.parse("abc"));
    let literal = match_literal("ab");
    assert_eq!(Ok(("c", ())), literal.parse("abc"));
    let always_fails = |input: &'static str| -> ParserOutput<'static, char> { Err(input) };
    assert_eq!(Err("abc"), always_fails.parse("abc"));
}

#[test]
fn parsers_can_be_run_again() {
    let tag_opener = pair(match_literal("<"), identifier);
    for _ in 0..3 {
        assert_eq!(Ok((">", ((), "a".to_string()))), tag_opener.parse("<a>"));
        assert_eq!(Err("a>"), tag_opener.parse("a>"));
    }
}

#[test]
fn remainders_are_suffixes_of_the_input() {
    for input in ["<name>rest", "<a", "<é-1>", "<name", "x", ""] {
        let tag = left(pair(match_literal("<"), identifier), match_literal(">"));
        if let Ok((remainder, _)) = tag.parse(input) {
            assert!(input.ends_with(remainder));
        }
    }
}
