use parser_combinators::primitives::{
    identifier, identifier_with_rules, match_literal, take_first_char,
};

#[test]
fn test_match_literal() {
    let parse_opening_angle_bracket = match_literal("<");

    assert_eq!(Ok(("", ())), parse_opening_angle_bracket("<"));
    assert_eq!(Ok(("name>", ())), parse_opening_angle_bracket("<name>"));
    assert_eq!(Err("foo"), parse_opening_angle_bracket("foo"));
}

#[test]
fn test_identifier() {
    assert_eq!(Err(""), identifier(""));
    assert_eq!(Err("!not-identifier"), identifier("!not-identifier"));
    assert_eq!(
        Ok(("", String::from("is-identifier"))),
        identifier("is-identifier")
    );
    assert_eq!(Ok(("😎", String::from("name-"))), identifier("name-😎"));
}

#[test]
fn take_first_char_takes_one_ascii_character() {
    assert_eq!(Ok(("ello", 'h')), take_first_char("hello"));
    assert_eq!(Ok(("", 'x')), take_first_char("x"));
}

#[test]
fn take_first_char_fails_on_empty_input() {
    assert_eq!(Err(""), take_first_char(""));
}

#[test]
fn take_first_char_takes_a_whole_multi_byte_character() {
    assert_eq!(Ok(("abc", '😎')), take_first_char("😎abc"));
    assert_eq!(Ok(("ß", 'é')), take_first_char("éß"));
    assert_eq!(Ok(("", '京')), take_first_char("京"));
}

#[test]
fn match_literal_is_case_sensitive() {
    let parse = match_literal("Name");
    assert_eq!(Ok(("=x", ())), parse("Name=x"));
    assert_eq!(Err("name=x"), parse("name=x"));
}

#[test]
fn match_literal_fails_on_input_shorter_than_the_literal() {
    let parse = match_literal("</name>");
    assert_eq!(Err("</na"), parse("</na"));
    assert_eq!(Err(""), parse(""));
}

#[test]
fn match_literal_with_empty_literal_consumes_nothing() {
    let parse = match_literal("");
    assert_eq!(Ok(("abc", ())), parse("abc"));
    assert_eq!(Ok(("", ())), parse(""));
}

#[test]
fn match_literal_handles_multi_byte_text() {
    let parse = match_literal("é");
    assert_eq!(Ok(("t", ())), parse("ét"));
    assert_eq!(Err("et"), parse("et"));

    // The literal is one byte long and the input begins with a two-byte
    // character: the literal's length falls inside that character.
    let parse_a = match_literal("a");
    assert_eq!(Err("é"), parse_a("é"));

    // Same length in bytes, different text.
    let parse_smile = match_literal("😎");
    assert_eq!(Err("abcd"), parse_smile("abcd"));
    assert_eq!(Ok(("!", ())), parse_smile("😎!"));
}

#[test]
fn match_literal_remainder_follows_the_literal() {
    for (literal, input) in [("<", "<name>"), ("ab", "abab"), ("", "x"), ("né", "née")] {
        let parse = match_literal(literal);
        let (remainder, ()) = parse(input).unwrap();
        assert_eq!(input, format!("{}{}", literal, remainder));
        assert_eq!(remainder, &input[literal.len()..]);
    }
}

#[test]
fn match_literal_succeeds_exactly_on_prefixes() {
    let literals = ["", "a", "ab", "<", "é", "name"];
    let inputs = ["", "a", "ab", "abc", "ba", "<name>", "ét", "e", "name", "nam"];
    for literal in literals {
        let parse = match_literal(literal);
        for input in inputs {
            match parse(input) {
                Ok((remainder, ())) => {
                    assert!(input.starts_with(literal));
                    assert_eq!(remainder, &input[literal.len()..]);
                }
                Err(rejected) => {
                    assert!(!input.starts_with(literal));
                    assert_eq!(rejected, input);
                }
            }
        }
    }
}

#[test]
fn identifier_needs_a_leading_letter() {
    assert_eq!(Err("1abc"), identifier("1abc"));
    assert_eq!(Err("-abc"), identifier("-abc"));
    assert_eq!(Err(" abc"), identifier(" abc"));
    assert_eq!(Err("😎"), identifier("😎"));
    assert_eq!(Ok(("", String::from("a"))), identifier("a"));
}

#[test]
fn identifier_goes_on_with_letters_digits_and_dashes() {
    assert_eq!(Ok(("", String::from("n1ame-"))), identifier("n1ame-"));
    assert_eq!(Ok(("", String::from("na-2me-"))), identifier("na-2me-"));
    assert_eq!(Ok((">", String::from("a1"))), identifier("a1>"));
    assert_eq!(Ok(("_b", String::from("a"))), identifier("a_b"));
    assert_eq!(Ok((" rest", String::from("first"))), identifier("first rest"));
    assert_eq!(Ok(("/>", String::from("hello"))), identifier("hello/>"));
}

#[test]
fn identifier_accepts_letters_and_digits_beyond_ascii() {
    assert_eq!(Ok(("=1", String::from("größe"))), identifier("größe=1"));
    assert_eq!(Ok((" x", String::from("京都"))), identifier("京都 x"));
    assert_eq!(Ok(("!", String::from("a٣"))), identifier("a٣!"));
}

#[test]
fn identifier_value_and_remainder_make_up_the_input() {
    for input in ["is-identifier", "name-😎", "a b", "x", "größe=1", "a--1<b"] {
        let (remainder, value) = identifier(input).unwrap();
        assert!(!value.is_empty());
        assert_eq!(input, format!("{}{}", value, remainder));
        assert!(value.chars().next().unwrap().is_alphabetic());
        assert!(value.chars().all(|c| c.is_alphanumeric() || c == '-'));
        if let Some(next) = remainder.chars().next() {
            assert!(!(next.is_alphanumeric() || next == '-'));
        }
    }
}

#[test]
fn identifier_fails_exactly_without_a_leading_letter() {
    for input in ["", "!not-identifier", "9", "-", "éa", "a", "_a", "Z-", "٣a"] {
        let leading_letter = input.chars().next().map_or(false, |c| c.is_alphabetic());
        match identifier(input) {
            Ok(_) => assert!(leading_letter),
            Err(rejected) => {
                assert!(!leading_letter);
                assert_eq!(rejected, input);
            }
        }
    }
}

#[test]
fn identifier_with_rules_follows_the_given_rules() {
    let starts = |c: char| c == 'a';
    let continues = |c: char| c == 'b' || c == 'c';
    assert_eq!(
        Ok(("dcb", String::from("abcb"))),
        identifier_with_rules("abcbdcb", starts, continues)
    );
    assert_eq!(
        Ok(("a", String::from("a"))),
        identifier_with_rules("aa", starts, continues)
    );
    assert_eq!(
        Ok(("", String::from("abb"))),
        identifier_with_rules("abb", starts, continues)
    );
    assert_eq!(Err("bab"), identifier_with_rules("bab", starts, continues));
    assert_eq!(Err(""), identifier_with_rules("", starts, continues));
}

#[test]
fn identifier_with_rules_keeps_multi_byte_characters_whole() {
    let starts = |c: char| c == '😎';
    let continues = |c: char| !c.is_ascii();
    assert_eq!(
        Ok(("x京", String::from("😎éß"))),
        identifier_with_rules("😎éßx京", starts, continues)
    );
    assert_eq!(Err("é😎"), identifier_with_rules("é😎", starts, continues));
}
