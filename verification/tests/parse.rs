use agent_replay::command::Output;
use agent_replay::parse::{action_of, parse_line, parse_output, read, ParseError};
use agent_replay::problem::Input;
use agent_replay::replay::command_count;
use agent_replay::text::{chars_of, is_whitespace, next_token, parse_i64};

fn instance() -> Input {
    Input { N: 0, M: 0, s: (0, 0), ps: vec![], walls: vec![], fs: vec![(0, 0); 5000] }
}

fn parsed(text: &str) -> Result<Vec<(char, i64, i64)>, ParseError> {
    parse_output(&instance(), text).map(|o: Output| o.out)
}

fn chars(s: &str) -> Vec<char> {
    s.chars().collect()
}

#[test]
fn characters_of_a_string() {
    assert_eq!(chars_of("A 1\u{3000}é"), vec!['A', ' ', '1', '\u{3000}', 'é']);
    assert_eq!(chars_of(""), Vec::<char>::new());
}

#[test]
fn white_space_is_what_the_standard_library_says() {
    for u in 0..0x11_0000u32 {
        if let Some(c) = char::from_u32(u) {
            assert_eq!(is_whitespace(c), c.is_whitespace(), "U+{:04X}", u);
        }
    }
}

#[test]
fn tokens_of_a_line() {
    let line = chars("  A\t-12   7 ");
    assert_eq!(next_token(&line, 0), Some((2, 3)));
    assert_eq!(next_token(&line, 3), Some((4, 7)));
    assert_eq!(next_token(&line, 7), Some((10, 11)));
    assert_eq!(next_token(&line, 11), None);
    assert_eq!(next_token(&line, 12), None);
    assert_eq!(next_token(&chars(""), 0), None);
    // A search that begins inside a token finds the rest of it.
    assert_eq!(next_token(&line, 5), Some((5, 7)));
}

#[test]
fn integer_literals() {
    assert_eq!(parse_i64(&chars("0")), Some(0));
    assert_eq!(parse_i64(&chars("-0")), Some(0));
    assert_eq!(parse_i64(&chars("+17")), Some(17));
    assert_eq!(parse_i64(&chars("-17")), Some(-17));
    assert_eq!(parse_i64(&chars("000123")), Some(123));
    assert_eq!(parse_i64(&chars("9223372036854775807")), Some(i64::MAX));
    assert_eq!(parse_i64(&chars("-9223372036854775808")), Some(i64::MIN));
    assert_eq!(parse_i64(&chars("9223372036854775808")), None);
    assert_eq!(parse_i64(&chars("-9223372036854775809")), None);
    assert_eq!(parse_i64(&chars("99999999999999999999999999999999999999999999")), None);
    assert_eq!(parse_i64(&chars("0000000000000000000000000000000000000000000001")), Some(1));
    assert_eq!(parse_i64(&chars("")), None);
    assert_eq!(parse_i64(&chars("+")), None);
    assert_eq!(parse_i64(&chars("-")), None);
    assert_eq!(parse_i64(&chars("--1")), None);
    assert_eq!(parse_i64(&chars("1.5")), None);
    assert_eq!(parse_i64(&chars("12a")), None);
    assert_eq!(parse_i64(&chars("١٢")), None);
}

#[test]
fn integer_literals_agree_with_the_standard_library() {
    for s in ["5", "-5", "+5", "05", "", "+", "-", "1e3", " 1", "1 ", "0x10", "9223372036854775807",
        "9223372036854775808", "-9223372036854775808", "-9223372036854775809", "+-1", "1_000"]
    {
        assert_eq!(parse_i64(&chars(s)), s.parse::<i64>().ok(), "{:?}", s);
    }
}

#[test]
fn read_integer() {
    assert_eq!(read(Some(&chars("100000")), -100000, 100000), Ok(100000));
    assert_eq!(read(Some(&chars("-100000")), -100000, 100000), Ok(-100000));
    assert_eq!(read(Some(&chars("100001")), -100000, 100000), Err(ParseError::OutOfRange));
    assert_eq!(read(Some(&chars("-100001")), -100000, 100000), Err(ParseError::OutOfRange));
    assert_eq!(read(Some(&chars("x")), -100000, 100000), Err(ParseError::ParseError));
    assert_eq!(
        read(Some(&chars("99999999999999999999")), -100000, 100000),
        Err(ParseError::ParseError)
    );
    assert_eq!(read(None, -100000, 100000), Err(ParseError::UnexpectedEnd));
}

#[test]
fn letter_of_a_command() {
    assert_eq!(action_of(&chars("A")), Some('A'));
    assert_eq!(action_of(&chars("S")), Some('S'));
    assert_eq!(action_of(&chars("B")), None);
    assert_eq!(action_of(&chars("Z")), None);
    assert_eq!(action_of(&chars("a")), None);
    assert_eq!(action_of(&chars("s")), None);
    assert_eq!(action_of(&chars("#")), None);
    assert_eq!(action_of(&chars("AS")), None);
    assert_eq!(action_of(&chars("AA")), None);
    assert_eq!(action_of(&chars("")), None);
}

#[test]
fn one_line() {
    assert_eq!(parse_line(&chars("A 3 -4")), Ok(Some(('A', 3, -4))));
    assert_eq!(parse_line(&chars("  S\t100000 0  ")), Ok(Some(('S', 100000, 0))));
    assert_eq!(parse_line(&chars("")), Ok(None));
    assert_eq!(parse_line(&chars("# A 1")), Ok(None));
    assert_eq!(parse_line(&chars("#")), Ok(None));
    // What follows the third token is not read.
    assert_eq!(parse_line(&chars("A 1 2 three")), Ok(Some(('A', 1, 2))));
}

#[test]
fn valid_solution() {
    assert_eq!(
        parsed("A 500 0\nS 1 0\nA -300 -400\nS -100000 0\n"),
        Ok(vec![('A', 500, 0), ('S', 1, 0), ('A', -300, -400), ('S', -100000, 0)])
    );
}

#[test]
fn empty_solution() {
    assert_eq!(parsed(""), Ok(vec![]));
    assert_eq!(parsed("\n"), Ok(vec![]));
    assert_eq!(parsed("# nothing\n"), Ok(vec![]));
}

#[test]
fn final_line_feed_is_optional() {
    assert_eq!(parsed("A 1 2"), Ok(vec![('A', 1, 2)]));
    assert_eq!(parsed("A 1 2\n"), Ok(vec![('A', 1, 2)]));
    assert_eq!(parsed("A 1 2\nA 3 4"), Ok(vec![('A', 1, 2), ('A', 3, 4)]));
}

#[test]
fn comments_and_empty_lines_are_passed_over() {
    assert_eq!(
        parsed("# first\nA 1 2\n\n#A 9 9\nS 0 1\n\n"),
        Ok(vec![('A', 1, 2), ('S', 0, 1)])
    );
}

#[test]
fn carriage_return_before_line_feed_ends_the_line() {
    assert_eq!(parsed("A 1 2\r\n\r\nS 0 1\r\n"), Ok(vec![('A', 1, 2), ('S', 0, 1)]));
    // A carriage return alone is white space on its line.
    assert_eq!(parsed("A 1 2\r"), Ok(vec![('A', 1, 2)]));
    assert_eq!(parsed("A 1 2\n\r"), Err(ParseError::UnexpectedEnd));
}

#[test]
fn line_of_white_space_has_too_few_tokens() {
    assert_eq!(parsed("A 1 2\n   \nA 3 4\n"), Err(ParseError::UnexpectedEnd));
}

#[test]
fn comment_sign_after_white_space_is_no_comment() {
    assert_eq!(parsed(" # 1 2\n"), Err(ParseError::InvalidAction));
    assert_eq!(parsed(" # A 1 2\n"), Err(ParseError::ParseError));
}

#[test]
fn too_few_tokens() {
    assert_eq!(parsed("A\n"), Err(ParseError::UnexpectedEnd));
    assert_eq!(parsed("A 1\n"), Err(ParseError::UnexpectedEnd));
    assert_eq!(parsed("S 1 \n"), Err(ParseError::UnexpectedEnd));
}

#[test]
fn tokens_that_are_no_values() {
    assert_eq!(parsed("A x 1\n"), Err(ParseError::ParseError));
    assert_eq!(parsed("A 1 y\n"), Err(ParseError::ParseError));
    assert_eq!(parsed("A 1.0 2\n"), Err(ParseError::ParseError));
    assert_eq!(parsed("A 99999999999999999999 2\n"), Err(ParseError::ParseError));
}

#[test]
fn values_out_of_range() {
    assert_eq!(parsed("A 100001 0\n"), Err(ParseError::OutOfRange));
    assert_eq!(parsed("A 0 -100001\n"), Err(ParseError::OutOfRange));
    assert_eq!(parsed("S 100001 0\n"), Err(ParseError::OutOfRange));
    assert_eq!(parsed("S -100001 -100001\n"), Err(ParseError::OutOfRange));
}

#[test]
fn acceleration_too_long() {
    assert_eq!(parsed("A 500 0\n"), Ok(vec![('A', 500, 0)]));
    assert_eq!(parsed("A 300 400\n"), Ok(vec![('A', 300, 400)]));
    assert_eq!(parsed("A 0 0\n"), Ok(vec![('A', 0, 0)]));
    assert_eq!(parsed("A 500 1\n"), Err(ParseError::OutOfRange));
    assert_eq!(parsed("A 301 400\n"), Err(ParseError::OutOfRange));
    assert_eq!(parsed("A -501 0\n"), Err(ParseError::OutOfRange));
}

#[test]
fn sensing_direction_too_long_or_zero() {
    assert_eq!(parsed("S 100000 0\n"), Ok(vec![('S', 100000, 0)]));
    assert_eq!(parsed("S 60000 80000\n"), Ok(vec![('S', 60000, 80000)]));
    assert_eq!(parsed("S 100000 1\n"), Err(ParseError::OutOfRange));
    assert_eq!(parsed("S 60001 80000\n"), Err(ParseError::OutOfRange));
    assert_eq!(parsed("S 0 0\n"), Err(ParseError::OutOfRange));
}

#[test]
fn letters_that_are_no_action() {
    assert_eq!(parsed("B 1 2\n"), Err(ParseError::InvalidAction));
    assert_eq!(parsed("Y 0 0\n"), Err(ParseError::InvalidAction));
    assert_eq!(parsed("Z 0 0\n"), Err(ParseError::InvalidAction));
    assert_eq!(parsed("a 0 0\n"), Err(ParseError::InvalidAction));
    assert_eq!(parsed("s 1 0\n"), Err(ParseError::InvalidAction));
    assert_eq!(parsed("AA 1 2\n"), Err(ParseError::InvalidAction));
    assert_eq!(parsed("1 2 3\n"), Err(ParseError::InvalidAction));
    // The numbers are read before the letter is judged.
    assert_eq!(parsed("B 1\n"), Err(ParseError::UnexpectedEnd));
    assert_eq!(parsed("B x 1\n"), Err(ParseError::ParseError));
    assert_eq!(parsed("B 100001 1\n"), Err(ParseError::OutOfRange));
}

#[test]
fn first_error_wins() {
    assert_eq!(parsed("A 1 2\nB 1 2\nA x 1\n"), Err(ParseError::InvalidAction));
    assert_eq!(parsed("A 1 2\nA x 1\nB 1 2\n"), Err(ParseError::ParseError));
}

#[test]
fn too_many_actions() {
    let mut text = String::new();
    for _ in 0..5001 {
        text.push_str("A 1 0\n");
    }
    assert_eq!(parsed(&text), Err(ParseError::TooManyActions));
}

#[test]
fn as_many_actions_as_allowed() {
    let mut text = String::new();
    for _ in 0..5000 {
        text.push_str("S 0 -1\n");
    }
    let out = parsed(&text).unwrap();
    assert_eq!(out.len(), 5000);
    assert!(out.iter().all(|c| *c == ('S', 0, -1)));
}

#[test]
fn error_in_a_late_line_comes_before_the_count() {
    let mut text = String::new();
    for _ in 0..5001 {
        text.push_str("A 1 0\n");
    }
    text.push_str("B 0 0\n");
    assert_eq!(parsed(&text), Err(ParseError::InvalidAction));
}

#[test]
fn count_of_thirty_seven_commands() {
    let mut text = String::from("# thirty-seven commands\n");
    for i in 0..37 {
        if i % 2 == 0 {
            text.push_str("A 10 -10\n");
        } else {
            text.push_str("S 1 1\n");
        }
    }
    let input = instance();
    let out = parse_output(&input, &text).unwrap();
    assert_eq!(command_count(&input, &out), 37);
    assert_eq!(command_count(&input, &Output { out: vec![] }), 0);
}
