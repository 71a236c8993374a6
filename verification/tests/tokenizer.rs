use lib::chars::{is_whitespace, len_utf8};
use lib::tokenizer::{PreloadedTokenizer, Token, TokenError, Tokenizer};

fn collect_token(input: &str) -> (Vec<Token>, Option<TokenError>) {
    let mut tokenizer = Tokenizer::new(input);
    let mut vec = vec![];
    loop {
        match tokenizer.next_token() {
            Ok(t) => vec.push(t),
            Err(e) => return (vec, Some(e)),
        }
    }
}

fn run(input: &str, expected: (Vec<Token>, Option<TokenError>)) {
    let (vec, err) = collect_token(input);
    assert_eq!((vec, err), expected, "\"{}\"", input);
}

#[test]
fn peek() {
    let mut tokenizer = PreloadedTokenizer::new("$.a");
    match tokenizer.next_token() {
        Ok(t) => assert_eq!(Token::Absolute(0), t),
        _ => panic!(),
    }

    match tokenizer.peek_token() {
        Ok(t) => assert_eq!(&Token::Dot(1), t),
        _ => panic!(),
    }

    match tokenizer.peek_token() {
        Ok(t) => assert_eq!(&Token::Dot(1), t),
        _ => panic!(),
    }

    match tokenizer.next_token() {
        Ok(t) => assert_eq!(Token::Dot(1), t),
        _ => panic!(),
    }
}

#[test]
fn token() {
    run(
        "$.01.a",
        (
            vec![
                Token::Absolute(0),
                Token::Dot(1),
                Token::Key(2, "01".to_string()),
                Token::Dot(4),
                Token::Key(5, "a".to_string()),
            ],
            Some(TokenError::Eof),
        ),
    );

    run(
        "$.   []",
        (
            vec![
                Token::Absolute(0),
                Token::Dot(1),
                Token::Whitespace(2, 2),
                Token::OpenArray(5),
                Token::CloseArray(6),
            ],
            Some(TokenError::Eof),
        ),
    );

    run(
        "$..",
        (
            vec![Token::Absolute(0), Token::Dot(1), Token::Dot(2)],
            Some(TokenError::Eof),
        ),
    );

    run(
        "$..ab",
        (
            vec![
                Token::Absolute(0),
                Token::Dot(1),
                Token::Dot(2),
                Token::Key(3, "ab".to_string()),
            ],
            Some(TokenError::Eof),
        ),
    );

    run(
        "$..가 [",
        (
            vec![
                Token::Absolute(0),
                Token::Dot(1),
                Token::Dot(2),
                Token::Key(3, "가".to_string()),
                Token::Whitespace(6, 0),
                Token::OpenArray(7),
            ],
            Some(TokenError::Eof),
        ),
    );

    run(
        "[-1, 2 ]",
        (
            vec![
                Token::OpenArray(0),
                Token::Key(1, "-1".to_string()),
                Token::Comma(3),
                Token::Whitespace(4, 0),
                Token::Key(5, "2".to_string()),
                Token::Whitespace(6, 0),
                Token::CloseArray(7),
            ],
            Some(TokenError::Eof),
        ),
    );

    run(
        "[ 1 2 , 3 \"abc\" : -10 ]",
        (
            vec![
                Token::OpenArray(0),
                Token::Whitespace(1, 0),
                Token::Key(2, "1".to_string()),
                Token::Whitespace(3, 0),
                Token::Key(4, "2".to_string()),
                Token::Whitespace(5, 0),
                Token::Comma(6),
                Token::Whitespace(7, 0),
                Token::Key(8, "3".to_string()),
                Token::Whitespace(9, 0),
                Token::DoubleQuoted(10, "abc".to_string()),
                Token::Whitespace(15, 0),
                Token::Split(16),
                Token::Whitespace(17, 0),
                Token::Key(18, "-10".to_string()),
                Token::Whitespace(21, 0),
                Token::CloseArray(22),
            ],
            Some(TokenError::Eof),
        ),
    );

    run(
        "?(@.a가 <41.01)",
        (
            vec![
                Token::Question(0),
                Token::OpenParenthesis(1),
                Token::At(2),
                Token::Dot(3),
                Token::Key(4, "a가".to_string()),
                Token::Whitespace(8, 0),
                Token::Little(9),
                Token::Key(10, "41".to_string()),
                Token::Dot(12),
                Token::Key(13, "01".to_string()),
                Token::CloseParenthesis(15),
            ],
            Some(TokenError::Eof),
        ),
    );

    run(
        "?(@.a <4a.01)",
        (
            vec![
                Token::Question(0),
                Token::OpenParenthesis(1),
                Token::At(2),
                Token::Dot(3),
                Token::Key(4, "a".to_string()),
                Token::Whitespace(5, 0),
                Token::Little(6),
                Token::Key(7, "4a".to_string()),
                Token::Dot(9),
                Token::Key(10, "01".to_string()),
                Token::CloseParenthesis(12),
            ],
            Some(TokenError::Eof),
        ),
    );

    run(
        "?($.c>@.d)",
        (
            vec![
                Token::Question(0),
                Token::OpenParenthesis(1),
                Token::Absolute(2),
                Token::Dot(3),
                Token::Key(4, "c".to_string()),
                Token::Greater(5),
                Token::At(6),
                Token::Dot(7),
                Token::Key(8, "d".to_string()),
                Token::CloseParenthesis(9),
            ],
            Some(TokenError::Eof),
        ),
    );
}

#[test]
fn operators_of_two_characters() {
    run(
        "a==b!=c<=d>=e&&f||g",
        (
            vec![
                Token::Key(0, "a".to_string()),
                Token::Equal(1),
                Token::Key(3, "b".to_string()),
                Token::NotEqual(4),
                Token::Key(6, "c".to_string()),
                Token::LittleOrEqual(7),
                Token::Key(9, "d".to_string()),
                Token::GreaterOrEqual(10),
                Token::Key(12, "e".to_string()),
                Token::And(13),
                Token::Key(15, "f".to_string()),
                Token::Or(16),
                Token::Key(18, "g".to_string()),
            ],
            Some(TokenError::Eof),
        ),
    );
}

#[test]
fn malformed_operators_give_their_position() {
    run("a=b", (vec![Token::Key(0, "a".to_string())], Some(TokenError::Position(1))));
    run("x!y", (vec![Token::Key(0, "x".to_string())], Some(TokenError::Position(1))));
    run("&x", (vec![], Some(TokenError::Position(0))));
    run("$|x", (vec![Token::Absolute(0)], Some(TokenError::Position(1))));
}

#[test]
fn operator_at_end_of_input_is_eof() {
    run("<", (vec![], Some(TokenError::Eof)));
    run(">", (vec![], Some(TokenError::Eof)));
    run("=", (vec![], Some(TokenError::Eof)));
    run("&", (vec![], Some(TokenError::Eof)));
    run("<a", (vec![Token::Little(0), Token::Key(1, "a".to_string())], Some(TokenError::Eof)));
}

#[test]
fn quoted_texts() {
    run(
        "'a b'\"c'd\"",
        (
            vec![
                Token::SingleQuoted(0, "a b".to_string()),
                Token::DoubleQuoted(5, "c'd".to_string()),
            ],
            Some(TokenError::Eof),
        ),
    );
    run("'abc", (vec![], Some(TokenError::Eof)));
    run("''", (vec![Token::SingleQuoted(0, "".to_string())], Some(TokenError::Eof)));
}

#[test]
fn whitespace_counts_bytes_after_the_first() {
    run(
        "\u{3000}\u{3000} a",
        (
            vec![Token::Whitespace(0, 4), Token::Key(7, "a".to_string())],
            Some(TokenError::Eof),
        ),
    );
    run("\t\n\r", (vec![Token::Whitespace(0, 2)], Some(TokenError::Eof)));
}

#[test]
fn empty_input() {
    run("", (vec![], Some(TokenError::Eof)));
    let tokenizer = PreloadedTokenizer::new("");
    assert_eq!(tokenizer.peek_token(), Err(TokenError::Eof));
    assert_eq!(tokenizer.err_msg(), "\n\n");
}

#[test]
fn tokenizer_stays_at_end() {
    let mut tokenizer = Tokenizer::new("$");
    assert_eq!(tokenizer.next_token(), Ok(Token::Absolute(0)));
    assert_eq!(tokenizer.next_token(), Err(TokenError::Eof));
    assert_eq!(tokenizer.next_token(), Err(TokenError::Eof));
}

#[test]
fn preloaded_gives_error_after_tokens() {
    let mut tokenizer = PreloadedTokenizer::new("a=b");
    assert_eq!(tokenizer.next_token(), Ok(Token::Key(0, "a".to_string())));
    assert_eq!(tokenizer.peek_token(), Err(TokenError::Position(1)));
    assert_eq!(tokenizer.next_token(), Err(TokenError::Position(1)));
    assert_eq!(tokenizer.next_token(), Err(TokenError::Position(1)));
    assert_eq!(tokenizer.err_msg(), "a=b\n^\n");
}

#[test]
fn err_msg_points_at_reading_end_before_any_token_is_taken() {
    let tokenizer = PreloadedTokenizer::new("a=b");
    assert_eq!(tokenizer.err_msg(), "a=b\n^^\n");
    let tokenizer = PreloadedTokenizer::new("$.a");
    assert_eq!(tokenizer.err_msg(), "$.a\n^^^\n");
    assert_eq!(tokenizer.err_msg_with_pos(0), "$.a\n\n");
    assert_eq!(tokenizer.err_msg_with_pos(2), "$.a\n^^\n");
}

#[test]
fn err_msg_follows_last_token() {
    let mut tokenizer = PreloadedTokenizer::new("$.abc");
    let _ = tokenizer.next_token();
    let _ = tokenizer.next_token();
    assert_eq!(tokenizer.err_msg(), "$.abc\n^^\n");
    let _ = tokenizer.next_token();
    assert_eq!(tokenizer.err_msg(), "$.abc\n^^^^^\n");
}

#[test]
fn partial_eq_compares_kinds_only() {
    assert!(Token::Dot(1).partial_eq(Token::Dot(7)));
    assert!(Token::Key(0, "a".to_string()).partial_eq(Token::Key(3, "b".to_string())));
    assert!(!Token::Dot(1).partial_eq(Token::Absolute(1)));
    assert!(!Token::Little(0).partial_eq(Token::LittleOrEqual(0)));
    assert!(!Token::Key(0, "a".to_string()).partial_eq(Token::SingleQuoted(0, "a".to_string())));
    assert!(Token::Whitespace(0, 1).partial_eq(Token::Whitespace(4, 9)));
}

#[test]
fn token_positions_tile_the_input() {
    let input = "$['가', \"b\"] && @.x<=3";
    let mut tokenizer = Tokenizer::new(input);
    let mut expected_start = 0;
    loop {
        match tokenizer.next_token() {
            Ok(t) => {
                let start = match t {
                    Token::Absolute(p) | Token::Dot(p) | Token::At(p) | Token::OpenArray(p)
                    | Token::CloseArray(p) | Token::Asterisk(p) | Token::Question(p)
                    | Token::Comma(p) | Token::Split(p) | Token::OpenParenthesis(p)
                    | Token::CloseParenthesis(p) | Token::Equal(p) | Token::GreaterOrEqual(p)
                    | Token::Greater(p) | Token::Little(p) | Token::LittleOrEqual(p)
                    | Token::NotEqual(p) | Token::And(p) | Token::Or(p) => p,
                    Token::Key(p, _) | Token::DoubleQuoted(p, _) | Token::SingleQuoted(p, _) => p,
                    Token::Whitespace(p, _) => p,
                };
                assert_eq!(start, expected_start);
                expected_start = next_start(input, start);
            }
            Err(e) => {
                assert_eq!(e, TokenError::Eof);
                assert_eq!(expected_start, input.len());
                break;
            }
        }
    }
}

fn next_start(input: &str, start: usize) -> usize {
    let mut tokenizer = PreloadedTokenizer::new(input);
    let mut last = 0;
    loop {
        match tokenizer.next_token() {
            Ok(_) => {
                let msg = tokenizer.err_msg();
                let carets = msg.chars().filter(|c| *c == '^').count();
                if last == start {
                    return carets;
                }
                last = carets;
            }
            Err(_) => return input.len(),
        }
    }
}

#[test]
fn whitespace_predicate_agrees_with_char_is_whitespace() {
    for c in (0u32..=0x10FFFF).filter_map(char::from_u32) {
        assert_eq!(is_whitespace(c), c.is_whitespace(), "{:?}", c);
        assert_eq!(len_utf8(c), c.len_utf8(), "{:?}", c);
    }
}

#[test]
fn err_msg_after_token_marks_its_spelled_end() {
    let mut tokenizer = PreloadedTokenizer::new("'ab'\u{3000} x");
    assert_eq!(tokenizer.next_token(), Ok(Token::SingleQuoted(0, "ab".to_string())));
    assert_eq!(tokenizer.err_msg(), "'ab'\u{3000} x\n^^^^\n");
    assert_eq!(tokenizer.next_token(), Ok(Token::Whitespace(4, 1)));
    assert_eq!(tokenizer.err_msg(), "'ab'\u{3000} x\n^^^^^^^^\n");
    assert_eq!(tokenizer.next_token(), Ok(Token::Key(8, "x".to_string())));
    assert_eq!(tokenizer.next_token(), Err(TokenError::Eof));
    assert_eq!(tokenizer.err_msg(), "'ab'\u{3000} x\n^^^^^^^^^\n");
}

#[test]
fn preloaded_replays_step_by_step_reads_up_to_first_error() {
    let input = "$.a!b.c";
    let mut step = Tokenizer::new(input);
    let mut preloaded = PreloadedTokenizer::new(input);
    loop {
        let read = step.next_token();
        let handed = preloaded.next_token();
        assert_eq!(read, handed);
        if read.is_err() {
            break;
        }
    }
    assert_eq!(step.next_token(), Ok(Token::Key(4, "b".to_string())));
    assert_eq!(preloaded.next_token(), Err(TokenError::Position(3)));
}
