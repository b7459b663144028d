use uff::lexer::{lex, lex_line, Token, Tokenized};
use uff::patterns::PatternRegistry;

fn tokens_of(line: &str) -> Vec<Tokenized> {
    let registry = PatternRegistry::new().unwrap();
    lex_line(&registry, line, 0)
}

fn kinds(tokens: &Vec<Tokenized>) -> Vec<Token> {
    tokens.iter().map(|t| t.token).collect()
}

fn texts(tokens: &Vec<Tokenized>) -> Vec<String> {
    tokens.iter().map(|t| t.value.clone()).collect()
}

fn spans(tokens: &Vec<Tokenized>) -> Vec<(usize, usize)> {
    tokens.iter().map(|t| (t.start, t.stop)).collect()
}

#[test]
fn registry_compiles_every_pattern() {
    assert!(PatternRegistry::new().is_some());
}

#[test]
fn assignment_line_gives_four_tokens() {
    let tokens = tokens_of("name should be 42");
    assert_eq!(
        kinds(&tokens),
        vec![Token::Ident, Token::Assign, Token::Integer, Token::EOL]
    );
    assert_eq!(texts(&tokens), vec!["name", "should be", "42", ""]);
    assert_eq!(spans(&tokens), vec![(1, 5), (6, 15), (16, 18), (17, 17)]);
    assert!(tokens.iter().all(|t| t.line == 1));
}

#[test]
fn assignment_spans_follow_the_name() {
    for name in ["x", "counter", "a_b", "größe"] {
        let line = format!("{} should be 42", name);
        let tokens = tokens_of(&line);
        let n = name.len();
        assert_eq!(
            kinds(&tokens),
            vec![Token::Ident, Token::Assign, Token::Integer, Token::EOL]
        );
        assert_eq!(tokens[0].value, name);
        assert_eq!(
            spans(&tokens),
            vec![(1, n + 1), (n + 2, n + 11), (n + 12, n + 14), (n + 13, n + 13)]
        );
    }
}

#[test]
fn keyword_phrase_may_hold_several_spaces() {
    let tokens = tokens_of("x should   be 1");
    assert_eq!(
        kinds(&tokens),
        vec![Token::Ident, Token::Assign, Token::Integer, Token::EOL]
    );
    assert_eq!(tokens[1].value, "should   be");
}

#[test]
fn print_line_keeps_the_order_of_its_operands() {
    let tokens = tokens_of("say <<hello world>> x 1.5 -3");
    assert_eq!(
        kinds(&tokens),
        vec![
            Token::Say,
            Token::String,
            Token::Ident,
            Token::Float,
            Token::Integer,
            Token::EOL
        ]
    );
    assert_eq!(texts(&tokens), vec!["say", "hello world", "x", "1.5", "-3", ""]);
    assert_eq!(tokens[1].start, 5);
    assert_eq!(tokens[1].stop, 20);
}

#[test]
fn string_lexeme_leaves_out_the_delimiters() {
    let tokens = tokens_of("s should be <<a b>>");
    assert_eq!(tokens[2].token, Token::String);
    assert_eq!(tokens[2].value, "a b");
    assert_eq!((tokens[2].start, tokens[2].stop), (13, 20));
}

#[test]
fn float_wins_over_the_integers_inside_it() {
    let tokens = tokens_of("pi should be 3.14e-2");
    assert_eq!(
        kinds(&tokens),
        vec![Token::Ident, Token::Assign, Token::Float, Token::EOL]
    );
    assert_eq!(tokens[2].value, "3.14e-2");
}

#[test]
fn integer_may_hold_underscores() {
    let tokens = tokens_of("big should be 1_000_000");
    assert_eq!(tokens[2].token, Token::Integer);
    assert_eq!(tokens[2].value, "1_000_000");
}

#[test]
fn exit_phrase_is_one_token() {
    let tokens = tokens_of("the answer is 7");
    assert_eq!(
        kinds(&tokens),
        vec![Token::TheAnswerIs, Token::Integer, Token::EOL]
    );
    assert_eq!(tokens[0].value, "the answer is");
    assert_eq!(spans(&tokens), vec![(1, 14), (15, 16), (15, 15)]);
}

#[test]
fn comment_swallows_the_rest_of_the_line() {
    let tokens = tokens_of("x should be 1 \" note <<text>> 5");
    assert_eq!(
        kinds(&tokens),
        vec![
            Token::Ident,
            Token::Assign,
            Token::Integer,
            Token::Comment,
            Token::EOL
        ]
    );
    assert_eq!(tokens[3].value, " note <<text>> 5");
    assert_eq!((tokens[3].start, tokens[3].stop), (15, 32));
}

#[test]
fn string_behind_a_comment_marker_is_discarded() {
    let tokens = tokens_of("\" say <<hidden>>");
    assert_eq!(kinds(&tokens), vec![Token::Comment, Token::EOL]);
    assert!(tokens.iter().all(|t| t.token != Token::String));
}

#[test]
fn quote_inside_a_string_starts_no_comment() {
    let tokens = tokens_of("say <<a \" b>>");
    assert_eq!(kinds(&tokens), vec![Token::Say, Token::String, Token::EOL]);
    assert_eq!(tokens[1].value, "a \" b");
}

#[test]
fn stray_text_becomes_an_unknown_token() {
    let tokens = tokens_of("foo %& bar");
    assert_eq!(
        kinds(&tokens),
        vec![Token::Ident, Token::Unknown, Token::Ident, Token::EOL]
    );
    assert_eq!(tokens[1].value, "%&");
    assert_eq!((tokens[1].start, tokens[1].stop), (4, 8));
}

#[test]
fn unknown_text_at_the_end_of_the_line() {
    let tokens = tokens_of("x should be ?");
    assert_eq!(
        kinds(&tokens),
        vec![Token::Ident, Token::Assign, Token::Unknown, Token::EOL]
    );
    assert_eq!(tokens[2].value, "?");
    assert_eq!((tokens[2].start, tokens[2].stop), (12, 14));
}

#[test]
fn number_glued_to_a_letter_is_unknown() {
    let tokens = tokens_of("42x");
    assert_eq!(kinds(&tokens), vec![Token::Unknown, Token::EOL]);
    assert_eq!(tokens[0].value, "42x");
    assert_eq!((tokens[0].start, tokens[0].stop), (1, 4));
}

#[test]
fn empty_line_is_only_its_end() {
    let tokens = tokens_of("");
    assert_eq!(kinds(&tokens), vec![Token::EOL]);
    assert_eq!((tokens[0].start, tokens[0].stop), (0, 0));
    assert_eq!(tokens[0].value, "");
}

#[test]
fn blank_line_is_only_its_end() {
    let tokens = tokens_of("   \t ");
    assert_eq!(kinds(&tokens), vec![Token::EOL]);
    assert_eq!((tokens[0].start, tokens[0].stop), (5, 5));
}

#[test]
fn columns_count_bytes() {
    let tokens = tokens_of("größe should be 5");
    assert_eq!(tokens[0].value, "größe");
    assert_eq!((tokens[0].start, tokens[0].stop), (1, 8));
    assert_eq!((tokens[1].start, tokens[1].stop), (9, 18));
    assert_eq!(tokens[3].start, "größe should be 5".len());
}

#[test]
fn tokens_come_in_the_order_of_their_position() {
    let tokens = tokens_of("say 1 x <<s>> 2.5 y");
    let mut last = 0;
    for t in tokens.iter().filter(|t| t.token != Token::EOL) {
        assert!(t.start > last);
        assert!(t.stop > t.start);
        last = t.stop - 1;
    }
}

#[test]
fn lexing_twice_gives_the_same_stream() {
    let registry = PatternRegistry::new().unwrap();
    let other = PatternRegistry::new().unwrap();
    for line in ["x should be 1", "say <<a>> b 2", "?? \" c", ""] {
        let first = lex_line(&registry, line, 3);
        let second = lex_line(&registry, line, 3);
        let third = lex_line(&other, line, 3);
        assert_eq!(format!("{:?}", first), format!("{:?}", second));
        assert_eq!(format!("{:?}", first), format!("{:?}", third));
    }
}

#[test]
fn lines_are_numbered_from_one() {
    let registry = PatternRegistry::new().unwrap();
    let lines = vec![
        String::from("x should be 1"),
        String::from(""),
        String::from("the answer is x"),
    ];
    let tokens = lex(&registry, &lines);
    assert_eq!(
        kinds(&tokens),
        vec![
            Token::Ident,
            Token::Assign,
            Token::Integer,
            Token::EOL,
            Token::EOL,
            Token::TheAnswerIs,
            Token::Ident,
            Token::EOL
        ]
    );
    let lines_of: Vec<usize> = tokens.iter().map(|t| t.line).collect();
    assert_eq!(lines_of, vec![1, 1, 1, 1, 2, 3, 3, 3]);
}
