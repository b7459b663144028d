use uff::ast::{Expression, FloatLiteral, Statement};
use uff::lexer::{lex_line, Token, Tokenized};
use uff::parser::{
    can_parse, parse, parse_float, parse_int, read_int, try_parse, ParseError, ParseErrorKind,
};
use uff::patterns::PatternRegistry;

fn token(kind: Token, text: &str, start: usize) -> Tokenized {
    Tokenized {
        line: 1,
        start,
        stop: start + text.len(),
        token: kind,
        value: String::from(text),
    }
}

fn parse_line(line: &str) -> Result<Statement, ParseError> {
    let registry = PatternRegistry::new().unwrap();
    let tokens = lex_line(&registry, line, 0);
    assert!(can_parse(&tokens));
    parse(&tokens)
}

fn float(text: &str) -> FloatLiteral {
    FloatLiteral::read(text).unwrap()
}

#[test]
fn integer_literals_are_read() {
    assert_eq!(parse_int("42"), 42);
    assert_eq!(parse_int("-7"), -7);
    assert_eq!(parse_int("0"), 0);
    assert_eq!(parse_int("1_000_000"), 1_000_000);
    assert_eq!(parse_int("-1_0"), -10);
    assert_eq!(parse_int("007"), 7);
}

#[test]
fn integer_literals_reach_both_ends_of_the_range() {
    assert_eq!(read_int("9223372036854775807"), Some(i64::MAX));
    assert_eq!(read_int("-9223372036854775808"), Some(i64::MIN));
    assert_eq!(read_int("9223372036854775808"), None);
    assert_eq!(read_int("-9223372036854775809"), None);
    assert_eq!(read_int("99999999999999999999999999"), None);
}

#[test]
fn text_that_is_no_integer_is_not_read() {
    assert_eq!(read_int(""), None);
    assert_eq!(read_int("-"), None);
    assert_eq!(read_int("_"), None);
    assert_eq!(read_int("12a"), None);
    assert_eq!(read_int("1.5"), None);
    assert_eq!(read_int("--1"), None);
    assert_eq!(read_int("1-"), None);
}

#[test]
fn float_literals_lose_their_underscores() {
    assert_eq!(parse_float("1.5").text(), "1.5");
    assert_eq!(parse_float("-1_0.2_5e-1_0").text(), "-10.25e-10");
    assert_eq!(parse_float("3.14e2").text(), "3.14e2");
}

#[test]
fn text_that_is_no_float_is_not_read() {
    for text in ["", "1", "1.", ".5", "1.5e", "1.5e-", "a.b", "1.5x", "1..5", "-.5", "1.5e1.2"] {
        assert!(FloatLiteral::read(text).is_none(), "{}", text);
    }
}

#[test]
fn assignment_of_an_integer() {
    assert_eq!(
        parse_line("name should be 42"),
        Ok(Statement::AssignInteger {
            ident: String::from("name"),
            value: 42
        })
    );
}

#[test]
fn assignment_of_a_float() {
    assert_eq!(
        parse_line("pi should be 3.1_4"),
        Ok(Statement::AssignFloat {
            ident: String::from("pi"),
            value: float("3.14")
        })
    );
}

#[test]
fn assignment_of_a_string() {
    assert_eq!(
        parse_line("s should be <<hi there>>"),
        Ok(Statement::AssignString {
            ident: String::from("s"),
            value: String::from("hi there")
        })
    );
}

#[test]
fn no_tokens_make_the_empty_statement() {
    assert_eq!(parse(&Vec::new()), Ok(Statement::NoOp {}));
    assert_eq!(parse(&vec![token(Token::EOL, "", 0)]), Ok(Statement::NoOp {}));
    assert_eq!(parse_line(""), Ok(Statement::NoOp {}));
    assert_eq!(parse_line("    "), Ok(Statement::NoOp {}));
}

#[test]
fn print_statement_keeps_the_order_of_its_operands() {
    assert_eq!(
        parse_line("say <<a>> x 1 2.5 y <<b>>"),
        Ok(Statement::Say {
            expressions: vec![
                Expression::String(String::from("a")),
                Expression::Ident(String::from("x")),
                Expression::Integer(1),
                Expression::Float(float("2.5")),
                Expression::Ident(String::from("y")),
                Expression::String(String::from("b")),
            ]
        })
    );
}

#[test]
fn print_statement_without_operands() {
    assert_eq!(
        parse_line("say"),
        Ok(Statement::Say {
            expressions: Vec::new()
        })
    );
}

#[test]
fn print_statement_refuses_other_tokens() {
    let error = parse_line("say x should be 1").unwrap_err();
    assert_eq!(error.kind, ParseErrorKind::NotAllowedInPrint);
    assert_eq!(error.token, Token::Assign);
    assert_eq!((error.line, error.column), (1, 7));
    assert_eq!(error.message(), "token not allowed in print statement");

    let error = parse_line("say 1 ?? 2").unwrap_err();
    assert_eq!(error.kind, ParseErrorKind::NotAllowedInPrint);
    assert_eq!(error.token, Token::Unknown);
    assert_eq!(error.text, "??");
}

#[test]
fn exit_with_a_code() {
    assert_eq!(
        parse_line("the answer is 7"),
        Ok(Statement::ExitCode { code: 7 })
    );
}

#[test]
fn exit_with_two_values_is_an_error() {
    let error = parse_line("the answer is 7 8").unwrap_err();
    assert_eq!(error.kind, ParseErrorKind::TooManyExitValues);
    assert_eq!(error.message(), "only one exit value allowed");
    assert_eq!(error.text, "8");
    assert_eq!((error.line, error.column), (1, 17));
}

#[test]
fn exit_with_a_variable() {
    assert_eq!(
        parse_line("the answer is x"),
        Ok(Statement::ExitVar {
            variable: String::from("x")
        })
    );
}

#[test]
fn exit_without_a_value_is_an_error() {
    let error = parse_line("the answer is").unwrap_err();
    assert_eq!(error.kind, ParseErrorKind::InvalidExitValue);
    assert_eq!(error.message(), "exit value must be an integer or a variable");
    assert_eq!(error.token, Token::TheAnswerIs);
}

#[test]
fn exit_with_a_string_is_an_error() {
    let error = parse_line("the answer is <<no>>").unwrap_err();
    assert_eq!(error.kind, ParseErrorKind::InvalidExitValue);
    assert_eq!(error.token, Token::String);
    let error = parse_line("the answer is 1.5").unwrap_err();
    assert_eq!(error.kind, ParseErrorKind::InvalidExitValue);
}

#[test]
fn two_identifiers_are_no_statement() {
    let error = parse_line("foo bar").unwrap_err();
    assert_eq!(error.kind, ParseErrorKind::MalformedAssignment);
    assert_eq!(
        error.message(),
        "identifier must be followed by assignment keyword and a value"
    );
    assert_eq!(error.text, "foo");
    assert_eq!((error.line, error.column), (1, 1));
}

#[test]
fn assignment_needs_exactly_one_value() {
    assert_eq!(
        parse_line("x should be").unwrap_err().kind,
        ParseErrorKind::MalformedAssignment
    );
    assert_eq!(
        parse_line("x should be 1 2").unwrap_err().kind,
        ParseErrorKind::MalformedAssignment
    );
    assert_eq!(
        parse_line("x 1 2").unwrap_err().kind,
        ParseErrorKind::MalformedAssignment
    );
}

#[test]
fn assigned_value_must_be_a_literal() {
    let error = parse_line("x should be y").unwrap_err();
    assert_eq!(error.kind, ParseErrorKind::InvalidValue);
    assert_eq!(error.message(), "value must be integer, float, or string");
    assert_eq!(error.text, "y");
    assert_eq!(error.column, 13);
}

#[test]
fn unknown_first_token_is_an_error() {
    let error = parse_line("?? x").unwrap_err();
    assert_eq!(error.kind, ParseErrorKind::UnknownToken);
    assert_eq!(error.message(), "unknown token");
    assert_eq!(error.text, "??");
    assert_eq!((error.line, error.column), (1, 1));
}

#[test]
fn other_first_tokens_start_no_statement() {
    for line in ["42", "1.5", "<<s>>", "should be 1"] {
        let error = parse_line(line).unwrap_err();
        assert_eq!(error.kind, ParseErrorKind::InvalidFirstToken, "{}", line);
        assert_eq!(
            error.message(),
            "token not permitted as the first token of a statement"
        );
    }
    let comment = vec![token(Token::Comment, " c", 1)];
    assert_eq!(
        parse(&comment).unwrap_err().kind,
        ParseErrorKind::InvalidFirstToken
    );
}

#[test]
fn tokens_behind_the_end_of_the_line_are_not_read() {
    let tokens = vec![
        token(Token::TheAnswerIs, "the answer is", 1),
        token(Token::Integer, "3", 15),
        token(Token::EOL, "", 15),
        token(Token::Integer, "4", 17),
    ];
    assert_eq!(parse(&tokens), Ok(Statement::ExitCode { code: 3 }));
}

#[test]
fn literal_out_of_range_cannot_be_parsed() {
    let tokens = vec![
        token(Token::Ident, "x", 1),
        token(Token::Assign, "should be", 3),
        token(Token::Integer, "99999999999999999999", 13),
    ];
    assert!(!can_parse(&tokens));
    assert_eq!(try_parse(&tokens), None);
    let malformed = vec![
        token(Token::Ident, "x", 1),
        token(Token::Ident, "y", 3),
        token(Token::Integer, "99999999999999999999", 5),
    ];
    assert!(can_parse(&malformed));
    assert_eq!(
        parse(&malformed).unwrap_err().kind,
        ParseErrorKind::MalformedAssignment
    );
    let print = vec![
        token(Token::Say, "say", 1),
        token(Token::Assign, "should be", 5),
        token(Token::Float, "nonsense", 15),
    ];
    assert!(can_parse(&print));
    let print = vec![
        token(Token::Say, "say", 1),
        token(Token::Float, "nonsense", 5),
        token(Token::Assign, "should be", 15),
    ];
    assert!(!can_parse(&print));
}
