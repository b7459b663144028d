//! The statement parser: the tokens of one line to one statement, or to a
//! syntax error with its place.
//!
//! The statement of a token sequence is read from the tokens before the
//! first `EOL`; what follows it is not looked at.

use crate::ast::{
    expressions_view, is_float_literal, Expression, ExpressionView, FloatLiteral, Statement,
    StatementView,
};
use crate::lexer::{tokens_view, Token, TokenView, Tokenized};
use crate::text::{
    all_digits, decimal, decimal_text, decimal_value, is_decimal_digit, is_digit,
    strip_underscores, without_underscores,
};
use vstd::prelude::*;
use vstd::string::*;

verus! {

/// The literal is written with a leading minus.
pub open spec fn is_negative(s: Seq<char>) -> bool {
    let t = without_underscores(s);
    t.len() > 0 && t[0] == '-'
}

/// The digits of an integer literal: the text without underscores and
/// without the leading minus.
pub open spec fn int_digits(s: Seq<char>) -> Seq<char> {
    let t = without_underscores(s);
    if is_negative(s) {
        t.skip(1)
    } else {
        t
    }
}

/// A text is an integer literal if, underscores aside, it is an optional
/// minus followed by one decimal digit or more.
pub open spec fn is_int_literal(s: Seq<char>) -> bool {
    int_digits(s).len() > 0 && all_digits(int_digits(s))
}

/// The number that an integer literal writes.
pub open spec fn int_literal_value(s: Seq<char>) -> int {
    if is_negative(s) {
        -decimal_value(int_digits(s))
    } else {
        decimal_value(int_digits(s))
    }
}

/// An integer literal whose number is an `i64`.
pub open spec fn fits_i64(s: Seq<char>) -> bool {
    is_int_literal(s) && i64::MIN <= int_literal_value(s) <= i64::MAX
}

/// A sequence of digits writes a number that is not negative, and no
/// smaller than the number that a prefix of it writes.
pub proof fn lemma_decimal_prefix(s: Seq<char>, k: int)
    requires
        all_digits(s),
        0 <= k <= s.len(),
    ensures
        0 <= decimal_value(s.take(k)) <= decimal_value(s),
    decreases s.len(),
{
    if s.len() == 0 {
        assert(s.take(k) =~= s);
    } else if k == s.len() {
        assert(s.take(k) =~= s);
        assert(all_digits(s.drop_last())) by {
            assert forall|i: int| 0 <= i < s.drop_last().len() implies is_digit(
                #[trigger] s.drop_last()[i],
            ) by {
                assert(s.drop_last()[i] == s[i]);
            }
        }
        lemma_decimal_prefix(s.drop_last(), k - 1);
        assert(is_digit(s.last()));
    } else {
        assert(all_digits(s.drop_last())) by {
            assert forall|i: int| 0 <= i < s.drop_last().len() implies is_digit(
                #[trigger] s.drop_last()[i],
            ) by {
                assert(s.drop_last()[i] == s[i]);
            }
        }
        lemma_decimal_prefix(s.drop_last(), k);
        lemma_decimal_prefix(s.drop_last(), s.len() - 1);
        assert(s.drop_last().take(k) =~= s.take(k));
        assert(s.drop_last().take(s.len() - 1) =~= s.drop_last());
        assert(is_digit(s.last()));
    }
}

/// Reads an integer literal. `None` if the text is no integer literal, or
/// if its number is no `i64`.
pub fn read_int(value: &str) -> (out: Option<i64>)
    ensures
        out is Some <==> fits_i64(value@),
        out matches Some(v) ==> v == int_literal_value(value@),
{
    let stripped = strip_underscores(value);
    let text = stripped.as_str();
    let n = text.unicode_len();
    let negative = n > 0 && text.get_char(0) == '-';
    let from: usize = if negative {
        1
    } else {
        0
    };
    if from == n {
        return None;
    }
    let ghost digits = int_digits(value@);
    assert(digits =~= text@.skip(from as int));
    let limit: u64 = if negative {
        0x8000_0000_0000_0000
    } else {
        0x7fff_ffff_ffff_ffff
    };
    let mut magnitude: u64 = 0;
    let mut i: usize = from;
    while i < n
        invariant
            from <= i <= n,
            n == text@.len(),
            digits == text@.skip(from as int),
            digits == int_digits(value@),
            negative == is_negative(value@),
            limit == if negative { 0x8000_0000_0000_0000u64 } else { 0x7fff_ffff_ffff_ffffu64 },
            all_digits(digits.take(i - from)),
            magnitude == decimal_value(digits.take(i - from)),
            magnitude <= limit,
        decreases n - i,
    {
        let c = text.get_char(i);
        assert(digits[i - from] == c);
        if !is_decimal_digit(c) {
            assert(!all_digits(digits)) by {
                assert(!is_digit(digits[i - from]));
            }
            return None;
        }
        proof {
            assert(digits.take(i - from + 1).drop_last() =~= digits.take(i - from));
            assert(digits.take(i - from + 1).last() == c);
            assert forall|j: int| 0 <= j < i - from + 1 implies is_digit(
                #[trigger] digits.take(i - from + 1)[j],
            ) by {
                if j < i - from {
                    assert(digits.take(i - from + 1)[j] == digits.take(i - from)[j]);
                }
            }
        }
        let digit: u64 = (c as u32 - '0' as u32) as u64;
        if magnitude > (limit - digit) / 10 {
            proof {
                if all_digits(digits) {
                    lemma_decimal_prefix(digits, i - from + 1);
                    assert(decimal_value(digits.take(i - from + 1)) == magnitude * 10 + digit);
                }
            }
            return None;
        }
        magnitude = magnitude * 10 + digit;
        i += 1;
    }
    proof {
        assert(digits.take(n - from) =~= digits);
    }
    if negative {
        if magnitude == 0x8000_0000_0000_0000 {
            Some(i64::MIN)
        } else {
            Some(-(magnitude as i64))
        }
    } else {
        Some(magnitude as i64)
    }
}

/// The number that an integer literal writes.
pub fn parse_int(value: &str) -> (out: i64)
    requires
        fits_i64(value@),
    ensures
        out == int_literal_value(value@),
{
    read_int(value).unwrap()
}

/// The float literal that a text writes.
pub fn parse_float(value: &str) -> (out: FloatLiteral)
    requires
        is_float_literal(value@),
    ensures
        out@ == without_underscores(value@),
{
    FloatLiteral::read(value).unwrap()
}

/// What is wrong with the tokens of a line.
#[derive(Debug, Clone, Copy, PartialEq, Eq, Structural)]
pub enum ParseErrorKind {
    /// The line starts with text that is no token.
    UnknownToken,
    /// An identifier is not followed by the assignment keyword and one value.
    MalformedAssignment,
    /// The assigned value is no integer, float or string.
    InvalidValue,
    /// A print statement holds a token that cannot be printed.
    NotAllowedInPrint,
    /// An exit statement holds more than its one value.
    TooManyExitValues,
    /// The value of an exit statement is missing, or it is neither an
    /// integer nor a variable.
    InvalidExitValue,
    /// No statement starts with this token.
    InvalidFirstToken,
}

/// A syntax error: what is wrong, and the token at which it was found, with
/// its line, its start column, its kind and its text.
#[derive(Debug, PartialEq, Eq)]
pub struct ParseError {
    pub kind: ParseErrorKind,
    pub line: usize,
    pub column: usize,
    pub token: Token,
    pub text: String,
}

/// The mathematical value of a [`ParseError`].
pub struct ParseErrorView {
    pub kind: ParseErrorKind,
    pub line: usize,
    pub column: usize,
    pub token: Token,
    pub text: Seq<char>,
}

impl View for ParseError {
    type V = ParseErrorView;

    open spec fn view(&self) -> ParseErrorView {
        ParseErrorView {
            kind: self.kind,
            line: self.line,
            column: self.column,
            token: self.token,
            text: self.text@,
        }
    }
}

/// The message of each kind of syntax error.
pub open spec fn message_of(kind: ParseErrorKind) -> Seq<char> {
    match kind {
        ParseErrorKind::UnknownToken => "unknown token"@,
        ParseErrorKind::MalformedAssignment =>
            "identifier must be followed by assignment keyword and a value"@,
        ParseErrorKind::InvalidValue => "value must be integer, float, or string"@,
        ParseErrorKind::NotAllowedInPrint => "token not allowed in print statement"@,
        ParseErrorKind::TooManyExitValues => "only one exit value allowed"@,
        ParseErrorKind::InvalidExitValue => "exit value must be an integer or a variable"@,
        ParseErrorKind::InvalidFirstToken =>
            "token not permitted as the first token of a statement"@,
    }
}

impl ParseError {
    /// The message of the error, as the user reads it.
    pub fn message(&self) -> (out: String)
        ensures
            out@ == message_of(self.kind),
    {
        match self.kind {
            ParseErrorKind::UnknownToken => String::from_str("unknown token"),
            ParseErrorKind::MalformedAssignment => String::from_str(
                "identifier must be followed by assignment keyword and a value",
            ),
            ParseErrorKind::InvalidValue => String::from_str(
                "value must be integer, float, or string",
            ),
            ParseErrorKind::NotAllowedInPrint => String::from_str(
                "token not allowed in print statement",
            ),
            ParseErrorKind::TooManyExitValues => String::from_str("only one exit value allowed"),
            ParseErrorKind::InvalidExitValue => String::from_str(
                "exit value must be an integer or a variable",
            ),
            ParseErrorKind::InvalidFirstToken => String::from_str(
                "token not permitted as the first token of a statement",
            ),
        }
    }
}

/// A syntax error as one line of text: the line and the column of the
/// token, then the message.
pub open spec fn error_text(error: ParseErrorView) -> Seq<char> {
    decimal_text(error.line as nat) + ":"@ + decimal_text(error.column as nat) + ": "@
        + message_of(error.kind)
}

impl ParseError {
    /// The error as one line of text, for the user.
    pub fn to_text(&self) -> (out: String)
        ensures
            out@ == error_text(self@),
    {
        let mut out = decimal(self.line);
        out.append(":");
        out.append(decimal(self.column).as_str());
        out.append(": ");
        out.append(self.message().as_str());
        out
    }
}

/// The error of a kind found at a token.
pub open spec fn error_at(kind: ParseErrorKind, t: TokenView) -> ParseErrorView {
    ParseErrorView { kind, line: t.line, column: t.start, token: t.token, text: t.value }
}

/// Builds the error of a kind found at a token.
fn make_error(kind: ParseErrorKind, t: &Tokenized) -> (out: ParseError)
    ensures
        out@ == error_at(kind, t@),
{
    ParseError { kind, line: t.line, column: t.start, token: t.token, text: t.value.clone() }
}

/// The number of tokens before the first `EOL`.
pub open spec fn statement_len(tokens: Seq<TokenView>) -> int
    decreases tokens.len(),
{
    if tokens.len() == 0 || tokens.first().token == Token::EOL {
        0
    } else {
        1 + statement_len(tokens.drop_first())
    }
}

/// The tokens of the statement: those before the first `EOL`.
pub open spec fn statement_tokens(tokens: Seq<TokenView>) -> Seq<TokenView> {
    tokens.take(statement_len(tokens))
}

/// `n` tokens that are no `EOL`, followed by the end or by an `EOL`, are the
/// tokens of the statement.
pub proof fn lemma_statement_len(tokens: Seq<TokenView>, n: int)
    requires
        0 <= n <= tokens.len(),
        forall|j: int| 0 <= j < n ==> (#[trigger] tokens[j]).token != Token::EOL,
        n < tokens.len() ==> tokens[n].token == Token::EOL,
    ensures
        statement_len(tokens) == n,
    decreases n,
{
    if n > 0 {
        let rest = tokens.drop_first();
        assert forall|j: int| 0 <= j < n - 1 implies (#[trigger] rest[j]).token != Token::EOL by {
            assert(rest[j] == tokens[j + 1]);
        }
        lemma_statement_len(rest, n - 1);
    }
}

/// The kinds of token that a print statement prints.
pub open spec fn is_operand(kind: Token) -> bool {
    kind == Token::Ident || kind == Token::Integer || kind == Token::Float || kind
        == Token::String
}

/// The operand that a token stands for in a print statement.
pub open spec fn operand_of(t: TokenView) -> ExpressionView {
    match t.token {
        Token::Ident => ExpressionView::Ident(t.value),
        Token::Integer => ExpressionView::Integer(int_literal_value(t.value) as i64),
        Token::Float => ExpressionView::Float(without_underscores(t.value)),
        _ => ExpressionView::String(t.value),
    }
}

/// The end of the run of operands that starts at `from`.
pub open spec fn operands_end(s: Seq<TokenView>, from: int) -> int
    decreases s.len() - from,
{
    if 0 <= from < s.len() && is_operand(s[from].token) {
        operands_end(s, from + 1)
    } else {
        from
    }
}

/// A run of operands from `from` to `to` reaches at least to `to`, and ends
/// there if what follows is no operand.
pub proof fn lemma_operands_end(s: Seq<TokenView>, from: int, to: int)
    requires
        0 <= from <= to <= s.len(),
        forall|j: int| from <= j < to ==> is_operand((#[trigger] s[j]).token),
    ensures
        operands_end(s, from) >= to,
        to == s.len() || !is_operand(s[to].token) ==> operands_end(s, from) == to,
        operands_end(s, from) == operands_end(s, to),
    decreases to - from,
{
    if from < to {
        lemma_operands_end(s, from + 1, to);
    } else {
        lemma_operands_end_bound(s, to);
    }
}

/// The run of operands ends within the sequence.
pub proof fn lemma_operands_end_bound(s: Seq<TokenView>, from: int)
    requires
        0 <= from <= s.len(),
    ensures
        from <= operands_end(s, from) <= s.len(),
    decreases s.len() - from,
{
    if from < s.len() && is_operand(s[from].token) {
        lemma_operands_end_bound(s, from + 1);
    }
}

/// The literal of a token can be read: an integer token writes an `i64`, a
/// float token has the shape of a float literal. Other tokens hold none.
pub open spec fn literal_ok(t: TokenView) -> bool {
    &&& t.token == Token::Integer ==> fits_i64(t.value)
    &&& t.token == Token::Float ==> is_float_literal(t.value)
}

/// Every literal that the statement is made from can be read. These are
/// the value of a well-formed assignment, the operands of a print statement
/// up to its first token that cannot be printed, and the integer of an exit
/// statement that holds nothing else.
pub open spec fn literals_readable(tokens: Seq<TokenView>) -> bool {
    let s = statement_tokens(tokens);
    if s.len() == 0 {
        true
    } else {
        match s[0].token {
            Token::Ident => s.len() == 3 && s[1].token == Token::Assign ==> literal_ok(s[2]),
            Token::Say => forall|i: int|
                1 <= i < operands_end(s, 1) ==> literal_ok(#[trigger] s[i]),
            Token::TheAnswerIs => s.len() == 2 && s[1].token == Token::Integer ==> fits_i64(
                s[1].value,
            ),
            _ => true,
        }
    }
}

/// The statement that an assignment of the value token `value` to the
/// variable `name` makes, or the error for a value of a wrong kind.
pub open spec fn assignment_of(name: TokenView, value: TokenView) -> Result<
    StatementView,
    ParseErrorView,
> {
    match value.token {
        Token::Integer => Ok(
            StatementView::AssignInteger {
                ident: name.value,
                value: int_literal_value(value.value) as i64,
            },
        ),
        Token::Float => Ok(
            StatementView::AssignFloat {
                ident: name.value,
                value: without_underscores(value.value),
            },
        ),
        Token::String => Ok(
            StatementView::AssignString { ident: name.value, value: value.value },
        ),
        _ => Err(error_at(ParseErrorKind::InvalidValue, value)),
    }
}

/// The statement that the tokens of one line make, or their syntax error.
///
/// No token: the empty statement. Otherwise the first token decides.
/// An identifier starts an assignment of exactly three tokens. The print
/// keyword takes every token behind it as an operand, in order. The exit
/// keyword takes one integer and nothing else, or a variable. Any other
/// token starts no statement.
pub open spec fn parse_spec(tokens: Seq<TokenView>) -> Result<StatementView, ParseErrorView> {
    let s = statement_tokens(tokens);
    if s.len() == 0 {
        Ok(StatementView::NoOp)
    } else {
        match s[0].token {
            Token::Unknown => Err(error_at(ParseErrorKind::UnknownToken, s[0])),
            Token::Ident => if s.len() != 3 || s[1].token != Token::Assign {
                Err(error_at(ParseErrorKind::MalformedAssignment, s[0]))
            } else {
                assignment_of(s[0], s[2])
            },
            Token::Say => if operands_end(s, 1) < s.len() {
                Err(error_at(ParseErrorKind::NotAllowedInPrint, s[operands_end(s, 1)]))
            } else {
                Ok(
                    StatementView::Say {
                        expressions: Seq::new((s.len() - 1) as nat, |k: int| operand_of(s[k + 1])),
                    },
                )
            },
            Token::TheAnswerIs => if s.len() < 2 {
                Err(error_at(ParseErrorKind::InvalidExitValue, s[0]))
            } else if s[1].token == Token::Integer {
                if s.len() > 2 {
                    Err(error_at(ParseErrorKind::TooManyExitValues, s[2]))
                } else {
                    Ok(StatementView::ExitCode { code: int_literal_value(s[1].value) as i64 })
                }
            } else if s[1].token == Token::Ident {
                Ok(StatementView::ExitVar { variable: s[1].value })
            } else {
                Err(error_at(ParseErrorKind::InvalidExitValue, s[1]))
            },
            _ => Err(error_at(ParseErrorKind::InvalidFirstToken, s[0])),
        }
    }
}

/// The mathematical value of what the parser returns.
pub open spec fn result_view(out: Result<Statement, ParseError>) -> Result<
    StatementView,
    ParseErrorView,
> {
    match out {
        Ok(statement) => Ok(statement@),
        Err(error) => Err(error@),
    }
}

/// Counts the tokens before the first `EOL`.
fn count_statement_tokens(vec: &Vec<Tokenized>) -> (n: usize)
    ensures
        n == statement_len(tokens_view(vec@)),
        n <= vec.len(),
{
    let ghost all = tokens_view(vec@);
    let mut n: usize = 0;
    while n < vec.len() && vec[n].token != Token::EOL
        invariant
            n <= vec.len(),
            all == tokens_view(vec@),
            forall|j: int| 0 <= j < n ==> (#[trigger] all[j]).token != Token::EOL,
        decreases vec.len() - n,
    {
        n += 1;
    }
    proof {
        lemma_statement_len(all, n as int);
    }
    n
}

/// Reads the operands of a print statement from the tokens `1..n`.
fn parse_say(vec: &Vec<Tokenized>, n: usize) -> (out: Option<Result<Statement, ParseError>>)
    requires
        1 <= n <= vec.len(),
        n == statement_len(tokens_view(vec@)),
        tokens_view(vec@)[0].token == Token::Say,
    ensures
        out is Some <==> literals_readable(tokens_view(vec@)),
        out matches Some(result) ==> result_view(result) == parse_spec(tokens_view(vec@)),
{
    let ghost s = statement_tokens(tokens_view(vec@));
    let mut expressions: Vec<Expression> = Vec::new();
    let mut i: usize = 1;
    assert(expressions_view(expressions@) =~= Seq::new(0, |k: int| operand_of(s[k + 1])));
    while i < n
        invariant
            1 <= i <= n <= vec.len(),
            s == tokens_view(vec@).take(n as int),
            s == statement_tokens(tokens_view(vec@)),
            s[0].token == Token::Say,
            forall|j: int| 1 <= j < i ==> is_operand((#[trigger] s[j]).token) && literal_ok(s[j]),
            expressions_view(expressions@) == Seq::new(
                (i - 1) as nat,
                |k: int| operand_of(s[k + 1]),
            ),
        decreases n - i,
    {
        let t = &vec[i];
        assert(s[i as int] == t@);
        let ghost before = expressions_view(expressions@);
        let expression = match t.token {
            Token::Ident => Expression::Ident(t.value.clone()),
            Token::Integer => match read_int(t.value.as_str()) {
                Some(value) => Expression::Integer(value),
                None => {
                    proof {
                        lemma_operands_end(s, 1, i + 1);
                        assert(!literal_ok(s[i as int]));
                    }
                    return None;
                },
            },
            Token::Float => match FloatLiteral::read(t.value.as_str()) {
                Some(value) => Expression::Float(value),
                None => {
                    proof {
                        lemma_operands_end(s, 1, i + 1);
                        assert(!literal_ok(s[i as int]));
                    }
                    return None;
                },
            },
            Token::String => Expression::String(t.value.clone()),
            _ => {
                proof {
                    lemma_operands_end(s, 1, i as int);
                }
                return Some(Err(make_error(ParseErrorKind::NotAllowedInPrint, t)));
            },
        };
        assert(expression@ == operand_of(s[i as int]));
        expressions.push(expression);
        proof {
            assert(expressions_view(expressions@) =~= before.push(operand_of(s[i as int])));
            assert(before.push(operand_of(s[i as int])) =~= Seq::new(
                i as nat,
                |k: int| operand_of(s[k + 1]),
            ));
        }
        i += 1;
    }
    proof {
        lemma_operands_end(s, 1, n as int);
    }
    Some(Ok(Statement::Say { expressions }))
}

/// Parses the tokens of one line wherever every literal that the statement
/// is made from can be read; `None` where one cannot.
pub fn try_parse(vec: &Vec<Tokenized>) -> (out: Option<Result<Statement, ParseError>>)
    ensures
        out is Some <==> literals_readable(tokens_view(vec@)),
        out matches Some(result) ==> result_view(result) == parse_spec(tokens_view(vec@)),
{
    let n = count_statement_tokens(vec);
    let ghost s = statement_tokens(tokens_view(vec@));
    if n == 0 {
        return Some(Ok(Statement::NoOp {  }));
    }
    let first = &vec[0];
    assert(s[0] == first@);
    match first.token {
        Token::Unknown => Some(Err(make_error(ParseErrorKind::UnknownToken, first))),
        Token::Ident => {
            if n != 3 || vec[1].token != Token::Assign {
                assert(n >= 2 ==> s[1] == vec[1]@);
                return Some(Err(make_error(ParseErrorKind::MalformedAssignment, first)));
            }
            let value = &vec[2];
            assert(s[1] == vec[1]@);
            assert(s[2] == value@);
            match value.token {
                Token::Integer => match read_int(value.value.as_str()) {
                    Some(number) => Some(
                        Ok(Statement::AssignInteger { ident: first.value.clone(), value: number }),
                    ),
                    None => None,
                },
                Token::Float => match FloatLiteral::read(value.value.as_str()) {
                    Some(number) => Some(
                        Ok(Statement::AssignFloat { ident: first.value.clone(), value: number }),
                    ),
                    None => None,
                },
                Token::String => Some(
                    Ok(
                        Statement::AssignString {
                            ident: first.value.clone(),
                            value: value.value.clone(),
                        },
                    ),
                ),
                _ => Some(Err(make_error(ParseErrorKind::InvalidValue, value))),
            }
        },
        Token::Say => parse_say(vec, n),
        Token::TheAnswerIs => {
            if n < 2 {
                return Some(Err(make_error(ParseErrorKind::InvalidExitValue, first)));
            }
            let next = &vec[1];
            assert(s[1] == next@);
            if next.token == Token::Integer {
                if n > 2 {
                    assert(s[2] == vec[2]@);
                    return Some(Err(make_error(ParseErrorKind::TooManyExitValues, &vec[2])));
                }
                match read_int(next.value.as_str()) {
                    Some(code) => Some(Ok(Statement::ExitCode { code })),
                    None => None,
                }
            } else if next.token == Token::Ident {
                Some(Ok(Statement::ExitVar { variable: next.value.clone() }))
            } else {
                Some(Err(make_error(ParseErrorKind::InvalidExitValue, next)))
            }
        },
        _ => Some(Err(make_error(ParseErrorKind::InvalidFirstToken, first))),
    }
}

/// Whether every literal that the statement is made from can be read.
pub fn can_parse(vec: &Vec<Tokenized>) -> (out: bool)
    ensures
        out == literals_readable(tokens_view(vec@)),
{
    try_parse(vec).is_some()
}

/// Parses the tokens of one line into its statement, or reports the syntax
/// error.
pub fn parse(vec: &Vec<Tokenized>) -> (out: Result<Statement, ParseError>)
    requires
        literals_readable(tokens_view(vec@)),
    ensures
        result_view(out) == parse_spec(tokens_view(vec@)),
{
    try_parse(vec).unwrap()
}

/// An identifier, the assignment keyword and an integer literal make the
/// assignment of the literal's number to the identifier, whatever the name
/// and whatever stands behind the end of the line.
pub proof fn lemma_integer_assignment(tokens: Seq<TokenView>)
    requires
        tokens.len() >= 3,
        tokens[0].token == Token::Ident,
        tokens[1].token == Token::Assign,
        tokens[2].token == Token::Integer,
        tokens.len() > 3 ==> tokens[3].token == Token::EOL,
    ensures
        parse_spec(tokens) == Ok::<StatementView, ParseErrorView>(
            StatementView::AssignInteger {
                ident: tokens[0].value,
                value: int_literal_value(tokens[2].value) as i64,
            },
        ),
        literals_readable(tokens) <==> fits_i64(tokens[2].value),
{
    lemma_statement_len(tokens, 3);
}

/// A print statement whose tokens behind the keyword are all operands
/// prints one operand for each of them, in their order.
pub proof fn lemma_print_keeps_order(tokens: Seq<TokenView>)
    requires
        tokens.len() > 0,
        tokens[0].token == Token::Say,
        forall|i: int|
            1 <= i < statement_len(tokens) ==> is_operand((#[trigger] tokens[i]).token),
    ensures
        parse_spec(tokens) matches Ok(StatementView::Say { expressions })
            && expressions.len() == statement_len(tokens) - 1
            && forall|k: int|
            0 <= k < expressions.len() ==> #[trigger] expressions[k] == operand_of(tokens[k + 1]),
{
    let s = statement_tokens(tokens);
    lemma_statement_len_bound(tokens);
    assert forall|j: int| 1 <= j < s.len() implies is_operand((#[trigger] s[j]).token) by {
        assert(s[j] == tokens[j]);
    }
    lemma_operands_end(s, 1, s.len() as int);
}

/// A print statement that holds another token than an identifier, an
/// integer, a float or a string behind its keyword is a syntax error, found
/// at the first such token.
pub proof fn lemma_print_refuses(tokens: Seq<TokenView>, at: int)
    requires
        tokens.len() > 0,
        tokens[0].token == Token::Say,
        1 <= at < statement_len(tokens),
        !is_operand(tokens[at].token),
        forall|i: int| 1 <= i < at ==> is_operand((#[trigger] tokens[i]).token),
    ensures
        parse_spec(tokens) == Err::<StatementView, ParseErrorView>(
            error_at(ParseErrorKind::NotAllowedInPrint, tokens[at]),
        ),
{
    let s = statement_tokens(tokens);
    lemma_statement_len_bound(tokens);
    assert forall|j: int| 1 <= j < at implies is_operand((#[trigger] s[j]).token) by {
        assert(s[j] == tokens[j]);
    }
    assert(s[at] == tokens[at]);
    lemma_operands_end(s, 1, at);
}

/// The statement ends within the tokens, at an `EOL` or at their end, and
/// holds no `EOL`.
pub proof fn lemma_statement_len_bound(tokens: Seq<TokenView>)
    ensures
        0 <= statement_len(tokens) <= tokens.len(),
        statement_len(tokens) < tokens.len() ==> tokens[statement_len(tokens)].token
            == Token::EOL,
        forall|j: int|
            0 <= j < statement_len(tokens) ==> (#[trigger] tokens[j]).token != Token::EOL,
    decreases tokens.len(),
{
    if tokens.len() == 0 || tokens.first().token == Token::EOL {
    } else {
        let rest = tokens.drop_first();
        lemma_statement_len_bound(rest);
        assert forall|j: int| 0 <= j < statement_len(tokens) implies (#[trigger] tokens[j]).token
            != Token::EOL by {
            if j > 0 {
                assert(tokens[j] == rest[j - 1]);
            }
        }
        if statement_len(tokens) < tokens.len() {
            assert(tokens[statement_len(tokens)] == rest[statement_len(rest)]);
        }
    }
}

/// The exit keyword with one integer and nothing else is the exit with
/// that integer as its code.
pub proof fn lemma_exit_with_code(tokens: Seq<TokenView>)
    requires
        statement_len(tokens) == 2,
        tokens[0].token == Token::TheAnswerIs,
        tokens[1].token == Token::Integer,
    ensures
        parse_spec(tokens) == Ok::<StatementView, ParseErrorView>(
            StatementView::ExitCode { code: int_literal_value(tokens[1].value) as i64 },
        ),
{
    lemma_statement_len_bound(tokens);
}

/// The exit keyword with an integer and anything behind it is a syntax
/// error: only one exit value is allowed.
pub proof fn lemma_exit_takes_one_value(tokens: Seq<TokenView>)
    requires
        statement_len(tokens) > 2,
        tokens[0].token == Token::TheAnswerIs,
        tokens[1].token == Token::Integer,
    ensures
        parse_spec(tokens) == Err::<StatementView, ParseErrorView>(
            error_at(ParseErrorKind::TooManyExitValues, tokens[2]),
        ),
{
    lemma_statement_len_bound(tokens);
}

/// An identifier that is not followed by the assignment keyword and exactly
/// one more token is a syntax error.
pub proof fn lemma_identifier_needs_assignment(tokens: Seq<TokenView>)
    requires
        statement_len(tokens) >= 1,
        tokens[0].token == Token::Ident,
        statement_len(tokens) != 3 || tokens[1].token != Token::Assign,
    ensures
        parse_spec(tokens) == Err::<StatementView, ParseErrorView>(
            error_at(ParseErrorKind::MalformedAssignment, tokens[0]),
        ),
{
    lemma_statement_len_bound(tokens);
}

/// A syntax error points at a token of the statement: it carries the line,
/// the start column, the kind and the text of one of the tokens before the
/// first `EOL`.
pub proof fn lemma_error_points_at_token(tokens: Seq<TokenView>)
    requires
        parse_spec(tokens) is Err,
    ensures
        exists|i: int|
            0 <= i < statement_len(tokens) && parse_spec(tokens)->Err_0 == error_at(
                parse_spec(tokens)->Err_0.kind,
                #[trigger] tokens[i],
            ),
{
    let s = statement_tokens(tokens);
    lemma_statement_len_bound(tokens);
    let error = parse_spec(tokens)->Err_0;
    assert(s.len() > 0);
    assert(s[0] == tokens[0]);
    match s[0].token {
        Token::Ident => {
            if s.len() == 3 && s[1].token == Token::Assign {
                assert(s[2] == tokens[2]);
                assert(error == error_at(error.kind, tokens[2]));
            } else {
                assert(error == error_at(error.kind, tokens[0]));
            }
        },
        Token::Say => {
            let at = operands_end(s, 1);
            lemma_operands_end_bound(s, 1);
            assert(s[at] == tokens[at]);
            assert(error == error_at(error.kind, tokens[at]));
        },
        Token::TheAnswerIs => {
            if s.len() < 2 {
                assert(error == error_at(error.kind, tokens[0]));
            } else if s[1].token == Token::Integer {
                assert(s[2] == tokens[2]);
                assert(error == error_at(error.kind, tokens[2]));
            } else {
                assert(s[1] == tokens[1]);
                assert(error == error_at(error.kind, tokens[1]));
            }
        },
        _ => {
            assert(error == error_at(error.kind, tokens[0]));
        },
    }
}

} // verus!
