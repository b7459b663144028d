//! The data model: statements, the operands of a print statement, and the
//! types and values of variables.

use crate::text::{is_decimal_digit, is_digit, strip_underscores, without_underscores};
use vstd::prelude::*;

verus! {

/// The end of the run of decimal digits that starts at `from`.
pub open spec fn digits_end(s: Seq<char>, from: int) -> int
    decreases s.len() - from,
{
    if 0 <= from < s.len() && is_digit(s[from]) {
        digits_end(s, from + 1)
    } else {
        from
    }
}

/// The shape of a decimal float literal without underscores: an optional
/// minus, an integer part, a point, a fraction, and optionally an `e`, an
/// optional minus and an exponent. Each of the three parts has a digit.
pub open spec fn float_shape(t: Seq<char>) -> bool {
    let a: int = if t.len() > 0 && t[0] == '-' {
        1
    } else {
        0
    };
    let b = digits_end(t, a);
    let c = digits_end(t, b + 1);
    &&& a < b
    &&& b < t.len()
    &&& t[b] == '.'
    &&& b + 1 < c
    &&& c == t.len() || {
        let d: int = if c + 1 < t.len() && t[c + 1] == '-' {
            c + 2
        } else {
            c + 1
        };
        &&& t[c] == 'e'
        &&& d < digits_end(t, d)
        &&& digits_end(t, d) == t.len()
    }
}

/// A text is a float literal if it has the shape of one once its
/// underscores are taken out.
pub open spec fn is_float_literal(s: Seq<char>) -> bool {
    float_shape(without_underscores(s))
}

/// The run of digits from `from` ends at the first position that holds no
/// digit.
pub proof fn lemma_digits_end(s: Seq<char>, from: int, to: int)
    requires
        0 <= from <= to <= s.len(),
        forall|j: int| from <= j < to ==> is_digit(#[trigger] s[j]),
        to < s.len() ==> !is_digit(s[to]),
    ensures
        digits_end(s, from) == to,
    decreases to - from,
{
    if from < to {
        lemma_digits_end(s, from + 1, to);
    }
}

/// Finds the end of the run of decimal digits that starts at `from`.
fn skip_digits(text: &str, from: usize) -> (to: usize)
    requires
        from <= text@.len(),
    ensures
        to == digits_end(text@, from as int),
        from <= to <= text@.len(),
{
    let n = text.unicode_len();
    let mut to: usize = from;
    while to < n && is_decimal_digit(text.get_char(to))
        invariant
            from <= to <= n,
            n == text@.len(),
            forall|j: int| from <= j < to ==> is_digit(#[trigger] text@[j]),
        decreases n - to,
    {
        to += 1;
    }
    proof {
        lemma_digits_end(text@, from as int, to as int);
    }
    to
}

/// Tests a text without underscores for the shape of a float literal.
fn has_float_shape(text: &str) -> (out: bool)
    ensures
        out == float_shape(text@),
{
    let n = text.unicode_len();
    let a: usize = if n > 0 && text.get_char(0) == '-' {
        1
    } else {
        0
    };
    let b = skip_digits(text, a);
    if !(a < b && b < n) {
        return false;
    }
    if text.get_char(b) != '.' {
        return false;
    }
    let c = skip_digits(text, b + 1);
    if !(b + 1 < c) {
        return false;
    }
    if c == n {
        return true;
    }
    if text.get_char(c) != 'e' {
        return false;
    }
    let d: usize = if c + 1 < n && text.get_char(c + 1) == '-' {
        c + 2
    } else {
        c + 1
    };
    let end = skip_digits(text, d);
    d < end && end == n
}

/// A decimal float literal, kept as its text without underscores. It stands
/// for the floating-point number that the text writes.
#[derive(Debug, PartialEq, Eq)]
pub struct FloatLiteral {
    text: String,
}

impl View for FloatLiteral {
    type V = Seq<char>;

    closed spec fn view(&self) -> Seq<char> {
        self.text@
    }
}

impl FloatLiteral {
    /// The text has the shape of a float literal.
    #[verifier::type_invariant]
    spec fn well_formed(&self) -> bool {
        float_shape(self.text@)
    }

    /// Reads a float literal that may hold underscores. `None` if the text
    /// is no float literal.
    pub fn read(value: &str) -> (out: Option<FloatLiteral>)
        ensures
            out is Some <==> is_float_literal(value@),
            out matches Some(literal) ==> literal@ == without_underscores(value@),
    {
        let text = strip_underscores(value);
        if has_float_shape(text.as_str()) {
            Some(FloatLiteral { text })
        } else {
            None
        }
    }

    /// The text of the literal, without underscores.
    pub fn text(&self) -> (out: &str)
        ensures
            out@ == self@,
            float_shape(out@),
    {
        proof {
            use_type_invariant(self);
        }
        self.text.as_str()
    }

    /// A copy of the literal.
    pub fn copy(&self) -> (out: FloatLiteral)
        ensures
            out@ == self@,
    {
        proof {
            use_type_invariant(self);
        }
        FloatLiteral { text: self.text.clone() }
    }
}

/// An operand of a print statement.
#[derive(Debug, PartialEq, Eq)]
pub enum Expression {
    String(String),
    Integer(i64),
    Float(FloatLiteral),
    Ident(String),
}

/// The mathematical value of an [`Expression`].
pub enum ExpressionView {
    String(Seq<char>),
    Integer(i64),
    Float(Seq<char>),
    Ident(Seq<char>),
}

impl View for Expression {
    type V = ExpressionView;

    open spec fn view(&self) -> ExpressionView {
        match self {
            Expression::String(value) => ExpressionView::String(value@),
            Expression::Integer(value) => ExpressionView::Integer(*value),
            Expression::Float(value) => ExpressionView::Float(value@),
            Expression::Ident(name) => ExpressionView::Ident(name@),
        }
    }
}

/// The views of a sequence of expressions.
pub open spec fn expressions_view(expressions: Seq<Expression>) -> Seq<ExpressionView> {
    expressions.map_values(|e: Expression| e@)
}

/// One statement of a program: what one source line says.
#[derive(Debug, PartialEq, Eq)]
#[allow(inconsistent_fields)]
pub enum Statement {
    NoOp {  },
    AssignString { ident: String, value: String },
    AssignInteger { ident: String, value: i64 },
    AssignFloat { ident: String, value: FloatLiteral },
    ExitCode { code: i64 },
    ExitVar { variable: String },
    Say { expressions: Vec<Expression> },
}

/// The mathematical value of a [`Statement`].
#[allow(inconsistent_fields)]
pub enum StatementView {
    NoOp,
    AssignString { ident: Seq<char>, value: Seq<char> },
    AssignInteger { ident: Seq<char>, value: i64 },
    AssignFloat { ident: Seq<char>, value: Seq<char> },
    ExitCode { code: i64 },
    ExitVar { variable: Seq<char> },
    Say { expressions: Seq<ExpressionView> },
}

impl View for Statement {
    type V = StatementView;

    open spec fn view(&self) -> StatementView {
        match self {
            Statement::NoOp {  } => StatementView::NoOp,
            Statement::AssignString { ident, value } => StatementView::AssignString {
                ident: ident@,
                value: value@,
            },
            Statement::AssignInteger { ident, value } => StatementView::AssignInteger {
                ident: ident@,
                value: *value,
            },
            Statement::AssignFloat { ident, value } => StatementView::AssignFloat {
                ident: ident@,
                value: value@,
            },
            Statement::ExitCode { code } => StatementView::ExitCode { code: *code },
            Statement::ExitVar { variable } => StatementView::ExitVar { variable: variable@ },
            Statement::Say { expressions } => StatementView::Say {
                expressions: expressions_view(expressions@),
            },
        }
    }
}

/// The views of a sequence of statements.
pub open spec fn statements_view(statements: Seq<Statement>) -> Seq<StatementView> {
    statements.map_values(|s: Statement| s@)
}

/// The type of a variable, fixed by its first assignment.
#[derive(Debug, Clone, Copy, PartialEq, Eq, Structural)]
pub enum DataType {
    Integer,
    Float,
    String,
}

/// A value that a variable can hold.
#[derive(Debug, PartialEq, Eq)]
#[allow(inconsistent_fields)]
pub enum DataTypeValue {
    Integer { value: i64 },
    Float { value: FloatLiteral },
    String { value: String },
}

/// The mathematical value of a [`DataTypeValue`].
#[allow(inconsistent_fields)]
pub enum ValueView {
    Integer { value: i64 },
    Float { value: Seq<char> },
    String { value: Seq<char> },
}

impl View for DataTypeValue {
    type V = ValueView;

    open spec fn view(&self) -> ValueView {
        match self {
            DataTypeValue::Integer { value } => ValueView::Integer { value: *value },
            DataTypeValue::Float { value } => ValueView::Float { value: value@ },
            DataTypeValue::String { value } => ValueView::String { value: value@ },
        }
    }
}

/// The type of a value.
pub open spec fn type_of(value: ValueView) -> DataType {
    match value {
        ValueView::Integer { .. } => DataType::Integer,
        ValueView::Float { .. } => DataType::Float,
        ValueView::String { .. } => DataType::String,
    }
}

impl DataTypeValue {
    /// The type of the value.
    pub fn data_type(&self) -> (out: DataType)
        ensures
            out == type_of(self@),
    {
        match self {
            DataTypeValue::Integer { .. } => DataType::Integer,
            DataTypeValue::Float { .. } => DataType::Float,
            DataTypeValue::String { .. } => DataType::String,
        }
    }

    /// A copy of the value.
    pub fn copy(&self) -> (out: DataTypeValue)
        ensures
            out@ == self@,
    {
        match self {
            DataTypeValue::Integer { value } => DataTypeValue::Integer { value: *value },
            DataTypeValue::Float { value } => DataTypeValue::Float { value: value.copy() },
            DataTypeValue::String { value } => DataTypeValue::String { value: value.clone() },
        }
    }
}

} // verus!
