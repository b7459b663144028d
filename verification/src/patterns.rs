//! The pattern registry: the regular expressions of the language, compiled
//! once, and the searches that the tokenizer makes with them.
//!
//! Matching is done by the `regex` crate. What a search returns is not
//! computed here; it is named ([`pattern_captures`], [`pattern_matches`]) so
//! that the tokenizer's contracts can speak of it.

use crate::lexer::Token;
use crate::text::is_span;
use vstd::prelude::*;

verus! {

/// A line comment: a double quote and the rest of the line.
pub const RE_LINE_COMMENT: &'static str = r#""(.*)"#;

/// A string literal between `<<` and `>>`.
pub const RE_STRING: &'static str = r#"<<(.*?)>>"#;

/// The assignment keyword phrase.
pub const RE_ASSIGN: &'static str = r#"(should\s+be)"#;

/// The print keyword.
pub const RE_SAY: &'static str = r#"(say)"#;

/// The exit keyword phrase.
pub const RE_THE_ANSWER_IS: &'static str = r#"(the\s+answer\s+is)"#;

/// An integer literal: optional minus, digits, underscores between digits.
pub const RE_INTEGER: &'static str = r#"(-?[0-9](?:[0-9]|_?[0-9])*)"#;

/// A decimal float literal: integer part, point, fraction, optional exponent.
pub const RE_DECIMAL_FLOAT: &'static str =
    r#"(-?[0-9](?:[0-9]|_?[0-9])*\.[0-9](?:[0-9]|_?[0-9])*(?:e-?[0-9](?:[0-9]|_?[0-9])*)?)"#;

/// An identifier: a letter, symbol or underscore, then letters, symbols,
/// underscores and digits.
pub const RE_IDENT: &'static str =
    r#"([_\p{Sm}\p{Sk}\p{CurrencySymbol}\p{So}\p{Lu}\p{Ll}\p{Lt}\p{Lm}\p{Lo}][_\p{Sm}\p{CurrencySymbol}\p{Sk}\p{So}\p{Lu}\p{Ll}\p{Lt}\p{Lm}\p{Lo}\p{Nd}]*)"#;

/// Text that ends in white space or a double quote.
pub const RE_DELIM_FRONT: &'static str = r#"[\s"]$"#;

/// Text that starts with white space or a double quote.
pub const RE_DELIM_BACK: &'static str = r#"^[\s"]"#;

/// Text that is white space and nothing else.
pub const RE_WHITESPACE: &'static str = r#"^\s+$"#;

/// A compiled regular expression of the `regex` crate.
#[verifier::external_type_specification]
#[verifier::external_body]
pub struct ExRegex(regex::Regex);

/// The error that `regex` reports for a pattern it cannot compile.
#[verifier::external_type_specification]
#[verifier::external_body]
pub struct ExRegexError(regex::Error);

/// One match of a pattern in a line: the byte offsets of the start and the
/// end of the whole match, then those of the first capture group where it
/// took part in the match.
pub type RawCapture = (usize, usize, Option<(usize, usize)>);

/// The pattern text that a compiled expression was built from: what
/// `Regex::as_str` returns.
pub uninterp spec fn pattern_source(re: regex::Regex) -> Seq<char>;

/// Whether `Regex::new` accepts the pattern text.
pub uninterp spec fn pattern_compiles(source: Seq<char>) -> bool;

/// Whether the pattern matches anywhere in the text: what `Regex::is_match`
/// returns for an expression compiled from `source`.
pub uninterp spec fn pattern_matches(source: Seq<char>, text: Seq<char>) -> bool;

/// The successive matches of the pattern in the text, in the order in which
/// `Regex::captures_iter` yields them for an expression compiled from
/// `source`.
pub uninterp spec fn pattern_captures(source: Seq<char>, text: Seq<char>) -> Seq<RawCapture>;

/// `Regex::new` succeeds exactly on the patterns that the crate accepts, a
/// property of the pattern text alone, and the compiled expression keeps the
/// text it was built from.
pub assume_specification[ regex::Regex::new ](re: &str) -> (out: Result<regex::Regex, regex::Error>)
    ensures
        out is Ok <==> pattern_compiles(re@),
        out matches Ok(compiled) ==> pattern_source(compiled) == re@,
;

/// `Regex::is_match` is a function of the pattern and the haystack.
pub assume_specification[ regex::Regex::is_match ](re: &regex::Regex, haystack: &str) -> (out:
    bool)
    ensures
        out == pattern_matches(pattern_source(*re), haystack@),
;

/// Collects what `Regex::captures_iter` yields for `text`, keeping of each
/// match the byte offsets of group 0, which every match has, and of group 1
/// where it took part. The matches are a function of the pattern and the
/// haystack. The crate documents that every offset it reports lies on a
/// character boundary of the haystack, and that the start of a match does
/// not lie behind its end.
#[verifier::external_body]
fn find_captures(re: &regex::Regex, text: &str) -> (out: Vec<RawCapture>)
    ensures
        out@ == pattern_captures(pattern_source(*re), text@),
        captures_in_text(out@, text@),
{
    let mut out: Vec<RawCapture> = Vec::new();
    for caps in re.captures_iter(text) {
        let whole = caps.get(0).unwrap();
        let group = match caps.get(1) {
            Some(m) => Some((m.start(), m.end())),
            None => None,
        };
        out.push((whole.start(), whole.end(), group));
    }
    out
}

/// Every offset of every capture is a span of the text.
pub open spec fn captures_in_text(caps: Seq<RawCapture>, text: Seq<char>) -> bool {
    forall|i: int| 0 <= i < caps.len() ==> capture_in_text(#[trigger] caps[i], text)
}

/// The whole match and the group of one capture are spans of the text.
pub open spec fn capture_in_text(cap: RawCapture, text: Seq<char>) -> bool {
    &&& is_span(text, cap.0 as int, cap.1 as int)
    &&& cap.2 matches Some(g) ==> is_span(text, g.0 as int, g.1 as int)
}

/// The pattern that finds the tokens of a kind, if the kind has one.
pub open spec fn token_pattern(kind: Token) -> Option<Seq<char>> {
    match kind {
        Token::String => Some(RE_STRING@),
        Token::Comment => Some(RE_LINE_COMMENT@),
        Token::Float => Some(RE_DECIMAL_FLOAT@),
        Token::Integer => Some(RE_INTEGER@),
        Token::Assign => Some(RE_ASSIGN@),
        Token::Say => Some(RE_SAY@),
        Token::TheAnswerIs => Some(RE_THE_ANSWER_IS@),
        Token::Ident => Some(RE_IDENT@),
        Token::EOL => None,
        Token::Unknown => None,
    }
}

/// The candidate spans of a token kind in a line: the matches of its
/// pattern, and none for a kind that no pattern finds.
pub open spec fn candidates(kind: Token, line: Seq<char>) -> Seq<RawCapture> {
    match token_pattern(kind) {
        Some(source) => pattern_captures(source, line),
        None => Seq::empty(),
    }
}

/// Every candidate of every kind lies within the line. The searches of the
/// registry find no other candidates.
pub open spec fn candidates_in_text(line: Seq<char>) -> bool {
    forall|kind: Token| captures_in_text(#[trigger] candidates(kind, line), line)
}

/// The delimiter predicate on the text before a span.
pub open spec fn ends_with_delimiter(text: Seq<char>) -> bool {
    pattern_matches(RE_DELIM_FRONT@, text)
}

/// The delimiter predicate on the text after a span.
pub open spec fn starts_with_delimiter(text: Seq<char>) -> bool {
    pattern_matches(RE_DELIM_BACK@, text)
}

/// The blank predicate: nothing, or white space only.
pub open spec fn is_blank(text: Seq<char>) -> bool {
    text.len() == 0 || pattern_matches(RE_WHITESPACE@, text)
}

/// All patterns of the language are accepted by the regex compiler.
pub open spec fn registry_compiles() -> bool {
    &&& pattern_compiles(RE_LINE_COMMENT@)
    &&& pattern_compiles(RE_STRING@)
    &&& pattern_compiles(RE_ASSIGN@)
    &&& pattern_compiles(RE_SAY@)
    &&& pattern_compiles(RE_THE_ANSWER_IS@)
    &&& pattern_compiles(RE_INTEGER@)
    &&& pattern_compiles(RE_DECIMAL_FLOAT@)
    &&& pattern_compiles(RE_IDENT@)
    &&& pattern_compiles(RE_DELIM_FRONT@)
    &&& pattern_compiles(RE_DELIM_BACK@)
    &&& pattern_compiles(RE_WHITESPACE@)
}

/// The compiled patterns of the language. Built once, never changed.
pub struct PatternRegistry {
    line_comment: regex::Regex,
    string_literal: regex::Regex,
    assignment: regex::Regex,
    say: regex::Regex,
    the_answer_is: regex::Regex,
    integer: regex::Regex,
    decimal_float: regex::Regex,
    ident: regex::Regex,
    delim_front: regex::Regex,
    delim_back: regex::Regex,
    whitespace: regex::Regex,
}

impl PatternRegistry {
    /// Each field holds the expression compiled from its pattern.
    #[verifier::type_invariant]
    spec fn well_formed(&self) -> bool {
        &&& pattern_source(self.line_comment) == RE_LINE_COMMENT@
        &&& pattern_source(self.string_literal) == RE_STRING@
        &&& pattern_source(self.assignment) == RE_ASSIGN@
        &&& pattern_source(self.say) == RE_SAY@
        &&& pattern_source(self.the_answer_is) == RE_THE_ANSWER_IS@
        &&& pattern_source(self.integer) == RE_INTEGER@
        &&& pattern_source(self.decimal_float) == RE_DECIMAL_FLOAT@
        &&& pattern_source(self.ident) == RE_IDENT@
        &&& pattern_source(self.delim_front) == RE_DELIM_FRONT@
        &&& pattern_source(self.delim_back) == RE_DELIM_BACK@
        &&& pattern_source(self.whitespace) == RE_WHITESPACE@
    }

    /// Compiles every pattern of the language. `None` if the regex
    /// compiler refuses one of them.
    pub fn new() -> (out: Option<PatternRegistry>)
        ensures
            out is Some <==> registry_compiles(),
    {
        let line_comment = match regex::Regex::new(RE_LINE_COMMENT) {
            Ok(re) => re,
            Err(_) => { return None; },
        };
        let string_literal = match regex::Regex::new(RE_STRING) {
            Ok(re) => re,
            Err(_) => { return None; },
        };
        let assignment = match regex::Regex::new(RE_ASSIGN) {
            Ok(re) => re,
            Err(_) => { return None; },
        };
        let say = match regex::Regex::new(RE_SAY) {
            Ok(re) => re,
            Err(_) => { return None; },
        };
        let the_answer_is = match regex::Regex::new(RE_THE_ANSWER_IS) {
            Ok(re) => re,
            Err(_) => { return None; },
        };
        let integer = match regex::Regex::new(RE_INTEGER) {
            Ok(re) => re,
            Err(_) => { return None; },
        };
        let decimal_float = match regex::Regex::new(RE_DECIMAL_FLOAT) {
            Ok(re) => re,
            Err(_) => { return None; },
        };
        let ident = match regex::Regex::new(RE_IDENT) {
            Ok(re) => re,
            Err(_) => { return None; },
        };
        let delim_front = match regex::Regex::new(RE_DELIM_FRONT) {
            Ok(re) => re,
            Err(_) => { return None; },
        };
        let delim_back = match regex::Regex::new(RE_DELIM_BACK) {
            Ok(re) => re,
            Err(_) => { return None; },
        };
        let whitespace = match regex::Regex::new(RE_WHITESPACE) {
            Ok(re) => re,
            Err(_) => { return None; },
        };
        Some(
            PatternRegistry {
                line_comment,
                string_literal,
                assignment,
                say,
                the_answer_is,
                integer,
                decimal_float,
                ident,
                delim_front,
                delim_back,
                whitespace,
            },
        )
    }

    /// All candidate spans of one token kind in a line, in the order in
    /// which the search finds them.
    pub fn scan(&self, kind: Token, line: &str) -> (out: Vec<RawCapture>)
        ensures
            out@ == candidates(kind, line@),
            captures_in_text(out@, line@),
    {
        proof {
            use_type_invariant(self);
        }
        match kind {
            Token::String => find_captures(&self.string_literal, line),
            Token::Comment => find_captures(&self.line_comment, line),
            Token::Float => find_captures(&self.decimal_float, line),
            Token::Integer => find_captures(&self.integer, line),
            Token::Assign => find_captures(&self.assignment, line),
            Token::Say => find_captures(&self.say, line),
            Token::TheAnswerIs => find_captures(&self.the_answer_is, line),
            Token::Ident => find_captures(&self.ident, line),
            Token::EOL => Vec::new(),
            Token::Unknown => Vec::new(),
        }
    }

    /// The delimiter predicate before a span: does the text end in white
    /// space or a double quote?
    pub fn delimiter_before(&self, text: &str) -> (out: bool)
        ensures
            out == ends_with_delimiter(text@),
    {
        proof {
            use_type_invariant(self);
        }
        self.delim_front.is_match(text)
    }

    /// The delimiter predicate after a span: does the text start with white
    /// space or a double quote?
    pub fn delimiter_after(&self, text: &str) -> (out: bool)
        ensures
            out == starts_with_delimiter(text@),
    {
        proof {
            use_type_invariant(self);
        }
        self.delim_back.is_match(text)
    }

    /// The blank predicate: is the text empty or white space only?
    pub fn blank(&self, text: &str) -> (out: bool)
        ensures
            out == is_blank(text@),
    {
        proof {
            use_type_invariant(self);
        }
        text.is_empty() || self.whitespace.is_match(text)
    }
}

} // verus!
