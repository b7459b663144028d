//! The tokenizer: one source line to an ordered stream of tokens.
//!
//! A line is searched for each kind of token in a fixed order of priority.
//! A candidate span is accepted unless it collides with a span accepted
//! before it; a comment also removes what was accepted behind its marker.
//! The accepted tokens are then put in the order of their position, every
//! stretch of text between them that is not blank becomes an `Unknown`
//! token, and an `EOL` token closes the line.
//!
//! Columns count bytes and start at 1: a token that covers the bytes
//! `a..b` of its line has `start == a + 1` and `stop == b + 1`.

use crate::patterns::{
    candidates, candidates_in_text, capture_in_text, captures_in_text, ends_with_delimiter,
    is_blank, starts_with_delimiter, PatternRegistry, RawCapture,
};
use crate::stream::{lemma_unknown_tokens, unknown_is_text};
use crate::text::{
    byte_len, decimal, decimal_text, is_span, line_len, slice_text, split_range, text_after,
    text_before, trim, trimmed,
};
use vstd::prelude::*;
use vstd::string::*;

verus! {

/// The kinds of token.
#[derive(Debug, PartialEq, Eq, Copy, Clone, Structural)]
pub enum Token {
    Assign,
    Ident,
    Integer,
    Float,
    String,
    Comment,
    Say,
    TheAnswerIs,
    EOL,
    Unknown,
}

/// A token with its text and its place in the source.
#[derive(Debug)]
pub struct Tokenized {
    pub line: usize,
    pub start: usize,
    pub stop: usize,
    pub token: Token,
    pub value: String,
}

/// The mathematical value of a [`Tokenized`]: the same fields, the text as a
/// sequence of characters.
pub struct TokenView {
    pub line: usize,
    pub start: usize,
    pub stop: usize,
    pub token: Token,
    pub value: Seq<char>,
}

impl View for Tokenized {
    type V = TokenView;

    open spec fn view(&self) -> TokenView {
        TokenView {
            line: self.line,
            start: self.start,
            stop: self.stop,
            token: self.token,
            value: self.value@,
        }
    }
}

/// The views of a sequence of tokens.
pub open spec fn tokens_view(tokens: Seq<Tokenized>) -> Seq<TokenView> {
    tokens.map_values(|t: Tokenized| t@)
}

/// Viewing commutes with appending a token.
pub proof fn lemma_view_push(tokens: Seq<Tokenized>, t: Tokenized)
    ensures
        tokens_view(tokens.push(t)) == tokens_view(tokens).push(t@),
{
    assert(tokens_view(tokens.push(t)) =~= tokens_view(tokens).push(t@));
}

/// Viewing commutes with inserting a token.
pub proof fn lemma_view_insert(tokens: Seq<Tokenized>, at: int, t: Tokenized)
    requires
        0 <= at <= tokens.len(),
    ensures
        tokens_view(tokens.insert(at, t)) == tokens_view(tokens).insert(at, t@),
{
    assert(tokens_view(tokens.insert(at, t)) =~= tokens_view(tokens).insert(at, t@));
}

/// A copy of a token.
pub fn copy_token(t: &Tokenized) -> (out: Tokenized)
    ensures
        out == *t,
{
    Tokenized { line: t.line, start: t.start, stop: t.stop, token: t.token, value: t.value.clone() }
}

/// The token covers a span of the line: its columns are the offsets of the
/// span, counted from 1.
pub open spec fn token_in_line(t: TokenView, line: Seq<char>) -> bool {
    &&& t.start >= 1
    &&& is_span(line, t.start - 1, t.stop - 1)
}

/// Every token of the sequence covers a span of the line.
pub open spec fn tokens_in_line(tokens: Seq<TokenView>, line: Seq<char>) -> bool {
    forall|i: int| 0 <= i < tokens.len() ==> token_in_line(#[trigger] tokens[i], line)
}

/// The delimiter rule for the span `first..last` of a line: the text before
/// it, if there is any, ends with a delimiter, and the text after it, if
/// there is any, starts with one.
pub open spec fn delimited(line: Seq<char>, first: int, last: int) -> bool {
    &&& first > 0 ==> ends_with_delimiter(slice_text(line, 0, first))
    &&& last < byte_len(line) ==> starts_with_delimiter(
        slice_text(line, last, byte_len(line) as int),
    )
}

/// Tests the delimiter rule for a span of the line.
pub fn check_start_end(registry: &PatternRegistry, line: &str, first: &usize, last: &usize) -> (out:
    bool)
    requires
        is_span(line@, *first as int, *last as int),
    ensures
        out == delimited(line@, *first as int, *last as int),
{
    broadcast use vstd::utf8::group_utf8_lib;

    if *first > 0 {
        if !registry.delimiter_before(text_before(line, *first)) {
            return false;
        }
    }
    if *last < line_len(line) {
        if !registry.delimiter_after(text_after(line, *last)) {
            return false;
        }
    }
    true
}

/// The collision rule between a new span `first..last` and one accepted
/// span: an end of the new span lies strictly inside the accepted one, or,
/// unless `only_inside`, the new span covers the accepted one.
pub open spec fn collides(first: int, last: int, bound: (usize, usize), only_inside: bool) -> bool {
    ||| bound.0 < first < bound.1
    ||| bound.0 < last < bound.1
    ||| !only_inside && first <= bound.0 && last >= bound.1
}

/// The new span collides with one of the accepted spans.
pub open spec fn in_bounds(
    first: int,
    last: int,
    bounds: Seq<(usize, usize)>,
    only_inside: bool,
) -> bool {
    exists|i: int| 0 <= i < bounds.len() && collides(first, last, #[trigger] bounds[i], only_inside)
}

/// Tests a new span against the accepted spans.
pub fn check_if_in_bounds(
    first: &usize,
    last: &usize,
    boundaries: &Vec<(usize, usize)>,
    only_inside: bool,
) -> (out: bool)
    ensures
        out == in_bounds(*first as int, *last as int, boundaries@, only_inside),
{
    let mut i: usize = 0;
    while i < boundaries.len()
        invariant
            i <= boundaries.len(),
            forall|j: int|
                0 <= j < i ==> !collides(
                    *first as int,
                    *last as int,
                    #[trigger] boundaries@[j],
                    only_inside,
                ),
        decreases boundaries.len() - i,
    {
        let boundary = boundaries[i];
        if (*first > boundary.0 && *first < boundary.1) || (*last > boundary.0 && *last
            < boundary.1) || (!only_inside && *first <= boundary.0 && *last >= boundary.1) {
            return true;
        }
        i += 1;
    }
    false
}

/// The span whose text a capture gives to its token: the first group, or
/// the whole match where the group took no part.
pub open spec fn lexeme_span(cap: RawCapture) -> (usize, usize) {
    match cap.2 {
        Some(group) => group,
        None => (cap.0, cap.1),
    }
}

/// The token that a capture of the given kind stands for in line number
/// `index` (counted from 0).
pub open spec fn token_at(
    cap: RawCapture,
    kind: Token,
    line: Seq<char>,
    index: usize,
) -> TokenView {
    TokenView {
        line: (index + 1) as usize,
        start: (cap.0 + 1) as usize,
        stop: (cap.1 + 1) as usize,
        token: kind,
        value: slice_text(line, lexeme_span(cap).0 as int, lexeme_span(cap).1 as int),
    }
}

/// Whether a candidate is accepted beside the spans accepted so far. A
/// comment needs no delimiters and may cover accepted spans.
pub open spec fn accepts(
    bounds: Seq<(usize, usize)>,
    cap: RawCapture,
    kind: Token,
    line: Seq<char>,
) -> bool {
    &&& kind == Token::Comment || delimited(line, cap.0 as int, cap.1 as int)
    &&& !in_bounds(cap.0 as int, cap.1 as int, bounds, kind == Token::Comment)
}

/// The state of the search through one line: the tokens accepted so far and
/// the spans that later candidates are tested against.
pub struct Scan {
    pub tokens: Seq<TokenView>,
    pub bounds: Seq<(usize, usize)>,
}

/// The state after one candidate was offered.
pub open spec fn accept(
    scan: Scan,
    cap: RawCapture,
    kind: Token,
    line: Seq<char>,
    index: usize,
) -> Scan {
    if accepts(scan.bounds, cap, kind, line) {
        Scan {
            tokens: scan.tokens.push(token_at(cap, kind, line, index)),
            bounds: scan.bounds.push((cap.0, cap.1)),
        }
    } else {
        scan
    }
}

/// Offers one candidate: if it is accepted, its token is appended to `vec`
/// and its span to `boundaries`; if not, both stay as they are.
pub fn append_match(
    registry: &PatternRegistry,
    vec: &mut Vec<Tokenized>,
    cap: &RawCapture,
    t: Token,
    line: &str,
    e: &usize,
    boundaries: &mut Vec<(usize, usize)>,
)
    requires
        capture_in_text(*cap, line@),
        byte_len(line@) < usize::MAX,
        *e < usize::MAX,
    ensures
        accept(
            Scan { tokens: tokens_view(old(vec)@), bounds: old(boundaries)@ },
            *cap,
            t,
            line@,
            *e,
        ) == (Scan { tokens: tokens_view(final(vec)@), bounds: final(boundaries)@ }),
        !accepts(old(boundaries)@, *cap, t, line@) ==> *final(vec) == *old(vec),
{
    let first = cap.0;
    let last = cap.1;
    let comment = t == Token::Comment;
    if comment || check_start_end(registry, line, &first, &last) {
        if !check_if_in_bounds(&first, &last, boundaries, comment) {
            let span = match cap.2 {
                Some(group) => group,
                None => (first, last),
            };
            let token = Tokenized {
                token: t,
                value: split_range(&span.0, &span.1, line),
                line: *e + 1,
                start: first + 1,
                stop: last + 1,
            };
            proof {
                lemma_view_push(vec@, token);
            }
            vec.push(token);
            boundaries.push((first, last));
        }
    }
}

/// The tokens that start before a column, in their order.
pub open spec fn discard_from(tokens: Seq<TokenView>, column: int) -> Seq<TokenView>
    decreases tokens.len(),
{
    if tokens.len() == 0 {
        tokens
    } else {
        let rest = discard_from(tokens.drop_last(), column);
        if tokens.last().start < column {
            rest.push(tokens.last())
        } else {
            rest
        }
    }
}

/// Removes the tokens that start at or behind a column.
pub fn discard_behind(vec: &mut Vec<Tokenized>, column: usize)
    ensures
        tokens_view(final(vec)@) == discard_from(tokens_view(old(vec)@), column as int),
{
    let mut kept: Vec<Tokenized> = Vec::new();
    let mut i: usize = 0;
    let ghost all = tokens_view(vec@);
    while i < vec.len()
        invariant
            i <= vec.len(),
            all == tokens_view(vec@),
            tokens_view(kept@) == discard_from(all.take(i as int), column as int),
        decreases vec.len() - i,
    {
        proof {
            assert(all.take(i + 1).drop_last() == all.take(i as int));
        }
        if vec[i].start < column {
            let token = copy_token(&vec[i]);
            proof {
                lemma_view_push(kept@, token);
            }
            kept.push(token);
        }
        i += 1;
    }
    proof {
        assert(all.take(vec.len() as int) == all);
    }
    *vec = kept;
}

/// The state after all candidates of one kind were offered in turn. Before
/// a comment is offered, the tokens that start at or behind its marker are
/// removed; their spans stay in force.
pub open spec fn scan_with(
    scan: Scan,
    caps: Seq<RawCapture>,
    kind: Token,
    line: Seq<char>,
    index: usize,
) -> Scan
    decreases caps.len(),
{
    if caps.len() == 0 {
        scan
    } else {
        let before = scan_with(scan, caps.drop_last(), kind, line, index);
        let cap = caps.last();
        if kind == Token::Comment {
            accept(
                Scan { tokens: discard_from(before.tokens, cap.0 + 1), bounds: before.bounds },
                cap,
                kind,
                line,
                index,
            )
        } else {
            accept(before, cap, kind, line, index)
        }
    }
}

/// Searches the line for one kind of token and offers every candidate.
pub fn scan_kind(
    registry: &PatternRegistry,
    kind: Token,
    line: &str,
    e: usize,
    vec: &mut Vec<Tokenized>,
    boundaries: &mut Vec<(usize, usize)>,
)
    requires
        byte_len(line@) < usize::MAX,
        e < usize::MAX,
        tokens_in_line(tokens_view(old(vec)@), line@),
    ensures
        scan_with(
            Scan { tokens: tokens_view(old(vec)@), bounds: old(boundaries)@ },
            candidates(kind, line@),
            kind,
            line@,
            e,
        ) == (Scan { tokens: tokens_view(final(vec)@), bounds: final(boundaries)@ }),
        tokens_in_line(tokens_view(final(vec)@), line@),
        captures_in_text(candidates(kind, line@), line@),
{
    let caps = registry.scan(kind, line);
    let ghost start = Scan { tokens: tokens_view(vec@), bounds: boundaries@ };
    proof {
        lemma_scan_keeps(start, caps@, kind, line@, e, |t: TokenView| token_in_line(t, line@));
    }
    let mut i: usize = 0;
    while i < caps.len()
        invariant
            i <= caps.len(),
            byte_len(line@) < usize::MAX,
            e < usize::MAX,
            captures_in_text(caps@, line@),
            scan_with(start, caps@.take(i as int), kind, line@, e) == (Scan {
                tokens: tokens_view(vec@),
                bounds: boundaries@,
            }),
        decreases caps.len() - i,
    {
        proof {
            assert(caps@.take(i + 1).drop_last() == caps@.take(i as int));
        }
        let cap = caps[i];
        if kind == Token::Comment {
            discard_behind(vec, cap.0 + 1);
        }
        append_match(registry, vec, &cap, kind, line, &e, boundaries);
        i += 1;
    }
    proof {
        assert(caps@.take(caps.len() as int) == caps@);
    }
}

/// The tokens and spans accepted in a line, after every kind was searched
/// for in the order of priority: string literals, comments, floats,
/// integers, then the three keywords, then identifiers.
pub open spec fn scan_line(line: Seq<char>, index: usize) -> Scan {
    let s0 = Scan { tokens: Seq::empty(), bounds: Seq::empty() };
    let s1 = scan_with(s0, candidates(Token::String, line), Token::String, line, index);
    let s2 = scan_with(s1, candidates(Token::Comment, line), Token::Comment, line, index);
    let s3 = scan_with(s2, candidates(Token::Float, line), Token::Float, line, index);
    let s4 = scan_with(s3, candidates(Token::Integer, line), Token::Integer, line, index);
    let s5 = scan_with(s4, candidates(Token::Assign, line), Token::Assign, line, index);
    let s6 = scan_with(s5, candidates(Token::Say, line), Token::Say, line, index);
    let s7 = scan_with(s6, candidates(Token::TheAnswerIs, line), Token::TheAnswerIs, line, index);
    scan_with(s7, candidates(Token::Ident, line), Token::Ident, line, index)
}

/// Where a token with the given start column goes into a sequence ordered
/// by start: behind the last token that does not start later.
pub open spec fn insert_position(tokens: Seq<TokenView>, start: usize) -> int
    decreases tokens.len(),
{
    if tokens.len() == 0 {
        0
    } else if tokens.last().start <= start {
        tokens.len() as int
    } else {
        insert_position(tokens.drop_last(), start)
    }
}

/// The tokens in the order of their start column; tokens with the same
/// start keep the order they had.
pub open spec fn order_by_start(tokens: Seq<TokenView>) -> Seq<TokenView>
    decreases tokens.len(),
{
    if tokens.len() == 0 {
        tokens
    } else {
        let sorted = order_by_start(tokens.drop_last());
        sorted.insert(insert_position(sorted, tokens.last().start), tokens.last())
    }
}

/// The insert position lies within the sequence.
pub proof fn lemma_insert_position_bound(tokens: Seq<TokenView>, start: usize)
    ensures
        0 <= insert_position(tokens, start) <= tokens.len(),
    decreases tokens.len(),
{
    if tokens.len() > 0 && tokens.last().start > start {
        lemma_insert_position_bound(tokens.drop_last(), start);
    }
}

/// Puts the tokens in the order of their start column.
pub fn sort_by_start(tokens: &Vec<Tokenized>) -> (out: Vec<Tokenized>)
    ensures
        tokens_view(out@) == order_by_start(tokens_view(tokens@)),
{
    let mut out: Vec<Tokenized> = Vec::new();
    let ghost all = tokens_view(tokens@);
    let mut i: usize = 0;
    while i < tokens.len()
        invariant
            i <= tokens.len(),
            all == tokens_view(tokens@),
            tokens_view(out@) == order_by_start(all.take(i as int)),
        decreases tokens.len() - i,
    {
        let token = copy_token(&tokens[i]);
        let ghost sorted = tokens_view(out@);
        let mut at: usize = out.len();
        assert(sorted.take(at as int) == sorted);
        while at > 0 && out[at - 1].start > token.start
            invariant
                at <= out.len(),
                sorted == tokens_view(out@),
                insert_position(sorted, token.start) == insert_position(
                    sorted.take(at as int),
                    token.start,
                ),
            decreases at,
        {
            proof {
                assert(sorted.take(at as int).drop_last() == sorted.take(at - 1));
            }
            at -= 1;
        }
        proof {
            assert(all.take(i + 1).drop_last() == all.take(i as int));
            lemma_view_insert(out@, at as int, token);
        }
        out.insert(at, token);
        i += 1;
    }
    proof {
        assert(all.take(tokens.len() as int) == all);
    }
    out
}

/// The `Unknown` token for the text between the byte offsets `from` and
/// `to` of a line, if that text is not blank: its lexeme is the text without
/// the white space around it, its columns are those of the whole stretch.
pub open spec fn gap_token(line: Seq<char>, index: usize, from: int, to: int) -> Option<TokenView> {
    let text = slice_text(line, from, to);
    if from < to && !is_blank(text) && trimmed(text).len() > 0 {
        Some(
            TokenView {
                line: (index + 1) as usize,
                start: (from + 1) as usize,
                stop: (to + 1) as usize,
                token: Token::Unknown,
                value: trimmed(text),
            },
        )
    } else {
        None
    }
}

/// A stream of tokens and the byte offset up to which the line is covered.
pub struct Covered {
    pub stream: Seq<TokenView>,
    pub end: int,
}

/// The ordered tokens with an `Unknown` token before each one that follows
/// a stretch of text that is not blank.
pub open spec fn fill_gaps(tokens: Seq<TokenView>, line: Seq<char>, index: usize) -> Covered
    decreases tokens.len(),
{
    if tokens.len() == 0 {
        Covered { stream: Seq::empty(), end: 0 }
    } else {
        let before = fill_gaps(tokens.drop_last(), line, index);
        let t = tokens.last();
        let stream = match gap_token(line, index, before.end, t.start - 1) {
            Some(unknown) => before.stream.push(unknown),
            None => before.stream,
        };
        Covered { stream: stream.push(t), end: t.stop - 1 }
    }
}

/// The token that closes a line: it stands at the line's length and has no
/// text.
pub open spec fn eol_token(line: Seq<char>, index: usize) -> TokenView {
    TokenView {
        line: (index + 1) as usize,
        start: byte_len(line) as usize,
        stop: byte_len(line) as usize,
        token: Token::EOL,
        value: Seq::empty(),
    }
}

/// The token stream of one line: the accepted tokens in the order of their
/// position, an `Unknown` token for each stretch of text between them, before
/// the first and behind the last that is not blank, and the closing `EOL`.
pub open spec fn lex_line_spec(line: Seq<char>, index: usize) -> Seq<TokenView> {
    let covered = fill_gaps(order_by_start(scan_line(line, index).tokens), line, index);
    let stream = match gap_token(line, index, covered.end, byte_len(line) as int) {
        Some(unknown) => covered.stream.push(unknown),
        None => covered.stream,
    };
    stream.push(eol_token(line, index))
}

/// Appends the `Unknown` token for a stretch of the line, if it has one.
fn push_gap(
    registry: &PatternRegistry,
    stream: &mut Vec<Tokenized>,
    line: &str,
    e: usize,
    from: usize,
    to: usize,
)
    requires
        byte_len(line@) < usize::MAX,
        e < usize::MAX,
        from < to ==> is_span(line@, from as int, to as int),
    ensures
        tokens_view(final(stream)@) == match gap_token(line@, e, from as int, to as int) {
            Some(unknown) => tokens_view(old(stream)@).push(unknown),
            None => tokens_view(old(stream)@),
        },
        tokens_in_line(tokens_view(old(stream)@), line@) ==> tokens_in_line(
            tokens_view(final(stream)@),
            line@,
        ),
{
    if from < to {
        let text = split_range(&from, &to, line);
        if !registry.blank(text.as_str()) {
            let value = trim(text.as_str());
            if value.as_str().unicode_len() > 0 {
                let unknown = Tokenized {
                    line: e + 1,
                    start: from + 1,
                    stop: to + 1,
                    token: Token::Unknown,
                    value,
                };
                proof {
                    lemma_view_push(stream@, unknown);
                }
                stream.push(unknown);
            }
        }
    }
}

/// Every token of the sequence has the property.
pub open spec fn all_tokens(tokens: Seq<TokenView>, holds: spec_fn(TokenView) -> bool) -> bool {
    forall|i: int| 0 <= i < tokens.len() ==> holds(#[trigger] tokens[i])
}

/// What holds of every token holds of every token but the last.
pub proof fn lemma_all_drop_last(tokens: Seq<TokenView>, holds: spec_fn(TokenView) -> bool)
    requires
        all_tokens(tokens, holds),
        tokens.len() > 0,
    ensures
        all_tokens(tokens.drop_last(), holds),
        holds(tokens.last()),
{
    assert forall|i: int| 0 <= i < tokens.drop_last().len() implies holds(
        #[trigger] tokens.drop_last()[i],
    ) by {
        assert(tokens.drop_last()[i] == tokens[i]);
    }
}

/// Discarding tokens keeps what holds of every token.
pub proof fn lemma_discard_keeps(
    tokens: Seq<TokenView>,
    column: int,
    holds: spec_fn(TokenView) -> bool,
)
    requires
        all_tokens(tokens, holds),
    ensures
        all_tokens(discard_from(tokens, column), holds),
    decreases tokens.len(),
{
    if tokens.len() > 0 {
        lemma_all_drop_last(tokens, holds);
        lemma_discard_keeps(tokens.drop_last(), column, holds);
    }
}

/// Every token that is left after discarding starts before the column.
pub proof fn lemma_discard_starts_before(tokens: Seq<TokenView>, column: int)
    ensures
        all_tokens(discard_from(tokens, column), |t: TokenView| t.start < column),
    decreases tokens.len(),
{
    if tokens.len() > 0 {
        lemma_discard_starts_before(tokens.drop_last(), column);
    }
}

/// Searching for one kind of token keeps what holds of every token, if it
/// holds of the token of every candidate.
pub proof fn lemma_scan_keeps(
    scan: Scan,
    caps: Seq<RawCapture>,
    kind: Token,
    line: Seq<char>,
    index: usize,
    holds: spec_fn(TokenView) -> bool,
)
    requires
        all_tokens(scan.tokens, holds),
        forall|i: int|
            0 <= i < caps.len() ==> holds(token_at(#[trigger] caps[i], kind, line, index)),
    ensures
        all_tokens(scan_with(scan, caps, kind, line, index).tokens, holds),
    decreases caps.len(),
{
    if caps.len() > 0 {
        assert forall|i: int| 0 <= i < caps.drop_last().len() implies holds(
            token_at(#[trigger] caps.drop_last()[i], kind, line, index),
        ) by {
            assert(caps.drop_last()[i] == caps[i]);
        }
        lemma_scan_keeps(scan, caps.drop_last(), kind, line, index, holds);
        let before = scan_with(scan, caps.drop_last(), kind, line, index);
        assert(holds(token_at(caps[caps.len() - 1], kind, line, index)));
        if kind == Token::Comment {
            lemma_discard_keeps(before.tokens, caps.last().0 + 1, holds);
        }
    }
}

/// Ordering keeps what holds of every token.
pub proof fn lemma_order_keeps(tokens: Seq<TokenView>, holds: spec_fn(TokenView) -> bool)
    requires
        all_tokens(tokens, holds),
    ensures
        all_tokens(order_by_start(tokens), holds),
    decreases tokens.len(),
{
    if tokens.len() > 0 {
        lemma_all_drop_last(tokens, holds);
        lemma_order_keeps(tokens.drop_last(), holds);
        let sorted = order_by_start(tokens.drop_last());
        let at = insert_position(sorted, tokens.last().start);
        lemma_insert_position_bound(sorted, tokens.last().start);
        let out = sorted.insert(at, tokens.last());
        assert forall|i: int| 0 <= i < out.len() implies holds(#[trigger] out[i]) by {
            if i < at {
                assert(out[i] == sorted[i]);
            } else if i > at {
                assert(out[i] == sorted[i - 1]);
            }
        }
    }
}

/// Filling the gaps keeps what holds of every token, if it holds of every
/// token that a gap of the line can give.
pub proof fn lemma_fill_gaps_keeps(
    tokens: Seq<TokenView>,
    line: Seq<char>,
    index: usize,
    holds: spec_fn(TokenView) -> bool,
)
    requires
        all_tokens(tokens, holds),
        forall|from: int, to: int|
            (#[trigger] gap_token(line, index, from, to)) matches Some(unknown) ==> holds(unknown),
    ensures
        all_tokens(fill_gaps(tokens, line, index).stream, holds),
    decreases tokens.len(),
{
    if tokens.len() > 0 {
        lemma_all_drop_last(tokens, holds);
        lemma_fill_gaps_keeps(tokens.drop_last(), line, index, holds);
    }
}

/// What holds of the token of every candidate of a line holds of every
/// token that is accepted in the line.
pub proof fn lemma_scan_line_keeps(line: Seq<char>, index: usize, holds: spec_fn(TokenView) -> bool)
    requires
        forall|kind: Token, i: int|
            0 <= i < candidates(kind, line).len() ==> holds(
                token_at(#[trigger] candidates(kind, line)[i], kind, line, index),
            ),
    ensures
        all_tokens(scan_line(line, index).tokens, holds),
{
    let s0 = Scan { tokens: Seq::empty(), bounds: Seq::empty() };
    lemma_scan_keeps(s0, candidates(Token::String, line), Token::String, line, index, holds);
    let s1 = scan_with(s0, candidates(Token::String, line), Token::String, line, index);
    lemma_scan_keeps(s1, candidates(Token::Comment, line), Token::Comment, line, index, holds);
    let s2 = scan_with(s1, candidates(Token::Comment, line), Token::Comment, line, index);
    lemma_scan_keeps(s2, candidates(Token::Float, line), Token::Float, line, index, holds);
    let s3 = scan_with(s2, candidates(Token::Float, line), Token::Float, line, index);
    lemma_scan_keeps(s3, candidates(Token::Integer, line), Token::Integer, line, index, holds);
    let s4 = scan_with(s3, candidates(Token::Integer, line), Token::Integer, line, index);
    lemma_scan_keeps(s4, candidates(Token::Assign, line), Token::Assign, line, index, holds);
    let s5 = scan_with(s4, candidates(Token::Assign, line), Token::Assign, line, index);
    lemma_scan_keeps(s5, candidates(Token::Say, line), Token::Say, line, index, holds);
    let s6 = scan_with(s5, candidates(Token::Say, line), Token::Say, line, index);
    lemma_scan_keeps(
        s6,
        candidates(Token::TheAnswerIs, line),
        Token::TheAnswerIs,
        line,
        index,
        holds,
    );
    let s7 = scan_with(s6, candidates(Token::TheAnswerIs, line), Token::TheAnswerIs, line, index);
    lemma_scan_keeps(s7, candidates(Token::Ident, line), Token::Ident, line, index, holds);
}

/// What holds of the token of every candidate of a line, of every token
/// that a gap of the line can give and of the closing `EOL` holds of every
/// token of the line's stream.
pub proof fn lemma_stream_keeps(line: Seq<char>, index: usize, holds: spec_fn(TokenView) -> bool)
    requires
        forall|kind: Token, i: int|
            0 <= i < candidates(kind, line).len() ==> holds(
                token_at(#[trigger] candidates(kind, line)[i], kind, line, index),
            ),
        forall|from: int, to: int|
            (#[trigger] gap_token(line, index, from, to)) matches Some(unknown) ==> holds(unknown),
        holds(eol_token(line, index)),
    ensures
        all_tokens(lex_line_spec(line, index), holds),
{
    lemma_scan_line_keeps(line, index, holds);
    let accepted = scan_line(line, index).tokens;
    lemma_order_keeps(accepted, holds);
    lemma_fill_gaps_keeps(order_by_start(accepted), line, index, holds);
    let covered = fill_gaps(order_by_start(accepted), line, index);
    let stream = lex_line_spec(line, index);
    assert forall|i: int| 0 <= i < stream.len() implies holds(#[trigger] stream[i]) by {
        if i < covered.stream.len() {
            assert(stream[i] == covered.stream[i]);
        }
    }
}

/// Tokenizes one line. `e` is the number of the line, counted from 0.
pub fn lex_line(registry: &PatternRegistry, line: &str, e: usize) -> (out: Vec<Tokenized>)
    requires
        byte_len(line@) < usize::MAX,
        e < usize::MAX,
    ensures
        tokens_view(out@) == lex_line_spec(line@, e),
        out@.len() > 0,
        out@.last()@ == eol_token(line@, e),
        tokens_in_line(tokens_view(out@).drop_last(), line@),
        all_tokens(tokens_view(out@), |t: TokenView| unknown_is_text(t, line@)),
        candidates_in_text(line@),
{
    broadcast use vstd::utf8::group_utf8_lib;

    let mut accepted: Vec<Tokenized> = Vec::new();
    let mut boundaries: Vec<(usize, usize)> = Vec::new();
    assert(tokens_view(accepted@) =~= Seq::empty());
    scan_kind(registry, Token::String, line, e, &mut accepted, &mut boundaries);
    scan_kind(registry, Token::Comment, line, e, &mut accepted, &mut boundaries);
    scan_kind(registry, Token::Float, line, e, &mut accepted, &mut boundaries);
    scan_kind(registry, Token::Integer, line, e, &mut accepted, &mut boundaries);
    scan_kind(registry, Token::Assign, line, e, &mut accepted, &mut boundaries);
    scan_kind(registry, Token::Say, line, e, &mut accepted, &mut boundaries);
    scan_kind(registry, Token::TheAnswerIs, line, e, &mut accepted, &mut boundaries);
    scan_kind(registry, Token::Ident, line, e, &mut accepted, &mut boundaries);
    assert(tokens_view(accepted@) == scan_line(line@, e).tokens);
    proof {
        assert forall|kind: Token| captures_in_text(#[trigger] candidates(kind, line@), line@) by {
            if kind == Token::EOL || kind == Token::Unknown {
                assert(candidates(kind, line@) =~= Seq::empty());
            }
        }
        lemma_unknown_tokens(line@, e);
    }

    let sorted = sort_by_start(&accepted);
    let ghost ordered = tokens_view(sorted@);
    proof {
        lemma_order_keeps(scan_line(line@, e).tokens, |t: TokenView| token_in_line(t, line@));
    }

    let length = line_len(line);
    let mut stream: Vec<Tokenized> = Vec::new();
    let mut last: usize = 0;
    let mut i: usize = 0;
    assert(tokens_view(stream@) =~= Seq::empty());
    while i < sorted.len()
        invariant
            i <= sorted.len(),
            byte_len(line@) < usize::MAX,
            e < usize::MAX,
            length == byte_len(line@),
            ordered == tokens_view(sorted@),
            tokens_in_line(ordered, line@),
            is_span(line@, last as int, last as int),
            tokens_in_line(tokens_view(stream@), line@),
            fill_gaps(ordered.take(i as int), line@, e) == (Covered {
                stream: tokens_view(stream@),
                end: last as int,
            }),
        decreases sorted.len() - i,
    {
        proof {
            assert(ordered.take(i + 1).drop_last() == ordered.take(i as int));
            assert(token_in_line(ordered[i as int], line@));
        }
        let token = copy_token(&sorted[i]);
        push_gap(registry, &mut stream, line, e, last, token.start - 1);
        last = token.stop - 1;
        proof {
            lemma_view_push(stream@, token);
        }
        stream.push(token);
        i += 1;
    }
    proof {
        assert(ordered.take(sorted.len() as int) == ordered);
    }
    push_gap(registry, &mut stream, line, e, last, length);
    let ghost body = tokens_view(stream@);
    let eol = Tokenized {
        token: Token::EOL,
        value: String::new(),
        line: e + 1,
        start: length,
        stop: length,
    };
    proof {
        lemma_view_push(stream@, eol);
    }
    stream.push(eol);
    assert(tokens_view(stream@).drop_last() =~= body);
    stream
}

/// Viewing commutes with concatenation.
pub proof fn lemma_view_add(first: Seq<Tokenized>, second: Seq<Tokenized>)
    ensures
        tokens_view(first + second) == tokens_view(first) + tokens_view(second),
{
    assert(tokens_view(first + second) =~= tokens_view(first) + tokens_view(second));
}

/// The texts of a list of lines.
pub open spec fn lines_view(lines: Seq<String>) -> Seq<Seq<char>> {
    lines.map_values(|line: String| line@)
}

/// The token stream of a source: the streams of its lines, one behind the
/// other. The first line has the number 0, and its tokens say line 1.
pub open spec fn lex_spec(lines: Seq<Seq<char>>) -> Seq<TokenView>
    decreases lines.len(),
{
    if lines.len() == 0 {
        Seq::empty()
    } else {
        lex_spec(lines.drop_last()) + lex_line_spec(lines.last(), (lines.len() - 1) as usize)
    }
}

/// Tokenizes the lines of a source.
pub fn lex(registry: &PatternRegistry, lines: &Vec<String>) -> (out: Vec<Tokenized>)
    requires
        forall|i: int| 0 <= i < lines.len() ==> byte_len((#[trigger] lines@[i])@) < usize::MAX,
    ensures
        tokens_view(out@) == lex_spec(lines_view(lines@)),
{
    let ghost all = lines_view(lines@);
    let mut tokenized: Vec<Tokenized> = Vec::new();
    let mut e: usize = 0;
    assert(tokens_view(tokenized@) =~= Seq::empty());
    while e < lines.len()
        invariant
            e <= lines.len(),
            all == lines_view(lines@),
            forall|i: int| 0 <= i < lines.len() ==> byte_len((#[trigger] lines@[i])@) < usize::MAX,
            tokens_view(tokenized@) == lex_spec(all.take(e as int)),
        decreases lines.len() - e,
    {
        proof {
            assert(all.take(e + 1).drop_last() == all.take(e as int));
            assert(all.take(e + 1).last() == lines@[e as int]@);
        }
        let mut line_tokenized = lex_line(registry, lines[e].as_str(), e);
        proof {
            lemma_view_add(tokenized@, line_tokenized@);
        }
        tokenized.append(&mut line_tokenized);
        e += 1;
    }
    proof {
        assert(all.take(lines.len() as int) == all);
    }
    tokenized
}

/// The name of a kind of token, as diagnostics show it.
pub open spec fn token_name(kind: Token) -> Seq<char> {
    match kind {
        Token::Assign => "Assign"@,
        Token::Ident => "Ident"@,
        Token::Integer => "Integer"@,
        Token::Float => "Float"@,
        Token::String => "String"@,
        Token::Comment => "Comment"@,
        Token::Say => "Say"@,
        Token::TheAnswerIs => "TheAnswerIs"@,
        Token::EOL => "EOL"@,
        Token::Unknown => "Unknown"@,
    }
}

/// A token as one line of text: its line, its columns, its kind and its
/// text.
pub open spec fn token_text(t: TokenView) -> Seq<char> {
    decimal_text(t.line as nat) + ": "@ + decimal_text(t.start as nat) + ":"@ + decimal_text(
        t.stop as nat,
    ) + " - "@ + token_name(t.token) + " "@ + t.value
}

impl Token {
    /// The name of the kind.
    pub fn name(&self) -> (out: &'static str)
        ensures
            out@ == token_name(*self),
    {
        match self {
            Token::Assign => "Assign",
            Token::Ident => "Ident",
            Token::Integer => "Integer",
            Token::Float => "Float",
            Token::String => "String",
            Token::Comment => "Comment",
            Token::Say => "Say",
            Token::TheAnswerIs => "TheAnswerIs",
            Token::EOL => "EOL",
            Token::Unknown => "Unknown",
        }
    }
}

impl Tokenized {
    /// The token as one line of text, for diagnostics.
    pub fn to_text(&self) -> (out: String)
        ensures
            out@ == token_text(self@),
    {
        let mut out = decimal(self.line);
        out.append(": ");
        out.append(decimal(self.start).as_str());
        out.append(":");
        out.append(decimal(self.stop).as_str());
        out.append(" - ");
        out.append(self.token.name());
        out.append(" ");
        out.append(self.value.as_str());
        out
    }
}

/// The listing of a token stream: each token as its kind and its text
/// behind the mark ` :: `, each `EOL` as the end of a line, and one more end
/// of line to close the listing.
pub open spec fn listing(tokens: Seq<TokenView>) -> Seq<char>
    decreases tokens.len(),
{
    if tokens.len() == 0 {
        Seq::empty()
    } else if tokens.last().token == Token::EOL {
        listing(tokens.drop_last()) + "\n"@
    } else {
        listing(tokens.drop_last()) + " :: "@ + token_name(tokens.last().token) + " "@
            + tokens.last().value
    }
}

/// Lists a token stream for the user.
pub fn list_tokens(tokens: &Vec<Tokenized>) -> (out: String)
    ensures
        out@ == listing(tokens_view(tokens@)) + "\n"@,
{
    let ghost all = tokens_view(tokens@);
    let mut out = String::new();
    let mut i: usize = 0;
    while i < tokens.len()
        invariant
            i <= tokens.len(),
            all == tokens_view(tokens@),
            out@ == listing(all.take(i as int)),
        decreases tokens.len() - i,
    {
        proof {
            assert(all.take(i + 1).drop_last() == all.take(i as int));
            assert(all.take(i + 1).last() == tokens@[i as int]@);
        }
        let token = &tokens[i];
        if token.token == Token::EOL {
            out.append("\n");
        } else {
            out.append(" :: ");
            out.append(token.token.name());
            out.append(" ");
            out.append(token.value.as_str());
        }
        i += 1;
    }
    proof {
        assert(all.take(tokens.len() as int) == all);
    }
    out.append("\n");
    out
}

} // verus!
