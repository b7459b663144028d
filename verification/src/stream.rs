//! What holds of every token stream that the tokenizer gives.

use crate::lexer::{
    accept, accepts, all_tokens, collides, discard_from, eol_token, fill_gaps, gap_token,
    insert_position, lemma_all_drop_last, lemma_discard_keeps, lemma_discard_starts_before,
    lemma_fill_gaps_keeps, lemma_insert_position_bound, lemma_order_keeps, lemma_scan_keeps,
    lemma_scan_line_keeps, lemma_stream_keeps, lex, lex_line, lex_line_spec, order_by_start,
    scan_line, scan_with, token_at, token_in_line, tokens_view, Scan,
    Token, TokenView, Tokenized,
};
use crate::patterns::{
    candidates, candidates_in_text, capture_in_text, captures_in_text, PatternRegistry, RawCapture,
};
use crate::text::{byte_len, is_span, is_white_space, lemma_trimmed, slice_text, trimmed};
use vstd::prelude::*;

verus! {

/// No string literal behind a comment marker reaches the parser: in the
/// token stream of a line, every string token starts before every
/// candidate for a comment, whether that candidate became a token or not.
pub proof fn lemma_no_string_behind_comment(line: Seq<char>, index: usize, marker: int, at: int)
    requires
        0 <= marker < candidates(Token::Comment, line).len(),
        0 <= at < lex_line_spec(line, index).len(),
        lex_line_spec(line, index)[at].token == Token::String,
    ensures
        lex_line_spec(line, index)[at].start <= candidates(Token::Comment, line)[marker].0,
{
    let column = candidates(Token::Comment, line)[marker].0 + 1;
    let holds = |t: TokenView| t.token == Token::String ==> t.start < column;
    let s0 = Scan { tokens: Seq::empty(), bounds: Seq::empty() };
    let s1 = scan_with(s0, candidates(Token::String, line), Token::String, line, index);
    let s2 = scan_with(s1, candidates(Token::Comment, line), Token::Comment, line, index);
    lemma_comments_discard_strings(s1, candidates(Token::Comment, line), line, index, marker);
    let s3 = scan_with(s2, candidates(Token::Float, line), Token::Float, line, index);
    lemma_scan_keeps(s2, candidates(Token::Float, line), Token::Float, line, index, holds);
    let s4 = scan_with(s3, candidates(Token::Integer, line), Token::Integer, line, index);
    lemma_scan_keeps(s3, candidates(Token::Integer, line), Token::Integer, line, index, holds);
    let s5 = scan_with(s4, candidates(Token::Assign, line), Token::Assign, line, index);
    lemma_scan_keeps(s4, candidates(Token::Assign, line), Token::Assign, line, index, holds);
    let s6 = scan_with(s5, candidates(Token::Say, line), Token::Say, line, index);
    lemma_scan_keeps(s5, candidates(Token::Say, line), Token::Say, line, index, holds);
    let s7 = scan_with(s6, candidates(Token::TheAnswerIs, line), Token::TheAnswerIs, line, index);
    lemma_scan_keeps(
        s6,
        candidates(Token::TheAnswerIs, line),
        Token::TheAnswerIs,
        line,
        index,
        holds,
    );
    lemma_scan_keeps(s7, candidates(Token::Ident, line), Token::Ident, line, index, holds);
    let accepted = scan_line(line, index).tokens;
    lemma_order_keeps(accepted, holds);
    lemma_fill_gaps_keeps(order_by_start(accepted), line, index, holds);
    let stream = lex_line_spec(line, index);
    assert(all_tokens(stream, holds)) by {
        let covered = fill_gaps(order_by_start(accepted), line, index);
        assert forall|i: int| 0 <= i < stream.len() implies holds(#[trigger] stream[i]) by {
            if i < covered.stream.len() {
                assert(stream[i] == covered.stream[i]);
            }
        }
    }
    assert(holds(stream[at]));
}

/// After the search for comments, every string token that is left starts
/// before each of the candidates.
pub proof fn lemma_comments_discard_strings(
    scan: Scan,
    caps: Seq<RawCapture>,
    line: Seq<char>,
    index: usize,
    marker: int,
)
    requires
        0 <= marker < caps.len(),
    ensures
        all_tokens(
            scan_with(scan, caps, Token::Comment, line, index).tokens,
            |t: TokenView| t.token == Token::String ==> t.start < caps[marker].0 + 1,
        ),
    decreases caps.len(),
{
    let holds = |t: TokenView| t.token == Token::String ==> t.start < caps[marker].0 + 1;
    let before = scan_with(scan, caps.drop_last(), Token::Comment, line, index);
    let column = caps.last().0 + 1;
    let kept = discard_from(before.tokens, column);
    if marker == caps.len() - 1 {
        lemma_discard_starts_before(before.tokens, column);
        assert forall|i: int| 0 <= i < kept.len() implies holds(#[trigger] kept[i]) by {
            assert((|t: TokenView| t.start < column)(kept[i]));
        }
    } else {
        lemma_comments_discard_strings(scan, caps.drop_last(), line, index, marker);
        assert(caps.drop_last()[marker] == caps[marker]);
        lemma_discard_keeps(before.tokens, column, holds);
    }
}

/// A line's stream ends with the `EOL` token of the line, and holds no
/// other `EOL` token.
pub proof fn lemma_stream_ends_with_eol(line: Seq<char>, index: usize)
    ensures
        lex_line_spec(line, index).len() >= 1,
        lex_line_spec(line, index).last() == eol_token(line, index),
        all_tokens(lex_line_spec(line, index).drop_last(), |t: TokenView| t.token != Token::EOL),
{
    let holds = |t: TokenView| t.token != Token::EOL;
    lemma_scan_line_keeps(line, index, holds);
    let accepted = scan_line(line, index).tokens;
    lemma_order_keeps(accepted, holds);
    lemma_fill_gaps_keeps(order_by_start(accepted), line, index, holds);
    let stream = lex_line_spec(line, index);
    let covered = fill_gaps(order_by_start(accepted), line, index);
    assert forall|i: int| 0 <= i < stream.drop_last().len() implies holds(
        #[trigger] stream.drop_last()[i],
    ) by {
        if i < covered.stream.len() {
            assert(stream.drop_last()[i] == covered.stream[i]);
        }
    }
}

/// Tokenizing is a function of the line and its number: whatever registry
/// is used and however often it is done, the stream is the same.
pub proof fn lemma_lexing_is_repeatable(
    first_registry: &PatternRegistry,
    second_registry: &PatternRegistry,
    line: &str,
    e: usize,
    first: Vec<Tokenized>,
    second: Vec<Tokenized>,
)
    requires
        call_ensures(lex_line, (first_registry, line, e), first),
        call_ensures(lex_line, (second_registry, line, e), second),
    ensures
        tokens_view(first@) == tokens_view(second@),
{
}

/// The same holds of a whole source: its token stream is a function of its
/// lines.
pub proof fn lemma_lexing_lines_is_repeatable(
    first_registry: &PatternRegistry,
    second_registry: &PatternRegistry,
    lines: &Vec<String>,
    first: Vec<Tokenized>,
    second: Vec<Tokenized>,
)
    requires
        call_ensures(lex, (first_registry, lines), first),
        call_ensures(lex, (second_registry, lines), second),
    ensures
        tokens_view(first@) == tokens_view(second@),
{
}

/// The token covers at least one byte, and its columns count from 1.
pub open spec fn proper(t: TokenView) -> bool {
    1 <= t.start < t.stop
}

/// Two tokens share no byte.
pub open spec fn apart(x: TokenView, y: TokenView) -> bool {
    x.stop <= y.start || y.stop <= x.start
}

/// No two tokens of the sequence share a byte.
pub open spec fn pairwise_apart(tokens: Seq<TokenView>) -> bool {
    forall|i: int, j: int|
        0 <= i < j < tokens.len() ==> apart(#[trigger] tokens[i], #[trigger] tokens[j])
}

/// Each token ends before the next one starts.
pub open spec fn in_order(tokens: Seq<TokenView>) -> bool {
    forall|i: int, j: int|
        0 <= i < j < tokens.len() ==> (#[trigger] tokens[i]).stop <= (#[trigger] tokens[j]).start
}

/// The span of the token is one of the spans.
pub open spec fn has_bound(t: TokenView, bounds: Seq<(usize, usize)>) -> bool {
    exists|k: int|
        0 <= k < bounds.len() && (#[trigger] bounds[k]).0 == t.start - 1 && bounds[k].1 == t.stop
            - 1
}

/// The state of a search is sound: every token covers at least one byte
/// and has its span among the accepted spans, every accepted span covers at
/// least one byte, and no two tokens share a byte.
pub open spec fn sound(scan: Scan) -> bool {
    &&& all_tokens(scan.tokens, |t: TokenView| proper(t))
    &&& all_tokens(scan.tokens, |t: TokenView| has_bound(t, scan.bounds))
    &&& forall|k: int|
        0 <= k < scan.bounds.len() ==> (#[trigger] scan.bounds[k]).0 < scan.bounds[k].1
    &&& pairwise_apart(scan.tokens)
}

/// The match covers at least one byte, and its offsets can be counted
/// from 1.
pub open spec fn proper_capture(cap: RawCapture) -> bool {
    cap.0 < cap.1 < usize::MAX
}

/// Every match covers at least one byte.
pub open spec fn proper_captures(caps: Seq<RawCapture>) -> bool {
    forall|i: int| 0 <= i < caps.len() ==> proper_capture(#[trigger] caps[i])
}

/// None of the matches is empty.
pub open spec fn no_empty_capture(caps: Seq<RawCapture>) -> bool {
    forall|i: int| 0 <= i < caps.len() ==> (#[trigger] caps[i]).0 < caps[i].1
}

/// No pattern of a token matches the empty text somewhere in the line.
pub open spec fn candidates_not_empty(line: Seq<char>) -> bool {
    forall|kind: Token| no_empty_capture(#[trigger] candidates(kind, line))
}

/// Matches within a line that are not empty can be counted from 1.
pub proof fn lemma_candidates_proper(line: Seq<char>, kind: Token)
    requires
        byte_len(line) < usize::MAX,
        candidates_in_text(line),
        candidates_not_empty(line),
    ensures
        proper_captures(candidates(kind, line)),
{
    let caps = candidates(kind, line);
    assert(captures_in_text(caps, line));
    assert(no_empty_capture(caps));
    assert forall|i: int| 0 <= i < caps.len() implies proper_capture(#[trigger] caps[i]) by {
        assert(capture_in_text(caps[i], line));
    }
}

/// A sequence with one more token is pairwise apart if the sequence is and
/// the token is apart from each of the others.
pub proof fn lemma_push_apart(tokens: Seq<TokenView>, t: TokenView)
    requires
        pairwise_apart(tokens),
        all_tokens(tokens, |x: TokenView| apart(x, t)),
    ensures
        pairwise_apart(tokens.push(t)),
{
    let after = tokens.push(t);
    assert forall|i: int, j: int| 0 <= i < j < after.len() implies apart(
        #[trigger] after[i],
        #[trigger] after[j],
    ) by {
        assert(after[i] == tokens[i]);
        if j < tokens.len() {
            assert(after[j] == tokens[j]);
        }
    }
}

/// In a sequence that is pairwise apart, the last token is apart from each
/// of the others, and these are pairwise apart.
pub proof fn lemma_apart_drop_last(tokens: Seq<TokenView>)
    requires
        pairwise_apart(tokens),
        tokens.len() > 0,
    ensures
        pairwise_apart(tokens.drop_last()),
        all_tokens(tokens.drop_last(), |x: TokenView| apart(x, tokens.last())),
{
    let rest = tokens.drop_last();
    assert forall|i: int, j: int| 0 <= i < j < rest.len() implies apart(
        #[trigger] rest[i],
        #[trigger] rest[j],
    ) by {
        assert(rest[i] == tokens[i]);
        assert(rest[j] == tokens[j]);
    }
    assert forall|i: int| 0 <= i < rest.len() implies apart(#[trigger] rest[i], tokens.last()) by {
        assert(rest[i] == tokens[i]);
        assert(tokens.last() == tokens[tokens.len() - 1]);
    }
}

/// Discarding keeps the tokens pairwise apart.
pub proof fn lemma_discard_apart(tokens: Seq<TokenView>, column: int)
    requires
        pairwise_apart(tokens),
    ensures
        pairwise_apart(discard_from(tokens, column)),
    decreases tokens.len(),
{
    if tokens.len() > 0 {
        lemma_apart_drop_last(tokens);
        lemma_discard_apart(tokens.drop_last(), column);
        let last = tokens.last();
        lemma_discard_keeps(tokens.drop_last(), column, |x: TokenView| apart(x, last));
        if last.start < column {
            lemma_push_apart(discard_from(tokens.drop_last(), column), last);
        }
    }
}

/// Offering a candidate to a sound state leaves a sound state, if every
/// token of the state starts before a comment that is offered.
pub proof fn lemma_accept_sound(
    scan: Scan,
    cap: RawCapture,
    kind: Token,
    line: Seq<char>,
    index: usize,
)
    requires
        sound(scan),
        proper_capture(cap),
        kind == Token::Comment ==> all_tokens(scan.tokens, |t: TokenView| t.start < cap.0 + 1),
    ensures
        sound(accept(scan, cap, kind, line, index)),
{
    if accepts(scan.bounds, cap, kind, line) {
        let t = token_at(cap, kind, line, index);
        let after = accept(scan, cap, kind, line, index);
        assert forall|i: int| 0 <= i < scan.tokens.len() implies apart(
            #[trigger] scan.tokens[i],
            t,
        ) by {
            let x = scan.tokens[i];
            assert(proper(x));
            assert(has_bound(x, scan.bounds));
            let k = choose|k: int|
                0 <= k < scan.bounds.len() && (#[trigger] scan.bounds[k]).0 == x.start - 1
                    && scan.bounds[k].1 == x.stop - 1;
            assert(!collides(cap.0 as int, cap.1 as int, scan.bounds[k], kind == Token::Comment));
            if kind == Token::Comment {
                assert(x.start < cap.0 + 1);
            }
        }
        lemma_push_apart(scan.tokens, t);
        assert forall|i: int| 0 <= i < after.tokens.len() implies has_bound(
            #[trigger] after.tokens[i],
            after.bounds,
        ) by {
            if i < scan.tokens.len() {
                let x = scan.tokens[i];
                assert(after.tokens[i] == x);
                assert(has_bound(x, scan.bounds));
                let k = choose|k: int|
                    0 <= k < scan.bounds.len() && (#[trigger] scan.bounds[k]).0 == x.start - 1
                        && scan.bounds[k].1 == x.stop - 1;
                assert(after.bounds[k] == scan.bounds[k]);
            } else {
                assert(after.bounds[scan.bounds.len() as int] == (cap.0, cap.1));
            }
        }
        assert forall|i: int| 0 <= i < after.tokens.len() implies proper(
            #[trigger] after.tokens[i],
        ) by {
            if i < scan.tokens.len() {
                assert(after.tokens[i] == scan.tokens[i]);
                assert(proper(scan.tokens[i]));
            }
        }
        assert forall|k: int| 0 <= k < after.bounds.len() implies (#[trigger] after.bounds[k]).0
            < after.bounds[k].1 by {
            if k < scan.bounds.len() {
                assert(after.bounds[k] == scan.bounds[k]);
            }
        }
    }
}

/// Searching for one kind of token from a sound state leaves a sound
/// state, if no match is empty.
pub proof fn lemma_scan_sound(
    scan: Scan,
    caps: Seq<RawCapture>,
    kind: Token,
    line: Seq<char>,
    index: usize,
)
    requires
        sound(scan),
        proper_captures(caps),
    ensures
        sound(scan_with(scan, caps, kind, line, index)),
    decreases caps.len(),
{
    if caps.len() > 0 {
        assert forall|i: int| 0 <= i < caps.drop_last().len() implies proper_capture(
            #[trigger] caps.drop_last()[i],
        ) by {
            assert(caps.drop_last()[i] == caps[i]);
        }
        lemma_scan_sound(scan, caps.drop_last(), kind, line, index);
        let before = scan_with(scan, caps.drop_last(), kind, line, index);
        let cap = caps.last();
        assert(proper_capture(caps[caps.len() - 1]));
        if kind == Token::Comment {
            let column = cap.0 + 1;
            let kept = Scan { tokens: discard_from(before.tokens, column), bounds: before.bounds };
            lemma_discard_keeps(before.tokens, column, |t: TokenView| proper(t));
            lemma_discard_keeps(before.tokens, column, |t: TokenView| has_bound(t, before.bounds));
            lemma_discard_apart(before.tokens, column);
            lemma_discard_starts_before(before.tokens, column);
            lemma_accept_sound(kept, cap, kind, line, index);
        } else {
            lemma_accept_sound(before, cap, kind, line, index);
        }
    }
}

/// No token starts before the one in front of it.
pub open spec fn sorted_by_start(tokens: Seq<TokenView>) -> bool {
    forall|i: int, j: int|
        0 <= i < j < tokens.len() ==> (#[trigger] tokens[i]).start <= (#[trigger] tokens[j]).start
}

/// The insert position parts a sorted sequence: what stands before it
/// starts no later than the new token, what stands behind it starts later.
pub proof fn lemma_insert_position(tokens: Seq<TokenView>, start: usize)
    requires
        sorted_by_start(tokens),
    ensures
        0 <= insert_position(tokens, start) <= tokens.len(),
        forall|i: int|
            0 <= i < insert_position(tokens, start) ==> (#[trigger] tokens[i]).start <= start,
        forall|i: int|
            insert_position(tokens, start) <= i < tokens.len() ==> (#[trigger] tokens[i]).start
                > start,
    decreases tokens.len(),
{
    if tokens.len() > 0 {
        if tokens.last().start <= start {
            assert forall|i: int| 0 <= i < tokens.len() implies (#[trigger] tokens[i]).start
                <= start by {
                if i < tokens.len() - 1 {
                    assert(tokens[i].start <= tokens[tokens.len() - 1].start);
                }
            }
        } else {
            let rest = tokens.drop_last();
            assert(sorted_by_start(rest)) by {
                assert forall|i: int, j: int| 0 <= i < j < rest.len() implies (
                #[trigger] rest[i]).start <= (#[trigger] rest[j]).start by {
                    assert(rest[i] == tokens[i]);
                    assert(rest[j] == tokens[j]);
                }
            }
            lemma_insert_position(rest, start);
            assert forall|i: int| 0 <= i < insert_position(tokens, start) implies (
            #[trigger] tokens[i]).start <= start by {
                assert(tokens[i] == rest[i]);
            }
            assert forall|i: int|
                insert_position(tokens, start) <= i < tokens.len() implies (#[trigger] tokens[i]).start
                > start by {
                if i < rest.len() {
                    assert(tokens[i] == rest[i]);
                }
            }
        }
    }
}

/// Ordering sorts: in the ordered sequence no token starts before the one
/// in front of it.
pub proof fn lemma_order_sorts(tokens: Seq<TokenView>)
    ensures
        sorted_by_start(order_by_start(tokens)),
    decreases tokens.len(),
{
    if tokens.len() > 0 {
        let last = tokens.last();
        lemma_order_sorts(tokens.drop_last());
        let sorted = order_by_start(tokens.drop_last());
        let at = insert_position(sorted, last.start);
        lemma_insert_position(sorted, last.start);
        let out = sorted.insert(at, last);
        assert forall|i: int, j: int| 0 <= i < j < out.len() implies (#[trigger] out[i]).start <= (
        #[trigger] out[j]).start by {
            if j < at {
                assert(out[i] == sorted[i]);
                assert(out[j] == sorted[j]);
            } else if j == at {
                assert(out[i] == sorted[i]);
            } else if i < at {
                assert(out[i] == sorted[i]);
                assert(out[j] == sorted[j - 1]);
            } else if i == at {
                assert(out[j] == sorted[j - 1]);
            } else {
                assert(out[i] == sorted[i - 1]);
                assert(out[j] == sorted[j - 1]);
            }
        }
    }
}

/// Ordering only rearranges: the ordered sequence holds the same tokens,
/// each as often as before.
pub proof fn lemma_order_rearranges(tokens: Seq<TokenView>)
    ensures
        order_by_start(tokens).to_multiset() == tokens.to_multiset(),
        order_by_start(tokens).len() == tokens.len(),
    decreases tokens.len(),
{
    broadcast use vstd::seq_lib::group_to_multiset_ensures;

    if tokens.len() > 0 {
        let last = tokens.last();
        let rest = tokens.drop_last();
        lemma_order_rearranges(rest);
        let sorted = order_by_start(rest);
        let at = insert_position(sorted, last.start);
        lemma_insert_position_bound(sorted, last.start);
        let out = sorted.insert(at, last);
        assert(out.remove(at) =~= sorted);
        assert(out[at] == last);
        vstd::seq_lib::to_multiset_remove(out, at);
        assert(out.contains(last));
        assert(out.to_multiset().count(last) > 0);
        assert(out.to_multiset() =~= out.to_multiset().remove(last).insert(last));
        assert(rest.push(last) =~= tokens);
        vstd::seq_lib::to_multiset_build(rest, last);
        assert(out.to_multiset() =~= tokens.to_multiset());
    }
}

/// Tokens that cover at least one byte each and share none come out of the
/// ordering one behind the other.
pub proof fn lemma_order_in_order(tokens: Seq<TokenView>)
    requires
        pairwise_apart(tokens),
        all_tokens(tokens, |t: TokenView| proper(t)),
    ensures
        in_order(order_by_start(tokens)),
        all_tokens(order_by_start(tokens), |t: TokenView| proper(t)),
    decreases tokens.len(),
{
    lemma_order_keeps(tokens, |t: TokenView| proper(t));
    if tokens.len() > 0 {
        let last = tokens.last();
        let rest = tokens.drop_last();
        lemma_apart_drop_last(tokens);
        lemma_all_drop_last(tokens, |t: TokenView| proper(t));
        lemma_order_in_order(rest);
        let sorted = order_by_start(rest);
        lemma_order_keeps(rest, |x: TokenView| apart(x, last));
        let at = insert_position(sorted, last.start);
        lemma_order_sorts(rest);
        lemma_insert_position(sorted, last.start);
        let out = sorted.insert(at, last);
        assert forall|i: int, j: int| 0 <= i < j < out.len() implies (#[trigger] out[i]).stop <= (
        #[trigger] out[j]).start by {
            if j < at {
                assert(out[i] == sorted[i]);
                assert(out[j] == sorted[j]);
            } else if j == at {
                assert(out[i] == sorted[i]);
                assert(apart(sorted[i], last));
                assert(proper(sorted[i]));
                assert(sorted[i].start <= last.start);
            } else if i < at {
                assert(out[i] == sorted[i]);
                assert(out[j] == sorted[j - 1]);
            } else if i == at {
                assert(out[j] == sorted[j - 1]);
                assert(apart(sorted[j - 1], last));
                assert(proper(sorted[j - 1]));
                assert(sorted[j - 1].start > last.start);
            } else {
                assert(out[i] == sorted[i - 1]);
                assert(out[j] == sorted[j - 1]);
            }
        }
    }
}

/// Filling the gaps of tokens that stand one behind the other gives a
/// stream whose tokens stand one behind the other, none of them empty, and
/// all of them before the end of what is covered.
pub proof fn lemma_fill_gaps_in_order(tokens: Seq<TokenView>, line: Seq<char>, index: usize)
    requires
        in_order(tokens),
        all_tokens(tokens, |t: TokenView| proper(t)),
    ensures
        in_order(fill_gaps(tokens, line, index).stream),
        all_tokens(fill_gaps(tokens, line, index).stream, |t: TokenView| proper(t)),
        all_tokens(
            fill_gaps(tokens, line, index).stream,
            |t: TokenView| t.stop <= fill_gaps(tokens, line, index).end + 1,
        ),
        0 <= fill_gaps(tokens, line, index).end < usize::MAX,
    decreases tokens.len(),
{
    if tokens.len() > 0 {
        let rest = tokens.drop_last();
        let t = tokens.last();
        assert(in_order(rest)) by {
            assert forall|i: int, j: int| 0 <= i < j < rest.len() implies (#[trigger] rest[i]).stop
                <= (#[trigger] rest[j]).start by {
                assert(rest[i] == tokens[i]);
                assert(rest[j] == tokens[j]);
            }
        }
        lemma_all_drop_last(tokens, |t: TokenView| proper(t));
        lemma_fill_gaps_in_order(rest, line, index);
        let before = fill_gaps(rest, line, index);
        let after = fill_gaps(tokens, line, index);
        lemma_fill_gaps_ends(rest, line, index);
        assert(before.end + 1 <= t.start) by {
            if rest.len() > 0 {
                assert(rest.last() == tokens[tokens.len() - 2]);
                assert(tokens[tokens.len() - 2].stop <= tokens[tokens.len() - 1].start);
            }
        }
        let filled = match gap_token(line, index, before.end, t.start - 1) {
            Some(unknown) => before.stream.push(unknown),
            None => before.stream,
        };
        assert(in_order(filled) && all_tokens(filled, |x: TokenView| proper(x)) && all_tokens(
            filled,
            |x: TokenView| x.stop <= t.start,
        )) by {
            assert forall|i: int| 0 <= i < filled.len() implies proper(#[trigger] filled[i])
                && filled[i].stop <= t.start by {
                if i < before.stream.len() {
                    assert(filled[i] == before.stream[i]);
                    assert(proper(before.stream[i]));
                    assert(before.stream[i].stop <= before.end + 1);
                }
            }
            assert forall|i: int, j: int| 0 <= i < j < filled.len() implies (
            #[trigger] filled[i]).stop <= (#[trigger] filled[j]).start by {
                assert(filled[i] == before.stream[i]);
                assert(before.stream[i].stop <= before.end + 1);
                if j < before.stream.len() {
                    assert(filled[j] == before.stream[j]);
                }
            }
        }
        assert(after.stream == filled.push(t));
        assert forall|i: int| 0 <= i < after.stream.len() implies proper(#[trigger] after.stream[i])
            && after.stream[i].stop <= after.end + 1 by {
            if i < filled.len() {
                assert(after.stream[i] == filled[i]);
                assert(proper(filled[i]));
                assert(filled[i].stop <= t.start);
            }
        }
        assert forall|i: int, j: int| 0 <= i < j < after.stream.len() implies (
        #[trigger] after.stream[i]).stop <= (#[trigger] after.stream[j]).start by {
            assert(after.stream[i] == filled[i]);
            if j < filled.len() {
                assert(after.stream[j] == filled[j]);
            } else {
                assert(filled[i].stop <= t.start);
            }
        }
    }
}

/// What is covered ends where the last token ends.
pub proof fn lemma_fill_gaps_ends(tokens: Seq<TokenView>, line: Seq<char>, index: usize)
    ensures
        fill_gaps(tokens, line, index).end == if tokens.len() == 0 {
            0
        } else {
            tokens.last().stop - 1
        },
{
}

/// In the stream of a line, the tokens before the closing `EOL` stand one
/// behind the other: each covers at least one byte, and each ends before
/// the next one starts. This holds where no pattern matches the empty text
/// in the line.
pub proof fn lemma_stream_in_order(line: Seq<char>, index: usize)
    requires
        byte_len(line) < usize::MAX,
        candidates_in_text(line),
        candidates_not_empty(line),
    ensures
        in_order(lex_line_spec(line, index).drop_last()),
        all_tokens(lex_line_spec(line, index).drop_last(), |t: TokenView| proper(t)),
{
    lemma_candidates_proper(line, Token::String);
    lemma_candidates_proper(line, Token::Comment);
    lemma_candidates_proper(line, Token::Float);
    lemma_candidates_proper(line, Token::Integer);
    lemma_candidates_proper(line, Token::Assign);
    lemma_candidates_proper(line, Token::Say);
    lemma_candidates_proper(line, Token::TheAnswerIs);
    lemma_candidates_proper(line, Token::Ident);
    let s0 = Scan { tokens: Seq::empty(), bounds: Seq::empty() };
    let s1 = scan_with(s0, candidates(Token::String, line), Token::String, line, index);
    lemma_scan_sound(s0, candidates(Token::String, line), Token::String, line, index);
    let s2 = scan_with(s1, candidates(Token::Comment, line), Token::Comment, line, index);
    lemma_scan_sound(s1, candidates(Token::Comment, line), Token::Comment, line, index);
    let s3 = scan_with(s2, candidates(Token::Float, line), Token::Float, line, index);
    lemma_scan_sound(s2, candidates(Token::Float, line), Token::Float, line, index);
    let s4 = scan_with(s3, candidates(Token::Integer, line), Token::Integer, line, index);
    lemma_scan_sound(s3, candidates(Token::Integer, line), Token::Integer, line, index);
    let s5 = scan_with(s4, candidates(Token::Assign, line), Token::Assign, line, index);
    lemma_scan_sound(s4, candidates(Token::Assign, line), Token::Assign, line, index);
    let s6 = scan_with(s5, candidates(Token::Say, line), Token::Say, line, index);
    lemma_scan_sound(s5, candidates(Token::Say, line), Token::Say, line, index);
    let s7 = scan_with(s6, candidates(Token::TheAnswerIs, line), Token::TheAnswerIs, line, index);
    lemma_scan_sound(s6, candidates(Token::TheAnswerIs, line), Token::TheAnswerIs, line, index);
    lemma_scan_sound(s7, candidates(Token::Ident, line), Token::Ident, line, index);
    let accepted = scan_line(line, index).tokens;
    lemma_order_in_order(accepted);
    let ordered = order_by_start(accepted);
    lemma_fill_gaps_in_order(ordered, line, index);
    let covered = fill_gaps(ordered, line, index);
    let stream = lex_line_spec(line, index).drop_last();
    let filled = match gap_token(line, index, covered.end, byte_len(line) as int) {
        Some(unknown) => covered.stream.push(unknown),
        None => covered.stream,
    };
    assert(stream =~= filled);
    assert forall|i: int| 0 <= i < filled.len() implies proper(#[trigger] filled[i]) by {
        if i < covered.stream.len() {
            assert(filled[i] == covered.stream[i]);
            assert(proper(covered.stream[i]));
        }
    }
    assert forall|i: int, j: int| 0 <= i < j < filled.len() implies (#[trigger] filled[i]).stop
        <= (#[trigger] filled[j]).start by {
        assert(filled[i] == covered.stream[i]);
        assert(covered.stream[i].stop <= covered.end + 1);
        if j < covered.stream.len() {
            assert(filled[j] == covered.stream[j]);
        }
    }
}

/// What an `Unknown` token of a line says: its text is what stands in its
/// columns, without the white space around it, and it is not empty.
pub open spec fn unknown_is_text(t: TokenView, line: Seq<char>) -> bool {
    t.token == Token::Unknown ==> {
        &&& t.start >= 1
        &&& t.value == trimmed(slice_text(line, t.start - 1, t.stop - 1))
        &&& t.value.len() > 0
        &&& !is_white_space(t.value.first())
        &&& !is_white_space(t.value.last())
    }
}

/// Every `Unknown` token of a line's stream carries the text of its
/// columns, trimmed, and none is empty or starts or ends with white space.
pub proof fn lemma_unknown_tokens(line: Seq<char>, index: usize)
    requires
        byte_len(line) < usize::MAX,
        candidates_in_text(line),
    ensures
        all_tokens(lex_line_spec(line, index), |t: TokenView| unknown_is_text(t, line)),
{
    let holds = |t: TokenView| unknown_is_text(t, line) && token_in_line(t, line);
    assert forall|kind: Token, i: int| 0 <= i < candidates(kind, line).len() implies holds(
        token_at(#[trigger] candidates(kind, line)[i], kind, line, index),
    ) by {
        assert(captures_in_text(candidates(kind, line), line));
        assert(capture_in_text(candidates(kind, line)[i], line));
        if kind == Token::Unknown {
            assert(candidates(kind, line) =~= Seq::empty());
        }
    }
    lemma_scan_line_keeps(line, index, holds);
    let accepted = scan_line(line, index).tokens;
    lemma_order_keeps(accepted, holds);
    let ordered = order_by_start(accepted);
    lemma_gaps_are_text(ordered, line, index);
    let covered = fill_gaps(ordered, line, index);
    let stream = lex_line_spec(line, index);
    let end = byte_len(line) as int;
    if gap_token(line, index, covered.end, end) is Some {
        lemma_trimmed(slice_text(line, covered.end, end));
    }
    assert forall|i: int| 0 <= i < stream.len() implies unknown_is_text(
        #[trigger] stream[i],
        line,
    ) by {
        if i < covered.stream.len() {
            assert(stream[i] == covered.stream[i]);
            assert(holds(covered.stream[i]));
        }
    }
}

/// Filling the gaps between tokens of a line adds only `Unknown` tokens
/// that carry the text of their columns.
pub proof fn lemma_gaps_are_text(tokens: Seq<TokenView>, line: Seq<char>, index: usize)
    requires
        all_tokens(tokens, |t: TokenView| unknown_is_text(t, line) && token_in_line(t, line)),
    ensures
        all_tokens(
            fill_gaps(tokens, line, index).stream,
            |t: TokenView| unknown_is_text(t, line) && token_in_line(t, line),
        ),
        is_span(
            line,
            fill_gaps(tokens, line, index).end,
            fill_gaps(tokens, line, index).end,
        ),
    decreases tokens.len(),
{
    broadcast use vstd::utf8::group_utf8_lib;

    if tokens.len() > 0 {
        let holds = |t: TokenView| unknown_is_text(t, line) && token_in_line(t, line);
        lemma_all_drop_last(tokens, holds);
        lemma_gaps_are_text(tokens.drop_last(), line, index);
        let before = fill_gaps(tokens.drop_last(), line, index);
        let t = tokens.last();
        let after = fill_gaps(tokens, line, index);
        assert(token_in_line(t, line));
        if gap_token(line, index, before.end, t.start - 1) is Some {
            lemma_trimmed(slice_text(line, before.end, t.start - 1));
        }
        assert forall|i: int| 0 <= i < after.stream.len() implies holds(
            #[trigger] after.stream[i],
        ) by {
            if i < before.stream.len() {
                assert(after.stream[i] == before.stream[i]);
                assert(holds(before.stream[i]));
            }
        }
    }
}

/// Every token of a line's stream says the number of the line, counted
/// from 1.
pub proof fn lemma_tokens_say_their_line(line: Seq<char>, index: usize)
    requires
        index < usize::MAX,
    ensures
        all_tokens(lex_line_spec(line, index), |t: TokenView| t.line == index + 1),
{
    lemma_stream_keeps(line, index, |t: TokenView| t.line == index + 1);
}

} // verus!
