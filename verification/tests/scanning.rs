use uff::lexer::{
    append_match, check_if_in_bounds, check_start_end, copy_token, discard_behind, scan_kind,
    sort_by_start, Token, Tokenized,
};
use uff::patterns::{PatternRegistry, RE_IDENT, RE_INTEGER, RE_STRING};

fn registry() -> PatternRegistry {
    PatternRegistry::new().unwrap()
}

fn token(kind: Token, text: &str, start: usize) -> Tokenized {
    Tokenized {
        line: 1,
        start,
        stop: start + text.len(),
        token: kind,
        value: String::from(text),
    }
}

#[test]
fn patterns_are_those_of_the_language() {
    assert_eq!(RE_STRING, "<<(.*?)>>");
    assert_eq!(RE_INTEGER, "(-?[0-9](?:[0-9]|_?[0-9])*)");
    assert!(RE_IDENT.starts_with("([_\\p{Sm}"));
}

#[test]
fn scan_finds_every_match_with_its_group() {
    let found = registry().scan(Token::String, "a <<b>> c <<>> <<d e>>");
    assert_eq!(
        found,
        vec![
            (2, 7, Some((4, 5))),
            (10, 14, Some((12, 12))),
            (15, 22, Some((17, 20))),
        ]
    );
}

#[test]
fn scan_finds_integers_inside_other_text() {
    let found = registry().scan(Token::Integer, "x1 -22 3_3 4_");
    assert_eq!(
        found,
        vec![
            (1, 2, Some((1, 2))),
            (3, 6, Some((3, 6))),
            (7, 10, Some((7, 10))),
            (11, 12, Some((11, 12))),
        ]
    );
}

#[test]
fn scan_of_a_comment_reaches_the_end_of_the_line() {
    let found = registry().scan(Token::Comment, "x \" y \" z");
    assert_eq!(found, vec![(2, 9, Some((3, 9)))]);
}

#[test]
fn scan_reports_byte_offsets() {
    let found = registry().scan(Token::Ident, "é ü");
    assert_eq!(found, vec![(0, 2, Some((0, 2))), (3, 5, Some((3, 5)))]);
}

#[test]
fn kinds_without_a_pattern_have_no_candidates() {
    assert_eq!(registry().scan(Token::EOL, "say 1"), Vec::new());
    assert_eq!(registry().scan(Token::Unknown, "say 1"), Vec::new());
}

#[test]
fn delimiters_are_white_space_and_quotes() {
    let registry = registry();
    assert!(registry.delimiter_before("x "));
    assert!(registry.delimiter_before("x\""));
    assert!(registry.delimiter_before("x\t"));
    assert!(!registry.delimiter_before("x"));
    assert!(!registry.delimiter_before(" x"));
    assert!(!registry.delimiter_before(""));
    assert!(registry.delimiter_after(" x"));
    assert!(registry.delimiter_after("\"x"));
    assert!(!registry.delimiter_after("x "));
    assert!(!registry.delimiter_after(""));
}

#[test]
fn blank_text_is_empty_or_white_space() {
    let registry = registry();
    assert!(registry.blank(""));
    assert!(registry.blank(" "));
    assert!(registry.blank(" \t \u{a0}"));
    assert!(!registry.blank(" x "));
    assert!(!registry.blank("\""));
}

#[test]
fn span_needs_delimiters_on_both_sides() {
    let registry = registry();
    assert!(check_start_end(&registry, "say 12 x", &4, &6));
    assert!(check_start_end(&registry, "12", &0, &2));
    assert!(check_start_end(&registry, "12 x", &0, &2));
    assert!(check_start_end(&registry, "x 12", &2, &4));
    assert!(check_start_end(&registry, "\"12\"", &1, &3));
    assert!(!check_start_end(&registry, "x12 y", &1, &3));
    assert!(!check_start_end(&registry, "12x", &0, &2));
    assert!(!check_start_end(&registry, "a 12b", &2, &4));
}

#[test]
fn new_span_collides_with_accepted_spans() {
    let spans = vec![(4, 9), (12, 15)];
    assert!(check_if_in_bounds(&5, &6, &spans, false));
    assert!(check_if_in_bounds(&2, &5, &spans, false));
    assert!(check_if_in_bounds(&8, &11, &spans, false));
    assert!(check_if_in_bounds(&4, &9, &spans, false));
    assert!(check_if_in_bounds(&3, &16, &spans, false));
    assert!(!check_if_in_bounds(&0, &4, &spans, false));
    assert!(!check_if_in_bounds(&9, &12, &spans, false));
    assert!(!check_if_in_bounds(&15, &20, &spans, false));
    assert!(!check_if_in_bounds(&0, &3, &Vec::new(), false));
}

#[test]
fn covering_span_collides_only_if_it_must_not_cover() {
    let spans = vec![(4, 9)];
    assert!(check_if_in_bounds(&0, &20, &spans, false));
    assert!(!check_if_in_bounds(&0, &20, &spans, true));
    assert!(!check_if_in_bounds(&4, &9, &spans, true));
    assert!(check_if_in_bounds(&5, &20, &spans, true));
    assert!(check_if_in_bounds(&0, &8, &spans, true));
}

#[test]
fn accepted_candidate_is_appended_with_its_span() {
    let registry = registry();
    let mut tokens = Vec::new();
    let mut spans = Vec::new();
    let line = "say <<a b>> 12";
    append_match(
        &registry,
        &mut tokens,
        &(4, 11, Some((6, 9))),
        Token::String,
        line,
        &2,
        &mut spans,
    );
    assert_eq!(tokens.len(), 1);
    assert_eq!(tokens[0].value, "a b");
    assert_eq!(tokens[0].token, Token::String);
    assert_eq!((tokens[0].line, tokens[0].start, tokens[0].stop), (3, 5, 12));
    assert_eq!(spans, vec![(4, 11)]);

    append_match(
        &registry,
        &mut tokens,
        &(6, 7, Some((6, 7))),
        Token::Ident,
        line,
        &2,
        &mut spans,
    );
    assert_eq!(tokens.len(), 1);
    assert_eq!(spans, vec![(4, 11)]);

    append_match(
        &registry,
        &mut tokens,
        &(12, 14, None),
        Token::Integer,
        line,
        &2,
        &mut spans,
    );
    assert_eq!(tokens.len(), 2);
    assert_eq!(tokens[1].value, "12");
    assert_eq!(spans, vec![(4, 11), (12, 14)]);
}

#[test]
fn candidate_without_delimiters_is_not_appended() {
    let registry = registry();
    let mut tokens = Vec::new();
    let mut spans = Vec::new();
    append_match(
        &registry,
        &mut tokens,
        &(1, 3, Some((1, 3))),
        Token::Integer,
        "x12",
        &0,
        &mut spans,
    );
    assert!(tokens.is_empty());
    assert!(spans.is_empty());
    append_match(
        &registry,
        &mut tokens,
        &(1, 3, Some((2, 3))),
        Token::Comment,
        "x\"c",
        &0,
        &mut spans,
    );
    assert_eq!(tokens.len(), 1);
    assert_eq!(tokens[0].value, "c");
}

#[test]
fn tokens_behind_a_column_are_discarded() {
    let mut tokens = vec![
        token(Token::String, "a", 9),
        token(Token::String, "b", 2),
        token(Token::String, "c", 5),
        token(Token::String, "d", 6),
    ];
    discard_behind(&mut tokens, 6);
    let left: Vec<String> = tokens.iter().map(|t| t.value.clone()).collect();
    assert_eq!(left, vec!["b", "c"]);
}

#[test]
fn sorting_goes_by_start_and_keeps_ties() {
    let tokens = vec![
        token(Token::Ident, "c", 7),
        token(Token::Ident, "a", 1),
        token(Token::Ident, "d", 7),
        token(Token::Ident, "b", 3),
    ];
    let sorted = sort_by_start(&tokens);
    let order: Vec<String> = sorted.iter().map(|t| t.value.clone()).collect();
    assert_eq!(order, vec!["a", "b", "c", "d"]);
    let copy = copy_token(&tokens[0]);
    assert_eq!(format!("{:?}", copy), format!("{:?}", tokens[0]));
}

#[test]
fn search_for_one_kind_offers_every_candidate() {
    let registry = registry();
    let mut tokens = Vec::new();
    let mut spans = Vec::new();
    let line = "<<a>> x<<b>> <<c>>";
    scan_kind(&registry, Token::String, line, 0, &mut tokens, &mut spans);
    let found: Vec<String> = tokens.iter().map(|t| t.value.clone()).collect();
    assert_eq!(found, vec!["a", "c"]);
    assert_eq!(spans, vec![(0, 5), (13, 18)]);
}

#[test]
fn rejected_comment_still_discards_what_stands_behind_its_marker() {
    let registry = registry();
    let mut tokens = Vec::new();
    let mut spans = Vec::new();
    let line = "<<x \" y>> <<z>>";
    scan_kind(&registry, Token::String, line, 0, &mut tokens, &mut spans);
    assert_eq!(tokens.len(), 2);
    scan_kind(&registry, Token::Comment, line, 0, &mut tokens, &mut spans);
    let found: Vec<String> = tokens.iter().map(|t| t.value.clone()).collect();
    assert_eq!(found, vec!["x \" y"]);
    assert_eq!(spans, vec![(0, 9), (10, 15)]);
}
