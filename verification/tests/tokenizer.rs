use ft_lex::lex_re_tokenizer::{tokenize_re, LexReToken, TokenizeError};
use ft_lex::span::Span;

fn chars(s: &str) -> Vec<char> {
    s.chars().collect()
}

fn span_of(t: &LexReToken) -> Span {
    match *t {
        LexReToken::Coron(s) => s,
        LexReToken::Equal(s) => s,
        LexReToken::Dot(s) => s,
        LexReToken::Slash(s) => s,
        LexReToken::Escaped(s) => s,
        LexReToken::OpenBracket(s) => s,
        LexReToken::CloseBracket(s) => s,
        LexReToken::DoubleQuote(s) => s,
        LexReToken::OpenGroup(s) => s,
        LexReToken::CloseGroup(s) => s,
        LexReToken::OpenBrace(s) => s,
        LexReToken::CloseBrace(s) => s,
        LexReToken::Question(s) => s,
        LexReToken::Star(s) => s,
        LexReToken::Plus(s) => s,
        LexReToken::Pipe(s) => s,
        LexReToken::Comma(s) => s,
        LexReToken::Hyphen(s) => s,
        LexReToken::Blank(s) => s,
        LexReToken::Digits(s) => s,
        LexReToken::Characters(s) => s,
    }
}

#[test]
fn tokenizes_alternation_and_star() {
    let input = chars("ab|c*");
    let toks = tokenize_re(&input).unwrap();
    assert_eq!(toks.len(), 4);
    assert!(matches!(toks[0], LexReToken::Characters(Span { start: 0, end: 2 })));
    assert!(matches!(toks[1], LexReToken::Pipe(Span { start: 2, end: 3 })));
    assert!(matches!(toks[2], LexReToken::Characters(Span { start: 3, end: 4 })));
    assert!(matches!(toks[3], LexReToken::Star(Span { start: 4, end: 5 })));
}

#[test]
fn dangling_escape_fails() {
    let input = chars("ab\\");
    let r = tokenize_re(&input);
    assert!(matches!(
        r,
        Err(TokenizeError::DanglingEscape(Span { start: 2, end: 3 }))
    ));
}

#[test]
fn lone_backslash_fails() {
    let input = chars("\\");
    assert!(matches!(
        tokenize_re(&input),
        Err(TokenizeError::DanglingEscape(Span { start: 0, end: 1 }))
    ));
}

#[test]
fn escaped_pair_is_one_token() {
    let input = chars("\\\\");
    let toks = tokenize_re(&input).unwrap();
    assert_eq!(toks.len(), 1);
    assert!(matches!(toks[0], LexReToken::Escaped(Span { start: 0, end: 2 })));
}

#[test]
fn digit_and_blank_runs_are_maximal() {
    let input = chars("12 345");
    let toks = tokenize_re(&input).unwrap();
    assert_eq!(toks.len(), 3);
    assert!(matches!(toks[0], LexReToken::Digits(Span { start: 0, end: 2 })));
    assert!(matches!(toks[1], LexReToken::Blank(Span { start: 2, end: 3 })));
    assert!(matches!(toks[2], LexReToken::Digits(Span { start: 3, end: 6 })));
}

#[test]
fn spans_partition_the_input() {
    let text = "foo {2,5}[a-z]\\n\"lit\"";
    let input = chars(text);
    let toks = tokenize_re(&input).unwrap();
    let mut rebuilt = String::new();
    let mut expected_start = 0usize;
    for t in &toks {
        let sp = span_of(t);
        assert_eq!(sp.start, expected_start, "no gap, no overlap");
        assert!(sp.end > sp.start, "no empty token");
        for k in sp.start..sp.end {
            rebuilt.push(input[k]);
        }
        expected_start = sp.end;
    }
    assert_eq!(expected_start, input.len());
    assert_eq!(rebuilt, text);
}

#[test]
fn empty_input_gives_no_tokens() {
    let input = chars("");
    let toks = tokenize_re(&input).unwrap();
    assert!(toks.is_empty());
}

#[test]
fn structural_symbols_tokenize_alone() {
    let input = chars(":=./[]");
    let toks = tokenize_re(&input).unwrap();
    assert_eq!(toks.len(), 6);
    assert!(matches!(toks[0], LexReToken::Coron(_)));
    assert!(matches!(toks[1], LexReToken::Equal(_)));
    assert!(matches!(toks[2], LexReToken::Dot(_)));
    assert!(matches!(toks[3], LexReToken::Slash(_)));
    assert!(matches!(toks[4], LexReToken::OpenBracket(_)));
    assert!(matches!(toks[5], LexReToken::CloseBracket(_)));
}

#[test]
fn span_length_is_end_minus_start() {
    let s = Span::new(3, 7);
    assert_eq!(s.length(), 4);
    let inverted = Span::new(7, 3);
    assert_eq!(inverted.length(), 0);
}
