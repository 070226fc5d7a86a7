use ft_lex::lex_re_parser::{
    parse_rule_regex, BracketItem, LexRe, ParseError, Parser, ParserState, RegexError, Rep,
};
use ft_lex::lex_re_tokenizer::TokenizeError;
use ft_lex::lex_re_tokenizer::tokenize_re;

fn chars(s: &str) -> Vec<char> {
    s.chars().collect()
}

fn parse(s: &str) -> Result<LexRe, ParseError> {
    let base = chars(s);
    let toks = tokenize_re(&base).unwrap();
    let p = Parser::new(&base, &toks);
    p.parse()
}

#[test]
fn parses_alternation_with_star() {
    let ast = parse("ab|c*").unwrap();
    match ast {
        LexRe::Alternation { exprs, .. } => {
            assert_eq!(exprs.len(), 2);
            match &exprs[0] {
                LexRe::Concat { exprs: inner, .. } => {
                    assert_eq!(inner.len(), 2);
                    assert!(matches!(inner[0], LexRe::LiteralChar { ch: 'a', .. }));
                    assert!(matches!(inner[1], LexRe::LiteralChar { ch: 'b', .. }));
                }
                other => panic!("expected a concatenation, got {:?}", other),
            }
            match &exprs[1] {
                LexRe::Repetition { expr, rep, .. } => {
                    assert_eq!(*rep, Rep { min: 0, max: None });
                    assert!(matches!(**expr, LexRe::LiteralChar { ch: 'c', .. }));
                }
                other => panic!("expected a repetition, got {:?}", other),
            }
        }
        other => panic!("expected an alternation, got {:?}", other),
    }
}

#[test]
fn inverted_bounds_are_rejected_not_reordered() {
    let r = parse("a{5,2}");
    assert!(matches!(r, Err(ParseError::InvalidBounds(_))));
}

#[test]
fn brace_bound_forms() {
    match parse("a{2,5}").unwrap() {
        LexRe::Repetition { rep, .. } => assert_eq!(rep, Rep { min: 2, max: Some(5) }),
        other => panic!("unexpected {:?}", other),
    }
    match parse("a{3}").unwrap() {
        LexRe::Repetition { rep, .. } => assert_eq!(rep, Rep { min: 3, max: Some(3) }),
        other => panic!("unexpected {:?}", other),
    }
    match parse("a{4,}").unwrap() {
        LexRe::Repetition { rep, .. } => assert_eq!(rep, Rep { min: 4, max: None }),
        other => panic!("unexpected {:?}", other),
    }
}

#[test]
fn question_and_plus_suffixes() {
    match parse("a?").unwrap() {
        LexRe::Repetition { rep, .. } => assert_eq!(rep, Rep { min: 0, max: Some(1) }),
        other => panic!("unexpected {:?}", other),
    }
    match parse("a+").unwrap() {
        LexRe::Repetition { rep, .. } => assert_eq!(rep, Rep { min: 1, max: None }),
        other => panic!("unexpected {:?}", other),
    }
}

#[test]
fn bracket_range_and_negation() {
    match parse("[a-z]").unwrap() {
        LexRe::BracketExpr { expr, .. } => {
            assert!(!expr.negated);
            assert_eq!(expr.items, vec![BracketItem::Range('a', 'z')]);
        }
        other => panic!("unexpected {:?}", other),
    }
    match parse("[^ab]").unwrap() {
        LexRe::BracketExpr { expr, .. } => {
            assert!(expr.negated);
            assert_eq!(
                expr.items,
                vec![BracketItem::Single('a'), BracketItem::Single('b')]
            );
        }
        other => panic!("unexpected {:?}", other),
    }
}

#[test]
fn bracket_trailing_hyphen_is_literal() {
    match parse("[a-]").unwrap() {
        LexRe::BracketExpr { expr, .. } => {
            assert_eq!(
                expr.items,
                vec![BracketItem::Single('a'), BracketItem::Single('-')]
            );
        }
        other => panic!("unexpected {:?}", other),
    }
}

#[test]
fn class_forms_are_atoms() {
    match parse("[:alpha:]").unwrap() {
        LexRe::CharacterClass { chars: c, .. } => {
            assert_eq!(c, vec!['a', 'l', 'p', 'h', 'a'])
        }
        other => panic!("unexpected {:?}", other),
    }
    match parse("[=a=]").unwrap() {
        LexRe::EquivalenceClass { chars: c, .. } => assert_eq!(c, vec!['a']),
        other => panic!("unexpected {:?}", other),
    }
    match parse("[.ch.]").unwrap() {
        LexRe::CollatingElement { name, .. } => assert_eq!(name, vec!['c', 'h']),
        other => panic!("unexpected {:?}", other),
    }
}

#[test]
fn quoted_literal_neutralizes_symbols() {
    match parse("\"a|b\"").unwrap() {
        LexRe::Concat { exprs, .. } => {
            assert_eq!(exprs.len(), 3);
            assert!(matches!(exprs[0], LexRe::LiteralChar { ch: 'a', .. }));
            assert!(matches!(exprs[1], LexRe::LiteralChar { ch: '|', .. }));
            assert!(matches!(exprs[2], LexRe::LiteralChar { ch: 'b', .. }));
        }
        other => panic!("unexpected {:?}", other),
    }
}

#[test]
fn macro_reference_stays_unresolved() {
    match parse("{name}").unwrap() {
        LexRe::Replacement { name, .. } => assert_eq!(name, vec!['n', 'a', 'm', 'e']),
        other => panic!("unexpected {:?}", other),
    }
}

#[test]
fn escape_is_the_escaped_character() {
    match parse("\\*").unwrap() {
        LexRe::LiteralChar { ch, .. } => assert_eq!(ch, '*'),
        other => panic!("unexpected {:?}", other),
    }
}

#[test]
fn unterminated_bracket_is_an_error() {
    assert!(matches!(parse("[ab"), Err(ParseError::UnterminatedBracket(_))));
}

#[test]
fn unterminated_quote_is_an_error() {
    assert!(matches!(parse("\"ab"), Err(ParseError::UnterminatedQuote(_))));
}

#[test]
fn unterminated_brace_is_an_error() {
    assert!(matches!(parse("{name"), Err(ParseError::UnterminatedBrace(_))));
}

#[test]
fn stray_token_is_unexpected() {
    assert!(matches!(parse(")"), Err(ParseError::UnexpectedToken(_))));
    assert!(matches!(parse(""), Err(ParseError::UnexpectedToken(_))));
}

#[test]
fn spans_nest_within_the_root() {
    let base = chars("ab|c*");
    let toks = tokenize_re(&base).unwrap();
    let p = Parser::new(&base, &toks);
    let ast = p.parse().unwrap();
    match ast {
        LexRe::Alternation { span, exprs } => {
            for e in &exprs {
                let child = match e {
                    LexRe::Concat { span, .. } => *span,
                    LexRe::Repetition { span, .. } => *span,
                    LexRe::LiteralChar { span, .. } => *span,
                    _ => panic!("unexpected child"),
                };
                assert!(span.start <= child.start && child.end <= span.end);
            }
        }
        other => panic!("unexpected {:?}", other),
    }
}

#[test]
fn parser_state_walks_the_stream() {
    let base = chars("a|b");
    let toks = tokenize_re(&base).unwrap();
    let st = ParserState::new(&base, &toks);
    assert!(!st.at_end());
    assert!(st.current_token().is_some());
    let st2 = st.advance().advance().advance();
    assert!(st2.at_end());
    assert!(st2.current_token().is_none());
}

#[test]
fn pipeline_compiles_or_reports_both_error_families() {
    match parse_rule_regex(&chars("a|b")).unwrap() {
        LexRe::Alternation { exprs, .. } => assert_eq!(exprs.len(), 2),
        other => panic!("unexpected {:?}", other),
    }
    assert!(matches!(
        parse_rule_regex(&chars("x\\")),
        Err(RegexError::Tokenize(TokenizeError::DanglingEscape(_)))
    ));
    assert!(matches!(
        parse_rule_regex(&chars("a{5,2}")),
        Err(RegexError::Parse(ParseError::InvalidBounds(_)))
    ));
}

#[test]
fn standalone_inverted_bounds_still_report_bounds() {
    assert!(matches!(parse("{5,2}"), Err(ParseError::InvalidBounds(_))));
}

#[test]
fn bounds_without_an_atom_are_unexpected() {
    assert!(matches!(parse("{3}"), Err(ParseError::UnexpectedToken(_))));
}

#[test]
fn empty_quoted_literal_is_refused() {
    assert!(matches!(parse("\"\""), Err(ParseError::UnexpectedToken(_))));
}
