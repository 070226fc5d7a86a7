use ft_lex::lex_dfa::{build_dfa, minimize, resolve, Dfa};
use ft_lex::lex_nfa::{BuildError, Nfa, Symbol};
use ft_lex::lex_re_parser::{LexRe, LexRule, Parser};
use ft_lex::lex_re_tokenizer::tokenize_re;
use ft_lex::span::Span;

fn chars(s: &str) -> Vec<char> {
    s.chars().collect()
}

fn rule(index: u32, regex: &str) -> LexRule {
    let base = chars(regex);
    let toks = tokenize_re(&base).unwrap();
    let p = Parser::new(&base, &toks);
    LexRule { index, re: p.parse().unwrap() }
}

fn compile(regexes: &[&str]) -> Dfa {
    let mut nfa = Nfa::new();
    for (i, r) in regexes.iter().enumerate() {
        nfa.add_rule(&rule(i as u32, r)).unwrap();
    }
    build_dfa(&nfa)
}

fn run(dfa: &Dfa, input: &str) -> Option<u32> {
    resolve(dfa, &chars(input))
}

#[test]
fn literal_fragment_is_tagged_with_its_rule() {
    let mut nfa = Nfa::new();
    let (s, a) = nfa.add_rule(&rule(7, "x")).unwrap();
    assert_ne!(s, a);
    assert!(nfa.states[a].is_accepting);
    assert_eq!(nfa.states[a].rule_index, Some(7));
    assert!(!nfa.states[s].is_accepting);
    // the global start has an epsilon edge into the fragment
    let start = nfa.start;
    assert!(nfa.states[start]
        .transitions
        .iter()
        .any(|&(sym, t)| sym == Symbol::Epsilon && t == s));
}

#[test]
fn unresolved_replacement_is_fatal() {
    let mut nfa = Nfa::new();
    let r = LexRule {
        index: 0,
        re: LexRe::Replacement { span: Span::new(0, 6), name: vec!['n'] },
    };
    assert!(matches!(
        nfa.add_rule(&r),
        Err(BuildError::UnresolvedReplacement(_))
    ));
}

#[test]
fn locale_class_is_not_compilable() {
    let mut nfa = Nfa::new();
    let r = rule(0, "[:alpha:]");
    assert!(matches!(nfa.add_rule(&r), Err(BuildError::UnsupportedClass(_))));
}

#[test]
fn earliest_rule_wins_ties() {
    // rule 0 matches `a`; rule 1 matches `a` or `b`; on "a" rule 0 wins
    let dfa = compile(&["a", "a|b"]);
    assert_eq!(run(&dfa, "a"), Some(0));
    assert_eq!(run(&dfa, "b"), Some(1));
    assert_eq!(run(&dfa, ""), None);
    assert_eq!(run(&dfa, "c"), None);
    assert_eq!(run(&dfa, "aa"), None);
}

#[test]
fn bounded_repetition_counts_exactly() {
    let dfa = compile(&["a{2,3}"]);
    assert_eq!(run(&dfa, "a"), None);
    assert_eq!(run(&dfa, "aa"), Some(0));
    assert_eq!(run(&dfa, "aaa"), Some(0));
    assert_eq!(run(&dfa, "aaaa"), None);
}

#[test]
fn kleene_star_allows_zero_and_many() {
    let dfa = compile(&["a*"]);
    assert_eq!(run(&dfa, ""), Some(0));
    assert_eq!(run(&dfa, "a"), Some(0));
    assert_eq!(run(&dfa, "aaaa"), Some(0));
    assert_eq!(run(&dfa, "b"), None);
}

#[test]
fn plus_requires_one() {
    let dfa = compile(&["a+"]);
    assert_eq!(run(&dfa, ""), None);
    assert_eq!(run(&dfa, "a"), Some(0));
    assert_eq!(run(&dfa, "aaa"), Some(0));
}

#[test]
fn bracket_and_negated_bracket() {
    let dfa = compile(&["[a-c]+"]);
    assert_eq!(run(&dfa, "abc"), Some(0));
    assert_eq!(run(&dfa, "d"), None);
    let neg = compile(&["[^a]"]);
    assert_eq!(run(&neg, "b"), Some(0));
    assert_eq!(run(&neg, "a"), None);
}

#[test]
fn quoted_text_matches_literally() {
    let dfa = compile(&["\"a*\""]);
    assert_eq!(run(&dfa, "a*"), Some(0));
    assert_eq!(run(&dfa, "aa"), None);
    assert_eq!(run(&dfa, "a"), None);
}

#[test]
fn concatenation_crosses_rules() {
    let dfa = compile(&["ab", "a"]);
    assert_eq!(run(&dfa, "ab"), Some(0));
    assert_eq!(run(&dfa, "a"), Some(1));
    assert_eq!(run(&dfa, "b"), None);
}

#[test]
fn identical_subsets_are_constructed_once() {
    // both branches of the alternation lead through equal subsets
    let dfa = compile(&["ab|ab"]);
    let n = dfa.states.len();
    for i in 0..n {
        for j in (i + 1)..n {
            assert_ne!(dfa.states[i].nfa_states, dfa.states[j].nfa_states);
        }
    }
    assert_eq!(run(&dfa, "ab"), Some(0));
}

#[test]
fn minimization_keeps_every_answer() {
    let samples = ["", "a", "b", "c", "ab", "ac", "aa", "ba", "abc", "abab"];
    for rules in [
        vec!["a", "a|b"],
        vec!["ab|ac"],
        vec!["a*", "b"],
        vec!["a{2,3}", "[a-c]+"],
    ] {
        let dfa = compile(&rules);
        let min = minimize(&dfa);
        assert!(min.states.len() <= dfa.states.len());
        for s in samples.iter() {
            assert_eq!(run(&dfa, s), run(&min, s), "rules {:?} input {:?}", rules, s);
        }
    }
}

#[test]
fn minimization_merges_equal_branches() {
    let dfa = compile(&["ab|cb"]);
    let min = minimize(&dfa);
    assert!(min.states.len() < dfa.states.len());
    assert_eq!(run(&min, "ab"), Some(0));
    assert_eq!(run(&min, "cb"), Some(0));
    assert_eq!(run(&min, "bb"), None);
}

#[test]
fn tie_break_survives_minimization() {
    let dfa = compile(&["a", "a|b"]);
    let min = minimize(&dfa);
    assert_eq!(run(&min, "a"), Some(0));
    assert_eq!(run(&min, "b"), Some(1));
}

#[test]
fn nfa_primitives_build_edges() {
    let mut nfa = Nfa::new();
    let s0 = nfa.add_state(false);
    let s1 = nfa.add_state(false);
    nfa.add_transition(s0, Symbol::Char('z'), s1);
    assert_eq!(nfa.states.len(), 2);
    assert_eq!(nfa.states[s0].transitions, vec![(Symbol::Char('z'), s1)]);
    assert!(nfa.states[s1].transitions.is_empty());
}
