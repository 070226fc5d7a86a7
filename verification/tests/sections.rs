use ft_lex::section::{
    process_definition_item, process_lines, process_rules_item, scan_space, InputError,
};
use ft_lex::structures::{
    Config, DefinitionItemType, OptionData, RuleItemType, SectionDefinitions, SectionRules, Yo,
};

fn chars(s: &str) -> Vec<char> {
    s.chars().collect()
}

fn lines(ls: &[&str]) -> Vec<Vec<char>> {
    ls.iter().map(|l| chars(l)).collect()
}

#[test]
fn scan_space_finds_first_boundary() {
    assert_eq!(scan_space(&chars("abc def")), Some(3));
    assert_eq!(scan_space(&chars("abc")), None);
}

#[test]
fn scan_space_skips_escaped_whitespace() {
    assert_eq!(scan_space(&chars("a\\ b c")), Some(4));
}

#[test]
fn scan_space_skips_quoted_whitespace() {
    assert_eq!(scan_space(&chars("\"a b\" c")), Some(5));
}

#[test]
fn definition_lines_classify() {
    let cases: [(&str, DefinitionItemType); 5] = [
        ("%s COND", DefinitionItemType::StartCondition),
        ("%x EXCL", DefinitionItemType::ExclusiveCondition),
        ("%array", DefinitionItemType::YytextType),
        ("%7000 t", DefinitionItemType::TableSize),
        ("NAME [0-9]+", DefinitionItemType::Substitution),
    ];
    for (text, expected) in cases {
        let ls = lines(&[text]);
        let mut defs = SectionDefinitions::default();
        let r = process_definition_item(&ls, 0, &mut defs);
        assert_eq!(r, 0);
        assert_eq!(defs.items.len(), 1, "line {:?}", text);
        assert_eq!(defs.items[0].item_type, expected, "line {:?}", text);
    }
}

#[test]
fn yytext_type_needs_the_full_word() {
    let ls = lines(&["%arr x"]);
    let mut defs = SectionDefinitions::default();
    process_definition_item(&ls, 0, &mut defs);
    assert_eq!(defs.items[0].item_type, DefinitionItemType::TableSize);
}

#[test]
fn leading_whitespace_is_a_code_line() {
    let ls = lines(&["  int x;"]);
    let mut defs = SectionDefinitions::default();
    process_definition_item(&ls, 0, &mut defs);
    assert_eq!(defs.items[0].item_type, DefinitionItemType::CodeLine);
}

#[test]
fn code_block_runs_to_its_closer() {
    let ls = lines(&["%{", "int y;", "%}"]);
    let mut defs = SectionDefinitions::default();
    let r = process_definition_item(&ls, 0, &mut defs);
    assert_eq!(r, 2);
    assert_eq!(defs.items.len(), 1);
    assert_eq!(defs.items[0].item_type, DefinitionItemType::CodeBlock);
    assert_eq!(defs.items[0].start_line, 1);
    assert_eq!(defs.items[0].end_line, 2);
}

#[test]
fn unterminated_code_block_appends_nothing() {
    let ls = lines(&["%{", "int y;"]);
    let mut defs = SectionDefinitions::default();
    let r = process_definition_item(&ls, 0, &mut defs);
    assert_eq!(r, 2);
    assert!(defs.items.is_empty());
}

#[test]
fn rule_line_records_the_regex_end() {
    let ls = lines(&["[a-z]+ return WORD;"]);
    let mut rules = SectionRules::default();
    let r = process_rules_item(&ls, 0, &mut rules);
    assert_eq!(r, 0);
    assert_eq!(rules.items.len(), 1);
    assert_eq!(rules.items[0].item_type, RuleItemType::Rule);
    assert_eq!(rules.items[0].re_end_pos, 6);
    assert!(rules.rules_emerged);
}

#[test]
fn multi_line_action_spans_to_closing_brace() {
    let ls = lines(&["abc {", "  act();", "}"]);
    let mut rules = SectionRules::default();
    let r = process_rules_item(&ls, 0, &mut rules);
    assert_eq!(r, 2);
    assert_eq!(rules.items.len(), 1);
    assert_eq!(rules.items[0].item_type, RuleItemType::Rule);
    assert_eq!(rules.items[0].start_line, 0);
    assert_eq!(rules.items[0].end_line, 3);
}

#[test]
fn three_sections_walk_through() {
    let ls = lines(&["%s A", "%%", "abc ret", "%%", "subroutine text"]);
    let pi = process_lines(ls).unwrap();
    assert_eq!(pi.definitions.items.len(), 1);
    assert_eq!(pi.rules.items.len(), 1);
    assert_eq!(pi.user_subroutines.start_line, 4);
    assert_eq!(pi.lines.len(), 5);
}

#[test]
fn delimiter_in_user_subroutines_is_fatal() {
    let ls = lines(&["%%", "a b", "%%", "text", "%%"]);
    let r = process_lines(ls);
    assert!(matches!(r, Err(InputError::DelimiterInUserSubroutines(4))));
}

#[test]
fn defaults_match_a_fresh_run() {
    let o = OptionData::default();
    assert!(o.is_verbose);
    assert!(!o.into_stdout);
    assert!(!o.do_table_compression);
    let c = Config::default();
    assert!(c.input_path.is_none());
    let yo = Yo::default();
    assert!(yo.parsed_input.lines.is_empty());
    assert!(yo.parsed_input.definitions.items.is_empty());
}
