//! Run configuration and the parsed shape of a specification file.

use vstd::prelude::*;

verus! {

/// Command-line options of a run.
#[derive(Debug)]
pub struct OptionData {
    /// Whether statistics are printed.
    pub is_verbose: bool,
    /// Whether the result goes to standard output.
    pub into_stdout: bool,
    /// Whether table compression (minimization) is performed.
    pub do_table_compression: bool,
}

impl Default for OptionData {
    fn default() -> (r: OptionData)
        ensures
            r.is_verbose,
            !r.into_stdout,
            !r.do_table_compression,
    {
        OptionData { is_verbose: true, into_stdout: false, do_table_compression: false }
    }
}

/// Where the input comes from, and the options.
#[derive(Debug)]
pub struct Config {
    /// The input path; absent means standard input.
    pub input_path: Option<String>,
    pub option: OptionData,
}

impl Default for Config {
    fn default() -> (r: Config)
        ensures
            r.input_path is None,
            r.option.is_verbose,
            !r.option.into_stdout,
            !r.option.do_table_compression,
    {
        Config { input_path: None, option: OptionData::default() }
    }
}

/// The state of one whole run: its configuration and what was read.
#[derive(Debug)]
pub struct Yo {
    pub config: Config,
    pub parsed_input: ParsedInput,
}

impl Default for Yo {
    fn default() -> (r: Yo)
        ensures
            r.config.input_path is None,
            r.parsed_input.lines@.len() == 0,
    {
        Yo { config: Config::default(), parsed_input: ParsedInput::default() }
    }
}

/// Which of the three sections of a specification file a line belongs to.
#[derive(Debug, Clone, Copy, PartialEq, Eq, Structural)]
pub enum InputParseState {
    Definitions,
    Rules,
    UserSubroutines,
}

/// What one definitions-section item is.
#[derive(Debug, Clone, Copy, PartialEq, Eq, Structural)]
pub enum DefinitionItemType {
    Unknown,
    CodeBlock,
    CodeLine,
    YytextType,
    StartCondition,
    ExclusiveCondition,
    TableSize,
    Substitution,
}

impl Default for DefinitionItemType {
    fn default() -> (r: DefinitionItemType)
        ensures
            r == DefinitionItemType::Unknown,
    {
        DefinitionItemType::Unknown
    }
}

/// What one rules-section item is.
#[derive(Debug, Clone, Copy, PartialEq, Eq, Structural)]
pub enum RuleItemType {
    Unknown,
    CodeBlock,
    CodeLine,
    Rule,
}

impl Default for RuleItemType {
    fn default() -> (r: RuleItemType)
        ensures
            r == RuleItemType::Unknown,
    {
        RuleItemType::Unknown
    }
}

/// One classified item of the definitions section, by line range.
#[derive(Debug, Clone, Copy, PartialEq, Eq, Structural)]
pub struct DefinitionItem {
    pub item_type: DefinitionItemType,
    pub start_line: u64,
    pub end_line: u64,
    pub re_end_pos: u64,
}

/// The classified items of the definitions section.
#[derive(Debug)]
pub struct SectionDefinitions {
    pub items: Vec<DefinitionItem>,
}

impl Default for SectionDefinitions {
    fn default() -> (r: SectionDefinitions)
        ensures
            r.items@.len() == 0,
    {
        SectionDefinitions { items: Vec::new() }
    }
}

/// One classified item of the rules section, by line range; for a rule,
/// `re_end_pos` is the column where its regex ends.
#[derive(Debug, Clone, Copy, PartialEq, Eq, Structural)]
pub struct RuleItem {
    pub item_type: RuleItemType,
    pub start_line: u64,
    pub end_line: u64,
    pub re_end_pos: u64,
}

/// The classified items of the rules section.
#[derive(Debug)]
pub struct SectionRules {
    pub items: Vec<RuleItem>,
    pub rules_emerged: bool,
}

impl Default for SectionRules {
    fn default() -> (r: SectionRules)
        ensures
            r.items@.len() == 0,
            !r.rules_emerged,
    {
        SectionRules { items: Vec::new(), rules_emerged: false }
    }
}

/// The line range of the verbatim user-subroutines section.
#[derive(Debug)]
pub struct SectionUserSubroutines {
    pub start_line: u64,
    pub end_line: u64,
}

impl Default for SectionUserSubroutines {
    fn default() -> (r: SectionUserSubroutines)
        ensures
            r.start_line == 0,
            r.end_line == 0,
    {
        SectionUserSubroutines { start_line: 0, end_line: 0 }
    }
}

/// A whole specification file, split into lines and classified sections.
#[derive(Debug)]
pub struct ParsedInput {
    pub lines: Vec<Vec<char>>,
    pub definitions: SectionDefinitions,
    pub rules: SectionRules,
    pub user_subroutines: SectionUserSubroutines,
}

impl Default for ParsedInput {
    fn default() -> (r: ParsedInput)
        ensures
            r.lines@.len() == 0,
            r.definitions.items@.len() == 0,
            r.rules.items@.len() == 0,
    {
        ParsedInput {
            lines: Vec::new(),
            definitions: SectionDefinitions::default(),
            rules: SectionRules::default(),
            user_subroutines: SectionUserSubroutines::default(),
        }
    }
}

} // verus!
