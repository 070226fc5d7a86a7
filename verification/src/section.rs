//! Line-oriented bookkeeping around the three sections of a specification
//! file: locating the regex-vs-action boundary on a rule line, classifying
//! definition and rule items, and walking the sections between `%%`
//! delimiter lines.

use vstd::prelude::*;

use crate::lex_re_tokenizer::is_blank_char;
use crate::structures::DefinitionItem;
use crate::structures::DefinitionItemType;
use crate::structures::InputParseState;
use crate::structures::ParsedInput;
use crate::structures::RuleItem;
use crate::structures::RuleItemType;
use crate::structures::SectionDefinitions;
use crate::structures::SectionRules;
use crate::structures::SectionUserSubroutines;

verus! {

/// Where the scan for the first unescaped, unquoted whitespace stands at
/// position `i`: the position found, or none to the end of the line.
pub open spec fn spec_scan_space(s: Seq<char>, i: int, in_quotes: bool, escaped: bool) -> Option<
    int,
>
    decreases s.len() - i,
    when 0 <= i <= s.len()
{
    if i >= s.len() {
        None
    } else if escaped {
        spec_scan_space(s, i + 1, in_quotes, false)
    } else if s[i] == '\\' {
        spec_scan_space(s, i + 1, in_quotes, true)
    } else if s[i] == '"' {
        spec_scan_space(s, i + 1, !in_quotes, false)
    } else if !in_quotes && is_blank_char(s[i]) {
        Some(i)
    } else {
        spec_scan_space(s, i + 1, in_quotes, false)
    }
}

/// The position of the first whitespace of the line that stands outside
/// double quotes and is not escaped by a backslash: the boundary between a
/// rule's regex and its action.
pub fn scan_space(line: &Vec<char>) -> (r: Option<usize>)
    ensures
        match r {
            Some(j) => spec_scan_space(line@, 0, false, false) == Some(j as int),
            None => spec_scan_space(line@, 0, false, false) is None,
        },
{
    let ghost s = line@;
    let n = line.len();
    let mut i: usize = 0;
    let mut in_quotes = false;
    let mut escaped = false;
    while i < n
        invariant
            n == s.len(),
            s == line@,
            i <= n,
            spec_scan_space(s, 0, false, false) == spec_scan_space(
                s,
                i as int,
                in_quotes,
                escaped,
            ),
        decreases n - i,
    {
        let c = line[i];
        if escaped {
            escaped = false;
        } else if c == '\\' {
            escaped = true;
        } else if c == '"' {
            in_quotes = !in_quotes;
        } else if !in_quotes && crate::lex_re_tokenizer::is_blank(c) {
            return Some(i);
        }
        i = i + 1;
    }
    None
}

/// The line begins with the two given characters.
pub open spec fn spec_starts_with2(line: Seq<char>, a: char, b: char) -> bool {
    line.len() >= 2 && line[0] == a && line[1] == b
}

fn starts_with2(line: &Vec<char>, a: char, b: char) -> (r: bool)
    ensures
        r == spec_starts_with2(line@, a, b),
{
    line.len() >= 2 && line[0] == a && line[1] == b
}

/// The line begins with `%array`.
pub open spec fn spec_starts_array(line: Seq<char>) -> bool {
    line.len() >= 6 && line[0] == '%' && line[1] == 'a' && line[2] == 'r' && line[3] == 'r'
        && line[4] == 'a' && line[5] == 'y'
}

fn starts_array(line: &Vec<char>) -> (r: bool)
    ensures
        r == spec_starts_array(line@),
{
    line.len() >= 6 && line[0] == '%' && line[1] == 'a' && line[2] == 'r' && line[3] == 'r'
        && line[4] == 'a' && line[5] == 'y'
}

/// The line begins with `%pointer`.
pub open spec fn spec_starts_pointer(line: Seq<char>) -> bool {
    line.len() >= 8 && line[0] == '%' && line[1] == 'p' && line[2] == 'o' && line[3] == 'i'
        && line[4] == 'n' && line[5] == 't' && line[6] == 'e' && line[7] == 'r'
}

fn starts_pointer(line: &Vec<char>) -> (r: bool)
    ensures
        r == spec_starts_pointer(line@),
{
    line.len() >= 8 && line[0] == '%' && line[1] == 'p' && line[2] == 'o' && line[3] == 'i'
        && line[4] == 'n' && line[5] == 't' && line[6] == 'e' && line[7] == 'r'
}

/// The first line at or after `i` that opens with `%}`, or the line count.
pub open spec fn spec_block_end(lines: Seq<Seq<char>>, i: int) -> int
    decreases lines.len() - i,
    when 0 <= i <= lines.len()
{
    if i >= lines.len() {
        i
    } else if spec_starts_with2(lines[i], '%', '}') {
        i
    } else {
        spec_block_end(lines, i + 1)
    }
}

/// How a single definitions-section line that opens no code block is
/// classified; none when the line deserves only a warning.
pub open spec fn spec_classify_def(line: Seq<char>) -> Option<DefinitionItemType> {
    if line.len() > 0 && is_blank_char(line[0]) {
        Some(DefinitionItemType::CodeLine)
    } else if spec_starts_array(line) || spec_starts_pointer(line) {
        Some(DefinitionItemType::YytextType)
    } else if spec_starts_with2(line, '%', 's') || spec_starts_with2(line, '%', 'S') {
        Some(DefinitionItemType::StartCondition)
    } else if spec_starts_with2(line, '%', 'x') || spec_starts_with2(line, '%', 'X') {
        Some(DefinitionItemType::ExclusiveCondition)
    } else if line.len() > 0 && line[0] == '%' {
        Some(DefinitionItemType::TableSize)
    } else if exists|j: int| 1 <= j < line.len() && is_blank_char(#[trigger] line[j]) {
        Some(DefinitionItemType::Substitution)
    } else {
        None
    }
}

/// Classify the definitions-section item starting at line `given_i`: a code
/// block runs to its `%}` line and everything else is one line. Returns the
/// index of the item's last line, and appends one item, or none for an
/// unclassifiable line or an unterminated code block.
#[verifier::loop_isolation(false)]
pub fn process_definition_item(
    lines: &Vec<Vec<char>>,
    given_i: usize,
    defs: &mut SectionDefinitions,
) -> (r: usize)
    requires
        given_i < lines@.len(),
    ensures
        given_i <= r <= lines@.len(),
        final(defs).items@.len() >= old(defs).items@.len(),
        forall|k: int|
            0 <= k < old(defs).items@.len() ==> final(defs).items@[k] == old(defs).items@[k],
        spec_starts_with2(lines@[given_i as int]@, '%', '{') ==> (r == spec_block_end(
            lines@.map_values(|l: Vec<char>| l@),
            given_i as int,
        ) && (r < lines@.len() ==> final(defs).items@ == old(defs).items@.push(
            (DefinitionItem {
                item_type: DefinitionItemType::CodeBlock,
                start_line: (given_i + 1) as u64,
                end_line: r as u64,
                re_end_pos: 0,
            }),
        )) && (r >= lines@.len() ==> final(defs).items@ == old(defs).items@)),
        !spec_starts_with2(lines@[given_i as int]@, '%', '{') ==> (r == given_i && (match
            spec_classify_def(lines@[given_i as int]@) {
            Some(ty) => final(defs).items@ == old(defs).items@.push(
                (DefinitionItem {
                    item_type: ty,
                    start_line: if ty == DefinitionItemType::CodeBlock {
                        (given_i + 1) as u64
                    } else {
                        given_i as u64
                    },
                    end_line: (given_i + 1) as u64,
                    re_end_pos: 0,
                }),
            ),
            None => final(defs).items@ == old(defs).items@,
        })),
{
    let ghost lv = lines@.map_values(|l: Vec<char>| l@);
    // the line count fits usize, so the indexes below cannot overflow
    let _n: usize = lines.len();
    let mut i = given_i;
    let line = &lines[i];
    if starts_with2(line, '%', '{') {
        let start = i;
        proof {
            assert(lv[i as int] == lines@[i as int]@);
        }
        while i < lines.len() && !starts_with2(&lines[i], '%', '}')
            invariant
                given_i <= i <= lines@.len(),
                spec_block_end(lv, given_i as int) == spec_block_end(lv, i as int),
            decreases lines@.len() - i,
        {
            proof {
                assert(lv[i as int] == lines@[i as int]@);
            }
            i = i + 1;
        }
        proof {
            if i < lines@.len() {
                assert(lv[i as int] == lines@[i as int]@);
            }
            assert(spec_block_end(lv, i as int) == i as int);
        }
        if i >= lines.len() {
            return i;
        }
        defs.items.push(
            DefinitionItem {
                item_type: DefinitionItemType::CodeBlock,
                start_line: (start as u64) + 1,
                end_line: i as u64,
                re_end_pos: 0,
            },
        );
        return i;
    }
    let ty: Option<DefinitionItemType> = classify_def_line(line);
    match ty {
        Some(t) => {
            defs.items.push(
                DefinitionItem {
                    item_type: t,
                    start_line: i as u64,
                    end_line: (i + 1) as u64,
                    re_end_pos: 0,
                },
            );
        },
        None => {},
    }
    i
}

#[verifier::loop_isolation(false)]
fn classify_def_line(line: &Vec<char>) -> (r: Option<DefinitionItemType>)
    ensures
        r == spec_classify_def(line@),
        r != Some(DefinitionItemType::CodeBlock),
{
    if line.len() > 0 && crate::lex_re_tokenizer::is_blank(line[0]) {
        return Some(DefinitionItemType::CodeLine);
    }
    if starts_array(line) || starts_pointer(line) {
        return Some(DefinitionItemType::YytextType);
    }
    if starts_with2(line, '%', 's') || starts_with2(line, '%', 'S') {
        return Some(DefinitionItemType::StartCondition);
    }
    if starts_with2(line, '%', 'x') || starts_with2(line, '%', 'X') {
        return Some(DefinitionItemType::ExclusiveCondition);
    }
    if line.len() > 0 && line[0] == '%' {
        return Some(DefinitionItemType::TableSize);
    }
    let mut j: usize = 1;
    while j < line.len()
        invariant
            1 <= j,
            j <= line@.len() || j == 1,
            forall|q: int| 1 <= q < j && q < line@.len() ==> !is_blank_char(#[trigger] line@[q]),
        decreases line@.len() - j,
    {
        if crate::lex_re_tokenizer::is_blank(line[j]) {
            proof {
                assert(1 <= (j as int) && (j as int) < line@.len());
                assert(is_blank_char(line@[j as int]));
            }
            return Some(DefinitionItemType::Substitution);
        }
        j = j + 1;
    }
    None
}

/// Whether the line holds the given character.
pub open spec fn spec_line_has(line: Seq<char>, from: int, c: char) -> bool {
    exists|j: int| from <= j < line.len() && line[j] == c
}

fn line_has(line: &Vec<char>, from: usize, c: char) -> (r: bool)
    ensures
        r == spec_line_has(line@, from as int, c),
{
    let mut j = from;
    while j < line.len()
        invariant
            from <= j,
            forall|q: int| from <= q < j && q < line@.len() ==> line@[q] != c,
        decreases line@.len() - j,
    {
        if line[j] == c {
            return true;
        }
        j = j + 1;
    }
    false
}

/// The first line at or after `i` that holds `}` — searched from `pos` on
/// the action's first line `start`, from the line start elsewhere — or the
/// line count.
pub open spec fn spec_action_end(lines: Seq<Seq<char>>, i: int, start: int, pos: int) -> int
    decreases lines.len() - i,
    when 0 <= i <= lines.len()
{
    if i >= lines.len() {
        i
    } else if spec_line_has(lines[i], if i == start { pos } else { 0 }, '}') {
        i
    } else {
        spec_action_end(lines, i + 1, start, pos)
    }
}

/// Classify the rules-section item starting at line `given_i`: a code block
/// runs to its `%}` line; a line opening with whitespace is a code line; a
/// line with an unquoted, unescaped whitespace boundary is a rule, whose
/// action may span to the first line holding `}` when it opens with `{`.
/// Returns the index of the item's last line; each branch's appended item
/// is stated exactly.
#[verifier::loop_isolation(false)]
pub fn process_rules_item(lines: &Vec<Vec<char>>, given_i: usize, rules: &mut SectionRules) -> (r:
    usize)
    requires
        given_i < lines@.len(),
    ensures
        given_i <= r <= lines@.len(),
        final(rules).items@.len() >= old(rules).items@.len(),
        forall|k: int|
            0 <= k < old(rules).items@.len() ==> final(rules).items@[k] == old(rules).items@[k],
        ({
            let lv = lines@.map_values(|l: Vec<char>| l@);
            let line = lv[given_i as int];
            &&& (spec_starts_with2(line, '%', '{') ==> (r == spec_block_end(lv, given_i as int)
                && final(rules).rules_emerged == old(rules).rules_emerged && (r < lines@.len()
                ==> final(rules).items@ == old(rules).items@.push(
                (RuleItem {
                    item_type: RuleItemType::CodeBlock,
                    start_line: (given_i + 1) as u64,
                    end_line: r as u64,
                    re_end_pos: 0,
                }),
            )) && (r >= lines@.len() ==> final(rules).items@ == old(rules).items@)))
            &&& ((!spec_starts_with2(line, '%', '{') && line.len() > 0 && is_blank_char(line[0]))
                ==> (r == given_i && final(rules).rules_emerged == old(rules).rules_emerged
                && final(rules).items@ == old(rules).items@.push(
                (RuleItem {
                    item_type: RuleItemType::CodeLine,
                    start_line: given_i as u64,
                    end_line: (given_i + 1) as u64,
                    re_end_pos: 0,
                }),
            )))
            &&& ((!spec_starts_with2(line, '%', '{') && !(line.len() > 0 && is_blank_char(
                line[0],
            )) && spec_scan_space(line, 0, false, false) is None) ==> (r == given_i && final(rules).items@ == old(rules).items@ && final(rules).rules_emerged == old(rules).rules_emerged))
            &&& ((!spec_starts_with2(line, '%', '{') && !(line.len() > 0 && is_blank_char(
                line[0],
            ))) ==> (spec_scan_space(line, 0, false, false) matches Some(pos) ==> ((
            spec_line_has(line, pos, '{') ==> (r == spec_action_end(
                lv,
                given_i as int,
                given_i as int,
                pos,
            ) && (r < lines@.len() ==> (final(rules).items@ == old(rules).items@.push(
                (RuleItem {
                    item_type: RuleItemType::Rule,
                    start_line: given_i as u64,
                    end_line: (r + 1) as u64,
                    re_end_pos: pos as u64,
                }),
            ) && final(rules).rules_emerged)) && (r >= lines@.len() ==> (final(rules).items@
                == old(rules).items@ && final(rules).rules_emerged == old(rules).rules_emerged)))) && (!spec_line_has(line, pos, '{') ==> (r == given_i && final(rules).items@ == old(rules).items@.push(
                (RuleItem {
                    item_type: RuleItemType::Rule,
                    start_line: given_i as u64,
                    end_line: (given_i + 1) as u64,
                    re_end_pos: pos as u64,
                }),
            ) && final(rules).rules_emerged)))))
        }),
{
    let ghost lv = lines@.map_values(|l: Vec<char>| l@);
    // the line count fits usize, so the indexes below cannot overflow
    // the line count fits usize, so the indexes below cannot overflow
    let _n: usize = lines.len();
    let mut i = given_i;
    let line = &lines[i];
    proof {
        assert(lv[given_i as int] == lines@[given_i as int]@);
    }
    if starts_with2(line, '%', '{') {
        let start = i;
        while i < lines.len() && !starts_with2(&lines[i], '%', '}')
            invariant
                given_i <= i <= lines@.len(),
                spec_block_end(lv, given_i as int) == spec_block_end(lv, i as int),
            decreases lines@.len() - i,
        {
            proof {
                assert(lv[i as int] == lines@[i as int]@);
            }
            i = i + 1;
        }
        proof {
            if i < lines@.len() {
                assert(lv[i as int] == lines@[i as int]@);
            }
            assert(spec_block_end(lv, i as int) == i as int);
        }
        if i >= lines.len() {
            return i;
        }
        rules.items.push(
            RuleItem {
                item_type: RuleItemType::CodeBlock,
                start_line: (start as u64) + 1,
                end_line: i as u64,
                re_end_pos: 0,
            },
        );
        return i;
    }
    if line.len() > 0 && crate::lex_re_tokenizer::is_blank(line[0]) {
        rules.items.push(
            RuleItem {
                item_type: RuleItemType::CodeLine,
                start_line: i as u64,
                end_line: (i + 1) as u64,
                re_end_pos: 0,
            },
        );
        return i;
    }
    match scan_space(line) {
        Some(pos) => {
            if line_has(line, pos, '{') {
                // a multi-line action: run to the first line holding `}`
                let start_action = i;
                let mut found = false;
                while i < lines.len() && !found
                    invariant
                        given_i <= i <= lines@.len(),
                        start_action == given_i,
                        found ==> i < lines@.len() && spec_action_end(
                            lv,
                            given_i as int,
                            given_i as int,
                            pos as int,
                        ) == i as int,
                        !found ==> spec_action_end(
                            lv,
                            given_i as int,
                            given_i as int,
                            pos as int,
                        ) == spec_action_end(lv, i as int, given_i as int, pos as int),
                    decreases lines@.len() - i + (if found {
                        0int
                    } else {
                        1int
                    }),
                {
                    proof {
                        assert(lv[i as int] == lines@[i as int]@);
                    }
                    let from = if i == start_action {
                        pos
                    } else {
                        0
                    };
                    if line_has(&lines[i], from, '}') {
                        found = true;
                    } else {
                        i = i + 1;
                    }
                }
                proof {
                    if !found {
                        assert(spec_action_end(lv, i as int, given_i as int, pos as int)
                            == i as int);
                    }
                }
                if !found {
                    return i;
                }
                rules.items.push(
                    RuleItem {
                        item_type: RuleItemType::Rule,
                        start_line: start_action as u64,
                        end_line: (i + 1) as u64,
                        re_end_pos: pos as u64,
                    },
                );
                rules.rules_emerged = true;
                i
            } else {
                rules.items.push(
                    RuleItem {
                        item_type: RuleItemType::Rule,
                        start_line: i as u64,
                        end_line: (i + 1) as u64,
                        re_end_pos: pos as u64,
                    },
                );
                rules.rules_emerged = true;
                i
            }
        },
        None => i,
    }
}

/// A section delimiter line: exactly `%%`.
pub open spec fn spec_is_delim(line: Seq<char>) -> bool {
    line.len() == 2 && line[0] == '%' && line[1] == '%'
}

fn is_delim(line: &Vec<char>) -> (r: bool)
    ensures
        r == spec_is_delim(line@),
{
    line.len() == 2 && line[0] == '%' && line[1] == '%'
}

/// Where the definitions-section item starting at line `i` ends.
pub open spec fn spec_def_step(lv: Seq<Seq<char>>, i: int) -> int {
    if spec_starts_with2(lv[i], '%', '{') {
        spec_block_end(lv, i)
    } else {
        i
    }
}

/// Where the rules-section item starting at line `i` ends.
pub open spec fn spec_rules_step(lv: Seq<Seq<char>>, i: int) -> int {
    if spec_starts_with2(lv[i], '%', '{') {
        spec_block_end(lv, i)
    } else if lv[i].len() > 0 && is_blank_char(lv[i][0]) {
        i
    } else {
        match spec_scan_space(lv[i], 0, false, false) {
            Some(pos) => if spec_line_has(lv[i], pos, '{') {
                spec_action_end(lv, i, i, pos)
            } else {
                i
            },
            None => i,
        }
    }
}

proof fn lemma_block_end_bounds(lv: Seq<Seq<char>>, i: int)
    requires
        0 <= i <= lv.len(),
    ensures
        i <= spec_block_end(lv, i) <= lv.len(),
    decreases lv.len() - i,
{
    if i < lv.len() && !spec_starts_with2(lv[i], '%', '}') {
        lemma_block_end_bounds(lv, i + 1);
    }
}

proof fn lemma_action_end_bounds(lv: Seq<Seq<char>>, i: int, start: int, pos: int)
    requires
        0 <= i <= lv.len(),
    ensures
        i <= spec_action_end(lv, i, start, pos) <= lv.len(),
    decreases lv.len() - i,
{
    if i < lv.len() && !spec_line_has(lv[i], if i == start { pos } else { 0 }, '}') {
        lemma_action_end_bounds(lv, i + 1, start, pos);
    }
}

/// The walk over the whole file: the line index of a fatal delimiter inside
/// the user subroutines, or none when the walk runs off the end.
pub open spec fn spec_walk(lv: Seq<Seq<char>>, i: int, state: InputParseState) -> Option<int>
    decreases lv.len() - i,
    when 0 <= i <= lv.len()
    via spec_walk_decreases
{
    if i >= lv.len() {
        None
    } else {
        match state {
            InputParseState::Definitions => if spec_is_delim(lv[i]) {
                spec_walk(lv, i + 1, InputParseState::Rules)
            } else {
                if spec_def_step(lv, i) >= lv.len() {
                    spec_walk(lv, spec_def_step(lv, i), InputParseState::Definitions)
                } else {
                    spec_walk(lv, spec_def_step(lv, i) + 1, InputParseState::Definitions)
                }
            },
            InputParseState::Rules => if spec_is_delim(lv[i]) {
                spec_walk(lv, i + 1, InputParseState::UserSubroutines)
            } else {
                if spec_rules_step(lv, i) >= lv.len() {
                    spec_walk(lv, spec_rules_step(lv, i), InputParseState::Rules)
                } else {
                    spec_walk(lv, spec_rules_step(lv, i) + 1, InputParseState::Rules)
                }
            },
            InputParseState::UserSubroutines => if spec_is_delim(lv[i]) {
                Some(i)
            } else {
                spec_walk(lv, i + 1, InputParseState::UserSubroutines)
            },
        }
    }
}

#[via_fn]
proof fn spec_walk_decreases(lv: Seq<Seq<char>>, i: int, state: InputParseState) {
    if 0 <= i && i < lv.len() {
        lemma_block_end_bounds(lv, i);
        if !spec_starts_with2(lv[i], '%', '{') && !(lv[i].len() > 0 && is_blank_char(lv[i][0])) {
            match spec_scan_space(lv[i], 0, false, false) {
                Some(pos) => {
                    lemma_action_end_bounds(lv, i, i, pos);
                },
                None => {},
            }
        }
    }
}

/// The definitions item appended for the item starting at line `i`, if any.
pub open spec fn spec_def_item(lv: Seq<Seq<char>>, i: int) -> Option<DefinitionItem> {
    if spec_starts_with2(lv[i], '%', '{') {
        if spec_block_end(lv, i) < lv.len() {
            Some(
                DefinitionItem {
                    item_type: DefinitionItemType::CodeBlock,
                    start_line: (i + 1) as u64,
                    end_line: spec_block_end(lv, i) as u64,
                    re_end_pos: 0,
                },
            )
        } else {
            None
        }
    } else {
        match spec_classify_def(lv[i]) {
            Some(ty) => Some(
                DefinitionItem {
                    item_type: ty,
                    start_line: i as u64,
                    end_line: (i + 1) as u64,
                    re_end_pos: 0,
                },
            ),
            None => None,
        }
    }
}

/// The rules item appended for the item starting at line `i`, if any.
pub open spec fn spec_rules_item_of(lv: Seq<Seq<char>>, i: int) -> Option<RuleItem> {
    if spec_starts_with2(lv[i], '%', '{') {
        if spec_block_end(lv, i) < lv.len() {
            Some(
                RuleItem {
                    item_type: RuleItemType::CodeBlock,
                    start_line: (i + 1) as u64,
                    end_line: spec_block_end(lv, i) as u64,
                    re_end_pos: 0,
                },
            )
        } else {
            None
        }
    } else if lv[i].len() > 0 && is_blank_char(lv[i][0]) {
        Some(
            RuleItem {
                item_type: RuleItemType::CodeLine,
                start_line: i as u64,
                end_line: (i + 1) as u64,
                re_end_pos: 0,
            },
        )
    } else {
        match spec_scan_space(lv[i], 0, false, false) {
            Some(pos) => if spec_line_has(lv[i], pos, '{') {
                if spec_action_end(lv, i, i, pos) < lv.len() {
                    Some(
                        RuleItem {
                            item_type: RuleItemType::Rule,
                            start_line: i as u64,
                            end_line: (spec_action_end(lv, i, i, pos) + 1) as u64,
                            re_end_pos: pos as u64,
                        },
                    )
                } else {
                    None
                }
            } else {
                Some(
                    RuleItem {
                        item_type: RuleItemType::Rule,
                        start_line: i as u64,
                        end_line: (i + 1) as u64,
                        re_end_pos: pos as u64,
                    },
                )
            },
            None => None,
        }
    }
}

/// What the walk collects from line `i` on: the definitions items, the
/// rules items, and the index of the first user-subroutines line.
pub open spec fn spec_walk_acc(lv: Seq<Seq<char>>, i: int, state: InputParseState) -> (
    Seq<DefinitionItem>,
    Seq<RuleItem>,
    Option<int>,
)
    decreases lv.len() - i,
    when 0 <= i <= lv.len()
    via spec_walk_acc_decreases
{
    if i >= lv.len() {
        (Seq::empty(), Seq::empty(), None)
    } else {
        match state {
            InputParseState::Definitions => if spec_is_delim(lv[i]) {
                spec_walk_acc(lv, i + 1, InputParseState::Rules)
            } else {
                let rest = if spec_def_step(lv, i) >= lv.len() {
                    spec_walk_acc(lv, spec_def_step(lv, i), InputParseState::Definitions)
                } else {
                    spec_walk_acc(lv, spec_def_step(lv, i) + 1, InputParseState::Definitions)
                };
                match spec_def_item(lv, i) {
                    Some(it) => (seq![it] + rest.0, rest.1, rest.2),
                    None => rest,
                }
            },
            InputParseState::Rules => if spec_is_delim(lv[i]) {
                spec_walk_acc(lv, i + 1, InputParseState::UserSubroutines)
            } else {
                let rest = if spec_rules_step(lv, i) >= lv.len() {
                    spec_walk_acc(lv, spec_rules_step(lv, i), InputParseState::Rules)
                } else {
                    spec_walk_acc(lv, spec_rules_step(lv, i) + 1, InputParseState::Rules)
                };
                match spec_rules_item_of(lv, i) {
                    Some(it) => (rest.0, seq![it] + rest.1, rest.2),
                    None => rest,
                }
            },
            InputParseState::UserSubroutines => if spec_is_delim(lv[i]) {
                (Seq::empty(), Seq::empty(), None)
            } else {
                (Seq::empty(), Seq::empty(), Some(i))
            },
        }
    }
}

#[via_fn]
proof fn spec_walk_acc_decreases(lv: Seq<Seq<char>>, i: int, state: InputParseState) {
    if 0 <= i && i < lv.len() {
        lemma_block_end_bounds(lv, i);
        if !spec_starts_with2(lv[i], '%', '{') && !(lv[i].len() > 0 && is_blank_char(lv[i][0])) {
            match spec_scan_space(lv[i], 0, false, false) {
                Some(pos) => {
                    lemma_action_end_bounds(lv, i, i, pos);
                },
                None => {},
            }
        }
    }
}

/// A section delimiter appeared inside the user-subroutines section; the
/// payload is its line index.
#[derive(Debug, Clone, Copy, PartialEq, Eq, Structural)]
pub enum InputError {
    DelimiterInUserSubroutines(usize),
}

/// Walk the lines of a whole specification: classify the definitions
/// section up to the first `%%`, the rules section up to the second, and
/// record the verbatim user-subroutines range after it. A further delimiter
/// inside the user subroutines is fatal.
#[verifier::loop_isolation(false)]
pub fn process_lines(lines: Vec<Vec<char>>) -> (r: Result<ParsedInput, InputError>)
    ensures
        (r is Err <==> spec_walk(
            lines@.map_values(|l: Vec<char>| l@),
            0,
            InputParseState::Definitions,
        ) is Some),
        match r {
            Ok(pi) => pi.lines@ == lines@ && pi.definitions.items@ == spec_walk_acc(
                lines@.map_values(|l: Vec<char>| l@),
                0,
                InputParseState::Definitions,
            ).0 && pi.rules.items@ == spec_walk_acc(
                lines@.map_values(|l: Vec<char>| l@),
                0,
                InputParseState::Definitions,
            ).1 && (match spec_walk_acc(
                lines@.map_values(|l: Vec<char>| l@),
                0,
                InputParseState::Definitions,
            ).2 {
                Some(st) => pi.user_subroutines.start_line == st as u64,
                None => pi.user_subroutines.start_line == 0,
            }) && pi.user_subroutines.end_line == 0 && pi.rules.rules_emerged == (exists|k: int|
                0 <= k < pi.rules.items@.len() && (#[trigger] pi.rules.items@[k]).item_type
                    is Rule),
            Err(InputError::DelimiterInUserSubroutines(j)) => j < lines@.len() && spec_is_delim(
                lines@[j as int]@,
            ) && spec_walk(
                lines@.map_values(|l: Vec<char>| l@),
                0,
                InputParseState::Definitions,
            ) == Some(j as int),
        },
{
    let ghost lv = lines@.map_values(|l: Vec<char>| l@);
    let mut pi = ParsedInput::default();
    let mut state = InputParseState::Definitions;
    let mut defs = SectionDefinitions::default();
    let mut rules = SectionRules::default();
    let mut subs = SectionUserSubroutines::default();
    let mut i: usize = 0;
    while i < lines.len()
        invariant
            i <= lines@.len(),
            spec_walk(lv, 0, InputParseState::Definitions) == spec_walk(lv, i as int, state),
            subs.end_line == 0,
            state is UserSubroutines ==> i >= 1,
            !(state is UserSubroutines) ==> subs.start_line == 0,
            rules.rules_emerged == (exists|k: int|
                0 <= k < rules.items@.len() && (#[trigger] rules.items@[k]).item_type is Rule),
            (state is Definitions || state is Rules) ==> (spec_walk_acc(
                lv,
                0,
                InputParseState::Definitions,
            ).0 == defs.items@ + spec_walk_acc(lv, i as int, state).0 && spec_walk_acc(
                lv,
                0,
                InputParseState::Definitions,
            ).1 == rules.items@ + spec_walk_acc(lv, i as int, state).1 && spec_walk_acc(
                lv,
                0,
                InputParseState::Definitions,
            ).2 == spec_walk_acc(lv, i as int, state).2),
            (state is UserSubroutines && subs.start_line == 0) ==> (spec_walk_acc(
                lv,
                0,
                InputParseState::Definitions,
            ).0 == defs.items@ && spec_walk_acc(lv, 0, InputParseState::Definitions).1
                == rules.items@ && spec_walk_acc(lv, 0, InputParseState::Definitions).2
                == spec_walk_acc(lv, i as int, state).2),
            (state is UserSubroutines && subs.start_line > 0) ==> (spec_walk_acc(
                lv,
                0,
                InputParseState::Definitions,
            ).0 == defs.items@ && spec_walk_acc(lv, 0, InputParseState::Definitions).1
                == rules.items@ && spec_walk_acc(lv, 0, InputParseState::Definitions).2 == Some(
                subs.start_line as int,
            )),
        decreases lines@.len() - i,
    {
        proof {
            assert(lv[i as int] == lines@[i as int]@);
        }
        let ghost iold = i as int;
        let ghost state_old = state;
        let ghost dpre = defs.items@;
        let ghost rpre = rules.items@;
        let ghost epre = rules.rules_emerged;
        let advanced: usize;
        match state {
            InputParseState::Definitions => {
                if is_delim(&lines[i]) {
                    state = InputParseState::Rules;
                    advanced = i;
                } else {
                    advanced = process_definition_item(&lines, i, &mut defs);
                    proof {
                        assert(advanced == spec_def_step(lv, i as int));
                        match spec_def_item(lv, i as int) {
                            Some(it) => {
                                assert(defs.items@ == dpre.push(it));
                            },
                            None => {
                                assert(defs.items@ == dpre);
                            },
                        }
                    }
                }
            },
            InputParseState::Rules => {
                if is_delim(&lines[i]) {
                    state = InputParseState::UserSubroutines;
                    advanced = i;
                } else {
                    advanced = process_rules_item(&lines, i, &mut rules);
                    proof {
                        assert(advanced == spec_rules_step(lv, i as int));
                        match spec_rules_item_of(lv, i as int) {
                            Some(it) => {
                                assert(rules.items@ == rpre.push(it));
                                if it.item_type is Rule {
                                    assert(rules.items@[rules.items@.len() - 1].item_type
                                        is Rule);
                                    assert(rules.rules_emerged);
                                } else {
                                    assert(rules.rules_emerged == epre);
                                    assert forall|k: int|
                                        0 <= k < rules.items@.len() && (#[trigger] rules.items@[
                                        k]).item_type is Rule implies (exists|k2: int|
                                        0 <= k2 < rpre.len() && (#[trigger] rpre[k2]).item_type
                                            is Rule) by {
                                        if k < rpre.len() {
                                            assert(rpre[k].item_type is Rule);
                                        }
                                    }
                                }
                            },
                            None => {
                                assert(rules.items@ == rpre);
                                assert(rules.rules_emerged == epre);
                            },
                        }
                    }
                }
            },
            InputParseState::UserSubroutines => {
                if subs.start_line == 0 {
                    subs.start_line = i as u64;
                }
                if is_delim(&lines[i]) {
                    return Err(InputError::DelimiterInUserSubroutines(i));
                }
                advanced = i;
            },
        }
        if advanced >= lines.len() {
            i = advanced;
        } else if advanced >= i {
            i = advanced + 1;
        } else {
            i = i + 1;
        }
        proof {
            if state_old is Definitions && !spec_is_delim(lv[iold]) {
                match spec_def_item(lv, iold) {
                    Some(it) => {
                        assert(dpre + (seq![it] + spec_walk_acc(lv, i as int, state).0)
                            =~= dpre.push(it) + spec_walk_acc(lv, i as int, state).0);
                    },
                    None => {},
                }
            }
            if state_old is Rules && !spec_is_delim(lv[iold]) {
                match spec_rules_item_of(lv, iold) {
                    Some(it) => {
                        assert(rpre + (seq![it] + spec_walk_acc(lv, i as int, state).1)
                            =~= rpre.push(it) + spec_walk_acc(lv, i as int, state).1);
                    },
                    None => {},
                }
            }
            if state is UserSubroutines {
                if state_old is Rules {
                    assert(spec_walk_acc(lv, iold, InputParseState::Rules) == spec_walk_acc(
                        lv,
                        iold + 1,
                        InputParseState::UserSubroutines,
                    ));
                }
                assert(spec_walk_acc(lv, i as int, InputParseState::UserSubroutines).0
                    == Seq::<DefinitionItem>::empty());
                assert(spec_walk_acc(lv, i as int, InputParseState::UserSubroutines).1
                    == Seq::<RuleItem>::empty());
                assert(defs.items@ + Seq::<DefinitionItem>::empty() =~= defs.items@);
                assert(rules.items@ + Seq::<RuleItem>::empty() =~= rules.items@);
            }
        }
    }
    pi.lines = lines;
    pi.definitions = defs;
    pi.rules = rules;
    pi.user_subroutines = subs;
    Ok(pi)
}

} // verus!
