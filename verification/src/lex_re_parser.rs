//! Grammar parser for one rule's regex token stream.
//!
//! The grammar, lowest to highest binding:
//! `Alternation := Concat ('|' Concat)*`, `Concat := Term+`,
//! `Term := Atom Repetition?` where `Repetition` is `*`, `+`, `?` or a brace
//! form `{m}` / `{m,}` / `{m,n}` with decimal bounds validated `m <= n`.
//! An atom is a bracket expression `[...]`, a standalone class form
//! `[:name:]` / `[=chars=]` / `[.name.]`, a quoted literal `"..."` inside
//! which structural symbols lose their meaning, a macro reference `{name}`
//! (left unresolved as a `Replacement` node), an escape token, or an ordinary
//! character. A multi-character `Characters` or `Digits` token is split into
//! per-character literals, so a repetition suffix binds to the last character
//! only; a quoted literal repeats as a whole. An escape token denotes the
//! escaped character itself. Alternation and concatenation nodes are produced
//! only when more than one branch or term exists.
//!
//! Every node carries a span covering its source text, and a parsed tree is
//! well formed: each child's span lies within its parent's span, and
//! repetition bounds satisfy `m <= n`. Parsing always terminates and either
//! returns one such tree or an error citing a span inside the input.

use vstd::prelude::*;

use crate::lex_re_tokenizer::LexReToken;
use crate::lex_re_tokenizer::token_span;
use crate::span::Span;
use crate::span::span_within;

verus! {

/// One item of a bracket expression.
#[derive(Debug, Clone, Copy, PartialEq, Eq, Structural)]
pub enum BracketItem {
    Single(char),
    /// A range such as `a-z`, stored as written (low, high).
    Range(char, char),
}

/// Repetition bounds: `min` mandatory copies, and an optional maximum;
/// an absent maximum means unbounded. `*` is `(0, None)`, `+` is
/// `(1, None)`, `?` is `(0, Some(1))`, `{m}` is `(m, Some(m))`, `{m,}` is
/// `(m, None)` and `{m,n}` is `(m, Some(n))`.
#[derive(Debug, Clone, Copy, PartialEq, Eq)]
pub struct Rep {
    pub min: u32,
    pub max: Option<u32>,
}

/// The body of a bracket expression `[ ... ]`.
#[derive(Debug, Clone, PartialEq, Eq)]
pub struct BracketExpr {
    pub items: Vec<BracketItem>,
    /// Set by a leading `^`: the expression denotes the complement.
    pub negated: bool,
}

/// The regex syntax tree. Every node owns its span and its children.
#[derive(Debug)]
pub enum LexRe {
    /// A locale character class `[:name:]`.
    CharacterClass { span: Span, chars: Vec<char> },
    /// An equivalence class `[=chars=]`.
    EquivalenceClass { span: Span, chars: Vec<char> },
    /// A collating element `[.name.]`.
    CollatingElement { span: Span, name: Vec<char> },
    /// A bracket expression `[ ... ]`.
    BracketExpr { span: Span, expr: BracketExpr },
    /// An unresolved macro reference `{name}`.
    Replacement { span: Span, name: Vec<char> },
    /// Consecutive expressions.
    Concat { span: Span, exprs: Vec<LexRe> },
    /// `expr*`, `expr+`, `expr?` or `expr{m,n}`.
    Repetition { span: Span, expr: Box<LexRe>, rep: Rep },
    /// One literal character.
    LiteralChar { span: Span, ch: char },
    /// Branches separated by `|`.
    Alternation { span: Span, exprs: Vec<LexRe> },
}

/// One rule of the rules section: its declaration index (the tie-break key
/// for matching priority) and its parsed regex.
#[derive(Debug)]
pub struct LexRule {
    pub index: u32,
    pub re: LexRe,
}

/// The syntactic context a parse position is in; names the construct whose
/// closing delimiter is still owed.
#[derive(Debug, Clone, Copy, PartialEq, Eq, Structural)]
pub enum ParseContext {
    Normal,
    InQuote,
    InBracket,
    InCharacterClass,
    InEquivalenceClass,
    InCollatingElement,
    InReplacement,
    InRepetition,
}

/// What stops one rule's regex from compiling to a tree: the tokenizer's
/// one error, or a syntax error of the grammar.
#[derive(Debug, Clone, Copy, PartialEq, Eq, Structural)]
pub enum RegexError {
    Tokenize(crate::lex_re_tokenizer::TokenizeError),
    Parse(ParseError),
}

/// A regex syntax error, carrying the span of the offending text.
#[derive(Debug, Clone, Copy, PartialEq, Eq, Structural)]
pub enum ParseError {
    /// A token that cannot stand where it does.
    UnexpectedToken(Span),
    /// The stream ended inside `[ ... ]`; the span of the opening bracket.
    UnterminatedBracket(Span),
    /// The stream ended inside `" ... "`; the span of the opening quote.
    UnterminatedQuote(Span),
    /// The stream ended inside `{ ... }`; the span of the opening brace.
    UnterminatedBrace(Span),
    /// Repetition bounds that are inverted (`m > n`), not decimal, or too
    /// large for a 32-bit count.
    InvalidBounds(Span),
}

/// The span a parse error points at.
pub open spec fn parse_error_span(e: ParseError) -> Span {
    match e {
        ParseError::UnexpectedToken(s) => s,
        ParseError::UnterminatedBracket(s) => s,
        ParseError::UnterminatedQuote(s) => s,
        ParseError::UnterminatedBrace(s) => s,
        ParseError::InvalidBounds(s) => s,
    }
}

/// The span a regex error points at.
pub open spec fn regex_error_span(e: RegexError) -> Span {
    match e {
        RegexError::Tokenize(
            crate::lex_re_tokenizer::TokenizeError::DanglingEscape(s),
        ) => s,
        RegexError::Parse(pe) => parse_error_span(pe),
    }
}

/// The span of a node.
pub open spec fn re_span(re: LexRe) -> Span {
    match re {
        LexRe::CharacterClass { span, .. } => span,
        LexRe::EquivalenceClass { span, .. } => span,
        LexRe::CollatingElement { span, .. } => span,
        LexRe::BracketExpr { span, .. } => span,
        LexRe::Replacement { span, .. } => span,
        LexRe::Concat { span, .. } => span,
        LexRe::Repetition { span, .. } => span,
        LexRe::LiteralChar { span, .. } => span,
        LexRe::Alternation { span, .. } => span,
    }
}

/// Valid repetition bounds: when a maximum is present it is at least the
/// minimum.
pub open spec fn rep_wf(rep: Rep) -> bool {
    match rep.max {
        Some(n) => rep.min <= n,
        None => true,
    }
}

/// A well-formed tree: every span is properly ordered, every child's span
/// lies within its parent's span, and repetition bounds are valid.
pub open spec fn re_wf(re: LexRe) -> bool
    decreases re,
{
    match re {
        LexRe::CharacterClass { span, .. } => span.wf(),
        LexRe::EquivalenceClass { span, .. } => span.wf(),
        LexRe::CollatingElement { span, .. } => span.wf(),
        LexRe::BracketExpr { span, .. } => span.wf(),
        LexRe::Replacement { span, .. } => span.wf(),
        LexRe::LiteralChar { span, .. } => span.wf(),
        LexRe::Concat { span, exprs } => span.wf() && exprs.len() >= 2 && (forall|i: int|
            0 <= i < exprs.len() ==> re_wf(#[trigger] exprs[i]) && span_within(
                re_span(exprs[i]),
                span,
            )),
        LexRe::Alternation { span, exprs } => span.wf() && exprs.len() >= 2 && (forall|i: int|
            0 <= i < exprs.len() ==> re_wf(#[trigger] exprs[i]) && span_within(
                re_span(exprs[i]),
                span,
            )),
        LexRe::Repetition { span, expr, rep } => span.wf() && re_wf(*expr) && span_within(
            re_span(*expr),
            span,
        ) && rep_wf(rep),
    }
}

/// The number a run of decimal digit characters denotes.
pub open spec fn digits_value(s: Seq<char>) -> int
    decreases s.len(),
{
    if s.len() == 0 {
        0
    } else {
        digits_value(s.drop_last()) * 10 + (s.last() as u32 - 48)
    }
}

/// A token stream the parser accepts as input: every span is nonempty and
/// lies inside the text, spans never decrease, and an escape token is two
/// characters long. The tokenizer produces exactly such streams.
pub open spec fn tokens_wf(toks: Seq<LexReToken>, n: int) -> bool {
    &&& (forall|i: int|
        0 <= i < toks.len() ==> (token_span(#[trigger] toks[i]).start < token_span(toks[i]).end
            && token_span(toks[i]).end <= n))
    &&& (forall|i: int, j: int|
        0 <= i < j < toks.len() ==> token_span(#[trigger] toks[i]).end <= token_span(
            #[trigger] toks[j],
        ).start)
    &&& (forall|i: int|
        0 <= i < toks.len() ==> ((#[trigger] toks[i]) is Escaped ==> token_span(toks[i]).end
            == token_span(toks[i]).start + 2))
}

proof fn lemma_spans_chain(s: Seq<char>, toks: Seq<LexReToken>, i: int, j: int)
    requires
        crate::lex_re_tokenizer::tokens_partition(toks, s.len() as int),
        forall|k: int|
            0 <= k < toks.len() ==> crate::lex_re_tokenizer::token_matches(s, #[trigger] toks[k]),
        0 <= i < j < toks.len(),
    ensures
        token_span(toks[i]).end <= token_span(toks[j]).start,
    decreases j - i,
{
    if i + 1 < j {
        lemma_spans_chain(s, toks, i, j - 1);
    }
}

/// What `tokenize_re` guarantees implies what the parser asks of its input.
pub proof fn lemma_tokenized_wf(s: Seq<char>, toks: Seq<LexReToken>)
    requires
        crate::lex_re_tokenizer::tokens_partition(toks, s.len() as int),
        forall|i: int|
            0 <= i < toks.len() ==> crate::lex_re_tokenizer::token_matches(s, #[trigger] toks[i]),
    ensures
        tokens_wf(toks, s.len() as int),
{
    assert forall|i: int, j: int| 0 <= i < j < toks.len() implies token_span(
        #[trigger] toks[i],
    ).end <= token_span(#[trigger] toks[j]).start by {
        lemma_spans_chain(s, toks, i, j);
    }
}

/// All characters of `[lo, hi)` are decimal digits.
pub open spec fn all_digits(base: Seq<char>, lo: int, hi: int) -> bool {
    forall|j: int| lo <= j < hi ==> crate::lex_re_tokenizer::is_digit_char(#[trigger] base[j])
}

/// What `read_number` returns for the characters of `sp`: their decimal
/// value, or a bounds error when one is no digit or the value exceeds
/// 32 bits.
pub open spec fn spec_read_number(base: Seq<char>, sp: Span) -> Result<int, ParseError> {
    if all_digits(base, sp.start as int, sp.end as int) && digits_value(
        base.subrange(sp.start as int, sp.end as int),
    ) <= u32::MAX {
        Ok(digits_value(base.subrange(sp.start as int, sp.end as int)))
    } else {
        Err(ParseError::InvalidBounds(sp))
    }
}

/// The value of a run of digits is never negative.
proof fn lemma_digits_value_nonneg(s: Seq<char>)
    requires
        forall|j: int| 0 <= j < s.len() ==> crate::lex_re_tokenizer::is_digit_char(#[trigger] s[j]),
    ensures
        digits_value(s) >= 0,
    decreases s.len(),
{
    if s.len() > 0 {
        lemma_digits_value_nonneg(s.drop_last());
    }
}

/// A longer run of digits denotes no smaller a value.
proof fn lemma_digits_value_prefix(base: Seq<char>, lo: int, mid: int, hi: int)
    requires
        0 <= lo <= mid <= hi <= base.len(),
        all_digits(base, lo, hi),
    ensures
        digits_value(base.subrange(lo, mid)) <= digits_value(base.subrange(lo, hi)),
    decreases hi - mid,
{
    if mid < hi {
        lemma_digits_value_prefix(base, lo, mid + 1, hi);
        let a = base.subrange(lo, mid);
        let b = base.subrange(lo, mid + 1);
        assert(b.drop_last() =~= a);
        assert(b.last() == base[mid]);
        assert forall|j: int| 0 <= j < a.len() implies crate::lex_re_tokenizer::is_digit_char(
            #[trigger] a[j],
        ) by {
            assert(a[j] == base[lo + j]);
        }
        lemma_digits_value_nonneg(a);
    }
}

/// First index at or after `pos` whose token closes a bracket, or the
/// token count.
pub open spec fn close_at_bracket(toks: Seq<LexReToken>, pos: int) -> int
    decreases toks.len() - pos,
    when 0 <= pos <= toks.len()
{
    if pos >= toks.len() {
        pos
    } else if toks[pos] is CloseBracket {
        pos
    } else {
        close_at_bracket(toks, pos + 1)
    }
}

/// First index at or after `pos` whose token closes a quote, or the token
/// count.
pub open spec fn close_at_quote(toks: Seq<LexReToken>, pos: int) -> int
    decreases toks.len() - pos,
    when 0 <= pos <= toks.len()
{
    if pos >= toks.len() {
        pos
    } else if toks[pos] is DoubleQuote {
        pos
    } else {
        close_at_quote(toks, pos + 1)
    }
}

/// First index at or after `pos` whose token is no name piece (neither
/// `Characters` nor `Digits`), or the token count.
pub open spec fn name_end(toks: Seq<LexReToken>, pos: int) -> int
    decreases toks.len() - pos,
    when 0 <= pos <= toks.len()
{
    if pos >= toks.len() {
        pos
    } else if toks[pos] is Characters || toks[pos] is Digits {
        name_end(toks, pos + 1)
    } else {
        pos
    }
}

proof fn lemma_close_at_bracket(toks: Seq<LexReToken>, pos: int)
    requires
        0 <= pos <= toks.len(),
    ensures
        pos <= close_at_bracket(toks, pos) <= toks.len(),
    decreases toks.len() - pos,
{
    if pos < toks.len() && !(toks[pos] is CloseBracket) {
        lemma_close_at_bracket(toks, pos + 1);
    }
}

proof fn lemma_close_at_quote(toks: Seq<LexReToken>, pos: int)
    requires
        0 <= pos <= toks.len(),
    ensures
        pos <= close_at_quote(toks, pos) <= toks.len(),
    decreases toks.len() - pos,
{
    if pos < toks.len() && !(toks[pos] is DoubleQuote) {
        lemma_close_at_quote(toks, pos + 1);
    }
}

proof fn lemma_name_end(toks: Seq<LexReToken>, pos: int)
    requires
        0 <= pos <= toks.len(),
    ensures
        pos <= name_end(toks, pos) <= toks.len(),
    decreases toks.len() - pos,
{
    if pos < toks.len() && (toks[pos] is Characters || toks[pos] is Digits) {
        lemma_name_end(toks, pos + 1);
    }
}

/// Where the brace repetition bounds starting at `pos` end, or the exact
/// error the parser raises.
pub open spec fn spec_bounds_end(base: Seq<char>, toks: Seq<LexReToken>, pos: int) -> Result<
    int,
    ParseError,
> {
    let open_sp = token_span(toks[pos]);
    let msp = token_span(toks[pos + 1]);
    match spec_read_number(base, msp) {
        Err(e) => Err(e),
        Ok(m) => if pos + 2 >= toks.len() {
            Err(ParseError::UnterminatedBrace(open_sp))
        } else if toks[pos + 2] is CloseBrace {
            Ok(pos + 3)
        } else if toks[pos + 2] is Comma {
            if pos + 3 >= toks.len() {
                Err(ParseError::UnterminatedBrace(open_sp))
            } else if toks[pos + 3] is CloseBrace {
                Ok(pos + 4)
            } else if toks[pos + 3] is Digits {
                match spec_read_number(base, token_span(toks[pos + 3])) {
                    Err(e) => Err(e),
                    Ok(nv) => if m > nv {
                        Err(
                            ParseError::InvalidBounds(
                                (Span { start: msp.start, end: token_span(toks[pos + 3]).end }),
                            ),
                        )
                    } else if pos + 4 >= toks.len() {
                        Err(ParseError::UnterminatedBrace(open_sp))
                    } else if toks[pos + 4] is CloseBrace {
                        Ok(pos + 5)
                    } else {
                        Err(ParseError::UnexpectedToken(token_span(toks[pos + 4])))
                    },
                }
            } else {
                Err(ParseError::UnexpectedToken(token_span(toks[pos + 3])))
            }
        } else {
            Err(ParseError::UnexpectedToken(token_span(toks[pos + 2])))
        },
    }
}

/// Where the optional repetition suffix at `pos` ends: nothing is consumed
/// when no suffix stands there.
pub open spec fn spec_suffix_end(base: Seq<char>, toks: Seq<LexReToken>, pos: int) -> Result<
    int,
    ParseError,
> {
    if pos >= toks.len() {
        Ok(pos)
    } else if toks[pos] is Star || toks[pos] is Plus || toks[pos] is Question {
        Ok(pos + 1)
    } else if toks[pos] is OpenBrace && pos + 1 < toks.len() && toks[pos + 1] is Digits {
        spec_bounds_end(base, toks, pos)
    } else {
        Ok(pos)
    }
}

/// The closing delimiter of a class form.
pub open spec fn is_class_delim(t: LexReToken, ctx: ParseContext) -> bool {
    match ctx {
        ParseContext::InEquivalenceClass => t is Equal,
        ParseContext::InCollatingElement => t is Dot,
        _ => t is Coron,
    }
}

/// Where the standalone class form opening at `pos` ends, or the exact
/// error.
pub open spec fn spec_class_end(toks: Seq<LexReToken>, pos: int, ctx: ParseContext) -> Result<
    int,
    ParseError,
> {
    let open_sp = token_span(toks[pos]);
    let k = name_end(toks, pos + 2);
    if k >= toks.len() {
        Err(ParseError::UnterminatedBracket(open_sp))
    } else if is_class_delim(toks[k], ctx) {
        if k + 1 >= toks.len() {
            Err(ParseError::UnterminatedBracket(open_sp))
        } else if toks[k + 1] is CloseBracket {
            Ok(k + 2)
        } else {
            Err(ParseError::UnexpectedToken(token_span(toks[k + 1])))
        }
    } else {
        Err(ParseError::UnexpectedToken(token_span(toks[k])))
    }
}

/// Where the bracket expression opening at `pos` ends, or the exact error.
pub open spec fn spec_bracket_end(toks: Seq<LexReToken>, pos: int) -> Result<int, ParseError> {
    let k = close_at_bracket(toks, pos + 1);
    if k < toks.len() {
        Ok(k + 1)
    } else {
        Err(ParseError::UnterminatedBracket(token_span(toks[pos])))
    }
}

/// Where the quoted literal opening at `pos` ends, or the exact error; an
/// empty quoted literal denotes nothing and is refused at its closing
/// quote.
pub open spec fn spec_quote_end(toks: Seq<LexReToken>, pos: int) -> Result<int, ParseError> {
    let k = close_at_quote(toks, pos + 1);
    if k >= toks.len() {
        Err(ParseError::UnterminatedQuote(token_span(toks[pos])))
    } else if k == pos + 1 {
        Err(ParseError::UnexpectedToken(token_span(toks[k])))
    } else {
        Ok(k + 1)
    }
}

/// Where the macro reference opening at `pos` ends, or the exact error.
pub open spec fn spec_replacement_end(toks: Seq<LexReToken>, pos: int) -> Result<int, ParseError> {
    let open_sp = token_span(toks[pos]);
    let k = name_end(toks, pos + 1);
    if k >= toks.len() {
        Err(ParseError::UnterminatedBrace(open_sp))
    } else if toks[k] is CloseBrace {
        Ok(k + 1)
    } else {
        Err(ParseError::UnexpectedToken(token_span(toks[k])))
    }
}

/// Where the atom at `pos` ends, or the exact error; meaningful when the
/// token can begin a term.
pub open spec fn spec_atom_end(base: Seq<char>, toks: Seq<LexReToken>, pos: int) -> Result<
    int,
    ParseError,
> {
    if toks[pos] is Characters || toks[pos] is Digits || toks[pos] is Escaped {
        Ok(pos + 1)
    } else if toks[pos] is OpenBracket {
        if pos + 1 < toks.len() && toks[pos + 1] is Coron {
            spec_class_end(toks, pos, ParseContext::InCharacterClass)
        } else if pos + 1 < toks.len() && toks[pos + 1] is Equal {
            spec_class_end(toks, pos, ParseContext::InEquivalenceClass)
        } else if pos + 1 < toks.len() && toks[pos + 1] is Dot {
            spec_class_end(toks, pos, ParseContext::InCollatingElement)
        } else {
            spec_bracket_end(toks, pos)
        }
    } else if toks[pos] is DoubleQuote {
        spec_quote_end(toks, pos)
    } else if pos + 1 < toks.len() && toks[pos + 1] is Digits {
        match spec_bounds_end(base, toks, pos) {
            Ok(_) => Err(ParseError::UnexpectedToken(token_span(toks[pos]))),
            Err(e) => Err(e),
        }
    } else {
        spec_replacement_end(toks, pos)
    }
}

/// Where the term at `pos` ends — its atom and optional suffix — or the
/// exact error.
pub open spec fn spec_term_end(base: Seq<char>, toks: Seq<LexReToken>, pos: int) -> Result<
    int,
    ParseError,
> {
    match spec_atom_end(base, toks, pos) {
        Err(e) => Err(e),
        Ok(p2) => spec_suffix_end(base, toks, p2),
    }
}

/// A successful term lies strictly beyond its start and inside the stream.
proof fn lemma_term_end_bounds(base: Seq<char>, toks: Seq<LexReToken>, pos: int)
    requires
        0 <= pos < toks.len(),
    ensures
        (spec_term_end(base, toks, pos) matches Ok(p) ==> pos < p <= toks.len()),
{
    lemma_close_at_bracket(toks, pos + 1);
    lemma_close_at_quote(toks, pos + 1);
    lemma_name_end(toks, pos + 1);
    if pos + 2 <= toks.len() {
        lemma_name_end(toks, pos + 2);
    }
}

/// Where the run of further terms starting at `pos` ends, or the first
/// error.
pub open spec fn spec_concat_rest(base: Seq<char>, toks: Seq<LexReToken>, pos: int) -> Result<
    int,
    ParseError,
>
    decreases toks.len() - pos,
    when 0 <= pos <= toks.len()
    via spec_concat_rest_decreases
{
    if pos < toks.len() && starts_term(toks[pos]) {
        match spec_term_end(base, toks, pos) {
            Err(e) => Err(e),
            Ok(p2) => spec_concat_rest(base, toks, p2),
        }
    } else {
        Ok(pos)
    }
}

#[via_fn]
proof fn spec_concat_rest_decreases(base: Seq<char>, toks: Seq<LexReToken>, pos: int) {
    if 0 <= pos && pos < toks.len() && starts_term(toks[pos]) {
        lemma_term_end_bounds(base, toks, pos);
    }
}

/// Where the concatenation starting at `pos` ends — one or more terms — or
/// the exact error.
pub open spec fn spec_concat_end(base: Seq<char>, toks: Seq<LexReToken>, pos: int) -> Result<
    int,
    ParseError,
> {
    if !(pos < toks.len() && starts_term(toks[pos])) {
        if pos < toks.len() {
            Err(ParseError::UnexpectedToken(token_span(toks[pos])))
        } else {
            Err(
                ParseError::UnexpectedToken(
                    (Span { start: base.len() as usize, end: base.len() as usize }),
                ),
            )
        }
    } else {
        match spec_term_end(base, toks, pos) {
            Err(e) => Err(e),
            Ok(p2) => spec_concat_rest(base, toks, p2),
        }
    }
}

/// A successful concatenation lies beyond its start and inside the stream.
proof fn lemma_concat_rest_bounds(base: Seq<char>, toks: Seq<LexReToken>, pos: int)
    requires
        0 <= pos <= toks.len(),
    ensures
        (spec_concat_rest(base, toks, pos) matches Ok(p) ==> pos <= p <= toks.len()),
    decreases toks.len() - pos,
{
    if pos < toks.len() && starts_term(toks[pos]) {
        lemma_term_end_bounds(base, toks, pos);
        match spec_term_end(base, toks, pos) {
            Ok(p2) => {
                lemma_concat_rest_bounds(base, toks, p2);
            },
            Err(_) => {},
        }
    }
}

/// Where the branches following a concatenation end, or the first error.
pub open spec fn spec_expr_rest(base: Seq<char>, toks: Seq<LexReToken>, pos: int) -> Result<
    int,
    ParseError,
>
    decreases toks.len() - pos,
    when 0 <= pos <= toks.len()
    via spec_expr_rest_decreases
{
    if pos < toks.len() && toks[pos] is Pipe {
        match spec_concat_end(base, toks, pos + 1) {
            Err(e) => Err(e),
            Ok(p2) => spec_expr_rest(base, toks, p2),
        }
    } else {
        Ok(pos)
    }
}

#[via_fn]
proof fn spec_expr_rest_decreases(base: Seq<char>, toks: Seq<LexReToken>, pos: int) {
    if 0 <= pos && pos < toks.len() && toks[pos] is Pipe {
        if pos + 1 < toks.len() && starts_term(toks[pos + 1]) {
            lemma_term_end_bounds(base, toks, pos + 1);
            match spec_term_end(base, toks, pos + 1) {
                Ok(p2) => {
                    lemma_concat_rest_bounds(base, toks, p2);
                },
                Err(_) => {},
            }
        }
    }
}

/// Where the whole alternation starting at `pos` ends, or the exact error.
pub open spec fn spec_expr_end(base: Seq<char>, toks: Seq<LexReToken>, pos: int) -> Result<
    int,
    ParseError,
> {
    match spec_concat_end(base, toks, pos) {
        Err(e) => Err(e),
        Ok(p2) => spec_expr_rest(base, toks, p2),
    }
}

/// The outcome of parsing the whole stream: acceptance, or the exact error
/// the parser raises. This is the grammar of the rule regexes:
/// `Alternation := Concat ('|' Concat)*`, `Concat := Term+`,
/// `Term := Atom Suffix?`, with the atoms and suffixes as scanned above.
pub open spec fn spec_parse_outcome(base: Seq<char>, toks: Seq<LexReToken>) -> Result<
    int,
    ParseError,
> {
    match spec_expr_end(base, toks, 0) {
        Err(e) => Err(e),
        Ok(p) => if p == toks.len() {
            Ok(p)
        } else {
            Err(ParseError::UnexpectedToken(token_span(toks[p])))
        },
    }
}

/// `toks` is the token stream of `base`: spans partition the text and every
/// token carries its classification. The tokenizer's contract makes this
/// stream unique, so it names the stream `parse_rule_regex` works on.
pub open spec fn tokenization_of(base: Seq<char>, toks: Seq<LexReToken>) -> bool {
    &&& crate::lex_re_tokenizer::tokens_partition(toks, base.len() as int)
    &&& (forall|i: int|
        0 <= i < toks.len() ==> crate::lex_re_tokenizer::token_matches(base, #[trigger] toks[i]))
}

/// A token that can begin a term.
pub open spec fn starts_term(t: LexReToken) -> bool {
    ||| t is Characters
    ||| t is Digits
    ||| t is Escaped
    ||| t is OpenBracket
    ||| t is DoubleQuote
    ||| t is OpenBrace
}

/// Holds the token stream of one rule and the current position in it.
#[derive(Debug, Clone, Copy)]
pub struct ParserState<'a> {
    pub base: &'a Vec<char>,
    pub tokens: &'a Vec<LexReToken>,
    pub token_pos: usize,
}

impl<'a> ParserState<'a> {
    /// The position is inside or one past the stream, and the stream fits
    /// the text.
    pub open spec fn wf(self) -> bool {
        self.token_pos <= self.tokens@.len() && tokens_wf(self.tokens@, self.base@.len() as int)
    }

    pub fn new(base: &'a Vec<char>, tokens: &'a Vec<LexReToken>) -> (st: ParserState<'a>)
        ensures
            st.base == base,
            st.tokens == tokens,
            st.token_pos == 0,
    {
        ParserState { base, tokens, token_pos: 0 }
    }

    pub fn current_token(&self) -> (r: Option<LexReToken>)
        ensures
            r == if self.token_pos < self.tokens@.len() {
                Some(self.tokens@[self.token_pos as int])
            } else {
                None::<LexReToken>
            },
    {
        if self.token_pos < self.tokens.len() {
            Some(self.tokens[self.token_pos])
        } else {
            None
        }
    }

    pub fn advance(&self) -> (st: ParserState<'a>)
        requires
            self.token_pos < usize::MAX || self.token_pos < self.tokens@.len(),
        ensures
            st.base == self.base,
            st.tokens == self.tokens,
            st.token_pos == self.token_pos + 1,
    {
        // the stream's length fits usize, so a position inside it can step
        let _n: usize = self.tokens.len();
        ParserState { base: self.base, tokens: self.tokens, token_pos: self.token_pos + 1 }
    }

    pub fn at_end(&self) -> (r: bool)
        ensures
            r == (self.token_pos >= self.tokens@.len()),
    {
        self.token_pos >= self.tokens.len()
    }
}

/// A successful parse step: the same stream, at least one token consumed,
/// a well-formed node whose span lies between the first consumed token's
/// start and the last consumed token's end.
pub open spec fn parse_step_ok<'a>(st: ParserState<'a>, st2: ParserState<'a>, node: LexRe) -> bool {
    &&& st2.base == st.base
    &&& st2.tokens == st.tokens
    &&& st.token_pos < st2.token_pos <= st.tokens@.len()
    &&& re_wf(node)
    &&& re_span(node).start == token_span(st.tokens@[st.token_pos as int]).start
    &&& re_span(node).end == token_span(st.tokens@[st2.token_pos - 1]).end
}

/// A successful term step: one or more nodes, each well formed and lying
/// between the first consumed token's start and the last consumed token's
/// end.
pub open spec fn parse_terms_ok<'a>(
    st: ParserState<'a>,
    st2: ParserState<'a>,
    nodes: Seq<LexRe>,
) -> bool {
    &&& st2.base == st.base
    &&& st2.tokens == st.tokens
    &&& st.token_pos < st2.token_pos <= st.tokens@.len()
    &&& nodes.len() >= 1
    &&& re_span(nodes[0]).start == token_span(st.tokens@[st.token_pos as int]).start
    &&& re_span(nodes[nodes.len() - 1]).end == token_span(st.tokens@[st2.token_pos - 1]).end
    &&& (forall|k: int|
        0 <= k < nodes.len() ==> re_wf(#[trigger] nodes[k]) && token_span(
            st.tokens@[st.token_pos as int],
        ).start <= re_span(nodes[k]).start && re_span(nodes[k]).end <= token_span(
            st.tokens@[st2.token_pos - 1],
        ).end)
}

fn token_span_of(t: &LexReToken) -> (sp: Span)
    ensures
        sp == token_span(*t),
{
    match *t {
        LexReToken::Coron(s) => s,
        LexReToken::Equal(s) => s,
        LexReToken::Dot(s) => s,
        LexReToken::Slash(s) => s,
        LexReToken::Escaped(s) => s,
        LexReToken::OpenBracket(s) => s,
        LexReToken::CloseBracket(s) => s,
        LexReToken::DoubleQuote(s) => s,
        LexReToken::OpenGroup(s) => s,
        LexReToken::CloseGroup(s) => s,
        LexReToken::OpenBrace(s) => s,
        LexReToken::CloseBrace(s) => s,
        LexReToken::Question(s) => s,
        LexReToken::Star(s) => s,
        LexReToken::Plus(s) => s,
        LexReToken::Pipe(s) => s,
        LexReToken::Comma(s) => s,
        LexReToken::Hyphen(s) => s,
        LexReToken::Blank(s) => s,
        LexReToken::Digits(s) => s,
        LexReToken::Characters(s) => s,
    }
}

fn peek_is_pipe(st: &ParserState) -> (r: bool)
    ensures
        r == (st.token_pos < st.tokens@.len() && st.tokens@[st.token_pos as int] is Pipe),
{
    if st.token_pos < st.tokens.len() {
        matches!(st.tokens[st.token_pos], LexReToken::Pipe(_))
    } else {
        false
    }
}

fn peek_starts_term(st: &ParserState) -> (r: bool)
    ensures
        r == (st.token_pos < st.tokens@.len() && starts_term(st.tokens@[st.token_pos as int])),
{
    if st.token_pos < st.tokens.len() {
        matches!(
            st.tokens[st.token_pos],
            LexReToken::Characters(_) | LexReToken::Digits(_) | LexReToken::Escaped(_)
                | LexReToken::OpenBracket(_) | LexReToken::DoubleQuote(_) | LexReToken::OpenBrace(_)
        )
    } else {
        false
    }
}

fn peek_digits_at(st: &ParserState, off: usize) -> (r: bool)
    requires
        st.token_pos + off <= st.tokens@.len(),
    ensures
        r == (st.token_pos + off < st.tokens@.len() && st.tokens@[st.token_pos + off] is Digits),
{
    if st.tokens.len() - st.token_pos > off {
        matches!(st.tokens[st.token_pos + off], LexReToken::Digits(_))
    } else {
        false
    }
}

/// Parses the token stream of one rule's regex into a syntax tree.
pub struct Parser<'a> {
    pub base: &'a Vec<char>,
    pub tokens: &'a Vec<LexReToken>,
}

impl<'a> Parser<'a> {
    /// The held stream fits the held text.
    pub open spec fn wf(self) -> bool {
        tokens_wf(self.tokens@, self.base@.len() as int)
    }

    pub fn new(base: &'a Vec<char>, tokens: &'a Vec<LexReToken>) -> (p: Parser<'a>)
        ensures
            p.base == base,
            p.tokens == tokens,
    {
        Parser { base, tokens }
    }

    /// Consume the whole stream and return exactly one well-formed tree, or
    /// a syntax error. Node spans nest: every child's span lies within its
    /// parent's, and the root's span lies within the text.
    pub fn parse(&self) -> (r: Result<LexRe, ParseError>)
        requires
            self.wf(),
        ensures
            r is Ok <==> spec_parse_outcome(self.base@, self.tokens@) is Ok,
            match r {
                Ok(node) => re_wf(node) && re_span(node).end <= self.base@.len()
                    && self.tokens@.len() > 0 && re_span(node).start == token_span(
                    self.tokens@[0],
                ).start && re_span(node).end == token_span(
                    self.tokens@[self.tokens@.len() - 1],
                ).end,
                Err(e) => parse_error_span(e).wf() && parse_error_span(e).end <= self.base@.len()
                    && spec_parse_outcome(self.base@, self.tokens@) == Err::<int, ParseError>(e),
            },
    {
        let st = ParserState::new(self.base, self.tokens);
        match self.parse_expr(st) {
            Ok((node, st2)) => {
                if st2.at_end() {
                    Ok(node)
                } else {
                    let sp = token_span_of(&st2.tokens[st2.token_pos]);
                    Err(ParseError::UnexpectedToken(sp))
                }
            },
            Err(e) => Err(e),
        }
    }

    /// `Alternation := Concat ('|' Concat)*`; a single branch is returned
    /// unwrapped.
    #[verifier::loop_isolation(false)]
    pub fn parse_expr(&self, st: ParserState<'a>) -> (r: Result<
        (LexRe, ParserState<'a>),
        ParseError,
    >)
        requires
            st.wf(),
        ensures
            match r {
                Ok((node, st2)) => parse_step_ok(st, st2, node) && spec_expr_end(
                    st.base@,
                    st.tokens@,
                    st.token_pos as int,
                ) == Ok::<int, ParseError>(st2.token_pos as int),
                Err(e) => parse_error_span(e).wf() && parse_error_span(e).end <= st.base@.len()
                    && spec_expr_end(st.base@, st.tokens@, st.token_pos as int) == Err::<
                    int,
                    ParseError,
                >(e),
            },
    {
        let ghost toks = st.tokens@;
        let ghost n = st.base@.len() as int;
        let (first, mut cur) = match self.parse_concat(st) {
            Ok(v) => v,
            Err(e) => return Err(e),
        };
        let lo = token_span_of(&st.tokens[st.token_pos]).start;
        let mut branches: Vec<LexRe> = Vec::new();
        branches.push(first);
        while peek_is_pipe(&cur)
            invariant
                st.wf(),
                cur.wf(),
                cur.base == st.base,
                cur.tokens == st.tokens,
                toks == st.tokens@,
                n == st.base@.len() as int,
                st.token_pos < cur.token_pos <= toks.len(),
                lo == token_span(toks[st.token_pos as int]).start,
                branches@.len() >= 1,
                re_span(branches@[0]).start == lo,
                re_span(branches@[branches@.len() - 1]).end == token_span(
                    toks[cur.token_pos - 1],
                ).end,
                spec_expr_end(st.base@, toks, st.token_pos as int) == spec_expr_rest(
                    st.base@,
                    toks,
                    cur.token_pos as int,
                ),
                forall|k: int|
                    0 <= k < branches@.len() ==> re_wf(#[trigger] branches@[k]) && lo <= re_span(
                        branches@[k],
                    ).start && re_span(branches@[k]).end <= token_span(
                        toks[cur.token_pos - 1],
                    ).end,
            decreases toks.len() - cur.token_pos,
        {
                let next = cur.advance();
            let (b, nx) = match self.parse_concat(next) {
                Ok(v) => v,
                Err(e) => return Err(e),
            };
            branches.push(b);
            cur = nx;
        }
        if branches.len() == 1 {
            let node = branches.remove(0);
            Ok((node, cur))
        } else {
            let hi = token_span_of(&cur.tokens[cur.token_pos - 1]).end;
            proof {
                assert(re_span(branches@[0]).start <= re_span(branches@[0]).end);
            }
            let node = LexRe::Alternation { span: Span::new(lo, hi), exprs: branches };
            Ok((node, cur))
        }
    }

    /// `Concat := Term+`; a single term is returned unwrapped.
    #[verifier::loop_isolation(false)]
    #[verifier::rlimit(60)]
    fn parse_concat(&self, st: ParserState<'a>) -> (r: Result<(LexRe, ParserState<'a>), ParseError>)
        requires
            st.wf(),
        ensures
            match r {
                Ok((node, st2)) => parse_step_ok(st, st2, node) && spec_concat_end(
                    st.base@,
                    st.tokens@,
                    st.token_pos as int,
                ) == Ok::<int, ParseError>(st2.token_pos as int),
                Err(e) => parse_error_span(e).wf() && parse_error_span(e).end <= st.base@.len()
                    && spec_concat_end(st.base@, st.tokens@, st.token_pos as int) == Err::<
                    int,
                    ParseError,
                >(e),
            },
    {
        let ghost toks = st.tokens@;
        let ghost n = st.base@.len() as int;
        if !peek_starts_term(&st) {
            if st.at_end() {
                let m = st.base.len();
                return Err(ParseError::UnexpectedToken(Span::new(m, m)));
            } else {
                let sp = token_span_of(&st.tokens[st.token_pos]);
                return Err(ParseError::UnexpectedToken(sp));
            }
        }
        let lo = token_span_of(&st.tokens[st.token_pos]).start;
        let (mut nodes, mut cur) = match self.parse_term(st) {
            Ok(v) => v,
            Err(e) => return Err(e),
        };
        while peek_starts_term(&cur)
            invariant
                st.wf(),
                cur.wf(),
                cur.base == st.base,
                cur.tokens == st.tokens,
                toks == st.tokens@,
                n == st.base@.len() as int,
                st.token_pos < cur.token_pos <= toks.len(),
                lo == token_span(toks[st.token_pos as int]).start,
                nodes@.len() >= 1,
                re_span(nodes@[0]).start == lo,
                re_span(nodes@[nodes@.len() - 1]).end == token_span(toks[cur.token_pos - 1]).end,
                spec_concat_end(st.base@, toks, st.token_pos as int) == spec_concat_rest(
                    st.base@,
                    toks,
                    cur.token_pos as int,
                ),
                forall|k: int|
                    0 <= k < nodes@.len() ==> re_wf(#[trigger] nodes@[k]) && lo <= re_span(
                        nodes@[k],
                    ).start && re_span(nodes@[k]).end <= token_span(toks[cur.token_pos - 1]).end,
            decreases toks.len() - cur.token_pos,
        {
            let (mut more, nx) = match self.parse_term(cur) {
                Ok(v) => v,
                Err(e) => return Err(e),
            };
            nodes.append(&mut more);
            cur = nx;
        }
        if nodes.len() == 1 {
            let node = nodes.remove(0);
            Ok((node, cur))
        } else {
            let hi = token_span_of(&cur.tokens[cur.token_pos - 1]).end;
            proof {
                assert(re_span(nodes@[0]).start <= re_span(nodes@[0]).end);
            }
            let node = LexRe::Concat { span: Span::new(lo, hi), exprs: nodes };
            Ok((node, cur))
        }
    }

    /// One term: an atom with its optional repetition suffix. A
    /// multi-character `Characters` or `Digits` token yields one literal per
    /// character, the suffix binding to the last.
    #[verifier::loop_isolation(false)]
    pub fn parse_term(&self, st: ParserState<'a>) -> (r: Result<
        (Vec<LexRe>, ParserState<'a>),
        ParseError,
    >)
        requires
            st.wf(),
            st.token_pos < st.tokens@.len(),
            starts_term(st.tokens@[st.token_pos as int]),
        ensures
            match r {
                Ok((nodes, st2)) => parse_terms_ok(st, st2, nodes@) && spec_term_end(
                    st.base@,
                    st.tokens@,
                    st.token_pos as int,
                ) == Ok::<int, ParseError>(st2.token_pos as int) && ((st.tokens@[st.token_pos as int]
                    is Characters || st.tokens@[st.token_pos as int] is Digits) ==> (forall|
                    j: int,
                |
                    0 <= j < nodes@.len() - 1 ==> #[trigger] nodes@[j] == (LexRe::LiteralChar {
                        span: (Span {
                            start: (token_span(st.tokens@[st.token_pos as int]).start + j) as usize,
                            end: (token_span(st.tokens@[st.token_pos as int]).start + j
                                + 1) as usize,
                        }),
                        ch: st.base@[token_span(st.tokens@[st.token_pos as int]).start + j],
                    }))) && (st.tokens@[st.token_pos as int] is Escaped ==> (nodes@.len() == 1
                    && term_node_of_literal(
                    nodes@[0],
                    (LexRe::LiteralChar {
                        span: token_span(st.tokens@[st.token_pos as int]),
                        ch: st.base@[token_span(st.tokens@[st.token_pos as int]).start + 1],
                    }),
                ))) && ((st.tokens@[st.token_pos as int] is Characters || st.tokens@[
                st.token_pos as int] is Digits || st.tokens@[st.token_pos as int] is Escaped)
                    && st.token_pos + 1 < st.tokens@.len() ==> ((st.tokens@[st.token_pos + 1]
                    is Star ==> (nodes@[nodes@.len() - 1] matches LexRe::Repetition {
                    span: _,
                    expr: _,
                    rep,
                } && rep == (Rep { min: 0u32, max: None }))) && (st.tokens@[st.token_pos + 1]
                    is Plus ==> (nodes@[nodes@.len() - 1] matches LexRe::Repetition {
                    span: _,
                    expr: _,
                    rep,
                } && rep == (Rep { min: 1u32, max: None }))) && (st.tokens@[st.token_pos + 1]
                    is Question ==> (nodes@[nodes@.len() - 1] matches LexRe::Repetition {
                    span: _,
                    expr: _,
                    rep,
                } && rep == (Rep { min: 0u32, max: Some(1u32) }))) && (st.tokens@[st.token_pos
                    + 1] is OpenBrace && st2.token_pos > st.token_pos + 2 ==> (nodes@[nodes@.len()
                    - 1] matches LexRe::Repetition { span: _, expr: _, rep } && rep.min
                    == digits_value(
                    st.base@.subrange(
                        token_span(st.tokens@[st.token_pos + 2]).start as int,
                        token_span(st.tokens@[st.token_pos + 2]).end as int,
                    ),
                ) && (st2.token_pos == st.token_pos + 4 ==> rep.max == Some(rep.min)) && (
                st2.token_pos == st.token_pos + 5 ==> rep.max is None) && (st2.token_pos
                    == st.token_pos + 6 ==> rep.max == Some(
                    digits_value(
                        st.base@.subrange(
                            token_span(st.tokens@[st.token_pos + 4]).start as int,
                            token_span(st.tokens@[st.token_pos + 4]).end as int,
                        ),
                    ) as u32,
                )))))),
                Err(e) => parse_error_span(e).wf() && parse_error_span(e).end <= st.base@.len()
                    && spec_term_end(st.base@, st.tokens@, st.token_pos as int) == Err::<
                    int,
                    ParseError,
                >(e),
            },
    {
        let ghost toks = st.tokens@;
        let ghost n = st.base@.len() as int;
        let t = st.tokens[st.token_pos];
        match t {
            LexReToken::Characters(sp) | LexReToken::Digits(sp) => {
                let mut nodes: Vec<LexRe> = Vec::new();
                let mut k = sp.start;
                while k + 1 < sp.end
                    invariant
                        sp.start <= k < sp.end,
                        nodes@.len() == k - sp.start,
                        nodes@.len() > 0 ==> re_span(nodes@[0]).start == sp.start,
                        forall|j: int|
                            0 <= j < nodes@.len() ==> #[trigger] nodes@[j] == (
                            LexRe::LiteralChar {
                                span: (Span {
                                    start: (sp.start + j) as usize,
                                    end: (sp.start + j + 1) as usize,
                                }),
                                ch: st.base@[sp.start + j],
                            }),
                        forall|j: int|
                            0 <= j < nodes@.len() ==> re_wf(#[trigger] nodes@[j]) && sp.start
                                <= re_span(nodes@[j]).start && re_span(nodes@[j]).end <= k,
                    decreases sp.end - k,
                {
                    let ch = read_char(st.base, k);
                    nodes.push(LexRe::LiteralChar { span: Span::new(k, k + 1), ch });
                    k = k + 1;
                }
                let ch = read_char(st.base, k);
                let atom = LexRe::LiteralChar { span: Span::new(k, sp.end), ch };
                let cur = st.advance();
                let (node, st2) = match self.parse_rep_suffix(atom, cur) {
                    Ok(v) => v,
                    Err(e) => return Err(e),
                };
                nodes.push(node);
                Ok((nodes, st2))
            },
            LexReToken::Escaped(sp) => {
                let ch = read_char(st.base, sp.start + 1);
                let atom = LexRe::LiteralChar { span: sp, ch };
                let cur = st.advance();
                let (node, st2) = match self.parse_rep_suffix(atom, cur) {
                    Ok(v) => v,
                    Err(e) => return Err(e),
                };
                let mut nodes: Vec<LexRe> = Vec::new();
                nodes.push(node);
                Ok((nodes, st2))
            },
            LexReToken::OpenBracket(_) => {
                let (atom, cur) = match self.parse_bracket_or_class(st) {
                    Ok(v) => v,
                    Err(e) => return Err(e),
                };
                let (node, st2) = match self.parse_rep_suffix(atom, cur) {
                    Ok(v) => v,
                    Err(e) => return Err(e),
                };
                let mut nodes: Vec<LexRe> = Vec::new();
                nodes.push(node);
                Ok((nodes, st2))
            },
            LexReToken::DoubleQuote(_) => {
                let (atom, cur) = match self.parse_quoted(st) {
                    Ok(v) => v,
                    Err(e) => return Err(e),
                };
                let (node, st2) = match self.parse_rep_suffix(atom, cur) {
                    Ok(v) => v,
                    Err(e) => return Err(e),
                };
                let mut nodes: Vec<LexRe> = Vec::new();
                nodes.push(node);
                Ok((nodes, st2))
            },
            LexReToken::OpenBrace(osp) => {
                if peek_digits_at(&st, 1) {
                    // repetition bounds with nothing to repeat: the bounds
                    // themselves are validated first, so inverted bounds
                    // report as such
                    return match self.parse_bounds(st) {
                        Ok(_) => Err(ParseError::UnexpectedToken(osp)),
                        Err(e) => Err(e),
                    };
                }
                let (atom, cur) = match self.parse_replacement(st) {
                    Ok(v) => v,
                    Err(e) => return Err(e),
                };
                let (node, st2) = match self.parse_rep_suffix(atom, cur) {
                    Ok(v) => v,
                    Err(e) => return Err(e),
                };
                let mut nodes: Vec<LexRe> = Vec::new();
                nodes.push(node);
                Ok((nodes, st2))
            },
            _ => {
                let sp = token_span_of(&t);
                Err(ParseError::UnexpectedToken(sp))
            },
        }
    }

    /// The optional repetition suffix after an atom: `*`, `+`, `?` or a
    /// brace form with decimal bounds. Consumes nothing when no suffix
    /// follows; a brace not followed by digits is left alone (it begins a
    /// macro reference).
    fn parse_rep_suffix(&self, atom: LexRe, st: ParserState<'a>) -> (r: Result<
        (LexRe, ParserState<'a>),
        ParseError,
    >)
        requires
            st.wf(),
            re_wf(atom),
            st.token_pos < st.tokens@.len() ==> re_span(atom).end <= token_span(
                st.tokens@[st.token_pos as int],
            ).start,
        ensures
            match r {
                Ok((node, st2)) => {
                    &&& st2.base == st.base
                    &&& st2.tokens == st.tokens
                    &&& st.token_pos <= st2.token_pos <= st.tokens@.len()
                    &&& re_wf(node)
                    &&& re_span(node).start == re_span(atom).start
                    &&& (st2.token_pos == st.token_pos ==> node == atom)
                    &&& (st2.token_pos > st.token_pos ==> re_span(node).end == token_span(
                        st.tokens@[st2.token_pos - 1],
                    ).end)
                    &&& spec_suffix_end(st.base@, st.tokens@, st.token_pos as int) == Ok::<
                        int,
                        ParseError,
                    >(st2.token_pos as int)
                    &&& (st2.token_pos > st.token_pos ==> (node matches LexRe::Repetition {
                        span: _,
                        expr,
                        rep,
                    } && *expr == atom && rep_wf(rep)))
                    &&& (st.token_pos < st.tokens@.len() && st.tokens@[st.token_pos as int]
                        is Star ==> (node matches LexRe::Repetition { span: _, expr: _, rep }
                        && rep == (Rep { min: 0u32, max: None })))
                    &&& (st.token_pos < st.tokens@.len() && st.tokens@[st.token_pos as int]
                        is Plus ==> (node matches LexRe::Repetition { span: _, expr: _, rep }
                        && rep == (Rep { min: 1u32, max: None })))
                    &&& (st.token_pos < st.tokens@.len() && st.tokens@[st.token_pos as int]
                        is Question ==> (node matches LexRe::Repetition { span: _, expr: _, rep }
                        && rep == (Rep { min: 0u32, max: Some(1u32) })))
                    &&& (st2.token_pos > st.token_pos && st.tokens@[st.token_pos as int]
                        is OpenBrace ==> (node matches LexRe::Repetition { span: _, expr: _, rep }
                        && rep.min == digits_value(
                        st.base@.subrange(
                            token_span(st.tokens@[st.token_pos + 1]).start as int,
                            token_span(st.tokens@[st.token_pos + 1]).end as int,
                        ),
                    ) && (st2.token_pos == st.token_pos + 3 ==> rep.max == Some(rep.min)) && (
                    st2.token_pos == st.token_pos + 4 ==> rep.max is None) && (st2.token_pos
                        == st.token_pos + 5 ==> rep.max == Some(
                        digits_value(
                            st.base@.subrange(
                                token_span(st.tokens@[st.token_pos + 3]).start as int,
                                token_span(st.tokens@[st.token_pos + 3]).end as int,
                            ),
                        ) as u32,
                    ))))
                },
                Err(e) => parse_error_span(e).wf() && parse_error_span(e).end <= st.base@.len()
                    && spec_suffix_end(st.base@, st.tokens@, st.token_pos as int) == Err::<
                    int,
                    ParseError,
                >(e),
            },
    {
        let sp_atom_start = token_span_of_atom_start(&atom);
        match st.current_token() {
            Some(LexReToken::Star(sp2)) => {
                let node = LexRe::Repetition {
                    span: Span::new(sp_atom_start, sp2.end),
                    expr: Box::new(atom),
                    rep: (Rep { min: 0u32, max: None }),
                };
                Ok((node, st.advance()))
            },
            Some(LexReToken::Plus(sp2)) => {
                let node = LexRe::Repetition {
                    span: Span::new(sp_atom_start, sp2.end),
                    expr: Box::new(atom),
                    rep: (Rep { min: 1u32, max: None }),
                };
                Ok((node, st.advance()))
            },
            Some(LexReToken::Question(sp2)) => {
                let node = LexRe::Repetition {
                    span: Span::new(sp_atom_start, sp2.end),
                    expr: Box::new(atom),
                    rep: (Rep { min: 0u32, max: Some(1u32) }),
                };
                Ok((node, st.advance()))
            },
            Some(LexReToken::OpenBrace(_)) => {
                if peek_digits_at(&st, 1) {
                    let (rep, st2) = match self.parse_bounds(st) {
                        Ok(v) => v,
                        Err(e) => return Err(e),
                    };
                    let hi = token_span_of(&st2.tokens[st2.token_pos - 1]).end;
                    let node = LexRe::Repetition {
                        span: Span::new(sp_atom_start, hi),
                        expr: Box::new(atom),
                        rep,
                    };
                    Ok((node, st2))
                } else {
                    Ok((atom, st))
                }
            },
            _ => Ok((atom, st)),
        }
    }

    /// The brace repetition bounds `{m}`, `{m,}` or `{m,n}`, starting at the
    /// opening brace. The numbers are exactly the decimal values written;
    /// inverted bounds are an error, never reordered.
    fn parse_bounds(&self, st: ParserState<'a>) -> (r: Result<(Rep, ParserState<'a>), ParseError>)
        requires
            st.wf(),
            st.token_pos + 1 < st.tokens@.len(),
            st.tokens@[st.token_pos as int] is OpenBrace,
            st.tokens@[st.token_pos + 1] is Digits,
        ensures
            match r {
                Ok((rep, st2)) => {
                    &&& st2.base == st.base
                    &&& st2.tokens == st.tokens
                    &&& st.token_pos < st2.token_pos <= st.tokens@.len()
                    &&& rep_wf(rep)
                    &&& rep.min == digits_value(
                        st.base@.subrange(
                            token_span(st.tokens@[st.token_pos + 1]).start as int,
                            token_span(st.tokens@[st.token_pos + 1]).end as int,
                        ),
                    )
                    &&& st.tokens@[st2.token_pos - 1] is CloseBrace
                    &&& (st2.token_pos == st.token_pos + 3 ==> rep.max == Some(rep.min))
                    &&& (st2.token_pos == st.token_pos + 4 ==> rep.max is None)
                    &&& (st2.token_pos == st.token_pos + 5 ==> st.tokens@[st.token_pos + 3]
                        is Digits && rep.max == Some(
                        digits_value(
                            st.base@.subrange(
                                token_span(st.tokens@[st.token_pos + 3]).start as int,
                                token_span(st.tokens@[st.token_pos + 3]).end as int,
                            ),
                        ) as u32,
                    ))
                    &&& (st2.token_pos == st.token_pos + 3 || st2.token_pos == st.token_pos + 4
                        || st2.token_pos == st.token_pos + 5)
                    &&& spec_bounds_end(st.base@, st.tokens@, st.token_pos as int) == Ok::<
                        int,
                        ParseError,
                    >(st2.token_pos as int)
                },
                Err(e) => parse_error_span(e).wf() && parse_error_span(e).end <= st.base@.len()
                    && spec_bounds_end(st.base@, st.tokens@, st.token_pos as int) == Err::<
                    int,
                    ParseError,
                >(e),
            },
    {
        let open_sp = token_span_of(&st.tokens[st.token_pos]);
        let cur = st.advance();
        let msp = token_span_of(&cur.tokens[cur.token_pos]);
        let m = match self.read_number(cur.base, msp) {
            Ok(v) => v,
            Err(e) => return Err(e),
        };
        let cur = cur.advance();
        match cur.current_token() {
            Some(LexReToken::CloseBrace(_)) => Ok(((Rep { min: m, max: Some(m) }), cur.advance())),
            Some(LexReToken::Comma(_)) => {
                let cur = cur.advance();
                match cur.current_token() {
                    Some(LexReToken::CloseBrace(_)) => Ok(((Rep { min: m, max: None }), cur.advance())),
                    Some(LexReToken::Digits(nsp)) => {
                        let nv = match self.read_number(cur.base, nsp) {
                            Ok(v) => v,
                            Err(e) => return Err(e),
                        };
                        if m > nv {
                            return Err(
                                ParseError::InvalidBounds(Span::new(msp.start, nsp.end)),
                            );
                        }
                        let cur = cur.advance();
                        match cur.current_token() {
                            Some(LexReToken::CloseBrace(_)) => Ok(((Rep { min: m, max: Some(nv) }), cur.advance())),
                            Some(t) => {
                                let sp = token_span_of(&t);
                                Err(ParseError::UnexpectedToken(sp))
                            },
                            None => Err(ParseError::UnterminatedBrace(open_sp)),
                        }
                    },
                    Some(t) => {
                        let sp = token_span_of(&t);
                        Err(ParseError::UnexpectedToken(sp))
                    },
                    None => Err(ParseError::UnterminatedBrace(open_sp)),
                }
            },
            Some(t) => {
                let sp = token_span_of(&t);
                Err(ParseError::UnexpectedToken(sp))
            },
            None => Err(ParseError::UnterminatedBrace(open_sp)),
        }
    }

    /// Read the decimal number the characters of `sp` denote, exactly;
    /// a non-digit or a value beyond 32 bits is a bounds error.
    #[verifier::loop_isolation(false)]
    fn read_number(&self, base: &Vec<char>, sp: Span) -> (r: Result<u32, ParseError>)
        requires
            sp.start <= sp.end <= base@.len(),
        ensures
            match r {
                Ok(v) => v == digits_value(st_sub(base@, sp)) && spec_read_number(base@, sp)
                    == Ok::<int, ParseError>(v as int),
                Err(e) => parse_error_span(e).wf() && parse_error_span(e).end <= base@.len()
                    && spec_read_number(base@, sp) == Err::<int, ParseError>(e),
            },
    {
        let mut v: u32 = 0;
        let mut k = sp.start;
        let q = u32::MAX / 10;
        let rm = u32::MAX % 10;
        proof {
            assert(base@.subrange(sp.start as int, sp.start as int) =~= Seq::<char>::empty());
        }
        while k < sp.end
            invariant
                sp.start <= k <= sp.end <= base@.len(),
                q == u32::MAX / 10,
                rm == u32::MAX % 10,
                v == digits_value(base@.subrange(sp.start as int, k as int)),
                all_digits(base@, sp.start as int, k as int),
            decreases sp.end - k,
        {
            let c = read_char(base, k);
            let u = c as u32;
            if u < 48 || u > 57 {
                proof {
                    assert(!crate::lex_re_tokenizer::is_digit_char(base@[k as int]));
                }
                return Err(ParseError::InvalidBounds(sp));
            }
            let d = u - 48;
            if v > q || (v == q && d > rm) {
                proof {
                    if all_digits(base@, sp.start as int, sp.end as int) {
                        assert(base@.subrange(sp.start as int, k as int + 1).drop_last()
                            =~= base@.subrange(sp.start as int, k as int));
                        assert(base@.subrange(sp.start as int, k as int + 1).last()
                            == base@[k as int]);
                        assert(digits_value(base@.subrange(sp.start as int, k as int + 1))
                            == v * 10 + d);
                        lemma_digits_value_prefix(
                            base@,
                            sp.start as int,
                            k as int + 1,
                            sp.end as int,
                        );
                        assert(digits_value(base@.subrange(sp.start as int, sp.end as int))
                            > u32::MAX);
                    }
                }
                return Err(ParseError::InvalidBounds(sp));
            }
            proof {
                assert(base@.subrange(sp.start as int, k as int + 1).drop_last()
                    =~= base@.subrange(sp.start as int, k as int));
                assert(base@.subrange(sp.start as int, k as int + 1).last() == base@[k as int]);
            }
            v = v * 10 + d;
            k = k + 1;
        }
        Ok(v)
    }

    /// A bracket atom: an ordinary bracket expression, or one of the
    /// standalone class forms `[:name:]`, `[=chars=]`, `[.name.]`.
    fn parse_bracket_or_class(&self, st: ParserState<'a>) -> (r: Result<
        (LexRe, ParserState<'a>),
        ParseError,
    >)
        requires
            st.wf(),
            st.token_pos < st.tokens@.len(),
            st.tokens@[st.token_pos as int] is OpenBracket,
        ensures
            match r {
                Ok((node, st2)) => atom_step_ok(st, st2, node) && spec_atom_end(st.base@, st.tokens@, st.token_pos as int) == Ok::<
                    int,
                    ParseError,
                >(st2.token_pos as int),
                Err(e) => parse_error_span(e).wf() && parse_error_span(e).end <= st.base@.len()
                    && spec_atom_end(st.base@, st.tokens@, st.token_pos as int) == Err::<int, ParseError>(e),
            },
    {
        if st.tokens.len() - st.token_pos > 1 {
            let nx = st.tokens[st.token_pos + 1];
            match nx {
                LexReToken::Coron(_) => {
                    return self.parse_class_form(st, ParseContext::InCharacterClass);
                },
                LexReToken::Equal(_) => {
                    return self.parse_class_form(st, ParseContext::InEquivalenceClass);
                },
                LexReToken::Dot(_) => {
                    return self.parse_class_form(st, ParseContext::InCollatingElement);
                },
                _ => {},
            }
        }
        self.parse_bracket(st)
    }

    /// A standalone class form: `[:name:]` is a character class,
    /// `[=chars=]` an equivalence class, `[.name.]` a collating element.
    #[verifier::loop_isolation(false)]
    fn parse_class_form(&self, st: ParserState<'a>, ctx: ParseContext) -> (r: Result<
        (LexRe, ParserState<'a>),
        ParseError,
    >)
        requires
            st.wf(),
            st.token_pos + 1 < st.tokens@.len(),
            st.tokens@[st.token_pos as int] is OpenBracket,
            ctx == ParseContext::InCharacterClass || ctx == ParseContext::InEquivalenceClass || ctx
                == ParseContext::InCollatingElement,
        ensures
            match r {
                Ok((node, st2)) => atom_step_ok(st, st2, node) && spec_class_end(st.tokens@, st.token_pos as int, ctx) == Ok::<
                    int,
                    ParseError,
                >(st2.token_pos as int),
                Err(e) => parse_error_span(e).wf() && parse_error_span(e).end <= st.base@.len()
                    && spec_class_end(st.tokens@, st.token_pos as int, ctx) == Err::<int, ParseError>(e),
            },
    {
        let ghost toks = st.tokens@;
        let ghost n = st.base@.len() as int;
        let open_sp = token_span_of(&st.tokens[st.token_pos]);
        let mut cur = st.advance();
        // skip the opening delimiter
        cur = cur.advance();
        let mut chars: Vec<char> = Vec::new();
        while cur.token_pos < cur.tokens.len()
            invariant
                st.wf(),
                cur.wf(),
                cur.base == st.base,
                cur.tokens == st.tokens,
                toks == st.tokens@,
                n == st.base@.len() as int,
                st.token_pos + 1 < cur.token_pos <= toks.len(),
                open_sp == token_span(toks[st.token_pos as int]),
                name_end(toks, st.token_pos as int + 2) == name_end(toks, cur.token_pos as int),
            decreases toks.len() - cur.token_pos,
        {
            let t = cur.tokens[cur.token_pos];
            let is_delim = match ctx {
                ParseContext::InEquivalenceClass => matches!(t, LexReToken::Equal(_)),
                ParseContext::InCollatingElement => matches!(t, LexReToken::Dot(_)),
                _ => matches!(t, LexReToken::Coron(_)),
            };
            if is_delim {
                let after = cur.advance();
                if after.token_pos < after.tokens.len() {
                    let tc = after.tokens[after.token_pos];
                    match tc {
                        LexReToken::CloseBracket(csp) => {
                            let span = Span::new(open_sp.start, csp.end);
                            let node = match ctx {
                                ParseContext::InEquivalenceClass => LexRe::EquivalenceClass {
                                    span,
                                    chars,
                                },
                                ParseContext::InCollatingElement => LexRe::CollatingElement {
                                    span,
                                    name: chars,
                                },
                                _ => LexRe::CharacterClass { span, chars },
                            };
                            return Ok((node, after.advance()));
                        },
                        _ => {
                            let sp = token_span_of(&tc);
                            return Err(ParseError::UnexpectedToken(sp));
                        },
                    }
                } else {
                    return Err(ParseError::UnterminatedBracket(open_sp));
                }
            }
            match t {
                LexReToken::Characters(sp) | LexReToken::Digits(sp) => {
                    let mut k = sp.start;
                    while k < sp.end
                        invariant
                            sp.end <= st.base@.len(),
                            sp.start <= k <= sp.end,
                        decreases sp.end - k,
                    {
                        let ch = read_char(st.base, k);
                        chars.push(ch);
                        k = k + 1;
                    }
                },
                _ => {
                    let sp = token_span_of(&t);
                    return Err(ParseError::UnexpectedToken(sp));
                },
            }
            cur = cur.advance();
        }
        Err(ParseError::UnterminatedBracket(open_sp))
    }

    /// An ordinary bracket expression `[ ... ]`: a leading `^` negates;
    /// items are single characters or `low-high` ranges; inside the
    /// brackets every character stands for itself, an escape for its second
    /// character; a hyphen at the edges is literal.
    #[verifier::loop_isolation(false)]
    fn parse_bracket(&self, st: ParserState<'a>) -> (r: Result<
        (LexRe, ParserState<'a>),
        ParseError,
    >)
        requires
            st.wf(),
            st.token_pos < st.tokens@.len(),
            st.tokens@[st.token_pos as int] is OpenBracket,
        ensures
            match r {
                Ok((node, st2)) => atom_step_ok(st, st2, node) && spec_bracket_end(st.tokens@, st.token_pos as int) == Ok::<
                    int,
                    ParseError,
                >(st2.token_pos as int),
                Err(e) => parse_error_span(e).wf() && parse_error_span(e).end <= st.base@.len()
                    && spec_bracket_end(st.tokens@, st.token_pos as int) == Err::<int, ParseError>(e),
            },
    {
        let ghost toks = st.tokens@;
        let ghost n = st.base@.len() as int;
        let open_sp = token_span_of(&st.tokens[st.token_pos]);
        let mut cur = st.advance();
        let mut items: Vec<BracketItem> = Vec::new();
        let mut negated = false;
        let mut prev: Option<char> = None;
        let mut pending = false;
        let mut first = true;
        while cur.token_pos < cur.tokens.len()
            invariant
                st.wf(),
                cur.wf(),
                cur.base == st.base,
                cur.tokens == st.tokens,
                toks == st.tokens@,
                n == st.base@.len() as int,
                st.token_pos < cur.token_pos <= toks.len(),
                open_sp == token_span(toks[st.token_pos as int]),
                pending ==> prev is Some,
                close_at_bracket(toks, st.token_pos as int + 1) == close_at_bracket(
                    toks,
                    cur.token_pos as int,
                ),
            decreases toks.len() - cur.token_pos,
        {
            let t = cur.tokens[cur.token_pos];
            match t {
                LexReToken::CloseBracket(csp) => {
                    if pending {
                        if let Some(p) = prev {
                            items.push(BracketItem::Single(p));
                        }
                        items.push(BracketItem::Single('-'));
                    } else {
                        if let Some(p) = prev {
                            items.push(BracketItem::Single(p));
                        }
                    }
                    let node = LexRe::BracketExpr {
                        span: Span::new(open_sp.start, csp.end),
                        expr: BracketExpr { items, negated },
                    };
                    return Ok((node, cur.advance()));
                },
                LexReToken::Hyphen(_) => {
                    if prev.is_some() && !pending {
                        pending = true;
                    } else {
                        bracket_feed(&mut items, &mut prev, &mut pending, '-');
                    }
                },
                LexReToken::Escaped(esp) => {
                    let ch = read_char(cur.base, esp.start + 1);
                    bracket_feed(&mut items, &mut prev, &mut pending, ch);
                },
                LexReToken::Characters(sp) | LexReToken::Digits(sp) | LexReToken::Blank(sp) => {
                    let mut k = sp.start;
                    if first {
                        let c0 = read_char(cur.base, k);
                        if c0 == '^' {
                            negated = true;
                            k = k + 1;
                        }
                    }
                    while k < sp.end
                        invariant
                            sp.end <= st.base@.len(),
                            sp.start <= k <= sp.end,
                            pending ==> prev is Some,
                        decreases sp.end - k,
                    {
                        let ch = read_char(st.base, k);
                        bracket_feed(&mut items, &mut prev, &mut pending, ch);
                        k = k + 1;
                    }
                },
                _ => {
                    // any other single symbol is literal inside brackets
                    let sp = token_span_of(&t);
                    let ch = read_char(cur.base, sp.start);
                    bracket_feed(&mut items, &mut prev, &mut pending, ch);
                },
            }
            first = false;
            cur = cur.advance();
        }
        Err(ParseError::UnterminatedBracket(open_sp))
    }

    /// A macro reference `{name}`, left unresolved as a `Replacement` node.
    #[verifier::loop_isolation(false)]
    fn parse_replacement(&self, st: ParserState<'a>) -> (r: Result<
        (LexRe, ParserState<'a>),
        ParseError,
    >)
        requires
            st.wf(),
            st.token_pos < st.tokens@.len(),
            st.tokens@[st.token_pos as int] is OpenBrace,
        ensures
            match r {
                Ok((node, st2)) => atom_step_ok(st, st2, node) && spec_replacement_end(st.tokens@, st.token_pos as int) == Ok::<
                    int,
                    ParseError,
                >(st2.token_pos as int),
                Err(e) => parse_error_span(e).wf() && parse_error_span(e).end <= st.base@.len()
                    && spec_replacement_end(st.tokens@, st.token_pos as int) == Err::<int, ParseError>(e),
            },
    {
        let ghost toks = st.tokens@;
        let ghost n = st.base@.len() as int;
        let open_sp = token_span_of(&st.tokens[st.token_pos]);
        let mut cur = st.advance();
        let mut name: Vec<char> = Vec::new();
        while cur.token_pos < cur.tokens.len()
            invariant
                st.wf(),
                cur.wf(),
                cur.base == st.base,
                cur.tokens == st.tokens,
                toks == st.tokens@,
                n == st.base@.len() as int,
                st.token_pos < cur.token_pos <= toks.len(),
                open_sp == token_span(toks[st.token_pos as int]),
                name_end(toks, st.token_pos as int + 1) == name_end(toks, cur.token_pos as int),
            decreases toks.len() - cur.token_pos,
        {
            let t = cur.tokens[cur.token_pos];
            match t {
                LexReToken::CloseBrace(csp) => {
                    let node = LexRe::Replacement { span: Span::new(open_sp.start, csp.end), name };
                    return Ok((node, cur.advance()));
                },
                LexReToken::Characters(sp) | LexReToken::Digits(sp) => {
                    let mut k = sp.start;
                    while k < sp.end
                        invariant
                            sp.end <= st.base@.len(),
                            sp.start <= k <= sp.end,
                        decreases sp.end - k,
                    {
                        let ch = read_char(st.base, k);
                        name.push(ch);
                        k = k + 1;
                    }
                },
                _ => {
                    let sp = token_span_of(&t);
                    return Err(ParseError::UnexpectedToken(sp));
                },
            }
            cur = cur.advance();
        }
        Err(ParseError::UnterminatedBrace(open_sp))
    }

    /// A quoted literal `"..."`: every character inside stands for itself,
    /// an escape for its second character. A single character collapses to
    /// one literal; anything else is a concatenation node spanning the
    /// quotes.
    #[verifier::rlimit(60)]
    #[verifier::loop_isolation(false)]
    fn parse_quoted(&self, st: ParserState<'a>) -> (r: Result<
        (LexRe, ParserState<'a>),
        ParseError,
    >)
        requires
            st.wf(),
            st.token_pos < st.tokens@.len(),
            st.tokens@[st.token_pos as int] is DoubleQuote,
        ensures
            match r {
                Ok((node, st2)) => atom_step_ok(st, st2, node) && spec_quote_end(st.tokens@, st.token_pos as int) == Ok::<
                    int,
                    ParseError,
                >(st2.token_pos as int),
                Err(e) => parse_error_span(e).wf() && parse_error_span(e).end <= st.base@.len()
                    && spec_quote_end(st.tokens@, st.token_pos as int) == Err::<int, ParseError>(e),
            },
    {
        let ghost toks = st.tokens@;
        let ghost n = st.base@.len() as int;
        let open_sp = token_span_of(&st.tokens[st.token_pos]);
        let mut cur = st.advance();
        let mut lits: Vec<LexRe> = Vec::new();
        while cur.token_pos < cur.tokens.len()
            invariant
                cur.base == st.base,
                cur.tokens == st.tokens,
                st.token_pos < cur.token_pos <= toks.len(),
                close_at_quote(toks, st.token_pos as int + 1) == close_at_quote(
                    toks,
                    cur.token_pos as int,
                ),
                (cur.token_pos == st.token_pos + 1) <==> lits@.len() == 0,
                forall|j: int|
                    0 <= j < lits@.len() ==> re_wf(#[trigger] lits@[j]) && (#[trigger] lits@[j])
                        is LiteralChar && open_sp.start <= re_span(lits@[j]).start && re_span(
                        lits@[j],
                    ).end <= token_span(toks[cur.token_pos - 1]).end,
            decreases toks.len() - cur.token_pos,
        {
            let t = cur.tokens[cur.token_pos];
            match t {
                LexReToken::DoubleQuote(csp) => {
                    if lits.len() == 0 {
                        // an empty quoted literal denotes nothing
                        return Err(ParseError::UnexpectedToken(csp));
                    }
                    if lits.len() == 1 {
                        let node0 = lits.remove(0);
                        let node = match node0 {
                            LexRe::LiteralChar { span: _, ch } => LexRe::LiteralChar {
                                span: Span::new(open_sp.start, csp.end),
                                ch,
                            },
                            other => other,
                        };
                        return Ok((node, cur.advance()));
                    }
                    let node = LexRe::Concat {
                        span: Span::new(open_sp.start, csp.end),
                        exprs: lits,
                    };
                    return Ok((node, cur.advance()));
                },
                LexReToken::Escaped(esp) => {
                    let ch = read_char(cur.base, esp.start + 1);
                    lits.push(LexRe::LiteralChar { span: esp, ch });
                },
                _ => {
                    let sp = token_span_of(&t);
                    proof {
                        assert(sp.start < sp.end);
                    }
                    let ghost lpre = lits@.len();
                    let mut k = sp.start;
                    while k < sp.end
                        invariant
                            sp.start <= k <= sp.end,
                            open_sp.start <= sp.start,
                            lits@.len() == lpre + k - sp.start,
                            forall|j: int|
                                0 <= j < lits@.len() ==> re_wf(#[trigger] lits@[j]) && (
                                #[trigger] lits@[j]) is LiteralChar && open_sp.start <= re_span(
                                    lits@[j],
                                ).start && re_span(lits@[j]).end <= k,
                        decreases sp.end - k,
                    {
                        let ch = read_char(st.base, k);
                        lits.push(LexRe::LiteralChar { span: Span::new(k, k + 1), ch });
                        k = k + 1;
                    }
                },
            }
            cur = cur.advance();
        }
        Err(ParseError::UnterminatedQuote(open_sp))
    }
}

/// Compile one rule's regex text into its syntax tree: tokenize, then
/// parse the whole stream. Succeeds exactly when the text tokenizes
/// (`scan_ok`) and its token stream is derivable from the grammar
/// (`spec_parse_outcome`); every failure carries the exact tokenizer or
/// parser error. The tokenizer's partition-and-classification contract
/// admits one stream per text, so the quantified stream below is that one.
pub fn parse_rule_regex(base: &Vec<char>) -> (r: Result<LexRe, RegexError>)
    ensures
        (crate::lex_re_tokenizer::scan_ok(base@, 0) && (forall|toks: Seq<LexReToken>|
            tokenization_of(base@, toks) ==> spec_parse_outcome(base@, toks) is Ok)) ==> r is Ok,
        match r {
            Ok(node) => re_wf(node) && re_span(node).end <= base@.len()
                && crate::lex_re_tokenizer::scan_ok(base@, 0) && (exists|toks: Seq<LexReToken>|
                tokenization_of(base@, toks) && spec_parse_outcome(base@, toks) is Ok),
            Err(e) => regex_error_span(e).wf() && regex_error_span(e).end <= base@.len() && (match
                e {
                RegexError::Tokenize(_) => !crate::lex_re_tokenizer::scan_ok(base@, 0),
                RegexError::Parse(pe) => crate::lex_re_tokenizer::scan_ok(base@, 0) && (exists|
                    toks: Seq<LexReToken>,
                |
                    tokenization_of(base@, toks) && spec_parse_outcome(base@, toks) == Err::<
                        int,
                        ParseError,
                    >(pe)),
            }),
        },
{
    let toks = match crate::lex_re_tokenizer::tokenize_re(base) {
        Ok(t) => t,
        Err(e) => return Err(RegexError::Tokenize(e)),
    };
    proof {
        lemma_tokenized_wf(base@, toks@);
        assert(tokenization_of(base@, toks@));
    }
    let p = Parser::new(base, &toks);
    match p.parse() {
        Ok(node) => Ok(node),
        Err(e) => Err(RegexError::Parse(e)),
    }
}

/// The node stands for the atom: the atom itself, or a repetition wrapping
/// it.
pub open spec fn term_node_of_literal(node: LexRe, atom: LexRe) -> bool {
    node == atom || (node matches LexRe::Repetition { span: _, expr, rep: _ } && *expr == atom)
}

/// A successful atom step: the node's span runs from the opening token's
/// start to the last consumed token's end.
pub open spec fn atom_step_ok<'a>(st: ParserState<'a>, st2: ParserState<'a>, node: LexRe) -> bool {
    &&& st2.base == st.base
    &&& st2.tokens == st.tokens
    &&& st.token_pos < st2.token_pos <= st.tokens@.len()
    &&& re_wf(node)
    &&& re_span(node).start == token_span(st.tokens@[st.token_pos as int]).start
    &&& re_span(node).end == token_span(st.tokens@[st2.token_pos - 1]).end
}

/// The characters a span denotes.
pub open spec fn st_sub(base: Seq<char>, sp: Span) -> Seq<char> {
    base.subrange(sp.start as int, sp.end as int)
}

/// The start offset of a node's span.
fn token_span_of_atom_start(re: &LexRe) -> (r: usize)
    ensures
        r == re_span(*re).start,
{
    match re {
        LexRe::CharacterClass { span, .. } => span.start,
        LexRe::EquivalenceClass { span, .. } => span.start,
        LexRe::CollatingElement { span, .. } => span.start,
        LexRe::BracketExpr { span, .. } => span.start,
        LexRe::Replacement { span, .. } => span.start,
        LexRe::Concat { span, .. } => span.start,
        LexRe::Repetition { span, .. } => span.start,
        LexRe::LiteralChar { span, .. } => span.start,
        LexRe::Alternation { span, .. } => span.start,
    }
}

/// Feed one literal character into a bracket item list: it completes a
/// pending range, or replaces the held previous character, which is flushed
/// as a single item.
fn bracket_feed(
    items: &mut Vec<BracketItem>,
    prev: &mut Option<char>,
    pending: &mut bool,
    c: char,
)
    requires
        *old(pending) ==> *old(prev) is Some,
    ensures
        *final(pending) ==> *final(prev) is Some,
        !*final(pending),
{
    if *pending {
        if let Some(p) = *prev {
            items.push(BracketItem::Range(p, c));
        }
        *prev = None;
        *pending = false;
    } else {
        if let Some(p) = *prev {
            items.push(BracketItem::Single(p));
        }
        *prev = Some(c);
        *pending = false;
    }
}


/// One character of the regex text.
fn read_char(base: &Vec<char>, k: usize) -> (c: char)
    requires
        k < base@.len(),
    ensures
        c == base@[k as int],
{
    base[k]
}


} // verus!
