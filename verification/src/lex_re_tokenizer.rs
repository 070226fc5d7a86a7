//! Tokenizer for the rule-regex micro-language.
//!
//! A regex substring is lexed into a flat, ordered token stream. The
//! seventeen structural single-character symbols each become their own token;
//! a backslash always begins a two-character escape token (a backslash as the
//! final character is a dangling-escape error); otherwise maximal runs of
//! decimal digits, of whitespace, and of ordinary characters become `Digits`,
//! `Blank` and `Characters` tokens. Whitespace here means the ASCII blank
//! characters. Each token owns only a span into the input, never a copy of
//! the text, and consecutive token spans partition the input exactly.

use vstd::prelude::*;

use crate::span::Span;

verus! {

/// One token of the rule-regex micro-language, carrying the half-open span
/// of the characters it covers.
#[derive(Debug, Clone, Copy, PartialEq, Eq, Structural)]
pub enum LexReToken {
    /// `:`
    Coron(Span),
    /// `=`
    Equal(Span),
    /// `.`
    Dot(Span),
    /// `/`
    Slash(Span),
    /// A backslash together with the single character it escapes; always two
    /// characters long.
    Escaped(Span),
    /// `[`
    OpenBracket(Span),
    /// `]`
    CloseBracket(Span),
    /// `"`
    DoubleQuote(Span),
    /// `(`
    OpenGroup(Span),
    /// `)`
    CloseGroup(Span),
    /// `{`
    OpenBrace(Span),
    /// `}`
    CloseBrace(Span),
    /// `?`
    Question(Span),
    /// `*`
    Star(Span),
    /// `+`
    Plus(Span),
    /// `|`
    Pipe(Span),
    /// `,`
    Comma(Span),
    /// `-`
    Hyphen(Span),
    /// A maximal run of whitespace.
    Blank(Span),
    /// A maximal run of decimal digits.
    Digits(Span),
    /// A maximal run of ordinary characters: none structural, no digit, no
    /// whitespace, no backslash.
    Characters(Span),
}

/// The error of this stage: a backslash stood as the final character, so
/// there was nothing for it to escape. The span points at that backslash.
#[derive(Debug, Clone, Copy, PartialEq, Eq, Structural)]
pub enum TokenizeError {
    DanglingEscape(Span),
}

/// The span a token covers.
pub open spec fn token_span(t: LexReToken) -> Span {
    match t {
        LexReToken::Coron(s) => s,
        LexReToken::Equal(s) => s,
        LexReToken::Dot(s) => s,
        LexReToken::Slash(s) => s,
        LexReToken::Escaped(s) => s,
        LexReToken::OpenBracket(s) => s,
        LexReToken::CloseBracket(s) => s,
        LexReToken::DoubleQuote(s) => s,
        LexReToken::OpenGroup(s) => s,
        LexReToken::CloseGroup(s) => s,
        LexReToken::OpenBrace(s) => s,
        LexReToken::CloseBrace(s) => s,
        LexReToken::Question(s) => s,
        LexReToken::Star(s) => s,
        LexReToken::Plus(s) => s,
        LexReToken::Pipe(s) => s,
        LexReToken::Comma(s) => s,
        LexReToken::Hyphen(s) => s,
        LexReToken::Blank(s) => s,
        LexReToken::Digits(s) => s,
        LexReToken::Characters(s) => s,
    }
}

/// One of the seventeen structural single-character symbols.
pub open spec fn is_structural_char(c: char) -> bool {
    ||| c == ':'
    ||| c == '='
    ||| c == '.'
    ||| c == '/'
    ||| c == '['
    ||| c == ']'
    ||| c == '"'
    ||| c == '('
    ||| c == ')'
    ||| c == '{'
    ||| c == '}'
    ||| c == '?'
    ||| c == '*'
    ||| c == '+'
    ||| c == '|'
    ||| c == ','
    ||| c == '-'
}

/// A decimal digit.
pub open spec fn is_digit_char(c: char) -> bool {
    48 <= c as u32 && c as u32 <= 57
}

/// An ASCII blank character: space, tab, line feed, vertical tab, form feed
/// or carriage return.
pub open spec fn is_blank_char(c: char) -> bool {
    ||| c == ' '
    ||| c == '\t'
    ||| c == '\n'
    ||| c as u32 == 11
    ||| c as u32 == 12
    ||| c == '\r'
}

/// An ordinary character: not structural, no digit, no blank, no backslash.
pub open spec fn is_ordinary_char(c: char) -> bool {
    !is_structural_char(c) && !is_digit_char(c) && !is_blank_char(c) && c != '\\'
}

/// End of the maximal run of digits that starts at `pos`.
pub open spec fn digit_run_end(s: Seq<char>, pos: int) -> int
    decreases s.len() - pos,
    when 0 <= pos <= s.len()
{
    if pos < s.len() && is_digit_char(s[pos]) {
        digit_run_end(s, pos + 1)
    } else {
        pos
    }
}

/// End of the maximal run of blanks that starts at `pos`.
pub open spec fn blank_run_end(s: Seq<char>, pos: int) -> int
    decreases s.len() - pos,
    when 0 <= pos <= s.len()
{
    if pos < s.len() && is_blank_char(s[pos]) {
        blank_run_end(s, pos + 1)
    } else {
        pos
    }
}

/// End of the maximal run of ordinary characters that starts at `pos`.
pub open spec fn ordinary_run_end(s: Seq<char>, pos: int) -> int
    decreases s.len() - pos,
    when 0 <= pos <= s.len()
{
    if pos < s.len() && is_ordinary_char(s[pos]) {
        ordinary_run_end(s, pos + 1)
    } else {
        pos
    }
}

pub proof fn lemma_digit_run_end(s: Seq<char>, pos: int)
    requires
        0 <= pos <= s.len(),
    ensures
        pos <= digit_run_end(s, pos) <= s.len(),
        forall|j: int| pos <= j < digit_run_end(s, pos) ==> is_digit_char(#[trigger] s[j]),
        digit_run_end(s, pos) < s.len() ==> !is_digit_char(s[digit_run_end(s, pos)]),
    decreases s.len() - pos,
{
    if pos < s.len() && is_digit_char(s[pos]) {
        lemma_digit_run_end(s, pos + 1);
    }
}

pub proof fn lemma_blank_run_end(s: Seq<char>, pos: int)
    requires
        0 <= pos <= s.len(),
    ensures
        pos <= blank_run_end(s, pos) <= s.len(),
        forall|j: int| pos <= j < blank_run_end(s, pos) ==> is_blank_char(#[trigger] s[j]),
        blank_run_end(s, pos) < s.len() ==> !is_blank_char(s[blank_run_end(s, pos)]),
    decreases s.len() - pos,
{
    if pos < s.len() && is_blank_char(s[pos]) {
        lemma_blank_run_end(s, pos + 1);
    }
}

pub proof fn lemma_ordinary_run_end(s: Seq<char>, pos: int)
    requires
        0 <= pos <= s.len(),
    ensures
        pos <= ordinary_run_end(s, pos) <= s.len(),
        forall|j: int| pos <= j < ordinary_run_end(s, pos) ==> is_ordinary_char(#[trigger] s[j]),
        ordinary_run_end(s, pos) < s.len() ==> !is_ordinary_char(s[ordinary_run_end(s, pos)]),
    decreases s.len() - pos,
{
    if pos < s.len() && is_ordinary_char(s[pos]) {
        lemma_ordinary_run_end(s, pos + 1);
    }
}

/// The scan starting at `pos` reaches the end of the input without meeting a
/// dangling escape. This is the exact success condition of `tokenize_re`.
pub open spec fn scan_ok(s: Seq<char>, pos: int) -> bool
    decreases s.len() - pos,
    when 0 <= pos <= s.len()
    via scan_ok_decreases
{
    if pos >= s.len() {
        true
    } else if s[pos] == '\\' {
        pos + 1 < s.len() && scan_ok(s, pos + 2)
    } else if is_structural_char(s[pos]) {
        scan_ok(s, pos + 1)
    } else if is_digit_char(s[pos]) {
        scan_ok(s, digit_run_end(s, pos))
    } else if is_blank_char(s[pos]) {
        scan_ok(s, blank_run_end(s, pos))
    } else {
        scan_ok(s, ordinary_run_end(s, pos))
    }
}

#[via_fn]
proof fn scan_ok_decreases(s: Seq<char>, pos: int) {
    if 0 <= pos && pos < s.len() {
        if s[pos] == '\\' || is_structural_char(s[pos]) {
        } else if is_digit_char(s[pos]) {
            lemma_digit_run_end(s, pos + 1);
        } else if is_blank_char(s[pos]) {
            lemma_blank_run_end(s, pos + 1);
        } else {
            lemma_ordinary_run_end(s, pos + 1);
        }
    }
}

/// The token covers exactly the characters its span says, with the right
/// classification, and runs are maximal to the right.
pub open spec fn token_matches(s: Seq<char>, t: LexReToken) -> bool {
    let sp = token_span(t);
    &&& sp.start < sp.end <= s.len()
    &&& match t {
        LexReToken::Coron(_) => sp.end == sp.start + 1 && s[sp.start as int] == ':',
        LexReToken::Equal(_) => sp.end == sp.start + 1 && s[sp.start as int] == '=',
        LexReToken::Dot(_) => sp.end == sp.start + 1 && s[sp.start as int] == '.',
        LexReToken::Slash(_) => sp.end == sp.start + 1 && s[sp.start as int] == '/',
        LexReToken::Escaped(_) => sp.end == sp.start + 2 && s[sp.start as int] == '\\',
        LexReToken::OpenBracket(_) => sp.end == sp.start + 1 && s[sp.start as int] == '[',
        LexReToken::CloseBracket(_) => sp.end == sp.start + 1 && s[sp.start as int] == ']',
        LexReToken::DoubleQuote(_) => sp.end == sp.start + 1 && s[sp.start as int] == '"',
        LexReToken::OpenGroup(_) => sp.end == sp.start + 1 && s[sp.start as int] == '(',
        LexReToken::CloseGroup(_) => sp.end == sp.start + 1 && s[sp.start as int] == ')',
        LexReToken::OpenBrace(_) => sp.end == sp.start + 1 && s[sp.start as int] == '{',
        LexReToken::CloseBrace(_) => sp.end == sp.start + 1 && s[sp.start as int] == '}',
        LexReToken::Question(_) => sp.end == sp.start + 1 && s[sp.start as int] == '?',
        LexReToken::Star(_) => sp.end == sp.start + 1 && s[sp.start as int] == '*',
        LexReToken::Plus(_) => sp.end == sp.start + 1 && s[sp.start as int] == '+',
        LexReToken::Pipe(_) => sp.end == sp.start + 1 && s[sp.start as int] == '|',
        LexReToken::Comma(_) => sp.end == sp.start + 1 && s[sp.start as int] == ',',
        LexReToken::Hyphen(_) => sp.end == sp.start + 1 && s[sp.start as int] == '-',
        LexReToken::Blank(_) => (forall|j: int|
            sp.start <= j < sp.end ==> is_blank_char(#[trigger] s[j])) && (sp.end < s.len()
            ==> !is_blank_char(s[sp.end as int])),
        LexReToken::Digits(_) => (forall|j: int|
            sp.start <= j < sp.end ==> is_digit_char(#[trigger] s[j])) && (sp.end < s.len()
            ==> !is_digit_char(s[sp.end as int])),
        LexReToken::Characters(_) => (forall|j: int|
            sp.start <= j < sp.end ==> is_ordinary_char(#[trigger] s[j])) && (sp.end < s.len()
            ==> !is_ordinary_char(s[sp.end as int])),
    }
}

/// Consecutive token spans are adjacent and together cover `[0, n)` exactly:
/// no gaps, no overlaps. The concatenation of the denoted substrings is the
/// whole input.
pub open spec fn tokens_partition(toks: Seq<LexReToken>, n: int) -> bool {
    &&& (toks.len() == 0 ==> n == 0)
    &&& (toks.len() > 0 ==> token_span(toks[0]).start == 0 && token_span(
        toks[toks.len() - 1],
    ).end == n)
    &&& (forall|i: int|
        0 <= i && i + 1 < toks.len() ==> token_span(#[trigger] toks[i]).end == token_span(
            toks[i + 1],
        ).start)
}

pub fn is_structural(c: char) -> (r: bool)
    ensures
        r == is_structural_char(c),
{
    match c {
        ':' | '=' | '.' | '/' | '[' | ']' | '"' | '(' | ')' | '{' | '}' | '?' | '*' | '+' | '|'
            | ',' | '-' => true,
        _ => false,
    }
}

pub fn is_digit(c: char) -> (r: bool)
    ensures
        r == is_digit_char(c),
{
    let u = c as u32;
    48 <= u && u <= 57
}

pub fn is_blank(c: char) -> (r: bool)
    ensures
        r == is_blank_char(c),
{
    let u = c as u32;
    u == 32 || u == 9 || u == 10 || u == 11 || u == 12 || u == 13
}

pub fn is_ordinary(c: char) -> (r: bool)
    ensures
        r == is_ordinary_char(c),
{
    !is_structural(c) && !is_digit(c) && !is_blank(c) && c != '\\'
}

/// The token a structural character becomes.
pub open spec fn spec_structural_token(c: char, sp: Span) -> LexReToken {
    if c == ':' {
        LexReToken::Coron(sp)
    } else if c == '=' {
        LexReToken::Equal(sp)
    } else if c == '.' {
        LexReToken::Dot(sp)
    } else if c == '/' {
        LexReToken::Slash(sp)
    } else if c == '[' {
        LexReToken::OpenBracket(sp)
    } else if c == ']' {
        LexReToken::CloseBracket(sp)
    } else if c == '"' {
        LexReToken::DoubleQuote(sp)
    } else if c == '(' {
        LexReToken::OpenGroup(sp)
    } else if c == ')' {
        LexReToken::CloseGroup(sp)
    } else if c == '{' {
        LexReToken::OpenBrace(sp)
    } else if c == '}' {
        LexReToken::CloseBrace(sp)
    } else if c == '?' {
        LexReToken::Question(sp)
    } else if c == '*' {
        LexReToken::Star(sp)
    } else if c == '+' {
        LexReToken::Plus(sp)
    } else if c == ',' {
        LexReToken::Comma(sp)
    } else {
        LexReToken::Pipe(sp)
    }
}

fn structural_token(c: char, sp: Span) -> (t: LexReToken)
    requires
        is_structural_char(c),
        c != '-',
    ensures
        t == spec_structural_token(c, sp),
        token_span(t) == sp,
{
    match c {
        ':' => LexReToken::Coron(sp),
        '=' => LexReToken::Equal(sp),
        '.' => LexReToken::Dot(sp),
        '/' => LexReToken::Slash(sp),
        '[' => LexReToken::OpenBracket(sp),
        ']' => LexReToken::CloseBracket(sp),
        '"' => LexReToken::DoubleQuote(sp),
        '(' => LexReToken::OpenGroup(sp),
        ')' => LexReToken::CloseGroup(sp),
        '{' => LexReToken::OpenBrace(sp),
        '}' => LexReToken::CloseBrace(sp),
        '?' => LexReToken::Question(sp),
        '*' => LexReToken::Star(sp),
        '+' => LexReToken::Plus(sp),
        ',' => LexReToken::Comma(sp),
        _ => LexReToken::Pipe(sp),
    }
}

/// Lex one rule's regex text into its token stream.
///
/// On success the token spans are strictly increasing, partition the input
/// exactly, and each token's characters carry its classification, runs being
/// maximal. The one failure is a backslash standing as the final character;
/// `scan_ok` states exactly when that happens.
pub fn tokenize_re(input: &Vec<char>) -> (r: Result<Vec<LexReToken>, TokenizeError>)
    ensures
        match r {
            Ok(toks) => {
                &&& scan_ok(input@, 0)
                &&& tokens_partition(toks@, input@.len() as int)
                &&& forall|i: int|
                    0 <= i < toks@.len() ==> token_matches(input@, #[trigger] toks@[i])
            },
            Err(TokenizeError::DanglingEscape(sp)) => {
                &&& !scan_ok(input@, 0)
                &&& sp.start + 1 == sp.end
                &&& sp.end == input@.len()
                &&& input@[sp.start as int] == '\\'
            },
        },
{
    let ghost s = input@;
    let n = input.len();
    let mut toks: Vec<LexReToken> = Vec::new();
    let mut i: usize = 0;
    while i < n
        invariant
            n == s.len(),
            s == input@,
            i <= n,
            scan_ok(s, 0) == scan_ok(s, i as int),
            toks@.len() == 0 ==> i == 0,
            toks@.len() > 0 ==> token_span(toks@[0]).start == 0 && token_span(
                toks@[toks@.len() - 1],
            ).end == i,
            forall|k: int| 0 <= k < toks@.len() ==> token_matches(s, #[trigger] toks@[k]),
            forall|k: int|
                0 <= k && k + 1 < toks@.len() ==> token_span(#[trigger] toks@[k]).end
                    == token_span(toks@[k + 1]).start,
        decreases n - i,
    {
        let c = input[i];
        if c == '\\' {
            if i + 1 < n {
                toks.push(LexReToken::Escaped(Span::new(i, i + 2)));
                i = i + 2;
            } else {
                assert(!scan_ok(s, i as int));
                return Err(TokenizeError::DanglingEscape(Span::new(i, i + 1)));
            }
        } else if c == '-' {
            toks.push(LexReToken::Hyphen(Span::new(i, i + 1)));
            i = i + 1;
        } else if is_structural(c) {
            let t = structural_token(c, Span::new(i, i + 1));
            assert(token_matches(s, t));
            toks.push(t);
            i = i + 1;
        } else if is_digit(c) {
            let start = i;
            let mut j = i + 1;
            assert(digit_run_end(s, start as int) == digit_run_end(s, j as int));
            while j < n && is_digit(input[j])
                invariant
                    n == s.len(),
                    s == input@,
                    start < j <= n,
                    forall|k: int| start <= k < j ==> is_digit_char(#[trigger] s[k]),
                    digit_run_end(s, start as int) == digit_run_end(s, j as int),
                decreases n - j,
            {
                assert(digit_run_end(s, j as int) == digit_run_end(s, j as int + 1));
                j = j + 1;
            }
            proof {
                lemma_digit_run_end(s, j as int);
                assert(digit_run_end(s, start as int) == j as int);
            }
            toks.push(LexReToken::Digits(Span::new(start, j)));
            i = j;
        } else if is_blank(c) {
            let start = i;
            let mut j = i + 1;
            assert(blank_run_end(s, start as int) == blank_run_end(s, j as int));
            while j < n && is_blank(input[j])
                invariant
                    n == s.len(),
                    s == input@,
                    start < j <= n,
                    forall|k: int| start <= k < j ==> is_blank_char(#[trigger] s[k]),
                    blank_run_end(s, start as int) == blank_run_end(s, j as int),
                decreases n - j,
            {
                assert(blank_run_end(s, j as int) == blank_run_end(s, j as int + 1));
                j = j + 1;
            }
            proof {
                lemma_blank_run_end(s, j as int);
                assert(blank_run_end(s, start as int) == j as int);
            }
            toks.push(LexReToken::Blank(Span::new(start, j)));
            i = j;
        } else {
            let start = i;
            let mut j = i + 1;
            assert(is_ordinary_char(s[start as int]));
            assert(ordinary_run_end(s, start as int) == ordinary_run_end(s, j as int));
            while j < n && is_ordinary(input[j])
                invariant
                    n == s.len(),
                    s == input@,
                    start < j <= n,
                    forall|k: int| start <= k < j ==> is_ordinary_char(#[trigger] s[k]),
                    ordinary_run_end(s, start as int) == ordinary_run_end(s, j as int),
                decreases n - j,
            {
                assert(ordinary_run_end(s, j as int) == ordinary_run_end(s, j as int + 1));
                j = j + 1;
            }
            proof {
                lemma_ordinary_run_end(s, j as int);
                assert(ordinary_run_end(s, start as int) == j as int);
            }
            toks.push(LexReToken::Characters(Span::new(start, j)));
            i = j;
        }
    }
    Ok(toks)
}

} // verus!
