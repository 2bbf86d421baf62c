//! The lexer: a total, non-panicking scanner from a source file's text to a
//! sequence of located tokens.
//!
//! Scanning is greedy and single-pass: each step classifies the first
//! remaining character and consumes a maximal run for it. Every token's
//! behaviour is pinned by [`spec_scan`], a mathematical scanner over the
//! text, and [`tokenize`] returns exactly the whitespace-filtered token
//! sequence that the specification describes.

use vstd::prelude::*;

use crate::source::{
    bytes_of, char_idx_at, char_width, lemma_bytes_of_subrange, lemma_bytes_of_take_all,
    lemma_bytes_of_take_mono, lemma_bytes_of_take_succ, lemma_char_boundary_unique,
    string_from_chars, SourceFile, SourceMap, Span,
};

verus! {

/// Whether `c` has the Unicode `XID_Start` derived property.
pub uninterp spec fn xid_start(c: char) -> bool;

/// Whether `c` has the Unicode `XID_Continue` derived property.
pub uninterp spec fn xid_continue(c: char) -> bool;

/// Whether `c` has the Unicode `White_Space` property.
pub uninterp spec fn unicode_whitespace(c: char) -> bool;

/// Relies on `unicode_xid::UnicodeXID::is_xid_start`: a pure table lookup of
/// the `XID_Start` property, a function of the character alone.
#[verifier::external_body]
fn char_is_xid_start(c: char) -> (r: bool)
    ensures
        r == xid_start(c),
{
    unicode_xid::UnicodeXID::is_xid_start(c)
}

/// Relies on `unicode_xid::UnicodeXID::is_xid_continue`: a pure table lookup
/// of the `XID_Continue` property, a function of the character alone.
#[verifier::external_body]
fn char_is_xid_continue(c: char) -> (r: bool)
    ensures
        r == xid_continue(c),
{
    unicode_xid::UnicodeXID::is_xid_continue(c)
}

/// Relies on `char::is_whitespace`: the `White_Space` property of the
/// character, a function of the character alone.
#[verifier::external_body]
fn char_is_whitespace(c: char) -> (r: bool)
    ensures
        r == unicode_whitespace(c),
{
    c.is_whitespace()
}

/// A character that may start an identifier: an underscore or `XID_Start`.
pub open spec fn spec_is_id_start(c: char) -> bool {
    c == '_' || xid_start(c)
}

/// A character that may continue an identifier: `XID_Continue`.
pub open spec fn spec_is_id_continue(c: char) -> bool {
    xid_continue(c)
}

/// A punctuation or operator character the lexer recognizes: exactly the
/// characters that can start a token other than whitespace, an identifier or
/// a number. A run of unrecognized characters stops before any of them.
pub open spec fn spec_is_punct(c: char) -> bool {
    ||| c == '"'
    ||| c == '/'
    ||| c == '|'
    ||| c == ','
    ||| c == ':'
    ||| c == ';'
    ||| c == '('
    ||| c == '['
    ||| c == '{'
    ||| c == ')'
    ||| c == ']'
    ||| c == '}'
    ||| c == '+'
    ||| c == '-'
    ||| c == '*'
    ||| c == '='
    ||| c == '.'
    ||| c == '%'
}

/// A character that belongs to an unrecognized run: neither whitespace, nor
/// an identifier character, nor recognized punctuation.
pub open spec fn spec_is_unknown(c: char) -> bool {
    !(unicode_whitespace(c) || xid_continue(c) || spec_is_punct(c))
}

pub fn is_id_start(c: char) -> (r: bool)
    ensures
        r == spec_is_id_start(c),
{
    c == '_' || char_is_xid_start(c)
}

pub fn is_id_continue(c: char) -> (r: bool)
    ensures
        r == spec_is_id_continue(c),
{
    char_is_xid_continue(c)
}

fn is_punct(c: char) -> (r: bool)
    ensures
        r == spec_is_punct(c),
{
    c == '"' || c == '/' || c == '|' || c == ',' || c == ':' || c == ';' || c == '(' || c == '['
        || c == '{' || c == ')' || c == ']' || c == '}' || c == '+' || c == '-' || c == '*' || c
        == '=' || c == '.' || c == '%'
}

pub fn is_unknown(c: char) -> (r: bool)
    ensures
        r == spec_is_unknown(c),
{
    !(char_is_whitespace(c) || char_is_xid_continue(c) || is_punct(c))
}

/// The kind of a paired delimiter.
#[derive(Debug, Clone, Copy, PartialEq, Eq, Structural)]
pub enum DelimKind {
    Paren,
    Bracket,
    Brace,
}

/// A fixed operator token.
#[derive(Debug, Clone, Copy, PartialEq, Eq, Structural)]
pub enum Operator {
    Dot,
    Arrow,
    FatArrow,
    Equals,
    Plus,
    Minus,
    Div,
    Mul,
    Percent,
}

/// Why an integer literal failed to decode.
#[derive(Debug, Clone, Copy, PartialEq, Eq, Structural)]
pub enum ParseIntError {
    /// The literal has a base prefix but no digits.
    Empty,
    /// The literal's value does not fit a signed 64-bit integer.
    Overflow,
    /// The run holds a character that is no digit of the chosen base.
    InvalidDigit(char, u32),
}

/// The payload of a token.
#[derive(Debug)]
pub enum TokenInner {
    StringLiteral { contents: String, unclosed: bool },
    IntLiteral(Result<i64, ParseIntError>),
    Identifier(String),
    OpenDelim(DelimKind),
    CloseDelim(DelimKind),
    Pipe,
    Comma,
    Colon,
    Semicolon,
    Whitespace,
    Operator(Operator),
    Comment(String),
    Unrecognized,
}

/// The mathematical shape of a token payload: as [`TokenInner`], with text
/// payloads as character sequences.
pub enum Lexeme {
    StringLiteral { contents: Seq<char>, unclosed: bool },
    IntLiteral(Result<i64, ParseIntError>),
    Identifier(Seq<char>),
    OpenDelim(DelimKind),
    CloseDelim(DelimKind),
    Pipe,
    Comma,
    Colon,
    Semicolon,
    Whitespace,
    Operator(Operator),
    Comment(Seq<char>),
    Unrecognized,
}

impl View for TokenInner {
    type V = Lexeme;

    open spec fn view(&self) -> Lexeme {
        match self {
            TokenInner::StringLiteral { contents, unclosed } => Lexeme::StringLiteral {
                contents: contents@,
                unclosed: *unclosed,
            },
            TokenInner::IntLiteral(r) => Lexeme::IntLiteral(*r),
            TokenInner::Identifier(s) => Lexeme::Identifier(s@),
            TokenInner::OpenDelim(d) => Lexeme::OpenDelim(*d),
            TokenInner::CloseDelim(d) => Lexeme::CloseDelim(*d),
            TokenInner::Pipe => Lexeme::Pipe,
            TokenInner::Comma => Lexeme::Comma,
            TokenInner::Colon => Lexeme::Colon,
            TokenInner::Semicolon => Lexeme::Semicolon,
            TokenInner::Whitespace => Lexeme::Whitespace,
            TokenInner::Operator(o) => Lexeme::Operator(*o),
            TokenInner::Comment(s) => Lexeme::Comment(s@),
            TokenInner::Unrecognized => Lexeme::Unrecognized,
        }
    }
}

/// Index just past the maximal run of whitespace characters starting at `i`.
pub open spec fn ws_run_end(s: Seq<char>, i: int) -> int
    decreases s.len() - i,
{
    if 0 <= i < s.len() && unicode_whitespace(s[i]) {
        ws_run_end(s, i + 1)
    } else {
        i
    }
}

/// Index just past the maximal run of identifier-continue characters
/// starting at `i`.
pub open spec fn id_run_end(s: Seq<char>, i: int) -> int
    decreases s.len() - i,
{
    if 0 <= i < s.len() && spec_is_id_continue(s[i]) {
        id_run_end(s, i + 1)
    } else {
        i
    }
}

/// Index just past the maximal run of digits of base `base` and underscores
/// starting at `i`.
pub open spec fn digit_run_end(s: Seq<char>, i: int, base: u32) -> int
    decreases s.len() - i,
{
    if 0 <= i < s.len() && (s[i] == '_' || spec_is_digit(s[i], base)) {
        digit_run_end(s, i + 1, base)
    } else {
        i
    }
}

/// Index of the next newline at or after `i`, or the text's end.
pub open spec fn line_run_end(s: Seq<char>, i: int) -> int
    decreases s.len() - i,
{
    if 0 <= i < s.len() && s[i] != '\n' {
        line_run_end(s, i + 1)
    } else {
        i
    }
}

/// Index just past the maximal run of unrecognized characters starting at `i`.
pub open spec fn unknown_run_end(s: Seq<char>, i: int) -> int
    decreases s.len() - i,
{
    if 0 <= i < s.len() && spec_is_unknown(s[i]) {
        unknown_run_end(s, i + 1)
    } else {
        i
    }
}

/// Value of `c` as a digit of base `base`, or -1 when it is none: `0`-`9`
/// count for their value, `a`-`f` and `A`-`F` for ten to fifteen, each only
/// where the value is below the base.
pub open spec fn spec_digit_val(c: char, base: u32) -> int {
    let v: int = if '0' <= c && c <= '9' {
        c as u32 - '0' as u32
    } else if 'a' <= c && c <= 'f' {
        c as u32 - 'a' as u32 + 10
    } else if 'A' <= c && c <= 'F' {
        c as u32 - 'A' as u32 + 10
    } else {
        -1
    };
    if 0 <= v < base {
        v
    } else {
        -1
    }
}

/// Whether `c` is a digit of base `base`.
pub open spec fn spec_is_digit(c: char, base: u32) -> bool {
    spec_digit_val(c, base) >= 0
}

/// Value of `c` as a digit of base `base`, when it is one.
pub fn digit_val(c: char, base: u32) -> (r: Option<u32>)
    ensures
        match r {
            Some(v) => spec_digit_val(c, base) == v,
            None => spec_digit_val(c, base) == -1,
        },
{
    let v: u32 = if '0' <= c && c <= '9' {
        c as u32 - '0' as u32
    } else if 'a' <= c && c <= 'f' {
        c as u32 - 'a' as u32 + 10
    } else if 'A' <= c && c <= 'F' {
        c as u32 - 'A' as u32 + 10
    } else {
        return None;
    };
    if v < base {
        Some(v)
    } else {
        None
    }
}

/// The integer value of the digit characters `ds` read in base `base`, most
/// significant digit first, underscores skipped.
pub open spec fn fold_digits(ds: Seq<char>, base: u32) -> int
    decreases ds.len(),
{
    if ds.len() == 0 {
        0
    } else if ds.last() == '_' {
        fold_digits(ds.drop_last(), base)
    } else {
        fold_digits(ds.drop_last(), base) * base + spec_digit_val(ds.last(), base)
    }
}

/// How many characters of `ds` are not underscores.
pub open spec fn count_digits(ds: Seq<char>) -> int
    decreases ds.len(),
{
    if ds.len() == 0 {
        0
    } else {
        count_digits(ds.drop_last()) + if ds.last() == '_' {
            0int
        } else {
            1int
        }
    }
}

/// The outcome of scanning a numeric literal whose first digit sits at `i`:
/// the decoded value or the failure reason, and the index just past the
/// consumed run.
///
/// A leading `0b`/`0o`/`0x` fixes the base to 2/8/16; otherwise the base is
/// 10 and the first digit belongs to the value. The consumed run extends
/// over digits of the base and underscores; an identifier-continue character
/// ending that run poisons the whole identifier-like run as one invalid
/// literal. A prefixed literal with no digits is empty; a folded value past
/// `i64::MAX` is an overflow.
pub open spec fn scan_number(s: Seq<char>, i: int) -> (Result<i64, ParseIntError>, int) {
    let base = number_base(s, i);
    let k = number_digits_end(s, i);
    if k < s.len() && spec_is_id_continue(s[k]) {
        (Err(ParseIntError::InvalidDigit(s[k], base)), id_run_end(s, k))
    } else {
        number_fold_result(s, number_digits_start(s, i), k, base)
    }
}

/// Whether the literal whose first digit sits at `i` carries a `0b`/`0o`/`0x`
/// base prefix.
pub open spec fn number_prefixed(s: Seq<char>, i: int) -> bool {
    s[i] == '0' && i + 1 < s.len() && (s[i + 1] == 'b' || s[i + 1] == 'o' || s[i + 1] == 'x')
}

/// The base the literal at `i` selects: 2, 8 or 16 from a prefix, else 10.
pub open spec fn number_base(s: Seq<char>, i: int) -> u32 {
    if !number_prefixed(s, i) {
        10
    } else if s[i + 1] == 'b' {
        2
    } else if s[i + 1] == 'o' {
        8
    } else {
        16
    }
}

/// Index of the first character that belongs to the literal's digit run:
/// past the prefix, or the first digit itself when there is none.
pub open spec fn number_digits_start(s: Seq<char>, i: int) -> int {
    if number_prefixed(s, i) {
        i + 2
    } else {
        i
    }
}

/// Index just past the literal's run of digits and underscores.
pub open spec fn number_digits_end(s: Seq<char>, i: int) -> int {
    digit_run_end(
        s,
        if number_prefixed(s, i) {
            i + 2
        } else {
            i + 1
        },
        number_base(s, i),
    )
}

/// The decoded value of the digit run `[d0, k)` of `s` in base `base`, or
/// why it has none, paired with `k`.
pub open spec fn number_fold_result(s: Seq<char>, d0: int, k: int, base: u32) -> (Result<
    i64,
    ParseIntError,
>, int) {
    let ds = s.subrange(d0, k);
    if count_digits(ds) == 0 {
        (Err(ParseIntError::Empty), k)
    } else if fold_digits(ds, base) > i64::MAX {
        (Err(ParseIntError::Overflow), k)
    } else {
        (Ok(fold_digits(ds, base) as i64), k)
    }
}

/// Index just past the quote closing the string body that starts at `k`, or
/// -1 when no unescaped quote closes it. `\"` and `\\` are two-character
/// escapes that do not terminate the literal.
pub open spec fn string_close(s: Seq<char>, k: int) -> int
    decreases s.len() - k,
{
    if k < 0 || k >= s.len() {
        -1
    } else if s[k] == '"' {
        k + 1
    } else if s[k] == '\\' && k + 1 < s.len() && (s[k + 1] == '\\' || s[k + 1] == '"') {
        string_close(s, k + 2)
    } else {
        string_close(s, k + 1)
    }
}

/// A found closing quote lies past the body's start and within the text.
pub proof fn lemma_string_close(s: Seq<char>, k: int)
    requires
        0 <= k <= s.len(),
    ensures
        string_close(s, k) == -1 || (k < string_close(s, k) <= s.len()),
    decreases s.len() - k,
{
    if k < s.len() {
        if s[k] == '"' {
        } else if s[k] == '\\' && k + 1 < s.len() && (s[k + 1] == '\\' || s[k + 1] == '"') {
            lemma_string_close(s, k + 2);
        } else {
            lemma_string_close(s, k + 1);
        }
    }
}

/// The outcome of scanning a string literal whose opening quote sits at `i`:
/// the contents between the quotes if an unescaped quote closes it.
/// Otherwise the literal is unclosed: its contents run to the end of the
/// line (or of the text), and scanning resumes there.
pub open spec fn scan_string(s: Seq<char>, i: int) -> (Lexeme, int) {
    let c = string_close(s, i + 1);
    if c >= 0 {
        (Lexeme::StringLiteral { contents: s.subrange(i + 1, c - 1), unclosed: false }, c)
    } else {
        let j = line_run_end(s, i + 1);
        (Lexeme::StringLiteral { contents: s.subrange(i + 1, j), unclosed: true }, j)
    }
}

/// The token starting at position `i` of text `s`, and the index just past
/// it: the mathematical model of one step of the lexer.
///
/// Classification is greedy on the first character: whitespace, identifier,
/// numeric literal, string literal, comment or division, fixed punctuation,
/// the two-character arrows, and otherwise a maximal unrecognized run.
pub open spec fn spec_scan(s: Seq<char>, i: int) -> (Lexeme, int) {
    let c = s[i];
    if unicode_whitespace(c) {
        (Lexeme::Whitespace, ws_run_end(s, i + 1))
    } else if spec_is_id_start(c) {
        let j = id_run_end(s, i + 1);
        (Lexeme::Identifier(s.subrange(i, j)), j)
    } else if '0' <= c && c <= '9' {
        let r = scan_number(s, i);
        (Lexeme::IntLiteral(r.0), r.1)
    } else if c == '"' {
        scan_string(s, i)
    } else if c == '/' {
        if i + 1 < s.len() && s[i + 1] == '/' {
            let j = line_run_end(s, i + 2);
            (Lexeme::Comment(s.subrange(i + 2, j)), j)
        } else {
            (Lexeme::Operator(Operator::Div), i + 1)
        }
    } else if c == '|' {
        (Lexeme::Pipe, i + 1)
    } else if c == ',' {
        (Lexeme::Comma, i + 1)
    } else if c == ':' {
        (Lexeme::Colon, i + 1)
    } else if c == ';' {
        (Lexeme::Semicolon, i + 1)
    } else if c == '(' {
        (Lexeme::OpenDelim(DelimKind::Paren), i + 1)
    } else if c == '[' {
        (Lexeme::OpenDelim(DelimKind::Bracket), i + 1)
    } else if c == '{' {
        (Lexeme::OpenDelim(DelimKind::Brace), i + 1)
    } else if c == ')' {
        (Lexeme::CloseDelim(DelimKind::Paren), i + 1)
    } else if c == ']' {
        (Lexeme::CloseDelim(DelimKind::Bracket), i + 1)
    } else if c == '}' {
        (Lexeme::CloseDelim(DelimKind::Brace), i + 1)
    } else if c == '+' {
        (Lexeme::Operator(Operator::Plus), i + 1)
    } else if c == '-' {
        if i + 1 < s.len() && s[i + 1] == '>' {
            (Lexeme::Operator(Operator::Arrow), i + 2)
        } else {
            (Lexeme::Operator(Operator::Minus), i + 1)
        }
    } else if c == '*' {
        (Lexeme::Operator(Operator::Mul), i + 1)
    } else if c == '=' {
        if i + 1 < s.len() && s[i + 1] == '>' {
            (Lexeme::Operator(Operator::FatArrow), i + 2)
        } else {
            (Lexeme::Operator(Operator::Equals), i + 1)
        }
    } else if c == '.' {
        (Lexeme::Operator(Operator::Dot), i + 1)
    } else if c == '%' {
        (Lexeme::Operator(Operator::Percent), i + 1)
    } else {
        (Lexeme::Unrecognized, unknown_run_end(s, i + 1))
    }
}

/// The whitespace run covers whitespace only, maximally.
pub proof fn lemma_ws_run_end(s: Seq<char>, i: int)
    requires
        0 <= i <= s.len(),
    ensures
        i <= ws_run_end(s, i) <= s.len(),
        forall|k: int| i <= k < ws_run_end(s, i) ==> unicode_whitespace(s[k]),
        ws_run_end(s, i) < s.len() ==> !unicode_whitespace(s[ws_run_end(s, i)]),
    decreases s.len() - i,
{
    if i < s.len() && unicode_whitespace(s[i]) {
        lemma_ws_run_end(s, i + 1);
    }
}

/// The index where whitespace stops is the whitespace run's end.
pub proof fn lemma_ws_run_end_is(s: Seq<char>, i: int, j: int)
    requires
        0 <= i <= j <= s.len(),
        forall|k: int| i <= k < j ==> unicode_whitespace(s[k]),
        j == s.len() || !unicode_whitespace(s[j]),
    ensures
        ws_run_end(s, i) == j,
    decreases j - i,
{
    if i < j {
        lemma_ws_run_end_is(s, i + 1, j);
    }
}

/// The identifier run covers identifier-continue characters only, maximally.
pub proof fn lemma_id_run_end(s: Seq<char>, i: int)
    requires
        0 <= i <= s.len(),
    ensures
        i <= id_run_end(s, i) <= s.len(),
        forall|k: int| i <= k < id_run_end(s, i) ==> spec_is_id_continue(s[k]),
        id_run_end(s, i) < s.len() ==> !spec_is_id_continue(s[id_run_end(s, i)]),
    decreases s.len() - i,
{
    if i < s.len() && spec_is_id_continue(s[i]) {
        lemma_id_run_end(s, i + 1);
    }
}

/// The index where identifier-continue characters stop is the identifier
/// run's end.
pub proof fn lemma_id_run_end_is(s: Seq<char>, i: int, j: int)
    requires
        0 <= i <= j <= s.len(),
        forall|k: int| i <= k < j ==> spec_is_id_continue(s[k]),
        j == s.len() || !spec_is_id_continue(s[j]),
    ensures
        id_run_end(s, i) == j,
    decreases j - i,
{
    if i < j {
        lemma_id_run_end_is(s, i + 1, j);
    }
}

/// The digit run covers digits of the base and underscores only, maximally.
pub proof fn lemma_digit_run_end(s: Seq<char>, i: int, base: u32)
    requires
        0 <= i <= s.len(),
    ensures
        i <= digit_run_end(s, i, base) <= s.len(),
        forall|k: int|
            i <= k < digit_run_end(s, i, base) ==> (s[k] == '_' || spec_is_digit(s[k], base)),
        digit_run_end(s, i, base) < s.len() ==> !(s[digit_run_end(s, i, base)] == '_'
            || spec_is_digit(s[digit_run_end(s, i, base)], base)),
    decreases s.len() - i,
{
    if i < s.len() && (s[i] == '_' || spec_is_digit(s[i], base)) {
        lemma_digit_run_end(s, i + 1, base);
    }
}

/// The index where digits and underscores stop is the digit run's end.
pub proof fn lemma_digit_run_end_is(s: Seq<char>, i: int, j: int, base: u32)
    requires
        0 <= i <= j <= s.len(),
        forall|k: int| i <= k < j ==> (s[k] == '_' || spec_is_digit(s[k], base)),
        j == s.len() || !(s[j] == '_' || spec_is_digit(s[j], base)),
    ensures
        digit_run_end(s, i, base) == j,
    decreases j - i,
{
    if i < j {
        lemma_digit_run_end_is(s, i + 1, j, base);
    }
}

/// The line run covers everything up to the next newline, maximally.
pub proof fn lemma_line_run_end(s: Seq<char>, i: int)
    requires
        0 <= i <= s.len(),
    ensures
        i <= line_run_end(s, i) <= s.len(),
        forall|k: int| i <= k < line_run_end(s, i) ==> s[k] != '\n',
        line_run_end(s, i) < s.len() ==> s[line_run_end(s, i)] == '\n',
    decreases s.len() - i,
{
    if i < s.len() && s[i] != '\n' {
        lemma_line_run_end(s, i + 1);
    }
}

/// The index of the next newline (or the text's end) is the line run's end.
pub proof fn lemma_line_run_end_is(s: Seq<char>, i: int, j: int)
    requires
        0 <= i <= j <= s.len(),
        forall|k: int| i <= k < j ==> s[k] != '\n',
        j == s.len() || s[j] == '\n',
    ensures
        line_run_end(s, i) == j,
    decreases j - i,
{
    if i < j {
        lemma_line_run_end_is(s, i + 1, j);
    }
}

/// The unrecognized run covers unrecognized characters only, maximally.
pub proof fn lemma_unknown_run_end(s: Seq<char>, i: int)
    requires
        0 <= i <= s.len(),
    ensures
        i <= unknown_run_end(s, i) <= s.len(),
        forall|k: int| i <= k < unknown_run_end(s, i) ==> spec_is_unknown(s[k]),
        unknown_run_end(s, i) < s.len() ==> !spec_is_unknown(s[unknown_run_end(s, i)]),
    decreases s.len() - i,
{
    if i < s.len() && spec_is_unknown(s[i]) {
        lemma_unknown_run_end(s, i + 1);
    }
}

/// The index where unrecognized characters stop is the unrecognized run's end.
pub proof fn lemma_unknown_run_end_is(s: Seq<char>, i: int, j: int)
    requires
        0 <= i <= j <= s.len(),
        forall|k: int| i <= k < j ==> spec_is_unknown(s[k]),
        j == s.len() || !spec_is_unknown(s[j]),
    ensures
        unknown_run_end(s, i) == j,
    decreases j - i,
{
    if i < j {
        lemma_unknown_run_end_is(s, i + 1, j);
    }
}

/// Every scan step consumes at least one character and stays within the text.
pub proof fn lemma_scan_progress(s: Seq<char>, i: int)
    requires
        0 <= i < s.len(),
    ensures
        i < spec_scan(s, i).1 <= s.len(),
{
    let c = s[i];
    if unicode_whitespace(c) {
        lemma_ws_run_end(s, i + 1);
    } else if spec_is_id_start(c) {
        lemma_id_run_end(s, i + 1);
    } else if '0' <= c && c <= '9' {
        let prefixed = s[i] == '0' && i + 1 < s.len() && (s[i + 1] == 'b' || s[i + 1] == 'o' || s[i
            + 1] == 'x');
        let base: u32 = if !prefixed {
            10
        } else if s[i + 1] == 'b' {
            2
        } else if s[i + 1] == 'o' {
            8
        } else {
            16
        };
        let run_start = if prefixed {
            i + 2
        } else {
            i + 1
        };
        lemma_digit_run_end(s, run_start, base);
        let k = digit_run_end(s, run_start, base);
        if k < s.len() && spec_is_id_continue(s[k]) {
            lemma_id_run_end(s, k);
        }
    } else if c == '"' {
        lemma_string_close(s, i + 1);
        if string_close(s, i + 1) < 0 {
            lemma_line_run_end(s, i + 1);
        }
    } else if c == '/' && i + 1 < s.len() && s[i + 1] == '/' {
        lemma_line_run_end(s, i + 2);
    } else {
        lemma_unknown_run_end(s, i + 1);
    }
}

/// A fold over digits and underscores is never negative.
pub proof fn lemma_fold_nonneg(ds: Seq<char>, base: u32)
    requires
        forall|u: int| 0 <= u < ds.len() ==> ds[u] == '_' || spec_is_digit(ds[u], base),
    ensures
        fold_digits(ds, base) >= 0,
    decreases ds.len(),
{
    if ds.len() > 0 {
        lemma_fold_nonneg(ds.drop_last(), base);
        if ds.last() != '_' {
            let f = fold_digits(ds.drop_last(), base);
            assert(f * base >= 0) by (nonlinear_arith)
                requires
                    f >= 0,
                    base >= 0,
            ;
        }
    }
}

/// A fold can only grow as more digits are appended: the fold of a prefix
/// stays at or below the fold of the whole.
pub proof fn lemma_fold_prefix_le(ds: Seq<char>, base: u32, m: int)
    requires
        2 <= base,
        0 <= m <= ds.len(),
        forall|u: int| 0 <= u < ds.len() ==> ds[u] == '_' || spec_is_digit(ds[u], base),
    ensures
        fold_digits(ds.take(m), base) <= fold_digits(ds, base),
    decreases ds.len(),
{
    if m == ds.len() {
        assert(ds.take(m) =~= ds);
    } else {
        lemma_fold_nonneg(ds.drop_last(), base);
        if ds.last() != '_' {
            let f = fold_digits(ds.drop_last(), base);
            let d = spec_digit_val(ds.last(), base);
            assert(f * base + d >= f) by (nonlinear_arith)
                requires
                    f >= 0,
                    base >= 2,
                    d >= 0,
            ;
        }
        lemma_fold_prefix_le(ds.drop_last(), base, m);
        assert(ds.take(m) =~= ds.drop_last().take(m));
    }
}

/// A run with a non-underscore character holds at least one digit.
pub proof fn lemma_count_digits_pos(ds: Seq<char>, u: int)
    requires
        0 <= u < ds.len(),
        ds[u] != '_',
    ensures
        count_digits(ds) > 0,
    decreases ds.len(),
{
    lemma_count_digits_nonneg(ds.drop_last());
    if u < ds.len() - 1 {
        lemma_count_digits_pos(ds.drop_last(), u);
    }
}

/// A count of digits is never negative.
pub proof fn lemma_count_digits_nonneg(ds: Seq<char>)
    ensures
        count_digits(ds) >= 0,
    decreases ds.len(),
{
    if ds.len() > 0 {
        lemma_count_digits_nonneg(ds.drop_last());
    }
}

/// The character for digit value `v`: `0`-`9`, then lowercase `a`-`f`.
pub open spec fn digit_char(v: int) -> char {
    if v == 0 {
        '0'
    } else if v == 1 {
        '1'
    } else if v == 2 {
        '2'
    } else if v == 3 {
        '3'
    } else if v == 4 {
        '4'
    } else if v == 5 {
        '5'
    } else if v == 6 {
        '6'
    } else if v == 7 {
        '7'
    } else if v == 8 {
        '8'
    } else if v == 9 {
        '9'
    } else if v == 10 {
        'a'
    } else if v == 11 {
        'b'
    } else if v == 12 {
        'c'
    } else if v == 13 {
        'd'
    } else if v == 14 {
        'e'
    } else if v == 15 {
        'f'
    } else {
        '?'
    }
}

/// The canonical rendering of the nonnegative value `v` in base `base`:
/// most significant digit first, lowercase, no leading zero.
pub open spec fn spec_render(v: int, base: int) -> Seq<char>
    decreases v,
        when base >= 2
    via spec_render_decreases
{
    if v < base {
        seq![digit_char(v)]
    } else {
        spec_render(v / base, base) + seq![digit_char(v % base)]
    }
}

#[via_fn]
proof fn spec_render_decreases(v: int, base: int) {
    if v >= base {
        vstd::arithmetic::div_mod::lemma_div_is_strictly_smaller(v, base);
    }
}

/// The character for digit value `v`.
pub fn digit_char_of(v: u32) -> (c: char)
    requires
        v < 16,
    ensures
        c == digit_char(v as int),
{
    if v == 0 {
        '0'
    } else if v == 1 {
        '1'
    } else if v == 2 {
        '2'
    } else if v == 3 {
        '3'
    } else if v == 4 {
        '4'
    } else if v == 5 {
        '5'
    } else if v == 6 {
        '6'
    } else if v == 7 {
        '7'
    } else if v == 8 {
        '8'
    } else if v == 9 {
        '9'
    } else if v == 10 {
        'a'
    } else if v == 11 {
        'b'
    } else if v == 12 {
        'c'
    } else if v == 13 {
        'd'
    } else if v == 14 {
        'e'
    } else {
        'f'
    }
}

/// The decimal rendering of `v`, most significant digit first.
pub fn u32_to_decimal(v: u32) -> (r: String)
    ensures
        r@ == spec_render(v as int, 10),
{
    let mut digits: Vec<char> = Vec::new();
    let mut w: u32 = v;
    proof {
        assert(spec_render(v as int, 10) =~= spec_render(w as int, 10) + digits@.reverse());
    }
    while w >= 10
        invariant
            spec_render(v as int, 10) == spec_render(w as int, 10) + digits@.reverse(),
        decreases w,
    {
        let d = w % 10;
        proof {
            let ds = digits@;
            let c = digit_char(d as int);
            assert(ds.push(c).reverse() =~= seq![c] + ds.reverse());
            assert(spec_render(w as int, 10) + ds.reverse() =~= (spec_render((w / 10) as int, 10)
                + seq![c]) + ds.reverse());
            assert((spec_render((w / 10) as int, 10) + seq![c]) + ds.reverse() =~= spec_render(
                (w / 10) as int,
                10,
            ) + ds.push(c).reverse());
        }
        digits.push(digit_char_of(d));
        w = w / 10;
    }
    proof {
        let ds = digits@;
        let c = digit_char(w as int);
        assert(ds.push(c).reverse() =~= seq![c] + ds.reverse());
        assert(spec_render(w as int, 10) + ds.reverse() =~= seq![c] + ds.reverse());
    }
    digits.push(digit_char_of(w));
    let n = digits.len();
    let mut out: Vec<char> = Vec::new();
    let mut t: usize = 0;
    while t < n
        invariant
            0 <= t <= n,
            n == digits@.len(),
            out@.len() == t,
            forall|u: int| 0 <= u < t ==> out@[u] == digits@[n - 1 - u],
        decreases n - t,
    {
        out.push(digits[n - 1 - t]);
        t = t + 1;
    }
    proof {
        assert(out@ =~= digits@.reverse());
        assert(spec_render(v as int, 10) =~= out@);
    }
    string_from_chars(&out)
}

/// Lowercase of an uppercase hex digit; every other character unchanged.
pub open spec fn lower_digit(c: char) -> char {
    if c == 'A' {
        'a'
    } else if c == 'B' {
        'b'
    } else if c == 'C' {
        'c'
    } else if c == 'D' {
        'd'
    } else if c == 'E' {
        'e'
    } else if c == 'F' {
        'f'
    } else {
        c
    }
}

/// The canonical digits of a literal's run: underscores dropped and letters
/// lowercased.
pub open spec fn clean_digits(ds: Seq<char>) -> Seq<char>
    decreases ds.len(),
{
    if ds.len() == 0 {
        Seq::empty()
    } else if ds.last() == '_' {
        clean_digits(ds.drop_last())
    } else {
        clean_digits(ds.drop_last()).push(lower_digit(ds.last()))
    }
}

/// Leading zeros removed, keeping at least one character.
pub open spec fn strip_zeros(ds: Seq<char>) -> Seq<char>
    decreases ds.len(),
{
    if ds.len() >= 2 && ds[0] == '0' {
        strip_zeros(ds.drop_first())
    } else {
        ds
    }
}

/// The canonical form of a literal's digit run: underscores dropped, letters
/// lowercased, leading zeros removed.
pub open spec fn canonical_digits(ds: Seq<char>) -> Seq<char> {
    strip_zeros(clean_digits(ds))
}

/// Lowercasing keeps a digit's value, and the digit character of that value
/// is exactly the lowercased digit.
proof fn lemma_digit_char_lower(c: char, base: u32)
    requires
        base <= 16,
        spec_digit_val(c, base) >= 0,
    ensures
        spec_digit_val(lower_digit(c), base) == spec_digit_val(c, base),
        digit_char(spec_digit_val(c, base)) == lower_digit(c),
{
    let u = c as u32;
    if '0' <= c && c <= '9' {
        if u == 48 {
            assert(c == '0');
        } else if u == 49 {
            assert(c == '1');
        } else if u == 50 {
            assert(c == '2');
        } else if u == 51 {
            assert(c == '3');
        } else if u == 52 {
            assert(c == '4');
        } else if u == 53 {
            assert(c == '5');
        } else if u == 54 {
            assert(c == '6');
        } else if u == 55 {
            assert(c == '7');
        } else if u == 56 {
            assert(c == '8');
        } else {
            assert(c == '9');
        }
    } else if 'a' <= c && c <= 'f' {
        if u == 97 {
            assert(c == 'a');
        } else if u == 98 {
            assert(c == 'b');
        } else if u == 99 {
            assert(c == 'c');
        } else if u == 100 {
            assert(c == 'd');
        } else if u == 101 {
            assert(c == 'e');
        } else {
            assert(c == 'f');
        }
    } else {
        if u == 65 {
            assert(c == 'A');
        } else if u == 66 {
            assert(c == 'B');
        } else if u == 67 {
            assert(c == 'C');
        } else if u == 68 {
            assert(c == 'D');
        } else if u == 69 {
            assert(c == 'E');
        } else {
            assert(c == 'F');
        }
    }
}

/// Cleaning a digit run keeps its value, keeps one character per digit, and
/// leaves lowercase digit characters whose digit characters are themselves.
proof fn lemma_clean_digits(ds: Seq<char>, base: u32)
    requires
        2 <= base <= 16,
        forall|u: int| 0 <= u < ds.len() ==> ds[u] == '_' || spec_is_digit(ds[u], base),
    ensures
        clean_digits(ds).len() == count_digits(ds),
        fold_digits(clean_digits(ds), base) == fold_digits(ds, base),
        forall|u: int|
            0 <= u < clean_digits(ds).len() ==> spec_digit_val(
                #[trigger] clean_digits(ds)[u],
                base,
            ) >= 0 && digit_char(spec_digit_val(clean_digits(ds)[u], base)) == clean_digits(ds)[u],
    decreases ds.len(),
{
    if ds.len() > 0 {
        lemma_clean_digits(ds.drop_last(), base);
        if ds.last() != '_' {
            lemma_digit_char_lower(ds.last(), base);
            let pre = clean_digits(ds.drop_last());
            let e = pre.push(lower_digit(ds.last()));
            assert(e.drop_last() =~= pre);
        }
    }
}

/// An all-zero digit run folds to zero.
proof fn lemma_fold_all_zeros(es: Seq<char>, base: u32)
    requires
        forall|u: int| 0 <= u < es.len() ==> spec_digit_val(#[trigger] es[u], base) == 0,
    ensures
        fold_digits(es, base) == 0,
    decreases es.len(),
{
    if es.len() > 0 {
        lemma_fold_all_zeros(es.drop_last(), base);
    }
}

/// Stripping zeros of an all-zero run keeps exactly its last character.
proof fn lemma_strip_all_zeros(es: Seq<char>)
    requires
        es.len() > 0,
        forall|u: int| 0 <= u < es.len() - 1 ==> es[u] == '0',
    ensures
        strip_zeros(es) =~= seq![es.last()],
    decreases es.len(),
{
    if es.len() >= 2 {
        assert(es[0] == '0');
        lemma_strip_all_zeros(es.drop_first());
    }
}

/// A run with a nonzero character keeps its appended digit under stripping.
proof fn lemma_strip_push(es: Seq<char>, w: int, x: char)
    requires
        0 <= w < es.len(),
        es[w] != '0',
    ensures
        strip_zeros(es.push(x)) =~= strip_zeros(es).push(x),
    decreases es.len(),
{
    if es.len() >= 2 && es[0] == '0' {
        assert(es.push(x).drop_first() =~= es.drop_first().push(x));
        lemma_strip_push(es.drop_first(), w - 1, x);
    } else {
        assert(es.push(x)[0] == es[0]);
    }
}

/// Rendering the value of a clean digit run reproduces the run, up to its
/// leading zeros.
proof fn lemma_render_digits(es: Seq<char>, base: u32)
    requires
        2 <= base <= 16,
        es.len() > 0,
        forall|u: int|
            0 <= u < es.len() ==> spec_digit_val(#[trigger] es[u], base) >= 0 && digit_char(
                spec_digit_val(es[u], base),
            ) == es[u],
    ensures
        spec_render(fold_digits(es, base), base as int) == strip_zeros(es),
    decreases es.len(),
{
    let v = fold_digits(es, base);
    lemma_fold_nonneg(es, base);
    let pre = es.drop_last();
    let f = fold_digits(pre, base);
    let d = spec_digit_val(es.last(), base);
    lemma_fold_nonneg(pre, base);
    assert(v == f * base + d);
    if es.len() == 1 {
        assert(pre =~= Seq::<char>::empty());
        assert(f == 0);
        assert(f * base == 0) by (nonlinear_arith)
            requires
                f == 0,
        ;
        assert(v == d);
        assert(0 <= d < base);
        assert(strip_zeros(es) == es);
        assert(spec_render(v, base as int) == seq![digit_char(v)]);
        assert(digit_char(d) == es.last());
        assert(seq![digit_char(v)] =~= es);
    } else {
        if f == 0 {
            assert forall|u: int| 0 <= u < es.len() - 1 implies es[u] == '0' by {
                assert(forall|t: int| 0 <= t < pre.len() ==> pre[t] == #[trigger] es[t]);
                lemma_fold_zero_digits(pre, base, u);
            }
            lemma_strip_all_zeros(es);
            assert(f * base == 0) by (nonlinear_arith)
                requires
                    f == 0,
            ;
            assert(v == d);
            assert(0 <= d < base);
            assert(spec_render(v, base as int) == seq![digit_char(d)]);
            assert(digit_char(d) == es.last());
            assert(seq![digit_char(d)] =~= seq![es.last()]);
        } else {
            assert(f * base + d >= base) by (nonlinear_arith)
                requires
                    f >= 1,
                    base >= 2,
                    d >= 0,
            ;
            assert(0 <= d < base);
            vstd::arithmetic::div_mod::lemma_fundamental_div_mod_converse(v, base as int, f, d);
            assert(v / (base as int) == f && v % (base as int) == d);
            assert(spec_render(v, base as int) == spec_render(f, base as int) + seq![
                digit_char(d),
            ]);
            lemma_render_digits(pre, base);
            assert(exists|w: int| 0 <= w < pre.len() && spec_digit_val(#[trigger] pre[w], base)
                != 0) by {
                if forall|u: int| 0 <= u < pre.len() ==> spec_digit_val(#[trigger] pre[u], base)
                    == 0 {
                    lemma_fold_all_zeros(pre, base);
                    assert(false);
                }
            }
            let w = choose|w: int|
                0 <= w < pre.len() && spec_digit_val(#[trigger] pre[w], base) != 0;
            assert(pre[w] != '0');
            lemma_strip_push(pre, w, es.last());
            assert(es =~= pre.push(es.last()));
            assert(strip_zeros(pre) + seq![es.last()] =~= strip_zeros(pre).push(es.last()));
        }
    }
}

/// Every character of a digit run that folds to zero is the zero character.
proof fn lemma_fold_zero_digits(es: Seq<char>, base: u32, u: int)
    requires
        2 <= base <= 16,
        0 <= u < es.len(),
        fold_digits(es, base) == 0,
        forall|t: int|
            0 <= t < es.len() ==> spec_digit_val(#[trigger] es[t], base) >= 0 && digit_char(
                spec_digit_val(es[t], base),
            ) == es[t],
    ensures
        es[u] == '0',
    decreases es.len(),
{
    let pre = es.drop_last();
    let f = fold_digits(pre, base);
    let d = spec_digit_val(es.last(), base);
    lemma_fold_nonneg(pre, base);
    assert(f * base >= 0 && (f >= 1 ==> f * base >= base)) by (nonlinear_arith)
        requires
            f >= 0,
            base >= 2,
    ;
    assert(f == 0 && d == 0);
    if u < es.len() - 1 {
        lemma_fold_zero_digits(pre, base, u);
    } else {
        assert(es[u] == digit_char(0));
    }
}

/// Numeric round-trip: for a digit run accepted by a base (digits of the
/// base and underscores, at least one digit, no overflow), rendering the
/// decoded value back in that base gives exactly the run's canonical digits:
/// underscores dropped, letters lowercased, leading zeros removed.
pub proof fn lemma_numeric_round_trip(ds: Seq<char>, base: u32)
    requires
        base == 2 || base == 8 || base == 10 || base == 16,
        forall|u: int| 0 <= u < ds.len() ==> ds[u] == '_' || spec_is_digit(ds[u], base),
        count_digits(ds) > 0,
        fold_digits(ds, base) <= i64::MAX,
    ensures
        spec_render(fold_digits(ds, base), base as int) == canonical_digits(ds),
{
    lemma_clean_digits(ds, base);
    lemma_render_digits(clean_digits(ds), base);
}

/// Numeric round-trip at the scanner: whenever scanning a literal succeeds,
/// rendering the decoded value back in the literal's base gives exactly the
/// canonical digits of the consumed run.
pub proof fn lemma_scan_number_round_trip(s: Seq<char>, i: int, v: i64)
    requires
        0 <= i < s.len(),
        '0' <= s[i] && s[i] <= '9',
        scan_number(s, i).0 == Ok::<i64, ParseIntError>(v),
    ensures
        spec_render(v as int, number_base(s, i) as int) == canonical_digits(
            s.subrange(number_digits_start(s, i), number_digits_end(s, i)),
        ),
{
    let base = number_base(s, i);
    let d0 = number_digits_start(s, i);
    let k = number_digits_end(s, i);
    let run_start = if number_prefixed(s, i) {
        i + 2
    } else {
        i + 1
    };
    lemma_digit_run_end(s, run_start, base);
    let ds = s.subrange(d0, k);
    assert forall|u: int| 0 <= u < ds.len() implies ds[u] == '_' || spec_is_digit(
        #[trigger] ds[u],
        base,
    ) by {
        if d0 + u < run_start {
            assert(ds[u] == s[i]);
        }
    }
    assert(scan_number(s, i) == number_fold_result(s, d0, k, base));
    lemma_count_digits_nonneg(ds);
    if count_digits(ds) == 0 {
        assert(number_fold_result(s, d0, k, base).0 == Err::<i64, ParseIntError>(
            ParseIntError::Empty,
        ));
        assert(false);
    }
    lemma_fold_nonneg(ds, base);
    if fold_digits(ds, base) > i64::MAX {
        assert(number_fold_result(s, d0, k, base).0 == Err::<i64, ParseIntError>(
            ParseIntError::Overflow,
        ));
        assert(false);
    }
    assert(v == fold_digits(ds, base));
    lemma_numeric_round_trip(ds, base);
}

/// The diagnostic text for a failed integer literal.
pub open spec fn spec_int_error_message(e: ParseIntError) -> Seq<char> {
    match e {
        ParseIntError::Empty => "empty int literal"@,
        ParseIntError::Overflow => "int literal out of range"@,
        ParseIntError::InvalidDigit(c, base) => "invalid digit '"@ + seq![c] + "' for base "@
            + spec_render(base as int, 10),
    }
}

impl ParseIntError {
    /// The diagnostic text for this failure.
    pub fn message(&self) -> (r: String)
        ensures
            r@ == spec_int_error_message(*self),
    {
        match self {
            ParseIntError::Empty => String::from_str("empty int literal"),
            ParseIntError::Overflow => String::from_str("int literal out of range"),
            ParseIntError::InvalidDigit(c, base) => {
                let mut m = String::from_str("invalid digit '");
                let mut cv: Vec<char> = Vec::new();
                cv.push(*c);
                let cs = string_from_chars(&cv);
                m.append(cs.as_str());
                m.append("' for base ");
                let bs = u32_to_decimal(*base);
                m.append(bs.as_str());
                proof {
                    assert(m@ =~= "invalid digit '"@ + seq![*c] + "' for base "@ + spec_render(
                        *base as int,
                        10,
                    ));
                }
                m
            },
        }
    }
}

/// The token sequence of text `s` from position `i` on: each entry is a
/// token's shape with the character range `[start, end)` it covers.
pub open spec fn spec_tokens_from(s: Seq<char>, i: int) -> Seq<(Lexeme, int, int)>
    decreases s.len() - i,
{
    if !(0 <= i < s.len()) {
        Seq::empty()
    } else {
        let r = spec_scan(s, i);
        if i < r.1 <= s.len() {
            seq![(r.0, i, r.1)] + spec_tokens_from(s, r.1)
        } else {
            Seq::empty()
        }
    }
}

/// The full token sequence of text `s`, whitespace tokens included.
pub open spec fn spec_tokens(s: Seq<char>) -> Seq<(Lexeme, int, int)> {
    spec_tokens_from(s, 0)
}

/// The public token stream: whitespace tokens are dropped, and each kept
/// token carries whether a whitespace token immediately preceded it.
pub open spec fn filter_ws_tokens(toks: Seq<(Lexeme, int, int)>) -> Seq<((Lexeme, int, int), bool)>
    decreases toks.len(),
{
    if toks.len() == 0 {
        Seq::empty()
    } else if toks[0].0 is Whitespace {
        if toks.len() == 1 {
            Seq::empty()
        } else {
            seq![(toks[1], true)] + filter_ws_tokens(toks.skip(2))
        }
    } else {
        seq![(toks[0], false)] + filter_ws_tokens(toks.skip(1))
    }
}

/// The text covered by a token list: the concatenation of each token's
/// character range of `s`.
pub open spec fn concat_token_text(s: Seq<char>, toks: Seq<(Lexeme, int, int)>) -> Seq<char>
    decreases toks.len(),
{
    if toks.len() == 0 {
        Seq::empty()
    } else {
        s.subrange(toks[0].1, toks[0].2) + concat_token_text(s, toks.drop_first())
    }
}

/// The token ranges from `i` tile the rest of the text: the first starts at
/// `i`, each next one starts where the previous ended, the last ends at the
/// text's end, and every range is nonempty.
pub proof fn lemma_tokens_tile(s: Seq<char>, i: int)
    requires
        0 <= i <= s.len(),
    ensures
        forall|k: int|
            0 <= k < spec_tokens_from(s, i).len() ==> i <= (#[trigger] spec_tokens_from(s, i)[k]).1
                < spec_tokens_from(s, i)[k].2 <= s.len(),
        spec_tokens_from(s, i).len() > 0 ==> spec_tokens_from(s, i)[0].1 == i
            && spec_tokens_from(s, i).last().2 == s.len(),
        spec_tokens_from(s, i).len() == 0 ==> i == s.len(),
        forall|k: int|
            0 <= k < spec_tokens_from(s, i).len() - 1 ==> (#[trigger] spec_tokens_from(s, i)[k]).2
                == spec_tokens_from(s, i)[k + 1].1,
    decreases s.len() - i,
{
    if i < s.len() {
        lemma_scan_progress(s, i);
        let j = spec_scan(s, i).1;
        lemma_tokens_tile(s, j);
        assert(spec_tokens_from(s, i).drop_first() =~= spec_tokens_from(s, j));
    }
}

/// Concatenating the text of every token of the rest of the text, in order,
/// reconstructs the rest of the text exactly.
pub proof fn lemma_tokens_cover(s: Seq<char>, i: int)
    requires
        0 <= i <= s.len(),
    ensures
        concat_token_text(s, spec_tokens_from(s, i)) == s.subrange(i, s.len() as int),
    decreases s.len() - i,
{
    if i == s.len() {
        assert(s.subrange(i, s.len() as int) =~= Seq::<char>::empty());
    } else {
        lemma_scan_progress(s, i);
        let j = spec_scan(s, i).1;
        lemma_tokens_cover(s, j);
        assert(spec_tokens_from(s, i).drop_first() =~= spec_tokens_from(s, j));
        assert(s.subrange(i, s.len() as int) =~= s.subrange(i, j) + s.subrange(
            j,
            s.len() as int,
        ));
    }
}

/// Totality: scanning any text yields finitely many tokens, at most one per
/// character.
pub proof fn lemma_tokens_finite(s: Seq<char>, i: int)
    requires
        0 <= i <= s.len(),
    ensures
        spec_tokens_from(s, i).len() <= s.len() - i,
    decreases s.len() - i,
{
    if i < s.len() {
        lemma_scan_progress(s, i);
        lemma_tokens_finite(s, spec_scan(s, i).1);
    }
}

/// Span fidelity: the spans of a text's full token sequence tile the text
/// from its start to its end, and concatenating each span's text, in order,
/// reconstructs the text exactly.
pub proof fn lemma_span_fidelity(s: Seq<char>)
    ensures
        concat_token_text(s, spec_tokens(s)) == s,
        forall|k: int|
            0 <= k < spec_tokens(s).len() ==> (#[trigger] spec_tokens(s)[k]).1 < spec_tokens(
                s,
            )[k].2 <= s.len(),
        spec_tokens(s).len() > 0 ==> spec_tokens(s)[0].1 == 0 && spec_tokens(s).last().2
            == s.len(),
        forall|k: int|
            0 <= k < spec_tokens(s).len() - 1 ==> (#[trigger] spec_tokens(s)[k]).2 == spec_tokens(
                s,
            )[k + 1].1,
{
    lemma_tokens_tile(s, 0);
    lemma_tokens_cover(s, 0);
    assert(s.subrange(0, s.len() as int) =~= s);
}

/// One token: where it sits in the global address space and what it is.
#[derive(Debug)]
pub struct Token {
    pub span: Span,
    pub inner: TokenInner,
}

impl Token {
    pub fn is_whitespace(&self) -> (r: bool)
        ensures
            r == (self.inner@ is Whitespace),
    {
        matches!(self.inner, TokenInner::Whitespace)
    }
}

/// Index just past the maximal whitespace run of `text` starting at `from`.
fn scan_ws_end(text: &Vec<char>, from: usize) -> (j: usize)
    requires
        from <= text@.len(),
    ensures
        j == ws_run_end(text@, from as int),
        from <= j <= text@.len(),
{
    let n = text.len();
    let mut k = from;
    while k < n && char_is_whitespace(text[k])
        invariant
            from <= k <= n,
            n == text@.len(),
            forall|t: int| from <= t < k ==> unicode_whitespace(text@[t]),
        decreases n - k,
    {
        k = k + 1;
    }
    proof {
        lemma_ws_run_end_is(text@, from as int, k as int);
    }
    k
}

/// Index just past the maximal identifier-continue run of `text` starting at
/// `from`.
fn scan_id_end(text: &Vec<char>, from: usize) -> (j: usize)
    requires
        from <= text@.len(),
    ensures
        j == id_run_end(text@, from as int),
        from <= j <= text@.len(),
{
    let n = text.len();
    let mut k = from;
    while k < n && char_is_xid_continue(text[k])
        invariant
            from <= k <= n,
            n == text@.len(),
            forall|t: int| from <= t < k ==> spec_is_id_continue(text@[t]),
        decreases n - k,
    {
        k = k + 1;
    }
    proof {
        lemma_id_run_end_is(text@, from as int, k as int);
    }
    k
}

/// Index just past the maximal run of digits of `base` and underscores of
/// `text` starting at `from`.
fn scan_digit_end(text: &Vec<char>, from: usize, base: u32) -> (j: usize)
    requires
        from <= text@.len(),
    ensures
        j == digit_run_end(text@, from as int, base),
        from <= j <= text@.len(),
{
    let n = text.len();
    let mut k = from;
    while k < n && (text[k] == '_' || digit_val(text[k], base).is_some())
        invariant
            from <= k <= n,
            n == text@.len(),
            forall|t: int|
                from <= t < k ==> (text@[t] == '_' || spec_is_digit(text@[t], base)),
        decreases n - k,
    {
        k = k + 1;
    }
    proof {
        lemma_digit_run_end_is(text@, from as int, k as int, base);
    }
    k
}

/// Index of the next newline of `text` at or after `from`, or the text's end.
fn scan_line_end(text: &Vec<char>, from: usize) -> (j: usize)
    requires
        from <= text@.len(),
    ensures
        j == line_run_end(text@, from as int),
        from <= j <= text@.len(),
{
    let n = text.len();
    let mut k = from;
    while k < n && text[k] != '\n'
        invariant
            from <= k <= n,
            n == text@.len(),
            forall|t: int| from <= t < k ==> text@[t] != '\n',
        decreases n - k,
    {
        k = k + 1;
    }
    proof {
        lemma_line_run_end_is(text@, from as int, k as int);
    }
    k
}

/// Index just past the maximal unrecognized run of `text` starting at `from`.
fn scan_unknown_end(text: &Vec<char>, from: usize) -> (j: usize)
    requires
        from <= text@.len(),
    ensures
        j == unknown_run_end(text@, from as int),
        from <= j <= text@.len(),
{
    let n = text.len();
    let mut k = from;
    while k < n && is_unknown(text[k])
        invariant
            from <= k <= n,
            n == text@.len(),
            forall|t: int| from <= t < k ==> spec_is_unknown(text@[t]),
        decreases n - k,
    {
        k = k + 1;
    }
    proof {
        lemma_unknown_run_end_is(text@, from as int, k as int);
    }
    k
}

/// Index just past the quote closing the string body that starts at `from`,
/// or none when no unescaped quote closes it.
fn scan_string_close(text: &Vec<char>, from: usize) -> (r: Option<usize>)
    requires
        from <= text@.len(),
    ensures
        match r {
            Some(c) => string_close(text@, from as int) == c && from < c <= text@.len(),
            None => string_close(text@, from as int) == -1,
        },
{
    let n = text.len();
    let mut k = from;
    loop
        invariant
            from <= k <= n,
            n == text@.len(),
            string_close(text@, from as int) == string_close(text@, k as int),
        decreases n - k,
    {
        if k == n {
            return None;
        }
        let c = text[k];
        if c == '"' {
            return Some(k + 1);
        }
        if c == '\\' && k + 1 < n && (text[k + 1] == '\\' || text[k + 1] == '"') {
            k = k + 2;
        } else {
            k = k + 1;
        }
    }
}

/// Escape decoding of a string literal's contents. Deliberately incomplete:
/// only `\"` and `\\` are recognized while scanning, and the raw text is
/// preserved verbatim rather than decoded.
fn unescape(s: String) -> (r: String)
    ensures
        r@ == s@,
{
    s
}

/// The characters of `v` between the indices `from` and `to`, as a string.
fn chars_to_string(v: &Vec<char>, from: usize, to: usize) -> (r: String)
    requires
        from <= to <= v@.len(),
    ensures
        r@ == v@.subrange(from as int, to as int),
{
    let mut out: Vec<char> = Vec::new();
    let mut k = from;
    proof {
        assert(v@.subrange(from as int, from as int) =~= Seq::<char>::empty());
    }
    while k < to
        invariant
            from <= k <= to <= v@.len(),
            out@ == v@.subrange(from as int, k as int),
        decreases to - k,
    {
        proof {
            assert(v@.subrange(from as int, k + 1) =~= v@.subrange(from as int, k as int).push(
                v@[k as int],
            ));
        }
        out.push(v[k]);
        k = k + 1;
    }
    string_from_chars(&out)
}

/// A scanning position within one source file's text: the token being read
/// starts at character `start_idx` (global byte position `pos`), and reading
/// continues at character `idx` (global byte position `bpos`).
pub struct Cursor<'a> {
    text: &'a Vec<char>,
    start_idx: usize,
    idx: usize,
    pos: u32,
    bpos: u32,
    base: Ghost<u32>,
}

impl<'a> Cursor<'a> {
    /// The two byte positions track the two character indices from the
    /// file's global start offset, and everything fits the address space.
    pub closed spec fn wf(&self) -> bool {
        &&& self.start_idx <= self.idx <= self.text@.len()
        &&& self.base@ + bytes_of(self.text@) <= u32::MAX
        &&& self.pos == self.base@ + bytes_of(self.text@.take(self.start_idx as int))
        &&& self.bpos == self.base@ + bytes_of(self.text@.take(self.idx as int))
    }

    pub closed spec fn spec_text(&self) -> Seq<char> {
        self.text@
    }

    pub closed spec fn spec_idx(&self) -> int {
        self.idx as int
    }

    pub closed spec fn spec_start_idx(&self) -> int {
        self.start_idx as int
    }

    pub closed spec fn spec_base(&self) -> u32 {
        self.base@
    }

    pub closed spec fn spec_bpos(&self) -> u32 {
        self.bpos
    }

    pub closed spec fn spec_pos(&self) -> u32 {
        self.pos
    }

    /// A cursor at the start of the file's text.
    pub fn new(input: &'a SourceFile) -> (c: Cursor<'a>)
        requires
            input.wf(),
        ensures
            c.wf(),
            c.spec_text() == input.src@,
            c.spec_base() == input.start_pos,
            c.spec_idx() == 0,
            c.spec_start_idx() == 0,
            c.spec_bpos() == input.start_pos,
    {
        proof {
            assert(input.src@.take(0) =~= Seq::<char>::empty());
        }
        Cursor {
            text: &input.src,
            start_idx: 0,
            idx: 0,
            pos: input.start_pos,
            bpos: input.start_pos,
            base: Ghost(input.start_pos),
        }
    }

    /// The next unread character, or the null character at the text's end.
    pub fn peek(&self) -> (c: char)
        ensures
            c == if self.spec_idx() < self.spec_text().len() {
                self.spec_text()[self.spec_idx()]
            } else {
                '\u{0}'
            },
    {
        if self.idx < self.text.len() {
            self.text[self.idx]
        } else {
            '\u{0}'
        }
    }

    /// Whether the whole text has been read.
    pub fn is_eof(&self) -> (r: bool)
        requires
            self.wf(),
        ensures
            r == (self.spec_idx() == self.spec_text().len()),
    {
        self.idx >= self.text.len()
    }

    /// Read one character and advance past it.
    pub fn bump(&mut self) -> (r: Option<char>)
        requires
            old(self).wf(),
        ensures
            final(self).wf(),
            final(self).spec_text() == old(self).spec_text(),
            final(self).spec_base() == old(self).spec_base(),
            final(self).spec_start_idx() == old(self).spec_start_idx(),
            final(self).spec_pos() == old(self).spec_pos(),
            if old(self).spec_idx() < old(self).spec_text().len() {
                r == Some(old(self).spec_text()[old(self).spec_idx()]) && final(self).spec_idx()
                    == old(self).spec_idx() + 1
            } else {
                r is None && final(self).spec_idx() == old(self).spec_idx()
            },
    {
        if self.idx < self.text.len() {
            let c = self.text[self.idx];
            proof {
                lemma_bytes_of_take_succ(self.text@, self.idx as int);
                lemma_bytes_of_take_mono(self.text@, self.idx + 1, self.text@.len() as int);
                lemma_bytes_of_take_all(self.text@);
            }
            self.bpos = self.bpos + char_width(c);
            self.idx = self.idx + 1;
            Some(c)
        } else {
            None
        }
    }

    /// Advance reading to the character index `j`.
    fn advance_to(&mut self, j: usize)
        requires
            old(self).wf(),
            old(self).spec_idx() <= j <= old(self).spec_text().len(),
        ensures
            final(self).wf(),
            final(self).spec_text() == old(self).spec_text(),
            final(self).spec_base() == old(self).spec_base(),
            final(self).spec_start_idx() == old(self).spec_start_idx(),
            final(self).pos == old(self).pos,
            final(self).spec_idx() == j,
    {
        while self.idx < j
            invariant
                self.wf(),
                self.idx <= j <= self.text@.len(),
                self.text == old(self).text,
                self.base == old(self).base,
                self.start_idx == old(self).start_idx,
                self.pos == old(self).pos,
            decreases j - self.idx,
        {
            proof {
                lemma_bytes_of_take_succ(self.text@, self.idx as int);
                lemma_bytes_of_take_mono(self.text@, self.idx + 1, self.text@.len() as int);
                lemma_bytes_of_take_all(self.text@);
            }
            let c = self.text[self.idx];
            self.bpos = self.bpos + char_width(c);
            self.idx = self.idx + 1;
        }
    }

    /// Byte length of the token being read.
    pub fn token_length(&self) -> (r: u32)
        requires
            self.wf(),
        ensures
            r == bytes_of(self.spec_text().subrange(self.spec_start_idx(), self.spec_idx())),
    {
        proof {
            lemma_bytes_of_subrange(self.text@, self.start_idx as int, self.idx as int);
        }
        self.bpos - self.pos
    }

    /// Begin reading the next token where the current one ended.
    pub fn reset_token(&mut self)
        requires
            old(self).wf(),
        ensures
            final(self).wf(),
            final(self).spec_text() == old(self).spec_text(),
            final(self).spec_base() == old(self).spec_base(),
            final(self).spec_idx() == old(self).spec_idx(),
            final(self).spec_start_idx() == old(self).spec_idx(),
            final(self).spec_bpos() == old(self).spec_bpos(),
            final(self).spec_pos() == old(self).spec_bpos(),
    {
        self.pos = self.bpos;
        self.start_idx = self.idx;
    }

    /// Scan the rest of a numeric literal whose first digit, already read,
    /// is `first_char`: pick the base from a `0b`/`0o`/`0x` prefix, consume
    /// the digit run, and decode it.
    fn number(&mut self, first_char: char) -> (r: Result<i64, ParseIntError>)
        requires
            old(self).wf(),
            old(self).spec_idx() == old(self).spec_start_idx() + 1,
            old(self).spec_start_idx() < old(self).spec_text().len(),
            old(self).spec_text()[old(self).spec_start_idx()] == first_char,
            '0' <= first_char && first_char <= '9',
        ensures
            final(self).wf(),
            final(self).spec_text() == old(self).spec_text(),
            final(self).spec_base() == old(self).spec_base(),
            final(self).spec_start_idx() == old(self).spec_start_idx(),
            final(self).spec_pos() == old(self).spec_pos(),
            r == scan_number(old(self).spec_text(), old(self).spec_start_idx()).0,
            final(self).spec_idx() == scan_number(
                old(self).spec_text(),
                old(self).spec_start_idx(),
            ).1,
    {
        let text = self.text;
        let i = self.start_idx;
        let ghost s = text@;
        let mut base: u32 = 10;
        let mut prefixed = false;
        if first_char == '0' {
            let p = self.peek();
            if p == 'b' {
                base = 2;
                prefixed = true;
            } else if p == 'o' {
                base = 8;
                prefixed = true;
            } else if p == 'x' {
                base = 16;
                prefixed = true;
            }
        }
        if prefixed {
            self.bump();
        }
        let run_start = self.idx;
        let k = scan_digit_end(text, run_start, base);
        self.advance_to(k);
        proof {
            lemma_digit_run_end(s, run_start as int, base);
        }
        if !self.is_eof() {
            let c2 = self.peek();
            if is_id_continue(c2) {
                let j = scan_id_end(text, k);
                self.advance_to(j);
                return Err(ParseIntError::InvalidDigit(c2, base));
            }
        }
        let d0: usize = if prefixed {
            run_start
        } else {
            i
        };
        proof {
            assert(scan_number(s, i as int) == number_fold_result(s, d0 as int, k as int, base));
            assert(s.subrange(d0 as int, d0 as int) =~= Seq::<char>::empty());
        }
        let mut val: i64 = 0;
        let mut saw_digit = false;
        let mut t: usize = d0;
        while t < k
            invariant
                self.wf(),
                self.spec_text() == old(self).spec_text(),
                self.spec_base() == old(self).spec_base(),
                self.spec_start_idx() == old(self).spec_start_idx(),
                self.spec_pos() == old(self).spec_pos(),
                self.spec_idx() == k as int,
                text@ == s,
                s == old(self).spec_text(),
                i as int == old(self).spec_start_idx(),
                d0 <= t <= k <= s.len(),
                2 <= base <= 16,
                scan_number(s, i as int) == number_fold_result(s, d0 as int, k as int, base),
                forall|u: int| d0 <= u < k ==> s[u] == '_' || spec_is_digit(s[u], base),
                0 <= val <= i64::MAX,
                val == fold_digits(s.subrange(d0 as int, t as int), base),
                saw_digit == (count_digits(s.subrange(d0 as int, t as int)) > 0),
            decreases k - t,
        {
            let c = text[t];
            proof {
                assert(s.subrange(d0 as int, t + 1).drop_last() =~= s.subrange(
                    d0 as int,
                    t as int,
                ));
                assert(s.subrange(d0 as int, t + 1).last() == s[t as int]);
                lemma_count_digits_nonneg(s.subrange(d0 as int, t as int));
            }
            if c == '_' {
                t = t + 1;
            } else {
                let d = match digit_val(c, base) {
                    Some(d) => d,
                    None => {
                        proof {
                            assert(false);
                        }
                        0
                    },
                };
                let ghost ds = s.subrange(d0 as int, k as int);
                let m = match val.checked_mul(base as i64) {
                    Some(m) => m,
                    None => {
                        proof {
                            assert(val * base >= 0) by (nonlinear_arith)
                                requires
                                    val >= 0,
                                    base >= 2,
                            ;
                            assert(fold_digits(s.subrange(d0 as int, t + 1), base) > i64::MAX);
                            lemma_fold_prefix_le(ds, base, t + 1 - d0);
                            assert(ds.take(t + 1 - d0) =~= s.subrange(d0 as int, t + 1));
                            lemma_count_digits_pos(ds, t - d0);
                        }
                        return Err(ParseIntError::Overflow);
                    },
                };
                proof {
                    assert(val * base >= 0) by (nonlinear_arith)
                        requires
                            val >= 0,
                            base >= 2,
                    ;
                }
                let v2 = match m.checked_add(d as i64) {
                    Some(v) => v,
                    None => {
                        proof {
                            assert(fold_digits(s.subrange(d0 as int, t + 1), base) > i64::MAX);
                            lemma_fold_prefix_le(ds, base, t + 1 - d0);
                            assert(ds.take(t + 1 - d0) =~= s.subrange(d0 as int, t + 1));
                            lemma_count_digits_pos(ds, t - d0);
                        }
                        return Err(ParseIntError::Overflow);
                    },
                };
                val = v2;
                saw_digit = true;
                t = t + 1;
            }
        }
        proof {
            assert(s.subrange(d0 as int, k as int) =~= s.subrange(d0 as int, t as int));
            lemma_count_digits_nonneg(s.subrange(d0 as int, k as int));
        }
        if !saw_digit {
            return Err(ParseIntError::Empty);
        }
        Ok(val)
    }

    /// Scan the rest of a string literal whose opening quote, already read,
    /// sits at the token's start: consume up to the closing quote, or, when
    /// none closes the literal, recover at the end of the line.
    fn string_literal(&mut self) -> (inner: TokenInner)
        requires
            old(self).wf(),
            old(self).spec_idx() == old(self).spec_start_idx() + 1,
            old(self).spec_start_idx() < old(self).spec_text().len(),
            old(self).spec_text()[old(self).spec_start_idx()] == '"',
        ensures
            final(self).wf(),
            final(self).spec_text() == old(self).spec_text(),
            final(self).spec_base() == old(self).spec_base(),
            final(self).spec_start_idx() == old(self).spec_start_idx(),
            final(self).spec_pos() == old(self).spec_pos(),
            inner@ == scan_string(old(self).spec_text(), old(self).spec_start_idx()).0,
            final(self).spec_idx() == scan_string(
                old(self).spec_text(),
                old(self).spec_start_idx(),
            ).1,
    {
        let text = self.text;
        let i = self.start_idx;
        match scan_string_close(text, self.idx) {
            Some(cend) => {
                self.advance_to(cend);
                let contents = unescape(chars_to_string(text, i + 1, cend - 1));
                TokenInner::StringLiteral { contents, unclosed: false }
            },
            None => {
                let j = scan_line_end(text, self.idx);
                self.advance_to(j);
                let contents = chars_to_string(text, i + 1, j);
                TokenInner::StringLiteral { contents, unclosed: true }
            },
        }
    }

    /// Read the next token: classify the first remaining character, consume
    /// the token greedily, and locate it. Returns nothing exactly at the
    /// text's end.
    pub fn next_token(&mut self) -> (r: Option<Token>)
        requires
            old(self).wf(),
            old(self).spec_start_idx() == old(self).spec_idx(),
        ensures
            final(self).wf(),
            final(self).spec_text() == old(self).spec_text(),
            final(self).spec_base() == old(self).spec_base(),
            final(self).spec_start_idx() == final(self).spec_idx(),
            ({
                let s = old(self).spec_text();
                let i = old(self).spec_idx();
                if i == s.len() {
                    r is None && *final(self) == *old(self)
                } else {
                    let sr = spec_scan(s, i);
                    r matches Some(t) && {
                        &&& t.inner@ == sr.0
                        &&& final(self).spec_idx() == sr.1
                        &&& t.span.lo == old(self).spec_bpos()
                        &&& t.span.len == bytes_of(s.subrange(i, sr.1))
                        &&& final(self).spec_pos() == final(self).spec_bpos()
                        &&& final(self).spec_bpos() == old(self).spec_bpos() + t.span.len
                    }
                }
            }),
    {
        if self.is_eof() {
            return None;
        }
        let text = self.text;
        let first = match self.bump() {
            Some(c) => c,
            None => {
                proof {
                    assert(false);
                }
                '\u{0}'
            },
        };
        let inner: TokenInner;
        if char_is_whitespace(first) {
            let j = scan_ws_end(text, self.idx);
            self.advance_to(j);
            inner = TokenInner::Whitespace;
        } else if is_id_start(first) {
            let j = scan_id_end(text, self.idx);
            self.advance_to(j);
            inner = TokenInner::Identifier(chars_to_string(text, self.start_idx, j));
        } else if '0' <= first && first <= '9' {
            inner = TokenInner::IntLiteral(self.number(first));
        } else if first == '"' {
            inner = self.string_literal();
        } else if first == '/' {
            if self.peek() == '/' {
                self.bump();
                let c_start = self.idx;
                let j = scan_line_end(text, c_start);
                self.advance_to(j);
                inner = TokenInner::Comment(chars_to_string(text, c_start, j));
            } else {
                inner = TokenInner::Operator(Operator::Div);
            }
        } else if first == '|' {
            inner = TokenInner::Pipe;
        } else if first == ',' {
            inner = TokenInner::Comma;
        } else if first == ':' {
            inner = TokenInner::Colon;
        } else if first == ';' {
            inner = TokenInner::Semicolon;
        } else if first == '(' {
            inner = TokenInner::OpenDelim(DelimKind::Paren);
        } else if first == '[' {
            inner = TokenInner::OpenDelim(DelimKind::Bracket);
        } else if first == '{' {
            inner = TokenInner::OpenDelim(DelimKind::Brace);
        } else if first == ')' {
            inner = TokenInner::CloseDelim(DelimKind::Paren);
        } else if first == ']' {
            inner = TokenInner::CloseDelim(DelimKind::Bracket);
        } else if first == '}' {
            inner = TokenInner::CloseDelim(DelimKind::Brace);
        } else if first == '+' {
            inner = TokenInner::Operator(Operator::Plus);
        } else if first == '-' {
            if self.peek() == '>' {
                self.bump();
                inner = TokenInner::Operator(Operator::Arrow);
            } else {
                inner = TokenInner::Operator(Operator::Minus);
            }
        } else if first == '*' {
            inner = TokenInner::Operator(Operator::Mul);
        } else if first == '=' {
            if self.peek() == '>' {
                self.bump();
                inner = TokenInner::Operator(Operator::FatArrow);
            } else {
                inner = TokenInner::Operator(Operator::Equals);
            }
        } else if first == '.' {
            inner = TokenInner::Operator(Operator::Dot);
        } else if first == '%' {
            inner = TokenInner::Operator(Operator::Percent);
        } else {
            let j = scan_unknown_end(text, self.idx);
            self.advance_to(j);
            inner = TokenInner::Unrecognized;
        }
        let len = self.token_length();
        let span = Span::new(self.pos, len);
        proof {
            lemma_bytes_of_subrange(self.text@, self.start_idx as int, self.idx as int);
        }
        self.reset_token();
        Some(Token { span, inner })
    }
}

/// The text covered by a filtered token stream, a single space re-inserted
/// before each token whose whitespace flag is set.
pub open spec fn concat_filtered_text(s: Seq<char>, toks: Seq<((Lexeme, int, int), bool)>) -> Seq<
    char,
>
    decreases toks.len(),
{
    if toks.len() == 0 {
        Seq::empty()
    } else {
        (if toks[0].1 {
            seq![' ']
        } else {
            Seq::empty()
        }) + s.subrange(toks[0].0.1, toks[0].0.2) + concat_filtered_text(s, toks.drop_first())
    }
}

/// Span fidelity for the filtered stream, from position `i` on.
proof fn lemma_filtered_fidelity_from(s: Seq<char>, i: int)
    requires
        0 <= i <= s.len(),
        forall|k: int| 0 <= k < s.len() && unicode_whitespace(#[trigger] s[k]) ==> s[k] == ' ',
        forall|k: int|
            0 <= k < s.len() - 1 ==> !(unicode_whitespace(#[trigger] s[k]) && unicode_whitespace(
                s[k + 1],
            )),
        s.len() > 0 ==> !unicode_whitespace(s.last()),
    ensures
        concat_filtered_text(s, filter_ws_tokens(spec_tokens_from(s, i))) == s.subrange(
            i,
            s.len() as int,
        ),
    decreases s.len() - i,
{
    if i == s.len() {
        assert(s.subrange(i, s.len() as int) =~= Seq::<char>::empty());
    } else {
        lemma_scan_progress(s, i);
        let sr = spec_scan(s, i);
        let j = sr.1;
        assert(spec_tokens_from(s, i) =~= seq![(sr.0, i, j)] + spec_tokens_from(s, j));
        if unicode_whitespace(s[i]) {
            // a whitespace token covers exactly one space: the run cannot
            // continue, and the text cannot end here
            assert(i < s.len() - 1);
            assert(j == ws_run_end(s, i + 1) == i + 1);
            lemma_scan_progress(s, j);
            let sr2 = spec_scan(s, j);
            let j2 = sr2.1;
            assert(spec_tokens_from(s, j) =~= seq![(sr2.0, j, j2)] + spec_tokens_from(s, j2));
            let toks_i = spec_tokens_from(s, i);
            assert(toks_i[0] == (sr.0, i, j));
            assert(toks_i[1] == (sr2.0, j, j2));
            assert(toks_i.skip(2) =~= spec_tokens_from(s, j2));
            assert(filter_ws_tokens(toks_i) == seq![((sr2.0, j, j2), true)] + filter_ws_tokens(
                spec_tokens_from(s, j2),
            ));
            lemma_filtered_fidelity_from(s, j2);
            let ftoks = filter_ws_tokens(toks_i);
            assert(ftoks.drop_first() =~= filter_ws_tokens(spec_tokens_from(s, j2)));
            assert(s[i] == ' ');
            assert(seq![' '] =~= s.subrange(i, j));
            assert(concat_filtered_text(s, ftoks) =~= s.subrange(i, j) + s.subrange(j, j2)
                + s.subrange(j2, s.len() as int));
            assert(s.subrange(i, j) + s.subrange(j, j2) + s.subrange(j2, s.len() as int)
                =~= s.subrange(i, s.len() as int));
        } else {
            let toks_i = spec_tokens_from(s, i);
            assert(toks_i[0] == (sr.0, i, j));
            assert(toks_i.skip(1) =~= spec_tokens_from(s, j));
            assert(filter_ws_tokens(toks_i) == seq![((sr.0, i, j), false)] + filter_ws_tokens(
                spec_tokens_from(s, j),
            ));
            lemma_filtered_fidelity_from(s, j);
            let ftoks = filter_ws_tokens(toks_i);
            assert(ftoks.drop_first() =~= filter_ws_tokens(spec_tokens_from(s, j)));
            assert(concat_filtered_text(s, ftoks) =~= s.subrange(i, j) + s.subrange(
                j,
                s.len() as int,
            ));
            assert(s.subrange(i, j) + s.subrange(j, s.len() as int) =~= s.subrange(
                i,
                s.len() as int,
            ));
        }
    }
}

/// Span fidelity for the filtered stream: when every whitespace run of the
/// text is one single space and the text does not end in whitespace,
/// concatenating the filtered tokens' texts, with one space re-inserted
/// before each token whose whitespace flag is set, reconstructs the text
/// exactly.
pub proof fn lemma_filtered_span_fidelity(s: Seq<char>)
    requires
        forall|k: int| 0 <= k < s.len() && unicode_whitespace(#[trigger] s[k]) ==> s[k] == ' ',
        forall|k: int|
            0 <= k < s.len() - 1 ==> !(unicode_whitespace(#[trigger] s[k]) && unicode_whitespace(
                s[k + 1],
            )),
        s.len() > 0 ==> !unicode_whitespace(s.last()),
    ensures
        concat_filtered_text(s, filter_ws_tokens(spec_tokens(s))) == s,
{
    lemma_filtered_fidelity_from(s, 0);
    assert(s.subrange(0, s.len() as int) =~= s);
}

/// Every token's byte span of a loaded file lies within that file and starts
/// and ends on character boundaries: the source map may resolve it, and the
/// resolved text is exactly the token's characters.
pub proof fn lemma_token_spans_resolvable(m: SourceMap, k: int, t: int)
    requires
        m.wf(),
        0 <= k < m.files@.len(),
        0 <= t < spec_tokens(m.files@[k].src@).len(),
    ensures
        ({
            let s = m.files@[k].src@;
            let e = spec_tokens(s)[t];
            let lo = m.files@[k].start_pos + bytes_of(s.take(e.1));
            let len = bytes_of(s.subrange(e.1, e.2));
            &&& lo + len <= u32::MAX
            &&& m.span_in_file(Span { lo: lo as u32, len: len as u32 }, k)
            &&& char_idx_at(s, lo - m.files@[k].start_pos) == e.1
            &&& char_idx_at(s, (lo + len) - m.files@[k].start_pos) == e.2
        }),
{
    let s = m.files@[k].src@;
    let e = spec_tokens(s)[t];
    let start = m.files@[k].start_pos as int;
    lemma_tokens_tile(s, 0);
    lemma_bytes_of_take_mono(s, 0, e.1);
    lemma_bytes_of_take_mono(s, e.2, s.len() as int);
    lemma_bytes_of_take_all(s);
    lemma_bytes_of_subrange(s, e.1, e.2);
    assert(s.take(0) =~= Seq::<char>::empty());
    let lo = start + bytes_of(s.take(e.1));
    let len = bytes_of(s.subrange(e.1, e.2)) as int;
    assert(0 <= e.1 <= s.len() && bytes_of(s.take(e.1)) == lo - start);
    assert(0 <= e.2 <= s.len() && bytes_of(s.take(e.2)) == (lo + len) - start);
    lemma_char_boundary_unique(s, char_idx_at(s, lo - start), e.1);
    lemma_char_boundary_unique(s, char_idx_at(s, (lo + len) - start), e.2);
}

/// Token `t` with flag `flag` realizes the spec entry `e` of the text `s` of
/// a file starting at global byte offset `base`: same payload, the span at
/// the entry's character range translated to global byte offsets, same flag.
pub open spec fn token_matches(
    t: Token,
    flag: bool,
    e: ((Lexeme, int, int), bool),
    s: Seq<char>,
    base: u32,
) -> bool {
    &&& t.inner@ == e.0.0
    &&& t.span.lo == base + bytes_of(s.take(e.0.1))
    &&& t.span.len == bytes_of(s.subrange(e.0.1, e.0.2))
    &&& flag == e.1
}

/// All tokens of the file's text, in order, each with a flag saying whether
/// whitespace immediately preceded it. Whitespace itself is filtered out of
/// the sequence.
pub fn tokenize(input: &SourceFile) -> (r: Vec<(Token, bool)>)
    requires
        input.wf(),
    ensures
        r@.len() == filter_ws_tokens(spec_tokens(input.src@)).len(),
        forall|k: int|
            0 <= k < r@.len() ==> token_matches(
                r@[k].0,
                r@[k].1,
                #[trigger] filter_ws_tokens(spec_tokens(input.src@))[k],
                input.src@,
                input.start_pos,
            ),
{
    let ghost s = input.src@;
    let ghost target = filter_ws_tokens(spec_tokens(s));
    let mut cursor = Cursor::new(input);
    let mut r: Vec<(Token, bool)> = Vec::new();
    let ghost mut done: Seq<((Lexeme, int, int), bool)> = Seq::empty();
    proof {
        assert(target =~= done + filter_ws_tokens(spec_tokens_from(s, 0)));
    }
    while !cursor.is_eof()
        invariant
            cursor.wf(),
            cursor.spec_text() == s,
            s == input.src@,
            cursor.spec_base() == input.start_pos,
            cursor.spec_start_idx() == cursor.spec_idx(),
            target == filter_ws_tokens(spec_tokens(s)),
            target == done + filter_ws_tokens(spec_tokens_from(s, cursor.spec_idx())),
            r@.len() == done.len(),
            forall|k: int|
                0 <= k < done.len() ==> token_matches(
                    r@[k].0,
                    r@[k].1,
                    #[trigger] done[k],
                    s,
                    input.start_pos,
                ),
        decreases s.len() - cursor.spec_idx(),
    {
        let ghost i = cursor.spec_idx();
        match cursor.next_token() {
            None => {
                proof {
                    assert(false);
                }
            },
            Some(t) => {
                let ghost sr = spec_scan(s, i);
                let ghost j = sr.1;
                proof {
                    lemma_scan_progress(s, i);
                    assert(spec_tokens_from(s, i) =~= seq![(sr.0, i, j)] + spec_tokens_from(s, j));
                }
                if t.is_whitespace() {
                    if !cursor.is_eof() {
                        match cursor.next_token() {
                            None => {
                                proof {
                                    assert(false);
                                }
                            },
                            Some(t2) => {
                                let ghost sr2 = spec_scan(s, j);
                                let ghost j2 = sr2.1;
                                proof {
                                    lemma_scan_progress(s, j);
                                    assert(spec_tokens_from(s, j) =~= seq![(sr2.0, j, j2)]
                                        + spec_tokens_from(s, j2));
                                    let toks_i = spec_tokens_from(s, i);
                                    assert(toks_i[0] == (sr.0, i, j));
                                    assert(toks_i[1] == (sr2.0, j, j2));
                                    assert(toks_i.skip(2) =~= spec_tokens_from(s, j2));
                                    assert(filter_ws_tokens(toks_i) == seq![((sr2.0, j, j2), true)]
                                        + filter_ws_tokens(spec_tokens_from(s, j2)));
                                }
                                r.push((t2, true));
                                proof {
                                    done = done.push(((sr2.0, j, j2), true));
                                    assert(target =~= done + filter_ws_tokens(
                                        spec_tokens_from(s, j2),
                                    ));
                                }
                            },
                        }
                    } else {
                        proof {
                            let toks_i = spec_tokens_from(s, i);
                            assert(spec_tokens_from(s, j) =~= Seq::<(Lexeme, int, int)>::empty());
                            assert(toks_i =~= seq![(sr.0, i, j)]);
                            assert(filter_ws_tokens(toks_i) =~= Seq::<
                                ((Lexeme, int, int), bool),
                            >::empty());
                        }
                    }
                } else {
                    proof {
                        let toks_i = spec_tokens_from(s, i);
                        assert(toks_i[0] == (sr.0, i, j));
                        assert(toks_i.skip(1) =~= spec_tokens_from(s, j));
                        assert(filter_ws_tokens(toks_i) == seq![((sr.0, i, j), false)]
                            + filter_ws_tokens(spec_tokens_from(s, j)));
                    }
                    r.push((t, false));
                    proof {
                        done = done.push(((sr.0, i, j), false));
                        assert(target =~= done + filter_ws_tokens(spec_tokens_from(s, j)));
                    }
                }
            },
        }
    }
    proof {
        assert(spec_tokens_from(s, cursor.spec_idx()) =~= Seq::<(Lexeme, int, int)>::empty());
        assert(filter_ws_tokens(spec_tokens_from(s, cursor.spec_idx())) =~= Seq::<
            ((Lexeme, int, int), bool),
        >::empty());
        assert(target =~= done);
    }
    r
}

} // verus!
