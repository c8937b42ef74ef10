//! The lexical scanning rules, stated as spec functions over a character
//! sequence and a position. These definitions are the reference meaning of
//! the lexer: `lex_from` names the token that starts at a given position
//! and the position right after it.

use crate::token::Lexeme;
use vstd::prelude::*;

verus! {

// ---------------------------------------------------------------------------
// Character classes
// ---------------------------------------------------------------------------

/// Whitespace skipped between tokens.
pub open spec fn is_ws(c: char) -> bool {
    c == ' ' || c == '\n' || c == '\t' || c == '\r'
}

/// An ASCII decimal digit.
pub open spec fn is_digit(c: char) -> bool {
    '0' <= c && c <= '9'
}

/// An ASCII letter.
pub open spec fn is_letter(c: char) -> bool {
    ('a' <= c && c <= 'z') || ('A' <= c && c <= 'Z')
}

/// Whether `char::is_alphanumeric` holds of a character beyond ASCII. The
/// full Unicode classification is not restated here; the trusted wrapper in
/// the lexer ties this name to the standard library.
pub uninterp spec fn alnum_beyond_ascii(c: char) -> bool;

/// Whether `char::is_alphanumeric` holds of `c`: on ASCII exactly the
/// digits and letters, beyond ASCII whatever the Unicode tables say.
pub open spec fn alnum(c: char) -> bool {
    if c as u32 <= 127 {
        is_digit(c) || is_letter(c)
    } else {
        alnum_beyond_ascii(c)
    }
}

/// A character that may continue an identifier.
pub open spec fn is_ident_char(c: char) -> bool {
    alnum(c) || c == '_'
}

// ---------------------------------------------------------------------------
// Spec-level scanning
// ---------------------------------------------------------------------------

/// First position at or after `i` that does not hold whitespace.
pub open spec fn ws_end(s: Seq<char>, i: int) -> int
    decreases s.len() - i,
{
    if i < s.len() && is_ws(s[i]) {
        ws_end(s, i + 1)
    } else {
        i
    }
}

/// End of the run of digits starting at `i`.
pub open spec fn digits_end(s: Seq<char>, i: int) -> int
    decreases s.len() - i,
{
    if i < s.len() && is_digit(s[i]) {
        digits_end(s, i + 1)
    } else {
        i
    }
}

/// End of the run of identifier characters starting at `i`.
pub open spec fn ident_end(s: Seq<char>, i: int) -> int
    decreases s.len() - i,
{
    if i < s.len() && is_ident_char(s[i]) {
        ident_end(s, i + 1)
    } else {
        i
    }
}

/// End of the number lexeme whose first character stands at `p`: a digit
/// run, then a fractional part only when a digit stands right after the
/// `.`, then an exponent only when a digit stands after the `e`/`E` marker
/// and its optional sign. A `.`, marker or sign with no digit behind it is
/// not part of the number.
pub open spec fn number_end(s: Seq<char>, p: int) -> int {
    let d1 = digits_end(s, p + 1);
    let d2 = if d1 < s.len() && s[d1] == '.' && d1 + 1 < s.len() && is_digit(s[d1 + 1]) {
        digits_end(s, d1 + 1)
    } else {
        d1
    };
    if d2 < s.len() && (s[d2] == 'e' || s[d2] == 'E') {
        let e = if d2 + 1 < s.len() && (s[d2 + 1] == '+' || s[d2 + 1] == '-') {
            d2 + 2
        } else {
            d2 + 1
        };
        if e < s.len() && is_digit(s[e]) {
            digits_end(s, e)
        } else {
            d2
        }
    } else {
        d2
    }
}

/// What one resolved escape sequence contributes to a string payload:
/// the fixed table, and a verbatim `\` plus the character for anything else.
pub open spec fn esc_char(c: char) -> Seq<char> {
    if c == '"' {
        seq!['"']
    } else if c == '\\' {
        seq!['\\']
    } else if c == 'n' {
        seq!['\n']
    } else if c == 't' {
        seq!['\t']
    } else if c == 'r' {
        seq!['\r']
    } else if c == 'f' {
        seq!['\u{000C}']
    } else if c == 'b' {
        seq!['\u{0008}']
    } else if c == '/' {
        seq!['/']
    } else {
        seq!['\\', c]
    }
}

/// Scans a string literal's content from `i` (the position right after the
/// opening quote). Returns the resolved payload and the position of the
/// closing quote, or `s.len()` when the input ends first (the payload is
/// then silently truncated).
pub open spec fn str_scan(s: Seq<char>, i: int) -> (Seq<char>, int)
    decreases s.len() - i,
{
    if i < 0 || i >= s.len() {
        (Seq::empty(), s.len() as int)
    } else if s[i] == '"' {
        (Seq::empty(), i)
    } else if s[i] == '\\' {
        if i + 1 < s.len() {
            let r = str_scan(s, i + 2);
            (esc_char(s[i + 1]) + r.0, r.1)
        } else {
            (Seq::empty(), s.len() as int)
        }
    } else {
        let r = str_scan(s, i + 1);
        (seq![s[i]] + r.0, r.1)
    }
}

/// How far a speculative keyword match reaches: the first index `>= j` in
/// `kw` whose character does not stand at `p + j` in the input, or
/// `kw.len()` when all of them do.
pub open spec fn kw_match_from(s: Seq<char>, p: int, kw: Seq<char>, j: int) -> int
    decreases kw.len() - j,
{
    if j >= kw.len() {
        kw.len() as int
    } else if p + j < s.len() && s[p + j] == kw[j] {
        kw_match_from(s, p, kw, j + 1)
    } else {
        j
    }
}

/// The token produced for input that starts at `p` with the first character
/// of keyword `kw`: the keyword's own token when the whole keyword matches
/// and no identifier character follows, and otherwise the maximal identifier
/// run from `p` as an invalid-keyword token.
pub open spec fn kw_lex(s: Seq<char>, p: int, kw: Seq<char>, t: Lexeme) -> (Lexeme, int) {
    let l = kw_match_from(s, p, kw, 1);
    if l == kw.len() {
        let q = p + kw.len();
        if q < s.len() && is_ident_char(s[q]) {
            (Lexeme::InvalidWord(s.subrange(p, ident_end(s, q))), ident_end(s, q))
        } else {
            (t, q)
        }
    } else {
        (Lexeme::InvalidWord(s.subrange(p, ident_end(s, p + l))), ident_end(s, p + l))
    }
}

/// The token starting at position `i0` of `s`, and the position right after
/// it: leading whitespace is skipped, then exactly one of the lexical rules
/// applies. This is the reference meaning of `Lexer::next_token`.
pub open spec fn lex_from(s: Seq<char>, i0: int) -> (Lexeme, int) {
    let i = ws_end(s, i0);
    if i >= s.len() {
        (Lexeme::End, s.len() as int)
    } else {
        let c = s[i];
        if c == '[' {
            (Lexeme::LSquare, i + 1)
        } else if c == ']' {
            (Lexeme::RSquare, i + 1)
        } else if c == '{' {
            (Lexeme::LBrace, i + 1)
        } else if c == '}' {
            (Lexeme::RBrace, i + 1)
        } else if c == ',' {
            (Lexeme::Comma, i + 1)
        } else if c == ':' {
            (Lexeme::Colon, i + 1)
        } else if c == 'n' {
            kw_lex(s, i, seq!['n', 'u', 'l', 'l'], Lexeme::NullLit)
        } else if c == 't' {
            kw_lex(s, i, seq!['t', 'r', 'u', 'e'], Lexeme::BooleanLit(true))
        } else if c == 'f' {
            kw_lex(s, i, seq!['f', 'a', 'l', 's', 'e'], Lexeme::BooleanLit(false))
        } else if is_letter(c) {
            (Lexeme::InvalidWord(s.subrange(i, ident_end(s, i + 1))), ident_end(s, i + 1))
        } else if is_digit(c) || c == '-' {
            (Lexeme::NumberLit(s.subrange(i, number_end(s, i))), number_end(s, i))
        } else if c == '"' {
            let r = str_scan(s, i + 1);
            (Lexeme::StringLit(r.0), if r.1 < s.len() {
                r.1 + 1
            } else {
                s.len() as int
            })
        } else {
            (Lexeme::IllegalChar(c), i + 1)
        }
    }
}

// ---------------------------------------------------------------------------
// Bounds of the scanning functions
// ---------------------------------------------------------------------------

pub broadcast proof fn lemma_ws_end_bounds(s: Seq<char>, i: int)
    ensures
        i <= #[trigger] ws_end(s, i),
        i <= s.len() ==> ws_end(s, i) <= s.len(),
    decreases s.len() - i,
{
    if i < s.len() && is_ws(s[i]) {
        lemma_ws_end_bounds(s, i + 1);
    }
}

pub broadcast proof fn lemma_digits_end_bounds(s: Seq<char>, i: int)
    ensures
        i <= #[trigger] digits_end(s, i),
        i <= s.len() ==> digits_end(s, i) <= s.len(),
    decreases s.len() - i,
{
    if i < s.len() && is_digit(s[i]) {
        lemma_digits_end_bounds(s, i + 1);
    }
}

pub broadcast proof fn lemma_ident_end_bounds(s: Seq<char>, i: int)
    ensures
        i <= #[trigger] ident_end(s, i),
        i <= s.len() ==> ident_end(s, i) <= s.len(),
    decreases s.len() - i,
{
    if i < s.len() && is_ident_char(s[i]) {
        lemma_ident_end_bounds(s, i + 1);
    }
}

pub broadcast proof fn lemma_number_end_bounds(s: Seq<char>, p: int)
    requires
        0 <= p < s.len(),
    ensures
        p + 1 <= #[trigger] number_end(s, p) <= s.len(),
{
    lemma_digits_end_bounds(s, p + 1);
    let d1 = digits_end(s, p + 1);
    if d1 < s.len() && s[d1] == '.' && d1 + 1 < s.len() && is_digit(s[d1 + 1]) {
        lemma_digits_end_bounds(s, d1 + 1);
    }
    let d2 = if d1 < s.len() && s[d1] == '.' && d1 + 1 < s.len() && is_digit(s[d1 + 1]) {
        digits_end(s, d1 + 1)
    } else {
        d1
    };
    if d2 < s.len() && (s[d2] == 'e' || s[d2] == 'E') {
        if d2 + 1 < s.len() && (s[d2 + 1] == '+' || s[d2 + 1] == '-') {
            lemma_digits_end_bounds(s, d2 + 2);
        } else {
            lemma_digits_end_bounds(s, d2 + 1);
        }
    }
}

pub broadcast proof fn lemma_str_scan_bounds(s: Seq<char>, i: int)
    requires
        0 <= i <= s.len(),
    ensures
        i <= (#[trigger] str_scan(s, i)).1 <= s.len(),
    decreases s.len() - i,
{
    if i < s.len() && s[i] != '"' {
        if s[i] == '\\' {
            if i + 1 < s.len() {
                lemma_str_scan_bounds(s, i + 2);
            }
        } else {
            lemma_str_scan_bounds(s, i + 1);
        }
    }
}

pub broadcast proof fn lemma_kw_match_bounds(s: Seq<char>, p: int, kw: Seq<char>, j: int)
    requires
        1 <= j <= kw.len(),
    ensures
        j <= #[trigger] kw_match_from(s, p, kw, j) <= kw.len(),
        kw_match_from(s, p, kw, j) > j ==> p + kw_match_from(s, p, kw, j) <= s.len(),
    decreases kw.len() - j,
{
    if j < kw.len() && p + j < s.len() && s[p + j] == kw[j] {
        lemma_kw_match_bounds(s, p, kw, j + 1);
    }
}

/// A token other than end-of-input stands on at least one character: the
/// position after it is strictly beyond the scan's start.
pub proof fn lemma_lex_advances(s: Seq<char>, i: int)
    requires
        0 <= i <= s.len(),
    ensures
        i <= lex_from(s, i).1 <= s.len(),
        !(lex_from(s, i).0 is End) ==> lex_from(s, i).1 > i,
        lex_from(s, i).0 is End ==> lex_from(s, i).1 == s.len(),
{
    lemma_ws_end_bounds(s, i);
    let j = ws_end(s, i);
    if j < s.len() {
        let c = s[j];
        lemma_ident_end_bounds(s, j + 1);
        lemma_number_end_bounds(s, j);
        lemma_str_scan_bounds(s, j + 1);
        if c == 'n' {
            lemma_kw_lex_advances(s, j, seq!['n', 'u', 'l', 'l'], Lexeme::NullLit);
        } else if c == 't' {
            lemma_kw_lex_advances(s, j, seq!['t', 'r', 'u', 'e'], Lexeme::BooleanLit(true));
        } else if c == 'f' {
            lemma_kw_lex_advances(s, j, seq!['f', 'a', 'l', 's', 'e'], Lexeme::BooleanLit(false));
        }
    }
}

proof fn lemma_kw_lex_advances(s: Seq<char>, p: int, kw: Seq<char>, t: Lexeme)
    requires
        0 <= p < s.len(),
        1 <= kw.len(),
        !(t is End),
    ensures
        p < kw_lex(s, p, kw, t).1 <= s.len(),
        !(kw_lex(s, p, kw, t).0 is End),
{
    lemma_kw_match_bounds(s, p, kw, 1);
    let l = kw_match_from(s, p, kw, 1);
    if l == kw.len() {
        let q = p + kw.len();
        if q < s.len() && is_ident_char(s[q]) {
            lemma_ident_end_bounds(s, q);
        }
    } else {
        lemma_ident_end_bounds(s, p + l);
    }
}


} // verus!
