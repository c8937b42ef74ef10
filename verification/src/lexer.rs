//! The lexer: a single-pass, one-character-lookahead scanner over a decoded
//! character sequence.
//!
//! `Lexer::next_token` is proved to return exactly the token and end
//! position that `crate::scan::lex_from` names for its current cursor.

use crate::scan::{
    alnum, alnum_beyond_ascii, digits_end, esc_char, ident_end, is_digit, is_ident_char,
    is_letter, kw_lex, kw_match_from, lemma_digits_end_bounds, lemma_ident_end_bounds,
    lemma_kw_match_bounds, lemma_number_end_bounds, lemma_ws_end_bounds, lex_from, number_end,
    str_scan, ws_end,
};
use crate::token::{Lexeme, Token};
use vstd::prelude::*;

verus! {

broadcast use {
    vstd::seq_lib::group_seq_properties,
    lemma_ws_end_bounds,
    lemma_digits_end_bounds,
    lemma_ident_end_bounds,
};

/// Relies on char::is_alphanumeric: a pure function of the character that
/// holds of exactly the ASCII digits and letters within ASCII, and of what
/// the Unicode tables classify as alphanumeric beyond it.
#[verifier::external_body]
fn is_alnum_char(c: char) -> (r: bool)
    ensures
        r == alnum(c),
        (c as u32 > 127) ==> r == alnum_beyond_ascii(c),
{
    c.is_alphanumeric()
}

/// Relies on String::push: appends exactly the given character.
#[verifier::external_body]
pub(crate) fn push_char(s: &mut String, c: char)
    ensures
        final(s)@ == old(s)@.push(c),
{
    s.push(c);
}

fn digit_char(c: char) -> (r: bool)
    ensures
        r == is_digit(c),
{
    '0' <= c && c <= '9'
}

fn letter_char(c: char) -> (r: bool)
    ensures
        r == is_letter(c),
{
    ('a' <= c && c <= 'z') || ('A' <= c && c <= 'Z')
}

fn ident_char(c: char) -> (r: bool)
    ensures
        r == is_ident_char(c),
{
    is_alnum_char(c) || c == '_'
}

// ---------------------------------------------------------------------------
// The lexer
// ---------------------------------------------------------------------------

/// Single-pass scanner. The cursor advances monotonically; lookahead is one
/// character via `peek`.
pub struct Lexer {
    /// Decoded characters to analyze.
    input: Vec<char>,
    /// Position of the character under examination.
    position: usize,
    /// Position after the character under examination.
    next_position: usize,
    /// The character under examination, or `None` past the end.
    ch: Option<char>,
}

impl Lexer {
    /// The input text being scanned.
    pub closed spec fn text(&self) -> Seq<char> {
        self.input@
    }

    /// The scan position: the index of the character under examination, or
    /// the input's length when the input is exhausted.
    pub closed spec fn cursor(&self) -> int {
        if self.ch is Some {
            self.position as int
        } else {
            self.input@.len() as int
        }
    }

    /// The cursor fields are consistent with the input text.
    pub closed spec fn wf(&self) -> bool {
        &&& self.next_position <= self.input@.len()
        &&& match self.ch {
            Some(c) => {
                &&& 1 <= self.next_position
                &&& self.position + 1 == self.next_position
                &&& self.position < self.input@.len()
                &&& self.input@[self.position as int] == c
            },
            None => self.next_position == self.input@.len(),
        }
    }

    /// The cursor never leaves the input.
    pub proof fn lemma_cursor_in_range(&self)
        requires
            self.wf(),
        ensures
            0 <= self.cursor() <= self.text().len(),
    {
    }

    pub fn new(input: Vec<char>) -> (l: Lexer)
        ensures
            l.wf(),
            l.text() == input@,
            l.cursor() == 0,
    {
        if input.len() > 0 {
            let c = input[0];
            Lexer { input, position: 0, next_position: 1, ch: Some(c) }
        } else {
            Lexer { input, position: 0, next_position: 0, ch: None }
        }
    }

    /// Consumes the character under examination and moves to the next one.
    fn read_char(&mut self)
        requires
            old(self).wf(),
        ensures
            final(self).wf(),
            final(self).text() == old(self).text(),
            final(self).cursor() == if old(self).cursor() < old(self).text().len() {
                old(self).cursor() + 1
            } else {
                old(self).cursor()
            },
    {
        if self.next_position < self.input.len() {
            let c = self.input[self.next_position];
            self.ch = Some(c);
            self.position = self.next_position;
            self.next_position = self.next_position + 1;
        } else {
            self.ch = None;
        }
    }

    /// The character right after the one under examination, if any.
    fn peek(&self) -> (r: Option<char>)
        requires
            self.wf(),
        ensures
            r == if self.cursor() + 1 < self.text().len() as int {
                Some(self.text()[self.cursor() + 1])
            } else {
                None::<char>
            },
    {
        if self.next_position < self.input.len() {
            Some(self.input[self.next_position])
        } else {
            None
        }
    }

    /// Skips whitespace, leaving the cursor on the first other character.
    fn skip_whitespace(&mut self)
        requires
            old(self).wf(),
        ensures
            final(self).wf(),
            final(self).text() == old(self).text(),
            final(self).cursor() == ws_end(old(self).text(), old(self).cursor()),
    {
        loop
            invariant
                self.wf(),
                self.text() == old(self).text(),
                ws_end(self.text(), self.cursor()) == ws_end(old(self).text(), old(self).cursor()),
            decreases self.text().len() - self.cursor(),
        {
            match self.ch {
                Some(c) => {
                    if c == ' ' || c == '\n' || c == '\t' || c == '\r' {
                        self.read_char();
                    } else {
                        return ;
                    }
                },
                None => {
                    return ;
                },
            }
        }
    }

    /// Copies `self.input[from..to]` into an owned string.
    fn collect_range(&self, from: usize, to: usize) -> (out: String)
        requires
            self.wf(),
            from <= to,
            to <= self.text().len(),
        ensures
            out@ == self.text().subrange(from as int, to as int),
    {
        let mut out = String::new();
        let mut j = from;
        while j < to
            invariant
                self.wf(),
                from <= j <= to,
                to <= self.text().len(),
                out@ == self.text().subrange(from as int, j as int),
            decreases to - j,
        {
            push_char(&mut out, self.input[j]);
            j = j + 1;
            proof {
                assert(self.text().subrange(from as int, j as int) =~= self.text().subrange(
                    from as int,
                    j - 1,
                ).push(self.text()[j - 1]));
            }
        }
        out
    }

    /// Consumes the next character exactly when it is the expected one.
    fn read_char_is_matched(&mut self, expected: char) -> (r: bool)
        requires
            old(self).wf(),
        ensures
            final(self).wf(),
            final(self).text() == old(self).text(),
            r == (old(self).cursor() + 1 < old(self).text().len() && old(self).text()[old(
                self,
            ).cursor() + 1] == expected),
            r ==> final(self).cursor() == old(self).cursor() + 1,
            !r ==> *final(self) == *old(self),
    {
        match self.peek() {
            Some(c) => {
                if c == expected {
                    self.read_char();
                    return true;
                }
            },
            None => {},
        }
        false
    }

    /// Consumes the run of digits that follows the current character.
    fn scan_digits(&mut self)
        requires
            old(self).wf(),
            old(self).cursor() < old(self).text().len(),
        ensures
            final(self).wf(),
            final(self).text() == old(self).text(),
            final(self).cursor() == digits_end(old(self).text(), old(self).cursor() + 1) - 1,
            final(self).cursor() < final(self).text().len(),
    {
        loop
            invariant
                self.wf(),
                self.text() == old(self).text(),
                self.cursor() < self.text().len(),
                digits_end(self.text(), self.cursor() + 1) == digits_end(
                    old(self).text(),
                    old(self).cursor() + 1,
                ),
            ensures
                self.wf(),
                self.text() == old(self).text(),
                self.cursor() < self.text().len(),
                digits_end(self.text(), self.cursor() + 1) == digits_end(
                    old(self).text(),
                    old(self).cursor() + 1,
                ),
                digits_end(self.text(), self.cursor() + 1) == self.cursor() + 1,
            decreases self.text().len() - self.cursor(),
        {
            match self.peek() {
                Some(c) => {
                    if digit_char(c) {
                        self.read_char();
                    } else {
                        break ;
                    }
                },
                None => {
                    break ;
                },
            }
        }
    }

    /// The character `k` places past the one `peek` would give, if any.
    fn peek_ahead(&self, k: usize) -> (r: Option<char>)
        requires
            self.wf(),
        ensures
            r == if self.cursor() + 1 + k < self.text().len() as int {
                Some(self.text()[self.cursor() + 1 + k])
            } else {
                None::<char>
            },
    {
        let n = self.input.len();
        if self.next_position < n && n - self.next_position > k {
            Some(self.input[self.next_position + k])
        } else {
            None
        }
    }

    /// Scans one number token: the current character, a digit run, a
    /// fractional part only when a digit stands right after the `.`, and an
    /// exponent only when a digit stands after the marker and its optional
    /// sign, as `number_end` states. The payload is the verbatim matched
    /// text.
    fn read_number(&mut self) -> (t: Token)
        requires
            old(self).wf(),
            old(self).cursor() < old(self).text().len(),
        ensures
            final(self).wf(),
            final(self).text() == old(self).text(),
            ({
                let e = number_end(old(self).text(), old(self).cursor());
                &&& t@ == Lexeme::NumberLit(old(self).text().subrange(old(self).cursor(), e))
                &&& final(self).cursor() == e - 1
            }),
    {
        let ghost s = old(self).text();
        let ghost p = old(self).cursor();
        let start = self.position;
        self.scan_digits();
        let has_frac = match (self.peek(), self.peek_ahead(1)) {
            (Some(c1), Some(c2)) => c1 == '.' && digit_char(c2),
            _ => false,
        };
        if has_frac {
            self.read_char();
            self.scan_digits();
        }
        let has_exp = match self.peek() {
            Some(c1) => {
                if c1 == 'e' || c1 == 'E' {
                    match self.peek_ahead(1) {
                        Some(c2) => {
                            if c2 == '+' || c2 == '-' {
                                match self.peek_ahead(2) {
                                    Some(c3) => digit_char(c3),
                                    None => false,
                                }
                            } else {
                                digit_char(c2)
                            }
                        },
                        None => false,
                    }
                } else {
                    false
                }
            },
            None => false,
        };
        if has_exp {
            self.read_char();
            let signed = match self.peek() {
                Some(c) => c == '+' || c == '-',
                None => false,
            };
            if signed {
                self.read_char();
            }
            self.scan_digits();
        }
        proof {
            lemma_number_end_bounds(s, p);
        }
        let end_position = self.position;
        let identifier = self.collect_range(start, end_position + 1);
        Token::NumberLiteral(identifier)
    }

    /// Scans the content of a string literal, the current character being
    /// the opening quote: escape sequences are resolved by the fixed table
    /// (any other escaped character stays verbatim behind its backslash),
    /// and input that ends before the closing quote truncates the payload.
    fn read_string(&mut self) -> (out: String)
        requires
            old(self).wf(),
            old(self).cursor() < old(self).text().len(),
        ensures
            final(self).wf(),
            final(self).text() == old(self).text(),
            ({
                let r = str_scan(old(self).text(), old(self).cursor() + 1);
                &&& out@ == r.0
                &&& final(self).cursor() == r.1
            }),
    {
        let ghost s = old(self).text();
        self.read_char();
        let mut result = String::new();
        loop
            invariant
                self.wf(),
                self.text() == s,
                str_scan(s, old(self).cursor() + 1).0 == result@ + str_scan(s, self.cursor()).0,
                str_scan(s, old(self).cursor() + 1).1 == str_scan(s, self.cursor()).1,
            ensures
                self.wf(),
                self.text() == s,
                str_scan(s, old(self).cursor() + 1).0 == result@ + str_scan(s, self.cursor()).0,
                str_scan(s, old(self).cursor() + 1).1 == str_scan(s, self.cursor()).1,
                str_scan(s, self.cursor()).0 == Seq::<char>::empty(),
                str_scan(s, self.cursor()).1 == self.cursor(),
            decreases s.len() - self.cursor(),
        {
            let ghost k = self.cursor();
            let ghost r0 = result@;
            match self.ch {
                None => {
                    break ;
                },
                Some(c) => {
                    if c == '"' {
                        break ;
                    }
                    if c == '\\' {
                        self.read_char();
                        match self.ch {
                            Some(c2) => {
                                if c2 == '"' {
                                    push_char(&mut result, '"');
                                } else if c2 == '\\' {
                                    push_char(&mut result, '\\');
                                } else if c2 == 'n' {
                                    push_char(&mut result, '\n');
                                } else if c2 == 't' {
                                    push_char(&mut result, '\t');
                                } else if c2 == 'r' {
                                    push_char(&mut result, '\r');
                                } else if c2 == 'f' {
                                    push_char(&mut result, '\u{000C}');
                                } else if c2 == 'b' {
                                    push_char(&mut result, '\u{0008}');
                                } else if c2 == '/' {
                                    push_char(&mut result, '/');
                                } else {
                                    push_char(&mut result, '\\');
                                    push_char(&mut result, c2);
                                }
                                proof {
                                    assert(result@ =~= r0 + esc_char(s[k + 1]));
                                    assert(r0 + str_scan(s, k).0 =~= result@ + str_scan(
                                        s,
                                        k + 2,
                                    ).0);
                                }
                            },
                            None => {
                                break ;
                            },
                        }
                    } else {
                        push_char(&mut result, c);
                        proof {
                            assert(r0 + str_scan(s, k).0 =~= result@ + str_scan(s, k + 1).0);
                        }
                    }
                    self.read_char();
                },
            }
        }
        proof {
            assert(result@ + Seq::<char>::empty() =~= result@);
        }
        result
    }

    /// Consumes the maximal identifier run whose first character stands at
    /// `start`, yielding it as an invalid-keyword token.
    fn read_identifier_from(&mut self, start: usize) -> (t: Token)
        requires
            old(self).wf(),
            start as int <= old(self).cursor(),
            old(self).cursor() < old(self).text().len(),
        ensures
            final(self).wf(),
            final(self).text() == old(self).text(),
            ({
                let e = ident_end(old(self).text(), old(self).cursor() + 1);
                &&& t@ == Lexeme::InvalidWord(old(self).text().subrange(start as int, e))
                &&& final(self).cursor() == e - 1
                &&& final(self).cursor() < final(self).text().len()
            }),
    {
        loop
            invariant
                self.wf(),
                self.text() == old(self).text(),
                start as int <= self.cursor() < self.text().len(),
                ident_end(self.text(), self.cursor() + 1) == ident_end(
                    old(self).text(),
                    old(self).cursor() + 1,
                ),
            ensures
                self.wf(),
                self.text() == old(self).text(),
                start as int <= self.cursor() < self.text().len(),
                ident_end(self.text(), self.cursor() + 1) == ident_end(
                    old(self).text(),
                    old(self).cursor() + 1,
                ),
                ident_end(self.text(), self.cursor() + 1) == self.cursor() + 1,
            decreases self.text().len() - self.cursor(),
        {
            match self.peek() {
                Some(c) => {
                    if ident_char(c) {
                        self.read_char();
                    } else {
                        break ;
                    }
                },
                None => {
                    break ;
                },
            }
        }
        let pos = self.position;
        let identifier = self.collect_range(start, pos + 1);
        Token::InvalidKeyword(identifier)
    }

    /// Matches the tail of a keyword, one character at a time, consuming
    /// each matched character.
    fn validate_keyword(&mut self, kw: &[char]) -> (r: bool)
        requires
            old(self).wf(),
            1 <= kw@.len(),
            old(self).cursor() < old(self).text().len(),
        ensures
            final(self).wf(),
            final(self).text() == old(self).text(),
            ({
                let l = kw_match_from(old(self).text(), old(self).cursor(), kw@, 1);
                &&& r == (l == kw@.len())
                &&& final(self).cursor() == old(self).cursor() + l - 1
                &&& final(self).cursor() < final(self).text().len()
            }),
    {
        let mut j: usize = 1;
        while j < kw.len()
            invariant
                self.wf(),
                self.text() == old(self).text(),
                1 <= j <= kw@.len(),
                kw_match_from(old(self).text(), old(self).cursor(), kw@, 1) == kw_match_from(
                    old(self).text(),
                    old(self).cursor(),
                    kw@,
                    j as int,
                ),
                self.cursor() == old(self).cursor() + j - 1,
                self.cursor() < self.text().len(),
            decreases kw@.len() - j,
        {
            if !self.read_char_is_matched(kw[j]) {
                return false;
            }
            j = j + 1;
        }
        true
    }

    /// Speculatively matches one keyword: on a full match not followed by an
    /// identifier character the keyword's token is produced; otherwise the
    /// maximal identifier run from the keyword's first character becomes an
    /// invalid-keyword token.
    fn read_keyword(&mut self, kw: &[char], token: Token) -> (t: Token)
        requires
            old(self).wf(),
            old(self).cursor() < old(self).text().len(),
            1 <= kw@.len(),
        ensures
            final(self).wf(),
            final(self).text() == old(self).text(),
            ({
                let r = kw_lex(old(self).text(), old(self).cursor(), kw@, token@);
                &&& t@ == r.0
                &&& final(self).cursor() == r.1 - 1
                &&& final(self).cursor() < final(self).text().len()
            }),
    {
        proof {
            lemma_kw_match_bounds(old(self).text(), old(self).cursor(), kw@, 1);
        }
        let start = self.position;
        if self.validate_keyword(kw) {
            match self.peek() {
                Some(next_char) => {
                    if ident_char(next_char) {
                        self.read_identifier_from(start)
                    } else {
                        token
                    }
                },
                None => token,
            }
        } else {
            self.read_identifier_from(start)
        }
    }

    /// Scans and returns exactly one token, advancing the cursor past
    /// everything the token consumed. Never fails: malformed input comes
    /// back as an `Illegal` or `InvalidKeyword` token, and an exhausted
    /// input as `EOF`, forever.
    pub fn next_token(&mut self) -> (t: Token)
        requires
            old(self).wf(),
        ensures
            final(self).wf(),
            final(self).text() == old(self).text(),
            ({
                let r = lex_from(old(self).text(), old(self).cursor());
                &&& t@ == r.0
                &&& final(self).cursor() == r.1
            }),
    {
        self.skip_whitespace();
        let t = match self.ch {
            None => Token::EOF,
            Some(c) => {
                if c == '[' {
                    Token::LSquare
                } else if c == ']' {
                    Token::RSquare
                } else if c == '{' {
                    Token::LBrace
                } else if c == '}' {
                    Token::RBrace
                } else if c == ',' {
                    Token::Comma
                } else if c == ':' {
                    Token::Colon
                } else if c == 'n' {
                    self.read_keyword(&['n', 'u', 'l', 'l'], Token::NullLiteral)
                } else if c == 't' {
                    self.read_keyword(&['t', 'r', 'u', 'e'], Token::BooleanLiteral(true))
                } else if c == 'f' {
                    self.read_keyword(&['f', 'a', 'l', 's', 'e'], Token::BooleanLiteral(false))
                } else if letter_char(c) {
                    let start = self.position;
                    self.read_identifier_from(start)
                } else if digit_char(c) || c == '-' {
                    self.read_number()
                } else if c == '"' {
                    let text = self.read_string();
                    Token::StringLiteral(text)
                } else {
                    Token::Illegal(c)
                }
            },
        };
        self.read_char();
        t
    }
}

} // verus!
