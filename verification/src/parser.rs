//! The recursive-descent parser and the streaming top-level mode.
//!
//! The grammar productions are stated first as spec functions over the
//! input text and a position (`sp_array`, `sp_object`, `sp_parse`,
//! `sp_stream_items`), pulling tokens through `crate::scan::lex_from`.
//! The executable parser is then proved to return exactly what those
//! functions name.

use crate::lexer::Lexer;
use crate::scan::{lemma_lex_advances, lex_from};
use crate::token::{Lexeme, Token};
use crate::value::{
    fields_model, key_idx, lemma_fields_model_index, lemma_fields_model_len,
    lemma_fields_model_push, lemma_fields_model_update, lemma_key_idx, lemma_key_idx_found,
    lemma_vals_model_push, opt_model, upsert, vals_model, value_model, JsonModel,
};
use vstd::prelude::*;

pub use crate::value::{JsonValue, ParseError};

verus! {

broadcast use {
    vstd::seq_lib::group_seq_properties,
    crate::value::lemma_vals_model_len,
    crate::value::lemma_fields_model_len,
};

/// Outcome of a spec-level production: a value and the position right after
/// it, or the error that aborted the parse.
pub enum ValOut {
    Val(JsonModel, int),
    Fail(ParseError),
}

/// Outcome of one spec-level streaming pull: the next element and the
/// position after it, a terminal error, or the end of the sequence.
pub enum StreamOut {
    Item(JsonModel, int),
    Fault(ParseError),
    Finished,
}

/// The position a production continues from after a token that ended at
/// `j`, clamped so that it strictly advances and stays inside the input.
/// Whenever the token came from `lex_from` at `i` the clamp never fires
/// (`lemma_lex_advances`); it only keeps the recursion below well-founded.
pub open spec fn adv(s: Seq<char>, i: int, j: int) -> int {
    if j <= i {
        i + 1
    } else if j > s.len() {
        s.len() as int
    } else {
        j
    }
}

/// Whether the token starting at `j` may follow a scalar inside an array.
pub open spec fn lex_sep(s: Seq<char>, j: int) -> bool {
    lex_from(s, j).0 is Comma || lex_from(s, j).0 is RSquare
}

/// The array production, entered right after its `[`, with the elements
/// parsed so far in `acc`. A scalar must be followed by `,` or `]`; nested
/// constructs recurse; a `,` is skipped; `]` closes the array.
pub open spec fn sp_array(s: Seq<char>, i: int, acc: Seq<JsonModel>) -> ValOut
    decreases s.len() - i, 1int, acc.len(),
{
    let t = lex_from(s, i);
    let j = adv(s, i, t.1);
    match t.0 {
        Lexeme::StringLit(p) => if lex_sep(s, j) {
            sp_array(s, j, acc.push(JsonModel::String(p)))
        } else {
            ValOut::Fail(ParseError::MissingSeparator)
        },
        Lexeme::NumberLit(p) => if lex_sep(s, j) {
            sp_array(s, j, acc.push(JsonModel::Number(p)))
        } else {
            ValOut::Fail(ParseError::MissingSeparator)
        },
        Lexeme::BooleanLit(b) => if lex_sep(s, j) {
            sp_array(s, j, acc.push(JsonModel::Boolean(b)))
        } else {
            ValOut::Fail(ParseError::MissingSeparator)
        },
        Lexeme::NullLit => if lex_sep(s, j) {
            sp_array(s, j, acc.push(JsonModel::Null))
        } else {
            ValOut::Fail(ParseError::MissingSeparator)
        },
        Lexeme::LBrace => match sp_object(
            s,
            j,
            Seq::empty(),
            true,
            Seq::empty(),
            Option::None,
        ) {
            ValOut::Val(m, k) => sp_array(s, adv(s, i, k), acc.push(m)),
            ValOut::Fail(e) => ValOut::Fail(e),
        },
        Lexeme::RBrace => ValOut::Fail(ParseError::BraceInArray),
        Lexeme::LSquare => match sp_array(s, j, Seq::empty()) {
            ValOut::Val(m, k) => sp_array(s, adv(s, i, k), acc.push(m)),
            ValOut::Fail(e) => ValOut::Fail(e),
        },
        Lexeme::RSquare => ValOut::Val(JsonModel::Array(acc), j),
        Lexeme::Comma => sp_array(s, j, acc),
        Lexeme::Colon => ValOut::Fail(ParseError::ColonInArray),
        Lexeme::IllegalChar(c) => ValOut::Fail(ParseError::IllegalCharacter(c)),
        Lexeme::InvalidWord(_) => ValOut::Fail(ParseError::InvalidWord),
        Lexeme::End => ValOut::Fail(ParseError::UnexpectedEndOfInput),
    }
}

/// The object production, entered right after its `{`. `is_key` tells
/// whether a string would be taken as the pending key (a `:` switches it
/// off); `,` and `}` commit the pending pair, failing when either half is
/// missing; the committed pair follows the last-write-wins rule.
pub open spec fn sp_object(
    s: Seq<char>,
    i: int,
    acc: Seq<(Seq<char>, JsonModel)>,
    is_key: bool,
    key: Seq<char>,
    val: Option<JsonModel>,
) -> ValOut
    decreases s.len() - i, 0int, acc.len(),
{
    let t = lex_from(s, i);
    let j = adv(s, i, t.1);
    match t.0 {
        Lexeme::StringLit(p) => if is_key {
            sp_object(s, j, acc, is_key, p, val)
        } else {
            sp_object(s, j, acc, is_key, key, Option::Some(JsonModel::String(p)))
        },
        Lexeme::NumberLit(p) => sp_object(
            s,
            j,
            acc,
            is_key,
            key,
            Option::Some(JsonModel::Number(p)),
        ),
        Lexeme::BooleanLit(b) => sp_object(
            s,
            j,
            acc,
            is_key,
            key,
            Option::Some(JsonModel::Boolean(b)),
        ),
        Lexeme::NullLit => sp_object(s, j, acc, is_key, key, Option::Some(JsonModel::Null)),
        Lexeme::Colon => sp_object(s, j, acc, false, key, val),
        Lexeme::Comma => match val {
            Option::Some(v) => if key.len() == 0 {
                ValOut::Fail(ParseError::MissingEntry)
            } else {
                sp_object(s, j, upsert(acc, key, v), true, Seq::empty(), Option::None)
            },
            Option::None => ValOut::Fail(ParseError::MissingEntry),
        },
        Lexeme::LBrace => match sp_object(
            s,
            j,
            Seq::empty(),
            true,
            Seq::empty(),
            Option::None,
        ) {
            ValOut::Val(m, k) => sp_object(s, adv(s, i, k), acc, is_key, key, Option::Some(m)),
            ValOut::Fail(e) => ValOut::Fail(e),
        },
        Lexeme::RBrace => match val {
            Option::Some(v) => if key.len() == 0 {
                ValOut::Fail(ParseError::MissingEntry)
            } else {
                ValOut::Val(JsonModel::Object(upsert(acc, key, v)), j)
            },
            Option::None => ValOut::Fail(ParseError::MissingEntry),
        },
        Lexeme::LSquare => match sp_array(s, j, Seq::empty()) {
            ValOut::Val(m, k) => sp_object(s, adv(s, i, k), acc, is_key, key, Option::Some(m)),
            ValOut::Fail(e) => ValOut::Fail(e),
        },
        Lexeme::RSquare => ValOut::Fail(ParseError::BracketInObject),
        Lexeme::IllegalChar(c) => ValOut::Fail(ParseError::IllegalCharacter(c)),
        Lexeme::InvalidWord(_) => ValOut::Fail(ParseError::InvalidWord),
        Lexeme::End => ValOut::Fail(ParseError::UnexpectedEndOfInput),
    }
}

/// One full-tree parse from position `i`: exactly one leading token is
/// consumed, and it must open an array or an object.
pub open spec fn sp_parse(s: Seq<char>, i: int) -> ValOut {
    let t = lex_from(s, i);
    match t.0 {
        Lexeme::LSquare => sp_array(s, t.1, Seq::empty()),
        Lexeme::LBrace => sp_object(s, t.1, Seq::empty(), true, Seq::empty(), Option::None),
        Lexeme::End => ValOut::Fail(ParseError::UnexpectedEndOfInput),
        _ => ValOut::Fail(ParseError::InvalidStart),
    }
}

/// One streaming pull once the opening `[` has been consumed: `{` parses
/// one object, `,` is skipped, `]` and end-of-input finish the sequence,
/// and anything else is a terminal error.
pub open spec fn sp_stream_items(s: Seq<char>, i: int) -> StreamOut
    decreases s.len() - i,
{
    let t = lex_from(s, i);
    let j = adv(s, i, t.1);
    match t.0 {
        Lexeme::LBrace => match sp_object(
            s,
            j,
            Seq::empty(),
            true,
            Seq::empty(),
            Option::None,
        ) {
            ValOut::Val(m, k) => StreamOut::Item(m, k),
            ValOut::Fail(e) => StreamOut::Fault(e),
        },
        Lexeme::RSquare => StreamOut::Finished,
        Lexeme::Comma => sp_stream_items(s, j),
        Lexeme::End => StreamOut::Finished,
        _ => StreamOut::Fault(ParseError::StrayToken),
    }
}

/// The first streaming pull: one token decides whether the input is a
/// top-level array at all. An exhausted input finishes with no output.
pub open spec fn sp_stream_start(s: Seq<char>, i: int) -> StreamOut {
    let t = lex_from(s, i);
    match t.0 {
        Lexeme::LSquare => sp_stream_items(s, t.1),
        Lexeme::End => StreamOut::Finished,
        _ => StreamOut::Fault(ParseError::InvalidStart),
    }
}

// ---------------------------------------------------------------------------
// The executable parser
// ---------------------------------------------------------------------------

/// Recursive-descent parser over a lexer, with the two flags that drive the
/// streaming top-level state machine.
pub struct Parser {
    lexer: Lexer,
    started: bool,
    finished: bool,
}

impl Parser {
    /// The input text being parsed.
    pub closed spec fn text(&self) -> Seq<char> {
        self.lexer.text()
    }

    /// The position of the next token to be pulled.
    pub closed spec fn pos(&self) -> int {
        self.lexer.cursor()
    }

    /// The streaming mode has consumed its opening `[`.
    pub closed spec fn is_started(&self) -> bool {
        self.started
    }

    /// The streaming mode has reached its terminal state.
    pub closed spec fn is_finished(&self) -> bool {
        self.finished
    }

    pub closed spec fn wf(&self) -> bool {
        self.lexer.wf()
    }

    pub fn new(input: Vec<char>) -> (p: Parser)
        ensures
            p.wf(),
            p.text() == input@,
            p.pos() == 0,
            !p.is_started(),
            !p.is_finished(),
    {
        Parser { lexer: Lexer::new(input), started: false, finished: false }
    }

    /// Wraps an existing lexer, continuing from wherever its cursor stands.
    pub fn from_lexer(lexer: Lexer) -> (p: Parser)
        requires
            lexer.wf(),
        ensures
            p.wf(),
            p.text() == lexer.text(),
            p.pos() == lexer.cursor(),
            !p.is_started(),
            !p.is_finished(),
    {
        Parser { lexer, started: false, finished: false }
    }

    /// Parses exactly one complete value: the single leading token must
    /// open an array or an object, whose production then runs to its
    /// closing bracket or brace. The result is precisely `sp_parse` at the
    /// current position: one fully built tree, or the error of the first
    /// syntactic anomaly, with nothing partial recovered.
    pub fn parse(&mut self) -> (r: Result<JsonValue, ParseError>)
        requires
            old(self).wf(),
        ensures
            final(self).wf(),
            final(self).text() == old(self).text(),
            final(self).is_started() == old(self).is_started(),
            final(self).is_finished() == old(self).is_finished(),
            old(self).pos() <= final(self).pos() <= final(self).text().len(),
            ({
                let out = sp_parse(old(self).text(), old(self).pos());
                match r {
                    Ok(v) => out == ValOut::Val(v@, final(self).pos()),
                    Err(e) => out == ValOut::Fail(e),
                }
            }),
    {
        proof {
            self.lexer.lemma_cursor_in_range();
            lemma_lex_advances(old(self).text(), old(self).pos());
        }
        let t = self.lexer.next_token();
        match t {
            Token::LSquare => self.parse_array(),
            Token::LBrace => self.parse_object(),
            Token::EOF => Err(ParseError::UnexpectedEndOfInput),
            _ => Err(ParseError::InvalidStart),
        }
    }

    /// The array production, entered right after its `[`; proved equal to
    /// `sp_array` from the current position with an empty accumulator.
    fn parse_array(&mut self) -> (r: Result<JsonValue, ParseError>)
        requires
            old(self).wf(),
        ensures
            final(self).wf(),
            final(self).text() == old(self).text(),
            final(self).is_started() == old(self).is_started(),
            final(self).is_finished() == old(self).is_finished(),
            old(self).pos() <= final(self).pos() <= final(self).text().len(),
            ({
                let out = sp_array(old(self).text(), old(self).pos(), Seq::empty());
                match r {
                    Ok(v) => out == ValOut::Val(v@, final(self).pos()),
                    Err(e) => out == ValOut::Fail(e),
                }
            }),
        decreases old(self).text().len() - old(self).pos(),
    {
        let ghost s = old(self).text();
        proof {
            self.lexer.lemma_cursor_in_range();
        }
        let mut arr: Vec<JsonValue> = Vec::new();
        loop
            invariant
                self.wf(),
                s == old(self).text(),
                self.text() == s,
                self.is_started() == old(self).is_started(),
                self.is_finished() == old(self).is_finished(),
                0 <= old(self).pos() <= self.pos() <= s.len(),
                sp_array(s, old(self).pos(), Seq::empty()) == sp_array(
                    s,
                    self.pos(),
                    vals_model(arr@),
                ),
            decreases s.len() - self.pos(),
        {
            let ghost i = self.pos();
            let ghost acc = vals_model(arr@);
            proof {
                reveal_with_fuel(sp_array, 3);
                lemma_lex_advances(s, i);
            }
            let t = self.lexer.next_token();
            let ghost j = self.pos();
            match t {
                Token::StringLiteral(sv) => {
                    proof {
                        lemma_lex_advances(s, j);
                    }
                    let t2 = self.lexer.next_token();
                    match t2 {
                        Token::Comma => {
                            proof {
                                lemma_vals_model_push(arr@, JsonValue::String(sv));
                            }
                            arr.push(JsonValue::String(sv));
                        },
                        Token::RSquare => {
                            proof {
                                lemma_vals_model_push(arr@, JsonValue::String(sv));
                            }
                            arr.push(JsonValue::String(sv));
                            return Ok(JsonValue::Array(arr));
                        },
                        _ => {
                            return Err(ParseError::MissingSeparator);
                        },
                    }
                },
                Token::NumberLiteral(nv) => {
                    proof {
                        lemma_lex_advances(s, j);
                    }
                    let t2 = self.lexer.next_token();
                    match t2 {
                        Token::Comma => {
                            proof {
                                lemma_vals_model_push(arr@, JsonValue::Number(nv));
                            }
                            arr.push(JsonValue::Number(nv));
                        },
                        Token::RSquare => {
                            proof {
                                lemma_vals_model_push(arr@, JsonValue::Number(nv));
                            }
                            arr.push(JsonValue::Number(nv));
                            return Ok(JsonValue::Array(arr));
                        },
                        _ => {
                            return Err(ParseError::MissingSeparator);
                        },
                    }
                },
                Token::BooleanLiteral(bv) => {
                    proof {
                        lemma_lex_advances(s, j);
                    }
                    let t2 = self.lexer.next_token();
                    match t2 {
                        Token::Comma => {
                            proof {
                                lemma_vals_model_push(arr@, JsonValue::Boolean(bv));
                            }
                            arr.push(JsonValue::Boolean(bv));
                        },
                        Token::RSquare => {
                            proof {
                                lemma_vals_model_push(arr@, JsonValue::Boolean(bv));
                            }
                            arr.push(JsonValue::Boolean(bv));
                            return Ok(JsonValue::Array(arr));
                        },
                        _ => {
                            return Err(ParseError::MissingSeparator);
                        },
                    }
                },
                Token::NullLiteral => {
                    proof {
                        lemma_lex_advances(s, j);
                    }
                    let t2 = self.lexer.next_token();
                    match t2 {
                        Token::Comma => {
                            proof {
                                lemma_vals_model_push(arr@, JsonValue::Null);
                            }
                            arr.push(JsonValue::Null);
                        },
                        Token::RSquare => {
                            proof {
                                lemma_vals_model_push(arr@, JsonValue::Null);
                            }
                            arr.push(JsonValue::Null);
                            return Ok(JsonValue::Array(arr));
                        },
                        _ => {
                            return Err(ParseError::MissingSeparator);
                        },
                    }
                },
                Token::LBrace => {
                    let nested = self.parse_object();
                    match nested {
                        Ok(obj) => {
                            proof {
                                lemma_vals_model_push(arr@, obj);
                            }
                            arr.push(obj);
                        },
                        Err(e) => {
                            return Err(e);
                        },
                    }
                },
                Token::RBrace => {
                    return Err(ParseError::BraceInArray);
                },
                Token::LSquare => {
                    let nested = self.parse_array();
                    match nested {
                        Ok(sub) => {
                            proof {
                                lemma_vals_model_push(arr@, sub);
                            }
                            arr.push(sub);
                        },
                        Err(e) => {
                            return Err(e);
                        },
                    }
                },
                Token::RSquare => {
                    return Ok(JsonValue::Array(arr));
                },
                Token::Comma => {},
                Token::Colon => {
                    return Err(ParseError::ColonInArray);
                },
                Token::Illegal(c) => {
                    return Err(ParseError::IllegalCharacter(c));
                },
                Token::InvalidKeyword(_) => {
                    return Err(ParseError::InvalidWord);
                },
                Token::EOF => {
                    return Err(ParseError::UnexpectedEndOfInput);
                },
            }
        }
    }

    /// The object production, entered right after its `{`; proved equal to
    /// `sp_object` from the current position with an empty pending state.
    fn parse_object(&mut self) -> (r: Result<JsonValue, ParseError>)
        requires
            old(self).wf(),
        ensures
            final(self).wf(),
            final(self).text() == old(self).text(),
            final(self).is_started() == old(self).is_started(),
            final(self).is_finished() == old(self).is_finished(),
            old(self).pos() <= final(self).pos() <= final(self).text().len(),
            ({
                let out = sp_object(
                    old(self).text(),
                    old(self).pos(),
                    Seq::empty(),
                    true,
                    Seq::empty(),
                    Option::None,
                );
                match r {
                    Ok(v) => out == ValOut::Val(v@, final(self).pos()),
                    Err(e) => out == ValOut::Fail(e),
                }
            }),
        decreases old(self).text().len() - old(self).pos(),
    {
        let ghost s = old(self).text();
        proof {
            self.lexer.lemma_cursor_in_range();
        }
        let mut obj: Vec<(String, JsonValue)> = Vec::new();
        let mut is_key: bool = true;
        let mut key: String = String::new();
        let mut value: Option<JsonValue> = None;
        loop
            invariant
                self.wf(),
                s == old(self).text(),
                self.text() == s,
                self.is_started() == old(self).is_started(),
                self.is_finished() == old(self).is_finished(),
                0 <= old(self).pos() <= self.pos() <= s.len(),
                sp_object(s, old(self).pos(), Seq::empty(), true, Seq::empty(), Option::None)
                    == sp_object(
                    s,
                    self.pos(),
                    fields_model(obj@),
                    is_key,
                    key@,
                    opt_model(value),
                ),
            decreases s.len() - self.pos(),
        {
            let ghost i = self.pos();
            proof {
                lemma_lex_advances(s, i);
            }
            let t = self.lexer.next_token();
            match t {
                Token::StringLiteral(sv) => {
                    if is_key {
                        key = sv;
                    } else {
                        value = Some(JsonValue::String(sv));
                    }
                },
                Token::NullLiteral => {
                    value = Some(JsonValue::Null);
                },
                Token::NumberLiteral(nv) => {
                    value = Some(JsonValue::Number(nv));
                },
                Token::BooleanLiteral(bv) => {
                    value = Some(JsonValue::Boolean(bv));
                },
                Token::Colon => {
                    is_key = false;
                },
                Token::Comma => {
                    if key.as_str().is_empty() || value.is_none() {
                        return Err(ParseError::MissingEntry);
                    }
                    let v = value.unwrap();
                    upsert_field(&mut obj, key, v);
                    key = String::new();
                    value = None;
                    is_key = true;
                },
                Token::LBrace => {
                    let nested = self.parse_object();
                    match nested {
                        Ok(sub) => {
                            value = Some(sub);
                        },
                        Err(e) => {
                            return Err(e);
                        },
                    }
                },
                Token::RBrace => {
                    if key.as_str().is_empty() || value.is_none() {
                        return Err(ParseError::MissingEntry);
                    }
                    let v = value.unwrap();
                    upsert_field(&mut obj, key, v);
                    return Ok(JsonValue::Object(obj));
                },
                Token::LSquare => {
                    let nested = self.parse_array();
                    match nested {
                        Ok(sub) => {
                            value = Some(sub);
                        },
                        Err(e) => {
                            return Err(e);
                        },
                    }
                },
                Token::RSquare => {
                    return Err(ParseError::BracketInObject);
                },
                Token::Illegal(c) => {
                    return Err(ParseError::IllegalCharacter(c));
                },
                Token::InvalidKeyword(_) => {
                    return Err(ParseError::InvalidWord);
                },
                Token::EOF => {
                    return Err(ParseError::UnexpectedEndOfInput);
                },
            }
        }
    }

    /// One streaming pull over a top-level array of objects: yields the
    /// next decoded object, a terminal error, or `None` when the sequence
    /// has ended. Once the terminal state is reached, every further pull
    /// leaves the parser unchanged and reports no more elements: the
    /// sequence never resumes after its end or after an error.
    pub fn next(&mut self) -> (r: Option<Result<JsonValue, ParseError>>)
        requires
            old(self).wf(),
        ensures
            final(self).wf(),
            final(self).text() == old(self).text(),
            old(self).is_finished() ==> r is None && *final(self) == *old(self),
            !old(self).is_finished() ==> ({
                let so = if old(self).is_started() {
                    sp_stream_items(old(self).text(), old(self).pos())
                } else {
                    sp_stream_start(old(self).text(), old(self).pos())
                };
                match so {
                    StreamOut::Item(m, k) => {
                        &&& (r matches Some(item) && item matches Ok(v) && v@ == m)
                        &&& final(self).pos() == k
                        &&& final(self).is_started()
                        &&& !final(self).is_finished()
                    },
                    StreamOut::Fault(e) => {
                        &&& r == Some(Err::<JsonValue, ParseError>(e))
                        &&& final(self).is_finished()
                    },
                    StreamOut::Finished => {
                        &&& r is None
                        &&& final(self).is_finished()
                    },
                }
            }),
    {
        let ghost s = old(self).text();
        proof {
            self.lexer.lemma_cursor_in_range();
        }
        if self.finished {
            return None;
        }
        if !self.started {
            proof {
                lemma_lex_advances(s, old(self).pos());
            }
            let t = self.lexer.next_token();
            match t {
                Token::LSquare => {
                    self.started = true;
                },
                Token::EOF => {
                    self.finished = true;
                    return None;
                },
                _ => {
                    self.finished = true;
                    return Some(Err(ParseError::InvalidStart));
                },
            }
        }
        let ghost goal = if old(self).is_started() {
            sp_stream_items(s, old(self).pos())
        } else {
            sp_stream_start(s, old(self).pos())
        };
        loop
            invariant
                self.wf(),
                s == old(self).text(),
                self.text() == s,
                self.is_started(),
                !self.is_finished(),
                !old(self).is_finished(),
                0 <= self.pos() <= s.len(),
                goal == (if old(self).is_started() {
                    sp_stream_items(s, old(self).pos())
                } else {
                    sp_stream_start(s, old(self).pos())
                }),
                goal == sp_stream_items(s, self.pos()),
            decreases s.len() - self.pos(),
        {
            let ghost i = self.pos();
            proof {
                lemma_lex_advances(s, i);
            }
            let t = self.lexer.next_token();
            match t {
                Token::LBrace => {
                    let res = self.parse_object();
                    match res {
                        Ok(o) => {
                            return Some(Ok(o));
                        },
                        Err(e) => {
                            self.finished = true;
                            return Some(Err(e));
                        },
                    }
                },
                Token::RSquare => {
                    self.finished = true;
                    return None;
                },
                Token::Comma => {},
                Token::EOF => {
                    self.finished = true;
                    return None;
                },
                _ => {
                    self.finished = true;
                    return Some(Err(ParseError::StrayToken));
                },
            }
        }
    }
}

/// Commits one key/value pair into the entry list: the first entry with the
/// same key is replaced in place, a fresh key is appended. This realizes
/// the last-write-wins policy that `upsert` states.
fn upsert_field(obj: &mut Vec<(String, JsonValue)>, key: String, val: JsonValue)
    ensures
        fields_model(final(obj)@) == upsert(fields_model(old(obj)@), key@, value_model(val)),
{
    proof {
        lemma_key_idx(fields_model(obj@), key@);
    }
    let n = obj.len();
    let mut i: usize = 0;
    while i < n
        invariant
            n == obj@.len(),
            obj@ == old(obj)@,
            i <= n,
            forall|k: int| 0 <= k < i ==> fields_model(obj@)[k].0 != key@,
        decreases n - i,
    {
        proof {
            lemma_fields_model_index(obj@, i as int);
        }
        if obj[i].0 == key {
            proof {
                lemma_key_idx_found(fields_model(obj@), key@, i as int);
            }
            let _replaced = obj.remove(i);
            obj.insert(i, (key, val));
            proof {
                assert(obj@ =~= old(obj)@.update(i as int, (key, val)));
                lemma_fields_model_update(old(obj)@, i as int, key, val);
            }
            return ;
        }
        i = i + 1;
    }
    proof {
        assert(key_idx(fields_model(obj@), key@) == -1);
        lemma_fields_model_push(obj@, key, val);
    }
    obj.push((key, val));
}

} // verus!
