//! Canonical textual rendering of tokens and values, following JSON
//! punctuation conventions: strings are quoted as-is (escape sequences are
//! not re-encoded), numbers, booleans and null render their literal text,
//! objects render their entries in storage order.

use crate::lexer::push_char;
use crate::token::{Lexeme, Token};
use crate::value::{JsonModel, JsonValue};
use vstd::prelude::*;
use vstd::string::StringExecFns;

verus! {

broadcast use {
    vstd::seq_lib::group_seq_properties,
    crate::value::lemma_vals_model_len,
    crate::value::lemma_fields_model_len,
};

/// The text of one rendered token.
pub open spec fn token_text(l: Lexeme) -> Seq<char> {
    match l {
        Lexeme::LBrace => seq!['{'],
        Lexeme::RBrace => seq!['}'],
        Lexeme::LSquare => seq!['['],
        Lexeme::RSquare => seq![']'],
        Lexeme::Comma => seq![','],
        Lexeme::Colon => seq![':'],
        Lexeme::StringLit(s) => seq!['"'] + s + seq!['"'],
        Lexeme::NumberLit(s) => s,
        Lexeme::BooleanLit(b) => if b {
            seq!['t', 'r', 'u', 'e']
        } else {
            seq!['f', 'a', 'l', 's', 'e']
        },
        Lexeme::NullLit => seq!['n', 'u', 'l', 'l'],
        Lexeme::End => Seq::empty(),
        Lexeme::IllegalChar(c) => seq![c],
        Lexeme::InvalidWord(s) => s,
    }
}

/// The text of one rendered value.
pub open spec fn render(m: JsonModel) -> Seq<char>
    decreases m, 0int,
{
    match m {
        JsonModel::Object(fs) => seq!['{'] + render_fields(fs) + seq!['}'],
        JsonModel::Array(els) => seq!['['] + render_items(els) + seq![']'],
        JsonModel::String(s) => seq!['"'] + s + seq!['"'],
        JsonModel::Number(n) => n,
        JsonModel::Boolean(b) => if b {
            seq!['t', 'r', 'u', 'e']
        } else {
            seq!['f', 'a', 'l', 's', 'e']
        },
        JsonModel::Null => seq!['n', 'u', 'l', 'l'],
    }
}

/// Array elements joined by a comma and a space.
pub open spec fn render_items(els: Seq<JsonModel>) -> Seq<char>
    decreases els, 1int,
{
    if els.len() == 0 {
        Seq::empty()
    } else if els.len() == 1 {
        render(els[0])
    } else {
        render(els[0]) + seq![',', ' '] + render_items(els.drop_first())
    }
}

/// One object entry: the quoted key, a colon and a space, the value.
pub open spec fn render_field(f: (Seq<char>, JsonModel)) -> Seq<char>
    decreases f, 1int,
{
    seq!['"'] + f.0 + seq!['"', ':', ' '] + render(f.1)
}

/// Object entries joined by a comma and a space.
pub open spec fn render_fields(fs: Seq<(Seq<char>, JsonModel)>) -> Seq<char>
    decreases fs, 2int,
{
    if fs.len() == 0 {
        Seq::empty()
    } else if fs.len() == 1 {
        render_field(fs[0])
    } else {
        render_field(fs[0]) + seq![',', ' '] + render_fields(fs.drop_first())
    }
}

/// Appending one element on the right of a joined list.
pub proof fn lemma_render_items_snoc(els: Seq<JsonModel>, m: JsonModel)
    ensures
        render_items(els.push(m)) == if els.len() == 0 {
            render(m)
        } else {
            render_items(els) + seq![',', ' '] + render(m)
        },
    decreases els.len(),
{
    let w = els.push(m);
    if els.len() == 0 {
        assert(w.len() == 1 && w[0] == m);
    } else {
        assert(w[0] == els[0]);
        assert(w.drop_first() =~= els.drop_first().push(m));
        lemma_render_items_snoc(els.drop_first(), m);
        if els.len() == 1 {
            assert(render_items(els) == render(els[0]));
        }
    }
}

/// Appending one entry on the right of a joined entry list.
pub proof fn lemma_render_fields_snoc(fs: Seq<(Seq<char>, JsonModel)>, f: (Seq<char>, JsonModel))
    ensures
        render_fields(fs.push(f)) == if fs.len() == 0 {
            render_field(f)
        } else {
            render_fields(fs) + seq![',', ' '] + render_field(f)
        },
    decreases fs.len(),
{
    let w = fs.push(f);
    if fs.len() == 0 {
        assert(w.len() == 1 && w[0] == f);
    } else {
        assert(w[0] == fs[0]);
        assert(w.drop_first() =~= fs.drop_first().push(f));
        lemma_render_fields_snoc(fs.drop_first(), f);
        if fs.len() == 1 {
            assert(render_fields(fs) == render_field(fs[0]));
        }
    }
}

impl Token {
    /// Canonical textual rendering of this token.
    pub fn to_text(&self) -> (out: String)
        ensures
            out@ == token_text(self@),
    {
        match self {
            Token::LBrace => {
                let mut out = String::new();
                push_char(&mut out, '{');
                out
            },
            Token::RBrace => {
                let mut out = String::new();
                push_char(&mut out, '}');
                out
            },
            Token::LSquare => {
                let mut out = String::new();
                push_char(&mut out, '[');
                out
            },
            Token::RSquare => {
                let mut out = String::new();
                push_char(&mut out, ']');
                out
            },
            Token::Comma => {
                let mut out = String::new();
                push_char(&mut out, ',');
                out
            },
            Token::Colon => {
                let mut out = String::new();
                push_char(&mut out, ':');
                out
            },
            Token::StringLiteral(s) => {
                let mut out = String::new();
                push_char(&mut out, '"');
                out.append(s.as_str());
                push_char(&mut out, '"');
                proof {
                    assert(out@ =~= seq!['"'] + s@ + seq!['"']);
                }
                out
            },
            Token::NumberLiteral(s) => s.clone(),
            Token::BooleanLiteral(b) => {
                let out = if *b {
                    "true".to_owned()
                } else {
                    "false".to_owned()
                };
                proof {
                    reveal_strlit("true");
                    reveal_strlit("false");
                    if *b {
                        assert(out@ =~= seq!['t', 'r', 'u', 'e']);
                    } else {
                        assert(out@ =~= seq!['f', 'a', 'l', 's', 'e']);
                    }
                }
                out
            },
            Token::NullLiteral => {
                let out = "null".to_owned();
                proof {
                    reveal_strlit("null");
                    assert(out@ =~= seq!['n', 'u', 'l', 'l']);
                }
                out
            },
            Token::EOF => String::new(),
            Token::Illegal(c) => {
                let mut out = String::new();
                push_char(&mut out, *c);
                proof {
                    assert(out@ =~= seq![*c]);
                }
                out
            },
            Token::InvalidKeyword(s) => s.clone(),
        }
    }
}

impl JsonValue {
    /// Canonical textual rendering of this value; exactly `render` of its
    /// model.
    pub fn to_text(&self) -> (out: String)
        ensures
            out@ == render(self@),
        decreases *self,
    {
        match self {
            JsonValue::String(sv) => {
                let mut out = String::new();
                push_char(&mut out, '"');
                out.append(sv.as_str());
                push_char(&mut out, '"');
                proof {
                    assert(out@ =~= seq!['"'] + sv@ + seq!['"']);
                }
                out
            },
            JsonValue::Number(n) => n.clone(),
            JsonValue::Boolean(b) => {
                let out = if *b {
                    "true".to_owned()
                } else {
                    "false".to_owned()
                };
                proof {
                    reveal_strlit("true");
                    reveal_strlit("false");
                    if *b {
                        assert(out@ =~= seq!['t', 'r', 'u', 'e']);
                    } else {
                        assert(out@ =~= seq!['f', 'a', 'l', 's', 'e']);
                    }
                }
                out
            },
            JsonValue::Null => {
                let out = "null".to_owned();
                proof {
                    reveal_strlit("null");
                    assert(out@ =~= seq!['n', 'u', 'l', 'l']);
                }
                out
            },
            JsonValue::Array(els) => {
                let ghost ms = crate::value::vals_model(els@);
                let mut out = String::new();
                push_char(&mut out, '[');
                let mut idx: usize = 0;
                while idx < els.len()
                    invariant
                        *self == JsonValue::Array(*els),
                        ms == crate::value::vals_model(els@),
                        0 <= idx <= els.len(),
                        ms.len() == els@.len(),
                        out@ == seq!['['] + render_items(ms.take(idx as int)),
                    decreases els@.len() - idx,
                {
                    if idx > 0 {
                        push_char(&mut out, ',');
                        push_char(&mut out, ' ');
                    }
                    proof {
                        assert(decreases_to!(*self => self->Array_0));
                        assert(decreases_to!(self->Array_0 => self->Array_0@));
                        assert(decreases_to!(self->Array_0@ => self->Array_0@[idx as int]));
                        assert(self->Array_0@[idx as int] == els@[idx as int]);
                    }
                    let piece = els[idx].to_text();
                    out.append(piece.as_str());
                    proof {
                        crate::value::lemma_vals_model_index(els@, idx as int);
                        lemma_render_items_snoc(ms.take(idx as int), ms[idx as int]);
                        assert(ms.take(idx as int).push(ms[idx as int]) =~= ms.take(
                            idx as int + 1,
                        ));
                        assert(out@ =~= seq!['['] + render_items(ms.take(idx as int + 1)));
                    }
                    idx = idx + 1;
                }
                push_char(&mut out, ']');
                proof {
                    assert(ms.take(els@.len() as int) =~= ms);
                    assert(out@ =~= seq!['['] + render_items(ms) + seq![']']);
                }
                out
            },
            JsonValue::Object(fields) => {
                let ghost ms = crate::value::fields_model(fields@);
                let mut out = String::new();
                push_char(&mut out, '{');
                let mut idx: usize = 0;
                while idx < fields.len()
                    invariant
                        *self == JsonValue::Object(*fields),
                        ms == crate::value::fields_model(fields@),
                        0 <= idx <= fields.len(),
                        ms.len() == fields@.len(),
                        out@ == seq!['{'] + render_fields(ms.take(idx as int)),
                    decreases fields@.len() - idx,
                {
                    if idx > 0 {
                        push_char(&mut out, ',');
                        push_char(&mut out, ' ');
                    }
                    push_char(&mut out, '"');
                    out.append(fields[idx].0.as_str());
                    push_char(&mut out, '"');
                    push_char(&mut out, ':');
                    push_char(&mut out, ' ');
                    proof {
                        assert(decreases_to!(*self => self->Object_0));
                        assert(decreases_to!(self->Object_0 => self->Object_0@));
                        assert(decreases_to!(self->Object_0@ => self->Object_0@[idx as int]));
                        assert(decreases_to!(self->Object_0@[idx as int] => self->Object_0@[idx as int].1));
                        assert(self->Object_0@[idx as int].1 == fields@[idx as int].1);
                    }
                    let piece = fields[idx].1.to_text();
                    out.append(piece.as_str());
                    proof {
                        crate::value::lemma_fields_model_index(fields@, idx as int);
                        lemma_render_fields_snoc(ms.take(idx as int), ms[idx as int]);
                        assert(ms.take(idx as int).push(ms[idx as int]) =~= ms.take(
                            idx as int + 1,
                        ));
                        assert(out@ =~= seq!['{'] + render_fields(ms.take(idx as int + 1)));
                    }
                    idx = idx + 1;
                }
                push_char(&mut out, '}');
                proof {
                    assert(ms.take(fields@.len() as int) =~= ms);
                    assert(out@ =~= seq!['{'] + render_fields(ms) + seq!['}']);
                }
                out
            },
        }
    }
}

} // verus!
