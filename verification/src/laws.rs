//! Laws that relate the lexer, the renderer and the parser.
//!
//! The main theorem is the round trip: a value tree built purely from
//! scalars and arrays, whose payloads re-lex to themselves, parses back
//! from its own rendering to exactly the same tree.

use crate::parser::{sp_array, sp_parse, ValOut};
use crate::render::{render, render_items};
use crate::scan::{
    digits_end, ident_end, is_digit, is_ident_char, is_ws, kw_lex, kw_match_from, lemma_digits_end_bounds,
    lemma_lex_advances, lemma_ws_end_bounds, lex_from, number_end, str_scan, ws_end,
};
use crate::token::Lexeme;
use crate::value::JsonModel;
use vstd::prelude::*;

verus! {

broadcast use {
    vstd::seq_lib::group_seq_properties,
    lemma_ws_end_bounds,
    lemma_digits_end_bounds,
};

// ---------------------------------------------------------------------------
// Single structural characters
// ---------------------------------------------------------------------------

/// For a one-character input holding a structural character, the scan
/// yields exactly the corresponding structural token, and every scan after
/// it yields end-of-input.
pub proof fn lemma_structural_single_char(c: char)
    requires
        c == '[' || c == ']' || c == '{' || c == '}' || c == ',' || c == ':',
    ensures
        lex_from(seq![c], 0).1 == 1,
        c == '[' ==> lex_from(seq![c], 0).0 == Lexeme::LSquare,
        c == ']' ==> lex_from(seq![c], 0).0 == Lexeme::RSquare,
        c == '{' ==> lex_from(seq![c], 0).0 == Lexeme::LBrace,
        c == '}' ==> lex_from(seq![c], 0).0 == Lexeme::RBrace,
        c == ',' ==> lex_from(seq![c], 0).0 == Lexeme::Comma,
        c == ':' ==> lex_from(seq![c], 0).0 == Lexeme::Colon,
        lex_from(seq![c], 1).0 == Lexeme::End,
{
    let s = seq![c];
    assert(ws_end(s, 0) == 0);
    assert(ws_end(s, 1) == 1);
}

// ---------------------------------------------------------------------------
// Keyword disambiguation
// ---------------------------------------------------------------------------

/// Input that carries a whole keyword (`null`, `true` or `false`) at the
/// scan position yields the keyword's literal token exactly when no
/// identifier-continuation character follows it; otherwise the maximal
/// identifier run from the keyword's first character becomes one
/// invalid-keyword token — never a partial literal.
pub proof fn lemma_keyword_disambiguation(s: Seq<char>, i: int, kw: Seq<char>, t: Lexeme)
    requires
        0 <= i <= s.len(),
        (kw == seq!['n', 'u', 'l', 'l'] && t == Lexeme::NullLit) || (kw == seq![
            't',
            'r',
            'u',
            'e',
        ] && t == Lexeme::BooleanLit(true)) || (kw == seq!['f', 'a', 'l', 's', 'e'] && t
            == Lexeme::BooleanLit(false)),
        ({
            let p = ws_end(s, i);
            &&& p + kw.len() <= s.len()
            &&& s.subrange(p, p + kw.len() as int) == kw
        }),
    ensures
        ({
            let p = ws_end(s, i);
            let q = p + kw.len() as int;
            if q == s.len() || !is_ident_char(s[q]) {
                lex_from(s, i) == (t, q)
            } else {
                lex_from(s, i) == (
                    Lexeme::InvalidWord(s.subrange(p, ident_end(s, q))),
                    ident_end(s, q),
                )
            }
        }),
{
    let p = ws_end(s, i);
    let q = p + kw.len() as int;
    lemma_window_char(s, p, kw, 0);
    assert(s[p] == kw[0]);
    lemma_kw_match_window(s, p, kw, 1);
}

// ---------------------------------------------------------------------------
// What can round-trip
// ---------------------------------------------------------------------------

/// A string payload whose rendering lexes back verbatim: it contains no
/// quote and no backslash, so the scanner neither ends it early nor
/// resolves an escape in it.
pub open spec fn safe_string(w: Seq<char>) -> bool {
    forall|k: int| 0 <= k < w.len() ==> w[k] != '"' && w[k] != '\\'
}

/// A number payload that the number automaton reads back in one token,
/// whole: it starts like a number and the automaton consumes all of it.
pub open spec fn exact_number(n: Seq<char>) -> bool {
    &&& n.len() > 0
    &&& (is_digit(n[0]) || n[0] == '-')
    &&& number_end(n, 0) == n.len()
}

/// A tree built purely from scalars and arrays whose payloads re-lex to
/// themselves. Objects are excluded, as is any payload text that the lexer
/// would read back differently.
pub open spec fn renderable(m: JsonModel) -> bool
    decreases m, 0int,
{
    match m {
        JsonModel::Object(_) => false,
        JsonModel::Array(els) => renderable_seq(els),
        JsonModel::String(w) => safe_string(w),
        JsonModel::Number(n) => exact_number(n),
        JsonModel::Boolean(_) => true,
        JsonModel::Null => true,
    }
}

pub open spec fn renderable_seq(els: Seq<JsonModel>) -> bool
    decreases els, 1int,
{
    if els.len() == 0 {
        true
    } else {
        renderable(els[0]) && renderable_seq(els.drop_first())
    }
}

/// The token a renderable scalar renders to.
pub open spec fn scalar_lexeme(m: JsonModel) -> Lexeme {
    match m {
        JsonModel::String(w) => Lexeme::StringLit(w),
        JsonModel::Number(n) => Lexeme::NumberLit(n),
        JsonModel::Boolean(b) => Lexeme::BooleanLit(b),
        JsonModel::Null => Lexeme::NullLit,
        _ => Lexeme::End,
    }
}

/// A rendered value is never empty and never begins with whitespace.
pub proof fn lemma_render_head(m: JsonModel)
    requires
        renderable(m),
    ensures
        render(m).len() > 0,
        !is_ws(render(m)[0]),
        render(m)[0] != ',',
        render(m)[0] != ']',
{
    match m {
        JsonModel::Number(n) => {
            assert(render(m) == n);
            assert(is_digit(n[0]) || n[0] == '-');
        },
        _ => {},
    }
}

// ---------------------------------------------------------------------------
// Lexing a rendered payload embedded in a larger text
// ---------------------------------------------------------------------------


/// A slice of a matched window equals the same slice of the witness.
proof fn lemma_window_slice(s: Seq<char>, p: int, w: Seq<char>, a: int, b: int)
    requires
        0 <= p,
        p + w.len() <= s.len(),
        s.subrange(p, p + w.len()) == w,
        0 <= a <= b <= w.len(),
    ensures
        s.subrange(p + a, p + b) == w.subrange(a, b),
{
    assert forall|k: int| 0 <= k < b - a implies s.subrange(p + a, p + b)[k] == w.subrange(
        a,
        b,
    )[k] by {
        assert(s[p + a + k] == s.subrange(p, p + w.len())[a + k]);
    }
    assert(s.subrange(p + a, p + b) =~= w.subrange(a, b));
}

/// One character of a matched window equals the witness character.
proof fn lemma_window_char(s: Seq<char>, p: int, w: Seq<char>, k: int)
    requires
        0 <= p,
        p + w.len() <= s.len(),
        s.subrange(p, p + w.len()) == w,
        0 <= k < w.len(),
    ensures
        s[p + k] == w[k],
{
    assert(s[p + k] == s.subrange(p, p + w.len())[k]);
}

/// A digit run embedded in a larger text scans exactly as it does on its
/// own, provided the character after the window cannot extend it.
proof fn lemma_digits_end_window(s: Seq<char>, p: int, n: Seq<char>, i: int)
    requires
        0 <= p,
        p + n.len() <= s.len(),
        s.subrange(p, p + n.len()) == n,
        0 <= i <= n.len(),
        p + n.len() == s.len() || !is_digit(s[p + n.len()]),
    ensures
        digits_end(s, p + i) == p + digits_end(n, i),
    decreases n.len() - i,
{
    if i < n.len() {
        assert(s[p + i] == s.subrange(p, p + n.len())[i]);
        if is_digit(n[i]) {
            lemma_digits_end_window(s, p, n, i + 1);
        }
    }
}

/// A number payload embedded before a `,` or `]` scans to exactly its own
/// length.
proof fn lemma_number_window(s: Seq<char>, p: int, n: Seq<char>)
    requires
        0 <= p,
        p + n.len() < s.len(),
        s.subrange(p, p + n.len()) == n,
        exact_number(n),
        s[p + n.len()] == ',' || s[p + n.len()] == ']',
    ensures
        number_end(s, p) == p + n.len(),
{
    let b = s[p + n.len()];
    let nl = n.len() as int;
    assert(!is_digit(b) && b != '.' && b != 'e' && b != 'E' && b != '+' && b != '-');
    assert(forall|k: int|
        0 <= k < nl ==> s[p + k] == #[trigger] s.subrange(p, p + nl)[k]);
    lemma_digits_end_window(s, p, n, 1);
    let d1 = digits_end(n, 1);
    assert(1 <= d1 <= nl);
    if d1 < nl && n[d1] == '.' {
        lemma_digits_end_window(s, p, n, d1 + 1);
    }
    let d2 = if d1 < nl && n[d1] == '.' {
        digits_end(n, d1 + 1)
    } else {
        d1
    };
    assert(d2 <= nl);
    if d2 < nl && (n[d2] == 'e' || n[d2] == 'E') {
        let e = if d2 + 1 < nl && (n[d2 + 1] == '+' || n[d2 + 1] == '-') {
            d2 + 2
        } else {
            d2 + 1
        };
        if e <= nl {
            lemma_digits_end_window(s, p, n, e);
        }
    }
}

/// A quote-free, backslash-free payload embedded between quotes scans back
/// verbatim, ending on the closing quote.
proof fn lemma_str_scan_window(s: Seq<char>, p: int, w: Seq<char>)
    requires
        0 <= p,
        p + w.len() < s.len(),
        s.subrange(p, p + w.len()) == w,
        safe_string(w),
        s[p + w.len()] == '"',
    ensures
        str_scan(s, p) == (w, p + w.len()),
    decreases w.len(),
{
    if w.len() == 0 {
        assert(str_scan(s, p) == (Seq::<char>::empty(), p));
        assert(w =~= Seq::<char>::empty());
    } else {
        assert(s[p] == s.subrange(p, p + w.len())[0]);
        assert(s[p] == w[0]);
        assert(s.subrange(p + 1, p + w.len()) =~= w.drop_first());
        lemma_str_scan_window(s, p + 1, w.drop_first());
        assert(str_scan(s, p) == (seq![s[p]] + w.drop_first(), p + w.len()));
        assert(seq![w[0]] + w.drop_first() =~= w);
    }
}

/// A fully matching keyword reports a full match.
proof fn lemma_kw_match_window(s: Seq<char>, p: int, kw: Seq<char>, j: int)
    requires
        0 <= p,
        p + kw.len() <= s.len(),
        s.subrange(p, p + kw.len()) == kw,
        1 <= j <= kw.len(),
    ensures
        kw_match_from(s, p, kw, j) == kw.len(),
    decreases kw.len() - j,
{
    if j < kw.len() {
        assert(s[p + j] == s.subrange(p, p + kw.len())[j]);
        lemma_kw_match_window(s, p, kw, j + 1);
    }
}

/// A keyword embedded before a `,` or `]` lexes to its own token.
proof fn lemma_kw_window(s: Seq<char>, p: int, kw: Seq<char>, t: Lexeme)
    requires
        0 <= p,
        1 <= kw.len(),
        p + kw.len() < s.len(),
        s.subrange(p, p + kw.len()) == kw,
        s[p + kw.len()] == ',' || s[p + kw.len()] == ']',
    ensures
        kw_lex(s, p, kw, t) == (t, p + kw.len()),
{
    lemma_kw_match_window(s, p, kw, 1);
    let q = p + kw.len();
    assert(!is_ident_char(s[q]));
}

/// A renderable scalar embedded before a `,` or `]` lexes to its own token,
/// ending right after its rendering.
proof fn lemma_lex_scalar(s: Seq<char>, i: int, m: JsonModel)
    requires
        renderable(m),
        !(m is Array) && !(m is Object),
        0 <= i <= s.len(),
        ({
            let p = ws_end(s, i);
            let rl = render(m).len() as int;
            &&& p + rl < s.len()
            &&& s.subrange(p, p + rl) == render(m)
            &&& (s[p + rl] == ',' || s[p + rl] == ']')
        }),
    ensures
        lex_from(s, i) == (scalar_lexeme(m), ws_end(s, i) + render(m).len()),
{
    let p = ws_end(s, i);
    let r = render(m);
    let rl = r.len() as int;
    assert(forall|k: int| 0 <= k < rl ==> s[p + k] == #[trigger] s.subrange(p, p + rl)[k]);
    assert(s[p] == r[0]);
    lemma_render_head(m);
    assert(ws_end(s, p) == p);
    assert(ws_end(s, i) == p);
    match m {
        JsonModel::String(w) => {
            assert(s[p] == '"');
            lemma_window_slice(s, p, r, 1, 1 + w.len() as int);
            assert(r.subrange(1, 1 + w.len() as int) =~= w);
            lemma_window_char(s, p, r, 1 + w.len() as int);
            assert(r[1 + w.len() as int] == '"');
            lemma_str_scan_window(s, p + 1, w);
        },
        JsonModel::Number(n) => {
            assert(s.subrange(p, p + n.len()) =~= n);
            lemma_number_window(s, p, n);
            assert(s.subrange(p, number_end(s, p)) =~= n);
        },
        JsonModel::Boolean(b) => {
            if b {
                assert(s.subrange(p, p + 4) =~= seq!['t', 'r', 'u', 'e']);
                lemma_kw_window(s, p, seq!['t', 'r', 'u', 'e'], Lexeme::BooleanLit(true));
            } else {
                assert(s.subrange(p, p + 5) =~= seq!['f', 'a', 'l', 's', 'e']);
                lemma_kw_window(s, p, seq!['f', 'a', 'l', 's', 'e'], Lexeme::BooleanLit(false));
            }
        },
        JsonModel::Null => {
            assert(s.subrange(p, p + 4) =~= seq!['n', 'u', 'l', 'l']);
            lemma_kw_window(s, p, seq!['n', 'u', 'l', 'l'], Lexeme::NullLit);
        },
        _ => {},
    }
}

// ---------------------------------------------------------------------------
// The round trip
// ---------------------------------------------------------------------------

/// The array production, run over the rendering of `els` followed by `]`,
/// appends exactly `els` to its accumulator and stops right after the `]`.
proof fn lemma_sp_array_render(s: Seq<char>, i: int, els: Seq<JsonModel>, acc: Seq<JsonModel>)
    requires
        renderable_seq(els),
        0 <= i <= s.len(),
        ({
            let p = ws_end(s, i);
            let il = render_items(els).len() as int;
            &&& p + il < s.len()
            &&& s.subrange(p, p + il) == render_items(els)
            &&& s[p + il] == ']'
        }),
    ensures
        sp_array(s, i, acc) == ValOut::Val(
            JsonModel::Array(acc + els),
            ws_end(s, i) + render_items(els).len() + 1,
        ),
    decreases els, 2int,
{
    let p = ws_end(s, i);
    let items = render_items(els);
    let il = items.len() as int;
    assert(forall|k: int| 0 <= k < il ==> s[p + k] == #[trigger] s.subrange(p, p + il)[k]);
    lemma_ws_idempotent(s, i);
    if els.len() == 0 {
        assert(s[p] == ']' && !is_ws(']'));
        assert(ws_end(s, p) == p);
        assert(lex_from(s, i) == (Lexeme::RSquare, p + 1));
        assert(sp_array(s, i, acc) == ValOut::Val(JsonModel::Array(acc), p + 1));
        assert(acc + els =~= acc);
    } else {
        let m = els[0];
        assert(renderable(m));
        let r = render(m);
        let rl = r.len() as int;
        lemma_render_head(m);
        // The rendering of the whole list starts with the first element.
        lemma_items_head(els);
        assert(s.subrange(p, p + rl) =~= r);
        // After the first element stands `,` (more elements) or `]` (none).
        let b = if els.len() == 1 { ']' } else { ',' };
        assert(s[p + rl] == b) by {
            if els.len() == 1 {
                assert(items == r);
            } else {
                assert(items[rl] == ',');
            }
        }
        match m {
            JsonModel::Array(inner) => {
                // `[` opens a nested array production.
                assert(r[0] == '[');
                assert(s[p] == '[');
                assert(ws_end(s, p) == p);
                assert(lex_from(s, i) == (Lexeme::LSquare, p + 1));
                let jin = render_items(inner).len() as int;
                assert(r == seq!['['] + render_items(inner) + seq![']']);
                lemma_window_slice(s, p, items, 1, 1 + jin);
                assert(items.subrange(1, 1 + jin) =~= render_items(inner)) by {
                    assert forall|k: int| 0 <= k < jin implies items.subrange(1, 1 + jin)[k]
                        == render_items(inner)[k] by {
                        lemma_items_head(els);
                        assert(items[1 + k] == r[1 + k]);
                    }
                }
                lemma_window_char(s, p, items, 1 + jin);
                assert(items[1 + jin] == r[1 + jin]) by {
                    lemma_items_head(els);
                }
                assert(r[1 + jin] == ']');
                assert(!is_ws(s[p + 1])) by {
                    if inner.len() == 0 {
                        assert(s[p + 1] == ']');
                    } else {
                        lemma_render_head_seq(inner);
                        assert(s[p + 1] == render_items(inner)[0]);
                    }
                }
                lemma_head_not_ws(s, p + 1);
                lemma_sp_array_render(s, p + 1, inner, Seq::empty());
                assert(Seq::<JsonModel>::empty() + inner =~= inner);
                let q = p + 1 + jin + 1;
                assert(q == p + rl);
                lemma_continue(s, i, q, els, acc, m, b);
            },
            _ => {
                lemma_lex_scalar(s, i, m);
                let q = p + rl;
                // The separator makes the adjacency check succeed.
                assert(ws_end(s, q) == q);
                assert(lex_from(s, q).0 == (if b == ']' {
                    Lexeme::RSquare
                } else {
                    Lexeme::Comma
                }));
                lemma_continue_scalar(s, i, q, els, acc, m, b);
            },
        }
    }
}

/// Scanning from `i` or from the first non-whitespace position is the same.
proof fn lemma_ws_idempotent(s: Seq<char>, i: int)
    ensures
        ws_end(s, ws_end(s, i)) == ws_end(s, i),
    decreases s.len() - i,
{
    if i < s.len() && is_ws(s[i]) {
        lemma_ws_idempotent(s, i + 1);
    }
}

/// The rendered list of a non-empty `els` opens with the first element's
/// rendering, and continues with `, ` and the rest when there is a rest.
proof fn lemma_items_head(els: Seq<JsonModel>)
    requires
        els.len() > 0,
    ensures
        els.len() == 1 ==> render_items(els) == render(els[0]),
        els.len() > 1 ==> render_items(els) == render(els[0]) + seq![',', ' '] + render_items(
            els.drop_first(),
        ),
{
}

/// A position holding a non-whitespace character is its own scan start.
proof fn lemma_head_not_ws(s: Seq<char>, q: int)
    requires
        0 <= q < s.len(),
        !is_ws(s[q]),
    ensures
        ws_end(s, q) == q,
{
}

/// Continues the array production after one parsed element: on `]` the
/// array closes; on `,` the production recurses into the remaining
/// rendered elements.
proof fn lemma_continue(
    s: Seq<char>,
    i: int,
    q: int,
    els: Seq<JsonModel>,
    acc: Seq<JsonModel>,
    m: JsonModel,
    b: char,
)
    requires
        renderable_seq(els),
        els.len() > 0,
        m == els[0],
        !(m is Object),
        renderable(m),
        0 <= i <= s.len(),
        ({
            let p = ws_end(s, i);
            let il = render_items(els).len() as int;
            &&& p + il < s.len()
            &&& s.subrange(p, p + il) == render_items(els)
            &&& s[p + il] == ']'
            &&& q == p + render(m).len()
            &&& b == (if els.len() == 1 {
                ']'
            } else {
                ','
            })
            &&& s[q] == b
        }),
        m is Array ==> ({
            let inner = m->Array_0;
            &&& lex_from(s, i) == (Lexeme::LSquare, ws_end(s, i) + 1)
            &&& sp_array(s, ws_end(s, i) + 1, Seq::empty()) == ValOut::Val(
                JsonModel::Array(inner),
                q,
            )
        }),
    ensures
        m is Array ==> sp_array(s, i, acc) == ValOut::Val(
            JsonModel::Array(acc + els),
            ws_end(s, i) + render_items(els).len() + 1,
        ),
    decreases els, 1int,
{
    if m is Array {
        let p = ws_end(s, i);
        let il = render_items(els).len() as int;
        lemma_lex_advances(s, i);
        lemma_tail_step(s, i, q, els, acc.push(m), b);
        assert(acc.push(m) + els.drop_first() =~= acc + els);
    }
}

/// After one element of the rendered list has been consumed, the rest of
/// the production yields the remaining elements: directly on `]`, and
/// after skipping `, ` on `,`.
proof fn lemma_tail_step(
    s: Seq<char>,
    i: int,
    q: int,
    els: Seq<JsonModel>,
    acc2: Seq<JsonModel>,
    b: char,
)
    requires
        renderable_seq(els),
        els.len() > 0,
        0 <= i <= s.len(),
        ({
            let p = ws_end(s, i);
            let il = render_items(els).len() as int;
            &&& p + il < s.len()
            &&& s.subrange(p, p + il) == render_items(els)
            &&& s[p + il] == ']'
            &&& q == ws_end(s, i) + render(els[0]).len()
            &&& b == (if els.len() == 1 {
                ']'
            } else {
                ','
            })
            &&& s[q] == b
        }),
    ensures
        sp_array(s, q, acc2) == ValOut::Val(
            JsonModel::Array(acc2 + els.drop_first()),
            ws_end(s, i) + render_items(els).len() + 1,
        ),
    decreases els, 0int,
{
    let p = ws_end(s, i);
    let items = render_items(els);
    let il = items.len() as int;
    let rl = render(els[0]).len() as int;
    assert(forall|k: int| 0 <= k < il ==> s[p + k] == #[trigger] s.subrange(p, p + il)[k]);
    lemma_items_head(els);
    lemma_head_not_ws(s, q);
    if els.len() == 1 {
        // `]` closes the array here.
        assert(b == ']');
        assert(lex_from(s, q) == (Lexeme::RSquare, q + 1));
        assert(sp_array(s, q, acc2) == ValOut::Val(JsonModel::Array(acc2), q + 1));
        assert(acc2 + els.drop_first() =~= acc2);
        assert(q + 1 == p + il + 1);
    } else {
        // `,` is skipped, a space follows, and the remaining elements
        // parse by induction.
        assert(b == ',');
        assert(lex_from(s, q) == (Lexeme::Comma, q + 1));
        lemma_lex_advances(s, q);
        assert(sp_array(s, q, acc2) == sp_array(s, q + 1, acc2));
        let rest = els.drop_first();
        let restl = render_items(rest).len() as int;
        assert(items == render(els[0]) + seq![',', ' '] + render_items(rest));
        assert(s[q + 1] == items[rl + 1] && items[rl + 1] == ' ');
        lemma_render_head_seq(rest);
        assert(s[q + 2] == items[rl + 2]);
        assert(ws_end(s, q + 1) == ws_end(s, q + 2)) by {
            assert(is_ws(s[q + 1]));
        }
        assert(!is_ws(s[q + 2])) by {
            assert(items[rl + 2] == render_items(rest)[0]);
            lemma_items_head(rest);
            lemma_render_head(rest[0]);
        }
        lemma_head_not_ws(s, q + 2);
        lemma_window_slice(s, p, items, rl + 2, rl + 2 + restl);
        assert(items.subrange(rl + 2, rl + 2 + restl) =~= render_items(rest)) by {
            assert forall|k: int| 0 <= k < restl implies items.subrange(rl + 2, rl + 2 + restl)[k]
                == render_items(rest)[k] by {
                assert(items[rl + 2 + k] == render_items(rest)[k]);
            }
        }
        assert(q + 2 == p + rl + 2);
        assert(s.subrange(q + 2, q + 2 + restl) == render_items(rest));
        assert(s[q + 2 + restl] == ']') by {
            assert(q + 2 + restl == p + il);
        }
        lemma_sp_array_render(s, q + 1, rest, acc2);
        assert(ws_end(s, q + 1) == q + 2);
        assert(q + 2 + restl + 1 == p + il + 1);
    }
}

/// The first element of a non-empty renderable list renders non-empty and
/// without a leading whitespace character.
proof fn lemma_render_head_seq(els: Seq<JsonModel>)
    requires
        els.len() > 0,
        renderable_seq(els),
    ensures
        render_items(els).len() > 0,
        render_items(els)[0] == render(els[0])[0],
        renderable(els[0]),
{
    lemma_items_head(els);
    lemma_render_head(els[0]);
}

/// Continues the array production after a scalar element whose adjacency
/// check succeeded.
proof fn lemma_continue_scalar(
    s: Seq<char>,
    i: int,
    q: int,
    els: Seq<JsonModel>,
    acc: Seq<JsonModel>,
    m: JsonModel,
    b: char,
)
    requires
        renderable_seq(els),
        els.len() > 0,
        m == els[0],
        !(m is Object) && !(m is Array),
        renderable(m),
        0 <= i <= s.len(),
        ({
            let p = ws_end(s, i);
            let il = render_items(els).len() as int;
            &&& p + il < s.len()
            &&& s.subrange(p, p + il) == render_items(els)
            &&& s[p + il] == ']'
            &&& q == p + render(m).len()
            &&& b == (if els.len() == 1 {
                ']'
            } else {
                ','
            })
            &&& s[q] == b
        }),
        lex_from(s, i) == (scalar_lexeme(m), q),
    ensures
        sp_array(s, i, acc) == ValOut::Val(
            JsonModel::Array(acc + els),
            ws_end(s, i) + render_items(els).len() + 1,
        ),
    decreases els, 1int,
{
    let p = ws_end(s, i);
    lemma_head_not_ws(s, q);
    assert(lex_from(s, q).0 == (if b == ']' {
        Lexeme::RSquare
    } else {
        Lexeme::Comma
    }));
    lemma_lex_advances(s, i);
    lemma_tail_step(s, i, q, els, acc.push(m), b);
    assert(acc.push(m) + els.drop_first() =~= acc + els);
}

/// ROUND TRIP: a tree of scalars and arrays whose payloads re-lex to
/// themselves, rendered to text and parsed back, yields exactly the same
/// tree, with the whole text consumed.
pub proof fn lemma_render_parse_round_trip(els: Seq<JsonModel>)
    requires
        renderable_seq(els),
    ensures
        ({
            let text = render(JsonModel::Array(els));
            sp_parse(text, 0) == ValOut::Val(JsonModel::Array(els), text.len() as int)
        }),
{
    let text = render(JsonModel::Array(els));
    let items = render_items(els);
    let il = items.len() as int;
    assert(text == seq!['['] + items + seq![']']);
    assert(text[0] == '[');
    assert(ws_end(text, 0) == 0);
    assert(lex_from(text, 0) == (Lexeme::LSquare, 1int));
    assert(text.subrange(1, 1 + il) =~= items);
    assert(text[1 + il] == ']');
    if els.len() > 0 {
        lemma_render_head_seq(els);
        assert(text[1] == items[0]);
        lemma_head_not_ws(text, 1);
    } else {
        lemma_head_not_ws(text, 1);
    }
    lemma_sp_array_render(text, 1, els, Seq::empty());
    assert(Seq::<JsonModel>::empty() + els =~= els);
    assert(1 + il + 1 == text.len());
}

} // verus!
