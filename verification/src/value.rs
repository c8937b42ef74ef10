//! The JSON value model: a tagged union built bottom-up by the parser and
//! owned by the caller, with its mathematical counterpart and the
//! last-write-wins insertion rule for object keys.

use vstd::prelude::*;

verus! {

broadcast use vstd::seq_lib::group_seq_properties;

/// A parsed JSON value. Numbers keep their verbatim source text. An object
/// holds its entries in insertion order; keys are unique, later writes to
/// the same key replacing the earlier value in place.
#[derive(Debug, PartialEq)]
pub enum JsonValue {
    Object(Vec<(String, JsonValue)>),
    Array(Vec<JsonValue>),
    String(String),
    Number(String),
    Boolean(bool),
    Null,
}

/// The mathematical shape of a `JsonValue`: the same tree over plain
/// sequences.
pub enum JsonModel {
    Object(Seq<(Seq<char>, JsonModel)>),
    Array(Seq<JsonModel>),
    String(Seq<char>),
    Number(Seq<char>),
    Boolean(bool),
    Null,
}

/// The closed set of reasons a parse can fail. Lexical anomalies carry the
/// offending character; everything else names the production-level fault.
#[derive(Debug, PartialEq, Eq, Clone, Copy)]
pub enum ParseError {
    /// The input ended inside an unfinished construct, or a value was
    /// requested from an empty input.
    UnexpectedEndOfInput,
    /// The top-level construct did not begin with `[` or `{`.
    InvalidStart,
    /// A scalar inside an array was not followed by `,` or `]`.
    MissingSeparator,
    /// A stray `}` inside an array.
    BraceInArray,
    /// A stray `:` inside an array.
    ColonInArray,
    /// A stray `]` inside an object.
    BracketInObject,
    /// A `,` or `}` arrived while the pending key or value was missing.
    MissingEntry,
    /// A character no lexical rule matches.
    IllegalCharacter(char),
    /// A run of identifier characters that is not a valid keyword.
    InvalidWord,
    /// A token other than `{`, `,` or `]` at the top level of a streamed
    /// array.
    StrayToken,
}

pub open spec fn value_model(v: JsonValue) -> JsonModel
    decreases v,
{
    match v {
        JsonValue::Object(fs) => JsonModel::Object(fields_model(fs@)),
        JsonValue::Array(vs) => JsonModel::Array(vals_model(vs@)),
        JsonValue::String(s) => JsonModel::String(s@),
        JsonValue::Number(s) => JsonModel::Number(s@),
        JsonValue::Boolean(b) => JsonModel::Boolean(b),
        JsonValue::Null => JsonModel::Null,
    }
}

pub open spec fn vals_model(q: Seq<JsonValue>) -> Seq<JsonModel>
    decreases q,
{
    if q.len() == 0 {
        Seq::empty()
    } else {
        seq![value_model(q[0])] + vals_model(q.drop_first())
    }
}

pub open spec fn fields_model(q: Seq<(String, JsonValue)>) -> Seq<(Seq<char>, JsonModel)>
    decreases q,
{
    if q.len() == 0 {
        Seq::empty()
    } else {
        seq![(q[0].0@, value_model(q[0].1))] + fields_model(q.drop_first())
    }
}

impl View for JsonValue {
    type V = JsonModel;

    open spec fn view(&self) -> JsonModel {
        value_model(*self)
    }
}

pub open spec fn opt_model(v: Option<JsonValue>) -> Option<JsonModel> {
    match v {
        Option::Some(x) => Option::Some(value_model(x)),
        Option::None => Option::None,
    }
}

pub broadcast proof fn lemma_vals_model_len(q: Seq<JsonValue>)
    ensures
        (#[trigger] vals_model(q)).len() == q.len(),
    decreases q,
{
    if q.len() > 0 {
        lemma_vals_model_len(q.drop_first());
    }
}

pub broadcast proof fn lemma_vals_model_index(q: Seq<JsonValue>, i: int)
    requires
        0 <= i < q.len(),
    ensures
        #[trigger] vals_model(q)[i] == value_model(q[i]),
    decreases q,
{
    lemma_vals_model_len(q);
    if i > 0 {
        lemma_vals_model_index(q.drop_first(), i - 1);
    }
}

pub proof fn lemma_vals_model_push(q: Seq<JsonValue>, v: JsonValue)
    ensures
        vals_model(q.push(v)) == vals_model(q).push(value_model(v)),
    decreases q,
{
    broadcast use lemma_vals_model_len, lemma_vals_model_index;

    let a = vals_model(q.push(v));
    let b = vals_model(q).push(value_model(v));
    assert forall|i: int| 0 <= i < a.len() implies a[i] == b[i] by {
        if i < q.len() {
            assert(q.push(v)[i] == q[i]);
        } else {
            assert(q.push(v)[i] == v);
        }
    }
    assert(a =~= b);
}

pub broadcast proof fn lemma_fields_model_len(q: Seq<(String, JsonValue)>)
    ensures
        (#[trigger] fields_model(q)).len() == q.len(),
    decreases q,
{
    if q.len() > 0 {
        lemma_fields_model_len(q.drop_first());
    }
}

pub broadcast proof fn lemma_fields_model_index(q: Seq<(String, JsonValue)>, i: int)
    requires
        0 <= i < q.len(),
    ensures
        #[trigger] fields_model(q)[i] == (q[i].0@, value_model(q[i].1)),
    decreases q,
{
    lemma_fields_model_len(q);
    if i > 0 {
        lemma_fields_model_index(q.drop_first(), i - 1);
    }
}

pub proof fn lemma_fields_model_push(q: Seq<(String, JsonValue)>, k: String, v: JsonValue)
    ensures
        fields_model(q.push((k, v))) == fields_model(q).push((k@, value_model(v))),
{
    broadcast use lemma_fields_model_len, lemma_fields_model_index;

    let a = fields_model(q.push((k, v)));
    let b = fields_model(q).push((k@, value_model(v)));
    assert forall|i: int| 0 <= i < a.len() implies a[i] == b[i] by {
        if i < q.len() {
            assert(q.push((k, v))[i] == q[i]);
        } else {
            assert(q.push((k, v))[i] == (k, v));
        }
    }
    assert(a =~= b);
}

pub proof fn lemma_fields_model_update(
    q: Seq<(String, JsonValue)>,
    i: int,
    k: String,
    v: JsonValue,
)
    requires
        0 <= i < q.len(),
    ensures
        fields_model(q.update(i, (k, v))) == fields_model(q).update(i, (k@, value_model(v))),
{
    broadcast use lemma_fields_model_len, lemma_fields_model_index;

    let a = fields_model(q.update(i, (k, v)));
    let b = fields_model(q).update(i, (k@, value_model(v)));
    assert forall|j: int| 0 <= j < a.len() implies a[j] == b[j] by {
        if j == i {
            assert(q.update(i, (k, v))[j] == (k, v));
        } else {
            assert(q.update(i, (k, v))[j] == q[j]);
        }
    }
    assert(a =~= b);
}

// ---------------------------------------------------------------------------
// Key lookup and last-write-wins insertion
// ---------------------------------------------------------------------------

/// Index of the first entry bound to `key`, or -1 when there is none.
pub open spec fn key_idx(acc: Seq<(Seq<char>, JsonModel)>, key: Seq<char>) -> int
    decreases acc,
{
    if acc.len() == 0 {
        -1
    } else if acc[0].0 == key {
        0
    } else {
        let r = key_idx(acc.drop_first(), key);
        if r == -1 {
            -1
        } else {
            r + 1
        }
    }
}

/// Commits one key/value pair: the first entry already bound to the key is
/// replaced in place, and a fresh key is appended at the end.
pub open spec fn upsert(
    acc: Seq<(Seq<char>, JsonModel)>,
    key: Seq<char>,
    val: JsonModel,
) -> Seq<(Seq<char>, JsonModel)> {
    let i = key_idx(acc, key);
    if i == -1 {
        acc.push((key, val))
    } else {
        acc.update(i, (key, val))
    }
}

/// `key_idx` finds exactly the first entry bound to the key.
pub proof fn lemma_key_idx(acc: Seq<(Seq<char>, JsonModel)>, key: Seq<char>)
    ensures
        key_idx(acc, key) == -1 ==> forall|k: int| 0 <= k < acc.len() ==> acc[k].0 != key,
        key_idx(acc, key) != -1 ==> {
            &&& 0 <= key_idx(acc, key) < acc.len()
            &&& acc[key_idx(acc, key)].0 == key
            &&& forall|k: int| 0 <= k < key_idx(acc, key) ==> acc[k].0 != key
        },
    decreases acc,
{
    if acc.len() > 0 && acc[0].0 != key {
        lemma_key_idx(acc.drop_first(), key);
        let r = key_idx(acc.drop_first(), key);
        if r == -1 {
            assert forall|k: int| 0 <= k < acc.len() implies acc[k].0 != key by {
                if k > 0 {
                    assert(acc[k] == acc.drop_first()[k - 1]);
                }
            }
        } else {
            assert(acc[r + 1] == acc.drop_first()[r]);
            assert forall|k: int| 0 <= k < r + 1 implies acc[k].0 != key by {
                if k > 0 {
                    assert(acc[k] == acc.drop_first()[k - 1]);
                }
            }
        }
    }
}

/// The converse: an entry that matches first determines `key_idx`.
pub proof fn lemma_key_idx_found(acc: Seq<(Seq<char>, JsonModel)>, key: Seq<char>, i: int)
    requires
        0 <= i < acc.len(),
        acc[i].0 == key,
        forall|k: int| 0 <= k < i ==> acc[k].0 != key,
    ensures
        key_idx(acc, key) == i,
    decreases acc,
{
    if i > 0 {
        assert forall|k: int| 0 <= k < i - 1 implies acc.drop_first()[k].0 != key by {
            assert(acc.drop_first()[k] == acc[k + 1]);
        }
        assert(acc.drop_first()[i - 1] == acc[i]);
        lemma_key_idx_found(acc.drop_first(), key, i - 1);
    }
}

} // verus!
