use vstd::prelude::*;

use crate::text::{int_string, int_text};

verus! {

/// A decoded JSON scalar.
#[derive(Debug, PartialEq, Eq)]
pub enum Scalar {
    Null,
    Bool(bool),
    /// A number without fraction or exponent.
    Int(i128),
    /// A number kept in the JSON text it was decoded from.
    Decimal(String),
    Str(String),
}

/// A scalar as a mathematical value.
pub enum ScalarView {
    Null,
    Bool(bool),
    Int(int),
    Decimal(Seq<char>),
    Str(Seq<char>),
}

impl View for Scalar {
    type V = ScalarView;

    open spec fn view(&self) -> ScalarView {
        match self {
            Scalar::Null => ScalarView::Null,
            Scalar::Bool(b) => ScalarView::Bool(*b),
            Scalar::Int(i) => ScalarView::Int(*i as int),
            Scalar::Decimal(s) => ScalarView::Decimal(s@),
            Scalar::Str(s) => ScalarView::Str(s@),
        }
    }
}

/// The scalar that serde_json decodes from a text, where the text is one
/// JSON scalar.
pub uninterp spec fn json_scalar(s: Seq<char>) -> Option<ScalarView>;

/// Relies on `serde_json::from_str` into a `serde_json::Value`: the scalar
/// that the text holds, numbers in serde_json's text for them; containers
/// and malformed text give nothing.
#[verifier::external_body]
pub(crate) fn parse_scalar(s: &str) -> (r: Option<Scalar>)
    ensures
        r matches Some(x) ==> json_scalar(s@) == Some(x@),
        r is None ==> json_scalar(s@) is None,
{
    match serde_json::from_str::<serde_json::Value>(s) {
        Ok(serde_json::Value::Null) => Some(Scalar::Null),
        Ok(serde_json::Value::Bool(b)) => Some(Scalar::Bool(b)),
        Ok(serde_json::Value::Number(n)) => Some(Scalar::Decimal(n.to_string())),
        Ok(serde_json::Value::String(t)) => Some(Scalar::Str(t)),
        Ok(serde_json::Value::Array(_)) => None,
        Ok(serde_json::Value::Object(_)) => None,
        Err(_) => None,
    }
}

/// A decoded JSON value: a scalar, or a container of further values.
#[derive(Debug, PartialEq, Eq)]
pub enum JsonValue {
    Leaf(Scalar),
    Array(Vec<JsonValue>),
    /// The members of an object, in the order in which they are walked.
    Object(Vec<(String, JsonValue)>),
}

/// The text that stands for a scalar in a CSV cell: numbers and booleans as
/// JSON writes them, strings as they are, without quotes.
pub open spec fn scalar_text(v: Scalar) -> Seq<char> {
    match v {
        Scalar::Null => seq!['n', 'u', 'l', 'l'],
        Scalar::Bool(b) => if b {
            seq!['t', 'r', 'u', 'e']
        } else {
            seq!['f', 'a', 'l', 's', 'e']
        },
        Scalar::Int(i) => int_text(i as int),
        Scalar::Decimal(s) => s@,
        Scalar::Str(s) => s@,
    }
}

impl Scalar {
    /// A copy of this scalar.
    pub fn duplicate(&self) -> (r: Scalar)
        ensures
            r == *self,
    {
        match self {
            Scalar::Null => Scalar::Null,
            Scalar::Bool(b) => Scalar::Bool(*b),
            Scalar::Int(i) => Scalar::Int(*i),
            Scalar::Decimal(s) => Scalar::Decimal(s.clone()),
            Scalar::Str(s) => Scalar::Str(s.clone()),
        }
    }

    /// The text of this scalar in a CSV cell.
    pub fn to_text(&self) -> (r: String)
        ensures
            r@ == scalar_text(*self),
    {
        match self {
            Scalar::Null => {
                proof {
                    reveal_strlit("null");
                }
                let r = String::from_str("null");
                assert(r@ =~= scalar_text(*self));
                r
            },
            Scalar::Bool(b) => {
                proof {
                    reveal_strlit("true");
                    reveal_strlit("false");
                }
                let r = if *b {
                    String::from_str("true")
                } else {
                    String::from_str("false")
                };
                assert(r@ =~= scalar_text(*self));
                r
            },
            Scalar::Int(i) => int_string(*i),
            Scalar::Decimal(s) => s.clone(),
            Scalar::Str(s) => s.clone(),
        }
    }
}

/// The number of nodes in a JSON tree: an upper bound on the rows that
/// walking it adds.
pub open spec fn node_count(v: JsonValue) -> nat
    decreases v,
{
    match v {
        JsonValue::Leaf(_) => 1,
        JsonValue::Array(vs) => 1 + elems_node_count(vs, vs.len() as int),
        JsonValue::Object(es) => 1 + members_node_count(es, es.len() as int),
    }
}

/// The nodes in the first `n` elements of an array.
pub open spec fn elems_node_count(vs: Vec<JsonValue>, n: int) -> nat
    decreases vs, n,
{
    if n <= 0 || n > vs.len() {
        0
    } else {
        elems_node_count(vs, n - 1) + node_count(vs[n - 1])
    }
}

/// The nodes in the first `n` members of an object.
pub open spec fn members_node_count(es: Vec<(String, JsonValue)>, n: int) -> nat
    decreases es, n,
{
    if n <= 0 || n > es.len() {
        0
    } else {
        members_node_count(es, n - 1) + node_count(es[n - 1].1)
    }
}

/// `n`, or `usize::MAX` where `n` is larger.
pub open spec fn capped(n: nat) -> nat {
    if n < usize::MAX {
        n
    } else {
        usize::MAX as nat
    }
}

/// The number of nodes in `v`, capped at `usize::MAX`.
pub fn count_nodes(v: &JsonValue) -> (r: usize)
    ensures
        r == capped(node_count(*v)),
    decreases *v,
{
    match v {
        JsonValue::Leaf(_) => 1,
        JsonValue::Array(vs) => {
            let mut total: usize = 1;
            let mut i: usize = 0;
            while i < vs.len()
                invariant
                    i <= vs.len(),
                    *v == JsonValue::Array(*vs),
                    node_count(*v) == 1 + elems_node_count(*vs, vs.len() as int),
                    total == capped(1 + elems_node_count(*vs, i as int)),
                decreases vs.len() - i,
            {
                let item = &vs[i];
                let c = count_nodes(item);
                total = if total >= usize::MAX - c { usize::MAX } else { total + c };
                i = i + 1;
            }
            total
        },
        JsonValue::Object(es) => {
            let mut total: usize = 1;
            let mut i: usize = 0;
            while i < es.len()
                invariant
                    i <= es.len(),
                    *v == JsonValue::Object(*es),
                    node_count(*v) == 1 + members_node_count(*es, es.len() as int),
                    total == capped(1 + members_node_count(*es, i as int)),
                decreases es.len() - i,
            {
                let entry = &es[i];
                let c = count_nodes(&entry.1);
                total = if total >= usize::MAX - c { usize::MAX } else { total + c };
                i = i + 1;
            }
            total
        },
    }
}

} // verus!
