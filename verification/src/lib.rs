use vstd::prelude::*;

pub mod number;
pub mod parse;
pub mod roundtrip;
mod text;
pub mod tokenize;

use crate::number::Number;

verus! {

broadcast use vstd::std_specs::vec::axiom_vec_decreases_to_view, vstd::seq::axiom_seq_index_decreases;

/// Representation of a JSON value.
#[derive(Debug)]
pub enum Value {
    /// The literal characters `null`.
    Null,
    /// The literal characters `true` or `false`.
    Boolean(bool),
    /// Characters within double quotes, fully unescaped.
    String(String),
    /// A numeric literal, held in exact decimal form.
    Number(Number),
    /// Zero or more JSON values in order.
    Array(Vec<Value>),
    /// String keys with JSON values. The entries are held in first-insertion
    /// order; keys are unique, a later binding of a key overwrites the
    /// earlier one in place.
    Object(Vec<(String, Value)>),
}

/// The mathematical shape of a [`Value`]: strings are character sequences,
/// arrays are sequences, objects are sequences of key-value pairs.
pub enum SpecValue {
    Null,
    Boolean(bool),
    String(Seq<char>),
    Number(Number),
    Array(Seq<SpecValue>),
    Object(Seq<(Seq<char>, SpecValue)>),
}

/// The model of a value.
pub open spec fn spec_value_of(v: Value) -> SpecValue
    decreases v,
{
    match v {
        Value::Null => SpecValue::Null,
        Value::Boolean(b) => SpecValue::Boolean(b),
        Value::String(s) => SpecValue::String(s@),
        Value::Number(n) => SpecValue::Number(n),
        Value::Array(a) => SpecValue::Array(vals_view(a@)),
        Value::Object(o) => SpecValue::Object(entries_view(o@)),
    }
}

/// The model of a sequence of values.
pub open spec fn vals_view(vs: Seq<Value>) -> Seq<SpecValue>
    decreases vs,
{
    if vs.len() == 0 {
        Seq::empty()
    } else {
        vals_view(vs.drop_last()).push(spec_value_of(vs.last()))
    }
}

/// The model of a sequence of object entries.
pub open spec fn entries_view(es: Seq<(String, Value)>) -> Seq<(Seq<char>, SpecValue)>
    decreases es,
{
    if es.len() == 0 {
        Seq::empty()
    } else {
        entries_view(es.drop_last()).push((es.last().0@, spec_value_of(es.last().1)))
    }
}

impl View for Value {
    type V = SpecValue;

    open spec fn view(&self) -> SpecValue {
        spec_value_of(*self)
    }
}

/// Pointwise shape of a value sequence's model.
pub proof fn lemma_vals_view_props(vs: Seq<Value>)
    ensures
        vals_view(vs).len() == vs.len(),
        forall|l: int|
            0 <= l < vs.len() ==> #[trigger] vals_view(vs)[l] == spec_value_of(vs[l]),
    decreases vs.len(),
{
    if vs.len() > 0 {
        lemma_vals_view_props(vs.drop_last());
    }
}

/// Pointwise shape of an entry sequence's model.
pub proof fn lemma_entries_view_props(es: Seq<(String, Value)>)
    ensures
        entries_view(es).len() == es.len(),
        forall|l: int|
            0 <= l < es.len() ==> #[trigger] entries_view(es)[l] == (
                es[l].0@,
                spec_value_of(es[l].1),
            ),
    decreases es.len(),
{
    if es.len() > 0 {
        lemma_entries_view_props(es.drop_last());
    }
}

impl PartialEq for Value {
    /// Structural equality of value trees; object entries are compared in
    /// their held order.
    #[verifier::loop_isolation(false)]
    #[verifier::rlimit(50)]
    fn eq(&self, other: &Value) -> (r: bool)
        decreases *self,
    {
        match (self, other) {
            (Value::Null, Value::Null) => true,
            (Value::Boolean(a), Value::Boolean(b)) => *a == *b,
            (Value::String(a), Value::String(b)) => *a == *b,
            (Value::Number(a), Value::Number(b)) => *a == *b,
            (Value::Array(xs), Value::Array(ys)) => {
                proof {
                    lemma_vals_view_props(xs@);
                    lemma_vals_view_props(ys@);
                }
                if xs.len() != ys.len() {
                    return false;
                }
                let mut l: usize = 0;
                while l < xs.len()
                    invariant
                        l <= xs@.len(),
                        forall|m: int|
                            0 <= m < l ==> spec_value_of(xs@[m]) == spec_value_of(ys@[m]),
                    decreases xs@.len() - l,
                {
                    if !(xs[l] == ys[l]) {
                        proof {
                            assert(vals_view(xs@)[l as int] != vals_view(ys@)[l as int]);
                        }
                        return false;
                    }
                    l = l + 1;
                }
                proof {
                    assert(vals_view(xs@) =~= vals_view(ys@));
                }
                true
            },
            (Value::Object(xs), Value::Object(ys)) => {
                proof {
                    lemma_entries_view_props(xs@);
                    lemma_entries_view_props(ys@);
                }
                if xs.len() != ys.len() {
                    return false;
                }
                let mut l: usize = 0;
                while l < xs.len()
                    invariant
                        l <= xs@.len(),
                        forall|m: int|
                            0 <= m < l ==> xs@[m].0@ == ys@[m].0@ && spec_value_of(xs@[m].1)
                                == spec_value_of(ys@[m].1),
                    decreases xs@.len() - l,
                {
                    if !(xs[l].0 == ys[l].0) {
                        proof {
                            assert(entries_view(xs@)[l as int] != entries_view(ys@)[l as int]);
                        }
                        return false;
                    }
                    if !(xs[l].1 == ys[l].1) {
                        proof {
                            assert(entries_view(xs@)[l as int] != entries_view(ys@)[l as int]);
                        }
                        return false;
                    }
                    l = l + 1;
                }
                proof {
                    assert(entries_view(xs@) =~= entries_view(ys@));
                }
                true
            },
            _ => false,
        }
    }
}

impl vstd::std_specs::cmp::PartialEqSpecImpl for Value {
    open spec fn obeys_eq_spec() -> bool {
        true
    }

    open spec fn eq_spec(&self, other: &Value) -> bool {
        spec_value_of(*self) == spec_value_of(*other)
    }
}

} // verus!
