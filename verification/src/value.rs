//! The JSON value universe that the codec consumes and emits.
//!
//! Numbers that fit in `i64` are kept as integers; any other number is kept
//! by its literal decimal text, which is also how every number travels on the
//! wire. `Object` keeps its entries in insertion order, and that order is the
//! order in which keys are encoded.

use vstd::prelude::*;

verus! {

/// A JSON value, as the codec sees it.
#[derive(Debug, PartialEq)]
pub enum JsonValue {
    Null,
    Boolean(bool),
    Integer(i64),
    NumberText(String),
    Text(String),
    Array(Vec<JsonValue>),
    Object(Vec<(String, JsonValue)>),
}

/// The mathematical shape of a `JsonValue`: every piece of text a `Seq<char>`,
/// every integer unbounded.
#[verifier::ext_equal]
pub enum JVal {
    Null,
    Boolean(bool),
    Integer(int),
    NumberText(Seq<char>),
    Text(Seq<char>),
    Array(Seq<JVal>),
    Object(Seq<(Seq<char>, JVal)>),
}

impl JsonValue {
    pub open spec fn model(self) -> JVal
        decreases self via Self::model_decreases
    {
        match self {
            JsonValue::Null => JVal::Null,
            JsonValue::Boolean(b) => JVal::Boolean(b),
            JsonValue::Integer(i) => JVal::Integer(i as int),
            JsonValue::NumberText(t) => JVal::NumberText(t@),
            JsonValue::Text(s) => JVal::Text(s@),
            JsonValue::Array(es) => JVal::Array(model_elems(es@)),
            JsonValue::Object(es) => JVal::Object(model_entries(es@)),
        }
    }

    #[via_fn]
    proof fn model_decreases(self) {
        match self {
            JsonValue::Array(es) => {
                assert(decreases_to!(es => es@));
            },
            JsonValue::Object(es) => {
                assert(decreases_to!(es => es@));
            },
            _ => {},
        }
    }
}

/// The models of the elements of an array, in order.
pub open spec fn model_elems(es: Seq<JsonValue>) -> Seq<JVal>
    decreases es via model_elems_decreases
{
    if es.len() == 0 {
        Seq::empty()
    } else {
        model_elems(es.drop_last()).push(es.last().model())
    }
}

#[via_fn]
proof fn model_elems_decreases(es: Seq<JsonValue>) {
    if es.len() > 0 {
        assert(decreases_to!(es => es.drop_last()));
        assert(decreases_to!(es => es[es.len() - 1]));
    }
}

/// The models of the entries of an object, in order.
pub open spec fn model_entries(es: Seq<(String, JsonValue)>) -> Seq<(Seq<char>, JVal)>
    decreases es via model_entries_decreases
{
    if es.len() == 0 {
        Seq::empty()
    } else {
        model_entries(es.drop_last()).push((es.last().0@, es.last().1.model()))
    }
}

#[via_fn]
proof fn model_entries_decreases(es: Seq<(String, JsonValue)>) {
    if es.len() > 0 {
        assert(decreases_to!(es => es.drop_last()));
        assert(decreases_to!(es => es[es.len() - 1]));
        assert(decreases_to!(es[es.len() - 1] => es[es.len() - 1].1));
    }
}

/// `model_elems` maps each element to its model.
pub broadcast proof fn lemma_model_elems(es: Seq<JsonValue>)
    ensures
        #[trigger] model_elems(es).len() == es.len(),
        forall|i: int| 0 <= i < es.len() ==> model_elems(es)[i] == es[i].model(),
    decreases es.len(),
{
    if es.len() > 0 {
        lemma_model_elems(es.drop_last());
    }
}

/// `model_entries` maps each entry to its key's view and its value's model.
pub broadcast proof fn lemma_model_entries(es: Seq<(String, JsonValue)>)
    ensures
        #[trigger] model_entries(es).len() == es.len(),
        forall|i: int| 0 <= i < es.len() ==> model_entries(es)[i] == (es[i].0@, es[i].1.model()),
    decreases es.len(),
{
    if es.len() > 0 {
        lemma_model_entries(es.drop_last());
    }
}

/// Appending one element appends its model.
pub proof fn lemma_model_elems_snoc(es2: Seq<JsonValue>, es: Seq<JsonValue>)
    requires
        es2.len() == es.len() + 1,
        es2.drop_last() == es,
    ensures
        model_elems(es2) == model_elems(es).push(es2.last().model()),
{
}

/// Appending one entry appends its key's view and its value's model.
pub proof fn lemma_model_entries_snoc(es2: Seq<(String, JsonValue)>, es: Seq<(String, JsonValue)>)
    requires
        es2.len() == es.len() + 1,
        es2.drop_last() == es,
    ensures
        model_entries(es2) == model_entries(es).push((es2.last().0@, es2.last().1.model())),
{
}

impl JsonValue {
    /// A structural copy; the model of the copy is the model of the original.
    #[verifier::loop_isolation(false)]
    pub fn duplicate(&self) -> (r: JsonValue)
        ensures
            r@ == self@,
        decreases *self,
    {
        broadcast use lemma_model_elems, lemma_model_entries;

        match self {
            JsonValue::Null => JsonValue::Null,
            JsonValue::Boolean(b) => JsonValue::Boolean(*b),
            JsonValue::Integer(i) => JsonValue::Integer(*i),
            JsonValue::NumberText(t) => JsonValue::NumberText(t.clone()),
            JsonValue::Text(s) => JsonValue::Text(s.clone()),
            JsonValue::Array(es) => {
                let mut out: Vec<JsonValue> = Vec::new();
                let mut i: usize = 0;
                while i < es.len()
                    invariant
                        i <= es.len(),
                        out@.len() == i as int,
                        forall|j: int| 0 <= j < i as int ==> out@[j]@ == es@[j]@,
                    decreases es.len() - i,
                {
                    proof {
                        assert(decreases_to!(es => es@));
                        assert(decreases_to!(es@ => es@[i as int]));
                    }
                    out.push(es[i].duplicate());
                    i = i + 1;
                }
                proof {
                    assert(model_elems(out@) =~= model_elems(es@));
                }
                JsonValue::Array(out)
            },
            JsonValue::Object(es) => {
                let mut out: Vec<(String, JsonValue)> = Vec::new();
                let mut i: usize = 0;
                while i < es.len()
                    invariant
                        i <= es.len(),
                        out@.len() == i as int,
                        forall|j: int| 0 <= j < i as int ==> out@[j].0@ == es@[j].0@
                            && out@[j].1@ == es@[j].1@,
                    decreases es.len() - i,
                {
                    let entry = &es[i];
                    proof {
                        assert(decreases_to!(es => es@));
                        assert(decreases_to!(es@ => es@[i as int]));
                        assert(decreases_to!(es@[i as int] => es@[i as int].1));
                    }
                    out.push((entry.0.clone(), entry.1.duplicate()));
                    i = i + 1;
                }
                proof {
                    lemma_model_entries(out@);
                    lemma_model_entries(es@);
                    assert(model_entries(out@) =~= model_entries(es@));
                }
                JsonValue::Object(out)
            },
        }
    }
}

impl View for JsonValue {
    type V = JVal;

    open spec fn view(&self) -> JVal {
        self.model()
    }
}

impl DeepView for JsonValue {
    type V = JVal;

    open spec fn deep_view(&self) -> JVal {
        self.model()
    }
}

} // verus!
