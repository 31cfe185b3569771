//! The generic nested value that a decoded tree is rendered into.
use vstd::prelude::*;

verus! {

broadcast use vstd::std_specs::vec::group_vec_axioms, vstd::seq::group_seq_axioms;

/// A generic nested value: a scalar, a table of byte-string keys to values
/// in order, or a list of values.
#[derive(Debug, PartialEq)]
pub enum Value {
    Bool(bool),
    Int(i64),
    Text(Vec<u8>),
    Bytes(Vec<u8>),
    Table(Vec<(Vec<u8>, Value)>),
    List(Vec<Value>),
}

/// The mathematical counterpart of `Value`.
pub enum ValueModel {
    Bool(bool),
    Int(int),
    Text(Seq<u8>),
    Bytes(Seq<u8>),
    Table(Seq<(Seq<u8>, ValueModel)>),
    List(Seq<ValueModel>),
}

/// The mathematical value that `v` denotes.
pub open spec fn value_model(v: Value) -> ValueModel
    decreases v,
{
    match v {
        Value::Bool(b) => ValueModel::Bool(b),
        Value::Int(i) => ValueModel::Int(i as int),
        Value::Text(t) => ValueModel::Text(t@),
        Value::Bytes(t) => ValueModel::Bytes(t@),
        Value::Table(m) => ValueModel::Table(
            Seq::new(
                m@.len(),
                |j: int|
                    if 0 <= j < m@.len() {
                        (m@[j].0@, value_model(m@[j].1))
                    } else {
                        (Seq::empty(), ValueModel::Bool(false))
                    },
            ),
        ),
        Value::List(l) => ValueModel::List(
            Seq::new(
                l@.len(),
                |j: int|
                    if 0 <= j < l@.len() {
                        value_model(l@[j])
                    } else {
                        ValueModel::Bool(false)
                    },
            ),
        ),
    }
}

impl View for Value {
    type V = ValueModel;

    open spec fn view(&self) -> ValueModel {
        value_model(*self)
    }
}

/// The view of a table lists the views of its pairs, in order.
pub proof fn lemma_table_view(v: Vec<(Vec<u8>, Value)>)
    ensures
        Value::Table(v)@ is Table,
        Value::Table(v)@->Table_0.len() == v@.len(),
        forall|j: int|
            0 <= j < v@.len() ==> #[trigger] Value::Table(v)@->Table_0[j] == (v@[j].0@, v@[j].1@),
{
}

/// The view of a list lists the views of its items, in order.
pub proof fn lemma_list_view(v: Vec<Value>)
    ensures
        Value::List(v)@ is List,
        Value::List(v)@->List_0.len() == v@.len(),
        forall|j: int| 0 <= j < v@.len() ==> #[trigger] Value::List(v)@->List_0[j] == v@[j]@,
{
}

} // verus!
