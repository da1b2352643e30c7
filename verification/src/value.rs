//! Tree form of a variant value, and its mathematical model.
//!
//! A variant value is null, a boolean, a 64-bit integer, a list of variant
//! values, or an object mapping field names (unique per object in well-formed
//! data, though nothing here depends on that) to variant values.

use vstd::prelude::*;

verus! {

broadcast use vstd::std_specs::vec::axiom_vec_index_decreases, vstd::seq::group_seq_axioms;

/// The mathematical model of a variant value.
#[verifier::ext_equal]
pub enum Val {
    Null,
    Bool(bool),
    Int64(int),
    List(Seq<Val>),
    Object(Seq<(Seq<char>, Val)>),
}

/// An owned, fully decoded variant value.
#[derive(Debug)]
pub enum VariantValue {
    /// The variant null, distinct from a row that is null in the column.
    Null,
    /// A boolean scalar.
    Bool(bool),
    /// A signed 64-bit integer scalar.
    Int64(i64),
    /// A list of variant values.
    List(Vec<VariantValue>),
    /// An object: field names bound to variant values.
    Object(Vec<(String, VariantValue)>),
}

/// The models of the elements `k ..` of a list.
pub open spec fn list_view(items: &Vec<VariantValue>, k: int) -> Seq<Val>
    decreases *items, 1int, items@.len() - k,
{
    if k < 0 || k >= items@.len() {
        Seq::empty()
    } else {
        seq![items[k]@] + list_view(items, k + 1)
    }
}

/// The models of the fields `k ..` of an object.
pub open spec fn obj_view(fields: &Vec<(String, VariantValue)>, k: int) -> Seq<(Seq<char>, Val)>
    decreases *fields, 1int, fields@.len() - k,
{
    if k < 0 || k >= fields@.len() {
        Seq::empty()
    } else {
        seq![(fields[k].0@, fields[k].1@)] + obj_view(fields, k + 1)
    }
}

impl View for VariantValue {
    type V = Val;

    open spec fn view(&self) -> Val
        decreases self, 0int, 0int,
    {
        match self {
            VariantValue::Null => Val::Null,
            VariantValue::Bool(b) => Val::Bool(*b),
            VariantValue::Int64(i) => Val::Int64(*i as int),
            VariantValue::List(items) => Val::List(list_view(items, 0)),
            VariantValue::Object(fields) => Val::Object(obj_view(fields, 0)),
        }
    }
}

pub proof fn lemma_list_view(items: &Vec<VariantValue>, k: int)
    requires
        0 <= k <= items@.len(),
    ensures
        list_view(items, k).len() == items@.len() - k,
        forall|i: int| 0 <= i < items@.len() - k ==> #[trigger] list_view(items, k)[i] == items@[k
            + i]@,
    decreases items@.len() - k,
{
    if k < items@.len() {
        lemma_list_view(items, k + 1);
        assert(list_view(items, k) == seq![items[k]@] + list_view(items, k + 1));
        assert(list_view(items, k).len() == 1 + list_view(items, k + 1).len());
    }
}

pub proof fn lemma_obj_view(fields: &Vec<(String, VariantValue)>, k: int)
    requires
        0 <= k <= fields@.len(),
    ensures
        obj_view(fields, k).len() == fields@.len() - k,
        forall|i: int| 0 <= i < fields@.len() - k ==> #[trigger] obj_view(fields, k)[i] == (
        fields@[k + i].0@, fields@[k + i].1@),
    decreases fields@.len() - k,
{
    if k < fields@.len() {
        lemma_obj_view(fields, k + 1);
        assert(obj_view(fields, k) == seq![(fields[k].0@, fields[k].1@)] + obj_view(
            fields,
            k + 1,
        ));
        assert(obj_view(fields, k).len() == 1 + obj_view(fields, k + 1).len());
    }
}

} // verus!
