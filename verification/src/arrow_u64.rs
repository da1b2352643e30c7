//! Trusted interface to arrow's primitive array and builder for the
//! 64-bit unsigned output column.
//!
//! Verus does not accept a declaration of arrow's generic array types, so
//! each is held in a private field of an opaque struct.  The builder's
//! contents and the finished array's rows are named by two uninterpreted
//! functions; each wrapper states what the arrow call it makes does to
//! them, as arrow's source shows.

use arrow::array::Array;
use arrow::array::PrimitiveArray;
use arrow::array::PrimitiveBuilder;
use arrow::datatypes::UInt64Type;
use vstd::prelude::*;

verus! {

/// An under-construction arrow column of nullable `u64` rows.
#[verifier::external_body]
pub struct U64Builder {
    inner: PrimitiveBuilder<UInt64Type>,
}

/// A finished arrow column of nullable `u64` rows.
#[verifier::external_body]
#[derive(Debug)]
pub struct U64Array {
    inner: PrimitiveArray<UInt64Type>,
}

/// The rows a builder holds so far, in order, `None` for a null row.
pub uninterp spec fn u64_builder_rows(b: U64Builder) -> Seq<Option<u64>>;

/// The rows of a finished array, in order, `None` for a null row.
pub uninterp spec fn u64_array_rows(a: U64Array) -> Seq<Option<u64>>;

impl U64Builder {
    /// Relies on arrow's PrimitiveBuilder::new: a fresh builder holds no
    /// rows.
    #[verifier::external_body]
    pub fn new() -> (b: U64Builder)
        ensures
            u64_builder_rows(b) == Seq::<Option<u64>>::empty(),
    {
        U64Builder { inner: PrimitiveBuilder::new() }
    }

    /// Relies on arrow's PrimitiveBuilder::append_value: appends one
    /// non-null row holding `v`.
    #[verifier::external_body]
    pub fn append_value(&mut self, v: u64)
        ensures
            u64_builder_rows(*final(self)) == u64_builder_rows(*old(self)).push(Some(v)),
    {
        self.inner.append_value(v)
    }

    /// Relies on arrow's PrimitiveBuilder::append_null: appends one null
    /// row.
    #[verifier::external_body]
    pub fn append_null(&mut self)
        ensures
            u64_builder_rows(*final(self)) == u64_builder_rows(*old(self)).push(None),
    {
        self.inner.append_null()
    }

    /// Relies on arrow's PrimitiveBuilder::finish: the finished array
    /// holds the rows appended so far, and the builder is left empty.
    #[verifier::external_body]
    pub fn finish(&mut self) -> (a: U64Array)
        ensures
            u64_array_rows(a) == u64_builder_rows(*old(self)),
            u64_builder_rows(*final(self)) == Seq::<Option<u64>>::empty(),
    {
        U64Array { inner: self.inner.finish() }
    }
}

impl U64Array {
    /// Relies on arrow's Array::len.
    #[verifier::external_body]
    pub fn len(&self) -> (n: usize)
        ensures
            n == u64_array_rows(*self).len(),
    {
        self.inner.len()
    }

    /// Relies on arrow's Array::is_null: whether row `i` is null.
    #[verifier::external_body]
    pub fn is_null(&self, i: usize) -> (r: bool)
        requires
            i < u64_array_rows(*self).len(),
        ensures
            r == (u64_array_rows(*self)[i as int] is None),
    {
        self.inner.is_null(i)
    }

    /// Relies on arrow's PrimitiveArray::value: the value of a non-null
    /// row.
    #[verifier::external_body]
    pub fn value(&self, i: usize) -> (r: u64)
        requires
            i < u64_array_rows(*self).len(),
            u64_array_rows(*self)[i as int] is Some,
        ensures
            r == u64_array_rows(*self)[i as int]->Some_0,
    {
        self.inner.value(i)
    }
}

} // verus!
