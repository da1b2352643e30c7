//! Path descriptors: ordered, immutable sequences of accessors naming a
//! location inside a nested variant value.

use vstd::prelude::*;

verus! {

/// The mathematical form of one accessor: an object field selected by
/// name, or a list element selected by zero-based position.
pub enum PathStep {
    Field(Seq<char>),
    Index(int),
}

/// Element of a path.
#[derive(Debug, Clone)]
pub enum VariantPathElement {
    /// Access field with name `name`.
    Field { name: String },
    /// Access the list element at `index`.
    Index { index: usize },
}

impl View for VariantPathElement {
    type V = PathStep;

    open spec fn view(&self) -> PathStep {
        match self {
            VariantPathElement::Field { name } => PathStep::Field(name@),
            VariantPathElement::Index { index } => PathStep::Index(*index as int),
        }
    }
}

impl VariantPathElement {
    pub fn field(name: String) -> (r: VariantPathElement)
        ensures
            r@ == PathStep::Field(name@),
    {
        VariantPathElement::Field { name }
    }

    pub fn index(index: usize) -> (r: VariantPathElement)
        ensures
            r@ == PathStep::Index(index as int),
    {
        VariantPathElement::Index { index }
    }
}

/// Represents a qualified path to a potential subfield or index of a
/// variant value.  The sequence of accessors is fixed at construction;
/// an empty path names the whole value.
#[derive(Debug, Clone)]
pub struct VariantPath {
    elements: Vec<VariantPathElement>,
}

impl View for VariantPath {
    type V = Seq<PathStep>;

    closed spec fn view(&self) -> Seq<PathStep> {
        Seq::new(self.elements@.len(), |i: int| self.elements@[i]@)
    }
}

impl VariantPath {
    pub fn new(path: Vec<VariantPathElement>) -> (r: VariantPath)
        ensures
            r@ == Seq::new(path@.len(), |i: int| path@[i]@),
    {
        VariantPath { elements: path }
    }

    pub fn path(&self) -> (r: &Vec<VariantPathElement>)
        ensures
            r@.len() == self@.len(),
            forall|i: int| 0 <= i < r@.len() ==> r@[i]@ == self@[i],
    {
        &self.elements
    }
}

impl From<Vec<VariantPathElement>> for VariantPath {
    fn from(value: Vec<VariantPathElement>) -> (r: VariantPath) {
        VariantPath { elements: value }
    }
}

impl vstd::std_specs::convert::FromSpecImpl<Vec<VariantPathElement>> for VariantPath {
    open spec fn obeys_from_spec() -> bool {
        true
    }

    closed spec fn from_spec(value: Vec<VariantPathElement>) -> VariantPath {
        VariantPath { elements: value }
    }
}

} // verus!
