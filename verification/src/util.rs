//! Source locations and values annotated with them.

use vstd::prelude::*;

verus! {

/// A half-open range `[start, end)` of byte offsets into a source text:
/// `Loc(start, end)`.
#[derive(Debug, Clone, Copy, PartialEq, Eq, Hash)]
pub struct Loc(pub usize, pub usize);

impl Loc {
    /// Byte offset `i` lies inside the range.
    pub open spec fn contains(self, i: int) -> bool {
        self.0 <= i < self.1
    }
}

/// A value together with the place in the source text that it came from.
#[derive(Debug, Clone, PartialEq, Eq, Hash)]
pub struct Annotation<T> {
    pub value: T,
    pub loc: Loc,
}

impl<T> Annotation<T> {
    pub fn new(value: T, loc: Loc) -> (r: Self)
        ensures
            r.value == value,
            r.loc == loc,
    {
        Annotation { value, loc }
    }
}

/// An annotated value is viewed as the view of the value at the same place.
impl<T: View> View for Annotation<T> {
    type V = Annotation<T::V>;

    open spec fn view(&self) -> Annotation<T::V> {
        Annotation { value: self.value@, loc: self.loc }
    }
}

} // verus!
