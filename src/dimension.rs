use vstd::prelude::*;

verus! {

/// The two ways of cutting the board into lines.
#[derive(Debug, PartialEq, Eq, Structural, Copy, Clone, Hash)]
pub enum Dimension {
    Row,
    Col,
}

impl Dimension {
    /// The perpendicular dimension.
    pub fn inverse(self) -> (r: Self)
        ensures
            r != self,
    {
        if self == Dimension::Col {
            Dimension::Row
        } else {
            Dimension::Col
        }
    }
}

} // verus!
