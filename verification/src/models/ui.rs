//! The sort settings of a view.

use vstd::prelude::*;

verus! {

/// The field by which a view is ordered.
#[derive(Debug, Clone, Copy, PartialEq, Eq, Structural)]
pub enum SortField {
    Name,
    Created,
    PromptPrice,
    CompletionPrice,
}

/// The direction in which a view is ordered.
#[derive(Debug, Clone, Copy, PartialEq, Eq, Structural)]
pub enum SortDirection {
    Ascending,
    Descending,
}

impl SortDirection {
    /// The other direction.
    pub open spec fn flipped(self) -> SortDirection {
        match self {
            SortDirection::Ascending => SortDirection::Descending,
            SortDirection::Descending => SortDirection::Ascending,
        }
    }

    /// Switches between ascending and descending.
    pub fn toggled(self) -> (d: SortDirection)
        ensures
            d == self.flipped(),
    {
        match self {
            SortDirection::Ascending => SortDirection::Descending,
            SortDirection::Descending => SortDirection::Ascending,
        }
    }
}

} // verus!
