//! Route paths for the pages that host the sorting animations.

use vstd::prelude::*;

verus! {

/// The pages of the standalone prototypes, by path.
pub enum Routes {
    Bubble,
    Quick,
}

impl Routes {
    /// The URL path of the page.
    pub fn as_str(&self) -> (r: &str)
        ensures
            r@ == self.path_spec(),
    {
        match self {
            Self::Bubble => "/bubblesort",
            Self::Quick => "/quicksort",
        }
    }

    /// The path each page is served under.
    pub open spec fn path_spec(&self) -> Seq<char> {
        match self {
            Self::Bubble => "/bubblesort"@,
            Self::Quick => "/quicksort"@,
        }
    }
}

} // verus!
