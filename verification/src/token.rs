use vstd::prelude::*;

verus! {

/// Input tokens: copied freely and compared exactly.
pub trait Token: Copy {
    /// Decides whether two tokens are the same token.
    fn same(&self, other: &Self) -> (r: bool)
        ensures
            r == (*self == *other),
    ;
}

impl Token for char {
    fn same(&self, other: &char) -> (r: bool) {
        *self == *other
    }
}

impl Token for u8 {
    fn same(&self, other: &u8) -> (r: bool) {
        *self == *other
    }
}

} // verus!
