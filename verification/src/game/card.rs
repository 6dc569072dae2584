use vstd::prelude::*;

verus! {

/// A playing card: the name of its suit and its value.
#[derive(Clone, Debug)]
pub struct Card {
    pub suit: String,
    pub value: i32,
}

} // verus!
