use vstd::prelude::*;

use super::card::Card;

verus! {

/// A pile of cards; the last card of `cards` is the top of the pile.
pub struct Deck {
    pub cards: Vec<Card>,
}

impl Deck {
    /// Makes a deck of exactly the given cards, in the given order.
    pub fn new(cards: Vec<Card>) -> (deck: Deck)
        ensures
            deck.cards@ == cards@,
    {
        Deck { cards }
    }
}

} // verus!
