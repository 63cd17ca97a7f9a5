use vstd::prelude::*;
use crate::card::{Card, Suit, is_different_color_suit};
use crate::pile::get_top_of_pile_card;

verus! {

/// A block whose bottom card is `c` may go onto the tableau pile `target`: a King onto an
/// empty pile, or a card one rank lower and of the other color than the target's top.
pub open spec fn can_place_on_tableau(c: Card, target: Seq<Card>) -> bool {
    if target.len() == 0 {
        c.rank == 13
    } else {
        target.last().rank == c.rank + 1 && c.suit.is_red_spec() != target.last().suit.is_red_spec()
    }
}

/// Card `c` may go onto the foundation pile `f` of suit `suit`: it has that suit, and it is
/// an Ace on an empty pile or one rank above the pile's top.
pub open spec fn can_place_on_foundation(c: Card, suit: Suit, f: Seq<Card>) -> bool {
    c.suit == suit && if f.len() == 0 {
        c.rank == 1
    } else {
        c.rank == f.last().rank + 1
    }
}

/// Whether the block `source` (bottom card first) may be placed on the tableau pile `target`.
pub fn pile_can_be_placed(source: &Vec<Card>, target: &Vec<Card>) -> (r: bool)
    ensures
        r == (source@.len() > 0 && can_place_on_tableau(source@[0], target@)),
{
    if source.len() == 0 {
        return false;
    }
    let first = source[0];
    match get_top_of_pile_card(target) {
        None => first.rank == 13,
        Some(top) => is_different_color_suit(first.suit, top.suit) && top.rank > first.rank
            && top.rank - first.rank == 1,
    }
}

/// Whether card `c` may be placed on the foundation pile `f` that holds suit `suit`.
pub fn can_be_placed_on_foundation(c: Card, suit: Suit, f: &Vec<Card>) -> (r: bool)
    ensures
        r == can_place_on_foundation(c, suit, f@),
{
    if c.suit != suit {
        return false;
    }
    match get_top_of_pile_card(f) {
        None => c.rank == 1,
        Some(top) => c.rank > top.rank && c.rank - top.rank == 1,
    }
}

} // verus!
