use vstd::prelude::*;
use crate::card::{Card, Suit};
use crate::pile::{
    get_top_of_pile_card, draw_card_from_pile, flip_top_card_in_pile, place_pile_on_pile,
    get_flipped_pile, draw_flipped_pile, flip_top_spec, face_up_run, run_start,
};
use crate::rules::{pile_can_be_placed, can_be_placed_on_foundation, can_place_on_foundation};
use crate::model::{GameModel, Command, Selection, piles, draw_one, draw_three, face_down_all};
use crate::laws::lemma_step_wf;

verus! {

/// A game in progress: stock, waste, seven tableau piles, four foundations and the selection.
pub struct Game {
    pub stock: Vec<Card>,
    pub waste: Vec<Card>,
    pub tableau: Vec<Vec<Card>>,
    pub foundation: Vec<Vec<Card>>,
    pub selection: Selection,
}

impl View for Game {
    type V = GameModel;

    open spec fn view(&self) -> GameModel {
        GameModel {
            stock: self.stock@,
            waste: self.waste@,
            tableau: piles(self.tableau@),
            foundation: piles(self.foundation@),
            selection: self.selection,
        }
    }
}

proof fn lemma_piles_update(v: Seq<Vec<Card>>, i: int, x: Vec<Card>)
    requires
        0 <= i < v.len(),
    ensures
        piles(v.update(i, x)) == piles(v).update(i, x@),
{
    assert(piles(v.update(i, x)) =~= piles(v).update(i, x@));
}

/// Moves the top card of `source` onto foundation `slot` (whose suit is the slot's suit),
/// face up, when the rules allow it; reports whether it moved.
pub fn try_to_place_in_foundation_slot(slot: usize, foundation: &mut Vec<Vec<Card>>, source: &mut Vec<Card>) -> (r: bool)
    ensures
        r == (slot < 4 && slot < old(foundation)@.len() && old(source)@.len() > 0
            && can_place_on_foundation(old(source)@.last(), Suit::from_index_spec(slot as int), old(foundation)@[slot as int]@)),
        r ==> final(source)@ == old(source)@.drop_last() && piles(final(foundation)@) == piles(old(foundation)@).update(
            slot as int,
            old(foundation)@[slot as int]@.push(old(source)@.last().turned(true)),
        ),
        r ==> final(foundation)@.len() == old(foundation)@.len(),
        !r ==> final(source)@ == old(source)@ && final(foundation)@ == old(foundation)@,
{
    let suit = match Suit::from_index(slot) {
        Some(s) => s,
        None => return false,
    };
    if slot >= foundation.len() {
        return false;
    }
    match get_top_of_pile_card(source) {
        None => false,
        Some(c) => {
            if can_be_placed_on_foundation(c, suit, &foundation[slot]) {
                draw_card_from_pile(source);
                let ghost f0 = foundation@;
                foundation[slot].push(Card { suit: c.suit, rank: c.rank, face_up: true });
                proof {
                    lemma_piles_update(f0, slot as int, foundation@[slot as int]);
                }
                true
            } else {
                false
            }
        },
    }
}

/// One draw from the stock onto the waste, recycling the waste when the stock is empty.
fn draw_one_card(stock: &mut Vec<Card>, waste: &mut Vec<Card>)
    ensures
        (final(stock)@, final(waste)@) == draw_one(old(stock)@, old(waste)@),
{
    if stock.len() == 0 {
        if waste.len() == 0 {
            return;
        }
        let mut i: usize = 0;
        while i < waste.len()
            invariant
                i <= waste@.len(),
                waste@ == old(waste)@,
                stock@ == face_down_all(waste@).subrange(0, i as int),
            decreases waste@.len() - i,
        {
            let c = waste[i];
            stock.push(Card { suit: c.suit, rank: c.rank, face_up: false });
            i = i + 1;
            assert(stock@ =~= face_down_all(waste@).subrange(0, i as int));
        }
        assert(stock@ =~= face_down_all(old(waste)@));
        waste.clear();
    }
    match draw_card_from_pile(stock) {
        Some(c) => {
            waste.push(Card { suit: c.suit, rank: c.rank, face_up: true });
        },
        None => {},
    }
    proof {
        if old(stock)@.len() == 0 {
            assert(waste@ =~= seq![face_down_all(old(waste)@).last().turned(true)]);
        }
    }
}

impl Game {
    /// Three draws from the stock onto the waste (see `draw_one`).
    pub fn draw_three_from_stock(&mut self)
        requires
            old(self)@.wf(),
        ensures
            final(self)@ == old(self)@.draw_three_step(),
            final(self)@.wf(),
    {
        proof {
            lemma_step_wf(self@, Command::DrawThree);
        }
        let mut n: usize = 0;
        let ghost s0 = self@;
        while n < 3
            invariant
                n <= 3,
                self.tableau == old(self).tableau,
                self.foundation == old(self).foundation,
                self.selection == old(self).selection,
                s0 == old(self)@,
                n == 0 ==> (self.stock@, self.waste@) == (s0.stock, s0.waste),
                n == 1 ==> (self.stock@, self.waste@) == draw_one(s0.stock, s0.waste),
                n == 2 ==> (self.stock@, self.waste@) == draw_one(draw_one(s0.stock, s0.waste).0, draw_one(s0.stock, s0.waste).1),
                n == 3 ==> (self.stock@, self.waste@) == draw_three(s0.stock, s0.waste),
            decreases 3 - n,
        {
            draw_one_card(&mut self.stock, &mut self.waste);
            n = n + 1;
        }
    }

    /// Toggles the waste selection.
    pub fn on_waste_selection(&mut self)
        requires
            old(self)@.wf(),
        ensures
            final(self)@ == old(self)@.select_waste_step(),
            final(self)@.wf(),
    {
        if self.selection == Selection::WasteSelected {
            self.selection = Selection::Unselected;
        } else {
            self.selection = Selection::WasteSelected;
        }
    }

    /// Sends the selected card (waste top or selected tableau pile's top) to foundation `slot`.
    pub fn try_to_place_in_foundation_slot_from_selection(&mut self, slot: usize)
        requires
            old(self)@.wf(),
        ensures
            final(self)@ == old(self)@.send_to_foundation_step(slot as int),
            final(self)@.wf(),
    {
        proof {
            lemma_step_wf(self@, Command::SendToFoundation(slot));
        }
        match self.selection {
            Selection::Unselected => {},
            Selection::WasteSelected => {
                if try_to_place_in_foundation_slot(slot, &mut self.foundation, &mut self.waste) {
                    self.selection = Selection::Unselected;
                }
            },
            Selection::TableauSelected(j) => {
                let ghost t0 = self.tableau@;
                if try_to_place_in_foundation_slot(slot, &mut self.foundation, &mut self.tableau[j]) {
                    self.selection = Selection::Unselected;
                    let ghost t1 = self.tableau@;
                    flip_top_card_in_pile(&mut self.tableau[j]);
                    proof {
                        lemma_piles_update(t0, j as int, t1[j as int]);
                        lemma_piles_update(t1, j as int, self.tableau@[j as int]);
                        assert(t1 == t0.update(j as int, t1[j as int]));
                        assert(piles(self.tableau@) =~= piles(t0).update(j as int, flip_top_spec(t0[j as int]@.drop_last())));
                    }
                } else {
                    proof {
                        assert(self.tableau@ == t0.update(j as int, self.tableau@[j as int]));
                        lemma_piles_update(t0, j as int, self.tableau@[j as int]);
                        assert(piles(self.tableau@) =~= piles(t0));
                    }
                }
            },
        }
    }

    /// Selects tableau pile `pile_index`, deselects it, or moves the selection onto it.
    pub fn on_tableau_selection(&mut self, pile_index: usize)
        requires
            old(self)@.wf(),
        ensures
            final(self)@ == old(self)@.select_tableau_step(pile_index as int),
            final(self)@.wf(),
    {
        proof {
            lemma_step_wf(self@, Command::SelectTableau(pile_index));
        }
        if pile_index >= self.tableau.len() {
            return;
        }
        let ghost t0 = self.tableau@;
        match self.selection {
            Selection::Unselected => {
                self.selection = Selection::TableauSelected(pile_index);
            },
            Selection::WasteSelected => {
                match get_top_of_pile_card(&self.waste) {
                    None => {},
                    Some(c) => {
                        let mut source: Vec<Card> = Vec::new();
                        source.push(c);
                        if pile_can_be_placed(&source, &self.tableau[pile_index]) {
                            draw_card_from_pile(&mut self.waste);
                            place_pile_on_pile(source, &mut self.tableau[pile_index]);
                            let ghost t1 = self.tableau@;
                            flip_top_card_in_pile(&mut self.tableau[pile_index]);
                            self.selection = Selection::Unselected;
                            proof {
                                let i = pile_index as int;
                                lemma_piles_update(t0, i, t1[i]);
                                lemma_piles_update(t1, i, self.tableau@[i]);
                                assert(t1 == t0.update(i, t1[i]));
                                assert(self.tableau@[i]@ =~= t0[i]@.push(c.turned(true)));
                                assert(piles(self.tableau@) =~= piles(t0).update(i, t0[i]@.push(c.turned(true))));
                            }
                        }
                    },
                }
            },
            Selection::TableauSelected(j) => {
                if j == pile_index {
                    self.selection = Selection::Unselected;
                } else {
                    let run = get_flipped_pile(&self.tableau[j]);
                    let ghost i = pile_index as int;
                    let ghost src = t0[j as int]@;
                    if pile_can_be_placed(&run, &self.tableau[pile_index]) {
                        let moved = draw_flipped_pile(&mut self.tableau[j]);
                        let ghost t1 = self.tableau@;
                        place_pile_on_pile(moved, &mut self.tableau[pile_index]);
                        proof {
                            lemma_piles_update(t0, j as int, t1[j as int]);
                            lemma_piles_update(t1, i, self.tableau@[i]);
                            assert(t1 == t0.update(j as int, t1[j as int]));
                            assert(piles(self.tableau@) =~= piles(t0).update(j as int, src.subrange(0, run_start(src))).update(
                                i,
                                t0[i]@ + face_up_run(src),
                            ));
                        }
                    } else {
                        proof {
                            assert(piles(self.tableau@) =~= piles(t0));
                        }
                    }
                    let ghost t2 = self.tableau@;
                    self.selection = Selection::Unselected;
                    flip_top_card_in_pile(&mut self.tableau[j]);
                    proof {
                        lemma_piles_update(t2, j as int, self.tableau@[j as int]);
                        assert(self.tableau@ == t2.update(j as int, self.tableau@[j as int]));
                    }
                }
            },
        }
    }

    /// Performs one command; `Quit` changes nothing (the caller ends the session).
    pub fn apply(&mut self, command: Command)
        requires
            old(self)@.wf(),
        ensures
            final(self)@ == old(self)@.step(command),
            final(self)@.wf(),
    {
        match command {
            Command::Quit => {},
            Command::SendToFoundation(slot) => self.try_to_place_in_foundation_slot_from_selection(slot),
            Command::DrawThree => self.draw_three_from_stock(),
            Command::SelectWaste => self.on_waste_selection(),
            Command::SelectTableau(i) => self.on_tableau_selection(i),
        }
    }

    /// Whether the game is won: stock, waste and every tableau pile are empty.
    pub fn is_won(&self) -> (r: bool)
        ensures
            r == self@.is_won(),
    {
        if self.stock.len() > 0 || self.waste.len() > 0 {
            return false;
        }
        let mut i: usize = 0;
        while i < self.tableau.len()
            invariant
                i <= self.tableau@.len(),
                forall|k: int| 0 <= k < i ==> (#[trigger] self.tableau@[k])@.len() == 0,
            decreases self.tableau@.len() - i,
        {
            if self.tableau[i].len() > 0 {
                assert(self@.tableau[i as int].len() > 0);
                return false;
            }
            i = i + 1;
        }
        assert forall|k: int| 0 <= k < self@.tableau.len() implies (#[trigger] self@.tableau[k]).len() == 0 by {
            assert(self@.tableau[k] == self.tableau@[k]@);
        }
        true
    }
}

} // verus!
