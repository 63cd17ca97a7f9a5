use vstd::prelude::*;
use vstd::multiset::Multiset;
use crate::card::{Card, Suit};
use crate::pile::{face_up_run, run_start, flip_top_spec, face_down_prefix};
use crate::rules::{can_place_on_tableau, can_place_on_foundation};

verus! {

/// Number of tableau piles.
pub const TABLEAU_PILE_COUNT: usize = 7;

/// Number of foundation piles, one per suit.
pub const FOUNDATION_PILE_COUNT: usize = 4;

/// What is currently selected: nothing, the waste's top card, or a tableau pile's face-up run.
#[derive(PartialEq, Eq, Structural, Clone, Copy, Debug)]
pub enum Selection {
    Unselected,
    WasteSelected,
    TableauSelected(usize),
}

/// The commands a player can give.
#[derive(PartialEq, Eq, Structural, Clone, Copy, Debug)]
pub enum Command {
    Quit,
    SendToFoundation(usize),
    DrawThree,
    SelectWaste,
    SelectTableau(usize),
}

/// Mathematical model of a game: every pile as a sequence of cards, top last.
pub ghost struct GameModel {
    pub stock: Seq<Card>,
    pub waste: Seq<Card>,
    pub tableau: Seq<Seq<Card>>,
    pub foundation: Seq<Seq<Card>>,
    pub selection: Selection,
}

/// The contents of a sequence of piles.
pub open spec fn piles(v: Seq<Vec<Card>>) -> Seq<Seq<Card>> {
    v.map_values(|p: Vec<Card>| p@)
}

/// Total number of cards in a sequence of piles.
pub open spec fn count(ps: Seq<Seq<Card>>) -> int
    decreases ps.len(),
{
    if ps.len() == 0 {
        0
    } else {
        count(ps.drop_last()) + ps.last().len()
    }
}

/// A foundation pile of suit `suit`: Ace, 2, 3, ... of that suit, all face up.
pub open spec fn foundation_ok(p: Seq<Card>, suit: Suit) -> bool {
    forall|j: int| 0 <= j < p.len() ==> (#[trigger] p[j]).suit == suit && p[j].rank == j + 1 && p[j].face_up
}

/// The cards of a pile, each turned face down, in the same order.
pub open spec fn face_down_all(p: Seq<Card>) -> Seq<Card> {
    Seq::new(p.len(), |i: int| p[i].turned(false))
}

/// One draw: the stock's top card goes face up onto the waste; with an empty stock the
/// waste is first turned face down into the stock, keeping its order; with both empty nothing moves.
pub open spec fn draw_one(stock: Seq<Card>, waste: Seq<Card>) -> (Seq<Card>, Seq<Card>) {
    if stock.len() > 0 {
        (stock.drop_last(), waste.push(stock.last().turned(true)))
    } else if waste.len() > 0 {
        let s = face_down_all(waste);
        (s.drop_last(), seq![s.last().turned(true)])
    } else {
        (stock, waste)
    }
}

/// Three draws in a row.
pub open spec fn draw_three(stock: Seq<Card>, waste: Seq<Card>) -> (Seq<Card>, Seq<Card>) {
    let a = draw_one(stock, waste);
    let b = draw_one(a.0, a.1);
    draw_one(b.0, b.1)
}

/// What identifies a card whichever side is up: its suit and rank.
pub open spec fn ident(c: Card) -> (Suit, u8) {
    (c.suit, c.rank)
}

/// The identities of the cards of a pile, as a multiset.
pub open spec fn pile_ids(p: Seq<Card>) -> Multiset<(Suit, u8)>
    decreases p.len(),
{
    if p.len() == 0 {
        Multiset::empty()
    } else {
        pile_ids(p.drop_last()).insert(ident(p.last()))
    }
}

/// The identities of the cards of a sequence of piles, as a multiset.
pub open spec fn all_ids(ps: Seq<Seq<Card>>) -> Multiset<(Suit, u8)>
    decreases ps.len(),
{
    if ps.len() == 0 {
        Multiset::empty()
    } else {
        all_ids(ps.drop_last()).add(pile_ids(ps.last()))
    }
}

impl GameModel {
    /// The identities of all the cards of the game, as a multiset.
    pub open spec fn ids(self) -> Multiset<(Suit, u8)> {
        pile_ids(self.stock).add(pile_ids(self.waste)).add(all_ids(self.tableau)).add(all_ids(self.foundation))
    }

    pub open spec fn total_cards(self) -> int {
        self.stock.len() + self.waste.len() + count(self.tableau) + count(self.foundation)
    }

    /// The invariant of every reachable game.
    pub open spec fn wf(self) -> bool {
        &&& self.tableau.len() == 7
        &&& self.foundation.len() == 4
        &&& (self.selection matches Selection::TableauSelected(i) ==> i < 7)
        &&& self.total_cards() == 52
        &&& forall|s: int| 0 <= s < 4 ==> foundation_ok(#[trigger] self.foundation[s], Suit::from_index_spec(s))
        &&& forall|i: int| 0 <= i < 7 ==> face_down_prefix(#[trigger] self.tableau[i])
    }

    /// Won: stock, waste and every tableau pile are empty.
    pub open spec fn is_won(self) -> bool {
        &&& self.stock.len() == 0
        &&& self.waste.len() == 0
        &&& forall|i: int| 0 <= i < self.tableau.len() ==> (#[trigger] self.tableau[i]).len() == 0
    }

    pub open spec fn with_selection(self, s: Selection) -> GameModel {
        GameModel { selection: s, ..self }
    }

    pub open spec fn draw_three_step(self) -> GameModel {
        let r = draw_three(self.stock, self.waste);
        GameModel { stock: r.0, waste: r.1, ..self }
    }

    pub open spec fn select_waste_step(self) -> GameModel {
        if self.selection == Selection::WasteSelected {
            self.with_selection(Selection::Unselected)
        } else {
            self.with_selection(Selection::WasteSelected)
        }
    }

    /// Selecting tableau pile `i`: select it, deselect it, or move the selected waste card or
    /// tableau run onto it. A tableau-to-tableau attempt always clears the selection and turns
    /// the source's top card face up, whether or not the move was legal.
    pub open spec fn select_tableau_step(self, i: int) -> GameModel {
        if !(0 <= i < self.tableau.len()) {
            self
        } else {
            match self.selection {
                Selection::Unselected => self.with_selection(Selection::TableauSelected(i as usize)),
                Selection::WasteSelected => {
                    if self.waste.len() > 0 && can_place_on_tableau(self.waste.last(), self.tableau[i]) {
                        GameModel {
                            waste: self.waste.drop_last(),
                            tableau: self.tableau.update(i, self.tableau[i].push(self.waste.last().turned(true))),
                            selection: Selection::Unselected,
                            ..self
                        }
                    } else {
                        self
                    }
                },
                Selection::TableauSelected(j) => {
                    if j == i {
                        self.with_selection(Selection::Unselected)
                    } else {
                        let src = self.tableau[j as int];
                        let run = face_up_run(src);
                        let t = if run.len() > 0 && can_place_on_tableau(run[0], self.tableau[i]) {
                            self.tableau.update(j as int, src.subrange(0, run_start(src))).update(
                                i,
                                self.tableau[i] + run,
                            )
                        } else {
                            self.tableau
                        };
                        GameModel {
                            tableau: t.update(j as int, flip_top_spec(t[j as int])),
                            selection: Selection::Unselected,
                            ..self
                        }
                    }
                },
            }
        }
    }

    /// Sending the selected card to foundation `slot`; the slot's suit must match.
    pub open spec fn send_to_foundation_step(self, slot: int) -> GameModel {
        match self.selection {
            Selection::Unselected => self,
            Selection::WasteSelected => {
                if 0 <= slot < self.foundation.len() && self.waste.len() > 0 && can_place_on_foundation(
                    self.waste.last(),
                    Suit::from_index_spec(slot),
                    self.foundation[slot],
                ) {
                    GameModel {
                        waste: self.waste.drop_last(),
                        foundation: self.foundation.update(
                            slot,
                            self.foundation[slot].push(self.waste.last().turned(true)),
                        ),
                        selection: Selection::Unselected,
                        ..self
                    }
                } else {
                    self
                }
            },
            Selection::TableauSelected(j) => {
                let src = self.tableau[j as int];
                if 0 <= slot < self.foundation.len() && src.len() > 0 && can_place_on_foundation(
                    src.last(),
                    Suit::from_index_spec(slot),
                    self.foundation[slot],
                ) {
                    GameModel {
                        tableau: self.tableau.update(j as int, flip_top_spec(src.drop_last())),
                        foundation: self.foundation.update(slot, self.foundation[slot].push(src.last().turned(true))),
                        selection: Selection::Unselected,
                        ..self
                    }
                } else {
                    self
                }
            },
        }
    }

    /// The game after one command; `Quit` changes nothing.
    pub open spec fn step(self, c: Command) -> GameModel {
        match c {
            Command::Quit => self,
            Command::SendToFoundation(slot) => self.send_to_foundation_step(slot as int),
            Command::DrawThree => self.draw_three_step(),
            Command::SelectWaste => self.select_waste_step(),
            Command::SelectTableau(i) => self.select_tableau_step(i as int),
        }
    }

    /// The game after a sequence of commands, applied first to last.
    pub open spec fn run(self, cs: Seq<Command>) -> GameModel
        decreases cs.len(),
    {
        if cs.len() == 0 {
            self
        } else {
            self.step(cs[0]).run(cs.drop_first())
        }
    }
}

} // verus!
