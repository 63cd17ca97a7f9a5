use rand::seq::SliceRandom;
use vstd::prelude::*;
use vstd::multiset::Multiset;
use crate::card::{Card, Suit, create_deck, deck_card};
use crate::pile::{draw_card_from_pile, flip_top_card_in_pile, face_down_prefix};
use crate::model::{Selection, piles, count, foundation_ok, pile_ids, all_ids, TABLEAU_PILE_COUNT, FOUNDATION_PILE_COUNT};
use crate::laws::{lemma_move_one, lemma_regroup, lemma_flip_ids, lemma_push_ids, lemma_same_multiset_ids};
use crate::game::Game;

verus! {

/// Number of cards dealt to the tableau piles before pile `i`.
pub open spec fn dealt_before(i: int) -> int
    decreases i,
{
    if i <= 0 {
        0
    } else {
        dealt_before(i - 1) + i
    }
}

/// Four empty foundation piles.
pub fn set_up_foundation() -> (f: Vec<Vec<Card>>)
    ensures
        f@.len() == 4,
        forall|s: int| 0 <= s < 4 ==> (#[trigger] f@[s])@.len() == 0,
        count(piles(f@)) == 0,
        all_ids(piles(f@)) == Multiset::<(Suit, u8)>::empty(),
{
    let mut f: Vec<Vec<Card>> = Vec::new();
    let mut s: usize = 0;
    assert(piles(f@) =~= Seq::<Seq<Card>>::empty());
    while s < FOUNDATION_PILE_COUNT
        invariant
            s <= 4,
            f@.len() == s,
            forall|k: int| 0 <= k < s ==> (#[trigger] f@[k])@.len() == 0,
            count(piles(f@)) == 0,
            all_ids(piles(f@)) == Multiset::<(Suit, u8)>::empty(),
        decreases 4 - s,
    {
        let ghost f0 = f@;
        f.push(Vec::new());
        assert(piles(f@).drop_last() =~= piles(f0));
        proof {
            broadcast use vstd::multiset::group_multiset_axioms;
            assert(all_ids(piles(f@)) =~= Multiset::<(Suit, u8)>::empty());
        }
        s = s + 1;
    }
    f
}

/// Deals the seven tableau piles from the top of `deck`: pile `i` gets `i + 1` cards, of which
/// only the last lies face up.
pub fn set_up_tableau(deck: &mut Vec<Card>) -> (t: Vec<Vec<Card>>)
    requires
        old(deck)@.len() >= 28,
    ensures
        final(deck)@ == old(deck)@.subrange(0, old(deck)@.len() - 28),
        t@.len() == 7,
        count(piles(t@)) == 28,
        pile_ids(final(deck)@).add(all_ids(piles(t@))) == pile_ids(old(deck)@),
        forall|i: int| 0 <= i < 7 ==> (#[trigger] t@[i])@.len() == i + 1,
        forall|i: int, k: int|
            0 <= i < 7 && 0 <= k <= i ==> #[trigger] t@[i]@[k] == old(deck)@[old(deck)@.len() - 1
                - dealt_before(i) - k].turned(k == i),
{
    let ghost d0 = deck@;
    let ghost n = d0.len() as int;
    let mut tableau: Vec<Vec<Card>> = Vec::new();
    let mut p: usize = 0;
    proof {
        broadcast use vstd::multiset::group_multiset_axioms;
        assert(piles(tableau@) =~= Seq::<Seq<Card>>::empty());
        assert(pile_ids(deck@).add(all_ids(piles(tableau@))) =~= pile_ids(d0));
    }
    while p < TABLEAU_PILE_COUNT
        invariant
            p <= 7,
            n >= 28,
            d0 == old(deck)@,
            n == d0.len(),
            2 * dealt_before(p as int) == p * (p + 1),
            0 <= dealt_before(p as int),
            deck@ == d0.subrange(0, n - dealt_before(p as int)),
            tableau@.len() == p,
            count(piles(tableau@)) == dealt_before(p as int),
            pile_ids(deck@).add(all_ids(piles(tableau@))) == pile_ids(d0),
            forall|a: int| 0 <= a < p ==> (#[trigger] tableau@[a])@.len() == a + 1,
            forall|a: int, k: int|
                0 <= a < p && 0 <= k <= a ==> #[trigger] tableau@[a]@[k] == d0[n - 1 - dealt_before(a) - k].turned(k == a),
        decreases 7 - p,
    {
        let ghost d = dealt_before(p as int);
        assert(0 <= d && d + p + 1 <= 28) by (nonlinear_arith)
            requires
                2 * d == p * (p + 1),
                p <= 6,
        ;
        let mut pile: Vec<Card> = Vec::new();
        let mut k: usize = 0;
        proof {
            broadcast use vstd::multiset::group_multiset_axioms;
            assert(pile_ids(deck@).add(pile_ids(pile@)) =~= pile_ids(deck@));
        }
        while k < p + 1
            invariant
                p < 7,
                k <= p + 1,
                d + p + 1 <= 28,
                0 <= d,
                n >= 28,
                n == d0.len(),
                pile@.len() == k,
                deck@ == d0.subrange(0, n - d - k),
                pile_ids(deck@).add(pile_ids(pile@)).add(all_ids(piles(tableau@))) == pile_ids(d0),
                forall|m: int| 0 <= m < k ==> #[trigger] pile@[m] == d0[n - 1 - d - m].turned(false),
            decreases p + 1 - k,
        {
            let ghost deck0 = deck@;
            let ghost pile0 = pile@;
            let c = draw_card_from_pile(deck);
            match c {
                Some(c) => {
                    pile.push(Card { suit: c.suit, rank: c.rank, face_up: false });
                    proof {
                        lemma_push_ids(pile0, c.turned(false));
                        assert(pile_ids(deck0) == pile_ids(deck@).insert(crate::model::ident(c)));
                        lemma_move_one(pile_ids(deck0), pile_ids(deck@), pile_ids(pile0), pile_ids(pile@), all_ids(piles(tableau@)), crate::model::ident(c));
                    }
                },
                None => {},
            }
            k = k + 1;
            assert(deck@ =~= d0.subrange(0, n - d - k));
        }
        let ghost unflipped = pile@;
        flip_top_card_in_pile(&mut pile);
        let ghost t0 = tableau@;
        tableau.push(pile);
        proof {
            assert(piles(tableau@).drop_last() =~= piles(t0));
            lemma_flip_ids(unflipped);
            assert(all_ids(piles(tableau@)) == all_ids(piles(t0)).add(pile_ids(tableau@[p as int]@)));
            lemma_regroup(pile_ids(deck@), pile_ids(unflipped), all_ids(piles(t0)));
            assert(dealt_before(p + 1) == d + p + 1);
            let e = dealt_before(p + 1);
            assert(2 * e == (p + 1) * (p + 2)) by (nonlinear_arith)
                requires
                    e == d + p + 1,
                    2 * d == p * (p + 1),
            ;
            assert forall|a: int, k: int|
                0 <= a < p + 1 && 0 <= k <= a implies #[trigger] tableau@[a]@[k] == d0[n - 1 - dealt_before(a) - k].turned(k == a) by {
                if a < p {
                    assert(tableau@[a] == t0[a]);
                }
            }
        }
        p = p + 1;
    }
    tableau
}

/// Relies on rand's `SliceRandom::shuffle` with `thread_rng`: it reorders the cards by swaps,
/// so the result is a permutation of the input.
#[verifier::external_body]
fn shuffle_deck(deck: &mut Vec<Card>)
    ensures
        final(deck)@.len() == old(deck)@.len(),
        final(deck)@.to_multiset() == old(deck)@.to_multiset(),
{
    deck.shuffle(&mut rand::thread_rng());
}

impl Game {
    /// A fresh game dealt from `deck`, whose last card is its top: the tableau takes the top 28
    /// cards, the other 24 form the stock in their order.
    pub fn deal(deck: Vec<Card>) -> (g: Game)
        requires
            deck@.len() == 52,
        ensures
            g@.wf(),
            g@.ids() == pile_ids(deck@),
            g@.stock == deck@.subrange(0, 24),
            g@.waste.len() == 0,
            g@.selection == Selection::Unselected,
            forall|s: int| 0 <= s < 4 ==> (#[trigger] g@.foundation[s]).len() == 0,
            forall|i: int| 0 <= i < 7 ==> (#[trigger] g@.tableau[i]).len() == i + 1,
            forall|i: int, k: int|
                0 <= i < 7 && 0 <= k <= i ==> #[trigger] g@.tableau[i][k] == deck@[51 - dealt_before(i) - k].turned(k == i),
    {
        let mut stock = deck;
        let tableau = set_up_tableau(&mut stock);
        let foundation = set_up_foundation();
        let g = Game { stock, waste: Vec::new(), tableau, foundation, selection: Selection::Unselected };
        proof {
            broadcast use vstd::multiset::group_multiset_axioms;
            assert(g@.ids() =~= pile_ids(deck@));
            assert forall|s: int| 0 <= s < 4 implies foundation_ok(#[trigger] g@.foundation[s], crate::card::Suit::from_index_spec(s)) by {
                assert(g@.foundation[s] == g.foundation@[s]@);
            }
            assert forall|i: int| 0 <= i < 7 implies face_down_prefix(#[trigger] g@.tableau[i]) by {
                assert(g@.tableau[i] == g.tableau@[i]@);
            }
            assert forall|i: int| 0 <= i < 7 implies (#[trigger] g@.tableau[i]).len() == i + 1 by {
                assert(g@.tableau[i] == g.tableau@[i]@);
            }
            assert forall|i: int, k: int| 0 <= i < 7 && 0 <= k <= i implies #[trigger] g@.tableau[i][k]
                == deck@[51 - dealt_before(i) - k].turned(k == i) by {
                assert(g@.tableau[i] == g.tableau@[i]@);
            }
        }
        g
    }

    /// A fresh game dealt from a shuffled standard deck.
    pub fn start_solitaire() -> (g: Game)
        ensures
            g@.wf(),
            g@.ids() == pile_ids(Seq::new(52, |i: int| deck_card(i))),
            g@.stock.len() == 24,
            g@.waste.len() == 0,
            g@.selection == Selection::Unselected,
            forall|s: int| 0 <= s < 4 ==> (#[trigger] g@.foundation[s]).len() == 0,
            forall|i: int| 0 <= i < 7 ==> (#[trigger] g@.tableau[i]).len() == i + 1,
            forall|i: int, k: int| 0 <= i < 7 && 0 <= k <= i ==> (#[trigger] g@.tableau[i][k]).face_up == (k == i),
    {
        let mut deck = create_deck();
        let ghost d0 = deck@;
        shuffle_deck(&mut deck);
        proof {
            lemma_same_multiset_ids(deck@, d0);
            assert(d0 =~= Seq::new(52, |i: int| deck_card(i)));
        }
        Game::deal(deck)
    }
}

} // verus!
