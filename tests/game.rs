use solitaire::{create_deck, Card, Command, Game, Selection, Suit};

fn up(c: Card) -> Card {
    Card { face_up: true, ..c }
}

fn down(c: Card) -> Card {
    Card { face_up: false, ..c }
}

fn total(g: &Game) -> usize {
    g.stock.len()
        + g.waste.len()
        + g.tableau.iter().map(|p| p.len()).sum::<usize>()
        + g.foundation.iter().map(|p| p.len()).sum::<usize>()
}

fn canonical(suit: usize, rank: usize) -> usize {
    suit * 13 + rank - 1
}

#[test]
fn fresh_deal_layout() {
    let deck = create_deck();
    let g = Game::deal(deck.clone());
    assert_eq!(g.tableau.len(), 7);
    for (i, pile) in g.tableau.iter().enumerate() {
        assert_eq!(pile.len(), i + 1);
        for (k, c) in pile.iter().enumerate() {
            assert_eq!(c.face_up, k == i);
        }
    }
    assert_eq!(g.stock.len(), 24);
    assert_eq!(g.stock[..], deck[..24]);
    assert!(g.waste.is_empty());
    assert_eq!(g.foundation.len(), 4);
    assert!(g.foundation.iter().all(|p| p.is_empty()));
    assert_eq!(g.selection, Selection::Unselected);
    assert_eq!(total(&g), 52);
    // pile 0 takes the deck's top card, pile 1 the next two
    assert_eq!(g.tableau[0][0], up(deck[51]));
    assert_eq!(g.tableau[1][0], deck[50]);
    assert_eq!(g.tableau[1][1], up(deck[49]));
    assert_eq!(g.tableau[6][6], up(deck[24]));
}

#[test]
fn shuffled_start_has_fresh_layout() {
    let g = Game::start_solitaire();
    for (i, pile) in g.tableau.iter().enumerate() {
        assert_eq!(pile.len(), i + 1);
        for (k, c) in pile.iter().enumerate() {
            assert_eq!(c.face_up, k == i);
        }
    }
    assert_eq!(g.stock.len(), 24);
    assert!(g.waste.is_empty());
    assert_eq!(total(&g), 52);
    let mut seen = Vec::new();
    for c in g.stock.iter().chain(g.tableau.iter().flatten()) {
        let key = (c.suit.index(), c.rank);
        assert!(!seen.contains(&key));
        seen.push(key);
    }
    assert_eq!(seen.len(), 52);
}

#[test]
fn shuffled_start_differs_from_canonical_deal() {
    let canonical_game = Game::deal(create_deck());
    let a = Game::start_solitaire();
    let b = Game::start_solitaire();
    let same = |x: &Game, y: &Game| x.stock == y.stock && x.tableau == y.tableau;
    assert!(!(same(&a, &canonical_game) && same(&b, &canonical_game)));
}

#[test]
fn draw_three_from_full_stock() {
    let deck = create_deck();
    let mut g = Game::deal(deck.clone());
    g.draw_three_from_stock();
    assert_eq!(g.stock.len(), 21);
    assert_eq!(g.waste.len(), 3);
    assert_eq!(g.waste, vec![up(deck[23]), up(deck[22]), up(deck[21])]);
    assert_eq!(*g.waste.last().unwrap(), up(deck[21]));
    assert_eq!(g.stock[..], deck[..21]);
    assert_eq!(total(&g), 52);
}

#[test]
fn draw_three_recycles_single_waste_card() {
    let deck = create_deck();
    let mut g = Game::deal(deck.clone());
    // move 23 stock cards face down under tableau pile 0, leaving one card on the waste
    let mut under: Vec<Card> = g.stock[1..].iter().map(|c| down(*c)).collect();
    under.extend(g.tableau[0].iter().copied());
    g.tableau[0] = under;
    g.waste = vec![up(g.stock[0])];
    g.stock.clear();
    assert_eq!(total(&g), 52);
    g.draw_three_from_stock();
    assert!(g.stock.is_empty());
    assert_eq!(g.waste, vec![up(deck[0])]);
}

#[test]
fn draw_three_recycles_waste_in_order() {
    let deck = create_deck();
    let mut g = Game::deal(deck.clone());
    for _ in 0..8 {
        g.draw_three_from_stock();
    }
    assert!(g.stock.is_empty());
    assert_eq!(g.waste.len(), 24);
    assert_eq!(*g.waste.last().unwrap(), up(deck[0]));
    g.draw_three_from_stock();
    // the waste went back in its order: its top card (deck[0]) comes out first
    assert_eq!(g.waste, vec![up(deck[0]), up(deck[1]), up(deck[2])]);
    assert_eq!(g.stock.len(), 21);
    assert!(g.stock.iter().all(|c| !c.face_up));
    assert_eq!(g.stock[20], down(deck[3]));
    assert_eq!(total(&g), 52);
}

#[test]
fn draw_three_with_nothing_left_does_nothing() {
    let mut g = Game::deal(create_deck());
    let mut under: Vec<Card> = g.stock.iter().map(|c| down(*c)).collect();
    under.extend(g.tableau[0].iter().copied());
    g.tableau[0] = under;
    g.stock.clear();
    g.draw_three_from_stock();
    assert!(g.stock.is_empty());
    assert!(g.waste.is_empty());
}

#[test]
fn king_moves_to_empty_tableau_pile() {
    let mut deck = create_deck();
    deck.swap(51, canonical(0, 1)); // Ace of Hearts alone on pile 0
    deck.swap(49, canonical(1, 13)); // King of Clubs on top of pile 1
    let mut g = Game::deal(deck.clone());
    assert_eq!(g.tableau[1][1].rank, 13);
    g.on_tableau_selection(0);
    g.try_to_place_in_foundation_slot_from_selection(0);
    assert!(g.tableau[0].is_empty());
    assert_eq!(g.selection, Selection::Unselected);
    g.on_tableau_selection(1);
    assert_eq!(g.selection, Selection::TableauSelected(1));
    g.on_tableau_selection(0);
    assert_eq!(g.tableau[0], vec![up(deck[49])]);
    assert_eq!(g.tableau[1], vec![up(deck[50])]);
    assert_eq!(g.selection, Selection::Unselected);
    assert_eq!(total(&g), 52);
}

#[test]
fn waste_ace_goes_to_its_foundation() {
    let mut deck = create_deck();
    deck.swap(21, canonical(0, 1)); // third card drawn is the Ace of Hearts
    let mut g = Game::deal(deck);
    g.draw_three_from_stock();
    assert_eq!(g.waste.last().unwrap().suit, Suit::Hearts);
    assert_eq!(g.waste.last().unwrap().rank, 1);
    g.on_waste_selection();
    assert_eq!(g.selection, Selection::WasteSelected);
    g.try_to_place_in_foundation_slot_from_selection(0);
    assert_eq!(g.waste.len(), 2);
    assert_eq!(g.foundation[0], vec![Card { suit: Suit::Hearts, rank: 1, face_up: true }]);
    assert_eq!(g.selection, Selection::Unselected);
    assert_eq!(total(&g), 52);
}

#[test]
fn ace_to_other_suit_slot_is_rejected() {
    let mut deck = create_deck();
    deck.swap(21, canonical(1, 1)); // Ace of Clubs
    let mut g = Game::deal(deck);
    g.draw_three_from_stock();
    g.on_waste_selection();
    g.try_to_place_in_foundation_slot_from_selection(0);
    assert!(g.foundation[0].is_empty());
    assert_eq!(g.waste.len(), 3);
    assert_eq!(g.selection, Selection::WasteSelected);
    g.try_to_place_in_foundation_slot_from_selection(1);
    assert_eq!(g.foundation[1].len(), 1);
    assert_eq!(g.selection, Selection::Unselected);
}

#[test]
fn red_five_on_red_six_is_rejected() {
    let mut deck = create_deck();
    deck.swap(51, canonical(0, 5)); // 5 of Hearts on pile 0
    deck.swap(49, canonical(2, 6)); // 6 of Diamonds on top of pile 1
    let mut g = Game::deal(deck);
    let before = g.tableau.clone();
    g.on_tableau_selection(0);
    g.on_tableau_selection(1);
    assert_eq!(g.tableau, before);
    assert_eq!(g.selection, Selection::Unselected);
}

#[test]
fn black_five_on_red_six_moves() {
    let mut deck = create_deck();
    deck.swap(51, canonical(3, 5)); // 5 of Spades on pile 0
    deck.swap(49, canonical(2, 6)); // 6 of Diamonds on top of pile 1
    let mut g = Game::deal(deck);
    g.on_tableau_selection(0);
    g.on_tableau_selection(1);
    assert!(g.tableau[0].is_empty());
    assert_eq!(g.tableau[1].len(), 3);
    assert_eq!(g.tableau[1][2], Card { suit: Suit::Spades, rank: 5, face_up: true });
    assert_eq!(g.selection, Selection::Unselected);
}

#[test]
fn waste_card_rejected_keeps_waste_selected() {
    let mut deck = create_deck();
    deck.swap(21, canonical(0, 5)); // 5 of Hearts ends on the waste
    deck.swap(51, canonical(2, 6)); // 6 of Diamonds on pile 0
    let mut g = Game::deal(deck);
    g.draw_three_from_stock();
    g.on_waste_selection();
    let before = g.tableau.clone();
    g.on_tableau_selection(0);
    assert_eq!(g.tableau, before);
    assert_eq!(g.waste.len(), 3);
    assert_eq!(g.selection, Selection::WasteSelected);
}

#[test]
fn waste_card_accepted_moves_face_up() {
    let mut deck = create_deck();
    deck.swap(21, canonical(1, 5)); // 5 of Clubs ends on the waste
    deck.swap(51, canonical(2, 6)); // 6 of Diamonds on pile 0
    let mut g = Game::deal(deck);
    g.draw_three_from_stock();
    g.on_waste_selection();
    g.on_tableau_selection(0);
    assert_eq!(g.tableau[0].len(), 2);
    assert_eq!(g.tableau[0][1], Card { suit: Suit::Clubs, rank: 5, face_up: true });
    assert_eq!(g.waste.len(), 2);
    assert_eq!(g.selection, Selection::Unselected);
}

#[test]
fn selecting_same_pile_twice_deselects() {
    let mut g = Game::deal(create_deck());
    let before = g.tableau.clone();
    g.on_tableau_selection(3);
    assert_eq!(g.selection, Selection::TableauSelected(3));
    g.on_tableau_selection(3);
    assert_eq!(g.selection, Selection::Unselected);
    assert_eq!(g.tableau, before);
}

#[test]
fn out_of_range_pile_is_ignored() {
    let mut g = Game::deal(create_deck());
    g.on_tableau_selection(7);
    assert_eq!(g.selection, Selection::Unselected);
}

#[test]
fn waste_selection_toggles() {
    let mut g = Game::deal(create_deck());
    g.on_waste_selection();
    assert_eq!(g.selection, Selection::WasteSelected);
    g.on_waste_selection();
    assert_eq!(g.selection, Selection::Unselected);
}

#[test]
fn foundation_without_selection_does_nothing() {
    let mut g = Game::deal(create_deck());
    g.try_to_place_in_foundation_slot_from_selection(0);
    assert!(g.foundation.iter().all(|p| p.is_empty()));
    assert_eq!(g.selection, Selection::Unselected);
}

#[test]
fn apply_dispatches_commands() {
    let mut g = Game::deal(create_deck());
    g.apply(Command::DrawThree);
    assert_eq!(g.waste.len(), 3);
    g.apply(Command::SelectWaste);
    assert_eq!(g.selection, Selection::WasteSelected);
    g.apply(Command::SelectWaste);
    g.apply(Command::SelectTableau(2));
    assert_eq!(g.selection, Selection::TableauSelected(2));
    g.apply(Command::Quit);
    assert_eq!(g.selection, Selection::TableauSelected(2));
}

#[test]
fn win_detection() {
    let g = Game::deal(create_deck());
    assert!(!g.is_won());
    let deck = create_deck();
    let won = Game {
        stock: Vec::new(),
        waste: Vec::new(),
        tableau: vec![Vec::new(); 7],
        foundation: (0..4).map(|s| deck[s * 13..s * 13 + 13].iter().map(|c| up(*c)).collect()).collect(),
        selection: Selection::Unselected,
    };
    assert!(won.is_won());
}

#[test]
fn card_count_stays_52_over_a_session() {
    let mut g = Game::start_solitaire();
    let commands = [
        Command::DrawThree,
        Command::SelectWaste,
        Command::SelectTableau(0),
        Command::SelectTableau(4),
        Command::SelectTableau(1),
        Command::SendToFoundation(2),
        Command::SelectTableau(6),
        Command::SelectTableau(5),
    ];
    for round in 0..40 {
        for (k, c) in commands.iter().enumerate() {
            let c = match *c {
                Command::SelectTableau(i) => Command::SelectTableau((i + round + k) % 7),
                Command::SendToFoundation(s) => Command::SendToFoundation((s + round) % 4),
                other => other,
            };
            g.apply(c);
            assert_eq!(total(&g), 52);
            for (s, f) in g.foundation.iter().enumerate() {
                for (j, card) in f.iter().enumerate() {
                    assert_eq!(card.suit.index(), s);
                    assert_eq!(card.rank as usize, j + 1);
                }
            }
            for pile in &g.tableau {
                let first_up = pile.iter().position(|c| c.face_up).unwrap_or(pile.len());
                assert!(pile[first_up..].iter().all(|c| c.face_up));
            }
        }
    }
}
