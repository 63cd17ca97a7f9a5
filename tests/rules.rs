use solitaire::{
    can_be_placed_on_foundation, create_deck, draw_card_from_pile, draw_flipped_pile, flip_top_card_in_pile,
    get_flipped_pile, get_top_of_pile_card, is_different_color_suit, parse_command, pile_can_be_placed,
    place_pile_on_pile, set_up_foundation, set_up_tableau, try_to_place_in_foundation_slot, Card, Command, Suit,
};

fn card(suit: Suit, rank: u8, face_up: bool) -> Card {
    Card { suit, rank, face_up }
}

#[test]
fn deck_is_canonical() {
    let deck = create_deck();
    assert_eq!(deck.len(), 52);
    assert_eq!(deck[0], card(Suit::Hearts, 1, false));
    assert_eq!(deck[12], card(Suit::Hearts, 13, false));
    assert_eq!(deck[13], card(Suit::Clubs, 1, false));
    assert_eq!(deck[38], card(Suit::Diamonds, 13, false));
    assert_eq!(deck[51], card(Suit::Spades, 13, false));
}

#[test]
fn colors() {
    assert!(!is_different_color_suit(Suit::Hearts, Suit::Diamonds));
    assert!(!is_different_color_suit(Suit::Clubs, Suit::Spades));
    assert!(is_different_color_suit(Suit::Hearts, Suit::Spades));
    assert!(is_different_color_suit(Suit::Clubs, Suit::Diamonds));
}

#[test]
fn top_and_pop_on_empty_pile() {
    let mut p: Vec<Card> = Vec::new();
    assert_eq!(get_top_of_pile_card(&p), None);
    assert_eq!(draw_card_from_pile(&mut p), None);
    flip_top_card_in_pile(&mut p);
    assert!(p.is_empty());
}

#[test]
fn top_pop_and_flip() {
    let mut p = vec![card(Suit::Hearts, 3, false), card(Suit::Clubs, 9, false)];
    assert_eq!(get_top_of_pile_card(&p), Some(card(Suit::Clubs, 9, false)));
    flip_top_card_in_pile(&mut p);
    assert_eq!(p[1], card(Suit::Clubs, 9, true));
    assert_eq!(p[0], card(Suit::Hearts, 3, false));
    assert_eq!(draw_card_from_pile(&mut p), Some(card(Suit::Clubs, 9, true)));
    assert_eq!(p.len(), 1);
}

#[test]
fn face_up_run_is_the_top_suffix() {
    let mut p = vec![
        card(Suit::Hearts, 13, false),
        card(Suit::Clubs, 8, true),
        card(Suit::Hearts, 7, true),
    ];
    assert_eq!(get_flipped_pile(&p), vec![card(Suit::Clubs, 8, true), card(Suit::Hearts, 7, true)]);
    let run = draw_flipped_pile(&mut p);
    assert_eq!(run, vec![card(Suit::Clubs, 8, true), card(Suit::Hearts, 7, true)]);
    assert_eq!(p, vec![card(Suit::Hearts, 13, false)]);
    assert!(get_flipped_pile(&p).is_empty());
    assert!(draw_flipped_pile(&mut p).is_empty());
    assert_eq!(p.len(), 1);
}

#[test]
fn place_pile_keeps_order() {
    let mut target = vec![card(Suit::Spades, 9, true)];
    place_pile_on_pile(vec![card(Suit::Hearts, 8, true), card(Suit::Clubs, 7, true)], &mut target);
    assert_eq!(target, vec![card(Suit::Spades, 9, true), card(Suit::Hearts, 8, true), card(Suit::Clubs, 7, true)]);
}

#[test]
fn tableau_placement_rule() {
    let empty: Vec<Card> = Vec::new();
    let king = vec![card(Suit::Hearts, 13, true)];
    let queen = vec![card(Suit::Hearts, 12, true)];
    assert!(pile_can_be_placed(&king, &empty));
    assert!(!pile_can_be_placed(&queen, &empty));
    assert!(!pile_can_be_placed(&empty, &king));
    let black_king = vec![card(Suit::Spades, 13, true)];
    assert!(pile_can_be_placed(&queen, &black_king));
    assert!(!pile_can_be_placed(&queen, &king));
    let black_jack = vec![card(Suit::Clubs, 11, true)];
    assert!(!pile_can_be_placed(&black_jack, &king));
    assert!(!pile_can_be_placed(&vec![card(Suit::Clubs, 12, true)], &vec![card(Suit::Diamonds, 12, true)]));
}

#[test]
fn foundation_placement_rule() {
    let empty: Vec<Card> = Vec::new();
    assert!(can_be_placed_on_foundation(card(Suit::Hearts, 1, true), Suit::Hearts, &empty));
    assert!(!can_be_placed_on_foundation(card(Suit::Hearts, 2, true), Suit::Hearts, &empty));
    assert!(!can_be_placed_on_foundation(card(Suit::Clubs, 1, true), Suit::Hearts, &empty));
    let ace = vec![card(Suit::Hearts, 1, true)];
    assert!(can_be_placed_on_foundation(card(Suit::Hearts, 2, true), Suit::Hearts, &ace));
    assert!(!can_be_placed_on_foundation(card(Suit::Hearts, 3, true), Suit::Hearts, &ace));
}

#[test]
fn foundation_slot_move() {
    let mut f = set_up_foundation();
    assert_eq!(f.len(), 4);
    let mut src = vec![card(Suit::Clubs, 5, true), card(Suit::Diamonds, 1, false)];
    assert!(!try_to_place_in_foundation_slot(0, &mut f, &mut src));
    assert!(!try_to_place_in_foundation_slot(4, &mut f, &mut src));
    assert_eq!(src.len(), 2);
    assert!(try_to_place_in_foundation_slot(2, &mut f, &mut src));
    assert_eq!(f[2], vec![card(Suit::Diamonds, 1, true)]);
    assert_eq!(src, vec![card(Suit::Clubs, 5, true)]);
    let mut empty: Vec<Card> = Vec::new();
    assert!(!try_to_place_in_foundation_slot(2, &mut f, &mut empty));
}

#[test]
fn tableau_setup_takes_28_cards() {
    let mut deck = create_deck();
    let t = set_up_tableau(&mut deck);
    assert_eq!(deck.len(), 24);
    assert_eq!(t.len(), 7);
    assert_eq!(t[2], vec![card(Suit::Spades, 10, false), card(Suit::Spades, 9, false), card(Suit::Spades, 8, true)]);
}

#[test]
fn commands_parse() {
    assert_eq!(parse_command(b"q"), Some(Command::Quit));
    assert_eq!(parse_command(b"  Q \n"), Some(Command::Quit));
    assert_eq!(parse_command(b"h"), Some(Command::SendToFoundation(0)));
    assert_eq!(parse_command(b"C"), Some(Command::SendToFoundation(1)));
    assert_eq!(parse_command(b"d\r\n"), Some(Command::SendToFoundation(2)));
    assert_eq!(parse_command(b"s"), Some(Command::SendToFoundation(3)));
    assert_eq!(parse_command(b"DRAW\n"), Some(Command::DrawThree));
    assert_eq!(parse_command(b"waste"), Some(Command::SelectWaste));
    assert_eq!(parse_command(b"1"), Some(Command::SelectTableau(0)));
    assert_eq!(parse_command(b" 7 "), Some(Command::SelectTableau(6)));
    assert_eq!(parse_command(b"0"), None);
    assert_eq!(parse_command(b"8"), None);
    assert_eq!(parse_command(b"12"), None);
    assert_eq!(parse_command(b""), None);
    assert_eq!(parse_command(b"   "), None);
    assert_eq!(parse_command(b"drawx"), None);
}
