//! Klondike solitaire game-state engine: cards, piles, placement rules and the
//! select-then-target command controller.
mod card;
mod pile;
mod rules;
mod model;
mod laws;
mod game;
mod deal;
mod command;

pub use card::{Card, Suit, is_different_color_suit, create_deck};
pub use pile::{
    get_top_of_pile_card, draw_card_from_pile, flip_top_card_in_pile, place_pile_on_pile,
    get_flipped_pile, draw_flipped_pile, face_up_run_start,
};
pub use rules::{pile_can_be_placed, can_be_placed_on_foundation};
pub use model::{Selection, Command, GameModel};
pub use game::{Game, try_to_place_in_foundation_slot};
pub use deal::{set_up_foundation, set_up_tableau};
pub use laws::{law_card_count_preserved, law_foundations_ordered, law_tableau_face_down_prefix, law_select_tableau_twice,
    law_won_means_all_on_foundations, law_cards_preserved};
pub use command::parse_command;
