use vstd::prelude::*;

verus! {

/// The four suits, in the order of the foundation slots.
#[derive(PartialEq, Eq, Structural, Clone, Copy, Debug)]
pub enum Suit {
    Hearts,
    Clubs,
    Diamonds,
    Spades,
}

/// Number of cards in a standard deck.
pub const DECK_SIZE: usize = 52;

/// Number of ranks per suit (Ace = 1 up to King = 13).
pub const RANK_COUNT: usize = 13;

impl Suit {
    /// Position of the suit: Hearts 0, Clubs 1, Diamonds 2, Spades 3.
    pub open spec fn index_spec(self) -> nat {
        match self {
            Suit::Hearts => 0,
            Suit::Clubs => 1,
            Suit::Diamonds => 2,
            Suit::Spades => 3,
        }
    }

    /// The suit at a position; positions past 3 give Spades.
    pub open spec fn from_index_spec(i: int) -> Suit {
        if i == 0 {
            Suit::Hearts
        } else if i == 1 {
            Suit::Clubs
        } else if i == 2 {
            Suit::Diamonds
        } else {
            Suit::Spades
        }
    }

    /// Hearts and Diamonds are red, Clubs and Spades black.
    pub open spec fn is_red_spec(self) -> bool {
        self == Suit::Hearts || self == Suit::Diamonds
    }

    pub fn index(self) -> (r: usize)
        ensures
            r == self.index_spec(),
    {
        match self {
            Suit::Hearts => 0,
            Suit::Clubs => 1,
            Suit::Diamonds => 2,
            Suit::Spades => 3,
        }
    }

    pub fn from_index(i: usize) -> (r: Option<Suit>)
        ensures
            i < 4 ==> r == Some(Suit::from_index_spec(i as int)),
            i >= 4 ==> r is None,
    {
        if i == 0 {
            Some(Suit::Hearts)
        } else if i == 1 {
            Some(Suit::Clubs)
        } else if i == 2 {
            Some(Suit::Diamonds)
        } else if i == 3 {
            Some(Suit::Spades)
        } else {
            None
        }
    }

    pub fn is_red(self) -> (r: bool)
        ensures
            r == self.is_red_spec(),
    {
        match self {
            Suit::Hearts | Suit::Diamonds => true,
            _ => false,
        }
    }
}

/// A playing card: a suit, a rank from 1 (Ace) to 13 (King), and whether it lies face up.
#[derive(PartialEq, Eq, Structural, Clone, Copy, Debug)]
pub struct Card {
    pub suit: Suit,
    pub rank: u8,
    pub face_up: bool,
}

impl Card {
    /// The same card turned to the given side.
    pub open spec fn turned(self, up: bool) -> Card {
        Card { suit: self.suit, rank: self.rank, face_up: up }
    }

    pub fn new(suit: Suit, rank: u8) -> (r: Card)
        ensures
            r == (Card { suit, rank, face_up: false }),
    {
        Card { suit, rank, face_up: false }
    }
}

/// True iff the two suits have different colors.
pub fn is_different_color_suit(suit_a: Suit, suit_b: Suit) -> (r: bool)
    ensures
        r == (suit_a.is_red_spec() != suit_b.is_red_spec()),
{
    suit_a.is_red() != suit_b.is_red()
}

/// The card at position `i` of the canonical deck: suit-major, ranks ascending, face down.
pub open spec fn deck_card(i: int) -> Card {
    Card { suit: Suit::from_index_spec(i / 13), rank: (i % 13 + 1) as u8, face_up: false }
}

/// Builds the 52-card deck in canonical order.
pub fn create_deck() -> (deck: Vec<Card>)
    ensures
        deck@.len() == 52,
        forall|i: int| 0 <= i < 52 ==> #[trigger] deck@[i] == deck_card(i),
{
    let mut deck: Vec<Card> = Vec::new();
    let mut i: usize = 0;
    while i < DECK_SIZE
        invariant
            i <= 52,
            deck@.len() == i,
            forall|j: int| 0 <= j < i ==> #[trigger] deck@[j] == deck_card(j),
        decreases 52 - i,
    {
        let suit = match Suit::from_index(i / RANK_COUNT) {
            Some(s) => s,
            None => Suit::Spades,
        };
        let rank = (i % RANK_COUNT + 1) as u8;
        deck.push(Card::new(suit, rank));
        i = i + 1;
    }
    deck
}

} // verus!
