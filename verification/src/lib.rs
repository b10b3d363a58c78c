//! A verified core for a playing-card game service: cards and their
//! two-character codes, selection descriptors, duplicate-free ordered
//! collections, and games that move cards between a deck and named piles.

pub mod all_cards;
pub mod card;
pub mod cardcollection;
pub mod cardselection;
pub mod cardsuit;
pub mod cardvalue;
pub mod deck;
pub mod errors;
pub mod game;
mod ids;
pub mod pile;
pub mod seq_facts;
mod shuffle;
pub mod stringcode;

pub use card::Card;
pub use cardcollection::CardCollection;
pub use cardselection::CardSelection;
pub use cardsuit::CardSuit;
pub use cardvalue::CardValue;
pub use deck::Deck;
pub use errors::CardAPIError;
pub use game::{CollectionType, Game};
pub use pile::Pile;
pub use stringcode::{HasStringCode, StringCodes};
