//! A single catalog entry.

use crate::rating::Rating;
use vstd::prelude::*;

verus! {

/// One game record. A record is created only through the store's add
/// operation and changed only through its edit operation, so every
/// record in a store went through validation.
#[derive(Debug)]
pub struct Game {
    /// Display name; the store keeps names case-insensitively unique.
    pub name: String,
    /// The 1..=5 quality value.
    pub rating: Rating,
    /// How often the game was played; never goes below zero.
    pub times_played: u64,
    /// The date text of the most recent playthrough.
    pub last_playthrough: String,
    /// Free-form text; may be empty.
    pub notes: String,
}

/// The mathematical value of a record: its text fields as character
/// sequences.
#[verifier::ext_equal]
pub struct GameModel {
    pub name: Seq<char>,
    pub rating: Rating,
    pub times_played: u64,
    pub last_playthrough: Seq<char>,
    pub notes: Seq<char>,
}

impl View for Game {
    type V = GameModel;

    open spec fn view(&self) -> GameModel {
        GameModel {
            name: self.name@,
            rating: self.rating,
            times_played: self.times_played,
            last_playthrough: self.last_playthrough@,
            notes: self.notes@,
        }
    }
}

impl DeepView for Game {
    type V = GameModel;

    open spec fn deep_view(&self) -> GameModel {
        self.view()
    }
}

impl Clone for Game {
    fn clone(&self) -> (r: Game)
        ensures
            r@ == self@,
    {
        Game {
            name: self.name.clone(),
            rating: self.rating,
            times_played: self.times_played,
            last_playthrough: self.last_playthrough.clone(),
            notes: self.notes.clone(),
        }
    }
}

} // verus!
