//! The record store: an ordered collection of game records, its
//! search and mutation operations, and the laws they obey.

use crate::clock::get_date;
use crate::codec::{parse_game_log, parse_store_text, render_game_log, render_games};
use crate::game::{Game, GameModel};
use crate::rating::{rating_of_input, rating_from_input};
use crate::text::{lower_of, lowercase};
use vstd::prelude::*;

verus! {

/// Why a store operation refused to do its work.
#[derive(Clone, Copy, Debug, PartialEq, Eq, Structural)]
pub enum StoreError {
    /// A required input text was empty.
    MissingField,
    /// The name is already taken, compared case-insensitively.
    DuplicateName,
    /// The rating input does not denote an integer in 1..=5.
    InvalidRating,
    /// The index does not point at a record.
    IndexOutOfRange,
    /// An edit was requested that changes nothing.
    NoChangeRequested,
    /// No record matches the search query.
    NotFound,
}

/// Everything an add operation needs from the input fields.
pub struct AddCommand {
    /// The name to record; must not be empty.
    pub name: String,
    /// The rating as the user typed it; must not be empty.
    pub rating_input: String,
    /// Free-form notes; may be empty.
    pub notes: String,
}

/// Everything an edit operation needs from the input fields. An empty
/// override text leaves the field as it was.
pub struct EditCommand {
    /// Which record to change.
    pub index: usize,
    /// Replacement name, or empty to keep the current one.
    pub name: String,
    /// Replacement rating text, or empty to keep the current rating.
    pub rating_input: String,
    /// Replacement notes, or empty to keep the current notes.
    pub notes: String,
    /// Change to the play count; negative values saturate at zero.
    pub play_count_delta: i64,
}

/// The index of the first record whose folded name equals `key`.
pub open spec fn first_match(gs: Seq<GameModel>, key: Seq<char>) -> Option<int>
    decreases gs.len(),
{
    if gs.len() == 0 {
        None
    } else if lower_of(gs[0].name) == key {
        Some(0)
    } else {
        match first_match(gs.drop_first(), key) {
            Some(i) => Some(i + 1),
            None => None,
        }
    }
}

/// What `first_match` returning an index, or nothing, says about the
/// records themselves.
pub proof fn lemma_first_match_spec(gs: Seq<GameModel>, key: Seq<char>)
    ensures
        match first_match(gs, key) {
            Some(i) => 0 <= i < gs.len() && lower_of(gs[i].name) == key && forall|j: int|
                0 <= j < i ==> lower_of(#[trigger] gs[j].name) != key,
            None => forall|j: int| 0 <= j < gs.len() ==> lower_of(#[trigger] gs[j].name) != key,
        },
    decreases gs.len(),
{
    if gs.len() > 0 && lower_of(gs[0].name) != key {
        lemma_first_match_spec(gs.drop_first(), key);
        assert(forall|j: int|
            1 <= j < gs.len() ==> #[trigger] gs[j] == gs.drop_first()[j - 1]);
    }
}

/// Converse direction: a match at `i` with no earlier match pins
/// `first_match` to `Some(i)`.
pub proof fn lemma_first_match_found(gs: Seq<GameModel>, key: Seq<char>, i: int)
    requires
        0 <= i < gs.len(),
        lower_of(gs[i].name) == key,
        forall|j: int| 0 <= j < i ==> lower_of(#[trigger] gs[j].name) != key,
    ensures
        first_match(gs, key) == Some(i),
    decreases i,
{
    if i > 0 {
        assert(forall|j: int|
            0 <= j < gs.len() - 1 ==> #[trigger] gs.drop_first()[j] == gs[j + 1]);
        lemma_first_match_found(gs.drop_first(), key, i - 1);
    }
}

/// Converse direction: no match anywhere pins `first_match` to `None`.
pub proof fn lemma_first_match_absent(gs: Seq<GameModel>, key: Seq<char>)
    requires
        forall|j: int| 0 <= j < gs.len() ==> lower_of(#[trigger] gs[j].name) != key,
    ensures
        first_match(gs, key) is None,
    decreases gs.len(),
{
    if gs.len() > 0 {
        assert(forall|j: int|
            0 <= j < gs.len() - 1 ==> #[trigger] gs.drop_first()[j] == gs[j + 1]);
        lemma_first_match_absent(gs.drop_first(), key);
    }
}

/// What adding does: reject an empty name or rating text, then a
/// duplicate name, then an unusable rating; otherwise the new record,
/// played once today, goes to the end of the collection.
pub open spec fn add_result(
    gs: Seq<GameModel>,
    name: Seq<char>,
    rating_input: Seq<char>,
    notes: Seq<char>,
    today: Seq<char>,
) -> Result<GameModel, StoreError> {
    if name.len() == 0 || rating_input.len() == 0 {
        Err(StoreError::MissingField)
    } else if first_match(gs, lower_of(name)) is Some {
        Err(StoreError::DuplicateName)
    } else {
        match rating_of_input(rating_input) {
            Some(rt) => Ok(
                GameModel {
                    name: name,
                    rating: rt,
                    times_played: 1,
                    last_playthrough: today,
                    notes: notes,
                },
            ),
            None => Err(StoreError::InvalidRating),
        }
    }
}

/// The play count after a delta: ordinary addition, cut off at zero
/// below and at the largest counter value above.
pub open spec fn apply_delta(tp: u64, d: i64) -> u64 {
    if tp + d < 0 {
        0u64
    } else if tp + d > u64::MAX {
        u64::MAX
    } else {
        (tp + d) as u64
    }
}

/// What editing does: reject a bad index, then an edit that asks for
/// nothing; otherwise non-empty overrides replace their fields, an
/// unusable rating override is discarded, the play count moves by the
/// delta, and the last playthrough is refreshed to today.
pub open spec fn edit_result(
    gs: Seq<GameModel>,
    index: int,
    name: Seq<char>,
    rating_input: Seq<char>,
    notes: Seq<char>,
    delta: i64,
    today: Seq<char>,
) -> Result<GameModel, StoreError> {
    if !(0 <= index < gs.len()) {
        Err(StoreError::IndexOutOfRange)
    } else if name.len() == 0 && rating_input.len() == 0 && notes.len() == 0 && delta == 0 {
        Err(StoreError::NoChangeRequested)
    } else {
        let g = gs[index];
        Ok(
            GameModel {
                name: if name.len() > 0 {
                    name
                } else {
                    g.name
                },
                rating: if rating_input.len() > 0 {
                    match rating_of_input(rating_input) {
                        Some(rt) => rt,
                        None => g.rating,
                    }
                } else {
                    g.rating
                },
                times_played: apply_delta(g.times_played, delta),
                last_playthrough: today,
                notes: if notes.len() > 0 {
                    notes
                } else {
                    g.notes
                },
            },
        )
    }
}

/// How a finished add relates the store before and after the call to
/// the returned record or error.
pub open spec fn add_matches(
    pre: Seq<GameModel>,
    post: Seq<GameModel>,
    name: Seq<char>,
    rating_input: Seq<char>,
    notes: Seq<char>,
    today: Seq<char>,
    r: Result<Game, StoreError>,
) -> bool {
    let outcome = add_result(pre, name, rating_input, notes, today);
    match r {
        Ok(g) => outcome is Ok && outcome->Ok_0 == g@ && post == pre.push(g@),
        Err(e) => outcome is Err && outcome->Err_0 == e && post == pre,
    }
}

/// How a finished edit relates the store before and after the call to
/// the returned record or error.
pub open spec fn edit_matches(
    pre: Seq<GameModel>,
    post: Seq<GameModel>,
    index: int,
    name: Seq<char>,
    rating_input: Seq<char>,
    notes: Seq<char>,
    delta: i64,
    today: Seq<char>,
    r: Result<Game, StoreError>,
) -> bool {
    let outcome = edit_result(pre, index, name, rating_input, notes, delta, today);
    match r {
        Ok(g) => outcome is Ok && outcome->Ok_0 == g@ && post == pre.update(index, g@),
        Err(e) => outcome is Err && outcome->Err_0 == e && post == pre,
    }
}

/// Finds the first record whose name equals the query once both are
/// folded to lower case; the scan runs front to back.
pub fn search_for_game(game_log: &Vec<Game>, query: &str) -> (r: Result<usize, StoreError>)
    ensures
        ({
            let m = first_match(game_log.deep_view(), lower_of(query@));
            match r {
                Ok(i) => m == Some(i as int),
                Err(e) => m is None && e == StoreError::NotFound,
            }
        }),
{
    let query_lower = lowercase(query);
    let mut idx: usize = 0;
    while idx < game_log.len()
        invariant
            idx <= game_log.len(),
            query_lower@ == lower_of(query@),
            forall|j: int|
                0 <= j < idx ==> lower_of(#[trigger] game_log.deep_view()[j].name) != lower_of(
                    query@,
                ),
        decreases game_log.len() - idx,
    {
        let name_lower = lowercase(game_log[idx].name.as_str());
        if name_lower == query_lower {
            proof {
                lemma_first_match_found(game_log.deep_view(), lower_of(query@), idx as int);
            }
            return Ok(idx);
        }
        idx = idx + 1;
    }
    proof {
        lemma_first_match_absent(game_log.deep_view(), lower_of(query@));
    }
    Err(StoreError::NotFound)
}

/// Saturating play-count arithmetic, as `apply_delta` says.
pub fn apply_delta_count(tp: u64, d: i64) -> (r: u64)
    ensures
        r == apply_delta(tp, d),
{
    if d >= 0 {
        let du = d as u64;
        if tp > u64::MAX - du {
            u64::MAX
        } else {
            tp + du
        }
    } else {
        let mag: u64 = if d == i64::MIN {
            9223372036854775808u64
        } else {
            (-d) as u64
        };
        if tp < mag {
            0
        } else {
            tp - mag
        }
    }
}

/// The in-memory ordered collection of game records. Its value is the
/// sequence of record models, in collection order.
pub struct Store {
    /// The records, in insertion order.
    pub games: Vec<Game>,
}

impl View for Store {
    type V = Seq<GameModel>;

    open spec fn view(&self) -> Seq<GameModel> {
        self.games.deep_view()
    }
}

impl Store {
    /// An empty store.
    pub fn new() -> (s: Store)
        ensures
            s@ =~= Seq::<GameModel>::empty(),
    {
        Store { games: Vec::new() }
    }

    /// How many records the store holds.
    pub fn len(&self) -> (n: usize)
        ensures
            n == self@.len(),
    {
        self.games.len()
    }

    /// Reads a store back from its persisted text. A missing file
    /// (`None`) or a text that does not read as the record format
    /// yields the empty store: loading fails open.
    pub fn load(contents: Option<&str>) -> (st: Store)
        ensures
            match contents {
                Some(t) => match parse_store_text(t@) {
                    Some(gs) => st@ == gs,
                    None => st@ == Seq::<GameModel>::empty(),
                },
                None => st@ == Seq::<GameModel>::empty(),
            },
    {
        match contents {
            Some(t) => match parse_game_log(t) {
                Some(games) => Store { games },
                None => Store::new(),
            },
            None => Store::new(),
        }
    }

    /// Renders the whole store as the JSON text that persists it.
    pub fn save(&self) -> (r: String)
        ensures
            r@ == render_games(self@),
    {
        render_game_log(&self.games)
    }

    /// Finds the first record matching the query, case-insensitively.
    pub fn search(&self, query: &str) -> (r: Result<usize, StoreError>)
        ensures
            ({
                let m = first_match(self@, lower_of(query@));
                match r {
                    Ok(i) => m == Some(i as int),
                    Err(e) => m is None && e == StoreError::NotFound,
                }
            }),
    {
        search_for_game(&self.games, query)
    }

    /// Adds a record dated `today`, exactly as `add_result` says: the
    /// inputs are validated first, and on success the new record is
    /// appended and returned.
    pub fn add_dated(&mut self, cmd: &AddCommand, today: &str) -> (r: Result<Game, StoreError>)
        ensures
            add_matches(
                old(self)@,
                final(self)@,
                cmd.name@,
                cmd.rating_input@,
                cmd.notes@,
                today@,
                r,
            ),
    {
        if cmd.name.as_str().is_empty() || cmd.rating_input.as_str().is_empty() {
            return Err(StoreError::MissingField);
        }
        match search_for_game(&self.games, cmd.name.as_str()) {
            Ok(_) => Err(StoreError::DuplicateName),
            Err(_) => {
                match rating_from_input(cmd.rating_input.as_str()) {
                    Some(rt) => {
                        let game = Game {
                            name: cmd.name.clone(),
                            rating: rt,
                            times_played: 1,
                            last_playthrough: String::from_str(today),
                            notes: cmd.notes.clone(),
                        };
                        let out = game.clone();
                        self.games.push(game);
                        proof {
                            assert(self.games.deep_view() =~= old(self).games.deep_view().push(
                                out@,
                            ));
                        }
                        Ok(out)
                    },
                    None => Err(StoreError::InvalidRating),
                }
            },
        }
    }

    /// Adds a record dated by the session clock. The store changes
    /// exactly as `add_dated` would for some date text.
    pub fn add(&mut self, cmd: &AddCommand) -> (r: Result<Game, StoreError>)
        ensures
            exists|d: Seq<char>|
                add_matches(old(self)@, final(self)@, cmd.name@, cmd.rating_input@, cmd.notes@, d, r),
    {
        let today = get_date();
        let r = self.add_dated(cmd, today.as_str());
        proof {
            assert(add_matches(
                old(self)@,
                self@,
                cmd.name@,
                cmd.rating_input@,
                cmd.notes@,
                today@,
                r,
            ));
        }
        r
    }

    /// Edits the record at the command's index, dated `today`, exactly
    /// as `edit_result` says: on success the reworked record replaces
    /// the old one in place and is returned.
    pub fn edit_dated(&mut self, cmd: &EditCommand, today: &str) -> (r: Result<Game, StoreError>)
        ensures
            edit_matches(
                old(self)@,
                final(self)@,
                cmd.index as int,
                cmd.name@,
                cmd.rating_input@,
                cmd.notes@,
                cmd.play_count_delta,
                today@,
                r,
            ),
    {
        if cmd.index >= self.games.len() {
            return Err(StoreError::IndexOutOfRange);
        }
        if cmd.name.as_str().is_empty() && cmd.rating_input.as_str().is_empty()
            && cmd.notes.as_str().is_empty() && cmd.play_count_delta == 0 {
            return Err(StoreError::NoChangeRequested);
        }
        let current = &self.games[cmd.index];
        let new_name = if !cmd.name.as_str().is_empty() {
            cmd.name.clone()
        } else {
            current.name.clone()
        };
        let new_rating = if !cmd.rating_input.as_str().is_empty() {
            match rating_from_input(cmd.rating_input.as_str()) {
                Some(rt) => rt,
                None => current.rating,
            }
        } else {
            current.rating
        };
        let new_notes = if !cmd.notes.as_str().is_empty() {
            cmd.notes.clone()
        } else {
            current.notes.clone()
        };
        let new_times = apply_delta_count(current.times_played, cmd.play_count_delta);
        let game = Game {
            name: new_name,
            rating: new_rating,
            times_played: new_times,
            last_playthrough: String::from_str(today),
            notes: new_notes,
        };
        let out = game.clone();
        self.games.set(cmd.index, game);
        proof {
            assert(self.games.deep_view() =~= old(self).games.deep_view().update(
                cmd.index as int,
                out@,
            ));
        }
        Ok(out)
    }

    /// Edits a record dated by the session clock. The store changes
    /// exactly as `edit_dated` would for some date text.
    pub fn edit(&mut self, cmd: &EditCommand) -> (r: Result<Game, StoreError>)
        ensures
            exists|d: Seq<char>|
                edit_matches(
                    old(self)@,
                    final(self)@,
                    cmd.index as int,
                    cmd.name@,
                    cmd.rating_input@,
                    cmd.notes@,
                    cmd.play_count_delta,
                    d,
                    r,
                ),
    {
        let today = get_date();
        let r = self.edit_dated(cmd, today.as_str());
        proof {
            assert(edit_matches(
                old(self)@,
                self@,
                cmd.index as int,
                cmd.name@,
                cmd.rating_input@,
                cmd.notes@,
                cmd.play_count_delta,
                today@,
                r,
            ));
        }
        r
    }

    /// Deletes the record at `index`; every later record moves one
    /// place down.
    pub fn remove(&mut self, index: usize) -> (r: Result<(), StoreError>)
        ensures
            index < old(self)@.len() ==> r is Ok && final(self)@ == old(self)@.remove(index as int),
            index >= old(self)@.len() ==> r == Err::<(), StoreError>(StoreError::IndexOutOfRange)
                && final(self)@ == old(self)@,
    {
        if index < self.games.len() {
            self.games.remove(index);
            proof {
                assert(self.games.deep_view() =~= old(self).games.deep_view().remove(
                    index as int,
                ));
            }
            Ok(())
        } else {
            Err(StoreError::IndexOutOfRange)
        }
    }
}

/// Law: after a successful add, a search for the added name — or for
/// any query that folds to the same key — finds the new record at the
/// end of the collection.
pub proof fn lemma_add_then_search(
    gs: Seq<GameModel>,
    name: Seq<char>,
    rating_input: Seq<char>,
    notes: Seq<char>,
    today: Seq<char>,
    q: Seq<char>,
)
    requires
        add_result(gs, name, rating_input, notes, today) is Ok,
        lower_of(q) == lower_of(name),
    ensures
        ({
            let g = add_result(gs, name, rating_input, notes, today)->Ok_0;
            first_match(gs.push(g), lower_of(q)) == Some(gs.len() as int)
        }),
{
    let g = add_result(gs, name, rating_input, notes, today)->Ok_0;
    lemma_first_match_spec(gs, lower_of(name));
    assert(forall|j: int| 0 <= j < gs.len() ==> #[trigger] gs.push(g)[j] == gs[j]);
    lemma_first_match_found(gs.push(g), lower_of(q), gs.len() as int);
}

/// Law: adding a name whose folded form is already present fails with
/// `DuplicateName`, whatever case either spelling uses.
pub proof fn lemma_add_duplicate_name(
    gs: Seq<GameModel>,
    name: Seq<char>,
    rating_input: Seq<char>,
    notes: Seq<char>,
    today: Seq<char>,
    i: int,
)
    requires
        0 <= i < gs.len(),
        lower_of(gs[i].name) == lower_of(name),
        name.len() > 0,
        rating_input.len() > 0,
    ensures
        add_result(gs, name, rating_input, notes, today) == Err::<GameModel, StoreError>(
            StoreError::DuplicateName,
        ),
{
    lemma_first_match_spec(gs, lower_of(name));
}

/// Law: removing the only record with a given folded name makes a
/// search for that name miss, and every record after the removed one
/// shifts down by one place.
pub proof fn lemma_remove_then_search(gs: Seq<GameModel>, i: int)
    requires
        0 <= i < gs.len(),
        forall|j: int|
            0 <= j < gs.len() && j != i ==> lower_of(#[trigger] gs[j].name) != lower_of(
                gs[i].name,
            ),
    ensures
        first_match(gs.remove(i), lower_of(gs[i].name)) is None,
        forall|k: int| i <= k < gs.len() - 1 ==> #[trigger] gs.remove(i)[k] == gs[k + 1],
        forall|k: int| 0 <= k < i ==> #[trigger] gs.remove(i)[k] == gs[k],
{
    gs.remove_ensures(i);
    lemma_first_match_absent(gs.remove(i), lower_of(gs[i].name));
}

/// Law: the play count after a delta is the true sum, cut off at zero
/// and at the largest counter value; it never goes below zero.
pub proof fn lemma_apply_delta_floor(tp: u64, d: i64)
    ensures
        apply_delta(tp, d) >= 0,
        tp + d >= 0 && tp + d <= u64::MAX ==> apply_delta(tp, d) == tp + d,
        tp + d < 0 ==> apply_delta(tp, d) == 0,
        tp + d > u64::MAX ==> apply_delta(tp, d) == u64::MAX,
{
}

} // verus!
