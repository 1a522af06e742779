use game_log::rating::Rating;
use game_log::store::{search_for_game, AddCommand, EditCommand, Store, StoreError};

fn add_cmd(name: &str, rating: &str, notes: &str) -> AddCommand {
    AddCommand { name: name.to_string(), rating_input: rating.to_string(), notes: notes.to_string() }
}

fn edit_cmd(index: usize, name: &str, rating: &str, notes: &str, delta: i64) -> EditCommand {
    EditCommand {
        index,
        name: name.to_string(),
        rating_input: rating.to_string(),
        notes: notes.to_string(),
        play_count_delta: delta,
    }
}

#[test]
fn add_then_search_finds_the_name_in_any_case() {
    let mut st = Store::new();
    let game = st.add_dated(&add_cmd("Celeste", "5", "great game"), "2024-01-15").unwrap();
    assert_eq!(game.name, "Celeste");
    assert_eq!(game.rating, Rating::Five);
    assert_eq!(game.times_played, 1);
    assert_eq!(game.last_playthrough, "2024-01-15");
    assert_eq!(game.notes, "great game");
    assert_eq!(st.search("Celeste"), Ok(0));
    assert_eq!(st.search("CELESTE"), Ok(0));
    assert_eq!(st.search("celeste"), Ok(0));
    assert_eq!(st.search("cElEsTe"), Ok(0));
}

#[test]
fn adding_an_existing_name_in_another_case_is_a_duplicate() {
    let mut st = Store::new();
    st.add_dated(&add_cmd("Celeste", "5", ""), "2024-01-15").unwrap();
    let r = st.add_dated(&add_cmd("celeste", "4", ""), "2024-01-15");
    assert!(matches!(r, Err(StoreError::DuplicateName)));
    let r = st.add_dated(&add_cmd("CELESTE", "1", "x"), "2024-01-16");
    assert!(matches!(r, Err(StoreError::DuplicateName)));
    assert_eq!(st.len(), 1);
}

#[test]
fn add_requires_name_and_rating() {
    let mut st = Store::new();
    let r = st.add_dated(&add_cmd("", "5", "notes"), "2024-01-15");
    assert!(matches!(r, Err(StoreError::MissingField)));
    let r = st.add_dated(&add_cmd("Hades", "", "notes"), "2024-01-15");
    assert!(matches!(r, Err(StoreError::MissingField)));
    assert_eq!(st.len(), 0);
}

#[test]
fn add_rejects_a_rating_outside_one_to_five() {
    let mut st = Store::new();
    let r = st.add_dated(&add_cmd("Hades", "9", ""), "2024-01-15");
    assert!(matches!(r, Err(StoreError::InvalidRating)));
    let r = st.add_dated(&add_cmd("Hades", "abc", ""), "2024-01-15");
    assert!(matches!(r, Err(StoreError::InvalidRating)));
    let r = st.add_dated(&add_cmd("Hades", "0", ""), "2024-01-15");
    assert!(matches!(r, Err(StoreError::InvalidRating)));
    assert_eq!(st.len(), 0);
    let r = st.add_dated(&add_cmd("Hades", " 4 ", ""), "2024-01-15");
    assert!(r.is_ok());
    assert_eq!(r.unwrap().rating, Rating::Four);
}

#[test]
fn search_misses_on_an_empty_store_and_unknown_names() {
    let st = Store::new();
    assert_eq!(st.search("anything"), Err(StoreError::NotFound));
    let mut st = Store::new();
    st.add_dated(&add_cmd("Hades", "4", ""), "2024-01-15").unwrap();
    assert_eq!(st.search("Celeste"), Err(StoreError::NotFound));
    assert_eq!(search_for_game(&st.games, "Hades"), Ok(0));
    assert_eq!(search_for_game(&st.games, "nope"), Err(StoreError::NotFound));
}

#[test]
fn search_returns_the_first_match() {
    let mut st = Store::new();
    st.add_dated(&add_cmd("Alpha", "1", ""), "2024-01-15").unwrap();
    st.add_dated(&add_cmd("Beta", "2", ""), "2024-01-15").unwrap();
    st.add_dated(&add_cmd("Gamma", "3", ""), "2024-01-15").unwrap();
    assert_eq!(st.search("beta"), Ok(1));
    assert_eq!(st.search("GAMMA"), Ok(2));
}

#[test]
fn remove_shifts_later_entries_down_and_search_misses_the_removed_name() {
    let mut st = Store::new();
    st.add_dated(&add_cmd("Alpha", "1", ""), "2024-01-15").unwrap();
    st.add_dated(&add_cmd("Beta", "2", ""), "2024-01-15").unwrap();
    st.add_dated(&add_cmd("Gamma", "3", ""), "2024-01-15").unwrap();
    assert_eq!(st.remove(0), Ok(()));
    assert_eq!(st.search("Alpha"), Err(StoreError::NotFound));
    assert_eq!(st.search("Beta"), Ok(0));
    assert_eq!(st.search("Gamma"), Ok(1));
    assert_eq!(st.len(), 2);
}

#[test]
fn remove_rejects_a_bad_index() {
    let mut st = Store::new();
    assert_eq!(st.remove(0), Err(StoreError::IndexOutOfRange));
    st.add_dated(&add_cmd("Alpha", "1", ""), "2024-01-15").unwrap();
    assert_eq!(st.remove(1), Err(StoreError::IndexOutOfRange));
    assert_eq!(st.len(), 1);
}

#[test]
fn edit_saturates_the_play_count_at_zero() {
    let mut st = Store::new();
    st.add_dated(&add_cmd("Celeste", "5", ""), "2024-01-15").unwrap();
    st.edit_dated(&edit_cmd(0, "", "", "", 2), "2024-01-16").unwrap();
    assert_eq!(st.games[0].times_played, 3);
    let game = st.edit_dated(&edit_cmd(0, "", "", "", -1000), "2024-01-17").unwrap();
    assert_eq!(game.times_played, 0);
    assert_eq!(st.games[0].times_played, 0);
}

#[test]
fn edit_saturates_the_play_count_at_the_counter_maximum() {
    let mut st = Store::new();
    st.add_dated(&add_cmd("Celeste", "5", ""), "2024-01-15").unwrap();
    st.edit_dated(&edit_cmd(0, "", "", "", i64::MAX), "2024-01-16").unwrap();
    st.edit_dated(&edit_cmd(0, "", "", "", i64::MAX), "2024-01-17").unwrap();
    let game = st.edit_dated(&edit_cmd(0, "", "", "", i64::MAX), "2024-01-18").unwrap();
    assert_eq!(game.times_played, u64::MAX);
    let game = st.edit_dated(&edit_cmd(0, "", "", "", i64::MIN), "2024-01-19").unwrap();
    assert_eq!(game.times_played, i64::MAX as u64);
    let game = st.edit_dated(&edit_cmd(0, "", "", "", i64::MIN), "2024-01-20").unwrap();
    assert_eq!(game.times_played, 0);
}

#[test]
fn edit_replaces_only_the_given_fields_and_refreshes_the_date() {
    let mut st = Store::new();
    st.add_dated(&add_cmd("Celeste", "5", "old notes"), "2024-01-15").unwrap();
    let game = st.edit_dated(&edit_cmd(0, "Celeste Classic", "", "new notes", 0), "2024-02-01")
        .unwrap();
    assert_eq!(game.name, "Celeste Classic");
    assert_eq!(game.rating, Rating::Five);
    assert_eq!(game.times_played, 1);
    assert_eq!(game.last_playthrough, "2024-02-01");
    assert_eq!(game.notes, "new notes");
}

#[test]
fn edit_discards_an_unusable_rating_override() {
    let mut st = Store::new();
    st.add_dated(&add_cmd("Celeste", "5", ""), "2024-01-15").unwrap();
    let game = st.edit_dated(&edit_cmd(0, "", "9", "", 0), "2024-03-01").unwrap();
    assert_eq!(game.rating, Rating::Five);
    assert_eq!(game.last_playthrough, "2024-03-01");
    let game = st.edit_dated(&edit_cmd(0, "", "junk", "", 0), "2024-03-02").unwrap();
    assert_eq!(game.rating, Rating::Five);
    assert_eq!(game.last_playthrough, "2024-03-02");
    let game = st.edit_dated(&edit_cmd(0, "", "2", "", 0), "2024-03-03").unwrap();
    assert_eq!(game.rating, Rating::Two);
}

#[test]
fn edit_rejects_a_bad_index_and_an_empty_edit() {
    let mut st = Store::new();
    let r = st.edit_dated(&edit_cmd(0, "x", "", "", 0), "2024-01-15");
    assert!(matches!(r, Err(StoreError::IndexOutOfRange)));
    st.add_dated(&add_cmd("Celeste", "5", ""), "2024-01-15").unwrap();
    let r = st.edit_dated(&edit_cmd(0, "", "", "", 0), "2024-01-16");
    assert!(matches!(r, Err(StoreError::NoChangeRequested)));
    assert_eq!(st.games[0].last_playthrough, "2024-01-15");
}

#[test]
fn the_clock_backed_operations_behave_like_the_dated_ones() {
    let mut st = Store::new();
    let game = st.add(&add_cmd("Celeste", "5", "notes")).unwrap();
    assert_eq!(game.name, "Celeste");
    assert_eq!(game.times_played, 1);
    let game = st.edit(&edit_cmd(0, "", "", "", 4)).unwrap();
    assert_eq!(game.times_played, 5);
    let r = st.add(&add_cmd("CELESTE", "3", ""));
    assert!(matches!(r, Err(StoreError::DuplicateName)));
}

#[test]
fn a_full_session_behaves_as_specified() {
    let mut st = Store::new();
    let game = st.add_dated(&add_cmd("Celeste", "5", "great game"), "2024-05-01").unwrap();
    assert_eq!(game.name, "Celeste");
    assert_eq!(game.rating, Rating::Five);
    assert_eq!(game.times_played, 1);
    assert_eq!(game.notes, "great game");
    let r = st.add_dated(&add_cmd("celeste", "4", ""), "2024-05-01");
    assert!(matches!(r, Err(StoreError::DuplicateName)));
    assert_eq!(st.search("CELESTE"), Ok(0));
    let game = st.edit_dated(&edit_cmd(0, "", "9", "", 0), "2024-05-02").unwrap();
    assert_eq!(game.rating, Rating::Five);
    assert_eq!(game.last_playthrough, "2024-05-02");
    assert_eq!(st.remove(0), Ok(()));
    assert_eq!(st.len(), 0);
    assert_eq!(st.search("Celeste"), Err(StoreError::NotFound));
}
