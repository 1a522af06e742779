use game_log::codec::{parse_game_log, render_game_log};
use game_log::store::{AddCommand, Store, StoreError};
use game_log::text::truncate_game_attributes;

fn add_cmd(name: &str, rating: &str, notes: &str) -> AddCommand {
    AddCommand { name: name.to_string(), rating_input: rating.to_string(), notes: notes.to_string() }
}

#[test]
fn save_renders_the_exact_record_format() {
    let mut st = Store::new();
    st.add_dated(&add_cmd("Celeste", "5", "great game"), "2024-01-15").unwrap();
    let text = st.save();
    assert_eq!(
        text,
        "[{\"name\":\"Celeste\",\"rating\":\"five\",\"times_played\":1,\
         \"last_playthrough\":\"2024-01-15\",\"notes\":\"great game\"}]"
    );
}

#[test]
fn an_empty_store_saves_as_an_empty_array() {
    let st = Store::new();
    assert_eq!(st.save(), "[]");
    let st = Store::load(Some("[]"));
    assert_eq!(st.len(), 0);
    let st = Store::load(Some("  [ ]  "));
    assert_eq!(st.len(), 0);
}

#[test]
fn save_then_load_yields_the_identical_collection() {
    let mut st = Store::new();
    st.add_dated(&add_cmd("Celeste", "5", "great game"), "2024-01-15").unwrap();
    st.add_dated(&add_cmd("Qu\"ote\\Back\nLine", "3", "notes with \u{1} control"), "2023-12-31")
        .unwrap();
    st.add_dated(&add_cmd("Hades", "4", ""), "2024-02-02").unwrap();
    st.edit_dated(
        &game_log::store::EditCommand {
            index: 2,
            name: String::new(),
            rating_input: String::new(),
            notes: String::new(),
            play_count_delta: 41,
        },
        "2024-02-03",
    )
    .unwrap();
    let text = st.save();
    let reloaded = Store::load(Some(text.as_str()));
    assert_eq!(reloaded.len(), st.len());
    for i in 0..st.len() {
        assert_eq!(reloaded.games[i].name, st.games[i].name);
        assert_eq!(reloaded.games[i].rating, st.games[i].rating);
        assert_eq!(reloaded.games[i].times_played, st.games[i].times_played);
        assert_eq!(reloaded.games[i].last_playthrough, st.games[i].last_playthrough);
        assert_eq!(reloaded.games[i].notes, st.games[i].notes);
    }
    assert_eq!(reloaded.save(), text);
}

#[test]
fn a_missing_or_unreadable_file_loads_as_an_empty_store() {
    assert_eq!(Store::load(None).len(), 0);
    assert_eq!(Store::load(Some("")).len(), 0);
    assert_eq!(Store::load(Some("not json")).len(), 0);
    assert_eq!(Store::load(Some("[")).len(), 0);
    assert_eq!(Store::load(Some("{}")).len(), 0);
    assert_eq!(Store::load(Some("[{\"name\":\"x\"}]")).len(), 0);
    let text = "[{\"name\":\"A\",\"rating\":\"six\",\"times_played\":1,\
                \"last_playthrough\":\"d\",\"notes\":\"\"}]";
    assert_eq!(Store::load(Some(text)).len(), 0);
    let text = "[{\"name\":\"A\",\"rating\":\"one\",\"times_played\":99999999999999999999,\
                \"last_playthrough\":\"d\",\"notes\":\"\"}]";
    assert_eq!(Store::load(Some(text)).len(), 0);
    let trailing = "[] trailing";
    assert_eq!(Store::load(Some(trailing)).len(), 0);
}

#[test]
fn load_accepts_blanks_between_tokens_and_common_escapes() {
    let text = "[\n  {\n    \"name\" : \"A\\u0041\\n\\\"\\\\\",\n    \"rating\" : \"two\",\n    \
                \"times_played\" : 7,\n    \"last_playthrough\" : \"2024-01-15\",\n    \
                \"notes\" : \"ok\\tthen\"\n  }\n]\n";
    let st = Store::load(Some(text));
    assert_eq!(st.len(), 1);
    assert_eq!(st.games[0].name, "AA\n\"\\");
    assert_eq!(st.games[0].rating, game_log::rating::Rating::Two);
    assert_eq!(st.games[0].times_played, 7);
    assert_eq!(st.games[0].last_playthrough, "2024-01-15");
    assert_eq!(st.games[0].notes, "ok\tthen");
    assert_eq!(st.search("a\u{41}\n\"\\"), Ok(0));
    assert_eq!(st.search("other"), Err(StoreError::NotFound));
}

#[test]
fn the_free_codec_functions_mirror_the_store_methods() {
    let mut st = Store::new();
    st.add_dated(&add_cmd("Hades", "4", "roguelike"), "2024-02-02").unwrap();
    let text = render_game_log(&st.games);
    assert_eq!(text, st.save());
    let games = parse_game_log(text.as_str()).unwrap();
    assert_eq!(games.len(), 1);
    assert_eq!(games[0].name, "Hades");
    assert!(parse_game_log("nope").is_none());
}

#[test]
fn long_display_texts_are_cut_with_an_ellipsis() {
    assert_eq!(truncate_game_attributes("abcdefghijklmno", 10), "abcdefghij...");
    assert_eq!(truncate_game_attributes("short", 10), "short");
    assert_eq!(truncate_game_attributes("", 10), "");
    assert_eq!(truncate_game_attributes("exactly-10", 10), "exactly-10");
}
