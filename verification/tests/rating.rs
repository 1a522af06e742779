use game_log::rating::Rating;

#[test]
fn from_u8_accepts_exactly_one_to_five() {
    assert_eq!(Rating::from_u8(1), Some(Rating::One));
    assert_eq!(Rating::from_u8(2), Some(Rating::Two));
    assert_eq!(Rating::from_u8(3), Some(Rating::Three));
    assert_eq!(Rating::from_u8(4), Some(Rating::Four));
    assert_eq!(Rating::from_u8(5), Some(Rating::Five));
    assert_eq!(Rating::from_u8(0), None);
    assert_eq!(Rating::from_u8(6), None);
    assert_eq!(Rating::from_u8(255), None);
}

#[test]
fn to_text_renders_the_decimal_digit() {
    assert_eq!(Rating::One.to_text(), "1");
    assert_eq!(Rating::Two.to_text(), "2");
    assert_eq!(Rating::Three.to_text(), "3");
    assert_eq!(Rating::Four.to_text(), "4");
    assert_eq!(Rating::Five.to_text(), "5");
}

#[test]
fn rating_input_is_trimmed_and_parsed() {
    assert_eq!(game_log::rating::rating_from_input("5"), Some(Rating::Five));
    assert_eq!(game_log::rating::rating_from_input(" 3 "), Some(Rating::Three));
    assert_eq!(game_log::rating::rating_from_input("+2"), Some(Rating::Two));
    assert_eq!(game_log::rating::rating_from_input("005"), Some(Rating::Five));
    assert_eq!(game_log::rating::rating_from_input("0"), None);
    assert_eq!(game_log::rating::rating_from_input("6"), None);
    assert_eq!(game_log::rating::rating_from_input("9"), None);
    assert_eq!(game_log::rating::rating_from_input("abc"), None);
    assert_eq!(game_log::rating::rating_from_input(""), None);
    assert_eq!(game_log::rating::rating_from_input("  "), None);
    assert_eq!(game_log::rating::rating_from_input("99999999999999999999999999"), None);
}
