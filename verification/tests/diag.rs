use bridge_solver::cards::{card_of, Cards};
use bridge_solver::diag::{
    format_hand_with_suits, format_suit_cards, parse_cache_spec, parse_seat, parse_trump,
    split_west_east, trump_to_char,
};
use bridge_solver::types::{
    ACE, CLUB, DIAMOND, EAST, HEART, KING, NORTH, NOTRUMP, SOUTH, SPADE, TEN, TWO, WEST,
};

#[test]
fn west_and_east_part_at_a_tab_or_a_wide_gap() {
    assert_eq!(
        split_west_east("AK2 QJ - T98\tQ3 AK 765 -"),
        Some(("AK2 QJ - T98".to_string(), "Q3 AK 765 -".to_string()))
    );
    assert_eq!(
        split_west_east("  AK2 QJ - T98      Q3 AK 765 -  "),
        Some(("AK2 QJ - T98".to_string(), "Q3 AK 765 -".to_string()))
    );
    // Three spaces are no gap, and neither is a gap that starts the line.
    assert_eq!(split_west_east("AK2   QJ"), None);
    assert_eq!(split_west_east("    AK2 QJ"), None);
    assert_eq!(split_west_east("\tAK2"), None);
}

#[test]
fn strain_and_seat_letters() {
    assert_eq!(trump_to_char(NOTRUMP), 'N');
    assert_eq!(trump_to_char(SPADE), 'S');
    assert_eq!(trump_to_char(CLUB), 'C');
    assert_eq!(trump_to_char(9), '?');
    assert_eq!(parse_trump('h'), HEART);
    assert_eq!(parse_trump('D'), DIAMOND);
    assert_eq!(parse_trump('n'), NOTRUMP);
    assert_eq!(parse_seat('w'), WEST);
    assert_eq!(parse_seat('N'), NORTH);
    assert_eq!(parse_seat('e'), EAST);
    assert_eq!(parse_seat('S'), SOUTH);
}

#[test]
fn hands_are_drawn_from_the_ace_down() {
    let mut c = Cards::new();
    c.add(card_of(SPADE, TWO));
    c.add(card_of(SPADE, ACE));
    c.add(card_of(SPADE, KING));
    c.add(card_of(DIAMOND, TEN));
    assert_eq!(format_suit_cards(c, SPADE), "AK2");
    assert_eq!(format_suit_cards(c, HEART), "-");
    assert_eq!(format_suit_cards(c, DIAMOND), "T");
    assert_eq!(
        format_hand_with_suits(c),
        "\u{2660} AK2 \u{2665} - \u{2666} T \u{2663} -"
    );
}

#[test]
fn cache_windows() {
    assert_eq!(parse_cache_spec("5"), (0, 0, 5));
    assert_eq!(parse_cache_spec("10:20"), (10, 20, 1));
    assert_eq!(parse_cache_spec(" 10 : 20 : 3 "), (10, 20, 3));
    assert_eq!(parse_cache_spec("x:20"), (0, 20, 1));
    assert_eq!(parse_cache_spec("+7"), (0, 0, 7));
    assert_eq!(parse_cache_spec("1:2:3:4"), (0, 0, 0));
    assert_eq!(parse_cache_spec(""), (0, 0, 0));
    assert_eq!(
        parse_cache_spec("99999999999999999999999"),
        (0, 0, 0)
    );
}
