use bridge_solver::cards::{card_of, Cards};
use bridge_solver::hands::Hands;
use bridge_solver::types::{ACE, EAST, HEART, KING, NORTH, QUEEN, SOUTH, SPADE, TEN, THREE, WEST};

#[test]
fn test_hands_basic() {
    let mut hands = Hands::new();
    assert_eq!(hands.num_tricks(), 0);

    hands.hand_mut(NORTH).add(card_of(SPADE, ACE));
    assert_eq!(hands.hand(NORTH).size(), 1);
    assert!(hands.hand(NORTH).have(card_of(SPADE, ACE)));
}

#[test]
fn test_hands_from_pbn() {
    let pbn = "N:AKQT3.J6.KJ42.95 652.AK42.AQ87.T4 J74.QT95.T.AK863 98.873.9653.QJ72";
    let hands = Hands::from_pbn(pbn).expect("Should parse");

    assert!(hands.hand(NORTH).have(card_of(SPADE, ACE)));
    assert!(hands.hand(NORTH).have(card_of(SPADE, KING)));
    assert!(hands.hand(NORTH).have(card_of(SPADE, QUEEN)));
    assert!(hands.hand(NORTH).have(card_of(SPADE, TEN)));
    assert!(hands.hand(NORTH).have(card_of(SPADE, THREE)));

    assert_eq!(hands.hand(NORTH).size(), 13);
    assert_eq!(hands.hand(EAST).size(), 13);
    assert_eq!(hands.hand(SOUTH).size(), 13);
    assert_eq!(hands.hand(WEST).size(), 13);
}

#[test]
fn test_partnership_cards() {
    let pbn = "N:AKQT3.J6.KJ42.95 652.AK42.AQ87.T4 J74.QT95.T.AK863 98.873.9653.QJ72";
    let hands = Hands::from_pbn(pbn).expect("Should parse");

    let ns_cards = hands.partnership_cards(NORTH);
    assert_eq!(ns_cards.size(), 26);

    let ew_cards = hands.opponent_cards(NORTH);
    assert_eq!(ew_cards.size(), 26);
}

#[test]
fn test_all_cards() {
    let pbn = "N:AKQT3.J6.KJ42.95 652.AK42.AQ87.T4 J74.QT95.T.AK863 98.873.9653.QJ72";
    let hands = Hands::from_pbn(pbn).expect("Should parse");

    assert_eq!(hands.all_cards().size(), 52);
}

#[test]
fn test_hands_from_solver_format() {
    let hands = Hands::from_solver_format(
        "AKQT3 J6 KJ42 95",
        "98 873 9653 QJ72",
        "652 AK42 AQ87 T4",
        "J74 QT95 T AK863",
    )
    .expect("Should parse");

    assert_eq!(hands.hand(NORTH).size(), 13);
    assert_eq!(hands.hand(WEST).size(), 13);
    assert_eq!(hands.hand(EAST).size(), 13);
    assert_eq!(hands.hand(SOUTH).size(), 13);
    assert_eq!(hands.all_cards().size(), 52);
}

#[test]
fn test_cards_basic_operations() {
    let mut cards = Cards::new();
    assert!(cards.is_empty());

    cards.add(card_of(SPADE, ACE));
    assert_eq!(cards.size(), 1);
    assert!(cards.have(card_of(SPADE, ACE)));

    cards.add(card_of(HEART, KING));
    assert_eq!(cards.size(), 2);

    let spades = cards.suit(SPADE);
    assert_eq!(spades.size(), 1);
}

#[test]
fn test_hands_parsing() {
    let pbn = "N:AKQT3.J6.KJ42.95 652.AK42.AQ87.T4 J74.QT95.T.AK863 98.873.9653.QJ72";
    let hands = Hands::from_pbn(pbn).unwrap();

    assert_eq!(hands.hand(NORTH).size(), 13);
    assert_eq!(hands.hand(EAST).size(), 13);
    assert_eq!(hands.hand(SOUTH).size(), 13);
    assert_eq!(hands.hand(WEST).size(), 13);
    assert_eq!(hands.all_cards().size(), 52);
}
