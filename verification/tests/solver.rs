use bridge_solver::bridge_solver::{PartialTrick, Solver};
use bridge_solver::cards::card_of;
use bridge_solver::hands::Hands;
use bridge_solver::cards::Cards;
use bridge_solver::pattern::{Bounds, Pattern, PatternCache};
use bridge_solver::search::CutoffCache;
use bridge_solver::types::{ACE, DIAMOND, EAST, KING, NORTH, NOTRUMP, SPADE, THREE, TWO, WEST, SOUTH};

#[test]
fn test_partial_trick_builder() {
    let mut partial = PartialTrick::new();
    assert!(partial.is_empty());
    assert_eq!(partial.len(), 0);

    partial.add(card_of(SPADE, THREE), WEST);
    assert!(!partial.is_empty());
    assert_eq!(partial.len(), 1);
    assert_eq!(partial.lead_suit(), Some(SPADE));
    assert_eq!(partial.leader(), Some(WEST));
    assert_eq!(partial.next_to_play(), Some(NORTH));

    partial.add(card_of(SPADE, ACE), NORTH);
    assert_eq!(partial.len(), 2);
    assert_eq!(partial.next_to_play(), Some(EAST));
}

#[test]
fn test_new_mid_trick_validation() {
    let hands = Hands::from_pbn("N:A... K... 2... 3...").unwrap();

    let empty = PartialTrick::new();
    assert!(Solver::new_mid_trick(hands, NOTRUMP, &empty).is_none());

    let mut full = PartialTrick::new();
    full.add(card_of(SPADE, THREE), WEST);
    full.add(card_of(SPADE, ACE), NORTH);
    full.add(card_of(SPADE, KING), EAST);
    full.add(card_of(SPADE, TWO), SOUTH);
    assert!(Solver::new_mid_trick(hands, NOTRUMP, &full).is_none());

    let mut one = PartialTrick::new();
    one.add(card_of(SPADE, THREE), WEST);
    assert!(Solver::new_mid_trick(hands, NOTRUMP, &one).is_some());
}

#[test]
fn solver_one_trick_ns_ace() {
    let hands = Hands::from_pbn("N:A... K... 2... 3...").unwrap();
    assert_eq!(Solver::new(hands, NOTRUMP, WEST).solve(), 1);
}

#[test]
fn solver_one_trick_ew_ace() {
    let hands = Hands::from_pbn("N:K... A... 2... 3...").unwrap();
    assert_eq!(Solver::new(hands, NOTRUMP, WEST).solve(), 0);
}

#[test]
fn solver_two_tricks() {
    let hands = Hands::from_pbn("N:A.A.. K.K.. 2.2.. 3.3..").unwrap();
    assert_eq!(Solver::new(hands, NOTRUMP, WEST).solve(), 2);
}

#[test]
fn solver_four_tricks() {
    let hands = Hands::from_pbn("N:A.A.A.A K.K.K.K 2.2.2.2 3.3.3.3").unwrap();
    assert_eq!(Solver::new(hands, NOTRUMP, WEST).solve(), 4);
}

#[test]
fn solver_eight_tricks() {
    let hands = Hands::from_pbn("N:AK.AK.AK.AK QJ.QJ.QJ.QJ 32.32.32.32 T9.T9.T9.T9").unwrap();
    assert_eq!(Solver::new(hands, NOTRUMP, WEST).solve(), 8);
}

#[test]
fn solver_cold_thirteen() {
    let hands = Hands::from_pbn(
        "N:AKQJ.AKQ.AKQ.AKQ T987.JT9.JT9.JT9 6543.876.876.876 2.5432.5432.5432",
    )
    .unwrap();
    assert_eq!(Solver::new(hands, NOTRUMP, WEST).solve(), 13);
}

#[test]
fn solver_cold_zero() {
    let hands = Hands::from_pbn(
        "N:T987.JT9.JT9.JT9 AKQJ.AKQ.AKQ.AKQ 2.5432.5432.5432 6543.876.876.876",
    )
    .unwrap();
    assert_eq!(Solver::new(hands, NOTRUMP, WEST).solve(), 0);
}

#[test]
fn solver_nine_tricks_in_notrump() {
    let hands = Hands::from_pbn(
        "N:AKQT3.J6.KJ42.95 652.AK42.AQ87.T4 J74.QT95.T.AK863 98.873.9653.QJ72",
    )
    .unwrap();
    assert_eq!(Solver::new(hands, NOTRUMP, WEST).solve(), 9);
}

#[test]
fn solver_mid_trick_one_card_played() {
    let hands = Hands::from_pbn("N:A.A.. K.K.. 2.2.. .3..").unwrap();
    let mut partial = PartialTrick::new();
    partial.add(card_of(SPADE, THREE), WEST);
    let solver = Solver::new_mid_trick(hands, NOTRUMP, &partial).unwrap();
    let mut cutoff = CutoffCache::new(16);
    let mut pattern = PatternCache::new(16);
    assert_eq!(solver.solve_mid_trick(&mut cutoff, &mut pattern, &partial), 2);
}

#[test]
fn solver_mid_trick_two_cards_played() {
    let hands = Hands::from_pbn("N:.A.. K.K.. 2.2.. .3..").unwrap();
    let mut partial = PartialTrick::new();
    partial.add(card_of(SPADE, THREE), WEST);
    partial.add(card_of(SPADE, ACE), NORTH);
    let solver = Solver::new_mid_trick(hands, NOTRUMP, &partial).unwrap();
    let mut cutoff = CutoffCache::new(16);
    let mut pattern = PatternCache::new(16);
    assert_eq!(solver.solve_mid_trick(&mut cutoff, &mut pattern, &partial), 2);
}

#[test]
fn solver_mid_trick_three_cards_played() {
    let hands = Hands::from_pbn("N:.A.. .K.. 2.2.. .3..").unwrap();
    let mut partial = PartialTrick::new();
    partial.add(card_of(SPADE, THREE), WEST);
    partial.add(card_of(SPADE, ACE), NORTH);
    partial.add(card_of(SPADE, KING), EAST);
    let solver = Solver::new_mid_trick(hands, NOTRUMP, &partial).unwrap();
    let mut cutoff = CutoffCache::new(16);
    let mut pattern = PatternCache::new(16);
    assert_eq!(solver.solve_mid_trick(&mut cutoff, &mut pattern, &partial), 2);
}

#[test]
fn solver_mid_trick_ruff() {
    let hands = Hands::from_pbn("N:A.A.. ..K.K 2.2.. .3..").unwrap();
    let mut partial = PartialTrick::new();
    partial.add(card_of(DIAMOND, ACE), WEST);
    let solver = Solver::new_mid_trick(hands, SPADE, &partial).unwrap();
    let mut cutoff = CutoffCache::new(16);
    let mut pattern = PatternCache::new(16);
    assert_eq!(solver.solve_mid_trick(&mut cutoff, &mut pattern, &partial), 2);
}

#[test]
fn a_cutoff_cache_gives_back_what_was_stored_as_it_grows() {
    let mut cache = CutoffCache::new(2);
    let hashes: Vec<u64> = (1..=40u64).map(|k| k.wrapping_mul(0x9e37_79b9_7f4a_7c15)).collect();
    for (i, &h) in hashes.iter().enumerate() {
        cache.store(h, i % 4, i % 52);
    }
    for (i, &h) in hashes.iter().enumerate() {
        assert_eq!(cache.lookup(h, i % 4), Some(i % 52), "hash {i}");
        assert_eq!(cache.lookup(h, (i + 1) % 4), None);
    }
    // A second store under the same hash and seat replaces the card.
    cache.store(hashes[0], 0, 7);
    assert_eq!(cache.lookup(hashes[0], 0), Some(7));
    assert_eq!(cache.lookup(12345, 0), None);
    let (live, _) = cache.digest();
    assert_eq!(live, hashes.len());
}

fn pattern_hands(west: u64, north: u64) -> Hands {
    let mut h = Hands::new();
    h.set_hand(WEST, Cards::from_bits(west));
    h.set_hand(NORTH, Cards::from_bits(north));
    h
}

#[test]
fn a_pattern_tree_finds_what_was_stored() {
    let mut root = Pattern::root();
    // A general pattern, then a more specific one below it, then one unrelated.
    root.update(Pattern::new(pattern_hands(0b1, 0), Bounds::new(2, 5)));
    root.update(Pattern::new(pattern_hands(0b11, 0), Bounds::new(3, 4)));
    root.update(Pattern::new(pattern_hands(0, 0b100), Bounds::new(6, 6)));

    let specific = Pattern::new(pattern_hands(0b11, 0), Bounds::new(0, 13));
    // Bounds 3..=4 settle beta 3 (at least 3) and beta 5 (below 5).
    let found = root.lookup(&specific, 3).expect("stored pattern found");
    assert_eq!(found.bounds, Bounds::new(3, 4));
    assert!(root.lookup(&specific, 5).is_some());
    // Beta 4 is settled by neither 2..=5 nor 3..=4.
    assert!(root.lookup(&specific, 4).is_none());
    // Hands finer than a stored pattern find it too.
    let finer = Pattern::new(pattern_hands(0b111, 0b1000), Bounds::new(0, 13));
    assert_eq!(root.lookup(&finer, 3).map(|p| p.bounds), Some(Bounds::new(3, 4)));

    let other = Pattern::new(pattern_hands(0, 0b100), Bounds::new(0, 13));
    assert_eq!(root.lookup(&other, 6).map(|p| p.bounds), Some(Bounds::new(6, 6)));
    // Hands that match nothing stored find nothing.
    let unmatched = Pattern::new(pattern_hands(0b1000, 0), Bounds::new(0, 13));
    assert!(root.lookup(&unmatched, 3).is_none());
}

#[test]
fn plays_added_to_a_trick_chain() {
    let mut t = PartialTrick::new();
    t.add(card_of(SPADE, THREE), WEST).add(card_of(SPADE, ACE), NORTH);
    assert_eq!(t.len(), 2);
    assert_eq!(t.leader(), Some(WEST));
}
