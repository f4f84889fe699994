use std::collections::HashMap;

use bridge_solver::analyse_play::{
    apply_card, candidate_order, node_alternatives, node_key, ns_deal_total_after, optimal_line,
    parse_card, parse_seat, parse_trump, playable_cards, prefix_keys, running_trace, seat_to_play,
    trick_winner, PlayError, PlayInput, Tier1Output,
};
use bridge_solver::bridge_solver::{PartialTrick, Solver};
use bridge_solver::cards::{card_of, name_of, rank_of, Cards};
use bridge_solver::hands::Hands;
use bridge_solver::search::is_equivalent;
use bridge_solver::types::{
    CLUB, DIAMOND, EAST, HEART, NORTH, NOTRUMP, NUM_SEATS, SOUTH, SPADE, WEST,
};

// Spades, South declares, West leads. Seats (N:E:S:W):
//   N AKQT3.J6.KJ42.95   E 652.AK42.AQ87.T4
//   S J74.QT95.T.AK863   W 98.873.9653.QJ72
const DEAL: &str = "N:AKQT3.J6.KJ42.95 652.AK42.AQ87.T4 J74.QT95.T.AK863 98.873.9653.QJ72";

fn input(plays: &[&str]) -> PlayInput {
    PlayInput {
        hands: Hands::from_pbn(DEAL).expect("valid pbn"),
        trump: SPADE,
        declarer: SOUTH,
        leader: WEST,
        plays: plays
            .iter()
            .map(|p| parse_card(p).expect("valid card"))
            .collect(),
    }
}

/// Run the first tier with an empty cache.
fn trace(inp: &PlayInput) -> Result<Tier1Output, PlayError> {
    let keys = prefix_keys(DEAL, inp.trump, inp.leader, &inp.plays);
    running_trace(inp, &keys, &HashMap::new())
}

#[test]
fn parse_card_round_trips() {
    for s in ["HK", "H3", "SA", "ST", "C2", "D9"] {
        assert_eq!(name_of(parse_card(s).unwrap()), s, "round-trip {s}");
    }
    assert_eq!(parse_card("T"), None);
    assert_eq!(parse_card("HXX"), None);
    assert_eq!(parse_card("NK"), None);
    assert_eq!(parse_card("HZ"), None);
}

#[test]
fn parse_trump_and_seat() {
    assert_eq!(parse_trump("nt"), Some(NOTRUMP));
    assert_eq!(parse_trump("N"), Some(NOTRUMP));
    assert_eq!(parse_trump("S"), Some(SPADE));
    assert_eq!(parse_trump("X"), None);
    assert_eq!(parse_seat("W"), Some(WEST));
    assert_eq!(parse_seat("north"), Some(NORTH));
    assert_eq!(parse_seat(""), None);
}

#[test]
fn trick_winner_high_card_and_ruff() {
    let mut pt = PartialTrick::new();
    pt.add(card_of(HEART, 11), WEST); // HK
    pt.add(card_of(HEART, 5), NORTH); // H7
    pt.add(card_of(HEART, 12), EAST); // HA
    pt.add(card_of(HEART, 0), SOUTH); // H2
    assert_eq!(trick_winner(&pt, NOTRUMP), EAST);

    let mut pt = PartialTrick::new();
    pt.add(card_of(HEART, 12), WEST); // HA (lead)
    pt.add(card_of(CLUB, 0), NORTH); // C2 ruff
    pt.add(card_of(HEART, 11), EAST); // HK
    pt.add(card_of(HEART, 10), SOUTH); // HQ
    assert_eq!(trick_winner(&pt, CLUB), NORTH);
}

#[test]
fn is_equivalent_collapses_solid_run_not_broken_one() {
    let hands =
        Hands::from_pbn("N:AKQ5.234.234.234 T98.567.567.567 J76.89T.89T.89T 432.JQK.JQK.JQK")
            .expect("valid pbn");
    let my = hands.hand(NORTH);
    let all = hands.all_cards();
    let mut tried = Cards::new();
    let mut classes = Vec::new();
    for card in my.suit(SPADE).to_vec() {
        classes.push((
            name_of(card),
            is_equivalent(card, tried.suit(SPADE), my, all),
        ));
        tried.add(card);
    }
    assert_eq!(classes[0], ("SA".to_string(), false));
    assert_eq!(classes[1], ("SK".to_string(), true));
    assert_eq!(classes[2], ("SQ".to_string(), true));
    assert_eq!(classes[3], ("S5".to_string(), false));
}

/// A perfect continuation from the very start reaches the contract's
/// double-dummy result.
#[test]
fn optimal_line_from_the_start_matches_the_contract_value() {
    let inp = input(&[]);
    let line = optimal_line(&inp, 0).expect("a line from the opening lead");

    assert_eq!(line.from, 0);
    assert_eq!(line.cards.len(), 52, "a whole deal gets played out");
    assert_eq!(line.seats.len(), line.cards.len());

    let out = trace(&input(&[])).expect("legal trace");
    assert_eq!(line.declaring_tricks, out.contract_tricks);
}

#[test]
fn optimal_line_never_does_worse_than_the_real_play() {
    let played = ["H8", "H6", "HA", "H5"];
    let inp = input(&played);
    let line = optimal_line(&inp, played.len()).expect("a continuation");

    assert_eq!(line.from, 4);
    assert_eq!(line.cards.len(), 52 - played.len());

    let out = trace(&inp).expect("legal trace");
    assert!(
        line.declaring_tricks <= out.contract_tricks + 13,
        "sanity: {} tricks",
        line.declaring_tricks
    );
}

/// Correcting from a costed error recovers exactly what that error gave away.
#[test]
fn correcting_an_error_recovers_its_cost() {
    let inp = input(&["H8"]);
    let out = trace(&inp).expect("legal trace");
    let cost = out.trace[0].cost;

    let corrected = optimal_line(&inp, 0).expect("correcting the lead itself");
    let kept = optimal_line(&inp, 1).expect("keeping the lead, correcting after");

    assert_eq!(
        kept.declaring_tricks - corrected.declaring_tricks,
        cost,
        "cost {cost}: corrected {} vs kept {}",
        corrected.declaring_tricks,
        kept.declaring_tricks
    );
}

#[test]
fn optimal_line_rejects_a_start_past_the_record() {
    let inp = input(&["H8"]);
    assert!(matches!(
        optimal_line(&inp, 2),
        Err(PlayError::NodeOutOfRange { node: 2, plays: 1 })
    ));
    assert!(optimal_line(&inp, 1).is_ok());
}

#[test]
fn contract_tricks_matches_full_solve() {
    let hands = Hands::from_pbn(DEAL).unwrap();
    let ns = Solver::new(hands, SPADE, WEST).solve();
    let out = trace(&input(&["H8"])).expect("legal trace");
    assert_eq!(out.contract_tricks, ns);
}

#[test]
fn running_trace_first_trick() {
    let out = trace(&input(&["H8", "H6", "HA", "H5"])).expect("legal trace");
    assert_eq!(out.trace.len(), 4);
    assert_eq!(
        out.trace
            .iter()
            .map(|t| t.seat.as_str())
            .collect::<Vec<_>>(),
        vec!["W", "N", "E", "S"]
    );
    for t in &out.trace {
        assert!(t.cost <= 13);
    }
}

#[test]
fn node_alternatives_opening_lead() {
    let hands = Hands::from_pbn(DEAL).unwrap();
    let ns = Solver::new(hands, SPADE, WEST).solve();

    let na = node_alternatives(&input(&["H8"]), 0).expect("legal node");
    assert_eq!(na.seat, "W");
    assert_eq!(na.card, "H8");
    let v_node = na.alternatives.iter().map(|a| a.tricks).min().unwrap();
    assert_eq!(v_node, ns, "defender V_node == full solve");
    assert!(
        na.alternatives.iter().any(|a| a.cost == 0),
        "a best card exists"
    );
    assert!(
        na.alternatives.iter().any(|a| a.card == "H8"),
        "played card present"
    );
    let out = trace(&input(&["H8"])).unwrap();
    assert_eq!(out.trace[0].cost, na.cost);
}

/// A legal full playout of `DEAL` (each seat follows suit with its lowest card).
const FULL_TRACE: [&str; 52] = [
    "S8", "S3", "S2", "S4", "S9", "ST", "S5", "S7", "SQ", "S6", "SJ", "H3", "SK", "H2", "H5",
    "H7", "SA", "H4", "H9", "H8", "H6", "HK", "HT", "D3", "HA", "HQ", "D5", "HJ", "D7", "DT",
    "D6", "D2", "C3", "C2", "C5", "C4", "D4", "D8", "C6", "D9", "C7", "C9", "CT", "C8", "DQ",
    "CK", "CJ", "DJ", "DA", "CA", "CQ", "DK",
];

#[test]
fn tier1_and_tier2_agree_at_every_node() {
    let inp = input(&FULL_TRACE);
    let out = trace(&inp).expect("legal trace");
    for (k, entry) in out.trace.iter().enumerate() {
        let na = node_alternatives(&inp, k).expect("legal node");
        assert_eq!(
            entry.cost, na.cost,
            "node {k} ({}{}): tier1 cost {} != tier2 cost {}",
            na.seat, na.card, entry.cost, na.cost
        );
        assert!(
            na.alternatives.iter().any(|a| a.cost == 0),
            "node {k}: no double-dummy-best card"
        );
    }
}

#[test]
fn node_out_of_range() {
    let err = node_alternatives(&input(&["H8"]), 1).unwrap_err();
    assert!(matches!(err, PlayError::NodeOutOfRange { .. }));
}

#[test]
fn rejects_card_not_held() {
    assert!(matches!(
        trace(&input(&["SA"])).unwrap_err(),
        PlayError::NotHeld { .. }
    ));
    assert!(matches!(
        node_alternatives(&input(&["SA"]), 0).unwrap_err(),
        PlayError::NotHeld { .. }
    ));
}

#[test]
fn rejects_revoke() {
    // West leads H8, then North must follow hearts but plays a club.
    assert!(matches!(
        trace(&input(&["H8", "C9"])).unwrap_err(),
        PlayError::Revoke { .. }
    ));
}

#[test]
fn prefix_keys_are_incremental_and_stable() {
    let plays: Vec<usize> = ["H8", "H6"]
        .iter()
        .map(|p| parse_card(p).unwrap())
        .collect();
    let a = prefix_keys(DEAL, SPADE, WEST, &plays);
    assert_eq!(a.len(), 3);

    let shorter = prefix_keys(DEAL, SPADE, WEST, &plays[..1]);
    assert_eq!(&a[..2], &shorter[..]);

    let b = prefix_keys(&format!("  {}  ", DEAL.to_lowercase()), SPADE, WEST, &plays);
    assert_eq!(a, b);

    assert_ne!(a[0], prefix_keys(DEAL, NOTRUMP, WEST, &plays)[0]);
}

#[test]
fn node_key_depends_on_node_and_declarer() {
    let plays: Vec<usize> = ["H8", "H6", "HA"]
        .iter()
        .map(|p| parse_card(p).unwrap())
        .collect();
    let k0 = node_key(DEAL, SPADE, SOUTH, WEST, &plays, 0);
    let k1 = node_key(DEAL, SPADE, SOUTH, WEST, &plays, 1);
    let k0_other_decl = node_key(DEAL, SPADE, NORTH, WEST, &plays, 0);
    assert_ne!(k0, k1);
    assert_ne!(k0, k0_other_decl);
    assert_eq!(k0.len(), 64);
}

fn cards_of(names: &[&str]) -> Cards {
    let mut c = Cards::new();
    for n in names {
        c.add(parse_card(n).expect("valid card"));
    }
    c
}

fn names_of(cards: &[usize]) -> Vec<String> {
    cards.iter().map(|&c| name_of(c)).collect()
}

#[test]
fn following_a_suit_seeks_the_lowest_card_first() {
    let order = candidate_order(
        cards_of(&["HA", "H2", "HQ", "H7"]),
        false,
        EAST,
        WEST,
        None,
        &[None; NUM_SEATS],
    );
    assert_eq!(names_of(&order), ["H2", "H7", "HQ", "HA"]);
}

#[test]
fn discarding_seeks_the_lowest_card_across_every_suit() {
    let order = candidate_order(
        cards_of(&["SA", "H2", "DK", "C3"]),
        false,
        EAST,
        WEST,
        None,
        &[None; NUM_SEATS],
    );
    assert_eq!(names_of(&order), ["H2", "C3", "DK", "SA"]);
}

#[test]
fn leading_without_a_partner_suit_seeks_the_highest_card() {
    let order = candidate_order(
        cards_of(&["S4", "HA", "D9", "CK"]),
        true,
        EAST,
        WEST,
        None,
        &[None; NUM_SEATS],
    );
    assert_eq!(names_of(&order), ["HA", "CK", "D9", "S4"]);
}

#[test]
fn leading_prefers_partners_opening_lead_suit() {
    let order = candidate_order(
        cards_of(&["SA", "D9", "D4", "HK"]),
        true,
        EAST,
        WEST,
        Some(DIAMOND),
        &[None; NUM_SEATS],
    );
    assert_eq!(names_of(&order), ["D9", "D4", "SA", "HK"]);
}

#[test]
fn the_opening_lead_outranks_a_later_one() {
    let mut last = [None; NUM_SEATS];
    last[WEST] = Some(CLUB);
    let order = candidate_order(
        cards_of(&["SA", "D4", "CK", "H2"]),
        true,
        EAST,
        WEST,
        Some(DIAMOND),
        &last,
    );
    assert_eq!(names_of(&order), ["D4", "CK", "SA", "H2"]);
}

#[test]
fn a_partner_who_never_led_gives_no_preference() {
    let order = candidate_order(
        cards_of(&["S4", "HA", "CK"]),
        true,
        EAST,
        WEST,
        None,
        &[None; NUM_SEATS],
    );
    assert_eq!(names_of(&order), ["HA", "CK", "S4"]);
}

#[test]
fn the_seek_order_leaves_the_value_alone() {
    let inp = input(&[]);
    let line = optimal_line(&inp, 0).expect("a line from the opening lead");
    let expected = trace(&inp).expect("a trace").contract_tricks;
    assert_eq!(
        line.declaring_tricks, expected,
        "the generated line must still be worth the double-dummy value"
    );
}

fn trump_of(inp: &PlayInput) -> usize {
    inp.trump
}

#[test]
fn a_generated_line_follows_suit_with_its_cheapest_card() {
    let inp = input(&[]);
    let line = optimal_line(&inp, 0).expect("a line from the opening lead");

    let mut hands = inp.hands;
    let mut partial = PartialTrick::new();
    let mut leader = inp.leader;
    let mut ns_won = 0u8;

    for name in &line.cards {
        let card = parse_card(name).expect("the line emits real cards");
        let seat = seat_to_play(&partial, leader);
        let following = !partial.is_empty();
        let legal = playable_cards(&hands, seat, partial.lead_suit());

        if following && legal.size() > 1 {
            let lowest = legal
                .to_vec()
                .into_iter()
                .min_by_key(|&c| rank_of(c))
                .expect("non-empty");
            if rank_of(card) != rank_of(lowest) {
                let ns =
                    ns_deal_total_after(&hands, &partial, seat, lowest, trump_of(&inp), ns_won);
                let chosen =
                    ns_deal_total_after(&hands, &partial, seat, card, trump_of(&inp), ns_won);
                assert_ne!(
                    ns,
                    chosen,
                    "played {name} over the cheaper {} for no gain",
                    name_of(lowest)
                );
            }
        }

        apply_card(
            &mut hands,
            &mut partial,
            &mut leader,
            &mut ns_won,
            seat,
            card,
            trump_of(&inp),
        );
    }
}

#[test]
fn play_errors_read_as_sentences() {
    let revoke = trace(&input(&["H8", "C9"])).unwrap_err();
    assert_eq!(revoke.message(), "play 1 (C9): revoke \u{2014} N must follow H");
    let not_held = trace(&input(&["SA"])).unwrap_err();
    assert_eq!(not_held.message(), "play 0 (SA): W does not hold that card");
    let range = node_alternatives(&input(&["H8"]), 1).unwrap_err();
    assert_eq!(range.message(), "node 1 out of range (trace has 1 plays)");
}

#[test]
fn prefix_keys_follow_the_play_and_the_strain() {
    let plays: Vec<usize> = ["H8", "H6", "HA"]
        .iter()
        .map(|p| parse_card(p).unwrap())
        .collect();
    let keys = prefix_keys(DEAL, SPADE, WEST, &plays);
    assert_eq!(keys.len(), 4);
    for k in &keys {
        assert_eq!(k.len(), 64);
        assert!(k.chars().all(|c| c.is_ascii_hexdigit() && !c.is_ascii_uppercase()));
    }
    // Every key differs from the one before: the digest is not handed back
    // unchanged and the play is part of the key.
    for w in keys.windows(2) {
        assert_ne!(w[0], w[1]);
    }
    assert_ne!(keys[0], prefix_keys(DEAL, SPADE, NORTH, &plays)[0]);
}

#[test]
fn a_forced_card_costs_nothing() {
    // West leads a diamond; South's ten is a singleton, so its follow is forced.
    let inp = input(&["D3", "D2", "D7", "DT"]);
    let out = trace(&inp).expect("legal trace");
    assert_eq!(out.trace[3].seat, "S");
    assert_eq!(out.trace[3].cost, 0);
    let na = node_alternatives(&inp, 3).expect("legal node");
    assert_eq!(na.alternatives.len(), 1);
    assert_eq!(na.cost, 0);
}

#[test]
fn a_cached_value_is_used_and_not_returned_again() {
    let inp = input(&["H8"]);
    let keys = prefix_keys(DEAL, inp.trump, inp.leader, &inp.plays);
    let mut cache = HashMap::new();
    cache.insert(keys[0].clone(), 3u8);
    let out = running_trace(&inp, &keys, &cache).expect("legal trace");
    // South declares, so North-South's cached 3 is the declaring side's.
    assert_eq!(out.contract_tricks, 3);
    assert_eq!(out.new_entries.len(), 1);
    assert_eq!(out.new_entries[0].0, keys[1]);
}
