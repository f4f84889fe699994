use bridge_solver::lin_input::{
    build_auction, contract_info, lin_from_url, parse_lin_call, percent_decode, resolve_contract,
    seat_names, Call,
};
use bridge_solver::par::{Direction, Strain};
use bridge_solver::pbn::extract_tag_name;

#[test]
fn test_extract_tag_name() {
    assert_eq!(
        extract_tag_name("[Event \"Test\"]").as_deref(),
        Some("Event")
    );
    assert_eq!(
        extract_tag_name("[OptimumResultTable \"...\"]").as_deref(),
        Some("OptimumResultTable")
    );
    assert_eq!(extract_tag_name("[Deal \"N:...\"]").as_deref(), Some("Deal"));
    assert_eq!(extract_tag_name("N NT 3"), None);
}

#[test]
fn a_tag_name_ends_at_the_bracket_and_needs_an_end() {
    assert_eq!(extract_tag_name("  [Board]  ").as_deref(), Some("Board"));
    assert_eq!(extract_tag_name("[Unfinished"), None);
    assert_eq!(extract_tag_name(""), None);
}

#[test]
fn accepts_pbn_style_x_and_xx_spellings() {
    let bbo = parse_lin_call("d").expect("d is a double");
    let pbn = parse_lin_call("X").expect("X is a double");
    assert_eq!(bbo.to_pbn(), pbn.to_pbn());

    assert_eq!(
        parse_lin_call("r").map(|c| c.to_pbn()).as_deref(),
        Some("XX")
    );
    assert_eq!(
        parse_lin_call("XX").map(|c| c.to_pbn()).as_deref(),
        Some("XX")
    );
    assert_eq!(
        parse_lin_call("p").map(|c| c.to_pbn()).as_deref(),
        Some("Pass")
    );
    assert_eq!(
        parse_lin_call("1N").map(|c| c.to_pbn()).as_deref(),
        Some("1N")
    );
    assert_eq!(
        parse_lin_call("3C!").map(|c| c.to_pbn()).as_deref(),
        Some("3C")
    );
    assert!(parse_lin_call("nonsense").is_none());
}

#[test]
fn stops_the_lin_parameter_at_the_next_one() {
    let url = "handviewer.html?lin=pn%7CS%2CW%2CN%2CE%7C&c=9";
    assert_eq!(lin_from_url(url).as_deref(), Some("pn|S,W,N,E|"));
}

#[test]
fn does_not_mistake_another_parameter_for_lin() {
    assert_eq!(lin_from_url("https://example.com/?sourcelin=abc"), None);
    assert_eq!(lin_from_url("pn|S,W,N,E|md|1SAKHJD876C5432,,,|"), None);
}

#[test]
fn decodes_plus_as_space_in_a_url() {
    let url = "?lin=pn%7CS%2CW%2CN%2CE%7Cah%7CBoard+46%7C";
    assert_eq!(
        lin_from_url(url).as_deref(),
        Some("pn|S,W,N,E|ah|Board 46|")
    );
    assert_eq!(lin_from_url("lin=ab%7Ccd").as_deref(), Some("ab|cd"));
}

#[test]
fn passes_invalid_escapes_through() {
    assert_eq!(percent_decode("100%25"), "100%");
    assert_eq!(percent_decode("bad%zz"), "bad%zz");
    assert_eq!(percent_decode("trailing%"), "trailing%");
    assert_eq!(percent_decode("short%2"), "short%2");
}

fn calls(tokens: &[&str]) -> Vec<Call> {
    tokens
        .iter()
        .map(|t| parse_lin_call(t).expect("a call"))
        .collect()
}

#[test]
fn the_first_of_the_side_to_name_the_strain_declares() {
    // Dealer South: N opens 1S after a pass... here South deals and North is third.
    // S p, W p, N 1S, E p, S 4S, W p, N p, E p: North named spades first.
    let c = resolve_contract(
        Direction::South,
        &calls(&["p", "p", "1S", "p", "4S", "p", "p", "p"]),
    )
    .expect("a contract");
    assert_eq!(c.level, 4);
    assert_eq!(c.strain, Strain::Spades);
    assert_eq!(c.declarer, Direction::North);
    assert!(!c.doubled && !c.redoubled);
    let info = contract_info(&c);
    assert_eq!(info.description, "4S");
    assert_eq!(info.declarer, "N");
    assert_eq!(info.strain, "S");
}

#[test]
fn a_later_bid_clears_a_standing_double_and_a_final_one_stays() {
    // Dealer South: 1D X XX 1S 2N p p p.
    let c = resolve_contract(
        Direction::South,
        &calls(&["1D", "d", "r", "1S", "2N", "p", "p", "p"]),
    )
    .expect("a contract");
    assert_eq!(contract_info(&c).description, "2N");
    assert_eq!(c.declarer, Direction::South);

    // Dealer East: 1C X 3C 3H 5C X p p p -- 5C doubled, East named clubs first.
    let c = resolve_contract(
        Direction::East,
        &calls(&["1C", "d", "3C", "3H", "5C", "d", "p", "p", "p"]),
    )
    .expect("a contract");
    let info = contract_info(&c);
    assert_eq!(info.description, "5CX");
    assert!(info.doubled);
    assert_eq!(info.declarer, "E");

    // Redoubled.
    let c = resolve_contract(Direction::North, &calls(&["1H", "X", "XX", "p", "p", "p"]))
        .expect("a contract");
    assert_eq!(contract_info(&c).description, "1HXX");
}

#[test]
fn a_passed_out_auction_has_no_contract() {
    assert!(resolve_contract(Direction::South, &calls(&["p", "p", "p", "p"])).is_none());
    assert!(resolve_contract(Direction::South, &[]).is_none());
}

#[test]
fn names_are_reordered_from_lin_order() {
    let names = seat_names(&[
        "s".to_string(),
        "w".to_string(),
        "n".to_string(),
        "e".to_string(),
    ]);
    assert_eq!(names.north, "n");
    assert_eq!(names.east, "e");
    assert_eq!(names.south, "s");
    assert_eq!(names.west, "w");
}

#[test]
fn an_auction_is_built_from_its_tokens_in_order() {
    let bids: Vec<String> = ["1S", "p", "4s!", "d", "P", "p", "p"]
        .iter()
        .map(|b| b.to_string())
        .collect();
    let calls = build_auction(&bids).expect("every token is a call");
    assert_eq!(
        calls,
        vec![
            Call::Bid { level: 1, strain: Strain::Spades },
            Call::Pass,
            Call::Bid { level: 4, strain: Strain::Spades },
            Call::Double,
            Call::Pass,
            Call::Pass,
            Call::Pass,
        ]
    );
}

#[test]
fn an_auction_with_a_stray_token_names_it() {
    let bids: Vec<String> = ["1N", "8C", "zz"].iter().map(|b| b.to_string()).collect();
    assert_eq!(
        build_auction(&bids),
        Err("unrecognised call \"8C\" in the auction".to_string())
    );
}
