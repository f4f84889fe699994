use bridge_solver::analyse_play::parse_card;
use bridge_solver::request::{parse_input, solve_contract, PlayRequest};
use bridge_solver::types::{NORTH, SOUTH, SPADE, WEST};

const DEAL: &str = "N:AKQT3.J6.KJ42.95 652.AK42.AQ87.T4 J74.QT95.T.AK863 98.873.9653.QJ72";

fn request(trump: &str, declarer: &str, leader: &str, deal: &str, plays: &[&str]) -> PlayRequest {
    PlayRequest {
        dealstr: deal.to_string(),
        trump: trump.to_string(),
        declarer: declarer.to_string(),
        leader: leader.to_string(),
        plays: plays.iter().map(|p| p.to_string()).collect(),
    }
}

#[test]
fn a_good_request_reads_field_by_field() {
    let input = parse_input(&request("S", "S", "W", DEAL, &["H8", "H6"])).expect("reads");
    assert_eq!(input.trump, SPADE);
    assert_eq!(input.declarer, SOUTH);
    assert_eq!(input.leader, WEST);
    assert_eq!(input.plays, vec![parse_card("H8").unwrap(), parse_card("H6").unwrap()]);
    assert_eq!(input.hands.hand(NORTH).size(), 13);
}

#[test]
fn a_bad_field_is_named() {
    let err = |r: Result<_, String>| r.err().expect("an error");
    assert_eq!(
        err(parse_input(&request("Q", "S", "W", DEAL, &[]))),
        "unknown trump/strain \"Q\""
    );
    assert_eq!(
        err(parse_input(&request("S", "X", "W", DEAL, &[]))),
        "unknown declarer seat \"X\""
    );
    assert_eq!(
        err(parse_input(&request("S", "S", "", DEAL, &[]))),
        "unknown leader seat \"\""
    );
    assert_eq!(
        err(parse_input(&request("S", "S", "W", "nonsense", &[]))),
        "could not parse deal \"nonsense\""
    );
    assert_eq!(
        err(parse_input(&request("S", "S", "W", DEAL, &["H8", "ZZ", "QQ"]))),
        "unknown card \"ZZ\""
    );
}

#[test]
fn solving_a_contract_from_text() {
    assert_eq!(solve_contract(DEAL, "S", "W"), Ok(10));
    assert_eq!(solve_contract(DEAL, "NT", "E"), Ok(9));
    assert_eq!(
        solve_contract(DEAL, "Q", "W"),
        Err("unknown trump/strain \"Q\"".to_string())
    );
    assert_eq!(
        solve_contract(DEAL, "S", "Z"),
        Err("unknown leader seat \"Z\"".to_string())
    );
    assert_eq!(
        solve_contract("bad", "S", "W"),
        Err("could not parse deal \"bad\"".to_string())
    );
}
