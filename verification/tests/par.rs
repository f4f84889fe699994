use bridge_solver::hands::Hands;
use bridge_solver::par::{
    par, score_to_side, DdTable, Direction, ParContract, ParDeclarer, ParResult, Side, Strain,
    TableSolver,
};

/// (vul_ns, vul_ew) for a PBN Vulnerable value.
fn vul(v: &str) -> (bool, bool) {
    match v.to_uppercase().as_str() {
        "NS" | "N-S" => (true, false),
        "EW" | "E-W" => (false, true),
        "ALL" | "BOTH" => (true, true),
        _ => (false, false),
    }
}

/// Boards Bridge Composer has scored, with what it wrote:
/// `(deal, vulnerable, its OptimumScore, its ParContract)`.
fn oracle() -> [(&'static str, &'static str, &'static str, &'static str); 14] {
    [
        (
            "N:AQT94.T53.KQ8.T9 63.J98.J53.K8654 K72.6.AT9762.AJ7 J85.AKQ742.4.Q32",
            "None",
            "NS 980",
            "NS 6S=",
        ),
        (
            "E:7.AKJ6543.3.AK93 642.8.KQT9.T8752 AKQJ5.Q97.52.QJ6 T983.T2.AJ8764.4",
            "NS",
            "EW 980",
            "EW 6H=; EW 6S=",
        ),
        (
            "S:AJ83.7.T9653.A62 Q4.QJT984.4.T853 T762.K3.KQ2.KQJ4 K95.A652.AJ87.97",
            "EW",
            "NS -100",
            "NS 4SX-1",
        ),
        (
            "W:87.9.T9642.AK942 AQJ53.QJ873.QJ5. 94.A652.K83.QJ75 KT62.KT4.A7.T863",
            "All",
            "NS 650",
            "NS 4S+1",
        ),
        (
            "N:932.962.A.AJ8643 AJ87.QJ43.Q9.KT2 KQ5.8.JT6543.Q97 T64.AKT75.K872.5",
            "NS",
            "EW 140",
            "EW 3H=",
        ),
        (
            "E:QT7.Q8.QJT84.K83 986543.5.K5.AT94 K.AKJ9743.7.Q765 AJ2.T62.A9632.J2",
            "EW",
            "NS 140",
            "NS 3S=",
        ),
        (
            "S:AT.A5.AJ842.J984 Q7654.QJ9874.95. 2.K32.QT763.KT75 KJ983.T6.K.AQ632",
            "All",
            "EW -500",
            "EW 5SX-2",
        ),
        (
            "W:QJ76.KJ9.AT92.Q8 A843.A2.QJ75.T52 K5.T873.K863.AKJ T92.Q654.4.97643",
            "None",
            "EW 430",
            "EW 3N+1",
        ),
        (
            "N:K643.J65.T5.Q654 AJ72.83.AJ6.AK93 QT98.QT9.Q987.T2 5.AK742.K432.J87",
            "EW",
            "EW 660",
            "E 3N+2",
        ),
        (
            "E:Q85.AJ62.AJ984.K 93.9.Q7653.J8752 AKT742.8.K2.QT43 J6.KQT7543.T.A96",
            "All",
            "EW 1430",
            "EW 6S=",
        ),
        (
            "S:J8.KT93.QJ95.T96 K63.AJ86.A43.A74 AT7542.72.762.K3 Q9.Q54.KT8.QJ852",
            "None",
            "EW 400",
            "EW 3N=",
        ),
        (
            "W:QJ832.Q76.QT63.9 T74.82.AK982.QJ2 A96.KJT43.4.AKT5 K5.A95.J75.87643",
            "NS",
            "EW 420",
            "EW 4H=",
        ),
        (
            "W:AQ86.86.AQT943.6 T54.QJ2.J82.KQ42 3.AKT9.K5.JT8753 KJ972.7543.76.A9",
            "EW",
            "EW 1370",
            "EW 6D=",
        ),
        (
            "E:KQJT.KQ6.94.KJ54 A64.7.AKJ6532.T6 752.JT84.Q7.A932 983.A9532.T8.Q87",
            "None",
            "EW -300",
            "EW 4CX-2; EW 4HX-2",
        ),
    ]
}

fn table_of(deal: &str) -> DdTable {
    let hands = Hands::from_pbn(deal).expect("deal parses");
    TableSolver::new().solve(&hands)
}

/// Par computed from our own solve reproduces Bridge Composer's
/// `OptimumScore` on real tournament boards.
#[test]
fn par_matches_bridge_composer_optimum_score() {
    for (deal_str, v, expected, their_contract) in oracle() {
        let (vn, ve) = vul(v);
        let result = par(&table_of(deal_str), vn, ve);
        assert_eq!(
            result.optimum_score(),
            expected,
            "deal {deal_str} (their par {their_contract}); computed contract {:?}",
            result.par_contract(),
        );
    }
}

/// The contracts themselves, against the same oracle.
#[test]
fn par_contract_matches_bridge_composer() {
    for (deal_str, v, _expected, their_contract) in oracle() {
        let (vn, ve) = vul(v);
        let result = par(&table_of(deal_str), vn, ve);
        assert_eq!(
            result.par_contract().as_deref(),
            Some(their_contract),
            "deal {deal_str}"
        );
    }
}

fn flat_table(tricks: u8) -> DdTable {
    let mut dd = DdTable::new();
    for d in [Direction::North, Direction::East, Direction::South, Direction::West] {
        for i in 0..5 {
            dd.set(d, Strain::at(i), tricks);
        }
    }
    dd
}

#[test]
fn passed_out_is_par_zero() {
    // Nobody can take 7 tricks anywhere.
    let dd = flat_table(6);
    let r = par(&dd, false, false);
    assert_eq!(r.optimum_score(), "0");
    assert!(r.contracts.is_empty());
    assert_eq!(r.par_contract(), None);
}

#[test]
fn duplicate_scores_of_made_and_sacrificed_contracts() {
    // 4S made exactly, not vulnerable and vulnerable.
    assert_eq!(score_to_side(4, Strain::Spades, 10, false), 420);
    assert_eq!(score_to_side(4, Strain::Spades, 10, true), 620);
    // 3NT with an overtrick.
    assert_eq!(score_to_side(3, Strain::NoTrump, 10, false), 430);
    // A part score in a minor with two overtricks.
    assert_eq!(score_to_side(2, Strain::Clubs, 10, false), 130);
    // Slams.
    assert_eq!(score_to_side(6, Strain::Hearts, 12, true), 1430);
    assert_eq!(score_to_side(7, Strain::NoTrump, 13, false), 1520);
    // Doubled undertricks.
    assert_eq!(score_to_side(4, Strain::Spades, 9, false), -100);
    assert_eq!(score_to_side(5, Strain::Spades, 9, true), -500);
    assert_eq!(score_to_side(4, Strain::Clubs, 8, false), -300);
    assert_eq!(score_to_side(7, Strain::Clubs, 6, false), -1700);
    assert_eq!(score_to_side(7, Strain::Clubs, 6, true), -2000);
}

#[test]
fn one_side_bids_alone_to_its_game() {
    // North-South take ten tricks in spades and nothing else makes.
    let mut dd = flat_table(6);
    dd.set(Direction::North, Strain::Spades, 10);
    dd.set(Direction::South, Strain::Spades, 9);
    let r = par(&dd, false, false);
    assert_eq!(r.score_ns, 420);
    assert_eq!(r.optimum_score(), "NS 420");
    assert_eq!(r.par_contract().as_deref(), Some("N 4S="));
    assert_eq!(r.contracts.len(), 1);
    assert_eq!(r.contracts[0].declarer, ParDeclarer::Seat(Direction::North));
}

#[test]
fn describing_contracts() {
    let c = ParContract {
        side: Side::EW,
        level: 4,
        strain: Strain::Spades,
        tricks: 9,
        declarer: ParDeclarer::Both(Side::EW),
    };
    assert_eq!(c.relative(), -1);
    assert!(c.is_sacrifice());
    assert_eq!(c.describe(), "EW 4SX-1");
    let m = ParContract {
        side: Side::NS,
        level: 3,
        strain: Strain::NoTrump,
        tricks: 11,
        declarer: ParDeclarer::Seat(Direction::South),
    };
    assert_eq!(m.describe(), "S 3N+2");
    let r = ParResult { score_ns: 100, contracts: vec![c] };
    assert_eq!(r.optimum_score(), "EW -100");
}

#[test]
fn tables_encode_seat_by_seat_from_notrump_down() {
    let mut dd = DdTable::new();
    for (d, base) in [
        (Direction::North, 0u8),
        (Direction::East, 1),
        (Direction::South, 2),
        (Direction::West, 3),
    ] {
        for i in 0..5 {
            dd.set(d, Strain::at(i), base + 2 * i as u8);
        }
    }
    // Rows N, S, E, W; columns NT, S, H, D, C.
    assert_eq!(bridge_solver::par::encode_ddtricks(&dd), "86420a864297531b9753");
    dd.set(Direction::West, Strain::Clubs, 20);
    assert_eq!(bridge_solver::par::encode_ddtricks(&dd), "86420a864297531b975?");
}
