//! Par from a double-dummy table.
//!
//! Given each seat's double-dummy tricks in each strain and each side's
//! vulnerability, par is the score that competitive bidding with both
//! sides free to bid comes to rest at. It is found by letting the sides
//! outbid each other: at each turn the cheapest contract above the current
//! one that improves the bidding side's score is bid, until no such bid
//! exists. Making contracts are scored undoubled; a contract that fails is
//! a sacrifice and is scored doubled.
//!
//! The score is labelled by the par contract's declaring side and signed
//! to that side, so a sacrifice reads negative (`"NS -100"`). Every
//! contract tied at par is listed, cheapest first, and a contract is named
//! for a single seat when only that partner takes the tricks.

use vstd::prelude::*;
use crate::bridge_solver::Solver;
use crate::hands::Hands;
use crate::pattern::PatternCache;
use crate::search::{CutoffCache, valid_hands, max_size};
use crate::cards::popcount;
use crate::text::{push_decimal, spec_decimal, string_of, push_all, join};
use crate::types::{CLUB, DIAMOND, HEART, SPADE, NOTRUMP, NORTH, EAST, SOUTH, WEST};

verus! {

/// A strain, in bidding order.
#[derive(Clone, Copy, Debug, PartialEq, Eq, Structural)]
pub enum Strain {
    Clubs,
    Diamonds,
    Hearts,
    Spades,
    NoTrump,
}

/// The place of a strain in bidding order, from 0 for clubs.
pub open spec fn spec_strain_index(s: Strain) -> int {
    match s {
        Strain::Clubs => 0,
        Strain::Diamonds => 1,
        Strain::Hearts => 2,
        Strain::Spades => 3,
        Strain::NoTrump => 4,
    }
}

/// The strain at a place in bidding order.
pub open spec fn spec_strain_at(i: int) -> Strain {
    if i == 0 {
        Strain::Clubs
    } else if i == 1 {
        Strain::Diamonds
    } else if i == 2 {
        Strain::Hearts
    } else if i == 3 {
        Strain::Spades
    } else {
        Strain::NoTrump
    }
}

/// The letter a strain is written with; `N` for notrump.
pub open spec fn spec_strain_char(s: Strain) -> char {
    match s {
        Strain::Clubs => 'C',
        Strain::Diamonds => 'D',
        Strain::Hearts => 'H',
        Strain::Spades => 'S',
        Strain::NoTrump => 'N',
    }
}

/// The suit index the search uses for a strain: clubs to spades are the
/// suits `CLUB` to `SPADE`, no trumps is `NOTRUMP`.
pub open spec fn spec_strain_trump(s: Strain) -> usize {
    match s {
        Strain::Clubs => CLUB,
        Strain::Diamonds => DIAMOND,
        Strain::Hearts => HEART,
        Strain::Spades => SPADE,
        Strain::NoTrump => NOTRUMP,
    }
}

impl Strain {
    /// The place of the strain in bidding order.
    pub fn index(self) -> (r: usize)
        ensures
            r == spec_strain_index(self),
    {
        match self {
            Strain::Clubs => 0,
            Strain::Diamonds => 1,
            Strain::Hearts => 2,
            Strain::Spades => 3,
            Strain::NoTrump => 4,
        }
    }

    /// The strain at place `i` of bidding order.
    pub fn at(i: usize) -> (r: Strain)
        requires
            i < 5,
        ensures
            r == spec_strain_at(i as int),
            spec_strain_index(r) == i,
    {
        if i == 0 {
            Strain::Clubs
        } else if i == 1 {
            Strain::Diamonds
        } else if i == 2 {
            Strain::Hearts
        } else if i == 3 {
            Strain::Spades
        } else {
            Strain::NoTrump
        }
    }

    /// The letter of the strain: `C`, `D`, `H`, `S` or `N`.
    pub fn to_char(self) -> (r: char)
        ensures
            r == spec_strain_char(self),
    {
        match self {
            Strain::Clubs => 'C',
            Strain::Diamonds => 'D',
            Strain::Hearts => 'H',
            Strain::Spades => 'S',
            Strain::NoTrump => 'N',
        }
    }

    /// The trump suit the search plays the strain with.
    pub fn trump(self) -> (r: usize)
        ensures
            r == spec_strain_trump(self),
            r <= NOTRUMP,
    {
        match self {
            Strain::Clubs => CLUB,
            Strain::Diamonds => DIAMOND,
            Strain::Hearts => HEART,
            Strain::Spades => SPADE,
            Strain::NoTrump => NOTRUMP,
        }
    }
}

/// A seat at the table, by compass point.
#[derive(Clone, Copy, Debug, PartialEq, Eq, Structural)]
pub enum Direction {
    North,
    East,
    South,
    West,
}

/// The place of a direction in the table: North, East, South, West.
pub open spec fn spec_dir_index(d: Direction) -> int {
    match d {
        Direction::North => 0,
        Direction::East => 1,
        Direction::South => 2,
        Direction::West => 3,
    }
}

/// The direction sitting opposite.
pub open spec fn spec_partner_dir(d: Direction) -> Direction {
    match d {
        Direction::North => Direction::South,
        Direction::East => Direction::West,
        Direction::South => Direction::North,
        Direction::West => Direction::East,
    }
}

/// The seat index of a direction: North, East, South and West are the
/// search's `NORTH`, `EAST`, `SOUTH` and `WEST`.
pub open spec fn spec_dir_seat(d: Direction) -> usize {
    match d {
        Direction::North => NORTH,
        Direction::East => EAST,
        Direction::South => SOUTH,
        Direction::West => WEST,
    }
}

/// The letter of a direction.
pub open spec fn spec_dir_char(d: Direction) -> char {
    match d {
        Direction::North => 'N',
        Direction::East => 'E',
        Direction::South => 'S',
        Direction::West => 'W',
    }
}

impl Direction {
    /// The place of the direction in the table.
    pub fn index(self) -> (r: usize)
        ensures
            r == spec_dir_index(self),
    {
        match self {
            Direction::North => 0,
            Direction::East => 1,
            Direction::South => 2,
            Direction::West => 3,
        }
    }

    /// The partner's direction.
    pub fn partner(self) -> (r: Direction)
        ensures
            r == spec_partner_dir(self),
    {
        match self {
            Direction::North => Direction::South,
            Direction::East => Direction::West,
            Direction::South => Direction::North,
            Direction::West => Direction::East,
        }
    }

    /// The letter of the direction: `N`, `E`, `S` or `W`.
    pub fn to_char(self) -> (r: char)
        ensures
            r == spec_dir_char(self),
    {
        match self {
            Direction::North => 'N',
            Direction::East => 'E',
            Direction::South => 'S',
            Direction::West => 'W',
        }
    }

    /// The seat the search knows the direction by.
    pub fn seat(self) -> (r: usize)
        ensures
            r < 4,
            (r == NORTH || r == SOUTH) <==> (self == Direction::North || self == Direction::South),
            r == spec_dir_seat(self),
    {
        match self {
            Direction::North => NORTH,
            Direction::East => EAST,
            Direction::South => SOUTH,
            Direction::West => WEST,
        }
    }
}

/// Double-dummy tricks for each direction as declarer in each strain.
#[derive(Clone, Copy, Debug)]
pub struct DdTable {
    cells: [u8; 20],
}

impl DdTable {
    /// The tricks `d` takes as declarer in `s`.
    pub closed spec fn spec_tricks(&self, d: Direction, s: Strain) -> u8 {
        self.cells@[spec_dir_index(d) * 5 + spec_strain_index(s)]
    }

    /// A table of zeros.
    pub fn new() -> (r: DdTable)
        ensures
            forall|d: Direction, s: Strain| #[trigger] r.spec_tricks(d, s) == 0,
    {
        DdTable { cells: [0u8; 20] }
    }

    /// Set the tricks `d` takes as declarer in `s`.
    pub fn set(&mut self, d: Direction, s: Strain, tricks: u8)
        ensures
            final(self).spec_tricks(d, s) == tricks,
            forall|d2: Direction, s2: Strain| (d2 != d || s2 != s) ==> #[trigger] final(self).spec_tricks(d2, s2)
                == old(self).spec_tricks(d2, s2),
    {
        let i = d.index() * 5 + s.index();
        self.cells[i] = tricks;
    }

    /// The tricks `d` takes as declarer in `s`.
    pub fn tricks(&self, d: Direction, s: Strain) -> (r: u8)
        ensures
            r == self.spec_tricks(d, s),
    {
        self.cells[d.index() * 5 + s.index()]
    }

    /// The better of `d`'s and its partner's tricks in `s`.
    pub fn best_for_side(&self, d: Direction, s: Strain) -> (r: u8)
        ensures
            r == spec_max(self.spec_tricks(d, s), self.spec_tricks(spec_partner_dir(d), s)),
    {
        let a = self.tricks(d, s);
        let b = self.tricks(d.partner(), s);
        if a >= b {
            a
        } else {
            b
        }
    }
}

/// The larger of two counts.
pub open spec fn spec_max(a: u8, b: u8) -> u8 {
    if a >= b {
        a
    } else {
        b
    }
}

/// A declaring partnership.
#[derive(Clone, Copy, Debug, PartialEq, Eq, Structural)]
pub enum Side {
    NS,
    EW,
}

/// The two seats of a side, North or East first.
pub open spec fn spec_side_seats(side: Side) -> (Direction, Direction) {
    match side {
        Side::NS => (Direction::North, Direction::South),
        Side::EW => (Direction::East, Direction::West),
    }
}

/// The label of a side.
pub open spec fn spec_side_label(side: Side) -> Seq<char> {
    match side {
        Side::NS => seq!['N', 'S'],
        Side::EW => seq!['E', 'W'],
    }
}

impl Side {
    /// The two seats of the side.
    pub fn seats(self) -> (r: (Direction, Direction))
        ensures
            r == spec_side_seats(self),
    {
        match self {
            Side::NS => (Direction::North, Direction::South),
            Side::EW => (Direction::East, Direction::West),
        }
    }

    /// `"NS"` or `"EW"`.
    pub fn label(self) -> (r: String)
        ensures
            r@ == spec_side_label(self),
    {
        let mut v: Vec<char> = Vec::new();
        match self {
            Side::NS => {
                v.push('N');
                v.push('S');
            },
            Side::EW => {
                v.push('E');
                v.push('W');
            },
        }
        proof {
            assert(v@ =~= spec_side_label(self));
        }
        string_of(&v)
    }
}

/// Who a par contract is named for: one seat, or a whole side.
#[derive(Clone, Copy, Debug, PartialEq, Eq, Structural)]
pub enum ParDeclarer {
    /// Only this seat takes the tricks; its partner takes fewer.
    Seat(Direction),
    /// Both partners take them, so either may declare.
    Both(Side),
}

/// The label of a par declarer: a seat's letter or a side's pair.
pub open spec fn spec_declarer_label(d: ParDeclarer) -> Seq<char> {
    match d {
        ParDeclarer::Seat(seat) => seq![spec_dir_char(seat)],
        ParDeclarer::Both(side) => spec_side_label(side),
    }
}

/// The side a par declarer belongs to.
pub open spec fn spec_declarer_side(d: ParDeclarer) -> Side {
    match d {
        ParDeclarer::Seat(Direction::North) => Side::NS,
        ParDeclarer::Seat(Direction::South) => Side::NS,
        ParDeclarer::Seat(_) => Side::EW,
        ParDeclarer::Both(side) => side,
    }
}

impl ParDeclarer {
    /// The seat or side as a par contract writes it: `"N"` or `"NS"`.
    pub fn label(self) -> (r: String)
        ensures
            r@ == spec_declarer_label(self),
    {
        match self {
            ParDeclarer::Seat(seat) => {
                let mut v: Vec<char> = Vec::new();
                v.push(seat.to_char());
                proof {
                    assert(v@ =~= spec_declarer_label(self));
                }
                string_of(&v)
            },
            ParDeclarer::Both(side) => side.label(),
        }
    }

    /// The declaring side, whichever form this takes.
    pub fn side(self) -> (r: Side)
        ensures
            r == spec_declarer_side(self),
    {
        match self {
            ParDeclarer::Seat(Direction::North) => Side::NS,
            ParDeclarer::Seat(Direction::South) => Side::NS,
            ParDeclarer::Seat(_) => Side::EW,
            ParDeclarer::Both(side) => side,
        }
    }
}

/// A par contract.
#[derive(Clone, Copy, Debug, PartialEq, Eq, Structural)]
pub struct ParContract {
    pub side: Side,
    pub level: u8,
    pub strain: Strain,
    /// The side's double-dummy tricks in the strain; fewer than the
    /// contract needs for a sacrifice.
    pub tricks: u8,
    /// The seat or side the contract is named for.
    pub declarer: ParDeclarer,
}

/// Tricks over or under the contract.
pub open spec fn spec_relative(c: ParContract) -> int {
    c.tricks - (c.level + 6)
}

/// A signed number as `Display` writes it.
pub open spec fn spec_signed(n: int) -> Seq<char> {
    if n < 0 {
        seq!['-'] + spec_decimal((-n) as nat)
    } else {
        spec_decimal(n as nat)
    }
}

/// A contract as it is written: declarer, level, strain, `X` for a
/// sacrifice, then `=`, `+n` or `-n` (`"NS 6S="`, `"EW 4SX-1"`, `"N 3N="`).
pub open spec fn spec_describe(c: ParContract) -> Seq<char> {
    let rel = spec_relative(c);
    spec_declarer_label(c.declarer) + seq![' '] + spec_decimal(c.level as nat) + seq![
        spec_strain_char(c.strain),
    ] + (if rel < 0 {
        seq!['X']
    } else {
        Seq::empty()
    }) + (if rel == 0 {
        seq!['=']
    } else if rel > 0 {
        seq!['+'] + spec_decimal(rel as nat)
    } else {
        spec_signed(rel)
    })
}

/// Append a signed number to `out`.
fn push_signed(out: &mut Vec<char>, n: i32)
    ensures
        final(out)@ == old(out)@ + spec_signed(n as int),
{
    if n < 0 {
        out.push('-');
        let m: i64 = -(n as i64);
        push_decimal(out, m as usize);
        proof {
            assert(final(out)@ =~= old(out)@ + spec_signed(n as int));
        }
    } else {
        push_decimal(out, n as usize);
    }
}

impl ParContract {
    /// Tricks over (positive) or under (negative) the contract.
    pub fn relative(&self) -> (r: i32)
        ensures
            r == spec_relative(*self),
    {
        self.tricks as i32 - (self.level as i32 + 6)
    }

    /// Whether the contract fails: a sacrifice, doubled by the opponents.
    pub fn is_sacrifice(&self) -> (r: bool)
        ensures
            r == (spec_relative(*self) < 0),
    {
        self.relative() < 0
    }

    /// The contract as written, e.g. `"NS 6S="`, `"EW 4SX-1"`, `"N 3N="`.
    pub fn describe(&self) -> (r: String)
        ensures
            r@ == spec_describe(*self),
    {
        let rel = self.relative();
        let label = self.declarer.label();
        let mut v: Vec<char> = crate::text::chars_of(label.as_str());
        v.push(' ');
        push_decimal(&mut v, self.level as usize);
        v.push(self.strain.to_char());
        if rel < 0 {
            v.push('X');
        }
        if rel == 0 {
            v.push('=');
        } else if rel > 0 {
            v.push('+');
            push_decimal(&mut v, rel as usize);
        } else {
            push_signed(&mut v, rel);
        }
        proof {
            assert(v@ =~= spec_describe(*self));
        }
        string_of(&v)
    }
}

/// The result of a par calculation.
#[derive(Clone, Debug)]
pub struct ParResult {
    /// Par from North-South's side: positive when North-South gain.
    pub score_ns: i32,
    /// Every contract tied at par, cheapest first, one per strain at the
    /// lowest level in it that reaches par. Empty when the deal is passed out.
    pub contracts: Vec<ParContract>,
}

/// The par score as written: `"0"` for a passed-out deal, else the
/// declaring side and the score signed to it (`"NS 980"`, `"EW -500"`).
pub open spec fn spec_optimum_score(score_ns: i32, contracts: Seq<ParContract>) -> Seq<char> {
    if contracts.len() == 0 {
        seq!['0']
    } else {
        let side = contracts[0].side;
        let to_side: int = if side == Side::NS {
            score_ns as int
        } else {
            -(score_ns as int)
        };
        spec_side_label(side) + seq![' '] + spec_signed(to_side)
    }
}

/// The descriptions of the contracts.
pub open spec fn descriptions(cs: Seq<ParContract>) -> Seq<Seq<char>> {
    Seq::new(cs.len(), |i: int| spec_describe(cs[i]))
}

impl ParResult {
    /// The par score labelled by the declaring side and signed to it, e.g.
    /// `"NS 980"`, `"EW -500"`, or `"0"` when no one bids.
    pub fn optimum_score(&self) -> (r: String)
        ensures
            r@ == spec_optimum_score(self.score_ns, self.contracts@),
    {
        let mut v: Vec<char> = Vec::new();
        if self.contracts.len() == 0 {
            v.push('0');
            proof {
                assert(v@ =~= spec_optimum_score(self.score_ns, self.contracts@));
            }
            return string_of(&v);
        }
        let side = self.contracts[0].side;
        let to_side: i64 = if side == Side::NS {
            self.score_ns as i64
        } else {
            -(self.score_ns as i64)
        };
        let label = side.label();
        push_all(&mut v, &crate::text::chars_of(label.as_str()));
        v.push(' ');
        if to_side < 0 {
            v.push('-');
            push_decimal(&mut v, (-to_side) as usize);
        } else {
            push_decimal(&mut v, to_side as usize);
        }
        proof {
            assert(v@ =~= spec_optimum_score(self.score_ns, self.contracts@));
        }
        string_of(&v)
    }

    /// Every tied contract, cheapest first, separated by `"; "` (e.g.
    /// `"NS 4H=; NS 4S="`); `None` for a passed-out deal.
    pub fn par_contract(&self) -> (r: Option<String>)
        ensures
            self.contracts@.len() == 0 ==> r is None,
            self.contracts@.len() > 0 ==> (r matches Some(s) && s@ == join(
                descriptions(self.contracts@),
                seq![';', ' '],
            )),
    {
        if self.contracts.len() == 0 {
            return None;
        }
        let ghost ds = descriptions(self.contracts@);
        let mut v: Vec<char> = Vec::new();
        let mut i: usize = 0;
        while i < self.contracts.len()
            invariant
                i <= self.contracts@.len(),
                ds == descriptions(self.contracts@),
                v@ == join(ds.take(i as int), seq![';', ' ']),
            decreases self.contracts@.len() - i,
        {
            proof {
                assert(ds.take(i as int + 1) =~= ds.take(i as int).push(ds[i as int]));
                crate::text::lemma_join_push(ds.take(i as int), ds[i as int], seq![';', ' ']);
            }
            if i > 0 {
                v.push(';');
                v.push(' ');
            }
            let d = self.contracts[i].describe();
            push_all(&mut v, &crate::text::chars_of(d.as_str()));
            proof {
                if i > 0 {
                    assert(v@ =~= join(ds.take(i as int + 1), seq![';', ' ']));
                } else {
                    assert(v@ =~= join(ds.take(i as int + 1), seq![';', ' ']));
                }
            }
            i += 1;
        }
        proof {
            assert(ds.take(self.contracts@.len() as int) =~= ds);
        }
        Some(string_of(&v))
    }
}

/// Bidding rank of a contract: higher outranks lower.
pub open spec fn spec_rank(level: int, strain: Strain) -> int {
    (level - 1) * 5 + spec_strain_index(strain)
}

/// What a trick over six is worth in a strain: 20 in a minor, 30 otherwise.
pub open spec fn trick_value(strain: Strain) -> int {
    if strain == Strain::Clubs || strain == Strain::Diamonds {
        20
    } else {
        30
    }
}

/// The duplicate score of an undoubled contract that makes with `over`
/// overtricks: trick points, the game or part-score bonus, the slam
/// bonus, and the overtricks.
pub open spec fn spec_made_score(level: int, strain: Strain, over: int, vul: bool) -> int {
    let points = level * trick_value(strain) + if strain == Strain::NoTrump {
        10int
    } else {
        0int
    };
    let game = if points >= 100 {
        if vul {
            500int
        } else {
            300int
        }
    } else {
        50int
    };
    let slam = if level == 6 {
        if vul {
            750int
        } else {
            500int
        }
    } else if level == 7 {
        if vul {
            1500int
        } else {
            1000int
        }
    } else {
        0int
    };
    points + game + slam + over * trick_value(strain)
}

/// The penalty for `down` undertricks doubled: not vulnerable 100, then
/// 200 for the second and third, then 300 each; vulnerable 200, then 300
/// each.
pub open spec fn spec_doubled_penalty(down: int, vul: bool) -> int {
    if vul {
        200 + 300 * (down - 1)
    } else if down <= 3 {
        100 + 200 * (down - 1)
    } else {
        500 + 300 * (down - 3)
    }
}

/// The score to a side that declares `level` in `strain` and takes
/// `tricks`: undoubled when it makes, doubled when it fails.
pub open spec fn spec_score_to_side(level: int, strain: Strain, tricks: int, vul: bool) -> int {
    let rel = tricks - (level + 6);
    if rel >= 0 {
        spec_made_score(level, strain, rel, vul)
    } else {
        -spec_doubled_penalty(-rel, vul)
    }
}

/// The score to the declaring side of `level`-`strain` with `tricks` taken.
pub fn score_to_side(level: u8, strain: Strain, tricks: u8, vul: bool) -> (r: i32)
    requires
        1 <= level <= 7,
        tricks <= 13,
    ensures
        r == spec_score_to_side(level as int, strain, tricks as int, vul),
{
    let rel: i32 = tricks as i32 - (level as i32 + 6);
    let value: i32 = if strain == Strain::Clubs || strain == Strain::Diamonds {
        20
    } else {
        30
    };
    if rel >= 0 {
        let points: i32 = level as i32 * value + if strain == Strain::NoTrump {
            10
        } else {
            0
        };
        let game: i32 = if points >= 100 {
            if vul {
                500
            } else {
                300
            }
        } else {
            50
        };
        let slam: i32 = if level == 6 {
            if vul {
                750
            } else {
                500
            }
        } else if level == 7 {
            if vul {
                1500
            } else {
                1000
            }
        } else {
            0
        };
        points + game + slam + rel * value
    } else {
        let down: i32 = -rel;
        let penalty: i32 = if vul {
            200 + 300 * (down - 1)
        } else if down <= 3 {
            100 + 200 * (down - 1)
        } else {
            500 + 300 * (down - 3)
        };
        -penalty
    }
}

/// A score from North-South's side.
pub open spec fn spec_to_ns(side: Side, s: int) -> int {
    if side == Side::NS {
        s
    } else {
        -s
    }
}

/// A side's best tricks in a strain over its two seats.
pub open spec fn spec_side_max(dd: DdTable, side: Side, strain: Strain) -> u8 {
    spec_max(dd.spec_tricks(spec_side_seats(side).0, strain), dd.spec_tricks(spec_side_seats(side).1, strain))
}

/// The contract `side` reaches by bidding `level`-`strain`, named for the
/// seat that takes the tricks, or for the side when both partners do.
pub open spec fn spec_contract_at(dd: DdTable, side: Side, level: int, strain: Strain) -> ParContract {
    let (first, second) = spec_side_seats(side);
    let a = dd.spec_tricks(first, strain);
    let b = dd.spec_tricks(second, strain);
    ParContract {
        side,
        level: level as u8,
        strain,
        tricks: spec_max(a, b),
        declarer: if a == b {
            ParDeclarer::Both(side)
        } else if a > b {
            ParDeclarer::Seat(first)
        } else {
            ParDeclarer::Seat(second)
        },
    }
}

/// A table fit for scoring: no seat takes more than thirteen tricks.
pub open spec fn table_ok(dd: DdTable) -> bool {
    forall|d: Direction, s: Strain| #[trigger] dd.spec_tricks(d, s) <= 13
}

/// The vulnerability of a side.
pub open spec fn spec_vul_of(side: Side, vul_ns: bool, vul_ew: bool) -> bool {
    if side == Side::NS {
        vul_ns
    } else {
        vul_ew
    }
}

/// North-South's score if `side` bids the contract of rank `r`.
pub open spec fn bid_score_ns(dd: DdTable, vul_ns: bool, vul_ew: bool, side: Side, r: int) -> int {
    let strain = spec_strain_at(r % 5);
    spec_to_ns(
        side,
        spec_score_to_side(r / 5 + 1, strain, spec_side_max(dd, side, strain) as int, spec_vul_of(side, vul_ns, vul_ew)),
    )
}

/// Whether bidding rank `r` improves `side`'s position over `cur_ns`.
pub open spec fn bid_improves(dd: DdTable, vul_ns: bool, vul_ew: bool, side: Side, r: int, cur_ns: int) -> bool {
    let s = bid_score_ns(dd, vul_ns, vul_ew, side, r);
    if side == Side::NS {
        s > cur_ns
    } else {
        s < cur_ns
    }
}

/// The cheapest bid from rank `r` up that improves its bidder's position
/// over `cur_ns`, North-South first at equal rank.
pub open spec fn first_bid(dd: DdTable, vul_ns: bool, vul_ew: bool, cur_ns: int, r: int) -> Option<(int, Side)>
    decreases 35 - r,
{
    if r >= 35 || r < 0 {
        None
    } else if bid_improves(dd, vul_ns, vul_ew, Side::NS, r, cur_ns) {
        Some((r, Side::NS))
    } else if bid_improves(dd, vul_ns, vul_ew, Side::EW, r, cur_ns) {
        Some((r, Side::EW))
    } else {
        first_bid(dd, vul_ns, vul_ew, cur_ns, r + 1)
    }
}

/// The auction from where it stands, with at most `fuel` more bids. The
/// state is the rank bid, North-South's score there, and the contract.
pub open spec fn auction(
    dd: DdTable,
    vul_ns: bool,
    vul_ew: bool,
    st: (int, int, Option<ParContract>),
    fuel: nat,
) -> (int, int, Option<ParContract>)
    decreases fuel,
{
    if fuel == 0 {
        st
    } else {
        match first_bid(dd, vul_ns, vul_ew, st.1, st.0 + 1) {
            None => st,
            Some((r, side)) => auction(
                dd,
                vul_ns,
                vul_ew,
                (
                    r,
                    bid_score_ns(dd, vul_ns, vul_ew, side, r),
                    Some(spec_contract_at(dd, side, r / 5 + 1, spec_strain_at(r % 5))),
                ),
                (fuel - 1) as nat,
            ),
        }
    }
}

/// The lowest level from `level` up at which `side` scores exactly
/// `score_ns` in `strain` at rank `min_rank` or above.
pub open spec fn tied_level(
    dd: DdTable,
    side: Side,
    min_rank: int,
    score_ns: int,
    vul: bool,
    strain: Strain,
    level: int,
) -> Option<int>
    decreases 8 - level,
{
    if level > 7 || level < 1 {
        None
    } else if spec_rank(level, strain) >= min_rank && spec_to_ns(
        side,
        spec_score_to_side(level, strain, spec_side_max(dd, side, strain) as int, vul),
    ) == score_ns {
        Some(level)
    } else {
        tied_level(dd, side, min_rank, score_ns, vul, strain, level + 1)
    }
}

/// The contracts tied at par among the ranks below `n`, in rank order: a
/// rank counts when its level is its strain's tied level.
pub open spec fn tied_below(dd: DdTable, side: Side, min_rank: int, score_ns: int, vul: bool, n: int) -> Seq<
    ParContract,
>
    decreases n,
{
    if n <= 0 {
        Seq::empty()
    } else {
        let r = n - 1;
        let strain = spec_strain_at(r % 5);
        let level = r / 5 + 1;
        let rest = tied_below(dd, side, min_rank, score_ns, vul, r);
        if tied_level(dd, side, min_rank, score_ns, vul, strain, 1) == Some(level) {
            rest.push(spec_contract_at(dd, side, level, strain))
        } else {
            rest
        }
    }
}

/// Par: the auction from nothing bid, then every contract tied with the
/// one it came to rest on.
pub open spec fn spec_par(dd: DdTable, vul_ns: bool, vul_ew: bool) -> (int, Seq<ParContract>) {
    let end = auction(dd, vul_ns, vul_ew, (0, 0, None), 64);
    (
        end.1,
        match end.2 {
            None => Seq::empty(),
            Some(c) => tied_below(dd, c.side, end.0, end.1, spec_vul_of(c.side, vul_ns, vul_ew), 35),
        },
    )
}

/// Every score is within a few thousand points.
proof fn lemma_score_bound(level: int, strain: Strain, tricks: int, vul: bool)
    requires
        1 <= level <= 7,
        0 <= tricks <= 13,
    ensures
        -4000 <= spec_score_to_side(level, strain, tricks, vul) <= 4000,
{
}

/// The bidding rank of `level`-`strain`.
pub fn rank(level: u8, strain: Strain) -> (r: i32)
    requires
        1 <= level <= 7,
    ensures
        r == spec_rank(level as int, strain),
{
    (level as i32 - 1) * 5 + strain.index() as i32
}

/// The contract `side` reaches by bidding `level`-`strain`.
pub fn contract_at(dd: &DdTable, side: Side, level: u8, strain: Strain) -> (r: ParContract)
    ensures
        r == spec_contract_at(*dd, side, level as int, strain),
{
    let (first, second) = side.seats();
    let a = dd.tricks(first, strain);
    let b = dd.tricks(second, strain);
    let declarer = if a == b {
        ParDeclarer::Both(side)
    } else if a > b {
        ParDeclarer::Seat(first)
    } else {
        ParDeclarer::Seat(second)
    };
    ParContract { side, level, strain, tricks: if a >= b { a } else { b }, declarer }
}

fn side_max(dd: &DdTable, side: Side, strain: Strain) -> (r: u8)
    ensures
        r == spec_side_max(*dd, side, strain),
{
    let (first, _) = side.seats();
    dd.best_for_side(first, strain)
}

fn to_ns(side: Side, s: i32) -> (r: i32)
    requires
        -4000 <= s <= 4000,
    ensures
        r == spec_to_ns(side, s as int),
{
    if side == Side::NS {
        s
    } else {
        -s
    }
}

fn vul_of(side: Side, vul_ns: bool, vul_ew: bool) -> (r: bool)
    ensures
        r == spec_vul_of(side, vul_ns, vul_ew),
{
    if side == Side::NS {
        vul_ns
    } else {
        vul_ew
    }
}

/// North-South's score if `side` bids rank `r`.
fn bid_score(dd: &DdTable, vul_ns: bool, vul_ew: bool, side: Side, r: i32) -> (s: i32)
    requires
        table_ok(*dd),
        0 <= r < 35,
    ensures
        s == bid_score_ns(*dd, vul_ns, vul_ew, side, r as int),
        -4000 <= s <= 4000,
{
    let strain = Strain::at((r % 5) as usize);
    let level = (r / 5 + 1) as u8;
    let tricks = side_max(dd, side, strain);
    proof {
        assert(dd.spec_tricks(spec_side_seats(side).0, strain) <= 13);
        assert(dd.spec_tricks(spec_side_seats(side).1, strain) <= 13);
        lemma_score_bound(level as int, strain, tricks as int, spec_vul_of(side, vul_ns, vul_ew));
    }
    let s = score_to_side(level, strain, tricks, vul_of(side, vul_ns, vul_ew));
    to_ns(side, s)
}

/// The cheapest improving bid above `cur_rank`.
fn find_bid(dd: &DdTable, vul_ns: bool, vul_ew: bool, cur_rank: i32, cur_ns: i32) -> (r: Option<(i32, Side)>)
    requires
        table_ok(*dd),
        0 <= cur_rank < 35,
    ensures
        match r {
            None => first_bid(*dd, vul_ns, vul_ew, cur_ns as int, cur_rank + 1) is None,
            Some((rk, side)) => first_bid(*dd, vul_ns, vul_ew, cur_ns as int, cur_rank + 1) == Some(
                (rk as int, side),
            ) && 0 <= rk < 35,
        },
{
    let mut r: i32 = cur_rank + 1;
    while r < 35
        invariant
            table_ok(*dd),
            0 <= cur_rank < 35,
            cur_rank + 1 <= r <= 35,
            first_bid(*dd, vul_ns, vul_ew, cur_ns as int, cur_rank + 1) == first_bid(
                *dd,
                vul_ns,
                vul_ew,
                cur_ns as int,
                r as int,
            ),
        decreases 35 - r,
    {
        let ns = bid_score(dd, vul_ns, vul_ew, Side::NS, r);
        if ns > cur_ns {
            return Some((r, Side::NS));
        }
        let ew = bid_score(dd, vul_ns, vul_ew, Side::EW, r);
        if ew < cur_ns {
            return Some((r, Side::EW));
        }
        r += 1;
    }
    None
}

/// The lowest level at which `side` scores `score_ns` in `strain`, at rank
/// `min_rank` or above.
fn find_tied_level(dd: &DdTable, side: Side, min_rank: i32, score_ns: i32, vul: bool, strain: Strain) -> (r: Option<
    u8,
>)
    requires
        table_ok(*dd),
    ensures
        match r {
            None => tied_level(*dd, side, min_rank as int, score_ns as int, vul, strain, 1) is None,
            Some(l) => tied_level(*dd, side, min_rank as int, score_ns as int, vul, strain, 1) == Some(
                l as int,
            ),
        },
{
    let tricks = side_max(dd, side, strain);
    proof {
        assert(dd.spec_tricks(spec_side_seats(side).0, strain) <= 13);
        assert(dd.spec_tricks(spec_side_seats(side).1, strain) <= 13);
    }
    let mut level: u8 = 1;
    while level <= 7
        invariant
            1 <= level <= 8,
            tricks == spec_side_max(*dd, side, strain),
            tricks <= 13,
            tied_level(*dd, side, min_rank as int, score_ns as int, vul, strain, 1) == tied_level(
                *dd,
                side,
                min_rank as int,
                score_ns as int,
                vul,
                strain,
                level as int,
            ),
        decreases 8 - level,
    {
        if rank(level, strain) >= min_rank {
            proof {
                lemma_score_bound(level as int, strain, tricks as int, vul);
            }
            let s = to_ns(side, score_to_side(level, strain, tricks, vul));
            if s == score_ns {
                return Some(level);
            }
        }
        level += 1;
    }
    None
}

/// Every contract tied at par, cheapest first: one per strain, at the
/// lowest level in it that reaches par, from the rank the auction came to
/// rest at. Contracts below that rank are not par contracts even when they
/// score the same: they are never reached.
fn tied_contracts(dd: &DdTable, side: Side, min_rank: i32, score_ns: i32, vul: bool) -> (r: Vec<ParContract>)
    requires
        table_ok(*dd),
    ensures
        r@ == tied_below(*dd, side, min_rank as int, score_ns as int, vul, 35),
{
    let mut levels: Vec<Option<u8>> = Vec::new();
    let mut s: usize = 0;
    while s < 5
        invariant
            table_ok(*dd),
            s <= 5,
            levels@.len() == s,
            forall|i: int| 0 <= i < s ==> match #[trigger] levels@[i] {
                None => tied_level(*dd, side, min_rank as int, score_ns as int, vul, spec_strain_at(i), 1) is None,
                Some(l) => tied_level(*dd, side, min_rank as int, score_ns as int, vul, spec_strain_at(i), 1)
                    == Some(l as int),
            },
        decreases 5 - s,
    {
        levels.push(find_tied_level(dd, side, min_rank, score_ns, vul, Strain::at(s)));
        s += 1;
    }
    let mut tied: Vec<ParContract> = Vec::new();
    let mut r: usize = 0;
    while r < 35
        invariant
            r <= 35,
            levels@.len() == 5,
            forall|i: int| 0 <= i < 5 ==> match #[trigger] levels@[i] {
                None => tied_level(*dd, side, min_rank as int, score_ns as int, vul, spec_strain_at(i), 1) is None,
                Some(l) => tied_level(*dd, side, min_rank as int, score_ns as int, vul, spec_strain_at(i), 1)
                    == Some(l as int),
            },
            tied@ == tied_below(*dd, side, min_rank as int, score_ns as int, vul, r as int),
        decreases 35 - r,
    {
        let si = r % 5;
        let level = (r / 5 + 1) as u8;
        let strain = Strain::at(si);
        let hit = match levels[si] {
            Some(l) => l == level,
            None => false,
        };
        if hit {
            tied.push(contract_at(dd, side, level, strain));
        }
        r += 1;
    }
    tied
}

/// Par from a double-dummy table and each side's vulnerability.
pub fn par(dd: &DdTable, vul_ns: bool, vul_ew: bool) -> (r: ParResult)
    requires
        table_ok(*dd),
    ensures
        r.score_ns == spec_par(*dd, vul_ns, vul_ew).0,
        r.contracts@ == spec_par(*dd, vul_ns, vul_ew).1,
{
    let mut cur_rank: i32 = 0;
    let mut cur_ns: i32 = 0;
    let mut contract: Option<ParContract> = None;
    let ghost start: (int, int, Option<ParContract>) = (0, 0, None);
    let mut n: usize = 0;
    let mut resting = false;
    while n < 64 && !resting
        invariant
            table_ok(*dd),
            n <= 64,
            0 <= cur_rank < 35,
            -4000 <= cur_ns <= 4000,
            resting ==> first_bid(*dd, vul_ns, vul_ew, cur_ns as int, cur_rank + 1) is None,
            auction(*dd, vul_ns, vul_ew, start, 64) == auction(
                *dd,
                vul_ns,
                vul_ew,
                (cur_rank as int, cur_ns as int, contract),
                (64 - n) as nat,
            ),
        decreases 64 - n + if resting {
            0int
        } else {
            1int
        },
    {
        match find_bid(dd, vul_ns, vul_ew, cur_rank, cur_ns) {
            None => {
                resting = true;
            },
            Some((r, side)) => {
                let s = bid_score(dd, vul_ns, vul_ew, side, r);
                let c = contract_at(dd, side, (r / 5 + 1) as u8, Strain::at((r % 5) as usize));
                cur_rank = r;
                cur_ns = s;
                contract = Some(c);
                n += 1;
            },
        }
    }
    proof {
        assert(auction(*dd, vul_ns, vul_ew, start, 64) == (cur_rank as int, cur_ns as int, contract));
    }
    let contracts = match contract {
        None => Vec::new(),
        Some(c) => tied_contracts(dd, c.side, cur_rank, cur_ns, vul_of(c.side, vul_ns, vul_ew)),
    };
    ParResult { score_ns: cur_ns, contracts }
}

/// A position every seat holds as many cards in: a deal at a trick's start.
pub open spec fn even_hands(h: Seq<crate::cards::Cards>) -> bool {
    &&& popcount(h[0]@) == popcount(h[1]@)
    &&& popcount(h[1]@) == popcount(h[2]@)
    &&& popcount(h[2]@) == popcount(h[3]@)
}

/// The size both caches start at, in bits; both grow on demand.
pub const CACHE_BITS: usize = 16;

/// The storage a table solve needs, kept from one solve to the next. Both
/// caches are emptied at the start of each strain, keeping the size they
/// have grown to.
pub struct TableSolver {
    cutoff: CutoffCache,
    pattern: PatternCache,
}

impl TableSolver {
    /// Both caches are well formed.
    pub closed spec fn wf(&self) -> bool {
        self.cutoff.wf() && self.pattern.wf()
    }

    /// Storage for one thread's solves, at the starting size.
    pub fn new() -> (r: TableSolver)
        ensures
            r.wf(),
    {
        TableSolver { cutoff: CutoffCache::new(CACHE_BITS), pattern: PatternCache::new(CACHE_BITS) }
    }

    /// One strain of a deal: the tricks each direction takes as declarer,
    /// indexed North, East, South, West. The caches are emptied first, and
    /// the four declarers are solved South, North, West, East, the opening
    /// leader being declarer's left-hand opponent.
    pub fn solve_strain_hands(&mut self, hands: Hands, strain: Strain) -> (r: [u8; 4])
        requires
            old(self).wf(),
            valid_hands(hands@),
            even_hands(hands@),
        ensures
            final(self).wf(),
            forall|i: int| 0 <= i < 4 ==> #[trigger] r@[i] <= popcount(hands@[WEST as int]@),
    {
        proof {
            hands.lemma_len();
        }
        let total = hands.num_tricks() as u8;
        let trump = strain.trump();
        let mut cutoff = CutoffCache::new(1);
        let mut pattern = PatternCache::new(1);
        std::mem::swap(&mut cutoff, &mut self.cutoff);
        std::mem::swap(&mut pattern, &mut self.pattern);
        cutoff.reset();
        pattern.reset();
        let mut column: [u8; 4] = [0u8; 4];
        let order: [Direction; 4] = [Direction::South, Direction::North, Direction::West, Direction::East];
        let mut k: usize = 0;
        while k < 4
            invariant
                k <= 4,
                cutoff.wf(),
                pattern.wf(),
                valid_hands(hands@),
                even_hands(hands@),
                total == popcount(hands@[WEST as int]@),
                total <= 13,
                forall|i: int| 0 <= i < 4 ==> #[trigger] column@[i] <= total,
            decreases 4 - k,
        {
            let dir = order[k];
            let seat = dir.seat();
            let leader = (seat + 1) % 4;
            let solver = Solver::new(hands, trump, leader);
            let ns = solver.solve_with_caches(&mut cutoff, &mut pattern);
            let declarer_tricks = if seat == NORTH || seat == SOUTH {
                ns
            } else {
                total - ns
            };
            column[dir.index()] = declarer_tricks;
            k += 1;
        }
        std::mem::swap(&mut cutoff, &mut self.cutoff);
        std::mem::swap(&mut pattern, &mut self.pattern);
        column
    }

    /// The whole table of a deal: each strain in bidding order.
    pub fn solve(&mut self, hands: &Hands) -> (r: DdTable)
        requires
            old(self).wf(),
            valid_hands(hands@),
            even_hands(hands@),
        ensures
            final(self).wf(),
            table_ok(r),
            forall|d: Direction, s: Strain| #[trigger] r.spec_tricks(d, s) <= popcount(hands@[WEST as int]@),
    {
        let mut table = DdTable::new();
        let mut i: usize = 0;
        while i < 5
            invariant
                i <= 5,
                self.wf(),
                valid_hands(hands@),
                even_hands(hands@),
                forall|d: Direction, s: Strain| #[trigger] table.spec_tricks(d, s) <= popcount(hands@[WEST as int]@),
            decreases 5 - i,
        {
            let strain = Strain::at(i);
            let column = self.solve_strain_hands(*hands, strain);
            table.set(Direction::North, strain, column[0]);
            table.set(Direction::East, strain, column[1]);
            table.set(Direction::South, strain, column[2]);
            table.set(Direction::West, strain, column[3]);
            i += 1;
        }
        proof {
            hands.lemma_len();
            assert forall|d: Direction, s: Strain| #[trigger] table.spec_tricks(d, s) <= 13 by {
                assert(popcount(hands@[WEST as int]@) <= 13);
            }
        }
        table
    }
}

/// The bidding rank of a contract.
pub open spec fn contract_rank(c: ParContract) -> int {
    spec_rank(c.level as int, c.strain)
}

/// North-South's score for a contract played at its tricks.
pub open spec fn contract_score_ns(c: ParContract, vul_ns: bool, vul_ew: bool) -> int {
    spec_to_ns(c.side, spec_score_to_side(c.level as int, c.strain, c.tricks as int, spec_vul_of(c.side, vul_ns, vul_ew)))
}

proof fn lemma_tied_level(
    dd: DdTable,
    side: Side,
    min_rank: int,
    score_ns: int,
    vul: bool,
    strain: Strain,
    level: int,
)
    ensures
        tied_level(dd, side, min_rank, score_ns, vul, strain, level) matches Some(l) ==> {
            &&& level <= l <= 7
            &&& 1 <= l
            &&& spec_rank(l, strain) >= min_rank
            &&& spec_to_ns(side, spec_score_to_side(l, strain, spec_side_max(dd, side, strain) as int, vul)) == score_ns
        },
    decreases 8 - level,
{
    if 1 <= level <= 7 {
        lemma_tied_level(dd, side, min_rank, score_ns, vul, strain, level + 1);
    }
}

proof fn lemma_tied_level_found(
    dd: DdTable,
    side: Side,
    min_rank: int,
    score_ns: int,
    vul: bool,
    strain: Strain,
    level: int,
    w: int,
)
    requires
        1 <= level <= w <= 7,
        spec_rank(w, strain) >= min_rank,
        spec_to_ns(side, spec_score_to_side(w, strain, spec_side_max(dd, side, strain) as int, vul)) == score_ns,
    ensures
        tied_level(dd, side, min_rank, score_ns, vul, strain, level) is Some,
    decreases w - level,
{
    if level < w {
        lemma_tied_level_found(dd, side, min_rank, score_ns, vul, strain, level + 1, w);
    }
}

proof fn lemma_tied_below(dd: DdTable, side: Side, min_rank: int, score_ns: int, vul: bool, n: int)
    requires
        0 <= n <= 35,
    ensures
        ({
            let t = tied_below(dd, side, min_rank, score_ns, vul, n);
            &&& forall|i: int| 0 <= i < t.len() ==> (#[trigger] t[i]).side == side
            &&& forall|i: int| 0 <= i < t.len() ==> contract_rank(#[trigger] t[i]) < n
            &&& forall|i: int| 0 <= i < t.len() ==> contract_rank(#[trigger] t[i]) >= min_rank
            &&& forall|i: int| 0 <= i < t.len() ==> spec_to_ns(
                side,
                spec_score_to_side((#[trigger] t[i]).level as int, t[i].strain, t[i].tricks as int, vul),
            ) == score_ns
            &&& forall|i: int, j: int| 0 <= i < j < t.len() ==> contract_rank(#[trigger] t[i]) < contract_rank(
                #[trigger] t[j],
            )
        }),
    decreases n,
{
    if n > 0 {
        let r = n - 1;
        let strain = spec_strain_at(r % 5);
        let level = r / 5 + 1;
        lemma_tied_below(dd, side, min_rank, score_ns, vul, r);
        lemma_tied_level(dd, side, min_rank, score_ns, vul, strain, 1);
        let c = spec_contract_at(dd, side, level, strain);
        assert(contract_rank(c) == r);
    }
}

proof fn lemma_tied_below_grows(dd: DdTable, side: Side, min_rank: int, score_ns: int, vul: bool, m: int, n: int)
    requires
        0 <= m <= n,
    ensures
        tied_below(dd, side, min_rank, score_ns, vul, m).len() <= tied_below(dd, side, min_rank, score_ns, vul, n).len(),
    decreases n - m,
{
    if m < n {
        lemma_tied_below_grows(dd, side, min_rank, score_ns, vul, m, n - 1);
    }
}

proof fn lemma_first_bid(dd: DdTable, vul_ns: bool, vul_ew: bool, cur_ns: int, r0: int)
    ensures
        first_bid(dd, vul_ns, vul_ew, cur_ns, r0) matches Some((r, side)) ==> r0 <= r < 35 && 0 <= r,
    decreases 35 - r0,
{
    if 0 <= r0 < 35 {
        lemma_first_bid(dd, vul_ns, vul_ew, cur_ns, r0 + 1);
    }
}

/// Where an auction can stand: nothing bid, or a contract bid at its rank
/// with North-South's score for it.
pub open spec fn auction_state_ok(dd: DdTable, vul_ns: bool, vul_ew: bool, st: (int, int, Option<ParContract>)) -> bool {
    match st.2 {
        None => st.0 == 0 && st.1 == 0,
        Some(c) => {
            &&& 0 <= st.0 < 35
            &&& c == spec_contract_at(dd, c.side, st.0 / 5 + 1, spec_strain_at(st.0 % 5))
            &&& st.1 == bid_score_ns(dd, vul_ns, vul_ew, c.side, st.0)
        },
    }
}

proof fn lemma_auction(dd: DdTable, vul_ns: bool, vul_ew: bool, st: (int, int, Option<ParContract>), fuel: nat)
    requires
        auction_state_ok(dd, vul_ns, vul_ew, st),
    ensures
        auction_state_ok(dd, vul_ns, vul_ew, auction(dd, vul_ns, vul_ew, st, fuel)),
    decreases fuel,
{
    if fuel > 0 {
        lemma_first_bid(dd, vul_ns, vul_ew, st.1, st.0 + 1);
        match first_bid(dd, vul_ns, vul_ew, st.1, st.0 + 1) {
            None => {},
            Some((r, side)) => {
                let next = (
                    r,
                    bid_score_ns(dd, vul_ns, vul_ew, side, r),
                    Some(spec_contract_at(dd, side, r / 5 + 1, spec_strain_at(r % 5))),
                );
                lemma_auction(dd, vul_ns, vul_ew, next, (fuel - 1) as nat);
            },
        }
    }
}

/// No contract scores zero: a made one scores at least 70, a failed one
/// costs at least 100.
proof fn lemma_score_nonzero(level: int, strain: Strain, tricks: int, vul: bool)
    requires
        1 <= level <= 7,
        0 <= tricks <= 13,
    ensures
        spec_score_to_side(level, strain, tricks, vul) != 0,
{
}

/// The contracts tied at par all belong to one side, come cheapest first,
/// each lies at or above the rank the auction came to rest at, and each
/// scores par exactly when played at its side's double-dummy tricks.
pub proof fn lemma_par_contracts(dd: DdTable, vul_ns: bool, vul_ew: bool)
    requires
        table_ok(dd),
    ensures
        ({
            let (score_ns, cs) = spec_par(dd, vul_ns, vul_ew);
            &&& forall|i: int| 0 <= i < cs.len() ==> (#[trigger] cs[i]).side == cs[0].side
            &&& forall|i: int, j: int| 0 <= i < j < cs.len() ==> contract_rank(#[trigger] cs[i]) < contract_rank(
                #[trigger] cs[j],
            )
            &&& forall|i: int| 0 <= i < cs.len() ==> contract_score_ns(#[trigger] cs[i], vul_ns, vul_ew) == score_ns
        }),
{
    let end = auction(dd, vul_ns, vul_ew, (0, 0, None), 64);
    match end.2 {
        None => {},
        Some(c) => {
            lemma_tied_below(dd, c.side, end.0, end.1, spec_vul_of(c.side, vul_ns, vul_ew), 35);
        },
    }
}

/// A deal is passed out exactly when par is zero: no contract is named
/// then, and some contract is named whenever par is not zero.
pub proof fn lemma_passed_out_iff_zero(dd: DdTable, vul_ns: bool, vul_ew: bool)
    requires
        table_ok(dd),
    ensures
        (spec_par(dd, vul_ns, vul_ew).1.len() == 0) <==> (spec_par(dd, vul_ns, vul_ew).0 == 0),
{
    let start: (int, int, Option<ParContract>) = (0, 0, None);
    let end = auction(dd, vul_ns, vul_ew, start, 64);
    lemma_auction(dd, vul_ns, vul_ew, start, 64);
    match end.2 {
        None => {},
        Some(c) => {
            let rk = end.0;
            let side = c.side;
            let strain = spec_strain_at(rk % 5);
            let level = rk / 5 + 1;
            let vul = spec_vul_of(side, vul_ns, vul_ew);
            let sm = spec_side_max(dd, side, strain);
            assert(dd.spec_tricks(spec_side_seats(side).0, strain) <= 13);
            assert(dd.spec_tricks(spec_side_seats(side).1, strain) <= 13);
            lemma_score_nonzero(level, strain, sm as int, vul);
            assert(spec_rank(level, strain) == rk);
            lemma_tied_level_found(dd, side, rk, end.1, vul, strain, 1, level);
            let l = tied_level(dd, side, rk, end.1, vul, strain, 1).unwrap();
            lemma_tied_level(dd, side, rk, end.1, vul, strain, 1);
            let r2 = spec_rank(l, strain);
            assert(r2 % 5 == rk % 5);
            assert(spec_strain_at(r2 % 5) == strain);
            assert(r2 / 5 + 1 == l);
            assert(tied_below(dd, side, rk, end.1, vul, r2 + 1).len() > 0);
            lemma_tied_below_grows(dd, side, rk, end.1, vul, r2 + 1, 35);
        },
    }
}

/// The direction of row `i` of an encoded table: North, South, East, West.
pub open spec fn encoded_dir(i: int) -> Direction {
    if i == 0 {
        Direction::North
    } else if i == 1 {
        Direction::South
    } else if i == 2 {
        Direction::East
    } else {
        Direction::West
    }
}

/// The digit of a cell: lower-case hexadecimal, `?` past 15.
pub open spec fn cell_char(v: u8) -> char {
    if v < 16 {
        crate::text::hex_char(v as int)
    } else {
        '?'
    }
}

/// A table as twenty digits: the rows North, South, East, West, each with
/// the strains notrump, spades, hearts, diamonds, clubs.
pub open spec fn spec_encode(dd: DdTable) -> Seq<char> {
    Seq::new(20, |i: int| cell_char(dd.spec_tricks(encoded_dir(i / 5), spec_strain_at(4 - i % 5))))
}

/// Encode a table as twenty digits, seat by seat and strain by strain.
pub fn encode_ddtricks(dd: &DdTable) -> (r: String)
    ensures
        r@ == spec_encode(*dd),
{
    let dirs: [Direction; 4] = [Direction::North, Direction::South, Direction::East, Direction::West];
    let mut out: Vec<char> = Vec::new();
    let mut i: usize = 0;
    while i < 20
        invariant
            i <= 20,
            dirs@ == seq![Direction::North, Direction::South, Direction::East, Direction::West],
            out@ == spec_encode(*dd).take(i as int),
        decreases 20 - i,
    {
        let dir = dirs[i / 5];
        let strain = Strain::at(4 - i % 5);
        let v = dd.tricks(dir, strain);
        let c = if v < 16 {
            crate::text::hex_digit(v)
        } else {
            '?'
        };
        proof {
            assert(dir == encoded_dir(i as int / 5));
        }
        out.push(c);
        proof {
            assert(out@ =~= spec_encode(*dd).take(i as int + 1));
        }
        i += 1;
    }
    proof {
        assert(spec_encode(*dd).take(20) =~= spec_encode(*dd));
    }
    string_of(&out)
}

/// Whether `level` in `strain` is a game contract: three notrump, four of
/// a major, five of a minor, or higher.
pub open spec fn is_game_contract(level: int, strain: Strain) -> bool {
    match strain {
        Strain::NoTrump => level >= 3,
        Strain::Spades | Strain::Hearts => level >= 4,
        Strain::Diamonds | Strain::Clubs => level >= 5,
    }
}

/// A made contract scores its trick points (20 a trick in a minor, 30 in
/// a major, 30 in notrump plus 10 for the first), 50 for a part score or
/// 300 (vulnerable 500) for a game, 500 (750) for a small slam and 1000
/// (1500) for a grand slam, and the trick value for each overtrick.
pub proof fn lemma_made_contract_score(level: int, strain: Strain, tricks: int, vul: bool)
    requires
        1 <= level <= 7,
        level + 6 <= tricks <= 13,
    ensures
        ({
            let per = match strain {
                Strain::Clubs | Strain::Diamonds => 20int,
                _ => 30int,
            };
            let first = if strain == Strain::NoTrump { 10int } else { 0int };
            let game = if is_game_contract(level, strain) {
                if vul { 500int } else { 300int }
            } else {
                50int
            };
            let slam = if level == 6 {
                if vul { 750int } else { 500int }
            } else if level == 7 {
                if vul { 1500int } else { 1000int }
            } else {
                0int
            };
            spec_score_to_side(level, strain, tricks, vul) == level * per + first + game + slam + (tricks
                - level - 6) * per
        }),
{
}

/// Vulnerability is worth 200 more for a made game, and 250 more for a
/// small slam or 500 more for a grand slam on top: a vulnerable grand slam
/// making scores 700 more than the same not vulnerable.
pub proof fn lemma_vulnerable_premium(level: int, strain: Strain, tricks: int)
    requires
        1 <= level <= 7,
        level + 6 <= tricks <= 13,
    ensures
        spec_score_to_side(level, strain, tricks, true) - spec_score_to_side(level, strain, tricks, false)
            == (if is_game_contract(level, strain) { 200int } else { 0int }) + (if level == 6 {
            250int
        } else if level == 7 {
            500int
        } else {
            0int
        }),
        level == 7 ==> spec_score_to_side(7, strain, 13, true) - spec_score_to_side(7, strain, 13, false)
            == 700,
{
    lemma_made_contract_score(level, strain, tricks, true);
    lemma_made_contract_score(level, strain, tricks, false);
}

/// Each overtrick adds the strain's trick value: 20 in a minor, 30
/// otherwise.
pub proof fn lemma_overtrick_value(level: int, strain: Strain, tricks: int, vul: bool)
    requires
        1 <= level <= 7,
        level + 6 <= tricks < 13,
    ensures
        spec_score_to_side(level, strain, tricks + 1, vul) - spec_score_to_side(level, strain, tricks, vul)
            == (if strain == Strain::Clubs || strain == Strain::Diamonds { 20int } else { 30int }),
{
    lemma_made_contract_score(level, strain, tricks, vul);
    lemma_made_contract_score(level, strain, tricks + 1, vul);
}

/// A failed contract (doubled) loses 100 for the first undertrick not
/// vulnerable, 200 vulnerable; each further one costs 200 for the second
/// and third and 300 after not vulnerable, and 300 vulnerable.
pub proof fn lemma_undertricks(level: int, strain: Strain, tricks: int, vul: bool)
    requires
        1 <= level <= 7,
        0 <= tricks < level + 6,
    ensures
        tricks == level + 5 ==> spec_score_to_side(level, strain, tricks, vul) == (if vul { -200int } else {
            -100int
        }),
        tricks < level + 5 ==> spec_score_to_side(level, strain, tricks + 1, vul) - spec_score_to_side(
            level,
            strain,
            tricks,
            vul,
        ) == (if vul { 300int } else if level + 6 - tricks <= 3 { 200int } else { 300int }),
{
}

} // verus!
