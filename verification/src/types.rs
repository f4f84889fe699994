//! Seats, suits and ranks, and the small conversions between them and text.

use vstd::prelude::*;

verus! {

/// A seat at the table: one of `WEST`, `NORTH`, `EAST`, `SOUTH`.
pub type Seat = usize;

/// A suit: one of `SPADE`, `HEART`, `DIAMOND`, `CLUB`, or `NOTRUMP` as a strain.
pub type Suit = usize;

pub const WEST: usize = 0;
pub const NORTH: usize = 1;
pub const EAST: usize = 2;
pub const SOUTH: usize = 3;

pub const SPADE: usize = 0;
pub const HEART: usize = 1;
pub const DIAMOND: usize = 2;
pub const CLUB: usize = 3;
pub const NOTRUMP: usize = 4;

pub const NUM_SEATS: usize = 4;
pub const NUM_SUITS: usize = 4;
pub const NUM_RANKS: usize = 13;
pub const TOTAL_CARDS: usize = 52;
pub const TOTAL_TRICKS: usize = 13;

pub const TWO: usize = 0;
pub const THREE: usize = 1;
pub const FOUR: usize = 2;
pub const FIVE: usize = 3;
pub const SIX: usize = 4;
pub const SEVEN: usize = 5;
pub const EIGHT: usize = 6;
pub const NINE: usize = 7;
pub const TEN: usize = 8;
pub const JACK: usize = 9;
pub const QUEEN: usize = 10;
pub const KING: usize = 11;
pub const ACE: usize = 12;

/// The seat that plays after `seat` (clockwise).
pub open spec fn spec_next_seat(seat: int) -> int {
    (seat + 1) % 4
}

/// The seat that plays after `seat`, going clockwise W, N, E, S.
pub fn next_seat(seat: Seat) -> (r: Seat)
    ensures
        r == spec_next_seat(seat as int),
        r < NUM_SEATS,
{
    (seat % NUM_SEATS + 1) % NUM_SEATS
}

/// The partner of `seat`, sitting opposite.
pub fn partner(seat: Seat) -> (r: Seat)
    ensures
        r == (seat + 2) % 4,
        r < NUM_SEATS,
{
    (seat % NUM_SEATS + 2) % NUM_SEATS
}

/// The left-hand opponent of `seat`: the next seat to play.
pub fn left_hand_opp(seat: Seat) -> (r: Seat)
    ensures
        r == (seat + 1) % 4,
        r < NUM_SEATS,
{
    (seat % NUM_SEATS + 1) % NUM_SEATS
}

/// The right-hand opponent of `seat`: the seat that played before it.
pub fn right_hand_opp(seat: Seat) -> (r: Seat)
    ensures
        r == (seat + 3) % 4,
        r < NUM_SEATS,
{
    (seat % NUM_SEATS + 3) % NUM_SEATS
}

/// Whether a seat belongs to the North-South partnership.
pub open spec fn spec_is_ns(seat: int) -> bool {
    seat == NORTH || seat == SOUTH
}

/// Whether `seat` sits North or South.
pub fn is_ns(seat: Seat) -> (r: bool)
    ensures
        r == spec_is_ns(seat as int),
{
    seat == NORTH || seat == SOUTH
}

/// The letter a seat is written with.
pub open spec fn spec_seat_letter(seat: int) -> char {
    if seat == WEST {
        'W'
    } else if seat == NORTH {
        'N'
    } else if seat == EAST {
        'E'
    } else if seat == SOUTH {
        'S'
    } else {
        '?'
    }
}

/// The letter for a seat: `W`, `N`, `E` or `S` (`?` for no seat).
pub fn seat_letter(seat: Seat) -> (r: char)
    ensures
        r == spec_seat_letter(seat as int),
{
    if seat == WEST {
        'W'
    } else if seat == NORTH {
        'N'
    } else if seat == EAST {
        'E'
    } else if seat == SOUTH {
        'S'
    } else {
        '?'
    }
}

/// The seat a letter names, either case.
pub open spec fn spec_char_to_seat(c: char) -> Option<usize> {
    if c == 'W' || c == 'w' {
        Some(WEST)
    } else if c == 'N' || c == 'n' {
        Some(NORTH)
    } else if c == 'E' || c == 'e' {
        Some(EAST)
    } else if c == 'S' || c == 's' {
        Some(SOUTH)
    } else {
        None
    }
}

/// Read a seat letter, `N`, `E`, `S` or `W` in either case.
pub fn char_to_seat(c: char) -> (r: Option<Seat>)
    ensures
        r == spec_char_to_seat(c),
{
    if c == 'W' || c == 'w' {
        Some(WEST)
    } else if c == 'N' || c == 'n' {
        Some(NORTH)
    } else if c == 'E' || c == 'e' {
        Some(EAST)
    } else if c == 'S' || c == 's' {
        Some(SOUTH)
    } else {
        None
    }
}

/// The letter a suit is written with (`N` for notrump).
pub open spec fn spec_suit_char(suit: int) -> char {
    if suit == SPADE {
        'S'
    } else if suit == HEART {
        'H'
    } else if suit == DIAMOND {
        'D'
    } else if suit == CLUB {
        'C'
    } else if suit == NOTRUMP {
        'N'
    } else {
        '?'
    }
}

/// The letter for a suit: `S`, `H`, `D`, `C`, or `N` for notrump.
pub fn suit_char(suit: Suit) -> (r: char)
    ensures
        r == spec_suit_char(suit as int),
{
    if suit == SPADE {
        'S'
    } else if suit == HEART {
        'H'
    } else if suit == DIAMOND {
        'D'
    } else if suit == CLUB {
        'C'
    } else if suit == NOTRUMP {
        'N'
    } else {
        '?'
    }
}

/// The suit (or notrump) a letter names, either case.
pub open spec fn spec_char_to_suit(c: char) -> Option<usize> {
    if c == 'S' || c == 's' {
        Some(SPADE)
    } else if c == 'H' || c == 'h' {
        Some(HEART)
    } else if c == 'D' || c == 'd' {
        Some(DIAMOND)
    } else if c == 'C' || c == 'c' {
        Some(CLUB)
    } else if c == 'N' || c == 'n' {
        Some(NOTRUMP)
    } else {
        None
    }
}

/// Read a suit letter, `S`, `H`, `D`, `C` or `N`, in either case.
pub fn char_to_suit(c: char) -> (r: Option<Suit>)
    ensures
        r == spec_char_to_suit(c),
{
    if c == 'S' || c == 's' {
        Some(SPADE)
    } else if c == 'H' || c == 'h' {
        Some(HEART)
    } else if c == 'D' || c == 'd' {
        Some(DIAMOND)
    } else if c == 'C' || c == 'c' {
        Some(CLUB)
    } else if c == 'N' || c == 'n' {
        Some(NOTRUMP)
    } else {
        None
    }
}

/// The rank a character names: `A K Q J T` in either case, the digits `9`
/// down to `2`, and `1` for the ten (the start of `10`).
pub open spec fn spec_char_to_rank(c: char) -> Option<usize> {
    if c == 'A' || c == 'a' {
        Some(ACE)
    } else if c == 'K' || c == 'k' {
        Some(KING)
    } else if c == 'Q' || c == 'q' {
        Some(QUEEN)
    } else if c == 'J' || c == 'j' {
        Some(JACK)
    } else if c == 'T' || c == 't' || c == '1' {
        Some(TEN)
    } else if '2' <= c && c <= '9' {
        Some((c as u32 - '2' as u32) as usize)
    } else {
        None
    }
}

/// Read a rank character.
pub fn char_to_rank(c: char) -> (r: Option<usize>)
    ensures
        r == spec_char_to_rank(c),
        r matches Some(rank) ==> rank < NUM_RANKS,
{
    if c == 'A' || c == 'a' {
        Some(ACE)
    } else if c == 'K' || c == 'k' {
        Some(KING)
    } else if c == 'Q' || c == 'q' {
        Some(QUEEN)
    } else if c == 'J' || c == 'j' {
        Some(JACK)
    } else if c == 'T' || c == 't' || c == '1' {
        Some(TEN)
    } else if '2' <= c && c <= '9' {
        Some((c as u32 - '2' as u32) as usize)
    } else {
        None
    }
}

/// The character a rank is written with: `2`..`9`, `T`, `J`, `Q`, `K`, `A`.
pub open spec fn spec_rank_char(rank: int) -> char {
    if rank == ACE {
        'A'
    } else if rank == KING {
        'K'
    } else if rank == QUEEN {
        'Q'
    } else if rank == JACK {
        'J'
    } else if rank == TEN {
        'T'
    } else if 0 <= rank <= 7 {
        (rank + '2' as int) as char
    } else {
        '?'
    }
}

/// The character for a rank.
pub fn rank_char(rank: usize) -> (r: char)
    ensures
        r == spec_rank_char(rank as int),
{
    if rank == ACE {
        'A'
    } else if rank == KING {
        'K'
    } else if rank == QUEEN {
        'Q'
    } else if rank == JACK {
        'J'
    } else if rank == TEN {
        'T'
    } else if rank == 7 {
        '9'
    } else if rank == 6 {
        '8'
    } else if rank == 5 {
        '7'
    } else if rank == 4 {
        '6'
    } else if rank == 3 {
        '5'
    } else if rank == 2 {
        '4'
    } else if rank == 1 {
        '3'
    } else if rank == 0 {
        '2'
    } else {
        '?'
    }
}

} // verus!
