//! The four hands of a deal, one set of cards per seat, and the two text
//! forms a deal is read from.

use vstd::prelude::*;
use crate::cards::{Cards, card_of, spec_card_of, popcount};
use crate::text::{chars_of, split_words, words, spec_is_whitespace};
use crate::types::{
    Seat, NUM_SEATS, WEST, NORTH, EAST, SOUTH, partner, left_hand_opp, right_hand_opp,
    char_to_seat, char_to_rank, spec_char_to_seat, spec_char_to_rank,
};

verus! {

/// Four hands, indexed by seat: `WEST`, `NORTH`, `EAST`, `SOUTH`.
#[derive(Clone, Copy, Debug)]
pub struct Hands {
    hands: [Cards; 4],
}

impl View for Hands {
    type V = Seq<Cards>;

    closed spec fn view(&self) -> Seq<Cards> {
        self.hands@
    }
}

/// The bits of each hand, by seat.
pub open spec fn hand_bits(h: Seq<Cards>) -> Seq<u64> {
    h.map_values(|c: Cards| c@)
}

/// State of reading a dotted hand (`AKQT3.J6.KJ42.95`) through `t[..n]`: the
/// suit being read, the cards so far, and whether every character was valid.
pub open spec fn dotted_fold(t: Seq<char>, n: int) -> (int, u64, bool)
    decreases n,
{
    if n <= 0 {
        (0, 0u64, true)
    } else {
        let (suit, bits, ok) = dotted_fold(t, n - 1);
        let c = t[n - 1];
        if !ok {
            (suit, bits, ok)
        } else if c == '.' {
            (suit + 1, bits, ok)
        } else if c == '-' {
            (suit, bits, ok)
        } else {
            match spec_char_to_rank(c) {
                None => (suit, bits, false),
                Some(rank) => if suit < 4 {
                    (suit, bits | (1u64 << (spec_card_of(suit, rank as int) as u64)), ok)
                } else {
                    (suit, bits, ok)
                },
            }
        }
    }
}

/// A hand written as four dot-separated suits, spades first, each a string
/// of rank characters; `-` marks nothing and may stand anywhere.
pub open spec fn spec_dotted_hand(t: Seq<char>) -> Option<u64> {
    let (suit, bits, ok) = dotted_fold(t, t.len() as int);
    if ok && suit == 3 {
        Some(bits)
    } else {
        None
    }
}

/// Where a PBN deal starts (`N:` names the first seat; North if absent), and
/// the rest of the text.
pub open spec fn pbn_start(s: Seq<char>) -> Option<(int, Seq<char>)> {
    if s.len() >= 2 && s[1] == ':' {
        match spec_char_to_seat(s[0]) {
            Some(seat) => Some((seat as int, s.subrange(2, s.len() as int))),
            None => None,
        }
    } else {
        Some((NORTH as int, s))
    }
}

/// The deal a PBN string describes, as the bits of each seat's hand: four
/// dotted hands separated by white space, dealt clockwise from the first seat.
pub open spec fn spec_from_pbn(s: Seq<char>) -> Option<Seq<u64>> {
    match pbn_start(s) {
        None => None,
        Some((start, rest)) => {
            let ws = words(rest);
            if ws.len() == 4 && (forall|i: int| 0 <= i < 4 ==> spec_dotted_hand(ws[i]) is Some) {
                Some(Seq::new(4, |seat: int| spec_dotted_hand(ws[(seat - start) % 4]).unwrap()))
            } else {
                None
            }
        }
    }
}

/// The characters a solver-format hand keeps; anything else (suit symbols,
/// tabs) is dropped before reading.
pub open spec fn is_rank_char(c: char) -> bool {
    c == 'A' || c == 'a' || c == 'K' || c == 'k' || c == 'Q' || c == 'q' || c == 'J' || c == 'j'
        || c == 'T' || c == 't' || ('0' <= c && c <= '9') || c == 'X' || c == 'x' || c == '-' || c
        == ' '
}

/// State of reading one space-separated suit of `suit` through `w[..n]`: the
/// cards so far, whether all was valid, and whether the next character is the
/// `0` of a `10`.
pub open spec fn spaced_fold(w: Seq<char>, suit: int, n: int) -> (u64, bool, bool)
    decreases n,
{
    if n <= 0 {
        (0u64, true, false)
    } else {
        let (bits, ok, skip) = spaced_fold(w, suit, n - 1);
        let k = n - 1;
        let c = w[k];
        if !ok {
            (bits, ok, skip)
        } else if skip {
            (bits, ok, false)
        } else if c == '-' {
            (bits, ok, false)
        } else if c == '1' && !(k + 1 < w.len() && w[k + 1] == '0') {
            (bits, false, false)
        } else {
            match spec_char_to_rank(c) {
                None => (bits, false, false),
                Some(rank) => (
                    bits | (1u64 << (spec_card_of(suit, rank as int) as u64)),
                    ok,
                    c == '1',
                ),
            }
        }
    }
}

/// One suit of a solver-format hand: its cards, or `None` if unreadable.
pub open spec fn spec_spaced_suit(w: Seq<char>, suit: int) -> Option<u64> {
    if w == seq!['-'] {
        Some(0u64)
    } else {
        let (bits, ok, skip) = spaced_fold(w, suit, w.len() as int);
        if ok {
            Some(bits)
        } else {
            None
        }
    }
}

/// The cards of suits `0..n` of a solver-format hand.
pub open spec fn spaced_suits(ws: Seq<Seq<char>>, n: int) -> Option<u64>
    decreases n,
{
    if n <= 0 {
        Some(0u64)
    } else {
        match (spaced_suits(ws, n - 1), spec_spaced_suit(ws[n - 1], n - 1)) {
            (Some(a), Some(b)) => Some(a | b),
            _ => None,
        }
    }
}

/// A hand in solver format: one to four space-separated suits, spades first,
/// missing suits void; `-` is a void suit, `10` may spell the ten, and any
/// character outside the rank alphabet is ignored.
pub open spec fn spec_spaced_hand(s: Seq<char>) -> Option<u64> {
    let ws = words(s.filter(|c: char| is_rank_char(c)));
    if ws.len() == 0 || ws.len() > 4 {
        None
    } else {
        spaced_suits(ws, ws.len() as int)
    }
}

impl Hands {
    /// Four empty hands.
    pub fn new() -> (r: Hands)
        ensures
            r@.len() == 4,
            forall|s: int| 0 <= s < 4 ==> r@[s]@ == 0,
    {
        Hands { hands: [Cards::new(), Cards::new(), Cards::new(), Cards::new()] }
    }

    /// There are four hands.
    pub proof fn lemma_len(&self)
        ensures
            self@.len() == 4,
    {
    }

    /// The hand of `seat`.
    pub fn hand(&self, seat: Seat) -> (r: Cards)
        requires
            seat < NUM_SEATS,
        ensures
            r == self@[seat as int],
    {
        self.hands[seat]
    }

    /// Replace the hand of `seat`.
    pub fn set_hand(&mut self, seat: Seat, cards: Cards)
        requires
            seat < NUM_SEATS,
        ensures
            final(self)@ == old(self)@.update(seat as int, cards),
    {
        self.hands[seat] = cards;
    }

    /// The hand of `seat`, to change in place.
    pub fn hand_mut(&mut self, seat: Seat) -> (r: &mut Cards)
        requires
            seat < NUM_SEATS,
        ensures
            *r == old(self)@[seat as int],
            final(self)@ == old(self)@.update(seat as int, *final(r)),
    {
        &mut self.hands[seat]
    }

    /// Every card still held, by anyone.
    pub fn all_cards(&self) -> (r: Cards)
        ensures
            r@ == self@[0]@ | self@[1]@ | self@[2]@ | self@[3]@,
            r.set() == self@[0].set() + self@[1].set() + self@[2].set() + self@[3].set(),
    {
        self.hands[WEST].union(self.hands[NORTH]).union(self.hands[EAST]).union(
            self.hands[SOUTH],
        )
    }

    /// The cards of `seat` and its partner.
    pub fn partnership_cards(&self, seat: Seat) -> (r: Cards)
        requires
            seat < NUM_SEATS,
        ensures
            r@ == self@[seat as int]@ | self@[(seat + 2) % 4]@,
    {
        self.hands[seat].union(self.hands[partner(seat)])
    }

    /// The cards of the two opponents of `seat`.
    pub fn opponent_cards(&self, seat: Seat) -> (r: Cards)
        requires
            seat < NUM_SEATS,
        ensures
            r@ == self@[(seat + 1) % 4]@ | self@[(seat + 3) % 4]@,
    {
        self.hands[left_hand_opp(seat)].union(self.hands[right_hand_opp(seat)])
    }

    /// The number of tricks left to play: the size of West's hand.
    pub fn num_tricks(&self) -> (r: usize)
        ensures
            r == popcount(self@[WEST as int]@),
            r <= 64,
    {
        self.hands[WEST].size()
    }

    /// True only when every seat holds thirteen cards.
    pub fn is_complete(&self) -> (r: bool)
        ensures
            r == (forall|s: int| 0 <= s < 4 ==> popcount(#[trigger] self@[s]@) == 13),
    {
        let r = self.hands[0].size() == 13 && self.hands[1].size() == 13 && self.hands[2].size()
            == 13 && self.hands[3].size() == 13;
        proof {
            if !r {
                assert(!(popcount(self@[0]@) == 13 && popcount(self@[1]@) == 13 && popcount(
                    self@[2]@,
                ) == 13 && popcount(self@[3]@) == 13));
            }
        }
        r
    }

    /// Read a deal in PBN form, `N:AKQT3.J6.KJ42.95 652.AK42.AQ87.T4 ...`:
    /// four dotted hands in clockwise order from the seat before the colon
    /// (North when there is none).
    pub fn from_pbn(s: &str) -> (r: Option<Hands>)
        ensures
            spec_from_pbn(s@) is Some <==> r is Some,
            r matches Some(h) ==> h@.len() == 4 && hand_bits(h@) == spec_from_pbn(s@).unwrap(),
    {
        let cs = chars_of(s);
        let mut start: usize = NORTH;
        let mut rest: Vec<char> = Vec::new();
        if cs.len() >= 2 && cs[1] == ':' {
            match char_to_seat(cs[0]) {
                Some(seat) => {
                    start = seat;
                },
                None => {
                    return None;
                },
            }
            let mut i: usize = 2;
            while i < cs.len()
                invariant
                    2 <= i <= cs.len(),
                    rest@ == cs@.subrange(2, i as int),
                decreases cs.len() - i,
            {
                rest.push(cs[i]);
                i += 1;
            }
        } else {
            rest = cs;
        }
        proof {
            assert(pbn_start(s@) == Some((start as int, rest@)));
        }
        let ws = split_words(&rest);
        proof {
            assert(ws@.len() == words(rest@).len());
        }
        if ws.len() != 4 {
            return None;
        }
        let ghost wv = words(rest@);
        let mut hands = Hands::new();
        let mut i: usize = 0;
        while i < 4
            invariant
                i <= 4,
                start < 4,
                ws@.len() == 4,
                wv == words(rest@),
                pbn_start(s@) == Some((start as int, rest@)),
                ws@.map_values(|w: Vec<char>| w@) == wv,
                hands@.len() == 4,
                forall|j: int| 0 <= j < i ==> spec_dotted_hand(wv[j]) is Some,
                forall|j: int|
                    0 <= j < i ==> hands@[(start + j) % 4]@ == spec_dotted_hand(wv[j]).unwrap(),
            decreases 4 - i,
        {
            proof {
                assert(ws@[i as int]@ == wv[i as int]);
            }
            let seat = (start + i) % NUM_SEATS;
            match parse_hand(&ws[i]) {
                Some(c) => {
                    hands.hands[seat] = c;
                },
                None => {
                    proof {
                        assert(!(spec_dotted_hand(wv[i as int]) is Some));
                    }
                    return None;
                },
            }
            proof {
                assert forall|j: int| 0 <= j < i + 1 implies hands@[(start + j) % 4]@
                    == spec_dotted_hand(wv[j]).unwrap() by {
                    if j < i {
                        assert((start + j) % 4 != (start + i) % 4);
                    }
                }
            }
            i += 1;
        }
        proof {
            let target = Seq::new(4, |seat: int| spec_dotted_hand(wv[(seat - start) % 4]).unwrap());
            assert forall|seat: int| 0 <= seat < 4 implies hand_bits(hands@)[seat] == target[seat] by {
                let j = (seat - start) % 4;
                assert(0 <= j < 4);
                assert((start + j) % 4 == seat);
            }
            assert(hand_bits(hands@) =~= target);
        }
        Some(hands)
    }

    /// Read a deal in solver format: four hands, North, West, East and South,
    /// each one to four space-separated suits.
    pub fn from_solver_format(n: &str, w: &str, e: &str, s: &str) -> (r: Option<Hands>)
        ensures
            r is Some <==> (spec_spaced_hand(n@) is Some && spec_spaced_hand(w@) is Some
                && spec_spaced_hand(e@) is Some && spec_spaced_hand(s@) is Some),
            r matches Some(h) ==> h@.len() == 4 && h@[NORTH as int]@ == spec_spaced_hand(n@).unwrap()
                && h@[WEST as int]@ == spec_spaced_hand(w@).unwrap() && h@[EAST as int]@
                == spec_spaced_hand(e@).unwrap() && h@[SOUTH as int]@ == spec_spaced_hand(
                s@,
            ).unwrap(),
    {
        let mut hands = Hands::new();
        hands.hands[NORTH] = parse_hand_spaces(n)?;
        hands.hands[WEST] = parse_hand_spaces(w)?;
        hands.hands[EAST] = parse_hand_spaces(e)?;
        hands.hands[SOUTH] = parse_hand_spaces(s)?;
        Some(hands)
    }
}

/// Read one dotted hand.
fn parse_hand(t: &Vec<char>) -> (r: Option<Cards>)
    ensures
        r is Some <==> spec_dotted_hand(t@) is Some,
        r matches Some(c) ==> c@ == spec_dotted_hand(t@).unwrap(),
{
    let mut suit: usize = 0;
    let mut cards = Cards::new();
    let mut i: usize = 0;
    while i < t.len()
        invariant
            i <= t.len(),
            suit <= i,
            dotted_fold(t@, i as int) == (suit as int, cards@, true),
        decreases t.len() - i,
    {
        let c = t[i];
        if c == '.' {
            suit += 1;
        } else if c != '-' {
            match char_to_rank(c) {
                None => {
                    proof {
                        lemma_dotted_fails(t@, i as int + 1);
                    }
                    return None;
                },
                Some(rank) => {
                    if suit < 4 {
                        cards.add(card_of(suit, rank));
                    }
                },
            }
        }
        i += 1;
    }
    if suit == 3 {
        Some(cards)
    } else {
        None
    }
}

/// Once a dotted hand has an invalid character, it stays invalid.
proof fn lemma_dotted_fails(t: Seq<char>, n: int)
    requires
        0 <= n <= t.len(),
        !dotted_fold(t, n).2,
    ensures
        !dotted_fold(t, t.len() as int).2,
    decreases t.len() - n,
{
    if n < t.len() {
        lemma_dotted_fails(t, n + 1);
    }
}

/// Once a spaced suit has an invalid character, it stays invalid.
proof fn lemma_spaced_fails(w: Seq<char>, suit: int, n: int)
    requires
        0 <= n <= w.len(),
        !spaced_fold(w, suit, n).1,
    ensures
        !spaced_fold(w, suit, w.len() as int).1,
    decreases w.len() - n,
{
    if n < w.len() {
        lemma_spaced_fails(w, suit, n + 1);
    }
}

/// Read one space-separated suit.
fn parse_spaced_suit(w: &Vec<char>, suit: usize) -> (r: Option<Cards>)
    requires
        suit < 4,
    ensures
        r is Some <==> spec_spaced_suit(w@, suit as int) is Some,
        r matches Some(c) ==> c@ == spec_spaced_suit(w@, suit as int).unwrap(),
{
    if w.len() == 1 && w[0] == '-' {
        proof {
            assert(w@ =~= seq!['-']);
        }
        return Some(Cards::new());
    }
    proof {
        assert(w@ != seq!['-']) by {
            if w@ == seq!['-'] {
                assert(w@.len() == 1);
            }
        }
    }
    let mut cards = Cards::new();
    let mut skip = false;
    let mut i: usize = 0;
    while i < w.len()
        invariant
            i <= w.len(),
            suit < 4,
            spaced_fold(w@, suit as int, i as int) == (cards@, true, skip),
        decreases w.len() - i,
    {
        let c = w[i];
        if skip {
            skip = false;
        } else if c == '-' {
        } else if c == '1' && !(i + 1 < w.len() && w[i + 1] == '0') {
            proof {
                lemma_spaced_fails(w@, suit as int, i as int + 1);
            }
            return None;
        } else {
            match char_to_rank(c) {
                None => {
                    proof {
                        lemma_spaced_fails(w@, suit as int, i as int + 1);
                    }
                    return None;
                },
                Some(rank) => {
                    cards.add(card_of(suit, rank));
                    skip = c == '1';
                },
            }
        }
        i += 1;
    }
    Some(cards)
}

/// Read one hand in solver format.
fn parse_hand_spaces(s: &str) -> (r: Option<Cards>)
    ensures
        r is Some <==> spec_spaced_hand(s@) is Some,
        r matches Some(c) ==> c@ == spec_spaced_hand(s@).unwrap(),
{
    let cs = chars_of(s);
    let mut filtered: Vec<char> = Vec::new();
    let mut i: usize = 0;
    while i < cs.len()
        invariant
            i <= cs.len(),
            filtered@ == cs@.subrange(0, i as int).filter(|c: char| is_rank_char(c)),
        decreases cs.len() - i,
    {
        let c = cs[i];
        proof {
            reveal_with_fuel(Seq::filter, 1);
            assert(cs@.subrange(0, i as int + 1).drop_last() =~= cs@.subrange(0, i as int));
        }
        if c == 'A' || c == 'a' || c == 'K' || c == 'k' || c == 'Q' || c == 'q' || c == 'J' || c
            == 'j' || c == 'T' || c == 't' || ('0' <= c && c <= '9') || c == 'X' || c == 'x' || c
            == '-' || c == ' ' {
            filtered.push(c);
        }
        i += 1;
    }
    proof {
        assert(cs@.subrange(0, cs@.len() as int) =~= cs@);
    }
    let ws = split_words(&filtered);
    let ghost wv = words(filtered@);
    proof {
        assert(ws@.len() == wv.len());
    }
    if ws.len() == 0 || ws.len() > 4 {
        return None;
    }
    let mut cards = Cards::new();
    let mut k: usize = 0;
    while k < ws.len()
        invariant
            k <= ws@.len() <= 4,
            ws@.map_values(|w: Vec<char>| w@) == wv,
            wv == words(s@.filter(|c: char| is_rank_char(c))),
            spaced_suits(wv, k as int) == Some(cards@),
        decreases ws.len() - k,
    {
        proof {
            assert(ws@[k as int]@ == wv[k as int]);
        }
        match parse_spaced_suit(&ws[k], k) {
            Some(c) => {
                cards = cards.union(c);
            },
            None => {
                proof {
                    assert(spec_spaced_suit(wv[k as int], k as int) is None);
                    assert(spaced_suits(wv, k as int + 1) is None);
                    lemma_spaced_suits_fail(wv, k as int + 1, ws@.len() as int);
                }
                return None;
            },
        }
        k += 1;
    }
    Some(cards)
}

/// Once a suit of a solver-format hand is unreadable, the hand is.
proof fn lemma_spaced_suits_fail(ws: Seq<Seq<char>>, n: int, m: int)
    requires
        1 <= n <= m,
        spaced_suits(ws, n) is None,
    ensures
        spaced_suits(ws, m) is None,
    decreases m - n,
{
    if n < m {
        lemma_spaced_suits_fail(ws, n + 1, m);
    }
}

} // verus!
