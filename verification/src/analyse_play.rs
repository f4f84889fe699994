//! Double-dummy analysis of a played hand: what each card played cost its
//! side, what the alternatives at one decision were worth, and how the hand
//! should have gone on from any point.
//!
//! Everything is counted in tricks of the declaring side over the whole
//! deal, so that declarer's and the defenders' errors read the same way.
//! The solver counts North-South tricks; the declaring side's count is that,
//! or the deal's tricks less it when East-West declare.
//!
//! The first tier walks the play: `V_k` is the declaring side's tricks of
//! the position before card `k` (tricks won so far and the best of the
//! rest). The card that moves `V_k` to `V_{k+1}` cost its side the fall
//! (for declarer and dummy) or the rise (for a defender). A card with no
//! alternative cannot move the value and is not solved.
//!
//! The second tier takes one decision and prices every legal card there.

use vstd::prelude::*;
use std::collections::HashMap;
use crate::bridge_solver::{PartialTrick, PlayedCard, Solver};
use crate::cards::{
    Cards, card_of, name_of, rank_of, suit_of, higher_rank, popcount, suit_mask, bit, spec_suit_of,
    spec_rank_of, spec_card_of, spec_name_of,
};
use crate::hands::{Hands, hand_bits};
use crate::pattern::PatternCache;
use crate::search::{CutoffCache, get_playable_cards, is_equivalent, valid_hands, partial_ok, max_size, in_deck};
use crate::text::{
    chars_of, string_of, trim, spec_trim, ascii_upper, spec_ascii_upper_seq, push_decimal, push_all,
    spec_decimal, split_words, words, join, join_words, hex_string,
};
use sha2::{Digest, Sha256};
use crate::types::{
    Seat, Suit, NUM_SEATS, NUM_SUITS, NUM_RANKS, SPADE, HEART, DIAMOND, CLUB, NOTRUMP, is_ns, spec_is_ns,
    partner, seat_letter, spec_seat_letter, char_to_seat, spec_char_to_seat, char_to_suit,
    spec_char_to_suit, char_to_rank, spec_char_to_rank, suit_char, spec_suit_char,
};

verus! {

/// One card of the running trace, with what it cost.
#[derive(Clone, Debug, PartialEq)]
pub struct TraceEntry {
    /// Where in the play the card stands, from 0.
    pub index: usize,
    /// The seat that played it: `"N"`, `"E"`, `"S"` or `"W"`.
    pub seat: String,
    /// The card, as `"HK"`.
    pub card: String,
    /// Tricks the player's side gave away against best play.
    pub cost: u8,
}

/// A legal card at a decision, with its double-dummy outcome.
#[derive(Clone, Debug, PartialEq)]
pub struct Alternative {
    /// The card, as `"S9"`.
    pub card: String,
    /// The declaring side's tricks over the deal if this card is played and
    /// both sides play perfectly after it.
    pub tricks: u8,
    /// How far `tricks` falls short of the best card's.
    pub cost: u8,
}

/// The prices at one decision.
#[derive(Clone, Debug, PartialEq)]
pub struct NodeAnalysis {
    pub index: usize,
    pub seat: String,
    /// The card actually played there.
    pub card: String,
    pub cost: u8,
    /// Every legal card, touching cards of a lead sharing one price.
    pub alternatives: Vec<Alternative>,
}

/// The running trace, with the position values it had to compute.
#[derive(Clone, Debug, PartialEq)]
pub struct Tier1Output {
    /// `V_0`: the contract's double-dummy result from the opening lead.
    pub contract_tricks: u8,
    pub trace: Vec<TraceEntry>,
    /// `(position key, North-South value)` for the positions not found in
    /// the cache handed in.
    pub new_entries: Vec<(String, u8)>,
}

/// A perfect continuation of a hand from some point of it.
#[derive(Clone, Debug, PartialEq)]
pub struct OptimalLine {
    /// The play index it starts at; the record stands before it.
    pub from: usize,
    /// The cards played from there to the end, in order.
    pub cards: Vec<String>,
    /// The seat that played each of them.
    pub seats: Vec<String>,
    /// The declaring side's tricks at the end of the line.
    pub declaring_tricks: u8,
}

/// A hand to analyse: the deal, the strain, who declares and who leads,
/// and the cards played so far (perhaps all of them).
pub struct PlayInput {
    pub hands: Hands,
    /// A suit, or `NOTRUMP`.
    pub trump: usize,
    pub declarer: usize,
    /// The opening leader, declarer's left-hand opponent.
    pub leader: usize,
    /// The cards played, in order.
    pub plays: Vec<usize>,
}

/// Why a record of play cannot be replayed.
#[derive(Clone, Debug, PartialEq)]
pub enum PlayError {
    /// The seat on turn does not hold the card.
    NotHeld { play_index: usize, card: String, seat: char },
    /// The seat could follow suit and did not.
    Revoke { play_index: usize, card: String, seat: char, lead: char },
    /// `node` is past the end of a record of `plays` cards.
    NodeOutOfRange { node: usize, plays: usize },
}

/// Whether card `c` beats `best`, the card winning the trick so far: higher
/// in the same suit, or a trump against anything else.
pub open spec fn spec_wins_over(c: int, best: int, trump: int) -> bool {
    if spec_suit_of(c) == spec_suit_of(best) {
        c < best
    } else {
        trump < 4 && spec_suit_of(c) == trump
    }
}

/// The play winning the first `n` plays of a trick.
pub open spec fn winner_fold(p: Seq<PlayedCard>, trump: int, n: int) -> PlayedCard
    decreases n,
{
    if n <= 1 {
        p[0]
    } else {
        let best = winner_fold(p, trump, n - 1);
        if spec_wins_over(p[n - 1].card as int, best.card as int, trump) {
            p[n - 1]
        } else {
            best
        }
    }
}

/// The seat winning a trick.
pub open spec fn spec_trick_winner(p: Seq<PlayedCard>, trump: int) -> int {
    winner_fold(p, trump, p.len() as int).seat as int
}

/// The seat on turn: the leader to an empty trick, else the seat after the
/// last to play.
pub open spec fn spec_seat_to_play(p: Seq<PlayedCard>, leader: int) -> int {
    if p.len() == 0 {
        leader
    } else {
        (p.last().seat + 1) % 4
    }
}

/// The suit led to a trick, if one has been.
pub open spec fn spec_lead_suit(p: Seq<PlayedCard>) -> Option<usize> {
    if p.len() == 0 {
        None
    } else {
        Some(spec_suit_of(p[0].card as int) as usize)
    }
}

/// The cards of hand `h` that may be played: those of the suit led if it
/// holds any.
pub open spec fn playable_word(h: u64, lead: Option<usize>) -> u64 {
    match lead {
        Some(s) => if h & suit_mask(s as int) != 0 {
            h & suit_mask(s as int)
        } else {
            h
        },
        None => h,
    }
}

/// A position of a hand being played: the hands, the trick so far, the
/// leader to it, and North-South's tricks.
pub type Position = (Seq<u64>, Seq<PlayedCard>, int, int);

/// The position after `seat` plays `card`: the card leaves the hand and
/// joins the trick; a full trick goes to its winner, who leads next.
pub open spec fn spec_apply(s: Position, seat: int, card: int, trump: int) -> Position {
    let h = s.0.update(seat, s.0[seat] & !(1u64 << (card as u64)));
    let p = s.1.push(PlayedCard { card: card as usize, seat: seat as usize });
    if p.len() == 4 {
        let w = spec_trick_winner(p, trump);
        (h, Seq::empty(), w, if spec_is_ns(w) { s.3 + 1 } else { s.3 })
    } else {
        (h, p, s.2, s.3)
    }
}

/// What is wrong with `seat` playing `card` with hands `h` and the trick
/// `p` so far: 0 for nothing, 1 when the seat does not hold the card, 2 when
/// it fails to follow suit.
pub open spec fn spec_check_at(h: Seq<u64>, p: Seq<PlayedCard>, seat: int, card: int) -> int {
    if !bit(h[seat], card) {
        1
    } else if !bit(playable_word(h[seat], spec_lead_suit(p)), card) {
        2
    } else {
        0
    }
}

/// What is wrong with playing `card` at `s`, by the seat on turn.
pub open spec fn spec_check(s: Position, card: int) -> int {
    spec_check_at(s.0, s.1, spec_seat_to_play(s.1, s.2), card)
}

/// The position after the first `k` cards of `plays`.
pub open spec fn replay(h0: Seq<u64>, leader: int, plays: Seq<usize>, trump: int, k: int) -> Position
    decreases k,
{
    if k <= 0 {
        (h0, Seq::empty(), leader, 0)
    } else {
        let s = replay(h0, leader, plays, trump, k - 1);
        spec_apply(s, spec_seat_to_play(s.1, s.2), plays[k - 1] as int, trump)
    }
}

/// The first of the first `n` cards of `plays` that cannot be played.
pub open spec fn first_illegal(h0: Seq<u64>, leader: int, plays: Seq<usize>, trump: int, n: int) -> Option<int>
    decreases n,
{
    if n <= 0 {
        None
    } else {
        match first_illegal(h0, leader, plays, trump, n - 1) {
            Some(i) => Some(i),
            None => if spec_check(replay(h0, leader, plays, trump, n - 1), plays[n - 1] as int) != 0 {
                Some(n - 1)
            } else {
                None
            },
        }
    }
}

/// Whether `e` is the error for `seat` playing `card` as play `index`.
pub open spec fn is_play_error_at(
    e: PlayError,
    h: Seq<u64>,
    p: Seq<PlayedCard>,
    seat: int,
    card: int,
    index: int,
) -> bool {
    let code = spec_check_at(h, p, seat, card);
    match e {
        PlayError::NotHeld { play_index, card: name, seat: letter } => {
            &&& code == 1
            &&& play_index == index
            &&& name@ == spec_name_of(card)
            &&& letter == spec_seat_letter(seat)
        },
        PlayError::Revoke { play_index, card: name, seat: letter, lead } => {
            &&& code == 2
            &&& play_index == index
            &&& name@ == spec_name_of(card)
            &&& letter == spec_seat_letter(seat)
            &&& lead == (match spec_lead_suit(p) {
                Some(l) => spec_suit_char(l as int),
                None => '-',
            })
        },
        PlayError::NodeOutOfRange { .. } => false,
    }
}

/// Whether `e` is the error for playing `card` as play `index` at `s`.
pub open spec fn is_play_error(e: PlayError, s: Position, card: int, index: int) -> bool {
    is_play_error_at(e, s.0, s.1, spec_seat_to_play(s.1, s.2), card, index)
}

/// The state of a replay as the executable values hold it.
/// Whether the seat on turn at `s` has one legal card only.
pub open spec fn forced_at(s: Position) -> bool {
    popcount(playable_word(s.0[spec_seat_to_play(s.1, s.2)], spec_lead_suit(s.1))) == 1
}

pub open spec fn state_of(hands: Hands, partial: PartialTrick, leader: usize, ns_won: u8) -> Position {
    (hand_bits(hands@), partial.plays@, leader as int, ns_won as int)
}

/// The seat winning a complete trick: the highest trump, else the highest
/// card of the suit led.
pub fn trick_winner(pt: &PartialTrick, trump: usize) -> (r: usize)
    requires
        pt.plays@.len() >= 1,
    ensures
        r == spec_trick_winner(pt.plays@, trump as int),
{
    let mut best = pt.plays[0];
    let mut i: usize = 1;
    while i < pt.plays.len()
        invariant
            1 <= i <= pt.plays@.len(),
            best == winner_fold(pt.plays@, trump as int, i as int),
        decreases pt.plays@.len() - i,
    {
        let p = pt.plays[i];
        if wins_over(p.card, best.card, trump) {
            best = p;
        }
        i += 1;
    }
    best.seat
}

/// Whether card `c` beats `best` with `trump` as trumps (`NOTRUMP` for
/// none). A card of a third suit never wins: `best` is of the suit led or a
/// trump.
pub fn wins_over(c: usize, best: usize, trump: usize) -> (r: bool)
    ensures
        r == spec_wins_over(c as int, best as int, trump as int),
{
    let sc = suit_of(c);
    let sb = suit_of(best);
    if sc == sb {
        return higher_rank(c, best);
    }
    trump < NOTRUMP && sc == trump
}

/// The seat on turn.
pub fn seat_to_play(partial: &PartialTrick, leader: usize) -> (r: usize)
    ensures
        r == spec_seat_to_play(partial.plays@, leader as int),
{
    if partial.is_empty() {
        leader
    } else {
        match partial.next_to_play() {
            Some(s) => s,
            None => leader,
        }
    }
}

/// The cards `seat` may play: it must follow `lead_suit` when it can.
pub fn playable_cards(hands: &Hands, seat: usize, lead_suit: Option<usize>) -> (r: Cards)
    requires
        seat < NUM_SEATS,
    ensures
        r@ == playable_word(hands@[seat as int]@, lead_suit),
        r.set().subset_of(hands@[seat as int].set()),
{
    get_playable_cards(hands, seat, lead_suit)
}

/// Refuse a card the seat on turn does not hold, or a revoke.
fn validate_play(hands: &Hands, seat: usize, card: usize, partial: &PartialTrick, index: usize) -> (r: Result<(), PlayError>)
    requires
        seat < NUM_SEATS,
    ensures
        r is Ok <==> spec_check_at(hand_bits(hands@), partial.plays@, seat as int, card as int) == 0,
        r matches Err(e) ==> is_play_error_at(
            e,
            hand_bits(hands@),
            partial.plays@,
            seat as int,
            card as int,
            index as int,
        ),
{
    proof {
        hands.lemma_len();
    }
    if !hands.hand(seat).have(card) {
        return Err(PlayError::NotHeld { play_index: index, card: name_of(card), seat: seat_letter(seat) });
    }
    let lead = partial.lead_suit();
    if !playable_cards(hands, seat, lead).have(card) {
        let lead_char = match lead {
            Some(l) => suit_char(l),
            None => '-',
        };
        return Err(
            PlayError::Revoke {
                play_index: index,
                card: name_of(card),
                seat: seat_letter(seat),
                lead: lead_char,
            },
        );
    }
    Ok(())
}


/// Every play of a trick is by a real seat.
pub open spec fn seats_ok(p: Seq<PlayedCard>) -> bool {
    forall|i: int| 0 <= i < p.len() ==> (#[trigger] p[i]).seat < 4
}

proof fn lemma_winner_seat(p: Seq<PlayedCard>, trump: int, n: int)
    requires
        1 <= n <= p.len(),
        seats_ok(p),
    ensures
        winner_fold(p, trump, n).seat < 4,
    decreases n,
{
    if n > 1 {
        lemma_winner_seat(p, trump, n - 1);
    }
}

/// Play `card` for `seat`: out of the hand and into the trick; a complete
/// trick goes to its winner, who banks it and leads next.
pub fn apply_card(
    hands: &mut Hands,
    partial: &mut PartialTrick,
    leader: &mut usize,
    ns_won: &mut u8,
    seat: usize,
    card: usize,
    trump: usize,
)
    requires
        seat < NUM_SEATS,
        card < 64,
        old(partial).plays@.len() < 4,
        *old(ns_won) < 255,
        seats_ok(old(partial).plays@),
    ensures
        seats_ok(final(partial).plays@),
        card < 52 && partial_ok(*old(partial)) ==> partial_ok(*final(partial)),
        state_of(*final(hands), *final(partial), *final(leader), *final(ns_won)) == spec_apply(
            state_of(*old(hands), *old(partial), *old(leader), *old(ns_won)),
            seat as int,
            card as int,
            trump as int,
        ),
        final(partial).plays@.len() < 4,
        *final(leader) < 4 || *final(leader) == *old(leader),
{
    proof {
        hands.lemma_len();
    }
    let ghost h0 = hand_bits(hands@);
    {
        let hand = hands.hand_mut(seat);
        hand.remove(card);
    }
    proof {
        assert(hand_bits(hands@) =~= h0.update(seat as int, h0[seat as int] & !(1u64 << (card as u64))));
    }
    partial.add(card, seat);
    if partial.len() == 4 {
        let winner = trick_winner(partial, trump);
        proof {
            lemma_winner_seat(partial.plays@, trump as int, 4);
        }
        if is_ns(winner) {
            *ns_won = *ns_won + 1;
        }
        *leader = winner;
        *partial = PartialTrick::new();
        proof {
            assert(partial.plays@ =~= Seq::<PlayedCard>::empty());
        }
    }
}

/// The strain a text names: `S`, `H`, `D` or `C`, or `N`, `NT` or
/// `NOTRUMP`, in any case, with white space around it ignored.
pub open spec fn spec_parse_trump(s: Seq<char>) -> Option<usize> {
    let u = spec_ascii_upper_seq(spec_trim(s));
    if u == seq!['S'] {
        Some(SPADE)
    } else if u == seq!['H'] {
        Some(HEART)
    } else if u == seq!['D'] {
        Some(DIAMOND)
    } else if u == seq!['C'] {
        Some(CLUB)
    } else if u == seq!['N'] || u == seq!['N', 'T'] || u == seq!['N', 'O', 'T', 'R', 'U', 'M', 'P'] {
        Some(NOTRUMP)
    } else {
        None
    }
}

fn same_chars(a: &Vec<char>, b: &str) -> (r: bool)
    ensures
        r == (a@ == b@),
{
    let bv = chars_of(b);
    if a.len() != bv.len() {
        return false;
    }
    let mut i: usize = 0;
    while i < a.len()
        invariant
            i <= a@.len(),
            a@.len() == bv@.len(),
            bv@ == b@,
            forall|j: int| 0 <= j < i ==> a@[j] == bv@[j],
        decreases a@.len() - i,
    {
        if a[i] != bv[i] {
            return false;
        }
        i += 1;
    }
    proof {
        assert(a@ =~= bv@);
    }
    true
}

/// Read a strain: see [`spec_parse_trump`].
pub fn parse_trump(s: &str) -> (r: Option<usize>)
    ensures
        r == spec_parse_trump(s@),
{
    let t = trim(&chars_of(s));
    let mut u: Vec<char> = Vec::new();
    let mut i: usize = 0;
    while i < t.len()
        invariant
            i <= t@.len(),
            u@ == spec_ascii_upper_seq(t@).subrange(0, i as int),
        decreases t@.len() - i,
    {
        u.push(ascii_upper(t[i]));
        proof {
            assert(u@ =~= spec_ascii_upper_seq(t@).subrange(0, i as int + 1));
        }
        i += 1;
    }
    proof {
        assert(u@ =~= spec_ascii_upper_seq(t@));
        reveal_strlit("S");
        reveal_strlit("H");
        reveal_strlit("D");
        reveal_strlit("C");
        reveal_strlit("N");
        reveal_strlit("NT");
        reveal_strlit("NOTRUMP");
        assert("S"@ =~= seq!['S']);
        assert("H"@ =~= seq!['H']);
        assert("D"@ =~= seq!['D']);
        assert("C"@ =~= seq!['C']);
        assert("N"@ =~= seq!['N']);
        assert("NT"@ =~= seq!['N', 'T']);
        assert("NOTRUMP"@ =~= seq!['N', 'O', 'T', 'R', 'U', 'M', 'P']);
    }
    if same_chars(&u, "S") {
        Some(SPADE)
    } else if same_chars(&u, "H") {
        Some(HEART)
    } else if same_chars(&u, "D") {
        Some(DIAMOND)
    } else if same_chars(&u, "C") {
        Some(CLUB)
    } else if same_chars(&u, "N") || same_chars(&u, "NT") || same_chars(&u, "NOTRUMP") {
        Some(NOTRUMP)
    } else {
        None
    }
}

/// The seat a text names by its first character after white space.
pub open spec fn spec_parse_seat(s: Seq<char>) -> Option<usize> {
    let t = spec_trim(s);
    if t.len() == 0 {
        None
    } else {
        spec_char_to_seat(t[0])
    }
}

/// Read a seat: `N`, `E`, `S` or `W` (or a word starting with one).
pub fn parse_seat(s: &str) -> (r: Option<usize>)
    ensures
        r == spec_parse_seat(s@),
{
    let t = trim(&chars_of(s));
    if t.len() == 0 {
        return None;
    }
    char_to_seat(t[0])
}

/// The card a text names: a suit letter and a rank character, exactly two
/// characters once white space around them is dropped.
pub open spec fn spec_parse_card(s: Seq<char>) -> Option<usize> {
    let t = spec_trim(s);
    if t.len() != 2 {
        None
    } else {
        match spec_char_to_suit(t[0]) {
            Some(suit) => if suit >= 4 {
                None
            } else {
                match spec_char_to_rank(t[1]) {
                    Some(rank) => Some(spec_card_of(suit as int, rank as int) as usize),
                    None => None,
                }
            },
            None => None,
        }
    }
}

/// Read a card such as `"HK"`, `"H3"` or `"ST"`.
pub fn parse_card(s: &str) -> (r: Option<usize>)
    ensures
        r == spec_parse_card(s@),
        r matches Some(c) ==> c < 52,
{
    let t = trim(&chars_of(s));
    if t.len() != 2 {
        return None;
    }
    let suit = match char_to_suit(t[0]) {
        Some(x) => x,
        None => {
            return None;
        },
    };
    if suit >= NUM_SUITS {
        return None;
    }
    let rank = match char_to_rank(t[1]) {
        Some(x) => x,
        None => {
            return None;
        },
    };
    Some(card_of(suit, rank))
}

/// A lone character that is no white space is its own trimmed form, and
/// upper-cases to its upper-case letter.
proof fn lemma_single_char_text(c: char)
    requires
        !crate::text::spec_is_whitespace(c),
    ensures
        spec_ascii_upper_seq(spec_trim(seq![c])) == seq![crate::text::spec_ascii_upper(c)],
{
    let s = seq![c];
    assert(crate::text::trim_front(s) == s);
    assert(crate::text::trim_back(s) == s);
    assert(spec_ascii_upper_seq(s) =~= seq![crate::text::spec_ascii_upper(c)]);
}

/// A strain reads back from the letter it is written with, in upper or
/// lower case; and a single letter that reads as a strain is, upper-cased,
/// that strain's letter.
pub proof fn lemma_parse_trump_letter(t: usize, c: char)
    requires
        t <= NOTRUMP,
    ensures
        spec_parse_trump(seq![spec_suit_char(t as int)]) == Some(t),
        spec_parse_trump(seq![((spec_suit_char(t as int) as u32) + 32) as char]) == Some(t),
        spec_parse_trump(seq![c]) matches Some(u) ==> spec_suit_char(u as int)
            == crate::text::spec_ascii_upper(c),
{
    let up = spec_suit_char(t as int);
    let low = ((up as u32) + 32) as char;
    assert(up == 'S' || up == 'H' || up == 'D' || up == 'C' || up == 'N');
    assert(!crate::text::spec_is_whitespace(up));
    lemma_single_char_text(up);
    assert(crate::text::spec_ascii_upper(up) == up);
    assert(seq![up] != seq!['X']) by {
        assert(seq![up][0] != seq!['X'][0]);
    }
    assert(!crate::text::spec_is_whitespace(low));
    lemma_single_char_text(low);
    assert(crate::text::spec_ascii_upper(low) == up);
    let u1 = seq![up];
    assert(u1 == seq!['S'] <==> up == 'S') by {
        if up != 'S' {
            assert(u1[0] != seq!['S'][0]);
        }
    }
    assert(u1 == seq!['H'] <==> up == 'H') by {
        if up != 'H' {
            assert(u1[0] != seq!['H'][0]);
        }
    }
    assert(u1 == seq!['D'] <==> up == 'D') by {
        if up != 'D' {
            assert(u1[0] != seq!['D'][0]);
        }
    }
    assert(u1 == seq!['C'] <==> up == 'C') by {
        if up != 'C' {
            assert(u1[0] != seq!['C'][0]);
        }
    }
    assert(u1 == seq!['N'] <==> up == 'N') by {
        if up != 'N' {
            assert(u1[0] != seq!['N'][0]);
        }
    }
    if !crate::text::spec_is_whitespace(c) {
        lemma_single_char_text(c);
        let uc = crate::text::spec_ascii_upper(c);
        let u2 = seq![uc];
        assert(u2 == seq!['S'] ==> uc == 'S') by {
            if u2 == seq!['S'] {
                assert(u2[0] == seq!['S'][0]);
            }
        }
        assert(u2 == seq!['H'] ==> uc == 'H') by {
            if u2 == seq!['H'] {
                assert(u2[0] == seq!['H'][0]);
            }
        }
        assert(u2 == seq!['D'] ==> uc == 'D') by {
            if u2 == seq!['D'] {
                assert(u2[0] == seq!['D'][0]);
            }
        }
        assert(u2 == seq!['C'] ==> uc == 'C') by {
            if u2 == seq!['C'] {
                assert(u2[0] == seq!['C'][0]);
            }
        }
        assert(u2 == seq!['N'] ==> uc == 'N') by {
            if u2 == seq!['N'] {
                assert(u2[0] == seq!['N'][0]);
            }
        }
        assert(u2 != seq!['N', 'T'] && u2 != seq!['N', 'O', 'T', 'R', 'U', 'M', 'P']) by {
            assert(u2.len() == 1);
        }
    } else {
        let s = seq![c];
        assert(crate::text::trim_front(s.drop_first()) == s.drop_first());
        assert(crate::text::trim_front(s) =~= Seq::<char>::empty());
        assert(crate::text::trim_back(Seq::<char>::empty()) == Seq::<char>::empty());
        assert(spec_ascii_upper_seq(Seq::<char>::empty()) =~= Seq::<char>::empty());
        assert(Seq::<char>::empty() != seq!['S'] && Seq::<char>::empty() != seq!['H'] && Seq::<char>::empty()
            != seq!['D'] && Seq::<char>::empty() != seq!['C'] && Seq::<char>::empty() != seq!['N']) by {
            assert(seq!['S'].len() == 1);
        }
    }
}

/// A card's name reads back as the card.
pub proof fn lemma_parse_card_name(card: int)
    requires
        0 <= card < 52,
    ensures
        spec_parse_card(spec_name_of(card)) == Some(card as usize),
{
    let n = spec_name_of(card);
    let suit = spec_suit_of(card);
    let rank = spec_rank_of(card);
    assert(!crate::text::spec_is_whitespace(n[0]));
    assert(!crate::text::spec_is_whitespace(n[1]));
    assert(crate::text::trim_front(n) == n);
    assert(n.last() == n[1]);
    assert(crate::text::trim_back(n) == n);
    assert(spec_trim(n) == n);
    assert(spec_char_to_suit(n[0]) == Some(suit as usize));
    assert(spec_char_to_rank(n[1]) == Some(rank as usize));
    assert(spec_card_of(suit, rank) == card);
}


/// The cards held by the four hands, counted hand by hand.
pub open spec fn hand_total(h: Seq<u64>) -> nat {
    popcount(h[0]) + popcount(h[1]) + popcount(h[2]) + popcount(h[3])
}

/// Playing a held card keeps a valid position valid and leaves one card
/// fewer in the hands.
proof fn lemma_after_play(h: Hands, h2: Hands, seat: int, card: int)
    requires
        valid_hands(h@),
        0 <= seat < 4,
        0 <= card < 64,
        bit(h@[seat]@, card),
        h2@.len() == 4,
        hand_bits(h2@) == hand_bits(h@).update(seat, h@[seat]@ & !(1u64 << (card as u64))),
    ensures
        valid_hands(h2@),
        hand_total(hand_bits(h2@)) + 1 == hand_total(hand_bits(h@)),
{
    crate::cards::lemma_popcount_remove(h@[seat]@, card as u64);
    assert forall|s: int| 0 <= s < 4 implies #[trigger] h2@[s]@ == (if s == seat {
        h@[seat]@ & !(1u64 << (card as u64))
    } else {
        h@[s]@
    }) by {
        assert(hand_bits(h2@)[s] == h2@[s]@);
        assert(hand_bits(h@)[s] == h@[s]@);
    }
    crate::cards::lemma_cardset_andnot(h@[seat]@, 1u64 << (card as u64));
    assert forall|s: int, c: int| 0 <= s < 4 && #[trigger] h2@[s].set().contains(c) implies 0 <= c
        < 52 by {
        assert(h@[s].set().contains(c));
    }
    assert(hand_bits(h2@)[0] == h2@[0]@);
    assert(hand_bits(h2@)[1] == h2@[1]@);
    assert(hand_bits(h2@)[2] == h2@[2]@);
    assert(hand_bits(h2@)[3] == h2@[3]@);
    assert(hand_bits(h@)[0] == h@[0]@);
    assert(hand_bits(h@)[1] == h@[1]@);
    assert(hand_bits(h@)[2] == h@[2]@);
    assert(hand_bits(h@)[3] == h@[3]@);
}

/// The size of the largest hand: the tricks left when a trick is starting.
fn max_hand_size(hands: &Hands) -> (r: usize)
    ensures
        r == max_size(hands@),
{
    proof {
        hands.lemma_len();
    }
    let a = hands.hand(0).size();
    let b = hands.hand(1).size();
    let c = hands.hand(2).size();
    let d = hands.hand(3).size();
    let ab = if a >= b {
        a
    } else {
        b
    };
    let cd = if c >= d {
        c
    } else {
        d
    };
    if ab >= cd {
        ab
    } else {
        cd
    }
}

/// North-South's tricks over the deal from this position: those won, and
/// the best of the rest. Each call has caches of its own: the bounds cache
/// is keyed by shape and seat alone, and a cache filled from one position
/// in the middle of a trick gives wrong bounds to another of the same shape.
fn solve_position_ns(hands: &Hands, partial: &PartialTrick, leader: usize, trump: usize, ns_won: u8) -> (r: u8)
    requires
        valid_hands(hands@),
        partial_ok(*partial),
        leader < NUM_SEATS,
        ns_won <= 200,
    ensures
        ns_won <= r <= ns_won + max_size(hands@),
{
    let remaining = max_hand_size(hands);
    if remaining == 0 {
        return ns_won;
    }
    let mut cutoff = CutoffCache::new(16);
    let mut pattern = PatternCache::new(16);
    proof {
        hands.lemma_len();
        assert(popcount(hands@[0]@) <= 13);
    }
    if partial.is_empty() {
        let solver = Solver::new(*hands, trump, leader);
        ns_won + solver.solve_with_caches(&mut cutoff, &mut pattern)
    } else {
        match Solver::new_mid_trick(*hands, trump, partial) {
            Some(solver) => {
                proof {
                    assert(partial.plays@[0].seat < 4);
                }
                ns_won + solver.solve_mid_trick(&mut cutoff, &mut pattern, partial)
            },
            None => ns_won,
        }
    }
}

/// North-South's tricks over the deal if `seat` plays `card` here and both
/// sides play perfectly after it.
pub fn ns_deal_total_after(
    hands: &Hands,
    partial: &PartialTrick,
    seat: usize,
    card: usize,
    trump: usize,
    ns_won: u8,
) -> (r: u8)
    requires
        valid_hands(hands@),
        partial_ok(*partial),
        seat < NUM_SEATS,
        card < 52,
        bit(hands@[seat as int]@, card as int),
        ns_won <= 199,
        seats_ok(partial.plays@),
    ensures
        ns_won <= r,
        r <= ns_won + 1 + max_size(hands@),
{
    let mut h = *hands;
    let mut pt = partial.copy();
    let mut leader = match pt.leader() {
        Some(l) => l,
        None => seat,
    };
    let mut nsw = ns_won;
    apply_card(&mut h, &mut pt, &mut leader, &mut nsw, seat, card, trump);
    proof {
        h.lemma_len();
        lemma_after_play(*hands, h, seat as int, card as int);
        lemma_max_size_le(hands@, h@);
    }
    solve_position_ns(&h, &pt, leader, trump, nsw)
}

proof fn lemma_max_size_le(a: Seq<Cards>, b: Seq<Cards>)
    requires
        a.len() == 4,
        b.len() == 4,
        forall|s: int| 0 <= s < 4 ==> popcount(#[trigger] b[s]@) <= popcount(a[s]@),
    ensures
        max_size(b) <= max_size(a),
{
}


/// What a cache of position values holds: the value stored under each key,
/// by the key's text.
pub uninterp spec fn cache_contents(m: HashMap<String, u8>) -> Map<Seq<char>, u8>;

/// The value a cache holds under the key `key`, if any.
pub open spec fn cache_get(c: Map<Seq<char>, u8>, key: Seq<char>) -> Option<u8> {
    if c.dom().contains(key) {
        Some(c[key])
    } else {
        None
    }
}

/// `HashMap::get` on the caller's cache of position values, with the value
/// copied out: the value stored under a key with the same text as `key`,
/// if there is one (`String` keys hash and compare by their text).
#[verifier::external_body]
fn cached_value(cached: &HashMap<String, u8>, key: &String) -> (r: Option<u8>)
    ensures
        r == cache_get(cache_contents(*cached), key@),
{
    cached.get(key).copied()
}

/// The entries a replay keeps for later, having used value `vals[k]` at the
/// position keyed `keys[k]`: those of the first `m` positions that the cache
/// `c` lacks, in order, with their values.
pub open spec fn fresh_entries(c: Map<Seq<char>, u8>, keys: Seq<String>, vals: Seq<u8>, m: int) -> Seq<
    (Seq<char>, u8),
>
    decreases m,
{
    if m <= 0 {
        Seq::empty()
    } else {
        let prev = fresh_entries(c, keys, vals, m - 1);
        if c.dom().contains(keys[m - 1]@) {
            prev
        } else {
            prev.push((keys[m - 1]@, vals[m - 1]))
        }
    }
}

/// The text of each key of a list of entries, with its value.
pub open spec fn entry_texts(e: Seq<(String, u8)>) -> Seq<(Seq<char>, u8)> {
    e.map_values(|x: (String, u8)| (x.0@, x.1))
}

/// How the value after card `k` of a replay was found: unchanged after a
/// forced card, else from the cache when it holds the position.
pub open spec fn step_value_ok(
    input: PlayInput,
    keys: Seq<String>,
    c: Map<Seq<char>, u8>,
    vals: Seq<u8>,
    k: int,
) -> bool {
    let s = replay(hand_bits(input.hands@), input.leader as int, input.plays@, input.trump as int, k);
    if forced_at(s) {
        vals[k + 1] == vals[k]
    } else {
        c.dom().contains(keys[k + 1]@) ==> vals[k + 1] == c[keys[k + 1]@]
    }
}

/// The declaring side's tricks over the deal of `input`, given North-South's.
pub open spec fn declaring_of(input: PlayInput, ns: u8) -> u8 {
    spec_declaring(spec_is_ns(input.declarer as int), popcount(input.hands@[0]@) as u8, ns)
}

/// Whether `out` is the first tier's account of `input` when the positions
/// it reached were worth `vals` to North-South: the opening value, each
/// card's cost as the swing it caused for its side, and the values of the
/// positions the cache `c` lacked.
pub open spec fn accounted(
    input: PlayInput,
    keys: Seq<String>,
    c: Map<Seq<char>, u8>,
    vals: Seq<u8>,
    out: Tier1Output,
) -> bool {
    let n = input.plays@.len() as int;
    let h0 = hand_bits(input.hands@);
    &&& vals.len() == n + 1
    &&& c.dom().contains(keys[0]@) ==> vals[0] == c[keys[0]@]
    &&& forall|k: int| 0 <= k < n ==> #[trigger] step_value_ok(input, keys, c, vals, k)
    &&& out.contract_tricks == declaring_of(input, vals[0])
    &&& forall|k: int|
        0 <= k < n ==> {
            let s = replay(h0, input.leader as int, input.plays@, input.trump as int, k);
            (#[trigger] out.trace@[k]).cost == spec_cost(
                on_declaring_side(spec_seat_to_play(s.1, s.2), input.declarer as int),
                declaring_of(input, vals[k]),
                declaring_of(input, vals[k + 1]),
            )
        }
    &&& entry_texts(out.new_entries@) == fresh_entries(c, keys, vals, n + 1)
}

/// Changing values past the first `m` leaves the first `m` positions'
/// entries alone.
proof fn lemma_fresh_entries_prefix(c: Map<Seq<char>, u8>, keys: Seq<String>, a: Seq<u8>, b: Seq<u8>, m: int)
    requires
        0 <= m <= a.len(),
        m <= b.len(),
        forall|i: int| 0 <= i < m ==> a[i] == b[i],
    ensures
        fresh_entries(c, keys, a, m) == fresh_entries(c, keys, b, m),
    decreases m,
{
    if m > 0 {
        lemma_fresh_entries_prefix(c, keys, a, b, m - 1);
    }
}

/// The declaring side's tricks, given North-South's: the same when
/// North-South declare, the rest of the deal's `total` otherwise.
pub open spec fn spec_declaring(decl_ns: bool, total: u8, ns: u8) -> u8 {
    if decl_ns {
        ns
    } else if ns <= total {
        (total - ns) as u8
    } else {
        0
    }
}

fn declaring(decl_ns: bool, total: u8, ns: u8) -> (r: u8)
    ensures
        r == spec_declaring(decl_ns, total, ns),
{
    if decl_ns {
        ns
    } else {
        total.saturating_sub(ns)
    }
}

/// What a card cost its side, given the declaring side's value before and
/// after it: the fall for declarer and dummy, the rise for a defender.
pub open spec fn spec_cost(declaring_side: bool, before: u8, after: u8) -> u8 {
    if declaring_side {
        if before >= after { (before - after) as u8 } else { 0 }
    } else {
        if after >= before { (after - before) as u8 } else { 0 }
    }
}

/// The text of a seat: its one letter.
pub open spec fn seat_text(seat: int) -> Seq<char> {
    seq![spec_seat_letter(seat)]
}

fn seat_string(seat: usize) -> (r: String)
    ensures
        r@ == seat_text(seat as int),
{
    let mut v: Vec<char> = Vec::new();
    v.push(seat_letter(seat));
    proof {
        assert(v@ =~= seat_text(seat as int));
    }
    string_of(&v)
}

/// The replay of `input` has reached `k` cards, all legal: the executable
/// state is the replayed position, still a valid one, with North-South's
/// tricks and the cards on the table accounted for by the cards played.
pub open spec fn replayed(
    input: PlayInput,
    hands: Hands,
    partial: PartialTrick,
    leader: usize,
    ns_won: u8,
    k: int,
) -> bool {
    &&& state_of(hands, partial, leader, ns_won) == replay(
        hand_bits(input.hands@),
        input.leader as int,
        input.plays@,
        input.trump as int,
        k,
    )
    &&& first_illegal(hand_bits(input.hands@), input.leader as int, input.plays@, input.trump as int, k) is None
    &&& valid_hands(hands@)
    &&& partial_ok(partial)
    &&& seats_ok(partial.plays@)
    &&& leader < 4
    &&& ns_won * 4 + partial.plays@.len() + hand_total(hand_bits(hands@)) <= 52
}

proof fn lemma_hand_total_bound(h: Hands)
    requires
        valid_hands(h@),
    ensures
        hand_total(hand_bits(h@)) <= 52,
{
    assert(hand_bits(h@)[0] == h@[0]@);
    assert(hand_bits(h@)[1] == h@[1]@);
    assert(hand_bits(h@)[2] == h@[2]@);
    assert(hand_bits(h@)[3] == h@[3]@);
    assert(popcount(h@[0]@) <= 13);
    assert(popcount(h@[1]@) <= 13);
    assert(popcount(h@[2]@) <= 13);
    assert(popcount(h@[3]@) <= 13);
}

/// Validate and play card `k` of the record, keeping [`replayed`].
fn replay_step(
    input: &PlayInput,
    hands: &mut Hands,
    partial: &mut PartialTrick,
    leader: &mut usize,
    ns_won: &mut u8,
    k: usize,
) -> (r: Result<(), PlayError>)
    requires
        k < input.plays@.len(),
        replayed(*input, *old(hands), *old(partial), *old(leader), *old(ns_won), k as int),
    ensures
        r is Ok ==> replayed(*input, *final(hands), *final(partial), *final(leader), *final(ns_won), k + 1),
        r matches Err(e) ==> first_illegal(
            hand_bits(input.hands@),
            input.leader as int,
            input.plays@,
            input.trump as int,
            k + 1,
        ) == Some(k as int) && is_play_error(
            e,
            replay(hand_bits(input.hands@), input.leader as int, input.plays@, input.trump as int, k as int),
            input.plays@[k as int] as int,
            k as int,
        ),
{
    let seat = seat_to_play(partial, *leader);
    let played = input.plays[k];
    proof {
        if partial.plays@.len() > 0 {
            assert(partial.plays@.last().seat < 4);
        }
    }
    match validate_play(hands, seat, played, partial, k) {
        Err(e) => {
            return Err(e);
        },
        Ok(()) => {},
    }
    proof {
        hands.lemma_len();
        assert(hand_bits(hands@)[seat as int] == hands@[seat as int]@);
        assert(bit(hands@[seat as int]@, played as int));
        assert(played < 64);
        assert(hands@[seat as int].set().contains(played as int));
    }
    let ghost h_before = *hands;
    apply_card(hands, partial, leader, ns_won, seat, played, trump_of(input));
    proof {
        hands.lemma_len();
        lemma_after_play(h_before, *hands, seat as int, played as int);
    }
    Ok(())
}

fn trump_of(input: &PlayInput) -> (r: usize)
    ensures
        r == input.trump,
{
    input.trump
}

/// The first tier: replay the record, pricing every card played by the
/// swing it caused in the deal's double-dummy value.
///
/// `keys[k]` is the cache key of the position after `plays[..k]` (see
/// [`prefix_keys`]); values found in `cached` are taken from it, the rest
/// are solved and returned in `new_entries`.
pub fn running_trace(
    input: &PlayInput,
    keys: &[String],
    cached: &HashMap<String, u8>,
) -> (r: Result<Tier1Output, PlayError>)
    requires
        valid_hands(input.hands@),
        input.leader < NUM_SEATS,
        keys@.len() > input.plays@.len(),
    ensures
        ({
            let h0 = hand_bits(input.hands@);
            let n = input.plays@.len() as int;
            match first_illegal(h0, input.leader as int, input.plays@, input.trump as int, n) {
                Some(i) => r matches Err(e) && is_play_error(
                    e,
                    replay(h0, input.leader as int, input.plays@, input.trump as int, i),
                    input.plays@[i] as int,
                    i,
                ),
                None => r matches Ok(out) && out.trace@.len() == n && (forall|k: int|
                    0 <= k < n ==> {
                        let s = replay(h0, input.leader as int, input.plays@, input.trump as int, k);
                        &&& (#[trigger] out.trace@[k]).index == k
                        &&& out.trace@[k].seat@ == seat_text(spec_seat_to_play(s.1, s.2))
                        &&& out.trace@[k].card@ == spec_name_of(input.plays@[k] as int)
                        &&& forced_at(s) ==> out.trace@[k].cost == 0
                    }) && exists|vals: Seq<u8>| #[trigger] accounted(
                    *input,
                    keys@,
                    cache_contents(*cached),
                    vals,
                    out,
                ),
            }
        }),
{
    let trump = input.trump;
    let declarer = input.declarer;
    let total = input.hands.num_tricks() as u8;
    let decl_ns = is_ns(declarer);
    let mut hands = input.hands;
    let mut partial = PartialTrick::new();
    let mut leader = input.leader;
    let mut ns_won: u8 = 0;
    let mut new_entries: Vec<(String, u8)> = Vec::new();
    proof {
        lemma_hand_total_bound(input.hands);
        assert(partial.plays@ =~= Seq::<PlayedCard>::empty());
    }
    let ghost c = cache_contents(*cached);
    let first = cached_value(cached, &keys[0]);
    let mut v_prev = match first {
        Some(x) => x,
        None => {
            let x = solve_position_ns(&hands, &partial, leader, trump, ns_won);
            new_entries.push((keys[0].clone(), x));
            x
        },
    };
    let ghost mut vals: Seq<u8> = seq![v_prev];
    proof {
        assert(fresh_entries(c, keys@, vals, 0) == Seq::<(Seq<char>, u8)>::empty());
        if first is None {
            assert(entry_texts(new_entries@) =~= seq![(keys@[0]@, v_prev)]);
        } else {
            assert(entry_texts(new_entries@) =~= Seq::<(Seq<char>, u8)>::empty());
        }
    }
    let contract_tricks = declaring(decl_ns, total, v_prev);
    let mut trace: Vec<TraceEntry> = Vec::new();
    let mut k: usize = 0;
    while k < input.plays.len()
        invariant
            k <= input.plays@.len(),
            keys@.len() > input.plays@.len(),
            trump == input.trump,
            declarer == input.declarer,
            decl_ns == spec_is_ns(input.declarer as int),
            total == popcount(input.hands@[0]@) as u8,
            c == cache_contents(*cached),
            vals.len() == k + 1,
            vals[k as int] == v_prev,
            c.dom().contains(keys@[0]@) ==> vals[0] == c[keys@[0]@],
            forall|j: int| 0 <= j < k ==> #[trigger] step_value_ok(*input, keys@, c, vals, j),
            contract_tricks == declaring_of(*input, vals[0]),
            forall|j: int|
                0 <= j < k ==> {
                    let s = replay(
                        hand_bits(input.hands@),
                        input.leader as int,
                        input.plays@,
                        input.trump as int,
                        j,
                    );
                    (#[trigger] trace@[j]).cost == spec_cost(
                        on_declaring_side(spec_seat_to_play(s.1, s.2), input.declarer as int),
                        declaring_of(*input, vals[j]),
                        declaring_of(*input, vals[j + 1]),
                    )
                },
            entry_texts(new_entries@) == fresh_entries(c, keys@, vals, k + 1),
            replayed(*input, hands, partial, leader, ns_won, k as int),
            trace@.len() == k,
            forall|j: int| 0 <= j < k ==> {
                let s = replay(
                    hand_bits(input.hands@),
                    input.leader as int,
                    input.plays@,
                    input.trump as int,
                    j,
                );
                &&& (#[trigger] trace@[j]).index == j
                &&& trace@[j].seat@ == seat_text(spec_seat_to_play(s.1, s.2))
                &&& trace@[j].card@ == spec_name_of(input.plays@[j] as int)
                &&& forced_at(s) ==> trace@[j].cost == 0
            },
        decreases input.plays@.len() - k,
    {
        let seat = seat_to_play(&partial, leader);
        let played = input.plays[k];
        proof {
            if partial.plays@.len() > 0 {
                assert(partial.plays@.last().seat < 4);
            }
        }
        let forced = playable_cards(&hands, seat, partial.lead_suit()).size() == 1;
        proof {
            hands.lemma_len();
            assert(hand_bits(hands@)[seat as int] == hands@[seat as int]@);
            assert(forced == forced_at(
                replay(hand_bits(input.hands@), input.leader as int, input.plays@, input.trump as int, k as int),
            ));
        }
        match replay_step(input, &mut hands, &mut partial, &mut leader, &mut ns_won, k) {
            Err(e) => {
                proof {
                    lemma_first_illegal_extends(
                        hand_bits(input.hands@),
                        input.leader as int,
                        input.plays@,
                        input.trump as int,
                        k as int + 1,
                        input.plays@.len() as int,
                    );
                }
                return Err(e);
            },
            Ok(()) => {},
        }
        let cached_next = cached_value(cached, &keys[k + 1]);
        let v_next = if forced {
            v_prev
        } else {
            match cached_next {
                Some(x) => x,
                None => solve_position_ns(&hands, &partial, leader, trump, ns_won),
            }
        };
        let ghost old_entries = new_entries@;
        let ghost old_vals = vals;
        proof {
            vals = vals.push(v_next);
            lemma_fresh_entries_prefix(c, keys@, old_vals, vals, k as int + 1);
        }
        if cached_next.is_none() {
            new_entries.push((keys[k + 1].clone(), v_next));
            proof {
                assert(entry_texts(new_entries@) =~= entry_texts(old_entries).push((keys@[k + 1]@, v_next)));
            }
        }
        let v_before = declaring(decl_ns, total, v_prev);
        let v_after = declaring(decl_ns, total, v_next);
        let cost = if seat == declarer || seat == partner(declarer) {
            v_before.saturating_sub(v_after)
        } else {
            v_after.saturating_sub(v_before)
        };
        let ghost old_trace = trace@;
        trace.push(TraceEntry { index: k, seat: seat_string(seat), card: name_of(played), cost });
        proof {
            let h0 = hand_bits(input.hands@);
            let s = replay(h0, input.leader as int, input.plays@, input.trump as int, k as int);
            assert(seat as int == spec_seat_to_play(s.1, s.2));
            assert(step_value_ok(*input, keys@, c, vals, k as int));
            assert forall|j: int| 0 <= j < k implies #[trigger] step_value_ok(*input, keys@, c, vals, j) by {
                assert(step_value_ok(*input, keys@, c, old_vals, j));
                assert(vals[j] == old_vals[j]);
                assert(vals[j + 1] == old_vals[j + 1]);
            }
            assert forall|j: int| 0 <= j < k + 1 implies {
                let s = replay(h0, input.leader as int, input.plays@, input.trump as int, j);
                (#[trigger] trace@[j]).cost == spec_cost(
                    on_declaring_side(spec_seat_to_play(s.1, s.2), input.declarer as int),
                    declaring_of(*input, vals[j]),
                    declaring_of(*input, vals[j + 1]),
                )
            } by {
                if j < k {
                    assert(trace@[j] == old_trace[j]);
                    assert(vals[j] == old_vals[j]);
                    assert(vals[j + 1] == old_vals[j + 1]);
                }
            }
        }
        v_prev = v_next;
        k += 1;
    }
    let out = Tier1Output { contract_tricks, trace, new_entries };
    let res: Result<Tier1Output, PlayError> = Ok(out);
    proof {
        assert(res->Ok_0 == out);
        assert(accounted(*input, keys@, c, vals, res->Ok_0));
    }
    res
}

/// Four words whose union is empty are each empty.
proof fn lemma_union_zero(a: u64, b: u64, c: u64, d: u64)
    by (bit_vector)
    requires
        a | b | c | d == 0,
    ensures
        a == 0 && b == 0 && c == 0 && d == 0,
{
}

/// Two records that agree on their first `k` cards reach the same position
/// after them, and find the same first illegal card among them.
proof fn lemma_replay_agree(h0: Seq<u64>, leader: int, p: Seq<usize>, q: Seq<usize>, trump: int, k: int)
    requires
        0 <= k <= p.len(),
        k <= q.len(),
        forall|i: int| 0 <= i < k ==> p[i] == q[i],
    ensures
        replay(h0, leader, p, trump, k) == replay(h0, leader, q, trump, k),
        first_illegal(h0, leader, p, trump, k) == first_illegal(h0, leader, q, trump, k),
    decreases k,
{
    if k > 0 {
        lemma_replay_agree(h0, leader, p, q, trump, k - 1);
    }
}

/// Whether card `j` of a play-out `cs` from card `from` of `input` is named
/// `cards[j]`, and the seat that played it `seats[j]`.
pub open spec fn line_entry_ok(
    input: PlayInput,
    from: int,
    cs: Seq<usize>,
    cards: Seq<String>,
    seats: Seq<String>,
    j: int,
) -> bool {
    let s = replay(
        hand_bits(input.hands@),
        input.leader as int,
        input.plays@.take(from) + cs,
        input.trump as int,
        from + j,
    );
    &&& cards[j]@ == spec_name_of(cs[j] as int)
    &&& seats[j]@ == seat_text(spec_seat_to_play(s.1, s.2))
}

/// One more legal card on a play-out keeps its account: the earlier cards
/// keep their positions, and the new one is named with the seat on turn.
proof fn lemma_line_step(
    input: PlayInput,
    from: int,
    cs: Seq<usize>,
    card: usize,
    cards: Seq<String>,
    seats: Seq<String>,
    name: String,
    seat_name: String,
)
    requires
        0 <= from <= input.plays@.len(),
        cards.len() == cs.len(),
        seats.len() == cs.len(),
        forall|j: int| 0 <= j < cs.len() ==> #[trigger] line_entry_ok(input, from, cs, cards, seats, j),
        first_illegal(
            hand_bits(input.hands@),
            input.leader as int,
            input.plays@.take(from) + cs,
            input.trump as int,
            from + cs.len(),
        ) is None,
        ({
            let s = replay(
                hand_bits(input.hands@),
                input.leader as int,
                input.plays@.take(from) + cs,
                input.trump as int,
                from + cs.len(),
            );
            &&& spec_check(s, card as int) == 0
            &&& name@ == spec_name_of(card as int)
            &&& seat_name@ == seat_text(spec_seat_to_play(s.1, s.2))
        }),
    ensures
        ({
            let h0 = hand_bits(input.hands@);
            let all_old = input.plays@.take(from) + cs;
            let all_new = input.plays@.take(from) + cs.push(card);
            let m = from + cs.len();
            &&& replay(h0, input.leader as int, all_new, input.trump as int, m + 1) == spec_apply(
                replay(h0, input.leader as int, all_old, input.trump as int, m),
                spec_seat_to_play(
                    replay(h0, input.leader as int, all_old, input.trump as int, m).1,
                    replay(h0, input.leader as int, all_old, input.trump as int, m).2,
                ),
                card as int,
                input.trump as int,
            )
            &&& first_illegal(h0, input.leader as int, all_new, input.trump as int, m + 1) is None
        }),
        forall|j: int|
            0 <= j < cs.len() + 1 ==> #[trigger] line_entry_ok(
                input,
                from,
                cs.push(card),
                cards.push(name),
                seats.push(seat_name),
                j,
            ),
{
    let h0 = hand_bits(input.hands@);
    let all_old = input.plays@.take(from) + cs;
    let cs2 = cs.push(card);
    let all_new = input.plays@.take(from) + cs2;
    let m = from + cs.len();
    assert(all_new =~= all_old.push(card));
    lemma_replay_agree(h0, input.leader as int, all_old, all_new, input.trump as int, m);
    assert(all_new[m] == card);
    assert forall|j: int| 0 <= j < cs.len() + 1 implies #[trigger] line_entry_ok(
        input,
        from,
        cs2,
        cards.push(name),
        seats.push(seat_name),
        j,
    ) by {
        if j < cs.len() {
            assert(line_entry_ok(input, from, cs, cards, seats, j));
            lemma_replay_agree(h0, input.leader as int, all_old, all_new, input.trump as int, from + j);
            assert(cs2[j] == cs[j]);
            assert(cards.push(name)[j] == cards[j]);
            assert(seats.push(seat_name)[j] == seats[j]);
        } else {
            assert(cs2[j] == card);
        }
    }
}

/// Whether `out` plays the hand of `input` out from card `from` with the
/// cards `cs`: after the record's first `from` cards each is legal in turn,
/// and is named with the seat that played it; the play-out stops when the
/// seat on turn has no card to play; and `out` gives the declaring side's
/// tricks at that point.
pub open spec fn plays_out(input: PlayInput, from: int, cs: Seq<usize>, out: OptimalLine) -> bool {
    let h0 = hand_bits(input.hands@);
    let all = input.plays@.take(from) + cs;
    let n = all.len() as int;
    let e = replay(h0, input.leader as int, all, input.trump as int, n);
    &&& out.cards@.len() == cs.len()
    &&& out.seats@.len() == cs.len()
    &&& first_illegal(h0, input.leader as int, all, input.trump as int, n) is None
    &&& forall|j: int| 0 <= j < cs.len() ==> #[trigger] line_entry_ok(input, from, cs, out.cards@, out.seats@, j)
    &&& playable_word(e.0[spec_seat_to_play(e.1, e.2)], spec_lead_suit(e.1)) == 0
    &&& out.declaring_tricks == declaring_of(input, e.3 as u8)
}

/// Once a card is illegal, it stays the first illegal one.
proof fn lemma_first_illegal_extends(h0: Seq<u64>, leader: int, plays: Seq<usize>, trump: int, m: int, n: int)
    requires
        0 <= m <= n,
        first_illegal(h0, leader, plays, trump, m) is Some,
    ensures
        first_illegal(h0, leader, plays, trump, n) == first_illegal(h0, leader, plays, trump, m),
    decreases n - m,
{
    if m < n {
        lemma_first_illegal_extends(h0, leader, plays, trump, m, n - 1);
    }
}


/// Whether `x` is listed as its own representative.
pub open spec fn has_own_entry(rep_of: Seq<(usize, usize)>, x: usize) -> bool {
    exists|j: int| 0 <= j < rep_of.len() && #[trigger] rep_of[j] == (x, x)
}

/// Whether card `x` is listed.
pub open spec fn has_card(rep_of: Seq<(usize, usize)>, x: usize) -> bool {
    exists|j: int| 0 <= j < rep_of.len() && (#[trigger] rep_of[j]).0 == x
}

/// Whether `x` is one of the representatives.
pub open spec fn is_rep(reps: Seq<usize>, x: usize) -> bool {
    exists|i: int| 0 <= i < reps.len() && #[trigger] reps[i] == x
}

/// `|a - b|`.
pub open spec fn spec_abs_diff(a: u8, b: u8) -> u8 {
    if a >= b {
        (a - b) as u8
    } else {
        (b - a) as u8
    }
}

/// Whether `cs` lists the cards of `w` each once, in order of index (from
/// the top of each suit, suit by suit).
pub open spec fn lists_cards(cs: Seq<usize>, w: u64) -> bool {
    &&& forall|j: int| 0 <= j < cs.len() ==> bit(w, #[trigger] cs[j] as int)
    &&& forall|i: int, j: int| 0 <= i < j < cs.len() ==> #[trigger] cs[i] < #[trigger] cs[j]
    &&& forall|c: int| 0 <= c < 64 && #[trigger] bit(w, c) ==> exists|j: int| 0 <= j < cs.len() && cs[j] == c
}

/// Whether the alternatives name the cards of `w`, each once, in order.
pub open spec fn names_cards(alts: Seq<Alternative>, w: u64) -> bool {
    exists|cs: Seq<usize>|
        #[trigger] lists_cards(cs, w) && cs.len() == alts.len() && forall|j: int|
            0 <= j < alts.len() ==> (#[trigger] alts[j]).card@ == spec_name_of(cs[j] as int)
}

/// Whether `seat` is declarer or dummy.
pub open spec fn on_declaring_side(seat: int, declarer: int) -> bool {
    seat == declarer || seat == (declarer + 2) % 4
}

/// Whether `bst` is the best of the alternatives' totals for the side to
/// play (the most for the declaring side, the least for a defender), and
/// each alternative is priced by how far it falls short of it.
pub open spec fn priced_against(alts: Seq<Alternative>, bst: u8, maximising: bool) -> bool {
    &&& exists|j: int| 0 <= j < alts.len() && (#[trigger] alts[j]).tricks == bst
    &&& forall|j: int|
        0 <= j < alts.len() ==> if maximising {
            (#[trigger] alts[j]).tricks <= bst
        } else {
            alts[j].tricks >= bst
        }
    &&& forall|j: int| 0 <= j < alts.len() ==> (#[trigger] alts[j]).cost == spec_abs_diff(bst, alts[j].tricks)
}

fn abs_diff(a: u8, b: u8) -> (r: u8)
    ensures
        r == (if a >= b { a - b } else { b - a }),
{
    if a >= b {
        a - b
    } else {
        b - a
    }
}

/// Replay the record's first `n` cards from the start, validating each.
fn replay_prefix(input: &PlayInput, n: usize) -> (r: Result<(Hands, PartialTrick, usize, u8), PlayError>)
    requires
        valid_hands(input.hands@),
        input.leader < NUM_SEATS,
        n <= input.plays@.len(),
    ensures
        match first_illegal(hand_bits(input.hands@), input.leader as int, input.plays@, input.trump as int, n as int) {
            Some(i) => r matches Err(e) && is_play_error(
                e,
                replay(hand_bits(input.hands@), input.leader as int, input.plays@, input.trump as int, i),
                input.plays@[i] as int,
                i,
            ),
            None => r matches Ok(st) && replayed(*input, st.0, st.1, st.2, st.3, n as int),
        },
{
    let mut hands = input.hands;
    let mut partial = PartialTrick::new();
    let mut leader = input.leader;
    let mut ns_won: u8 = 0;
    proof {
        lemma_hand_total_bound(input.hands);
        assert(partial.plays@ =~= Seq::<PlayedCard>::empty());
    }
    let mut k: usize = 0;
    while k < n
        invariant
            k <= n <= input.plays@.len(),
            replayed(*input, hands, partial, leader, ns_won, k as int),
        decreases n - k,
    {
        match replay_step(input, &mut hands, &mut partial, &mut leader, &mut ns_won, k) {
            Err(e) => {
                proof {
                    lemma_first_illegal_extends(
                        hand_bits(input.hands@),
                        input.leader as int,
                        input.plays@,
                        input.trump as int,
                        k as int + 1,
                        n as int,
                    );
                }
                return Err(e);
            },
            Ok(()) => {},
        }
        k += 1;
    }
    Ok((hands, partial, leader, ns_won))
}

/// The second tier: every legal card at decision `node`, priced by the
/// declaring side's tricks after it against the best of them.
///
/// Touching cards of a lead are one class and share a price; when following,
/// a card already on the table can separate two touching cards, so every
/// card is priced.
#[verifier::spinoff_prover]
#[verifier::rlimit(60)]
pub fn node_alternatives(input: &PlayInput, node: usize) -> (r: Result<NodeAnalysis, PlayError>)
    requires
        valid_hands(input.hands@),
        input.leader < NUM_SEATS,
    ensures
        node >= input.plays@.len() ==> r == Err::<NodeAnalysis, PlayError>(
            PlayError::NodeOutOfRange { node, plays: input.plays@.len() as usize },
        ),
        node < input.plays@.len() ==> {
            let h0 = hand_bits(input.hands@);
            match first_illegal(h0, input.leader as int, input.plays@, input.trump as int, node + 1) {
                Some(i) => r matches Err(e) && is_play_error(
                    e,
                    replay(h0, input.leader as int, input.plays@, input.trump as int, i),
                    input.plays@[i] as int,
                    i,
                ),
                None => r matches Ok(na) && {
                    let s = replay(h0, input.leader as int, input.plays@, input.trump as int, node as int);
                    let seat = spec_seat_to_play(s.1, s.2);
                    &&& na.index == node
                    &&& na.seat@ == seat_text(seat)
                    &&& na.card@ == spec_name_of(input.plays@[node as int] as int)
                    &&& na.alternatives@.len() == popcount(playable_word(s.0[seat], spec_lead_suit(s.1)))
                    &&& names_cards(na.alternatives@, playable_word(s.0[seat], spec_lead_suit(s.1)))
                    &&& exists|j: int| 0 <= j < na.alternatives@.len() && (#[trigger] na.alternatives@[j]).cost == 0
                    &&& exists|j: int| 0 <= j < na.alternatives@.len() && (#[trigger] na.alternatives@[j]).card@
                        == spec_name_of(input.plays@[node as int] as int) && na.alternatives@[j].cost == na.cost
                    &&& forced_at(s) ==> na.cost == 0
                    &&& exists|bst: u8| #[trigger] priced_against(
                        na.alternatives@,
                        bst,
                        on_declaring_side(seat, input.declarer as int),
                    )
                },
            }
        },
{
    if node >= input.plays.len() {
        return Err(PlayError::NodeOutOfRange { node, plays: input.plays.len() });
    }
    let trump = input.trump;
    let declarer = input.declarer;
    let total = input.hands.num_tricks() as u8;
    let decl_ns = is_ns(declarer);
    let (hands, partial, leader, ns_won) = match replay_prefix(input, node) {
        Ok(st) => st,
        Err(e) => {
            proof {
                lemma_first_illegal_extends(
                    hand_bits(input.hands@),
                    input.leader as int,
                    input.plays@,
                    input.trump as int,
                    node as int,
                    node as int + 1,
                );
            }
            return Err(e);
        },
    };
    let seat = seat_to_play(&partial, leader);
    let played = input.plays[node];
    proof {
        if partial.plays@.len() > 0 {
            assert(partial.plays@.last().seat < 4);
        }
    }
    match validate_play(&hands, seat, played, &partial, node) {
        Err(e) => {
            return Err(e);
        },
        Ok(()) => {},
    }
    proof {
        hands.lemma_len();
        assert(hand_bits(hands@)[seat as int] == hands@[seat as int]@);
    }
    let legal = playable_cards(&hands, seat, partial.lead_suit());
    let collapse = partial.is_empty();
    let all_cards = hands.all_cards();
    let my_hand = hands.hand(seat);
    let mut tried = Cards::new();
    let mut last_rep: [Option<usize>; 4] = [None, None, None, None];
    let mut reps: Vec<usize> = Vec::new();
    let mut rep_of: Vec<(usize, usize)> = Vec::new();
    let mut rem = legal;
    proof {
        crate::cards::lemma_cardset_zero();
    }
    while !rem.is_empty()
        invariant
            rem.set().subset_of(legal.set()),
            legal.set().subset_of(hands@[seat as int].set()),
            in_deck(hands@),
            seat < 4,
            forall|c: int| #[trigger] tried.set().contains(c) ==> 0 <= c < 52 && last_rep@[c / 13] is Some,
            forall|q: int| 0 <= q < 4 ==> ((#[trigger] last_rep@[q]) matches Some(x) ==> (x < 52
                && bit(hands@[seat as int]@, x as int) && has_own_entry(rep_of@, x))),
            forall|i: int| 0 <= i < reps@.len() ==> (#[trigger] reps@[i]) < 52 && bit(hands@[seat as int]@, reps@[i] as int),
            forall|i: int| 0 <= i < reps@.len() ==> #[trigger] has_own_entry(rep_of@, reps@[i]),
            forall|j: int| 0 <= j < rep_of@.len() ==> (#[trigger] rep_of@[j]).1 < 52 && bit(hands@[seat as int]@, rep_of@[j].1 as int)
                && legal.set().contains(rep_of@[j].0 as int),
            forall|j: int| 0 <= j < rep_of@.len() ==> #[trigger] is_rep(reps@, rep_of@[j].1),
            rep_of@.len() + popcount(rem@) == popcount(legal@),
            forall|j: int, c: int|
                0 <= j < rep_of@.len() && #[trigger] rem.set().contains(c) ==> (#[trigger] rep_of@[j]).0 < c,
            forall|i: int, j: int| 0 <= i < j < rep_of@.len() ==> (#[trigger] rep_of@[i]).0 < (#[trigger] rep_of@[j]).0,
            forall|c: int|
                #[trigger] legal.set().contains(c) ==> rem.set().contains(c) || exists|j: int|
                    0 <= j < rep_of@.len() && rep_of@[j].0 == c,
            legal.set().contains(played as int) ==> (rem.set().contains(played as int) || has_card(rep_of@, played)),
        decreases rem@,
    {
        let card = rem.top();
        let ghost before = rem@;
        let ghost before_set = rem.set();
        rem.remove(card);
        proof {
            crate::bridge_solver::lemma_remove_set_bit_smaller(before, card as u64);
            crate::cards::lemma_popcount_remove(before, card as u64);
            assert(legal.set().contains(card as int));
            assert(hands@[seat as int].set().contains(card as int));
        }
        let s = suit_of(card);
        let tried_suit = tried.suit(s);
        let ghost old_rep_of = rep_of@;
        let ghost old_reps = reps@;
        proof {
            crate::cards::lemma_cardset_zero();
        }
        let equivalent = collapse && is_equivalent(card, tried_suit, my_hand, all_cards);
        let mut rep = card;
        if equivalent {
            proof {
                if forall|c2: int| !tried_suit.set().contains(c2) {
                    assert(tried_suit.set() =~= Set::<int>::empty());
                    crate::cards::lemma_cardset_injective(tried_suit@, 0);
                }
                let c2 = choose|c2: int| tried_suit.set().contains(c2);
                assert(tried.set().contains(c2));
            }
            match last_rep[s] {
                Some(r0) => {
                    rep = r0;
                },
                None => {},
            }
            rep_of.push((card, rep));
        } else {
            reps.push(card);
            rep_of.push((card, card));
            last_rep[s] = Some(card);
            proof {
                assert(rep_of@[rep_of@.len() - 1] == (card, card));
                assert(has_own_entry(rep_of@, card));
                assert(reps@[reps@.len() - 1] == card);
            }
        }
        proof {
            assert forall|x: usize| has_own_entry(old_rep_of, x) implies has_own_entry(rep_of@, x) by {
                let j = choose|j: int| 0 <= j < old_rep_of.len() && #[trigger] old_rep_of[j] == (x, x);
                assert(rep_of@[j] == old_rep_of[j]);
            }
            assert forall|x: usize| has_card(old_rep_of, x) implies has_card(rep_of@, x) by {
                let j = choose|j: int| 0 <= j < old_rep_of.len() && (#[trigger] old_rep_of[j]).0 == x;
                assert(rep_of@[j] == old_rep_of[j]);
            }
            assert forall|x: usize| is_rep(old_reps, x) implies is_rep(reps@, x) by {
                let i = choose|i: int| 0 <= i < old_reps.len() && #[trigger] old_reps[i] == x;
                assert(reps@[i] == old_reps[i]);
            }
            assert(rep_of@[rep_of@.len() - 1].0 == card);
            assert(has_card(rep_of@, card));
            if equivalent {
                let jr = choose|jr: int| 0 <= jr < old_rep_of.len() && #[trigger] old_rep_of[jr] == (rep, rep);
                assert(is_rep(old_reps, old_rep_of[jr].1));
                assert(is_rep(reps@, rep));
            } else {
                assert(is_rep(reps@, card));
            }
            assert forall|i: int| 0 <= i < reps@.len() implies #[trigger] has_own_entry(rep_of@, reps@[i]) by {
                if i < old_reps.len() {
                    assert(reps@[i] == old_reps[i]);
                    assert(has_own_entry(old_rep_of, old_reps[i]));
                }
            }
            assert forall|j: int| 0 <= j < rep_of@.len() implies #[trigger] is_rep(reps@, rep_of@[j].1) by {
                if j < old_rep_of.len() {
                    assert(rep_of@[j] == old_rep_of[j]);
                    assert(is_rep(old_reps, old_rep_of[j].1));
                }
            }
        }
        proof {
            assert forall|c: int| #[trigger] legal.set().contains(c) implies rem.set().contains(c) || exists|j: int|
                0 <= j < rep_of@.len() && rep_of@[j].0 == c by {
                if c == card as int {
                    assert(rep_of@[rep_of@.len() - 1].0 == card);
                } else if !rem.set().contains(c) {
                    assert(!before_set.contains(c));
                    let j = choose|j: int| 0 <= j < old_rep_of.len() && old_rep_of[j].0 == c;
                    assert(rep_of@[j] == old_rep_of[j]);
                }
            }
        }
        tried.add(card);
    }
    proof {
        assert(hand_bits(hands@)[seat as int] == hands@[seat as int]@);
        assert(legal.set().contains(played as int));
        assert(rem@ == 0) by {
            if rem@ != 0 {
            }
        }
        assert(has_card(rep_of@, played));
        let jp = choose|jp: int| 0 <= jp < rep_of@.len() && (#[trigger] rep_of@[jp]).0 == played;
        assert(is_rep(reps@, rep_of@[jp].1));
        assert(reps@.len() > 0);
    }
    let mut totals: Vec<u8> = Vec::new();
    let mut t: usize = 0;
    while t < 52
        invariant
            t <= 52,
            totals@.len() == t,
        decreases 52 - t,
    {
        totals.push(0);
        t += 1;
    }
    let mut i: usize = 0;
    while i < reps.len()
        invariant
            totals@.len() == 52,
            valid_hands(hands@),
            partial_ok(partial),
            seats_ok(partial.plays@),
            seat < 4,
            ns_won <= 13,
            forall|q: int| 0 <= q < reps@.len() ==> (#[trigger] reps@[q]) < 52 && bit(hands@[seat as int]@, reps@[q] as int),
        decreases reps@.len() - i,
    {
        let rep = reps[i];
        let ns = ns_deal_total_after(&hands, &partial, seat, rep, trump, ns_won);
        totals.set(rep, declaring(decl_ns, total, ns));
        i += 1;
    }
    let maximising = seat == declarer || seat == partner(declarer);
    let mut best: u8 = totals[reps[0]];
    let mut b: usize = 0;
    let mut i: usize = 1;
    while i < reps.len()
        invariant
            totals@.len() == 52,
            reps@.len() >= 1,
            1 <= i <= reps@.len(),
            b < reps@.len(),
            forall|q: int| 0 <= q < reps@.len() ==> (#[trigger] reps@[q]) < 52,
            best == totals@[reps@[b as int] as int],
            forall|q: int|
                0 <= q < i ==> if maximising {
                    totals@[(#[trigger] reps@[q]) as int] <= best
                } else {
                    totals@[(#[trigger] reps@[q]) as int] >= best
                },
        decreases reps@.len() - i,
    {
        let v = totals[reps[i]];
        if (maximising && v > best) || (!maximising && v < best) {
            best = v;
            b = i;
        }
        i += 1;
    }
    let mut alternatives: Vec<Alternative> = Vec::new();
    let mut played_cost: u8 = 0;
    let mut j: usize = 0;
    while j < rep_of.len()
        invariant
            totals@.len() == 52,
            j <= rep_of@.len(),
            alternatives@.len() == j,
            forall|q: int| 0 <= q < rep_of@.len() ==> (#[trigger] rep_of@[q]).1 < 52,
            forall|q: int| 0 <= q < j ==> (#[trigger] alternatives@[q]).card@ == spec_name_of(rep_of@[q].0 as int)
                && alternatives@[q].tricks == totals@[rep_of@[q].1 as int]
                && alternatives@[q].cost == (if best >= totals@[rep_of@[q].1 as int] {
                    best - totals@[rep_of@[q].1 as int]
                } else {
                    totals@[rep_of@[q].1 as int] - best
                }),
            (exists|q: int| 0 <= q < j && (#[trigger] rep_of@[q]).0 == played) ==> exists|q: int| 0 <= q < j && (#[trigger] rep_of@[q]).0 == played && alternatives@[q].cost == played_cost,
        decreases rep_of@.len() - j,
    {
        let (card, rep) = rep_of[j];
        let tricks = totals[rep];
        let cost = abs_diff(best, tricks);
        if card == played {
            played_cost = cost;
        }
        alternatives.push(Alternative { card: name_of(card), tricks, cost });
        j += 1;
    }
    proof {
        assert(legal.set().contains(played as int));
        let r_b = reps@[b as int];
        assert(has_own_entry(rep_of@, r_b));
        let jb = choose|jb: int| 0 <= jb < rep_of@.len() && #[trigger] rep_of@[jb] == (r_b, r_b);
        assert(alternatives@[jb].cost == 0);
        assert(has_card(rep_of@, played));
        let jp = choose|jp: int| 0 <= jp < rep_of@.len() && (#[trigger] rep_of@[jp]).0 == played;
        assert(alternatives@[jp].card@ == spec_name_of(played as int));
        let cs = rep_of@.map_values(|p: (usize, usize)| p.0);
        assert forall|c: int| 0 <= c < 64 && #[trigger] bit(legal@, c) implies exists|j: int|
            0 <= j < cs.len() && cs[j] == c by {
            assert(legal.set().contains(c));
            assert(!rem.set().contains(c));
            let j = choose|j: int| 0 <= j < rep_of@.len() && rep_of@[j].0 == c;
            assert(cs[j] == c);
        }
        assert forall|j: int| 0 <= j < cs.len() implies bit(legal@, #[trigger] cs[j] as int) by {
            assert(legal.set().contains(rep_of@[j].0 as int));
        }
        assert(lists_cards(cs, legal@));
        assert(names_cards(alternatives@, legal@));
        assert(maximising == on_declaring_side(seat as int, input.declarer as int));
        assert forall|q: int| 0 <= q < alternatives@.len() implies if maximising {
            (#[trigger] alternatives@[q]).tricks <= best
        } else {
            alternatives@[q].tricks >= best
        } by {
            assert(is_rep(reps@, rep_of@[q].1));
            let k = choose|k: int| 0 <= k < reps@.len() && #[trigger] reps@[k] == rep_of@[q].1;
            assert(totals@[reps@[k] as int] == alternatives@[q].tricks);
        }
        assert(alternatives@[jb].tricks == best);
        assert(priced_against(alternatives@, best, maximising));
    }
    let na = NodeAnalysis {
        index: node,
        seat: seat_string(seat),
        card: name_of(played),
        cost: played_cost,
        alternatives,
    };
    let res: Result<NodeAnalysis, PlayError> = Ok(na);
    proof {
        let st = replay(hand_bits(input.hands@), input.leader as int, input.plays@, input.trump as int, node as int);
        assert(seat as int == spec_seat_to_play(st.1, st.2));
        assert(res->Ok_0 == na);
        assert(priced_against(
            res->Ok_0.alternatives@,
            best,
            on_declaring_side(spec_seat_to_play(st.1, st.2), input.declarer as int),
        ));
    }
    res
}


/// The suits `seat` should lead first: partner's opening lead (when partner
/// made it), then the suit partner led last. Both are `None` while partner
/// has not led.
pub open spec fn spec_preferred(
    seat: int,
    opening_leader: int,
    opening_lead_suit: Option<usize>,
    last_led_suit: Seq<Option<usize>>,
) -> (Option<usize>, Option<usize>) {
    let mate = (seat + 2) % 4;
    (if mate == opening_leader { opening_lead_suit } else { None }, last_led_suit[mate])
}

fn preferred_lead_suits(
    seat: usize,
    opening_leader: usize,
    opening_lead_suit: Option<usize>,
    last_led_suit: &[Option<usize>; 4],
) -> (r: (Option<usize>, Option<usize>))
    ensures
        r == spec_preferred(seat as int, opening_leader as int, opening_lead_suit, last_led_suit@),
{
    let mate = partner(seat);
    let opening = if mate == opening_leader {
        opening_lead_suit
    } else {
        None
    };
    (opening, last_led_suit[mate])
}

/// The place of card `c` in the seek order. Following, discarding or
/// ruffing: lowest rank first. Leading: partner's opening-lead suit, then
/// partner's latest lead, then the rest, highest rank first within each.
/// Ties go by the card's index, as a stable sort of the cards in index order
/// leaves them.
pub open spec fn order_key(c: int, leading: bool, opening: Option<usize>, recent: Option<usize>) -> int {
    if !leading {
        spec_rank_of(c) * 64 + c
    } else {
        let suit = Some(spec_suit_of(c) as usize);
        let preference = if suit == opening {
            0int
        } else if suit == recent {
            1int
        } else {
            2int
        };
        (preference * 13 + (12 - spec_rank_of(c))) * 64 + c
    }
}

fn order_key_of(c: usize, leading: bool, opening: Option<usize>, recent: Option<usize>) -> (r: u64)
    requires
        c < 64,
    ensures
        r == order_key(c as int, leading, opening, recent),
{
    let rank = rank_of(c) as u64;
    if !leading {
        rank * 64 + c as u64
    } else {
        let suit = Some(suit_of(c));
        let preference: u64 = if suit == opening {
            0
        } else if suit == recent {
            1
        } else {
            2
        };
        (preference * 13 + (12 - rank)) * 64 + c as u64
    }
}

/// The order in which to try the legal cards: the first that keeps the
/// deal's value is the one played, so this chooses among equally good cards
/// the one a player would choose. See [`order_key`].
pub fn candidate_order(
    legal: Cards,
    leading: bool,
    seat: usize,
    opening_leader: usize,
    opening_lead_suit: Option<usize>,
    last_led_suit: &[Option<usize>; 4],
) -> (r: Vec<usize>)
    requires
        seat < NUM_SEATS,
    ensures
        ({
            let (opening, recent) = if leading {
                spec_preferred(seat as int, opening_leader as int, opening_lead_suit, last_led_suit@)
            } else {
                (None, None)
            };
            &&& forall|c: int| legal.set().contains(c) <==> exists|i: int| 0 <= i < r@.len() && #[trigger] r@[i] == c
            &&& forall|i: int| 0 <= i < r@.len() ==> legal.set().contains(#[trigger] r@[i] as int)
            &&& forall|i: int, j: int| 0 <= i < j < r@.len() ==> order_key(#[trigger] r@[i] as int, leading, opening, recent)
                < order_key(#[trigger] r@[j] as int, leading, opening, recent)
        }),
{
    let (opening, recent) = if leading {
        preferred_lead_suits(seat, opening_leader, opening_lead_suit, last_led_suit)
    } else {
        (None, None)
    };
    let mut cards: Vec<usize> = Vec::new();
    let mut keys: Vec<u64> = Vec::new();
    let mut rem = legal;
    while !rem.is_empty()
        invariant
            rem.set().subset_of(legal.set()),
            cards@.len() == keys@.len(),
            forall|i: int| 0 <= i < cards@.len() ==> (#[trigger] cards@[i]) < 64 && keys@[i] == order_key(cards@[i] as int, leading, opening, recent),
            forall|i: int| 0 <= i < cards@.len() ==> legal.set().contains(#[trigger] cards@[i] as int) && !rem.set().contains(cards@[i] as int),
            forall|c: int| legal.set().contains(c) ==> (rem.set().contains(c) || exists|i: int| 0 <= i < cards@.len() && #[trigger] cards@[i] == c),
            forall|i: int, j: int| 0 <= i < j < cards@.len() ==> #[trigger] keys@[i] < #[trigger] keys@[j],
        decreases rem@,
    {
        let card = rem.top();
        let ghost before = rem@;
        rem.remove(card);
        proof {
            crate::bridge_solver::lemma_remove_set_bit_smaller(before, card as u64);
        }
        let k = order_key_of(card, leading, opening, recent);
        let mut p: usize = 0;
        while p < keys.len() && keys[p] < k
            invariant
                p <= keys@.len(),
                forall|i: int| 0 <= i < p ==> #[trigger] keys@[i] < k,
            decreases keys@.len() - p,
        {
            p += 1;
        }
        proof {
            assert forall|i: int| 0 <= i < cards@.len() implies #[trigger] keys@[i] != k by {
                assert(cards@[i] != card);
            }
        }
        let ghost old_cards = cards@;
        let ghost old_keys = keys@;
        cards.insert(p, card);
        keys.insert(p, k);
        proof {
            assert forall|i: int, j: int| 0 <= i < j < keys@.len() implies #[trigger] keys@[i] < #[trigger] keys@[j] by {
                if j < p as int {
                } else if i < p as int && j == p as int {
                } else if i < p as int {
                    assert(keys@[j] == old_keys[j - 1]);
                } else if i == p as int {
                    assert(keys@[j] == old_keys[j - 1]);
                    assert(old_keys[p as int] >= k || p == old_keys.len());
                    if j - 1 > p as int {
                        assert(old_keys[p as int] < old_keys[j - 1]);
                    }
                } else {
                    assert(keys@[i] == old_keys[i - 1]);
                    assert(keys@[j] == old_keys[j - 1]);
                }
            }
            assert forall|c: int| legal.set().contains(c) implies (rem.set().contains(c) || exists|i: int| 0 <= i < cards@.len() && #[trigger] cards@[i] == c) by {
                if c == card {
                    assert(cards@[p as int] == card);
                } else if !rem.set().contains(c) {
                    let i = choose|i: int| 0 <= i < old_cards.len() && #[trigger] old_cards[i] == c;
                    if i < p {
                        assert(cards@[i] == c);
                    } else {
                        assert(cards@[i + 1] == c);
                    }
                }
            }
        }
    }
    proof {
        crate::cards::lemma_cardset_zero();
        assert forall|i: int, j: int| 0 <= i < j < cards@.len() implies order_key(#[trigger] cards@[i] as int, leading, opening, recent)
            < order_key(#[trigger] cards@[j] as int, leading, opening, recent) by {
            assert(keys@[i] < keys@[j]);
        }
    }
    cards
}


/// Play the hand out perfectly from play `from`: the record up to there,
/// then each seat in turn plays, of the cards that keep the deal's value
/// (the first found in [`candidate_order`]), the one its side would choose.
pub fn optimal_line(input: &PlayInput, from: usize) -> (r: Result<OptimalLine, PlayError>)
    requires
        valid_hands(input.hands@),
        input.leader < NUM_SEATS,
    ensures
        from > input.plays@.len() ==> r == Err::<OptimalLine, PlayError>(
            PlayError::NodeOutOfRange { node: from, plays: input.plays@.len() as usize },
        ),
        from <= input.plays@.len() ==> {
            let h0 = hand_bits(input.hands@);
            match first_illegal(h0, input.leader as int, input.plays@, input.trump as int, from as int) {
                Some(i) => r matches Err(e) && is_play_error(
                    e,
                    replay(h0, input.leader as int, input.plays@, input.trump as int, i),
                    input.plays@[i] as int,
                    i,
                ),
                None => r matches Ok(line) && line.from == from && exists|cs: Seq<usize>|
                    #[trigger] plays_out(*input, from as int, cs, line),
            }
        },
{
    if from > input.plays.len() {
        return Err(PlayError::NodeOutOfRange { node: from, plays: input.plays.len() });
    }
    let trump = input.trump;
    let declarer = input.declarer;
    let total = input.hands.num_tricks() as u8;
    let decl_ns = is_ns(declarer);
    let mut opening_lead_suit: Option<usize> = None;
    let mut last_led_suit: [Option<usize>; 4] = [None, None, None, None];
    let mut hands = input.hands;
    let mut partial = PartialTrick::new();
    let mut leader = input.leader;
    let mut ns_won: u8 = 0;
    proof {
        lemma_hand_total_bound(input.hands);
        assert(partial.plays@ =~= Seq::<PlayedCard>::empty());
    }
    let mut k: usize = 0;
    while k < from
        invariant
            k <= from <= input.plays@.len(),
            trump == input.trump,
            replayed(*input, hands, partial, leader, ns_won, k as int),
        decreases from - k,
    {
        let seat = seat_to_play(&partial, leader);
        let played = input.plays[k];
        proof {
            if partial.plays@.len() > 0 {
                assert(partial.plays@.last().seat < 4);
            }
        }
        if partial.is_empty() {
            let suit = suit_of(played);
            if opening_lead_suit.is_none() {
                opening_lead_suit = Some(suit);
            }
            last_led_suit[seat] = Some(suit);
        }
        match replay_step(input, &mut hands, &mut partial, &mut leader, &mut ns_won, k) {
            Err(e) => {
                proof {
                    lemma_first_illegal_extends(
                        hand_bits(input.hands@),
                        input.leader as int,
                        input.plays@,
                        input.trump as int,
                        k as int + 1,
                        from as int,
                    );
                }
                return Err(e);
            },
            Ok(()) => {},
        }
        k += 1;
    }
    let mut cards: Vec<String> = Vec::new();
    let mut seats: Vec<String> = Vec::new();
    let target_ns = solve_position_ns(&hands, &partial, leader, trump, ns_won);
    let ghost h0 = hand_bits(input.hands@);
    let ghost mut cs: Seq<usize> = Seq::empty();
    proof {
        lemma_replay_agree(
            h0,
            input.leader as int,
            input.plays@,
            input.plays@.take(from as int) + cs,
            input.trump as int,
            from as int,
        );
    }
    loop
        invariant
            valid_hands(hands@),
            partial_ok(partial),
            seats_ok(partial.plays@),
            leader < 4,
            ns_won * 4 + partial.plays@.len() + hand_total(hand_bits(hands@)) <= 52,
            trump == input.trump,
            declarer == input.declarer,
            from <= input.plays@.len(),
            h0 == hand_bits(input.hands@),
            cards@.len() == cs.len(),
            seats@.len() == cs.len(),
            state_of(hands, partial, leader, ns_won) == replay(
                h0,
                input.leader as int,
                input.plays@.take(from as int) + cs,
                input.trump as int,
                from + cs.len(),
            ),
            first_illegal(
                h0,
                input.leader as int,
                input.plays@.take(from as int) + cs,
                input.trump as int,
                from + cs.len(),
            ) is None,
            forall|j: int|
                0 <= j < cs.len() ==> #[trigger] line_entry_ok(*input, from as int, cs, cards@, seats@, j),
        ensures
            playable_word(
                hand_bits(hands@)[spec_seat_to_play(partial.plays@, leader as int)],
                spec_lead_suit(partial.plays@),
            ) == 0,
        decreases hand_total(hand_bits(hands@)),
    {
        let remaining = hands.all_cards();
        if remaining.is_empty() {
            proof {
                hands.lemma_len();
                if partial.plays@.len() > 0 {
                    assert(partial.plays@.last().seat < 4);
                }
                let sp = spec_seat_to_play(partial.plays@, leader as int);
                lemma_union_zero(hands@[0]@, hands@[1]@, hands@[2]@, hands@[3]@);
                assert(hand_bits(hands@)[sp] == hands@[sp]@);
                match spec_lead_suit(partial.plays@) {
                    Some(l) => crate::cards::lemma_word_facts(suit_mask(l as int), 0, 0),
                    None => {},
                }
            }
            break;
        }
        let seat = seat_to_play(&partial, leader);
        proof {
            if partial.plays@.len() > 0 {
                assert(partial.plays@.last().seat < 4);
            }
            hands.lemma_len();
        }
        let leading = partial.is_empty();
        let legal = playable_cards(&hands, seat, partial.lead_suit());
        let forced = legal.size() == 1;
        let maximising = seat == declarer || seat == partner(declarer);
        let mut best: Option<(usize, u8)> = None;
        if !forced {
            let order = candidate_order(
                legal,
                leading,
                seat,
                input.leader,
                opening_lead_suit,
                &last_led_suit,
            );
            let mut i: usize = 0;
            while i < order.len()
                invariant
                    valid_hands(hands@),
                    partial_ok(partial),
                    seats_ok(partial.plays@),
                    seat < 4,
                    ns_won <= 13,
                    legal.set().subset_of(hands@[seat as int].set()),
                    in_deck(hands@),
                    forall|q: int| 0 <= q < order@.len() ==> legal.set().contains(#[trigger] order@[q] as int),
                    best matches Some(bc) ==> legal.set().contains(bc.0 as int),
                decreases order@.len() - i,
            {
                let card = order[i];
                proof {
                    assert(legal.set().contains(card as int));
                    assert(hands@[seat as int].set().contains(card as int));
                }
                let ns = ns_deal_total_after(&hands, &partial, seat, card, trump, ns_won);
                if ns == target_ns {
                    best = Some((card, declaring(decl_ns, total, ns)));
                    break;
                }
                let value = declaring(decl_ns, total, ns);
                let better = match best {
                    None => true,
                    Some((_, b)) => if maximising {
                        value > b
                    } else {
                        value < b
                    },
                };
                if better {
                    best = Some((card, value));
                }
                i += 1;
            }
        }
        let card = match best {
            Some((c, _)) => c,
            None => {
                if legal.is_empty() {
                    proof {
                        assert(hand_bits(hands@)[seat as int] == hands@[seat as int]@);
                    }
                    break;
                }
                legal.top()
            },
        };
        proof {
            crate::cards::lemma_cardset_zero();
            assert(legal.set().contains(card as int));
            assert(hands@[seat as int].set().contains(card as int));
            assert(hand_bits(hands@)[seat as int] == hands@[seat as int]@);
        }
        if leading {
            let suit = suit_of(card);
            if opening_lead_suit.is_none() {
                opening_lead_suit = Some(suit);
            }
            last_led_suit[seat] = Some(suit);
        }
        let name = name_of(card);
        let seat_name = seat_string(seat);
        proof {
            lemma_line_step(*input, from as int, cs, card, cards@, seats@, name, seat_name);
        }
        cards.push(name);
        seats.push(seat_name);
        let ghost h_before = hands;
        apply_card(&mut hands, &mut partial, &mut leader, &mut ns_won, seat, card, trump);
        proof {
            hands.lemma_len();
            lemma_after_play(h_before, hands, seat as int, card as int);
            cs = cs.push(card);
        }
    }
    let out = OptimalLine { from, cards, seats, declaring_tricks: declaring(decl_ns, total, ns_won) };
    let res: Result<OptimalLine, PlayError> = Ok(out);
    proof {
        assert(res->Ok_0 == out);
        assert(plays_out(*input, from as int, cs, res->Ok_0));
    }
    res
}

/// The SHA-256 digest of `data`.
pub uninterp spec fn sha256_of(data: Seq<u8>) -> Seq<u8>;

/// `sha2::Sha256::digest`: the digest of `data`, named by `sha256_of`, and
/// its length, the 32 bytes of SHA-256's output size. What the bytes are is
/// left to the name.
#[verifier::external_body]
fn sha256(data: &[u8]) -> (r: Vec<u8>)
    ensures
        r@ == sha256_of(data@),
        r@.len() == 32,
{
    Sha256::digest(data).to_vec()
}

/// The Unicode upper case of a text.
pub uninterp spec fn uppercase_of(s: Seq<char>) -> Seq<char>;

/// `str::to_uppercase`: the upper case of `s`, named by `uppercase_of`.
/// Unicode's case mapping is left to the name.
#[verifier::external_body]
fn to_uppercase(s: &str) -> (r: String)
    ensures
        r@ == uppercase_of(s@),
{
    s.to_uppercase()
}

/// The SHA-256 digest of a text's UTF-8 bytes, in lower-case hexadecimal.
pub open spec fn digest_hex(text: Seq<char>) -> Seq<char> {
    crate::text::hex_of(sha256_of(vstd::utf8::encode_utf8(text)))
}

/// The digest of `s` as 64 lower-case hexadecimal digits.
pub fn sha_hex(s: &str) -> (r: String)
    ensures
        r@ == digest_hex(s@),
        r@.len() == 64,
{
    let digest = sha256(s.as_bytes());
    let hex = hex_string(&digest);
    string_of(&hex)
}

/// A deal as the keys see it: its words joined by single spaces, in upper case.
pub open spec fn normalized_deal(deal: Seq<char>) -> Seq<char> {
    uppercase_of(join(words(deal), seq![' ']))
}

/// The deal with white space collapsed and letters in upper case, so that two
/// spellings of one deal give one key.
pub fn normalize_deal(dealstr: &str) -> (r: String)
    ensures
        r@ == normalized_deal(dealstr@),
{
    let chars = chars_of(dealstr);
    let ws = split_words(&chars);
    let joined = string_of(&join_words(&ws, ' '));
    to_uppercase(joined.as_str())
}

/// The names of the first `k` cards of `plays`.
pub open spec fn play_names(plays: Seq<usize>, k: int) -> Seq<Seq<char>> {
    Seq::new(k as nat, |i: int| spec_name_of(plays[i] as int))
}

/// What every prefix key starts with: the deal, the trump and the opening leader.
pub open spec fn key_base(deal: Seq<char>, trump: usize, leader: usize) -> Seq<char> {
    normalized_deal(deal) + seq!['|'] + spec_decimal(trump as nat) + seq!['|'] + spec_decimal(
        leader as nat,
    )
}

/// The text hashed for the first `k` cards of the play.
pub open spec fn prefix_text(deal: Seq<char>, trump: usize, leader: usize, plays: Seq<usize>, k: int) -> Seq<char> {
    key_base(deal, trump, leader) + seq!['|'] + join(play_names(plays, k), seq![','])
}

/// The key of the position after the first `k` cards of the play.
pub open spec fn prefix_key(deal: Seq<char>, trump: usize, leader: usize, plays: Seq<usize>, k: int) -> Seq<char> {
    digest_hex(prefix_text(deal, trump, leader, plays, k))
}

fn key_of(base: &Vec<char>, acc: &Vec<char>) -> (r: String)
    ensures
        r@ == digest_hex(base@ + seq!['|'] + acc@),
        r@.len() == 64,
{
    let mut t: Vec<char> = Vec::new();
    push_all(&mut t, base);
    t.push('|');
    push_all(&mut t, acc);
    proof {
        assert(t@ =~= base@ + seq!['|'] + acc@);
    }
    let s = string_of(&t);
    sha_hex(s.as_str())
}

/// The cache keys of a running trace: `keys[k]` stands for the position
/// after the first `k` cards, so there is one more key than cards. A key
/// holds the deal, the trump, the opening leader and the cards so far, and
/// not the declarer: the North-South value of a position does not depend on
/// who declares.
pub fn prefix_keys(dealstr: &str, trump: usize, leader: usize, plays: &[usize]) -> (r: Vec<String>)
    ensures
        r@.len() == plays@.len() + 1,
        forall|k: int| 0 <= k <= plays@.len() ==> (#[trigger] r@[k])@ == prefix_key(dealstr@, trump, leader, plays@, k),
        forall|k: int| 0 <= k <= plays@.len() ==> (#[trigger] r@[k])@.len() == 64,
{
    let norm = normalize_deal(dealstr);
    let mut base: Vec<char> = chars_of(norm.as_str());
    base.push('|');
    push_decimal(&mut base, trump);
    base.push('|');
    push_decimal(&mut base, leader);
    let mut acc: Vec<char> = Vec::new();
    let mut keys: Vec<String> = Vec::new();
    proof {
        assert(base@ =~= key_base(dealstr@, trump, leader));
        assert(play_names(plays@, 0) =~= Seq::<Seq<char>>::empty());
    }
    keys.push(key_of(&base, &acc));
    let mut i: usize = 0;
    while i < plays.len()
        invariant
            i <= plays@.len(),
            base@ == key_base(dealstr@, trump, leader),
            acc@ == join(play_names(plays@, i as int), seq![',']),
            keys@.len() == i + 1,
            forall|k: int| 0 <= k <= i ==> (#[trigger] keys@[k])@ == prefix_key(dealstr@, trump, leader, plays@, k),
            forall|k: int| 0 <= k <= i ==> (#[trigger] keys@[k])@.len() == 64,
        decreases plays@.len() - i,
    {
        proof {
            assert(play_names(plays@, i as int + 1) =~= play_names(plays@, i as int).push(
                spec_name_of(plays@[i as int] as int),
            ));
            crate::text::lemma_join_push(play_names(plays@, i as int), spec_name_of(plays@[i as int] as int), seq![',']);
        }
        if i > 0 {
            acc.push(',');
        }
        let name = name_of(plays[i]);
        let name_chars = chars_of(name.as_str());
        push_all(&mut acc, &name_chars);
        proof {
            assert(acc@ =~= join(play_names(plays@, i as int + 1), seq![',']));
        }
        let ghost before = keys@;
        keys.push(key_of(&base, &acc));
        proof {
            assert forall|k: int| 0 <= k <= i + 1 implies (#[trigger] keys@[k])@ == prefix_key(
                dealstr@,
                trump,
                leader,
                plays@,
                k,
            ) by {
                if k <= i {
                    assert(keys@[k] == before[k]);
                }
            }
            assert forall|k: int| 0 <= k <= i + 1 implies (#[trigger] keys@[k])@.len() == 64 by {
                if k <= i {
                    assert(keys@[k] == before[k]);
                }
            }
        }
        i += 1;
    }
    keys
}

/// Growing the play keeps every earlier key: the key after the first `j`
/// cards is the same whatever follows them.
pub proof fn lemma_prefix_keys_incremental(
    deal: Seq<char>,
    trump: usize,
    leader: usize,
    plays: Seq<usize>,
    k: int,
    j: int,
)
    requires
        0 <= j <= k <= plays.len(),
    ensures
        prefix_key(deal, trump, leader, plays, j) == prefix_key(deal, trump, leader, plays.take(k), j),
{
    assert(play_names(plays, j) =~= play_names(plays.take(k), j));
}

/// Two spellings of a deal that normalize alike give the same keys.
pub proof fn lemma_prefix_keys_normalized(
    deal1: Seq<char>,
    deal2: Seq<char>,
    trump: usize,
    leader: usize,
    plays: Seq<usize>,
    k: int,
)
    requires
        words(deal1) == words(deal2),
    ensures
        prefix_key(deal1, trump, leader, plays, k) == prefix_key(deal2, trump, leader, plays, k),
{
}

/// The text hashed for one decision: the deal, trump, declarer, opening
/// leader, and the cards up to and with the one played at `node`.
pub open spec fn node_text(
    deal: Seq<char>,
    trump: usize,
    declarer: usize,
    leader: usize,
    plays: Seq<usize>,
    node: int,
) -> Seq<char> {
    normalized_deal(deal) + seq!['|'] + spec_decimal(trump as nat) + seq!['|'] + spec_decimal(
        declarer as nat,
    ) + seq!['|'] + spec_decimal(leader as nat) + seq!['|'] + join(play_names(plays, node + 1), seq![','])
        + seq!['|', 'n', 'o', 'd', 'e']
}

/// The cache key of the analysis of one decision. The alternatives' values
/// depend on the declarer, so the key holds it, with the cards through the
/// one played at `node`.
pub fn node_key(
    dealstr: &str,
    trump: usize,
    declarer: usize,
    leader: usize,
    plays: &[usize],
    node: usize,
) -> (r: String)
    requires
        node < plays@.len(),
    ensures
        r@ == digest_hex(node_text(dealstr@, trump, declarer, leader, plays@, node as int)),
        r@.len() == 64,
{
    let norm = normalize_deal(dealstr);
    let mut t: Vec<char> = chars_of(norm.as_str());
    t.push('|');
    push_decimal(&mut t, trump);
    t.push('|');
    push_decimal(&mut t, declarer);
    t.push('|');
    push_decimal(&mut t, leader);
    t.push('|');
    let mut names: Vec<Vec<char>> = Vec::new();
    let mut i: usize = 0;
    while i <= node
        invariant
            i <= node + 1,
            node < plays@.len(),
            names@.map_values(|w: Vec<char>| w@) == play_names(plays@, i as int),
        decreases node + 1 - i,
    {
        let ghost before = names@;
        let name = name_of(plays[i]);
        let chars = chars_of(name.as_str());
        let ghost cv = chars@;
        names.push(chars);
        proof {
            assert(names@.map_values(|w: Vec<char>| w@) =~= before.map_values(|w: Vec<char>| w@).push(
                cv,
            ));
            assert(names@.map_values(|w: Vec<char>| w@) =~= play_names(plays@, i as int + 1));
        }
        i += 1;
    }
    let prefix = join_words(&names, ',');
    push_all(&mut t, &prefix);
    t.push('|');
    t.push('n');
    t.push('o');
    t.push('d');
    t.push('e');
    proof {
        assert(t@ =~= node_text(dealstr@, trump, declarer, leader, plays@, node as int));
    }
    let s = string_of(&t);
    sha_hex(s.as_str())
}

/// The text of a play error.
pub open spec fn spec_error_message(e: PlayError) -> Seq<char> {
    match e {
        PlayError::NotHeld { play_index, card, seat } => "play "@ + spec_decimal(play_index as nat) + " ("@
            + card@ + "): "@ + seq![seat] + " does not hold that card"@,
        PlayError::Revoke { play_index, card, seat, lead } => "play "@ + spec_decimal(play_index as nat)
            + " ("@ + card@ + "): revoke \u{2014} "@ + seq![seat] + " must follow "@ + seq![lead],
        PlayError::NodeOutOfRange { node, plays } => "node "@ + spec_decimal(node as nat)
            + " out of range (trace has "@ + spec_decimal(plays as nat) + " plays)"@,
    }
}

impl PlayError {
    /// What went wrong, as a sentence: `"play 1 (C9): N must follow H"`.
    pub fn message(&self) -> (r: String)
        ensures
            r@ == spec_error_message(*self),
    {
        let mut v: Vec<char> = Vec::new();
        match self {
            PlayError::NotHeld { play_index, card, seat } => {
                push_all(&mut v, &chars_of("play "));
                push_decimal(&mut v, *play_index);
                push_all(&mut v, &chars_of(" ("));
                push_all(&mut v, &chars_of(card.as_str()));
                push_all(&mut v, &chars_of("): "));
                v.push(*seat);
                push_all(&mut v, &chars_of(" does not hold that card"));
            },
            PlayError::Revoke { play_index, card, seat, lead } => {
                push_all(&mut v, &chars_of("play "));
                push_decimal(&mut v, *play_index);
                push_all(&mut v, &chars_of(" ("));
                push_all(&mut v, &chars_of(card.as_str()));
                push_all(&mut v, &chars_of("): revoke \u{2014} "));
                v.push(*seat);
                push_all(&mut v, &chars_of(" must follow "));
                v.push(*lead);
            },
            PlayError::NodeOutOfRange { node, plays } => {
                push_all(&mut v, &chars_of("node "));
                push_decimal(&mut v, *node);
                push_all(&mut v, &chars_of(" out of range (trace has "));
                push_decimal(&mut v, *plays);
                push_all(&mut v, &chars_of(" plays)"));
            },
        }
        proof {
            assert(v@ =~= spec_error_message(*self));
        }
        string_of(&v)
    }
}

} // verus!
