//! Requests as a front end sends them: the deal as PBN text, the strain,
//! the seats and the cards by name. Reading one checks every field and
//! says which one was wrong.

use vstd::prelude::*;
use crate::analyse_play::{
    PlayInput, parse_trump, parse_seat, parse_card, spec_parse_trump, spec_parse_seat, spec_parse_card,
};
use crate::bridge_solver::Solver;
use crate::cards::{popcount, bit};
use crate::hands::{Hands, hand_bits, spec_from_pbn};
use crate::pattern::PatternCache;
use crate::search::{CutoffCache, valid_deal, valid_hands, max_size};
use crate::text::{chars_of, string_of, push_all};
use crate::types::NUM_SEATS;

verus! {

/// A hand to analyse, every field as text.
pub struct PlayRequest {
    /// The deal in PBN form.
    pub dealstr: String,
    pub trump: String,
    pub declarer: String,
    pub leader: String,
    /// The cards played, by name (`"HK"`).
    pub plays: Vec<String>,
}

/// An error naming the text it could not read: the message, then the text
/// in double quotes.
pub open spec fn quoted(message: Seq<char>, text: Seq<char>) -> Seq<char> {
    message + "\""@ + text + "\""@
}

fn quote(message: &str, text: &str) -> (r: String)
    ensures
        r@ == quoted(message@, text@),
{
    let mut v: Vec<char> = chars_of(message);
    push_all(&mut v, &chars_of("\""));
    push_all(&mut v, &chars_of(text));
    push_all(&mut v, &chars_of("\""));
    proof {
        assert(v@ =~= quoted(message@, text@));
    }
    string_of(&v)
}

/// The first of the first `n` card names that names no card.
pub open spec fn first_unknown(plays: Seq<String>, n: int) -> Option<int>
    decreases n,
{
    if n <= 0 {
        None
    } else {
        match first_unknown(plays, n - 1) {
            Some(i) => Some(i),
            None => if spec_parse_card(plays[n - 1]@) is None {
                Some(n - 1)
            } else {
                None
            },
        }
    }
}

/// What reading a request gives: the first field that cannot be read, in
/// the order strain, declarer, leader, deal, cards, as an error naming it;
/// or the hand to analyse.
pub open spec fn request_error(req: PlayRequest) -> Option<Seq<char>> {
    if spec_parse_trump(req.trump@) is None {
        Some(quoted("unknown trump/strain "@, req.trump@))
    } else if spec_parse_seat(req.declarer@) is None {
        Some(quoted("unknown declarer seat "@, req.declarer@))
    } else if spec_parse_seat(req.leader@) is None {
        Some(quoted("unknown leader seat "@, req.leader@))
    } else if spec_from_pbn(req.dealstr@) is None {
        Some(quoted("could not parse deal "@, req.dealstr@))
    } else {
        match first_unknown(req.plays@, req.plays@.len() as int) {
            Some(i) => Some(quoted("unknown card "@, req.plays@[i]@)),
            None => None,
        }
    }
}

proof fn lemma_first_unknown(plays: Seq<String>, n: int)
    requires
        0 <= n <= plays.len(),
    ensures
        first_unknown(plays, n) is None <==> forall|i: int| 0 <= i < n ==> spec_parse_card(
            #[trigger] plays[i]@,
        ) is Some,
        first_unknown(plays, n) matches Some(i) ==> 0 <= i < n && spec_parse_card(plays[i]@) is None,
    decreases n,
{
    if n > 0 {
        lemma_first_unknown(plays, n - 1);
    }
}

/// Read a request into the hand to analyse, or say which field is wrong.
pub fn parse_input(req: &PlayRequest) -> (r: Result<PlayInput, String>)
    ensures
        match r {
            Err(e) => request_error(*req) == Some(e@),
            Ok(input) => {
                &&& request_error(*req) is None
                &&& Some(input.trump) == spec_parse_trump(req.trump@)
                &&& Some(input.declarer) == spec_parse_seat(req.declarer@)
                &&& Some(input.leader) == spec_parse_seat(req.leader@)
                &&& input.hands@.len() == 4
                &&& Some(hand_bits(input.hands@)) == spec_from_pbn(req.dealstr@)
                &&& input.plays@.len() == req.plays@.len()
                &&& forall|i: int| 0 <= i < input.plays@.len() ==> Some(#[trigger] input.plays@[i])
                    == spec_parse_card(req.plays@[i]@)
            },
        },
{
    let trump = match parse_trump(req.trump.as_str()) {
        Some(t) => t,
        None => {
            return Err(quote("unknown trump/strain ", req.trump.as_str()));
        },
    };
    let declarer = match parse_seat(req.declarer.as_str()) {
        Some(s) => s,
        None => {
            return Err(quote("unknown declarer seat ", req.declarer.as_str()));
        },
    };
    let leader = match parse_seat(req.leader.as_str()) {
        Some(s) => s,
        None => {
            return Err(quote("unknown leader seat ", req.leader.as_str()));
        },
    };
    let hands = match Hands::from_pbn(req.dealstr.as_str()) {
        Some(h) => h,
        None => {
            return Err(quote("could not parse deal ", req.dealstr.as_str()));
        },
    };
    let mut plays: Vec<usize> = Vec::new();
    let mut i: usize = 0;
    while i < req.plays.len()
        invariant
            i <= req.plays@.len(),
            Some(trump) == spec_parse_trump(req.trump@),
            Some(declarer) == spec_parse_seat(req.declarer@),
            Some(leader) == spec_parse_seat(req.leader@),
            hands@.len() == 4,
            Some(hand_bits(hands@)) == spec_from_pbn(req.dealstr@),
            first_unknown(req.plays@, i as int) is None,
            plays@.len() == i,
            forall|k: int| 0 <= k < i ==> Some(#[trigger] plays@[k]) == spec_parse_card(req.plays@[k]@),
        decreases req.plays@.len() - i,
    {
        match parse_card(req.plays[i].as_str()) {
            Some(c) => {
                plays.push(c);
            },
            None => {
                proof {
                    assert(first_unknown(req.plays@, i + 1) == Some(i as int));
                    lemma_first_unknown(req.plays@, i + 1);
                    lemma_first_unknown(req.plays@, req.plays@.len() as int);
                    assert(first_unknown(req.plays@, req.plays@.len() as int) is Some);
                    lemma_first_is_first(req.plays@, i as int + 1, req.plays@.len() as int);
                }
                return Err(quote("unknown card ", req.plays[i].as_str()));
            },
        }
        i += 1;
    }
    Ok(PlayInput { hands, trump, declarer, leader, plays })
}

proof fn lemma_first_is_first(plays: Seq<String>, m: int, n: int)
    requires
        0 <= m <= n <= plays.len(),
        first_unknown(plays, m) is Some,
    ensures
        first_unknown(plays, n) == first_unknown(plays, m),
    decreases n - m,
{
    if m < n {
        lemma_first_is_first(plays, m, n - 1);
    }
}

/// What solving a contract from text gives: the deal, the strain and the
/// leader must each be read, in that order, or the first that cannot be is
/// named; a deal the solver cannot start from is refused as unreadable.
pub open spec fn contract_error(dealstr: Seq<char>, trump: Seq<char>, leader: Seq<char>) -> Option<Seq<char>> {
    if spec_from_pbn(dealstr) is None {
        Some(quoted("could not parse deal "@, dealstr))
    } else if spec_parse_trump(trump) is None {
        Some(quoted("unknown trump/strain "@, trump))
    } else if spec_parse_seat(leader) is None {
        Some(quoted("unknown leader seat "@, leader))
    } else {
        None
    }
}

/// Hands the solver can start from: four hands of at most thirteen cards,
/// all of them cards of the deck.
pub open spec fn valid_bits(b: Seq<u64>) -> bool {
    &&& b.len() == 4
    &&& forall|s: int| 0 <= s < 4 ==> popcount(#[trigger] b[s]) <= 13
    &&& forall|s: int, c: int| 0 <= s < 4 && #[trigger] bit(b[s], c) ==> c < 52
}

/// A deal in PBN form that reads as hands the solver can start from.
pub open spec fn deal_fits(dealstr: Seq<char>) -> bool {
    spec_from_pbn(dealstr) matches Some(b) && valid_bits(b)
}

/// North-South's double-dummy tricks in a strain with `leader` on lead,
/// from a deal in PBN form.
pub fn solve_contract(dealstr: &str, trump: &str, leader: &str) -> (r: Result<u8, String>)
    ensures
        match contract_error(dealstr@, trump@, leader@) {
            Some(e) => r matches Err(m) && m@ == e,
            None => if deal_fits(dealstr@) {
                r matches Ok(v) && v <= 13
            } else {
                r matches Err(m) && m@ == quoted("could not parse deal "@, dealstr@)
            },
        },
{
    let hands = match Hands::from_pbn(dealstr) {
        Some(h) => h,
        None => {
            return Err(quote("could not parse deal ", dealstr));
        },
    };
    let trump_idx = match parse_trump(trump) {
        Some(t) => t,
        None => {
            return Err(quote("unknown trump/strain ", trump));
        },
    };
    let leader_idx = match parse_seat(leader) {
        Some(s) => s,
        None => {
            return Err(quote("unknown leader seat ", leader));
        },
    };
    proof {
        hands.lemma_len();
        let b = hand_bits(hands@);
        assert forall|t: int| 0 <= t < 4 implies #[trigger] b[t] == hands@[t]@ by {}
        if valid_hands(hands@) {
            assert forall|t: int, c: int| 0 <= t < 4 && #[trigger] bit(b[t], c) implies c < 52 by {
                assert(hands@[t].set().contains(c));
            }
            assert forall|t: int| 0 <= t < 4 implies popcount(#[trigger] b[t]) <= 13 by {
                assert(b[t] == hands@[t]@);
            }
            assert(valid_bits(b));
        }
        if valid_bits(b) {
            assert forall|t: int, c: int| 0 <= t < 4 && #[trigger] hands@[t].set().contains(c) implies 0 <= c < 52 by {
                assert(b[t] == hands@[t]@);
                assert(bit(b[t], c));
            }
            assert forall|t: int| 0 <= t < 4 implies popcount(#[trigger] hands@[t]@) <= 13 by {
                assert(b[t] == hands@[t]@);
            }
            assert(valid_hands(hands@));
        }
    }
    if !valid_deal(&hands) {
        return Err(quote("could not parse deal ", dealstr));
    }
    proof {
        assert(popcount(hands@[crate::types::WEST as int]@) <= 13);
    }
    let mut cutoff = CutoffCache::new(16);
    let mut pattern = PatternCache::new(16);
    let solver = Solver::new(hands, trump_idx, leader_idx);
    let v = solver.solve_with_caches(&mut cutoff, &mut pattern);
    proof {
        assert(max_size(hands@) <= 13);
    }
    Ok(v)
}

} // verus!
