//! The solver's front end: partial tricks, move ordering, and the MTD(f)
//! driver over the search.

use vstd::prelude::*;
use crate::cards::{Cards, suit_of, spec_suit_of, cardset, bit, popcount, suit_mask, ACES, KINGS, QUEENS, JACKS};
use crate::pattern::PatternCache;
use crate::search::{CutoffCache, Search, valid_hands, partial_ok};
use crate::hands::Hands;
use crate::types::{
    Seat, Suit, NUM_SEATS, NUM_SUITS, NOTRUMP, NORTH, SOUTH, EAST, WEST, next_seat, partner,
    left_hand_opp, right_hand_opp, spec_next_seat,
};

verus! {

/// A card played to the current trick, with the seat that played it.
#[derive(Clone, Copy, Debug, PartialEq, Eq, Structural)]
pub struct PlayedCard {
    /// The card played (0-51).
    pub card: usize,
    /// The seat that played it.
    pub seat: Seat,
}

impl PlayedCard {
    /// A played card.
    pub fn new(card: usize, seat: Seat) -> (r: PlayedCard)
        ensures
            r.card == card,
            r.seat == seat,
    {
        PlayedCard { card, seat }
    }
}

/// The cards played so far to a trick, in play order.
#[derive(Debug)]
pub struct PartialTrick {
    /// The plays, first to last.
    pub plays: Vec<PlayedCard>,
}

impl PartialTrick {
    /// A trick with nothing played yet.
    pub fn new() -> (r: PartialTrick)
        ensures
            r.plays@ == Seq::<PlayedCard>::empty(),
    {
        PartialTrick { plays: Vec::new() }
    }

    /// Add `card`, played by `seat`, to the end of the trick.
    pub fn add(&mut self, card: usize, seat: Seat) -> (r: &mut PartialTrick)
        ensures
            r.plays@ == old(self).plays@.push(PlayedCard { card, seat }),
            *final(self) == *final(r),
    {
        self.plays.push(PlayedCard::new(card, seat));
        self
    }

    /// A copy of the trick.
    pub fn copy(&self) -> (r: PartialTrick)
        ensures
            r.plays@ == self.plays@,
    {
        let mut plays: Vec<PlayedCard> = Vec::new();
        let mut i: usize = 0;
        while i < self.plays.len()
            invariant
                i <= self.plays@.len(),
                plays@ == self.plays@.subrange(0, i as int),
            decreases self.plays@.len() - i,
        {
            plays.push(self.plays[i]);
            i += 1;
        }
        proof {
            assert(plays@ =~= self.plays@);
        }
        PartialTrick { plays }
    }

    /// The number of cards played.
    pub fn len(&self) -> (r: usize)
        ensures
            r == self.plays@.len(),
    {
        self.plays.len()
    }

    /// Whether nothing has been played.
    pub fn is_empty(&self) -> (r: bool)
        ensures
            r == (self.plays@.len() == 0),
    {
        self.plays.len() == 0
    }

    /// The suit of the first card played.
    pub fn lead_suit(&self) -> (r: Option<Suit>)
        ensures
            self.plays@.len() == 0 ==> r is None,
            self.plays@.len() > 0 ==> r == Some(spec_suit_of(self.plays@[0].card as int) as usize),
    {
        if self.plays.len() == 0 {
            None
        } else {
            Some(suit_of(self.plays[0].card))
        }
    }

    /// The seat that led.
    pub fn leader(&self) -> (r: Option<Seat>)
        ensures
            self.plays@.len() == 0 ==> r is None,
            self.plays@.len() > 0 ==> r == Some(self.plays@[0].seat),
    {
        if self.plays.len() == 0 {
            None
        } else {
            Some(self.plays[0].seat)
        }
    }

    /// The seat after the last one to play.
    pub fn next_to_play(&self) -> (r: Option<Seat>)
        ensures
            self.plays@.len() == 0 ==> r is None,
            self.plays@.len() > 0 ==> r == Some(
                spec_next_seat(self.plays@.last().seat as int) as usize,
            ),
    {
        if self.plays.len() == 0 {
            None
        } else {
            Some(next_seat(self.plays[self.plays.len() - 1].seat))
        }
    }
}

/// The cards a sequence lists.
pub open spec fn seq_cards(s: Seq<u8>) -> Set<int> {
    Set::new(|c: int| exists|i: int| 0 <= i < s.len() && s[i] as int == c)
}

/// The cards of `v` below index `hi`, lowest index first.
pub open spec fn asc_below(v: u64, hi: int) -> Seq<u8>
    decreases hi,
{
    if hi <= 0 {
        Seq::empty()
    } else {
        asc_below(v, hi - 1) + if bit(v, hi - 1) {
            seq![(hi - 1) as u8]
        } else {
            Seq::empty()
        }
    }
}

/// The cards of `v` from index `lo` up, highest index first.
pub open spec fn desc_from(v: u64, lo: int) -> Seq<u8>
    decreases 64 - lo,
{
    if lo >= 64 {
        Seq::empty()
    } else {
        desc_from(v, lo + 1) + if bit(v, lo) {
            seq![lo as u8]
        } else {
            Seq::empty()
        }
    }
}

proof fn lemma_asc_skip(v: u64, i: int, c: int)
    requires
        0 <= i <= c,
        forall|k: int| i <= k < c ==> !bit(v, k),
    ensures
        asc_below(v, c) == asc_below(v, i),
    decreases c - i,
{
    if i < c {
        lemma_asc_skip(v, i, c - 1);
        assert(asc_below(v, c) =~= asc_below(v, c - 1));
    }
}

proof fn lemma_desc_skip(v: u64, c: int, h: int)
    requires
        0 <= c <= h <= 64,
        forall|k: int| c <= k < h ==> !bit(v, k),
    ensures
        desc_from(v, c) == desc_from(v, h),
    decreases h - c,
{
    if c < h {
        lemma_desc_skip(v, c + 1, h);
        assert(desc_from(v, c) =~= desc_from(v, c + 1));
    }
}

proof fn lemma_seq_cards_push(s: Seq<u8>, x: u8)
    ensures
        seq_cards(s.push(x)) == seq_cards(s).insert(x as int),
{
    assert forall|c: int| seq_cards(s.push(x)).contains(c) <==> seq_cards(s).insert(
        x as int,
    ).contains(c) by {
        if seq_cards(s).contains(c) {
            let i = choose|i: int| 0 <= i < s.len() && s[i] as int == c;
            assert(s.push(x)[i] as int == c);
        }
        if c == x as int {
            assert(s.push(x)[s.len() as int] as int == c);
        }
        if seq_cards(s.push(x)).contains(c) {
            let i = choose|i: int| 0 <= i < s.push(x).len() && s.push(x)[i] as int == c;
            if i < s.len() {
                assert(s[i] as int == c);
            }
        }
    }
    assert(seq_cards(s.push(x)) =~= seq_cards(s).insert(x as int));
}

pub proof fn lemma_remove_set_bit_smaller(a: u64, c: u64)
    by (bit_vector)
    requires
        c < 64,
        (a >> c) & 1u64 == 1u64,
    ensures
        (a & !(1u64 << c)) < a,
{
}

/// Cards in the order they are to be tried.
pub struct OrderedCards {
    cards: Vec<u8>,
}

impl View for OrderedCards {
    type V = Seq<u8>;

    closed spec fn view(&self) -> Seq<u8> {
        self.cards@
    }
}

impl OrderedCards {
    /// No cards yet.
    pub fn new() -> (r: OrderedCards)
        ensures
            r@ == Seq::<u8>::empty(),
    {
        OrderedCards { cards: Vec::new() }
    }

    /// Put `card` next.
    pub fn add(&mut self, card: usize)
        requires
            card < 64,
        ensures
            final(self)@ == old(self)@.push(card as u8),
            seq_cards(final(self)@) == seq_cards(old(self)@).insert(card as int),
            !seq_cards(old(self)@).contains(card as int) && old(self)@.no_duplicates()
                ==> final(self)@.no_duplicates(),
    {
        proof {
            lemma_seq_cards_push(self.cards@, card as u8);
            if !seq_cards(self.cards@).contains(card as int) && self.cards@.no_duplicates() {
                assert forall|i: int| 0 <= i < self.cards@.len() implies self.cards@[i]
                    != card as u8 by {
                    if self.cards@[i] == card as u8 {
                        assert(seq_cards(self.cards@).contains(card as int));
                    }
                }
            }
        }
        self.cards.push(card as u8);
    }

    /// Put every card of `cards` next, highest first.
    pub fn add_cards(&mut self, cards: Cards)
        requires
            seq_cards(old(self)@).disjoint(cards.set()),
        ensures
            final(self)@ == old(self)@ + asc_below(cards@, 64),
            seq_cards(final(self)@) == seq_cards(old(self)@).union(cards.set()),
            old(self)@.no_duplicates() ==> final(self)@.no_duplicates(),
            old(self)@.is_prefix_of(final(self)@),
    {
        let ghost start = self.cards@;
        let ghost mut i: int = 0;
        let mut rem = cards;
        while !rem.is_empty()
            invariant
                seq_cards(self.cards@) == seq_cards(start).union(cards.set().difference(rem.set())),
                rem.set().subset_of(cards.set()),
                seq_cards(start).disjoint(cards.set()),
                start.no_duplicates() ==> self.cards@.no_duplicates(),
                start.is_prefix_of(self.cards@),
                0 <= i <= 64,
                forall|k: int| #[trigger] bit(rem@, k) <==> (bit(cards@, k) && k >= i),
                self.cards@ == start + asc_below(cards@, i),
            decreases rem@,
        {
            let c = rem.top();
            proof {
                assert(!seq_cards(self.cards@).contains(c as int));
                assert(bit(rem@, c as int));
                assert forall|k: int| i <= k < c implies !bit(cards@, k) by {
                    if bit(cards@, k) {
                        assert(bit(rem@, k));
                        assert(rem.set().contains(k));
                    }
                }
                lemma_asc_skip(cards@, i, c as int);
                assert(asc_below(cards@, c + 1) =~= asc_below(cards@, c as int) + seq![c as u8]);
            }
            self.add(c);
            let ghost before = rem@;
            rem.remove(c);
            proof {
                lemma_remove_set_bit_smaller(before, c as u64);
                assert(seq_cards(self.cards@) =~= seq_cards(start).union(
                    cards.set().difference(rem.set()),
                ));
                assert(self.cards@ =~= start + asc_below(cards@, c + 1));
                assert forall|k: int| #[trigger] bit(rem@, k) <==> (bit(cards@, k) && k >= c + 1) by {
                    assert(rem.set().contains(k) == (cardset(before).contains(k) && k != c));
                    assert(cardset(before).contains(k) == bit(before, k));
                    if i <= k < c {
                        assert(!bit(cards@, k));
                    }
                }
                i = c + 1;
            }
        }
        proof {
            assert(cards.set().difference(rem.set()) =~= cards.set());
            assert forall|k: int| i <= k < 64 implies !bit(cards@, k) by {
                assert(!rem.set().contains(k));
            }
            lemma_asc_skip(cards@, i, 64);
        }
    }

    /// Put every card of `cards` next, lowest first.
    pub fn add_reversed(&mut self, cards: Cards)
        requires
            seq_cards(old(self)@).disjoint(cards.set()),
        ensures
            final(self)@ == old(self)@ + desc_from(cards@, 0),
            seq_cards(final(self)@) == seq_cards(old(self)@).union(cards.set()),
            old(self)@.no_duplicates() ==> final(self)@.no_duplicates(),
            old(self)@.is_prefix_of(final(self)@),
    {
        let ghost start = self.cards@;
        let ghost mut h: int = 64;
        let mut rem = cards;
        while !rem.is_empty()
            invariant
                seq_cards(self.cards@) == seq_cards(start).union(cards.set().difference(rem.set())),
                rem.set().subset_of(cards.set()),
                seq_cards(start).disjoint(cards.set()),
                start.no_duplicates() ==> self.cards@.no_duplicates(),
                start.is_prefix_of(self.cards@),
                0 <= h <= 64,
                forall|k: int| #[trigger] bit(rem@, k) <==> (bit(cards@, k) && k < h),
                self.cards@ == start + desc_from(cards@, h),
            decreases rem@,
        {
            let c = rem.bottom();
            proof {
                assert(!seq_cards(self.cards@).contains(c as int));
                assert(bit(rem@, c as int));
                assert forall|k: int| c + 1 <= k < h implies !bit(cards@, k) by {
                    if bit(cards@, k) {
                        assert(bit(rem@, k));
                        assert(rem.set().contains(k));
                    }
                }
                lemma_desc_skip(cards@, c + 1, h);
                assert(desc_from(cards@, c as int) =~= desc_from(cards@, c + 1) + seq![c as u8]);
            }
            self.add(c);
            let ghost before = rem@;
            rem.remove(c);
            proof {
                lemma_remove_set_bit_smaller(before, c as u64);
                assert(seq_cards(self.cards@) =~= seq_cards(start).union(
                    cards.set().difference(rem.set()),
                ));
                assert(self.cards@ =~= start + desc_from(cards@, c as int));
                assert forall|k: int| #[trigger] bit(rem@, k) <==> (bit(cards@, k) && k < c) by {
                    assert(rem.set().contains(k) == (cardset(before).contains(k) && k != c));
                    assert(cardset(before).contains(k) == bit(before, k));
                    if c + 1 <= k < h {
                        assert(!bit(cards@, k));
                    }
                }
                h = c as int;
            }
        }
        proof {
            assert(cards.set().difference(rem.set()) =~= cards.set());
            assert forall|k: int| 0 <= k < h implies !bit(cards@, k) by {
                assert(!rem.set().contains(k));
            }
            lemma_desc_skip(cards@, 0, h);
        }
    }

    /// The number of cards.
    pub fn len(&self) -> (r: usize)
        ensures
            r == self@.len(),
    {
        self.cards.len()
    }

    /// Whether there are none.
    pub fn is_empty(&self) -> (r: bool)
        ensures
            r == (self@.len() == 0),
    {
        self.cards.len() == 0
    }

    /// The card in place `i`.
    pub fn card(&self, i: usize) -> (r: usize)
        requires
            i < self@.len(),
        ensures
            r == self@[i as int],
    {
        self.cards[i] as usize
    }

    /// The cards in order.
    pub fn iter(&self) -> (r: Vec<usize>)
        ensures
            r@.len() == self@.len(),
            forall|i: int| 0 <= i < r@.len() ==> #[trigger] r@[i] == self@[i],
    {
        let mut r: Vec<usize> = Vec::new();
        let mut i: usize = 0;
        while i < self.cards.len()
            invariant
                i <= self@.len(),
                r@.len() == i,
                forall|k: int| 0 <= k < i ==> #[trigger] r@[k] == self@[k],
            decreases self@.len() - i,
        {
            r.push(self.cards[i] as usize);
            i += 1;
        }
        r
    }
}


/// Every card of `x` is one of `playable`'s, in a suit below `suit`.
pub open spec fn held_below(x: Cards, playable: Cards, suit: int) -> bool {
    &&& x.set().subset_of(playable.set())
    &&& forall|c: int| #[trigger] x.set().contains(c) ==> 0 <= c < 52 && c / 13 < suit
}

/// Whether `r` lists each card of `cards` exactly once, and nothing else.
pub open spec fn orders(r: Seq<u8>, cards: Cards) -> bool {
    &&& seq_cards(r) == cards.set()
    &&& r.no_duplicates()
}

/// A list of distinct cards that are exactly the cards of `v` has
/// `popcount(v)` entries.
pub proof fn lemma_orders_len(r: Seq<u8>, v: u64)
    requires
        r.no_duplicates(),
        seq_cards(r) == crate::cards::cardset(v),
    ensures
        r.len() == crate::cards::popcount(v),
    decreases r.len(),
{
    if r.len() == 0 {
        crate::cards::lemma_cardset_zero();
        assert(seq_cards(r) =~= Set::<int>::empty());
        crate::cards::lemma_cardset_injective(v, 0);
    } else {
        let k = r.len() - 1;
        let c = r[k];
        assert(seq_cards(r).contains(c as int));
        assert(crate::cards::bit(v, c as int));
        let cu = c as u64;
        let w = v & !(1u64 << cu);
        crate::cards::lemma_cardset_andnot(v, 1u64 << cu);
        crate::cards::lemma_cardset_single(cu);
        let r2 = r.drop_last();
        assert forall|x: int| seq_cards(r2).contains(x) <==> crate::cards::cardset(w).contains(x) by {
            if seq_cards(r2).contains(x) {
                let i = choose|i: int| 0 <= i < r2.len() && r2[i] as int == x;
                assert(r[i] == r2[i]);
                assert(i != k);
                assert(r[i] != r[k]);
            }
            if crate::cards::cardset(w).contains(x) {
                assert(seq_cards(r).contains(x));
                let i = choose|i: int| 0 <= i < r.len() && r[i] as int == x;
                assert(i != k);
                assert(r2[i] == r[i]);
            }
        }
        assert(seq_cards(r2) =~= crate::cards::cardset(w));
        assert(r2.no_duplicates()) by {
            assert forall|i: int, j: int| 0 <= i < r2.len() && 0 <= j < r2.len() && i != j implies r2[i] != r2[j] by {
                assert(r2[i] == r[i] && r2[j] == r[j]);
            }
        }
        lemma_orders_len(r2, w);
        crate::cards::lemma_popcount_remove(v, cu);
    }
}

/// The index of the lowest set bit of a word: its highest card.
pub open spec fn lowest(v: u64) -> int {
    vstd::std_specs::bits::u64_trailing_zeros(v) as int
}

/// The index of the highest set bit of a word: its lowest card.
pub open spec fn highest(v: u64) -> int {
    63 - vstd::std_specs::bits::u64_leading_zeros(v)
}

/// One card as a word.
pub open spec fn single(c: int) -> u64 {
    1u64 << (c as u64)
}

/// The five highest cards left in a suit's word, repeating the last when
/// fewer are left.
pub open spec fn top_five(all_suit: u64) -> (int, int, int, int, int) {
    let a = lowest(all_suit);
    let r1 = all_suit & !single(a);
    let k = if r1 != 0 { lowest(r1) } else { a };
    let r2 = r1 & !single(k);
    let q = if r2 != 0 { lowest(r2) } else { k };
    let r3 = r2 & !single(q);
    let j = if r3 != 0 { lowest(r3) } else { q };
    let r4 = r3 & !single(j);
    let t = if r4 != 0 { lowest(r4) } else { j };
    (a, k, q, j, t)
}

/// The classes a lead can fall in, in the order they are tried: a suit
/// partner can ruff, a finesse position, both sides holding honours, an
/// ordinary suit, a lead into a tenace, trumps; and a suit left out.
#[derive(Clone, Copy, Debug, PartialEq, Eq, Structural)]
pub enum LeadClass {
    Ruff,
    Finesse,
    Honours,
    Normal,
    Tenace,
    Trump,
    Skipped,
}

/// The class of a suit for a lead by `seat`, by the holdings round the table.
#[verifier::opaque]
pub open spec fn lead_class(playable: u64, h: Seq<Cards>, seat: int, trump: int, all: u64, suit: int) -> LeadClass {
    let my = playable & suit_mask(suit);
    let is_suit = trump < 4;
    let pd = h[(seat + 2) % 4]@;
    let lho = h[(seat + 1) % 4]@;
    let rho = h[(seat + 3) % 4]@;
    let partnership = h[seat]@ | pd;
    if my == 0 {
        LeadClass::Skipped
    } else if is_suit && suit == trump {
        LeadClass::Trump
    } else if is_suit && ((popcount(lho & suit_mask(trump)) > 0 && lho & suit_mask(suit) == 0) || (popcount(
        rho & suit_mask(trump),
    ) > 0 && rho & suit_mask(suit) == 0)) {
        LeadClass::Skipped
    } else {
        let pd_suit = pd & suit_mask(suit);
        let lho_suit = lho & suit_mask(suit);
        let rho_suit = rho & suit_mask(suit);
        let all_suit = all & suit_mask(suit);
        if all_suit == 0 {
            LeadClass::Skipped
        } else {
            let (a, k, q, j, t) = top_five(all_suit);
            let our = my | pd_suit;
            let qj = (0u64 | single(q)) | single(j);
            let jt = (0u64 | single(j)) | single(t);
            if popcount(pd_suit) >= 2 && popcount(lho_suit) >= 2 && ((bit(pd_suit, k) && bit(lho_suit, a)) || (
            bit(pd_suit, a) && bit(lho_suit, k) && (bit(pd_suit, q) || our & qj == qj)) || (bit(pd_suit, k)
                && bit(lho_suit, q) && (bit(pd_suit, j) || our & jt == jt))) {
                LeadClass::Finesse
            } else if popcount(my) >= 2 && popcount(rho_suit) >= 2 && ((bit(my, a) && bit(rho_suit, k)) || (
            bit(my, k) && bit(rho_suit, a) && !bit(partnership, q))) {
                if is_suit {
                    LeadClass::Tenace
                } else {
                    LeadClass::Skipped
                }
            } else if lho_suit != 0 && rho_suit != 0 && popcount(
                partnership & (((0u64 | single(a)) | single(k)) | single(q)),
            ) >= 2 {
                LeadClass::Honours
            } else if is_suit && pd_suit == 0 && lho_suit != 0 && rho_suit != 0 && popcount(
                pd & suit_mask(trump),
            ) > 0 && popcount(pd & suit_mask(trump)) <= popcount(playable & suit_mask(trump)) && highest(my)
                != a {
                LeadClass::Ruff
            } else {
                LeadClass::Normal
            }
        }
    }
}

/// A class's cards with a suit `my` of it added: its top and bottom card,
/// or for a ruff its bottom card only.
pub open spec fn add_picks(x: u64, class: LeadClass, my: u64) -> u64 {
    if class == LeadClass::Ruff {
        x | single(highest(my))
    } else if popcount(my) > 1 {
        (x | single(lowest(my))) | single(highest(my))
    } else {
        x | single(lowest(my))
    }
}

/// The cards of `class` from the suits below `n`.
pub open spec fn lead_class_set(
    playable: u64,
    h: Seq<Cards>,
    seat: int,
    trump: int,
    all: u64,
    class: LeadClass,
    n: int,
) -> u64
    decreases n,
{
    if n <= 0 {
        0
    } else {
        let prev = lead_class_set(playable, h, seat, trump, all, class, n - 1);
        if lead_class(playable, h, seat, trump, all, n - 1) == class {
            add_picks(prev, class, playable & suit_mask(n - 1))
        } else {
            prev
        }
    }
}

/// The order of a lead: the classes in turn (ruffs, tenaces and trumps in
/// a suit contract only), each highest card first, then every playable card
/// not yet placed, highest first.
pub open spec fn spec_lead_order(playable: u64, h: Seq<Cards>, seat: int, trump: int, all: u64) -> Seq<u8> {
    let c0 = lead_class_set(playable, h, seat, trump, all, LeadClass::Ruff, 4);
    let c1 = lead_class_set(playable, h, seat, trump, all, LeadClass::Finesse, 4);
    let c2 = lead_class_set(playable, h, seat, trump, all, LeadClass::Honours, 4);
    let c3 = lead_class_set(playable, h, seat, trump, all, LeadClass::Normal, 4);
    let c4 = lead_class_set(playable, h, seat, trump, all, LeadClass::Tenace, 4);
    let c5 = lead_class_set(playable, h, seat, trump, all, LeadClass::Trump, 4);
    let is_suit = trump < 4;
    let r1 = if is_suit { playable & !c0 } else { playable };
    let r4 = ((r1 & !c1) & !c2) & !c3;
    let rest = if is_suit { (r4 & !c4) & !c5 } else { r4 };
    (if is_suit { asc_below(c0, 64) } else { Seq::empty() }) + asc_below(c1, 64) + asc_below(c2, 64)
        + asc_below(c3, 64) + (if is_suit { asc_below(c4, 64) + asc_below(c5, 64) } else { Seq::empty() })
        + asc_below(rest, 64)
}

/// A suit in a class holds a playable card, and only in a suit contract is
/// it a ruff, a tenace or trumps.
proof fn lemma_lead_class_held(playable: u64, h: Seq<Cards>, seat: int, trump: int, all: u64, suit: int)
    ensures
        lead_class(playable, h, seat, trump, all, suit) != LeadClass::Skipped ==> playable & suit_mask(suit) != 0,
        trump >= 4 ==> lead_class(playable, h, seat, trump, all, suit) != LeadClass::Ruff
            && lead_class(playable, h, seat, trump, all, suit) != LeadClass::Tenace
            && lead_class(playable, h, seat, trump, all, suit) != LeadClass::Trump,
{
    reveal(lead_class);
}

/// The class of `suit` for a lead by `seat`.
fn classify_lead(playable: Cards, hands: &Hands, seat: Seat, trump: usize, all_cards: Cards, suit: usize) -> (r: LeadClass)
    requires
        seat < NUM_SEATS,
        hands@.len() == 4,
        suit < 4,
    ensures
        r == lead_class(playable@, hands@, seat as int, trump as int, all_cards@, suit as int),
{
    proof {
        reveal(lead_class);
    }
    let is_suit_contract = trump < NOTRUMP;
    let my_suit = playable.suit(suit);
    let pd_hand = hands.hand(partner(seat));
    let lho_hand = hands.hand(left_hand_opp(seat));
    let rho_hand = hands.hand(right_hand_opp(seat));
    let partnership_cards = hands.hand(seat).union(pd_hand);
    if my_suit.is_empty() {
        return LeadClass::Skipped;
    }
    if is_suit_contract && suit == trump {
        return LeadClass::Trump;
    }
    if is_suit_contract {
        if lho_hand.suit(trump).size() > 0 && lho_hand.suit(suit).is_empty() {
            return LeadClass::Skipped;
        }
        if rho_hand.suit(trump).size() > 0 && rho_hand.suit(suit).is_empty() {
            return LeadClass::Skipped;
        }
    }
    let pd_suit = pd_hand.suit(suit);
    let lho_suit = lho_hand.suit(suit);
    let rho_suit = rho_hand.suit(suit);
    let all_suit = all_cards.suit(suit);
    if all_suit.is_empty() {
        return LeadClass::Skipped;
    }
    // The five highest cards left in the suit, by whoever holds them.
    let a = all_suit.top();
    let all_minus_a = all_suit.different(Cards::from_bits(1u64 << a as u64));
    let k = if !all_minus_a.is_empty() { all_minus_a.top() } else { a };
    let all_minus_ak = all_minus_a.different(Cards::from_bits(1u64 << k as u64));
    let q = if !all_minus_ak.is_empty() { all_minus_ak.top() } else { k };
    let all_minus_akq = all_minus_ak.different(Cards::from_bits(1u64 << q as u64));
    let j = if !all_minus_akq.is_empty() { all_minus_akq.top() } else { q };
    let all_minus_akqj = all_minus_akq.different(Cards::from_bits(1u64 << j as u64));
    let t = if !all_minus_akqj.is_empty() { all_minus_akqj.top() } else { j };
    let our_suits = my_suit.union(pd_suit);
    // Finesse positions: partner's honour sits over LHO's.
    if pd_suit.size() >= 2 && lho_suit.size() >= 2 {
        let mut qj = Cards::new();
        qj.add(q);
        qj.add(j);
        let mut jt = Cards::new();
        jt.add(j);
        jt.add(t);
        if (pd_suit.have(k) && lho_suit.have(a)) || (pd_suit.have(a) && lho_suit.have(k) && (pd_suit.have(q)
            || our_suits.includes(qj))) || (pd_suit.have(k) && lho_suit.have(q) && (pd_suit.have(j)
            || our_suits.includes(jt))) {
            return LeadClass::Finesse;
        }
    }
    // Leading an honour into RHO's higher one.
    if my_suit.size() >= 2 && rho_suit.size() >= 2 && ((my_suit.have(a) && rho_suit.have(k)) || (
    my_suit.have(k) && rho_suit.have(a) && !partnership_cards.have(q))) {
        if is_suit_contract {
            return LeadClass::Tenace;
        }
        return LeadClass::Skipped;
    }
    // Both opponents follow and the partnership holds two of the top three.
    let mut akq = Cards::new();
    akq.add(a);
    akq.add(k);
    akq.add(q);
    if !lho_suit.is_empty() && !rho_suit.is_empty() && partnership_cards.intersect(akq).size() >= 2 {
        return LeadClass::Honours;
    }
    // A suit partner can ruff.
    if is_suit_contract && pd_suit.is_empty() && !lho_suit.is_empty() && !rho_suit.is_empty()
        && pd_hand.suit(trump).size() > 0 && pd_hand.suit(trump).size() <= playable.suit(trump).size()
        && my_suit.bottom() != a {
        return LeadClass::Ruff;
    }
    LeadClass::Normal
}

/// Order the cards `seat` may lead, most promising first.
///
/// Each suit is put in one class, by the holdings around the table: ruffs
/// for partner, finesse positions, suits where both sides hold honours,
/// ordinary suits, leads into a tenace, and trumps. The top and bottom card
/// of the suit join the class (a possible ruff, only the bottom). In a suit
/// contract a suit an opponent can ruff is left out of the classes. The
/// classes are tried in the order ruff, finesse, honours, ordinary, tenace,
/// trump, and every playable card not yet placed follows, highest first.
pub fn order_leads(
    playable: Cards,
    hands: &Hands,
    seat: Seat,
    trump: usize,
    all_cards: Cards,
) -> (r: OrderedCards)
    requires
        seat < NUM_SEATS,
        hands@.len() == 4,
    ensures
        orders(r@, playable),
        r@.len() == crate::cards::popcount(playable@),
        r@ == spec_lead_order(playable@, hands@, seat as int, trump as int, all_cards@),
{
    let mut ordered = OrderedCards::new();
    let mut remaining = playable;

    let mut good_leads = Cards::new();
    let mut high_leads = Cards::new();
    let mut normal_leads = Cards::new();
    let mut bad_leads = Cards::new();
    let mut trump_leads = Cards::new();
    let mut ruff_leads = Cards::new();

    let is_suit_contract = trump < NOTRUMP;
    proof {
        crate::cards::lemma_cardset_zero();
    }

    let mut suit: usize = 0;
    while suit < NUM_SUITS
        invariant
            suit <= NUM_SUITS,
            held_below(good_leads, playable, suit as int),
            held_below(high_leads, playable, suit as int),
            held_below(normal_leads, playable, suit as int),
            held_below(bad_leads, playable, suit as int),
            held_below(trump_leads, playable, suit as int),
            held_below(ruff_leads, playable, suit as int),
            good_leads.set().disjoint(high_leads.set()),
            good_leads.set().disjoint(normal_leads.set()),
            good_leads.set().disjoint(bad_leads.set()),
            good_leads.set().disjoint(trump_leads.set()),
            good_leads.set().disjoint(ruff_leads.set()),
            high_leads.set().disjoint(normal_leads.set()),
            high_leads.set().disjoint(bad_leads.set()),
            high_leads.set().disjoint(trump_leads.set()),
            high_leads.set().disjoint(ruff_leads.set()),
            normal_leads.set().disjoint(bad_leads.set()),
            normal_leads.set().disjoint(trump_leads.set()),
            normal_leads.set().disjoint(ruff_leads.set()),
            bad_leads.set().disjoint(trump_leads.set()),
            bad_leads.set().disjoint(ruff_leads.set()),
            trump_leads.set().disjoint(ruff_leads.set()),
            hands@.len() == 4,
            seat < 4,
            is_suit_contract == (trump < 4),
            ruff_leads@ == lead_class_set(playable@, hands@, seat as int, trump as int, all_cards@, LeadClass::Ruff, suit as int),
            good_leads@ == lead_class_set(playable@, hands@, seat as int, trump as int, all_cards@, LeadClass::Finesse, suit as int),
            high_leads@ == lead_class_set(playable@, hands@, seat as int, trump as int, all_cards@, LeadClass::Honours, suit as int),
            normal_leads@ == lead_class_set(playable@, hands@, seat as int, trump as int, all_cards@, LeadClass::Normal, suit as int),
            bad_leads@ == lead_class_set(playable@, hands@, seat as int, trump as int, all_cards@, LeadClass::Tenace, suit as int),
            trump_leads@ == lead_class_set(playable@, hands@, seat as int, trump as int, all_cards@, LeadClass::Trump, suit as int),
        decreases NUM_SUITS - suit,
    {
        let class = classify_lead(playable, hands, seat, trump, all_cards, suit);
        let my_suit = playable.suit(suit);
        proof {
            lemma_lead_class_held(playable@, hands@, seat as int, trump as int, all_cards@, suit as int);
        }
        if class != LeadClass::Skipped {
            let top = my_suit.top();
            let bottom = my_suit.bottom();
            let my_size = my_suit.size();
            proof {
                assert(my_suit.set().contains(top as int));
                assert(my_suit.set().contains(bottom as int));
            }
            match class {
                LeadClass::Ruff => {
                    ruff_leads.add(bottom);
                },
                LeadClass::Finesse => {
                    good_leads.add(top);
                    if my_size > 1 {
                        good_leads.add(bottom);
                    }
                },
                LeadClass::Honours => {
                    high_leads.add(top);
                    if my_size > 1 {
                        high_leads.add(bottom);
                    }
                },
                LeadClass::Normal => {
                    normal_leads.add(top);
                    if my_size > 1 {
                        normal_leads.add(bottom);
                    }
                },
                LeadClass::Tenace => {
                    bad_leads.add(top);
                    if my_size > 1 {
                        bad_leads.add(bottom);
                    }
                },
                LeadClass::Trump => {
                    trump_leads.add(top);
                    if my_size > 1 {
                        trump_leads.add(bottom);
                    }
                },
                LeadClass::Skipped => {},
            }
        }
        suit += 1;
    }

    if is_suit_contract {
        ordered.add_cards(ruff_leads);
        remaining.remove_cards(ruff_leads);
    }
    ordered.add_cards(good_leads);
    remaining.remove_cards(good_leads);
    ordered.add_cards(high_leads);
    remaining.remove_cards(high_leads);
    ordered.add_cards(normal_leads);
    remaining.remove_cards(normal_leads);
    if is_suit_contract {
        ordered.add_cards(bad_leads);
        remaining.remove_cards(bad_leads);
        ordered.add_cards(trump_leads);
        remaining.remove_cards(trump_leads);
    }
    ordered.add_cards(remaining);
    proof {
        assert(seq_cards(ordered@) =~= playable.set());
        assert(ordered@ =~= spec_lead_order(playable@, hands@, seat as int, trump as int, all_cards@));
    }
    proof {
        lemma_orders_len(ordered@, playable@);
    }
    ordered
}


/// Whether `playable` is a legal set of cards to follow to `lead_suit`: when
/// it holds a card of that suit, it holds nothing else.
pub open spec fn follows_suit(playable: Cards, lead_suit: int) -> bool {
    (exists|c: int| #[trigger] playable.set().contains(c) && 0 <= c < 52 && c / 13 == lead_suit)
        ==> (forall|c: int| #[trigger] playable.set().contains(c) ==> 0 <= c < 52 && c / 13
        == lead_suit)
}

/// Every card of `cards`, lowest first.
fn all_reversed(cards: Cards) -> (r: OrderedCards)
    ensures
        orders(r@, cards),
        r@ == desc_from(cards@, 0),
{
    let mut ordered = OrderedCards::new();
    proof {
        assert(seq_cards(ordered@) =~= Set::<int>::empty());
    }
    ordered.add_reversed(cards);
    proof {
        assert(seq_cards(ordered@) =~= cards.set());
    }
    ordered
}

/// The cards of `v` from index `begin` up to, not including, `end`.
pub open spec fn card_range(v: u64, begin: int, end: int) -> u64 {
    v & crate::cards::low_mask(end) & !crate::cards::low_mask(begin)
}

/// The order of the cards to follow to a trick, `decides(a, b)` saying
/// whether card `a` beats card `b`.
pub open spec fn spec_follow_order(
    decides: spec_fn(usize, usize) -> bool,
    playable: u64,
    h: Seq<Cards>,
    seat: int,
    trump: int,
    lead_suit: int,
    winning_seat: int,
    winning_card: int,
    card_in_trick: int,
) -> Seq<u8> {
    let pd_seat = (seat + 2) % 4;
    let pd_suit = h[pd_seat]@ & suit_mask(lead_suit);
    let lho_suit = h[(seat + 1) % 4]@ & suit_mask(lead_suit);
    let trick_ending = card_in_trick == 3;
    let second_seat = card_in_trick == 1;
    let my = playable & suit_mask(lead_suit);
    let all_low = desc_from(playable, 0);
    if my != 0 {
        let my_top = lowest(my);
        if !decides(my_top as usize, winning_card as usize) {
            all_low
        } else if winning_seat == pd_seat && (trick_ending || lho_suit == 0 || winning_card < lowest(lho_suit)
            || card_range(lho_suit, 0, winning_card) == card_range(lho_suit, 0, my_top)) {
            all_low
        } else if second_seat && pd_suit != 0 && lowest(pd_suit) < winning_card && ((lho_suit != 0 && lowest(
            lho_suit,
        ) < lowest(pd_suit | my) && card_range(lho_suit, 0, lowest(pd_suit)) == card_range(lho_suit, 0, my_top))
            || lho_suit == 0 || lowest(pd_suit) < lowest(lho_suit)) {
            all_low
        } else {
            let higher = card_range(my, 0, winning_card);
            let lower = my & !higher;
            (if trick_ending || lho_suit == 0 || (higher != 0 && highest(higher) < lowest(lho_suit)) {
                desc_from(higher, 0)
            } else {
                asc_below(higher, 64)
            }) + desc_from(lower, 0)
        }
    } else {
        let my_trumps = if trump < 4 {
            playable & suit_mask(trump)
        } else {
            0
        };
        if my_trumps == 0 {
            spec_discard_order(playable, trump)
        } else if winning_seat == pd_seat && (trick_ending || (lho_suit != 0 && decides(
            winning_card as usize,
            lowest(lho_suit) as usize,
        ))) {
            spec_discard_order(playable, trump)
        } else if spec_suit_of(winning_card) == trump {
            if winning_seat != pd_seat && decides(lowest(my_trumps) as usize, winning_card as usize) {
                let higher = card_range(my_trumps, lowest(my_trumps), winning_card);
                desc_from(higher, 0) + spec_discard_order(playable & !higher, trump)
            } else {
                spec_discard_order(playable, trump)
            }
        } else if trick_ending || lho_suit != 0 || h[(seat + 1) % 4]@ & suit_mask(trump) == 0 {
            let low = highest(my_trumps);
            seq![low as u8] + spec_discard_order(playable & !single(low), trump)
        } else {
            desc_from(my_trumps, 0) + spec_discard_order(playable & !my_trumps, trump)
        }
    }
}

/// `decides` answers as the closure does on every pair.
pub open spec fn decided_by(wins_over: impl Fn(usize, usize) -> bool, decides: spec_fn(usize, usize) -> bool) -> bool {
    forall|a: usize, b: usize, x: bool| call_ensures(wins_over, (a, b), x) ==> x == decides(a, b)
}

/// Order the cards `seat` may play to a trick already led.
///
/// Following suit: low when the card cannot beat the trick or partner has it,
/// low in second seat when partner's honour is better placed, otherwise the
/// cards that beat the current winner (cheapest first unless LHO may still
/// beat them), then the rest, low first. Void: ruff cheaply where that wins,
/// overruff from the bottom up, or try trumps high first when LHO may
/// overruff; then discards as [`add_discards`] orders them.
pub fn order_follows(
    playable: Cards,
    hands: &Hands,
    seat: Seat,
    trump: usize,
    lead_suit: Suit,
    winning_seat: Seat,
    winning_card: usize,
    card_in_trick: usize,
    wins_over: impl Fn(usize, usize) -> bool,
) -> (r: OrderedCards)
    requires
        seat < NUM_SEATS,
        hands@.len() == 4,
        follows_suit(playable, lead_suit as int),
        forall|a: usize, b: usize| call_requires(wins_over, (a, b)),
    ensures
        orders(r@, playable),
        r@.len() == crate::cards::popcount(playable@),
        forall|decides: spec_fn(usize, usize) -> bool|
            decided_by(wins_over, decides) ==> r@ == #[trigger] spec_follow_order(
                decides,
                playable@,
                hands@,
                seat as int,
                trump as int,
                lead_suit as int,
                winning_seat as int,
                winning_card as int,
                card_in_trick as int,
            ),
{
    let mut ordered = OrderedCards::new();
    proof {
        crate::cards::lemma_cardset_zero();
        assert(seq_cards(ordered@) =~= Set::<int>::empty());
    }

    let pd_suit = hands.hand(partner(seat)).suit(lead_suit);
    let lho_suit = hands.hand(left_hand_opp(seat)).suit(lead_suit);

    let trick_ending = card_in_trick == 3;
    let second_seat = card_in_trick == 1;

    let my_suit = playable.suit(lead_suit);
    if !my_suit.is_empty() {
        let my_top = my_suit.top();
        proof {
            assert(playable.set().contains(my_top as int));
            assert(my_suit.set() =~= playable.set());
        }
        // Cannot beat the card winning the trick: play low.
        let beats = wins_over(my_top, winning_card);
        if !beats {
            {
                let r0 = all_reversed(playable);
                proof {
                    lemma_orders_len(r0@, playable@);
                }
                return r0;
            }
        }

        // Partner is winning and nothing is gained by playing high.
        if winning_seat == partner(seat) {
            let below_winner = lho_suit.slice(0, winning_card);
            let below_mine = lho_suit.slice(0, my_top);
            proof {
                if below_winner@ == below_mine@ {
                    Cards::lemma_eq(below_winner, below_mine);
                }
            }
            if trick_ending || lho_suit.is_empty() || winning_card < lho_suit.top() || below_winner == below_mine {
                {
                let r0 = all_reversed(playable);
                proof {
                    lemma_orders_len(r0@, playable@);
                }
                return r0;
            }
            }
        }

        // Second seat: leave it to partner's better card.
        if second_seat && !pd_suit.is_empty() && pd_suit.top() < winning_card {
            let combined = pd_suit.union(my_suit);
            proof {
                crate::cards::lemma_cardset_zero();
                assert(combined.set().contains(my_top as int));
            }
            let below_partner = lho_suit.slice(0, pd_suit.top());
            let below_mine = lho_suit.slice(0, my_top);
            proof {
                if below_partner@ == below_mine@ {
                    Cards::lemma_eq(below_partner, below_mine);
                }
            }
            if !lho_suit.is_empty() && lho_suit.top() < combined.top() && below_partner == below_mine {
                {
                let r0 = all_reversed(playable);
                proof {
                    lemma_orders_len(r0@, playable@);
                }
                return r0;
            }
            }
            if lho_suit.is_empty() || pd_suit.top() < lho_suit.top() {
                {
                let r0 = all_reversed(playable);
                proof {
                    lemma_orders_len(r0@, playable@);
                }
                return r0;
            }
            }
        }

        // The cards that beat the current winner, then the rest.
        let higher_cards = my_suit.slice(0, winning_card);
        let lower_cards = my_suit.different(higher_cards);
        let high_first = trick_ending || lho_suit.is_empty() || (!higher_cards.is_empty()
            && higher_cards.bottom() < lho_suit.top());
        if high_first {
            ordered.add_reversed(higher_cards);
        } else {
            ordered.add_cards(higher_cards);
        }
        let ghost first = ordered@;
        ordered.add_reversed(lower_cards);
        proof {
            assert(seq_cards(ordered@) =~= playable.set());
            let part = if high_first {
                desc_from(higher_cards@, 0)
            } else {
                asc_below(higher_cards@, 64)
            };
            assert(first =~= part);
            assert(ordered@ =~= part + desc_from(lower_cards@, 0));
        }
        {
                proof {
                    lemma_orders_len(ordered@, playable@);
                }
                return ordered;
            }
    }
    // Void in the suit led: ruff or discard.

    let is_suit_contract = trump < NOTRUMP;
    let my_trumps = if is_suit_contract {
        playable.suit(trump)
    } else {
        Cards::new()
    };

    if !my_trumps.is_empty() {
        proof {
            assert(my_trumps.set().subset_of(playable.set()));
        }
        let lho_has_trumps = !hands.hand(left_hand_opp(seat)).suit(trump).is_empty();
        let partner_winning = winning_seat == partner(seat);
        let partner_holds = if partner_winning {
            if trick_ending {
                true
            } else if !lho_suit.is_empty() {
                wins_over(winning_card, lho_suit.top())
            } else {
                false
            }
        } else {
            false
        };
        if partner_holds {
            // Partner holds the trick: discard.
        } else if suit_of(winning_card) == trump {
            // Already ruffed: overruff from the bottom up if possible.
            if winning_seat != partner(seat) {
                let over = wins_over(my_trumps.top(), winning_card);
                if over {
                    let higher_trumps = my_trumps.slice(my_trumps.top(), winning_card);
                    ordered.add_reversed(higher_trumps);
                    let remaining = playable.different(higher_trumps);
                    add_discards(&mut ordered, remaining, trump);
                    proof {
                        assert(seq_cards(ordered@) =~= playable.set());
                    }
                    {
                proof {
                    lemma_orders_len(ordered@, playable@);
                }
                return ordered;
            }
                }
            }
        } else if trick_ending || !lho_suit.is_empty() || !lho_has_trumps {
            // The lowest trump wins.
            let low = my_trumps.bottom();
            ordered.add(low);
            proof {
                crate::cards::lemma_cardset_single(low as u64);
                assert(seq_cards(ordered@) =~= set![low as int]);
            }
            let remaining = playable.different(Cards::from_bits(1u64 << low as u64));
            add_discards(&mut ordered, remaining, trump);
            proof {
                assert(seq_cards(ordered@) =~= playable.set());
            }
            {
                proof {
                    lemma_orders_len(ordered@, playable@);
                }
                return ordered;
            }
        } else {
            // LHO may overruff: trumps from the top.
            ordered.add_reversed(my_trumps);
            let remaining = playable.different(my_trumps);
            add_discards(&mut ordered, remaining, trump);
            proof {
                assert(seq_cards(ordered@) =~= playable.set());
            }
            {
                proof {
                    lemma_orders_len(ordered@, playable@);
                }
                return ordered;
            }
        }
    }
    add_discards(&mut ordered, playable, trump);
    proof {
        assert(seq_cards(ordered@) =~= playable.set());
    }
    proof {
        lemma_orders_len(ordered@, playable@);
    }
    ordered
}

/// The cards of a list of discards.
pub open spec fn discard_cards(ds: Seq<(usize, usize)>) -> Set<int> {
    Set::new(|c: int| exists|i: int| 0 <= i < ds.len() && ds[i].0 as int == c)
}

/// Discard `j` has been placed once keys above `key` are done and, of key
/// `key`, the discards before `i`.
pub open spec fn placed(ds: Seq<(usize, usize)>, key: int, i: int, j: int) -> bool {
    0 <= j < ds.len() && (ds[j].1 > key || (ds[j].1 == key && j < i))
}

/// The cards of the discards placed so far.
pub open spec fn placed_cards(ds: Seq<(usize, usize)>, key: int, i: int) -> Set<int> {
    Set::new(|c: int| exists|j: int| #[trigger] placed(ds, key, i, j) && ds[j].0 as int == c)
}

/// The discard candidates among the first `n` suits: for each side suit
/// that is not void, its lowest card and its length.
pub open spec fn discard_list(playable: u64, trump: int, n: int) -> Seq<(usize, usize)>
    decreases n,
{
    if n <= 0 {
        Seq::empty()
    } else {
        let s = n - 1;
        let my = playable & suit_mask(s);
        discard_list(playable, trump, n - 1) + if s != trump && my != 0 {
            seq![(highest(my) as usize, popcount(my) as usize)]
        } else {
            Seq::empty()
        }
    }
}

/// The longest of the first `n` candidates' suits.
pub open spec fn longest(ds: Seq<(usize, usize)>, n: int) -> int
    decreases n,
{
    if n <= 0 {
        0
    } else {
        let m = longest(ds, n - 1);
        if ds[n - 1].1 > m {
            ds[n - 1].1 as int
        } else {
            m
        }
    }
}

/// The cards of the first `n` candidates whose suits have length `len`,
/// in suit order.
pub open spec fn of_length(ds: Seq<(usize, usize)>, len: int, n: int) -> Seq<u8>
    decreases n,
{
    if n <= 0 {
        Seq::empty()
    } else {
        of_length(ds, len, n - 1) + if ds[n - 1].1 == len {
            seq![ds[n - 1].0 as u8]
        } else {
            Seq::empty()
        }
    }
}

/// The candidates by length, from `hi` down to `lo`.
pub open spec fn by_length(ds: Seq<(usize, usize)>, hi: int, lo: int) -> Seq<u8>
    decreases hi - lo + 1,
{
    if hi < lo {
        Seq::empty()
    } else {
        of_length(ds, hi, ds.len() as int) + by_length(ds, hi - 1, lo)
    }
}

proof fn lemma_by_length_low(ds: Seq<(usize, usize)>, hi: int, lo: int)
    requires
        lo <= hi,
    ensures
        by_length(ds, hi, lo) == by_length(ds, hi, lo + 1) + of_length(ds, lo, ds.len() as int),
    decreases hi - lo,
{
    if lo < hi {
        lemma_by_length_low(ds, hi - 1, lo);
        assert(by_length(ds, hi, lo) =~= by_length(ds, hi, lo + 1) + of_length(ds, lo, ds.len() as int));
    } else {
        assert(by_length(ds, hi, lo + 1) =~= Seq::<u8>::empty());
        assert(by_length(ds, hi - 1, lo) =~= Seq::<u8>::empty());
    }
}

/// The playable cards left once the candidates are taken out.
pub open spec fn rest_after(playable: u64, ds: Seq<(usize, usize)>, n: int) -> u64
    decreases n,
{
    if n <= 0 {
        playable
    } else {
        rest_after(playable, ds, n - 1) & !single(ds[n - 1].0 as int)
    }
}

proof fn lemma_rest_after_prefix(p: u64, a: Seq<(usize, usize)>, b: Seq<(usize, usize)>, n: int)
    requires
        0 <= n <= a.len(),
        n <= b.len(),
        forall|i: int| 0 <= i < n ==> a[i] == b[i],
    ensures
        rest_after(p, a, n) == rest_after(p, b, n),
    decreases n,
{
    if n > 0 {
        lemma_rest_after_prefix(p, a, b, n - 1);
    }
}

proof fn lemma_and_not_outside(r: u64, c: u64, m: u64)
    by (bit_vector)
    requires
        c < 64,
        (m >> c) & 1u64 != 1u64,
    ensures
        (r & !(1u64 << c)) & m == r & m,
{
}

/// Taking out cards of other suits leaves a suit's cards as they were.
proof fn lemma_rest_suit(p: u64, ds: Seq<(usize, usize)>, n: int, suit: int)
    requires
        0 <= n <= ds.len(),
        forall|i: int| 0 <= i < n ==> (#[trigger] ds[i]).0 < 64 && !bit(suit_mask(suit), ds[i].0 as int),
    ensures
        rest_after(p, ds, n) & suit_mask(suit) == p & suit_mask(suit),
    decreases n,
{
    if n > 0 {
        lemma_rest_suit(p, ds, n - 1, suit);
        let c = ds[n - 1].0;
        lemma_and_not_outside(rest_after(p, ds, n - 1), c as u64, suit_mask(suit));
    }
}

/// The order of the discards: the lowest card of each side suit, longest
/// suit first and in suit order among equals, then every other playable
/// card, highest first.
pub open spec fn spec_discard_order(playable: u64, trump: int) -> Seq<u8> {
    let ds = discard_list(playable, trump, 4);
    by_length(ds, longest(ds, ds.len() as int), 0) + asc_below(rest_after(playable, ds, ds.len() as int), 64)
}

/// Add discards: the lowest card of each side suit, the longer suits first
/// (suit order among equals), then every remaining card, highest first.
pub fn add_discards(ordered: &mut OrderedCards, playable: Cards, trump: usize)
    requires
        seq_cards(old(ordered)@).disjoint(playable.set()),
        old(ordered)@.no_duplicates(),
    ensures
        seq_cards(final(ordered)@) == seq_cards(old(ordered)@).union(playable.set()),
        final(ordered)@.no_duplicates(),
        final(ordered)@ == old(ordered)@ + spec_discard_order(playable@, trump as int),
{
    let ghost start = seq_cards(ordered@);
    let ghost start_seq = ordered@;
    let mut rest = playable;
    // (card, cards held in its suit), one per side suit that is not void.
    let mut discards: Vec<(usize, usize)> = Vec::new();
    let mut suit: usize = 0;
    while suit < 4
        invariant
            suit <= 4,
            discards@.len() <= suit,
            rest.set() == playable.set().difference(discard_cards(discards@)),
            discard_cards(discards@).subset_of(playable.set()),
            forall|i: int, j: int|
                0 <= i < j < discards@.len() ==> discards@[i].0 != discards@[j].0,
            forall|i: int| 0 <= i < discards@.len() ==> discards@[i].0 < 64,
            forall|i: int| 0 <= i < discards@.len() ==> discards@[i].1 <= 64,
            discards@ == discard_list(playable@, trump as int, suit as int),
            rest@ == rest_after(playable@, discards@, discards@.len() as int),
            forall|i: int| 0 <= i < discards@.len() ==> (#[trigger] discards@[i]).0 < 52 && (discards@[i].0
                as int) / 13 < suit,
        decreases 4 - suit,
    {
        proof {
            assert forall|i: int| 0 <= i < discards@.len() implies (#[trigger] discards@[i]).0 < 64 && !bit(
                suit_mask(suit as int),
                discards@[i].0 as int,
            ) by {
                crate::cards::lemma_suit_mask(suit as int, discards@[i].0 as int);
            }
            lemma_rest_suit(playable@, discards@, discards@.len() as int, suit as int);
        }
        if suit != trump {
            let suit_cards = rest.suit(suit);
            if !suit_cards.is_empty() {
                let bottom = suit_cards.bottom();
                let in_suit = rest.suit(suit).size();
                proof {
                    assert(rest.set().contains(bottom as int));
                    assert forall|i: int| 0 <= i < discards@.len() implies discards@[i].0
                        != bottom by {
                        assert(discard_cards(discards@).contains(discards@[i].0 as int));
                    }
                }
                let ghost before = discards@;
                discards.push((bottom, in_suit));
                rest.remove(bottom);
                proof {
                    assert(rest_after(playable@, before, before.len() as int) == rest_after(playable@, discards@, before.len() as int)) by {
                        lemma_rest_after_prefix(playable@, before, discards@, before.len() as int);
                    }
                    assert forall|c: int| discard_cards(discards@).contains(c) <==> (
                    discard_cards(before).contains(c) || c == bottom) by {
                        if discard_cards(discards@).contains(c) {
                            let i = choose|i: int|
                                0 <= i < discards@.len() && discards@[i].0 as int == c;
                            if i < before.len() {
                                assert(before[i].0 as int == c);
                            }
                        }
                        if discard_cards(before).contains(c) {
                            let i = choose|i: int| 0 <= i < before.len() && before[i].0 as int == c;
                            assert(discards@[i].0 as int == c);
                        }
                        if c == bottom {
                            assert(discards@[before.len() as int].0 as int == c);
                        }
                    }
                    assert(rest.set() =~= playable.set().difference(discard_cards(discards@)));
                }
            }
        }
        suit += 1;
    }

    // Longest suit first; a stable ordering keeps suit order among equals.
    let n = discards.len();
    let mut max_len: usize = 0;
    let mut i: usize = 0;
    while i < n
        invariant
            i <= n == discards@.len(),
            max_len <= 64,
            forall|j: int| 0 <= j < n ==> discards@[j].1 <= 64,
            forall|j: int| 0 <= j < i ==> discards@[j].1 <= max_len,
            max_len == longest(discards@, i as int),
            rest@ == rest_after(playable@, discards@, n as int),
        decreases n - i,
    {
        if discards[i].1 > max_len {
            max_len = discards[i].1;
        }
        i += 1;
    }
    let ghost ds = discards@;
    let mut key: usize = max_len + 1;
    proof {
        assert(placed_cards(ds, key as int - 1, 0) =~= Set::<int>::empty()) by {
            assert forall|c: int| !#[trigger] placed_cards(ds, key as int - 1, 0).contains(c) by {
                if placed_cards(ds, key as int - 1, 0).contains(c) {
                    let j = choose|j: int| #[trigger] placed(ds, key as int - 1, 0, j) && ds[j].0 as int == c;
                }
            }
        }
        assert(seq_cards(ordered@) =~= start.union(placed_cards(ds, key as int - 1, 0)));
    }
    while key > 0
        invariant
            key <= max_len + 1,
            n == ds.len(),
            ds == discards@,
            forall|j: int| 0 <= j < n ==> ds[j].1 <= max_len,
            forall|i: int, j: int| 0 <= i < j < n ==> ds[i].0 != ds[j].0,
            forall|j: int| 0 <= j < n ==> ds[j].0 < 64,
            discard_cards(ds).subset_of(playable.set()),
            start.disjoint(playable.set()),
            seq_cards(ordered@) == start.union(placed_cards(ds, key as int - 1, 0)),
            ordered@.no_duplicates(),
            max_len == longest(ds, n as int),
            ordered@ == start_seq + by_length(ds, max_len as int, key as int),
            rest@ == rest_after(playable@, ds, n as int),
        decreases key,
    {
        key -= 1;
        let mut i: usize = 0;
        while i < n
            invariant
                i <= n,
                n == ds.len(),
                ds == discards@,
                forall|i: int, j: int| 0 <= i < j < n ==> ds[i].0 != ds[j].0,
                forall|j: int| 0 <= j < n ==> ds[j].0 < 64,
                discard_cards(ds).subset_of(playable.set()),
                start.disjoint(playable.set()),
                seq_cards(ordered@) == start.union(placed_cards(ds, key as int, i as int)),
                ordered@.no_duplicates(),
                key < max_len + 1,
                ordered@ == start_seq + by_length(ds, max_len as int, key + 1) + of_length(ds, key as int, i as int),
                rest@ == rest_after(playable@, ds, n as int),
                max_len == longest(ds, n as int),
            decreases n - i,
        {
            if discards[i].1 == key {
                let c = discards[i].0;
                proof {
                    assert(discard_cards(ds).contains(c as int));
                    if seq_cards(ordered@).contains(c as int) {
                        assert(!start.contains(c as int));
                        let j = choose|j: int|
                            #[trigger] placed(ds, key as int, i as int, j) && ds[j].0 as int == c as int;
                        assert(j != i);
                    }
                }
                ordered.add(c);
                proof {
                    assert forall|x: int| seq_cards(ordered@).contains(x) <==> start.union(
                        placed_cards(ds, key as int, i as int + 1),
                    ).contains(x) by {
                        if x == c as int {
                            assert(placed(ds, key as int, i as int + 1, i as int));
                        }
                        if placed_cards(ds, key as int, i as int).contains(x) {
                            let j = choose|j: int| #[trigger] placed(ds, key as int, i as int, j) && ds[j].0 as int == x;
                            assert(placed(ds, key as int, i as int + 1, j));
                        }
                        if placed_cards(ds, key as int, i as int + 1).contains(x) {
                            let j = choose|j: int| #[trigger] placed(ds, key as int, i as int + 1, j) && ds[j].0 as int == x;
                            if j != i {
                                assert(placed(ds, key as int, i as int, j));
                            }
                        }
                    }
                    assert(seq_cards(ordered@) =~= start.union(
                        placed_cards(ds, key as int, i as int + 1),
                    ));
                }
            } else {
                proof {
                    assert(placed_cards(ds, key as int, i as int) =~= placed_cards(
                        ds,
                        key as int,
                        i as int + 1,
                    )) by {
                        assert forall|x: int| placed_cards(ds, key as int, i as int).contains(x)
                            <==> placed_cards(ds, key as int, i as int + 1).contains(x) by {
                            if placed_cards(ds, key as int, i as int).contains(x) {
                                let j = choose|j: int| #[trigger] placed(ds, key as int, i as int, j) && ds[j].0 as int == x;
                                assert(placed(ds, key as int, i as int + 1, j));
                            }
                            if placed_cards(ds, key as int, i as int + 1).contains(x) {
                                let j = choose|j: int| #[trigger] placed(ds, key as int, i as int + 1, j) && ds[j].0 as int == x;
                                assert(placed(ds, key as int, i as int, j));
                            }
                        }
                    }
                }
            }
            i += 1;
        }
        proof {
            lemma_by_length_low(ds, max_len as int, key as int);
            assert(ordered@ =~= start_seq + by_length(ds, max_len as int, key as int));
            assert(placed_cards(ds, key as int, n as int) =~= placed_cards(ds, key as int - 1, 0)) by {
                assert forall|x: int| placed_cards(ds, key as int, n as int).contains(x)
                    <==> placed_cards(ds, key as int - 1, 0).contains(x) by {
                    if placed_cards(ds, key as int, n as int).contains(x) {
                        let j = choose|j: int| #[trigger] placed(ds, key as int, n as int, j) && ds[j].0 as int == x;
                        assert(placed(ds, key as int - 1, 0, j));
                    }
                    if placed_cards(ds, key as int - 1, 0).contains(x) {
                        let j = choose|j: int| #[trigger] placed(ds, key as int - 1, 0, j) && ds[j].0 as int == x;
                        assert(placed(ds, key as int, n as int, j));
                    }
                }
            }

        }
    }
    proof {
        assert(placed_cards(ds, -1, 0) =~= discard_cards(ds)) by {
            assert forall|x: int| placed_cards(ds, -1, 0).contains(x) <==> discard_cards(ds).contains(x) by {
                if discard_cards(ds).contains(x) {
                    let j = choose|j: int| 0 <= j < ds.len() && ds[j].0 as int == x;
                    assert(placed(ds, -1, 0, j));
                }
                if placed_cards(ds, -1, 0).contains(x) {
                    let j = choose|j: int| #[trigger] placed(ds, -1, 0, j) && ds[j].0 as int == x;
                }
            }
        }
        assert(seq_cards(ordered@) == start.union(discard_cards(ds)));
    }
    ordered.add_cards(rest);
    proof {
        assert(seq_cards(ordered@) =~= start.union(playable.set()));
    }
}


/// A double-dummy solver for one position: the hands, the trump suit (or
/// `NOTRUMP`) and the seat on lead.
pub struct Solver {
    hands: Hands,
    trump: usize,
    initial_leader: Seat,
    num_tricks: usize,
}

/// The MTD(f) guess from high-card points (and, in a suit, trump length):
/// nothing for a side clearly outgunned, just over half for a side somewhat
/// behind in notrump, and everything otherwise.
pub open spec fn spec_guess(hands: Seq<Cards>, trump: int, num_tricks: int) -> int {
    let ns_points = spec_points(hands[1]@) + spec_points(hands[3]@);
    let ew_points = spec_points(hands[2]@) + spec_points(hands[0]@);
    if trump >= 4 {
        if ns_points * 2 < ew_points {
            0
        } else if ns_points < ew_points {
            num_tricks / 2 + 1
        } else {
            num_tricks
        }
    } else {
        let n = popcount(hands[1]@ & suit_mask(trump));
        let s = popcount(hands[3]@ & suit_mask(trump));
        let e = popcount(hands[2]@ & suit_mask(trump));
        let w = popcount(hands[0]@ & suit_mask(trump));
        let ns_max = if n >= s { n } else { s };
        let ew_max = if e >= w { e } else { w };
        if ns_points < ew_points && (ns_max < ew_max || (ns_max == ew_max && n + s < e + w)) {
            0
        } else {
            num_tricks
        }
    }
}

/// High-card points of a hand.
pub open spec fn spec_points(v: u64) -> int {
    (4 * popcount(v & ACES) + 3 * popcount(v & KINGS) + 2 * popcount(v & QUEENS) + popcount(v & JACKS)) as int
}

impl Solver {
    /// The hands to solve.
    pub closed spec fn spec_hands(&self) -> Seq<Cards> {
        self.hands@
    }

    /// The trump suit, or `NOTRUMP`.
    pub closed spec fn spec_trump(&self) -> usize {
        self.trump
    }

    /// The seat on lead.
    pub closed spec fn spec_leader(&self) -> usize {
        self.initial_leader
    }

    /// The tricks left to play.
    pub closed spec fn spec_num_tricks(&self) -> usize {
        self.num_tricks
    }

    /// A solver for `hands` with `initial_leader` on lead to the first
    /// trick; the tricks to play are West's cards.
    pub fn new(hands: Hands, trump: usize, initial_leader: Seat) -> (r: Solver)
        ensures
            r.spec_hands() == hands@,
            r.spec_trump() == trump,
            r.spec_leader() == initial_leader,
            r.spec_num_tricks() == popcount(hands@[WEST as int]@),
    {
        let num_tricks = hands.num_tricks();
        Solver { hands, trump, initial_leader, num_tricks }
    }

    /// A solver for a position in the middle of a trick: `hands` are the
    /// cards not yet played, `partial_trick` the one to three cards played
    /// to the trick. None for a trick of no cards or of four.
    pub fn new_mid_trick(hands: Hands, trump: usize, partial_trick: &PartialTrick) -> (r: Option<
        Solver,
    >)
        ensures
            r is Some <==> 1 <= partial_trick.plays@.len() <= 3,
            r matches Some(sv) ==> sv.spec_hands() == hands@ && sv.spec_trump() == trump
                && sv.spec_leader() == partial_trick.plays@[0].seat && sv.spec_num_tricks()
                == crate::search::max_size(hands@),
    {
        if partial_trick.is_empty() || partial_trick.len() > 3 {
            return None;
        }
        let initial_leader = match partial_trick.leader() {
            Some(l) => l,
            None => {
                return None;
            },
        };
        let mut num_tricks: usize = 0;
        let mut s: usize = 0;
        proof {
            hands.lemma_len();
        }
        while s < NUM_SEATS
            invariant
                s <= NUM_SEATS,
                hands@.len() == 4,
                num_tricks == (if s == 0 {
                    0
                } else if s == 1 {
                    popcount(hands@[0]@)
                } else if s == 2 {
                    let a = popcount(hands@[0]@);
                    let b = popcount(hands@[1]@);
                    if a >= b { a } else { b }
                } else if s == 3 {
                    let a = popcount(hands@[0]@);
                    let b = popcount(hands@[1]@);
                    let c = popcount(hands@[2]@);
                    let ab = if a >= b { a } else { b };
                    if ab >= c { ab } else { c }
                } else {
                    crate::search::max_size(hands@)
                }),
            decreases NUM_SEATS - s,
        {
            let n = hands.hand(s).size();
            if n > num_tricks {
                num_tricks = n;
            }
            s += 1;
        }
        Some(Solver { hands, trump, initial_leader, num_tricks })
    }

    /// The tricks North-South take from this position with best play by
    /// both sides, with caches of its own.
    pub fn solve(&self) -> (r: u8)
        requires
            valid_hands(self.spec_hands()),
            self.spec_leader() < 4,
            self.spec_num_tricks() <= 13,
        ensures
            r <= crate::search::max_size(self.spec_hands()),
    {
        let mut cutoff_cache = CutoffCache::new(16);
        let mut pattern_cache = PatternCache::new(16);
        self.solve_with_caches(&mut cutoff_cache, &mut pattern_cache)
    }

    /// [`Solver::solve`] with caches kept from earlier solves. Both caches
    /// may be shared between solves of one deal and one trump suit.
    pub fn solve_with_caches(
        &self,
        cutoff_cache: &mut CutoffCache,
        pattern_cache: &mut PatternCache,
    ) -> (r: u8)
        requires
            valid_hands(self.spec_hands()),
            self.spec_leader() < 4,
            self.spec_num_tricks() <= 13,
            old(cutoff_cache).wf(),
            old(pattern_cache).wf(),
        ensures
            final(cutoff_cache).wf(),
            final(pattern_cache).wf(),
            r <= crate::search::max_size(self.spec_hands()),
    {
        self.solve_with_caches_and_partial(cutoff_cache, pattern_cache, None)
    }

    /// The tricks North-South take from a position with the cards of
    /// `partial_trick` already played to the current trick.
    pub fn solve_mid_trick(
        &self,
        cutoff_cache: &mut CutoffCache,
        pattern_cache: &mut PatternCache,
        partial_trick: &PartialTrick,
    ) -> (r: u8)
        requires
            valid_hands(self.spec_hands()),
            self.spec_leader() < 4,
            self.spec_num_tricks() <= 13,
            partial_ok(*partial_trick),
            partial_trick.plays@.len() > 0 ==> crate::search::max_size(self.spec_hands()) >= 1,
            old(cutoff_cache).wf(),
            old(pattern_cache).wf(),
        ensures
            final(cutoff_cache).wf(),
            final(pattern_cache).wf(),
            r <= crate::search::max_size(self.spec_hands()),
    {
        self.solve_with_caches_and_partial(cutoff_cache, pattern_cache, Some(partial_trick))
    }

    fn solve_with_caches_and_partial(
        &self,
        cutoff_cache: &mut CutoffCache,
        pattern_cache: &mut PatternCache,
        partial_trick: Option<&PartialTrick>,
    ) -> (r: u8)
        requires
            valid_hands(self.spec_hands()),
            self.spec_leader() < 4,
            self.spec_num_tricks() <= 13,
            partial_trick matches Some(pt) ==> partial_ok(*pt) && (pt.plays@.len() > 0
                ==> crate::search::max_size(self.spec_hands()) >= 1),
            old(cutoff_cache).wf(),
            old(pattern_cache).wf(),
        ensures
            final(cutoff_cache).wf(),
            final(pattern_cache).wf(),
            r <= crate::search::max_size(self.spec_hands()),
    {
        let num_tricks = self.num_tricks;
        let guess = self.guess_tricks();
        self.mtdf_search_with_caches_and_partial(
            num_tricks,
            guess,
            cutoff_cache,
            pattern_cache,
            partial_trick,
        )
    }

    /// MTD(f): null-window probes around the guess, narrowing the range the
    /// value lies in until it closes.
    fn mtdf_search_with_caches_and_partial(
        &self,
        num_tricks: usize,
        guess: usize,
        cutoff_cache: &mut CutoffCache,
        pattern_cache: &mut PatternCache,
        partial_trick: Option<&PartialTrick>,
    ) -> (r: u8)
        requires
            valid_hands(self.spec_hands()),
            self.spec_leader() < 4,
            num_tricks <= 13,
            guess <= 14,
            num_tricks > 0 ==> guess <= num_tricks,
            partial_trick matches Some(pt) ==> partial_ok(*pt) && (pt.plays@.len() > 0
                ==> crate::search::max_size(self.spec_hands()) >= 1),
            old(cutoff_cache).wf(),
            old(pattern_cache).wf(),
        ensures
            final(cutoff_cache).wf(),
            final(pattern_cache).wf(),
            r <= crate::search::max_size(self.spec_hands()),
    {
        let hands = self.hands;
        let mut lower: i8 = 0;
        let mut upper: i8 = num_tricks as i8;
        let mut ns_tricks: i8 = guess as i8;
        while lower < upper
            invariant
                0 <= lower <= 13,
                upper <= 13,
                0 <= ns_tricks <= 14,
                lower < upper ==> lower <= ns_tricks <= upper,
                lower <= crate::search::max_size(self.spec_hands()),
                valid_hands(hands@),
                hands@ == self.spec_hands(),
                self.spec_leader() < 4,
                partial_trick matches Some(pt) ==> partial_ok(*pt) && (pt.plays@.len() > 0
                    ==> crate::search::max_size(self.spec_hands()) >= 1),
                cutoff_cache.wf(),
                pattern_cache.wf(),
            decreases (if upper > lower { upper - lower } else { 0 }),
        {
            let beta = if ns_tricks == lower {
                ns_tricks + 1
            } else {
                ns_tricks
            };
            let mut searcher = Search::new_with_partial_trick(
                &hands,
                self.trump,
                self.initial_leader,
                partial_trick,
            );
            let result = searcher.search(cutoff_cache, pattern_cache, beta);
            ns_tricks = result as i8;
            if ns_tricks < beta {
                upper = ns_tricks;
            } else {
                lower = ns_tricks;
            }
        }
        lower as u8
    }

    /// The first guess for MTD(f): see [`spec_guess`].
    fn guess_tricks(&self) -> (r: usize)
        requires
            self.spec_num_tricks() <= 13,
        ensures
            r == spec_guess(self.spec_hands(), self.spec_trump() as int, self.spec_num_tricks() as int),
            r <= 14,
            self.spec_num_tricks() > 0 ==> r <= self.spec_num_tricks(),
    {
        let num_tricks = self.num_tricks;
        let ns_points = self.hands.hand(NORTH).points() + self.hands.hand(SOUTH).points();
        let ew_points = self.hands.hand(EAST).points() + self.hands.hand(WEST).points();
        if self.trump >= NOTRUMP {
            if ns_points * 2 < ew_points {
                return 0;
            }
            if ns_points < ew_points {
                return num_tricks / 2 + 1;
            }
        } else {
            let n_trumps = self.hands.hand(NORTH).suit(self.trump).size();
            let s_trumps = self.hands.hand(SOUTH).suit(self.trump).size();
            let e_trumps = self.hands.hand(EAST).suit(self.trump).size();
            let w_trumps = self.hands.hand(WEST).suit(self.trump).size();
            let ns_max_trumps = if n_trumps >= s_trumps {
                n_trumps
            } else {
                s_trumps
            };
            let ew_max_trumps = if e_trumps >= w_trumps {
                e_trumps
            } else {
                w_trumps
            };
            if ns_points < ew_points && (ns_max_trumps < ew_max_trumps || (ns_max_trumps
                == ew_max_trumps && n_trumps + s_trumps < e_trumps + w_trumps)) {
                return 0;
            }
        }
        num_tricks
    }
}

} // verus!
