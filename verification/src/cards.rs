//! A set of cards held in one 64-bit word.
//!
//! Card `c` (0..51) is bit `c`. Within a suit the index runs from the ace down
//! to the two, and the suits run spades, hearts, diamonds, clubs, so a lower
//! index is always a higher card of its suit: `SA` is 0, `S2` is 12, `HA` 13,
//! and `C2` 51.

use vstd::prelude::*;
use crate::types::{Suit, SPADE, HEART, DIAMOND, CLUB, NUM_SUITS, NUM_RANKS, TOTAL_CARDS, ACE, spec_suit_char, spec_rank_char, suit_char, rank_char};
use crate::text::string_of;

verus! {

/// Whether bit `i` of `v` is set.
pub open spec fn bit(v: u64, i: int) -> bool {
    0 <= i < 64 && ((v >> (i as u64)) & 1u64) == 1u64
}

/// The card indices whose bits are set in `v`.
pub open spec fn cardset(v: u64) -> Set<int> {
    Set::new(|i: int| bit(v, i))
}

/// The number of set bits in `v`.
pub open spec fn popcount(v: u64) -> nat
    decreases v,
{
    if v == 0 {
        0
    } else {
        (v % 2) as nat + popcount(v / 2)
    }
}

/// The bits of the cards of `suit`: thirteen consecutive bits from `13 * suit`.
pub open spec fn suit_mask(suit: int) -> u64 {
    if suit == 0 {
        0x1fffu64
    } else if suit == 1 {
        0x1fffu64 << 13u64
    } else if suit == 2 {
        0x1fffu64 << 26u64
    } else if suit == 3 {
        0x1fffu64 << 39u64
    } else {
        0u64
    }
}

/// Bits `0..n`, all set; every bit for `n >= 64`.
pub open spec fn low_mask(n: int) -> u64 {
    if n <= 0 {
        0u64
    } else if n >= 64 {
        0xffff_ffff_ffff_ffffu64
    } else {
        ((1u64 << (n as u64)) - 1) as u64
    }
}

/// The index of card `rank` of `suit`.
pub open spec fn spec_card_of(suit: int, rank: int) -> int {
    suit * 13 + (12 - rank)
}

/// The suit a card belongs to.
pub open spec fn spec_suit_of(card: int) -> int {
    card / 13
}

/// The rank of a card: 0 for the two up to 12 for the ace.
pub open spec fn spec_rank_of(card: int) -> int {
    12 - card % 13
}

/// How `|`, `&`, `& !` and `^` act on one bit, and that unequal words
/// differ somewhere.
proof fn lemma_bitwise_bit(a: u64, b: u64, i: u64)
    by (bit_vector)
    requires
        i < 64,
    ensures
        ((a | b) >> i) & 1u64 == 1u64 <==> (((a >> i) & 1u64) == 1u64 || ((b >> i) & 1u64)
            == 1u64),
        ((a & b) >> i) & 1u64 == 1u64 <==> (((a >> i) & 1u64) == 1u64 && ((b >> i) & 1u64)
            == 1u64),
        ((a & !b) >> i) & 1u64 == 1u64 <==> (((a >> i) & 1u64) == 1u64 && ((b >> i) & 1u64)
            != 1u64),
        ((a ^ b) >> i) & 1u64 == 1u64 ==> ((((a >> i) & 1u64) == 1u64) != (((b >> i) & 1u64)
            == 1u64)),
        a != b ==> a ^ b != 0u64,
{
}

proof fn lemma_single_bit(c: u64, i: u64)
    by (bit_vector)
    requires
        c < 64,
        i < 64,
    ensures
        (((1u64 << c) >> i) & 1u64 == 1u64) <==> i == c,
{
}

proof fn lemma_low_mask_bit(n: u64, i: u64)
    by (bit_vector)
    requires
        0 < n < 64,
        i < 64,
    ensures
        (((((1u64 << n) - 1) as u64) >> i) & 1u64 == 1u64) <==> i < n,
{
}

proof fn lemma_fixed_bits(i: u64)
    by (bit_vector)
    requires
        i < 64,
    ensures
        ((0xffff_ffff_ffff_ffffu64 >> i) & 1u64 == 1u64),
        !((0u64 >> i) & 1u64 == 1u64),
        ((0x1fffu64 >> i) & 1u64 == 1u64) <==> i < 13,
        (((0x1fffu64 << 13u64) >> i) & 1u64 == 1u64) <==> (13 <= i && i < 26),
        (((0x1fffu64 << 26u64) >> i) & 1u64 == 1u64) <==> (26 <= i && i < 39),
        (((0x1fffu64 << 39u64) >> i) & 1u64 == 1u64) <==> (39 <= i && i < 52),
{
}

/// Bit `i` of `low_mask(n)` is set exactly when `i < n`.
pub proof fn lemma_low_mask(n: int, i: int)
    requires
        0 <= i < 64,
    ensures
        bit(low_mask(n), i) <==> i < n,
{
    if n <= 0 {
        lemma_fixed_bits(i as u64);
    } else if n >= 64 {
        lemma_fixed_bits(i as u64);
    } else {
        lemma_low_mask_bit(n as u64, i as u64);
    }
}

/// Bit `i` of a suit's mask is set exactly when card `i` is of that suit.
pub proof fn lemma_suit_mask(suit: int, i: int)
    requires
        0 <= i < 64,
    ensures
        bit(suit_mask(suit), i) <==> (0 <= suit < 4 && 0 <= i < 52 && i / 13 == suit),
{
    lemma_fixed_bits(i as u64);
}

/// The cards of `a | b` are those of `a` and those of `b`.
pub proof fn lemma_cardset_or(a: u64, b: u64)
    ensures
        cardset(a | b) == cardset(a).union(cardset(b)),
{
    assert forall|i: int| cardset(a | b).contains(i) <==> cardset(a).union(cardset(b)).contains(
        i,
    ) by {
        if 0 <= i < 64 {
            lemma_bitwise_bit(a, b, i as u64);
        }
    }
    assert(cardset(a | b) =~= cardset(a).union(cardset(b)));
}

/// The cards of `a & b` are those in both.
pub proof fn lemma_cardset_and(a: u64, b: u64)
    ensures
        cardset(a & b) == cardset(a).intersect(cardset(b)),
{
    assert forall|i: int| cardset(a & b).contains(i) <==> cardset(a).intersect(
        cardset(b),
    ).contains(i) by {
        if 0 <= i < 64 {
            lemma_bitwise_bit(a, b, i as u64);
        }
    }
    assert(cardset(a & b) =~= cardset(a).intersect(cardset(b)));
}

/// The cards of `a & !b` are those of `a` not in `b`.
pub proof fn lemma_cardset_andnot(a: u64, b: u64)
    ensures
        cardset(a & !b) == cardset(a).difference(cardset(b)),
{
    assert forall|i: int| cardset(a & !b).contains(i) <==> cardset(a).difference(
        cardset(b),
    ).contains(i) by {
        if 0 <= i < 64 {
            lemma_bitwise_bit(a, b, i as u64);
        }
    }
    assert(cardset(a & !b) =~= cardset(a).difference(cardset(b)));
}

/// The cards of a single bit.
pub proof fn lemma_cardset_single(c: u64)
    requires
        c < 64,
    ensures
        cardset(1u64 << c) == set![c as int],
{
    assert forall|i: int| cardset(1u64 << c).contains(i) <==> set![c as int].contains(i) by {
        if 0 <= i < 64 {
            lemma_single_bit(c, i as u64);
        }
    }
    assert(cardset(1u64 << c) =~= set![c as int]);
}

/// The empty word holds no cards.
pub proof fn lemma_cardset_zero()
    ensures
        cardset(0u64) == Set::<int>::empty(),
{
    assert forall|i: int| !cardset(0u64).contains(i) by {
        if 0 <= i < 64 {
            lemma_fixed_bits(i as u64);
        }
    }
    assert(cardset(0u64) =~= Set::<int>::empty());
}

/// Two words with the same cards are the same word.
pub proof fn lemma_cardset_injective(a: u64, b: u64)
    requires
        cardset(a) == cardset(b),
    ensures
        a == b,
{
    if a != b {
        let d = a ^ b;
        lemma_bitwise_bit(a, b, 0);
        vstd::std_specs::bits::axiom_u64_trailing_zeros(d);
        let t = vstd::std_specs::bits::u64_trailing_zeros(d) as u64;
        assert(t < 64);
        assert((d >> t) & 1u64 == 1u64);
        lemma_bitwise_bit(a, b, t);
        assert(bit(a, t as int) == (((a >> t) & 1u64) == 1u64));
        assert(bit(b, t as int) == (((b >> t) & 1u64) == 1u64));
        assert(cardset(a).contains(t as int) == bit(a, t as int));
        assert(cardset(b).contains(t as int) == bit(b, t as int));
        assert(false);
    }
}

/// The cards of `low_mask(n)` are those below `n`.
pub proof fn lemma_cardset_low_mask(n: int)
    ensures
        cardset(low_mask(n)) == Set::new(|i: int| 0 <= i < 64 && i < n),
{
    assert forall|i: int| cardset(low_mask(n)).contains(i) <==> (0 <= i < 64 && i < n) by {
        if 0 <= i < 64 {
            lemma_low_mask(n, i);
        }
    }
    assert(cardset(low_mask(n)) =~= Set::new(|i: int| 0 <= i < 64 && i < n));
}

proof fn lemma_halves(v: u64, n: u64)
    by (bit_vector)
    requires
        1 <= n < 64,
    ensures
        v & (((1u64 << n) - 1) as u64) == v ==> (v / 2) & (((1u64 << ((n - 1) as u64)) - 1) as u64)
            == v / 2,
        v & (((1u64 << n) - 1) as u64) == 0 ==> v % 2 == 0 && (v / 2) & (((1u64 << ((n
            - 1) as u64)) - 1) as u64) == 0,
        (v / 2) & 0x7fff_ffff_ffff_ffffu64 == v / 2,
        0x7fff_ffff_ffff_ffffu64 == ((1u64 << 63u64) - 1) as u64,
{
}

/// Facts about words that the default solver does not see: `0` is the
/// identity of `|` and absorbs `&`, masking twice is masking once, a mask
/// bounds what it leaves, and shifts by nothing change nothing.
pub proof fn lemma_word_facts(x: u64, y: u64, z: u64)
    by (bit_vector)
    ensures
        x | 0u64 == x,
        0u64 | x == x,
        x & 0u64 == 0u64,
        0u64 & x == 0u64,
        (x & y & z) & y == x & y & z,
        (x & y) & y == x & y,
        0xffff_ffff_ffff_ffffu64 & x == x,
        x & y <= y,
        ((1u64 << 0u64) - 1) as u64 == 0u64,
        1u64 << 0u64 == 1u64,
        (x >> 0u64) & 1u64 == 1u64 ==> x % 2 == 1,
        x & 1u64 != 0u64 ==> x & 1u64 == 1u64,
{
}

/// A word inside `low_mask(n)` has at most `n` bits set.
pub proof fn lemma_popcount_low(v: u64, n: int)
    requires
        0 <= n <= 64,
        v & low_mask(n) == v,
    ensures
        popcount(v) <= n,
    decreases n,
{
    lemma_word_facts(v, 0, 0);
    if n > 0 {
        lemma_halves(v, if n == 64 { 1 } else { n as u64 });
        lemma_popcount_low(v / 2, n - 1);
    }
}

/// A word inside `low_mask(n)` with no bit below `j` has at most `n - j`
/// bits set.
pub proof fn lemma_popcount_range(v: u64, j: int, n: int)
    requires
        0 <= j <= n <= 64,
        j < 64,
        v & low_mask(n) == v,
        v & low_mask(j) == 0,
    ensures
        popcount(v) <= n - j,
    decreases j,
{
    if j == 0 {
        lemma_popcount_low(v, n);
    } else {
        lemma_word_facts(v, 0, 0);
        lemma_halves(v, j as u64);
        lemma_halves(v, if n == 64 { 1 } else { n as u64 });
        lemma_popcount_range(v / 2, j - 1, n - 1);
    }
}

proof fn lemma_remove_bit(v: u64, c: u64)
    by (bit_vector)
    requires
        c < 64,
        (v >> c) & 1u64 == 1u64,
    ensures
        c == 0 ==> v % 2 == 1 && (v & !1u64) % 2 == 0 && (v & !1u64) / 2 == v / 2,
        c >= 1 ==> (v & !(1u64 << c)) % 2 == v % 2 && (v & !(1u64 << c)) / 2 == (v / 2) & !(1u64 << ((c
            - 1) as u64)) && ((v / 2) >> ((c - 1) as u64)) & 1u64 == 1u64,
{
}

/// Taking a held card out of a word lowers its count by one.
pub proof fn lemma_popcount_remove(v: u64, c: u64)
    requires
        c < 64,
        (v >> c) & 1u64 == 1u64,
    ensures
        popcount(v & !(1u64 << c)) + 1 == popcount(v),
    decreases c,
{
    lemma_remove_bit(v, c);
    lemma_word_facts(v, 0, 0);
    if c > 0 {
        lemma_popcount_remove(v / 2, (c - 1) as u64);
    }
}

/// A nonzero word has a bit set.
pub proof fn lemma_popcount_nonzero(v: u64)
    requires
        v != 0,
    ensures
        popcount(v) >= 1,
    decreases v,
{
    if v % 2 == 0 {
        lemma_popcount_nonzero(v / 2);
    }
}

/// How the masks of the four suits sit against the low masks, and the
/// bits of a word `a` kept inside one suit.
pub proof fn lemma_suit_words(x: u64, a: u64, b: u64, c: u64)
    by (bit_vector)
    ensures
        (x & 0x1fffu64) & (((1u64 << 13u64) - 1) as u64) == x & 0x1fffu64,
        (x & (0x1fffu64 << 13u64)) & (((1u64 << 26u64) - 1) as u64) == x & (0x1fffu64 << 13u64),
        (x & (0x1fffu64 << 13u64)) & (((1u64 << 13u64) - 1) as u64) == 0u64,
        (x & (0x1fffu64 << 26u64)) & (((1u64 << 39u64) - 1) as u64) == x & (0x1fffu64 << 26u64),
        (x & (0x1fffu64 << 26u64)) & (((1u64 << 26u64) - 1) as u64) == 0u64,
        (x & (0x1fffu64 << 39u64)) & (((1u64 << 52u64) - 1) as u64) == x & (0x1fffu64 << 39u64),
        (x & (0x1fffu64 << 39u64)) & (((1u64 << 39u64) - 1) as u64) == 0u64,
        0x1fffu64 << 13u64 != 0u64,
        0x1fffu64 << 26u64 != 0u64,
        0x1fffu64 << 39u64 != 0u64,
        a & (0x1fffu64 << 13u64) == a ==> (a & b & c) & (((1u64 << 13u64) - 1) as u64) == 0u64,
        a & (0x1fffu64 << 26u64) == a ==> (a & b & c) & (((1u64 << 26u64) - 1) as u64) == 0u64,
        a & (0x1fffu64 << 39u64) == a ==> (a & b & c) & (((1u64 << 39u64) - 1) as u64) == 0u64,
{
}

/// A suit holds at most thirteen cards.
pub proof fn lemma_suit_count(x: u64, suit: int)
    ensures
        popcount(x & suit_mask(suit)) <= 13,
{
    let v = x & suit_mask(suit);
    lemma_suit_words(x, 0, 0, 0);
    lemma_word_facts(x, 0, 0);
    lemma_word_facts(x & 0x1fffu64, 0, 0);
    assert(low_mask(13) == ((1u64 << 13u64) - 1) as u64);
    assert(low_mask(26) == ((1u64 << 26u64) - 1) as u64);
    assert(low_mask(39) == ((1u64 << 39u64) - 1) as u64);
    assert(low_mask(52) == ((1u64 << 52u64) - 1) as u64);
    if suit == 0 {
        lemma_popcount_range(v, 0, 13);
    } else if suit == 1 {
        lemma_popcount_range(v, 13, 26);
    } else if suit == 2 {
        lemma_popcount_range(v, 26, 39);
    } else if suit == 3 {
        lemma_popcount_range(v, 39, 52);
    }
}

proof fn lemma_shift_positive(n: u64)
    by (bit_vector)
    requires
        n < 64,
    ensures
        (1u64 << n) >= 1u64,
{
}

/// A set of cards.
#[derive(Clone, Copy, PartialEq, Eq, Structural, Debug, Hash)]
pub struct Cards {
    bits: u64,
}

impl View for Cards {
    type V = u64;

    closed spec fn view(&self) -> u64 {
        self.bits
    }
}

/// Clearing the lowest set bit, `x & (x - 1)`, removes exactly the bit at
/// `x`'s trailing-zero count.
proof fn lemma_clear_lowest(x: u64)
    requires
        x != 0,
    ensures
        vstd::std_specs::bits::u64_trailing_zeros(x) < 64,
        x & ((x - 1) as u64) == x & !(1u64 << (vstd::std_specs::bits::u64_trailing_zeros(x) as u64)),
        (x >> (vstd::std_specs::bits::u64_trailing_zeros(x) as u64)) & 1u64 == 1u64,
{
    vstd::std_specs::bits::axiom_u64_trailing_zeros(x);
    let c = vstd::std_specs::bits::u64_trailing_zeros(x) as u64;
    let d = (64 - c) as u64;
    assert(x << d == 0);
    assert((c < 64 && d == 64 - c && (x >> c) & 1u64 == 1u64 && x << d == 0) ==> x & ((x - 1) as u64) == x & !(1u64
        << c)) by (bit_vector);
}

/// The number of one bits in the word, one loop step per bit set. A word
/// has 64 bits, so the count is at most 64.
fn count_ones(v: u64) -> (r: u32)
    ensures
        r == popcount(v),
        r <= 64,
{
    proof {
        assert(v & 0xffff_ffff_ffff_ffffu64 == v) by (bit_vector);
        lemma_popcount_low(v, 64);
    }
    let mut x = v;
    let mut n: u32 = 0;
    while x != 0
        invariant
            n + popcount(x) == popcount(v),
            popcount(v) <= 64,
        decreases x,
    {
        proof {
            lemma_clear_lowest(x);
            let c = vstd::std_specs::bits::u64_trailing_zeros(x) as u64;
            lemma_popcount_remove(x, c);
            crate::bridge_solver::lemma_remove_set_bit_smaller(x, c);
        }
        x = x & (x - 1);
        n = n + 1;
    }
    n
}

impl Cards {
    /// The cards this set holds, as indices.
    pub open spec fn set(self) -> Set<int> {
        cardset(self@)
    }

    /// Two sets with the same bits are equal.
    pub proof fn lemma_eq(a: Cards, b: Cards)
        requires
            a@ == b@,
        ensures
            a == b,
    {
    }

    /// The empty set.
    pub fn new() -> (r: Cards)
        ensures
            r@ == 0,
    {
        Cards { bits: 0 }
    }

    /// The set whose bits are `bits`.
    pub fn from_bits(bits: u64) -> (r: Cards)
        ensures
            r@ == bits,
    {
        Cards { bits }
    }

    /// The bits of the set.
    pub fn value(&self) -> (r: u64)
        ensures
            r == self@,
    {
        self.bits
    }

    /// Whether the set holds no card.
    pub fn is_empty(&self) -> (r: bool)
        ensures
            r == (self@ == 0),
            r == (self.set() == Set::<int>::empty()),
    {
        proof {
            lemma_cardset_zero();
            if self.set() == Set::<int>::empty() {
                lemma_cardset_injective(self.bits, 0);
            }
        }
        self.bits == 0
    }

    /// How many cards the set holds.
    pub fn size(&self) -> (r: usize)
        ensures
            r == popcount(self@),
            r <= 64,
    {
        count_ones(self.bits) as usize
    }

    /// Whether `card` is in the set; false for an index past the word.
    pub fn have(&self, card: usize) -> (r: bool)
        ensures
            r == bit(self@, card as int),
            r == self.set().contains(card as int),
    {
        card < 64 && (self.bits >> (card as u64)) & 1u64 == 1u64
    }

    /// The cards of the set, lowest index first.
    pub fn to_vec(&self) -> (r: Vec<usize>)
        ensures
            forall|i: int| 0 <= i < r@.len() ==> self.set().contains(#[trigger] r@[i] as int),
            forall|c: int| #[trigger] self.set().contains(c) ==> r@.contains(c as usize),
            forall|i: int, j: int| 0 <= i < j < r@.len() ==> r@[i] < r@[j],
    {
        let mut r: Vec<usize> = Vec::new();
        let mut c: usize = 0;
        while c < 64
            invariant
                c <= 64,
                forall|i: int| 0 <= i < r@.len() ==> self.set().contains(#[trigger] r@[i] as int) && r@[i] < c,
                forall|d: int| 0 <= d < c && #[trigger] self.set().contains(d) ==> r@.contains(d as usize),
                forall|i: int, j: int| 0 <= i < j < r@.len() ==> r@[i] < r@[j],
            decreases 64 - c,
        {
            if self.have(c) {
                let ghost before = r@;
                r.push(c);
                proof {
                    assert forall|d: int| 0 <= d < c + 1 && #[trigger] self.set().contains(d) implies r@.contains(
                        d as usize,
                    ) by {
                        if d < c {
                            let k = choose|k: int| 0 <= k < before.len() && before[k] == d as usize;
                            assert(r@[k] == d as usize);
                        } else {
                            assert(r@[before.len() as int] == c);
                        }
                    }
                }
            }
            c += 1;
        }
        proof {
            assert forall|d: int| #[trigger] self.set().contains(d) implies r@.contains(d as usize) by {
                assert(bit(self@, d));
            }
        }
        r
    }

    /// Add `card`; an index past the word changes nothing.
    pub fn add(&mut self, card: usize)
        ensures
            card < 64 ==> final(self)@ == old(self)@ | (1u64 << card as u64),
            card >= 64 ==> final(self)@ == old(self)@,
            card < 64 ==> final(self).set() == old(self).set().insert(card as int),
    {
        if card < 64 {
            proof {
                lemma_cardset_or(self.bits, 1u64 << card as u64);
                lemma_cardset_single(card as u64);
                assert(cardset(self.bits).union(set![card as int]) =~= cardset(self.bits).insert(
                    card as int,
                ));
            }
            self.bits = self.bits | (1u64 << card as u64);
        }
    }

    /// Remove `card`; an index past the word changes nothing.
    pub fn remove(&mut self, card: usize)
        ensures
            card < 64 ==> final(self)@ == old(self)@ & !(1u64 << card as u64),
            card >= 64 ==> final(self)@ == old(self)@,
            card < 64 ==> final(self).set() == old(self).set().remove(card as int),
    {
        if card < 64 {
            proof {
                lemma_cardset_andnot(self.bits, 1u64 << card as u64);
                lemma_cardset_single(card as u64);
                assert(cardset(self.bits).difference(set![card as int]) =~= cardset(
                    self.bits,
                ).remove(card as int));
            }
            self.bits = self.bits & !(1u64 << card as u64);
        }
    }

    /// Add every card of `other`.
    pub fn add_cards(&mut self, other: Cards)
        ensures
            final(self)@ == old(self)@ | other@,
            final(self).set() == old(self).set().union(other.set()),
    {
        proof {
            lemma_cardset_or(self.bits, other.bits);
        }
        self.bits = self.bits | other.bits;
    }

    /// Remove every card of `other`.
    pub fn remove_cards(&mut self, other: Cards)
        ensures
            final(self)@ == old(self)@ & !other@,
            final(self).set() == old(self).set().difference(other.set()),
    {
        proof {
            lemma_cardset_andnot(self.bits, other.bits);
        }
        self.bits = self.bits & !other.bits;
    }

    /// The cards in either set.
    pub fn union(&self, other: Cards) -> (r: Cards)
        ensures
            r@ == self@ | other@,
            r.set() == self.set().union(other.set()),
    {
        proof {
            lemma_cardset_or(self.bits, other.bits);
        }
        Cards { bits: self.bits | other.bits }
    }

    /// The cards in both sets.
    pub fn intersect(&self, other: Cards) -> (r: Cards)
        ensures
            r@ == self@ & other@,
            r.set() == self.set().intersect(other.set()),
    {
        proof {
            lemma_cardset_and(self.bits, other.bits);
        }
        Cards { bits: self.bits & other.bits }
    }

    /// The cards of this set that are not in `other`.
    pub fn different(&self, other: Cards) -> (r: Cards)
        ensures
            r@ == self@ & !other@,
            r.set() == self.set().difference(other.set()),
    {
        proof {
            lemma_cardset_andnot(self.bits, other.bits);
        }
        Cards { bits: self.bits & !other.bits }
    }

    /// Whether every card of `other` is in this set.
    pub fn includes(&self, other: Cards) -> (r: bool)
        ensures
            r == (self@ & other@ == other@),
            r == other.set().subset_of(self.set()),
    {
        proof {
            lemma_cardset_and(self.bits, other.bits);
            if other.set().subset_of(self.set()) {
                assert(cardset(self.bits & other.bits) =~= cardset(other.bits));
                lemma_cardset_injective(self.bits & other.bits, other.bits);
            }
        }
        self.bits & other.bits == other.bits
    }

    /// The cards of `suit`; none for a suit index past the four suits.
    pub fn suit(&self, suit: Suit) -> (r: Cards)
        ensures
            r@ == self@ & suit_mask(suit as int),
            r.set() == self.set().filter(|c: int| 0 <= c < 52 && c / 13 == suit),
    {
        let m = mask_of(suit);
        proof {
            lemma_cardset_and(self.bits, m);
            assert forall|c: int| cardset(m).contains(c) <==> (0 <= c < 52 && c / 13 == suit) by {
                if 0 <= c < 64 {
                    lemma_suit_mask(suit as int, c);
                }
            }
            assert(cardset(self.bits & m) =~= self.set().filter(
                |c: int| 0 <= c < 52 && c / 13 == suit,
            ));
        }
        Cards { bits: self.bits & m }
    }

    /// This set with the cards of `suit` taken out.
    pub fn clear_suit(&self, suit: Suit) -> (r: Cards)
        ensures
            r@ == self@ & !suit_mask(suit as int),
            r.set() == self.set().filter(|c: int| !(0 <= c < 52 && c / 13 == suit)),
    {
        let m = mask_of(suit);
        proof {
            lemma_cardset_andnot(self.bits, m);
            assert forall|c: int| cardset(m).contains(c) <==> (0 <= c < 52 && c / 13 == suit) by {
                if 0 <= c < 64 {
                    lemma_suit_mask(suit as int, c);
                }
            }
            assert(cardset(self.bits & !m) =~= self.set().filter(
                |c: int| !(0 <= c < 52 && c / 13 == suit),
            ));
        }
        Cards { bits: self.bits & !m }
    }

    /// The highest card: the lowest index held.
    /// For the empty set this is 64, past every card.
    pub fn top(&self) -> (r: usize)
        ensures
            r <= 64,
            r == vstd::std_specs::bits::u64_trailing_zeros(self@),
            self@ != 0 ==> r < 64 && self.set().contains(r as int),
            self@ == 0 ==> r == 64,
            forall|c: int| 0 <= c < r ==> !self.set().contains(c),
    {
        proof {
            vstd::std_specs::bits::axiom_u64_trailing_zeros(self.bits);
            let t = vstd::std_specs::bits::u64_trailing_zeros(self.bits);
            assert forall|c: int| 0 <= c < t implies !self.set().contains(c) by {
                assert(((self.bits >> (c as u64)) & 1u64) == 0u64);
            }
        }
        self.bits.trailing_zeros() as usize
    }

    /// The lowest card: the highest index held.
    pub fn bottom(&self) -> (r: usize)
        requires
            self@ != 0,
        ensures
            r < 64,
            r == 63 - vstd::std_specs::bits::u64_leading_zeros(self@),
            self.set().contains(r as int),
            forall|c: int| r < c ==> !self.set().contains(c),
    {
        let lz = self.bits.leading_zeros();
        proof {
            vstd::std_specs::bits::axiom_u64_leading_zeros(self.bits);
            assert forall|c: int| 63 - lz < c implies !self.set().contains(c) by {
                if c < 64 {
                    assert(((self.bits >> (c as u64)) & 1u64) == 0u64);
                }
            }
            let s = (63 - lz) as u64;
            let v = self.bits;
            assert(s == (63u64 - lz as u64) as u64);
            assert((v >> s) & 1u64 != 0u64);
            lemma_word_facts(v >> s, 0, 0);
        }
        (63 - lz) as usize
    }

    /// The cards with index in `begin..end`: those ranking below card
    /// `begin - 1` and above card `end` when both are of the same suit.
    pub fn slice(&self, begin: usize, end: usize) -> (r: Cards)
        ensures
            r@ == self@ & low_mask(end as int) & !low_mask(begin as int),
            r.set() == self.set().filter(|c: int| begin <= c < end),
    {
        let hi = if end >= 64 {
            0xffff_ffff_ffff_ffffu64
        } else if end == 0 {
            0u64
        } else {
            let x = 1u64 << end as u64;
            proof {
                lemma_shift_positive(end as u64);
            }
            x - 1
        };
        let lo = if begin >= 64 {
            0xffff_ffff_ffff_ffffu64
        } else if begin == 0 {
            0u64
        } else {
            let x = 1u64 << begin as u64;
            proof {
                lemma_shift_positive(begin as u64);
            }
            x - 1
        };
        proof {
            assert(hi == low_mask(end as int));
            assert(lo == low_mask(begin as int));
            lemma_cardset_and(self.bits, hi);
            lemma_cardset_andnot(self.bits & hi, lo);
            lemma_cardset_low_mask(end as int);
            lemma_cardset_low_mask(begin as int);
            assert(cardset(self.bits & hi & !lo) =~= self.set().filter(
                |c: int| begin <= c < end,
            ));
        }
        Cards { bits: self.bits & hi & !lo }
    }

    /// High-card points: four for an ace, three for a king, two for a queen
    /// and one for a jack.
    pub fn points(&self) -> (r: usize)
        ensures
            r == 4 * popcount(self@ & ACES) + 3 * popcount(self@ & KINGS) + 2 * popcount(
                self@ & QUEENS,
            ) + popcount(self@ & JACKS),
            r <= 640,
    {
        let a = count_ones(self.bits & ACES) as usize;
        let k = count_ones(self.bits & KINGS) as usize;
        let q = count_ones(self.bits & QUEENS) as usize;
        let j = count_ones(self.bits & JACKS) as usize;
        4 * a + 3 * k + 2 * q + j
    }
}

/// The four aces.
pub const ACES: u64 = 0x0008_0040_0200_1001;

/// The four kings.
pub const KINGS: u64 = 0x0010_0080_0400_2002;

/// The four queens.
pub const QUEENS: u64 = 0x0020_0100_0800_4004;

/// The four jacks.
pub const JACKS: u64 = 0x0040_0200_1000_8008;

/// The bits of the cards of `suit`; zero past the four suits.
pub fn mask_of(suit: Suit) -> (r: u64)
    ensures
        r == suit_mask(suit as int),
{
    if suit == SPADE {
        0x1fffu64
    } else if suit == HEART {
        0x1fffu64 << 13u64
    } else if suit == DIAMOND {
        0x1fffu64 << 26u64
    } else if suit == CLUB {
        0x1fffu64 << 39u64
    } else {
        0u64
    }
}

/// The card of `suit` and `rank`.
pub fn card_of(suit: Suit, rank: usize) -> (r: usize)
    requires
        suit < NUM_SUITS,
        rank < NUM_RANKS,
    ensures
        r == spec_card_of(suit as int, rank as int),
        r < TOTAL_CARDS,
        spec_suit_of(r as int) == suit,
        spec_rank_of(r as int) == rank,
{
    suit * NUM_RANKS + (ACE - rank)
}

/// The suit of `card`.
pub fn suit_of(card: usize) -> (r: Suit)
    ensures
        r == spec_suit_of(card as int),
        card < TOTAL_CARDS ==> r < NUM_SUITS,
{
    card / NUM_RANKS
}

/// The rank of `card`: 0 for the two up to 12 for the ace.
pub fn rank_of(card: usize) -> (r: usize)
    ensures
        r == spec_rank_of(card as int),
        r < NUM_RANKS,
{
    ACE - card % NUM_RANKS
}

/// Whether `c1` ranks above `c2` (meaningful for two cards of one suit).
pub fn higher_rank(c1: usize, c2: usize) -> (r: bool)
    ensures
        r == (c1 < c2),
{
    c1 < c2
}

/// Whether `c1` ranks below `c2` (meaningful for two cards of one suit).
pub fn lower_rank(c1: usize, c2: usize) -> (r: bool)
    ensures
        r == (c1 > c2),
{
    c1 > c2
}

/// The two characters a card is written with: suit, then rank (`"HK"`).
pub open spec fn spec_name_of(card: int) -> Seq<char> {
    seq![spec_suit_char(spec_suit_of(card)), spec_rank_char(spec_rank_of(card))]
}


/// The name of a card: its suit letter, then its rank (`"HK"`, `"S9"`).
pub fn name_of(card: usize) -> (r: String)
    ensures
        r@ == spec_name_of(card as int),
{
    let mut v: Vec<char> = Vec::new();
    v.push(suit_char(suit_of(card)));
    v.push(rank_char(rank_of(card)));
    proof {
        assert(v@ =~= spec_name_of(card as int));
    }
    string_of(&v)
}

} // verus!
