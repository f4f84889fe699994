//! The bounds cache: positions keyed by the suit lengths of the four hands,
//! each holding a tree of patterns of relative cards with proven bounds on
//! the tricks North-South take.

use vstd::prelude::*;
use crate::bits::{pack_bits, unpack_bits, pext, pdep};
use crate::cards::{Cards, mask_of, suit_of, suit_mask, popcount, spec_suit_of, spec_card_of, card_of, low_mask, bit, lemma_suit_mask, lemma_popcount_range, lemma_word_facts, lemma_suit_words};
use vstd::std_specs::bits::{u64_leading_zeros, u64_trailing_ones};
use crate::hands::Hands;
use crate::pattern_vec::PatternVec;
use crate::types::{Seat, Suit, NUM_SEATS, NUM_SUITS, NUM_RANKS, TOTAL_TRICKS, ACE, WEST, NORTH, EAST, SOUTH};

verus! {

/// Suit lengths of all four hands, four bits each: West's spades in bits
/// 60-63, West's hearts in 56-59, and so on down to South's clubs.
#[derive(Clone, Copy, PartialEq, Eq, Structural, Debug)]
pub struct Shape {
    value: u64,
}

impl View for Shape {
    type V = u64;

    closed spec fn view(&self) -> u64 {
        self.value
    }
}

/// Where the length of `suit` in `seat`'s hand sits in a shape.
pub open spec fn spec_offset(seat: int, suit: int) -> int {
    if 0 <= seat < 4 && 0 <= suit < 4 {
        60 - (seat * 4 + suit) * 4
    } else {
        0
    }
}

/// The shape of the first `n` (seat, suit) slots, in the order West's spades,
/// West's hearts, ... South's clubs.
pub open spec fn shape_fold(h: Seq<Cards>, n: int) -> u64
    decreases n,
{
    if n <= 0 {
        0
    } else {
        let seat = (n - 1) / 4;
        let suit = (n - 1) % 4;
        shape_fold(h, n - 1) | ((popcount(h[seat]@ & suit_mask(suit)) as u64) << (spec_offset(
            seat,
            suit,
        ) as u64))
    }
}

impl Shape {
    /// The shape of `hands`.
    pub fn from_hands(hands: &Hands) -> (r: Shape)
        requires
            hands@.len() == 4,
        ensures
            r@ == shape_fold(hands@, 16),
    {
        let mut value = 0u64;
        let mut n: usize = 0;
        while n < 16
            invariant
                n <= 16,
                hands@.len() == 4,
                value == shape_fold(hands@, n as int),
            decreases 16 - n,
        {
            let seat = n / 4;
            let suit = n % 4;
            let len = hands.hand(seat).suit(suit).size() as u64;
            value = value | (len << Self::offset(seat, suit));
            n += 1;
        }
        Shape { value }
    }

    /// The shape after `seat` leads `c1` and the next three seats play `c2`,
    /// `c3` and `c4`: one card fewer in each of those suits.
    pub fn play_cards(&mut self, seat: Seat, c1: usize, c2: usize, c3: usize, c4: usize)
        ensures
            final(self)@ == old(self)@.wrapping_sub(
                1u64 << spec_offset(seat as int, spec_suit_of(c1 as int)) as u64,
            ).wrapping_sub(
                1u64 << spec_offset((seat + 1) % 4, spec_suit_of(c2 as int)) as u64,
            ).wrapping_sub(
                1u64 << spec_offset((seat + 2) % 4, spec_suit_of(c3 as int)) as u64,
            ).wrapping_sub(1u64 << spec_offset((seat + 3) % 4, spec_suit_of(c4 as int)) as u64),
    {
        self.value = self.value.wrapping_sub(1u64 << Self::offset(seat, suit_of(c1)));
        self.value = self.value.wrapping_sub(
            1u64 << Self::offset((seat % NUM_SEATS + 1) % NUM_SEATS, suit_of(c2)),
        );
        self.value = self.value.wrapping_sub(
            1u64 << Self::offset((seat % NUM_SEATS + 2) % NUM_SEATS, suit_of(c3)),
        );
        self.value = self.value.wrapping_sub(
            1u64 << Self::offset((seat % NUM_SEATS + 3) % NUM_SEATS, suit_of(c4)),
        );
    }

    /// The shape as a word.
    pub fn value(&self) -> (r: u64)
        ensures
            r == self@,
    {
        self.value
    }

    /// The shape of no cards.
    pub fn zero() -> (r: Shape)
        ensures
            r@ == 0,
    {
        Shape { value: 0 }
    }

    fn offset(seat: Seat, suit: Suit) -> (r: u64)
        ensures
            r == spec_offset(seat as int, suit as int),
            r <= 60,
    {
        if seat < NUM_SEATS && suit < NUM_SUITS {
            (60 - (seat * NUM_SUITS + suit) * 4) as u64
        } else {
            0
        }
    }
}

/// The proven range of tricks for a position.
#[derive(Clone, Copy, PartialEq, Eq, Structural, Debug)]
pub struct Bounds {
    pub lower: i8,
    pub upper: i8,
}

/// Whether a bound settles a null-window search at `beta`.
pub open spec fn spec_cutoff(b: Bounds, beta: i8) -> bool {
    b.lower >= beta || b.upper < beta
}

/// The tighter of two bounds.
pub open spec fn spec_intersect(a: Bounds, b: Bounds) -> Bounds {
    Bounds {
        lower: if a.lower >= b.lower { a.lower } else { b.lower },
        upper: if a.upper <= b.upper { a.upper } else { b.upper },
    }
}

impl Bounds {
    /// The range `lower..=upper`.
    pub fn new(lower: i8, upper: i8) -> (r: Bounds)
        ensures
            r == (Bounds { lower, upper }),
    {
        Bounds { lower, upper }
    }

    /// Whether the range holds nothing.
    pub fn is_empty(&self) -> (r: bool)
        ensures
            r == (self.upper < self.lower),
    {
        self.upper < self.lower
    }

    /// The range both bounds allow.
    pub fn intersect(&self, other: Bounds) -> (r: Bounds)
        ensures
            r == spec_intersect(*self, other),
    {
        Bounds {
            lower: if self.lower >= other.lower { self.lower } else { other.lower },
            upper: if self.upper <= other.upper { self.upper } else { other.upper },
        }
    }

    /// Whether this bound settles a search at `beta`: the position is worth
    /// at least `beta`, or less than it.
    pub fn cutoff(&self, beta: i8) -> (r: bool)
        ensures
            r == spec_cutoff(*self, beta),
    {
        self.lower >= beta || self.upper < beta
    }
}

/// Whether hands `a` are at least as specific as `b`: each of `a`'s hands
/// holds every card of `b`'s.
pub open spec fn finer(a: Seq<Cards>, b: Seq<Cards>) -> bool {
    forall|s: int| 0 <= s < 4 ==> (#[trigger] a[s]@ & b[s]@) == b[s]@
}

/// A pattern: hands of relative cards, the bounds proven for every position
/// it matches, and more specific patterns below it.
pub struct Pattern {
    pub hands: Hands,
    pub bounds: Bounds,
    pub children: PatternVec,
}

/// The height of a pattern tree: one for a leaf.
pub open spec fn height(p: Pattern) -> nat
    decreases p, 1int, 0int,
{
    1 + children_height(p, p.children.items@.len() as int)
}

/// The greatest height among the first `n` children of `p`.
pub open spec fn children_height(p: Pattern, n: int) -> nat
    decreases p, 0int, n,
{
    if n <= 0 || n > p.children.items@.len() {
        0
    } else {
        let h = height(p.children.items@[n - 1]);
        let rest = children_height(p, n - 1);
        if h >= rest {
            h
        } else {
            rest
        }
    }
}

/// The pattern a lookup of hands `np` at `beta` finds below `p`: the first
/// child, in order, that `np` matches and whose bounds settle the search,
/// or else the first such pattern found under a matching child.
pub open spec fn tree_lookup(p: Pattern, np: Seq<Cards>, beta: i8) -> Option<Pattern>
    decreases p, 1int, 0int,
{
    kids_lookup(p, np, beta, 0)
}

/// [`tree_lookup`] over the children of `p` from the `i`-th on.
pub open spec fn kids_lookup(p: Pattern, np: Seq<Cards>, beta: i8, i: int) -> Option<Pattern>
    decreases p, 0int, p.children.items@.len() - i,
{
    if i < 0 || i >= p.children.items@.len() {
        None
    } else {
        let c = p.children.items@[i];
        if finer(np, c.hands@) {
            if spec_cutoff(c.bounds, beta) {
                Some(c)
            } else {
                match tree_lookup(c, np, beta) {
                    Some(q) => Some(q),
                    None => kids_lookup(p, np, beta, i + 1),
                }
            }
        } else {
            kids_lookup(p, np, beta, i + 1)
        }
    }
}

/// Whether bounds `nb` for hands `np` contradict nothing stored below `p`:
/// down every chain of stored patterns that `np` matches, `nb` narrowed by
/// each pattern's bounds in turn never becomes empty.
pub open spec fn agrees_below(p: Pattern, np: Seq<Cards>, nb: Bounds) -> bool
    decreases p,
{
    forall|i: int|
        0 <= i < p.children.items@.len() && finer(np, (#[trigger] p.children.items@[i]).hands@)
            ==> spec_intersect(nb, p.children.items@[i].bounds).lower <= spec_intersect(
            nb,
            p.children.items@[i].bounds,
        ).upper && agrees_below(
            p.children.items@[i],
            np,
            spec_intersect(nb, p.children.items@[i].bounds),
        )
}

/// A lookup that finds a pattern among the children from `k` on finds one
/// from any earlier child on.
proof fn lemma_kids_lookup_later(p: Pattern, np: Seq<Cards>, beta: i8, i: int, k: int)
    requires
        0 <= i <= k,
        kids_lookup(p, np, beta, k) is Some,
    ensures
        kids_lookup(p, np, beta, i) is Some,
    decreases k - i,
{
    if i < k {
        lemma_kids_lookup_later(p, np, beta, i + 1, k);
    }
}


/// Whether `q` is a node of the tree below `p` (not `p` itself).
pub open spec fn below(p: Pattern, q: Pattern) -> bool
    decreases p,
{
    exists|i: int|
        0 <= i < p.children.items@.len() && (p.children.items@[i] == q || below(
            #[trigger] p.children.items@[i],
            q,
        ))
}


/// The number of nodes of a pattern tree.
pub open spec fn tree_size(p: Pattern) -> nat
    decreases p, 1int, 0int,
{
    1 + kids_size(p, p.children.items@.len() as int)
}

/// The number of nodes under the first `n` children of `p`.
pub open spec fn kids_size(p: Pattern, n: int) -> nat
    decreases p, 0int, n,
{
    if n <= 0 || n > p.children.items@.len() {
        0
    } else {
        kids_size(p, n - 1) + tree_size(p.children.items@[n - 1])
    }
}

/// The number of nodes under the first `n` patterns of `s`.
pub open spec fn seq_size(s: Seq<Pattern>, n: int) -> nat
    decreases n,
{
    if n <= 0 || n > s.len() {
        0
    } else {
        seq_size(s, n - 1) + tree_size(s[n - 1])
    }
}

proof fn lemma_kids_size(p: Pattern, n: int)
    requires
        0 <= n <= p.children.items@.len(),
    ensures
        kids_size(p, n) == seq_size(p.children.items@, n),
    decreases n,
{
    if n > 0 {
        lemma_kids_size(p, n - 1);
    }
}

/// The size of a tree is one more than the sizes of its children.
proof fn lemma_tree_size(p: Pattern)
    ensures
        tree_size(p) == 1 + seq_size(p.children.items@, p.children.items@.len() as int),
{
    lemma_kids_size(p, p.children.items@.len() as int);
}

proof fn lemma_seq_size_elem(s: Seq<Pattern>, i: int, n: int)
    requires
        0 <= i < n <= s.len(),
    ensures
        tree_size(s[i]) <= seq_size(s, n),
    decreases n,
{
    if i < n - 1 {
        lemma_seq_size_elem(s, i, n - 1);
    }
}

proof fn lemma_seq_size_update(s: Seq<Pattern>, i: int, x: Pattern, n: int)
    requires
        0 <= i < s.len(),
        0 <= n <= s.len(),
    ensures
        i < n ==> seq_size(s.update(i, x), n) + tree_size(s[i]) == seq_size(s, n) + tree_size(x),
        i >= n ==> seq_size(s.update(i, x), n) == seq_size(s, n),
    decreases n,
{
    if n > 0 {
        lemma_seq_size_update(s, i, x, n - 1);
    }
}

proof fn lemma_seq_size_prefix(s: Seq<Pattern>, t: Seq<Pattern>, n: int)
    requires
        0 <= n <= s.len(),
        n <= t.len(),
        forall|j: int| 0 <= j < n ==> s[j] == t[j],
    ensures
        seq_size(s, n) == seq_size(t, n),
    decreases n,
{
    if n > 0 {
        lemma_seq_size_prefix(s, t, n - 1);
    }
}

proof fn lemma_seq_size_concat(s: Seq<Pattern>, t: Seq<Pattern>, n: int)
    requires
        0 <= n <= t.len(),
    ensures
        seq_size(s + t, s.len() + n) == seq_size(s, s.len() as int) + seq_size(t, n),
    decreases n,
{
    if n == 0 {
        lemma_seq_size_prefix(s + t, s, s.len() as int);
    } else {
        lemma_seq_size_concat(s, t, n - 1);
        assert((s + t)[s.len() + n - 1] == t[n - 1]);
    }
}

impl Pattern {
    /// A pattern with no children.
    pub fn new(hands: Hands, bounds: Bounds) -> (r: Pattern)
        ensures
            r.hands == hands,
            r.bounds == bounds,
            r.children@ == Seq::<Pattern>::empty(),
    {
        Pattern { hands, bounds, children: PatternVec::new() }
    }

    /// An empty root: no cards, and the bounds of a whole deal.
    pub fn root() -> (r: Pattern)
        ensures
            r.hands@.len() == 4,
            r.bounds == (Bounds { lower: 0, upper: TOTAL_TRICKS as i8 }),
            r.children@ == Seq::<Pattern>::empty(),
    {
        Pattern { hands: Hands::new(), bounds: Bounds::new(0, TOTAL_TRICKS as i8), children: PatternVec::new() }
    }

    /// Empty the pattern back to a root.
    pub fn reset(&mut self)
        ensures
            final(self).hands@.len() == 4,
            forall|s: int| 0 <= s < 4 ==> (#[trigger] final(self).hands@[s])@ == 0,
            final(self).bounds == (Bounds { lower: 0, upper: TOTAL_TRICKS as i8 }),
            final(self).children@ == Seq::<Pattern>::empty(),
    {
        self.hands = Hands::new();
        self.bounds = Bounds::new(0, TOTAL_TRICKS as i8);
        self.children.clear();
    }

    /// Whether this pattern is at least as specific as `other`: each of its
    /// hands holds every card of `other`'s.
    pub fn is_subset_of(&self, other: &Pattern) -> (r: bool)
        requires
            self.hands@.len() == 4,
            other.hands@.len() == 4,
        ensures
            r == finer(self.hands@, other.hands@),
    {
        let r = self.hands.hand(WEST).includes(other.hands.hand(WEST)) && self.hands.hand(
            NORTH,
        ).includes(other.hands.hand(NORTH)) && self.hands.hand(EAST).includes(
            other.hands.hand(EAST),
        ) && self.hands.hand(SOUTH).includes(other.hands.hand(SOUTH));
        proof {
            if !r {
                if !(self.hands@[0]@ & other.hands@[0]@ == other.hands@[0]@) {
                } else if !(self.hands@[1]@ & other.hands@[1]@ == other.hands@[1]@) {
                } else if !(self.hands@[2]@ & other.hands@[2]@ == other.hands@[2]@) {
                } else {
                    assert(!(self.hands@[3]@ & other.hands@[3]@ == other.hands@[3]@));
                }
            }
        }
        r
    }

    /// Whether the two patterns have the same hands.
    pub fn hands_equal(&self, other: &Pattern) -> (r: bool)
        requires
            self.hands@.len() == 4,
            other.hands@.len() == 4,
        ensures
            r == (forall|s: int| 0 <= s < 4 ==> self.hands@[s] == other.hands@[s]),
    {
        let r = self.hands.hand(WEST) == other.hands.hand(WEST) && self.hands.hand(NORTH)
            == other.hands.hand(NORTH) && self.hands.hand(EAST) == other.hands.hand(EAST)
            && self.hands.hand(SOUTH) == other.hands.hand(SOUTH);
        proof {
            if !r {
                if self.hands@[0] != other.hands@[0] {
                } else if self.hands@[1] != other.hands@[1] {
                } else if self.hands@[2] != other.hands@[2] {
                } else {
                    assert(self.hands@[3] != other.hands@[3]);
                }
            }
        }
        r
    }

    /// The first pattern below this one, searching children in order and
    /// descending only into those `new_pattern` matches, that matches it and
    /// settles a search at `beta`.
    pub fn lookup(&self, new_pattern: &Pattern, beta: i8) -> (r: Option<&Pattern>)
        requires
            new_pattern.hands@.len() == 4,
            tree_wf(*self),
        ensures
            r matches Some(q) ==> below(*self, *q) && finer(new_pattern.hands@, q.hands@)
                && spec_cutoff(q.bounds, beta) && tree_wf(*q),
            r matches Some(q) ==> tree_lookup(*self, new_pattern.hands@, beta) == Some(*q),
            r is None <==> tree_lookup(*self, new_pattern.hands@, beta) is None,
        decreases tree_size(*self),
    {
        let mut i: usize = 0;
        while i < self.children.len()
            invariant
                i <= self.children@.len(),
                new_pattern.hands@.len() == 4,
                tree_wf(*self),
                tree_lookup(*self, new_pattern.hands@, beta) == kids_lookup(
                    *self,
                    new_pattern.hands@,
                    beta,
                    i as int,
                ),
            decreases self.children@.len() - i,
        {
            let child = self.children.get(i);
            proof {
                assert(self.children.items@[i as int] == *child);
                assert(tree_wf(*child));
            }
            if new_pattern.is_subset_of(child) {
                if child.bounds.cutoff(beta) {
                    proof {
                        assert(below(*self, *child));
                    }
                    return Some(child);
                }
                proof {
                    lemma_tree_size(*self);
                    lemma_seq_size_elem(self.children@, i as int, self.children@.len() as int);
                }
                match child.lookup(new_pattern, beta) {
                    Some(detail) => {
                        proof {
                            assert(below(*self, *detail));
                        }
                        return Some(detail);
                    },
                    None => {},
                }
            }
            i += 1;
        }
        None
    }
}

/// Bounds `a` lie within `b` and are not the same: a child's bounds after
/// its parent's have been tightened.
pub open spec fn tighter_than(a: Bounds, b: Bounds) -> bool {
    b.lower <= a.lower && a.upper <= b.upper && a != b
}

/// Both ends of a bound lie in `0..=13`: tricks relative to those already won.
pub open spec fn bounds_ok(b: Bounds) -> bool {
    0 <= b.lower <= 13 && 0 <= b.upper <= 13
}

/// Every node of the tree has four hands and bounds within a deal's tricks.
pub open spec fn tree_wf(p: Pattern) -> bool
    decreases p,
{
    &&& p.hands@.len() == 4
    &&& bounds_ok(p.bounds)
    &&& forall|i: int|
        0 <= i < p.children.items@.len() ==> tree_wf(#[trigger] p.children.items@[i])
}


/// Every pattern of `s` is a well-formed tree.
pub open spec fn kids_wf(s: Seq<Pattern>) -> bool {
    forall|j: int| 0 <= j < s.len() ==> tree_wf(#[trigger] s[j])
}

proof fn lemma_tree_wf(p: Pattern)
    ensures
        tree_wf(p) == (p.hands@.len() == 4 && bounds_ok(p.bounds) && kids_wf(p.children.items@)),
{
}

/// The measure of the children of a node still to visit from `i`.
pub open spec fn remaining_size(s: Seq<Pattern>, i: int) -> int {
    seq_size(s, s.len() as int) - seq_size(s, i)
}

proof fn lemma_seq_size_mono(s: Seq<Pattern>, i: int, n: int)
    requires
        0 <= i <= n <= s.len(),
    ensures
        seq_size(s, i) <= seq_size(s, n),
    decreases n,
{
    if i < n {
        lemma_seq_size_mono(s, i, n - 1);
    }
}

/// Flattening child `i` (of size `tree_size(c)`) into its children removes
/// exactly one node, and leaves the sizes before `i` alone.
proof fn lemma_flatten_size(ch: Seq<Pattern>, i: int, c: Pattern)
    requires
        0 <= i < ch.len(),
        ch[i] == c,
    ensures
        ({
            let after = ch.update(i, ch.last()).drop_last() + c.children.items@;
            &&& seq_size(after, after.len() as int) + 1 == seq_size(ch, ch.len() as int)
            &&& seq_size(after, i) == seq_size(ch, i)
        }),
{
    let len = ch.len() as int;
    let u = ch.update(i, ch.last());
    let a = u.drop_last();
    let gc = c.children.items@;
    let after = a + gc;
    lemma_seq_size_concat(a, gc, gc.len() as int);
    lemma_seq_size_prefix(a, u, len - 1);
    assert(u[len - 1] == ch.last());
    lemma_seq_size_update(ch, i, ch.last(), len);
    lemma_tree_size(c);
    assert(seq_size(u, len) == seq_size(u, len - 1) + tree_size(u[len - 1]));
    lemma_seq_size_prefix(after, ch, i);
}

impl Pattern {
    /// Tighten the bounds to `new_bounds`, and every pattern below to the
    /// result; a child whose bounds come to equal this pattern's is replaced
    /// by its own children.
    pub fn update_bounds(&mut self, new_bounds: Bounds)
        requires
            tree_wf(*old(self)),
            bounds_ok(new_bounds),
        ensures
            final(self).hands == old(self).hands,
            final(self).bounds == spec_intersect(old(self).bounds, new_bounds),
            tree_size(*final(self)) <= tree_size(*old(self)),
            tree_wf(*final(self)),
            final(self).bounds.upper < final(self).bounds.lower || final(self).bounds
                == old(self).bounds ==> final(self).children == old(self).children,
            !(final(self).bounds.upper < final(self).bounds.lower || final(self).bounds
                == old(self).bounds) ==> forall|j: int|
                0 <= j < final(self).children@.len() ==> tighter_than(
                    #[trigger] final(self).children@[j].bounds,
                    final(self).bounds,
                ),
        decreases tree_size(*old(self)),
    {
        let old_bounds = self.bounds;
        self.bounds = self.bounds.intersect(new_bounds);
        if self.bounds.is_empty() || self.bounds == old_bounds {
            proof {
                lemma_tree_size(*self);
                lemma_tree_size(*old(self));
            }
            return;
        }
        let ghost total = tree_size(*old(self));
        proof {
            lemma_tree_size(*old(self));
            lemma_tree_wf(*old(self));
        }
        let mut i: usize = 0;
        while i < self.children.len()
            invariant
                self.hands == old(self).hands,
                self.hands@.len() == 4,
                self.bounds == spec_intersect(old(self).bounds, new_bounds),
                bounds_ok(self.bounds),
                total == tree_size(*old(self)),
                i <= self.children@.len(),
                1 + seq_size(self.children@, self.children@.len() as int) <= total,
                kids_wf(self.children@),
                forall|j: int|
                    0 <= j < i ==> tighter_than(#[trigger] self.children@[j].bounds, self.bounds),
            decreases remaining_size(self.children@, i as int),
        {
            let ghost ch = self.children@;
            let ghost c = ch[i as int];
            proof {
                lemma_seq_size_elem(ch, i as int, ch.len() as int);
                assert(tree_wf(c));
            }
            let b = self.bounds;
            let child = self.children.get_mut(i);
            child.update_bounds(b);
            let ghost ch2 = self.children@;
            let ghost c2 = ch2[i as int];
            proof {
                lemma_seq_size_update(ch, i as int, c2, ch.len() as int);
                lemma_seq_size_update(ch, i as int, c2, i as int);
                assert(ch2 == ch.update(i as int, c2));
                assert(kids_wf(ch2));
            }
            if self.children.get(i).bounds != self.bounds {
                proof {
                    assert(seq_size(ch2, i as int + 1) == seq_size(ch2, i as int) + tree_size(c2));
                    assert(tree_size(c) >= 1);
                    assert(remaining_size(ch2, i as int + 1) < remaining_size(ch, i as int));
                    lemma_seq_size_mono(ch2, i as int + 1, ch2.len() as int);
                }
                i += 1;
            } else {
                let mut removed = self.children.swap_remove(i);
                proof {
                    lemma_tree_wf(removed);
                }
                self.children.append(&mut removed.children);
                proof {
                    lemma_flatten_size(ch2, i as int, c2);
                    assert(self.children@ == ch2.update(i as int, ch2.last()).drop_last()
                        + c2.children.items@);
                    assert(remaining_size(self.children@, i as int) < remaining_size(
                        ch,
                        i as int,
                    ));
                    lemma_seq_size_mono(self.children@, i as int, self.children@.len() as int);
                    assert forall|j: int| 0 <= j < self.children@.len() implies tree_wf(
                        #[trigger] self.children@[j],
                    ) by {
                        let k = ch2.len() - 1;
                        if j < k {
                            if j == i {
                                assert(self.children@[j] == ch2[k]);
                            } else {
                                assert(self.children@[j] == ch2[j]);
                            }
                        } else {
                            assert(self.children@[j] == c2.children.items@[j - k]);
                        }
                    }
                }
            }
        }
        proof {
            lemma_tree_size(*self);
        }
    }

    /// Store `new_pattern` in the tree below this pattern.
    ///
    /// Where a child has the same hands, its bounds are tightened. Where
    /// `new_pattern` is more specific than a child, it goes below that child
    /// (if it tells more). Where it is more general than a child, it takes
    /// that child, and every other child it is more general than, under it.
    /// Otherwise it becomes a new child.
    pub fn update(&mut self, new_pattern: Pattern)
        requires
            tree_wf(*old(self)),
            tree_wf(new_pattern),
        ensures
            final(self).hands == old(self).hands,
            final(self).bounds == old(self).bounds,
            tree_wf(*final(self)),
            forall|np: Seq<Cards>, beta: i8|
                finer(np, new_pattern.hands@) && spec_cutoff(new_pattern.bounds, beta) && agrees_below(
                    *old(self),
                    new_pattern.hands@,
                    new_pattern.bounds,
                ) ==> (#[trigger] tree_lookup(*final(self), np, beta)) is Some,
        decreases tree_size(*old(self)),
    {
        let mut pat = new_pattern;
        proof {
            lemma_tree_wf(*old(self));
            lemma_tree_wf(pat);
            lemma_tree_size(*old(self));
        }
        let mut i: usize = 0;
        while i < self.children.len()
            invariant
                *self == *old(self),
                tree_wf(*self),
                kids_wf(self.children@),
                self.hands@.len() == 4,
                tree_wf(pat),
                pat.hands@.len() == 4,
                kids_wf(pat.children@),
                pat == new_pattern,
                i <= self.children@.len(),
                tree_size(*old(self)) == 1 + seq_size(
                    self.children@,
                    self.children@.len() as int,
                ),
            decreases self.children@.len() - i,
        {
            let ghost ch = self.children@;
            proof {
                assert(tree_wf(ch[i as int]));
                lemma_seq_size_elem(ch, i as int, ch.len() as int);
            }
            if pat.hands_equal(self.children.get(i)) {
                let b = pat.bounds;
                let child = self.children.get_mut(i);
                child.update_bounds(b);
                proof {
                    assert(kids_wf(self.children@));
                    let c = self.children@[i as int];
                    assert forall|np: Seq<Cards>, beta: i8|
                        finer(np, new_pattern.hands@) && spec_cutoff(new_pattern.bounds, beta) implies #[trigger] tree_lookup(
                        *self,
                        np,
                        beta,
                    ) is Some by {
                        lemma_finer_same_right(np, new_pattern.hands@, c.hands@);
                        assert(kids_lookup(*self, np, beta, i as int) == Some(c));
                        lemma_kids_lookup_later(*self, np, beta, 0, i as int);
                    }
                    assert(new_pattern.hands@ == pat.hands@);
                }
                return;
            } else if pat.is_subset_of(self.children.get(i)) {
                pat.bounds = pat.bounds.intersect(self.children.get(i).bounds);
                let ghost c0 = self.children@[i as int];
                let ghost nb = pat.bounds;
                if !pat.bounds.is_empty() && pat.bounds != self.children.get(
                    i,
                ).bounds {
                    proof {
                        lemma_tree_wf(pat);
                    }
                    let child = self.children.get_mut(i);
                    child.update(pat);
                    proof {
                        let c = self.children@[i as int];
                        assert forall|np: Seq<Cards>, beta: i8|
                            finer(np, new_pattern.hands@) && spec_cutoff(new_pattern.bounds, beta) && agrees_below(
                                *old(self),
                                new_pattern.hands@,
                                new_pattern.bounds,
                            ) implies #[trigger] tree_lookup(*self, np, beta) is Some by {
                            assert(old(self).children.items@[i as int] == c0);
                            assert(finer(new_pattern.hands@, c.hands@));
                            lemma_finer_trans(np, new_pattern.hands@, c.hands@);
                            if !spec_cutoff(c.bounds, beta) {
                                assert(tree_lookup(c, np, beta) is Some);
                            }
                            assert(kids_lookup(*self, np, beta, i as int) is Some);
                            lemma_kids_lookup_later(*self, np, beta, 0, i as int);
                        }
                    }
                } else {
                    proof {
                        assert forall|np: Seq<Cards>, beta: i8|
                            finer(np, new_pattern.hands@) && spec_cutoff(new_pattern.bounds, beta) && agrees_below(
                                *old(self),
                                new_pattern.hands@,
                                new_pattern.bounds,
                            ) implies #[trigger] tree_lookup(*self, np, beta) is Some by {
                            assert(old(self).children.items@[i as int] == c0);
                            assert(finer(new_pattern.hands@, c0.hands@));
                            lemma_finer_trans(np, new_pattern.hands@, c0.hands@);
                            assert(kids_lookup(*self, np, beta, i as int) == Some(c0));
                            lemma_kids_lookup_later(*self, np, beta, 0, i as int);
                        }
                    }
                }
                proof {
                    assert(kids_wf(self.children@));
                }
                return;
            } else if self.children.get(i).is_subset_of(&pat) {
                let b = pat.bounds;
                {
                    let child = self.children.get_mut(i);
                    child.update_bounds(b);
                }
                proof {
                    assert(tree_wf(self.children@[i as int]));
                    lemma_tree_wf(self.children@[i as int]);
                }
                if self.children.get(i).bounds != pat.bounds {
                    let moved = self.children.swap_remove(i);
                    pat.children.push(moved);
                } else {
                    let mut old_children = PatternVec::new();
                    {
                        let child = self.children.get_mut(i);
                        std::mem::swap(&mut old_children, &mut child.children);
                    }
                    pat.children.append(&mut old_children);
                    let _emptied = self.children.swap_remove(i);
                }
                proof {
                    lemma_kids_wf_swap_remove(ch, i as int);
                }
                let mut j = i;
                while j < self.children.len()
                    invariant
                        self.hands == old(self).hands,
                        self.bounds == old(self).bounds,
                        self.hands@.len() == 4,
                        kids_wf(self.children@),
                        pat.hands@.len() == 4,
                        bounds_ok(pat.bounds),
                        kids_wf(pat.children@),
                        pat.hands == new_pattern.hands,
                        pat.bounds == new_pattern.bounds,
                        j <= self.children@.len(),
                    decreases self.children@.len() - j,
                {
                    let ghost ch = self.children@;
                    proof {
                        assert(tree_wf(ch[j as int]));
                    }
                    if self.children.get(j).is_subset_of(&pat) {
                        let b = pat.bounds;
                        {
                            let child = self.children.get_mut(j);
                            child.update_bounds(b);
                        }
                        proof {
                            assert(tree_wf(self.children@[j as int]));
                            lemma_tree_wf(self.children@[j as int]);
                            assert(kids_wf(self.children@));
                        }
                        let ghost ch2 = self.children@;
                        if self.children.get(j).bounds != pat.bounds {
                            let moved = self.children.swap_remove(j);
                            pat.children.push(moved);
                        } else if pat.children.is_empty() {
                            let mut old_children = PatternVec::new();
                            {
                                let child = self.children.get_mut(j);
                                std::mem::swap(&mut old_children, &mut child.children);
                            }
                            pat.children = old_children;
                            let _emptied = self.children.swap_remove(j);
                        } else {
                            let mut removed = self.children.swap_remove(j);
                            pat.children.append(&mut removed.children);
                        }
                        proof {
                            lemma_kids_wf_swap_remove(ch2, j as int);
                        }
                    } else {
                        j += 1;
                    }
                }
                self.children.push(pat);
                proof {
                    assert(tree_wf(pat));
                    assert(kids_wf(self.children@));
                    lemma_lookup_finds_last(*self, new_pattern);
                }
                return;
            }
            i += 1;
        }
        self.children.push(pat);
        proof {
            assert(kids_wf(self.children@));
            lemma_lookup_finds_last(*self, new_pattern);
        }
    }
}

/// A lookup of the hands of the last child, at any `beta` its bounds
/// settle, finds a pattern.
proof fn lemma_lookup_finds_last(p: Pattern, np: Pattern)
    requires
        p.children.items@.len() > 0,
        p.children.items@.last().hands == np.hands,
        p.children.items@.last().bounds == np.bounds,
    ensures
        forall|q: Seq<Cards>, beta: i8|
            finer(q, np.hands@) && spec_cutoff(np.bounds, beta) ==> (#[trigger] tree_lookup(p, q, beta)) is Some,
{
    let k = p.children.items@.len() - 1;
    let c = p.children.items@[k];
    assert forall|q: Seq<Cards>, beta: i8| finer(q, np.hands@) && spec_cutoff(np.bounds, beta) implies (
    #[trigger] tree_lookup(p, q, beta)) is Some by {
        lemma_finer_same_right(q, np.hands@, c.hands@);
        assert(kids_lookup(p, q, beta, k) == Some(c));
        lemma_kids_lookup_later(p, q, beta, 0, k);
    }
}

/// Hands finer than `b` are finer than hands the same as `b`.
proof fn lemma_finer_same_right(a: Seq<Cards>, b: Seq<Cards>, c: Seq<Cards>)
    requires
        finer(a, b),
        forall|s: int| 0 <= s < 4 ==> b[s] == c[s],
    ensures
        finer(a, c),
{
    assert forall|s: int| 0 <= s < 4 implies (#[trigger] a[s]@ & c[s]@) == c[s]@ by {
        assert(a[s]@ & b[s]@ == b[s]@);
    }
}

/// Being finer is transitive.
proof fn lemma_finer_trans(a: Seq<Cards>, b: Seq<Cards>, c: Seq<Cards>)
    requires
        finer(a, b),
        finer(b, c),
    ensures
        finer(a, c),
{
    assert forall|s: int| 0 <= s < 4 implies (#[trigger] a[s]@ & c[s]@) == c[s]@ by {
        let x = a[s]@;
        let y = b[s]@;
        let z = c[s]@;
        assert(x & y == y);
        assert(y & z == z);
        assert((x & y == y && y & z == z) ==> x & z == z) by (bit_vector);
    }
}

proof fn lemma_kids_wf_swap_remove(s: Seq<Pattern>, i: int)
    requires
        kids_wf(s),
        0 <= i < s.len(),
    ensures
        kids_wf(s.update(i, s.last()).drop_last()),
{
    let t = s.update(i, s.last()).drop_last();
    assert forall|j: int| 0 <= j < t.len() implies tree_wf(#[trigger] t[j]) by {
        if j == i {
            assert(t[j] == s[s.len() - 1]);
        } else {
            assert(t[j] == s[j]);
        }
    }
}


/// Every card of the four hands of `h`.
pub open spec fn union_of(h: Seq<Cards>) -> u64 {
    h[0]@ | h[1]@ | h[2]@ | h[3]@
}

/// The actual cards of `suit` that the relative cards of that suit in `rel`
/// stand for, given the cards `all` still in play.
pub open spec fn unpack_suit(rel: u64, all: u64, suit: int) -> u64 {
    let rel_suit = rel & suit_mask(suit);
    if rel_suit == 0 {
        0
    } else {
        pdep(rel_suit >> ((suit * 13) as u64), all & suit_mask(suit))
    }
}

/// `unpack_suit` over the first `n` suits.
pub open spec fn unpack_fold(rel: u64, all: u64, n: int) -> u64
    decreases n,
{
    if n <= 0 {
        0
    } else {
        unpack_fold(rel, all, n - 1) | unpack_suit(rel, all, n - 1)
    }
}

/// The cards relative cards stand for are cards still in play.
pub proof fn lemma_unpack_fold_within(rel: u64, all: u64, n: int)
    ensures
        unpack_fold(rel, all, n) & !all == 0,
    decreases n,
{
    if n <= 0 {
        assert(0u64 & !all == 0) by (bit_vector);
    } else {
        lemma_unpack_fold_within(rel, all, n - 1);
        let f = unpack_fold(rel, all, n - 1);
        let u = unpack_suit(rel, all, n - 1);
        let m = suit_mask(n - 1);
        let rel_suit = rel & m;
        if rel_suit == 0 {
            assert(0u64 & !all == 0) by (bit_vector);
        } else {
            crate::bits::lemma_pdep_within(rel_suit >> ((n - 1) * 13) as u64, all & m);
            assert((u & !(all & m) == 0) ==> u & !all == 0) by (bit_vector);
        }
        assert((f & !all == 0 && u & !all == 0) ==> (f | u) & !all == 0) by (bit_vector);
    }
}

impl Pattern {
    /// The actual cards whose ranks this pattern's relative cards stand for,
    /// given the cards `all_cards` still in play.
    pub fn get_rank_winners(&self, all_cards: Cards) -> (r: Cards)
        ensures
            r@ == unpack_fold(union_of(self.hands@), all_cards@, 4),
            r.set().subset_of(all_cards.set()),
    {
        let relative_rank_winners = self.hands.all_cards();
        let mut rank_winners = Cards::new();
        let mut suit: usize = 0;
        while suit < NUM_SUITS
            invariant
                suit <= NUM_SUITS,
                relative_rank_winners@ == union_of(self.hands@),
                rank_winners@ == unpack_fold(relative_rank_winners@, all_cards@, suit as int),
            decreases NUM_SUITS - suit,
        {
            let rel_suit = relative_rank_winners.suit(suit);
            if !rel_suit.is_empty() {
                let packed = rel_suit.value() >> ((suit * NUM_RANKS) as u64);
                let unpacked = unpack_bits(packed, all_cards.suit(suit).value());
                rank_winners = rank_winners.union(Cards::from_bits(unpacked));
            } else {
                proof {
                    lemma_word_facts(rank_winners@, 0, 0);
                }
            }
            suit += 1;
        }
        proof {
            lemma_unpack_fold_within(union_of(self.hands@), all_cards@, 4);
            let w = rank_winners@;
            let a = all_cards@;
            assert forall|c: int| #[trigger] rank_winners.set().contains(c) implies all_cards.set().contains(c) by {
                let cu = c as u64;
                assert((w & !a == 0 && (w >> cu) & 1u64 == 1u64) ==> (a >> cu) & 1u64 == 1u64) by (bit_vector);
            }
        }
        rank_winners
    }
}

/// A slot of the bounds cache: the hash of the shape it holds, and the root
/// of that shape's pattern tree.
pub struct ShapeEntry {
    pub hash: u64,
    pub pattern: Pattern,
}

impl ShapeEntry {
    /// An unused slot.
    pub fn new() -> (r: ShapeEntry)
        ensures
            r.hash == 0,
            tree_wf(r.pattern),
            r.pattern.bounds == (Bounds { lower: 0, upper: TOTAL_TRICKS as i8 }),
            r.pattern.children@ == Seq::<Pattern>::empty(),
    {
        ShapeEntry { hash: 0, pattern: Pattern::root() }
    }

    /// Give the slot to the shape hashing to `hash`, with an empty tree.
    pub fn reset(&mut self, hash: u64)
        ensures
            final(self).hash == hash,
            tree_wf(final(self).pattern),
            forall|s: int| 0 <= s < 4 ==> (#[trigger] final(self).pattern.hands@[s])@ == 0,
            final(self).pattern.bounds == (Bounds { lower: 0, upper: TOTAL_TRICKS as i8 }),
            final(self).pattern.children@ == Seq::<Pattern>::empty(),
    {
        self.hash = hash;
        self.pattern.reset();
    }

    /// Find a stored pattern that `new_pattern` matches and whose bounds
    /// settle a search at `beta`: the root first, then the tree below it.
    /// A match found below the root is copied into the root, so that the
    /// next lookup of this shape tries it first.
    pub fn lookup(&mut self, new_pattern: &Pattern, beta: i8) -> (r: Option<(Hands, Bounds)>)
        requires
            tree_wf(old(self).pattern),
            new_pattern.hands@.len() == 4,
        ensures
            final(self).hash == old(self).hash,
            final(self).pattern.children == old(self).pattern.children,
            tree_wf(final(self).pattern),
            match r {
                Some((h, b)) => {
                    &&& final(self).pattern.hands == h
                    &&& final(self).pattern.bounds == b
                    &&& spec_cutoff(b, beta)
                    &&& finer(new_pattern.hands@, h@)
                    &&& ((h == old(self).pattern.hands && b == old(self).pattern.bounds)
                        || exists|q: Pattern|
                        below(old(self).pattern, q) && q.hands == h && q.bounds == b)
                },
                None => final(self).pattern == old(self).pattern,
            },
            ({
                let root = old(self).pattern;
                if spec_cutoff(root.bounds, beta) && finer(new_pattern.hands@, root.hands@) {
                    r == Some((root.hands, root.bounds))
                } else {
                    match tree_lookup(root, new_pattern.hands@, beta) {
                        Some(q) => r == Some((q.hands, q.bounds)),
                        None => r is None,
                    }
                }
            }),
    {
        if self.pattern.bounds.cutoff(beta) && new_pattern.is_subset_of(&self.pattern) {
            return Some((self.pattern.hands, self.pattern.bounds));
        }
        let found = match self.pattern.lookup(new_pattern, beta) {
            Some(matched) => {
                proof {
                    assert(below(old(self).pattern, *matched));
                }
                Some((matched.hands, matched.bounds))
            },
            None => None,
        };
        match found {
            Some((hands, bounds)) => {
                self.pattern.hands = hands;
                self.pattern.bounds = bounds;
                proof {
                    hands.lemma_len();
                    lemma_tree_wf(old(self).pattern);
                    lemma_tree_wf(self.pattern);
                }
            },
            None => {},
        }
        found
    }
}


/// The hash of a shape and the seat on lead, as the bounds cache keys it.
pub open spec fn spec_shape_hash(shape: u64, seat_to_play: u64) -> u64 {
    shape.wrapping_add(0x9b8b4567327b23c7u64).wrapping_mul(
        seat_to_play.wrapping_add(0x643c986966334873u64),
    )
}

/// The bounds cache: one slot per hash, chosen by the top bits of the hash.
pub struct PatternCache {
    entries: Vec<ShapeEntry>,
    mask: usize,
    bits: usize,
}

impl PatternCache {
    /// The slots of the cache.
    pub closed spec fn slots(&self) -> Seq<ShapeEntry> {
        self.entries@
    }

    /// The slot a hash selects.
    pub closed spec fn slot_of(&self, hash: u64) -> int {
        (((hash >> ((64 - self.bits) as u64)) as usize) & self.mask) as int
    }

    /// The table has `mask + 1` slots, a shift of at most 63 selects one, and
    /// every slot holds a well-formed tree.
    pub closed spec fn wf(&self) -> bool {
        &&& self.entries@.len() == self.mask + 1
        &&& 1 <= self.bits <= 63
        &&& forall|i: int| 0 <= i < self.entries@.len() ==> tree_wf(#[trigger] self.entries@[i].pattern)
    }

    /// A cache of `1 << bits` empty slots.
    pub fn new(bits: usize) -> (r: PatternCache)
        requires
            1 <= bits < 32,
        ensures
            r.wf(),
            r.slots().len() == (1usize << bits),
            forall|i: int| 0 <= i < r.slots().len() ==> (#[trigger] r.slots()[i]).hash == 0,
    {
        proof {
            crate::search::lemma_pow_size(bits);
        }
        let size: usize = 1usize << bits;
        let mut entries: Vec<ShapeEntry> = Vec::new();
        let mut n: usize = 0;
        while n < size
            invariant
                n <= size,
                entries@.len() == n,
                forall|i: int| 0 <= i < n ==> tree_wf(#[trigger] entries@[i].pattern) && entries@[i].hash == 0,
            decreases size - n,
        {
            let e = ShapeEntry::new();
            entries.push(e);
            n += 1;
        }
        assert forall|i: int| 0 <= i < entries@.len() implies (#[trigger] entries@[i]).hash == 0 by {
            assert(tree_wf(entries@[i].pattern));
        }
        PatternCache { entries, mask: size - 1, bits }
    }

    /// Empty every slot, keeping the table's size.
    pub fn reset(&mut self)
        requires
            old(self).wf(),
        ensures
            final(self).wf(),
            final(self).slots().len() == old(self).slots().len(),
            forall|i: int| 0 <= i < final(self).slots().len() ==> (#[trigger] final(self).slots()[i]).hash == 0
                && final(self).slots()[i].pattern.children@.len() == 0,
    {
        let size = self.entries.len();
        let mut entries: Vec<ShapeEntry> = Vec::new();
        let mut n: usize = 0;
        while n < size
            invariant
                n <= size,
                entries@.len() == n,
                forall|i: int| 0 <= i < n ==> tree_wf(#[trigger] entries@[i].pattern) && entries@[i].hash == 0
                    && entries@[i].pattern.children@.len() == 0,
            decreases size - n,
        {
            entries.push(ShapeEntry::new());
            n += 1;
        }
        assert forall|i: int| 0 <= i < entries@.len() implies (#[trigger] entries@[i]).hash == 0
            && entries@[i].pattern.children@.len() == 0 by {
            assert(tree_wf(entries@[i].pattern));
        }
        self.entries = entries;
    }

    fn hash(shape: u64, seat_to_play: Seat) -> (r: u64)
        ensures
            r == spec_shape_hash(shape, seat_to_play as u64),
    {
        let key0 = shape.wrapping_add(0x9b8b4567327b23c7u64);
        let key1 = (seat_to_play as u64).wrapping_add(0x643c986966334873u64);
        key0.wrapping_mul(key1)
    }

    fn index(&self, hash: u64) -> (r: usize)
        requires
            self.wf(),
        ensures
            r == self.slot_of(hash),
            r < self.slots().len(),
    {
        let x = (hash >> ((64 - self.bits) as u64)) as usize;
        let m = self.mask;
        proof {
            crate::search::lemma_mask_bound(x, m);
        }
        x & m
    }

    /// The slot holding the shape `shape` with `seat_to_play` on lead, if the
    /// shape is cached.
    pub fn lookup(&mut self, shape: u64, seat_to_play: Seat) -> (r: Option<&mut ShapeEntry>)
        requires
            old(self).wf(),
        ensures
            ({
                let h = spec_shape_hash(shape, seat_to_play as u64);
                let i = old(self).slot_of(h);
                &&& 0 <= i < old(self).slots().len()
                &&& match r {
                    Some(e) => {
                        &&& *e == old(self).slots()[i]
                        &&& e.hash == h
                        &&& tree_wf(e.pattern)
                        &&& final(self).slots() == old(self).slots().update(i, *final(e))
                        &&& (tree_wf(final(e).pattern) ==> final(self).wf())
                        &&& forall|x: u64| #[trigger] final(self).slot_of(x) == old(self).slot_of(x)
                    },
                    None => {
                        &&& old(self).slots()[i].hash != h
                        &&& *final(self) == *old(self)
                    },
                }
            }),
    {
        let hash = Self::hash(shape, seat_to_play);
        let idx = self.index(hash);
        if self.entries[idx].hash == hash {
            Some(&mut self.entries[idx])
        } else {
            None
        }
    }

    /// The slot for the shape `shape` with `seat_to_play` on lead, emptied
    /// and given to it if another shape held it.
    pub fn get_or_create(&mut self, shape: u64, seat_to_play: Seat) -> (r: &mut ShapeEntry)
        requires
            old(self).wf(),
        ensures
            ({
                let h = spec_shape_hash(shape, seat_to_play as u64);
                let i = old(self).slot_of(h);
                &&& 0 <= i < old(self).slots().len()
                &&& r.hash == h
                &&& tree_wf(r.pattern)
                &&& old(self).slots()[i].hash == h ==> *r == old(self).slots()[i]
                &&& old(self).slots()[i].hash != h ==> r.pattern.children@.len() == 0
                &&& final(self).slots() == old(self).slots().update(i, *final(r))
                &&& (tree_wf(final(r).pattern) ==> final(self).wf())
                &&& forall|x: u64| #[trigger] final(self).slot_of(x) == old(self).slot_of(x)
            }),
    {
        let hash = Self::hash(shape, seat_to_play);
        let idx = self.index(hash);
        if self.entries[idx].hash != hash {
            let mut e = ShapeEntry::new();
            e.reset(hash);
            self.entries.set(idx, e);
        }
        &mut self.entries[idx]
    }
}


/// A hand word `acc` with its `suit` replaced by the relative form of the
/// cards of that suit in `h`: the cards gathered to the top of the suit in
/// order, as if `all_suit` were the whole suit.
pub open spec fn convert_word(acc: u64, h: u64, all_suit: u64, suit: int) -> u64 {
    (acc & !suit_mask(suit)) | (pext(h & suit_mask(suit), all_suit) << ((suit * 13) as u64))
}

/// `convert_word` applied, suit by suit over the first `n` suits, to the
/// suits in which `changed` holds a card.
pub open spec fn relative_fold(acc: u64, h: u64, all: u64, changed: u64, n: int) -> u64
    decreases n,
{
    if n <= 0 {
        acc
    } else {
        let prev = relative_fold(acc, h, all, changed, n - 1);
        if changed & suit_mask(n - 1) != 0 {
            convert_word(prev, h, all & suit_mask(n - 1), n - 1)
        } else {
            prev
        }
    }
}

/// Hands in relative form: in each suit, a hand's cards are renumbered by
/// their rank among the cards of that suit still in play.
#[derive(Clone, Copy, Debug)]
pub struct RelativeHands {
    pub hands: Hands,
}

impl RelativeHands {
    /// Four empty hands.
    pub fn new() -> (r: RelativeHands)
        ensures
            forall|s: int| 0 <= s < 4 ==> (#[trigger] r.hands@[s])@ == 0,
    {
        RelativeHands { hands: Hands::new() }
    }

    /// Put `suit` of every hand in relative form, against the cards
    /// `all_suit_cards` of that suit still in play.
    pub fn convert_suit(&mut self, hands: &Hands, suit: Suit, all_suit_cards: Cards)
        requires
            suit < NUM_SUITS,
        ensures
            forall|s: int|
                0 <= s < 4 ==> (#[trigger] final(self).hands@[s])@ == convert_word(
                    old(self).hands@[s]@,
                    hands@[s]@,
                    all_suit_cards@,
                    suit as int,
                ),
    {
        let all_value = all_suit_cards.value();
        let mut seat: usize = 0;
        proof {
            self.hands.lemma_len();
            hands.lemma_len();
        }
        while seat < NUM_SEATS
            invariant
                seat <= NUM_SEATS,
                suit < NUM_SUITS,
                all_value == all_suit_cards@,
                self.hands@.len() == 4,
                hands@.len() == 4,
                forall|s: int|
                    0 <= s < seat ==> (#[trigger] self.hands@[s])@ == convert_word(
                        old(self).hands@[s]@,
                        hands@[s]@,
                        all_suit_cards@,
                        suit as int,
                    ),
                forall|s: int| seat <= s < 4 ==> #[trigger] self.hands@[s] == old(self).hands@[s],
            decreases NUM_SEATS - seat,
        {
            let hand_suit = hands.hand(seat).suit(suit);
            let packed = pack_bits(hand_suit.value(), all_value);
            let cleared = self.hands.hand(seat).clear_suit(suit);
            let relative = Cards::from_bits(packed << ((suit * NUM_RANKS) as u64));
            self.hands.set_hand(seat, cleared.union(relative));
            proof {
                self.hands.lemma_len();
            }
            seat += 1;
        }
    }

    /// Put every suit of every hand in relative form against `all_cards`.
    pub fn compute(&mut self, hands: &Hands, all_cards: Cards)
        ensures
            forall|s: int|
                0 <= s < 4 ==> (#[trigger] final(self).hands@[s])@ == relative_fold(
                    old(self).hands@[s]@,
                    hands@[s]@,
                    all_cards@,
                    0xffff_ffff_ffff_ffffu64,
                    4,
                ),
    {
        let mut suit: usize = 0;
        while suit < NUM_SUITS
            invariant
                suit <= NUM_SUITS,
                forall|s: int|
                    0 <= s < 4 ==> (#[trigger] self.hands@[s])@ == relative_fold(
                        old(self).hands@[s]@,
                        hands@[s]@,
                        all_cards@,
                        0xffff_ffff_ffff_ffffu64,
                        suit as int,
                    ),
            decreases NUM_SUITS - suit,
        {
            proof {
                let m = suit_mask(suit as int);
                lemma_suit_words(0, 0, 0, 0);
                assert(m != 0u64);
                lemma_word_facts(m, 0, 0);
            }
            self.convert_suit(hands, suit, all_cards.suit(suit));
            suit += 1;
        }
    }

    /// Bring the relative hands up to date after cards left play: only the
    /// suits from which `prev_all_cards` lost a card in `new_all_cards` are
    /// converted again.
    pub fn update(&mut self, hands: &Hands, prev_all_cards: Cards, new_all_cards: Cards)
        ensures
            forall|s: int|
                0 <= s < 4 ==> (#[trigger] final(self).hands@[s])@ == relative_fold(
                    old(self).hands@[s]@,
                    hands@[s]@,
                    new_all_cards@,
                    prev_all_cards@ & !new_all_cards@,
                    4,
                ),
    {
        let changed = prev_all_cards.different(new_all_cards);
        let mut suit: usize = 0;
        while suit < NUM_SUITS
            invariant
                suit <= NUM_SUITS,
                changed@ == prev_all_cards@ & !new_all_cards@,
                forall|s: int|
                    0 <= s < 4 ==> (#[trigger] self.hands@[s])@ == relative_fold(
                        old(self).hands@[s]@,
                        hands@[s]@,
                        new_all_cards@,
                        changed@,
                        suit as int,
                    ),
            decreases NUM_SUITS - suit,
        {
            if !changed.suit(suit).is_empty() {
                self.convert_suit(hands, suit, new_all_cards.suit(suit));
            }
            suit += 1;
        }
    }
}


/// The highest index set in a nonzero word: the lowest card of a set.
pub open spec fn spec_bottom(v: u64) -> int {
    63 - u64_leading_zeros(v)
}

/// The relative card of `suit` that stands for the lowest rank winner of
/// that suit in `rw`: as many places below the top of the suit as there are
/// cards of `all` above it.
pub open spec fn rel_bottom_of(all: u64, rw: u64, suit: int) -> int {
    let bw = spec_bottom(rw & suit_mask(suit));
    spec_card_of(suit, 12 - popcount((all & suit_mask(suit)) & low_mask(bw) & !low_mask(0)))
}

/// The relative card `rb` of `suit`, held at `seat`, extended down over the
/// cards that seat holds just below it; and, if that reaches the lowest
/// relative card of the suit, taken back up over the run of cards the seat
/// holds at and above it.
pub open spec fn extend_at(rel: Seq<Cards>, suit: int, rb: int, seat: int) -> int {
    let suit_value = (rel[seat]@ & suit_mask(suit)) >> ((suit * 13) as u64);
    let shift = rb - suit * 13 + 1;
    let a = if shift < 64 {
        rb + u64_trailing_ones(suit_value >> (shift as u64))
    } else {
        rb
    };
    if a == spec_bottom(union_of(rel) & suit_mask(suit)) {
        let run = u64_leading_zeros(!(suit_value << ((63 - (a - suit * 13)) as u64)));
        if a >= run {
            a - run
        } else {
            0
        }
    } else {
        a
    }
}

/// `extend_at` for the first seat from `seat` on that holds `rb`; `rb`
/// itself when none does.
pub open spec fn extend_from(rel: Seq<Cards>, suit: int, rb: int, seat: int) -> int
    decreases 4 - seat,
{
    if seat >= 4 {
        rb
    } else if bit(rel[seat]@ & suit_mask(suit), rb) {
        extend_at(rel, suit, rb, seat)
    } else {
        extend_from(rel, suit, rb, seat + 1)
    }
}

/// The relative cards of `suit` that matter, given rank winners `rw`: every
/// card from the top of the suit down to the extended lowest winner.
pub open spec fn rel_winners_of(rel: Seq<Cards>, all: u64, rw: u64, suit: int) -> u64 {
    if rw & suit_mask(suit) == 0 {
        0
    } else {
        suit_mask(suit) & low_mask(extend_from(rel, suit, rel_bottom_of(all, rw, suit), 0) + 1)
            & !low_mask(0)
    }
}

/// `rel_winners_of` over the first `n` suits.
pub open spec fn rel_winners_fold(rel: Seq<Cards>, all: u64, rw: u64, n: int) -> u64
    decreases n,
{
    if n <= 0 {
        0
    } else {
        rel_winners_fold(rel, all, rw, n - 1) | rel_winners_of(rel, all, rw, n - 1)
    }
}

/// The actual cards the relative winners of `suit` stand for.
pub open spec fn ext_winners_of(rel: Seq<Cards>, all: u64, rw: u64, suit: int) -> u64 {
    if rw & suit_mask(suit) == 0 {
        0
    } else {
        pdep(
            rel_winners_of(rel, all, rw, suit) >> ((suit * 13) as u64),
            all & suit_mask(suit),
        )
    }
}

/// `ext_winners_of` over the first `n` suits.
pub open spec fn ext_winners_fold(rel: Seq<Cards>, all: u64, rw: u64, n: int) -> u64
    decreases n,
{
    if n <= 0 {
        0
    } else {
        ext_winners_fold(rel, all, rw, n - 1) | ext_winners_of(rel, all, rw, n - 1)
    }
}

proof fn lemma_suit_clear_below(a: u64, b: u64, c: u64, suit: int)
    requires
        0 <= suit < 4,
        a & suit_mask(suit) == a,
    ensures
        (a & b & c) & low_mask(suit * 13) == 0,
{
    lemma_suit_words(0, a, b, c);
    lemma_word_facts(a & b & c, 0, 0);
    assert(low_mask(13) == ((1u64 << 13u64) - 1) as u64);
    assert(low_mask(26) == ((1u64 << 26u64) - 1) as u64);
    assert(low_mask(39) == ((1u64 << 39u64) - 1) as u64);
}

/// The relative card of `suit` that stands for `card`: as many places below
/// the top of the suit as there are cards of `all_suit_cards` above it.
fn relative_card_in_suit(card: usize, all_suit_cards: Cards) -> (r: usize)
    requires
        card < 52,
        all_suit_cards@ & suit_mask(spec_suit_of(card as int)) == all_suit_cards@,
    ensures
        r == spec_card_of(
            spec_suit_of(card as int),
            12 - popcount(all_suit_cards@ & low_mask(card as int) & !low_mask(0)),
        ),
        spec_suit_of(card as int) * 13 <= r <= card,
{
    let suit = suit_of(card);
    let above = all_suit_cards.slice(0, card);
    proof {
        let a = all_suit_cards@;
        let b = low_mask(card as int);
        let c = !low_mask(0);
        lemma_word_facts(a, b, c);
        lemma_suit_clear_below(a, b, c, suit as int);
        lemma_popcount_range(a & b & c, suit as int * 13, card as int);
    }
    let n = above.size();
    card_of(suit, ACE - n)
}

/// The lowest relative rank winner `rel_bottom` of `suit`, extended over the
/// cards equivalent to it in the hand that holds it.
fn extend_rel_bottom(relative_hands: &Hands, suit: Suit, rel_bottom: usize) -> (r: usize)
    requires
        suit < NUM_SUITS,
        suit * 13 <= rel_bottom <= suit * 13 + 12,
    ensures
        r == extend_from(relative_hands@, suit as int, rel_bottom as int, 0),
        r <= rel_bottom + 64,
{
    let mut seat: usize = 0;
    while seat < NUM_SEATS
        invariant
            seat <= NUM_SEATS,
            suit < NUM_SUITS,
            suit * 13 <= rel_bottom <= suit * 13 + 12,
            extend_from(relative_hands@, suit as int, rel_bottom as int, 0) == extend_from(
                relative_hands@,
                suit as int,
                rel_bottom as int,
                seat as int,
            ),
        decreases NUM_SEATS - seat,
    {
        let rel_hand = relative_hands.hand(seat).suit(suit);
        if rel_hand.have(rel_bottom) {
            let mut actual = rel_bottom;
            let suit_value = rel_hand.value() >> ((suit * NUM_RANKS) as u64);
            let shift = rel_bottom - suit * NUM_RANKS + 1;
            if shift < 64 {
                let above = suit_value >> (shift as u64);
                proof {
                    vstd::std_specs::bits::axiom_u64_trailing_zeros(!above);
                }
                actual = actual + above.trailing_ones() as usize;
            }
            let all_rel = relative_hands.all_cards().suit(suit);
            proof {
                assert(all_rel.set().contains(rel_bottom as int));
            }
            if actual == all_rel.bottom() {
                let idx = actual - suit * NUM_RANKS;
                let run = (!(suit_value << ((63 - idx) as u64))).leading_zeros() as usize;
                actual = actual.saturating_sub(run);
            }
            return actual;
        }
        seat += 1;
    }
    rel_bottom
}

/// The pattern a search result is stored under: each relative hand cut down
/// to the relative cards that matter, given the rank winners of the result;
/// and the actual cards those stand for.
pub fn compute_pattern_hands(relative_hands: &Hands, all_cards: Cards, rank_winners: Cards) -> (r: (
    Hands,
    Cards,
))
    ensures
        forall|s: int|
            0 <= s < 4 ==> (#[trigger] r.0@[s])@ == relative_hands@[s]@ & rel_winners_fold(
                relative_hands@,
                all_cards@,
                rank_winners@,
                4,
            ),
        r.1@ == ext_winners_fold(relative_hands@, all_cards@, rank_winners@, 4),
{
    let mut relative_rank_winners = Cards::new();
    let mut extended_rank_winners = Cards::new();
    let mut suit: usize = 0;
    while suit < NUM_SUITS
        invariant
            suit <= NUM_SUITS,
            relative_rank_winners@ == rel_winners_fold(
                relative_hands@,
                all_cards@,
                rank_winners@,
                suit as int,
            ),
            extended_rank_winners@ == ext_winners_fold(
                relative_hands@,
                all_cards@,
                rank_winners@,
                suit as int,
            ),
        decreases NUM_SUITS - suit,
    {
        let rw_suit = rank_winners.suit(suit);
        if rw_suit.is_empty() {
            proof {
                lemma_word_facts(relative_rank_winners@, 0, 0);
                lemma_word_facts(extended_rank_winners@, 0, 0);
            }
        } else {
            let bottom_winner = rw_suit.bottom();
            proof {
                lemma_suit_mask(suit as int, bottom_winner as int);
                assert(rw_suit.set().contains(bottom_winner as int));
                let a = all_cards@;
                let m = suit_mask(suit as int);
                lemma_word_facts(a, m, 0);
            }
            let rel_bottom = relative_card_in_suit(bottom_winner, all_cards.suit(suit));
            let actual_rel_bottom = extend_rel_bottom(relative_hands, suit, rel_bottom);
            let suit_mask = mask_of(suit);
            let rel_winners = Cards::from_bits(suit_mask).slice(0, actual_rel_bottom + 1);
            relative_rank_winners = relative_rank_winners.union(rel_winners);
            let packed = rel_winners.value() >> ((suit * NUM_RANKS) as u64);
            let unpacked = unpack_bits(packed, all_cards.suit(suit).value());
            extended_rank_winners = extended_rank_winners.union(Cards::from_bits(unpacked));
        }
        suit += 1;
    }
    let mut pattern_hands = Hands::new();
    let mut seat: usize = 0;
    while seat < NUM_SEATS
        invariant
            seat <= NUM_SEATS,
            pattern_hands@.len() == 4,
            forall|s: int|
                0 <= s < seat ==> (#[trigger] pattern_hands@[s])@ == relative_hands@[s]@
                    & relative_rank_winners@,
        decreases NUM_SEATS - seat,
    {
        pattern_hands.set_hand(seat, relative_hands.hand(seat).intersect(relative_rank_winners));
        proof {
            pattern_hands.lemma_len();
        }
        seat += 1;
    }
    (pattern_hands, extended_rank_winners)
}

/// The SplitMix64 finaliser: a 64-bit mixing function.
pub open spec fn spec_mix(x: u64) -> u64 {
    let x1 = x.wrapping_add(0x9e37_79b9_7f4a_7c15u64);
    let z1 = (x1 ^ (x1 >> 30u64)).wrapping_mul(0xbf58_476d_1ce4_e5b9u64);
    let z2 = (z1 ^ (z1 >> 27u64)).wrapping_mul(0x94d0_49bb_1331_11ebu64);
    z2 ^ (z2 >> 31u64)
}

/// Mix the bits of `x`.
pub(crate) fn mix(x: u64) -> (r: u64)
    ensures
        r == spec_mix(x),
{
    let x1 = x.wrapping_add(0x9e37_79b9_7f4a_7c15u64);
    let z1 = (x1 ^ (x1 >> 30u64)).wrapping_mul(0xbf58_476d_1ce4_e5b9u64);
    let z2 = (z1 ^ (z1 >> 27u64)).wrapping_mul(0x94d0_49bb_1331_11ebu64);
    z2 ^ (z2 >> 31u64)
}

/// The digest of a node on its own: its depth, its four hands and its
/// bounds.
pub open spec fn node_digest(p: Pattern, depth: u64) -> u64 {
    let h0 = spec_mix(depth);
    let h1 = spec_mix(h0 ^ spec_mix(p.hands@[0]@));
    let h2 = spec_mix(h1 ^ spec_mix(p.hands@[1]@));
    let h3 = spec_mix(h2 ^ spec_mix(p.hands@[2]@));
    let h4 = spec_mix(h3 ^ spec_mix(p.hands@[3]@));
    let h5 = spec_mix(h4 ^ spec_mix((p.bounds.lower as i64) as u64));
    spec_mix(h5 ^ spec_mix((p.bounds.upper as i64) as u64))
}

/// The digest of a pattern tree whose root sits at `depth`.
pub open spec fn tree_digest(p: Pattern, depth: u64) -> u64
    decreases p, 1int, 0int,
{
    kids_digest(p, depth, p.children.items@.len() as int)
}

/// The digest of a node folded with its first `n` children's, in order.
pub open spec fn kids_digest(p: Pattern, depth: u64, n: int) -> u64
    decreases p, 0int, n,
{
    if n <= 0 || n > p.children.items@.len() {
        node_digest(p, depth)
    } else {
        spec_mix(
            kids_digest(p, depth, n - 1) ^ spec_mix(
                tree_digest(p.children.items@[n - 1], depth.wrapping_add(1)) ^ ((n - 1) as u64),
            ),
        )
    }
}

/// The digest of a pattern tree: the node, then each child's tree in
/// order, one level deeper.
fn pattern_digest(p: &Pattern, depth: u64) -> (r: u64)
    requires
        tree_wf(*p),
    ensures
        r == tree_digest(*p, depth),
    decreases tree_size(*p),
{
    let mut h = mix(depth);
    h = mix(h ^ mix(p.hands.hand(0).value()));
    h = mix(h ^ mix(p.hands.hand(1).value()));
    h = mix(h ^ mix(p.hands.hand(2).value()));
    h = mix(h ^ mix(p.hands.hand(3).value()));
    h = mix(h ^ mix(p.bounds.lower as i64 as u64));
    h = mix(h ^ mix(p.bounds.upper as i64 as u64));
    let mut i: usize = 0;
    while i < p.children.len()
        invariant
            i <= p.children.items@.len(),
            tree_wf(*p),
            h == kids_digest(*p, depth, i as int),
        decreases p.children.items@.len() - i,
    {
        let child = p.children.get(i);
        proof {
            assert(p.children.items@[i as int] == *child);
            assert(tree_wf(*child));
            lemma_tree_size(*p);
            lemma_seq_size_elem(p.children@, i as int, p.children@.len() as int);
        }
        let d = pattern_digest(child, depth.wrapping_add(1));
        h = mix(h ^ mix(d ^ (i as u64)));
        i += 1;
    }
    h
}

/// The live slots among the first `n` of a pattern cache, and the
/// exclusive or of their digests.
pub open spec fn cache_digest_fold(slots: Seq<ShapeEntry>, n: int) -> (nat, u64)
    decreases n,
{
    if n <= 0 {
        (0, 0)
    } else {
        let (count, digest) = cache_digest_fold(slots, n - 1);
        let e = slots[n - 1];
        if e.hash == 0 {
            (count, digest)
        } else {
            (count + 1, digest ^ (spec_mix(e.hash) ^ tree_digest(e.pattern, 0)))
        }
    }
}

impl PatternCache {
    /// The live entries, and a digest of what they hold.
    pub fn digest(&self) -> (r: (usize, u64))
        requires
            self.wf(),
        ensures
            r.0 == cache_digest_fold(self.slots(), self.slots().len() as int).0,
            r.1 == cache_digest_fold(self.slots(), self.slots().len() as int).1,
    {
        let mut count: usize = 0;
        let mut digest: u64 = 0;
        let mut i: usize = 0;
        while i < self.entries.len()
            invariant
                self.wf(),
                i <= self.entries@.len(),
                count <= i,
                (count as nat, digest) == cache_digest_fold(self.entries@, i as int),
            decreases self.entries@.len() - i,
        {
            let entry = &self.entries[i];
            if entry.hash != 0 {
                proof {
                    assert(tree_wf(self.entries@[i as int].pattern));
                }
                count += 1;
                digest = digest ^ (mix(entry.hash) ^ pattern_digest(&entry.pattern, 0));
            }
            i += 1;
        }
        (count, digest)
    }
}

} // verus!
