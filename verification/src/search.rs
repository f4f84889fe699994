//! The search: alpha-beta over the cards, one null-window probe at a time,
//! with a bounds cache of trick-start positions, a cache of the cards that
//! cut off, and quick and slow trick counts that settle a position before
//! any card is tried.

use vstd::prelude::*;
use crate::bridge_solver::{order_follows, order_leads, follows_suit, orders, seq_cards, OrderedCards, PartialTrick, PlayedCard};
use crate::cards::{Cards, cardset, suit_of, rank_of, higher_rank, lower_rank, popcount, suit_mask, low_mask, bit, spec_suit_of, spec_rank_of, lemma_popcount_range, lemma_suit_mask};
use crate::hands::Hands;
use crate::pattern::{
    compute_pattern_hands, bounds_ok, tree_wf, spec_bottom, Bounds, Pattern, PatternCache, RelativeHands, Shape,
    mix, spec_mix,
};
use crate::types::{
    Seat, Suit, NUM_SEATS, NUM_SUITS, NUM_RANKS, NOTRUMP, TOTAL_CARDS, TOTAL_TRICKS, next_seat, partner,
    left_hand_opp, right_hand_opp, is_ns, spec_is_ns,
};

verus! {

/// What a search returns: the tricks North-South take, and the cards whose
/// ranks decided it.
#[derive(Clone, Copy, Debug)]
pub struct SearchResult {
    pub ns_tricks: u8,
    pub rank_winners: Cards,
}

/// What the search keeps for each trick.
#[derive(Clone, Copy, Debug)]
pub struct Trick {
    /// The cards still in play when the trick began.
    pub all_cards: Cards,
    /// The suit led.
    pub lead_suit: usize,
    /// The suit lengths of the hands when the trick began.
    pub shape: Shape,
    /// The hands in relative form when the trick began.
    pub relative_hands: RelativeHands,
}

impl Trick {
    /// A trick with nothing recorded.
    pub fn new() -> (r: Trick)
        ensures
            r.lead_suit == 0,
    {
        Trick { all_cards: Cards::new(), lead_suit: 0, shape: Shape::zero(), relative_hands: RelativeHands::new() }
    }
}

/// What the search keeps for each card played.
#[derive(Clone, Copy, Debug)]
pub struct PlayState {
    /// Tricks North-South had won before this card.
    pub ns_tricks_won: u8,
    /// The seat playing this card.
    pub seat_to_play: Seat,
    /// The card played.
    pub card_played: usize,
    /// Where in the play the card winning the trick so far stands.
    pub winning_play: usize,
}

impl PlayState {
    /// A play with nothing recorded.
    pub fn new() -> (r: PlayState)
        ensures
            r.ns_tricks_won == 0,
            r.seat_to_play == 0,
            r.card_played == 0,
            r.winning_play == 0,
    {
        PlayState { ns_tricks_won: 0, seat_to_play: 0, card_played: 0, winning_play: 0 }
    }
}

/// A slot of the cutoff cache: a position's hash and, for each seat, the
/// card that last cut off there (255 for none).
#[derive(Clone, Copy, Debug)]
struct CutoffEntry {
    hash: u64,
    card: [u8; 4],
}

/// No card stored.
pub const NO_CARD: u8 = 255;

/// The most address bits the cutoff cache grows to. A table of `1 << 30`
/// slots takes sixteen gigabytes, so growth stops there.
pub const MAX_CUTOFF_BITS: usize = 30;

/// Three quarters of the largest table's slots: below this many stored
/// positions a store always finds a place.
pub const CUTOFF_ROOM: usize = 805306368;

/// A hash table from positions to the card that last cut off there, with
/// linear probing, grown to twice the size at three-quarters load.
///
/// A position is filed under a nonzero hash; a zero hash marks an empty
/// slot. A hash sits at most `probe_distance` slots past its home slot,
/// with no empty slot between, so a lookup stops at the first empty slot.
pub struct CutoffCache {
    entries: Vec<CutoffEntry>,
    bits: usize,
    mask: usize,
    probe_distance: usize,
    load_count: usize,
}

proof fn lemma_index_bound(h: u64, b: u64)
    by (bit_vector)
    requires
        1 <= b <= 30,
    ensures
        (h >> ((64 - b) as u64)) < (1u64 << b),
{
}

pub proof fn lemma_mask_bound(x: usize, m: usize)
    by (bit_vector)
    ensures
        x & m <= m,
{
}

pub proof fn lemma_pow_size(b: usize)
    by (bit_vector)
    requires
        1 <= b <= 31,
    ensures
        (1usize << b) >= 2,
        (1usize << b) <= 0x8000_0000usize,
        b <= 30 ==> (1usize << b) <= 0x4000_0000usize,
        (1usize << b) as u64 == (1u64 << (b as u64)),
        b <= 30 ==> (1usize << ((b + 1) as usize)) == (1usize << b) + (1usize << b),
{
}

/// A probe that runs past the end of a table of `1 << b` slots wraps to its
/// start.
proof fn lemma_wrap(x: usize, b: usize)
    by (bit_vector)
    requires
        1 <= b <= 30,
        x < (1usize << b) + (1usize << b),
    ensures
        x & (((1usize << b) - 1) as usize) == if x < (1usize << b) {
            x
        } else {
            (x - (1usize << b)) as usize
        },
{
}

/// The used slots among the first `n`.
spec fn used_count(es: Seq<CutoffEntry>, n: int) -> nat
    decreases n,
{
    if n <= 0 {
        0
    } else {
        used_count(es, n - 1) + if es[n - 1].hash != 0 {
            1nat
        } else {
            0nat
        }
    }
}

proof fn lemma_used_update(es: Seq<CutoffEntry>, j: int, e: CutoffEntry, n: int)
    requires
        0 <= j < es.len(),
        0 <= n <= es.len(),
    ensures
        used_count(es.update(j, e), n) + (if j < n && es[j].hash != 0 {
            1int
        } else {
            0int
        }) == used_count(es, n) + (if j < n && e.hash != 0 {
            1int
        } else {
            0int
        }),
    decreases n,
{
    if n > 0 {
        lemma_used_update(es, j, e, n - 1);
    }
}

proof fn lemma_used_bound(es: Seq<CutoffEntry>, n: int)
    requires
        0 <= n <= es.len(),
    ensures
        used_count(es, n) <= n,
        used_count(es, n) < n ==> exists|j: int| 0 <= j < n && (#[trigger] es[j]).hash == 0,
    decreases n,
{
    if n > 0 {
        lemma_used_bound(es, n - 1);
        if used_count(es, n) < n && es[n - 1].hash != 0 {
            let j = choose|j: int| 0 <= j < n - 1 && (#[trigger] es[j]).hash == 0;
            assert(es[j].hash == 0);
        }
    }
}

proof fn lemma_used_empty(es: Seq<CutoffEntry>, n: int)
    requires
        0 <= n <= es.len(),
        forall|j: int| 0 <= j < es.len() ==> (#[trigger] es[j]).hash == 0,
    ensures
        used_count(es, n) == 0,
    decreases n,
{
    if n > 0 {
        lemma_used_empty(es, n - 1);
    }
}

/// No nonzero hash is in two slots.
spec fn unique(es: Seq<CutoffEntry>) -> bool {
    forall|i: int, j: int|
        0 <= i < es.len() && 0 <= j < es.len() && (#[trigger] es[i]).hash != 0 && es[i].hash == (
        #[trigger] es[j]).hash ==> i == j
}

/// The card stored for `seat` under `hash` among the slots `es`.
spec fn content(es: Seq<CutoffEntry>, hash: u64, seat: int) -> Option<u8> {
    if exists|j: int| 0 <= j < es.len() && (#[trigger] es[j]).hash == hash && es[j].card@[seat] != NO_CARD {
        let j = choose|j: int| 0 <= j < es.len() && (#[trigger] es[j]).hash == hash && es[j].card@[seat] != NO_CARD;
        Some(es[j].card@[seat])
    } else {
        None
    }
}

/// With each hash in one slot, the card stored under a hash is that slot's.
proof fn lemma_content_at(es: Seq<CutoffEntry>, hash: u64, seat: int, j: int)
    requires
        unique(es),
        hash != 0,
        0 <= j < es.len(),
        es[j].hash == hash,
    ensures
        content(es, hash, seat) == if es[j].card@[seat] != NO_CARD {
            Some(es[j].card@[seat])
        } else {
            None
        },
{
    if exists|k: int| 0 <= k < es.len() && (#[trigger] es[k]).hash == hash && es[k].card@[seat] != NO_CARD {
        let k = choose|k: int| 0 <= k < es.len() && (#[trigger] es[k]).hash == hash && es[k].card@[seat] != NO_CARD;
        assert(k == j);
    }
}

/// A hash in no slot has nothing stored.
proof fn lemma_content_absent(es: Seq<CutoffEntry>, hash: u64, seat: int)
    requires
        forall|j: int| 0 <= j < es.len() ==> (#[trigger] es[j]).hash != hash,
    ensures
        content(es, hash, seat) is None,
{
}

impl CutoffCache {
    /// The stored hashes and cards, slot by slot.
    pub closed spec fn slots(&self) -> Seq<(u64, Seq<u8>)> {
        self.entries@.map_values(|e: CutoffEntry| (e.hash, e.card@))
    }

    /// The card stored for `seat` at the position hashing to `hash`.
    pub closed spec fn cached(&self, hash: u64, seat: int) -> Option<u8> {
        content(self.entries@, hash, seat)
    }

    /// How many positions the cache holds.
    pub closed spec fn stored(&self) -> nat {
        self.load_count as nat
    }

    /// The slot probing for `hash` starts from: the top `bits` bits of the hash.
    closed spec fn home(&self, hash: u64) -> int {
        (hash >> ((64 - self.bits) as u64)) as int
    }

    /// The slot `d` places after slot `b`, wrapping at the end.
    closed spec fn probe(&self, b: int, d: int) -> int {
        if b + d < self.entries@.len() {
            b + d
        } else {
            b + d - self.entries@.len()
        }
    }

    /// How far slot `j` lies past its hash's home slot.
    closed spec fn disp(&self, j: int) -> int {
        let b = self.home(self.entries@[j].hash);
        if j >= b {
            j - b
        } else {
            j + self.entries@.len() - b
        }
    }

    /// Slot `j` is within the probe distance of its home, with no empty
    /// slot on the way.
    closed spec fn placed(&self, j: int) -> bool {
        &&& self.disp(j) < self.probe_distance
        &&& forall|k: int|
            0 <= k < self.disp(j) ==> (#[trigger] self.entries@[self.probe(
                self.home(self.entries@[j].hash),
                k,
            )]).hash != 0
    }

    /// The table has `1 << bits` slots; every used slot is placed, no hash
    /// is in two slots, and the load is the count of used slots.
    pub closed spec fn wf(&self) -> bool {
        &&& 1 <= self.bits <= MAX_CUTOFF_BITS
        &&& self.entries@.len() == (1usize << self.bits)
        &&& self.mask + 1 == self.entries@.len()
        &&& self.probe_distance <= self.entries@.len()
        &&& forall|j: int| 0 <= j < self.entries@.len() && (#[trigger] self.entries@[j]).hash != 0 ==> self.placed(j)
        &&& unique(self.entries@)
        &&& self.load_count == used_count(self.entries@, self.entries@.len() as int)
    }

    proof fn lemma_home(&self, hash: u64)
        requires
            self.wf(),
        ensures
            0 <= self.home(hash) < self.entries@.len(),
    {
        lemma_index_bound(hash, self.bits as u64);
        lemma_pow_size(self.bits);
    }

    /// A table of `1 << bits` empty slots.
    pub fn new(bits: usize) -> (r: CutoffCache)
        requires
            1 <= bits <= MAX_CUTOFF_BITS,
        ensures
            r.wf(),
            r.slots().len() == (1usize << bits),
            forall|i: int| 0 <= i < r.slots().len() ==> (#[trigger] r.slots()[i]).0 == 0,
            forall|h: u64, s: int| #[trigger] r.cached(h, s) is None || h == 0,
            r.stored() == 0,
    {
        proof {
            lemma_pow_size(bits);
        }
        let size: usize = 1usize << bits;
        let entries = Self::empty_entries(size);
        proof {
            lemma_used_empty(entries@, size as int);
        }
        CutoffCache { entries, bits, mask: size - 1, probe_distance: 0, load_count: 0 }
    }

    fn empty_entries(size: usize) -> (r: Vec<CutoffEntry>)
        ensures
            r@.len() == size,
            forall|i: int| 0 <= i < size ==> (#[trigger] r@[i]).hash == 0,
    {
        let mut entries: Vec<CutoffEntry> = Vec::new();
        let mut n: usize = 0;
        while n < size
            invariant
                n <= size,
                entries@.len() == n,
                forall|i: int| 0 <= i < n ==> (#[trigger] entries@[i]).hash == 0,
            decreases size - n,
        {
            entries.push(CutoffEntry { hash: 0, card: [NO_CARD, NO_CARD, NO_CARD, NO_CARD] });
            n += 1;
        }
        entries
    }

    /// Empty every slot, keeping the table's size.
    pub fn reset(&mut self)
        requires
            old(self).wf(),
        ensures
            final(self).wf(),
            final(self).slots().len() == old(self).slots().len(),
            forall|i: int| 0 <= i < final(self).slots().len() ==> (#[trigger] final(self).slots()[i]).0 == 0,
            final(self).stored() == 0,
    {
        let size = self.entries.len();
        self.entries = Self::empty_entries(size);
        self.probe_distance = 0;
        self.load_count = 0;
        proof {
            lemma_used_empty(self.entries@, size as int);
        }
    }

    /// The slot probing for `hash` starts from.
    fn index(&self, hash: u64) -> (r: usize)
        requires
            self.wf(),
        ensures
            r == self.home(hash),
            r < self.entries@.len(),
    {
        proof {
            self.lemma_home(hash);
        }
        (hash >> ((64 - self.bits) as u64)) as usize
    }

    /// The slot `d` places after `base`.
    fn step(&self, base: usize, d: usize) -> (r: usize)
        requires
            self.wf(),
            base < self.entries@.len(),
            d < self.entries@.len(),
        ensures
            r == self.probe(base as int, d as int),
            r < self.entries@.len(),
    {
        proof {
            lemma_pow_size(self.bits);
            lemma_wrap((base + d) as usize, self.bits);
        }
        (base + d) & self.mask
    }

    /// The live entries, and a digest of what they hold. A seat with no
    /// card counts as card 64 in the digest.
    pub fn digest(&self) -> (r: (usize, u64))
        requires
            self.wf(),
        ensures
            r.0 == cutoff_digest_fold(self.slots(), self.slots().len() as int).0,
            r.1 == cutoff_digest_fold(self.slots(), self.slots().len() as int).1,
    {
        let mut count: usize = 0;
        let mut digest: u64 = 0;
        let mut i: usize = 0;
        while i < self.entries.len()
            invariant
                i <= self.entries@.len(),
                count <= i,
                (count as nat, digest) == cutoff_digest_fold(self.slots(), i as int),
            decreases self.entries@.len() - i,
        {
            let entry = self.entries[i];
            if entry.hash != 0 {
                let mut h = mix(entry.hash);
                let mut k: usize = 0;
                while k < 4
                    invariant
                        k <= 4,
                        h == entry_digest_fold(entry.hash, entry.card@, k as int),
                    decreases 4 - k,
                {
                    let card = entry.card[k];
                    let c: u64 = if (card as usize) < TOTAL_CARDS {
                        card as u64
                    } else {
                        64
                    };
                    h = mix(h ^ mix((c << 8u64) | k as u64));
                    k += 1;
                }
                count += 1;
                digest = digest ^ h;
            }
            i += 1;
        }
        (count, digest)
    }

    /// The card stored for `seat` at the position hashing to `hash`, if any.
    pub fn lookup(&self, hash: u64, seat: Seat) -> (r: Option<usize>)
        requires
            self.wf(),
            seat < NUM_SEATS,
        ensures
            r matches Some(c) ==> c < NO_CARD,
            hash != 0 ==> r == match self.cached(hash, seat as int) {
                Some(c) => Some(c as usize),
                None => None::<usize>,
            },
    {
        let base = self.index(hash);
        let mut d: usize = 0;
        while d < self.probe_distance
            invariant
                self.wf(),
                seat < NUM_SEATS,
                base == self.home(hash),
                base < self.entries@.len(),
                d <= self.probe_distance,
                forall|k: int| 0 <= k < d ==> (#[trigger] self.entries@[self.probe(base as int, k)]).hash != hash
                    && self.entries@[self.probe(base as int, k)].hash != 0,
            decreases self.probe_distance - d,
        {
            let idx = self.step(base, d);
            let entry = self.entries[idx];
            if entry.hash == hash {
                let c = entry.card[seat];
                proof {
                    if hash != 0 {
                        lemma_content_at(self.entries@, hash, seat as int, idx as int);
                    }
                }
                if c != NO_CARD {
                    return Some(c as usize);
                } else {
                    return None;
                }
            }
            if entry.hash == 0 {
                proof {
                    if hash != 0 {
                        self.lemma_not_past_gap(hash, d as int);
                        lemma_content_absent(self.entries@, hash, seat as int);
                    }
                }
                return None;
            }
            d += 1;
        }
        proof {
            if hash != 0 {
                self.lemma_not_beyond(hash, d as int);
                lemma_content_absent(self.entries@, hash, seat as int);
            }
        }
        None
    }

    /// Probing for `hash` from its home slot finds every slot of `hash`
    /// before the first empty slot.
    proof fn lemma_not_past_gap(&self, hash: u64, d: int)
        requires
            self.wf(),
            hash != 0,
            0 <= d < self.entries@.len(),
            self.entries@[self.probe(self.home(hash), d)].hash == 0,
            forall|k: int| 0 <= k < d ==> (#[trigger] self.entries@[self.probe(self.home(hash), k)]).hash != hash,
        ensures
            forall|j: int| 0 <= j < self.entries@.len() ==> (#[trigger] self.entries@[j]).hash != hash,
    {
        self.lemma_home(hash);
        assert forall|j: int| 0 <= j < self.entries@.len() implies (#[trigger] self.entries@[j]).hash != hash by {
            if self.entries@[j].hash == hash {
                assert(self.placed(j));
                let dj = self.disp(j);
                assert(self.probe(self.home(hash), dj) == j);
                if dj < d {
                    assert(self.entries@[self.probe(self.home(hash), dj)].hash != hash);
                } else if dj > d {
                    assert(self.entries@[self.probe(self.home(hash), d)].hash != 0);
                }
            }
        }
    }

    /// Probing for `hash` past the probe distance finds nothing new.
    proof fn lemma_not_beyond(&self, hash: u64, d: int)
        requires
            self.wf(),
            hash != 0,
            d == self.probe_distance,
            forall|k: int| 0 <= k < d ==> (#[trigger] self.entries@[self.probe(self.home(hash), k)]).hash != hash,
        ensures
            forall|j: int| 0 <= j < self.entries@.len() ==> (#[trigger] self.entries@[j]).hash != hash,
    {
        self.lemma_home(hash);
        assert forall|j: int| 0 <= j < self.entries@.len() implies (#[trigger] self.entries@[j]).hash != hash by {
            if self.entries@[j].hash == hash {
                assert(self.placed(j));
                let dj = self.disp(j);
                assert(self.probe(self.home(hash), dj) == j);
                assert(self.entries@[self.probe(self.home(hash), dj)].hash != hash);
            }
        }
    }

    /// Remember `card` as the card that cut off for `seat` at the position
    /// hashing to `hash`, growing the table first if it is three-quarters
    /// full. A later lookup of the same hash and seat gives the card back,
    /// and what is stored under any other hash or seat stays as it was.
    pub fn store(&mut self, hash: u64, seat: Seat, card: usize)
        requires
            old(self).wf(),
            seat < NUM_SEATS,
        ensures
            final(self).wf(),
            final(self).stored() <= old(self).stored() + 1,
            hash != 0 && card < NO_CARD && old(self).stored() < CUTOFF_ROOM ==> final(self).cached(
                hash,
                seat as int,
            ) == Some(card as u8),
            forall|h: u64, s: int|
                0 <= s < 4 && h != 0 && (h != hash || s != seat) ==> #[trigger] final(self).cached(h, s)
                    == old(self).cached(h, s),
    {
        proof {
            lemma_pow_size(self.bits);
        }
        let size = self.mask + 1;
        proof {
            lemma_used_bound(self.entries@, self.entries@.len() as int);
            if self.bits == MAX_CUTOFF_BITS {
                assert(size == 0x4000_0000usize) by {
                    assert((1usize << 30usize) == 0x4000_0000usize) by (bit_vector);
                }
            }
        }
        if self.load_count >= size * 3 / 4 && self.bits < MAX_CUTOFF_BITS {
            self.resize();
            proof {
                lemma_used_bound(self.entries@, self.entries@.len() as int);
            }
        }
        self.insert(hash, seat, card);
    }

    /// Probe from the hash's slot for its entry or the first empty slot, and
    /// set the seat's card there.
    fn insert(&mut self, hash: u64, seat: Seat, card: usize)
        requires
            old(self).wf(),
            seat < NUM_SEATS,
        ensures
            final(self).wf(),
            final(self).bits == old(self).bits,
            final(self).entries@.len() == old(self).entries@.len(),
            hash != 0 && (exists|j: int| 0 <= j < old(self).entries@.len() && (#[trigger] old(self).entries@[j]).hash
                == hash) ==> final(self).load_count == old(self).load_count,
            final(self).load_count <= old(self).load_count + 1,
            hash != 0 && card < NO_CARD && (exists|j: int|
                0 <= j < old(self).entries@.len() && ((#[trigger] old(self).entries@[j]).hash == 0
                    || old(self).entries@[j].hash == hash)) ==> final(self).cached(hash, seat as int) == Some(
                card as u8,
            ) && exists|j: int| 0 <= j < final(self).entries@.len() && (#[trigger] final(self).entries@[j]).hash == hash,
            forall|h: u64, s: int|
                0 <= s < 4 && h != 0 && (h != hash || s != seat) ==> #[trigger] final(self).cached(h, s)
                    == old(self).cached(h, s),
    {
        let base = self.index(hash);
        proof {
            lemma_pow_size(self.bits);
        }
        let size = self.mask + 1;
        let ghost es = self.entries@;
        let mut d: usize = 0;
        while d < size
            invariant
                self.wf(),
                *self == *old(self),
                es == self.entries@,
                size == self.entries@.len(),
                size <= 0x4000_0000,
                seat < NUM_SEATS,
                base == self.home(hash),
                base < size,
                d <= size,
                forall|k: int| 0 <= k < d ==> (#[trigger] es[self.probe(base as int, k)]).hash != hash
                    && es[self.probe(base as int, k)].hash != 0,
            decreases size - d,
        {
            let idx = self.step(base, d);
            let mut entry = self.entries[idx];
            if entry.hash == hash {
                entry.card[seat] = #[verifier::truncate] (card as u8);
                self.entries.set(idx, entry);
                proof {
                    self.lemma_same_hashes(*old(self), idx as int);
                    assert forall|h: u64, s: int|
                        0 <= s < 4 && h != 0 && (h != hash || s != seat) implies #[trigger] self.cached(h, s)
                        == old(self).cached(h, s) by {
                        self.lemma_content_kept(*old(self), idx as int, h, s, seat as int);
                    }
                    if hash != 0 {
                        lemma_content_at(self.entries@, hash, seat as int, idx as int);
                        assert(self.entries@[idx as int].hash == hash);
                    }
                    lemma_used_update(es, idx as int, entry, size as int);
                }
                return;
            }
            if entry.hash == 0 {
                proof {
                    if hash != 0 {
                        old(self).lemma_not_past_gap(hash, d as int);
                    }
                }
                if d + 1 > self.probe_distance {
                    self.probe_distance = d + 1;
                }
                self.load_count = self.load_count.saturating_add(1);
                entry.hash = hash;
                entry.card = [NO_CARD, NO_CARD, NO_CARD, NO_CARD];
                entry.card[seat] = #[verifier::truncate] (card as u8);
                self.entries.set(idx, entry);
                proof {
                    lemma_used_update(es, idx as int, entry, size as int);
                    lemma_used_bound(es, size as int);
                    self.lemma_placed_new(*old(self), idx as int, d as int);
                    assert forall|h: u64, s: int|
                        0 <= s < 4 && h != 0 && (h != hash || s != seat) implies #[trigger] self.cached(h, s)
                        == old(self).cached(h, s) by {
                        if h == hash {
                            lemma_content_at(self.entries@, hash, s, idx as int);
                            lemma_content_absent(es, hash, s);
                        } else {
                            self.lemma_content_kept(*old(self), idx as int, h, s, seat as int);
                        }
                    }
                    if hash != 0 {
                        lemma_content_at(self.entries@, hash, seat as int, idx as int);
                        assert(self.entries@[idx as int].hash == hash);
                    }
                }
                return;
            }
            d += 1;
        }
        proof {
            if hash != 0 {
                assert forall|j: int| 0 <= j < size implies !((#[trigger] es[j]).hash == 0 || es[j].hash == hash) by {
                    let dj = if j >= base { j - base } else { j + size - base };
                    assert(self.probe(base as int, dj) == j);
                    assert(es[self.probe(base as int, dj)].hash != hash);
                }
            }
        }
    }

    /// A slot whose hash is unchanged keeps the table well formed.
    proof fn lemma_same_hashes(&self, before: CutoffCache, idx: int)
        requires
            before.wf(),
            0 <= idx < before.entries@.len(),
            self.entries@ == before.entries@.update(idx, self.entries@[idx]),
            self.entries@[idx].hash == before.entries@[idx].hash,
            self.bits == before.bits,
            self.mask == before.mask,
            self.probe_distance == before.probe_distance,
            self.load_count == before.load_count,
        ensures
            self.wf(),
    {
        assert forall|j: int| 0 <= j < self.entries@.len() implies (#[trigger] self.entries@[j]).hash == before.entries@[j].hash by {}
        assert forall|j: int| 0 <= j < self.entries@.len() && (#[trigger] self.entries@[j]).hash != 0 implies self.placed(j) by {
            assert(before.placed(j));
            assert forall|k: int| 0 <= k < self.disp(j) implies (#[trigger] self.entries@[self.probe(
                self.home(self.entries@[j].hash),
                k,
            )]).hash != 0 by {
                assert(before.entries@[before.probe(before.home(before.entries@[j].hash), k)].hash != 0);
            }
        }
        assert(unique(self.entries@)) by {
            assert forall|i: int, j: int|
                0 <= i < self.entries@.len() && 0 <= j < self.entries@.len() && (#[trigger] self.entries@[i]).hash != 0
                    && self.entries@[i].hash == (#[trigger] self.entries@[j]).hash implies i == j by {
                assert(before.entries@[i].hash == before.entries@[j].hash);
            }
        }
        lemma_used_update(before.entries@, idx, self.entries@[idx], before.entries@.len() as int);
    }

    /// Changing one slot leaves what is stored under other hashes, and
    /// under other seats of its hash, as it was.
    proof fn lemma_content_kept(&self, before: CutoffCache, idx: int, h: u64, s: int, seat: int)
        requires
            before.wf(),
            self.wf(),
            0 <= idx < before.entries@.len(),
            self.entries@ == before.entries@.update(idx, self.entries@[idx]),
            before.entries@[idx].hash == 0 || before.entries@[idx].hash == self.entries@[idx].hash,
            h != 0,
            0 <= s < 4,
            h != self.entries@[idx].hash || (s != seat && self.entries@[idx].card@[s]
                == before.entries@[idx].card@[s]),
            before.entries@[idx].hash == 0 ==> h != self.entries@[idx].hash,
        ensures
            self.cached(h, s) == before.cached(h, s),
    {
        if exists|j: int| 0 <= j < before.entries@.len() && (#[trigger] before.entries@[j]).hash == h {
            let j = choose|j: int| 0 <= j < before.entries@.len() && (#[trigger] before.entries@[j]).hash == h;
            lemma_content_at(before.entries@, h, s, j);
            if j == idx {
                assert(self.entries@[idx].hash == h);
            } else {
                assert(self.entries@[j] == before.entries@[j]);
            }
            lemma_content_at(self.entries@, h, s, j);
        } else {
            lemma_content_absent(before.entries@, h, s);
            assert forall|j: int| 0 <= j < self.entries@.len() implies (#[trigger] self.entries@[j]).hash != h by {
                if j != idx {
                    assert(self.entries@[j] == before.entries@[j]);
                }
            }
            lemma_content_absent(self.entries@, h, s);
        }
    }

    /// Filling the empty slot `d` places past the home of its new hash, with
    /// that hash in no other slot, keeps the table well formed.
    proof fn lemma_placed_new(&self, before: CutoffCache, idx: int, d: int)
        requires
            before.wf(),
            0 <= d < before.entries@.len(),
            idx == before.probe(before.home(self.entries@[idx].hash), d),
            before.entries@[idx].hash == 0,
            self.entries@[idx].hash != 0 ==> forall|j: int|
                0 <= j < before.entries@.len() ==> (#[trigger] before.entries@[j]).hash != self.entries@[idx].hash,
            forall|k: int| 0 <= k < d ==> (#[trigger] before.entries@[before.probe(
                before.home(self.entries@[idx].hash),
                k,
            )]).hash != 0,
            self.entries@ == before.entries@.update(idx, self.entries@[idx]),
            self.bits == before.bits,
            self.mask == before.mask,
            self.probe_distance >= before.probe_distance,
            self.probe_distance >= d + 1,
            self.probe_distance <= self.entries@.len(),
            self.load_count == used_count(self.entries@, self.entries@.len() as int),
        ensures
            self.wf(),
    {
        before.lemma_home(self.entries@[idx].hash);
        assert forall|j: int| 0 <= j < self.entries@.len() && (#[trigger] self.entries@[j]).hash != 0 implies self.placed(j) by {
            if j == idx {
                assert(self.disp(j) == d);
                assert forall|k: int| 0 <= k < self.disp(j) implies (#[trigger] self.entries@[self.probe(
                    self.home(self.entries@[j].hash),
                    k,
                )]).hash != 0 by {
                    let p = before.probe(before.home(self.entries@[idx].hash), k);
                    assert(before.entries@[p].hash != 0);
                    assert(p != idx);
                }
            } else {
                assert(self.entries@[j] == before.entries@[j]);
                assert(before.placed(j));
                assert forall|k: int| 0 <= k < self.disp(j) implies (#[trigger] self.entries@[self.probe(
                    self.home(self.entries@[j].hash),
                    k,
                )]).hash != 0 by {
                    let p = before.probe(before.home(before.entries@[j].hash), k);
                    assert(before.entries@[p].hash != 0);
                }
            }
        }
        assert(unique(self.entries@)) by {
            assert forall|i: int, j: int|
                0 <= i < self.entries@.len() && 0 <= j < self.entries@.len() && (#[trigger] self.entries@[i]).hash != 0
                    && self.entries@[i].hash == (#[trigger] self.entries@[j]).hash implies i == j by {
                if i != idx && j != idx {
                    assert(before.entries@[i].hash == before.entries@[j].hash);
                } else if i == idx && j != idx {
                    assert(before.entries@[j].hash != self.entries@[idx].hash);
                } else if j == idx && i != idx {
                    assert(before.entries@[i].hash != self.entries@[idx].hash);
                }
            }
        }
    }

    /// Double the table and put every stored card back.
    fn resize(&mut self)
        requires
            old(self).wf(),
            old(self).bits < MAX_CUTOFF_BITS,
        ensures
            final(self).wf(),
            final(self).bits == old(self).bits + 1,
            final(self).entries@.len() == 2 * old(self).entries@.len(),
            final(self).load_count <= old(self).entries@.len(),
            final(self).load_count <= old(self).load_count,
            forall|h: u64, s: int| 0 <= s < 4 && h != 0 ==> #[trigger] final(self).cached(h, s) == old(self).cached(h, s),
    {
        let new_bits = self.bits + 1;
        proof {
            lemma_pow_size(self.bits);
            lemma_pow_size(new_bits);
        }
        let old_size = self.entries.len();
        let new_size: usize = 1usize << new_bits;
        let mut old_entries = Self::empty_entries(new_size);
        std::mem::swap(&mut old_entries, &mut self.entries);
        self.bits = new_bits;
        self.mask = new_size - 1;
        self.probe_distance = 0;
        self.load_count = 0;
        let ghost es = old_entries@;
        proof {
            lemma_used_empty(self.entries@, new_size as int);
            assert(es == old(self).entries@);
            assert forall|h: u64, s: int| 0 <= s < 4 && h != 0 implies #[trigger] self.cached(h, s) == content(
                es.take(0),
                h,
                s,
            ) by {
                lemma_content_absent(self.entries@, h, s);
                lemma_content_absent(es.take(0), h, s);
            }
        }
        let mut i: usize = 0;
        while i < old_entries.len()
            invariant
                self.wf(),
                self.bits == new_bits,
                self.entries@.len() == new_size,
                new_size == 2 * old_size,
                old_size == es.len(),
                es == old_entries@,
                es == old(self).entries@,
                unique(es),
                i <= es.len(),
                self.load_count <= used_count(es, i as int),
                forall|h: u64, s: int| 0 <= s < 4 && h != 0 ==> #[trigger] self.cached(h, s) == content(es.take(i as int), h, s),
            decreases es.len() - i,
        {
            let entry = old_entries[i];
            proof {
                assert forall|h: u64, s: int| 0 <= s < 4 && h != 0 && h != entry.hash implies #[trigger] content(
                    es.take(i as int + 1),
                    h,
                    s,
                ) == content(es.take(i as int), h, s) by {
                    lemma_content_prefix(es, i as int, h, s);
                }
            }
            if entry.hash != 0 {
                let ghost mut inserted = false;
                proof {
                    assert forall|s: int| 0 <= s < 4 implies #[trigger] content(es.take(i as int), entry.hash, s) is None by {
                        assert forall|j: int| 0 <= j < es.take(i as int).len() implies (#[trigger] es.take(
                            i as int,
                        )[j]).hash != entry.hash by {
                            assert(es.take(i as int)[j] == es[j]);
                        }
                    }
                }
                let mut seat: usize = 0;
                while seat < NUM_SEATS
                    invariant
                        self.wf(),
                        self.bits == new_bits,
                        self.entries@.len() == new_size,
                        new_size == 2 * old_size,
                        old_size == es.len(),
                        es == old_entries@,
                        unique(es),
                        i < es.len(),
                        entry == es[i as int],
                        entry.hash != 0,
                        seat <= NUM_SEATS,
                        self.load_count <= used_count(es, i as int) + if inserted {
                            1int
                        } else {
                            0int
                        },
                        inserted ==> exists|j: int| 0 <= j < self.entries@.len() && (#[trigger] self.entries@[j]).hash
                            == entry.hash,
                        forall|h: u64, s: int|
                            0 <= s < 4 && h != 0 ==> #[trigger] self.cached(h, s) == if h == entry.hash {
                                if s < seat {
                                    content(es.take(i as int + 1), h, s)
                                } else {
                                    None
                                }
                            } else {
                                content(es.take(i as int), h, s)
                            },
                    decreases NUM_SEATS - seat,
                {
                    let c = entry.card[seat];
                    proof {
                        lemma_content_prefix(es, i as int, entry.hash, seat as int);
                    }
                    if c != NO_CARD {
                        proof {
                            lemma_used_bound(self.entries@, new_size as int);
                            lemma_used_bound(es, i as int);
                            if !inserted {
                                assert(self.load_count < new_size);
                            }
                        }
                        self.insert(entry.hash, seat, c as usize);
                        proof {
                            inserted = true;
                        }
                    }
                    seat += 1;
                }
            }
            i += 1;
        }
        proof {
            assert(es.take(es.len() as int) =~= es);
            lemma_used_bound(es, es.len() as int);
        }
    }
}

/// What one more slot adds to what the slots before it hold.
proof fn lemma_content_prefix(es: Seq<CutoffEntry>, i: int, h: u64, s: int)
    requires
        unique(es),
        0 <= i < es.len(),
        h != 0,
    ensures
        h != es[i].hash ==> content(es.take(i + 1), h, s) == content(es.take(i), h, s),
        h == es[i].hash ==> content(es.take(i + 1), h, s) == if es[i].card@[s] != NO_CARD {
            Some(es[i].card@[s])
        } else {
            None
        },
{
    let a = es.take(i + 1);
    let b = es.take(i);
    assert(unique(a)) by {
        assert forall|x: int, y: int|
            0 <= x < a.len() && 0 <= y < a.len() && (#[trigger] a[x]).hash != 0 && a[x].hash == (#[trigger] a[y]).hash implies x
                == y by {
            assert(a[x] == es[x] && a[y] == es[y]);
        }
    }
    assert(unique(b)) by {
        assert forall|x: int, y: int|
            0 <= x < b.len() && 0 <= y < b.len() && (#[trigger] b[x]).hash != 0 && b[x].hash == (#[trigger] b[y]).hash implies x
                == y by {
            assert(b[x] == es[x] && b[y] == es[y]);
        }
    }
    if h == es[i].hash {
        lemma_content_at(a, h, s, i);
    } else {
        if exists|j: int| 0 <= j < b.len() && (#[trigger] b[j]).hash == h {
            let j = choose|j: int| 0 <= j < b.len() && (#[trigger] b[j]).hash == h;
            lemma_content_at(b, h, s, j);
            assert(a[j] == b[j]);
            lemma_content_at(a, h, s, j);
        } else {
            lemma_content_absent(b, h, s);
            assert forall|j: int| 0 <= j < a.len() implies (#[trigger] a[j]).hash != h by {
                if j < i {
                    assert(a[j] == b[j]);
                }
            }
            lemma_content_absent(a, h, s);
        }
    }
}

/// The hash of a cutoff-cache key pair.
pub open spec fn spec_cutoff_hash(key0: u64, key1: u64) -> u64 {
    key0.wrapping_add(0x9b8b4567327b23c7u64).wrapping_mul(key1.wrapping_add(0x643c986966334873u64))
}

fn hash_cutoff_index(key0: u64, key1: u64) -> (r: u64)
    ensures
        r == spec_cutoff_hash(key0, key1),
{
    key0.wrapping_add(0x9b8b4567327b23c7u64).wrapping_mul(key1.wrapping_add(0x643c986966334873u64))
}

/// The two keys a position is filed under in the cutoff cache. Leading: the
/// hand on lead. Following suit: the cards left in the suit led, and the
/// card winning the trick. Discarding or ruffing: the hand, and the card (in
/// notrump, the seat) winning the trick. The place in the trick always goes
/// into the second key.
pub open spec fn spec_cutoff_keys(
    hands: Seq<Cards>,
    seat_to_play: int,
    card_in_trick: int,
    lead_suit: int,
    winning_card: u64,
    winning_seat: u64,
    trump: int,
    all_cards: u64,
) -> (u64, u64) {
    let place = 1u64 << ((52 + card_in_trick) as u64);
    if card_in_trick == 0 {
        (hands[seat_to_play]@, place)
    } else if hands[seat_to_play]@ & suit_mask(lead_suit) != 0 {
        (all_cards & suit_mask(lead_suit), (1u64 << winning_card) | place)
    } else if trump == 4 {
        (hands[seat_to_play]@, (1u64 << winning_seat) | place)
    } else {
        (hands[seat_to_play]@, (1u64 << winning_card) | place)
    }
}

/// The cutoff-cache hash of a position, with the two keys it is built from.
fn build_cutoff_index_debug(
    hands: &Hands,
    seat_to_play: Seat,
    card_in_trick: usize,
    lead_suit: usize,
    winning_card: usize,
    winning_seat: Seat,
    trump: usize,
    all_cards: Cards,
) -> (r: (u64, u64, u64))
    requires
        seat_to_play < NUM_SEATS,
        card_in_trick < 4,
        winning_card < 64,
        winning_seat < NUM_SEATS,
    ensures
        ({
            let keys = spec_cutoff_keys(
                hands@,
                seat_to_play as int,
                card_in_trick as int,
                lead_suit as int,
                winning_card as u64,
                winning_seat as u64,
                trump as int,
                all_cards@,
            );
            r == (spec_cutoff_hash(keys.0, keys.1), keys.0, keys.1)
        }),
{
    let key0: u64;
    let mut key1: u64 = 0;
    if card_in_trick == 0 {
        key0 = hands.hand(seat_to_play).value();
    } else if !hands.hand(seat_to_play).suit(lead_suit).is_empty() {
        key0 = all_cards.suit(lead_suit).value();
        key1 = 1u64 << (winning_card as u64);
    } else {
        key0 = hands.hand(seat_to_play).value();
        if trump == NOTRUMP {
            key1 = 1u64 << (winning_seat as u64);
        } else {
            key1 = 1u64 << (winning_card as u64);
        }
    }
    let place = 1u64 << ((TOTAL_CARDS + card_in_trick) as u64);
    proof {
        crate::cards::lemma_word_facts(place, 0, 0);
    }
    key1 = key1 | place;
    (hash_cutoff_index(key0, key1), key0, key1)
}

/// The cards `seat` may play: its cards of the suit led if it has any,
/// else its whole hand.
pub open spec fn spec_playable(hands: Seq<Cards>, seat: int, lead_suit: Option<usize>) -> u64 {
    match lead_suit {
        Some(s) => if hands[seat]@ & suit_mask(s as int) != 0 {
            hands[seat]@ & suit_mask(s as int)
        } else {
            hands[seat]@
        },
        None => hands[seat]@,
    }
}

/// The cards `seat` may play: following suit when it can.
pub fn get_playable_cards(hands: &Hands, seat: Seat, lead_suit: Option<usize>) -> (r: Cards)
    requires
        seat < NUM_SEATS,
    ensures
        r@ == spec_playable(hands@, seat as int, lead_suit),
        r.set().subset_of(hands@[seat as int].set()),
        lead_suit matches Some(s) ==> follows_suit(r, s as int),
{
    let hand = hands.hand(seat);
    match lead_suit {
        Some(suit) => {
            let in_suit = hand.suit(suit);
            if !in_suit.is_empty() {
                return in_suit;
            }
            proof {
                assert forall|c: int| #[trigger] hand.set().contains(c) && 0 <= c < 52 && c / 13
                    == suit implies false by {
                    assert(in_suit.set().contains(c));
                }
            }
            hand
        },
        None => hand,
    }
}

/// Whether `card` is as good as a card already tried of its suit: the
/// nearest tried card above it, or below it, is separated from it only by
/// cards of the same hand.
pub open spec fn spec_is_equivalent(card: int, tried_suit: u64, my_hand: u64, all_cards: u64) -> bool {
    let suit = spec_suit_of(card);
    let all_suit = all_cards & suit_mask(suit);
    let my_suit = my_hand & suit_mask(suit);
    let above = tried_suit & low_mask(card) & !low_mask(0);
    let below = tried_suit & low_mask(52) & !low_mask(card + 1);
    let ca = spec_bottom(above);
    let cb = vstd::std_specs::bits::u64_trailing_zeros(below) as int;
    &&& tried_suit != 0
    &&& ((above != 0 && all_suit & low_mask(card) & !low_mask(ca + 1) == my_suit & low_mask(card)
        & !low_mask(ca + 1)) || (below != 0 && all_suit & low_mask(cb) & !low_mask(card + 1)
        == my_suit & low_mask(cb) & !low_mask(card + 1)))
}

/// Whether `card` would add nothing to the cards of its suit already tried
/// by the same hand: see [`spec_is_equivalent`].
pub fn is_equivalent(card: usize, tried_suit: Cards, my_hand: Cards, all_cards: Cards) -> (r: bool)
    requires
        card < 64,
    ensures
        r == spec_is_equivalent(card as int, tried_suit@, my_hand@, all_cards@),
{
    if tried_suit.is_empty() {
        return false;
    }
    let suit = suit_of(card);
    let all_suit = all_cards.suit(suit);
    let my_suit = my_hand.suit(suit);
    let above = tried_suit.slice(0, card);
    if !above.is_empty() {
        let closest_above = above.bottom();
        let x = all_suit.slice(closest_above + 1, card);
        let y = my_suit.slice(closest_above + 1, card);
        proof {
            if x@ == y@ {
                Cards::lemma_eq(x, y);
            }
        }
        if x == y {
            return true;
        }
    }
    let below = tried_suit.slice(card + 1, NUM_SUITS * NUM_RANKS);
    if !below.is_empty() {
        let closest_below = below.top();
        let x = all_suit.slice(card + 1, closest_below);
        let y = my_suit.slice(card + 1, closest_below);
        proof {
            if x@ == y@ {
                Cards::lemma_eq(x, y);
            }
        }
        if x == y {
            return true;
        }
    }
    false
}

/// `slow_trump_tricks` as seen from the opponents of `seat_to_play`: one
/// trick when they hold a trump honour that must score, the king guarded
/// behind the ace or the queen twice guarded behind the ace and king.
pub open spec fn spec_slow_trump_tricks(
    all_trumps: u64,
    my_trumps: u64,
    pd_trumps: u64,
    lho_trumps: u64,
    rho_trumps: u64,
    num_tricks: int,
    leading: bool,
) -> int {
    let a = vstd::std_specs::bits::u64_trailing_zeros(all_trumps) as int;
    let rem1 = all_trumps & !(1u64 << (a as u64));
    let k = vstd::std_specs::bits::u64_trailing_zeros(rem1) as int;
    let rem2 = rem1 & !(1u64 << (k as u64));
    let q = if rem2 != 0 { vstd::std_specs::bits::u64_trailing_zeros(rem2) as int } else { 64 };
    if popcount(all_trumps) < 3 || rem1 == 0 {
        0
    } else if (bit(pd_trumps, k) && popcount(pd_trumps) > 1 && bit(lho_trumps, a)) || (bit(
        my_trumps,
        k,
    ) && popcount(my_trumps) > 1 && bit(rho_trumps, a) && (!leading || num_tricks >= 3)) {
        1
    } else if q < 64 && popcount(all_trumps) >= 5 && ((bit(pd_trumps, q) && popcount(pd_trumps) >= 3
        && bit(lho_trumps, a) && bit(lho_trumps, k)) || (bit(my_trumps, q) && popcount(my_trumps)
        >= 3 && bit(rho_trumps, a) && bit(rho_trumps, k) && (!leading || num_tricks >= 4))) {
        1
    } else {
        0
    }
}

/// The trumps whose ranks decide [`spec_slow_trump_tricks`]: none when it
/// is nothing, the ace and king for the king guarded behind the ace, and
/// the queen too for the queen twice guarded behind both.
pub open spec fn spec_slow_trump_winners(
    all_trumps: u64,
    my_trumps: u64,
    pd_trumps: u64,
    lho_trumps: u64,
    rho_trumps: u64,
    num_tricks: int,
    leading: bool,
) -> u64 {
    let a = vstd::std_specs::bits::u64_trailing_zeros(all_trumps) as int;
    let rem1 = all_trumps & !(1u64 << (a as u64));
    let k = vstd::std_specs::bits::u64_trailing_zeros(rem1) as int;
    let rem2 = rem1 & !(1u64 << (k as u64));
    let q = if rem2 != 0 { vstd::std_specs::bits::u64_trailing_zeros(rem2) as int } else { 64 };
    let ak = (0u64 | (1u64 << (a as u64))) | (1u64 << (k as u64));
    if popcount(all_trumps) < 3 || rem1 == 0 {
        0
    } else if (bit(pd_trumps, k) && popcount(pd_trumps) > 1 && bit(lho_trumps, a)) || (bit(
        my_trumps,
        k,
    ) && popcount(my_trumps) > 1 && bit(rho_trumps, a) && (!leading || num_tricks >= 3)) {
        ak
    } else if q < 64 && popcount(all_trumps) >= 5 && ((bit(pd_trumps, q) && popcount(pd_trumps) >= 3
        && bit(lho_trumps, a) && bit(lho_trumps, k)) || (bit(my_trumps, q) && popcount(my_trumps)
        >= 3 && bit(rho_trumps, a) && bit(rho_trumps, k) && (!leading || num_tricks >= 4))) {
        ak | (1u64 << (q as u64))
    } else {
        0
    }
}

proof fn lemma_word_or_zero(x: u64)
    ensures
        x | 0u64 == x,
{
    crate::cards::lemma_word_facts(x, 0, 0);
}

/// Tricks a hand holding `my` in a suit, `mw` of them winners, can cash
/// there with partner holding `pd`, `pw` of them winners: partner's winners
/// alone when this hand has none or is blocked below partner's cards, this
/// hand's alone when partner has none or is blocked below them, and else
/// both, one of partner's counted as a small card when partner holds
/// nothing else, but never more than this hand's length.
pub open spec fn spec_suit_fast_tricks(my: u64, mw: int, pd: u64, pw: int) -> int {
    let my_top = vstd::std_specs::bits::u64_trailing_zeros(my) as int;
    let pd_top = vstd::std_specs::bits::u64_trailing_zeros(pd) as int;
    if pw == 0 {
        mw
    } else if mw == 0 {
        if my != 0 { pw } else { 0 }
    } else if pd != 0 && my_top > crate::pattern::spec_bottom(pd) {
        pw
    } else if pd != 0 && crate::pattern::spec_bottom(my) < pd_top {
        mw
    } else {
        let adj = if pw == popcount(pd) && pw > 0 { pw - 1 } else { pw };
        if popcount(my) < mw + adj { popcount(my) as int } else { mw + adj }
    }
}

/// Whether this hand, holding `my` with `mw` winners, can overtake
/// partner's lowest card of `pd`, and so give an entry to partner.
pub open spec fn spec_gives_entry(my: u64, mw: int, pd: u64) -> bool {
    pd != 0 && mw > 0 && (vstd::std_specs::bits::u64_trailing_zeros(my) as int) < crate::pattern::spec_bottom(pd)
}

/// The top cards, over the first `n` suits, of the suits that `my` holds:
/// `None` once such a top card is the side's own (held in `side`).
pub open spec fn spec_opponent_tops(my: u64, side: u64, all: u64, n: int) -> Option<u64>
    decreases n,
{
    if n <= 0 {
        Some(0u64)
    } else {
        match spec_opponent_tops(my, side, all, n - 1) {
            None => None,
            Some(w) => {
                let all_suit = all & suit_mask(n - 1);
                if my & suit_mask(n - 1) != 0 && all_suit != 0 {
                    let t = vstd::std_specs::bits::u64_trailing_zeros(all_suit);
                    if bit(side, t as int) {
                        None
                    } else {
                        Some(w | (1u64 << (t as u64)))
                    }
                } else {
                    Some(w)
                }
            },
        }
    }
}

/// Notrump slow tricks of the opponents of a hand holding `my`, its side
/// holding `side`, the opponents `lho` and `rho`: when the opponents hold
/// the top card of every suit the hand holds, all of those tricks if one
/// opponent holds every such card, else one; with those top cards.
pub open spec fn spec_slow_tricks_nt(my: u64, side: u64, lho: u64, rho: u64, all: u64) -> (int, u64) {
    match spec_opponent_tops(my, side, all, 4) {
        None => (0, 0),
        Some(w) => if w == 0 {
            (0, 0)
        } else if lho & w == w || rho & w == w {
            (popcount(w) as int, w)
        } else {
            (1, w)
        },
    }
}

/// Once a suit's top card is the side's own, the tops stay `None`.
proof fn lemma_opponent_tops_none(my: u64, side: u64, all: u64, m: int, n: int)
    requires
        m <= n,
        spec_opponent_tops(my, side, all, m) is None,
    ensures
        spec_opponent_tops(my, side, all, n) is None,
    decreases n - m,
{
    if m < n {
        lemma_opponent_tops_none(my, side, all, m, n - 1);
    }
}

/// The cards of `v` without its `k` lowest (highest-indexed) ones.
pub open spec fn drop_lowest(v: u64, k: nat) -> u64
    decreases k,
{
    if k == 0 {
        v
    } else {
        let w = drop_lowest(v, (k - 1) as nat);
        w & !(1u64 << ((63 - vstd::std_specs::bits::u64_leading_zeros(w)) as u64))
    }
}

/// `v` cut down to its `n` highest cards.
pub open spec fn spec_truncate(v: u64, n: int) -> u64 {
    if popcount(v) <= n {
        v
    } else {
        drop_lowest(v, (popcount(v) - n) as nat)
    }
}

/// Three facts of `|` that the default solver does not see.
proof fn lemma_or_facts(a: u64, b: u64, c: u64)
    by (bit_vector)
    ensures
        (a | b) | c == a | (c | b),
        (a | b) | c == a | (b | c),
        a | 0u64 == a,
        0u64 | a == a,
{
}

/// The largest of three counts.
pub open spec fn spec_max3(a: int, b: int, c: int) -> int {
    let ab = if a >= b { a } else { b };
    if ab >= c { ab } else { c }
}

/// Winners of one suit, walking its cards `rem` from the top while this
/// hand (`my`) or partner (`pd`) holds them, the counts starting from `mw`
/// and `pw`: the final counts, and the cards counted as rank winners, those
/// within the first `mmax` of this hand's and `pmax` of partner's.
pub open spec fn spec_suit_winners(
    my: u64,
    pd: u64,
    rem: u64,
    mmax: int,
    pmax: int,
    mw: int,
    pw: int,
) -> (int, int, u64, u64)
    decreases rem,
{
    if rem == 0 {
        (mw, pw, 0u64, 0u64)
    } else {
        let c = vstd::std_specs::bits::u64_trailing_zeros(rem) as u64;
        if bit(my, c as int) || bit(pd, c as int) {
            proof {
                vstd::std_specs::bits::axiom_u64_trailing_zeros(rem);
                crate::bridge_solver::lemma_remove_set_bit_smaller(rem, c);
            }
            let next = rem & !(1u64 << c);
            if bit(my, c as int) {
                let t = spec_suit_winners(my, pd, next, mmax, pmax, mw + 1, pw);
                (t.0, t.1, if mw + 1 <= mmax { t.2 | (1u64 << c) } else { t.2 }, t.3)
            } else {
                let t = spec_suit_winners(my, pd, next, mmax, pmax, mw, pw + 1);
                (t.0, t.1, t.2, if pw + 1 <= pmax { t.3 | (1u64 << c) } else { t.3 })
            }
        } else {
            (mw, pw, 0u64, 0u64)
        }
    }
}

/// How many winners of a side suit can count in a trump contract: no more
/// than an opponent holding trumps has cards of the suit (`lho`, `rho`),
/// and no more than the tricks left.
pub open spec fn spec_suit_cap(lho_hand: u64, rho_hand: u64, lho: u64, rho: u64, trump: int, num_tricks: int) -> int {
    let a = if lho_hand & suit_mask(trump) != 0 { popcount(lho) as int } else { num_tricks };
    if rho_hand & suit_mask(trump) != 0 && popcount(rho) < a { popcount(rho) as int } else { a }
}

/// The unbroken run of the top cards of `rem` that `both` holds, at most
/// `cap` of them: how many, and which.
pub open spec fn spec_top_run(both: u64, rem: u64, cap: int) -> (int, u64)
    decreases rem,
{
    if rem == 0 {
        (0, 0)
    } else {
        let c = vstd::std_specs::bits::u64_trailing_zeros(rem) as u64;
        if bit(both, c as int) && cap > 0 {
            proof {
                vstd::std_specs::bits::axiom_u64_trailing_zeros(rem);
                crate::bridge_solver::lemma_remove_set_bit_smaller(rem, c);
            }
            let t = spec_top_run(both, rem & !(1u64 << c), cap - 1);
            (t.0 + 1, t.1 | (1u64 << c))
        } else {
            (0, 0)
        }
    }
}

/// Top tricks of a partnership holding `a` and `b` of the cards `all` of a
/// suit: every card of the suit when one hand holds them all, else the run
/// of top cards the two hold, up to the longer holding's length; with the
/// cards that win them (none in the first case).
pub open spec fn spec_top_tricks(a: u64, b: u64, all: u64) -> (int, u64) {
    if a == all {
        (popcount(a) as int, 0)
    } else if b == all {
        (popcount(b) as int, 0)
    } else {
        let cap = if popcount(a) >= popcount(b) { popcount(a) } else { popcount(b) };
        spec_top_run(a | b, all, cap as int)
    }
}

/// The opponents' slow trump tricks against `seat_to_play`, for the finesse
/// positions [`spec_slow_trump_tricks`] describes: the left-hand opponent
/// in the role of the hand that holds the honour, the right-hand one as its
/// partner.
pub fn slow_trump_tricks_opponent(
    hands: &Hands,
    trump: Suit,
    seat_to_play: Seat,
    num_tricks: usize,
    leading: bool,
) -> (r: usize)
    requires
        seat_to_play < NUM_SEATS,
    ensures
        r == spec_slow_trump_tricks(
            union_word(hands@) & suit_mask(trump as int),
            hands@[(seat_to_play + 1) % 4]@ & suit_mask(trump as int),
            hands@[(seat_to_play + 3) % 4]@ & suit_mask(trump as int),
            hands@[(seat_to_play + 2) % 4]@ & suit_mask(trump as int),
            hands@[seat_to_play as int]@ & suit_mask(trump as int),
            num_tricks as int,
            leading,
        ),
{
    let all_trumps = hands.all_cards().suit(trump);
    let my_trumps = hands.hand(left_hand_opp(seat_to_play)).suit(trump);
    let pd_trumps = hands.hand(right_hand_opp(seat_to_play)).suit(trump);
    let lho_trumps = hands.hand(partner(seat_to_play)).suit(trump);
    let rho_trumps = hands.hand(seat_to_play).suit(trump);
    slow_trump_count(all_trumps, my_trumps, pd_trumps, lho_trumps, rho_trumps, num_tricks, leading).0
}

/// Every card of the four hands.
pub open spec fn union_word(h: Seq<Cards>) -> u64 {
    h[0]@ | h[1]@ | h[2]@ | h[3]@
}

/// [`spec_slow_trump_tricks`], computed, with the trumps whose ranks decide
/// it: the ace and king, and the queen for the position behind both.
fn slow_trump_count(
    all_trumps: Cards,
    my_trumps: Cards,
    pd_trumps: Cards,
    lho_trumps: Cards,
    rho_trumps: Cards,
    num_tricks: usize,
    leading: bool,
) -> (r: (usize, Cards))
    ensures
        r.0 == spec_slow_trump_tricks(
            all_trumps@,
            my_trumps@,
            pd_trumps@,
            lho_trumps@,
            rho_trumps@,
            num_tricks as int,
            leading,
        ),
        r.1@ == spec_slow_trump_winners(
            all_trumps@,
            my_trumps@,
            pd_trumps@,
            lho_trumps@,
            rho_trumps@,
            num_tricks as int,
            leading,
        ),
        r.0 <= 1,
{
    if all_trumps.size() < 3 {
        return (0, Cards::new());
    }
    let a = all_trumps.top();
    let mut remaining = all_trumps;
    remaining.remove(a);
    if remaining.is_empty() {
        return (0, Cards::new());
    }
    let k = remaining.top();
    remaining.remove(k);
    let q = if !remaining.is_empty() {
        remaining.top()
    } else {
        64
    };
    let mut ak_winners = Cards::new();
    ak_winners.add(a);
    ak_winners.add(k);
    let pd_has_k_strictly = pd_trumps.have(k) && pd_trumps.size() > 1;
    let my_has_k_strictly = my_trumps.have(k) && my_trumps.size() > 1;
    let lho_has_a = lho_trumps.have(a);
    let rho_has_a = rho_trumps.have(a);
    if (pd_has_k_strictly && lho_has_a) || (my_has_k_strictly && rho_has_a && (!leading
        || num_tricks >= 3)) {
        return (1, ak_winners);
    }
    if q < 64 && all_trumps.size() >= 5 {
        let mut akq_winners = ak_winners;
        akq_winners.add(q);
        let pd_has_q_with_length = pd_trumps.have(q) && pd_trumps.size() >= 3;
        let my_has_q_with_length = my_trumps.have(q) && my_trumps.size() >= 3;
        let lho_has_ak = lho_trumps.have(a) && lho_trumps.have(k);
        let rho_has_ak = rho_trumps.have(a) && rho_trumps.have(k);
        if (pd_has_q_with_length && lho_has_ak) || (my_has_q_with_length && rho_has_ak && (!leading
            || num_tricks >= 4)) {
            return (1, akq_winners);
        }
    }
    (0, Cards::new())
}

/// Each play records a seat, a winning play within the search and a card,
/// and at most one trick won for every four plays before it.
pub open spec fn play_ok(p: PlayState, i: int) -> bool {
    &&& p.seat_to_play < 4
    &&& p.winning_play < 53
    &&& p.card_played < 64
    &&& p.ns_tricks_won <= i / 4
}

/// The plays of a search: one per card of a deal and one past the end.
pub open spec fn plays_ok(plays: Seq<PlayState>) -> bool {
    &&& plays.len() == 53
    &&& forall|i: int| 0 <= i < 53 ==> play_ok(#[trigger] plays[i], i)
}

/// Every card held is one of the 52.
pub open spec fn in_deck(hands: Seq<Cards>) -> bool {
    forall|s: int, c: int| 0 <= s < 4 && #[trigger] hands[s].set().contains(c) ==> 0 <= c < 52
}

/// The search of one position: the hands as they stand, and what each card
/// and each trick played so far left behind.
pub struct Search {
    hands: Hands,
    trump: usize,
    num_tricks: usize,
    plays: Vec<PlayState>,
    tricks: Vec<Trick>,
    start_depth: usize,
    nodes_base: u64,
    nodes: u64,
}

/// The largest of four hand sizes.
pub open spec fn max_size(h: Seq<Cards>) -> nat {
    let a = popcount(h[0]@);
    let b = popcount(h[1]@);
    let c = popcount(h[2]@);
    let d = popcount(h[3]@);
    let ab = if a >= b { a } else { b };
    let cd = if c >= d { c } else { d };
    if ab >= cd { ab } else { cd }
}

/// A position the search can start from: at most thirteen cards a hand,
/// all of them real cards.
pub open spec fn valid_hands(h: Seq<Cards>) -> bool {
    &&& h.len() == 4
    &&& in_deck(h)
    &&& forall|s: int| 0 <= s < 4 ==> popcount(#[trigger] h[s]@) <= 13
}

/// Whether the search can start from `hands`: no hand holds more than
/// thirteen cards, and every card is one of the deck's.
pub fn valid_deal(hands: &Hands) -> (r: bool)
    ensures
        r == valid_hands(hands@),
{
    proof {
        hands.lemma_len();
    }
    let deck: u64 = 0x000f_ffff_ffff_ffffu64;
    proof {
        assert(0x000f_ffff_ffff_ffffu64 == ((1u64 << 52u64) - 1) as u64) by (bit_vector);
        crate::cards::lemma_cardset_low_mask(52);
    }
    let mut s: usize = 0;
    while s < 4
        invariant
            s <= 4,
            hands@.len() == 4,
            deck == crate::cards::low_mask(52),
            forall|t: int, c: int| 0 <= t < s && #[trigger] hands@[t].set().contains(c) ==> 0 <= c < 52,
            forall|t: int| 0 <= t < s ==> popcount(#[trigger] hands@[t]@) <= 13,
        decreases 4 - s,
    {
        let h = hands.hand(s);
        if h.size() > 13 {
            return false;
        }
        let outside = h.value() & !deck;
        proof {
            crate::cards::lemma_cardset_andnot(h@, deck);
            crate::cards::lemma_cardset_low_mask(52);
            crate::cards::lemma_cardset_zero();
        }
        if outside != 0 {
            proof {
                if forall|c: int| !#[trigger] cardset(outside).contains(c) {
                    assert(cardset(outside) =~= Set::<int>::empty());
                    crate::cards::lemma_cardset_injective(outside, 0);
                }
                let c = choose|c: int| #[trigger] cardset(outside).contains(c);
                assert(h.set().contains(c));
                assert(!in_deck(hands@));
            }
            return false;
        }
        proof {
            assert forall|c: int| #[trigger] hands@[s as int].set().contains(c) implies 0 <= c < 52 by {
                assert(!cardset(outside).contains(c));
            }
        }
        s += 1;
    }
    true
}

/// The cards of a trick in progress: at most three, by real seats, of
/// real cards.
pub open spec fn partial_ok(pt: PartialTrick) -> bool {
    &&& pt.plays@.len() <= 3
    &&& forall|i: int| 0 <= i < pt.plays@.len() ==> (#[trigger] pt.plays@[i]).seat < 4
        && pt.plays@[i].card < 52
}

impl Search {
    /// The number of tricks left to play.
    pub closed spec fn spec_num_tricks(&self) -> nat {
        self.num_tricks as nat
    }

    /// The hands as the search stands.
    pub closed spec fn spec_hands(&self) -> Seq<Cards> {
        self.hands@
    }

    /// The trump suit, or `NOTRUMP`.
    pub closed spec fn spec_trump(&self) -> usize {
        self.trump
    }

    /// Where the search starts: the cards already played to the trick.
    pub closed spec fn spec_start_depth(&self) -> nat {
        self.start_depth as nat
    }

    /// The seat on turn where the search starts.
    pub closed spec fn spec_on_turn(&self) -> usize {
        self.plays@[self.start_depth as int].seat_to_play
    }

    /// The cards already played to the trick, with their seats, in order.
    pub closed spec fn spec_played(&self) -> Seq<(usize, usize)> {
        self.plays@.take(self.start_depth as int).map_values(|p: PlayState| (p.card_played, p.seat_to_play))
    }

    /// The nodes visited so far.
    pub closed spec fn spec_nodes(&self) -> u64 {
        self.nodes
    }

    /// The count earlier searches of the same solve had reached.
    pub closed spec fn spec_nodes_base(&self) -> u64 {
        self.nodes_base
    }

    /// The state the search keeps is well formed.
    pub closed spec fn wf(&self) -> bool {
        &&& plays_ok(self.plays@)
        &&& self.tricks@.len() == 14
        &&& self.num_tricks <= 13
        &&& self.hands@.len() == 4
        &&& in_deck(self.hands@)
        &&& self.start_depth <= 3
        &&& self.start_depth < 4 * self.num_tricks || self.start_depth == 0
    }

    /// A search of `hands` with `initial_leader` on lead to an empty trick.
    pub fn new(hands: &Hands, trump: usize, initial_leader: Seat) -> (r: Search)
        requires
            valid_hands(hands@),
            initial_leader < NUM_SEATS,
        ensures
            r.wf(),
            r.spec_num_tricks() == max_size(hands@),
            r.spec_hands() == hands@,
            r.spec_trump() == trump,
            r.spec_nodes() == 0,
            r.spec_nodes_base() == 0,
            r.spec_start_depth() == 0,
            r.spec_on_turn() == initial_leader,
            r.spec_played() == Seq::<(usize, usize)>::empty(),
    {
        Self::new_with_partial_trick(hands, trump, initial_leader, None)
    }

    /// A search of `hands`, with the cards of `partial_trick` (taken out of
    /// the hands) already played to the first trick.
    pub fn new_with_partial_trick(
        hands: &Hands,
        trump: usize,
        initial_leader: Seat,
        partial_trick: Option<&PartialTrick>,
    ) -> (r: Search)
        requires
            valid_hands(hands@),
            initial_leader < NUM_SEATS,
            partial_trick matches Some(pt) ==> partial_ok(*pt) && (pt.plays@.len() > 0 ==> max_size(
                hands@,
            ) >= 1),
        ensures
            r.wf(),
            r.spec_num_tricks() == max_size(hands@),
            r.spec_hands() == hands@,
            r.spec_trump() == trump,
            r.spec_nodes() == 0,
            r.spec_nodes_base() == 0,
            partial_trick is None || partial_trick->0.plays@.len() == 0 ==> r.spec_start_depth() == 0
                && r.spec_on_turn() == initial_leader && r.spec_played() == Seq::<(usize, usize)>::empty(),
            partial_trick matches Some(pt) ==> (pt.plays@.len() > 0 ==> r.spec_start_depth() == pt.plays@.len()
                && r.spec_on_turn() == (pt.plays@.last().seat + 1) % 4 && r.spec_played() == pt.plays@.map_values(
                |q: PlayedCard| (q.card, q.seat),
            )),
    {
        let mut num_tricks: usize = 0;
        let mut s: usize = 0;
        while s < NUM_SEATS
            invariant
                s <= NUM_SEATS,
                hands@.len() == 4,
                num_tricks == (if s == 0 {
                    0
                } else if s == 1 {
                    popcount(hands@[0]@)
                } else if s == 2 {
                    let a = popcount(hands@[0]@);
                    let b = popcount(hands@[1]@);
                    if a >= b { a } else { b }
                } else if s == 3 {
                    let a = popcount(hands@[0]@);
                    let b = popcount(hands@[1]@);
                    let c = popcount(hands@[2]@);
                    let ab = if a >= b { a } else { b };
                    if ab >= c { ab } else { c }
                } else {
                    max_size(hands@)
                }),
            decreases NUM_SEATS - s,
        {
            let n = hands.hand(s).size();
            if n > num_tricks {
                num_tricks = n;
            }
            s += 1;
        }
        let mut plays: Vec<PlayState> = Vec::new();
        let mut i: usize = 0;
        while i < TOTAL_CARDS + 1
            invariant
                i <= TOTAL_CARDS + 1,
                plays@.len() == i,
                forall|j: int| 0 <= j < i ==> play_ok(#[trigger] plays@[j], j),
            decreases TOTAL_CARDS + 1 - i,
        {
            plays.push(PlayState::new());
            i += 1;
        }
        let mut tricks: Vec<Trick> = Vec::new();
        let mut t: usize = 0;
        while t < TOTAL_TRICKS + 1
            invariant
                t <= TOTAL_TRICKS + 1,
                tricks@.len() == t,
            decreases TOTAL_TRICKS + 1 - t,
        {
            tricks.push(Trick::new());
            t += 1;
        }
        let mut start_depth: usize = 0;
        match partial_trick {
            Some(pt) => {
                if pt.plays.len() == 0 {
                    let mut p = plays[0];
                    p.seat_to_play = initial_leader;
                    plays.set(0, p);
                } else {
                    let mut t0 = tricks[0];
                    t0.lead_suit = suit_of(pt.plays[0].card);
                    let mut all_cards = hands.all_cards();
                    let mut full_hands = *hands;
                    let mut k: usize = 0;
                    while k < pt.plays.len()
                        invariant
                            k <= pt.plays@.len(),
                            partial_ok(*pt),
                            full_hands@.len() == 4,
                        decreases pt.plays@.len() - k,
                    {
                        let played = pt.plays[k];
                        all_cards.add(played.card);
                        full_hands.hand_mut(played.seat).add(played.card);
                        proof {
                            full_hands.lemma_len();
                        }
                        k += 1;
                    }
                    t0.all_cards = all_cards;
                    t0.shape = Shape::from_hands(&full_hands);
                    t0.relative_hands.compute(&full_hands, all_cards);
                    tricks.set(0, t0);
                    let mut winning_play: usize = 0;
                    let mut winning_card = pt.plays[0].card;
                    let mut k: usize = 0;
                    while k < pt.plays.len()
                        invariant
                            k <= pt.plays@.len(),
                            partial_ok(*pt),
                            plays@.len() == 53,
                            winning_play < 3,
                            winning_card < 52,
                            forall|j: int| 0 <= j < 53 ==> play_ok(#[trigger] plays@[j], j),
                            forall|j: int|
                                0 <= j < k ==> (#[trigger] plays@[j]).card_played == pt.plays@[j].card
                                    && plays@[j].seat_to_play == pt.plays@[j].seat,
                        decreases pt.plays@.len() - k,
                    {
                        let played = pt.plays[k];
                        let mut p = plays[k];
                        p.seat_to_play = played.seat;
                        p.card_played = played.card;
                        p.ns_tricks_won = 0;
                        if k == 0 {
                            p.winning_play = 0;
                        } else {
                            let c1 = played.card;
                            let c2 = winning_card;
                            let s1 = suit_of(c1);
                            let s2 = suit_of(c2);
                            let card_wins = if s1 == s2 {
                                higher_rank(c1, c2)
                            } else if trump < NOTRUMP {
                                s1 == trump
                            } else {
                                false
                            };
                            if card_wins {
                                winning_play = k;
                                winning_card = played.card;
                            }
                            p.winning_play = winning_play;
                        }
                        plays.set(k, p);
                        k += 1;
                    }
                    let next_depth = pt.plays.len();
                    let last = pt.plays[next_depth - 1];
                    let mut p = plays[next_depth];
                    p.seat_to_play = next_seat(last.seat);
                    p.ns_tricks_won = 0;
                    p.winning_play = winning_play;
                    plays.set(next_depth, p);
                    start_depth = next_depth;
                    proof {
                        assert(plays@.take(start_depth as int).map_values(
                            |q: PlayState| (q.card_played, q.seat_to_play),
                        ) =~= pt.plays@.map_values(|q: PlayedCard| (q.card, q.seat)));
                    }
                }
            },
            None => {
                let mut p = plays[0];
                p.seat_to_play = initial_leader;
                plays.set(0, p);
            },
        }
        proof {
            if start_depth == 0 {
                assert(plays@.take(0).map_values(|q: PlayState| (q.card_played, q.seat_to_play))
                    =~= Seq::<(usize, usize)>::empty());
            }
        }
        Search { hands: *hands, trump, num_tricks, plays, tricks, start_depth, nodes_base: 0, nodes: 0 }
    }

    /// Count nodes on from `base`, the nodes of earlier probes of the same
    /// solve.
    pub fn set_nodes_base(&mut self, base: u64)
        requires
            old(self).wf(),
        ensures
            final(self).wf(),
            final(self).spec_num_tricks() == old(self).spec_num_tricks(),
            final(self).spec_nodes_base() == base,
            final(self).spec_nodes() == old(self).spec_nodes(),
    {
        self.nodes_base = base;
    }

    /// The nodes this search has visited.
    pub fn nodes(&self) -> (r: u64)
        ensures
            r == self.spec_nodes(),
    {
        self.nodes
    }

    /// One null-window probe: the tricks North-South take, exactly when it
    /// is below `beta`, and at least `beta` otherwise. The hands are as
    /// they were when it returns.
    pub fn search(
        &mut self,
        cutoff_cache: &mut CutoffCache,
        pattern_cache: &mut PatternCache,
        beta: i8,
    ) -> (r: u8)
        requires
            old(self).wf(),
            old(cutoff_cache).wf(),
            old(pattern_cache).wf(),
            -115 <= beta,
        ensures
            final(self).wf(),
            final(self).spec_num_tricks() == old(self).spec_num_tricks(),
            final(cutoff_cache).wf(),
            final(pattern_cache).wf(),
            r <= old(self).spec_num_tricks(),
            final(self).spec_trump() == old(self).spec_trump(),
            final(self).spec_hands() == old(self).spec_hands(),
    {
        let depth = self.start_depth;
        let result = self.search_with_cache(cutoff_cache, pattern_cache, depth, beta);
        result.ns_tricks
    }

    /// The tricks North-South had won before the card at `depth`, as the
    /// search at `depth` starts from them.
    pub closed spec fn base_ns(&self, depth: int) -> int {
        if depth == 0 {
            self.plays@[0].ns_tricks_won as int
        } else {
            self.plays@[depth - 1].ns_tricks_won as int
        }
    }

    /// The tricks still open when the card before `depth` was played.
    pub closed spec fn span(&self, depth: int) -> int {
        if depth == 0 {
            self.num_tricks as int
        } else {
            self.num_tricks - (depth - 1) / 4
        }
    }

    /// The search at `depth`, with the trick bookkeeping a new trick needs,
    /// and the bounds cache read before and written after.
    fn search_with_cache(
        &mut self,
        cutoff_cache: &mut CutoffCache,
        pattern_cache: &mut PatternCache,
        depth: usize,
        beta: i8,
    ) -> (r: SearchResult)
        requires
            old(self).wf(),
            old(cutoff_cache).wf(),
            old(pattern_cache).wf(),
            -115 <= beta,
            depth <= 4 * old(self).num_tricks,
            depth % 4 != 0 ==> depth < 4 * old(self).num_tricks,
        ensures
            final(self).hands@ == old(self).hands@,
            final(self).wf(),
            final(self).num_tricks == old(self).num_tricks,
            final(self).trump == old(self).trump,
            final(self).start_depth == old(self).start_depth,
            final(cutoff_cache).wf(),
            final(pattern_cache).wf(),
            forall|i: int| 0 <= i < depth ==> #[trigger] final(self).plays@[i] == old(self).plays@[i],
            forall|j: int| 0 <= j < 14 && 4 * j < depth ==> #[trigger] final(self).tricks@[j] == old(self).tricks@[j],
            old(self).base_ns(depth as int) <= r.ns_tricks <= old(self).base_ns(depth as int)
                + old(self).span(depth as int),
        decreases 53 - depth, 3int,
    {
        let trick_idx = depth / 4;
        let card_in_trick = depth % 4;
        if card_in_trick != 0 {
            let prev = self.plays[depth - 1];
            let mut p = self.plays[depth];
            p.ns_tricks_won = prev.ns_tricks_won;
            p.seat_to_play = next_seat(prev.seat_to_play);
            self.plays.set(depth, p);
            return self.evaluate_playable_cards(cutoff_cache, pattern_cache, depth, beta);
        }
        if depth > 0 {
            let prev = self.plays[depth - 1];
            let prev_winner_seat = self.plays[prev.winning_play].seat_to_play;
            let ns_won: u8 = if is_ns(prev_winner_seat) {
                1
            } else {
                0
            };
            let mut p = self.plays[depth];
            p.ns_tricks_won = prev.ns_tricks_won + ns_won;
            p.seat_to_play = prev_winner_seat;
            self.plays.set(depth, p);
        }
        let ns_tricks_won = self.plays[depth].ns_tricks_won;
        let seat_to_play = self.plays[depth].seat_to_play;
        if ns_tricks_won as i8 >= beta {
            return SearchResult { ns_tricks: ns_tricks_won, rank_winners: Cards::new() };
        }
        let remaining = self.num_tricks - trick_idx;
        if (ns_tricks_won as usize + remaining) < beta as usize {
            return SearchResult {
                ns_tricks: ns_tricks_won + remaining as u8,
                rank_winners: Cards::new(),
            };
        }
        if remaining == 1 {
            return self.collect_last_trick(depth);
        }
        let all_cards = self.hands.all_cards();
        let mut t = self.tricks[trick_idx];
        t.all_cards = all_cards;
        if depth == 0 {
            t.shape = Shape::from_hands(&self.hands);
            t.relative_hands.compute(&self.hands, all_cards);
        } else {
            let prev_t = self.tricks[trick_idx - 1];
            let mut shape = prev_t.shape;
            let prev_start = (trick_idx - 1) * 4;
            let c1 = self.plays[prev_start].card_played;
            let c2 = self.plays[prev_start + 1].card_played;
            let c3 = self.plays[prev_start + 2].card_played;
            let c4 = self.plays[prev_start + 3].card_played;
            let prev_leader = self.plays[prev_start].seat_to_play;
            shape.play_cards(prev_leader, c1, c2, c3, c4);
            t.shape = shape;
            t.relative_hands = prev_t.relative_hands;
            t.relative_hands.update(&self.hands, prev_t.all_cards, all_cards);
        }
        self.tricks.set(trick_idx, t);
        let shape_value = t.shape.value();
        let mut pattern_cutoff = false;
        let rel_beta = beta - ns_tricks_won as i8;
        match pattern_cache.lookup(shape_value, seat_to_play) {
            Some(entry) => {
                let new_pattern = Pattern::new(t.relative_hands.hands, Bounds::new(0, remaining as i8));
                proof {
                    t.relative_hands.hands.lemma_len();
                }
                match entry.lookup(&new_pattern, rel_beta) {
                    Some((matched_hands, bounds)) => {
                        // A bound past the tricks left cannot belong to this
                        // shape; it is only used when it fits.
                        if bounds.lower <= remaining as i8 && bounds.upper <= remaining as i8 {
                            let matched_pattern = Pattern::new(matched_hands, bounds);
                            let rank_winners = matched_pattern.get_rank_winners(all_cards);
                            let adj_lower = bounds.lower + ns_tricks_won as i8;
                            let adj_upper = bounds.upper + ns_tricks_won as i8;
                            if adj_lower >= beta {
                                return SearchResult { ns_tricks: adj_lower as u8, rank_winners };
                            }
                            if adj_upper < beta {
                                return SearchResult { ns_tricks: adj_upper as u8, rank_winners };
                            }
                            pattern_cutoff = true;
                        }
                    },
                    None => {},
                }
            },
            None => {},
        }
        let result = self.search_at_trick_start(cutoff_cache, pattern_cache, depth, beta);
        if !pattern_cutoff {
            let relative_tricks = result.ns_tricks as i8 - ns_tricks_won as i8;
            let bounds = if (result.ns_tricks as i8) < beta {
                Bounds::new(0, relative_tricks)
            } else {
                Bounds::new(relative_tricks, remaining as i8)
            };
            let (pattern_hands, extended_rank_winners) = compute_pattern_hands(
                &t.relative_hands.hands,
                all_cards,
                result.rank_winners,
            );
            let new_pattern = Pattern::new(pattern_hands, bounds);
            proof {
                pattern_hands.lemma_len();
            }
            let entry = pattern_cache.get_or_create(shape_value, seat_to_play);
            entry.pattern.update(new_pattern);
            return SearchResult { ns_tricks: result.ns_tricks, rank_winners: extended_rank_winners };
        }
        result
    }

    /// The search at the start of a trick, after the quick trick counts had
    /// their chance to settle it.
    fn search_at_trick_start(
        &mut self,
        cutoff_cache: &mut CutoffCache,
        pattern_cache: &mut PatternCache,
        depth: usize,
        beta: i8,
    ) -> (r: SearchResult)
        requires
            old(self).wf(),
            old(cutoff_cache).wf(),
            old(pattern_cache).wf(),
            -115 <= beta,
            depth % 4 == 0,
            depth / 4 + 2 <= old(self).num_tricks,
        ensures
            final(self).hands@ == old(self).hands@,
            final(self).wf(),
            final(self).num_tricks == old(self).num_tricks,
            final(self).trump == old(self).trump,
            final(self).start_depth == old(self).start_depth,
            final(cutoff_cache).wf(),
            final(pattern_cache).wf(),
            forall|i: int| 0 <= i < depth ==> #[trigger] final(self).plays@[i] == old(self).plays@[i],
            forall|j: int| 0 <= j < 14 && 4 * j < depth ==> #[trigger] final(self).tricks@[j] == old(self).tricks@[j],
            old(self).plays@[depth as int].ns_tricks_won <= r.ns_tricks
                <= old(self).plays@[depth as int].ns_tricks_won + old(self).num_tricks - depth / 4,
        decreases 53 - depth, 2int,
    {
        let trick_idx = depth / 4;
        let ns_tricks_won = self.plays[depth].ns_tricks_won;
        let seat_to_play = self.plays[depth].seat_to_play;
        let remaining = self.num_tricks - trick_idx;
        let (fast0, fast_rank_winners0) = self.fast_tricks(depth);
        let (fast, fast_rank_winners) = if fast0 == 0 && self.trump != NOTRUMP {
            self.slow_trump_tricks_own(depth)
        } else {
            (fast0, fast_rank_winners0)
        };
        if is_ns(seat_to_play) && ns_tricks_won as usize + fast >= beta as usize {
            return SearchResult {
                ns_tricks: (ns_tricks_won as usize + fast) as u8,
                rank_winners: fast_rank_winners,
            };
        }
        if !is_ns(seat_to_play) && (ns_tricks_won as usize + remaining - fast) < beta as usize {
            return SearchResult {
                ns_tricks: (ns_tricks_won as usize + remaining - fast) as u8,
                rank_winners: fast_rank_winners,
            };
        }
        let all_cards = self.hands.all_cards();
        let has_trumps = self.trump < NOTRUMP && !all_cards.suit(self.trump).is_empty();
        let (slow, slow_rank_winners) = if has_trumps {
            let (top, top_rw) = self.top_trump_tricks_opponent(depth);
            if top > 0 {
                (top, top_rw)
            } else {
                self.slow_trump_tricks_opponent(depth)
            }
        } else {
            self.slow_tricks_opponent(depth)
        };
        // A count past the tricks left cannot come from a legal position.
        if slow > 0 && slow <= remaining {
            if is_ns(seat_to_play) {
                if (ns_tricks_won as usize + remaining - slow) < beta as usize {
                    return SearchResult {
                        ns_tricks: (ns_tricks_won as usize + remaining - slow) as u8,
                        rank_winners: slow_rank_winners,
                    };
                }
            } else {
                if ns_tricks_won as usize + slow >= beta as usize {
                    return SearchResult {
                        ns_tricks: (ns_tricks_won as usize + slow) as u8,
                        rank_winners: slow_rank_winners,
                    };
                }
            }
        }
        self.evaluate_playable_cards(cutoff_cache, pattern_cache, depth, beta)
    }

    /// Try the playable cards in order, best first, skipping those no better
    /// than one already tried, until one settles the probe.
    fn evaluate_playable_cards(
        &mut self,
        cutoff_cache: &mut CutoffCache,
        pattern_cache: &mut PatternCache,
        depth: usize,
        beta: i8,
    ) -> (r: SearchResult)
        requires
            old(self).wf(),
            old(cutoff_cache).wf(),
            old(pattern_cache).wf(),
            -115 <= beta,
            depth < 4 * old(self).num_tricks,
        ensures
            final(self).hands@ == old(self).hands@,
            final(self).wf(),
            final(self).num_tricks == old(self).num_tricks,
            final(self).trump == old(self).trump,
            final(self).start_depth == old(self).start_depth,
            final(cutoff_cache).wf(),
            final(pattern_cache).wf(),
            forall|i: int| 0 <= i < depth ==> #[trigger] final(self).plays@[i] == old(self).plays@[i],
            forall|j: int| 0 <= j < 14 && 4 * j < depth ==> #[trigger] final(self).tricks@[j] == old(self).tricks@[j],
            old(self).plays@[depth as int].ns_tricks_won <= r.ns_tricks
                <= old(self).plays@[depth as int].ns_tricks_won + old(self).num_tricks - depth / 4,
        decreases 53 - depth, 1int,
    {
        proof {
            crate::cards::lemma_cardset_zero();
        }
        self.nodes = self.nodes.saturating_add(1);
        let trick_idx = depth / 4;
        let card_in_trick = depth % 4;
        let ns_tricks_won = self.plays[depth].ns_tricks_won;
        let seat_to_play = self.plays[depth].seat_to_play;
        let maximizing = is_ns(seat_to_play);
        let lead_suit: Option<usize> = if card_in_trick == 0 {
            None
        } else {
            Some(self.tricks[trick_idx].lead_suit)
        };
        let playable = get_playable_cards(&self.hands, seat_to_play, lead_suit);
        if playable.is_empty() {
            return SearchResult { ns_tricks: ns_tricks_won, rank_winners: Cards::new() };
        }
        let mut ordered_cards = OrderedCards::new();
        let (winning_card, winning_seat) = if card_in_trick > 0 {
            let winning_play_idx = self.plays[depth - 1].winning_play;
            (self.plays[winning_play_idx].card_played, self.plays[winning_play_idx].seat_to_play)
        } else {
            (0, 0)
        };
        let all_cards = self.tricks[trick_idx].all_cards;
        let lead_suit_for_cutoff = match lead_suit {
            Some(s) => s,
            None => 0,
        };
        let (cutoff_hash, _key0, _key1) = build_cutoff_index_debug(
            &self.hands,
            seat_to_play,
            card_in_trick,
            lead_suit_for_cutoff,
            winning_card,
            winning_seat,
            self.trump,
            all_cards,
        );
        let cutoff_card = cutoff_cache.lookup(cutoff_hash, seat_to_play);
        let mut remaining_playable = playable;
        let has_cutoff = match cutoff_card {
            Some(cc) => {
                if playable.have(cc) {
                    ordered_cards.add(cc);
                    remaining_playable.remove(cc);
                    true
                } else {
                    false
                }
            },
            None => false,
        };
        if !has_cutoff {
            Self::order_cards_static(
                &mut ordered_cards,
                depth,
                remaining_playable,
                &self.plays,
                &self.tricks,
                &self.hands,
                self.trump,
            );
            remaining_playable = Cards::new();
        }
        let my_hand = self.hands.hand(seat_to_play);
        let ghost rem = self.num_tricks - depth / 4;
        let mut best: u8 = if maximizing {
            0
        } else {
            self.num_tricks as u8
        };
        let mut tried_cards = Cards::new();
        let mut rank_winners = Cards::new();
        let mut min_relevant_ranks: [usize; 4] = [0, 0, 0, 0];
        let mut i: usize = 0;
        while i < ordered_cards.len()
            invariant
                self.wf(),
                cutoff_cache.wf(),
                pattern_cache.wf(),
                -115 <= beta,
                depth < 4 * self.num_tricks,
                self.num_tricks == old(self).num_tricks,
                self.trump == old(self).trump,
                self.start_depth == old(self).start_depth,
                forall|j: int| 0 <= j < depth ==> #[trigger] self.plays@[j] == old(self).plays@[j],
                self.plays@[depth as int].ns_tricks_won == ns_tricks_won,
                self.plays@[depth as int].seat_to_play == seat_to_play,
                ns_tricks_won == old(self).plays@[depth as int].ns_tricks_won,
                ns_tricks_won <= depth / 4,
                seat_to_play < 4,
                rem == self.num_tricks - depth / 4,
                ordered_cards@.len() >= 1,
                i <= ordered_cards@.len(),
                forall|k: int| 0 <= k < ordered_cards@.len() ==> #[trigger] playable.set().contains(
                    ordered_cards@[k] as int,
                ),
                remaining_playable.set().subset_of(playable.set()),
                playable.set().subset_of(old(self).hands@[seat_to_play as int].set()),
                in_deck(old(self).hands@),
                self.hands@ == old(self).hands@,
                lead_suit matches Some(s) ==> follows_suit(playable, s as int),
                lead_suit matches Some(s) ==> s == old(self).tricks@[(depth / 4) as int].lead_suit,
                forall|j: int| 0 <= j < 14 && 4 * j < depth ==> #[trigger] self.tricks@[j] == old(self).tricks@[j],
                lead_suit is None <==> depth % 4 == 0,
                i == 0 ==> tried_cards@ == 0 && min_relevant_ranks@ == seq![0usize, 0usize, 0usize, 0usize],
                i > 0 ==> ns_tricks_won <= best <= ns_tricks_won + rem,
                i == 0 ==> best == (if maximizing { 0 } else { self.num_tricks }),
                maximizing == spec_is_ns(seat_to_play as int),
                !maximizing ==> best <= self.num_tricks,
            decreases (if remaining_playable@ == 0 { 0int } else { 1int }), ordered_cards@.len() - i,
        {
            let card = ordered_cards.card(i);
            proof {
                crate::cards::lemma_cardset_zero();
                assert(playable.set().contains(card as int));
                assert(old(self).hands@[seat_to_play as int].set().contains(card as int));
            }
            let suit = suit_of(card);
            let rank = rank_of(card);
            if rank < min_relevant_ranks[suit] {
                tried_cards.add(card);
                if !remaining_playable.is_empty() {
                    Self::order_cards_static(
                        &mut ordered_cards,
                        depth,
                        remaining_playable,
                        &self.plays,
                        &self.tricks,
                        &self.hands,
                        self.trump,
                    );
                    remaining_playable = Cards::new();
                }
                i += 1;
                continue;
            }
            proof {
                crate::cards::lemma_word_facts(suit_mask(suit as int), 0, 0);
            }
            if is_equivalent(card, tried_cards.suit(suit), my_hand, all_cards) {
                tried_cards.add(card);
                if !remaining_playable.is_empty() {
                    Self::order_cards_static(
                        &mut ordered_cards,
                        depth,
                        remaining_playable,
                        &self.plays,
                        &self.tricks,
                        &self.hands,
                        self.trump,
                    );
                    remaining_playable = Cards::new();
                }
                i += 1;
                continue;
            }
            tried_cards.add(card);
            let branch_result = self.play_card_and_search(cutoff_cache, pattern_cache, depth, card, beta);
            let score = branch_result.ns_tricks;
            let branch_rank_winners = branch_result.rank_winners;
            if maximizing {
                if score > best {
                    best = score;
                }
                if best as i8 >= beta {
                    let repeat = match cutoff_card {
                        Some(cc) => cc == card,
                        None => false,
                    };
                    if !repeat {
                        cutoff_cache.store(cutoff_hash, seat_to_play, card);
                    }
                    return SearchResult { ns_tricks: best, rank_winners: branch_rank_winners };
                }
            } else {
                if score < best {
                    best = score;
                }
                if (best as i8) < beta {
                    let repeat = match cutoff_card {
                        Some(cc) => cc == card,
                        None => false,
                    };
                    if !repeat {
                        cutoff_cache.store(cutoff_hash, seat_to_play, card);
                    }
                    return SearchResult { ns_tricks: best, rank_winners: branch_rank_winners };
                }
            }
            rank_winners.add_cards(branch_rank_winners);
            let suit_rank_winners = branch_rank_winners.suit(suit);
            if suit_rank_winners.is_empty() {
                min_relevant_ranks[suit] = NUM_RANKS;
            } else {
                let bottom_winner = suit_rank_winners.bottom();
                let bottom_rank = rank_of(bottom_winner);
                if rank < bottom_rank {
                    if bottom_rank > min_relevant_ranks[suit] {
                        min_relevant_ranks[suit] = bottom_rank;
                    }
                }
            }
            if !remaining_playable.is_empty() {
                Self::order_cards_static(
                    &mut ordered_cards,
                    depth,
                    remaining_playable,
                    &self.plays,
                    &self.tricks,
                    &self.hands,
                    self.trump,
                );
                remaining_playable = Cards::new();
            }
            i += 1;
        }
        SearchResult { ns_tricks: best, rank_winners }
    }

    /// Play `card` at `depth`, search what follows, and take it back.
    fn play_card_and_search(
        &mut self,
        cutoff_cache: &mut CutoffCache,
        pattern_cache: &mut PatternCache,
        depth: usize,
        card: usize,
        beta: i8,
    ) -> (r: SearchResult)
        requires
            old(self).hands@[old(self).plays@[depth as int].seat_to_play as int].set().contains(card as int),
            old(self).wf(),
            old(cutoff_cache).wf(),
            old(pattern_cache).wf(),
            -115 <= beta,
            depth < 4 * old(self).num_tricks,
            card < 52,
        ensures
            final(self).hands@ == old(self).hands@,
            final(self).wf(),
            final(self).num_tricks == old(self).num_tricks,
            final(self).trump == old(self).trump,
            final(self).start_depth == old(self).start_depth,
            final(cutoff_cache).wf(),
            final(pattern_cache).wf(),
            forall|i: int| 0 <= i < depth ==> #[trigger] final(self).plays@[i] == old(self).plays@[i],
            forall|j: int| 0 <= j < 14 && 4 * j < depth ==> #[trigger] final(self).tricks@[j] == old(self).tricks@[j],
            final(self).plays@[depth as int].ns_tricks_won == old(self).plays@[depth as int].ns_tricks_won,
            final(self).plays@[depth as int].seat_to_play == old(self).plays@[depth as int].seat_to_play,
            old(self).plays@[depth as int].ns_tricks_won <= r.ns_tricks
                <= old(self).plays@[depth as int].ns_tricks_won + old(self).num_tricks - depth / 4,
        decreases 53 - depth, 0int,
    {
        let trick_idx = depth / 4;
        let card_in_trick = depth % 4;
        let seat_to_play = self.plays[depth].seat_to_play;
        let mut p = self.plays[depth];
        p.card_played = card;
        {
            let hand = self.hands.hand_mut(seat_to_play);
            hand.remove(card);
        }
        if card_in_trick == 0 {
            let mut t = self.tricks[trick_idx];
            t.lead_suit = suit_of(card);
            self.tricks.set(trick_idx, t);
            p.winning_play = depth;
        } else {
            let current_winner_idx = self.plays[depth - 1].winning_play;
            let current_winner_card = self.plays[current_winner_idx].card_played;
            if self.wins_over(card, current_winner_card, self.tricks[trick_idx].lead_suit) {
                p.winning_play = depth;
            } else {
                p.winning_play = current_winner_idx;
            }
        }
        self.plays.set(depth, p);
        let mut result = self.search_with_cache(cutoff_cache, pattern_cache, depth + 1, beta);
        if card_in_trick == 3 {
            let winning_play_idx = self.plays[depth].winning_play;
            let winning_card = self.plays[winning_play_idx].card_played;
            let winning_suit = suit_of(winning_card);
            let trick_start = depth - 3;
            let mut has_same_suit = false;
            let mut d = trick_start;
            while d <= depth && !has_same_suit
                invariant
                    self.wf(),
                    trick_start <= d <= depth + 1,
                    depth < 52,
                decreases depth + 1 - d,
            {
                if d != winning_play_idx && suit_of(self.plays[d].card_played) == winning_suit {
                    has_same_suit = true;
                }
                d += 1;
            }
            if has_same_suit {
                result.rank_winners.add(winning_card);
            }
        }
        let ghost before = old(self).hands@[seat_to_play as int];
        {
            let hand = self.hands.hand_mut(seat_to_play);
            hand.add(card);
        }
        proof {
            let after = self.hands@[seat_to_play as int];
            assert(after.set() =~= before.set());
            crate::cards::lemma_cardset_injective(after@, before@);
            Cards::lemma_eq(after, before);
            assert(self.hands@ =~= old(self).hands@);
        }
        result
    }

    /// Tricks this side can cash in one suit: the winners of both hands,
    /// as far as entries and blockages allow. Notes in `pd_entry` when this
    /// hand's top winner can overtake partner's lowest card.
    fn suit_fast_tricks(
        my_suit: Cards,
        my_winners: usize,
        pd_suit: Cards,
        pd_winners: usize,
        pd_entry: &mut bool,
    ) -> (r: usize)
        requires
            my_winners <= 13,
            pd_winners <= 13,
            my_winners > 0 ==> my_suit@ != 0,
        ensures
            r <= my_winners + pd_winners,
            r == spec_suit_fast_tricks(my_suit@, my_winners as int, pd_suit@, pd_winners as int),
            *final(pd_entry) == (*old(pd_entry) || spec_gives_entry(my_suit@, my_winners as int, pd_suit@)),
    {
        if !pd_suit.is_empty() && my_winners > 0 && higher_rank(my_suit.top(), pd_suit.bottom()) {
            *pd_entry = true;
        }
        if pd_winners == 0 {
            return my_winners;
        }
        if my_winners == 0 {
            return if !my_suit.is_empty() {
                pd_winners
            } else {
                0
            };
        }
        if !pd_suit.is_empty() && lower_rank(my_suit.top(), pd_suit.bottom()) {
            return pd_winners;
        }
        if !pd_suit.is_empty() && higher_rank(my_suit.bottom(), pd_suit.top()) {
            return my_winners;
        }
        let adjusted_pd_winners = if pd_winners == pd_suit.size() && pd_winners > 0 {
            pd_winners - 1
        } else {
            pd_winners
        };
        let a = my_suit.size();
        let b = my_winners + adjusted_pd_winners;
        if a < b {
            a
        } else {
            b
        }
    }

    /// Top trumps of `seat` and partner that win by force, with the trumps
    /// that do it.
    fn top_trump_tricks_our_side(&self, seat: Seat, all_cards: Cards) -> (r: (usize, Cards))
        requires
            self.wf(),
            seat < NUM_SEATS,
        ensures
            r.0 <= 64,
            ({
                let t = spec_top_tricks(
                    self.trumps_of(seat as int),
                    self.trumps_of((seat + 2) % 4),
                    all_cards@ & suit_mask(self.trump as int),
                );
                r.0 == t.0 && r.1@ == t.1
            }),
    {
        let my_trumps = self.hands.hand(seat).suit(self.trump);
        let pd_trumps = self.hands.hand(partner(seat)).suit(self.trump);
        let all_trumps = all_cards.suit(self.trump);
        if my_trumps == all_trumps {
            return (my_trumps.size(), Cards::new());
        }
        if pd_trumps == all_trumps {
            return (pd_trumps.size(), Cards::new());
        }
        proof {
            if my_trumps@ == all_trumps@ {
                Cards::lemma_eq(my_trumps, all_trumps);
            }
            if pd_trumps@ == all_trumps@ {
                Cards::lemma_eq(pd_trumps, all_trumps);
            }
        }
        Self::top_run(my_trumps, pd_trumps, all_trumps)
    }

    /// The unbroken run of `all`'s top cards held between `a` and `b`, up to
    /// the longer holding's length.
    fn top_run(a: Cards, b: Cards, all: Cards) -> (r: (usize, Cards))
        ensures
            r.0 <= 64,
            ({
                let cap = if popcount(a@) >= popcount(b@) { popcount(a@) } else { popcount(b@) };
                let t = spec_top_run(a@ | b@, all@, cap as int);
                r.0 == t.0 && r.1@ == t.1
            }),
    {
        let both = a.union(b);
        let sa = a.size();
        let sb = b.size();
        let max_tricks = if sa >= sb {
            sa
        } else {
            sb
        };
        let ghost whole = spec_top_run(both@, all@, max_tricks as int);
        let mut sure_tricks: usize = 0;
        let mut rank_winners = Cards::new();
        let mut rem = all;
        let mut stop = false;
        proof {
            crate::cards::lemma_word_facts(whole.1, 0, 0);
        }
        while !rem.is_empty() && !stop
            invariant
                sure_tricks <= max_tricks,
                max_tricks <= 64,
                whole == spec_top_run(both@, all@, max_tricks as int),
                !stop ==> ({
                    let t = spec_top_run(both@, rem@, max_tricks - sure_tricks);
                    sure_tricks + t.0 == whole.0 && (rank_winners@ | t.1) == whole.1
                }),
                stop ==> sure_tricks == whole.0 && rank_winners@ == whole.1,
            decreases rem@,
        {
            let card = rem.top();
            let ghost before = rem@;
            let ghost rw0 = rank_winners@;
            rem.remove(card);
            proof {
                crate::bridge_solver::lemma_remove_set_bit_smaller(before, card as u64);
            }
            if both.have(card) && sure_tricks < max_tricks {
                sure_tricks += 1;
                rank_winners.add(card);
                proof {
                    let t = spec_top_run(both@, rem@, max_tricks - sure_tricks);
                    let bt = 1u64 << (card as u64);
                    assert(spec_top_run(both@, before, max_tricks - (sure_tricks - 1)) == (t.0 + 1, t.1 | bt));
                    let x = t.1;
                    assert((rw0 | bt) | x == rw0 | (x | bt)) by (bit_vector);
                }
            } else {
                proof {
                    lemma_word_or_zero(rank_winners@);
                }
                stop = true;
            }
        }
        proof {
            if !stop {
                lemma_word_or_zero(rank_winners@);
            }
        }
        (sure_tricks, rank_winners)
    }

    /// Tricks `seat`'s side can take at once: top trumps, and the winners
    /// it can cash in the side suits, from partner's hand too when there is
    /// an entry to it.
    #[verifier::spinoff_prover]
    #[verifier::rlimit(60)]
    fn fast_tricks_from_seat(&self, seat: Seat, all_cards: Cards) -> (r: (usize, Cards))
        requires
            self.wf(),
            seat < NUM_SEATS,
        ensures
            r.0 <= 200,
            r.0 == self.fast_from_seat(seat as int, all_cards@).0,
            r.1@ == self.fast_from_seat(seat as int, all_cards@).1,
    {
        let my_hand = self.hands.hand(seat);
        let pd_hand = self.hands.hand(partner(seat));
        let lho_hand = self.hands.hand(left_hand_opp(seat));
        let rho_hand = self.hands.hand(right_hand_opp(seat));
        let (trump_tricks, rank_winners0) = if self.trump < NOTRUMP {
            self.top_trump_tricks_our_side(seat, all_cards)
        } else {
            (0, Cards::new())
        };
        let ghost tt1 = rank_winners0@;
        let mut rank_winners = rank_winners0;
        let mut pd_rank_winners = Cards::new();
        let mut my_tricks: usize = 0;
        let mut pd_tricks: usize = 0;
        let mut my_entry = false;
        let mut pd_entry = false;
        let mut suit: usize = 0;
        proof {
            lemma_or_facts(tt1, 0, 0);
        }
        while suit < NUM_SUITS
            invariant
                self.wf(),
                suit <= NUM_SUITS,
                seat < 4,
                my_tricks <= 26 * suit,
                pd_tricks <= 26 * suit,
                my_hand == self.hands@[seat as int],
                pd_hand == self.hands@[(seat + 2) % 4],
                lho_hand == self.hands@[(seat + 1) % 4],
                rho_hand == self.hands@[(seat + 3) % 4],
                ({
                    let f = self.fast_fold(seat as int, all_cards@, suit as int);
                    &&& my_tricks == f.0
                    &&& pd_tricks == f.1
                    &&& my_entry == f.2
                    &&& pd_entry == f.3
                    &&& rank_winners@ == tt1 | f.4
                    &&& pd_rank_winners@ == f.5
                }),
            decreases NUM_SUITS - suit,
        {
            let ghost f0 = self.fast_fold(seat as int, all_cards@, suit as int);
            if self.trump < NOTRUMP && suit == self.trump {
                proof {
                    lemma_or_facts(tt1, f0.4, 0);
                    lemma_or_facts(f0.5, 0, 0);
                    lemma_or_facts(f0.4, 0, 0);
                }
                suit += 1;
                continue;
            }
            let mut my_suit = my_hand.suit(suit);
            let mut pd_suit = pd_hand.suit(suit);
            let lho_suit = lho_hand.suit(suit);
            let rho_suit = rho_hand.suit(suit);
            let all_suit = all_cards.suit(suit);
            if my_suit.is_empty() && pd_suit.is_empty() {
                proof {
                    lemma_or_facts(tt1, f0.4, 0);
                    lemma_or_facts(f0.5, 0, 0);
                    lemma_or_facts(f0.4, 0, 0);
                }
                suit += 1;
                continue;
            }
            let my_max_rank_winners = Self::max3(pd_suit.size(), lho_suit.size(), rho_suit.size());
            let pd_max_rank_winners = Self::max3(my_suit.size(), lho_suit.size(), rho_suit.size());
            if self.trump < NOTRUMP {
                let mut max_suit_winners = self.num_tricks;
                if !lho_hand.suit(self.trump).is_empty() {
                    max_suit_winners = lho_suit.size();
                }
                if !rho_hand.suit(self.trump).is_empty() {
                    let r = rho_suit.size();
                    if r < max_suit_winners {
                        max_suit_winners = r;
                    }
                }
                proof {
                    assert(max_suit_winners == spec_suit_cap(
                        lho_hand@,
                        rho_hand@,
                        lho_suit@,
                        rho_suit@,
                        self.trump as int,
                        self.num_tricks as int,
                    ));
                }
                my_suit = Self::truncate(my_suit, max_suit_winners);
                pd_suit = Self::truncate(pd_suit, max_suit_winners);
            }
            let ghost mmax = my_max_rank_winners as int;
            let ghost pmax = pd_max_rank_winners as int;
            let ghost w = spec_suit_winners(my_suit@, pd_suit@, all_suit@, mmax, pmax, 0, 0);
            let ghost rws = rank_winners@;
            let ghost prws = pd_rank_winners@;
            let mut my_winners: usize = 0;
            let mut pd_winners: usize = 0;
            let mut rem = all_suit;
            let mut stop = false;
            proof {
                crate::cards::lemma_suit_count(all_cards@, suit as int);
            }
            while !rem.is_empty() && !stop
                invariant
                    my_winners + pd_winners + popcount(rem@) <= 13,
                    my_winners > 0 ==> my_suit@ != 0,
                    pd_winners > 0 ==> pd_suit@ != 0,
                    mmax == my_max_rank_winners,
                    pmax == pd_max_rank_winners,
                    w == spec_suit_winners(my_suit@, pd_suit@, all_suit@, mmax, pmax, 0, 0),
                    !stop ==> ({
                        let t = spec_suit_winners(
                            my_suit@,
                            pd_suit@,
                            rem@,
                            mmax,
                            pmax,
                            my_winners as int,
                            pd_winners as int,
                        );
                        &&& t.0 == w.0
                        &&& t.1 == w.1
                        &&& (rank_winners@ | t.2) == (rws | w.2)
                        &&& (pd_rank_winners@ | t.3) == (prws | w.3)
                    }),
                    stop ==> my_winners == w.0 && pd_winners == w.1 && rank_winners@ == (rws | w.2)
                        && pd_rank_winners@ == (prws | w.3),
                decreases rem@,
            {
                let card = rem.top();
                let ghost before = rem@;
                let ghost rw_b = rank_winners@;
                let ghost prw_b = pd_rank_winners@;
                let ghost mw_b = my_winners as int;
                let ghost pw_b = pd_winners as int;
                rem.remove(card);
                proof {
                    crate::bridge_solver::lemma_remove_set_bit_smaller(before, card as u64);
                    crate::cards::lemma_popcount_remove(before, card as u64);
                }
                if my_suit.have(card) {
                    proof {
                        if my_suit@ == 0 {
                            crate::cards::lemma_cardset_zero();
                        }
                    }
                    my_winners += 1;
                    if my_winners <= my_max_rank_winners {
                        rank_winners.add(card);
                    }
                    proof {
                        let t = spec_suit_winners(my_suit@, pd_suit@, rem@, mmax, pmax, mw_b + 1, pw_b);
                        lemma_or_facts(rw_b, 1u64 << (card as u64), t.2);
                    }
                } else if pd_suit.have(card) {
                    proof {
                        if pd_suit@ == 0 {
                            crate::cards::lemma_cardset_zero();
                        }
                    }
                    pd_winners += 1;
                    if pd_winners <= pd_max_rank_winners {
                        pd_rank_winners.add(card);
                    }
                    proof {
                        let t = spec_suit_winners(my_suit@, pd_suit@, rem@, mmax, pmax, mw_b, pw_b + 1);
                        lemma_or_facts(prw_b, 1u64 << (card as u64), t.3);
                    }
                } else {
                    proof {
                        lemma_or_facts(rw_b, 0, 0);
                        lemma_or_facts(prw_b, 0, 0);
                    }
                    stop = true;
                }
            }
            proof {
                if !stop {
                    lemma_or_facts(rank_winners@, 0, 0);
                    lemma_or_facts(pd_rank_winners@, 0, 0);
                }
                lemma_or_facts(tt1, f0.4, w.2);
            }
            my_tricks = my_tricks + Self::suit_fast_tricks(
                my_suit,
                my_winners,
                pd_suit,
                pd_winners,
                &mut my_entry,
            );
            pd_tricks = pd_tricks + Self::suit_fast_tricks(
                pd_suit,
                pd_winners,
                my_suit,
                my_winners,
                &mut pd_entry,
            );
            suit += 1;
        }
        let side_suit_tricks = if pd_entry {
            rank_winners = rank_winners.union(pd_rank_winners);
            if my_tricks >= pd_tricks {
                my_tricks
            } else {
                pd_tricks
            }
        } else {
            my_tricks
        };
        (trump_tricks + side_suit_tricks, rank_winners)
    }

    /// The largest of three counts.
    fn max3(a: usize, b: usize, c: usize) -> (r: usize)
        ensures
            r >= a && r >= b && r >= c,
            r == a || r == b || r == c,
    {
        let ab = if a >= b {
            a
        } else {
            b
        };
        if ab >= c {
            ab
        } else {
            c
        }
    }

    /// `cards` with its lowest cards dropped until at most `n` are left.
    fn truncate(cards: Cards, n: usize) -> (r: Cards)
        ensures
            r@ == spec_truncate(cards@, n as int),
            r.set().subset_of(cards.set()),
            popcount(r@) == (if popcount(cards@) <= n { popcount(cards@) } else { n as nat }),
            forall|x: int, y: int|
                #[trigger] cards.set().contains(x) && !r.set().contains(x) && #[trigger] r.set().contains(y)
                    ==> y < x,
    {
        let mut c = cards;
        let ghost mut removed: nat = 0;
        while c.size() > n
            invariant
                c.set().subset_of(cards.set()),
                popcount(cards@) <= n ==> c == cards,
                popcount(cards@) > n ==> popcount(c@) >= n,
                c@ == drop_lowest(cards@, removed),
                popcount(c@) + removed == popcount(cards@),
                forall|x: int, y: int|
                    #[trigger] cards.set().contains(x) && !c.set().contains(x) && #[trigger] c.set().contains(y)
                        ==> y < x,
            decreases popcount(c@),
        {
            let b = c.bottom();
            let ghost before = c;
            c.remove(b);
            proof {
                removed = removed + 1;
                crate::cards::lemma_popcount_remove(before@, b as u64);
                assert(before.set().contains(b as int));
                assert forall|x: int, y: int|
                    #[trigger] cards.set().contains(x) && !c.set().contains(x) && #[trigger] c.set().contains(y)
                        implies y < x by {
                    assert(before.set().contains(y));
                    if x != b {
                        assert(!before.set().contains(x));
                    }
                }
            }
        }
        c
    }

    /// Fast tricks for the side on lead at `depth`, at most what its hand
    /// and the deal have left.
    fn fast_tricks(&self, depth: usize) -> (r: (usize, Cards))
        requires
            self.wf(),
            depth < 53,
            depth / 4 <= self.num_tricks,
        ensures
            r.0 <= self.num_tricks - depth / 4,
            ({
                let seat = self.plays@[depth as int].seat_to_play as int;
                let raw = self.fast_from_seat(seat, union_word(self.hands@));
                let size = popcount(self.hands@[seat]@) as int;
                let capped = if raw.0 < size { raw.0 } else { size };
                let left = self.num_tricks - depth / 4;
                &&& r.0 == (if capped < left { capped } else { left })
                &&& r.1@ == raw.1
            }),
    {
        let seat_to_play = self.plays[depth].seat_to_play;
        let all_cards = self.hands.all_cards();
        let trick_idx = depth / 4;
        let max_tricks = self.num_tricks - trick_idx;
        let (raw, rank_winners) = self.fast_tricks_from_seat(seat_to_play, all_cards);
        let size = self.hands.hand(seat_to_play).size();
        let capped = if raw < size {
            raw
        } else {
            size
        };
        let result = if capped < max_tricks {
            capped
        } else {
            max_tricks
        };
        (result, rank_winners)
    }

    /// Top trumps of the opponents of the side on lead that win by force.
    fn top_trump_tricks_opponent(&self, depth: usize) -> (r: (usize, Cards))
        requires
            self.wf(),
            depth < 53,
        ensures
            ({
                let s = self.plays@[depth as int].seat_to_play as int;
                let t = spec_top_tricks(self.trumps_of((s + 1) % 4), self.trumps_of((s + 3) % 4), self.all_trumps());
                r.0 == t.0 && r.1@ == t.1
            }),
    {
        let seat_to_play = self.plays[depth].seat_to_play;
        let lho_trumps = self.hands.hand(left_hand_opp(seat_to_play)).suit(self.trump);
        let rho_trumps = self.hands.hand(right_hand_opp(seat_to_play)).suit(self.trump);
        let all_trumps = self.hands.all_cards().suit(self.trump);
        if lho_trumps == all_trumps {
            return (lho_trumps.size(), Cards::new());
        }
        if rho_trumps == all_trumps {
            return (rho_trumps.size(), Cards::new());
        }
        proof {
            if lho_trumps@ == all_trumps@ {
                Cards::lemma_eq(lho_trumps, all_trumps);
            }
            if rho_trumps@ == all_trumps@ {
                Cards::lemma_eq(rho_trumps, all_trumps);
            }
        }
        Self::top_run(lho_trumps, rho_trumps, all_trumps)
    }

    /// One side suit `s` of the fast tricks from `seat`, with `all` the cards
    /// in play: the tricks this hand and partner can cash there, whether
    /// each gives the other an entry, and the rank winners of each.
    spec fn fast_suit(&self, seat: int, all: u64, s: int) -> (int, int, bool, bool, u64, u64) {
        let m = suit_mask(s);
        let my0 = self.hands@[seat]@ & m;
        let pd0 = self.hands@[(seat + 2) % 4]@ & m;
        let lho_hand = self.hands@[(seat + 1) % 4]@;
        let rho_hand = self.hands@[(seat + 3) % 4]@;
        let lho = lho_hand & m;
        let rho = rho_hand & m;
        if (self.trump < NOTRUMP && s == self.trump) || (my0 == 0 && pd0 == 0) {
            (0, 0, false, false, 0u64, 0u64)
        } else {
            let mmax = spec_max3(popcount(pd0) as int, popcount(lho) as int, popcount(rho) as int);
            let pmax = spec_max3(popcount(my0) as int, popcount(lho) as int, popcount(rho) as int);
            let cap = spec_suit_cap(lho_hand, rho_hand, lho, rho, self.trump as int, self.num_tricks as int);
            let my = if self.trump < NOTRUMP { spec_truncate(my0, cap) } else { my0 };
            let pd = if self.trump < NOTRUMP { spec_truncate(pd0, cap) } else { pd0 };
            let w = spec_suit_winners(my, pd, all & m, mmax, pmax, 0, 0);
            (
                spec_suit_fast_tricks(my, w.0, pd, w.1),
                spec_suit_fast_tricks(pd, w.1, my, w.0),
                spec_gives_entry(my, w.0, pd),
                spec_gives_entry(pd, w.1, my),
                w.2,
                w.3,
            )
        }
    }

    /// [`Search::fast_suit`] summed over the first `n` suits.
    spec fn fast_fold(&self, seat: int, all: u64, n: int) -> (int, int, bool, bool, u64, u64)
        decreases n,
    {
        if n <= 0 {
            (0, 0, false, false, 0u64, 0u64)
        } else {
            let a = self.fast_fold(seat, all, n - 1);
            let b = self.fast_suit(seat, all, n - 1);
            (a.0 + b.0, a.1 + b.1, a.2 || b.2, a.3 || b.3, a.4 | b.4, a.5 | b.5)
        }
    }

    /// The fast tricks of `seat`'s side: its top trumps, and its side-suit
    /// tricks, counting partner's too (the better of the two hands) when
    /// this hand can reach partner's; with their rank winners.
    spec fn fast_from_seat(&self, seat: int, all: u64) -> (int, u64) {
        let tt = if self.trump < NOTRUMP {
            spec_top_tricks(
                self.trumps_of(seat),
                self.trumps_of((seat + 2) % 4),
                all & suit_mask(self.trump as int),
            )
        } else {
            (0, 0u64)
        };
        let f = self.fast_fold(seat, all, 4);
        if f.3 {
            (tt.0 + (if f.0 >= f.1 { f.0 } else { f.1 }), (tt.1 | f.4) | f.5)
        } else {
            (tt.0 + f.0, tt.1 | f.4)
        }
    }

    /// The trumps still held by `seat`.
    spec fn trumps_of(&self, seat: int) -> u64 {
        self.hands@[seat]@ & suit_mask(self.trump as int)
    }

    /// The trumps still out, in all four hands.
    spec fn all_trumps(&self) -> u64 {
        union_word(self.hands@) & suit_mask(self.trump as int)
    }

    /// The opponents' slow trump tricks, as the defence to the side on lead.
    fn slow_trump_tricks_opponent(&self, depth: usize) -> (r: (usize, Cards))
        requires
            self.wf(),
            depth < 53,
            depth / 4 <= self.num_tricks,
        ensures
            r.0 <= 1,
            ({
                let s = self.plays@[depth as int].seat_to_play as int;
                &&& r.0 == spec_slow_trump_tricks(
                    self.all_trumps(),
                    self.trumps_of((s + 1) % 4),
                    self.trumps_of((s + 3) % 4),
                    self.trumps_of((s + 2) % 4),
                    self.trumps_of(s),
                    self.num_tricks - depth / 4,
                    false,
                )
                &&& r.1@ == spec_slow_trump_winners(
                    self.all_trumps(),
                    self.trumps_of((s + 1) % 4),
                    self.trumps_of((s + 3) % 4),
                    self.trumps_of((s + 2) % 4),
                    self.trumps_of(s),
                    self.num_tricks - depth / 4,
                    false,
                )
            }),
    {
        let s = self.plays[depth].seat_to_play;
        self.slow_trump_tricks_roles(depth, left_hand_opp(s), right_hand_opp(s), partner(s), s, false)
    }

    /// The slow trump tricks of the side on lead itself.
    fn slow_trump_tricks_own(&self, depth: usize) -> (r: (usize, Cards))
        requires
            self.wf(),
            depth < 53,
            depth / 4 <= self.num_tricks,
        ensures
            r.0 <= 1,
            ({
                let s = self.plays@[depth as int].seat_to_play as int;
                &&& r.0 == spec_slow_trump_tricks(
                    self.all_trumps(),
                    self.trumps_of(s),
                    self.trumps_of((s + 2) % 4),
                    self.trumps_of((s + 1) % 4),
                    self.trumps_of((s + 3) % 4),
                    self.num_tricks - depth / 4,
                    true,
                )
                &&& r.1@ == spec_slow_trump_winners(
                    self.all_trumps(),
                    self.trumps_of(s),
                    self.trumps_of((s + 2) % 4),
                    self.trumps_of((s + 1) % 4),
                    self.trumps_of((s + 3) % 4),
                    self.num_tricks - depth / 4,
                    true,
                )
            }),
    {
        let s = self.plays[depth].seat_to_play;
        self.slow_trump_tricks_roles(depth, s, partner(s), left_hand_opp(s), right_hand_opp(s), true)
    }

    /// Slow trump tricks with the four roles given: the hand and partner
    /// whose trump honour may score, and the two hands holding the higher
    /// ones.
    fn slow_trump_tricks_roles(
        &self,
        depth: usize,
        my: Seat,
        pd: Seat,
        lho: Seat,
        rho: Seat,
        leading: bool,
    ) -> (r: (usize, Cards))
        requires
            self.wf(),
            my < 4,
            pd < 4,
            lho < 4,
            rho < 4,
            depth / 4 <= self.num_tricks,
        ensures
            r.0 <= 1,
            r.0 == spec_slow_trump_tricks(
                self.all_trumps(),
                self.trumps_of(my as int),
                self.trumps_of(pd as int),
                self.trumps_of(lho as int),
                self.trumps_of(rho as int),
                self.num_tricks - depth / 4,
                leading,
            ),
            r.1@ == spec_slow_trump_winners(
                self.all_trumps(),
                self.trumps_of(my as int),
                self.trumps_of(pd as int),
                self.trumps_of(lho as int),
                self.trumps_of(rho as int),
                self.num_tricks - depth / 4,
                leading,
            ),
    {
        let all_trumps = self.hands.all_cards().suit(self.trump);
        let my_trumps = self.hands.hand(my).suit(self.trump);
        let pd_trumps = self.hands.hand(pd).suit(self.trump);
        let lho_trumps = self.hands.hand(lho).suit(self.trump);
        let rho_trumps = self.hands.hand(rho).suit(self.trump);
        let num_tricks = self.num_tricks - depth / 4;
        slow_trump_count(all_trumps, my_trumps, pd_trumps, lho_trumps, rho_trumps, num_tricks, leading)
    }

    /// Notrump slow tricks of the opponents of the side on lead: where they
    /// hold the top card of every suit the hand on lead holds, one trick, or
    /// all of them when one opponent holds them all.
    fn slow_tricks_opponent(&self, depth: usize) -> (r: (usize, Cards))
        requires
            self.wf(),
            depth < 53,
        ensures
            ({
                let s = self.plays@[depth as int].seat_to_play as int;
                let t = spec_slow_tricks_nt(
                    self.hands@[s]@,
                    self.hands@[s]@ | self.hands@[(s + 2) % 4]@,
                    self.hands@[(s + 1) % 4]@,
                    self.hands@[(s + 3) % 4]@,
                    union_word(self.hands@),
                );
                r.0 == t.0 && r.1@ == t.1
            }),
    {
        let seat_to_play = self.plays[depth].seat_to_play;
        let lho_hand = self.hands.hand(left_hand_opp(seat_to_play));
        let rho_hand = self.hands.hand(right_hand_opp(seat_to_play));
        let my_hand = self.hands.hand(seat_to_play);
        let pd_hand = self.hands.hand(partner(seat_to_play));
        let my_side_cards = my_hand.union(pd_hand);
        let all_cards = self.hands.all_cards();
        let mut rank_winners = Cards::new();
        let mut suit: usize = 0;
        while suit < NUM_SUITS
            invariant
                suit <= NUM_SUITS,
                spec_opponent_tops(my_hand@, my_side_cards@, all_cards@, suit as int) == Some(rank_winners@),
                seat_to_play == self.plays@[depth as int].seat_to_play,
                seat_to_play < 4,
                my_hand == self.hands@[seat_to_play as int],
                my_side_cards@ == self.hands@[seat_to_play as int]@ | self.hands@[(seat_to_play + 2) % 4]@,
                all_cards@ == union_word(self.hands@),
            decreases NUM_SUITS - suit,
        {
            if !my_hand.suit(suit).is_empty() {
                let all_suit = all_cards.suit(suit);
                if !all_suit.is_empty() {
                    let top = all_suit.top();
                    if my_side_cards.have(top) {
                        proof {
                            assert(spec_opponent_tops(my_hand@, my_side_cards@, all_cards@, suit as int + 1) is None);
                            lemma_opponent_tops_none(my_hand@, my_side_cards@, all_cards@, suit as int + 1, 4);
                            assert(spec_opponent_tops(my_hand@, my_side_cards@, all_cards@, 4) is None);
                            assert(all_cards@ == union_word(self.hands@));
                            assert(my_side_cards@ == self.hands@[seat_to_play as int]@ | self.hands@[(seat_to_play + 2) % 4]@);
                        }
                        return (0, Cards::new());
                    }
                    rank_winners.add(top);
                }
            }
            suit += 1;
        }
        if rank_winners.is_empty() {
            return (0, Cards::new());
        }
        if lho_hand.includes(rank_winners) || rho_hand.includes(rank_winners) {
            (rank_winners.size(), rank_winners)
        } else {
            (1, rank_winners)
        }
    }

    /// Whether `c1` beats `c2`: higher in the same suit, or a trump against
    /// a card of another suit.
    fn wins_over(&self, c1: usize, c2: usize, lead_suit: usize) -> (r: bool)
        ensures
            r == (if spec_suit_of(c1 as int) == spec_suit_of(c2 as int) {
                c1 < c2
            } else {
                self.trump < 4 && spec_suit_of(c1 as int) == self.trump
            }),
    {
        let s1 = suit_of(c1);
        let s2 = suit_of(c2);
        if s1 == s2 {
            return higher_rank(c1, c2);
        }
        if self.trump < NOTRUMP {
            if s1 == self.trump {
                return true;
            }
            if s2 == self.trump {
                return false;
            }
        }
        false
    }

    /// The last trick plays itself: each hand's one card.
    fn collect_last_trick(&self, depth: usize) -> (r: SearchResult)
        requires
            self.wf(),
            depth < 53,
        ensures
            r.ns_tricks == self.plays@[depth as int].ns_tricks_won || r.ns_tricks
                == self.plays@[depth as int].ns_tricks_won + 1,
    {
        let ns_tricks_won = self.plays[depth].ns_tricks_won;
        let seat_to_play = self.plays[depth].seat_to_play;
        let mut winning_card = self.hands.hand(seat_to_play).top();
        let mut winning_seat = seat_to_play;
        let lead = suit_of(self.hands.hand(seat_to_play).top());
        let mut i: usize = 1;
        while i < 4
            invariant
                self.wf(),
                seat_to_play < 4,
                winning_seat < 4,
                1 <= i <= 4,
            decreases 4 - i,
        {
            let seat = (seat_to_play + i) % NUM_SEATS;
            let card = self.hands.hand(seat).top();
            if self.wins_over(card, winning_card, lead) {
                winning_card = card;
                winning_seat = seat;
            }
            i += 1;
        }
        let ns_tricks = if is_ns(winning_seat) {
            ns_tricks_won + 1
        } else {
            ns_tricks_won
        };
        let mut rank_winners = Cards::new();
        let winning_suit = suit_of(winning_card);
        let mut has_same_suit = false;
        let mut i: usize = 0;
        while i < 4 && !has_same_suit
            invariant
                self.wf(),
                seat_to_play < 4,
                i <= 4,
            decreases 4 - i,
        {
            let seat = (seat_to_play + i) % NUM_SEATS;
            let card = self.hands.hand(seat).top();
            if card != winning_card && suit_of(card) == winning_suit {
                has_same_suit = true;
            }
            i += 1;
        }
        if has_same_suit {
            rank_winners.add(winning_card);
        }
        SearchResult { ns_tricks, rank_winners }
    }

    /// Put the cards of `playable` after those already in `ordered_cards`,
    /// in the order the move-ordering rules give for this place in the
    /// trick.
    fn order_cards_static(
        ordered_cards: &mut OrderedCards,
        depth: usize,
        playable: Cards,
        plays: &Vec<PlayState>,
        tricks: &Vec<Trick>,
        hands: &Hands,
        trump: usize,
    )
        requires
            plays_ok(plays@),
            tricks@.len() == 14,
            depth < 52,
            hands@.len() == 4,
            depth % 4 != 0 ==> follows_suit(playable, tricks@[(depth / 4) as int].lead_suit as int),
        ensures
            final(ordered_cards)@.len() >= old(ordered_cards)@.len(),
            forall|k: int|
                0 <= k < old(ordered_cards)@.len() ==> #[trigger] final(ordered_cards)@[k] == old(
                    ordered_cards,
                )@[k],
            forall|k: int|
                old(ordered_cards)@.len() <= k < final(ordered_cards)@.len()
                    ==> #[trigger] playable.set().contains(final(ordered_cards)@[k] as int),
            playable@ != 0 ==> final(ordered_cards)@.len() > old(ordered_cards)@.len(),
    {
        let trick_idx = depth / 4;
        let card_in_trick = depth % 4;
        let seat_to_play = plays[depth].seat_to_play;
        let all_cards = tricks[trick_idx].all_cards;
        let ordered = if card_in_trick == 0 {
            order_leads(playable, hands, seat_to_play, trump, all_cards)
        } else {
            let lead_suit = tricks[trick_idx].lead_suit;
            let winning_play_idx = plays[depth - 1].winning_play;
            let winning_seat = plays[winning_play_idx].seat_to_play;
            let winning_card = plays[winning_play_idx].card_played;
            let wins_over = |c1: usize, c2: usize| -> bool
                {
                    let s1 = suit_of(c1);
                    let s2 = suit_of(c2);
                    if s1 == s2 {
                        c1 < c2
                    } else if s1 == trump {
                        true
                    } else {
                        false
                    }
                };
            order_follows(
                playable,
                hands,
                seat_to_play,
                trump,
                lead_suit,
                winning_seat,
                winning_card,
                card_in_trick,
                wins_over,
            )
        };
        proof {
            if playable@ != 0 {
                crate::cards::lemma_cardset_zero();
                if forall|c: int| !playable.set().contains(c) {
                    assert(playable.set() =~= Set::<int>::empty());
                    crate::cards::lemma_cardset_injective(playable@, 0);
                }
                let c = choose|c: int| playable.set().contains(c);
                assert(seq_cards(ordered@).contains(c));
            }
        }
        let ghost start = ordered_cards@;
        let mut j: usize = 0;
        while j < ordered.len()
            invariant
                j <= ordered@.len(),
                orders(ordered@, playable),
                ordered_cards@.len() == start.len() + j,
                forall|k: int| 0 <= k < start.len() ==> #[trigger] ordered_cards@[k] == start[k],
                forall|k: int|
                    start.len() <= k < ordered_cards@.len() ==> #[trigger] playable.set().contains(
                        ordered_cards@[k] as int,
                    ),
            decreases ordered@.len() - j,
        {
            let c = ordered.card(j);
            proof {
                assert(seq_cards(ordered@).contains(ordered@[j as int] as int));
                assert(playable.set().contains(c as int));
            }
            ordered_cards.add(c);
            j += 1;
        }
    }
}

/// The digest of one cutoff entry through its first `k` seats' cards.
pub open spec fn entry_digest_fold(hash: u64, cards: Seq<u8>, k: int) -> u64
    decreases k,
{
    if k <= 0 {
        spec_mix(hash)
    } else {
        let card = cards[k - 1];
        let c: u64 = if (card as usize) < TOTAL_CARDS {
            card as u64
        } else {
            64
        };
        spec_mix(entry_digest_fold(hash, cards, k - 1) ^ spec_mix((c << 8u64) | ((k - 1) as u64)))
    }
}

/// The live slots among the first `n` of a cutoff cache, and the exclusive
/// or of their digests.
pub open spec fn cutoff_digest_fold(slots: Seq<(u64, Seq<u8>)>, n: int) -> (nat, u64)
    decreases n,
{
    if n <= 0 {
        (0, 0)
    } else {
        let (count, digest) = cutoff_digest_fold(slots, n - 1);
        let (hash, cards) = slots[n - 1];
        if hash == 0 {
            (count, digest)
        } else {
            (count + 1, digest ^ entry_digest_fold(hash, cards, 4))
        }
    }
}

} // verus!
