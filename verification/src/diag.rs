//! The text formats of the diagnostic tool: its input files put West and
//! East on one line, it names strains and seats by letter, draws hands with
//! suit symbols, and takes a cache window as `start:end:step`.

use vstd::prelude::*;
use crate::cards::{Cards, bit, card_of, spec_card_of, suit_mask, cardset, lemma_cardset_and, lemma_suit_mask};
use crate::text::{chars_of, string_of, trim, spec_trim, push_all, join, spec_ascii_upper};
use crate::types::{
    NOTRUMP, SPADE, HEART, DIAMOND, CLUB, WEST, NORTH, EAST, SOUTH, NUM_RANKS, rank_char, spec_rank_char,
};

verus! {

/// Where the West and East hands of a line part: at a tab after the first
/// character, or at a run of four or more spaces after it; scanning from
/// `i`. The result is where West ends and where East begins.
pub open spec fn split_point(s: Seq<char>, i: int) -> Option<(int, int)>
    decreases s.len() - i,
{
    if i < 0 || i >= s.len() {
        None
    } else if s[i] == '\t' && i > 0 {
        Some((i, i))
    } else if s[i] == ' ' {
        let j = space_run_end(s, i);
        if i > 0 && j - i >= 4 {
            Some((i, j))
        } else {
            proof {
                lemma_space_run_end(s, i);
            }
            split_point(s, j)
        }
    } else {
        split_point(s, i + 1)
    }
}

/// The end of the run of spaces starting at `i`.
pub open spec fn space_run_end(s: Seq<char>, i: int) -> int
    decreases s.len() - i,
{
    if i < 0 || i >= s.len() || s[i] != ' ' {
        i
    } else {
        space_run_end(s, i + 1)
    }
}

/// A run of spaces ends after its first space, and within the text.
pub proof fn lemma_space_run_end(s: Seq<char>, i: int)
    requires
        0 <= i < s.len(),
        s[i] == ' ',
    ensures
        i < space_run_end(s, i) <= s.len(),
    decreases s.len() - i,
{
    assert(space_run_end(s, i) == space_run_end(s, i + 1));
    if i + 1 < s.len() && s[i + 1] == ' ' {
        lemma_space_run_end(s, i + 1);
    } else {
        assert(space_run_end(s, i + 1) == i + 1);
    }
}

/// The West and East hands of a line, each trimmed.
pub open spec fn spec_split_west_east(line: Seq<char>) -> Option<(Seq<char>, Seq<char>)> {
    match split_point(line, 0) {
        None => None,
        Some((w, e)) => Some((spec_trim(line.take(w)), spec_trim(line.skip(e)))),
    }
}

fn slice_chars(v: &Vec<char>, from: usize, to: usize) -> (r: Vec<char>)
    requires
        from <= to <= v@.len(),
    ensures
        r@ == v@.subrange(from as int, to as int),
{
    let mut r: Vec<char> = Vec::new();
    let mut i: usize = from;
    while i < to
        invariant
            from <= i <= to <= v@.len(),
            r@ == v@.subrange(from as int, i as int),
        decreases to - i,
    {
        r.push(v[i]);
        proof {
            assert(r@ =~= v@.subrange(from as int, i + 1));
        }
        i += 1;
    }
    r
}

/// Split a line holding the West and East hands into the two, at a tab or
/// at a run of four or more spaces that does not start the line.
pub fn split_west_east(line: &str) -> (r: Option<(String, String)>)
    ensures
        match r {
            None => spec_split_west_east(line@) is None,
            Some((w, e)) => spec_split_west_east(line@) == Some((w@, e@)),
        },
{
    let s = chars_of(line);
    let n = s.len();
    let mut i: usize = 0;
    while i < n
        invariant
            i <= n == s@.len(),
            s@ == line@,
            split_point(s@, 0) == split_point(s@, i as int),
        decreases n - i,
    {
        if s[i] == '\t' && i > 0 {
            let west = trim(&slice_chars(&s, 0, i));
            let east = trim(&slice_chars(&s, i, n));
            proof {
                assert(s@.subrange(0, i as int) =~= s@.take(i as int));
                assert(s@.subrange(i as int, n as int) =~= s@.skip(i as int));
                assert(split_point(s@, i as int) == Some((i as int, i as int)));
            }
            let w = string_of(&west);
            let e = string_of(&east);
            proof {
                assert(spec_split_west_east(line@) == Some((w@, e@)));
            }
            return Some((w, e));
        }
        if s[i] == ' ' {
            let start = i;
            proof {
                lemma_space_run_end(s@, i as int);
            }
            while i < n && s[i] == ' '
                invariant
                    start <= i <= n == s@.len(),
                    s@[start as int] == ' ',
                    space_run_end(s@, start as int) == space_run_end(s@, i as int),
                decreases n - i,
            {
                i += 1;
            }
            if start > 0 && i - start >= 4 {
                let west = trim(&slice_chars(&s, 0, start));
                let east = trim(&slice_chars(&s, i, n));
                proof {
                    assert(s@.subrange(0, start as int) =~= s@.take(start as int));
                    assert(s@.subrange(i as int, n as int) =~= s@.skip(i as int));
                    assert(split_point(s@, start as int) == Some((start as int, i as int)));
                }
                let w = string_of(&west);
                let e = string_of(&east);
                proof {
                    assert(spec_split_west_east(line@) == Some((w@, e@)));
                }
                return Some((w, e));
            }
        } else {
            i += 1;
        }
    }
    None
}

/// The letter of a strain: `N`, `S`, `H`, `D` or `C`, and `?` for no strain.
pub open spec fn spec_trump_char(trump: int) -> char {
    if trump == NOTRUMP {
        'N'
    } else if trump == SPADE {
        'S'
    } else if trump == HEART {
        'H'
    } else if trump == DIAMOND {
        'D'
    } else if trump == CLUB {
        'C'
    } else {
        '?'
    }
}

/// The letter of a strain.
pub fn trump_to_char(trump: usize) -> (r: char)
    ensures
        r == spec_trump_char(trump as int),
{
    if trump == NOTRUMP {
        'N'
    } else if trump == SPADE {
        'S'
    } else if trump == HEART {
        'H'
    } else if trump == DIAMOND {
        'D'
    } else if trump == CLUB {
        'C'
    } else {
        '?'
    }
}

/// The strain a letter names, in either case.
pub open spec fn spec_trump_of_letter(c: char) -> Option<usize> {
    let u = spec_ascii_upper(c);
    if u == 'N' {
        Some(NOTRUMP)
    } else if u == 'S' {
        Some(SPADE)
    } else if u == 'H' {
        Some(HEART)
    } else if u == 'D' {
        Some(DIAMOND)
    } else if u == 'C' {
        Some(CLUB)
    } else {
        None
    }
}

/// The strain a letter names, in either case. Any other letter is refused.
pub fn parse_trump(c: char) -> (r: usize)
    requires
        spec_trump_of_letter(c) is Some,
    ensures
        Some(r) == spec_trump_of_letter(c),
{
    let u = crate::text::ascii_upper(c);
    if u == 'N' {
        NOTRUMP
    } else if u == 'S' {
        SPADE
    } else if u == 'H' {
        HEART
    } else if u == 'D' {
        DIAMOND
    } else {
        CLUB
    }
}

/// The seat a letter names, in either case.
pub open spec fn spec_seat_of_letter(c: char) -> Option<usize> {
    let u = spec_ascii_upper(c);
    if u == 'W' {
        Some(WEST)
    } else if u == 'N' {
        Some(NORTH)
    } else if u == 'E' {
        Some(EAST)
    } else if u == 'S' {
        Some(SOUTH)
    } else {
        None
    }
}

/// The seat a letter names, in either case. Any other letter is refused.
pub fn parse_seat(c: char) -> (r: usize)
    requires
        spec_seat_of_letter(c) is Some,
    ensures
        Some(r) == spec_seat_of_letter(c),
{
    let u = crate::text::ascii_upper(c);
    if u == 'W' {
        WEST
    } else if u == 'N' {
        NORTH
    } else if u == 'E' {
        EAST
    } else {
        SOUTH
    }
}

/// The ranks of `suit` held in `v`, for the `k` ranks from the ace down.
pub open spec fn suit_ranks(v: u64, suit: int, k: int) -> Seq<char>
    decreases k,
{
    if k <= 0 {
        Seq::empty()
    } else {
        let rank = 13 - k;
        let rest = suit_ranks(v, suit, k - 1);
        if bit(v, spec_card_of(suit, rank)) {
            rest.push(spec_rank_char(rank))
        } else {
            rest
        }
    }
}

/// A suit of a hand written from the ace down, `-` for a void.
pub open spec fn spec_suit_text(v: u64, suit: int) -> Seq<char> {
    let r = suit_ranks(v, suit, 13);
    if r.len() == 0 {
        seq!['-']
    } else {
        r
    }
}

/// The cards of `suit` in `cards`, from the ace down (`"AKT2"`), or `"-"`.
pub fn format_suit_cards(cards: Cards, suit: usize) -> (r: String)
    requires
        suit < 4,
    ensures
        r@ == spec_suit_text(cards@, suit as int),
{
    let mut s: Vec<char> = Vec::new();
    let mut k: usize = 0;
    while k < NUM_RANKS
        invariant
            k <= 13,
            suit < 4,
            s@ == suit_ranks(cards@, suit as int, k as int),
        decreases 13 - k,
    {
        let rank = 12 - k;
        if cards.have(card_of(suit, rank)) {
            s.push(rank_char(rank));
        }
        k += 1;
    }
    if s.len() == 0 {
        s.push('-');
        proof {
            assert(s@ =~= seq!['-']);
        }
    }
    string_of(&s)
}

/// The symbol a suit is drawn with.
pub open spec fn suit_symbol(suit: int) -> char {
    if suit == SPADE {
        '\u{2660}'
    } else if suit == HEART {
        '\u{2665}'
    } else if suit == DIAMOND {
        '\u{2666}'
    } else {
        '\u{2663}'
    }
}

/// A hand drawn suit by suit, spades first: each suit's symbol, a space,
/// and its cards, the suits parted by spaces.
pub open spec fn spec_hand_text(v: u64) -> Seq<char> {
    join(
        seq![
            seq![suit_symbol(SPADE as int), ' '] + spec_suit_text(v, SPADE as int),
            seq![suit_symbol(HEART as int), ' '] + spec_suit_text(v, HEART as int),
            seq![suit_symbol(DIAMOND as int), ' '] + spec_suit_text(v, DIAMOND as int),
            seq![suit_symbol(CLUB as int), ' '] + spec_suit_text(v, CLUB as int),
        ],
        seq![' '],
    )
}

fn symbol(suit: usize) -> (r: char)
    ensures
        r == suit_symbol(suit as int),
{
    if suit == SPADE {
        '\u{2660}'
    } else if suit == HEART {
        '\u{2665}'
    } else if suit == DIAMOND {
        '\u{2666}'
    } else {
        '\u{2663}'
    }
}

/// A hand drawn with suit symbols: `"♠ AK2 ♥ - ♦ QJ ♣ T98"`.
pub fn format_hand_with_suits(cards: Cards) -> (r: String)
    ensures
        r@ == spec_hand_text(cards@),
{
    let mut out: Vec<char> = Vec::new();
    let order: [usize; 4] = [SPADE, HEART, DIAMOND, CLUB];
    let ghost parts = seq![
        seq![suit_symbol(SPADE as int), ' '] + spec_suit_text(cards@, SPADE as int),
        seq![suit_symbol(HEART as int), ' '] + spec_suit_text(cards@, HEART as int),
        seq![suit_symbol(DIAMOND as int), ' '] + spec_suit_text(cards@, DIAMOND as int),
        seq![suit_symbol(CLUB as int), ' '] + spec_suit_text(cards@, CLUB as int),
    ];
    let mut i: usize = 0;
    while i < 4
        invariant
            i <= 4,
            order@ == seq![SPADE, HEART, DIAMOND, CLUB],
            parts.len() == 4,
            forall|k: int| 0 <= k < 4 ==> #[trigger] parts[k] == seq![suit_symbol(order@[k] as int), ' ']
                + spec_suit_text(cards@, order@[k] as int),
            out@ == join(parts.take(i as int), seq![' ']),
        decreases 4 - i,
    {
        proof {
            assert(parts.take(i as int + 1) =~= parts.take(i as int).push(parts[i as int]));
            crate::text::lemma_join_push(parts.take(i as int), parts[i as int], seq![' ']);
        }
        if i > 0 {
            out.push(' ');
        }
        let suit = order[i];
        out.push(symbol(suit));
        out.push(' ');
        let text = format_suit_cards(cards.suit(suit), suit);
        push_all(&mut out, &chars_of(text.as_str()));
        proof {
            lemma_suit_text_of_suit(cards@, suit as int);
            assert(out@ =~= join(parts.take(i as int + 1), seq![' ']));
        }
        i += 1;
    }
    proof {
        assert(parts.take(4) =~= parts);
    }
    string_of(&out)
}

/// A suit's text is the same from the whole hand and from the suit alone.
proof fn lemma_suit_text_of_suit(v: u64, suit: int)
    requires
        0 <= suit < 4,
    ensures
        spec_suit_text(v & suit_mask(suit), suit) == spec_suit_text(v, suit),
{
    lemma_suit_ranks_of_suit(v, suit, 13);
}

proof fn lemma_suit_ranks_of_suit(v: u64, suit: int, k: int)
    requires
        0 <= suit < 4,
        0 <= k <= 13,
    ensures
        suit_ranks(v & suit_mask(suit), suit, k) == suit_ranks(v, suit, k),
    decreases k,
{
    if k > 0 {
        lemma_suit_ranks_of_suit(v, suit, k - 1);
        let c = spec_card_of(suit, 13 - k);
        lemma_cardset_and(v, suit_mask(suit));
        lemma_suit_mask(suit, c);
        assert(cardset(v & suit_mask(suit)).contains(c) == (cardset(v).contains(c) && cardset(suit_mask(suit)).contains(c)));
    }
}

/// The pieces of `s[..n]` cut at `sep`: the finished pieces and the one
/// being read. Every separator ends a piece, empty ones included.
pub open spec fn split_fold(s: Seq<char>, sep: char, n: int) -> (Seq<Seq<char>>, Seq<char>)
    decreases n,
{
    if n <= 0 {
        (Seq::empty(), Seq::empty())
    } else {
        let (done, cur) = split_fold(s, sep, n - 1);
        if s[n - 1] == sep {
            (done.push(cur), Seq::empty())
        } else {
            (done, cur.push(s[n - 1]))
        }
    }
}

/// The pieces of `s` between separators: what `str::split` yields.
pub open spec fn split_on(s: Seq<char>, sep: char) -> Seq<Seq<char>> {
    let (done, cur) = split_fold(s, sep, s.len() as int);
    done.push(cur)
}

/// Whether every character of `d` is a decimal digit.
pub open spec fn all_digits(d: Seq<char>) -> bool {
    forall|i: int| 0 <= i < d.len() ==> '0' <= #[trigger] d[i] <= '9'
}

/// The number decimal digits spell.
pub open spec fn digits_value(d: Seq<char>) -> int
    decreases d.len(),
{
    if d.len() == 0 {
        0
    } else {
        10 * digits_value(d.drop_last()) + (d.last() as int - '0' as int)
    }
}

/// What `str::parse::<usize>` reads: an optional `+`, then one or more
/// decimal digits and nothing else, of a value that fits.
pub open spec fn spec_parse_usize(t: Seq<char>) -> Option<int> {
    let d = if t.len() > 0 && t[0] == '+' {
        t.drop_first()
    } else {
        t
    };
    if d.len() == 0 || !all_digits(d) || digits_value(d) > usize::MAX {
        None
    } else {
        Some(digits_value(d))
    }
}

proof fn lemma_digits_grow(d: Seq<char>, k: int, m: int)
    requires
        0 <= k <= m <= d.len(),
        all_digits(d),
    ensures
        0 <= digits_value(d.take(k)) <= digits_value(d.take(m)),
    decreases m - k,
{
    if k < m {
        lemma_digits_grow(d, k, m - 1);
        assert(d.take(m).drop_last() =~= d.take(m - 1));
        lemma_digits_nonneg(d.take(m - 1));
        assert(d.take(m).last() == d[m - 1]);
    } else {
        lemma_digits_nonneg(d.take(k));
    }
}

proof fn lemma_digits_nonneg(d: Seq<char>)
    requires
        all_digits(d),
    ensures
        digits_value(d) >= 0,
    decreases d.len(),
{
    if d.len() > 0 {
        assert(all_digits(d.drop_last()));
        lemma_digits_nonneg(d.drop_last());
        assert('0' <= d[d.len() - 1] <= '9');
    }
}

fn parse_usize(t: &Vec<char>) -> (r: Option<usize>)
    ensures
        match r {
            None => spec_parse_usize(t@) is None,
            Some(v) => spec_parse_usize(t@) == Some(v as int),
        },
{
    let start: usize = if t.len() > 0 && t[0] == '+' {
        1
    } else {
        0
    };
    let ghost d = if t@.len() > 0 && t@[0] == '+' {
        t@.drop_first()
    } else {
        t@
    };
    proof {
        assert(d =~= t@.skip(start as int));
    }
    if start == t.len() {
        proof {
            assert(d.len() == 0);
            assert(spec_parse_usize(t@) is None);
        }
        return None;
    }
    let mut v: usize = 0;
    let mut i: usize = start;
    while i < t.len()
        invariant
            start <= i <= t@.len(),
            d == t@.skip(start as int),
            d == (if t@.len() > 0 && t@[0] == '+' {
                t@.drop_first()
            } else {
                t@
            }),
            all_digits(d.take(i - start)),
            v == digits_value(d.take(i - start)),
        decreases t@.len() - i,
    {
        let c = t[i];
        if c < '0' || c > '9' {
            proof {
                assert(d[i - start] == c);
                assert(!all_digits(d));
                assert(spec_parse_usize(t@) is None);
            }
            return None;
        }
        let digit: usize = (c as u32 - '0' as u32) as usize;
        proof {
            assert(d.take(i - start + 1).drop_last() =~= d.take(i - start));
            assert(d.take(i - start + 1).last() == c);
            assert(all_digits(d.take(i - start + 1))) by {
                assert forall|k: int| 0 <= k < d.take(i - start + 1).len() implies '0' <= #[trigger] d.take(
                    i - start + 1,
                )[k] <= '9' by {
                    if k < i - start {
                        assert(d.take(i - start + 1)[k] == d.take(i - start)[k]);
                    }
                }
            }
        }
        let next = match v.checked_mul(10) {
            Some(m) => m.checked_add(digit),
            None => None,
        };
        match next {
            Some(n) => {
                v = n;
            },
            None => {
                proof {
                    if all_digits(d) {
                        lemma_digits_grow(d, i - start + 1, d.len() as int);
                        assert(d.take(d.len() as int) =~= d);
                    }
                }
                return None;
            },
        }
        i += 1;
    }
    proof {
        assert(d.take(d.len() as int) =~= d);
    }
    Some(v)
}

/// The number a piece of the cache argument gives: its trimmed text read
/// as a number, or 0 when that fails.
pub open spec fn piece_value(p: Seq<char>) -> int {
    match spec_parse_usize(spec_trim(p)) {
        Some(v) => v,
        None => 0,
    }
}

/// The cache window `start:end:step`: one number is the step over no
/// window, two are the window with step 1, three give all three; any other
/// count of pieces is no window at all.
pub open spec fn spec_cache_spec(arg: Seq<char>) -> (int, int, int) {
    let ps = split_on(arg, ':');
    if ps.len() == 1 {
        (0, 0, piece_value(ps[0]))
    } else if ps.len() == 2 {
        (piece_value(ps[0]), piece_value(ps[1]), 1)
    } else if ps.len() == 3 {
        (piece_value(ps[0]), piece_value(ps[1]), piece_value(ps[2]))
    } else {
        (0, 0, 0)
    }
}

fn piece_number(p: &Vec<char>) -> (r: usize)
    ensures
        r == piece_value(p@),
{
    match parse_usize(&trim(p)) {
        Some(v) => v,
        None => 0,
    }
}

/// Read a cache window argument, `start:end:step` or a shorter form.
pub fn parse_cache_spec(arg: &str) -> (r: (usize, usize, usize))
    ensures
        (r.0 as int, r.1 as int, r.2 as int) == spec_cache_spec(arg@),
{
    let s = chars_of(arg);
    let mut done: Vec<Vec<char>> = Vec::new();
    let mut cur: Vec<char> = Vec::new();
    let mut i: usize = 0;
    while i < s.len()
        invariant
            i <= s@.len(),
            (done@.map_values(|w: Vec<char>| w@), cur@) == split_fold(s@, ':', i as int),
        decreases s@.len() - i,
    {
        if s[i] == ':' {
            let ghost before = done@;
            let piece = cur;
            cur = Vec::new();
            let ghost pv = piece@;
            done.push(piece);
            proof {
                assert(done@.map_values(|w: Vec<char>| w@) =~= before.map_values(|w: Vec<char>| w@).push(pv));
            }
        } else {
            cur.push(s[i]);
        }
        i += 1;
    }
    let ghost before = done@;
    let ghost cv = cur@;
    done.push(cur);
    proof {
        assert(done@.map_values(|w: Vec<char>| w@) =~= before.map_values(|w: Vec<char>| w@).push(cv));
        assert(s@ == arg@);
    }
    let ghost ps = split_on(arg@, ':');
    proof {
        assert(forall|k: int| 0 <= k < done@.len() ==> #[trigger] done@[k]@ == ps[k]) by {
            assert forall|k: int| 0 <= k < done@.len() implies #[trigger] done@[k]@ == ps[k] by {
                assert(done@.map_values(|w: Vec<char>| w@)[k] == done@[k]@);
            }
        }
    }
    if done.len() == 1 {
        (0, 0, piece_number(&done[0]))
    } else if done.len() == 2 {
        (piece_number(&done[0]), piece_number(&done[1]), 1)
    } else if done.len() == 3 {
        (piece_number(&done[0]), piece_number(&done[1]), piece_number(&done[2]))
    } else {
        (0, 0, 0)
    }
}

} // verus!
