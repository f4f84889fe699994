//! LIN and BBO handviewer-URL input: the calls of an auction and the
//! contract they settle on, the LIN held in a handviewer URL, and the
//! percent-decoding of a query value.
//!
//! Declarer is the first player of the contract side to have named the
//! final strain, not the player who made the last bid: over
//! `1S - Pass - 4S` North declares.

use vstd::prelude::*;
use crate::par::{Direction, Strain, spec_strain_char, spec_strain_index, spec_dir_char};
use crate::text::{
    chars_of, string_of, trim, spec_trim, ascii_upper, spec_ascii_upper_seq, push_decimal, spec_decimal,
    push_all,
};

verus! {

/// A call of an auction.
#[derive(Clone, Copy, Debug, PartialEq, Eq, Structural)]
pub enum Call {
    Pass,
    Double,
    Redouble,
    Bid { level: u8, strain: Strain },
}

/// A call in PBN's spelling: `Pass`, `X`, `XX`, or level and strain (`3N`).
pub open spec fn spec_call_pbn(c: Call) -> Seq<char> {
    match c {
        Call::Pass => seq!['P', 'a', 's', 's'],
        Call::Double => seq!['X'],
        Call::Redouble => seq!['X', 'X'],
        Call::Bid { level, strain } => spec_decimal(level as nat) + seq![spec_strain_char(strain)],
    }
}

impl Call {
    /// The call in PBN's spelling.
    pub fn to_pbn(&self) -> (r: String)
        ensures
            r@ == spec_call_pbn(*self),
    {
        let mut v: Vec<char> = Vec::new();
        match *self {
            Call::Pass => {
                v.push('P');
                v.push('a');
                v.push('s');
                v.push('s');
            },
            Call::Double => {
                v.push('X');
            },
            Call::Redouble => {
                v.push('X');
                v.push('X');
            },
            Call::Bid { level, strain } => {
                push_decimal(&mut v, level as usize);
                v.push(strain.to_char());
            },
        }
        proof {
            assert(v@ =~= spec_call_pbn(*self));
        }
        string_of(&v)
    }
}

/// The strain a letter names in a bid.
pub open spec fn spec_strain_letter(c: char) -> Option<Strain> {
    if c == 'C' {
        Some(Strain::Clubs)
    } else if c == 'D' {
        Some(Strain::Diamonds)
    } else if c == 'H' {
        Some(Strain::Hearts)
    } else if c == 'S' {
        Some(Strain::Spades)
    } else if c == 'N' {
        Some(Strain::NoTrump)
    } else {
        None
    }
}

/// A bid in PBN's spelling, in upper case: a level `1` to `7`, then `C`,
/// `D`, `H`, `S`, or `N` or `NT` for notrump.
pub open spec fn spec_parse_bid(t: Seq<char>) -> Option<Call> {
    if (t.len() == 2 || (t.len() == 3 && t[1] == 'N' && t[2] == 'T')) && '1' <= t[0] <= '7' {
        match spec_strain_letter(t[1]) {
            Some(strain) => Some(Call::Bid { level: ((t[0] as u32) - ('0' as u32)) as u8, strain }),
            None => None,
        }
    } else {
        None
    }
}

/// `s` without the `!` marks at its end.
pub open spec fn strip_alerts(s: Seq<char>) -> Seq<char>
    decreases s.len(),
{
    if s.len() > 0 && s.last() == '!' {
        strip_alerts(s.drop_last())
    } else {
        s
    }
}

/// A LIN bid token: trimmed, alert marks dropped, read in any case. BBO's
/// `P`, `D` and `R` are accepted beside PBN's `Pass`, `X` and `XX`.
pub open spec fn spec_parse_lin_call(s: Seq<char>) -> Option<Call> {
    let t = spec_ascii_upper_seq(strip_alerts(spec_trim(s)));
    if t == seq!['P'] || t == seq!['P', 'A', 'S', 'S'] {
        Some(Call::Pass)
    } else if t == seq!['D'] || t == seq!['X'] || t == seq!['D', 'B', 'L'] || t == seq![
        'D',
        'O',
        'U',
        'B',
        'L',
        'E',
    ] {
        Some(Call::Double)
    } else if t == seq!['R'] || t == seq!['X', 'X'] || t == seq!['R', 'D', 'B', 'L'] || t == seq![
        'R',
        'E',
        'D',
        'O',
        'U',
        'B',
        'L',
        'E',
    ] {
        Some(Call::Redouble)
    } else {
        spec_parse_bid(t)
    }
}

fn strain_letter(c: char) -> (r: Option<Strain>)
    ensures
        r == spec_strain_letter(c),
{
    if c == 'C' {
        Some(Strain::Clubs)
    } else if c == 'D' {
        Some(Strain::Diamonds)
    } else if c == 'H' {
        Some(Strain::Hearts)
    } else if c == 'S' {
        Some(Strain::Spades)
    } else if c == 'N' {
        Some(Strain::NoTrump)
    } else {
        None
    }
}

fn level_of(c: char) -> (r: u8)
    requires
        '1' <= c <= '7',
    ensures
        r == ((c as u32) - ('0' as u32)) as u8,
{
    if c == '1' {
        1
    } else if c == '2' {
        2
    } else if c == '3' {
        3
    } else if c == '4' {
        4
    } else if c == '5' {
        5
    } else if c == '6' {
        6
    } else {
        7
    }
}

fn parse_bid(t: &Vec<char>) -> (r: Option<Call>)
    ensures
        r == spec_parse_bid(t@),
{
    let n = t.len();
    if (n == 2 || (n == 3 && t[1] == 'N' && t[2] == 'T')) && '1' <= t[0] && t[0] <= '7' {
        match strain_letter(t[1]) {
            Some(strain) => Some(Call::Bid { level: level_of(t[0]), strain }),
            None => None,
        }
    } else {
        None
    }
}

/// Whether the characters of `a` spell `b`.
fn spells(a: &Vec<char>, b: &[char]) -> (r: bool)
    ensures
        r == (a@ == b@),
{
    if a.len() != b.len() {
        return false;
    }
    let mut i: usize = 0;
    while i < a.len()
        invariant
            i <= a@.len(),
            a@.len() == b@.len(),
            forall|k: int| 0 <= k < i ==> a@[k] == b@[k],
        decreases a@.len() - i,
    {
        if a[i] != b[i] {
            return false;
        }
        i += 1;
    }
    proof {
        assert(a@ =~= b@);
    }
    true
}

/// Read one LIN bid token as a call; `None` for a token that is no call.
pub fn parse_lin_call(bid: &str) -> (r: Option<Call>)
    ensures
        r == spec_parse_lin_call(bid@),
{
    let chars = chars_of(bid);
    let t0 = trim(&chars);
    let mut n = t0.len();
    proof {
        assert(t0@.take(t0@.len() as int) =~= t0@);
    }
    while n > 0 && t0[n - 1] == '!'
        invariant
            n <= t0@.len(),
            strip_alerts(t0@) == strip_alerts(t0@.take(n as int)),
        decreases n,
    {
        proof {
            assert(t0@.take(n as int).drop_last() =~= t0@.take(n as int - 1));
        }
        n -= 1;
    }
    proof {
        if n > 0 {
            assert(t0@.take(n as int).last() == t0@[n as int - 1]);
        }
        assert(t0@.take(t0@.len() as int) =~= t0@);
    }
    let mut t: Vec<char> = Vec::new();
    let mut i: usize = 0;
    while i < n
        invariant
            i <= n <= t0@.len(),
            t@ == spec_ascii_upper_seq(t0@.take(i as int)),
        decreases n - i,
    {
        t.push(ascii_upper(t0[i]));
        proof {
            assert(t@ =~= spec_ascii_upper_seq(t0@.take(i as int + 1)));
        }
        i += 1;
    }
    proof {
        assert(t@ =~= spec_ascii_upper_seq(strip_alerts(spec_trim(bid@))));
    }
    let w_p: [char; 1] = ['P'];
    let w_pass: [char; 4] = ['P', 'A', 'S', 'S'];
    let w_d: [char; 1] = ['D'];
    let w_x: [char; 1] = ['X'];
    let w_dbl: [char; 3] = ['D', 'B', 'L'];
    let w_double: [char; 6] = ['D', 'O', 'U', 'B', 'L', 'E'];
    let w_r: [char; 1] = ['R'];
    let w_xx: [char; 2] = ['X', 'X'];
    let w_rdbl: [char; 4] = ['R', 'D', 'B', 'L'];
    let w_redouble: [char; 8] = ['R', 'E', 'D', 'O', 'U', 'B', 'L', 'E'];
    proof {
        assert(w_p@ =~= seq!['P']);
        assert(w_pass@ =~= seq!['P', 'A', 'S', 'S']);
        assert(w_d@ =~= seq!['D']);
        assert(w_x@ =~= seq!['X']);
        assert(w_dbl@ =~= seq!['D', 'B', 'L']);
        assert(w_double@ =~= seq!['D', 'O', 'U', 'B', 'L', 'E']);
        assert(w_r@ =~= seq!['R']);
        assert(w_xx@ =~= seq!['X', 'X']);
        assert(w_rdbl@ =~= seq!['R', 'D', 'B', 'L']);
        assert(w_redouble@ =~= seq!['R', 'E', 'D', 'O', 'U', 'B', 'L', 'E']);
    }
    if spells(&t, &w_p) || spells(&t, &w_pass) {
        Some(Call::Pass)
    } else if spells(&t, &w_d) || spells(&t, &w_x) || spells(&t, &w_dbl) || spells(&t, &w_double) {
        Some(Call::Double)
    } else if spells(&t, &w_r) || spells(&t, &w_xx) || spells(&t, &w_rdbl) || spells(&t, &w_redouble) {
        Some(Call::Redouble)
    } else {
        parse_bid(&t)
    }
}

/// The first of the first `n` bid tokens that is no call.
pub open spec fn first_unrecognised(bids: Seq<String>, n: int) -> Option<int>
    decreases n,
{
    if n <= 0 {
        None
    } else {
        match first_unrecognised(bids, n - 1) {
            Some(i) => Some(i),
            None => if spec_parse_lin_call(bids[n - 1]@) is None {
                Some(n - 1)
            } else {
                None
            },
        }
    }
}

/// The message for a bid token that is no call.
pub open spec fn unrecognised_message(bid: Seq<char>) -> Seq<char> {
    "unrecognised call \""@ + bid + "\" in the auction"@
}

/// The calls of an auction from its LIN bid tokens, in order; the first
/// token that is no call is refused, quoted in the message.
pub fn build_auction(bids: &[String]) -> (r: Result<Vec<Call>, String>)
    ensures
        match first_unrecognised(bids@, bids@.len() as int) {
            None => r matches Ok(calls) && calls@.len() == bids@.len() && forall|i: int|
                0 <= i < bids@.len() ==> spec_parse_lin_call(bids@[i]@) == Some(#[trigger] calls@[i]),
            Some(i) => r matches Err(m) && m@ == unrecognised_message(bids@[i]@),
        },
{
    let mut calls: Vec<Call> = Vec::new();
    let mut i: usize = 0;
    while i < bids.len()
        invariant
            i <= bids@.len(),
            first_unrecognised(bids@, i as int) is None,
            calls@.len() == i,
            forall|k: int| 0 <= k < i ==> spec_parse_lin_call(bids@[k]@) == Some(#[trigger] calls@[k]),
        decreases bids@.len() - i,
    {
        match parse_lin_call(bids[i].as_str()) {
            Some(call) => {
                calls.push(call);
            },
            None => {
                let mut v: Vec<char> = chars_of("unrecognised call \"");
                push_all(&mut v, &chars_of(bids[i].as_str()));
                push_all(&mut v, &chars_of("\" in the auction"));
                proof {
                    reveal_strlit("unrecognised call \"");
                    reveal_strlit("\" in the auction");
                    assert(v@ =~= unrecognised_message(bids@[i as int]@));
                    lemma_first_unrecognised_extends(bids@, i as int + 1, bids@.len() as int);
                }
                return Err(string_of(&v));
            },
        }
        i += 1;
    }
    Ok(calls)
}

/// Once a token is refused, it stays the first refused one.
proof fn lemma_first_unrecognised_extends(bids: Seq<String>, m: int, n: int)
    requires
        0 <= m <= n,
        first_unrecognised(bids, m) is Some,
    ensures
        first_unrecognised(bids, n) == first_unrecognised(bids, m),
    decreases n - m,
{
    if m < n {
        lemma_first_unrecognised_extends(bids, m, n - 1);
    }
}

/// The contract an auction settled on.
#[derive(Clone, Copy, Debug, PartialEq, Eq, Structural)]
pub struct ResolvedContract {
    pub level: u8,
    pub strain: Strain,
    pub doubled: bool,
    pub redoubled: bool,
    pub declarer: Direction,
}

/// The next seat clockwise.
pub open spec fn spec_next_dir(d: Direction) -> Direction {
    match d {
        Direction::North => Direction::East,
        Direction::East => Direction::South,
        Direction::South => Direction::West,
        Direction::West => Direction::North,
    }
}

/// 1 for North-South, 0 for East-West.
pub open spec fn side_index(d: Direction) -> int {
    if d == Direction::North || d == Direction::South {
        1
    } else {
        0
    }
}

/// The auction read through its first `n` calls: the seat to call next,
/// the last bid and who made it, whether it stands doubled or redoubled,
/// and for each side and strain the first of the side to name the strain
/// (at `5 * side + strain`).
pub open spec fn resolve_fold(dealer: Direction, calls: Seq<Call>, n: int) -> (
    Direction,
    Option<(u8, Strain, Direction)>,
    bool,
    bool,
    Seq<Option<Direction>>,
)
    decreases n,
{
    if n <= 0 {
        (dealer, None, false, false, Seq::new(10, |i: int| None))
    } else {
        let (seat, last, doubled, redoubled, named) = resolve_fold(dealer, calls, n - 1);
        match calls[n - 1] {
            Call::Bid { level, strain } => {
                let k = 5 * side_index(seat) + spec_strain_index(strain);
                let named2 = if named[k] is None {
                    named.update(k, Some(seat))
                } else {
                    named
                };
                (spec_next_dir(seat), Some((level, strain, seat)), false, false, named2)
            },
            Call::Double => (spec_next_dir(seat), last, true, redoubled, named),
            Call::Redouble => (spec_next_dir(seat), last, doubled, true, named),
            Call::Pass => (spec_next_dir(seat), last, doubled, redoubled, named),
        }
    }
}

/// The contract of an auction: the last bid, doubled or redoubled if no
/// bid followed the double, declared by the first of its side to have
/// named its strain; `None` for an auction without a bid.
pub open spec fn spec_resolve(dealer: Direction, calls: Seq<Call>) -> Option<ResolvedContract> {
    let (seat, last, doubled, redoubled, named) = resolve_fold(dealer, calls, calls.len() as int);
    match last {
        None => None,
        Some((level, strain, bidder)) => match named[5 * side_index(bidder) + spec_strain_index(strain)] {
            None => None,
            Some(declarer) => Some(ResolvedContract { level, strain, doubled, redoubled, declarer }),
        },
    }
}

fn next_dir(d: Direction) -> (r: Direction)
    ensures
        r == spec_next_dir(d),
{
    match d {
        Direction::North => Direction::East,
        Direction::East => Direction::South,
        Direction::South => Direction::West,
        Direction::West => Direction::North,
    }
}

fn side_of(d: Direction) -> (r: usize)
    ensures
        r == side_index(d),
{
    if d == Direction::North || d == Direction::South {
        1
    } else {
        0
    }
}

/// Work out the contract, and who declares it, from the dealer and the
/// calls in order. `None` for a passed-out auction.
pub fn resolve_contract(dealer: Direction, calls: &[Call]) -> (r: Option<ResolvedContract>)
    ensures
        r == spec_resolve(dealer, calls@),
{
    let mut seat = dealer;
    let mut last: Option<(u8, Strain, Direction)> = None;
    let mut doubled = false;
    let mut redoubled = false;
    let mut named: [Option<Direction>; 10] = [None, None, None, None, None, None, None, None, None, None];
    let mut i: usize = 0;
    proof {
        assert(named@ =~= Seq::new(10, |i: int| None::<Direction>));
    }
    while i < calls.len()
        invariant
            i <= calls@.len(),
            (seat, last, doubled, redoubled, named@) == resolve_fold(dealer, calls@, i as int),
        decreases calls@.len() - i,
    {
        match calls[i] {
            Call::Bid { level, strain } => {
                let k = 5 * side_of(seat) + strain.index();
                if named[k].is_none() {
                    named[k] = Some(seat);
                }
                last = Some((level, strain, seat));
                doubled = false;
                redoubled = false;
            },
            Call::Double => {
                doubled = true;
            },
            Call::Redouble => {
                redoubled = true;
            },
            Call::Pass => {},
        }
        seat = next_dir(seat);
        i += 1;
    }
    match last {
        None => None,
        Some((level, strain, bidder)) => {
            let k = 5 * side_of(bidder) + strain.index();
            match named[k] {
                None => None,
                Some(declarer) => Some(ResolvedContract { level, strain, doubled, redoubled, declarer }),
            }
        },
    }
}

/// The value of a hexadecimal digit byte, in either case.
pub open spec fn hex_value(b: u8) -> Option<u8> {
    if 0x30 <= b <= 0x39 {
        Some((b - 0x30) as u8)
    } else if 0x61 <= b <= 0x66 {
        Some((b - 0x61 + 10) as u8)
    } else if 0x41 <= b <= 0x46 {
        Some((b - 0x41 + 10) as u8)
    } else {
        None
    }
}

/// Percent-decoding of `b` from byte `i` on: `+` is a space, `%` and two
/// hexadecimal digits are the byte they spell, and anything else, a `%`
/// without two digits after it included, stands for itself.
pub open spec fn decode_from(b: Seq<u8>, i: int) -> Seq<u8>
    decreases b.len() - i,
{
    if i < 0 || i >= b.len() {
        Seq::empty()
    } else if b[i] == 0x2b {
        seq![0x20u8] + decode_from(b, i + 1)
    } else if b[i] == 0x25 && i + 2 < b.len() && hex_value(b[i + 1]) is Some && hex_value(b[i + 2]) is Some {
        seq![(hex_value(b[i + 1]).unwrap() * 16 + hex_value(b[i + 2]).unwrap()) as u8] + decode_from(b, i + 3)
    } else {
        seq![b[i]] + decode_from(b, i + 1)
    }
}

/// What `String::from_utf8_lossy` makes of some bytes.
pub uninterp spec fn utf8_lossy_of(bytes: Seq<u8>) -> Seq<char>;

/// `String::from_utf8_lossy`, owned: the text of `bytes`, named by
/// `utf8_lossy_of`. Of valid UTF-8 it is the text the bytes encode; how
/// invalid sequences are replaced is left to the name.
#[verifier::external_body]
fn utf8_lossy(bytes: &[u8]) -> (r: String)
    ensures
        r@ == utf8_lossy_of(bytes@),
        vstd::utf8::valid_utf8(bytes@) ==> r@ == vstd::utf8::decode_utf8(bytes@),
{
    String::from_utf8_lossy(bytes).into_owned()
}

fn hex_digit_value(b: u8) -> (r: Option<u8>)
    ensures
        r == hex_value(b),
{
    if 0x30 <= b && b <= 0x39 {
        Some(b - 0x30)
    } else if 0x61 <= b && b <= 0x66 {
        Some(b - 0x61 + 10)
    } else if 0x41 <= b && b <= 0x46 {
        Some(b - 0x41 + 10)
    } else {
        None
    }
}

/// The text of the percent-decoded bytes of a text: the characters they
/// encode where they are valid UTF-8, else what lossy conversion makes of
/// them.
pub open spec fn spec_percent_decode(s: Seq<char>) -> Seq<char> {
    let b = decode_from(vstd::utf8::encode_utf8(s), 0);
    if vstd::utf8::valid_utf8(b) {
        vstd::utf8::decode_utf8(b)
    } else {
        utf8_lossy_of(b)
    }
}

/// Percent-decode a query-string value: `+` becomes a space, `%XX` the
/// byte it spells. An escape without two hexadecimal digits after it is
/// kept as written, so a stray `%` fails nothing.
pub fn percent_decode(s: &str) -> (r: String)
    ensures
        r@ == spec_percent_decode(s@),
{
    let bytes = s.as_bytes();
    let mut out: Vec<u8> = Vec::new();
    let mut i: usize = 0;
    while i < bytes.len()
        invariant
            i <= bytes@.len(),
            out@ + decode_from(bytes@, i as int) == decode_from(bytes@, 0),
        decreases bytes@.len() - i,
    {
        let b = bytes[i];
        if b == 0x2b {
            out.push(0x20);
            proof {
                assert(out@ + decode_from(bytes@, i + 1) =~= decode_from(bytes@, 0));
            }
            i += 1;
        } else if b == 0x25 && bytes.len() - i > 2 {
            let hi = hex_digit_value(bytes[i + 1]);
            let lo = hex_digit_value(bytes[i + 2]);
            match (hi, lo) {
                (Some(h), Some(l)) => {
                    out.push(h * 16 + l);
                    proof {
                        assert(out@ + decode_from(bytes@, i + 3) =~= decode_from(bytes@, 0));
                    }
                    i += 3;
                },
                _ => {
                    out.push(b);
                    proof {
                        assert(out@ + decode_from(bytes@, i + 1) =~= decode_from(bytes@, 0));
                    }
                    i += 1;
                },
            }
        } else {
            out.push(b);
            proof {
                assert(out@ + decode_from(bytes@, i + 1) =~= decode_from(bytes@, 0));
            }
            i += 1;
        }
    }
    proof {
        assert(out@ =~= decode_from(bytes@, 0));
    }
    utf8_lossy(out.as_slice())
}

/// The first place from `i` on where `p` occurs in `s`.
pub open spec fn find_from(s: Seq<char>, p: Seq<char>, i: int) -> Option<int>
    decreases s.len() + 1 - i,
{
    if i < 0 || i > s.len() || i + p.len() > s.len() {
        None
    } else if s.subrange(i, i + p.len()) == p {
        Some(i)
    } else {
        find_from(s, p, i + 1)
    }
}

/// The value of the `lin` parameter of a trimmed URL, to its end: after the
/// first `?lin=`, else the first `&lin=`, else the first `#lin=`, else
/// after a leading `lin=`.
pub open spec fn lin_value(t: Seq<char>) -> Option<Seq<char>> {
    match find_from(t, seq!['?', 'l', 'i', 'n', '='], 0) {
        Some(i) => Some(t.skip(i + 5)),
        None => match find_from(t, seq!['&', 'l', 'i', 'n', '='], 0) {
            Some(i) => Some(t.skip(i + 5)),
            None => match find_from(t, seq!['#', 'l', 'i', 'n', '='], 0) {
                Some(i) => Some(t.skip(i + 5)),
                None => if t.len() >= 4 && t.take(4) == seq!['l', 'i', 'n', '='] {
                    Some(t.skip(4))
                } else {
                    None
                },
            },
        },
    }
}

/// Where a parameter value ends: at its first `&` or `#`, or its end.
pub open spec fn value_end(v: Seq<char>, i: int) -> int
    decreases v.len() - i,
{
    if i < 0 || i >= v.len() {
        v.len() as int
    } else if v[i] == '&' || v[i] == '#' {
        i
    } else {
        value_end(v, i + 1)
    }
}

/// The LIN a handviewer URL carries, decoded; `None` without a `lin`
/// parameter.
pub open spec fn spec_lin_from_url(s: Seq<char>) -> Option<Seq<char>> {
    match lin_value(spec_trim(s)) {
        None => None,
        Some(v) => Some(spec_percent_decode(v.take(value_end(v, 0)))),
    }
}

fn find_chars(s: &Vec<char>, p: &Vec<char>) -> (r: Option<usize>)
    ensures
        match r {
            None => find_from(s@, p@, 0) is None,
            Some(i) => find_from(s@, p@, 0) == Some(i as int) && i + p@.len() <= s.len(),
        },
{
    let mut i: usize = 0;
    while p.len() <= s.len() && i <= s.len() - p.len()
        invariant
            find_from(s@, p@, 0) == find_from(s@, p@, i as int),
        decreases s@.len() - i,
    {
        let mut k: usize = 0;
        let mut same = true;
        let sl = s.len();
        while k < p.len()
            invariant
                sl == s@.len(),
                i + p@.len() <= s@.len(),
                k <= p@.len(),
                same == (forall|j: int| 0 <= j < k ==> s@[i + j] == p@[j]),
            decreases p@.len() - k,
        {
            if s[i + k] != p[k] {
                same = false;
            }
            k += 1;
        }
        proof {
            if same {
                assert(s@.subrange(i as int, i + p@.len()) =~= p@);
            } else {
                assert(s@.subrange(i as int, i + p@.len()) != p@) by {
                    let j = choose|j: int| 0 <= j < p@.len() && s@[i + j] != p@[j];
                    assert(s@.subrange(i as int, i + p@.len())[j] == s@[i + j]);
                }
            }
        }
        if same {
            return Some(i);
        }
        i += 1;
    }
    proof {
        assert(find_from(s@, p@, i as int) is None);
    }
    None
}

fn lin_param(first: char) -> (r: Vec<char>)
    ensures
        r@ == seq![first, 'l', 'i', 'n', '='],
{
    let mut v: Vec<char> = Vec::new();
    v.push(first);
    v.push('l');
    v.push('i');
    v.push('n');
    v.push('=');
    proof {
        assert(v@ =~= seq![first, 'l', 'i', 'n', '=']);
    }
    v
}

fn skip_chars(v: &Vec<char>, from: usize) -> (r: Vec<char>)
    requires
        from <= v@.len(),
    ensures
        r@ == v@.skip(from as int),
{
    let mut r: Vec<char> = Vec::new();
    let mut i: usize = from;
    while i < v.len()
        invariant
            from <= i <= v@.len(),
            r@ == v@.subrange(from as int, i as int),
        decreases v@.len() - i,
    {
        r.push(v[i]);
        proof {
            assert(r@ =~= v@.subrange(from as int, i + 1));
        }
        i += 1;
    }
    proof {
        assert(r@ =~= v@.skip(from as int));
    }
    r
}

/// Pull the LIN out of a BBO handviewer URL: the value of its `lin`
/// parameter up to the next `&` or `#`, percent-decoded. `None` when the
/// input has no such parameter, which is how a bare LIN string is told
/// from a URL. The parameter must start the query or follow a separator,
/// so `sourcelin=` is not taken for it.
pub fn lin_from_url(input: &str) -> (r: Option<String>)
    ensures
        match r {
            None => spec_lin_from_url(input@) is None,
            Some(s) => spec_lin_from_url(input@) == Some(s@),
        },
{
    let chars = chars_of(input);
    let t = trim(&chars);
    let value: Vec<char>;
    let q = lin_param('?');
    let a = lin_param('&');
    let h = lin_param('#');
    assert(q@.len() == 5 && a@.len() == 5 && h@.len() == 5);
    match find_chars(&t, &q) {
        Some(i) => {
            value = skip_chars(&t, i + 5);
        },
        None => match find_chars(&t, &a) {
            Some(i) => {
                value = skip_chars(&t, i + 5);
            },
            None => match find_chars(&t, &h) {
                Some(i) => {
                    value = skip_chars(&t, i + 5);
                },
                None => {
                    if t.len() >= 4 && t[0] == 'l' && t[1] == 'i' && t[2] == 'n' && t[3] == '=' {
                        proof {
                            assert(t@.take(4) =~= seq!['l', 'i', 'n', '=']);
                        }
                        value = skip_chars(&t, 4);
                    } else {
                        proof {
                            if t@.len() >= 4 {
                                assert(t@.take(4) != seq!['l', 'i', 'n', '=']) by {
                                    if t@.take(4) == seq!['l', 'i', 'n', '='] {
                                        assert(t@.take(4)[0] == 'l');
                                        assert(t@.take(4)[1] == 'i');
                                        assert(t@.take(4)[2] == 'n');
                                        assert(t@.take(4)[3] == '=');
                                    }
                                }
                            }
                        }
                        return None;
                    }
                },
            },
        },
    }
    let mut end: usize = 0;
    while end < value.len() && value[end] != '&' && value[end] != '#'
        invariant
            end <= value@.len(),
            value_end(value@, 0) == value_end(value@, end as int),
        decreases value@.len() - end,
    {
        end += 1;
    }
    let mut piece: Vec<char> = Vec::new();
    let mut k: usize = 0;
    while k < end
        invariant
            k <= end <= value@.len(),
            piece@ == value@.take(k as int),
        decreases end - k,
    {
        piece.push(value[k]);
        proof {
            assert(piece@ =~= value@.take(k + 1));
        }
        k += 1;
    }
    let text = string_of(&piece);
    Some(percent_decode(text.as_str()))
}

/// The contract, taken apart for display and for driving the engine.
#[derive(Clone, Debug, PartialEq)]
pub struct ContractInfo {
    pub level: u8,
    /// `C`, `D`, `H`, `S` or `N`.
    pub strain: String,
    pub doubled: bool,
    pub redoubled: bool,
    /// `N`, `E`, `S` or `W`.
    pub declarer: String,
    /// Written out, e.g. `"5CX"` or `"3N"`.
    pub description: String,
}

/// Names by seat, in the `N, E, S, W` order.
#[derive(Clone, Debug, PartialEq)]
pub struct SeatNames {
    pub north: String,
    pub east: String,
    pub south: String,
    pub west: String,
}

/// One call, with the alert and explanation BBO carries beside it.
#[derive(Clone, Debug, PartialEq)]
pub struct AuctionCall {
    /// PBN spelling: `Pass`, `X`, `XX`, `1C`, `3N`, ...
    pub call: String,
    /// The trailing `!` on the LIN token.
    pub alert: bool,
    /// The following `an|` token.
    pub annotation: Option<String>,
}

/// A contract written out: level, strain, then `XX` redoubled or `X`
/// doubled.
pub open spec fn spec_description(c: ResolvedContract) -> Seq<char> {
    spec_decimal(c.level as nat) + seq![spec_strain_char(c.strain)] + if c.redoubled {
        seq!['X', 'X']
    } else if c.doubled {
        seq!['X']
    } else {
        Seq::empty()
    }
}

/// The display form of a resolved contract.
pub fn contract_info(c: &ResolvedContract) -> (r: ContractInfo)
    ensures
        r.level == c.level,
        r.strain@ == seq![spec_strain_char(c.strain)],
        r.doubled == c.doubled,
        r.redoubled == c.redoubled,
        r.declarer@ == seq![spec_dir_char(c.declarer)],
        r.description@ == spec_description(*c),
{
    let mut strain: Vec<char> = Vec::new();
    strain.push(c.strain.to_char());
    let mut declarer: Vec<char> = Vec::new();
    declarer.push(c.declarer.to_char());
    let mut d: Vec<char> = Vec::new();
    push_decimal(&mut d, c.level as usize);
    d.push(c.strain.to_char());
    if c.redoubled {
        d.push('X');
        d.push('X');
    } else if c.doubled {
        d.push('X');
    }
    proof {
        assert(strain@ =~= seq![spec_strain_char(c.strain)]);
        assert(declarer@ =~= seq![spec_dir_char(c.declarer)]);
        assert(d@ =~= spec_description(*c));
    }
    ContractInfo {
        level: c.level,
        strain: string_of(&strain),
        doubled: c.doubled,
        redoubled: c.redoubled,
        declarer: string_of(&declarer),
        description: string_of(&d),
    }
}

/// Names given in LIN's `S, W, N, E` order, reordered to `N, E, S, W`.
pub fn seat_names(lin_order: &[String; 4]) -> (r: SeatNames)
    ensures
        r.south@ == lin_order@[0]@,
        r.west@ == lin_order@[1]@,
        r.north@ == lin_order@[2]@,
        r.east@ == lin_order@[3]@,
{
    let south = string_of(&chars_of(lin_order[0].as_str()));
    let west = string_of(&chars_of(lin_order[1].as_str()));
    let north = string_of(&chars_of(lin_order[2].as_str()));
    let east = string_of(&chars_of(lin_order[3].as_str()));
    SeatNames { north, east, south, west }
}

/// Whether some call of `calls` is a bid.
pub open spec fn has_bid(calls: Seq<Call>, n: int) -> bool {
    exists|i: int| 0 <= i < n && (#[trigger] calls[i]) is Bid
}

proof fn lemma_resolve_fold(dealer: Direction, calls: Seq<Call>, n: int)
    requires
        0 <= n <= calls.len(),
    ensures
        ({
            let (seat, last, doubled, redoubled, named) = resolve_fold(dealer, calls, n);
            &&& named.len() == 10
            &&& (last is Some <==> has_bid(calls, n))
            &&& (last matches Some((level, strain, bidder)) ==> (named[5 * side_index(bidder)
                + spec_strain_index(strain)] matches Some(d) && side_index(d) == side_index(bidder)))
            &&& forall|k: int| 0 <= k < 10 ==> ((#[trigger] named[k]) matches Some(d) ==> side_index(d) == k / 5)
        }),
    decreases n,
{
    if n > 0 {
        lemma_resolve_fold(dealer, calls, n - 1);
        let (seat, last, doubled, redoubled, named) = resolve_fold(dealer, calls, n - 1);
        if calls[n - 1] is Bid {
            assert(has_bid(calls, n)) by {
                assert(calls[n - 1] is Bid);
            }
        } else {
            if has_bid(calls, n) {
                let i = choose|i: int| 0 <= i < n && (#[trigger] calls[i]) is Bid;
                assert(i < n - 1);
                assert(has_bid(calls, n - 1));
            }
            if has_bid(calls, n - 1) {
                let i = choose|i: int| 0 <= i < n - 1 && (#[trigger] calls[i]) is Bid;
                assert(has_bid(calls, n));
            }
        }
    }
}

/// An auction has a contract exactly when someone bid, and the contract
/// is declared by a player of the side that made the last bid.
pub proof fn lemma_resolve_contract(dealer: Direction, calls: Seq<Call>)
    ensures
        spec_resolve(dealer, calls) is Some <==> has_bid(calls, calls.len() as int),
        spec_resolve(dealer, calls) matches Some(c) ==> ({
            let last = resolve_fold(dealer, calls, calls.len() as int).1;
            (last matches Some((level, strain, bidder)) && c.level == level && c.strain == strain
                && side_index(c.declarer) == side_index(bidder))
        }),
{
    lemma_resolve_fold(dealer, calls, calls.len() as int);
}

/// Two characters, neither white space nor `!` at the end nor a lower-case
/// letter, read as themselves once trimmed, stripped and upper-cased.
proof fn lemma_plain_pair(a: char, b: char)
    requires
        !crate::text::spec_is_whitespace(a),
        !crate::text::spec_is_whitespace(b),
        b != '!',
        !('a' <= a <= 'z'),
        !('a' <= b <= 'z'),
    ensures
        spec_ascii_upper_seq(strip_alerts(spec_trim(seq![a, b]))) == seq![a, b],
{
    let s = seq![a, b];
    assert(crate::text::trim_front(s) == s);
    assert(s.last() == b);
    assert(crate::text::trim_back(s) == s);
    assert(strip_alerts(s) == s);
    assert(spec_ascii_upper_seq(s) =~= s);
}

/// Every bid reads back from its PBN spelling: levels one to seven, in
/// every strain, the grand slams included.
pub proof fn lemma_bid_round_trip(level: u8, strain: Strain)
    requires
        1 <= level <= 7,
    ensures
        spec_parse_lin_call(spec_call_pbn(Call::Bid { level, strain })) == Some(Call::Bid { level, strain }),
{
    let d = crate::text::digit_char(level as nat);
    let c = spec_strain_char(strain);
    assert(spec_decimal(level as nat) == seq![d]);
    assert(spec_call_pbn(Call::Bid { level, strain }) =~= seq![d, c]);
    assert('1' <= d <= '7');
    assert(c == 'C' || c == 'D' || c == 'H' || c == 'S' || c == 'N');
    lemma_plain_pair(d, c);
    let t = seq![d, c];
    assert(t[0] == d && t[1] == c && t.len() == 2);
    assert(t != seq!['P'] && t != seq!['D'] && t != seq!['X'] && t != seq!['R']) by {
        assert(seq!['P'].len() == 1);
    }
    assert(t != seq!['P', 'A', 'S', 'S'] && t != seq!['D', 'B', 'L'] && t != seq![
        'D',
        'O',
        'U',
        'B',
        'L',
        'E',
    ] && t != seq!['R', 'D', 'B', 'L'] && t != seq!['R', 'E', 'D', 'O', 'U', 'B', 'L', 'E']) by {
        assert(seq!['D', 'B', 'L'].len() == 3);
    }
    assert(t != seq!['X', 'X']) by {
        assert(seq!['X', 'X'][0] == 'X');
        assert(t[0] != 'X');
    }
    assert(spec_strain_letter(c) == Some(strain));
    assert(((d as u32) - ('0' as u32)) as u8 == level);
}

/// The bytes of a scalar's UTF-8 encoding: the scalar itself where it is
/// ASCII, else bytes with the high bit set.
proof fn lemma_encoded_bytes(c: u32)
    requires
        vstd::utf8::is_scalar(c),
    ensures
        forall|k: int|
            0 <= k < vstd::utf8::encode_scalar(c).len() ==> ((#[trigger] vstd::utf8::encode_scalar(
                c,
            )[k]) >= 0x80 || vstd::utf8::encode_scalar(c)[k] as u32 == c),
{
    lemma_high_bit_bytes(c);
}

proof fn lemma_high_bit_bytes(c: u32)
    by (bit_vector)
    ensures
        c <= 0x7F ==> ((c & 0x7F) as u8) as u32 == c,
        (0xC0u8 | ((c >> 6) & 0x1F) as u8) >= 0x80u8,
        (0xE0u8 | ((c >> 12) & 0x0F) as u8) >= 0x80u8,
        (0xF0u8 | ((c >> 18) & 0x7) as u8) >= 0x80u8,
        (0x80u8 | (c & 0x3F) as u8) >= 0x80u8,
        (0x80u8 | ((c >> 6) & 0x3F) as u8) >= 0x80u8,
        (0x80u8 | ((c >> 12) & 0x3F) as u8) >= 0x80u8,
{
}

/// A text without `%` or `+` encodes to bytes without them.
proof fn lemma_encode_plain(v: Seq<char>)
    requires
        forall|i: int| 0 <= i < v.len() ==> #[trigger] v[i] != '%' && v[i] != '+',
    ensures
        forall|k: int|
            0 <= k < vstd::utf8::encode_utf8(v).len() ==> #[trigger] vstd::utf8::encode_utf8(v)[k]
                != 0x25 && vstd::utf8::encode_utf8(v)[k] != 0x2b,
    decreases v.len(),
{
    if v.len() > 0 {
        let c = v[0] as u32;
        vstd::utf8::char_is_scalar(v[0]);
        lemma_encoded_bytes(c);
        lemma_encode_plain(v.drop_first());
        assert(v[0] != '%' && v[0] != '+');
        assert(c != 0x25 && c != 0x2b) by {
            vstd::utf8::char_u32_cast(v[0], c);
            vstd::utf8::char_u32_cast('%', '%' as u32);
            vstd::utf8::char_u32_cast('+', '+' as u32);
            assert('%' as u32 == 0x25 && '+' as u32 == 0x2b);
        }
        let e = vstd::utf8::encode_utf8(v);
        let h = vstd::utf8::encode_scalar(c);
        let t = vstd::utf8::encode_utf8(v.drop_first());
        assert(e == h + t);
        assert forall|k: int| 0 <= k < e.len() implies #[trigger] e[k] != 0x25 && e[k] != 0x2b by {
            if k < h.len() {
                assert(e[k] == h[k]);
            } else {
                assert(e[k] == t[k - h.len()]);
            }
        }
    }
}

/// Bytes without `%` or `+` from `i` on decode to themselves.
proof fn lemma_decode_plain(b: Seq<u8>, i: int)
    requires
        0 <= i <= b.len(),
        forall|k: int| i <= k < b.len() ==> #[trigger] b[k] != 0x25 && b[k] != 0x2b,
    ensures
        decode_from(b, i) == b.skip(i),
    decreases b.len() - i,
{
    if i < b.len() {
        lemma_decode_plain(b, i + 1);
        assert(b.skip(i) =~= seq![b[i]] + b.skip(i + 1));
    } else {
        assert(b.skip(i) =~= Seq::<u8>::empty());
    }
}

/// A text with neither `%` nor `+` in it decodes to itself.
pub proof fn lemma_percent_decode_plain(v: Seq<char>)
    requires
        forall|i: int| 0 <= i < v.len() ==> #[trigger] v[i] != '%' && v[i] != '+',
    ensures
        spec_percent_decode(v) == v,
{
    let e = vstd::utf8::encode_utf8(v);
    lemma_encode_plain(v);
    lemma_decode_plain(e, 0);
    assert(e.skip(0) =~= e);
    vstd::utf8::encode_utf8_valid_utf8(v);
    vstd::utf8::encode_utf8_decode_utf8(v);
}

/// No place from `i` on holds `p`: the search finds nothing.
proof fn lemma_find_none(s: Seq<char>, p: Seq<char>, i: int)
    requires
        0 <= i,
        forall|j: int| i <= j && j + p.len() <= s.len() ==> #[trigger] s.subrange(j, j + p.len()) != p,
    ensures
        find_from(s, p, i) is None,
    decreases s.len() + 1 - i,
{
    if i <= s.len() && i + p.len() <= s.len() {
        lemma_find_none(s, p, i + 1);
    }
}

/// `p` stands at `k` and nowhere between `i` and `k`: the search finds `k`.
proof fn lemma_find_at(s: Seq<char>, p: Seq<char>, i: int, k: int)
    requires
        0 <= i <= k,
        k + p.len() <= s.len(),
        s.subrange(k, k + p.len()) == p,
        forall|j: int| i <= j < k ==> #[trigger] s.subrange(j, j + p.len()) != p,
    ensures
        find_from(s, p, i) == Some(k),
    decreases k - i,
{
    if i < k {
        lemma_find_at(s, p, i + 1, k);
    }
}

/// A value with neither `&` nor `#` in it runs to its end.
proof fn lemma_value_end_plain(v: Seq<char>, i: int)
    requires
        0 <= i <= v.len(),
        forall|k: int| i <= k < v.len() ==> #[trigger] v[k] != '&' && v[k] != '#',
    ensures
        value_end(v, i) == v.len(),
    decreases v.len() - i,
{
    if i < v.len() {
        lemma_value_end_plain(v, i + 1);
    }
}

/// A window of five characters at `j` that spells `c` and then `lin=`.
pub open spec fn spells_param(s: Seq<char>, j: int, c: char) -> bool {
    s.subrange(j, j + 5) == seq![c, 'l', 'i', 'n', '=']
}

/// The `lin` parameter is found where it follows other parameters after
/// `&`: in a URL `base?query&lin=value`, where the base holds no `?` or
/// `&`, the query never spells `lin=`, and the value holds none of `&`,
/// `#`, `%` and `+` and never spells `?lin=`, the LIN read is the value as
/// written. (With the
/// URL trimmed first, the base starts and the value ends other than in
/// white space.)
pub proof fn lemma_lin_after_other_param(base: Seq<char>, q: Seq<char>, v: Seq<char>)
    requires
        base.len() > 0,
        !crate::text::spec_is_whitespace(base[0]),
        forall|i: int| 0 <= i < base.len() ==> #[trigger] base[i] != '?' && base[i] != '&',
        forall|i: int| 0 <= i && i + 4 <= q.len() ==> #[trigger] q.subrange(i, i + 4) != seq!['l', 'i', 'n', '='],
        forall|i: int|
            0 <= i < v.len() ==> #[trigger] v[i] != '&' && v[i] != '#' && v[i] != '%' && v[i] != '+',
        forall|i: int| 0 <= i && i + 5 <= v.len() ==> #[trigger] v.subrange(i, i + 5) != seq!['?', 'l', 'i', 'n', '='],
        v.len() > 0 ==> !crate::text::spec_is_whitespace(v.last()),
    ensures
        spec_lin_from_url(base + seq!['?'] + q + seq!['&', 'l', 'i', 'n', '='] + v) == Some(v),
{
    let s = base + seq!['?'] + q + seq!['&', 'l', 'i', 'n', '='] + v;
    let a = base.len() as int;
    let m = a + 1 + q.len();
    assert(s.len() == m + 5 + v.len());
    assert(forall|i: int| 0 <= i < a ==> s[i] == base[i]);
    assert(s[a] == '?');
    assert(forall|i: int| a < i < m ==> s[i] == q[i - a - 1]);
    assert(s[m] == '&' && s[m + 1] == 'l' && s[m + 2] == 'i' && s[m + 3] == 'n' && s[m + 4] == '=');
    assert(forall|i: int| m + 5 <= i < s.len() ==> s[i] == v[i - m - 5]);
    // trimming leaves the URL as it is
    assert(s[0] == base[0]);
    assert(crate::text::trim_front(s) == s);
    assert(s.last() != '=' ==> v.len() > 0 && s.last() == v.last());
    assert(crate::text::trim_back(s) == s);
    // no window in the base, at the `?` or in the query spells `?lin=` or `&lin=`
    assert forall|j: int, c: char|
        0 <= j < m && (c == '?' || c == '&') && j + 5 <= s.len() implies !spells_param(s, j, c) by {
        if spells_param(s, j, c) {
            let w = s.subrange(j, j + 5);
            assert(w[0] == s[j] && w[1] == s[j + 1] && w[2] == s[j + 2] && w[3] == s[j + 3] && w[4]
                == s[j + 4]);
            assert(s[j] == c);
            if j < a {
                assert(s[j] == base[j]);
            } else if j + 4 < m {
                let u = j - a;
                assert(q.subrange(u, u + 4) =~= seq!['l', 'i', 'n', '=']) by {
                    assert(s[j + 1] == q[u] && s[j + 2] == q[u + 1] && s[j + 3] == q[u + 2] && s[j + 4]
                        == q[u + 3]);
                }
            } else {
                assert(s[m] == '&');
            }
        }
    }
    // nor does any window after it spell `?lin=`
    assert forall|j: int| m <= j && j + 5 <= s.len() implies !spells_param(s, j, '?') by {
        if spells_param(s, j, '?') {
            let w = s.subrange(j, j + 5);
            assert(w[0] == s[j]);
            if j >= m + 5 {
                let u = j - m - 5;
                assert(v.subrange(u, u + 5) =~= w);
            }
        }
    }
    let pq = seq!['?', 'l', 'i', 'n', '='];
    let pa = seq!['&', 'l', 'i', 'n', '='];
    assert forall|j: int| 0 <= j && j + pq.len() <= s.len() implies #[trigger] s.subrange(j, j + pq.len()) != pq by {
        assert(!spells_param(s, j, '?'));
    }
    lemma_find_none(s, pq, 0);
    assert(s.subrange(m, m + 5) =~= pa);
    assert forall|j: int| 0 <= j < m implies #[trigger] s.subrange(j, j + pa.len()) != pa by {
        assert(!spells_param(s, j, '&'));
    }
    lemma_find_at(s, pa, 0, m);
    assert(crate::text::spec_trim(s) == s);
    assert(lin_value(s) == Some(s.skip(m + 5)));
    assert(s.skip(m + 5) =~= v);
    lemma_value_end_plain(v, 0);
    assert(v.take(v.len() as int) =~= v);
    lemma_percent_decode_plain(v);
}

/// The seat that makes call `i` of an auction the dealer opened.
pub open spec fn seat_at(dealer: Direction, i: int) -> Direction
    decreases i,
{
    if i <= 0 {
        dealer
    } else {
        spec_next_dir(seat_at(dealer, i - 1))
    }
}

/// Whether a call is a bid in `strain`.
pub open spec fn bids_strain(c: Call, strain: Strain) -> bool {
    match c {
        Call::Bid { strain: t, .. } => t == strain,
        _ => false,
    }
}

/// Whether call `j` is a bid in `strain` by a player of `side`.
pub open spec fn side_names(dealer: Direction, calls: Seq<Call>, j: int, side: int, strain: Strain) -> bool {
    bids_strain(calls[j], strain) && side_index(seat_at(dealer, j)) == side
}

/// `e` records who of `side` first bid `strain` within the first `n`
/// calls: nobody, or a seat whose bid no earlier one of its side matched.
pub open spec fn first_namer(
    dealer: Direction,
    calls: Seq<Call>,
    n: int,
    side: int,
    strain: Strain,
    e: Option<Direction>,
) -> bool {
    match e {
        None => forall|j: int| 0 <= j < n ==> !#[trigger] side_names(dealer, calls, j, side, strain),
        Some(d) => exists|i: int|
            #![trigger side_names(dealer, calls, i, side, strain)]
            0 <= i < n && side_names(dealer, calls, i, side, strain) && seat_at(dealer, i) == d
                && forall|j: int| 0 <= j < i ==> !#[trigger] side_names(dealer, calls, j, side, strain),
    }
}

/// The table entry for `side` and `strain` after `n` calls is its first namer.
pub open spec fn named_entry_right(dealer: Direction, calls: Seq<Call>, n: int, side: int, strain: Strain) -> bool {
    first_namer(
        dealer,
        calls,
        n,
        side,
        strain,
        resolve_fold(dealer, calls, n).4[5 * side + spec_strain_index(strain)],
    )
}

/// `last`, `doubled` and `redoubled` after `n` calls: the last bid and
/// its bidder, and whether a double or redouble came after it.
pub open spec fn last_bid_right(
    dealer: Direction,
    calls: Seq<Call>,
    n: int,
    last: Option<(u8, Strain, Direction)>,
    doubled: bool,
    redoubled: bool,
) -> bool {
    match last {
        None => forall|j: int| 0 <= j < n ==> !(#[trigger] calls[j] is Bid),
        Some((l, t, b)) => exists|i: int|
            #![trigger calls[i]]
            0 <= i < n && calls[i] == Call::Bid { level: l, strain: t } && seat_at(dealer, i) == b
                && (forall|j: int| i < j < n ==> !(#[trigger] calls[j] is Bid))
                && (doubled <==> exists|j: int| i < j < n && #[trigger] calls[j] is Double)
                && (redoubled <==> exists|j: int| i < j < n && #[trigger] calls[j] is Redouble),
    }
}

/// One call more keeps the table entry of `side` and `strain` right.
proof fn lemma_named_step(dealer: Direction, calls: Seq<Call>, n: int, side: int, strain: Strain)
    requires
        1 <= n <= calls.len(),
        0 <= side <= 1,
        resolve_fold(dealer, calls, n - 1).0 == seat_at(dealer, n - 1),
        resolve_fold(dealer, calls, n - 1).4.len() == 10,
        named_entry_right(dealer, calls, n - 1, side, strain),
    ensures
        named_entry_right(dealer, calls, n, side, strain),
{
    let (seat, last, doubled, redoubled, named) = resolve_fold(dealer, calls, n - 1);
    let (seat2, last2, doubled2, redoubled2, named2) = resolve_fold(dealer, calls, n);
    let p = n - 1;
    assert(named_entry_right(dealer, calls, p, side, strain));
    let k = 5 * side + spec_strain_index(strain);
    let hit = side_names(dealer, calls, p, side, strain);
    if hit {
        assert(calls[p] is Bid);
        let t = calls[p]->Bid_strain;
        assert(t == strain);
        assert(side_index(seat) == side);
        if named[k] is None {
            assert(named2[k] == Some(seat));
            assert(first_namer(dealer, calls, n, side, strain, Some(seat))) by {
                assert(side_names(dealer, calls, p, side, strain));
            }
        } else {
            assert(named2[k] == named[k]);
            let d = named[k]->Some_0;
            let i = choose|i: int|
                #![trigger side_names(dealer, calls, i, side, strain)]
                0 <= i < p && side_names(dealer, calls, i, side, strain) && seat_at(dealer, i)
                    == d && forall|j: int|
                    0 <= j < i ==> !#[trigger] side_names(dealer, calls, j, side, strain);
            assert(first_namer(dealer, calls, n, side, strain, named2[k])) by {
                assert(side_names(dealer, calls, i, side, strain));
            }
        }
    } else {
        if calls[p] is Bid {
            let t = calls[p]->Bid_strain;
            let k2 = 5 * side_index(seat) + spec_strain_index(t);
            assert(k2 != k) by {
                if t != strain {
                    assert(spec_strain_index(t) != spec_strain_index(strain));
                }
            }
            assert(named2[k] == named[k]);
        } else {
            assert(named2 == named);
        }
        match named[k] {
            None => {
                assert forall|j: int| 0 <= j < n implies !#[trigger] side_names(
                    dealer,
                    calls,
                    j,
                    side,
                    strain,
                ) by {
                    if j < p {
                    }
                }
            },
            Some(d) => {
                let i = choose|i: int|
                    #![trigger side_names(dealer, calls, i, side, strain)]
                    0 <= i < p && side_names(dealer, calls, i, side, strain) && seat_at(dealer, i)
                        == d && forall|j: int|
                        0 <= j < i ==> !#[trigger] side_names(dealer, calls, j, side, strain);
                assert(side_names(dealer, calls, i, side, strain));
            },
        }
    }
}

/// One call more keeps the last bid and its doubling right.
proof fn lemma_last_step(dealer: Direction, calls: Seq<Call>, n: int)
    requires
        1 <= n <= calls.len(),
        resolve_fold(dealer, calls, n - 1).0 == seat_at(dealer, n - 1),
        last_bid_right(
            dealer,
            calls,
            n - 1,
            resolve_fold(dealer, calls, n - 1).1,
            resolve_fold(dealer, calls, n - 1).2,
            resolve_fold(dealer, calls, n - 1).3,
        ),
    ensures
        last_bid_right(
            dealer,
            calls,
            n,
            resolve_fold(dealer, calls, n).1,
            resolve_fold(dealer, calls, n).2,
            resolve_fold(dealer, calls, n).3,
        ),
{
    let (seat, last, doubled, redoubled, named) = resolve_fold(dealer, calls, n - 1);
    let (seat2, last2, doubled2, redoubled2, named2) = resolve_fold(dealer, calls, n);
    let p = n - 1;
    match calls[p] {
        Call::Bid { level, strain } => {
            assert(calls[p] == Call::Bid { level, strain });
            assert(!exists|j: int| p < j < n && #[trigger] calls[j] is Double);
            assert(!exists|j: int| p < j < n && #[trigger] calls[j] is Redouble);
        },
        _ => {
            match last {
                None => {
                    assert forall|j: int| 0 <= j < n implies !(#[trigger] calls[j] is Bid) by {
                        if j < p {
                        }
                    }
                },
                Some((l, t, b)) => {
                    let i = choose|i: int|
                        #![trigger calls[i]]
                        0 <= i < p && calls[i] == Call::Bid { level: l, strain: t } && seat_at(dealer, i)
                            == b && (forall|j: int| i < j < p ==> !(#[trigger] calls[j] is Bid))
                            && (doubled <==> exists|j: int| i < j < p && #[trigger] calls[j] is Double)
                            && (redoubled <==> exists|j: int| i < j < p && #[trigger] calls[j] is Redouble);
                    assert(calls[i] == Call::Bid { level: l, strain: t });
                    assert(doubled2 <==> exists|j: int| i < j < n && #[trigger] calls[j] is Double) by {
                        if exists|j: int| i < j < n && #[trigger] calls[j] is Double {
                            let j = choose|j: int| i < j < n && #[trigger] calls[j] is Double;
                            if j < p {
                                assert(doubled);
                            }
                        }
                        if doubled {
                            let j = choose|j: int| i < j < p && #[trigger] calls[j] is Double;
                            assert(i < j < n);
                        }
                        if calls[p] is Double {
                            assert(i < p < n && calls[p] is Double);
                        }
                    }
                    assert(redoubled2 <==> exists|j: int| i < j < n && #[trigger] calls[j] is Redouble) by {
                        if exists|j: int| i < j < n && #[trigger] calls[j] is Redouble {
                            let j = choose|j: int| i < j < n && #[trigger] calls[j] is Redouble;
                            if j < p {
                                assert(redoubled);
                            }
                        }
                        if redoubled {
                            let j = choose|j: int| i < j < p && #[trigger] calls[j] is Redouble;
                            assert(i < j < n);
                        }
                        if calls[p] is Redouble {
                            assert(i < p < n && calls[p] is Redouble);
                        }
                    }
                },
            }
        },
    }
}

proof fn lemma_resolve_fold_meaning(dealer: Direction, calls: Seq<Call>, n: int)
    requires
        0 <= n <= calls.len(),
    ensures
        resolve_fold(dealer, calls, n).0 == seat_at(dealer, n),
        resolve_fold(dealer, calls, n).4.len() == 10,
        forall|side: int, strain: Strain|
            0 <= side <= 1 ==> #[trigger] named_entry_right(dealer, calls, n, side, strain),
        last_bid_right(
            dealer,
            calls,
            n,
            resolve_fold(dealer, calls, n).1,
            resolve_fold(dealer, calls, n).2,
            resolve_fold(dealer, calls, n).3,
        ),
    decreases n,
{
    if n > 0 {
        lemma_resolve_fold_meaning(dealer, calls, n - 1);
        assert forall|side: int, strain: Strain|
            0 <= side <= 1 implies #[trigger] named_entry_right(dealer, calls, n, side, strain) by {
            lemma_named_step(dealer, calls, n, side, strain);
        }
        lemma_last_step(dealer, calls, n);
    }
}

/// The contract an auction settles on is its last bid, doubled or
/// redoubled exactly when a double or redouble followed that bid, and it
/// is declared by the player of the last bidder's side who first bid the
/// final strain: that player bid the strain, and no call of the side
/// before it did.
pub proof fn lemma_declarer_first_named_strain(dealer: Direction, calls: Seq<Call>)
    ensures
        spec_resolve(dealer, calls) matches Some(c) ==> {
            &&& exists|i: int|
                #![trigger calls[i]]
                0 <= i < calls.len() && calls[i] == Call::Bid { level: c.level, strain: c.strain }
                    && side_index(seat_at(dealer, i)) == side_index(c.declarer) && (forall|j: int|
                    i < j < calls.len() ==> !(#[trigger] calls[j] is Bid)) && (c.doubled <==> exists|j: int|
                    i < j < calls.len() && #[trigger] calls[j] is Double) && (c.redoubled <==> exists|j: int|
                    i < j < calls.len() && #[trigger] calls[j] is Redouble)
            &&& exists|i: int|
                #![trigger calls[i]]
                0 <= i < calls.len() && bids_strain(calls[i], c.strain) && seat_at(dealer, i) == c.declarer
                    && forall|j: int|
                    0 <= j < i && bids_strain(#[trigger] calls[j], c.strain) ==> side_index(seat_at(dealer, j))
                        != side_index(c.declarer)
        },
        spec_resolve(dealer, calls) is None <==> forall|j: int| 0 <= j < calls.len() ==> !(#[trigger] calls[j] is Bid),
{
    let n = calls.len() as int;
    lemma_resolve_fold_meaning(dealer, calls, n);
    lemma_resolve_fold(dealer, calls, n);
    let (seat, last, doubled, redoubled, named) = resolve_fold(dealer, calls, n);
    match last {
        None => {},
        Some((l, t, b)) => {
            let i = choose|i: int|
                #![trigger calls[i]]
                0 <= i < n && calls[i] == Call::Bid { level: l, strain: t } && seat_at(dealer, i) == b
                    && (forall|j: int| i < j < n ==> !(#[trigger] calls[j] is Bid))
                    && (doubled <==> exists|j: int| i < j < n && #[trigger] calls[j] is Double)
                    && (redoubled <==> exists|j: int| i < j < n && #[trigger] calls[j] is Redouble);
            assert(calls[i] is Bid);
            let side = side_index(b);
            assert(named_entry_right(dealer, calls, n, side, t));
            match named[5 * side + spec_strain_index(t)] {
                None => {
                    assert(!side_names(dealer, calls, i, side, t));
                },
                Some(d) => {
                    let c = spec_resolve(dealer, calls).unwrap();
                    assert(c.declarer == d);
                    let i2 = choose|i2: int|
                        #![trigger side_names(dealer, calls, i2, side, t)]
                        0 <= i2 < n && side_names(dealer, calls, i2, side, t) && seat_at(dealer, i2) == d
                            && forall|j: int| 0 <= j < i2 ==> !#[trigger] side_names(dealer, calls, j, side, t);
                    assert(side_index(d) == side);
                    assert forall|j: int|
                        0 <= j < i2 && bids_strain(#[trigger] calls[j], c.strain) implies side_index(
                        seat_at(dealer, j),
                    ) != side_index(c.declarer) by {
                        assert(!side_names(dealer, calls, j, side, t));
                    }
                },
            }
        },
    }
    assert((forall|j: int| 0 <= j < n ==> !(#[trigger] calls[j] is Bid)) <==> !has_bid(calls, n));
}

} // verus!
