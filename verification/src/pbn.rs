//! Reading PBN tag lines.

use vstd::prelude::*;
use crate::text::{chars_of, string_of, trim, spec_trim};

verus! {

/// The first place from `i` on where `s` holds `a` or `b`.
pub open spec fn first_of(s: Seq<char>, a: char, b: char, i: int) -> Option<int>
    decreases s.len() - i,
{
    if i < 0 || i >= s.len() {
        None
    } else if s[i] == a || s[i] == b {
        Some(i)
    } else {
        first_of(s, a, b, i + 1)
    }
}

/// The name of a tag line `[Name "value"]`: after the `[` that starts the
/// trimmed line, up to the first space or `]`. `None` for a line that is
/// no tag or whose name never ends.
pub open spec fn spec_extract_tag_name(line: Seq<char>) -> Option<Seq<char>> {
    let t = spec_trim(line);
    if t.len() > 0 && t[0] == '[' {
        match first_of(t, ' ', ']', 1) {
            Some(e) => Some(t.subrange(1, e)),
            None => None,
        }
    } else {
        None
    }
}

/// The name of a PBN tag line, e.g. `Event` for `[Event "Test"]`.
pub fn extract_tag_name(line: &str) -> (r: Option<String>)
    ensures
        match r {
            None => spec_extract_tag_name(line@) is None,
            Some(name) => spec_extract_tag_name(line@) == Some(name@),
        },
{
    let chars = chars_of(line);
    let t = trim(&chars);
    if t.len() == 0 || t[0] != '[' {
        return None;
    }
    let mut e: usize = 1;
    while e < t.len() && t[e] != ' ' && t[e] != ']'
        invariant
            1 <= e <= t@.len(),
            first_of(t@, ' ', ']', 1) == first_of(t@, ' ', ']', e as int),
        decreases t@.len() - e,
    {
        e += 1;
    }
    if e == t.len() {
        return None;
    }
    let mut name: Vec<char> = Vec::new();
    let mut k: usize = 1;
    while k < e
        invariant
            1 <= k <= e < t@.len(),
            name@ == t@.subrange(1, k as int),
        decreases e - k,
    {
        name.push(t[k]);
        proof {
            assert(name@ =~= t@.subrange(1, k + 1));
        }
        k += 1;
    }
    Some(string_of(&name))
}

} // verus!
