//! Operations on byte strings.

use vstd::prelude::*;

verus! {

/// A horizontal tab.
pub const TAB: u8 = 0x09;

/// A line feed.
pub const LINE_FEED: u8 = 0x0a;

/// A space.
pub const SPACE: u8 = 0x20;

/// A double quotation mark.
pub const QUOTE: u8 = 0x22;

/// An apostrophe, which is also the single quotation mark.
pub const APOSTROPHE: u8 = 0x27;

/// A hyphen.
pub const HYPHEN: u8 = 0x2d;

/// A full stop.
pub const DOT: u8 = 0x2e;

/// A slash.
pub const SLASH: u8 = 0x2f;

/// A backslash.
pub const BACKSLASH: u8 = 0x5c;

/// The decimal digits of `n`, most significant first.
pub open spec fn decimal(n: nat) -> Seq<u8>
    decreases n,
{
    if n < 10 {
        seq![(48 + n) as u8]
    } else {
        decimal(n / 10).push((48 + n % 10) as u8)
    }
}

/// The contents of each byte vector.
pub open spec fn texts(v: Seq<Vec<u8>>) -> Seq<Seq<u8>> {
    v.map_values(|t: Vec<u8>| t@)
}

/// The parts in order, with `sep` between each two neighbours.
pub open spec fn joined(parts: Seq<Seq<u8>>, sep: Seq<u8>) -> Seq<u8>
    decreases parts.len(),
{
    if parts.len() == 0 {
        Seq::empty()
    } else if parts.len() == 1 {
        parts[0]
    } else {
        parts[0] + sep + joined(parts.skip(1), sep)
    }
}

/// A fresh vector with the bytes of `s`.
pub fn to_vec(s: &[u8]) -> (r: Vec<u8>)
    ensures
        r@ == s@,
{
    let mut r: Vec<u8> = Vec::new();
    r.extend_from_slice(s);
    assert(r@ == s@);
    r
}

/// The index of the first `needle` in `haystack`.
pub fn memchr(needle: u8, haystack: &[u8]) -> (r: Option<usize>)
    ensures
        match r {
            Some(i) => i < haystack@.len() && haystack@[i as int] == needle && forall|j: int|
                0 <= j < i ==> haystack@[j] != needle,
            None => !haystack@.contains(needle),
        },
{
    let mut i: usize = 0;
    while i < haystack.len()
        invariant
            i <= haystack@.len(),
            forall|j: int| 0 <= j < i ==> haystack@[j] != needle,
        decreases haystack@.len() - i,
    {
        if haystack[i] == needle {
            return Some(i);
        }
        i = i + 1;
    }
    None
}

/// Whether `s` begins with `prefix`.
pub fn starts_with(s: &[u8], prefix: &[u8]) -> (r: bool)
    ensures
        r == prefix@.is_prefix_of(s@),
{
    if prefix.len() > s.len() {
        return false;
    }
    let mut i: usize = 0;
    while i < prefix.len()
        invariant
            i <= prefix@.len() <= s@.len(),
            forall|j: int| 0 <= j < i ==> s@[j] == prefix@[j],
        decreases prefix@.len() - i,
    {
        if s[i] != prefix[i] {
            assert(s@.subrange(0, prefix@.len() as int)[i as int] != prefix@[i as int]);
            return false;
        }
        i = i + 1;
    }
    assert(s@.subrange(0, prefix@.len() as int) =~= prefix@);
    true
}

/// Whether the two byte strings are equal.
pub fn same(a: &[u8], b: &[u8]) -> (r: bool)
    ensures
        r == (a@ == b@),
{
    if a.len() != b.len() {
        return false;
    }
    let r: bool = starts_with(a, b);
    assert(a@.subrange(0, a@.len() as int) =~= a@);
    r
}

/// The decimal digits of `n`, as [`decimal`] says.
pub fn decimal_digits(n: u64) -> (r: Vec<u8>)
    ensures
        r@ == decimal(n as nat),
    decreases n,
{
    if n < 10 {
        let d: u8 = 48 + n as u8;
        let mut r: Vec<u8> = Vec::new();
        r.push(d);
        assert(r@ =~= decimal(n as nat));
        r
    } else {
        let mut r: Vec<u8> = decimal_digits(n / 10);
        let d: u8 = 48 + (n % 10) as u8;
        r.push(d);
        r
    }
}

/// The parts in order, with `sep` between each two neighbours.
pub fn join(parts: &Vec<Vec<u8>>, sep: &[u8]) -> (r: Vec<u8>)
    ensures
        r@ == joined(texts(parts@), sep@),
{
    let ghost all = texts(parts@);
    let mut r: Vec<u8> = Vec::new();
    let mut i: usize = 0;
    assert(all.skip(0) =~= all);
    while i < parts.len()
        invariant
            i <= parts@.len(),
            all == texts(parts@),
            joined(all, sep@) == if i == 0 {
                joined(all.skip(0), sep@)
            } else if i < parts@.len() {
                r@ + sep@ + joined(all.skip(i as int), sep@)
            } else {
                r@
            },
            i == 0 ==> r@.len() == 0,
        decreases parts@.len() - i,
    {
        let ghost before = r@;
        if i > 0 {
            r.extend_from_slice(sep);
        }
        r.extend_from_slice(parts[i].as_slice());
        proof {
            let tail = all.skip(i as int);
            assert(tail[0] == parts@[i as int]@);
            assert(tail.skip(1) =~= all.skip(i + 1));
            if i > 0 {
                assert(r@ =~= before + sep@ + tail[0]);
            } else {
                assert(r@ =~= tail[0]);
            }
            if i + 1 < parts@.len() {
                assert(joined(all, sep@) =~= r@ + sep@ + joined(all.skip(i + 1), sep@));
            } else {
                assert(joined(all, sep@) =~= r@);
            }
        }
        i = i + 1;
    }
    r
}

} // verus!
