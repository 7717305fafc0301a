//! Unix paths as byte strings.
//!
//! A path is read as a sequence of components. Slashes separate them; an empty component and `.`
//! count for nothing, except that a leading slash (the root) and a leading `.` of a relative path
//! are components of their own.

use crate::bytes::same;
use crate::bytes::to_vec;
use crate::bytes::DOT;
use crate::bytes::SLASH;
use vstd::prelude::*;

verus! {

/// Whether the path starts at the root.
pub open spec fn has_root(p: Seq<u8>) -> bool {
    p.len() > 0 && p[0] == SLASH
}

/// Whether the path is relative and written with a leading `.`.
pub open spec fn has_leading_dot(p: Seq<u8>) -> bool {
    p.len() > 0 && p[0] == DOT && (p.len() == 1 || p[1] == SLASH)
}

/// The index of the first slash of `p` at or after `at`, or the length of `p`.
pub open spec fn segment_end(p: Seq<u8>, at: int) -> int
    decreases p.len() - at,
{
    if at >= p.len() || p[at] == SLASH {
        at
    } else {
        segment_end(p, at + 1)
    }
}

/// Whether what stands between two slashes is a component.
pub open spec fn is_component(segment: Seq<u8>) -> bool {
    segment.len() > 0 && segment != seq![DOT]
}

/// Where the components of `p` begin and end that start at or after `at`, a position that begins
/// a segment.
pub open spec fn spans_from(p: Seq<u8>, at: int) -> Seq<(int, int)>
    decreases p.len() + 1 - at,
    when 0 <= at
{
    if at >= p.len() {
        Seq::empty()
    } else {
        proof {
            lemma_segment_end(p, at);
        }
        let end = segment_end(p, at);
        let rest = spans_from(p, end + 1);
        if is_component(p.subrange(at, end)) {
            seq![(at, end)] + rest
        } else {
            rest
        }
    }
}

/// Where the components of `p` begin and end.
pub open spec fn spans(p: Seq<u8>) -> Seq<(int, int)> {
    if has_root(p) || has_leading_dot(p) {
        seq![(0int, 1int)] + spans_from(p, 1)
    } else {
        spans_from(p, 0)
    }
}

/// The components of `p`.
pub open spec fn components(p: Seq<u8>) -> Seq<Seq<u8>> {
    spans(p).map_values(|s: (int, int)| p.subrange(s.0, s.1))
}

/// Whether `p` is `prefix` or lies below it.
pub open spec fn is_under(p: Seq<u8>, prefix: Seq<u8>) -> bool {
    components(prefix).is_prefix_of(components(p))
}

/// What `p` says from its component number `k` on: the text from where that component begins to
/// where the last one ends.
pub open spec fn tail_from(p: Seq<u8>, k: int) -> Seq<u8> {
    let s = spans(p);
    if k < s.len() {
        p.subrange(s[k].0, s.last().1)
    } else {
        Seq::empty()
    }
}

/// `p` relative to `prefix`, if it is under it.
pub open spec fn stripped(p: Seq<u8>, prefix: Seq<u8>) -> Option<Seq<u8>> {
    if is_under(p, prefix) {
        Some(tail_from(p, components(prefix).len() as int))
    } else {
        None
    }
}

/// `p` as seen from `base`: a path with a root stands for itself, any other is appended, after a
/// slash if `base` needs one.
pub open spec fn path_joined(base: Seq<u8>, p: Seq<u8>) -> Seq<u8> {
    if has_root(p) {
        p
    } else if base.len() > 0 && base.last() != SLASH {
        base.push(SLASH) + p
    } else {
        base + p
    }
}

/// The last component, if it names an entry of a directory.
pub open spec fn last_name(p: Seq<u8>) -> Option<Seq<u8>> {
    let c = components(p);
    if c.len() == 0 || c.last() == seq![SLASH] || c.last() == seq![DOT] || c.last() == seq![DOT, DOT] {
        None
    } else {
        Some(c.last())
    }
}

/// A segment ends at or after where it begins, within the path, and holds no slash.
pub proof fn lemma_segment_end(p: Seq<u8>, at: int)
    requires
        0 <= at <= p.len(),
    ensures
        at <= segment_end(p, at) <= p.len(),
        segment_end(p, at) < p.len() ==> p[segment_end(p, at)] == SLASH,
        forall|i: int| at <= i < segment_end(p, at) ==> p[i] != SLASH,
    decreases p.len() - at,
{
    if at < p.len() && p[at] != SLASH {
        lemma_segment_end(p, at + 1);
    }
}

/// Components lie within the path, in order, and are not empty.
pub proof fn lemma_spans_from(p: Seq<u8>, at: int)
    requires
        0 <= at,
    ensures
        forall|i: int|
            0 <= i < spans_from(p, at).len() ==> at <= (#[trigger] spans_from(p, at)[i]).0
                < spans_from(p, at)[i].1 <= p.len(),
        forall|i: int, j: int|
            0 <= i < j < spans_from(p, at).len() ==> (#[trigger] spans_from(p, at)[i]).1 < (
            #[trigger] spans_from(p, at)[j]).0,
    decreases p.len() + 1 - at,
{
    if at < p.len() {
        lemma_segment_end(p, at);
        let end = segment_end(p, at);
        let rest = spans_from(p, end + 1);
        let all = spans_from(p, at);
        lemma_spans_from(p, end + 1);
        if is_component(p.subrange(at, end)) {
            assert forall|i: int| 0 <= i < all.len() implies at <= (#[trigger] all[i]).0 < all[i].1
                <= p.len() by {
                if i > 0 {
                    assert(all[i] == rest[i - 1]);
                }
            }
            assert forall|i: int, j: int| 0 <= i < j < all.len() implies (#[trigger] all[i]).1 < (
            #[trigger] all[j]).0 by {
                assert(all[j] == rest[j - 1]);
                if i > 0 {
                    assert(all[i] == rest[i - 1]);
                }
            }
        }
    }
}

/// Components lie within the path, in order, and are not empty.
pub proof fn lemma_spans(p: Seq<u8>)
    ensures
        forall|i: int|
            0 <= i < spans(p).len() ==> 0 <= (#[trigger] spans(p)[i]).0 < spans(p)[i].1 <= p.len(),
        forall|i: int, j: int|
            0 <= i < j < spans(p).len() ==> (#[trigger] spans(p)[i]).1 <= (#[trigger] spans(p)[j]).0,
{
    lemma_spans_from(p, 0);
    lemma_spans_from(p, 1);
}

/// The mathematical counterpart of a vector of index pairs.
pub open spec fn pairs(v: Seq<(usize, usize)>) -> Seq<(int, int)> {
    v.map_values(|s: (usize, usize)| (s.0 as int, s.1 as int))
}

/// Where the components of `p` begin and end.
fn find_spans(p: &[u8]) -> (r: Vec<(usize, usize)>)
    ensures
        pairs(r@) == spans(p@),
{
    let mut found: Vec<(usize, usize)> = Vec::new();
    let mut at: usize = 0;
    if p.len() > 0 && (p[0] == SLASH || (p[0] == DOT && (p.len() == 1 || p[1] == SLASH))) {
        found.push((0, 1));
        at = 1;
    }
    assert(pairs(found@) + spans_from(p@, at as int) =~= spans(p@));
    while at < p.len()
        invariant
            at <= p@.len(),
            pairs(found@) + spans_from(p@, at as int) =~= spans(p@),
        decreases p@.len() - at,
    {
        let mut end: usize = at;
        while end < p.len() && p[end] != SLASH
            invariant
                at <= end <= p@.len(),
                segment_end(p@, at as int) == segment_end(p@, end as int),
            decreases p@.len() - end,
        {
            end = end + 1;
        }
        let ghost before = pairs(found@);
        let ghost rest = spans_from(p@, end + 1);
        if at < end && !(end - at == 1 && p[at] == DOT) {
            found.push((at, end));
            assert(pairs(found@) =~= before.push((at as int, end as int)));
            assert(is_component(p@.subrange(at as int, end as int))) by {
                assert(seq![DOT].len() == 1);
                if end - at == 1 {
                    assert(p@.subrange(at as int, end as int)[0] == p@[at as int]);
                    assert(seq![DOT][0] == DOT);
                }
            }
        } else {
            assert(!is_component(p@.subrange(at as int, end as int))) by {
                if at < end {
                    assert(p@.subrange(at as int, end as int) =~= seq![DOT]);
                }
            }
        }
        assert(pairs(found@) + rest =~= spans(p@));
        if end < p.len() {
            at = end + 1;
        } else {
            at = p.len();
        }
    }
    found
}

/// `p` relative to `prefix`, if it is under it.
pub fn strip_prefix(p: &[u8], prefix: &[u8]) -> (r: Option<Vec<u8>>)
    ensures
        match r {
            Some(suffix) => stripped(p@, prefix@) == Some(suffix@),
            None => stripped(p@, prefix@) is None,
        },
{
    proof {
        lemma_spans(p@);
        lemma_spans(prefix@);
    }
    let own: Vec<(usize, usize)> = find_spans(p);
    let lead: Vec<(usize, usize)> = find_spans(prefix);
    let ghost of_p = components(p@);
    let ghost of_prefix = components(prefix@);
    assert(pairs(own@).len() == own@.len());
    assert(pairs(lead@).len() == lead@.len());
    if lead.len() > own.len() {
        return None;
    }
    let mut i: usize = 0;
    while i < lead.len()
        invariant
            i <= lead@.len() <= own@.len(),
            pairs(own@) == spans(p@),
            pairs(lead@) == spans(prefix@),
            of_p == components(p@),
            of_prefix == components(prefix@),
            own@.len() == of_p.len(),
            lead@.len() == of_prefix.len(),
            forall|j: int|
                0 <= j < spans(p@).len() ==> 0 <= (#[trigger] spans(p@)[j]).0 < spans(p@)[j].1
                    <= p@.len(),
            forall|j: int|
                0 <= j < spans(prefix@).len() ==> 0 <= (#[trigger] spans(prefix@)[j]).0 < spans(
                    prefix@,
                )[j].1 <= prefix@.len(),
            forall|j: int| 0 <= j < i ==> of_p[j] == of_prefix[j],
        decreases lead@.len() - i,
    {
        let a: (usize, usize) = own[i];
        let b: (usize, usize) = lead[i];
        assert(spans(p@)[i as int] == (a.0 as int, a.1 as int)) by {
            assert(pairs(own@)[i as int] == (a.0 as int, a.1 as int));
        }
        assert(spans(prefix@)[i as int] == (b.0 as int, b.1 as int)) by {
            assert(pairs(lead@)[i as int] == (b.0 as int, b.1 as int));
        }
        if !same(&p[a.0..a.1], &prefix[b.0..b.1]) {
            assert(of_p.subrange(0, of_prefix.len() as int)[i as int] != of_prefix[i as int]);
            return None;
        }
        i = i + 1;
    }
    assert(of_p.subrange(0, of_prefix.len() as int) =~= of_prefix);
    if i < own.len() {
        let first: (usize, usize) = own[i];
        let last: (usize, usize) = own[own.len() - 1];
        assert(spans(p@)[i as int] == (first.0 as int, first.1 as int)) by {
            assert(pairs(own@)[i as int] == (first.0 as int, first.1 as int));
        }
        assert(spans(p@).last() == (last.0 as int, last.1 as int)) by {
            assert(pairs(own@)[own@.len() - 1] == (last.0 as int, last.1 as int));
        }
        Some(to_vec(&p[first.0..last.1]))
    } else {
        Some(Vec::new())
    }
}

/// `p` as seen from `base`.
pub fn join_path(base: &[u8], p: &[u8]) -> (r: Vec<u8>)
    ensures
        r@ == path_joined(base@, p@),
{
    let mut r: Vec<u8> = Vec::new();
    if p.len() == 0 || p[0] != SLASH {
        r.extend_from_slice(base);
        if base.len() > 0 && base[base.len() - 1] != SLASH {
            r.push(SLASH);
        }
    }
    r.extend_from_slice(p);
    assert(r@ =~= path_joined(base@, p@));
    r
}

/// The last component, if it names an entry of a directory.
pub fn file_name(p: &[u8]) -> (r: Option<Vec<u8>>)
    ensures
        match r {
            Some(name) => last_name(p@) == Some(name@),
            None => last_name(p@) is None,
        },
{
    proof {
        lemma_spans(p@);
    }
    let own: Vec<(usize, usize)> = find_spans(p);
    assert(pairs(own@).len() == own@.len());
    if own.len() == 0 {
        return None;
    }
    let last: (usize, usize) = own[own.len() - 1];
    assert(spans(p@).last() == (last.0 as int, last.1 as int)) by {
        assert(pairs(own@)[own@.len() - 1] == (last.0 as int, last.1 as int));
    }
    let name: &[u8] = &p[last.0..last.1];
    assert(components(p@).last() == name@);
    let root: [u8; 1] = [SLASH];
    let here: [u8; 1] = [DOT];
    let parent: [u8; 2] = [DOT, DOT];
    assert(root@ =~= seq![SLASH]);
    assert(here@ =~= seq![DOT]);
    assert(parent@ =~= seq![DOT, DOT]);
    if same(name, root.as_slice()) || same(name, here.as_slice()) || same(name, parent.as_slice()) {
        None
    } else {
        Some(to_vec(name))
    }
}

} // verus!
