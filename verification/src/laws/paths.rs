//! What paths mean, stated on their bytes: how they are taken apart, joined, and stripped.

use crate::bytes::joined;
use crate::bytes::SLASH;
use crate::path::components;
use crate::path::has_leading_dot;
use crate::path::has_root;
use crate::path::is_component;
use crate::path::last_name;
use crate::path::lemma_segment_end;
use crate::path::lemma_spans;
use crate::path::lemma_spans_from;
use crate::path::path_joined;
use crate::path::segment_end;
use crate::path::spans;
use crate::path::spans_from;
use crate::path::stripped;
use crate::shares::rewritten;
use crate::shares::Mapping;
use vstd::prelude::*;

verus! {

/// The segments with a slash between each two.
pub open spec fn slashed(segs: Seq<Seq<u8>>) -> Seq<u8> {
    joined(segs, seq![0x2fu8])
}

/// Whether no segment holds a slash.
pub open spec fn are_segments(segs: Seq<Seq<u8>>) -> bool {
    forall|i: int, j: int|
        0 <= i < segs.len() && 0 <= j < segs[i].len() ==> #[trigger] segs[i][j] != 0x2f
}

/// Whether a segment counts: it is neither empty nor a single full stop.
pub open spec fn counts(seg: Seq<u8>) -> bool {
    seg.len() > 0 && !(seg.len() == 1 && seg[0] == 0x2e)
}

/// Whether none of the segments counts.
pub open spec fn none_counts(segs: Seq<Seq<u8>>) -> bool {
    forall|i: int| 0 <= i < segs.len() ==> !counts(#[trigger] segs[i])
}

proof fn lemma_counts(seg: Seq<u8>)
    ensures
        counts(seg) == is_component(seg),
{
    if seg.len() == 1 && seg[0] == 0x2e {
        assert(seg =~= seq![crate::bytes::DOT]);
    }
    assert(seq![crate::bytes::DOT].len() == 1 && seq![crate::bytes::DOT][0] == 0x2e);
}

/// The components that `p` has by these spans.
spec fn cut(p: Seq<u8>, s: Seq<(int, int)>) -> Seq<Seq<u8>> {
    s.map_values(|x: (int, int)| p.subrange(x.0, x.1))
}

/// `s` with every position moved by `k`.
pub open spec fn moved(s: Seq<(int, int)>, k: int) -> Seq<(int, int)> {
    s.map_values(|x: (int, int)| (x.0 + k, x.1 + k))
}

/// What follows `p` is read as it would be on its own.
proof fn lemma_spans_behind(p: Seq<u8>, q: Seq<u8>, at: int)
    requires
        0 <= at,
    ensures
        spans_from(p + q, p.len() + at) == moved(spans_from(q, at), p.len() as int),
    decreases q.len() + 1 - at,
{
    let pq = p + q;
    let k = p.len() as int;
    if at < q.len() {
        lemma_segment_end(q, at);
        lemma_segment_behind(p, q, at);
        let end = segment_end(q, at);
        lemma_spans_behind(p, q, end + 1);
        assert(pq.subrange(k + at, k + end) =~= q.subrange(at, end));
        assert(spans_from(pq, k + at) =~= moved(spans_from(q, at), k));
    } else {
        assert(spans_from(pq, k + at) =~= moved(spans_from(q, at), k));
    }
}

proof fn lemma_segment_behind(p: Seq<u8>, q: Seq<u8>, at: int)
    requires
        0 <= at <= q.len(),
    ensures
        segment_end(p + q, p.len() + at) == p.len() + segment_end(q, at),
    decreases q.len() - at,
{
    if at < q.len() && q[at] != SLASH {
        lemma_segment_behind(p, q, at + 1);
    }
}

/// Where `p` ends with a slash, what stands before is read as it would be on its own.
proof fn lemma_spans_before(p: Seq<u8>, q: Seq<u8>, at: int)
    requires
        0 <= at <= p.len(),
        p.len() > 0,
        p.last() == SLASH,
    ensures
        spans_from(p + q, at) == spans_from(p, at) + moved(spans_from(q, 0), p.len() as int),
    decreases p.len() - at,
{
    let pq = p + q;
    if at == p.len() {
        lemma_spans_behind(p, q, 0);
        assert(spans_from(p, at) =~= Seq::empty());
        assert(spans_from(p, at) + moved(spans_from(q, 0), p.len() as int) =~= moved(
            spans_from(q, 0),
            p.len() as int,
        ));
    } else {
        lemma_segment_end(p, at);
        lemma_segment_before(p, q, at);
        let end = segment_end(p, at);
        lemma_spans_before(p, q, end + 1);
        assert(pq.subrange(at, end) =~= p.subrange(at, end));
        assert(spans_from(pq, at) =~= spans_from(p, at) + moved(
            spans_from(q, 0),
            p.len() as int,
        ));
    }
}

proof fn lemma_segment_before(p: Seq<u8>, q: Seq<u8>, at: int)
    requires
        0 <= at < p.len(),
        p.last() == SLASH,
    ensures
        segment_end(p + q, at) == segment_end(p, at) < p.len(),
    decreases p.len() - at,
{
    if p[at] != SLASH {
        lemma_segment_before(p, q, at + 1);
    }
}

/// A slash at the end adds no component.
proof fn lemma_spans_slash(p: Seq<u8>, at: int)
    requires
        0 <= at <= p.len(),
    ensures
        spans_from(p.push(SLASH), at) == spans_from(p, at),
    decreases p.len() + 1 - at,
{
    let q = p.push(SLASH);
    lemma_segment_slash(p, at);
    lemma_segment_end(p, at);
    let end = segment_end(p, at);
    assert(q.subrange(at, end) =~= p.subrange(at, end));
    assert(spans_from(q, q.len() as int) =~= Seq::empty());
    assert(spans_from(p, (p.len() + 1) as int) =~= Seq::empty());
    if at < p.len() {
        if end < p.len() {
            lemma_spans_slash(p, end + 1);
        }
    } else {
        assert(!is_component(q.subrange(at, end)));
        assert(spans_from(p, at) =~= Seq::empty());
    }
}

proof fn lemma_segment_slash(p: Seq<u8>, at: int)
    requires
        0 <= at <= p.len(),
    ensures
        segment_end(p.push(SLASH), at) == segment_end(p, at),
    decreases p.len() - at,
{
    if at < p.len() && p[at] != SLASH {
        lemma_segment_slash(p, at + 1);
    }
}

/// The first segment, and what follows it.
proof fn lemma_first_segment(segs: Seq<Seq<u8>>)
    requires
        segs.len() > 0,
        are_segments(segs),
    ensures
        segment_end(slashed(segs), 0) == segs[0].len(),
        slashed(segs).subrange(0, segs[0].len() as int) == segs[0],
        segs.len() == 1 ==> slashed(segs) == segs[0],
        segs.len() > 1 ==> slashed(segs) == segs[0].push(SLASH) + slashed(segs.skip(1)),
        are_segments(segs.skip(1)),
{
    let p = slashed(segs);
    let n = segs[0].len() as int;
    assert(p.subrange(0, n) =~= segs[0]);
    if segs.len() > 1 {
        assert(p =~= segs[0].push(SLASH) + slashed(segs.skip(1)));
    }
    lemma_segment_end(p, 0);
    let end = segment_end(p, 0);
    assert forall|j: int| 0 <= j < n implies p[j] != SLASH by {
        assert(p[j] == segs[0][j]);
    }
    assert(end == n) by {
        if end > n {
            assert(p[n] == SLASH);
        }
    }
    assert forall|i: int, j: int|
        0 <= i < segs.skip(1).len() && 0 <= j < segs.skip(1)[i].len() implies #[trigger] segs.skip(
        1,
    )[i][j] != 0x2f by {
        assert(segs[i + 1][j] != 0x2f);
    }
}

/// Where the components of a path lie whose first segment is known.
proof fn lemma_spans_of_segments(segs: Seq<Seq<u8>>)
    requires
        segs.len() > 0,
        are_segments(segs),
    ensures
        ({
            let n = segs[0].len() as int;
            let own = if counts(segs[0]) {
                seq![(0int, n)]
            } else {
                Seq::empty()
            };
            spans_from(slashed(segs), 0) == own + if segs.len() > 1 {
                moved(spans_from(slashed(segs.skip(1)), 0), n + 1)
            } else {
                Seq::empty()
            }
        }),
{
    let p = slashed(segs);
    let n = segs[0].len() as int;
    lemma_first_segment(segs);
    lemma_counts(segs[0]);
    if segs.len() > 1 {
        lemma_spans_behind(segs[0].push(SLASH), slashed(segs.skip(1)), 0);
    } else {
        assert(spans_from(p, n + 1) =~= Seq::empty());
    }
    let own = if counts(segs[0]) {
        seq![(0int, n)]
    } else {
        Seq::empty()
    };
    let rest = if segs.len() > 1 {
        moved(spans_from(slashed(segs.skip(1)), 0), n + 1)
    } else {
        Seq::empty()
    };
    if p.len() > 0 {
        assert(spans_from(p, n + 1) =~= rest);
        assert(spans_from(p, 0) =~= own + rest);
    } else {
        assert(spans_from(p, 0) =~= own + rest);
    }
}

/// What a path holds behind a leading slash or full stop.
proof fn lemma_cut_segments(segs: Seq<Seq<u8>>)
    requires
        segs.len() > 0,
        are_segments(segs),
    ensures
        cut(slashed(segs), spans_from(slashed(segs), 0)) == segs.filter(|s: Seq<u8>| counts(s)),
    decreases segs.len(),
{
    let f = |s: Seq<u8>| counts(s);
    let p = slashed(segs);
    let n = segs[0].len() as int;
    let first = seq![segs[0]];
    lemma_first_segment(segs);
    lemma_spans_of_segments(segs);
    assert(segs =~= first + segs.skip(1));
    Seq::filter_distributes_over_add(first, segs.skip(1), f);
    assert(first.filter(f) =~= if f(segs[0]) {
        first
    } else {
        Seq::empty()
    }) by {
        reveal(Seq::filter);
        assert(first.drop_last() =~= Seq::empty());
        assert(first.drop_last().filter(f) =~= Seq::empty());
    }
    if segs.len() > 1 {
        let rest = segs.skip(1);
        let q = slashed(rest);
        lemma_cut_segments(rest);
        let s = spans_from(q, 0);
        lemma_spans_from(q, 0);
        assert forall|i: int| 0 <= i < s.len() implies p.subrange(s[i].0 + n + 1, s[i].1 + n + 1)
            == #[trigger] q.subrange(s[i].0, s[i].1) by {
            assert(p.subrange(s[i].0 + n + 1, s[i].1 + n + 1) =~= q.subrange(s[i].0, s[i].1));
        }
        assert(cut(p, moved(s, n + 1)) =~= cut(q, s));
        assert(cut(p, spans_from(p, 0)) =~= first.filter(f) + cut(q, s));
    } else {
        assert(segs.skip(1) =~= Seq::empty());
        assert(segs.skip(1).filter(f) =~= Seq::empty()) by {
            reveal(Seq::filter);
        }
        assert(cut(p, spans_from(p, 0)) =~= segs.filter(f));
    }
}

/// A path is taken apart at its slashes. Of the segments between them, those count that are neither
/// empty nor a single full stop. A leading slash counts as well, and so does a leading full stop
/// that is a segment of its own.
pub proof fn lemma_components_of_segments(segs: Seq<Seq<u8>>)
    requires
        segs.len() > 0,
        are_segments(segs),
    ensures
        components(slashed(segs)) == if segs.len() > 1 && segs[0].len() == 0 {
            seq![seq![0x2fu8]]
        } else if segs[0] == seq![0x2eu8] {
            seq![seq![0x2eu8]]
        } else {
            Seq::empty()
        } + segs.filter(|s: Seq<u8>| counts(s)),
{
    let p = slashed(segs);
    lemma_cut_segments(segs);
    lemma_first_segment(segs);
    lemma_counts(segs[0]);
    let c = segs.filter(|s: Seq<u8>| counts(s));
    if segs.len() > 1 && segs[0].len() == 0 {
        assert(p[0] == SLASH);
        assert(spans_from(p, 0) == spans_from(p, 1));
        assert(p.subrange(0, 1) =~= seq![0x2fu8]);
        assert(components(p) =~= seq![seq![0x2fu8]] + c);
    } else if segs[0] == seq![0x2eu8] {
        assert(segs[0].len() == 1 && segs[0][0] == 0x2e);
        assert(p[0] == 0x2e);
        assert(has_leading_dot(p));
        assert(spans_from(p, 0) =~= spans_from(p, 2));
        if p.len() > 1 {
            assert(p[1] == SLASH);
            assert(segment_end(p, 1) == 1);
        } else {
            assert(spans_from(p, 1) =~= Seq::empty());
            assert(spans_from(p, 2) =~= Seq::empty());
        }
        assert(spans_from(p, 1) =~= spans_from(p, 2));
        assert(p.subrange(0, 1) =~= seq![0x2eu8]);
        assert(components(p) =~= seq![seq![0x2eu8]] + c);
    } else {
        assert(!has_root(p)) by {
            if has_root(p) {
                if segs[0].len() > 0 {
                    assert(p[0] == segs[0][0]);
                }
            }
        }
        assert(!has_leading_dot(p)) by {
            if has_leading_dot(p) {
                if segs[0].len() == 0 {
                    assert(segs.len() == 1);
                } else if segs[0].len() == 1 {
                    assert(segs[0] =~= seq![0x2eu8]);
                } else {
                    assert(p[1] == segs[0][1]);
                }
            }
        }
        assert(components(p) =~= Seq::<Seq<u8>>::empty() + c);
    }
}

/// Every path consists of segments.
pub proof fn lemma_path_has_segments(p: Seq<u8>) -> (segs: Seq<Seq<u8>>)
    ensures
        segs.len() > 0,
        are_segments(segs),
        slashed(segs) == p,
    decreases p.len(),
{
    lemma_segment_end(p, 0);
    let end = segment_end(p, 0);
    let first = p.take(end);
    if end == p.len() {
        assert(first =~= p);
        assert(slashed(seq![first]) == p);
        seq![first]
    } else {
        let rest = lemma_path_has_segments(p.skip(end + 1));
        let segs = seq![first] + rest;
        assert(segs.skip(1) =~= rest);
        assert(slashed(segs) =~= p);
        assert forall|i: int, j: int|
            0 <= i < segs.len() && 0 <= j < segs[i].len() implies #[trigger] segs[i][j] != 0x2f by {
            if i > 0 {
                assert(segs[i] == rest[i - 1]);
                assert(rest[i - 1][j] != 0x2f);
            }
        }
        segs
    }
}

/// Segments of which none counts make no component.
proof fn lemma_no_spans(segs: Seq<Seq<u8>>)
    requires
        segs.len() > 0,
        are_segments(segs),
        none_counts(segs),
    ensures
        spans_from(slashed(segs), 0).len() == 0,
    decreases segs.len(),
{
    lemma_spans_of_segments(segs);
    if segs.len() > 1 {
        lemma_first_segment(segs);
        assert forall|i: int| 0 <= i < segs.skip(1).len() implies !counts(
            #[trigger] segs.skip(1)[i],
        ) by {
            assert(!counts(segs[i + 1]));
        }
        lemma_no_spans(segs.skip(1));
    }
}

/// The last component of a path ends where the path does, if its last segment counts.
proof fn lemma_last_span(segs: Seq<Seq<u8>>)
    requires
        segs.len() > 0,
        are_segments(segs),
        counts(segs.last()),
    ensures
        spans_from(slashed(segs), 0).len() > 0,
        spans_from(slashed(segs), 0).last().1 == slashed(segs).len(),
        spans_from(slashed(segs), 0).last().0 == slashed(segs).len() - segs.last().len(),
    decreases segs.len(),
{
    lemma_spans_of_segments(segs);
    lemma_first_segment(segs);
    if segs.len() > 1 {
        assert(segs.skip(1).last() == segs.last());
        lemma_last_span(segs.skip(1));
    }
}

/// What stands between `before` and `behind`, each of which is empty or set apart by a slash.
pub open spec fn between(
    before: Seq<Seq<u8>>,
    middle: Seq<u8>,
    behind: Seq<Seq<u8>>,
) -> Seq<u8> {
    (if before.len() == 0 {
        Seq::empty()
    } else {
        slashed(before).push(0x2f)
    }) + middle + (if behind.len() == 0 {
        Seq::empty()
    } else {
        seq![0x2fu8] + slashed(behind)
    })
}

/// Segments that do not count, before or behind others, change no component.
proof fn lemma_spans_between(before: Seq<Seq<u8>>, segs: Seq<Seq<u8>>, behind: Seq<Seq<u8>>)
    requires
        are_segments(before) && are_segments(segs) && are_segments(behind),
        none_counts(before) && none_counts(behind),
        segs.len() > 0,
    ensures
        ({
            let k = if before.len() == 0 {
                0
            } else {
                slashed(before).len() + 1
            };
            spans_from(between(before, slashed(segs), behind), 0) == moved(
                spans_from(slashed(segs), 0),
                k as int,
            )
        }),
{
    let m = slashed(segs);
    let tail = between(Seq::empty(), m, behind);
    assert(spans_from(tail, 0) == spans_from(m, 0)) by {
        if behind.len() == 0 {
            assert(tail =~= m);
        } else {
            lemma_no_spans(behind);
            lemma_spans_slash(m, 0);
            lemma_spans_before(m.push(SLASH), slashed(behind), 0);
            assert(tail =~= m.push(SLASH) + slashed(behind));
            assert(spans_from(tail, 0) =~= spans_from(m, 0));
        }
    }
    let all = between(before, m, behind);
    if before.len() == 0 {
        assert(all =~= tail);
        assert(moved(spans_from(m, 0), 0) =~= spans_from(m, 0));
    } else {
        let lead = slashed(before).push(SLASH);
        lemma_no_spans(before);
        lemma_spans_slash(slashed(before), 0);
        lemma_spans_before(lead, tail, 0);
        assert(all =~= lead + tail);
        assert(spans_from(all, 0) =~= moved(spans_from(m, 0), lead.len() as int));
    }
}

/// Where a path ends with a slash, what is appended to it adds its own components.
proof fn lemma_spans_appended(base: Seq<u8>, q: Seq<u8>)
    requires
        base.len() > 0,
        base.last() == SLASH,
    ensures
        spans(base + q) == spans(base) + moved(spans_from(q, 0), base.len() as int),
{
    let p = base + q;
    assert(p[0] == base[0]);
    assert(base.len() == 1 ==> base[0] == SLASH);
    assert(base.len() > 1 ==> p[1] == base[1]);
    lemma_spans_before(base, q, 0);
    lemma_spans_before(base, q, 1);
    assert(spans(p) =~= spans(base) + moved(spans_from(q, 0), base.len() as int));
}

/// The components of a path are those of its part before a slash, and those of the rest.
proof fn lemma_components_appended(base: Seq<u8>, q: Seq<u8>)
    requires
        base.len() > 0,
        base.last() == SLASH,
    ensures
        components(base + q) == components(base) + cut(q, spans_from(q, 0)),
{
    let p = base + q;
    let k = base.len() as int;
    let s = spans_from(q, 0);
    lemma_spans_appended(base, q);
    lemma_spans(base);
    lemma_spans_from(q, 0);
    assert forall|i: int| 0 <= i < spans(p).len() implies #[trigger] components(p)[i] == (
    components(base) + cut(q, s))[i] by {
        if i < spans(base).len() {
            let x = spans(base)[i];
            assert(spans(p)[i] == x);
            assert(p.subrange(x.0, x.1) =~= base.subrange(x.0, x.1));
        } else {
            let x = s[i - spans(base).len()];
            assert(spans(p)[i] == (x.0 + k, x.1 + k));
            assert(p.subrange(x.0 + k, x.1 + k) =~= q.subrange(x.0, x.1));
        }
    }
    assert(components(p) =~= components(base) + cut(q, s));
}

/// A slash behind a path adds no component.
pub proof fn lemma_trailing_slash(p: Seq<u8>)
    requires
        p.len() > 0,
    ensures
        components(p.push(0x2f)) == components(p),
{
    let q = p.push(SLASH);
    assert(q[0] == p[0]);
    assert(p.len() > 1 ==> q[1] == p[1]);
    assert(q.len() > 1 && (p.len() == 1 ==> q[1] == SLASH));
    lemma_spans_slash(p, 0);
    lemma_spans_slash(p, 1);
    assert(spans(q) =~= spans(p));
    lemma_spans(p);
    assert forall|i: int| 0 <= i < spans(p).len() implies #[trigger] components(q)[i] == components(
        p,
    )[i] by {
        let x = spans(p)[i];
        assert(q.subrange(x.0, x.1) =~= p.subrange(x.0, x.1));
    }
    assert(components(q) =~= components(p));
}

/// A path lies under another exactly if its components begin with those of the other. How the other
/// is written does not matter beyond that.
pub proof fn lemma_stripped_by_components(p: Seq<u8>, prefix: Seq<u8>, other: Seq<u8>)
    ensures
        stripped(p, prefix) is Some <==> components(prefix).len() <= components(p).len() && forall|
            i: int,
        |
            0 <= i < components(prefix).len() ==> #[trigger] components(prefix)[i] == components(
                p,
            )[i],
        components(prefix) == components(other) ==> stripped(p, prefix) == stripped(p, other),
{
    let c = components(prefix);
    let own = components(p);
    if c.len() <= own.len() {
        let lead = own.subrange(0, c.len() as int);
        if forall|i: int| 0 <= i < c.len() ==> #[trigger] c[i] == own[i] {
            assert(lead =~= c);
        }
        if lead == c {
            assert forall|i: int| 0 <= i < c.len() implies #[trigger] c[i] == own[i] by {
                assert(lead[i] == own[i]);
            }
        }
    }
}

/// What stands behind a directory is given back exactly: whatever lies from the first segment that
/// counts to the last one that does. Of segments that do not count, those between are kept, and
/// those around are not.
pub proof fn lemma_stripped_rest(
    base: Seq<u8>,
    before: Seq<Seq<u8>>,
    segs: Seq<Seq<u8>>,
    behind: Seq<Seq<u8>>,
)
    requires
        base.len() > 0,
        base.last() == 0x2f,
        are_segments(before) && are_segments(segs) && are_segments(behind),
        none_counts(before) && none_counts(behind),
        segs.len() > 0,
        counts(segs[0]),
        counts(segs.last()),
    ensures
        stripped(base + between(before, slashed(segs), behind), base) == Some(slashed(segs)),
{
    let m = slashed(segs);
    let q = between(before, m, behind);
    let p = base + q;
    let b = base.len() as int;
    let k = if before.len() == 0 {
        0int
    } else {
        (slashed(before).len() + 1) as int
    };
    lemma_spans_between(before, segs, behind);
    lemma_spans_appended(base, q);
    lemma_components_appended(base, q);
    lemma_spans_of_segments(segs);
    lemma_last_span(segs);
    let n = spans(base).len() as int;
    let s = spans_from(m, 0);
    assert(s[0].0 == 0);
    assert(spans(p)[n] == (b + k, s[0].1 + k + b));
    assert(spans(p).last() == (s.last().0 + k + b, s.last().1 + k + b));
    assert(components(p).subrange(0, n) =~= components(base));
    assert(p.subrange(b + k, b + k + m.len()) =~= m);
}

/// Where nothing counts behind a directory, the path is the directory's own.
pub proof fn lemma_stripped_itself(base: Seq<u8>, behind: Seq<Seq<u8>>)
    requires
        base.len() > 0,
        base.last() == 0x2f,
        are_segments(behind),
        none_counts(behind),
        behind.len() > 0,
    ensures
        stripped(base + slashed(behind), base) == Some(Seq::<u8>::empty()),
        stripped(base, base) == Some(Seq::<u8>::empty()),
{
    lemma_no_spans(behind);
    lemma_components_appended(base, slashed(behind));
    let p = base + slashed(behind);
    let n = components(base).len() as int;
    assert(components(p) =~= components(base));
    assert(components(p).subrange(0, n) =~= components(base));
    assert(components(base).subrange(0, n) =~= components(base));
}

/// A relative path of plain components: none is empty, a single full stop, or holds a slash.
pub open spec fn are_plain(segs: Seq<Seq<u8>>) -> bool {
    are_segments(segs) && forall|i: int| 0 <= i < segs.len() ==> counts(#[trigger] segs[i])
}

/// What is appended to a directory's path is what is left when that is taken away, however many
/// components it has.
pub proof fn lemma_strip_joined(root: Seq<u8>, segs: Seq<Seq<u8>>)
    requires
        segs.len() > 0,
        are_plain(segs),
    ensures
        stripped(path_joined(root, slashed(segs)), root) == Some(slashed(segs)),
{
    let q = slashed(segs);
    let none = Seq::<Seq<u8>>::empty();
    lemma_first_segment(segs);
    assert(counts(segs[0]) && counts(segs.last()));
    assert(q[0] == segs[0][0]);
    assert(between(none, q, none) =~= q);
    if root.len() == 0 {
        assert(path_joined(root, q) =~= q);
        lemma_components_of_segments(segs);
        lemma_spans_of_segments(segs);
        lemma_last_span(segs);
        assert(!has_leading_dot(q)) by {
            if has_leading_dot(q) && segs[0].len() > 1 {
                assert(q[1] == segs[0][1]);
            }
        }
        assert(spans(root).len() == 0);
        assert(components(root).len() == 0);
        assert(components(q).subrange(0, 0) =~= components(root));
        assert(spans(q) == spans_from(q, 0));
        assert(q.subrange(0, q.len() as int) =~= q);
    } else {
        let base = if root.last() == SLASH {
            root
        } else {
            root.push(SLASH)
        };
        if root.last() != SLASH {
            lemma_trailing_slash(root);
        }
        lemma_stripped_rest(base, none, segs, none);
        assert(path_joined(root, q) =~= base + q);
        lemma_stripped_by_components(base + q, root, base);
    }
}

/// A path with a root stands for itself. Any other is put behind the directory's path, with exactly
/// one slash more if that has none at its end.
pub proof fn lemma_joined_path(base: Seq<u8>, p: Seq<u8>)
    ensures
        p.len() > 0 && p[0] == 0x2f ==> path_joined(base, p) == p,
        !(p.len() > 0 && p[0] == 0x2f) ==> {
            let r = path_joined(base, p);
            let gap = r.len() - base.len() - p.len();
            &&& r.take(base.len() as int) == base
            &&& r.skip(r.len() - p.len()) == p
            &&& gap == 0 || gap == 1 && r[base.len() as int] == 0x2f
            &&& gap == 1 <==> base.len() > 0 && base[base.len() - 1] != 0x2f
        },
{
    if !has_root(p) {
        let r = path_joined(base, p);
        assert(r.take(base.len() as int) =~= base);
        assert(r.skip(r.len() - p.len()) =~= p);
    }
}

/// The base name of a path is its last segment that counts, whatever stands before it, of whatever
/// length it is, and however many slashes and full stops of their own follow it.
pub proof fn lemma_base_name_is_last(dir: Seq<u8>, name: Seq<u8>, behind: Seq<Seq<u8>>)
    requires
        dir.len() == 0 || dir.last() == 0x2f,
        are_segments(seq![name]) && are_segments(behind),
        counts(name),
        none_counts(behind),
    ensures
        last_name(dir + between(Seq::empty(), name, behind)) == if name == seq![0x2eu8, 0x2eu8] {
            None
        } else {
            Some(name)
        },
{
    let none = Seq::<Seq<u8>>::empty();
    let segs = seq![name];
    let q = between(none, name, behind);
    let p = dir + q;
    let k = dir.len() as int;
    assert(slashed(segs) == name);
    lemma_spans_between(none, segs, behind);
    lemma_last_span(segs);
    let s = spans_from(name, 0);
    assert(moved(s, 0) =~= s);
    assert(s.last() == (0int, name.len() as int));
    assert(q[0] == name[0]);
    assert(segs[0][0] != 0x2f);
    if k == 0 {
        assert(p =~= q);
        assert(!has_leading_dot(p)) by {
            if has_leading_dot(p) && name.len() > 1 {
                assert(p[1] == name[1]);
                assert(segs[0][1] != 0x2f);
            }
        }
        assert(spans(p) == spans_from(q, 0));
    } else {
        lemma_spans_appended(dir, q);
    }
    assert(spans(p).last() == (k, k + name.len()));
    assert(p.subrange(k, k + name.len()) =~= name);
    assert(components(p).last() == name);
    lemma_counts(name);
    assert(name != seq![SLASH]) by {
        assert(seq![SLASH][0] == 0x2f);
    }
}

/// A path of which nothing counts has no base name: an empty one, a root, or a full stop, with any
/// number of slashes and full stops behind.
pub proof fn lemma_no_base_name(segs: Seq<Seq<u8>>)
    requires
        segs.len() > 0,
        are_segments(segs),
        none_counts(segs),
    ensures
        last_name(slashed(segs)) is None,
{
    let p = slashed(segs);
    let f = |s: Seq<u8>| counts(s);
    lemma_components_of_segments(segs);
    lemma_cut_segments(segs);
    lemma_no_spans(segs);
    assert(segs.filter(f).len() == 0);
    let c = components(p);
    assert(c.len() <= 1);
    assert(c.len() == 1 ==> c[0] == seq![0x2fu8] || c[0] == seq![0x2eu8]);
}

/// A component begins behind a slash, unless the path begins with it.
proof fn lemma_span_behind_slash(p: Seq<u8>, at: int)
    requires
        0 <= at,
        at > 0 && at < p.len() ==> p[at - 1] == SLASH || (at == 1 && (has_root(p)
            || has_leading_dot(p))),
    ensures
        forall|i: int|
            0 <= i < spans_from(p, at).len() && (#[trigger] spans_from(p, at)[i]).0 > at ==> p[
            spans_from(p, at)[i].0 - 1] == SLASH,
    decreases p.len() + 1 - at,
{
    if at < p.len() {
        lemma_segment_end(p, at);
        let end = segment_end(p, at);
        lemma_span_behind_slash(p, end + 1);
        lemma_spans_from(p, end + 1);
        let all = spans_from(p, at);
        let rest = spans_from(p, end + 1);
        assert forall|i: int| 0 <= i < all.len() && (#[trigger] all[i]).0 > at implies p[all[i].0
            - 1] == SLASH by {
            let j = if is_component(p.subrange(at, end)) {
                i - 1
            } else {
                i
            };
            assert(all[i] == rest[j]);
            if rest[j].0 == end + 1 {
                assert(p[end] == SLASH);
            }
        }
    }
}

/// Every component but the first begins behind a slash.
proof fn lemma_later_component(p: Seq<u8>, n: int)
    requires
        0 < n < spans(p).len(),
    ensures
        0 < spans(p)[n].0 < p.len(),
        p[spans(p)[n].0 - 1] == SLASH,
{
    lemma_spans(p);
    lemma_spans_from(p, 0);
    lemma_spans_from(p, 1);
    assert(spans(p)[0].1 <= spans(p)[n].0);
    lemma_span_behind_slash(p, 0);
    if has_root(p) || has_leading_dot(p) {
        let s = spans_from(p, 1)[n - 1];
        assert(spans(p)[n] == s);
        if s.0 == 1 {
            if has_leading_dot(p) {
                assert(p[1] == SLASH);
                assert(segment_end(p, 1) == 1);
                lemma_spans_from(p, 2);
                assert(spans_from(p, 1) == spans_from(p, 2));
            }
            assert(p[0] == SLASH);
        } else {
            lemma_span_behind_slash(p, 1);
        }
    } else {
        assert(spans(p)[n] == spans_from(p, 0)[n]);
    }
}

/// The components of what is left when a directory's path is taken away are those behind the
/// directory's, all of them and in order.
pub proof fn lemma_stripped_components(p: Seq<u8>, prefix: Seq<u8>)
    requires
        components(prefix).len() > 0,
        stripped(p, prefix) is Some,
    ensures
        components(stripped(p, prefix).unwrap()) == components(p).skip(
            components(prefix).len() as int,
        ),
        !has_root(stripped(p, prefix).unwrap()),
        !has_leading_dot(stripped(p, prefix).unwrap()),
{
    let n = components(prefix).len() as int;
    let r = stripped(p, prefix).unwrap();
    lemma_spans(p);
    if n >= spans(p).len() {
        assert(spans(r).len() == 0);
        assert(components(r) =~= components(p).skip(n));
    } else {
        let k = spans(p)[n].0;
        let e = spans(p).last().1;
        lemma_later_component(p, n);
        let base = p.take(k);
        let q = p.skip(k);
        assert(p =~= base + q);
        assert(base.last() == SLASH);
        lemma_spans_appended(base, q);
        lemma_components_appended(base, q);
        lemma_spans(base);
        lemma_spans_from(q, 0);
        let own = spans(base).len() as int;
        let s = spans_from(q, 0);
        assert(own == n) by {
            if own > n {
                assert(spans(p)[n] == spans(base)[n]);
            } else if own < n {
                assert(spans(p)[n - 1] == (s[n - 1 - own].0 + k, s[n - 1 - own].1 + k));
                assert(spans(p)[n - 1].1 <= spans(p)[n].0);
            }
        }
        assert(s.len() > 0);
        assert(spans(p)[n] == (s[0].0 + k, s[0].1 + k));
        assert(s[0].0 == 0);
        assert(spans(p).last() == (s.last().0 + k, s.last().1 + k));
        assert(r =~= q.take(e - k));
        assert(cut(q, s) =~= components(p).skip(n));
        lemma_cut_off(q, 0, e - k);
        assert(spans_from(r, 0) == s);
        assert forall|i: int| 0 <= i < s.len() implies r.subrange(s[i].0, s[i].1)
            == #[trigger] q.subrange(s[i].0, s[i].1) by {
            if i < s.len() - 1 {
                assert(s[i].1 < s.last().0);
            }
            assert(r.subrange(s[i].0, s[i].1) =~= q.subrange(s[i].0, s[i].1));
        }
        assert(cut(r, s) =~= cut(q, s));
        lemma_segment_end(r, 0);
        assert(is_component(r.subrange(0, s[0].1)) && segment_end(r, 0) == s[0].1) by {
            lemma_spans_from(r, segment_end(r, 0) + 1);
            if !is_component(r.subrange(0, segment_end(r, 0))) {
                assert(spans_from(r, 0) == spans_from(r, segment_end(r, 0) + 1));
            }
        }
        assert(!has_root(r));
        assert(!has_leading_dot(r)) by {
            if has_leading_dot(r) {
                assert(segment_end(r, 1) == 1);
                assert(segment_end(r, 0) == 1);
                assert(r.subrange(0, 1) =~= seq![crate::bytes::DOT]);
            }
        }
        assert(components(r) =~= cut(r, s));
    }
}

/// What follows the last component adds none.
proof fn lemma_cut_off(q: Seq<u8>, at: int, e: int)
    requires
        0 <= at,
        spans_from(q, at).len() > 0,
        spans_from(q, at).last().1 == e,
    ensures
        spans_from(q.take(e), at) == spans_from(q, at),
{
    lemma_spans_from(q, at);
    lemma_span_ends(q, at);
    let m = q.take(e);
    if e == q.len() {
        assert(m =~= q);
    } else {
        let rest = q.skip(e + 1);
        assert(q[e] == SLASH);
        assert(q =~= m.push(SLASH) + rest);
        lemma_spans_slash(m, at);
        lemma_spans_before(m.push(SLASH), rest, at);
        lemma_spans_from(rest, 0);
        let more = moved(spans_from(rest, 0), e + 1);
        if more.len() > 0 {
            assert(spans_from(q, at).last() == more.last());
            assert(more.last().1 > e);
        }
        assert(spans_from(q, at) =~= spans_from(m, at));
    }
}

/// Where there is nothing to take away, the path is kept from its beginning to the end of its last
/// component.
pub proof fn lemma_stripped_of_nothing(p: Seq<u8>, prefix: Seq<u8>)
    requires
        components(prefix).len() == 0,
    ensures
        stripped(p, prefix) matches Some(r) && {
            &&& r.len() <= p.len() && r == p.take(r.len() as int)
            &&& components(r) == components(p)
            &&& r.len() > 0 ==> components(p).len() > 0 && components(p).last().is_suffix_of(r)
        },
{
    let s = spans(p);
    lemma_spans(p);
    lemma_spans_from(p, 0);
    assert(components(p).subrange(0, 0) =~= components(prefix));
    let r = stripped(p, prefix).unwrap();
    if s.len() == 0 {
        assert(r =~= p.take(0));
        assert(components(r) =~= components(p));
    } else {
        let e = s.last().1;
        lemma_segment_end(p, 0);
        assert(s[0].0 == 0) by {
            if !has_root(p) && !has_leading_dot(p) {
                let end = segment_end(p, 0);
                assert(is_component(p.subrange(0, end))) by {
                    if !is_component(p.subrange(0, end)) && end > 0 {
                        assert(p.subrange(0, end)[0] == p[0]);
                        assert(end == 1 && p[0] == crate::bytes::DOT) by {
                            assert(seq![crate::bytes::DOT].len() == 1);
                            assert(seq![crate::bytes::DOT][0] == crate::bytes::DOT);
                        }
                    }
                }
            }
        }
        assert(r =~= p.take(e));
        if has_root(p) || has_leading_dot(p) {
            lemma_spans_from(p, 1);
            if spans_from(p, 1).len() > 0 {
                assert(spans_from(p, 1).last() == s.last());
                lemma_cut_off(p, 1, e);
                if has_leading_dot(p) {
                    assert(segment_end(p, 1) == 1);
                    lemma_spans_from(p, 2);
                    assert(e > 1);
                }
            } else {
                assert(e == 1);
                assert(spans_from(r, 1) =~= Seq::empty());
            }
            assert(spans(r) =~= s);
        } else {
            lemma_cut_off(p, 0, e);
            assert(!has_root(r));
            assert(!has_leading_dot(r)) by {
                if has_leading_dot(r) {
                    lemma_span_ends(p, 0);
                    assert(p[0] == r[0]);
                    if r.len() > 1 {
                        assert(p[1] == r[1]);
                    }
                }
            }
        }
        assert forall|i: int| 0 <= i < s.len() implies #[trigger] components(r)[i] == components(
            p,
        )[i] by {
            assert(s[i].1 <= e) by {
                if i < s.len() - 1 {
                    assert(s[i].1 <= s.last().0);
                }
            }
            assert(r.subrange(s[i].0, s[i].1) =~= p.subrange(s[i].0, s[i].1));
        }
        assert(components(r) =~= components(p));
        assert(r.subrange(s.last().0, e) =~= p.subrange(s.last().0, e));
        assert(components(p).last() =~= r.subrange(r.len() - components(p).last().len(), e));
    }
}

/// A component ends before a slash, unless the path ends with it.
proof fn lemma_span_ends(p: Seq<u8>, at: int)
    requires
        0 <= at,
    ensures
        forall|i: int|
            0 <= i < spans_from(p, at).len() && (#[trigger] spans_from(p, at)[i]).1 < p.len()
                ==> p[spans_from(p, at)[i].1] == SLASH,
    decreases p.len() + 1 - at,
{
    if at < p.len() {
        lemma_segment_end(p, at);
        let end = segment_end(p, at);
        lemma_span_ends(p, end + 1);
        let all = spans_from(p, at);
        let rest = spans_from(p, end + 1);
        assert forall|i: int| 0 <= i < all.len() && (#[trigger] all[i]).1 < p.len() implies p[
        all[i].1] == SLASH by {
            if is_component(p.subrange(at, end)) {
                if i > 0 {
                    assert(all[i] == rest[i - 1]);
                }
            } else {
                assert(all[i] == rest[i]);
            }
        }
    }
}

/// A path under a share is rewritten so that its components are the guest's, followed by all those
/// that it has behind the share's own, in order.
pub proof fn lemma_rewritten_components(share: Mapping, p: Seq<u8>)
    requires
        components(share.host).len() > 0,
        components(share.host).len() <= components(p).len(),
        forall|i: int|
            0 <= i < components(share.host).len() ==> #[trigger] components(share.host)[i]
                == components(p)[i],
    ensures
        rewritten(seq![share], p) matches Some(guest) && components(guest) == components(
            share.guest,
        ) + components(p).skip(components(share.host).len() as int),
{
    lemma_stripped_by_components(p, share.host, share.host);
    lemma_stripped_components(p, share.host);
    assert(seq![share][0] == share);
    let r = stripped(p, share.host).unwrap();
    let tail = components(p).skip(components(share.host).len() as int);
    let guest = path_joined(share.guest, r);
    if share.guest.len() == 0 {
        assert(guest =~= r);
        assert(components(share.guest).len() == 0);
        assert(components(guest) =~= components(share.guest) + tail);
    } else {
        let base = if share.guest.last() == SLASH {
            share.guest
        } else {
            share.guest.push(SLASH)
        };
        if share.guest.last() != SLASH {
            lemma_trailing_slash(share.guest);
        }
        assert(guest =~= base + r);
        lemma_components_appended(base, r);
        assert(cut(r, spans_from(r, 0)) == components(r));
    }
}

} // verus!
