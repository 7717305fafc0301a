//! Directories of the host that the guest sees under another path.

use crate::bytes::to_vec;
use crate::path::is_under;
use crate::path::join_path;
use crate::path::path_joined;
use crate::path::strip_prefix;
use crate::path::stripped;
use vstd::prelude::*;

verus! {

/// A directory of the host that is shared with the guest.
pub struct DirectoryShare {
    /// The directory on the host.
    pub host: Vec<u8>,
    /// Where the guest sees it.
    pub guest: Vec<u8>,
    /// Whether the guest may only read it.
    pub read_only: bool,
}

/// A shared directory, with what the host knows of its path.
pub struct ResolvedShare {
    /// The share.
    pub share: DirectoryShare,
    /// The canonical path of the host's directory, if it has one.
    pub canon_host: Option<Vec<u8>>,
}

/// How paths of the host below one directory are written for the guest.
pub struct ShareMapping {
    /// The canonical path of the host's directory.
    pub canon_host: Vec<u8>,
    /// Where the guest sees it.
    pub guest: Vec<u8>,
}

/// A [`ShareMapping`] as a mathematical value.
pub struct Mapping {
    /// The canonical path of the host's directory.
    pub host: Seq<u8>,
    /// Where the guest sees it.
    pub guest: Seq<u8>,
}

impl View for ShareMapping {
    type V = Mapping;

    open spec fn view(&self) -> Mapping {
        Mapping { host: self.canon_host@, guest: self.guest@ }
    }
}

/// The mappings of a vector.
pub open spec fn mappings(v: Seq<ShareMapping>) -> Seq<Mapping> {
    v.map_values(|m: ShareMapping| m@)
}

/// The mappings of those shares whose directory has a canonical path, in the order given.
pub open spec fn usable(shares: Seq<ResolvedShare>) -> Seq<Mapping>
    decreases shares.len(),
{
    if shares.len() == 0 {
        Seq::empty()
    } else {
        match shares.last().canon_host {
            Some(host) => usable(shares.drop_last()).push(
                Mapping { host: host@, guest: shares.last().share.guest@ },
            ),
            None => usable(shares.drop_last()),
        }
    }
}

/// `order` lists every index below `n` once.
pub open spec fn is_permutation(order: Seq<int>, n: nat) -> bool {
    &&& order.len() == n
    &&& forall|i: int| 0 <= i < n ==> 0 <= #[trigger] order[i] < n
    &&& forall|i: int, j: int| 0 <= i < j < n ==> #[trigger] order[i] != #[trigger] order[j]
}

/// `sorted` lists the mappings of `given` by `order`.
pub open spec fn listed(given: Seq<Mapping>, sorted: Seq<Mapping>, order: Seq<int>) -> bool {
    &&& is_permutation(order, given.len())
    &&& sorted.len() == given.len()
    &&& forall|i: int| 0 <= i < sorted.len() ==> #[trigger] sorted[i] == given[order[i]]
    &&& forall|i: int, j: int|
        0 <= i < j < sorted.len() ==> {
            ||| (#[trigger] sorted[i]).host.len() > (#[trigger] sorted[j]).host.len()
            ||| sorted[i].host.len() == sorted[j].host.len() && order[i] < order[j]
        }
}

/// `sorted` holds the mappings of `given`, those with the longer host path first, and those whose
/// host paths are equally long in the order given.
pub open spec fn longest_first(given: Seq<Mapping>, sorted: Seq<Mapping>) -> bool {
    exists|order: Seq<int>| listed(given, sorted, order)
}

/// How the guest sees the host's path `p`: by the first mapping whose directory holds it.
pub open spec fn rewritten(shares: Seq<Mapping>, p: Seq<u8>) -> Option<Seq<u8>>
    decreases shares.len(),
{
    if shares.len() == 0 {
        None
    } else {
        match stripped(p, shares[0].host) {
            Some(suffix) => Some(path_joined(shares[0].guest, suffix)),
            None => rewritten(shares.skip(1), p),
        }
    }
}

/// Puts `m` behind every mapping of `sorted` whose host path is at least as long.
fn insert_by_length(sorted: &mut Vec<ShareMapping>, m: ShareMapping, given: Ghost<Seq<Mapping>>)
    requires
        longest_first(given@, mappings(old(sorted)@)),
    ensures
        longest_first(given@.push(m@), mappings(final(sorted)@)),
{
    let ghost before = mappings(sorted@);
    let ghost order = choose|order: Seq<int>| listed(given@, before, order);
    let ghost added = m@;
    let mut at: usize = sorted.len();
    while at > 0 && sorted[at - 1].canon_host.len() < m.canon_host.len()
        invariant
            at <= sorted@.len(),
            before == mappings(sorted@),
            added == m@,
            forall|i: int| at <= i < sorted@.len() ==> (#[trigger] before[i]).host.len() < added.host.len(),
        decreases at,
    {
        assert(before[at - 1] == sorted@[at - 1]@);
        at = at - 1;
    }
    assert(at > 0 ==> before[at - 1] == sorted@[at - 1]@);
    sorted.insert(at, m);
    proof {
        let after = mappings(sorted@);
        assert(after =~= before.insert(at as int, added));
        let next = order.insert(at as int, given@.len() as int);
        let all = given@.push(added);
        assert forall|i: int, j: int| 0 <= i < j < after.len() implies {
            ||| (#[trigger] after[i]).host.len() > (#[trigger] after[j]).host.len()
            ||| after[i].host.len() == after[j].host.len() && next[i] < next[j]
        } by {
            if i == at {
                assert(after[j] == before[j - 1]);
            } else if j == at {
                assert(after[i] == before[i]);
                if i < at - 1 {
                    assert(before[i].host.len() >= before[at - 1].host.len());
                }
                assert(next[i] == order[i]);
                assert(order[i] < given@.len());
            } else {
                let i0 = if i < at { i } else { i - 1 };
                let j0 = if j < at { j } else { j - 1 };
                assert(after[i] == before[i0] && after[j] == before[j0]);
                assert(next[i] == order[i0] && next[j] == order[j0]);
            }
        }
        assert forall|i: int| 0 <= i < after.len() implies #[trigger] after[i] == all[next[i]] by {
            if i != at {
                let i0 = if i < at { i } else { i - 1 };
                assert(after[i] == before[i0]);
                assert(next[i] == order[i0]);
            }
        }
        assert forall|i: int, j: int| 0 <= i < j < next.len() implies #[trigger] next[i]
            != #[trigger] next[j] by {
            let i0 = if i < at { i } else { i - 1 };
            let j0 = if j < at { j } else { j - 1 };
            if i != at && j != at {
                assert(next[i] == order[i0] && next[j] == order[j0]);
            } else if i == at {
                assert(next[j] == order[j0]);
            } else {
                assert(next[i] == order[i0]);
            }
        }
        assert forall|i: int| 0 <= i < next.len() implies 0 <= #[trigger] next[i] < next.len() by {
            if i != at {
                let i0 = if i < at { i } else { i - 1 };
                assert(next[i] == order[i0]);
            }
        }
        assert(listed(all, after, next));
    }
}

/// The mappings of the usable shares, those with the longest host path first, so that the first
/// one that holds a path is the most specific one.
pub fn sort_shares(shares: &[ResolvedShare]) -> (r: Vec<ShareMapping>)
    ensures
        longest_first(usable(shares@), mappings(r@)),
{
    let mut sorted: Vec<ShareMapping> = Vec::new();
    let mut i: usize = 0;
    assert(listed(usable(shares@.take(0)), mappings(sorted@), Seq::empty()));
    while i < shares.len()
        invariant
            i <= shares@.len(),
            longest_first(usable(shares@.take(i as int)), mappings(sorted@)),
        decreases shares@.len() - i,
    {
        let ghost given = usable(shares@.take(i as int));
        assert(shares@.take(i + 1).drop_last() =~= shares@.take(i as int));
        assert(shares@.take(i + 1).last() == shares@[i as int]);
        if let Some(host) = &shares[i].canon_host {
            let m: ShareMapping = ShareMapping {
                canon_host: to_vec(host.as_slice()),
                guest: to_vec(shares[i].share.guest.as_slice()),
            };
            insert_by_length(&mut sorted, m, Ghost(given));
        }
        i = i + 1;
    }
    assert(shares@.take(shares@.len() as int) =~= shares@);
    sorted
}

/// How the guest sees the host's path `p`: by the first mapping whose directory holds it.
pub fn rewrite(shares: &Vec<ShareMapping>, p: &[u8]) -> (r: Option<Vec<u8>>)
    ensures
        match r {
            Some(guest) => rewritten(mappings(shares@), p@) == Some(guest@),
            None => rewritten(mappings(shares@), p@) is None,
        },
{
    let ghost all = mappings(shares@);
    let mut i: usize = 0;
    assert(all.skip(0) =~= all);
    while i < shares.len()
        invariant
            i <= shares@.len(),
            all == mappings(shares@),
            rewritten(all, p@) == rewritten(all.skip(i as int), p@),
        decreases shares@.len() - i,
    {
        let ghost rest = all.skip(i as int);
        assert(rest[0] == shares@[i as int]@);
        assert(rest.skip(1) =~= all.skip(i + 1));
        if let Some(suffix) = strip_prefix(p, shares[i].canon_host.as_slice()) {
            return Some(join_path(shares[i].guest.as_slice(), suffix.as_slice()));
        }
        i = i + 1;
    }
    None
}

/// The most specific share decides. Where the mappings stand longest host path first, a path is
/// rewritten exactly if some share holds it, and then by a share whose host path is as long as
/// that of any other share that holds it.
pub proof fn lemma_longest_share_decides(given: Seq<Mapping>, sorted: Seq<Mapping>, p: Seq<u8>)
    requires
        longest_first(given, sorted),
    ensures
        rewritten(sorted, p) is Some <==> exists|i: int|
            0 <= i < given.len() && #[trigger] is_under(p, given[i].host),
        rewritten(sorted, p) matches Some(guest) ==> exists|i: int|
            {
                &&& 0 <= i < given.len()
                &&& #[trigger] is_under(p, given[i].host)
                &&& guest == path_joined(given[i].guest, stripped(p, given[i].host).unwrap())
                &&& forall|j: int|
                    0 <= j < given.len() && #[trigger] is_under(p, given[j].host)
                        ==> given[j].host.len() <= given[i].host.len()
            },
{
    let order = choose|order: Seq<int>| listed(given, sorted, order);
    lemma_order_is_onto(order, given.len());
    lemma_first_match(sorted, p);
    assert forall|j: int| 0 <= j < given.len() && #[trigger] is_under(p, given[j].host) implies exists|
        k: int,
    |
        0 <= k < sorted.len() && #[trigger] order[k] == j by {
        assert(order.contains(j));
    }
    if exists|i: int| 0 <= i < given.len() && #[trigger] is_under(p, given[i].host) {
        let i = choose|i: int| 0 <= i < given.len() && #[trigger] is_under(p, given[i].host);
        let k = choose|k: int| 0 <= k < sorted.len() && #[trigger] order[k] == i;
        assert(sorted[k] == given[i]);
        assert(is_under(p, sorted[k].host));
    }
    if rewritten(sorted, p) is Some {
        let guest = rewritten(sorted, p).unwrap();
        let k = choose|k: int|
            {
                &&& 0 <= k < sorted.len()
                &&& #[trigger] is_under(p, sorted[k].host)
                &&& guest == path_joined(sorted[k].guest, stripped(p, sorted[k].host).unwrap())
                &&& forall|j: int| 0 <= j < k ==> !#[trigger] is_under(p, sorted[j].host)
            };
        let i = order[k];
        assert(given[i] == sorted[k]);
        assert forall|j: int| 0 <= j < given.len() && #[trigger] is_under(p, given[j].host) implies given[j].host.len()
            <= given[i].host.len() by {
            let l = choose|l: int| 0 <= l < sorted.len() && #[trigger] order[l] == j;
            assert(sorted[l] == given[j]);
            assert(!(l < k)) by {
                if l < k {
                    assert(!is_under(p, sorted[l].host));
                }
            }
            if k < l {
                assert(sorted[k].host.len() >= sorted[l].host.len());
            }
        }
        assert(is_under(p, given[i].host));
    }
}

/// The first mapping that holds a path is the one that rewrites it.
proof fn lemma_first_match(shares: Seq<Mapping>, p: Seq<u8>)
    ensures
        rewritten(shares, p) is None ==> forall|i: int|
            0 <= i < shares.len() ==> !#[trigger] is_under(p, shares[i].host),
        rewritten(shares, p) matches Some(guest) ==> exists|i: int|
            {
                &&& 0 <= i < shares.len()
                &&& #[trigger] is_under(p, shares[i].host)
                &&& guest == path_joined(shares[i].guest, stripped(p, shares[i].host).unwrap())
                &&& forall|j: int| 0 <= j < i ==> !#[trigger] is_under(p, shares[j].host)
            },
    decreases shares.len(),
{
    if shares.len() > 0 {
        let rest = shares.skip(1);
        lemma_first_match(rest, p);
        if is_under(p, shares[0].host) {
        } else if rewritten(rest, p) is None {
            assert forall|i: int| 0 <= i < shares.len() implies !#[trigger] is_under(
                p,
                shares[i].host,
            ) by {
                if i > 0 {
                    assert(shares[i] == rest[i - 1]);
                    assert(!is_under(p, rest[i - 1].host));
                }
            }
        } else {
            let guest = rewritten(rest, p).unwrap();
            let k = choose|k: int|
                {
                    &&& 0 <= k < rest.len()
                    &&& #[trigger] is_under(p, rest[k].host)
                    &&& guest == path_joined(rest[k].guest, stripped(p, rest[k].host).unwrap())
                    &&& forall|j: int| 0 <= j < k ==> !#[trigger] is_under(p, rest[j].host)
                };
            assert(shares[k + 1] == rest[k]);
            assert forall|j: int| 0 <= j < k + 1 implies !#[trigger] is_under(p, shares[j].host) by {
                if j > 0 {
                    assert(shares[j] == rest[j - 1]);
                    assert(!is_under(p, rest[j - 1].host));
                }
            }
            assert(is_under(p, shares[k + 1].host));
        }
    }
}

/// A permutation lists every index.
pub proof fn lemma_order_is_onto(order: Seq<int>, n: nat)
    requires
        is_permutation(order, n),
    ensures
        forall|j: int| 0 <= j < n ==> order.contains(j),
{
    let range = vstd::set_lib::set_int_range(0, n as int);
    vstd::set_lib::lemma_int_range(0, n as int);
    assert(order.no_duplicates()) by {
        assert forall|i: int, j: int| 0 <= i < order.len() && 0 <= j < order.len() && i != j implies order[i]
            != order[j] by {
            if i < j {
            } else {
                assert(order[j] != order[i]);
            }
        }
    }
    order.unique_seq_to_set();
    let seen = order.to_set();
    assert(seen.subset_of(range)) by {
        assert forall|x: int| seen.contains(x) implies range.contains(x) by {
            assert(order.contains(x));
            let k = choose|k: int| 0 <= k < order.len() && order[k] == x;
            assert(0 <= order[k] < n);
        }
    }
    vstd::set_lib::lemma_subset_equality(seen, range);
    assert forall|j: int| 0 <= j < n implies order.contains(j) by {
        assert(range.contains(j));
        assert(seen.contains(j));
    }
}

/// The order in which the mappings stand is determined by the shares that are given.
pub proof fn lemma_order_determined(given: Seq<Mapping>, one: Seq<Mapping>, other: Seq<Mapping>)
    requires
        longest_first(given, one),
        longest_first(given, other),
    ensures
        one == other,
{
    let p = choose|p: Seq<int>| listed(given, one, p);
    let q = choose|q: Seq<int>| listed(given, other, q);
    lemma_order_is_onto(p, given.len());
    lemma_order_is_onto(q, given.len());
    lemma_orders_agree(given, one, other, p, q, given.len());
    assert forall|i: int| 0 <= i < one.len() implies one[i] == other[i] by {
        assert(p[i] == q[i]);
    }
    assert(one =~= other);
}

proof fn lemma_orders_agree(
    given: Seq<Mapping>,
    one: Seq<Mapping>,
    other: Seq<Mapping>,
    p: Seq<int>,
    q: Seq<int>,
    n: nat,
)
    requires
        listed(given, one, p),
        listed(given, other, q),
        n <= given.len(),
        forall|j: int| 0 <= j < given.len() ==> p.contains(j),
        forall|j: int| 0 <= j < given.len() ==> q.contains(j),
    ensures
        forall|i: int| 0 <= i < n ==> p[i] == q[i],
    decreases n,
{
    if n > 0 {
        let i = n - 1;
        lemma_orders_agree(given, one, other, p, q, i as nat);
        if p[i] != q[i] {
            assert(q.contains(p[i]));
            assert(p.contains(q[i]));
            let j = choose|j: int| 0 <= j < q.len() && q[j] == p[i];
            let k = choose|k: int| 0 <= k < p.len() && p[k] == q[i];
            assert(j > i) by {
                if j < i {
                    assert(p[j] == q[j]);
                    assert(p[j] != p[i]);
                }
            }
            assert(k > i) by {
                if k < i {
                    assert(p[k] == q[k]);
                    assert(q[k] != q[i]);
                }
            }
            assert(one[i] == given[p[i]] && one[k] == given[q[i]]);
            assert(other[i] == given[q[i]] && other[j] == given[p[i]]);
            assert(one[i].host.len() > one[k].host.len() || one[i].host.len() == one[k].host.len()
                && p[i] < p[k]);
            assert(other[i].host.len() > other[j].host.len() || other[i].host.len()
                == other[j].host.len() && q[i] < q[j]);
        }
    }
}

} // verus!
