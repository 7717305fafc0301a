//! Which shares are used, and which of them decides about a path.

use crate::laws::paths::are_plain;
use crate::laws::paths::lemma_strip_joined;
use crate::laws::paths::lemma_stripped_by_components;
use crate::laws::paths::slashed;
use crate::path::components;
use crate::path::path_joined;
use crate::path::stripped;
use crate::shares::listed;
use crate::shares::longest_first;
use crate::shares::rewritten;
use crate::shares::usable;
use crate::shares::Mapping;
use crate::shares::ResolvedShare;
use vstd::prelude::*;

verus! {

/// Whether `sorted` holds the shares by the indices `from`: each with its canonical path and the
/// guest's path, every share that has a canonical path and no other, none twice, those with the
/// longer canonical path first, and those with equally long ones in the order given. Whether the
/// guest may write does not matter.
pub open spec fn ranked(
    shares: Seq<ResolvedShare>,
    sorted: Seq<Mapping>,
    from: Seq<int>,
) -> bool {
    &&& from.len() == sorted.len()
    &&& forall|k: int|
        0 <= k < from.len() ==> {
            &&& 0 <= #[trigger] from[k] < shares.len()
            &&& shares[from[k]].canon_host is Some
            &&& sorted[k].host == shares[from[k]].canon_host.unwrap()@
            &&& sorted[k].guest == shares[from[k]].share.guest@
        }
    &&& forall|i: int|
        0 <= i < shares.len() && (#[trigger] shares[i]).canon_host is Some ==> from.contains(i)
    &&& forall|j: int, k: int|
        0 <= j < k < from.len() ==> #[trigger] from[j] != #[trigger] from[k] && {
            ||| sorted[j].host.len() > sorted[k].host.len()
            ||| sorted[j].host.len() == sorted[k].host.len() && from[j] < from[k]
        }
}

/// The indices of the shares that have a canonical path.
spec fn positions(shares: Seq<ResolvedShare>) -> Seq<int>
    decreases shares.len(),
{
    if shares.len() == 0 {
        Seq::empty()
    } else if shares.last().canon_host is Some {
        positions(shares.drop_last()).push(shares.len() - 1)
    } else {
        positions(shares.drop_last())
    }
}

proof fn lemma_positions(shares: Seq<ResolvedShare>)
    ensures
        positions(shares).len() == usable(shares).len(),
        forall|k: int|
            0 <= k < positions(shares).len() ==> {
                let i = #[trigger] positions(shares)[k];
                &&& 0 <= i < shares.len()
                &&& shares[i].canon_host is Some
                &&& usable(shares)[k].host == shares[i].canon_host.unwrap()@
                &&& usable(shares)[k].guest == shares[i].share.guest@
            },
        forall|j: int, k: int|
            0 <= j < k < positions(shares).len() ==> #[trigger] positions(shares)[j]
                < #[trigger] positions(shares)[k],
        forall|i: int|
            0 <= i < shares.len() && (#[trigger] shares[i]).canon_host is Some ==> positions(
                shares,
            ).contains(i),
    decreases shares.len(),
{
    if shares.len() > 0 {
        let rest = shares.drop_last();
        lemma_positions(rest);
        let all = positions(shares);
        assert forall|i: int|
            0 <= i < shares.len() && (#[trigger] shares[i]).canon_host is Some implies all.contains(
            i,
        ) by {
            if i < rest.len() {
                assert(rest[i] == shares[i]);
                assert(positions(rest).contains(i));
                let k = choose|k: int| 0 <= k < positions(rest).len() && positions(rest)[k] == i;
                assert(all[k] == i);
            } else {
                assert(all[all.len() - 1] == i);
            }
        }
        assert forall|k: int| 0 <= k < all.len() implies {
            let i = #[trigger] all[k];
            &&& 0 <= i < shares.len()
            &&& shares[i].canon_host is Some
            &&& usable(shares)[k].host == shares[i].canon_host.unwrap()@
            &&& usable(shares)[k].guest == shares[i].share.guest@
        } by {
            if k < positions(rest).len() {
                assert(all[k] == positions(rest)[k]);
                assert(rest[all[k]] == shares[all[k]]);
            }
        }
        assert forall|j: int, k: int| 0 <= j < k < all.len() implies #[trigger] all[j]
            < #[trigger] all[k] by {
            assert(all[j] == positions(rest)[j]);
            if k < positions(rest).len() {
                assert(all[k] == positions(rest)[k]);
            }
        }
    }
}

/// Every share whose directory has a canonical path is used, and no other. The shares are searched
/// longest canonical path first, and in the order given where these are equally long.
pub proof fn lemma_shares_in_order(shares: Seq<ResolvedShare>, sorted: Seq<Mapping>) -> (from: Seq<
    int,
>)
    requires
        longest_first(usable(shares), sorted),
    ensures
        ranked(shares, sorted, from),
{
    let given = usable(shares);
    let at = positions(shares);
    lemma_positions(shares);
    let order = choose|order: Seq<int>| listed(given, sorted, order);
    let from = order.map_values(|i: int| at[i]);
    crate::shares::lemma_order_is_onto(order, given.len());
    assert forall|k: int| 0 <= k < from.len() implies {
        &&& 0 <= #[trigger] from[k] < shares.len()
        &&& shares[from[k]].canon_host is Some
        &&& sorted[k].host == shares[from[k]].canon_host.unwrap()@
        &&& sorted[k].guest == shares[from[k]].share.guest@
    } by {
        assert(sorted[k] == given[order[k]]);
        assert(from[k] == at[order[k]]);
    }
    assert forall|i: int|
        0 <= i < shares.len() && (#[trigger] shares[i]).canon_host is Some implies from.contains(
        i,
    ) by {
        let j = choose|j: int| 0 <= j < at.len() && at[j] == i;
        assert(order.contains(j));
        let k = choose|k: int| 0 <= k < order.len() && order[k] == j;
        assert(from[k] == i);
    }
    assert forall|j: int, k: int| 0 <= j < k < from.len() implies #[trigger] from[j]
        != #[trigger] from[k] && {
        ||| sorted[j].host.len() > sorted[k].host.len()
        ||| sorted[j].host.len() == sorted[k].host.len() && from[j] < from[k]
    } by {
        assert(from[j] == at[order[j]] && from[k] == at[order[k]]);
        assert(order[j] != order[k]);
        if order[j] < order[k] {
            assert(at[order[j]] < at[order[k]]);
        } else {
            assert(at[order[k]] < at[order[j]]);
        }
        assert(sorted[j].host.len() >= sorted[k].host.len());
    }
    from
}

/// Whether the path lies under the directory of a share that has a canonical path: the components of
/// that path begin those of `p`.
pub open spec fn lies_in(p: Seq<u8>, share: ResolvedShare) -> bool {
    share.canon_host matches Some(host) && {
        &&& components(host@).len() <= components(p).len()
        &&& forall|i: int|
            0 <= i < components(host@).len() ==> #[trigger] components(host@)[i] == components(p)[i]
    }
}

/// The first mapping of a list whose directory holds a path rewrites it, whatever follows. If none
/// does, the path is not rewritten.
pub proof fn lemma_first_holds(sorted: Seq<Mapping>, p: Seq<u8>, k: int)
    requires
        0 <= k <= sorted.len(),
        forall|j: int| 0 <= j < k ==> stripped(p, (#[trigger] sorted[j]).host) is None,
    ensures
        k < sorted.len() && stripped(p, sorted[k].host) is Some ==> rewritten(sorted, p) == Some(
            path_joined(sorted[k].guest, stripped(p, sorted[k].host).unwrap()),
        ),
        k == sorted.len() ==> rewritten(sorted, p) is None,
    decreases k,
{
    if k > 0 {
        let rest = sorted.skip(1);
        assert(stripped(p, sorted[0].host) is None);
        assert forall|j: int| 0 <= j < k - 1 implies stripped(p, (#[trigger] rest[j]).host) is None by {
            assert(rest[j] == sorted[j + 1]);
        }
        lemma_first_holds(rest, p, k - 1);
    }
}

/// The most specific share decides. Of the shares that a path lies in, that with the longest
/// canonical path rewrites it, and the first of several with equally long ones: the path becomes the
/// guest's path of the share, with what the path has behind the share's own.
pub proof fn lemma_share_decides(
    shares: Seq<ResolvedShare>,
    sorted: Seq<Mapping>,
    p: Seq<u8>,
    i: int,
)
    requires
        longest_first(usable(shares), sorted),
        0 <= i < shares.len(),
        lies_in(p, shares[i]),
        forall|j: int|
            0 <= j < shares.len() && lies_in(p, #[trigger] shares[j]) ==> {
                let (a, b) = (shares[i].canon_host.unwrap()@, shares[j].canon_host.unwrap()@);
                a.len() > b.len() || a.len() == b.len() && i <= j
            },
    ensures
        stripped(p, shares[i].canon_host.unwrap()@) is Some,
        rewritten(sorted, p) == Some(
            path_joined(
                shares[i].share.guest@,
                stripped(p, shares[i].canon_host.unwrap()@).unwrap(),
            ),
        ),
{
    let from = lemma_shares_in_order(shares, sorted);
    let host = shares[i].canon_host.unwrap()@;
    lemma_stripped_by_components(p, host, host);
    assert(from.contains(i));
    let k = choose|k: int| 0 <= k < from.len() && from[k] == i;
    assert(sorted[k].host == host);
    assert forall|j: int| 0 <= j < k implies stripped(p, (#[trigger] sorted[j]).host) is None by {
        let share = shares[from[j]];
        assert(from[j] != from[k]);
        lemma_stripped_by_components(p, sorted[j].host, sorted[j].host);
        if stripped(p, sorted[j].host) is Some {
            assert(lies_in(p, shares[from[j]]));
        }
    }
    lemma_first_holds(sorted, p, k);
}

/// A path that lies in no share is not rewritten.
pub proof fn lemma_no_share_decides(
    shares: Seq<ResolvedShare>,
    sorted: Seq<Mapping>,
    p: Seq<u8>,
)
    requires
        longest_first(usable(shares), sorted),
        forall|j: int| 0 <= j < shares.len() ==> !lies_in(p, #[trigger] shares[j]),
    ensures
        rewritten(sorted, p) is None,
{
    let from = lemma_shares_in_order(shares, sorted);
    assert forall|j: int| 0 <= j < sorted.len() implies stripped(
        p,
        (#[trigger] sorted[j]).host,
    ) is None by {
        assert(!lies_in(p, shares[from[j]]));
        lemma_stripped_by_components(p, sorted[j].host, sorted[j].host);
    }
    lemma_first_holds(sorted, p, sorted.len() as int);
}

/// With a single share, every file below its directory is seen below the guest's path of it, by all
/// the names that lead to it, of which there may be any number.
pub proof fn lemma_file_in_share(share: ResolvedShare, sorted: Seq<Mapping>, segs: Seq<Seq<u8>>)
    requires
        longest_first(usable(seq![share]), sorted),
        share.canon_host is Some,
        segs.len() > 0,
        are_plain(segs),
    ensures
        rewritten(sorted, path_joined(share.canon_host.unwrap()@, slashed(segs))) == Some(
            path_joined(share.share.guest@, slashed(segs)),
        ),
{
    let shares = seq![share];
    let host = share.canon_host.unwrap()@;
    let p = path_joined(host, slashed(segs));
    lemma_strip_joined(host, segs);
    lemma_stripped_by_components(p, host, host);
    assert(shares[0] == share);
    assert(lies_in(p, shares[0]));
    lemma_share_decides(shares, sorted, p, 0);
}

} // verus!
