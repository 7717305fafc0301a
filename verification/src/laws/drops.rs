//! That dropped files do not get into each other's way, and that the guest finds them.

use crate::bytes::decimal;
use crate::bytes::joined;
use crate::bytes::DOT;
use crate::bytes::HYPHEN;
use crate::bytes::SLASH;
use crate::laws::paths::are_plain;
use crate::laws::paths::lemma_strip_joined;
use crate::laws::paths::slashed;
use crate::path::has_leading_dot;
use crate::path::has_root;
use crate::path::is_component;
use crate::path::last_name;
use crate::path::lemma_segment_end;
use crate::path::lemma_spans;
use crate::path::path_joined;
use crate::path::segment_end;
use crate::path::spans;
use crate::path::spans_from;
use crate::shares::rewritten;
use crate::shares::Mapping;
use crate::staging::candidate;
use crate::staging::lossy_utf8;
use crate::staging::numbered;
use crate::staging::text_of;
use crate::staging::Drops;
use vstd::prelude::*;

verus! {

/// A dropped file gets a directory of its own below that for dropped files, named by the number of
/// the file, and keeps its name there. The guest is told the same place as the guest sees it. The
/// next file gets the next number, and the largest number is followed by zero.
pub proof fn lemma_where_a_file_goes(drops: Drops, file: Seq<u8>, name: Seq<u8>)
    ensures
        ({
            let staged = drops.staged(file, name);
            let digits = decimal(drops.next as nat);
            &&& staged.from == file
            &&& staged.name == name
            &&& staged.dir == path_joined(drops.host_root, digits)
            &&& staged.guest == path_joined(path_joined(drops.guest_root, digits), name)
            &&& staged.phase is CreateDir
        }),
        drops.advanced().host_root == drops.host_root,
        drops.advanced().guest_root == drops.guest_root,
        drops.next < 0xffff_ffff_ffff_ffff ==> drops.advanced().next == drops.next + 1,
        drops.next == 0xffff_ffff_ffff_ffff ==> drops.advanced().next == 0,
{
}

/// The first path that is tried for a file is its own name in its directory. Every other one is the
/// text of the name with a hyphen and the number of the attempt behind it. The text of a name is
/// the name itself, of any length, where that is valid UTF-8.
pub proof fn lemma_which_names_are_tried(dir: Seq<u8>, name: Seq<u8>, attempt: u64)
    ensures
        candidate(dir, name, 0) == path_joined(dir, name),
        attempt > 0 ==> candidate(dir, name, attempt) == path_joined(
            dir,
            text_of(name) + seq![0x2du8] + decimal(attempt as nat),
        ),
        numbered(name, attempt) == name + seq![0x2du8] + decimal(attempt as nat),
        vstd::utf8::valid_utf8(name) ==> text_of(name) == name,
        !vstd::utf8::valid_utf8(name) ==> text_of(name) == lossy_utf8(name),
{
    assert(numbered(name, attempt) =~= name + seq![0x2du8] + decimal(attempt as nat));
    assert(numbered(text_of(name), attempt) =~= text_of(name) + seq![0x2du8] + decimal(
        attempt as nat,
    ));
}

/// A number is written with at least one digit, and with digits only.
proof fn lemma_decimal_digits(n: nat)
    ensures
        decimal(n).len() > 0,
        forall|i: int| 0 <= i < decimal(n).len() ==> 48 <= #[trigger] decimal(n)[i] <= 57,
    decreases n,
{
    if n >= 10 {
        lemma_decimal_digits(n / 10);
    }
}

/// Different numbers are written differently.
pub proof fn lemma_decimal_injective(a: nat, b: nat)
    requires
        decimal(a) == decimal(b),
    ensures
        a == b,
    decreases a,
{
    lemma_decimal_digits(a / 10);
    lemma_decimal_digits(b / 10);
    assert(a < 10 ==> decimal(a) == seq![(48 + a) as u8]);
    assert(b < 10 ==> decimal(b) == seq![(48 + b) as u8]);
    assert(a >= 10 ==> decimal(a) == decimal(a / 10).push((48 + a % 10) as u8));
    assert(b >= 10 ==> decimal(b) == decimal(b / 10).push((48 + b % 10) as u8));
    if a >= 10 && b >= 10 {
        assert(decimal(a).drop_last() =~= decimal(a / 10));
        assert(decimal(b).drop_last() =~= decimal(b / 10));
        lemma_decimal_injective(a / 10, b / 10);
        assert(decimal(a).last() == (48 + a % 10) as u8);
        assert(decimal(b).last() == (48 + b % 10) as u8);
    } else if a < 10 && b < 10 {
        assert(decimal(a)[0] == (48 + a) as u8);
        assert(decimal(b)[0] == (48 + b) as u8);
    } else {
        assert(decimal(a).len() != decimal(b).len());
    }
}

/// No component but the root holds a slash.
proof fn lemma_components_hold_no_slash(p: Seq<u8>, at: int)
    requires
        0 <= at,
    ensures
        forall|i: int, j: int|
            0 <= i < spans_from(p, at).len() && (#[trigger] spans_from(p, at)[i]).0 <= j
                < spans_from(p, at)[i].1 ==> #[trigger] p[j] != SLASH,
    decreases p.len() + 1 - at,
{
    if at < p.len() {
        lemma_segment_end(p, at);
        let end = segment_end(p, at);
        let all = spans_from(p, at);
        let rest = spans_from(p, end + 1);
        lemma_components_hold_no_slash(p, end + 1);
        assert forall|i: int, j: int|
            0 <= i < all.len() && (#[trigger] all[i]).0 <= j < all[i].1 implies #[trigger] p[j]
            != SLASH by {
            if is_component(p.subrange(at, end)) {
                if i > 0 {
                    assert(all[i] == rest[i - 1]);
                }
            }
        }
    }
}

/// A base name is not empty and holds no slash, and it is neither `.` nor `..`.
pub proof fn lemma_base_name(p: Seq<u8>)
    ensures
        last_name(p) matches Some(name) ==> {
            &&& name.len() > 0
            &&& !name.contains(SLASH)
            &&& name != seq![DOT]
            &&& name != seq![DOT, DOT]
        },
{
    if let Some(name) = last_name(p) {
        let s = spans(p);
        let k = s.len() - 1;
        lemma_spans(p);
        assert(name == p.subrange(s[k].0, s[k].1));
        lemma_components_hold_no_slash(p, 0);
        lemma_components_hold_no_slash(p, 1);
        assert forall|j: int| 0 <= j < name.len() implies name[j] != SLASH by {
            assert(name[j] == p[s[k].0 + j]);
            if has_root(p) || has_leading_dot(p) {
                if k == 0 {
                    assert(name =~= seq![p[0]]);
                } else {
                    assert(s[k] == spans_from(p, 1)[k - 1]);
                }
            } else {
                assert(s[k] == spans_from(p, 0)[k]);
            }
        }
    }
}

/// Entries of differently numbered directories below one root are different.
proof fn lemma_numbered_apart(root: Seq<u8>, a: nat, b: nat, x: Seq<u8>, y: Seq<u8>)
    requires
        a != b,
        !has_root(x),
        !has_root(y),
    ensures
        path_joined(root, decimal(a)) != path_joined(root, decimal(b)),
        path_joined(path_joined(root, decimal(a)), x) != path_joined(
            path_joined(root, decimal(b)),
            y,
        ),
{
    lemma_decimal_digits(a);
    lemma_decimal_digits(b);
    let da = decimal(a);
    let db = decimal(b);
    let base = if root.len() > 0 && root.last() != SLASH {
        root.push(SLASH)
    } else {
        root
    };
    let k = base.len() as int;
    let pa = path_joined(root, da);
    let pb = path_joined(root, db);
    assert(pa =~= base + da);
    assert(pb =~= base + db);
    if pa == pb {
        assert(da =~= pa.skip(k));
        assert(db =~= pb.skip(k));
        lemma_decimal_injective(a, b);
    }
    assert(pa.last() == da.last() && pb.last() == db.last());
    let qa = path_joined(pa, x);
    let qb = path_joined(pb, y);
    assert(qa =~= base + da + seq![SLASH] + x);
    assert(qb =~= base + db + seq![SLASH] + y);
    if qa == qb {
        if da.len() == db.len() {
            assert(da =~= qa.subrange(k, k + da.len()));
            assert(db =~= qb.subrange(k, k + db.len()));
            lemma_decimal_injective(a, b);
        } else if da.len() < db.len() {
            assert(qa[k + da.len()] == SLASH);
            assert(qb[k + da.len()] == db[da.len() as int]);
        } else {
            assert(qb[k + db.len()] == SLASH);
            assert(qa[k + db.len()] == da[db.len() as int]);
        }
    }
}

/// Files that are staged under different numbers get different directories on the host and
/// different paths in the guest, even if they have the same name.
pub proof fn lemma_staged_apart(one: Drops, other: Drops, file: Seq<u8>, file2: Seq<u8>)
    requires
        one.host_root == other.host_root,
        one.guest_root == other.guest_root,
        one.next != other.next,
        last_name(file) is Some,
        last_name(file2) is Some,
    ensures
        ({
            let a = one.staged(file, last_name(file).unwrap());
            let b = other.staged(file2, last_name(file2).unwrap());
            &&& a.dir != b.dir
            &&& a.guest != b.guest
            &&& candidate(a.dir, a.name, 0) != candidate(b.dir, b.name, 0)
        }),
{
    lemma_base_name(file);
    lemma_base_name(file2);
    let x = last_name(file).unwrap();
    let y = last_name(file2).unwrap();
    assert(!has_root(x)) by {
        if has_root(x) {
            assert(x.contains(x[0]));
        }
    }
    assert(!has_root(y)) by {
        if has_root(y) {
            assert(y.contains(y[0]));
        }
    }
    lemma_numbered_apart(one.host_root, one.next as nat, other.next as nat, x, y);
    lemma_numbered_apart(one.guest_root, one.next as nat, other.next as nat, x, y);
}

/// The directory for dropped files after `files` more of them.
pub open spec fn advanced_by(drops: Drops, files: nat) -> Drops
    decreases files,
{
    if files == 0 {
        drops
    } else {
        advanced_by(drops, (files - 1) as nat).advanced()
    }
}

proof fn lemma_next_number(drops: Drops, files: nat)
    requires
        files <= u64::MAX,
    ensures
        advanced_by(drops, files).next == if drops.next + files <= u64::MAX {
            drops.next + files
        } else {
            drops.next + files - u64::MAX - 1
        },
        advanced_by(drops, files).host_root == drops.host_root,
        advanced_by(drops, files).guest_root == drops.guest_root,
    decreases files,
{
    if files > 0 {
        lemma_next_number(drops, (files - 1) as nat);
    }
}

/// A number is not used again before all the others have been. The directories stay the same.
pub proof fn lemma_number_used_up(drops: Drops, files: nat)
    requires
        0 < files <= u64::MAX,
    ensures
        advanced_by(drops, files).next != drops.next,
        advanced_by(drops, files).host_root == drops.host_root,
        advanced_by(drops, files).guest_root == drops.guest_root,
{
    lemma_next_number(drops, files);
}

/// Each attempt at a name tries another path. Of a name that is not valid UTF-8 this is claimed
/// from the second attempt on. That none of these tries the first path again is ensured, for every
/// name, by [`candidate_path`](crate::staging::candidate_path).
pub proof fn lemma_candidates_apart(dir: Seq<u8>, name: Seq<u8>, a: u64, b: u64)
    requires
        a != b,
        (a == 0 || b == 0) ==> vstd::utf8::valid_utf8(name),
    ensures
        candidate(dir, name, a) != candidate(dir, name, b),
{
    let x = tried(name, a);
    let y = tried(name, b);
    lemma_tried_apart(name, a, b);
    let base = if has_root(x) {
        Seq::empty()
    } else if dir.len() > 0 && dir.last() != SLASH {
        dir.push(SLASH)
    } else {
        dir
    };
    assert(path_joined(dir, x) =~= base + x);
    assert(path_joined(dir, y) =~= base + y);
    if path_joined(dir, x) == path_joined(dir, y) {
        assert(x =~= (base + x).skip(base.len() as int));
        assert(y =~= (base + y).skip(base.len() as int));
    }
}

/// The name number `attempt`.
spec fn tried(name: Seq<u8>, attempt: u64) -> Seq<u8> {
    if attempt == 0 {
        name
    } else {
        numbered(text_of(name), attempt)
    }
}

proof fn lemma_tried_apart(name: Seq<u8>, a: u64, b: u64)
    requires
        a != b,
        (a == 0 || b == 0) ==> vstd::utf8::valid_utf8(name),
    ensures
        tried(name, a) != tried(name, b),
        has_root(tried(name, a)) == has_root(tried(name, b)),
{
    let text = text_of(name);
    let lead = text.push(HYPHEN);
    lemma_decimal_digits(a as nat);
    lemma_decimal_digits(b as nat);
    let x = numbered(text, a);
    let y = numbered(text, b);
    assert(x[0] == lead[0]);
    assert(y[0] == lead[0]);
    assert(text.len() > 0 ==> lead[0] == text[0]);
    if a != 0 && b != 0 {
        if x == y {
            assert(x.skip(lead.len() as int) =~= decimal(a as nat));
            assert(y.skip(lead.len() as int) =~= decimal(b as nat));
            lemma_decimal_injective(a as nat, b as nat);
        }
    } else {
        assert(x.len() > name.len() && y.len() > name.len());
    }
}

/// The guest is told the path under which it sees a staged file: the directory for dropped files,
/// shared as it is, leads from the file's first choice of a name on the host to that path.
pub proof fn lemma_staged_file_is_shared(drops: Drops, file: Seq<u8>)
    requires
        last_name(file) is Some,
    ensures
        ({
            let staged = drops.staged(file, last_name(file).unwrap());
            let share = Mapping { host: drops.host_root, guest: drops.guest_root };
            rewritten(seq![share], candidate(staged.dir, staged.name, 0)) == Some(staged.guest)
        }),
{
    let name = last_name(file).unwrap();
    let d = decimal(drops.next as nat);
    let q = d + seq![SLASH] + name;
    lemma_base_name(file);
    lemma_decimal_digits(drops.next as nat);
    assert(!d.contains(SLASH)) by {
        if d.contains(SLASH) {
            let i = choose|i: int| 0 <= i < d.len() && d[i] == SLASH;
            assert(48 <= d[i]);
        }
    }
    assert(d != seq![DOT]) by {
        assert(d[0] >= 48);
        assert(seq![DOT][0] == DOT);
    }
    assert(!has_root(name)) by {
        if has_root(name) {
            assert(name.contains(name[0]));
        }
    }
    let segs = seq![d, name];
    assert(are_plain(segs)) by {
        assert forall|i: int, j: int|
            0 <= i < segs.len() && 0 <= j < segs[i].len() implies #[trigger] segs[i][j] != 0x2f by {
            assert(segs[i].contains(segs[i][j]));
        }
        if name.len() == 1 && name[0] == 0x2e {
            assert(name =~= seq![DOT]);
        }
    }
    lemma_strip_joined(drops.host_root, segs);
    assert(segs.skip(1) =~= seq![name]);
    assert(joined(segs.skip(1), seq![0x2fu8]) == name);
    assert(slashed(segs) =~= q);
    lemma_join_twice(drops.host_root, d, name);
    lemma_join_twice(drops.guest_root, d, name);
    let share = Mapping { host: drops.host_root, guest: drops.guest_root };
    assert(seq![share][0] == share);
}

/// To append two parts one after the other is to append them together.
proof fn lemma_join_twice(root: Seq<u8>, d: Seq<u8>, name: Seq<u8>)
    requires
        d.len() > 0,
        d[0] != SLASH,
        d.last() != SLASH,
        !has_root(name),
    ensures
        path_joined(path_joined(root, d), name) == path_joined(root, d + seq![SLASH] + name),
{
    let q = d + seq![SLASH] + name;
    assert(q[0] == d[0]);
    assert(path_joined(root, d).last() == d.last());
    assert(path_joined(path_joined(root, d), name) =~= path_joined(root, q));
}

} // verus!
