use vstd::prelude::*;

use crate::directory::{becomes, built_from, contribution, kept, kept_indices, sum_kept, Resolved};
use crate::listing::{entry_ok, label, scanned, Listings, Report};
use crate::node::Node;
use crate::scanner::Scanner;

verus! {

/// Two settled entries that make the same child: same kind, same name, same shape.
pub open spec fn alike(a: Resolved, b: Resolved) -> bool {
    match (a, b) {
        (Resolved::Skipped, Resolved::Skipped) => true,
        (Resolved::Leaf { name: n1, size: s1 }, Resolved::Leaf { name: n2, size: s2 }) => n1@ == n2@ && s1 == s2,
        (Resolved::Sub { name: n1, node: x }, Resolved::Sub { name: n2, node: y }) => n1@ == n2@ && x.same_shape(&y),
        _ => false,
    }
}

/// A tree with no path longer than `d` levels below its root.
pub open spec fn within_depth(n: Node, d: nat) -> bool
    decreases d,
{
    if d == 0 {
        n.is_bare()
    } else {
        forall|i: int| 0 <= i < n.children@.len() ==> within_depth(#[trigger] n.children@[i].1, (d - 1) as nat)
    }
}

proof fn lemma_alike_sums(r1: Seq<Resolved>, r2: Seq<Resolved>)
    requires
        r1.len() == r2.len(),
        forall|i: int| 0 <= i < r1.len() ==> alike(#[trigger] r1[i], r2[i]),
    ensures
        sum_kept(r1) == sum_kept(r2),
        kept_indices(r1) == kept_indices(r2),
    decreases r1.len(),
{
    if r1.len() > 0 {
        let (d1, d2) = (r1.drop_last(), r2.drop_last());
        assert forall|i: int| 0 <= i < d1.len() implies alike(#[trigger] d1[i], d2[i]) by {
            assert(alike(r1[i], r2[i]));
        }
        lemma_alike_sums(d1, d2);
        let last = r1.len() - 1;
        assert(alike(r1[last], r2[last]));
        assert(contribution(r1.last()) == contribution(r2.last()));
        assert(r1.take(last) =~= d1);
        assert(r2.take(last) =~= d2);
        assert(kept(r1, last) == kept(r2, last));
    }
}

proof fn lemma_leaf_within(n: Node, d: nat)
    requires
        n.is_bare(),
    ensures
        within_depth(n, d),
{
}

/// What a scan makes of a directory depends on the listings alone: two trees that a
/// scan of the same listings, at the same place and with the same budget, can make
/// have the same names and sizes in the same places. So scanning a tree that does
/// not change gives the same result each time.
pub proof fn lemma_scan_deterministic(a: Node, b: Node, fs: Listings, pos: Seq<int>, d: nat)
    requires
        scanned(a, fs, pos, d),
        scanned(b, fs, pos, d),
    ensures
        a.same_shape(&b),
    decreases d,
{
    if d > 0 && fs[pos] is Some {
        let reps = fs[pos]->0;
        let r1 = choose|rs: Seq<Resolved>|
            {
                &&& #[trigger] built_from(a, rs)
                &&& rs.len() == reps.len()
                &&& forall|i: int|
                    0 <= i < reps.len() ==> entry_ok(reps[i], #[trigger] rs[i], fs, pos.push(i), d)
            };
        let r2 = choose|rs: Seq<Resolved>|
            {
                &&& #[trigger] built_from(b, rs)
                &&& rs.len() == reps.len()
                &&& forall|i: int|
                    0 <= i < reps.len() ==> entry_ok(reps[i], #[trigger] rs[i], fs, pos.push(i), d)
            };
        assert forall|i: int| 0 <= i < r1.len() implies alike(#[trigger] r1[i], r2[i]) by {
            assert(entry_ok(reps[i], r1[i], fs, pos.push(i), d));
            assert(entry_ok(reps[i], r2[i], fs, pos.push(i), d));
            if let (Resolved::Sub { node: x, .. }, Resolved::Sub { node: y, .. }) = (r1[i], r2[i]) {
                lemma_scan_deterministic(x, y, fs, pos.push(i), (d - 1) as nat);
            }
        }
        lemma_alike_sums(r1, r2);
        crate::directory::lemma_kept_indices_bounds(r1);
        let ks = kept_indices(r1);
        assert forall|j: int| 0 <= j < a.children@.len() implies {
            &&& (#[trigger] a.children@[j]).0@ == b.children@[j].0@
            &&& a.children@[j].1.same_shape(&b.children@[j].1)
        } by {
            assert(becomes(r1[ks[j]], a.children@[j]));
            assert(becomes(r2[ks[j]], b.children@[j]));
            assert(alike(r1[ks[j]], r2[ks[j]]));
        }
    }
}

/// A scan with budget `d` reaches no deeper than `d` levels below the directory:
/// directories met with the budget spent stand as empty leaves.
pub proof fn lemma_scan_within_depth(n: Node, fs: Listings, pos: Seq<int>, d: nat)
    requires
        scanned(n, fs, pos, d),
    ensures
        within_depth(n, d),
    decreases d,
{
    if d > 0 && fs[pos] is Some {
        let reps = fs[pos]->0;
        let rs = choose|rs: Seq<Resolved>|
            {
                &&& #[trigger] built_from(n, rs)
                &&& rs.len() == reps.len()
                &&& forall|i: int|
                    0 <= i < reps.len() ==> entry_ok(reps[i], #[trigger] rs[i], fs, pos.push(i), d)
            };
        let ks = kept_indices(rs);
        assert forall|j: int| 0 <= j < n.children@.len() implies within_depth(
            #[trigger] n.children@[j].1,
            (d - 1) as nat,
        ) by {
            let i = ks[j];
            crate::directory::lemma_kept_indices_bounds(rs);
            assert(becomes(rs[i], n.children@[j]));
            assert(entry_ok(reps[i], rs[i], fs, pos.push(i), d));
            match rs[i] {
                Resolved::Sub { node, .. } => {
                    lemma_scan_within_depth(node, fs, pos.push(i), (d - 1) as nat);
                },
                _ => {
                    lemma_leaf_within(n.children@[j].1, (d - 1) as nat);
                },
            }
        }
    }
}

/// With no budget left a directory is not read: it stands as size zero with no
/// children, whatever it holds.
pub proof fn lemma_depth_zero(n: Node, fs: Listings, pos: Seq<int>)
    requires
        scanned(n, fs, pos, 0),
    ensures
        n.size == 0,
        n.is_bare(),
{
}

/// An empty directory scanned with any budget is size zero with no children.
pub proof fn lemma_empty_directory(n: Node, fs: Listings, pos: Seq<int>, d: nat)
    requires
        d >= 1,
        fs.contains_key(pos),
        fs[pos] == Some(Seq::<Report>::empty()),
        scanned(n, fs, pos, d),
    ensures
        n.size == 0,
        n.is_bare(),
{
    let rs = choose|rs: Seq<Resolved>|
        {
            &&& #[trigger] built_from(n, rs)
            &&& rs.len() == 0
            &&& forall|i: int|
                0 <= i < 0 ==> entry_ok(Seq::<Report>::empty()[i], #[trigger] rs[i], fs, pos.push(i), d)
        };
    assert(rs =~= Seq::<Resolved>::empty());
}

/// A directory that cannot be listed stands as size zero with no children.
pub proof fn lemma_unreadable_directory(n: Node, fs: Listings, pos: Seq<int>, d: nat)
    requires
        fs.contains_key(pos),
        fs[pos] is None,
        scanned(n, fs, pos, d),
    ensures
        n.size == 0,
        n.is_bare(),
{
}

/// Two finished scans with the same budget that were handed the same listings
/// produced trees with the same names and sizes in the same places.
pub proof fn lemma_scans_agree(a: &Scanner, b: &Scanner)
    requires
        a.inv(),
        b.inv(),
        a.result is Some,
        b.result is Some,
        a.depth == b.depth,
        a.seen@ == b.seen@,
    ensures
        a.result->0.same_shape(&b.result->0),
{
    lemma_scan_deterministic(a.result->0, b.result->0, a.seen@, Seq::empty(), a.depth as nat);
}

/// The listing holds files only, each of a known length.
pub open spec fn all_files(reps: Seq<Report>) -> bool {
    forall|i: int| 0 <= i < reps.len() ==> (#[trigger] reps[i] matches Report::File { len: Some(_), .. })
}

/// The sum of the known lengths of the files of a listing.
pub open spec fn file_total(reps: Seq<Report>) -> nat
    decreases reps.len(),
{
    if reps.len() == 0 {
        0
    } else {
        file_total(reps.drop_last()) + match reps.last() {
            Report::File { len: Some(n), .. } => n as nat,
            _ => 0,
        }
    }
}

proof fn lemma_files_kept(rs: Seq<Resolved>, reps: Seq<Report>)
    requires
        rs.len() == reps.len(),
        all_files(reps),
        file_total(reps) <= u64::MAX,
        forall|i: int|
            0 <= i < rs.len() ==> (#[trigger] rs[i] matches Resolved::Leaf { size, .. } && Some(size)
                == reps[i]->File_len),
    ensures
        sum_kept(rs) == file_total(reps),
        kept_indices(rs) == Seq::new(rs.len(), |i: int| i),
    decreases rs.len(),
{
    if rs.len() > 0 {
        let (d1, d2) = (rs.drop_last(), reps.drop_last());
        assert forall|i: int| 0 <= i < d2.len() implies (#[trigger] d2[i] matches Report::File {
            len: Some(_),
            ..
        }) by {
            assert(reps[i] is File);
        }
        assert forall|i: int| 0 <= i < d1.len() implies (#[trigger] d1[i] matches Resolved::Leaf { size, .. }
            && Some(size) == d2[i]->File_len) by {
            assert(rs[i] is Leaf);
        }
        assert(reps.last() is File);
        assert(rs.last() is Leaf);
        lemma_files_kept(d1, d2);
        let last = rs.len() - 1;
        assert(rs.take(last) =~= d1);
        assert(kept(rs, last));
        assert(kept_indices(rs) =~= Seq::new(rs.len(), |i: int| i));
    }
}

/// A directory that holds only files of known lengths, whose total fits in a
/// `u64`, gets one child for each file, in listing order, with the file's name and
/// length, and the sum of the lengths as its size.
pub proof fn lemma_files_only(n: Node, fs: Listings, pos: Seq<int>, d: nat, reps: Seq<Report>)
    requires
        d >= 1,
        fs.contains_key(pos),
        fs[pos] == Some(reps),
        all_files(reps),
        file_total(reps) <= u64::MAX,
        scanned(n, fs, pos, d),
    ensures
        n.size == file_total(reps),
        n.children@.len() == reps.len(),
        forall|i: int|
            0 <= i < reps.len() ==> {
                &&& (#[trigger] n.children@[i]).0@ == label(reps[i]->File_name)
                &&& Some(n.children@[i].1.size) == reps[i]->File_len
                &&& n.children@[i].1.is_bare()
            },
{
    let rs = choose|rs: Seq<Resolved>|
        {
            &&& #[trigger] built_from(n, rs)
            &&& rs.len() == reps.len()
            &&& forall|i: int|
                0 <= i < reps.len() ==> entry_ok(reps[i], #[trigger] rs[i], fs, pos.push(i), d)
        };
    assert forall|i: int| 0 <= i < rs.len() implies (#[trigger] rs[i] matches Resolved::Leaf { size, .. } && Some(
        size,
    ) == reps[i]->File_len) by {
        assert(entry_ok(reps[i], rs[i], fs, pos.push(i), d));
        assert(reps[i] is File);
    }
    lemma_files_kept(rs, reps);
    assert forall|i: int| 0 <= i < reps.len() implies {
        &&& (#[trigger] n.children@[i]).0@ == label(reps[i]->File_name)
        &&& Some(n.children@[i].1.size) == reps[i]->File_len
        &&& n.children@[i].1.is_bare()
    } by {
        assert(kept_indices(rs)[i] == i);
        assert(becomes(rs[i], n.children@[i]));
        assert(entry_ok(reps[i], rs[i], fs, pos.push(i), d));
        assert(rs[i] is Leaf);
    }
}

} // verus!
