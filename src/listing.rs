use vstd::prelude::*;

use crate::directory::{built_from, Resolved};
use crate::node::Node;

verus! {

/// The name given to an entry whose name is not valid text.
pub const PLACEHOLDER_NAME: &'static str = "Invalid UTF-8 Name";

/// What the filesystem said of one entry of a directory listing.
#[derive(Debug, Clone, PartialEq, Eq)]
pub enum Report {
    /// The entry itself could not be read.
    Unresolvable,
    /// Whether the entry is a file or a directory could not be told.
    Untyped,
    /// A file, with its length if that could be read.
    File { name: Option<String>, len: Option<u64> },
    /// A directory; `dir` is how the caller finds it again when asked to list it.
    Directory { name: Option<String>, dir: usize },
}

/// The filesystem as the scan saw it: for the directory at each position (the
/// indices of the entries that lead to it from the root, in their listings), its
/// listing, or `None` where it could not be listed.
pub type Listings = Map<Seq<int>, Option<Seq<Report>>>;

/// The name of an entry as text, with the placeholder where it could not be decoded.
pub open spec fn label(name: Option<String>) -> Seq<char> {
    match name {
        Some(s) => s@,
        None => PLACEHOLDER_NAME@,
    }
}

/// How entry `rep`, at position `pos` in a directory with budget `depth`, is settled:
/// unreadable entries are skipped, files keep their length, and subdirectories get a
/// tree of their own, scanned with one level less.
pub open spec fn entry_ok(rep: Report, res: Resolved, fs: Listings, pos: Seq<int>, depth: nat) -> bool
    decreases depth, 0nat,
{
    match rep {
        Report::File { name, len: Some(n) } => match res {
            Resolved::Leaf { name: s, size } => s@ == label(name) && size == n,
            _ => false,
        },
        Report::Directory { name, .. } => match res {
            Resolved::Sub { name: s, node } => s@ == label(name) && node.wf() && depth > 0
                && scanned(node, fs, pos, (depth - 1) as nat),
            _ => false,
        },
        _ => res is Skipped,
    }
}

/// `n` is what a scan with budget `depth` makes of the directory at `pos`: nothing
/// where the budget is spent or the directory cannot be listed, else the directory
/// built from its listing, each entry settled as `entry_ok` says.
pub open spec fn scanned(n: Node, fs: Listings, pos: Seq<int>, depth: nat) -> bool
    decreases depth, 1nat,
{
    if depth == 0 {
        n.size == 0 && n.is_bare()
    } else if !fs.contains_key(pos) {
        false
    } else {
        match fs[pos] {
            None => n.size == 0 && n.is_bare(),
            Some(reps) => exists|rs: Seq<Resolved>|
                {
                    &&& #[trigger] built_from(n, rs)
                    &&& rs.len() == reps.len()
                    &&& forall|i: int|
                        0 <= i < reps.len() ==> entry_ok(reps[i], #[trigger] rs[i], fs, pos.push(i), depth)
                },
        }
    }
}

/// A scan of the directory at `p` reads only the listings at and below `p`, so a
/// listing added elsewhere leaves it as it was.
pub proof fn lemma_scanned_insert(n: Node, fs: Listings, p: Seq<int>, d: nat, q: Seq<int>, v: Option<Seq<Report>>)
    requires
        scanned(n, fs, p, d),
        !p.is_prefix_of(q),
    ensures
        scanned(n, fs.insert(q, v), p, d),
    decreases d,
{
    let fs2 = fs.insert(q, v);
    if d > 0 {
        assert(p != q);
        assert(fs2.contains_key(p) && fs2[p] == fs[p]);
        if let Some(reps) = fs[p] {
            let rs = choose|rs: Seq<Resolved>|
                {
                    &&& #[trigger] built_from(n, rs)
                    &&& rs.len() == reps.len()
                    &&& forall|i: int|
                        0 <= i < reps.len() ==> entry_ok(reps[i], #[trigger] rs[i], fs, p.push(i), d)
                };
            assert forall|i: int| 0 <= i < reps.len() implies entry_ok(reps[i], #[trigger] rs[i], fs2, p.push(i), d) by {
                assert(entry_ok(reps[i], rs[i], fs, p.push(i), d));
                if let Resolved::Sub { node, .. } = rs[i] {
                    if reps[i] is Directory {
                        if p.push(i).is_prefix_of(q) {
                            assert(q.take(p.len() as int) =~= p.push(i).take(p.len() as int));
                            assert(p.push(i).take(p.len() as int) =~= p);
                        }
                        lemma_scanned_insert(node, fs, p.push(i), (d - 1) as nat, q, v);
                    }
                }
            }
        }
    }
}

} // verus!
