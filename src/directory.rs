use vstd::prelude::*;

use crate::node::{lemma_total_push, total, Node};

verus! {

/// How one entry of a directory listing was settled.
#[derive(Debug, PartialEq, Eq)]
pub enum Resolved {
    /// The entry could not be accounted for and is left out.
    Skipped,
    /// A file of known length.
    Leaf { name: String, size: u64 },
    /// A subdirectory and the tree that was made of it.
    Sub { name: String, node: Node },
}

/// The bytes an entry adds to its directory, if it is kept at all.
pub open spec fn contribution(r: Resolved) -> Option<nat> {
    match r {
        Resolved::Skipped => None,
        Resolved::Leaf { size, .. } => Some(size as nat),
        Resolved::Sub { node, .. } => Some(node.size as nat),
    }
}

/// The running total over a listing: each entry adds its bytes, unless it has none
/// or the sum would no longer fit in a `u64`.
pub open spec fn sum_kept(rs: Seq<Resolved>) -> nat
    decreases rs.len(),
{
    if rs.len() == 0 {
        0
    } else {
        let t = sum_kept(rs.drop_last());
        match contribution(rs.last()) {
            Some(c) => if t + c <= u64::MAX {
                t + c
            } else {
                t
            },
            None => t,
        }
    }
}

/// Whether entry `i` of a listing becomes a child of the directory.
pub open spec fn kept(rs: Seq<Resolved>, i: int) -> bool {
    match contribution(rs[i]) {
        Some(c) => sum_kept(rs.take(i)) + c <= u64::MAX,
        None => false,
    }
}

/// The positions, in order, of the entries that become children.
pub open spec fn kept_indices(rs: Seq<Resolved>) -> Seq<int>
    decreases rs.len(),
{
    if rs.len() == 0 {
        Seq::empty()
    } else {
        let p = kept_indices(rs.drop_last());
        if kept(rs, rs.len() - 1) {
            p.push(rs.len() - 1)
        } else {
            p
        }
    }
}

/// The named child that a kept entry turns into.
pub open spec fn becomes(r: Resolved, child: (String, Node)) -> bool {
    match r {
        Resolved::Skipped => false,
        Resolved::Leaf { name, size } => child.0@ == name@ && child.1.size == size && child.1.is_bare(),
        Resolved::Sub { name, node } => child.0@ == name@ && child.1 == node,
    }
}

/// `n` is the directory made of the settled entries `rs`.
pub open spec fn built_from(n: Node, rs: Seq<Resolved>) -> bool {
    &&& n.size == sum_kept(rs)
    &&& n.children@.len() == kept_indices(rs).len()
    &&& forall|j: int|
        0 <= j < n.children@.len() ==> becomes(rs[#[trigger] kept_indices(rs)[j]], n.children@[j])
}

/// Every subdirectory among the entries is itself well formed.
pub open spec fn subs_wf(rs: Seq<Resolved>) -> bool {
    forall|i: int|
        0 <= i < rs.len() ==> match #[trigger] rs[i] {
            Resolved::Sub { node, .. } => node.wf(),
            _ => true,
        }
}

pub proof fn lemma_kept_indices_bounds(rs: Seq<Resolved>)
    ensures
        forall|j: int|
            0 <= j < kept_indices(rs).len() ==> 0 <= #[trigger] kept_indices(rs)[j] < rs.len(),
    decreases rs.len(),
{
    if rs.len() > 0 {
        let p = kept_indices(rs.drop_last());
        lemma_kept_indices_bounds(rs.drop_last());
        assert forall|j: int| 0 <= j < kept_indices(rs).len() implies 0 <= #[trigger] kept_indices(
            rs,
        )[j] < rs.len() by {
            if j < p.len() {
                assert(kept_indices(rs)[j] == p[j]);
            }
        }
    }
}

/// Makes the directory node out of its settled entries, in listing order: files
/// become leaves, subdirectories keep their trees, skipped entries add nothing, and
/// the size is the sum of what was kept.
pub fn build_directory(rs: Vec<Resolved>) -> (r: Node)
    requires
        subs_wf(rs@),
    ensures
        built_from(r, rs@),
        r.wf(),
{
    let ghost orig = rs@;
    let n = rs.len();
    let mut rs = rs;
    let mut rev: Vec<Resolved> = Vec::new();
    while rs.len() > 0
        invariant
            rs@ == orig.take(rs.len() as int),
            rs.len() + rev.len() == n,
            n == orig.len(),
            forall|j: int| 0 <= j < rev.len() ==> #[trigger] rev@[j] == orig[n - 1 - j],
        decreases rs.len(),
    {
        let r = rs.pop().unwrap();
        rev.push(r);
        assert(rs@ =~= orig.take(rs.len() as int));
    }
    let mut node = Node::empty();
    let mut i: usize = 0;
    proof {
        lemma_kept_indices_bounds(orig);
    }
    while i < n
        invariant
            0 <= i <= n,
            n == orig.len(),
            i + rev.len() == n,
            subs_wf(orig),
            forall|j: int| 0 <= j < rev.len() ==> #[trigger] rev@[j] == orig[n - 1 - j],
            built_from(node, orig.take(i as int)),
            node.size == total(node.children@),
            forall|k: int|
                0 <= k < node.children@.len() ==> (#[trigger] node.children@[k]).1.wf(),
        decreases n - i,
    {
        let ghost pre = orig.take(i as int);
        let ghost next = orig.take(i + 1);
        let ghost old_children = node.children@;
        assert(next.drop_last() =~= pre);
        assert(next.last() == orig[i as int]);
        assert(orig.take(i + 1).take(i as int) =~= pre);
        proof {
            lemma_kept_indices_bounds(pre);
        }
        let r = rev.pop().unwrap();
        assert(r == orig[i as int]);
        match r {
            Resolved::Skipped => {},
            Resolved::Leaf { name, size } => {
                if let Some(t) = node.size.checked_add(size) {
                    node.size = t;
                    node.children.push((name, Node::leaf(size)));
                    proof {
                        lemma_total_push(old_children, node.children@.last());
                    }
                }
            },
            Resolved::Sub { name, node: sub } => {
                if let Some(t) = node.size.checked_add(sub.size) {
                    node.size = t;
                    node.children.push((name, sub));
                    proof {
                        lemma_total_push(old_children, node.children@.last());
                    }
                }
            },
        }
        assert(node.children@.len() == kept_indices(next).len());
        assert forall|j: int| 0 <= j < node.children@.len() implies becomes(
            next[#[trigger] kept_indices(next)[j]],
            node.children@[j],
        ) by {
            if j < old_children.len() {
                assert(kept_indices(next)[j] == kept_indices(pre)[j]);
                assert(next[kept_indices(pre)[j]] == pre[kept_indices(pre)[j]]);
            }
        }
        i = i + 1;
    }
    assert(orig.take(n as int) =~= orig);
    node
}

} // verus!
