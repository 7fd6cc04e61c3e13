use vstd::prelude::*;

verus! {

/// One element of a size profile: a file, or a directory with its named children.
#[derive(Debug, PartialEq, Eq)]
pub struct Node {
    /// Bytes of a file, or the total of a directory's children.
    pub size: u64,
    /// The named children of a directory, in the order they were listed.
    pub children: Vec<(String, Node)>,
}

/// The sum of the sizes of a sequence of named children.
pub open spec fn total(s: Seq<(String, Node)>) -> nat
    decreases s.len(),
{
    if s.len() == 0 {
        0
    } else {
        total(s.drop_last()) + s.last().1.size as nat
    }
}

impl Node {
    /// Every node of the tree that has children carries the sum of their sizes.
    pub open spec fn wf(&self) -> bool
        decreases self,
    {
        &&& self.children@.len() > 0 ==> self.size == total(self.children@)
        &&& forall|i: int|
            0 <= i < self.children@.len() ==> (#[trigger] self.children@[i]).1.wf()
    }

    /// A node without children.
    pub open spec fn is_bare(&self) -> bool {
        self.children@.len() == 0
    }

    /// Two trees with the same names and the same sizes, in the same places.
    pub open spec fn same_shape(&self, other: &Node) -> bool
        decreases self,
    {
        &&& self.size == other.size
        &&& self.children@.len() == other.children@.len()
        &&& forall|i: int|
            0 <= i < self.children@.len() ==> {
                &&& (#[trigger] self.children@[i]).0@ == other.children@[i].0@
                &&& self.children@[i].1.same_shape(&other.children@[i].1)
            }
    }

    /// A directory that was not read, or held nothing: size zero, no children.
    pub fn empty() -> (r: Node)
        ensures
            r.size == 0,
            r.is_bare(),
            r.wf(),
    {
        Node { size: 0, children: Vec::new() }
    }

    /// A file of `size` bytes.
    pub fn leaf(size: u64) -> (r: Node)
        ensures
            r.size == size,
            r.is_bare(),
            r.wf(),
    {
        Node { size, children: Vec::new() }
    }

    /// The number of direct children.
    pub fn child_count(&self) -> (r: usize)
        ensures
            r == self.children@.len(),
    {
        self.children.len()
    }
}

/// The sum of the sizes grows by the size of each child appended.
pub proof fn lemma_total_push(s: Seq<(String, Node)>, c: (String, Node))
    ensures
        total(s.push(c)) == total(s) + c.1.size as nat,
{
    assert(s.push(c).drop_last() =~= s);
}

} // verus!
