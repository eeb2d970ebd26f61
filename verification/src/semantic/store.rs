//! Numbering the nodes of a tree in visiting order.
use vstd::prelude::*;

verus! {

/// The number of a node in visiting order.
#[derive(Debug, Clone, Copy, PartialEq, Eq, Structural, Hash)]
pub struct NodeId(pub usize);

impl NodeId {
    pub fn get(&self) -> (res: usize)
        ensures
            res == self.0,
    {
        self.0
    }
}

impl Default for NodeId {
    fn default() -> (res: Self)
        ensures
            res == NodeId(0),
    {
        NodeId(0)
    }
}

/// Hands out node numbers in visiting order and tracks the depth.
#[derive(Debug)]
pub struct AstWalker {
    next_id: usize,
    depth: usize,
}

impl AstWalker {
    /// The number of nodes numbered so far.
    pub closed spec fn spec_count(&self) -> usize {
        self.next_id
    }

    pub fn new() -> (res: Self)
        ensures
            res.spec_count() == 0,
    {
        AstWalker { next_id: 0, depth: 0 }
    }

    /// The next node number.
    pub fn alloc_node_id(&mut self) -> (res: NodeId)
        requires
            old(self).spec_count() < usize::MAX,
        ensures
            res == NodeId(old(self).spec_count()),
            final(self).spec_count() == old(self).spec_count() + 1,
    {
        let id = NodeId(self.next_id);
        self.next_id = self.next_id + 1;
        id
    }

    pub fn node_count(&self) -> (res: usize)
        ensures
            res == self.spec_count(),
    {
        self.next_id
    }
}

impl Default for AstWalker {
    fn default() -> (res: Self)
        ensures
            res.spec_count() == 0,
    {
        Self::new()
    }
}

} // verus!
