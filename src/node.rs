use vstd::prelude::*;

verus! {

/// A handle to an arena slot: the slot's index.
#[derive(Debug, Default, Clone, Copy, PartialEq, Eq, Structural, PartialOrd, Ord, Hash)]
pub struct NodePointer {
    pub idx: usize,
}

impl NodePointer {
    /// The handle of slot `idx`.
    pub fn new(idx: usize) -> (r: NodePointer)
        ensures
            r.idx == idx,
    {
        NodePointer { idx }
    }
}

impl From<usize> for NodePointer {
    fn from(idx: usize) -> (r: NodePointer) {
        NodePointer { idx }
    }
}

impl vstd::std_specs::convert::FromSpecImpl<usize> for NodePointer {
    open spec fn obeys_from_spec() -> bool {
        true
    }

    open spec fn from_spec(idx: usize) -> NodePointer {
        NodePointer { idx }
    }
}

impl From<NodePointer> for usize {
    fn from(node_pointer: NodePointer) -> (r: usize) {
        node_pointer.idx
    }
}

impl vstd::std_specs::convert::FromSpecImpl<NodePointer> for usize {
    open spec fn obeys_from_spec() -> bool {
        true
    }

    open spec fn from_spec(node_pointer: NodePointer) -> usize {
        node_pointer.idx
    }
}

/// Why a heap operation failed.
#[derive(Debug, Clone, Copy, PartialEq, Eq, Structural)]
pub enum GcError {
    /// No slot was free, even after one collection.
    HeapExhausted,
    /// A handle named no slot of the arena.
    InvalidHandle,
    /// A collection met a broken invariant.
    Corrupt,
}

/// One arena record.
#[derive(Debug, Clone)]
pub struct Node {
    pub forwarding_address: Option<NodePointer>,
    pub parent: Option<NodePointer>,
    pub children: Vec<NodePointer>,
    pub value: Option<u32>,
}

impl Default for Node {
    /// The empty node: no payload, no edges, no parent, no forwarding address.
    fn default() -> (r: Node)
        ensures
            r.forwarding_address is None,
            r.parent is None,
            r.children@.len() == 0,
            r.value is None,
    {
        Node { forwarding_address: None, parent: None, children: Vec::new(), value: None }
    }
}

/// Exchanges the nodes of two distinct slots.
pub fn swap_slots(mem: &mut Vec<Node>, a: usize, b: usize)
    requires
        a < old(mem).len(),
        b < old(mem).len(),
        a != b,
    ensures
        final(mem)@ == old(mem)@.update(a as int, old(mem)@[b as int]).update(b as int, old(mem)@[a as int]),
{
    let mut tmp = Node::default();
    std::mem::swap(&mut tmp, &mut mem[a]);
    std::mem::swap(&mut tmp, &mut mem[b]);
    std::mem::swap(&mut tmp, &mut mem[a]);
    proof {
        assert(mem@ =~= old(mem)@.update(a as int, old(mem)@[b as int]).update(b as int, old(mem)@[a as int]));
    }
}

} // verus!
