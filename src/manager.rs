use vstd::prelude::*;

use crate::graph::{closed, live, roots_into, slot_range, unmarked};
use crate::traverse::{bfs_order, degree_sum, member_count, reach, render, valid_from, value_sum, walk_len};
use crate::node::{GcError, Node, NodePointer};
use crate::stack::Stack;

verus! {

/// The roots `b` have the shape of the roots `a`: same number, same values
/// and parents, same number of children each. A collection keeps this shape
/// and only rewrites handles.
pub open spec fn same_shape(a: Seq<Node>, b: Seq<Node>) -> bool {
    &&& b.len() == a.len()
    &&& forall|r: int|
        0 <= r < a.len() ==> {
            &&& (#[trigger] b[r]).value == a[r].value
            &&& b[r].parent == a[r].parent
            &&& b[r].children@.len() == a[r].children@.len()
        }
}

/// An arena whose active region is `[base, limit)` and whose occupied
/// slots `[base, cursor)` only point among themselves and carry no
/// forwarding address.
///
/// This asks of every occupied slot, reachable or not, what the collectors
/// only need of the live ones. It keeps the invariant local: a mutation can
/// be checked against the one slot it writes, without knowing what the
/// roots reach. A handle from outside the active region stored in any
/// occupied node is the misuse that the error kind `InvalidHandle` names.
pub open spec fn region_ok(mem: Seq<Node>, base: int, cursor: int, limit: int) -> bool {
    &&& 0 <= base <= cursor <= limit <= mem.len()
    &&& closed(mem, base, cursor)
    &&& unmarked(mem, base, cursor)
}

/// A heap in a state a mutator may use.
pub open spec fn heap_ok<T: MemoryManager>(h: &T) -> bool {
    h.inv() && region_ok(h.memory(), h.base(), h.cursor(), h.limit())
}

/// A node that may enter the arena: it has no forwarding address and no
/// edges yet.
pub open spec fn fresh(node: Node) -> bool {
    node.forwarding_address is None && node.children@.len() == 0
}

/// The contract shared by the arena heaps.
pub trait MemoryManager: Sized {
    /// The arena's slots.
    spec fn memory(&self) -> Seq<Node>;

    /// The first slot of the active region.
    spec fn base(&self) -> int;

    /// The allocation cursor: `[base, cursor)` is occupied.
    spec fn cursor(&self) -> int;

    /// The end of the active region.
    spec fn limit(&self) -> int;

    /// The heap's own invariant on its bookkeeping.
    spec fn inv(&self) -> bool;

    /// `after` (with the roots `new_roots`) is what a collection of `self`
    /// with the roots `roots` leaves.
    spec fn collected(&self, roots: Seq<Node>, after: Self, new_roots: Seq<Node>) -> bool;

    /// Places `node` at the cursor and returns its handle; when the active
    /// region is full, collects once first.
    fn allocate(&mut self, node: Node, stack: &mut Stack) -> (r: Result<NodePointer, GcError>)
        requires
            old(self).inv(),
            region_ok(old(self).memory(), old(self).base(), old(self).cursor(), old(self).limit()),
            roots_into(old(stack).roots@, old(self).base(), old(self).cursor()),
            fresh(node),
        ensures
            final(self).inv(),
            region_ok(final(self).memory(), final(self).base(), final(self).cursor(), final(self).limit()),
            roots_into(final(stack).roots@, final(self).base(), final(self).cursor()),
            same_shape(old(stack).roots@, final(stack).roots@),
            final(self).memory().len() == old(self).memory().len(),
            final(self).limit() - final(self).base() == old(self).limit() - old(self).base(),
            old(self).cursor() < old(self).limit() ==> {
                &&& r == Ok::<NodePointer, GcError>(NodePointer { idx: old(self).cursor() as usize })
                &&& final(self).memory() == old(self).memory().update(old(self).cursor(), node)
                &&& final(self).base() == old(self).base()
                &&& final(self).cursor() == old(self).cursor() + 1
                &&& final(self).limit() == old(self).limit()
                &&& final(stack).roots@ == old(stack).roots@
            },
            (r is Err) <==> (old(self).cursor() == old(self).limit() && live(
                old(self).memory(),
                old(stack).roots@,
            ).len() == old(self).limit() - old(self).base()),
            r is Err ==> r == Err::<NodePointer, GcError>(GcError::HeapExhausted),
            live(final(self).memory(), final(stack).roots@).len() == live(old(self).memory(), old(stack).roots@).len(),
            old(self).cursor() == old(self).limit() ==> final(self).cursor() - final(self).base() == live(
                old(self).memory(),
                old(stack).roots@,
            ).len() + if r is Ok {
                1int
            } else {
                0int
            },
            old(self).cursor() == old(self).limit() ==> exists|mid: Self, mid_roots: Seq<Node>|
                #[trigger] old(self).collected(old(stack).roots@, mid, mid_roots) && {
                    &&& mid.inv()
                    &&& final(stack).roots@ == mid_roots
                    &&& r is Ok ==> {
                        &&& final(self).memory() == mid.memory().update(mid.cursor(), node)
                        &&& final(self).cursor() == mid.cursor() + 1
                        &&& final(self).base() == mid.base()
                        &&& final(self).limit() == mid.limit()
                    }
                    &&& r is Err ==> *final(self) == mid
                },
            r is Ok ==> {
                &&& r->Ok_0.idx == final(self).cursor() - 1
                &&& !live(final(self).memory(), final(stack).roots@).contains(r->Ok_0.idx as int)
                &&& final(self).base() <= r->Ok_0.idx
                &&& final(self).memory()[final(self).cursor() - 1] == node
            },
    ;

    /// Reclaims the unreachable slots and rewrites every handle the roots
    /// reach to the new position of its node.
    fn collect(&mut self, stack: &mut Stack) -> (r: Result<(), GcError>)
        requires
            old(self).inv(),
            region_ok(old(self).memory(), old(self).base(), old(self).cursor(), old(self).limit()),
            roots_into(old(stack).roots@, old(self).base(), old(self).cursor()),
        ensures
            r is Ok,
            final(self).inv(),
            region_ok(final(self).memory(), final(self).base(), final(self).cursor(), final(self).limit()),
            roots_into(final(stack).roots@, final(self).base(), final(self).cursor()),
            same_shape(old(stack).roots@, final(stack).roots@),
            old(self).collected(old(stack).roots@, *final(self), final(stack).roots@),
            final(self).memory().len() == old(self).memory().len(),
            final(self).limit() - final(self).base() == old(self).limit() - old(self).base(),
            final(self).cursor() - final(self).base() == live(old(self).memory(), old(stack).roots@).len(),
            live(final(self).memory(), final(stack).roots@).len() == live(old(self).memory(), old(stack).roots@).len(),
    ;

    /// The node at `node_pointer`, when it names a slot.
    fn get(&self, node_pointer: NodePointer) -> (r: Option<&Node>)
        ensures
            match r {
                Some(n) => node_pointer.idx < self.memory().len() && *n == self.memory()[node_pointer.idx as int],
                None => node_pointer.idx >= self.memory().len(),
            },
    ;

    /// Mutable access to the node at `node_pointer`, when it names a slot.
    fn get_mut(&mut self, node_pointer: NodePointer) -> (r: Option<&mut Node>)
        ensures
            final(self).base() == old(self).base(),
            final(self).cursor() == old(self).cursor(),
            final(self).limit() == old(self).limit(),
            final(self).inv() == old(self).inv(),
            match r {
                Some(n) => {
                    &&& node_pointer.idx < old(self).memory().len()
                    &&& *n == old(self).memory()[node_pointer.idx as int]
                    &&& final(self).memory() == old(self).memory().update(node_pointer.idx as int, *final(n))
                },
                None => {
                    &&& node_pointer.idx >= old(self).memory().len()
                    &&& final(self).memory() == old(self).memory()
                },
            },
    ;

    /// The handle of slot `idx`.
    fn node_pointer_from_usize(&self, idx: usize) -> (r: NodePointer)
        ensures
            r.idx == idx,
    ;

    /// How many slots of the active region are occupied.
    fn free(&self) -> (r: usize)
        requires
            self.inv(),
            region_ok(self.memory(), self.base(), self.cursor(), self.limit()),
        ensures
            r == self.cursor() - self.base(),
    ;

    /// How many slots the active region has.
    fn heap_size(&self) -> (r: usize)
        requires
            self.inv(),
            region_ok(self.memory(), self.base(), self.cursor(), self.limit()),
        ensures
            r == self.limit() - self.base(),
    ;

    /// All slots of the arena.
    fn committed_memory(&self) -> (r: &[Node])
        ensures
            r@ == self.memory(),
    ;
    /// The breadth-first dump of the nodes reachable from `node_pointer`:
    /// their payloads in visiting order, joined by ", ".
    fn dump(&self, node_pointer: NodePointer) -> (r: Result<String, GcError>)
        ensures
            r is Ok <==> valid_from(self.memory(), node_pointer),
            r is Ok ==> r->Ok_0@ == render(self.memory(), bfs_order(self.memory(), node_pointer)),
            r is Err ==> r->Err_0 == GcError::InvalidHandle,
    {
        crate::traverse::dump(self.committed_memory(), node_pointer)
    }

    /// The payload sum of the nodes reachable from `node_pointer`, by a
    /// breadth-first walk.
    fn sum_bfs(&self, node_pointer: NodePointer) -> (r: Result<u64, GcError>)
        requires
            self.memory().len() <= 0xffff_ffff,
        ensures
            r is Ok <==> valid_from(self.memory(), node_pointer),
            r is Ok ==> r->Ok_0 == value_sum(self.memory(), reach(self.memory(), node_pointer), self.memory().len() as int),
            r is Err ==> r->Err_0 == GcError::InvalidHandle,
    {
        crate::traverse::sum_bfs(self.committed_memory(), node_pointer)
    }

    /// The payload sum of the nodes reachable from `node_pointer`, by a
    /// depth-first walk.
    fn sum_dfs(&self, node_pointer: NodePointer) -> (r: Result<u64, GcError>)
        requires
            self.memory().len() <= 0xffff_ffff,
        ensures
            r is Ok <==> valid_from(self.memory(), node_pointer),
            r is Ok ==> r->Ok_0 == value_sum(self.memory(), reach(self.memory(), node_pointer), self.memory().len() as int),
            r is Err ==> r->Err_0 == GcError::InvalidHandle,
    {
        crate::traverse::sum_dfs(self.committed_memory(), node_pointer)
    }

    /// The number of nodes reachable from `node_pointer`, and the number of
    /// handles a breadth-first walk from it takes off its worklist.
    fn count(&self, node_pointer: NodePointer) -> (r: Result<(u64, u64), GcError>)
        requires
            degree_sum(self.memory(), slot_range(0, self.memory().len() as int), self.memory().len() as int) + 1 < u64::MAX,
            self.memory().len() < u64::MAX,
        ensures
            r is Ok <==> valid_from(self.memory(), node_pointer),
            r is Ok ==> r->Ok_0.0 == member_count(reach(self.memory(), node_pointer), self.memory().len() as int)
                && r->Ok_0.1 == walk_len(self.memory(), node_pointer),
            r is Err ==> r->Err_0 == GcError::InvalidHandle,
    {
        crate::traverse::count(self.committed_memory(), node_pointer)
    }
}

} // verus!
