use vstd::prelude::*;

use crate::manager::MemoryManager;
use crate::node::{GcError, Node, NodePointer};

verus! {

/// Makes `child_node_pointer` the last child of `parent_node_pointer`, and
/// records the parent in the child. Fails, changing nothing, if either
/// names no slot.
pub fn add_child<T: MemoryManager>(
    parent_node_pointer: NodePointer,
    child_node_pointer: NodePointer,
    heap: &mut T,
) -> (r: Result<(), GcError>)
    ensures
        final(heap).base() == old(heap).base(),
        final(heap).cursor() == old(heap).cursor(),
        final(heap).limit() == old(heap).limit(),
        final(heap).inv() == old(heap).inv(),
        final(heap).memory().len() == old(heap).memory().len(),
        r is Ok <==> (child_node_pointer.idx < old(heap).memory().len() && parent_node_pointer.idx < old(heap).memory().len()),
        r is Err ==> r->Err_0 == GcError::InvalidHandle && final(heap).memory() == old(heap).memory(),
        r is Ok ==> {
            let m = old(heap).memory();
            let n = final(heap).memory();
            let c = child_node_pointer.idx as int;
            let p = parent_node_pointer.idx as int;
            &&& forall|i: int| 0 <= i < m.len() && i != c && i != p ==> #[trigger] n[i] == m[i]
            &&& n[c].parent == Some(parent_node_pointer)
            &&& n[p].children@ == (if p == c {
                m[p].children@
            } else {
                m[p].children@
            }).push(child_node_pointer)
            &&& n[p].value == m[p].value
            &&& n[c].value == m[c].value
            &&& n[p].forwarding_address == m[p].forwarding_address
            &&& n[c].forwarding_address == m[c].forwarding_address
            &&& c != p ==> n[c].children@ == m[c].children@ && n[p].parent == m[p].parent
        },
{
    let len = heap.committed_memory().len();
    if child_node_pointer.idx >= len || parent_node_pointer.idx >= len {
        return Err(GcError::InvalidHandle);
    }
    match heap.get_mut(child_node_pointer) {
        Some(child) => {
            child.parent = Some(parent_node_pointer);
        },
        None => {
            return Err(GcError::InvalidHandle);
        },
    }
    match heap.get_mut(parent_node_pointer) {
        Some(parent) => {
            parent.children.push(child_node_pointer);
            Ok(())
        },
        None => Err(GcError::InvalidHandle),
    }
}

/// A copy of the children of the node at `parent_node_pointer`.
pub fn children<T: MemoryManager>(parent_node_pointer: NodePointer, heap: &T) -> (r: Result<Vec<NodePointer>, GcError>)
    ensures
        r is Ok <==> parent_node_pointer.idx < heap.memory().len(),
        r is Ok ==> r->Ok_0@ == heap.memory()[parent_node_pointer.idx as int].children@,
        r is Err ==> r->Err_0 == GcError::InvalidHandle,
{
    match heap.get(parent_node_pointer) {
        Some(parent) => {
            let mut out: Vec<NodePointer> = Vec::new();
            let mut k: usize = 0;
            while k < parent.children.len()
                invariant
                    k <= parent.children@.len(),
                    out@ == parent.children@.subrange(0, k as int),
                decreases parent.children@.len() - k,
            {
                out.push(parent.children[k]);
                proof {
                    assert(parent.children@.subrange(0, k + 1) =~= parent.children@.subrange(0, k as int).push(parent.children@[k as int]));
                }
                k = k + 1;
            }
            proof {
                assert(parent.children@.subrange(0, parent.children@.len() as int) =~= parent.children@);
            }
            Ok(out)
        },
        None => Err(GcError::InvalidHandle),
    }
}

/// The parent recorded in the node at `child_node_pointer`.
pub fn parent<T: MemoryManager>(child_node_pointer: NodePointer, heap: &T) -> (r: Result<Option<NodePointer>, GcError>)
    ensures
        r is Ok <==> child_node_pointer.idx < heap.memory().len(),
        r is Ok ==> r->Ok_0 == heap.memory()[child_node_pointer.idx as int].parent,
        r is Err ==> r->Err_0 == GcError::InvalidHandle,
{
    match heap.get(child_node_pointer) {
        Some(child) => Ok(child.parent),
        None => Err(GcError::InvalidHandle),
    }
}

/// The payload of the node at `node_pointer`.
pub fn value<T: MemoryManager>(node_pointer: NodePointer, heap: &T) -> (r: Result<Option<u32>, GcError>)
    ensures
        r is Ok <==> node_pointer.idx < heap.memory().len(),
        r is Ok ==> r->Ok_0 == heap.memory()[node_pointer.idx as int].value,
        r is Err ==> r->Err_0 == GcError::InvalidHandle,
{
    match heap.get(node_pointer) {
        Some(node) => Ok(node.value),
        None => Err(GcError::InvalidHandle),
    }
}

/// Replaces the payload of the node at `node_pointer`.
pub fn set_value<T: MemoryManager>(node_pointer: NodePointer, value: Option<u32>, heap: &mut T) -> (r: Result<(), GcError>)
    ensures
        final(heap).base() == old(heap).base(),
        final(heap).cursor() == old(heap).cursor(),
        final(heap).limit() == old(heap).limit(),
        final(heap).inv() == old(heap).inv(),
        r is Ok <==> node_pointer.idx < old(heap).memory().len(),
        r is Err ==> r->Err_0 == GcError::InvalidHandle && final(heap).memory() == old(heap).memory(),
        r is Ok ==> {
            let m = old(heap).memory();
            let n = final(heap).memory();
            let i = node_pointer.idx as int;
            &&& n.len() == m.len()
            &&& forall|j: int| 0 <= j < m.len() && j != i ==> #[trigger] n[j] == m[j]
            &&& n[i].value == value
            &&& n[i].children@ == m[i].children@
            &&& n[i].parent == m[i].parent
            &&& n[i].forwarding_address == m[i].forwarding_address
        },
{
    match heap.get_mut(node_pointer) {
        Some(node) => {
            node.value = value;
            Ok(())
        },
        None => Err(GcError::InvalidHandle),
    }
}

/// The forwarding address of the node at `node_pointer`.
pub fn forwarding_address<T: MemoryManager>(node_pointer: NodePointer, heap: &T) -> (r: Result<Option<NodePointer>, GcError>)
    ensures
        r is Ok <==> node_pointer.idx < heap.memory().len(),
        r is Ok ==> r->Ok_0 == heap.memory()[node_pointer.idx as int].forwarding_address,
        r is Err ==> r->Err_0 == GcError::InvalidHandle,
{
    match heap.get(node_pointer) {
        Some(node) => Ok(node.forwarding_address),
        None => Err(GcError::InvalidHandle),
    }
}

/// Replaces the forwarding address of the node at `node_pointer`.
pub fn set_forwarding_address<T: MemoryManager>(
    node_pointer: NodePointer,
    forwarding_address: Option<NodePointer>,
    heap: &mut T,
) -> (r: Result<(), GcError>)
    ensures
        final(heap).base() == old(heap).base(),
        final(heap).cursor() == old(heap).cursor(),
        final(heap).limit() == old(heap).limit(),
        final(heap).inv() == old(heap).inv(),
        r is Ok <==> node_pointer.idx < old(heap).memory().len(),
        r is Err ==> r->Err_0 == GcError::InvalidHandle && final(heap).memory() == old(heap).memory(),
        r is Ok ==> {
            let m = old(heap).memory();
            let n = final(heap).memory();
            let i = node_pointer.idx as int;
            &&& n.len() == m.len()
            &&& forall|j: int| 0 <= j < m.len() && j != i ==> #[trigger] n[j] == m[j]
            &&& n[i].forwarding_address == forwarding_address
            &&& n[i].children@ == m[i].children@
            &&& n[i].parent == m[i].parent
            &&& n[i].value == m[i].value
        },
{
    match heap.get_mut(node_pointer) {
        Some(node) => {
            node.forwarding_address = forwarding_address;
            Ok(())
        },
        None => Err(GcError::InvalidHandle),
    }
}

/// The node at `node_pointer`.
pub fn get<T: MemoryManager>(node_pointer: NodePointer, heap: &T) -> (r: Result<&Node, GcError>)
    ensures
        r is Ok <==> node_pointer.idx < heap.memory().len(),
        r is Ok ==> *r->Ok_0 == heap.memory()[node_pointer.idx as int],
        r is Err ==> r->Err_0 == GcError::InvalidHandle,
{
    match heap.get(node_pointer) {
        Some(node) => Ok(node),
        None => Err(GcError::InvalidHandle),
    }
}

/// Mutable access to the node at `node_pointer`.
pub fn get_mut<T: MemoryManager>(node_pointer: NodePointer, heap: &mut T) -> (r: Result<&mut Node, GcError>)
    ensures
        final(heap).base() == old(heap).base(),
        final(heap).cursor() == old(heap).cursor(),
        final(heap).limit() == old(heap).limit(),
        final(heap).inv() == old(heap).inv(),
        match r {
            Ok(n) => {
                &&& node_pointer.idx < old(heap).memory().len()
                &&& *n == old(heap).memory()[node_pointer.idx as int]
                &&& final(heap).memory() == old(heap).memory().update(node_pointer.idx as int, *final(n))
            },
            Err(e) => {
                &&& e == GcError::InvalidHandle
                &&& node_pointer.idx >= old(heap).memory().len()
                &&& final(heap).memory() == old(heap).memory()
            },
        },
{
    match heap.get_mut(node_pointer) {
        Some(node) => Ok(node),
        None => Err(GcError::InvalidHandle),
    }
}

/// Removes the last `number_to_remove` children of the node at
/// `parent_node_pointer` (all of them, if it has fewer).
pub fn delete_some_children<T: MemoryManager>(
    parent_node_pointer: NodePointer,
    number_to_remove: usize,
    heap: &mut T,
) -> (r: Result<(), GcError>)
    ensures
        final(heap).base() == old(heap).base(),
        final(heap).cursor() == old(heap).cursor(),
        final(heap).limit() == old(heap).limit(),
        final(heap).inv() == old(heap).inv(),
        r is Ok <==> parent_node_pointer.idx < old(heap).memory().len(),
        r is Err ==> r->Err_0 == GcError::InvalidHandle && final(heap).memory() == old(heap).memory(),
        r is Ok ==> {
            let m = old(heap).memory();
            let n = final(heap).memory();
            let i = parent_node_pointer.idx as int;
            let keep = if number_to_remove <= m[i].children@.len() {
                m[i].children@.len() - number_to_remove
            } else {
                0
            };
            &&& n.len() == m.len()
            &&& forall|j: int| 0 <= j < m.len() && j != i ==> #[trigger] n[j] == m[j]
            &&& n[i].children@ == m[i].children@.subrange(0, keep)
            &&& n[i].value == m[i].value
            &&& n[i].parent == m[i].parent
            &&& n[i].forwarding_address == m[i].forwarding_address
        },
{
    match heap.get_mut(parent_node_pointer) {
        Some(parent) => {
            let len = parent.children.len();
            let keep = if number_to_remove <= len {
                len - number_to_remove
            } else {
                0
            };
            parent.children.truncate(keep);
            Ok(())
        },
        None => Err(GcError::InvalidHandle),
    }
}

} // verus!
