use gc_arena::api;
use gc_arena::manager::MemoryManager;
use gc_arena::mark_compact::MarkCompactHeap;
use gc_arena::node::{Node, NodePointer};
use gc_arena::stack::Stack;
use gc_arena::stop_copy::StopAndCopyHeap;
use gc_arena::workload::{add_edges, link_heap, make_garbage, pop_last_children, recursively_add_children, seed_root};

/// A root with a chain 0 -> 1 -> 2, a garbage node 3, and a cycle 2 -> 0.
fn small_graph<T: MemoryManager>(stack: &mut Stack, heap: &mut T) {
    let mut handles = Vec::new();
    for v in [10u32, 20, 30, 40] {
        let node = Node {
            value: Some(v),
            ..Default::default()
        };
        handles.push(heap.allocate(node, stack).unwrap());
    }
    stack.roots[0].children.push(handles[0]);
    heap.get_mut(handles[0]).unwrap().children.push(handles[1]);
    heap.get_mut(handles[1]).unwrap().children.push(handles[2]);
    heap.get_mut(handles[2]).unwrap().children.push(handles[0]);
}

#[test]
fn mark_compact_collect_slides_live_nodes_down() {
    let mut stack = Stack::new(1);
    let mut heap = MarkCompactHeap::init(6);
    // slot 0 is garbage, slots 1..4 hold the graph
    heap.allocate(Node::default(), &mut stack).unwrap();
    small_graph(&mut stack, &mut heap);
    assert_eq!(stack.sum_bfs(&heap).unwrap(), 60);
    heap.collect(&mut stack).unwrap();
    // three live nodes, in their old order, at the bottom
    assert_eq!(heap.free(), 3);
    assert_eq!(stack.roots[0].children, vec![NodePointer::new(0)]);
    assert_eq!(heap.committed_memory[0].value, Some(10));
    assert_eq!(heap.committed_memory[1].value, Some(20));
    assert_eq!(heap.committed_memory[2].value, Some(30));
    assert_eq!(heap.committed_memory[0].children, vec![NodePointer::new(1)]);
    assert_eq!(heap.committed_memory[2].children, vec![NodePointer::new(0)]);
    for i in 0..heap.free() {
        assert!(heap.committed_memory[i].forwarding_address.is_none());
    }
    assert_eq!(stack.sum_bfs(&heap).unwrap(), 60);
    assert_eq!(stack.dump_all(&heap).unwrap(), "[0] 10, 20, 30");
    // room was reclaimed: the next allocation lands at the cursor
    let p = heap.allocate(Node::default(), &mut stack).unwrap();
    assert_eq!(p, NodePointer::new(3));
    assert_eq!(heap.free(), 4);
}

#[test]
fn stop_and_copy_collect_evacuates_to_the_other_half() {
    let mut stack = Stack::new(1);
    let mut heap = StopAndCopyHeap::init(12);
    heap.allocate(Node::default(), &mut stack).unwrap();
    small_graph(&mut stack, &mut heap);
    heap.collect(&mut stack).unwrap();
    assert_eq!(heap.to_space, 6);
    assert_eq!(heap.from_space, 0);
    assert_eq!(heap.free(), 3);
    assert_eq!(heap.free, 9);
    assert_eq!(stack.roots[0].children, vec![NodePointer::new(6)]);
    for t in heap.to_space..heap.free {
        assert!(heap.committed_memory[t].forwarding_address.is_none());
        for c in &heap.committed_memory[t].children {
            assert!(heap.to_space <= c.idx && c.idx < heap.free);
        }
    }
    assert_eq!(stack.dump_all(&heap).unwrap(), "[0] 10, 20, 30");
    assert_eq!(stack.count(&heap).unwrap(), (3, 4));
    // and back again
    heap.collect(&mut stack).unwrap();
    assert_eq!(heap.to_space, 0);
    assert_eq!(heap.free(), 3);
    assert_eq!(stack.dump_all(&heap).unwrap(), "[0] 10, 20, 30");
}

#[test]
fn copy_forwards_once() {
    let mut stack = Stack::new(1);
    let mut heap = StopAndCopyHeap::init(4);
    let a = heap.allocate(Node { value: Some(7), ..Default::default() }, &mut stack).unwrap();
    // start a collection by hand: flip the spaces
    heap.from_space = 0;
    heap.to_space = 2;
    heap.free = 2;
    heap.top = 4;
    let moved = heap.copy(a).unwrap();
    assert_eq!(moved, NodePointer::new(2));
    assert_eq!(heap.committed_memory[2].value, Some(7));
    assert_eq!(heap.committed_memory[0].forwarding_address, Some(NodePointer::new(2)));
    assert_eq!(heap.copy(a).unwrap(), NodePointer::new(2));
    assert_eq!(heap.free, 3);
}

#[test]
fn dump_count_and_sums_on_multi_digit_values() {
    let mut stack = Stack::new(2);
    let mut heap = MarkCompactHeap::init(8);
    small_graph(&mut stack, &mut heap);
    let extra = heap.allocate(Node { value: Some(123456), ..Default::default() }, &mut stack).unwrap();
    let silent = heap.allocate(Node::default(), &mut stack).unwrap();
    stack.roots[1].children.push(extra);
    stack.roots[1].children.push(silent);
    stack.roots[1].value = Some(5);
    assert_eq!(stack.dump_all(&heap).unwrap(), "[0] 10, 20, 30\n[5] 123456 - ");
    assert_eq!(stack.sum_bfs(&heap).unwrap(), 60 + 123456);
    assert_eq!(stack.sum_dfs(&heap).unwrap(), 60 + 123456);
    // (3 nodes, 1 + 3 edges) + (1 node, 1) + (1 node, 1)
    assert_eq!(stack.count(&heap).unwrap(), (5, 6));
    assert_eq!(heap.count(NodePointer::new(0)).unwrap(), (3, 4));
    assert_eq!(heap.dump(NodePointer::new(1)).unwrap(), "20, 30, 10");
}

#[test]
fn bfs_and_dfs_agree_on_a_shared_subgraph() {
    let mut stack = Stack::new(1);
    let mut heap = MarkCompactHeap::init(16);
    let seed = seed_root(&mut stack, &mut heap).unwrap();
    recursively_add_children(seed, 9, &mut stack, &mut heap).unwrap();
    // share a subtree twice and close a loop
    api::add_child(NodePointer::new(3), NodePointer::new(2), &mut heap).unwrap();
    api::add_child(NodePointer::new(9), NodePointer::new(0), &mut heap).unwrap();
    // 1 + (0 + 1 + ... + 8)
    assert_eq!(stack.sum_bfs(&heap).unwrap(), 37);
    assert_eq!(stack.sum_dfs(&heap).unwrap(), 37);
    assert_eq!(heap.dump(seed).unwrap(), "1, 0, 1, 2, 3, 4, 5, 6, 7, 8");
}

fn build<T: MemoryManager>(stack: &mut Stack, heap: &mut T, heap_size: usize, percent: u64) -> (String, usize, (u64, u64)) {
    link_heap(stack, heap, heap_size).unwrap();
    make_garbage(stack, heap, percent).unwrap();
    heap.collect(stack).unwrap();
    let dump = stack.dump_all(heap).unwrap();
    (dump, heap.free(), stack.count(heap).unwrap())
}

#[test]
fn workload_is_deterministic_across_runs_and_collectors() {
    let heap_size = 1 << 15;
    let a = build(&mut Stack::new(1), &mut MarkCompactHeap::init(heap_size), heap_size, 30);
    let b = build(&mut Stack::new(1), &mut MarkCompactHeap::init(heap_size), heap_size, 30);
    let c = build(&mut Stack::new(1), &mut StopAndCopyHeap::init(2 * heap_size), heap_size, 30);
    assert_eq!(a, b);
    assert_eq!(a.1, c.1);
    assert_eq!(a.2, c.2);
    assert_eq!(a.0.len(), c.0.len());
}

#[test]
fn link_heap_spreads_cross_edges() {
    let heap_size = 1 << 14;
    let mut stack = Stack::new(1);
    let mut heap = MarkCompactHeap::init(heap_size);
    link_heap(&mut stack, &mut heap, heap_size).unwrap();
    assert_eq!(heap.free(), heap_size);
    let total: usize = heap.committed_memory.iter().map(|n| n.children.len()).sum();
    // the tree's edges plus one extra edge per slot
    assert_eq!(total, heap_size - 1 + heap_size);
    // the extra edges start from many slots and end in the upper half
    let busiest = heap.committed_memory.iter().map(|n| n.children.len()).max().unwrap();
    assert!(busiest < 16);
    for n in &heap.committed_memory {
        for c in n.children.iter().skip(2) {
            assert!(c.idx >= heap_size / 2);
        }
    }
}

#[test]
fn make_garbage_prunes_the_window() {
    let heap_size = 1 << 15;
    let mut stack = Stack::new(1);
    let mut heap = MarkCompactHeap::init(heap_size);
    link_heap(&mut stack, &mut heap, heap_size).unwrap();
    let before: usize = heap.committed_memory.iter().map(|n| n.children.len()).sum();
    make_garbage(&mut stack, &mut heap, 0).unwrap();
    let same: usize = heap.committed_memory.iter().map(|n| n.children.len()).sum();
    assert_eq!(before, same);
    make_garbage(&mut stack, &mut heap, 10).unwrap();
    let after: usize = heap.committed_memory.iter().map(|n| n.children.len()).sum();
    // 4 * (2^14 - 2^12) / 10 pops, some of them on already empty lists
    assert!(after < before);
    assert!(before - after <= 4915);
    for i in 0..(1 << 12) {
        assert!(heap.committed_memory[i].children.len() >= 2 || i >= heap_size / 2);
    }
}

#[test]
fn shared_nodes_count_once_over_the_roots() {
    let mut stack = Stack::new(1);
    let mut heap = MarkCompactHeap::init(4);
    let a = heap.allocate(Node { value: Some(5), ..Default::default() }, &mut stack).unwrap();
    let b = heap.allocate(Node { value: Some(7), ..Default::default() }, &mut stack).unwrap();
    heap.get_mut(a).unwrap().children.push(b);
    // the same node twice under the root, and its child reached again
    stack.roots[0].children.push(a);
    stack.roots[0].children.push(a);
    stack.roots[0].children.push(b);
    assert_eq!(stack.sum_bfs(&heap).unwrap(), 12);
    assert_eq!(stack.sum_dfs(&heap).unwrap(), 12);
    // two distinct nodes; three root handles plus one edge
    assert_eq!(stack.count(&heap).unwrap(), (2, 4));
}

#[test]
fn add_child_with_a_bad_handle_changes_nothing() {
    let mut stack = Stack::new(1);
    let mut heap = MarkCompactHeap::init(2);
    let a = heap.allocate(Node::default(), &mut stack).unwrap();
    assert!(api::add_child(NodePointer::new(9), a, &mut heap).is_err());
    assert_eq!(heap.committed_memory[0].parent, None);
}

#[test]
fn heap_collect_reports_free_slots() {
    let mut stack = Stack::new(1);
    let mut heap = gc_arena::mark_compact::Heap { committed_memory: vec![Node::default(), Node::default(), Node::default()], free: 0 };
    let a = heap.allocate(&mut stack).unwrap();
    heap.allocate(&mut stack).unwrap();
    stack.roots[0].children.push(a);
    assert_eq!(heap.collect(&mut stack), Ok(2));
    assert_eq!(heap.free, 1);
}

#[test]
fn add_edges_and_pop_last_children_apply_in_order() {
    let mut stack = Stack::new(1);
    let mut heap = MarkCompactHeap::init(4);
    for _ in 0..3 {
        heap.allocate(Node::default(), &mut stack).unwrap();
    }
    add_edges(&mut heap, &vec![(0, 1), (0, 2), (1, 2), (9, 0)]);
    assert_eq!(heap.committed_memory[0].children, vec![NodePointer::new(1), NodePointer::new(2)]);
    assert_eq!(heap.committed_memory[1].children, vec![NodePointer::new(2)]);
    pop_last_children(&mut heap, &vec![0, 0, 0, 1, 7]);
    assert!(heap.committed_memory[0].children.is_empty());
    assert!(heap.committed_memory[1].children.is_empty());
}

#[test]
fn recursively_add_children_collects_to_make_room() {
    let mut stack = Stack::new(1);
    let mut heap = StopAndCopyHeap::init(8);
    let seed = seed_root(&mut stack, &mut heap).unwrap();
    // garbage fills the rest of the semi-space
    for _ in 0..3 {
        heap.allocate(Node::default(), &mut stack).unwrap();
    }
    recursively_add_children(seed, 3, &mut stack, &mut heap).unwrap();
    // one collection ran: the seed and its three new nodes are all that is left
    assert_eq!(heap.free(), 4);
    assert_eq!(stack.dump_all(&heap).unwrap(), "[0] 1, 0, 1, 2");
}

#[test]
fn a_higher_ratio_prunes_a_prefix_further() {
    let heap_size = 1 << 15;
    let mut stack = Stack::new(1);
    let mut heap = MarkCompactHeap::init(heap_size);
    link_heap(&mut stack, &mut heap, heap_size).unwrap();
    let (mut s1, mut h1) = (stack.clone(), heap.clone());
    let (mut s2, mut h2) = (stack.clone(), heap.clone());
    make_garbage(&mut s1, &mut h1, 10).unwrap();
    make_garbage(&mut s2, &mut h2, 20).unwrap();
    for i in 0..heap_size {
        let short = &h1.committed_memory[i].children;
        let long = &h2.committed_memory[i].children;
        assert!(long.len() <= short.len());
        assert_eq!(&short[..long.len()], &long[..]);
    }
    assert_eq!(stack.roots[0].value, s1.roots[0].value);
}
