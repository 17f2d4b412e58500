use gc_arena::manager::MemoryManager;
use gc_arena::mark_compact::MarkCompactHeap;
use gc_arena::node::{Node, NodePointer};
use gc_arena::stack::Stack;
use gc_arena::stop_copy::StopAndCopyHeap;
use gc_arena::workload::{link_heap, make_garbage, recursively_add_children};

fn sum_garbage_collection<T: MemoryManager>(stack: &mut Stack, heap: &mut T, heap_size: usize) {
    let node_pointer = heap.allocate(Node::default(), stack).unwrap();
    stack.roots[0].children.push(node_pointer);

    // payloads 0, 1, ..., 9
    recursively_add_children(node_pointer, heap_size - 1, stack, heap).unwrap();
    assert_eq!(stack.sum_bfs(heap).unwrap(), 45);
    // close a cycle back to the first node
    heap.get_mut(NodePointer::from(heap_size - 1)).unwrap().children.push(NodePointer::from(0));
    assert_eq!(stack.sum_bfs(heap).unwrap(), 45);
    assert_eq!(stack.sum_dfs(heap).unwrap(), 45);
}

#[test]
fn mark_compact_sum() {
    const STACK_SIZE: usize = 1;
    let heap_size: usize = 11;
    let mut stack = Stack::new(STACK_SIZE);
    let mut heap = MarkCompactHeap::init(heap_size);

    sum_garbage_collection(&mut stack, &mut heap, heap_size);
}

#[test]
fn stop_and_copy_sum() {
    const STACK_SIZE: usize = 1;
    let heap_size: usize = 22;
    let mut stack = Stack::new(STACK_SIZE);
    let mut heap = StopAndCopyHeap::init(heap_size);

    sum_garbage_collection(&mut stack, &mut heap, heap_size / 2);
}

fn round_trip<T: MemoryManager>(stack: &mut Stack, heap: &mut T, heap_size: usize, percent: u64) {
    link_heap(stack, heap, heap_size).unwrap();
    make_garbage(stack, heap, percent).unwrap();
    let bfs = stack.sum_bfs(heap).unwrap();
    assert_eq!(bfs, stack.sum_dfs(heap).unwrap());
    heap.collect(stack).unwrap();
    assert_eq!(stack.sum_bfs(heap).unwrap(), bfs);
    assert_eq!(stack.sum_dfs(heap).unwrap(), bfs);
}

#[test]
fn bfs_dfs() {
    for percent in [0, 20] {
        let mut stack = Stack::new(1);
        let mut heap = MarkCompactHeap::init(1_000_000);
        round_trip(&mut stack, &mut heap, 1_000_000, percent);
    }
    for percent in [0, 20] {
        let mut stack = Stack::new(1);
        let mut heap = StopAndCopyHeap::init(2_000_000);
        round_trip(&mut stack, &mut heap, 1_000_000, percent);
    }
}
