use gc_arena::api;
use gc_arena::manager::MemoryManager;
use gc_arena::mark_compact::{Heap, MarkCompactHeap};
use gc_arena::node::{GcError, Node, NodePointer};
use gc_arena::stack::Stack;
use gc_arena::stop_copy::StopAndCopyHeap;
use gc_arena::workload::{recursively_add_children, seed_root};

#[test]
fn sanity_garbage_collection_check() {
    let roots = {
        let mut roots = Vec::new();
        (0..1).for_each(|i| {
            let node = Node {
                value: Some(i),
                ..Default::default()
            };
            roots.push(node);
        });
        roots
    };
    const SIZE: usize = 4;
    let mut committed_memory = Vec::new();
    for _ in 0..SIZE {
        committed_memory.push(Node::default())
    }

    let mut stack = Stack { roots };
    let mut heap = Heap {
        committed_memory,
        free: 0,
    };

    // one child under the root
    let temp = heap.allocate(&mut stack).unwrap();
    api::set_value(temp, Some(1), &mut heap).unwrap();
    stack.roots[0].children.push(temp);

    let mut second_node_pointer = None;
    // one child under that child
    for i in 0..stack.roots[0].children.len() {
        let temp = heap.allocate(&mut stack).unwrap();
        second_node_pointer = Some(temp);
        api::set_value(temp, Some(2), &mut heap).unwrap();
        api::add_child(stack.roots[0].children[i], temp, &mut heap).unwrap();
    }

    // two children under the grandchild
    for i in 0..stack.roots[0].children.len() {
        let children = api::children(stack.roots[0].children[i], &heap).unwrap();
        for child in children {
            for i in 33..35 {
                let temp = heap.allocate(&mut stack).unwrap();
                api::set_value(temp, Some(i), &mut heap).unwrap();
                api::add_child(child, temp, &mut heap).unwrap();
            }
        }
    }
    stack.dump_all(&heap).unwrap();

    // drop one child of the second node
    api::delete_some_children(second_node_pointer.unwrap(), 1, &mut heap).unwrap();

    stack.dump_all(&heap).unwrap();
    // the heap is full: this allocation collects first
    for i in 0..stack.roots[0].children.len() {
        let children = api::children(stack.roots[0].children[i], &heap).unwrap();
        for child in children {
            let temp = heap.allocate(&mut stack).unwrap();
            api::set_value(temp, Some(9999), &mut heap).unwrap();
            api::add_child(child, temp, &mut heap).unwrap();
        }
    }
    stack.dump_all(&heap).unwrap();
}

fn sanity_garbage_collection<T: MemoryManager>(stack: &mut Stack, heap: &mut T, heap_size: usize) {
    let child_node_pointer = seed_root(stack, heap).unwrap();
    recursively_add_children(child_node_pointer, heap_size - 1, stack, heap).unwrap();

    assert_eq!(stack.dump_all(heap).unwrap(), "[0] 1, 0, 1, 2, 3");

    assert!(heap.allocate(Node::default(), stack).is_err());

    // the failed allocation collected: take the seed's handle from the root
    let child_node_pointer = stack.roots[0].children[0];
    heap.get_mut(child_node_pointer).unwrap().children.remove(0);

    assert_eq!(stack.dump_all(heap).unwrap(), "[0] 1, 1");

    recursively_add_children(child_node_pointer, 3, stack, heap).unwrap();
    assert!(heap.allocate(Node::default(), stack).is_err());
}

#[test]
fn mark_compact_sanity() {
    const STACK_SIZE: usize = 1;
    let mut stack = Stack::new(STACK_SIZE);
    const HEAP_SIZE: usize = 5;
    let mut heap = MarkCompactHeap::init(HEAP_SIZE);

    sanity_garbage_collection(&mut stack, &mut heap, HEAP_SIZE);
}

#[test]
fn stop_copy_sanity() {
    const STACK_SIZE: usize = 1;
    let mut stack = Stack::new(STACK_SIZE);
    const HEAP_SIZE: usize = 10;
    let mut heap = StopAndCopyHeap::init(HEAP_SIZE);

    sanity_garbage_collection(&mut stack, &mut heap, HEAP_SIZE / 2);
}

#[test]
fn sanity_garbage_collection_check_mark_and_compact() {
    const STACK_SIZE: usize = 1;
    let mut stack = Stack::new(STACK_SIZE);
    const HEAP_SIZE: usize = 5;
    let mut heap = MarkCompactHeap::init(HEAP_SIZE);

    let child_node_pointer = seed_root(&mut stack, &mut heap).unwrap();
    recursively_add_children(child_node_pointer, HEAP_SIZE - 1, &mut stack, &mut heap).unwrap();

    assert_eq!(stack.dump_all(&heap).unwrap(), "[0] 1, 0, 1, 2, 3");

    assert!(heap.allocate(Node::default(), &mut stack).is_err());

    heap.get_mut(child_node_pointer).unwrap().children.remove(0);

    assert_eq!(stack.dump_all(&heap).unwrap(), "[0] 1, 1");

    recursively_add_children(child_node_pointer, 3, &mut stack, &mut heap).unwrap();
    assert!(heap.allocate(Node::default(), &mut stack).is_err());
}

#[test]
fn exhausted_heap_reports_heap_exhausted() {
    let mut stack = Stack::new(1);
    let mut heap = MarkCompactHeap::init(2);
    let a = heap.allocate(Node::default(), &mut stack).unwrap();
    stack.roots[0].children.push(a);
    let b = heap.allocate(Node::default(), &mut stack).unwrap();
    stack.roots[0].children.push(b);
    assert_eq!(heap.allocate(Node::default(), &mut stack), Err(GcError::HeapExhausted));
}

#[test]
fn out_of_range_handles_are_invalid() {
    let mut stack = Stack::new(1);
    let mut heap = MarkCompactHeap::init(3);
    let a = heap.allocate(Node::default(), &mut stack).unwrap();
    assert_eq!(a, NodePointer::from(0));
    assert_eq!(api::value(NodePointer::new(3), &heap), Err(GcError::InvalidHandle));
    assert_eq!(api::set_value(NodePointer::new(7), Some(1), &mut heap), Err(GcError::InvalidHandle));
    assert_eq!(api::add_child(a, NodePointer::new(3), &mut heap), Err(GcError::InvalidHandle));
    assert!(api::get(NodePointer::new(3), &heap).is_err());
    assert!(heap.get(NodePointer::new(3)).is_none());
    // a root whose child names no slot
    stack.roots[0].children.push(NodePointer::new(9));
    assert_eq!(stack.sum_bfs(&heap), Err(GcError::InvalidHandle));
    assert_eq!(stack.sum_dfs(&heap), Err(GcError::InvalidHandle));
    assert_eq!(stack.count(&heap), Err(GcError::InvalidHandle));
    assert_eq!(stack.dump_all(&heap), Err(GcError::InvalidHandle));
}

#[test]
fn delete_some_children_pops_from_the_end() {
    let mut stack = Stack::new(1);
    let mut heap = MarkCompactHeap::init(4);
    let p = heap.allocate(Node::default(), &mut stack).unwrap();
    let c1 = heap.allocate(Node::default(), &mut stack).unwrap();
    let c2 = heap.allocate(Node::default(), &mut stack).unwrap();
    api::add_child(p, c1, &mut heap).unwrap();
    api::add_child(p, c2, &mut heap).unwrap();
    assert_eq!(api::parent(c2, &heap), Ok(Some(p)));
    api::delete_some_children(p, 1, &mut heap).unwrap();
    assert_eq!(api::children(p, &heap).unwrap(), vec![c1]);
    api::delete_some_children(p, 5, &mut heap).unwrap();
    assert_eq!(api::children(p, &heap).unwrap(), Vec::<NodePointer>::new());
    api::set_forwarding_address(p, Some(c1), &mut heap).unwrap();
    assert_eq!(api::forwarding_address(p, &heap), Ok(Some(c1)));
}
