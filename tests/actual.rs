use gc_arena::manager::MemoryManager;
use gc_arena::mark_compact::MarkCompactHeap;
use gc_arena::node::{Node, NodePointer};
use gc_arena::stack::Stack;
use gc_arena::stop_copy::StopAndCopyHeap;
use gc_arena::workload::{recursively_add_children, seed_root};
use rand::RngCore;
use rand::SeedableRng;
use rand_pcg::Pcg64;

fn actual_garbage_collection<T: MemoryManager>(stack: &mut Stack, heap: &mut T, heap_size: usize) {
    {
        let child_node_pointer = seed_root(stack, heap).unwrap();
        recursively_add_children(child_node_pointer, heap_size - 1, stack, heap).unwrap();
        assert_eq!(heap.free(), 1_000_000);
    }

    {
        for (parent, child) in [
            (100, 16383),
            (100, 300),
            (300, 8191),
            (500, 5000),
            (400, 9000),
            (9000, 10_000),
            (10_000, 9000),
        ] {
            let (parent, child) = (heap.node_pointer_from_usize(parent), heap.node_pointer_from_usize(child));
            heap.get_mut(parent).unwrap().children.push(child);
        }
    }

    {
        heap.get_mut(heap.node_pointer_from_usize(8000)).unwrap().children.pop();
        heap.allocate(Node::default(), stack).unwrap();
        assert_eq!(heap.free(), 999938);
    }

    for _ in 0..100 {
        heap.allocate(Node::default(), stack).unwrap();
    }
    assert_eq!(heap.free(), 999975);
}

#[test]
fn actual_mark_compact_actual() {
    const STACK_SIZE: usize = 1;
    const HEAP_SIZE: usize = 1_000_000;
    let mut stack = Stack::new(STACK_SIZE);
    let mut heap = MarkCompactHeap::init(HEAP_SIZE);

    actual_garbage_collection(&mut stack, &mut heap, HEAP_SIZE);
}

#[test]
fn actual_stop_and_copy_actual() {
    const STACK_SIZE: usize = 1;
    const HEAP_SIZE: usize = 2_000_000;
    let mut stack = Stack::new(STACK_SIZE);
    let mut heap = StopAndCopyHeap::init(HEAP_SIZE);

    actual_garbage_collection(&mut stack, &mut heap, HEAP_SIZE / 2);
}

#[test]
fn actual_test_mark_compact() {
    const STACK_SIZE: usize = 1;
    const HEAP_SIZE: usize = 1_000_000;
    let mut stack = Stack::new(STACK_SIZE);
    let mut heap = MarkCompactHeap::init(HEAP_SIZE);

    {
        let child_node_pointer = seed_root(&mut stack, &mut heap).unwrap();
        recursively_add_children(child_node_pointer, HEAP_SIZE - 1, &mut stack, &mut heap).unwrap();
    }

    {
        heap.get_mut(NodePointer::from(100)).unwrap().children.push(NodePointer::from(16383));
        heap.get_mut(NodePointer::from(100)).unwrap().children.push(NodePointer::from(300));
        heap.get_mut(NodePointer::from(8191)).unwrap().children.push(NodePointer::from(500));
        heap.get_mut(NodePointer::from(5000)).unwrap().children.push(NodePointer::from(400));

        heap.get_mut(NodePointer::from(9000)).unwrap().children.push(NodePointer::from(10_000));
        heap.get_mut(NodePointer::from(10_000)).unwrap().children.push(NodePointer::from(9000));
    }

    {
        heap.get_mut(NodePointer::from(8000)).unwrap().children.pop();
        heap.allocate(Node::default(), &mut stack).unwrap();
    }

    for _ in 0..100 {
        heap.allocate(Node::default(), &mut stack).unwrap();
    }
}

#[test]
fn test_rng_behavior() {
    let mut rng = Pcg64::seed_from_u64(1234);

    rng.next_u64();
    rng.next_u64();

    let mut rng_clone = rng.clone();

    assert_eq!(rng.next_u64(), rng_clone.next_u64());

    rng.next_u64();
    do_stuff(&mut rng_clone.clone(), rng_clone.next_u64());

    assert_eq!(rng.next_u64(), rng_clone.next_u64());
}

fn do_stuff(rng: &mut Pcg64, num: u64) {
    assert_eq!(rng.next_u64(), num);
}
