use rand::Rng;
use rand::SeedableRng;
use rand_pcg::Pcg64;

use vstd::prelude::*;

use crate::graph::{edges_into, live, reachable_from, root_targets, roots_into};
use crate::manager::{region_ok, same_shape, MemoryManager};
use crate::node::{GcError, Node, NodePointer};
use crate::stack::Stack;

verus! {

/// The values that a `Pcg64` seeded with `seed` draws, one per bound: the
/// `i`-th by `gen_range(bounds[i].0..bounds[i].1)`.
pub uninterp spec fn pcg_draws(seed: u64, bounds: Seq<(usize, usize)>) -> Seq<usize>;

/// Relies on rand_core's `SeedableRng::seed_from_u64` for `Pcg64` (a
/// generator whose state comes from `seed` alone) and on rand's
/// `Rng::gen_range` over `low..high` (a value in `[low, high)`; it panics on
/// an empty range): the draws are a function of the seed and the bounds
/// (and of the target's pointer width, which picks the sampler's word
/// size), drawn one after another from one generator, so the draws for the
/// first `k` bounds are the first `k` draws.
#[verifier::external_body]
pub(crate) fn seeded_draws(seed: u64, bounds: &Vec<(usize, usize)>) -> (r: Vec<usize>)
    requires
        forall|i: int| 0 <= i < bounds@.len() ==> (#[trigger] bounds@[i]).0 < bounds@[i].1,
    ensures
        r@ == pcg_draws(seed, bounds@),
        r@.len() == bounds@.len(),
        forall|i: int| 0 <= i < bounds@.len() ==> (#[trigger] bounds@[i]).0 <= r@[i] < bounds@[i].1,
        forall|k: int| 0 <= k <= bounds@.len() ==> #[trigger] pcg_draws(seed, bounds@.subrange(0, k)) == r@.subrange(0, k),
{
    let mut rng = Pcg64::seed_from_u64(seed);
    bounds.iter().map(|&(low, high)| rng.gen_range(low..high)).collect()
}

/// The children lists of the slots of `mem`.
pub open spec fn child_lists(mem: Seq<Node>) -> Seq<Seq<NodePointer>> {
    Seq::new(mem.len(), |i: int| mem[i].children@)
}

/// `b` is `a` but for the children lists.
pub open spec fn same_but_children(a: Seq<Node>, b: Seq<Node>) -> bool {
    &&& b.len() == a.len()
    &&& forall|i: int|
        0 <= i < a.len() ==> {
            &&& (#[trigger] b[i]).value == a[i].value
            &&& b[i].parent == a[i].parent
            &&& b[i].forwarding_address == a[i].forwarding_address
        }
}

/// `lists` after popping, in order, the last child of each slot in `picks`
/// (a pick that names no slot, or a slot without children, changes nothing).
pub open spec fn pops_applied(lists: Seq<Seq<NodePointer>>, picks: Seq<usize>) -> Seq<Seq<NodePointer>>
    decreases picks.len(),
{
    if picks.len() == 0 {
        lists
    } else {
        let l = pops_applied(lists, picks.drop_last());
        let p = picks[picks.len() - 1] as int;
        if p < l.len() && l[p].len() > 0 {
            l.update(p, l[p].drop_last())
        } else {
            l
        }
    }
}

/// `lists` after appending, in order, for each pair `(a, b)` of `pairs`,
/// the handle of slot `b` to the children of slot `a` (a pair whose `a`
/// names no slot changes nothing).
pub open spec fn pushes_applied(lists: Seq<Seq<NodePointer>>, pairs: Seq<(usize, usize)>) -> Seq<Seq<NodePointer>>
    decreases pairs.len(),
{
    if pairs.len() == 0 {
        lists
    } else {
        let l = pushes_applied(lists, pairs.drop_last());
        let (a, b) = pairs[pairs.len() - 1];
        if (a as int) < l.len() {
            l.update(a as int, l[a as int].push(NodePointer { idx: b }))
        } else {
            l
        }
    }
}

/// Pops the last child of each slot in `picks`, in order.
pub fn pop_last_children<T: MemoryManager>(heap: &mut T, picks: &Vec<usize>)
    requires
        old(heap).inv(),
        region_ok(old(heap).memory(), old(heap).base(), old(heap).cursor(), old(heap).limit()),
    ensures
        final(heap).inv(),
        region_ok(final(heap).memory(), final(heap).base(), final(heap).cursor(), final(heap).limit()),
        final(heap).base() == old(heap).base(),
        final(heap).cursor() == old(heap).cursor(),
        final(heap).limit() == old(heap).limit(),
        same_but_children(old(heap).memory(), final(heap).memory()),
        child_lists(final(heap).memory()) == pops_applied(child_lists(old(heap).memory()), picks@),
{
    let ghost mem0 = heap.memory();
    let mut i: usize = 0;
    proof {
        assert(picks@.subrange(0, 0) =~= seq![]);
    }
    while i < picks.len()
        invariant
            i <= picks@.len(),
            heap.inv(),
            region_ok(heap.memory(), heap.base(), heap.cursor(), heap.limit()),
            heap.base() == old(heap).base(),
            heap.cursor() == old(heap).cursor(),
            heap.limit() == old(heap).limit(),
            mem0 == old(heap).memory(),
            same_but_children(mem0, heap.memory()),
            child_lists(heap.memory()) == pops_applied(child_lists(mem0), picks@.subrange(0, i as int)),
        decreases picks@.len() - i,
    {
        let num = picks[i];
        let ghost m0 = heap.memory();
        match heap.get_mut(NodePointer { idx: num }) {
            Some(node) => {
                let _ = node.children.pop();
            },
            None => {},
        }
        proof {
            let m1 = heap.memory();
            if (num as int) < m0.len() {
                lemma_pop_edge(m0, m1, heap.base(), heap.cursor(), heap.limit(), num as int);
            }
            assert(picks@.subrange(0, i + 1).drop_last() =~= picks@.subrange(0, i as int));
            assert(child_lists(m1) =~= pops_applied(child_lists(mem0), picks@.subrange(0, i + 1)));
        }
        i = i + 1;
    }
    proof {
        assert(picks@.subrange(0, picks@.len() as int) =~= picks@);
    }
}

/// Appends, for each pair `(a, b)` of `pairs` in order, the handle of slot
/// `b` to the children of slot `a`.
pub fn add_edges<T: MemoryManager>(heap: &mut T, pairs: &Vec<(usize, usize)>)
    requires
        old(heap).inv(),
        region_ok(old(heap).memory(), old(heap).base(), old(heap).cursor(), old(heap).limit()),
        forall|k: int|
            0 <= k < pairs@.len() ==> (#[trigger] pairs@[k]).0 < old(heap).memory().len() && old(heap).base() <= pairs@[k].1
                < old(heap).cursor(),
    ensures
        final(heap).inv(),
        region_ok(final(heap).memory(), final(heap).base(), final(heap).cursor(), final(heap).limit()),
        final(heap).base() == old(heap).base(),
        final(heap).cursor() == old(heap).cursor(),
        final(heap).limit() == old(heap).limit(),
        same_but_children(old(heap).memory(), final(heap).memory()),
        child_lists(final(heap).memory()) == pushes_applied(child_lists(old(heap).memory()), pairs@),
{
    let ghost mem0 = heap.memory();
    let mut i: usize = 0;
    proof {
        assert(pairs@.subrange(0, 0) =~= seq![]);
    }
    while i < pairs.len()
        invariant
            i <= pairs@.len(),
            heap.inv(),
            region_ok(heap.memory(), heap.base(), heap.cursor(), heap.limit()),
            heap.base() == old(heap).base(),
            heap.cursor() == old(heap).cursor(),
            heap.limit() == old(heap).limit(),
            mem0 == old(heap).memory(),
            forall|k: int|
                0 <= k < pairs@.len() ==> (#[trigger] pairs@[k]).0 < mem0.len() && heap.base() <= pairs@[k].1 < heap.cursor(),
            same_but_children(mem0, heap.memory()),
            child_lists(heap.memory()) == pushes_applied(child_lists(mem0), pairs@.subrange(0, i as int)),
        decreases pairs@.len() - i,
    {
        let (a, b) = pairs[i];
        let ghost m0 = heap.memory();
        proof {
            assert(pairs@[i as int] == (a, b));
        }
        match heap.get_mut(NodePointer { idx: a }) {
            Some(node) => {
                node.children.push(NodePointer { idx: b });
            },
            None => {},
        }
        proof {
            let m1 = heap.memory();
            lemma_push_edge(m0, m1, heap.base(), heap.cursor(), heap.limit(), a as int, NodePointer { idx: b });
            assert(pairs@.subrange(0, i + 1).drop_last() =~= pairs@.subrange(0, i as int));
            assert(child_lists(m1) =~= pushes_applied(child_lists(mem0), pairs@.subrange(0, i + 1)));
        }
        i = i + 1;
    }
    proof {
        assert(pairs@.subrange(0, pairs@.len() as int) =~= pairs@);
    }
}

/// The node with payload `v` and nothing else.
fn node_with_value(v: u32) -> (r: Node)
    ensures
        r.value == Some(v),
        r.forwarding_address is None,
        r.parent is None,
        r.children@.len() == 0,
{
    let mut node = Node::default();
    node.value = Some(v);
    node
}

/// Appending an edge between two occupied slots keeps the region well
/// formed.
proof fn lemma_push_edge(mem: Seq<Node>, mem2: Seq<Node>, base: int, cursor: int, limit: int, p: int, c: NodePointer)
    requires
        region_ok(mem, base, cursor, limit),
        0 <= p < mem.len(),
        base <= c.idx < cursor,
        mem2.len() == mem.len(),
        forall|i: int| 0 <= i < mem.len() && i != p ==> #[trigger] mem2[i] == mem[i],
        mem2[p].children@ == mem[p].children@.push(c),
        mem2[p].forwarding_address == mem[p].forwarding_address,
    ensures
        region_ok(mem2, base, cursor, limit),
{
    assert forall|i: int| base <= i < cursor implies edges_into(#[trigger] mem2[i].children@, base, cursor) by {
        if i == p {
            assert(edges_into(mem[p].children@, base, cursor));
        } else {
            assert(mem2[i] == mem[i]);
        }
    }
    assert forall|i: int| base <= i < cursor implies (#[trigger] mem2[i]).forwarding_address is None by {
        if i != p {
            assert(mem2[i] == mem[i]);
        }
    }
}

/// Removing a node's last edge keeps the region well formed.
proof fn lemma_pop_edge(mem: Seq<Node>, mem2: Seq<Node>, base: int, cursor: int, limit: int, p: int)
    requires
        region_ok(mem, base, cursor, limit),
        0 <= p < mem.len(),
        mem2.len() == mem.len(),
        forall|i: int| 0 <= i < mem.len() && i != p ==> #[trigger] mem2[i] == mem[i],
        mem2[p].children@.len() <= mem[p].children@.len(),
        forall|k: int| 0 <= k < mem2[p].children@.len() ==> #[trigger] mem2[p].children@[k] == mem[p].children@[k],
        mem2[p].forwarding_address == mem[p].forwarding_address,
    ensures
        region_ok(mem2, base, cursor, limit),
{
    assert forall|i: int| base <= i < cursor implies edges_into(#[trigger] mem2[i].children@, base, cursor) by {
        if i == p {
            assert(edges_into(mem[p].children@, base, cursor));
            assert forall|k: int| 0 <= k < mem2[p].children@.len() implies base <= #[trigger] mem2[p].children@[k].idx < cursor by {
                assert(mem2[p].children@[k] == mem[p].children@[k]);
            }
        } else {
            assert(mem2[i] == mem[i]);
        }
    }
    assert forall|i: int| base <= i < cursor implies (#[trigger] mem2[i]).forwarding_address is None by {
        if i != p {
            assert(mem2[i] == mem[i]);
        }
    }
}

/// `b` is `a` with the seed node (payload 1, nothing else) at slot `c`.
pub open spec fn seeded(a: Seq<Node>, b: Seq<Node>, c: int) -> bool {
    &&& b.len() == a.len()
    &&& forall|i: int| 0 <= i < a.len() && i != c ==> #[trigger] b[i] == a[i]
    &&& b[c].value == Some(1u32)
    &&& b[c].parent is None
    &&& b[c].forwarding_address is None
    &&& b[c].children@.len() == 0
}

/// The tree edges `link_heap` gives slot `i` of a heap of `n` slots: the
/// seed at slot 0 and tree node `m` at slot `m + 1`, so that slot `i` has
/// slots `2i + 1` and `2i + 2` as children, those below `n`.
pub open spec fn tree_kids(i: int, n: int) -> Seq<NodePointer> {
    kids(1, i, n - 1)
}

/// The graph `link_heap` builds in `n` slots: the seed (payload 1) at slot
/// 0 and tree node `m` (payload `m`) at slot `m + 1`; each slot's children
/// start with its tree edges, and its further children, the extra edges,
/// all lie in the upper half `[n / 2, n)`.
pub open spec fn linked(mem: Seq<Node>, n: int) -> bool {
    &&& n <= mem.len()
    &&& forall|i: int|
        0 <= i < n ==> {
            let cs = (#[trigger] mem[i]).children@;
            let t = tree_kids(i, n);
            &&& mem[i].value == if i == 0 {
                Some(1u32)
            } else {
                Some((i - 1) as u32)
            }
            &&& mem[i].parent is None
            &&& mem[i].forwarding_address is None
            &&& t.len() <= cs.len()
            &&& cs.subrange(0, t.len() as int) == t
            &&& forall|k: int| t.len() <= k < cs.len() ==> n / 2 <= #[trigger] cs[k].idx < n
        }
}

/// Allocates the seed node (payload 1) and makes it the last child of the
/// first root.
pub fn seed_root<T: MemoryManager>(stack: &mut Stack, heap: &mut T) -> (r: Result<NodePointer, GcError>)
    requires
        old(heap).inv(),
        region_ok(old(heap).memory(), old(heap).base(), old(heap).cursor(), old(heap).limit()),
        roots_into(old(stack).roots@, old(heap).base(), old(heap).cursor()),
        old(stack).roots@.len() > 0,
    ensures
        final(heap).inv(),
        region_ok(final(heap).memory(), final(heap).base(), final(heap).cursor(), final(heap).limit()),
        roots_into(final(stack).roots@, final(heap).base(), final(heap).cursor()),
        final(stack).roots@.len() == old(stack).roots@.len(),
        final(heap).memory().len() == old(heap).memory().len(),
        final(heap).limit() - final(heap).base() == old(heap).limit() - old(heap).base(),
        (r is Err) <==> (old(heap).cursor() == old(heap).limit() && crate::graph::live(
            old(heap).memory(),
            old(stack).roots@,
        ).len() == old(heap).limit() - old(heap).base()),
        r is Err ==> r->Err_0 == GcError::HeapExhausted,
        r is Ok ==> {
            let p = r->Ok_0;
            let cs = final(stack).roots@[0].children@;
            &&& p.idx == final(heap).cursor() - 1
            &&& final(heap).memory()[p.idx as int].value == Some(1u32)
            &&& cs.len() == old(stack).roots@[0].children@.len() + 1
            &&& cs[cs.len() - 1] == p
            &&& final(stack).roots@[0].value == old(stack).roots@[0].value
            &&& final(stack).roots@[0].parent == old(stack).roots@[0].parent
        },
        old(heap).cursor() < old(heap).limit() ==> {
            &&& r == Ok::<NodePointer, GcError>(NodePointer { idx: old(heap).cursor() as usize })
            &&& final(heap).base() == old(heap).base()
            &&& final(heap).cursor() == old(heap).cursor() + 1
            &&& final(heap).limit() == old(heap).limit()
            &&& seeded(old(heap).memory(), final(heap).memory(), old(heap).cursor())
            &&& forall|q: int| 1 <= q < old(stack).roots@.len() ==> #[trigger] final(stack).roots@[q] == old(stack).roots@[q]
            &&& final(stack).roots@[0].children@ == old(stack).roots@[0].children@.push(
                NodePointer { idx: old(heap).cursor() as usize },
            )
            &&& final(stack).roots@[0].forwarding_address == old(stack).roots@[0].forwarding_address
        },
{
    let node = node_with_value(1);
    let p = heap.allocate(node, stack)?;
    let ghost roots1 = stack.roots@;
    stack.roots[0].children.push(p);
    proof {
        assert forall|q: int| 0 <= q < stack.roots@.len() implies edges_into(#[trigger] stack.roots@[q].children@, heap.base(), heap.cursor()) by {
            assert(edges_into(roots1[q].children@, heap.base(), heap.cursor()));
            if q != 0 {
                assert(stack.roots@[q] == roots1[q]);
            }
        }
    }
    Ok(p)
}

/// The new children of worklist entry `h` once `cur` new nodes exist: the
/// new nodes numbered `2h` and `2h + 1` (the node numbered `m` sits at slot
/// `c0 + m`), those that exist.
pub open spec fn kids(c0: int, h: int, cur: int) -> Seq<NodePointer> {
    let n = if cur <= 2 * h {
        0
    } else if cur >= 2 * h + 2 {
        2
    } else {
        cur - 2 * h
    };
    Seq::new(n as nat, |w: int| NodePointer { idx: (c0 + 2 * h + w) as usize })
}

/// The worklist of the tree growth: the parent, then the new nodes in order.
pub open spec fn worklist(p: NodePointer, c0: int, cur: int) -> Seq<NodePointer> {
    seq![p] + Seq::new(cur as nat, |m: int| NodePointer { idx: (c0 + m) as usize })
}

/// `b` is `a` with a binary tree of `cur` new nodes grown breadth first
/// under slot `p`, the node numbered `m` at slot `c0 + m` with payload `m`:
/// worklist entry 0 is `p`, entry `h > 0` is node `h - 1`, and entry `h`
/// gets nodes `2h` and `2h + 1` as children.
pub open spec fn grown(a: Seq<Node>, b: Seq<Node>, p: int, c0: int, cur: int) -> bool {
    &&& b.len() == a.len()
    &&& forall|i: int| 0 <= i < a.len() && i != p && !(c0 <= i < c0 + cur) ==> #[trigger] b[i] == a[i]
    &&& b[p].children@ == a[p].children@ + kids(c0, 0, cur)
    &&& b[p].value == a[p].value
    &&& b[p].parent == a[p].parent
    &&& b[p].forwarding_address == a[p].forwarding_address
    &&& forall|k: int|
        0 <= k < cur ==> {
            &&& (#[trigger] b[c0 + k]).value == Some(k as u32)
            &&& b[c0 + k].parent is None
            &&& b[c0 + k].forwarding_address is None
            &&& b[c0 + k].children@ == kids(c0, k + 1, cur)
        }
}

proof fn lemma_grow_start(a: Seq<Node>, p: int, c0: int)
    requires
        0 <= p < a.len(),
    ensures
        grown(a, a, p, c0, 0),
{
    assert(kids(c0, 0, 0) =~= seq![]);
    assert(a[p].children@ + kids(c0, 0, 0) =~= a[p].children@);
}

proof fn lemma_grow_step(
    a: Seq<Node>,
    m_before: Seq<Node>,
    m_placed: Seq<Node>,
    m_linked: Seq<Node>,
    p: int,
    c0: int,
    cur: int,
    head: int,
    node: Node,
)
    requires
        grown(a, m_before, p, c0, cur),
        0 <= p < c0,
        0 <= cur,
        c0 + cur < a.len(),
        c0 + cur <= usize::MAX,
        0 <= head,
        2 * head <= cur < 2 * head + 2,
        head <= cur,
        m_placed == m_before.update(c0 + cur, node),
        node.value == Some(cur as u32),
        node.parent is None,
        node.forwarding_address is None,
        node.children@.len() == 0,
        m_linked.len() == m_placed.len(),
        forall|i: int| 0 <= i < m_placed.len() && i != worklist(NodePointer { idx: p as usize }, c0, cur)[head].idx ==> #[trigger] m_linked[i] == m_placed[i],
        ({
            let q = worklist(NodePointer { idx: p as usize }, c0, cur)[head].idx as int;
            &&& m_linked[q].children@ == m_placed[q].children@.push(NodePointer { idx: (c0 + cur) as usize })
            &&& m_linked[q].value == m_placed[q].value
            &&& m_linked[q].parent == m_placed[q].parent
            &&& m_linked[q].forwarding_address == m_placed[q].forwarding_address
        }),
        p <= usize::MAX,
    ensures
        grown(a, m_linked, p, c0, cur + 1),
{
    let wl = worklist(NodePointer { idx: p as usize }, c0, cur);
    let q = wl[head].idx as int;
    let np = NodePointer { idx: (c0 + cur) as usize };
    if head == 0 {
        assert(q == p);
        assert(kids(c0, 0, cur + 1) =~= kids(c0, 0, cur).push(np));
        assert(m_linked[p].children@ =~= a[p].children@ + kids(c0, 0, cur + 1));
    } else {
        assert(wl[head] == NodePointer { idx: (c0 + head - 1) as usize });
        assert(q == c0 + head - 1);
        assert(kids(c0, head, cur + 1) =~= kids(c0, head, cur).push(np));
        assert(kids(c0, 0, cur + 1) =~= kids(c0, 0, cur));
    }
    assert forall|k: int| 0 <= k < cur + 1 implies {
        &&& (#[trigger] m_linked[c0 + k]).value == Some(k as u32)
        &&& m_linked[c0 + k].parent is None
        &&& m_linked[c0 + k].forwarding_address is None
        &&& m_linked[c0 + k].children@ == kids(c0, k + 1, cur + 1)
    } by {
        if k == cur {
            assert(kids(c0, k + 1, cur + 1) =~= seq![]);
            assert(m_linked[c0 + k].children@ =~= seq![]);
        } else if k + 1 == head {
        } else {
            assert(kids(c0, k + 1, cur + 1) =~= kids(c0, k + 1, cur));
        }
    }
}

/// What `roots` reach together with the slot of `p`.
pub open spec fn grow_base(mem: Seq<Node>, roots: Seq<Node>, p: NodePointer) -> Set<int> {
    reachable_from(mem, root_targets(roots).insert(p.idx as int))
}

/// Grows a binary tree breadth first under `parent_node_pointer`: each node
/// taken from the worklist gets up to two new children, with payloads
/// 0, 1, 2, ..., until `max_objects` nodes have been allocated. The worklist
/// is kept as the children of an extra root for the duration, so that a
/// collection triggered by an allocation rewrites it with everything else.
pub fn recursively_add_children<T: MemoryManager>(
    parent_node_pointer: NodePointer,
    max_objects: usize,
    stack: &mut Stack,
    heap: &mut T,
) -> (r: Result<(), GcError>)
    requires
        old(heap).inv(),
        region_ok(old(heap).memory(), old(heap).base(), old(heap).cursor(), old(heap).limit()),
        roots_into(old(stack).roots@, old(heap).base(), old(heap).cursor()),
        old(heap).base() <= parent_node_pointer.idx < old(heap).cursor(),
        old(stack).roots@.len() < usize::MAX,
    ensures
        final(heap).inv(),
        region_ok(final(heap).memory(), final(heap).base(), final(heap).cursor(), final(heap).limit()),
        roots_into(final(stack).roots@, final(heap).base(), final(heap).cursor()),
        same_shape(old(stack).roots@, final(stack).roots@),
        final(heap).memory().len() == old(heap).memory().len(),
        final(heap).limit() - final(heap).base() == old(heap).limit() - old(heap).base(),
        r is Err ==> r->Err_0 == GcError::HeapExhausted,
        grow_base(old(heap).memory(), old(stack).roots@, parent_node_pointer).len() + max_objects <= old(heap).limit() - old(
            heap,
        ).base() ==> r is Ok,
        r is Ok && old(heap).cursor() + max_objects > old(heap).limit() ==> final(heap).cursor() - final(heap).base()
            == grow_base(old(heap).memory(), old(stack).roots@, parent_node_pointer).len() + max_objects,
        old(heap).cursor() + max_objects <= old(heap).limit() ==> {
            &&& r is Ok
            &&& final(heap).base() == old(heap).base()
            &&& final(heap).cursor() == old(heap).cursor() + max_objects
            &&& final(heap).limit() == old(heap).limit()
            &&& grown(
                old(heap).memory(),
                final(heap).memory(),
                parent_node_pointer.idx as int,
                old(heap).cursor(),
                max_objects as int,
            )
            &&& final(stack).roots@ == old(stack).roots@
        },
{
    let ghost mem0 = heap.memory();
    let ghost base0 = heap.base();
    let ghost cursor0 = heap.cursor();
    let ghost limit0 = heap.limit();
    let ghost len0 = heap.memory().len();
    let ghost oroots = stack.roots@;
    let mut scratch = Node::default();
    scratch.children.push(parent_node_pointer);
    stack.roots.push(scratch);
    let last = stack.roots.len() - 1;
    proof {
        assert forall|q: int| 0 <= q < stack.roots@.len() implies edges_into(#[trigger] stack.roots@[q].children@, heap.base(), heap.cursor()) by {
            if q < last {
                assert(stack.roots@[q] == oroots[q]);
                assert(edges_into(oroots[q].children@, heap.base(), heap.cursor()));
            } else {
                assert(stack.roots@[q].children@ =~= seq![parent_node_pointer]);
            }
        }
        assert(stack.roots@.drop_last() =~= oroots);
        lemma_grow_start(mem0, parent_node_pointer.idx as int, cursor0);
        crate::laws::lemma_root_targets_new_root(oroots, stack.roots@, parent_node_pointer.idx as int);
        crate::graph::lemma_live_in_region(heap.memory(), stack.roots@, heap.base(), heap.cursor());
        assert(stack.roots@[last as int].children@ =~= worklist(parent_node_pointer, cursor0, 0));
    }
    let ghost l0 = live(heap.memory(), stack.roots@).len();
    let ghost mut any_full = false;
    let width: usize = 2;
    let mut head: usize = 0;
    let mut current: usize = 0;
    while head < stack.roots[last].children.len()
        invariant
            heap.inv(),
            region_ok(heap.memory(), heap.base(), heap.cursor(), heap.limit()),
            roots_into(stack.roots@, heap.base(), heap.cursor()),
            heap.memory().len() == len0,
            len0 == old(heap).memory().len(),
            oroots == old(stack).roots@,
            live(heap.memory(), stack.roots@).len() == l0 + current,
            l0 == grow_base(mem0, oroots, parent_node_pointer).len(),
            !any_full ==> heap.base() == base0 && heap.cursor() == cursor0 + current && heap.limit() == limit0,
            any_full ==> heap.cursor() - heap.base() == l0 + current,
            base0 == old(heap).base(),
            cursor0 == old(heap).cursor(),
            limit0 == old(heap).limit(),
            heap.limit() - heap.base() == limit0 - base0,
            last == oroots.len(),
            stack.roots@.len() == oroots.len() + 1,
            same_shape(oroots, stack.roots@.drop_last()),
            stack.roots@[last as int].children@.len() == 1 + current,
            current <= max_objects,
            head <= 1 + current,
            width == 2,
            current == (if 2 * head <= max_objects {
                2 * head
            } else {
                max_objects as int
            }),
            cursor0 + max_objects <= limit0 ==> {
                &&& heap.base() == base0
                &&& heap.cursor() == cursor0 + current
                &&& heap.limit() == limit0
                &&& grown(mem0, heap.memory(), parent_node_pointer.idx as int, cursor0, current as int)
                &&& stack.roots@[last as int].children@ == worklist(parent_node_pointer, cursor0, current as int)
                &&& stack.roots@.drop_last() == oroots
            },
            mem0 == old(heap).memory(),
            base0 <= parent_node_pointer.idx < cursor0,
        decreases 1 + max_objects - head,
    {
        let mut w: usize = 0;
        while w < width
            invariant
                heap.inv(),
                region_ok(heap.memory(), heap.base(), heap.cursor(), heap.limit()),
                roots_into(stack.roots@, heap.base(), heap.cursor()),
                heap.memory().len() == len0,
                len0 == old(heap).memory().len(),
                oroots == old(stack).roots@,
                live(heap.memory(), stack.roots@).len() == l0 + current,
                l0 == grow_base(mem0, oroots, parent_node_pointer).len(),
                !any_full ==> heap.base() == base0 && heap.cursor() == cursor0 + current && heap.limit() == limit0,
                any_full ==> heap.cursor() - heap.base() == l0 + current,
                base0 == old(heap).base(),
                cursor0 == old(heap).cursor(),
                limit0 == old(heap).limit(),
                heap.limit() - heap.base() == limit0 - base0,
                last == oroots.len(),
                stack.roots@.len() == oroots.len() + 1,
                same_shape(oroots, stack.roots@.drop_last()),
                stack.roots@[last as int].children@.len() == 1 + current,
                current <= max_objects,
                head < stack.roots@[last as int].children@.len(),
                w <= width,
                width == 2,
                current == (if 2 * head + w <= max_objects {
                    2 * head + w
                } else {
                    max_objects as int
                }),
                cursor0 + max_objects <= limit0 ==> {
                    &&& heap.base() == base0
                    &&& heap.cursor() == cursor0 + current
                    &&& heap.limit() == limit0
                    &&& grown(mem0, heap.memory(), parent_node_pointer.idx as int, cursor0, current as int)
                    &&& stack.roots@[last as int].children@ == worklist(parent_node_pointer, cursor0, current as int)
                    &&& stack.roots@.drop_last() == oroots
                },
                mem0 == old(heap).memory(),
                base0 <= parent_node_pointer.idx < cursor0,
            decreases width - w,
        {
            if current < max_objects {
                let node = node_with_value(#[verifier::truncate] (current as u32));
                let ghost roots0 = stack.roots@;
                let ghost m_before = heap.memory();
                let ghost cur_b = heap.cursor();
                let ghost lim_b = heap.limit();
                let p = match heap.allocate(node, stack) {
                    Ok(p) => p,
                    Err(e) => {
                        let ghost rb = stack.roots@;
                        let _ = stack.roots.pop();
                        proof {
                            assert forall|q: int| 0 <= q < stack.roots@.len() implies edges_into(
                                #[trigger] stack.roots@[q].children@,
                                heap.base(),
                                heap.cursor(),
                            ) by {
                                assert(stack.roots@[q] == rb[q]);
                                assert(edges_into(rb[q].children@, heap.base(), heap.cursor()));
                            }
                            assert(!(l0 + max_objects <= limit0 - base0));
                            assert(same_shape(oroots, stack.roots@)) by {
                                assert forall|q: int| 0 <= q < oroots.len() implies {
                                    &&& (#[trigger] stack.roots@[q]).value == oroots[q].value
                                    &&& stack.roots@[q].parent == oroots[q].parent
                                    &&& stack.roots@[q].children@.len() == oroots[q].children@.len()
                                } by {
                                    assert(stack.roots@[q] == rb[q]);
                                    assert(roots0.drop_last()[q] == roots0[q]);
                                    assert(rb[q].value == roots0[q].value);
                                }
                            }
                        }
                        return Err(e);
                    },
                };
                let ghost roots1 = stack.roots@;
                proof {
                    assert(same_shape(oroots, roots1.drop_last())) by {
                        assert forall|q: int| 0 <= q < oroots.len() implies {
                            &&& (#[trigger] roots1.drop_last()[q]).value == oroots[q].value
                            &&& roots1.drop_last()[q].parent == oroots[q].parent
                            &&& roots1.drop_last()[q].children@.len() == oroots[q].children@.len()
                        } by {
                            assert(roots0.drop_last()[q] == roots0[q]);
                            assert(roots1.drop_last()[q] == roots1[q]);
                        }
                    }
                }
                let par = stack.roots[last].children[head];
                proof {
                    assert(edges_into(stack.roots@[last as int].children@, heap.base(), heap.cursor()));
                }
                let ghost m0 = heap.memory();
                match heap.get_mut(par) {
                    Some(parent) => {
                        parent.children.push(p);
                    },
                    None => {},
                }
                proof {
                    lemma_push_edge(m0, heap.memory(), heap.base(), heap.cursor(), heap.limit(), par.idx as int, p);
                    crate::graph::lemma_live_in_region(m0, roots1, heap.base(), heap.cursor());
                    assert(roots1[last as int].children@[head as int].idx == par.idx);
                    assert(root_targets(roots1).contains(par.idx as int));
                    crate::laws::lemma_link_live(m0, heap.memory(), roots1, par.idx as int, p.idx as int);
                    if cursor0 + max_objects <= limit0 {
                        assert(roots1 == roots0);
                        assert(par == worklist(parent_node_pointer, cursor0, current as int)[head as int]);
                        lemma_grow_step(
                            mem0,
                            m_before,
                            m0,
                            heap.memory(),
                            parent_node_pointer.idx as int,
                            cursor0,
                            current as int,
                            head as int,
                            node,
                        );
                    }
                }
                let ghost m_l = heap.memory();
                stack.roots[last].children.push(p);
                proof {
                    crate::laws::lemma_root_targets_extend(roots1, stack.roots@, last as int, p.idx as int);
                    crate::laws::lemma_root_target_live(m_l, roots1, stack.roots@, p.idx as int);
                    if cur_b == lim_b {
                        any_full = true;
                    }
                    if cursor0 + max_objects <= limit0 {
                        assert(stack.roots@[last as int].children@ =~= worklist(parent_node_pointer, cursor0, current + 1));
                    }
                }
                proof {
                    assert forall|q: int| 0 <= q < stack.roots@.len() implies edges_into(
                        #[trigger] stack.roots@[q].children@,
                        heap.base(),
                        heap.cursor(),
                    ) by {
                        assert(edges_into(roots1[q].children@, heap.base(), heap.cursor()));
                    }
                    assert(stack.roots@.drop_last() =~= roots1.drop_last());
                }
                current = current + 1;
            }
            w = w + 1;
        }
        head = head + 1;
    }
    let ghost roots2 = stack.roots@;
    let _ = stack.roots.pop();
    proof {
        assert(stack.roots@ =~= roots2.drop_last());
        assert(current == max_objects);
        assert forall|q: int| 0 <= q < stack.roots@.len() implies edges_into(#[trigger] stack.roots@[q].children@, heap.base(), heap.cursor()) by {
            assert(stack.roots@[q] == roots2[q]);
        }
    }
    Ok(())
}

/// The bounds of the draws `link_heap` makes: for each of the `n` extra
/// edges, a source in `[0, n)` and a target in `[n / 2, n)`.
pub open spec fn link_bounds(n: usize) -> Seq<(usize, usize)> {
    Seq::new(2 * n as nat, |i: int| if i % 2 == 0 {
        (0usize, n)
    } else {
        ((n / 2) as usize, n)
    })
}

/// The extra edges `link_heap` adds to a heap of `n` slots, in order: the
/// draws of a generator seeded with 1234, taken two by two.
pub open spec fn link_pairs(n: usize) -> Seq<(usize, usize)> {
    let d = pcg_draws(1234, link_bounds(n));
    Seq::new(n as nat, |i: int| (d[2 * i], d[2 * i + 1]))
}

/// The children lists after the tree phase of `link_heap` in `n` slots of
/// `mem`: the tree edges below `n`, the old lists above.
pub open spec fn tree_lists(mem: Seq<Node>, n: usize) -> Seq<Seq<NodePointer>> {
    Seq::new(mem.len(), |i: int| if i < n {
        tree_kids(i, n as int)
    } else {
        mem[i].children@
    })
}

/// Appending handles in `[lo, hi)` keeps each list as a prefix and adds
/// only handles in `[lo, hi)`.
proof fn lemma_pushes_extend(lists: Seq<Seq<NodePointer>>, pairs: Seq<(usize, usize)>, lo: int, hi: int)
    requires
        forall|k: int| 0 <= k < pairs.len() ==> lo <= (#[trigger] pairs[k]).1 < hi,
    ensures
        pushes_applied(lists, pairs).len() == lists.len(),
        forall|i: int|
            0 <= i < lists.len() ==> {
                let r = #[trigger] pushes_applied(lists, pairs)[i];
                &&& lists[i].len() <= r.len()
                &&& r.subrange(0, lists[i].len() as int) == lists[i]
                &&& forall|k: int| lists[i].len() <= k < r.len() ==> lo <= #[trigger] r[k].idx < hi
            },
    decreases pairs.len(),
{
    if pairs.len() == 0 {
        assert forall|i: int| 0 <= i < lists.len() implies lists[i].subrange(0, lists[i].len() as int) == lists[i] by {
            assert(lists[i].subrange(0, lists[i].len() as int) =~= lists[i]);
        }
    } else {
        let d = pairs.drop_last();
        assert forall|k: int| 0 <= k < d.len() implies lo <= (#[trigger] d[k]).1 < hi by {
            assert(d[k] == pairs[k]);
        }
        lemma_pushes_extend(lists, d, lo, hi);
        let l = pushes_applied(lists, d);
        let (a, b) = pairs[pairs.len() - 1];
        assert forall|i: int| 0 <= i < lists.len() implies {
            let r = #[trigger] pushes_applied(lists, pairs)[i];
            &&& lists[i].len() <= r.len()
            &&& r.subrange(0, lists[i].len() as int) == lists[i]
            &&& forall|k: int| lists[i].len() <= k < r.len() ==> lo <= #[trigger] r[k].idx < hi
        } by {
            let r = pushes_applied(lists, pairs)[i];
            if i == a as int {
                assert(r == l[i].push(NodePointer { idx: b }));
                assert(r.subrange(0, lists[i].len() as int) =~= l[i].subrange(0, lists[i].len() as int));
            }
        }
    }
}

/// Builds the benchmark graph in an empty heap of `heap_size` slots: a seed
/// node under the first root, a binary tree filling the heap under it, then
/// `heap_size` extra edges, each from a uniformly drawn slot to a uniformly
/// drawn slot of the upper half (a generator seeded with 1234 draws them).
pub fn link_heap<T: MemoryManager>(stack: &mut Stack, heap: &mut T, heap_size: usize) -> (r: Result<(), GcError>)
    requires
        old(heap).inv(),
        region_ok(old(heap).memory(), old(heap).base(), old(heap).cursor(), old(heap).limit()),
        roots_into(old(stack).roots@, old(heap).base(), old(heap).cursor()),
        old(heap).base() == 0,
        old(heap).cursor() == 0,
        old(heap).limit() == heap_size,
        heap_size >= 1,
        heap_size <= usize::MAX / 2,
        old(stack).roots@.len() > 0,
        old(stack).roots@.len() < usize::MAX,
    ensures
        r is Ok,
        child_lists(final(heap).memory()) == pushes_applied(tree_lists(old(heap).memory(), heap_size), link_pairs(heap_size)),
        forall|i: int|
            heap_size <= i < old(heap).memory().len() ==> {
                &&& (#[trigger] final(heap).memory()[i]).value == old(heap).memory()[i].value
                &&& final(heap).memory()[i].parent == old(heap).memory()[i].parent
                &&& final(heap).memory()[i].forwarding_address == old(heap).memory()[i].forwarding_address
            },
        final(heap).inv(),
        region_ok(final(heap).memory(), final(heap).base(), final(heap).cursor(), final(heap).limit()),
        roots_into(final(stack).roots@, final(heap).base(), final(heap).cursor()),
        final(stack).roots@.len() == old(stack).roots@.len(),
        final(heap).base() == 0,
        final(heap).cursor() == heap_size,
        final(heap).limit() == heap_size,
        final(heap).memory().len() == old(heap).memory().len(),
        linked(final(heap).memory(), heap_size as int),
        final(stack).roots@[0].children@ == old(stack).roots@[0].children@.push(NodePointer { idx: 0 }),
        final(stack).roots@[0].value == old(stack).roots@[0].value,
        final(stack).roots@[0].parent == old(stack).roots@[0].parent,
        final(stack).roots@[0].forwarding_address == old(stack).roots@[0].forwarding_address,
        forall|i: int|
            0 <= i < heap_size ==> (#[trigger] link_pairs(heap_size)[i]).0 < heap_size && heap_size / 2 <= link_pairs(heap_size)[i].1
                < heap_size,
        forall|q: int| 1 <= q < old(stack).roots@.len() ==> #[trigger] final(stack).roots@[q] == old(stack).roots@[q],
{
    let ghost mem0 = heap.memory();
    let ghost roots0 = stack.roots@;
    let child_node_pointer = match seed_root(stack, heap) {
        Ok(p) => p,
        Err(e) => return Err(e),
    };
    let ghost mem1 = heap.memory();
    match recursively_add_children(child_node_pointer, heap_size - 1, stack, heap) {
        Ok(()) => {},
        Err(e) => return Err(e),
    }
    let ghost mem2 = heap.memory();
    proof {
        let n = heap_size as int;
        assert forall|i: int| 0 <= i < n implies {
            let cs = (#[trigger] mem2[i]).children@;
            let t = tree_kids(i, n);
            &&& mem2[i].value == if i == 0 {
                Some(1u32)
            } else {
                Some((i - 1) as u32)
            }
            &&& mem2[i].parent is None
            &&& mem2[i].forwarding_address is None
            &&& t.len() <= cs.len()
            &&& cs.subrange(0, t.len() as int) == t
            &&& forall|k: int| t.len() <= k < cs.len() ==> n / 2 <= #[trigger] cs[k].idx < n
        } by {
            if i == 0 {
                assert(mem1[0].children@ =~= seq![]);
                assert(mem2[0].children@ =~= tree_kids(0, n));
            } else {
                let k = i - 1;
                assert(mem2[1 + k].children@ == kids(1, k + 1, n - 1));
                assert(mem2[i].children@.subrange(0, tree_kids(i, n).len() as int) =~= tree_kids(i, n));
            }
        }
    }
    proof {
        let n = heap_size as int;
        assert forall|i: int| 0 <= i < mem0.len() implies #[trigger] child_lists(mem2)[i] == tree_lists(mem0, heap_size)[i] by {
            if i == 0 {
                assert(mem1[0].children@ =~= seq![]);
                assert(mem2[0].children@ =~= tree_kids(0, n));
            } else if i < n {
                let k = i - 1;
                assert(mem2[1 + k].children@ == kids(1, k + 1, n - 1));
            } else {
                assert(mem2[i] == mem1[i]);
                assert(mem1[i] == mem0[i]);
            }
        }
        assert(child_lists(mem2) =~= tree_lists(mem0, heap_size));
        assert forall|i: int| 0 <= i < mem0.len() implies {
            &&& (#[trigger] mem2[i]).parent == mem0[i].parent || i < n
            &&& i >= n ==> mem2[i].value == mem0[i].value && mem2[i].forwarding_address == mem0[i].forwarding_address
                && mem2[i].parent == mem0[i].parent
        } by {
            if i >= n {
                assert(mem2[i] == mem1[i]);
                assert(mem1[i] == mem0[i]);
            }
        }
    }
    let mut bounds: Vec<(usize, usize)> = Vec::new();
    let mut i: usize = 0;
    while i < heap_size
        invariant
            i <= heap_size,
            heap_size <= usize::MAX / 2,
            bounds@ == link_bounds(heap_size).subrange(0, 2 * i),
        decreases heap_size - i,
    {
        bounds.push((0, heap_size));
        bounds.push((heap_size / 2, heap_size));
        proof {
            assert(link_bounds(heap_size).subrange(0, 2 * (i + 1)) =~= link_bounds(heap_size).subrange(0, 2 * i).push(
                (0usize, heap_size),
            ).push((heap_size / 2, heap_size)));
        }
        i = i + 1;
    }
    proof {
        assert(bounds@ =~= link_bounds(heap_size));
    }
    let draws = seeded_draws(1234, &bounds);
    proof {
        assert forall|i: int| 0 <= i < heap_size implies (#[trigger] link_pairs(heap_size)[i]).0 < heap_size && heap_size / 2
            <= link_pairs(heap_size)[i].1 < heap_size by {
            assert(bounds@[2 * i] == (0usize, heap_size));
            assert(bounds@[2 * i + 1] == ((heap_size / 2) as usize, heap_size));
        }
    }
    let mut pairs: Vec<(usize, usize)> = Vec::new();
    let mut k: usize = 0;
    while k < heap_size
        invariant
            k <= heap_size,
            heap_size <= usize::MAX / 2,
            draws@ == pcg_draws(1234, link_bounds(heap_size)),
            draws@.len() == 2 * heap_size,
            pairs@ == link_pairs(heap_size).subrange(0, k as int),
        decreases heap_size - k,
    {
        pairs.push((draws[2 * k], draws[2 * k + 1]));
        proof {
            assert(link_pairs(heap_size).subrange(0, k + 1) =~= link_pairs(heap_size).subrange(0, k as int).push(
                (draws@[2 * k], draws@[2 * k + 1]),
            ));
        }
        k = k + 1;
    }
    proof {
        assert(pairs@ =~= link_pairs(heap_size));
        assert forall|q: int| 0 <= q < pairs@.len() implies (#[trigger] pairs@[q]).0 < heap.memory().len() && heap.base()
            <= pairs@[q].1 < heap.cursor() by {
            assert(link_bounds(heap_size)[2 * q] == (0usize, heap_size));
            assert(link_bounds(heap_size)[2 * q + 1] == (heap_size / 2, heap_size));
        }
    }
    add_edges(heap, &pairs);
    proof {
        let n = heap_size as int;
        let m3 = heap.memory();
        assert forall|q: int| 0 <= q < pairs@.len() implies n / 2 <= (#[trigger] pairs@[q]).1 < n by {
            assert(link_bounds(heap_size)[2 * q + 1] == (heap_size / 2, heap_size));
        }
        lemma_pushes_extend(child_lists(mem2), pairs@, n / 2, n);
        assert forall|i: int| 0 <= i < n implies {
            let cs = (#[trigger] m3[i]).children@;
            let t = tree_kids(i, n);
            &&& m3[i].value == if i == 0 {
                Some(1u32)
            } else {
                Some((i - 1) as u32)
            }
            &&& m3[i].parent is None
            &&& m3[i].forwarding_address is None
            &&& t.len() <= cs.len()
            &&& cs.subrange(0, t.len() as int) == t
            &&& forall|k2: int| t.len() <= k2 < cs.len() ==> n / 2 <= #[trigger] cs[k2].idx < n
        } by {
            assert(child_lists(m3)[i] == m3[i].children@);
            assert(child_lists(mem2)[i] == tree_kids(i, n));
        }
    }
    Ok(())
}

/// How many edges `make_garbage` removes for a dead-to-live ratio of
/// `garbage_percent` percent: four per slot of the window
/// `[2^12, 2^14)`, scaled by the ratio, rounded down.
pub open spec fn garbage_pops(garbage_percent: u64) -> int {
    (4 * (16384 - 4096) * garbage_percent) / 100
}

/// The slots whose last child `make_garbage` pops, in order: draws in the
/// window `[2^12, 2^14)` of a generator seeded with 1234.
pub open spec fn garbage_picks(garbage_percent: u64) -> Seq<usize> {
    pcg_draws(1234, Seq::new(garbage_pops(garbage_percent) as nat, |i: int| (4096usize, 16384usize)))
}

/// Removes edges to create unreachable nodes: `garbage_pops(garbage_percent)`
/// times, pops the last child of a slot drawn uniformly from the window
/// `[2^12, 2^14)` (a generator seeded with 1234 draws them).
pub fn make_garbage<T: MemoryManager>(stack: &mut Stack, heap: &mut T, garbage_percent: u64) -> (r: Result<(), GcError>)
    requires
        old(heap).inv(),
        region_ok(old(heap).memory(), old(heap).base(), old(heap).cursor(), old(heap).limit()),
        roots_into(old(stack).roots@, old(heap).base(), old(heap).cursor()),
        old(heap).memory().len() >= 16384,
        garbage_pops(garbage_percent) <= usize::MAX,
    ensures
        r is Ok,
        final(heap).inv(),
        region_ok(final(heap).memory(), final(heap).base(), final(heap).cursor(), final(heap).limit()),
        final(stack).roots@ == old(stack).roots@,
        final(heap).base() == old(heap).base(),
        final(heap).cursor() == old(heap).cursor(),
        final(heap).limit() == old(heap).limit(),
        same_but_children(old(heap).memory(), final(heap).memory()),
        child_lists(final(heap).memory()) == pops_applied(child_lists(old(heap).memory()), garbage_picks(garbage_percent)),
        forall|i: int| 0 <= i < garbage_picks(garbage_percent).len() ==> 4096 <= #[trigger] garbage_picks(garbage_percent)[i] < 16384,
        garbage_picks(garbage_percent).len() == garbage_pops(garbage_percent),
        forall|lower: u64|
            0 <= garbage_pops(lower) <= garbage_pops(garbage_percent) ==> #[trigger] garbage_picks(lower) == garbage_picks(
                garbage_percent,
            ).subrange(0, garbage_pops(lower)),
{
    let pops: usize = (49152u128 * (garbage_percent as u128) / 100) as usize;
    let ghost want = Seq::new(garbage_pops(garbage_percent) as nat, |i: int| (4096usize, 16384usize));
    let mut bounds: Vec<(usize, usize)> = Vec::new();
    let mut i: usize = 0;
    while i < pops
        invariant
            i <= pops,
            pops == garbage_pops(garbage_percent),
            want == Seq::new(garbage_pops(garbage_percent) as nat, |i: int| (4096usize, 16384usize)),
            bounds@ == want.subrange(0, i as int),
        decreases pops - i,
    {
        bounds.push((4096, 16384));
        proof {
            assert(want.subrange(0, i + 1) =~= want.subrange(0, i as int).push((4096usize, 16384usize)));
        }
        i = i + 1;
    }
    proof {
        assert(bounds@ =~= want);
    }
    let picks = seeded_draws(1234, &bounds);
    proof {
        assert forall|lower: u64| 0 <= garbage_pops(lower) <= garbage_pops(garbage_percent) implies #[trigger] garbage_picks(lower)
            == garbage_picks(garbage_percent).subrange(0, garbage_pops(lower)) by {
            let k = garbage_pops(lower);
            assert(want.subrange(0, k) =~= Seq::new(k as nat, |i: int| (4096usize, 16384usize)));
            assert(pcg_draws(1234, bounds@.subrange(0, k)) == picks@.subrange(0, k));
        }
        assert forall|i: int| 0 <= i < picks@.len() implies 4096 <= #[trigger] picks@[i] < 16384 by {
            assert(bounds@[i] == (4096usize, 16384usize));
        }
    }
    pop_last_children(heap, &picks);
    Ok(())
}

} // verus!
