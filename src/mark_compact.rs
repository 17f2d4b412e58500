use std::collections::VecDeque;

use vstd::prelude::*;

use crate::graph::{
    closed, edges_into, is_edge, lemma_edge_reachable, lemma_live_in_region, lemma_reach_within_closed,
    lemma_slot_range_len, lemma_source_reachable, live, root_targets, roots_into, slot_range, unmarked,
    queued, lemma_queued_at, lemma_queued_prefix, lemma_queued_tail,
};
use crate::node::{swap_slots, Node, NodePointer};
use crate::manager::{region_ok, same_shape, MemoryManager};
use crate::node::GcError;
use crate::stack::Stack;

verus! {

/// How many members of `s` lie below `n`: the slot a live node at `n`
/// slides down to.
pub open spec fn rank(s: Set<int>, n: int) -> nat
    decreases n,
{
    if n <= 0 {
        0
    } else {
        rank(s, n - 1) + if s.contains(n - 1) {
            1nat
        } else {
            0nat
        }
    }
}

/// `es` with each handle replaced by its slide target.
pub open spec fn relocate(es: Seq<NodePointer>, s: Set<int>) -> Seq<NodePointer> {
    es.map_values(|c: NodePointer| NodePointer { idx: rank(s, c.idx as int) as usize })
}

/// `a` and `b` agree on everything but the forwarding address.
pub open spec fn same_content(a: Node, b: Node) -> bool {
    &&& a.children@ == b.children@
    &&& a.value == b.value
    &&& a.parent == b.parent
}

/// `b` is the node `a` after a slide over the live set `s`.
pub open spec fn moved(a: Node, b: Node, s: Set<int>) -> bool {
    &&& b.children@ == relocate(a.children@, s)
    &&& b.value == a.value
    &&& b.parent == a.parent
    &&& b.forwarding_address is None
}

/// The roots `b` are the roots `a` with every child handle slid over `s`.
pub open spec fn roots_moved(a: Seq<Node>, b: Seq<Node>, s: Set<int>) -> bool {
    &&& b.len() == a.len()
    &&& forall|r: int| 0 <= r < a.len() ==> moved_root(#[trigger] a[r], b[r], s)
}

/// The root `b` is the root `a` with its child handles slid over `s`.
pub open spec fn moved_root(a: Node, b: Node, s: Set<int>) -> bool {
    &&& b.children@ == relocate(a.children@, s)
    &&& b.value == a.value
    &&& b.parent == a.parent
    &&& b.forwarding_address == a.forwarding_address
}

/// The outcome of a sliding collection of the occupied prefix `[0, free)`:
/// each live node `i` now sits at `rank(live, i)` with its edges slid, the
/// roots are slid, and the new occupancy is the number of live nodes.
pub open spec fn compacted(
    mem: Seq<Node>,
    roots: Seq<Node>,
    new_mem: Seq<Node>,
    new_roots: Seq<Node>,
    new_free: int,
) -> bool {
    let s = live(mem, roots);
    &&& new_mem.len() == mem.len()
    &&& new_free == s.len()
    &&& forall|i: int| #[trigger] s.contains(i) ==> moved(mem[i], new_mem[rank(s, i) as int], s)
    &&& roots_moved(roots, new_roots, s)
}

pub proof fn lemma_rank_le(s: Set<int>, n: int)
    ensures
        n >= 0 ==> rank(s, n) <= n,
    decreases n,
{
    if n > 0 {
        lemma_rank_le(s, n - 1);
    }
}

pub proof fn lemma_rank_mono(s: Set<int>, a: int, b: int)
    requires
        a <= b,
    ensures
        rank(s, a) <= rank(s, b),
    decreases b - a,
{
    if a < b {
        lemma_rank_mono(s, a, b - 1);
    }
}

/// A member's slide target lies below that of any later slot.
pub proof fn lemma_rank_strict(s: Set<int>, a: int, b: int)
    requires
        0 <= a < b,
        s.contains(a),
    ensures
        rank(s, a) < rank(s, b),
{
    lemma_rank_mono(s, a + 1, b);
}

/// Counting the members below `n` counts all of `s` when `s` lies below `n`.
pub proof fn lemma_rank_len(s: Set<int>, n: int)
    requires
        n >= 0,
        s.subset_of(slot_range(0, n)),
    ensures
        s.finite(),
        rank(s, n) == s.len(),
{
    lemma_rank_prefix(s, n);
    assert(s.intersect(slot_range(0, n)) =~= s);
}

proof fn lemma_rank_prefix(s: Set<int>, n: int)
    requires
        n >= 0,
    ensures
        s.intersect(slot_range(0, n)).finite(),
        rank(s, n) == s.intersect(slot_range(0, n)).len(),
    decreases n,
{
    if n == 0 {
        assert(s.intersect(slot_range(0, n)) =~= Set::empty());
    } else {
        lemma_rank_prefix(s, n - 1);
        let p = s.intersect(slot_range(0, n - 1));
        if s.contains(n - 1) {
            assert(s.intersect(slot_range(0, n)) =~= p.insert(n - 1));
        } else {
            assert(s.intersect(slot_range(0, n)) =~= p);
        }
    }
}

proof fn lemma_relocate_into(es: Seq<NodePointer>, s: Set<int>, free: int)
    requires
        0 <= free,
        edges_into(es, 0, free),
        forall|k: int| 0 <= k < es.len() ==> s.contains(#[trigger] es[k].idx as int),
        s.subset_of(slot_range(0, free)),
    ensures
        edges_into(relocate(es, s), 0, s.len() as int),
{
    lemma_rank_len(s, free);
    assert forall|k: int| 0 <= k < es.len() implies 0 <= #[trigger] relocate(es, s)[k].idx < s.len() by {
        lemma_rank_strict(s, es[k].idx as int, free);
        lemma_rank_le(s, free);
    }
}

/// Marks (sets a forwarding address on) exactly the slots of `[0, free)`
/// that the roots reach, by a breadth-first walk.
fn mark_live(mem: &mut Vec<Node>, free: usize, roots: &Vec<Node>)
    requires
        closed(old(mem)@, 0, free as int),
        unmarked(old(mem)@, 0, free as int),
        roots_into(roots@, 0, free as int),
    ensures
        final(mem)@.len() == old(mem)@.len(),
        forall|i: int| 0 <= i < old(mem)@.len() ==> same_content(old(mem)@[i], #[trigger] final(mem)@[i]),
        forall|i: int| free <= i < old(mem)@.len() ==> final(mem)@[i] == old(mem)@[i],
        forall|i: int|
            0 <= i < free ==> ((#[trigger] final(mem)@[i]).forwarding_address is Some <==> live(
                old(mem)@,
                roots@,
            ).contains(i)),
{
    let ghost orig = mem@;
    let ghost s = live(orig, roots@);
    proof {
        lemma_live_in_region(orig, roots@, 0, free as int);
    }
    let mut wl: VecDeque<NodePointer> = VecDeque::new();
    let mut r: usize = 0;
    while r < roots.len()
        invariant
            r <= roots@.len(),
            roots_into(roots@, 0, free as int),
            forall|k: int| 0 <= k < wl@.len() ==> 0 <= #[trigger] wl@[k].idx < free && s.contains(wl@[k].idx as int),
            forall|q: int, k: int|
                0 <= q < r && 0 <= k < roots@[q].children@.len() ==> queued(wl@, #[trigger] roots@[q].children@[k].idx as int),
            s == live(orig, roots@),
        decreases roots@.len() - r,
    {
        let mut k: usize = 0;
        let ghost before = wl@;
        while k < roots[r].children.len()
            invariant
                r < roots@.len(),
                k <= roots@[r as int].children@.len(),
                roots_into(roots@, 0, free as int),
                wl@.len() == before.len() + k,
                forall|m: int| 0 <= m < before.len() ==> wl@[m] == before[m],
                forall|m: int| 0 <= m < k ==> wl@[before.len() + m] == roots@[r as int].children@[m],
                forall|m: int| 0 <= m < before.len() ==> 0 <= #[trigger] before[m].idx < free && s.contains(before[m].idx as int),
                forall|q: int, k2: int|
                    0 <= q < r && 0 <= k2 < roots@[q].children@.len() ==> queued(before, #[trigger] roots@[q].children@[k2].idx as int),
                s == live(orig, roots@),
            decreases roots@[r as int].children@.len() - k,
        {
            let c = roots[r].children[k];
            proof {
                assert(edges_into(roots@[r as int].children@, 0, free as int));
                assert(root_targets(roots@).contains(c.idx as int));
                lemma_source_reachable(orig, root_targets(roots@), c.idx as int);
            }
            wl.push_back(c);
            k = k + 1;
        }
        proof {
            assert forall|k2: int| 0 <= k2 < wl@.len() implies 0 <= #[trigger] wl@[k2].idx < free && s.contains(wl@[k2].idx as int) by {
                if k2 >= before.len() {
                    let m = k2 - before.len();
                    let c = roots@[r as int].children@[m];
                    assert(edges_into(roots@[r as int].children@, 0, free as int));
                    assert(root_targets(roots@).contains(c.idx as int));
                    lemma_source_reachable(orig, root_targets(roots@), c.idx as int);
                } else {
                    assert(wl@[k2] == before[k2]);
                }
            }
            assert forall|q: int, k2: int|
                0 <= q < r + 1 && 0 <= k2 < roots@[q].children@.len() implies queued(wl@, #[trigger] roots@[q].children@[k2].idx as int) by {
                if q == r {
                    lemma_queued_at(wl@, before.len() + k2, roots@[q].children@[k2].idx as int);
                } else {
                    lemma_queued_prefix(before, wl@, roots@[q].children@[k2].idx as int);
                }
            }
        }
        r = r + 1;
    }
    let ghost mut marked: Set<int> = Set::empty();
    proof {
        assert forall|j: int| root_targets(roots@).contains(j) implies marked.contains(j) || queued(wl@, j) by {
            let (q, k) = choose|q: int, k: int|
                0 <= q < roots@.len() && 0 <= k < roots@[q].children@.len() && #[trigger] roots@[q].children@[k].idx == j;
            assert(queued(wl@, roots@[q].children@[k].idx as int));
        }
        lemma_slot_range_len(0, free as int);
    }
    while wl.len() > 0
        invariant
            mem@.len() == orig.len(),
            closed(orig, 0, free as int),
            s == live(orig, roots@),
            s.subset_of(slot_range(0, free as int)),
            slot_range(0, free as int).finite(),
            slot_range(0, free as int).len() == free,
            forall|i: int| 0 <= i < orig.len() ==> same_content(orig[i], #[trigger] mem@[i]),
            forall|i: int| free <= i < orig.len() ==> mem@[i] == orig[i],
            forall|i: int| 0 <= i < free ==> ((#[trigger] mem@[i]).forwarding_address is Some <==> marked.contains(i)),
            marked.subset_of(s),
            marked.subset_of(slot_range(0, free as int)),
            marked.finite(),
            forall|k: int| 0 <= k < wl@.len() ==> 0 <= #[trigger] wl@[k].idx < free && s.contains(wl@[k].idx as int),
            forall|i: int, j: int|
                marked.contains(i) && #[trigger] is_edge(orig, i, j) ==> marked.contains(j) || queued(wl@, j),
            forall|j: int|
                #[trigger] root_targets(roots@).contains(j) ==> marked.contains(j) || queued(wl@, j),
        decreases free - marked.len(), wl@.len(),
    {
        let ghost wl0 = wl@;
        let h = wl.pop_front().unwrap();
        proof {
            assert(wl@ =~= wl0.subrange(1, wl0.len() as int));
            vstd::set_lib::lemma_len_subset(marked, slot_range(0, free as int));
        }
        if mem[h.idx].forwarding_address.is_none() {
            mem[h.idx].forwarding_address = Some(NodePointer { idx: 0 });
            let ghost marked0 = marked;
            proof {
                marked = marked.insert(h.idx as int);
                vstd::set_lib::lemma_len_subset(marked, slot_range(0, free as int));
            }
            let ghost wl1 = wl@;
            let mut k: usize = 0;
            while k < mem[h.idx].children.len()
                invariant
                    h.idx < free,
                    free <= mem@.len(),
                    mem@.len() == orig.len(),
                    same_content(orig[h.idx as int], mem@[h.idx as int]),
                    closed(orig, 0, free as int),
                    s.contains(h.idx as int),
                    s == live(orig, roots@),
                    k <= mem@[h.idx as int].children@.len(),
                    wl@.len() == wl1.len() + k,
                    forall|m: int| 0 <= m < wl1.len() ==> wl@[m] == wl1[m],
                    forall|m: int| 0 <= m < k ==> wl@[wl1.len() + m] == mem@[h.idx as int].children@[m],
                    forall|m: int| 0 <= m < wl1.len() ==> 0 <= #[trigger] wl1[m].idx < free && s.contains(wl1[m].idx as int),
                decreases mem@[h.idx as int].children@.len() - k,
            {
                let c = mem[h.idx].children[k];
                k = k + 1;
                wl.push_back(c);
            }
            proof {
                let hc = orig[h.idx as int].children@;
                assert(edges_into(hc, 0, free as int));
                assert forall|k2: int| 0 <= k2 < wl@.len() implies 0 <= #[trigger] wl@[k2].idx < free && s.contains(wl@[k2].idx as int) by {
                    if k2 >= wl1.len() {
                        let m = k2 - wl1.len();
                        assert(hc[m].idx == wl@[k2].idx);
                        assert(is_edge(orig, h.idx as int, hc[m].idx as int));
                        lemma_edge_reachable(orig, root_targets(roots@), h.idx as int, hc[m].idx as int);
                    } else {
                        assert(wl@[k2] == wl1[k2]);
                    }
                }
                assert forall|i: int, j: int|
                    marked.contains(i) && #[trigger] is_edge(orig, i, j) implies marked.contains(j) || queued(wl@, j) by {
                    if i == h.idx {
                        let k3 = choose|k3: int| 0 <= k3 < hc.len() && #[trigger] hc[k3].idx == j;
                        assert(mem@[h.idx as int].children@[k3] == hc[k3]);
                        lemma_queued_at(wl@, wl1.len() + k3, j);
                    } else {
                        assert(marked0.contains(i));
                        if !marked.contains(j) {
                            lemma_queued_tail(wl0, wl1, j);
                            lemma_queued_prefix(wl1, wl@, j);
                        }
                    }
                }
                assert forall|j: int| #[trigger] root_targets(roots@).contains(j) implies marked.contains(j) || queued(wl@, j) by {
                    if !marked.contains(j) {
                        lemma_queued_tail(wl0, wl1, j);
                        lemma_queued_prefix(wl1, wl@, j);
                    }
                }
            }
        } else {
            proof {
                assert(marked.contains(h.idx as int));
                assert forall|i: int, j: int|
                    marked.contains(i) && #[trigger] is_edge(orig, i, j) implies marked.contains(j) || queued(wl@, j) by {
                    if !marked.contains(j) {
                        lemma_queued_tail(wl0, wl@, j);
                    }
                }
                assert forall|j: int| #[trigger] root_targets(roots@).contains(j) implies marked.contains(j) || queued(wl@, j) by {
                    if !marked.contains(j) {
                        lemma_queued_tail(wl0, wl@, j);
                    }
                }
            }
        }
    }
    proof {
        assert forall|i: int, j: int| marked.contains(i) && #[trigger] is_edge(orig, i, j) implies marked.contains(j) by {
        }
        lemma_reach_within_closed(orig, root_targets(roots@), marked);
        assert(marked =~= s);
    }
}


/// Slot `i` of `[0, free)` carries the forwarding address `rank(s, i)` when
/// `i` is in `s`, and none otherwise.
pub open spec fn forwarded(mem: Seq<Node>, free: int, s: Set<int>) -> bool {
    forall|i: int|
        0 <= i < free ==> (#[trigger] mem[i]).forwarding_address == if s.contains(i) {
            Some(NodePointer { idx: rank(s, i) as usize })
        } else {
            None::<NodePointer>
        }
}

/// Gives each marked slot its slide target, in ascending slot order.
fn assign_forwarding(mem: &mut Vec<Node>, free: usize, Ghost(s): Ghost<Set<int>>) -> (f: usize)
    requires
        free <= old(mem)@.len(),
        s.subset_of(slot_range(0, free as int)),
        forall|i: int| 0 <= i < free ==> ((#[trigger] old(mem)@[i]).forwarding_address is Some <==> s.contains(i)),
    ensures
        final(mem)@.len() == old(mem)@.len(),
        forall|i: int| 0 <= i < old(mem)@.len() ==> same_content(old(mem)@[i], #[trigger] final(mem)@[i]),
        forall|i: int| free <= i < old(mem)@.len() ==> final(mem)@[i] == old(mem)@[i],
        forwarded(final(mem)@, free as int, s),
        f == rank(s, free as int),
{
    let ghost orig = mem@;
    let mut f: usize = 0;
    let mut idx: usize = 0;
    while idx < free
        invariant
            idx <= free,
            free <= orig.len(),
            mem@.len() == orig.len(),
            f == rank(s, idx as int),
            f <= idx,
            forall|i: int| 0 <= i < free ==> ((#[trigger] orig[i]).forwarding_address is Some <==> s.contains(i)),
            forall|i: int| 0 <= i < orig.len() ==> same_content(orig[i], #[trigger] mem@[i]),
            forall|i: int| idx <= i < orig.len() ==> mem@[i] == orig[i],
            forwarded(mem@, idx as int, s),
        decreases free - idx,
    {
        if mem[idx].forwarding_address.is_some() {
            mem[idx].forwarding_address = Some(NodePointer { idx: f });
            f = f + 1;
        }
        idx = idx + 1;
    }
    f
}

/// `es` with every handle replaced by the forwarding address of its slot.
fn relocated_edges(es: &Vec<NodePointer>, mem: &Vec<Node>, Ghost(s): Ghost<Set<int>>, Ghost(free): Ghost<int>) -> (r: Vec<NodePointer>)
    requires
        forall|k: int| 0 <= k < es@.len() ==> s.contains(#[trigger] es@[k].idx as int),
        s.subset_of(slot_range(0, free)),
        free <= mem@.len(),
        forwarded(mem@, free, s),
    ensures
        r@ == relocate(es@, s),
{
    let mut r: Vec<NodePointer> = Vec::new();
    let mut k: usize = 0;
    while k < es.len()
        invariant
            k <= es@.len(),
            forall|k2: int| 0 <= k2 < es@.len() ==> s.contains(#[trigger] es@[k2].idx as int),
            s.subset_of(slot_range(0, free)),
            free <= mem@.len(),
            forwarded(mem@, free, s),
            r@ == relocate(es@.subrange(0, k as int), s),
        decreases es@.len() - k,
    {
        let c = es[k];
        proof {
            assert(s.contains(es@[k as int].idx as int));
        }
        let t = mem[c.idx].forwarding_address.unwrap();
        r.push(t);
        proof {
            assert(relocate(es@.subrange(0, k + 1), s) =~= relocate(es@.subrange(0, k as int), s).push(t));
        }
        k = k + 1;
    }
    proof {
        assert(es@.subrange(0, k as int) =~= es@);
    }
    r
}

/// Rewrites the edges of every live node, and the roots, to slide targets.
fn update_references(mem: &mut Vec<Node>, free: usize, roots: &mut Vec<Node>, Ghost(s): Ghost<Set<int>>)
    requires
        free <= old(mem)@.len(),
        s.subset_of(slot_range(0, free as int)),
        forwarded(old(mem)@, free as int, s),
        closed(old(mem)@, 0, free as int),
        forall|i: int, j: int| s.contains(i) && #[trigger] is_edge(old(mem)@, i, j) ==> s.contains(j),
        root_targets(old(roots)@).subset_of(s),
        roots_into(old(roots)@, 0, free as int),
    ensures
        final(mem)@.len() == old(mem)@.len(),
        forall|i: int|
            0 <= i < old(mem)@.len() ==> {
                &&& (#[trigger] final(mem)@[i]).forwarding_address == old(mem)@[i].forwarding_address
                &&& final(mem)@[i].value == old(mem)@[i].value
                &&& final(mem)@[i].parent == old(mem)@[i].parent
                &&& final(mem)@[i].children@ == if s.contains(i) {
                    relocate(old(mem)@[i].children@, s)
                } else {
                    old(mem)@[i].children@
                }
            },
        roots_moved(old(roots)@, final(roots)@, s),
{
    let ghost orig = mem@;
    let ghost oroots = roots@;
    let mut idx: usize = 0;
    while idx < free
        invariant
            idx <= free,
            free <= orig.len(),
            mem@.len() == orig.len(),
            s.subset_of(slot_range(0, free as int)),
            forwarded(orig, free as int, s),
            closed(orig, 0, free as int),
            forall|i: int, j: int| s.contains(i) && #[trigger] is_edge(orig, i, j) ==> s.contains(j),
            forall|i: int|
                0 <= i < orig.len() ==> {
                    &&& (#[trigger] mem@[i]).forwarding_address == orig[i].forwarding_address
                    &&& mem@[i].value == orig[i].value
                    &&& mem@[i].parent == orig[i].parent
                    &&& mem@[i].children@ == if s.contains(i) && i < idx {
                        relocate(orig[i].children@, s)
                    } else {
                        orig[i].children@
                    }
                },
        decreases free - idx,
    {
        if mem[idx].forwarding_address.is_some() {
            proof {
                assert(s.contains(idx as int));
                assert(edges_into(orig[idx as int].children@, 0, free as int));
                assert forall|k: int| 0 <= k < mem@[idx as int].children@.len() implies s.contains(#[trigger] mem@[idx as int].children@[k].idx as int) by {
                    let c = orig[idx as int].children@[k];
                    assert(is_edge(orig, idx as int, c.idx as int));
                }
                assert forall|i: int| 0 <= i < free implies (#[trigger] mem@[i]).forwarding_address == if s.contains(i) {
                    Some(NodePointer { idx: rank(s, i) as usize })
                } else {
                    None::<NodePointer>
                } by {
                    assert(orig[i].forwarding_address == mem@[i].forwarding_address);
                }
            }
            let es = relocated_edges(&mem[idx].children, mem, Ghost(s), Ghost(free as int));
            mem[idx].children = es;
        }
        idx = idx + 1;
    }
    let mut r: usize = 0;
    while r < roots.len()
        invariant
            r <= roots@.len(),
            roots@.len() == oroots.len(),
            mem@.len() == orig.len(),
            forall|i: int| 0 <= i < orig.len() ==> (#[trigger] mem@[i]).forwarding_address == orig[i].forwarding_address,
            forwarded(orig, free as int, s),
            free <= orig.len(),
            s.subset_of(slot_range(0, free as int)),
            root_targets(oroots).subset_of(s),
            roots_into(oroots, 0, free as int),
            forall|q: int| 0 <= q < r ==> moved_root(#[trigger] oroots[q], roots@[q], s),
            forall|q: int| r <= q < oroots.len() ==> #[trigger] roots@[q] == oroots[q],
        decreases oroots.len() - r,
    {
        proof {
            assert(roots@[r as int] == oroots[r as int]);
            assert(edges_into(oroots[r as int].children@, 0, free as int));
            assert forall|k: int| 0 <= k < roots@[r as int].children@.len() implies s.contains(#[trigger] roots@[r as int].children@[k].idx as int) by {
                let c = oroots[r as int].children@[k];
                assert(root_targets(oroots).contains(c.idx as int));
            }
            assert forall|i: int| 0 <= i < free implies (#[trigger] mem@[i]).forwarding_address == if s.contains(i) {
                Some(NodePointer { idx: rank(s, i) as usize })
            } else {
                None::<NodePointer>
            } by {
                assert(orig[i].forwarding_address == mem@[i].forwarding_address);
            }
        }
        let es = relocated_edges(&roots[r].children, mem, Ghost(s), Ghost(free as int));
        roots[r].children = es;
        r = r + 1;
    }
}

/// Slides each marked slot down to its forwarding address, clearing the
/// address on the way; returns the new occupancy.
fn slide(mem: &mut Vec<Node>, free: usize, Ghost(s): Ghost<Set<int>>) -> (f: usize)
    requires
        free <= old(mem)@.len(),
        s.subset_of(slot_range(0, free as int)),
        forwarded(old(mem)@, free as int, s),
        forall|i: int| #[trigger] s.contains(i) ==> edges_into(old(mem)@[i].children@, 0, s.len() as int),
    ensures
        s.finite(),
        f == s.len(),
        final(mem)@.len() == old(mem)@.len(),
        forall|i: int|
            #[trigger] s.contains(i) ==> {
                let b = final(mem)@[rank(s, i) as int];
                &&& b.children@ == old(mem)@[i].children@
                &&& b.value == old(mem)@[i].value
                &&& b.parent == old(mem)@[i].parent
                &&& b.forwarding_address is None
            },
        closed(final(mem)@, 0, f as int),
        unmarked(final(mem)@, 0, f as int),
{
    let ghost orig = mem@;
    proof {
        lemma_rank_len(s, free as int);
    }
    let mut f: usize = 0;
    let mut idx: usize = 0;
    while idx < free
        invariant
            idx <= free,
            free <= orig.len(),
            mem@.len() == orig.len(),
            s.subset_of(slot_range(0, free as int)),
            s.finite(),
            rank(s, free as int) == s.len(),
            forwarded(orig, free as int, s),
            forall|i: int| #[trigger] s.contains(i) ==> edges_into(orig[i].children@, 0, s.len() as int),
            f == rank(s, idx as int),
            f <= idx,
            forall|i: int| idx <= i < orig.len() ==> #[trigger] mem@[i] == orig[i],
            forall|i: int|
                #[trigger] s.contains(i) && i < idx ==> {
                    let b = mem@[rank(s, i) as int];
                    &&& b.children@ == orig[i].children@
                    &&& b.value == orig[i].value
                    &&& b.parent == orig[i].parent
                    &&& b.forwarding_address is None
                },
            forall|t: int|
                0 <= t < f ==> {
                    &&& edges_into((#[trigger] mem@[t]).children@, 0, s.len() as int)
                    &&& mem@[t].forwarding_address is None
                },
        decreases free - idx,
    {
        let ghost before = mem@;
        if let Some(target) = mem[idx].forwarding_address {
            proof {
                assert(s.contains(idx as int));
                assert(target.idx == f);
            }
            mem[idx].forwarding_address = None;
            if target.idx != idx {
                swap_slots(mem, idx, target.idx);
            }
            proof {
                assert forall|i: int| #[trigger] s.contains(i) && i < idx + 1 implies {
                    let b = mem@[rank(s, i) as int];
                    &&& b.children@ == orig[i].children@
                    &&& b.value == orig[i].value
                    &&& b.parent == orig[i].parent
                    &&& b.forwarding_address is None
                } by {
                    if i < idx {
                        lemma_rank_strict(s, i, idx as int);
                    }
                }
            }
            f = f + 1;
        } else {
            proof {
                assert(!s.contains(idx as int));
            }
        }
        idx = idx + 1;
    }
    f
}

/// The sliding collection of the occupied prefix `[0, free)` of `mem`, with
/// the roots of `stack`: mark, assign forwarding addresses, update references,
/// slide. Returns the new occupancy.
pub fn compact(mem: &mut Vec<Node>, free: usize, stack: &mut Stack) -> (f: usize)
    requires
        closed(old(mem)@, 0, free as int),
        unmarked(old(mem)@, 0, free as int),
        roots_into(old(stack).roots@, 0, free as int),
    ensures
        compacted(old(mem)@, old(stack).roots@, final(mem)@, final(stack).roots@, f as int),
        f <= free,
        closed(final(mem)@, 0, f as int),
        unmarked(final(mem)@, 0, f as int),
        roots_into(final(stack).roots@, 0, f as int),
{
    let ghost orig = mem@;
    let ghost oroots = stack.roots@;
    let ghost s = live(orig, oroots);
    proof {
        lemma_live_in_region(orig, oroots, 0, free as int);
    }
    mark_live(mem, free, &stack.roots);
    let ghost m1 = mem@;
    let _ = assign_forwarding(mem, free, Ghost(s));
    let ghost m2 = mem@;
    proof {
        assert forall|i: int, j: int| s.contains(i) && #[trigger] is_edge(m2, i, j) implies s.contains(j) by {
            assert(orig[i].children@ == m2[i].children@);
            let k = choose|k: int| 0 <= k < m2[i].children@.len() && #[trigger] m2[i].children@[k].idx == j;
            assert(orig[i].children@[k].idx == j);
            assert(is_edge(orig, i, j));
            lemma_edge_reachable(orig, root_targets(oroots), i, j);
        }
        assert forall|i: int| 0 <= i < free implies edges_into(#[trigger] m2[i].children@, 0, free as int) by {
            assert(orig[i].children@ == m2[i].children@);
            assert(edges_into(orig[i].children@, 0, free as int));
        }
        assert forall|j: int| root_targets(oroots).contains(j) implies s.contains(j) by {
            lemma_source_reachable(orig, root_targets(oroots), j);
        }
    }
    update_references(mem, free, &mut stack.roots, Ghost(s));
    let ghost m3 = mem@;
    proof {
        assert forall|i: int| #[trigger] s.contains(i) implies edges_into(m3[i].children@, 0, s.len() as int) by {
            assert(orig[i].children@ == m2[i].children@);
            assert(edges_into(orig[i].children@, 0, free as int));
            assert forall|k: int| 0 <= k < orig[i].children@.len() implies s.contains(#[trigger] orig[i].children@[k].idx as int) by {
                let c = orig[i].children@[k];
                assert(is_edge(orig, i, c.idx as int));
                lemma_edge_reachable(orig, root_targets(oroots), i, c.idx as int);
            }
            lemma_relocate_into(orig[i].children@, s, free as int);
        }
        assert forall|i: int| 0 <= i < free implies (#[trigger] m3[i]).forwarding_address == if s.contains(i) {
            Some(NodePointer { idx: rank(s, i) as usize })
        } else {
            None::<NodePointer>
        } by {
            assert(m3[i].forwarding_address == m2[i].forwarding_address);
        }
    }
    let f = slide(mem, free, Ghost(s));
    proof {
        lemma_rank_len(s, free as int);
        lemma_rank_le(s, free as int);
        assert forall|i: int| #[trigger] s.contains(i) implies moved(orig[i], mem@[rank(s, i) as int], s) by {
            assert(orig[i].children@ == m2[i].children@);
            assert(orig[i].value == m2[i].value);
        }
        assert forall|r: int| 0 <= r < stack.roots@.len() implies edges_into(#[trigger] stack.roots@[r].children@, 0, f as int) by {
            assert(moved_root(oroots[r], stack.roots@[r], s));
            assert(edges_into(oroots[r].children@, 0, free as int));
            assert forall|k: int| 0 <= k < oroots[r].children@.len() implies s.contains(#[trigger] oroots[r].children@[k].idx as int) by {
                let c = oroots[r].children@[k];
                assert(root_targets(oroots).contains(c.idx as int));
                lemma_source_reachable(orig, root_targets(oroots), c.idx as int);
            }
            lemma_relocate_into(oroots[r].children@, s, free as int);
        }
    }
    f
}


/// A LISP-2 sliding mark-compact heap over one arena: `[0, free)` is
/// occupied, and allocation bumps `free`.
#[derive(Clone)]
pub struct MarkCompactHeap {
    pub committed_memory: Vec<Node>,
    pub free: usize,
}

impl MarkCompactHeap {
    /// A heap of `size` default slots, none occupied.
    pub fn init(size: usize) -> (r: MarkCompactHeap)
        ensures
            r.committed_memory@.len() == size,
            all_empty(r.committed_memory@),
            r.free == 0,
            r.inv(),
            region_ok(r.memory(), r.base(), r.cursor(), r.limit()),
    {
        MarkCompactHeap { committed_memory: default_arena(size), free: 0 }
    }
}

/// Every slot of `mem` is the empty node.
pub open spec fn all_empty(mem: Seq<Node>) -> bool {
    forall|i: int|
        0 <= i < mem.len() ==> {
            &&& (#[trigger] mem[i]).forwarding_address is None
            &&& mem[i].children@.len() == 0
            &&& mem[i].value is None
            &&& mem[i].parent is None
        }
}

/// `size` default slots.
pub fn default_arena(size: usize) -> (r: Vec<Node>)
    ensures
        r@.len() == size,
        all_empty(r@),
{
    let mut mem: Vec<Node> = Vec::new();
    let mut i: usize = 0;
    while i < size
        invariant
            i <= size,
            mem@.len() == i,
            forall|j: int|
                0 <= j < i ==> {
                    &&& (#[trigger] mem@[j]).forwarding_address is None
                    &&& mem@[j].children@.len() == 0
                    &&& mem@[j].value is None
                    &&& mem@[j].parent is None
                },
        decreases size - i,
    {
        mem.push(Node::default());
        i = i + 1;
    }
    mem
}

/// Placing a fresh node at the cursor keeps the region well formed.
pub proof fn lemma_place_fresh(mem: Seq<Node>, roots: Seq<Node>, base: int, cursor: int, limit: int, node: Node)
    requires
        region_ok(mem, base, cursor, limit),
        roots_into(roots, base, cursor),
        cursor < limit,
        node.forwarding_address is None,
        node.children@.len() == 0,
    ensures
        region_ok(mem.update(cursor, node), base, cursor + 1, limit),
        roots_into(roots, base, cursor + 1),
{
    let m = mem.update(cursor, node);
    assert forall|i: int| base <= i < cursor + 1 implies edges_into(#[trigger] m[i].children@, base, cursor + 1) by {
        if i != cursor {
            assert(edges_into(mem[i].children@, base, cursor));
        }
    }
    assert forall|r: int| 0 <= r < roots.len() implies edges_into(#[trigger] roots[r].children@, base, cursor + 1) by {
        assert(edges_into(roots[r].children@, base, cursor));
    }
}

/// The roots' shape survives a slide.
pub proof fn lemma_moved_shape(a: Seq<Node>, b: Seq<Node>, s: Set<int>)
    requires
        roots_moved(a, b, s),
    ensures
        crate::manager::same_shape(a, b),
{
    assert forall|r: int| 0 <= r < a.len() implies {
        &&& (#[trigger] b[r]).value == a[r].value
        &&& b[r].parent == a[r].parent
        &&& b[r].children@.len() == a[r].children@.len()
    } by {
        assert(moved_root(a[r], b[r], s));
    }
}

impl MemoryManager for MarkCompactHeap {
    open spec fn memory(&self) -> Seq<Node> {
        self.committed_memory@
    }

    open spec fn base(&self) -> int {
        0
    }

    open spec fn cursor(&self) -> int {
        self.free as int
    }

    open spec fn limit(&self) -> int {
        self.committed_memory@.len() as int
    }

    open spec fn inv(&self) -> bool {
        self.free <= self.committed_memory@.len()
    }

    open spec fn collected(&self, roots: Seq<Node>, after: Self, new_roots: Seq<Node>) -> bool {
        compacted(self.committed_memory@, roots, after.committed_memory@, new_roots, after.free as int)
    }

    fn allocate(&mut self, node: Node, stack: &mut Stack) -> (r: Result<NodePointer, GcError>) {
        let ghost mut mid = *self;
        let ghost mut mid_roots = stack.roots@;
        if self.free >= self.committed_memory.len() {
            let _ = self.collect(stack);
            proof {
                mid = *self;
                mid_roots = stack.roots@;
            }
        }
        if self.free >= self.committed_memory.len() {
            proof {
                assert(old(self).cursor() == old(self).limit() ==> old(self).collected(old(stack).roots@, mid, mid_roots));
            }
            return Err(GcError::HeapExhausted);
        }
        proof {
            lemma_place_fresh(self.committed_memory@, stack.roots@, 0, self.free as int, self.committed_memory@.len() as int, node);
            crate::graph::lemma_live_in_region(self.committed_memory@, stack.roots@, 0, self.free as int);
            crate::laws::lemma_place_keeps_live(
                self.committed_memory@,
                stack.roots@,
                0,
                self.free as int,
                self.committed_memory@.len() as int,
                node,
            );
        }
        let p = NodePointer { idx: self.free };
        self.committed_memory[p.idx] = node;
        self.free = self.free + 1;
        proof {
            assert(old(self).cursor() == old(self).limit() ==> old(self).collected(old(stack).roots@, mid, mid_roots));
        }
        Ok(p)
    }

    fn collect(&mut self, stack: &mut Stack) -> (r: Result<(), GcError>) {
        let ghost oroots = stack.roots@;
        let _len = self.committed_memory.len();
        let f = compact(&mut self.committed_memory, self.free, stack);
        self.free = f;
        proof {
            lemma_moved_shape(oroots, stack.roots@, live(old(self).committed_memory@, oroots));
            crate::laws::lemma_compaction_keeps_live_count(
                old(self).committed_memory@,
                oroots,
                self.committed_memory@,
                stack.roots@,
                old(self).free as int,
            );
        }
        Ok(())
    }

    fn get(&self, node_pointer: NodePointer) -> (r: Option<&Node>) {
        if node_pointer.idx < self.committed_memory.len() {
            Some(&self.committed_memory[node_pointer.idx])
        } else {
            None
        }
    }

    fn get_mut(&mut self, node_pointer: NodePointer) -> (r: Option<&mut Node>) {
        if node_pointer.idx < self.committed_memory.len() {
            Some(&mut self.committed_memory[node_pointer.idx])
        } else {
            None
        }
    }

    fn node_pointer_from_usize(&self, idx: usize) -> (r: NodePointer) {
        NodePointer { idx }
    }

    fn free(&self) -> (r: usize) {
        self.free
    }

    fn heap_size(&self) -> (r: usize) {
        self.committed_memory.len()
    }

    fn committed_memory(&self) -> (r: &[Node]) {
        self.committed_memory.as_slice()
    }
}


/// The plain mark-compact arena: the same collector as `MarkCompactHeap`,
/// with an allocation that places an empty node.
pub struct Heap {
    pub committed_memory: Vec<Node>,
    pub free: usize,
}

impl Heap {
    /// Allocates an empty node (no value, no edges); collects once first
    /// when the arena is full.
    pub fn allocate(&mut self, stack: &mut Stack) -> (r: Result<NodePointer, GcError>)
        requires
            old(self).inv(),
            region_ok(old(self).memory(), old(self).base(), old(self).cursor(), old(self).limit()),
            roots_into(old(stack).roots@, old(self).base(), old(self).cursor()),
        ensures
            final(self).inv(),
            region_ok(final(self).memory(), final(self).base(), final(self).cursor(), final(self).limit()),
            roots_into(final(stack).roots@, final(self).base(), final(self).cursor()),
            final(self).memory().len() == old(self).memory().len(),
            old(self).cursor() < old(self).limit() ==> {
                &&& r == Ok::<NodePointer, GcError>(NodePointer { idx: old(self).free })
                &&& final(self).free == old(self).free + 1
                &&& final(stack).roots@ == old(stack).roots@
            },
            (r is Err) <==> (old(self).free == old(self).committed_memory@.len() && live(
                old(self).memory(),
                old(stack).roots@,
            ).len() == old(self).committed_memory@.len()),
            r is Err ==> r == Err::<NodePointer, GcError>(GcError::HeapExhausted),
            r is Ok ==> {
                let n = final(self).memory()[r->Ok_0.idx as int];
                &&& r->Ok_0.idx == final(self).free - 1
                &&& n.value is None
                &&& n.children@.len() == 0
                &&& n.parent is None
                &&& n.forwarding_address is None
            },
            old(self).cursor() < old(self).limit() ==> forall|i: int|
                0 <= i < old(self).memory().len() && i != old(self).free ==> #[trigger] final(self).memory()[i]
                    == old(self).memory()[i],
            old(self).cursor() == old(self).limit() && r is Ok ==> r->Ok_0.idx == live(old(self).memory(), old(stack).roots@).len(),
    {
        MemoryManager::allocate(self, Node::default(), stack)
    }

    /// Collects, and returns how many slots are free afterwards.
    pub fn collect(&mut self, stack: &mut Stack) -> (r: Result<usize, GcError>)
        requires
            old(self).inv(),
            region_ok(old(self).memory(), old(self).base(), old(self).cursor(), old(self).limit()),
            roots_into(old(stack).roots@, old(self).base(), old(self).cursor()),
        ensures
            r == Ok::<usize, GcError>((old(self).committed_memory@.len() - live(old(self).memory(), old(stack).roots@).len()) as usize),
            final(self).inv(),
            region_ok(final(self).memory(), final(self).base(), final(self).cursor(), final(self).limit()),
            roots_into(final(stack).roots@, final(self).base(), final(self).cursor()),
            same_shape(old(stack).roots@, final(stack).roots@),
            old(self).collected(old(stack).roots@, *final(self), final(stack).roots@),
            final(self).free == live(old(self).memory(), old(stack).roots@).len(),
    {
        let _ = MemoryManager::collect(self, stack);
        Ok(self.committed_memory.len() - self.free)
    }
}

impl MemoryManager for Heap {
    open spec fn memory(&self) -> Seq<Node> {
        self.committed_memory@
    }

    open spec fn base(&self) -> int {
        0
    }

    open spec fn cursor(&self) -> int {
        self.free as int
    }

    open spec fn limit(&self) -> int {
        self.committed_memory@.len() as int
    }

    open spec fn inv(&self) -> bool {
        self.free <= self.committed_memory@.len()
    }

    open spec fn collected(&self, roots: Seq<Node>, after: Self, new_roots: Seq<Node>) -> bool {
        compacted(self.committed_memory@, roots, after.committed_memory@, new_roots, after.free as int)
    }

    fn allocate(&mut self, node: Node, stack: &mut Stack) -> (r: Result<NodePointer, GcError>) {
        let ghost mut mid = *self;
        let ghost mut mid_roots = stack.roots@;
        if self.free >= self.committed_memory.len() {
            let _ = MemoryManager::collect(self, stack);
            proof {
                mid = *self;
                mid_roots = stack.roots@;
            }
        }
        if self.free >= self.committed_memory.len() {
            proof {
                assert(old(self).cursor() == old(self).limit() ==> old(self).collected(old(stack).roots@, mid, mid_roots));
            }
            return Err(GcError::HeapExhausted);
        }
        proof {
            lemma_place_fresh(self.committed_memory@, stack.roots@, 0, self.free as int, self.committed_memory@.len() as int, node);
            crate::graph::lemma_live_in_region(self.committed_memory@, stack.roots@, 0, self.free as int);
            crate::laws::lemma_place_keeps_live(
                self.committed_memory@,
                stack.roots@,
                0,
                self.free as int,
                self.committed_memory@.len() as int,
                node,
            );
        }
        let p = NodePointer { idx: self.free };
        self.committed_memory[p.idx] = node;
        self.free = self.free + 1;
        proof {
            assert(old(self).cursor() == old(self).limit() ==> old(self).collected(old(stack).roots@, mid, mid_roots));
        }
        Ok(p)
    }

    fn collect(&mut self, stack: &mut Stack) -> (r: Result<(), GcError>) {
        let ghost oroots = stack.roots@;
        let _len = self.committed_memory.len();
        let f = compact(&mut self.committed_memory, self.free, stack);
        self.free = f;
        proof {
            lemma_moved_shape(oroots, stack.roots@, live(old(self).committed_memory@, oroots));
            crate::laws::lemma_compaction_keeps_live_count(
                old(self).committed_memory@,
                oroots,
                self.committed_memory@,
                stack.roots@,
                old(self).free as int,
            );
        }
        Ok(())
    }

    fn get(&self, node_pointer: NodePointer) -> (r: Option<&Node>) {
        if node_pointer.idx < self.committed_memory.len() {
            Some(&self.committed_memory[node_pointer.idx])
        } else {
            None
        }
    }

    fn get_mut(&mut self, node_pointer: NodePointer) -> (r: Option<&mut Node>) {
        if node_pointer.idx < self.committed_memory.len() {
            Some(&mut self.committed_memory[node_pointer.idx])
        } else {
            None
        }
    }

    fn node_pointer_from_usize(&self, idx: usize) -> (r: NodePointer) {
        NodePointer { idx }
    }

    fn free(&self) -> (r: usize) {
        self.free
    }

    fn heap_size(&self) -> (r: usize) {
        self.committed_memory.len()
    }

    fn committed_memory(&self) -> (r: &[Node]) {
        self.committed_memory.as_slice()
    }
}

} // verus!
