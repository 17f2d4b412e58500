use vstd::prelude::*;

use crate::graph::{
    closed, edges_into, is_edge, lemma_edge_reachable, lemma_live_in_region, lemma_reach_within_closed,
    lemma_slot_range_len, lemma_source_reachable, live, root_targets, roots_into, slot_range, unmarked,
};
use crate::manager::{region_ok, MemoryManager};
use crate::mark_compact::default_arena;
use crate::node::{swap_slots, GcError, Node, NodePointer};
use crate::stack::{lemma_handle_set_roots, lemma_root_handles_cons, root_handles, Stack};
use crate::traverse::{degree_sum, lemma_degree_mono, lemma_sums_empty, lemma_sums_insert, trace, walk_len_all};

verus! {

/// A Cheney stop-and-copy heap: one arena of two semi-spaces of `extent`
/// slots each. Allocation bumps `free` within `[to_space, top)`.
///
/// A copy takes a node to be uncopied exactly when it carries no forwarding
/// address, so the active region never carries one between collections
/// (`unmarked` in the heap contract). Old from-space slots keep the
/// forwarding addresses a collection leaves in them; they are only read
/// again after allocation has overwritten them or as swap partners, whose
/// forwarding address a copy clears.
#[derive(Clone)]
pub struct StopAndCopyHeap {
    pub from_space: usize,
    pub to_space: usize,
    pub extent: usize,
    pub free: usize,
    pub top: usize,
    pub committed_memory: Vec<Node>,
}

/// The bookkeeping of a semi-space heap: the two spaces are the two halves
/// `[0, extent)` and `[extent, 2 * extent)`, and the cursor stays in the
/// active one.
pub open spec fn spaces_ok(from_space: int, to_space: int, extent: int, free: int, top: int, len: int) -> bool {
    &&& 2 * extent <= len
    &&& ((from_space == 0 && to_space == extent) || (from_space == extent && to_space == 0))
    &&& top == to_space + extent
    &&& to_space <= free <= top
}

/// `after` (with `new_roots`) holds, in `[base, base + n)`, exactly the
/// nodes that `roots` reach in `mem`: slot `t` holds the node that sat at
/// `origin[t - base]`, whose edges lead to the new slots of the old targets.
pub open spec fn evacuated(
    mem: Seq<Node>,
    roots: Seq<Node>,
    after: Seq<Node>,
    new_roots: Seq<Node>,
    base: int,
    n: int,
    origin: Seq<int>,
) -> bool {
    let s = live(mem, roots);
    &&& origin.len() == n
    &&& n == s.len()
    &&& after.len() == mem.len()
    &&& forall|t: int| 0 <= t < n ==> s.contains(#[trigger] origin[t])
    &&& forall|j: int| #[trigger] s.contains(j) ==> exists|t: int| 0 <= t < n && origin[t] == j
    &&& forall|t: int, u: int| 0 <= t < n && 0 <= u < n && t != u ==> origin[t] != origin[u]
    &&& forall|t: int|
        0 <= t < n ==> {
            let a = mem[#[trigger] origin[t]];
            let b = after[base + t];
            &&& b.value == a.value
            &&& b.parent == a.parent
            &&& b.forwarding_address is None
            &&& b.children@.len() == a.children@.len()
            &&& forall|k: int|
                0 <= k < a.children@.len() ==> {
                    &&& base <= #[trigger] b.children@[k].idx < base + n
                    &&& origin[b.children@[k].idx - base] == a.children@[k].idx
                }
        }
    &&& new_roots.len() == roots.len()
    &&& forall|q: int|
        0 <= q < roots.len() ==> {
            let a = roots[q];
            let b = #[trigger] new_roots[q];
            &&& b.value == a.value
            &&& b.parent == a.parent
            &&& b.children@.len() == a.children@.len()
            &&& forall|k: int|
                0 <= k < a.children@.len() ==> {
                    &&& base <= #[trigger] b.children@[k].idx < base + n
                    &&& origin[b.children@[k].idx - base] == a.children@[k].idx
                }
        }
}

impl StopAndCopyHeap {
    /// A heap over `size` physical slots: two semi-spaces of `size / 2`
    /// slots, the lower one active.
    pub fn init(size: usize) -> (r: StopAndCopyHeap)
        ensures
            r.committed_memory@.len() == size,
            r.extent == size / 2,
            r.to_space == 0,
            r.from_space == size / 2,
            r.free == 0,
            r.top == size / 2,
            crate::mark_compact::all_empty(r.committed_memory@),
            r.inv(),
            region_ok(r.memory(), r.base(), r.cursor(), r.limit()),
    {
        let extent = size / 2;
        StopAndCopyHeap {
            from_space: extent,
            to_space: 0,
            extent,
            free: 0,
            top: extent,
            committed_memory: default_arena(size),
        }
    }

    /// Evacuates the node at `node_pointer` into to-space, unless it already
    /// carries a forwarding address; returns its to-space handle. The node
    /// trades slots with the one at `free`, and its old slot keeps the new
    /// address as forwarding address.
    pub fn copy(&mut self, node_pointer: NodePointer) -> (r: Result<NodePointer, GcError>)
        requires
            node_pointer.idx < old(self).committed_memory@.len(),
            old(self).committed_memory@[node_pointer.idx as int].forwarding_address is None ==> {
                &&& old(self).free < old(self).committed_memory@.len()
                &&& node_pointer.idx != old(self).free
            },
        ensures
            final(self).from_space == old(self).from_space,
            final(self).to_space == old(self).to_space,
            final(self).extent == old(self).extent,
            final(self).top == old(self).top,
            final(self).committed_memory@.len() == old(self).committed_memory@.len(),
            match old(self).committed_memory@[node_pointer.idx as int].forwarding_address {
                Some(t) => {
                    &&& r == Ok::<NodePointer, GcError>(t)
                    &&& final(self).free == old(self).free
                    &&& final(self).committed_memory@ == old(self).committed_memory@
                },
                None => {
                    let m = old(self).committed_memory@;
                    let n = final(self).committed_memory@;
                    let p = node_pointer.idx as int;
                    let f = old(self).free as int;
                    &&& r == Ok::<NodePointer, GcError>(NodePointer { idx: old(self).free })
                    &&& final(self).free == old(self).free + 1
                    &&& n[f].children@ == m[p].children@
                    &&& n[f].value == m[p].value
                    &&& n[f].parent == m[p].parent
                    &&& n[f].forwarding_address is None
                    &&& n[p].children@ == m[f].children@
                    &&& n[p].value == m[f].value
                    &&& n[p].parent == m[f].parent
                    &&& n[p].forwarding_address == Some(NodePointer { idx: old(self).free })
                    &&& forall|i: int| 0 <= i < m.len() && i != p && i != f ==> #[trigger] n[i] == m[i]
                },
            },
    {
        if let Some(forwarding_address) = self.committed_memory[node_pointer.idx].forwarding_address {
            Ok(forwarding_address)
        } else {
            let len = self.committed_memory.len();
            let f = self.free;
            let new_node_pointer = NodePointer { idx: f };
            swap_slots(&mut self.committed_memory, node_pointer.idx, new_node_pointer.idx);
            self.committed_memory[new_node_pointer.idx].forwarding_address = None;
            self.committed_memory[node_pointer.idx].forwarding_address = Some(new_node_pointer);
            proof {
                assert(f < len);
            }
            self.free = f + 1;
            Ok(new_node_pointer)
        }
    }
}


/// The state of a Cheney copy in progress. The old active region is
/// `[a_lo, a_hi)` of `orig`; `[to, free)` holds the copies made so far, the
/// copy at `to + t` of the node from `origin[t]`. The copied old slots `c`
/// carry the new address as forwarding address; the others are untouched.
#[verifier::opaque]
pub open spec fn copying(
    mem: Seq<Node>,
    orig: Seq<Node>,
    a_lo: int,
    a_hi: int,
    to: int,
    free: int,
    top: int,
    origin: Seq<int>,
    c: Set<int>,
    reach: Set<int>,
) -> bool {
    &&& mem.len() == orig.len()
    &&& mem.len() <= usize::MAX
    &&& 0 <= a_lo <= a_hi <= mem.len()
    &&& 0 <= to <= free <= top <= mem.len()
    &&& (a_hi <= to || top <= a_lo)
    &&& a_hi - a_lo <= top - to
    &&& closed(orig, a_lo, a_hi)
    &&& c.subset_of(slot_range(a_lo, a_hi))
    &&& c.finite()
    &&& c.len() == free - to
    &&& c.subset_of(reach)
    &&& origin.len() == free - to
    &&& forall|h: int| a_lo <= h < a_hi ==> ((#[trigger] mem[h]).forwarding_address is Some <==> c.contains(h))
    &&& forall|h: int| a_lo <= h < a_hi && (#[trigger] mem[h]).forwarding_address is None ==> mem[h] == orig[h]
    &&& forall|h: int|
        #[trigger] c.contains(h) ==> {
            let t = mem[h].forwarding_address->Some_0.idx as int;
            &&& to <= t < free
            &&& origin[t - to] == h
        }
    &&& forall|t: int|
        0 <= t < free - to ==> {
            let h = #[trigger] origin[t];
            &&& c.contains(h)
            &&& mem[h].forwarding_address == Some(NodePointer { idx: (to + t) as usize })
            &&& mem[to + t].value == orig[h].value
            &&& mem[to + t].parent == orig[h].parent
            &&& mem[to + t].forwarding_address is None
            &&& mem[to + t].children@.len() == orig[h].children@.len()
        }
}

/// Edge `k` of the copy at slot `t` has been rewritten: it names the
/// forwarding address of the target it had before the collection.
pub open spec fn edge_done(mem: Seq<Node>, orig: Seq<Node>, origin: Seq<int>, to: int, t: int, k: int) -> bool {
    let h = origin[t - to];
    mem[orig[h].children@[k].idx as int].forwarding_address == Some(mem[t].children@[k])
}

/// The copies in `[to, scan)` have all their edges rewritten; the copies in
/// `[scan, free)` still hold the edges they had before the collection.
pub open spec fn scanned(mem: Seq<Node>, orig: Seq<Node>, origin: Seq<int>, to: int, scan: int, free: int) -> bool {
    &&& to <= scan <= free
    &&& forall|t: int, k: int|
        to <= t < scan && 0 <= k < mem[t].children@.len() ==> #[trigger] edge_done(mem, orig, origin, to, t, k)
    &&& forall|t: int| scan <= t < free ==> (#[trigger] mem[t]).children@ == orig[origin[t - to]].children@
}

/// Root `q`'s edge `k` names the forwarding address of the target it had before the collection.
pub open spec fn root_done(mem: Seq<Node>, roots: Seq<Node>, oroots: Seq<Node>, q: int, k: int) -> bool {
    mem[oroots[q].children@[k].idx as int].forwarding_address == Some(roots[q].children@[k])
}

/// One evacuation of an uncopied old slot `h` keeps the copy state, and
/// leaves the copies made before and the copied old slots as they were.
proof fn lemma_copy_step(
    mem: Seq<Node>,
    mem2: Seq<Node>,
    orig: Seq<Node>,
    a_lo: int,
    a_hi: int,
    to: int,
    free: int,
    top: int,
    origin: Seq<int>,
    c: Set<int>,
    reach: Set<int>,
    h: int,
)
    requires
        copying(mem, orig, a_lo, a_hi, to, free, top, origin, c, reach),
        a_lo <= h < a_hi,
        mem[h].forwarding_address is None,
        reach.contains(h),
        free < mem.len(),
        mem2.len() == mem.len(),
        mem2[free].children@ == mem[h].children@,
        mem2[free].value == mem[h].value,
        mem2[free].parent == mem[h].parent,
        mem2[free].forwarding_address is None,
        mem2[h].forwarding_address == Some(NodePointer { idx: free as usize }),
        forall|i: int| 0 <= i < mem.len() && i != h && i != free ==> #[trigger] mem2[i] == mem[i],
    ensures
        free < top,
        copying(mem2, orig, a_lo, a_hi, to, free + 1, top, origin.push(h), c.insert(h), reach),
        forall|i: int| #[trigger] c.contains(i) ==> mem2[i] == mem[i],
        forall|t: int| to <= t < free ==> #[trigger] mem2[t] == mem[t],
        mem2[free].children@ == orig[h].children@,
{
    reveal(copying);
    assert(!c.contains(h));
    lemma_slot_range_len(a_lo, a_hi);
    vstd::set_lib::lemma_len_subset(c.insert(h), slot_range(a_lo, a_hi));
    lemma_slot_range_len(a_lo, a_hi);
    let c2 = c.insert(h);
    let o2 = origin.push(h);
    assert forall|i: int| #[trigger] c2.contains(i) implies {
        let t = mem2[i].forwarding_address->Some_0.idx as int;
        &&& to <= t < free + 1
        &&& o2[t - to] == i
    } by {
        if i != h {
            assert(mem2[i] == mem[i]);
        }
    }
    assert forall|t: int| 0 <= t < free + 1 - to implies {
        let g = #[trigger] o2[t];
        &&& c2.contains(g)
        &&& mem2[g].forwarding_address == Some(NodePointer { idx: (to + t) as usize })
        &&& mem2[to + t].value == orig[g].value
        &&& mem2[to + t].parent == orig[g].parent
        &&& mem2[to + t].forwarding_address is None
        &&& mem2[to + t].children@.len() == orig[g].children@.len()
    } by {
        if t < free - to {
            let g = origin[t];
            assert(c.contains(g));
            assert(mem2[g] == mem[g]);
            assert(mem2[to + t] == mem[to + t]);
        } else {
            assert(mem[h] == orig[h]);
        }
    }
    assert(mem[h] == orig[h]);
}

/// The roots reach only the old active region, and the old active region
/// only itself: so whatever a copy state with all edges rewritten has
/// copied is everything the roots reach.
proof fn lemma_copied_all(
    mem: Seq<Node>,
    orig: Seq<Node>,
    roots: Seq<Node>,
    oroots: Seq<Node>,
    a_lo: int,
    a_hi: int,
    to: int,
    free: int,
    top: int,
    origin: Seq<int>,
    c: Set<int>,
)
    requires
        copying(mem, orig, a_lo, a_hi, to, free, top, origin, c, live(orig, oroots)),
        scanned(mem, orig, origin, to, free, free),
        roots_into(oroots, a_lo, a_hi),
        roots.len() == oroots.len(),
        forall|q: int| 0 <= q < oroots.len() ==> (#[trigger] roots[q]).children@.len() == oroots[q].children@.len(),
        forall|q: int, k: int|
            0 <= q < oroots.len() && 0 <= k < oroots[q].children@.len() ==> #[trigger] root_done(mem, roots, oroots, q, k),
    ensures
        c == live(orig, oroots),
{
    reveal(copying);
    let s = live(orig, oroots);
    assert forall|j: int| root_targets(oroots).contains(j) implies c.contains(j) by {
        let (q, k) = choose|q: int, k: int|
            0 <= q < oroots.len() && 0 <= k < oroots[q].children@.len() && #[trigger] oroots[q].children@[k].idx == j;
        assert(root_done(mem, roots, oroots, q, k));
        assert(edges_into(oroots[q].children@, a_lo, a_hi));
    }
    assert forall|i: int, j: int| c.contains(i) && #[trigger] is_edge(orig, i, j) implies c.contains(j) by {
        let t = mem[i].forwarding_address->Some_0.idx as int;
        assert(origin[t - to] == i);
        let k = choose|k: int| 0 <= k < orig[i].children@.len() && #[trigger] orig[i].children@[k].idx == j;
        assert(mem[t].children@.len() == orig[i].children@.len());
        assert(edge_done(mem, orig, origin, to, t, k));
        assert(edges_into(orig[i].children@, a_lo, a_hi));
    }
    lemma_reach_within_closed(orig, root_targets(oroots), c);
    assert(c =~= s);
}


/// The slots of the handles `s`.
pub open spec fn idxs(s: Seq<NodePointer>) -> Seq<int> {
    s.map_values(|p: NodePointer| p.idx as int)
}

/// The breadth-first layout of a Cheney copy: the slots the roots reach, in
/// the order in which a breadth-first walk over the root handles (root by
/// root, child by child) first visits them.
pub open spec fn cheney_layout(mem: Seq<Node>, roots: Seq<Node>) -> Seq<int> {
    idxs(trace(mem, root_handles(roots), Set::empty(), walk_len_all(mem, root_handles(roots)), false))
}

/// The edges, in order, of the nodes that sat at `origin[a]`, ...,
/// `origin[b - 1]`.
pub open spec fn pending(orig: Seq<Node>, origin: Seq<int>, a: int, b: int) -> Seq<NodePointer>
    decreases b - a,
{
    if a >= b {
        seq![]
    } else {
        orig[origin[a]].children@ + pending(orig, origin, a + 1, b)
    }
}

/// A copy in progress is a breadth-first walk over the root handles: the
/// copies so far are the walk's first visits, `c` its visited set, and `q`
/// its worklist after `pops` handles were taken off.
pub open spec fn in_step(orig: Seq<Node>, roots: Seq<Node>, origin: Seq<int>, c: Set<int>, q: Seq<NodePointer>, pops: nat) -> bool {
    let rh = root_handles(roots);
    let total = walk_len_all(orig, rh);
    &&& pops + q.len() == rh.len() + degree_sum(orig, c, orig.len() as int)
    &&& pops <= total
    &&& origin + idxs(trace(orig, q, c, (total - pops) as nat, false)) == cheney_layout(orig, roots)
}

proof fn lemma_in_step_start(orig: Seq<Node>, roots: Seq<Node>)
    ensures
        in_step(orig, roots, seq![], Set::empty(), root_handles(roots), 0),
{
    lemma_sums_empty(orig, orig.len() as int);
    let rh = root_handles(roots);
    assert(seq![] + idxs(trace(orig, rh, Set::empty(), walk_len_all(orig, rh), false)) =~= cheney_layout(orig, roots));
}

/// One handle off the worklist: a visited slot is skipped; a new one is
/// visited and its edges join the worklist.
proof fn lemma_in_step_next(orig: Seq<Node>, roots: Seq<Node>, origin: Seq<int>, c: Set<int>, q: Seq<NodePointer>, pops: nat)
    requires
        in_step(orig, roots, origin, c, q, pops),
        q.len() > 0,
        0 <= q[0].idx < orig.len(),
        c.finite(),
        c.subset_of(live(orig, roots)),
    ensures
        c.contains(q[0].idx as int) ==> in_step(orig, roots, origin, c, q.subrange(1, q.len() as int), pops + 1),
        !c.contains(q[0].idx as int) ==> in_step(
            orig,
            roots,
            origin.push(q[0].idx as int),
            c.insert(q[0].idx as int),
            q.subrange(1, q.len() as int) + orig[q[0].idx as int].children@,
            pops + 1,
        ),
{
    let rh = root_handles(roots);
    let total = walk_len_all(orig, rh);
    let h = q[0];
    lemma_handle_set_roots(roots);
    lemma_degree_mono(orig, c, live(orig, roots), orig.len() as int);
    assert(total - pops >= 1);
    let fuel = (total - pops) as nat;
    let rest = q.subrange(1, q.len() as int);
    if c.contains(h.idx as int) {
        assert(trace(orig, q, c, fuel, false) == trace(orig, rest, c, (fuel - 1) as nat, false));
    } else {
        lemma_sums_insert(orig, c, h.idx as int, orig.len() as int);
        let c2 = c.insert(h.idx as int);
        let t2 = trace(orig, rest + orig[h.idx as int].children@, c2, (fuel - 1) as nat, false);
        assert(trace(orig, q, c, fuel, false) == seq![h] + t2);
        assert(idxs(seq![h] + t2) =~= seq![h.idx as int] + idxs(t2));
        assert(origin.push(h.idx as int) + idxs(t2) =~= origin + (seq![h.idx as int] + idxs(t2)));
    }
}

proof fn lemma_pending_push(orig: Seq<Node>, origin: Seq<int>, h: int, a: int)
    requires
        0 <= a <= origin.len(),
    ensures
        pending(orig, origin.push(h), a, (origin.len() + 1) as int) == pending(orig, origin, a, origin.len() as int) + orig[h].children@,
    decreases origin.len() - a,
{
    if a < origin.len() {
        lemma_pending_push(orig, origin, h, a + 1);
        assert(origin.push(h)[a] == origin[a]);
        assert(pending(orig, origin.push(h), a, (origin.len() + 1) as int) =~= pending(orig, origin, a, origin.len() as int)
            + orig[h].children@);
    } else {
        assert(pending(orig, origin, a, origin.len() as int) =~= seq![]);
        assert(pending(orig, origin.push(h), a + 1, (origin.len() + 1) as int) =~= seq![]);
        assert(pending(orig, origin.push(h), a, (origin.len() + 1) as int) =~= orig[h].children@);
    }
}

/// An uncopied old slot can still be copied: to-space has room, and the
/// slot is not the cursor.
proof fn lemma_room(
    mem: Seq<Node>,
    orig: Seq<Node>,
    a_lo: int,
    a_hi: int,
    to: int,
    free: int,
    top: int,
    origin: Seq<int>,
    c: Set<int>,
    reach: Set<int>,
    h: int,
)
    requires
        copying(mem, orig, a_lo, a_hi, to, free, top, origin, c, reach),
        a_lo <= h < a_hi,
        mem[h].forwarding_address is None,
    ensures
        free < top,
        h != free,
{
    reveal(copying);
    assert(!c.contains(h));
    lemma_slot_range_len(a_lo, a_hi);
    vstd::set_lib::lemma_len_subset(c.insert(h), slot_range(a_lo, a_hi));
}

/// What a copy state tells about the old region and the copies.
proof fn lemma_copying_facts(
    mem: Seq<Node>,
    orig: Seq<Node>,
    a_lo: int,
    a_hi: int,
    to: int,
    free: int,
    top: int,
    origin: Seq<int>,
    c: Set<int>,
    reach: Set<int>,
)
    requires
        copying(mem, orig, a_lo, a_hi, to, free, top, origin, c, reach),
    ensures
        mem.len() == orig.len(),
        0 <= a_lo <= a_hi <= mem.len(),
        0 <= to <= free <= top <= mem.len(),
        a_hi <= to || top <= a_lo,
        closed(orig, a_lo, a_hi),
        c.subset_of(reach),
        c.finite(),
        origin.len() == free - to,
        forall|h: int| a_lo <= h < a_hi ==> ((#[trigger] mem[h]).forwarding_address is Some <==> c.contains(h)),
        forall|h: int| #[trigger] c.contains(h) ==> a_lo <= h < a_hi,
        forall|t: int|
            0 <= t < free - to ==> {
                &&& c.contains(#[trigger] origin[t])
                &&& mem[to + t].children@.len() == orig[origin[t]].children@.len()
            },
{
    reveal(copying);
}

/// An empty copy into a fresh to-space.
proof fn lemma_copying_start(
    mem: Seq<Node>,
    a_lo: int,
    a_hi: int,
    to: int,
    top: int,
    reach: Set<int>,
)
    requires
        mem.len() <= usize::MAX,
        0 <= a_lo <= a_hi <= mem.len(),
        0 <= to <= top <= mem.len(),
        a_hi <= to || top <= a_lo,
        a_hi - a_lo <= top - to,
        closed(mem, a_lo, a_hi),
        unmarked(mem, a_lo, a_hi),
    ensures
        copying(mem, mem, a_lo, a_hi, to, to, top, Seq::empty(), Set::empty(), reach),
        scanned(mem, mem, Seq::empty(), to, to, to),
{
    reveal(copying);
}

/// At the end of a copy, with every edge and every root rewritten, the
/// to-space holds exactly the live nodes, well formed.
proof fn lemma_finish(
    mem: Seq<Node>,
    orig: Seq<Node>,
    roots: Seq<Node>,
    oroots: Seq<Node>,
    a_lo: int,
    a_hi: int,
    to: int,
    free: int,
    top: int,
    origin: Seq<int>,
    c: Set<int>,
)
    requires
        copying(mem, orig, a_lo, a_hi, to, free, top, origin, c, live(orig, oroots)),
        scanned(mem, orig, origin, to, free, free),
        roots_into(oroots, a_lo, a_hi),
        roots.len() == oroots.len(),
        forall|q: int|
            0 <= q < oroots.len() ==> {
                &&& (#[trigger] roots[q]).value == oroots[q].value
                &&& roots[q].parent == oroots[q].parent
                &&& roots[q].children@.len() == oroots[q].children@.len()
            },
        forall|q: int, k: int|
            0 <= q < oroots.len() && 0 <= k < oroots[q].children@.len() ==> #[trigger] root_done(mem, roots, oroots, q, k),
    ensures
        evacuated(orig, oroots, mem, roots, to, free - to, origin),
        region_ok(mem, to, free, top),
        roots_into(roots, to, free),
{
    lemma_copied_all(mem, orig, roots, oroots, a_lo, a_hi, to, free, top, origin, c);
    reveal(copying);
    let s = live(orig, oroots);
    assert forall|t: int, u: int| 0 <= t < free - to && 0 <= u < free - to && t != u implies origin[t] != origin[u] by {
        assert(mem[origin[t]].forwarding_address == Some(NodePointer { idx: (to + t) as usize }));
        assert(mem[origin[u]].forwarding_address == Some(NodePointer { idx: (to + u) as usize }));
    }
    assert forall|t: int| 0 <= t < free - to implies {
        let a = orig[#[trigger] origin[t]];
        let b = mem[to + t];
        &&& b.value == a.value
        &&& b.parent == a.parent
        &&& b.forwarding_address is None
        &&& b.children@.len() == a.children@.len()
        &&& forall|k: int|
            0 <= k < a.children@.len() ==> {
                &&& to <= #[trigger] b.children@[k].idx < to + (free - to)
                &&& origin[b.children@[k].idx - to] == a.children@[k].idx
            }
    } by {
        let a = orig[origin[t]];
        let b = mem[to + t];
        assert forall|k: int| 0 <= k < a.children@.len() implies {
            &&& to <= #[trigger] b.children@[k].idx < to + (free - to)
            &&& origin[b.children@[k].idx - to] == a.children@[k].idx
        } by {
            assert(edge_done(mem, orig, origin, to, to + t, k));
            assert(edges_into(orig[origin[t]].children@, a_lo, a_hi));
            assert(c.contains(a.children@[k].idx as int));
        }
    }
    assert forall|q: int| 0 <= q < oroots.len() implies {
        let a = oroots[q];
        let b = #[trigger] roots[q];
        &&& b.value == a.value
        &&& b.parent == a.parent
        &&& b.children@.len() == a.children@.len()
        &&& forall|k: int|
            0 <= k < a.children@.len() ==> {
                &&& to <= #[trigger] b.children@[k].idx < to + (free - to)
                &&& origin[b.children@[k].idx - to] == a.children@[k].idx
            }
    } by {
        let a = oroots[q];
        let b = roots[q];
        assert forall|k: int| 0 <= k < a.children@.len() implies {
            &&& to <= #[trigger] b.children@[k].idx < to + (free - to)
            &&& origin[b.children@[k].idx - to] == a.children@[k].idx
        } by {
            assert(root_done(mem, roots, oroots, q, k));
            assert(edges_into(oroots[q].children@, a_lo, a_hi));
            assert(c.contains(a.children@[k].idx as int));
        }
    }
    assert forall|j: int| #[trigger] s.contains(j) implies exists|t: int| 0 <= t < free - to && origin[t] == j by {
        let t = mem[j].forwarding_address->Some_0.idx as int;
        assert(origin[t - to] == j);
    }
    assert(evacuated(orig, oroots, mem, roots, to, free - to, origin));
    assert forall|t: int| to <= t < free implies edges_into(#[trigger] mem[t].children@, to, free) by {
        assert(origin[t - to] == origin[t - to]);
        let a = orig[origin[t - to]];
        assert forall|k: int| 0 <= k < mem[t].children@.len() implies to <= #[trigger] mem[t].children@[k].idx < free by {
            assert(edge_done(mem, orig, origin, to, t, k));
            assert(edges_into(a.children@, a_lo, a_hi));
            assert(c.contains(a.children@[k].idx as int));
        }
    }
    assert forall|t: int| to <= t < free implies (#[trigger] mem[t]).forwarding_address is None by {
        let u = t - to;
        assert(0 <= u < free - to);
        assert(c.contains(origin[u]));
        assert(mem[to + u].forwarding_address is None);
        assert(to + u == t);
    }
    assert forall|q: int| 0 <= q < roots.len() implies edges_into(#[trigger] roots[q].children@, to, free) by {
        assert forall|k: int| 0 <= k < roots[q].children@.len() implies to <= #[trigger] roots[q].children@[k].idx < free by {
            assert(root_done(mem, roots, oroots, q, k));
            assert(edges_into(oroots[q].children@, a_lo, a_hi));
            assert(c.contains(oroots[q].children@[k].idx as int));
        }
    }
}

/// Rewriting the edges of a copy, keeping their number, keeps the copy state.
proof fn lemma_copying_set_child(
    mem: Seq<Node>,
    mem2: Seq<Node>,
    orig: Seq<Node>,
    a_lo: int,
    a_hi: int,
    to: int,
    free: int,
    top: int,
    origin: Seq<int>,
    c: Set<int>,
    reach: Set<int>,
    t: int,
)
    requires
        copying(mem, orig, a_lo, a_hi, to, free, top, origin, c, reach),
        to <= t < free,
        mem2.len() == mem.len(),
        forall|i: int| 0 <= i < mem.len() && i != t ==> #[trigger] mem2[i] == mem[i],
        mem2[t].value == mem[t].value,
        mem2[t].parent == mem[t].parent,
        mem2[t].forwarding_address == mem[t].forwarding_address,
        mem2[t].children@.len() == mem[t].children@.len(),
    ensures
        copying(mem2, orig, a_lo, a_hi, to, free, top, origin, c, reach),
{
    reveal(copying);
    assert forall|h: int| #[trigger] c.contains(h) implies mem2[h] == mem[h] by {
    }
    assert forall|u: int| 0 <= u < free - to implies {
        let h = #[trigger] origin[u];
        &&& c.contains(h)
        &&& mem2[h].forwarding_address == Some(NodePointer { idx: (to + u) as usize })
        &&& mem2[to + u].value == orig[h].value
        &&& mem2[to + u].parent == orig[h].parent
        &&& mem2[to + u].forwarding_address is None
        &&& mem2[to + u].children@.len() == orig[h].children@.len()
    } by {
        let h = origin[u];
        assert(mem2[h] == mem[h]);
    }
}

/// Sets edge `k` of slot `t` to `v`, leaving all else as it was.
fn set_child(mem: &mut Vec<Node>, t: usize, k: usize, v: NodePointer)
    requires
        t < old(mem)@.len(),
        k < old(mem)@[t as int].children@.len(),
    ensures
        final(mem)@.len() == old(mem)@.len(),
        forall|i: int| 0 <= i < old(mem)@.len() && i != t ==> #[trigger] final(mem)@[i] == old(mem)@[i],
        final(mem)@[t as int].value == old(mem)@[t as int].value,
        final(mem)@[t as int].parent == old(mem)@[t as int].parent,
        final(mem)@[t as int].forwarding_address == old(mem)@[t as int].forwarding_address,
        final(mem)@[t as int].children@ == old(mem)@[t as int].children@.update(k as int, v),
{
    mem[t].children[k] = v;
}

impl MemoryManager for StopAndCopyHeap {
    open spec fn memory(&self) -> Seq<Node> {
        self.committed_memory@
    }

    open spec fn base(&self) -> int {
        self.to_space as int
    }

    open spec fn cursor(&self) -> int {
        self.free as int
    }

    open spec fn limit(&self) -> int {
        self.top as int
    }

    open spec fn inv(&self) -> bool {
        spaces_ok(
            self.from_space as int,
            self.to_space as int,
            self.extent as int,
            self.free as int,
            self.top as int,
            self.committed_memory@.len() as int,
        )
    }

    open spec fn collected(&self, roots: Seq<Node>, after: Self, new_roots: Seq<Node>) -> bool {
        &&& after.to_space == self.from_space
        &&& after.from_space == self.to_space
        &&& after.extent == self.extent
        &&& evacuated(
            self.committed_memory@,
            roots,
            after.committed_memory@,
            new_roots,
            after.to_space as int,
            after.free - after.to_space,
            cheney_layout(self.committed_memory@, roots),
        )
    }

    fn allocate(&mut self, node: Node, stack: &mut Stack) -> (r: Result<NodePointer, GcError>) {
        let ghost mut mid = *self;
        let ghost mut mid_roots = stack.roots@;
        if self.free >= self.top {
            let _ = self.collect(stack);
            proof {
                mid = *self;
                mid_roots = stack.roots@;
            }
        }
        if self.free >= self.top {
            proof {
                assert(old(self).cursor() == old(self).limit() ==> old(self).collected(old(stack).roots@, mid, mid_roots));
            }
            return Err(GcError::HeapExhausted);
        }
        proof {
            crate::mark_compact::lemma_place_fresh(
                self.committed_memory@,
                stack.roots@,
                self.to_space as int,
                self.free as int,
                self.top as int,
                node,
            );
            crate::graph::lemma_live_in_region(self.committed_memory@, stack.roots@, self.to_space as int, self.free as int);
            crate::laws::lemma_place_keeps_live(
                self.committed_memory@,
                stack.roots@,
                self.to_space as int,
                self.free as int,
                self.top as int,
                node,
            );
        }
        let p = NodePointer { idx: self.free };
        self.committed_memory[p.idx] = node;
        self.free = self.free + 1;
        proof {
            assert(old(self).cursor() == old(self).limit() ==> old(self).collected(old(stack).roots@, mid, mid_roots));
        }
        Ok(p)
    }

    #[verifier::rlimit(100)]
    fn collect(&mut self, stack: &mut Stack) -> (r: Result<(), GcError>) {
        let ghost orig = self.committed_memory@;
        let ghost oroots = stack.roots@;
        let ghost a_lo = self.to_space as int;
        let ghost a_hi = self.free as int;
        let ghost s = live(orig, oroots);
        let len = self.committed_memory.len();
        proof {
            lemma_live_in_region(orig, oroots, a_lo, a_hi);
        }
        let old_from = self.from_space;
        self.from_space = self.to_space;
        self.to_space = old_from;
        self.free = self.to_space;
        self.top = self.to_space + self.extent;
        let mut scan = self.free;
        let ghost to0 = self.to_space;
        let ghost top0 = self.top;
        let ghost mut origin: Seq<int> = Seq::empty();
        let ghost mut c: Set<int> = Set::empty();
        let ghost mut pops: nat = 0;
        proof {
            lemma_copying_start(orig, a_lo, a_hi, self.to_space as int, self.top as int, s);
            lemma_in_step_start(orig, oroots);
            assert(oroots.subrange(0, oroots.len() as int) =~= oroots);
            assert(pending(orig, origin, 0, 0) =~= seq![]);
            assert(root_handles(oroots) + pending(orig, origin, 0, 0) =~= root_handles(oroots));
        }
        let mut q: usize = 0;
        while q < stack.roots.len()
            invariant
                spaces_ok(self.from_space as int, self.to_space as int, self.extent as int, self.free as int, self.top as int, len as int),
                self.committed_memory@.len() == len,
                self.from_space == a_lo,
                self.to_space == to0,
                self.top == top0,
                self.extent == old(self).extent,
                copying(self.committed_memory@, orig, a_lo, a_hi, self.to_space as int, self.free as int, self.top as int, origin, c, s),
                scanned(self.committed_memory@, orig, origin, self.to_space as int, self.to_space as int, self.free as int),
                scan == self.to_space,
                s == live(orig, oroots),
                roots_into(oroots, a_lo, a_hi),
                stack.roots@.len() == oroots.len(),
                q <= oroots.len(),
                s.subset_of(slot_range(0, len as int)),
                in_step(orig, oroots, origin, c, root_handles(oroots.subrange(q as int, oroots.len() as int)) + pending(orig, origin, 0, origin.len() as int), pops),
                forall|q2: int|
                    0 <= q2 < oroots.len() ==> {
                        &&& (#[trigger] stack.roots@[q2]).value == oroots[q2].value
                        &&& stack.roots@[q2].parent == oroots[q2].parent
                        &&& stack.roots@[q2].children@.len() == oroots[q2].children@.len()
                    },
                forall|q2: int, k: int|
                    0 <= q2 < q && 0 <= k < oroots[q2].children@.len() ==> #[trigger] root_done(
                        self.committed_memory@,
                        stack.roots@,
                        oroots,
                        q2,
                        k,
                    ),
                forall|q2: int| q <= q2 < oroots.len() ==> #[trigger] stack.roots@[q2] == oroots[q2],
            decreases oroots.len() - q,
        {
            let mut k: usize = 0;
            proof {
                let sub = oroots.subrange(q as int, oroots.len() as int);
                lemma_root_handles_cons(sub);
                assert(sub.subrange(1, sub.len() as int) =~= oroots.subrange(q + 1, oroots.len() as int));
                assert(sub[0] == oroots[q as int]);
                let ch = oroots[q as int].children@;
                assert(ch.subrange(0, ch.len() as int) =~= ch);
                assert(root_handles(sub) + pending(orig, origin, 0, origin.len() as int) =~= ch.subrange(0, ch.len() as int)
                    + root_handles(oroots.subrange(q + 1, oroots.len() as int)) + pending(orig, origin, 0, origin.len() as int));
            }
            while k < stack.roots[q].children.len()
                invariant
                    spaces_ok(self.from_space as int, self.to_space as int, self.extent as int, self.free as int, self.top as int, len as int),
                    self.committed_memory@.len() == len,
                    self.from_space == a_lo,
                    self.to_space == to0,
                    self.top == top0,
                    self.extent == old(self).extent,
                    copying(self.committed_memory@, orig, a_lo, a_hi, self.to_space as int, self.free as int, self.top as int, origin, c, s),
                    scanned(self.committed_memory@, orig, origin, self.to_space as int, self.to_space as int, self.free as int),
                    scan == self.to_space,
                    s == live(orig, oroots),
                    roots_into(oroots, a_lo, a_hi),
                    stack.roots@.len() == oroots.len(),
                    q < oroots.len(),
                    k <= oroots[q as int].children@.len(),
                    s.subset_of(slot_range(0, len as int)),
                    in_step(orig, oroots, origin, c, oroots[q as int].children@.subrange(k as int, oroots[q as int].children@.len() as int) + root_handles(oroots.subrange(q + 1, oroots.len() as int)) + pending(orig, origin, 0, origin.len() as int), pops),
                    forall|q2: int|
                        0 <= q2 < oroots.len() ==> {
                            &&& (#[trigger] stack.roots@[q2]).value == oroots[q2].value
                            &&& stack.roots@[q2].parent == oroots[q2].parent
                            &&& stack.roots@[q2].children@.len() == oroots[q2].children@.len()
                        },
                    forall|q2: int, k2: int|
                        ((0 <= q2 < q && 0 <= k2 < oroots[q2].children@.len()) || (q2 == q && 0 <= k2 < k)) ==> #[trigger] root_done(
                            self.committed_memory@,
                            stack.roots@,
                            oroots,
                            q2,
                            k2,
                        ),
                    forall|k2: int|
                        k <= k2 < oroots[q as int].children@.len() ==> #[trigger] stack.roots@[q as int].children@[k2]
                            == oroots[q as int].children@[k2],
                    forall|q2: int| q < q2 < oroots.len() ==> #[trigger] stack.roots@[q2] == oroots[q2],
                decreases oroots[q as int].children@.len() - k,
            {
                let child = stack.roots[q].children[k];
                let ghost m0 = self.committed_memory@;
                let ghost h = child.idx as int;
                proof {
                    lemma_copying_facts(m0, orig, a_lo, a_hi, self.to_space as int, self.free as int, self.top as int, origin, c, s);
                    assert(edges_into(oroots[q as int].children@, a_lo, a_hi));
                    assert(oroots[q as int].children@[k as int] == child);
                    assert(root_targets(oroots).contains(h));
                    lemma_source_reachable(orig, root_targets(oroots), h);
                    if m0[h].forwarding_address is None {
                        lemma_room(m0, orig, a_lo, a_hi, self.to_space as int, self.free as int, self.top as int, origin, c, s, h);
                    }
                }
                let ghost f0 = self.free as int;
                let ghost origin_b = origin;
                let ghost c_b = c;
                let ghost qq = oroots[q as int].children@.subrange(k as int, oroots[q as int].children@.len() as int) + root_handles(oroots.subrange(q + 1, oroots.len() as int)) + pending(orig, origin, 0, origin.len() as int);
                proof {
                    lemma_copying_facts(m0, orig, a_lo, a_hi, self.to_space as int, self.free as int, self.top as int, origin, c, s);
                    assert(qq[0] == child);
                    lemma_in_step_next(orig, oroots, origin, c, qq, pops);
                }
                let n = match self.copy(child) {
                    Ok(n) => n,
                    Err(e) => return Err(e),
                };
                proof {
                    if m0[h].forwarding_address is None {
                        lemma_copying_facts(m0, orig, a_lo, a_hi, self.to_space as int, f0, self.top as int, origin, c, s);
                        lemma_copy_step(m0, self.committed_memory@, orig, a_lo, a_hi, self.to_space as int, f0, self.top as int, origin, c, s, h);
                        let c0 = c;
                        origin = origin.push(h);
                        c = c.insert(h);
                        assert forall|q2: int, k2: int|
                            ((0 <= q2 < q && 0 <= k2 < oroots[q2].children@.len()) || (q2 == q && 0 <= k2 < k)) implies #[trigger] root_done(
                                self.committed_memory@,
                                stack.roots@,
                                oroots,
                                q2,
                                k2,
                            ) by {
                            assert(root_done(m0, stack.roots@, oroots, q2, k2));
                            let g = oroots[q2].children@[k2].idx as int;
                            assert(edges_into(oroots[q2].children@, a_lo, a_hi));
                            assert(c0.contains(g));
                        }
                        assert forall|t: int| self.to_space <= t < self.free implies (#[trigger] self.committed_memory@[t]).children@
                            == orig[origin[t - self.to_space]].children@ by {
                            if t < f0 {
                                assert(self.committed_memory@[t] == m0[t]);
                            }
                        }
                    }
                }
                proof {
                    let ch = oroots[q as int].children@;
                    let tail = ch.subrange(k + 1, ch.len() as int) + root_handles(oroots.subrange(q + 1, oroots.len() as int));
                    if m0[h].forwarding_address is None {
                        lemma_pending_push(orig, origin_b, h, 0);
                        assert(qq.subrange(1, qq.len() as int) + orig[h].children@ =~= tail + pending(orig, origin, 0, origin.len() as int));
                    } else {
                        assert(qq.subrange(1, qq.len() as int) =~= tail + pending(orig, origin, 0, origin.len() as int));
                    }
                    pops = pops + 1;
                }
                let ghost rb = stack.roots@;
                stack.roots[q].children[k] = n;
                proof {
                    assert forall|q2: int, k2: int|
                        ((0 <= q2 < q && 0 <= k2 < oroots[q2].children@.len()) || (q2 == q && 0 <= k2 < k + 1)) implies #[trigger] root_done(
                            self.committed_memory@,
                            stack.roots@,
                            oroots,
                            q2,
                            k2,
                        ) by {
                        if !(q2 == q && k2 == k) {
                            assert(root_done(self.committed_memory@, rb, oroots, q2, k2));
                            assert(stack.roots@[q2].children@[k2] == rb[q2].children@[k2]);
                        }
                    }
                }
                k = k + 1;
            }
            proof {
                let ch = oroots[q as int].children@;
                assert(ch.subrange(ch.len() as int, ch.len() as int) =~= seq![]);
                assert(ch.subrange(k as int, ch.len() as int) + root_handles(oroots.subrange(q + 1, oroots.len() as int))
                    + pending(orig, origin, 0, origin.len() as int) =~= root_handles(oroots.subrange(q + 1, oroots.len() as int))
                    + pending(orig, origin, 0, origin.len() as int));
            }
            q = q + 1;
        }
        proof {
            assert(oroots.subrange(oroots.len() as int, oroots.len() as int) =~= seq![]);
            assert(root_handles(oroots.subrange(q as int, oroots.len() as int)) =~= seq![]);
            assert(root_handles(oroots.subrange(q as int, oroots.len() as int)) + pending(orig, origin, 0, origin.len() as int)
                =~= pending(orig, origin, scan - to0, origin.len() as int));
        }
        while scan < self.free
            invariant
                spaces_ok(self.from_space as int, self.to_space as int, self.extent as int, self.free as int, self.top as int, len as int),
                self.committed_memory@.len() == len,
                self.from_space == a_lo,
                self.to_space == to0,
                self.top == top0,
                self.extent == old(self).extent,
                copying(self.committed_memory@, orig, a_lo, a_hi, self.to_space as int, self.free as int, self.top as int, origin, c, s),
                scanned(self.committed_memory@, orig, origin, self.to_space as int, scan as int, self.free as int),
                s == live(orig, oroots),
                s.subset_of(slot_range(0, len as int)),
                in_step(orig, oroots, origin, c, pending(orig, origin, scan - to0, origin.len() as int), pops),
                roots_into(oroots, a_lo, a_hi),
                stack.roots@.len() == oroots.len(),
                forall|q2: int|
                    0 <= q2 < oroots.len() ==> {
                        &&& (#[trigger] stack.roots@[q2]).value == oroots[q2].value
                        &&& stack.roots@[q2].parent == oroots[q2].parent
                        &&& stack.roots@[q2].children@.len() == oroots[q2].children@.len()
                    },
                forall|q2: int, k: int|
                    0 <= q2 < oroots.len() && 0 <= k < oroots[q2].children@.len() ==> #[trigger] root_done(
                        self.committed_memory@,
                        stack.roots@,
                        oroots,
                        q2,
                        k,
                    ),
            decreases self.top - scan,
        {
            let ghost hs = origin[scan - self.to_space];
            let mut k: usize = 0;
            proof {
                lemma_copying_facts(self.committed_memory@, orig, a_lo, a_hi, self.to_space as int, self.free as int, self.top as int, origin, c, s);
                let ch = orig[hs].children@;
                assert(ch.subrange(0, ch.len() as int) =~= ch);
                assert(pending(orig, origin, scan - to0, origin.len() as int) == ch + pending(orig, origin, scan - to0 + 1, origin.len() as int));
            }
            while k < self.committed_memory[scan].children.len()
                invariant
                    spaces_ok(self.from_space as int, self.to_space as int, self.extent as int, self.free as int, self.top as int, len as int),
                    self.committed_memory@.len() == len,
                    self.from_space == a_lo,
                    self.to_space == to0,
                    self.top == top0,
                    self.extent == old(self).extent,
                    copying(self.committed_memory@, orig, a_lo, a_hi, self.to_space as int, self.free as int, self.top as int, origin, c, s),
                    self.to_space <= scan < self.free,
                    hs == origin[scan - self.to_space],
                    s.subset_of(slot_range(0, len as int)),
                    in_step(orig, oroots, origin, c, orig[hs].children@.subrange(k as int, orig[hs].children@.len() as int) + pending(orig, origin, scan - to0 + 1, origin.len() as int), pops),
                    forall|t: int, k2: int|
                        self.to_space <= t < scan && 0 <= k2 < self.committed_memory@[t].children@.len() ==> #[trigger] edge_done(
                            self.committed_memory@,
                            orig,
                            origin,
                            self.to_space as int,
                            t,
                            k2,
                        ),
                    forall|t: int|
                        scan < t < self.free ==> (#[trigger] self.committed_memory@[t]).children@ == orig[origin[t - self.to_space]].children@,
                    k <= self.committed_memory@[scan as int].children@.len(),
                    self.committed_memory@[scan as int].children@.len() == orig[hs].children@.len(),
                    forall|k2: int|
                        0 <= k2 < k ==> #[trigger] edge_done(self.committed_memory@, orig, origin, self.to_space as int, scan as int, k2),
                    forall|k2: int|
                        k <= k2 < orig[hs].children@.len() ==> #[trigger] self.committed_memory@[scan as int].children@[k2]
                            == orig[hs].children@[k2],
                    s == live(orig, oroots),
                    roots_into(oroots, a_lo, a_hi),
                    stack.roots@.len() == oroots.len(),
                    forall|q2: int, k2: int|
                        0 <= q2 < oroots.len() && 0 <= k2 < oroots[q2].children@.len() ==> #[trigger] root_done(
                            self.committed_memory@,
                            stack.roots@,
                            oroots,
                            q2,
                            k2,
                        ),
                decreases orig[hs].children@.len() - k,
            {
                let child = self.committed_memory[scan].children[k];
                let ghost m0 = self.committed_memory@;
                let ghost h = child.idx as int;
                proof {
                    lemma_copying_facts(m0, orig, a_lo, a_hi, self.to_space as int, self.free as int, self.top as int, origin, c, s);
                    assert(c.contains(hs));
                    assert(edges_into(orig[hs].children@, a_lo, a_hi));
                    assert(orig[hs].children@[k as int] == child);
                    assert(is_edge(orig, hs, h));
                    lemma_edge_reachable(orig, root_targets(oroots), hs, h);
                    if m0[h].forwarding_address is None {
                        lemma_room(m0, orig, a_lo, a_hi, self.to_space as int, self.free as int, self.top as int, origin, c, s, h);
                    }
                }
                let ghost f0 = self.free as int;
                let ghost origin_s = origin;
                let ghost qq = orig[hs].children@.subrange(k as int, orig[hs].children@.len() as int) + pending(orig, origin, scan - to0 + 1, origin.len() as int);
                proof {
                    assert(qq[0] == orig[hs].children@[k as int]);
                    lemma_in_step_next(orig, oroots, origin, c, qq, pops);
                }
                let n = match self.copy(child) {
                    Ok(n) => n,
                    Err(e) => return Err(e),
                };
                let ghost m1 = self.committed_memory@;
                let ghost c0 = c;
                let ghost origin0 = origin;
                proof {
                    lemma_copying_facts(m0, orig, a_lo, a_hi, self.to_space as int, f0, self.top as int, origin, c, s);
                    if m0[h].forwarding_address is None {
                        lemma_copy_step(m0, m1, orig, a_lo, a_hi, self.to_space as int, f0, self.top as int, origin, c, s, h);
                        origin = origin.push(h);
                        c = c.insert(h);
                    }
                }
                proof {
                    let ch = orig[hs].children@;
                    let st = scan - to0 + 1;
                    if m0[h].forwarding_address is None {
                        lemma_pending_push(orig, origin_s, h, st);
                        assert(qq.subrange(1, qq.len() as int) + orig[h].children@ =~= ch.subrange(k + 1, ch.len() as int)
                            + pending(orig, origin, st, origin.len() as int));
                    } else {
                        assert(qq.subrange(1, qq.len() as int) =~= ch.subrange(k + 1, ch.len() as int) + pending(
                            orig,
                            origin,
                            st,
                            origin.len() as int,
                        ));
                    }
                    pops = pops + 1;
                }
                set_child(&mut self.committed_memory, scan, k, n);
                proof {
                    let m2 = self.committed_memory@;
                    let to = self.to_space as int;
                    lemma_copying_set_child(m1, m2, orig, a_lo, a_hi, to, self.free as int, self.top as int, origin, c, s, scan as int);
                    if m0[h].forwarding_address is None {
                        assert forall|t: int, k2: int|
                            to <= t < scan && 0 <= k2 < m2[t].children@.len() implies #[trigger] edge_done(m2, orig, origin, to, t, k2) by {
                            assert(edge_done(m0, orig, origin0, to, t, k2));
                            let g = orig[origin0[t - to]].children@[k2].idx as int;
                            assert(c0.contains(origin0[t - to]));
                            assert(edges_into(orig[origin0[t - to]].children@, a_lo, a_hi));
                            assert(c0.contains(g));
                            assert(m1[g] == m0[g]);
                            assert(m1[t] == m0[t]);
                        }
                        assert forall|k2: int| 0 <= k2 < k + 1 implies #[trigger] edge_done(m2, orig, origin, to, scan as int, k2) by {
                            if k2 < k {
                                assert(edge_done(m0, orig, origin0, to, scan as int, k2));
                                let g = orig[hs].children@[k2].idx as int;
                                assert(c0.contains(hs));
                                assert(edges_into(orig[hs].children@, a_lo, a_hi));
                                assert(c0.contains(g));
                                assert(m1[g] == m0[g]);
                            }
                        }
                        assert forall|t: int| scan < t < self.free implies (#[trigger] m2[t]).children@ == orig[origin[t - to]].children@ by {
                            if t < f0 {
                                assert(m1[t] == m0[t]);
                            }
                        }
                        assert forall|q2: int, k2: int|
                            0 <= q2 < oroots.len() && 0 <= k2 < oroots[q2].children@.len() implies #[trigger] root_done(
                                m2,
                                stack.roots@,
                                oroots,
                                q2,
                                k2,
                            ) by {
                            assert(root_done(m0, stack.roots@, oroots, q2, k2));
                            let g = oroots[q2].children@[k2].idx as int;
                            assert(edges_into(oroots[q2].children@, a_lo, a_hi));
                            assert(c0.contains(g));
                            assert(m1[g] == m0[g]);
                        }
                    } else {
                        assert forall|t: int, k2: int|
                            to <= t < scan && 0 <= k2 < m2[t].children@.len() implies #[trigger] edge_done(m2, orig, origin, to, t, k2) by {
                            assert(edge_done(m0, orig, origin0, to, t, k2));
                        }
                        assert forall|k2: int| 0 <= k2 < k + 1 implies #[trigger] edge_done(m2, orig, origin, to, scan as int, k2) by {
                            if k2 < k {
                                assert(edge_done(m0, orig, origin0, to, scan as int, k2));
                            }
                        }
                        assert forall|q2: int, k2: int|
                            0 <= q2 < oroots.len() && 0 <= k2 < oroots[q2].children@.len() implies #[trigger] root_done(
                                m2,
                                stack.roots@,
                                oroots,
                                q2,
                                k2,
                            ) by {
                            assert(root_done(m0, stack.roots@, oroots, q2, k2));
                        }
                    }
                }
                k = k + 1;
            }
            proof {
                let ch = orig[hs].children@;
                assert(ch.subrange(k as int, ch.len() as int) + pending(orig, origin, scan - to0 + 1, origin.len() as int)
                    =~= pending(orig, origin, scan - to0 + 1, origin.len() as int));
            }
            scan = scan + 1;
        }
        proof {
            let to = self.to_space as int;
            let mem = self.committed_memory@;
            lemma_finish(mem, orig, stack.roots@, oroots, a_lo, a_hi, to, self.free as int, self.top as int, origin, c);
            lemma_copying_facts(mem, orig, a_lo, a_hi, to, self.free as int, self.top as int, origin, c, s);
            let rh = root_handles(oroots);
            let total = walk_len_all(orig, rh);
            assert(pending(orig, origin, scan - to0, origin.len() as int) =~= seq![]);
            assert(trace(orig, seq![], c, (total - pops) as nat, false) =~= seq![]);
            assert(origin =~= origin + idxs(trace(orig, seq![], c, (total - pops) as nat, false)));
            assert(origin == cheney_layout(orig, oroots));
            crate::laws::lemma_evacuation_keeps_live_count(orig, oroots, mem, stack.roots@, to, self.free - to, origin);
        }
        Ok(())
    }

    fn get(&self, node_pointer: NodePointer) -> (r: Option<&Node>) {
        if node_pointer.idx < self.committed_memory.len() {
            Some(&self.committed_memory[node_pointer.idx])
        } else {
            None
        }
    }

    fn get_mut(&mut self, node_pointer: NodePointer) -> (r: Option<&mut Node>) {
        if node_pointer.idx < self.committed_memory.len() {
            Some(&mut self.committed_memory[node_pointer.idx])
        } else {
            None
        }
    }

    fn node_pointer_from_usize(&self, idx: usize) -> (r: NodePointer) {
        NodePointer { idx }
    }

    fn free(&self) -> (r: usize) {
        self.free - self.to_space
    }

    fn heap_size(&self) -> (r: usize) {
        self.extent
    }

    fn committed_memory(&self) -> (r: &[Node]) {
        self.committed_memory.as_slice()
    }
}

} // verus!
