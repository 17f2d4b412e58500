use vstd::prelude::*;

use crate::node::{Node, NodePointer};

verus! {

/// Every handle in `es` lies in the slot range `[lo, hi)`.
pub open spec fn edges_into(es: Seq<NodePointer>, lo: int, hi: int) -> bool {
    forall|k: int| 0 <= k < es.len() ==> lo <= #[trigger] es[k].idx < hi
}

/// Every root's children lie in `[lo, hi)`.
pub open spec fn roots_into(roots: Seq<Node>, lo: int, hi: int) -> bool {
    forall|r: int| 0 <= r < roots.len() ==> edges_into(#[trigger] roots[r].children@, lo, hi)
}

/// The region `[lo, hi)` of `mem` only points into itself.
pub open spec fn closed(mem: Seq<Node>, lo: int, hi: int) -> bool {
    &&& 0 <= lo <= hi <= mem.len()
    &&& forall|i: int| lo <= i < hi ==> edges_into(#[trigger] mem[i].children@, lo, hi)
}

/// No slot of `[lo, hi)` carries a forwarding address.
pub open spec fn unmarked(mem: Seq<Node>, lo: int, hi: int) -> bool {
    forall|i: int| lo <= i < hi ==> (#[trigger] mem[i]).forwarding_address is None
}

/// Slot `i` has a child edge to slot `j`.
pub open spec fn is_edge(mem: Seq<Node>, i: int, j: int) -> bool {
    &&& 0 <= i < mem.len()
    &&& exists|k: int| 0 <= k < mem[i].children@.len() && #[trigger] mem[i].children@[k].idx == j
}

/// The slots named by the roots' children.
pub open spec fn root_targets(roots: Seq<Node>) -> Set<int> {
    Set::new(
        |j: int|
            exists|r: int, k: int|
                0 <= r < roots.len() && 0 <= k < roots[r].children@.len() && #[trigger] roots[r].children@[k].idx == j,
    )
}

/// One step of edges out of `s`, together with `s`.
pub open spec fn step(mem: Seq<Node>, s: Set<int>) -> Set<int> {
    s.union(Set::new(|j: int| exists|i: int| s.contains(i) && #[trigger] is_edge(mem, i, j)))
}

/// The slots reachable from `src` in at most `n` edges.
pub open spec fn reach_in(mem: Seq<Node>, src: Set<int>, n: nat) -> Set<int>
    decreases n,
{
    if n == 0 {
        src
    } else {
        step(mem, reach_in(mem, src, (n - 1) as nat))
    }
}

/// The slots reachable from `src` along child edges.
pub open spec fn reachable_from(mem: Seq<Node>, src: Set<int>) -> Set<int> {
    Set::new(|j: int| exists|n: nat| #[trigger] reach_in(mem, src, n).contains(j))
}

/// The live slots: those reachable from the roots.
pub open spec fn live(mem: Seq<Node>, roots: Seq<Node>) -> Set<int> {
    reachable_from(mem, root_targets(roots))
}

/// The slot range `[lo, hi)` as a set.
pub open spec fn slot_range(lo: int, hi: int) -> Set<int> {
    Set::new(|i: int| lo <= i < hi)
}

/// A source is reachable.
pub proof fn lemma_source_reachable(mem: Seq<Node>, src: Set<int>, j: int)
    requires
        src.contains(j),
    ensures
        reachable_from(mem, src).contains(j),
{
    assert(reach_in(mem, src, 0).contains(j));
}

/// An edge out of a reachable slot leads to a reachable slot.
pub proof fn lemma_edge_reachable(mem: Seq<Node>, src: Set<int>, i: int, j: int)
    requires
        reachable_from(mem, src).contains(i),
        is_edge(mem, i, j),
    ensures
        reachable_from(mem, src).contains(j),
{
    let n = choose|n: nat| #[trigger] reach_in(mem, src, n).contains(i);
    assert(reach_in(mem, src, n + 1) == step(mem, reach_in(mem, src, n)));
    assert(reach_in(mem, src, n + 1).contains(j));
}

/// A set that holds the sources and is closed under edges holds all that
/// they reach.
pub proof fn lemma_reach_within_closed(mem: Seq<Node>, src: Set<int>, s: Set<int>)
    requires
        src.subset_of(s),
        forall|i: int, j: int| s.contains(i) && #[trigger] is_edge(mem, i, j) ==> s.contains(j),
    ensures
        reachable_from(mem, src).subset_of(s),
{
    assert forall|j: int| reachable_from(mem, src).contains(j) implies s.contains(j) by {
        let n = choose|n: nat| #[trigger] reach_in(mem, src, n).contains(j);
        lemma_reach_in_within(mem, src, s, n);
    }
}

proof fn lemma_reach_in_within(mem: Seq<Node>, src: Set<int>, s: Set<int>, n: nat)
    requires
        src.subset_of(s),
        forall|i: int, j: int| s.contains(i) && #[trigger] is_edge(mem, i, j) ==> s.contains(j),
    ensures
        reach_in(mem, src, n).subset_of(s),
    decreases n,
{
    if n > 0 {
        lemma_reach_in_within(mem, src, s, (n - 1) as nat);
    }
}

/// In a closed region, an edge out of a region slot stays in the region.
pub proof fn lemma_closed_edge(mem: Seq<Node>, lo: int, hi: int, i: int, j: int)
    requires
        closed(mem, lo, hi),
        lo <= i < hi,
        is_edge(mem, i, j),
    ensures
        lo <= j < hi,
{
    let k = choose|k: int| 0 <= k < mem[i].children@.len() && #[trigger] mem[i].children@[k].idx == j;
    assert(edges_into(mem[i].children@, lo, hi));
    assert(lo <= mem[i].children@[k].idx < hi);
}

/// What the roots reach in a closed region stays in the region, and is finite.
pub proof fn lemma_live_in_region(mem: Seq<Node>, roots: Seq<Node>, lo: int, hi: int)
    requires
        closed(mem, lo, hi),
        roots_into(roots, lo, hi),
    ensures
        live(mem, roots).subset_of(slot_range(lo, hi)),
        live(mem, roots).finite(),
        live(mem, roots).len() <= hi - lo,
{
    let s = slot_range(lo, hi);
    assert(root_targets(roots).subset_of(s)) by {
        assert forall|j: int| root_targets(roots).contains(j) implies s.contains(j) by {
            let (r, k) = choose|r: int, k: int|
                0 <= r < roots.len() && 0 <= k < roots[r].children@.len() && #[trigger] roots[r].children@[k].idx == j;
            assert(edges_into(roots[r].children@, lo, hi));
            assert(lo <= roots[r].children@[k].idx < hi);
        }
    }
    assert forall|i: int, j: int| s.contains(i) && #[trigger] is_edge(mem, i, j) implies s.contains(j) by {
        lemma_closed_edge(mem, lo, hi, i, j);
    }
    lemma_reach_within_closed(mem, root_targets(roots), s);
    lemma_slot_range_len(lo, hi);
    vstd::set_lib::lemma_len_subset(live(mem, roots), s);
}

pub proof fn lemma_slot_range_len(lo: int, hi: int)
    requires
        lo <= hi,
    ensures
        slot_range(lo, hi).finite(),
        slot_range(lo, hi).len() == hi - lo,
{
    assert(slot_range(lo, hi) =~= vstd::set_lib::set_int_range(lo, hi));
    vstd::set_lib::lemma_int_range(lo, hi);
}

/// Slot `j` waits in the worklist `wl`.
pub open spec fn queued(wl: Seq<NodePointer>, j: int) -> bool {
    exists|m: int| 0 <= m < wl.len() && #[trigger] wl[m].idx == j
}

pub proof fn lemma_queued_at(wl: Seq<NodePointer>, m: int, j: int)
    requires
        0 <= m < wl.len(),
        wl[m].idx == j,
    ensures
        queued(wl, j),
{
}

pub proof fn lemma_queued_prefix(a: Seq<NodePointer>, b: Seq<NodePointer>, j: int)
    requires
        queued(a, j),
        a.len() <= b.len(),
        forall|m: int| 0 <= m < a.len() ==> b[m] == a[m],
    ensures
        queued(b, j),
{
    let m = choose|m: int| 0 <= m < a.len() && #[trigger] a[m].idx == j;
    assert(b[m].idx == j);
}

pub proof fn lemma_queued_tail(a: Seq<NodePointer>, b: Seq<NodePointer>, j: int)
    requires
        queued(a, j),
        a.len() > 0,
        a[0].idx != j,
        b == a.subrange(1, a.len() as int),
    ensures
        queued(b, j),
{
    let m = choose|m: int| 0 <= m < a.len() && #[trigger] a[m].idx == j;
    assert(b[m - 1].idx == j);
}

pub proof fn lemma_queued_init(a: Seq<NodePointer>, b: Seq<NodePointer>, j: int)
    requires
        queued(a, j),
        a.len() > 0,
        a[a.len() - 1].idx != j,
        b == a.drop_last(),
    ensures
        queued(b, j),
{
    let m = choose|m: int| 0 <= m < a.len() && #[trigger] a[m].idx == j;
    assert(b[m].idx == j);
}

} // verus!
