use vstd::prelude::*;

use crate::graph::{
    closed, is_edge, lemma_edge_reachable, lemma_live_in_region, lemma_reach_within_closed, lemma_source_reachable, live,
    reach_in, reachable_from, root_targets, roots_into, slot_range,
};
use crate::manager::{heap_ok, region_ok, MemoryManager};
use crate::mark_compact::{MarkCompactHeap, compacted, lemma_rank_le, lemma_rank_strict, moved, moved_root, rank};
use crate::node::{Node, NodePointer};
use crate::workload::{garbage_picks, garbage_pops, pops_applied};
use crate::stop_copy::{cheney_layout, evacuated, StopAndCopyHeap};
use crate::traverse::{lemma_sums_empty, lemma_sums_insert, value_bag, value_sum};

verus! {

/// The slide targets of the members of `t`.
pub open spec fn slid(s: Set<int>, t: Set<int>) -> Set<int> {
    Set::new(|u: int| exists|j: int| t.contains(j) && u == rank(s, j))
}

proof fn lemma_slid_edge(mem: Seq<Node>, roots: Seq<Node>, new_mem: Seq<Node>, i: int, j: int)
    requires
        live(mem, roots).contains(i),
        is_edge(mem, i, j),
        moved(mem[i], new_mem[rank(live(mem, roots), i) as int], live(mem, roots)),
        0 <= rank(live(mem, roots), i) < new_mem.len(),
        rank(live(mem, roots), j) <= usize::MAX,
    ensures
        is_edge(new_mem, rank(live(mem, roots), i) as int, rank(live(mem, roots), j) as int),
{
    let s = live(mem, roots);
    let k = choose|k: int| 0 <= k < mem[i].children@.len() && #[trigger] mem[i].children@[k].idx == j;
    let b = new_mem[rank(s, i) as int];
    assert(b.children@[k] == NodePointer { idx: rank(s, j) as usize });
    assert(b.children@[k].idx == rank(s, j));
}

proof fn lemma_sum_tail_zero(mem: Seq<Node>, t: Set<int>, a: int, b: int)
    requires
        0 <= a <= b,
        t.subset_of(slot_range(0, a)),
    ensures
        value_sum(mem, t, b) == value_sum(mem, t, a),
        value_bag(mem, t, b) == value_bag(mem, t, a),
    decreases b - a,
{
    if a < b {
        lemma_sum_tail_zero(mem, t, a, b - 1);
    }
}

proof fn lemma_slid_sum_prefix(mem: Seq<Node>, roots: Seq<Node>, new_mem: Seq<Node>, free: int, t: Set<int>, n: int)
    requires
        0 <= n <= free,
        live(mem, roots).subset_of(slot_range(0, free)),
        t.subset_of(live(mem, roots)),
        forall|i: int| #[trigger] live(mem, roots).contains(i) ==> moved(mem[i], new_mem[rank(live(mem, roots), i) as int], live(mem, roots)),
    ensures
        value_sum(new_mem, slid(live(mem, roots), t), rank(live(mem, roots), n) as int) == value_sum(mem, t, n),
        value_bag(new_mem, slid(live(mem, roots), t), rank(live(mem, roots), n) as int) == value_bag(mem, t, n),
    decreases n,
{
    let s = live(mem, roots);
    if n > 0 {
        lemma_slid_sum_prefix(mem, roots, new_mem, free, t, n - 1);
        let m = n - 1;
        if s.contains(m) {
            let r = rank(s, m) as int;
            assert(rank(s, n) == r + 1);
            if t.contains(m) {
                assert(slid(s, t).contains(r));
                assert(moved(mem[m], new_mem[r], s));
            } else {
                assert(!slid(s, t).contains(r)) by {
                    if slid(s, t).contains(r) {
                        let j = choose|j: int| t.contains(j) && r == rank(s, j);
                        if j < m {
                            lemma_rank_strict(s, j, m);
                        } else if j > m {
                            lemma_rank_strict(s, m, j);
                        }
                    }
                }
            }
        } else {
            assert(rank(s, n) == rank(s, m));
        }
    }
}

/// Allocation retry, sliding collector: a collection that finds fewer live
/// nodes than the capacity leaves a free slot, so the next allocation places
/// its node without collecting again.
pub proof fn lemma_compaction_leaves_room(h0: MarkCompactHeap, roots: Seq<Node>, h1: MarkCompactHeap, new_roots: Seq<Node>)
    requires
        h0.collected(roots, h1, new_roots),
        live(h0.memory(), roots).len() < h0.limit() - h0.base(),
    ensures
        h1.cursor() < h1.limit(),
{
}

/// Allocation retry, copying collector: a collection that finds fewer live
/// nodes than a semi-space holds leaves a free slot in the new to-space, so
/// the next allocation places its node without collecting again.
pub proof fn lemma_evacuation_leaves_room(h0: StopAndCopyHeap, roots: Seq<Node>, h1: StopAndCopyHeap, new_roots: Seq<Node>)
    requires
        h0.inv(),
        h1.inv(),
        h0.collected(roots, h1, new_roots),
        live(h0.memory(), roots).len() < h0.limit() - h0.base(),
    ensures
        h1.cursor() < h1.limit(),
{
    let origin = cheney_layout(h0.committed_memory@, roots);
}

/// The image of `t` under `f`.
pub open spec fn image(t: Set<int>, f: spec_fn(int) -> int) -> Set<int> {
    Set::new(|u: int| exists|j: int| t.contains(j) && u == f(j))
}

/// Moving payloads one for one, by an injective `f`, keeps their sum.
pub proof fn lemma_sum_transfer(m1: Seq<Node>, m2: Seq<Node>, t: Set<int>, f: spec_fn(int) -> int, n1: int, n2: int)
    requires
        t.finite(),
        t.subset_of(slot_range(0, n1)),
        forall|j: int| #[trigger] t.contains(j) ==> 0 <= f(j) < n2 && m2[f(j)].value == m1[j].value,
        forall|a: int, b: int| t.contains(a) && t.contains(b) && a != b ==> f(a) != f(b),
    ensures
        value_sum(m2, image(t, f), n2) == value_sum(m1, t, n1),
        value_bag(m2, image(t, f), n2) == value_bag(m1, t, n1),
    decreases t.len(),
{
    if t.len() == 0 {
        assert(t =~= Set::empty());
        assert(image(t, f) =~= Set::empty());
        lemma_sums_empty(m1, n1);
        lemma_sums_empty(m2, n2);
    } else {
        let j = t.choose();
        let t2 = t.remove(j);
        lemma_sum_transfer(m1, m2, t2, f, n1, n2);
        assert(!image(t2, f).contains(f(j)));
        assert(image(t, f) =~= image(t2, f).insert(f(j)));
        assert(t =~= t2.insert(j));
        lemma_sums_insert(m1, t2, j, n1);
        lemma_sums_insert(m2, image(t2, f), f(j), n2);
    }
}

/// The position in `origin` of the live slot `j`.
pub open spec fn origin_index(origin: Seq<int>, n: int, j: int) -> int {
    choose|t: int| 0 <= t < n && origin[t] == j
}

proof fn lemma_slid_live_in(mem: Seq<Node>, roots: Seq<Node>, new_mem: Seq<Node>, new_roots: Seq<Node>, free: int, n: nat, j: int)
    requires
        closed(mem, 0, free),
        roots_into(roots, 0, free),
        mem.len() <= usize::MAX,
        compacted(mem, roots, new_mem, new_roots, live(mem, roots).len() as int),
        reach_in(mem, root_targets(roots), n).contains(j),
    ensures
        live(new_mem, new_roots).contains(rank(live(mem, roots), j) as int),
    decreases n,
{
    let s = live(mem, roots);
    let rt = root_targets(roots);
    let nrt = root_targets(new_roots);
    lemma_live_in_region(mem, roots, 0, free);
    lemma_rank_le(s, free);
    if n == 0 {
        let (q, k) = choose|q: int, k: int|
            0 <= q < roots.len() && 0 <= k < roots[q].children@.len() && #[trigger] roots[q].children@[k].idx == j;
        lemma_source_reachable(mem, rt, j);
        lemma_rank_strict(s, j, free);
        assert(moved_root(roots[q], new_roots[q], s));
        assert(new_roots[q].children@[k].idx == rank(s, j));
        assert(nrt.contains(rank(s, j) as int));
        lemma_source_reachable(new_mem, nrt, rank(s, j) as int);
    } else {
        let prev = reach_in(mem, rt, (n - 1) as nat);
        if prev.contains(j) {
            lemma_slid_live_in(mem, roots, new_mem, new_roots, free, (n - 1) as nat, j);
        } else {
            let i = choose|i: int| prev.contains(i) && #[trigger] is_edge(mem, i, j);
            lemma_slid_live_in(mem, roots, new_mem, new_roots, free, (n - 1) as nat, i);
            assert(s.contains(i));
            lemma_edge_reachable(mem, rt, i, j);
            lemma_rank_strict(s, i, free);
            lemma_rank_strict(s, j, free);
            lemma_slid_edge(mem, roots, new_mem, i, j);
            lemma_edge_reachable(new_mem, nrt, rank(s, i) as int, rank(s, j) as int);
        }
    }
}

/// Reachability preservation for the sliding collector: after a
/// mark-compact collection the live nodes are exactly the slide targets of
/// the live nodes before, and their payload sum is unchanged.
pub proof fn lemma_compaction_keeps_live_sum(mem: Seq<Node>, roots: Seq<Node>, new_mem: Seq<Node>, new_roots: Seq<Node>, free: int)
    requires
        closed(mem, 0, free),
        roots_into(roots, 0, free),
        mem.len() <= usize::MAX,
        compacted(mem, roots, new_mem, new_roots, live(mem, roots).len() as int),
    ensures
        live(new_mem, new_roots) == slid(live(mem, roots), live(mem, roots)),
        value_sum(new_mem, live(new_mem, new_roots), new_mem.len() as int) == value_sum(mem, live(mem, roots), mem.len() as int),
        value_bag(new_mem, live(new_mem, new_roots), new_mem.len() as int) == value_bag(mem, live(mem, roots), mem.len() as int),
{
    let s = live(mem, roots);
    let img = slid(s, s);
    let rt = root_targets(roots);
    let nrt = root_targets(new_roots);
    lemma_live_in_region(mem, roots, 0, free);
    lemma_rank_le(s, free);
    assert forall|u: int| img.contains(u) implies live(new_mem, new_roots).contains(u) by {
        let j = choose|j: int| s.contains(j) && u == rank(s, j);
        let n = choose|n: nat| #[trigger] reach_in(mem, rt, n).contains(j);
        lemma_slid_live_in(mem, roots, new_mem, new_roots, free, n, j);
    }
    assert forall|u: int| nrt.contains(u) implies img.contains(u) by {
        let (q, k) = choose|q: int, k: int|
            0 <= q < new_roots.len() && 0 <= k < new_roots[q].children@.len() && #[trigger] new_roots[q].children@[k].idx == u;
        assert(moved_root(roots[q], new_roots[q], s));
        let g = roots[q].children@[k].idx as int;
        assert(rt.contains(g));
        lemma_source_reachable(mem, rt, g);
        lemma_rank_strict(s, g, free);
        assert(s.contains(g) && u == rank(s, g));
    }
    assert forall|t: int, u: int| img.contains(t) && #[trigger] is_edge(new_mem, t, u) implies img.contains(u) by {
        let j = choose|j: int| s.contains(j) && t == rank(s, j);
        assert(moved(mem[j], new_mem[rank(s, j) as int], s));
        let k = choose|k: int| 0 <= k < new_mem[t].children@.len() && #[trigger] new_mem[t].children@[k].idx == u;
        let g = mem[j].children@[k].idx as int;
        assert(is_edge(mem, j, g));
        lemma_edge_reachable(mem, rt, j, g);
        lemma_rank_strict(s, g, free);
        assert(new_mem[t].children@[k].idx == rank(s, g));
        assert(s.contains(g) && u == rank(s, g));
    }
    lemma_reach_within_closed(new_mem, nrt, img);
    assert(live(new_mem, new_roots) =~= img);
    lemma_slid_sum_prefix(mem, roots, new_mem, free, s, free);
    assert(img.subset_of(slot_range(0, rank(s, free) as int))) by {
        assert forall|u: int| img.contains(u) implies slot_range(0, rank(s, free) as int).contains(u) by {
            let j = choose|j: int| s.contains(j) && u == rank(s, j);
            lemma_rank_strict(s, j, free);
        }
    }
    lemma_sum_tail_zero(new_mem, img, rank(s, free) as int, new_mem.len() as int);
    lemma_sum_tail_zero(mem, s, free, mem.len() as int);
}

proof fn lemma_evacuated_live_in(
    mem: Seq<Node>,
    roots: Seq<Node>,
    after: Seq<Node>,
    new_roots: Seq<Node>,
    base: int,
    n: int,
    origin: Seq<int>,
    k: nat,
    j: int,
)
    requires
        evacuated(mem, roots, after, new_roots, base, n, origin),
        0 <= base,
        base + n <= after.len(),
        reach_in(mem, root_targets(roots), k).contains(j),
    ensures
        live(after, new_roots).contains(base + origin_index(origin, n, j)),
    decreases k,
{
    let s = live(mem, roots);
    let rt = root_targets(roots);
    let nrt = root_targets(new_roots);
    if k == 0 {
        let (q, kk) = choose|q: int, kk: int|
            0 <= q < roots.len() && 0 <= kk < roots[q].children@.len() && #[trigger] roots[q].children@[kk].idx == j;
        lemma_source_reachable(mem, rt, j);
        assert(exists|u: int| 0 <= u < n && origin[u] == j);
        let x = origin_index(origin, n, j);
        assert(origin[x] == j);
        let b = new_roots[q].children@[kk].idx as int;
        assert(origin[b - base] == j);
        assert(b - base == x);
        assert(nrt.contains(b));
        lemma_source_reachable(after, nrt, b);
    } else {
        let prev = reach_in(mem, rt, (k - 1) as nat);
        if prev.contains(j) {
            lemma_evacuated_live_in(mem, roots, after, new_roots, base, n, origin, (k - 1) as nat, j);
        } else {
            let i = choose|i: int| prev.contains(i) && #[trigger] is_edge(mem, i, j);
            lemma_evacuated_live_in(mem, roots, after, new_roots, base, n, origin, (k - 1) as nat, i);
            assert(s.contains(i));
            lemma_edge_reachable(mem, rt, i, j);
            assert(exists|u: int| 0 <= u < n && origin[u] == i);
            assert(exists|u: int| 0 <= u < n && origin[u] == j);
            let x = origin_index(origin, n, i);
            let y = origin_index(origin, n, j);
            assert(origin[x] == i);
            assert(origin[y] == j);
            let kk = choose|kk: int| 0 <= kk < mem[i].children@.len() && #[trigger] mem[i].children@[kk].idx == j;
            let b = after[base + x].children@[kk].idx as int;
            assert(origin[b - base] == j);
            assert(b - base == y);
            assert(is_edge(after, base + x, base + y));
            lemma_edge_reachable(after, nrt, base + x, base + y);
        }
    }
}

/// Reachability preservation for the copying collector: after a
/// stop-and-copy collection the live nodes are exactly the copies of the
/// live nodes before, and their payload sum is unchanged.
pub proof fn lemma_evacuation_keeps_live_sum(
    mem: Seq<Node>,
    roots: Seq<Node>,
    after: Seq<Node>,
    new_roots: Seq<Node>,
    base: int,
    n: int,
    origin: Seq<int>,
)
    requires
        evacuated(mem, roots, after, new_roots, base, n, origin),
        0 <= base,
        base + n <= after.len(),
        live(mem, roots).subset_of(slot_range(0, mem.len() as int)),
    ensures
        live(after, new_roots) == image(live(mem, roots), |j: int| base + origin_index(origin, n, j)),
        value_sum(after, live(after, new_roots), after.len() as int) == value_sum(mem, live(mem, roots), mem.len() as int),
        value_bag(after, live(after, new_roots), after.len() as int) == value_bag(mem, live(mem, roots), mem.len() as int),
{
    let s = live(mem, roots);
    let f = |j: int| base + origin_index(origin, n, j);
    let img = image(s, f);
    let rt = root_targets(roots);
    let nrt = root_targets(new_roots);
    assert forall|j: int| #[trigger] s.contains(j) implies 0 <= origin_index(origin, n, j) < n && origin[origin_index(origin, n, j)] == j by {
        assert(exists|u: int| 0 <= u < n && origin[u] == j);
    }
    assert forall|u: int| img.contains(u) implies live(after, new_roots).contains(u) by {
        let j = choose|j: int| s.contains(j) && u == f(j);
        let k = choose|k: nat| #[trigger] reach_in(mem, rt, k).contains(j);
        lemma_evacuated_live_in(mem, roots, after, new_roots, base, n, origin, k, j);
    }
    assert forall|u: int| nrt.contains(u) implies img.contains(u) by {
        let (q, k) = choose|q: int, k: int|
            0 <= q < new_roots.len() && 0 <= k < new_roots[q].children@.len() && #[trigger] new_roots[q].children@[k].idx == u;
        let g = roots[q].children@[k].idx as int;
        assert(rt.contains(g));
        lemma_source_reachable(mem, rt, g);
        assert(origin[u - base] == g);
        assert(origin[origin_index(origin, n, g)] == g);
        assert(s.contains(g) && u == f(g));
    }
    assert forall|a: int, b: int| img.contains(a) && #[trigger] is_edge(after, a, b) implies img.contains(b) by {
        let j = choose|j: int| s.contains(j) && a == f(j);
        let x = origin_index(origin, n, j);
        assert(origin[x] == j);
        let k = choose|k: int| 0 <= k < after[a].children@.len() && #[trigger] after[a].children@[k].idx == b;
        assert(after[base + x].children@[k].idx == b);
        let g = mem[j].children@[k].idx as int;
        assert(origin[b - base] == g);
        assert(is_edge(mem, j, g));
        lemma_edge_reachable(mem, rt, j, g);
        assert(origin[origin_index(origin, n, g)] == g);
        assert(s.contains(g) && b == f(g));
    }
    lemma_reach_within_closed(after, nrt, img);
    assert(live(after, new_roots) =~= img);
    crate::graph::lemma_slot_range_len(0, mem.len() as int);
    vstd::set_lib::lemma_len_subset(s, slot_range(0, mem.len() as int));
    assert forall|j: int| #[trigger] s.contains(j) implies 0 <= f(j) < after.len() && after[f(j)].value == mem[j].value by {
        let x = origin_index(origin, n, j);
        assert(origin[x] == j);
    }
    assert forall|a: int, b: int| s.contains(a) && s.contains(b) && a != b implies f(a) != f(b) by {
        assert(origin[origin_index(origin, n, a)] == a);
        assert(origin[origin_index(origin, n, b)] == b);
    }
    lemma_sum_transfer(mem, after, s, f, mem.len() as int, after.len() as int);
}

/// Reachability preservation, sliding collector: a mark-compact collection
/// leaves unchanged the multiset of payloads of the live nodes, and so their
/// payload sum, which
/// `Stack::sum_bfs` and `Stack::sum_dfs` report.
pub proof fn lemma_mark_compact_collect_keeps_sum(h0: MarkCompactHeap, roots: Seq<Node>, h1: MarkCompactHeap, new_roots: Seq<Node>)
    requires
        heap_ok(&h0),
        roots_into(roots, h0.base(), h0.cursor()),
        h0.memory().len() <= usize::MAX,
        h0.collected(roots, h1, new_roots),
    ensures
        value_sum(h1.memory(), live(h1.memory(), new_roots), h1.memory().len() as int) == value_sum(
            h0.memory(),
            live(h0.memory(), roots),
            h0.memory().len() as int,
        ),
        value_bag(h1.memory(), live(h1.memory(), new_roots), h1.memory().len() as int) == value_bag(
            h0.memory(),
            live(h0.memory(), roots),
            h0.memory().len() as int,
        ),
{
    lemma_compaction_keeps_live_sum(h0.memory(), roots, h1.memory(), new_roots, h0.free as int);
}

/// Reachability preservation, copying collector: a stop-and-copy collection
/// leaves unchanged the multiset of payloads of the live nodes, and so their
/// payload sum, which
/// `Stack::sum_bfs` and `Stack::sum_dfs` report.
pub proof fn lemma_stop_and_copy_collect_keeps_sum(
    h0: StopAndCopyHeap,
    roots: Seq<Node>,
    h1: StopAndCopyHeap,
    new_roots: Seq<Node>,
)
    requires
        heap_ok(&h0),
        roots_into(roots, h0.base(), h0.cursor()),
        h1.inv(),
        h0.collected(roots, h1, new_roots),
    ensures
        value_sum(h1.memory(), live(h1.memory(), new_roots), h1.memory().len() as int) == value_sum(
            h0.memory(),
            live(h0.memory(), roots),
            h0.memory().len() as int,
        ),
        value_bag(h1.memory(), live(h1.memory(), new_roots), h1.memory().len() as int) == value_bag(
            h0.memory(),
            live(h0.memory(), roots),
            h0.memory().len() as int,
        ),
{
    let origin = cheney_layout(h0.committed_memory@, roots);
    lemma_live_in_region(h0.memory(), roots, h0.base(), h0.cursor());
    assert(live(h0.memory(), roots).subset_of(slot_range(0, h0.memory().len() as int)));
    lemma_evacuation_keeps_live_sum(
        h0.memory(),
        roots,
        h1.memory(),
        new_roots,
        h1.to_space as int,
        h1.free - h1.to_space,
        origin,
    );
}

/// An injective image of a finite set has as many members.
pub proof fn lemma_image_len(t: Set<int>, f: spec_fn(int) -> int)
    requires
        t.finite(),
        forall|a: int, b: int| t.contains(a) && t.contains(b) && a != b ==> f(a) != f(b),
    ensures
        image(t, f).finite(),
        image(t, f).len() == t.len(),
    decreases t.len(),
{
    if t.len() == 0 {
        assert(t =~= Set::empty());
        assert(image(t, f) =~= Set::empty());
    } else {
        let j = t.choose();
        let t2 = t.remove(j);
        lemma_image_len(t2, f);
        assert(!image(t2, f).contains(f(j)));
        assert(image(t, f) =~= image(t2, f).insert(f(j)));
    }
}

/// A sliding collection keeps the number of live nodes.
pub proof fn lemma_compaction_keeps_live_count(mem: Seq<Node>, roots: Seq<Node>, new_mem: Seq<Node>, new_roots: Seq<Node>, free: int)
    requires
        closed(mem, 0, free),
        roots_into(roots, 0, free),
        mem.len() <= usize::MAX,
        compacted(mem, roots, new_mem, new_roots, live(mem, roots).len() as int),
    ensures
        live(new_mem, new_roots).len() == live(mem, roots).len(),
{
    let s = live(mem, roots);
    lemma_compaction_keeps_live_sum(mem, roots, new_mem, new_roots, free);
    lemma_live_in_region(mem, roots, 0, free);
    let f = |j: int| rank(s, j) as int;
    assert forall|a: int, b: int| s.contains(a) && s.contains(b) && a != b implies f(a) != f(b) by {
        if a < b {
            lemma_rank_strict(s, a, b);
        } else {
            lemma_rank_strict(s, b, a);
        }
    }
    lemma_image_len(s, f);
    assert(slid(s, s) =~= image(s, f));
}

/// A copying collection keeps the number of live nodes.
pub proof fn lemma_evacuation_keeps_live_count(
    mem: Seq<Node>,
    roots: Seq<Node>,
    after: Seq<Node>,
    new_roots: Seq<Node>,
    base: int,
    n: int,
    origin: Seq<int>,
)
    requires
        evacuated(mem, roots, after, new_roots, base, n, origin),
        0 <= base,
        base + n <= after.len(),
        live(mem, roots).subset_of(slot_range(0, mem.len() as int)),
    ensures
        live(after, new_roots).len() == live(mem, roots).len(),
{
    let s = live(mem, roots);
    let f = |j: int| base + origin_index(origin, n, j);
    lemma_evacuation_keeps_live_sum(mem, roots, after, new_roots, base, n, origin);
    crate::graph::lemma_slot_range_len(0, mem.len() as int);
    vstd::set_lib::lemma_len_subset(s, slot_range(0, mem.len() as int));
    assert forall|a: int, b: int| s.contains(a) && s.contains(b) && a != b implies f(a) != f(b) by {
        assert(exists|u: int| 0 <= u < n && origin[u] == a);
        assert(exists|u: int| 0 <= u < n && origin[u] == b);
        assert(origin[origin_index(origin, n, a)] == a);
        assert(origin[origin_index(origin, n, b)] == b);
    }
    lemma_image_len(s, f);
}

/// Placing a fresh node at the cursor leaves the live nodes as they were.
pub proof fn lemma_place_keeps_live(mem: Seq<Node>, roots: Seq<Node>, base: int, cursor: int, limit: int, node: Node)
    requires
        region_ok(mem, base, cursor, limit),
        roots_into(roots, base, cursor),
        cursor < limit,
        node.children@.len() == 0,
    ensures
        live(mem.update(cursor, node), roots) == live(mem, roots),
{
    let m2 = mem.update(cursor, node);
    let rt = root_targets(roots);
    let s = live(mem, roots);
    lemma_live_in_region(mem, roots, base, cursor);
    assert forall|i: int, j: int| s.contains(i) && #[trigger] is_edge(m2, i, j) implies s.contains(j) by {
        assert(i != cursor);
        let k = choose|k: int| 0 <= k < m2[i].children@.len() && #[trigger] m2[i].children@[k].idx == j;
        assert(mem[i].children@[k].idx == j);
        lemma_edge_reachable(mem, rt, i, j);
    }
    lemma_source_subset(rt, s, mem);
    lemma_reach_within_closed(m2, rt, s);
    let s2 = live(m2, roots);
    assert forall|i: int, j: int| s2.contains(i) && #[trigger] is_edge(mem, i, j) implies s2.contains(j) by {
        assert(s.contains(i));
        assert(i != cursor);
        let k = choose|k: int| 0 <= k < mem[i].children@.len() && #[trigger] mem[i].children@[k].idx == j;
        assert(m2[i].children@[k].idx == j);
        lemma_edge_reachable(m2, rt, i, j);
    }
    lemma_source_subset(rt, s2, m2);
    lemma_reach_within_closed(mem, rt, s2);
    assert(s2 =~= s);
}

proof fn lemma_source_subset(rt: Set<int>, s: Set<int>, mem: Seq<Node>)
    requires
        s == reachable_from(mem, rt),
    ensures
        rt.subset_of(s),
{
    assert forall|j: int| rt.contains(j) implies s.contains(j) by {
        lemma_source_reachable(mem, rt, j);
    }
}

/// Linking a fresh, unreachable node `p` under a root target `par` makes
/// exactly `p` newly live.
pub proof fn lemma_link_live(m0: Seq<Node>, m1: Seq<Node>, roots: Seq<Node>, par: int, p: int)
    requires
        root_targets(roots).contains(par),
        0 <= par < m0.len(),
        0 <= p < m0.len(),
        !live(m0, roots).contains(p),
        m0[p].children@.len() == 0,
        m1.len() == m0.len(),
        forall|i: int| 0 <= i < m0.len() && i != par ==> #[trigger] m1[i] == m0[i],
        m1[par].children@ == m0[par].children@.push(NodePointer { idx: p as usize }),
        p <= usize::MAX,
    ensures
        live(m1, roots) == live(m0, roots).insert(p),
{
    let rt = root_targets(roots);
    let s0 = live(m0, roots);
    let s1 = live(m1, roots);
    lemma_source_reachable(m0, rt, par);
    assert(par != p);
    let big = s0.insert(p);
    assert forall|i: int, j: int| big.contains(i) && #[trigger] is_edge(m1, i, j) implies big.contains(j) by {
        let k = choose|k: int| 0 <= k < m1[i].children@.len() && #[trigger] m1[i].children@[k].idx == j;
        if i == p {
            assert(m1[p] == m0[p]);
        } else if i == par {
            if k < m0[par].children@.len() {
                assert(m0[par].children@[k].idx == j);
                lemma_edge_reachable(m0, rt, i, j);
            }
        } else {
            assert(m0[i].children@[k].idx == j);
            lemma_edge_reachable(m0, rt, i, j);
        }
    }
    lemma_source_subset(rt, s0, m0);
    lemma_reach_within_closed(m1, rt, big);
    assert forall|i: int, j: int| s1.contains(i) && #[trigger] is_edge(m0, i, j) implies s1.contains(j) by {
        let k = choose|k: int| 0 <= k < m0[i].children@.len() && #[trigger] m0[i].children@[k].idx == j;
        if i == par {
            assert(m1[par].children@[k].idx == j);
        } else {
            assert(m1[i].children@[k].idx == j);
        }
        lemma_edge_reachable(m1, rt, i, j);
    }
    lemma_source_subset(rt, s1, m1);
    lemma_reach_within_closed(m0, rt, s1);
    lemma_source_reachable(m1, rt, par);
    assert(m1[par].children@[m0[par].children@.len() as int].idx == p);
    assert(is_edge(m1, par, p));
    lemma_edge_reachable(m1, rt, par, p);
    assert(s1 =~= big);
}

/// Adding a live node as a further root target leaves the live nodes as
/// they were.
pub proof fn lemma_root_target_live(mem: Seq<Node>, roots: Seq<Node>, roots2: Seq<Node>, p: int)
    requires
        live(mem, roots).contains(p),
        root_targets(roots2) == root_targets(roots).insert(p),
    ensures
        live(mem, roots2) == live(mem, roots),
{
    let rt = root_targets(roots);
    let rt2 = root_targets(roots2);
    let s = live(mem, roots);
    let s2 = live(mem, roots2);
    assert forall|i: int, j: int| s.contains(i) && #[trigger] is_edge(mem, i, j) implies s.contains(j) by {
        lemma_edge_reachable(mem, rt, i, j);
    }
    lemma_source_subset(rt, s, mem);
    lemma_reach_within_closed(mem, rt2, s);
    assert forall|i: int, j: int| s2.contains(i) && #[trigger] is_edge(mem, i, j) implies s2.contains(j) by {
        lemma_edge_reachable(mem, rt2, i, j);
    }
    lemma_source_subset(rt2, s2, mem);
    lemma_reach_within_closed(mem, rt, s2);
    assert(s2 =~= s);
}

/// A new last root with the one child `x` adds `x` to the root targets.
pub proof fn lemma_root_targets_new_root(roots: Seq<Node>, roots2: Seq<Node>, x: int)
    requires
        roots2.len() == roots.len() + 1,
        forall|q: int| 0 <= q < roots.len() ==> #[trigger] roots2[q] == roots[q],
        roots2[roots.len() as int].children@.len() == 1,
        roots2[roots.len() as int].children@[0].idx == x,
    ensures
        root_targets(roots2) == root_targets(roots).insert(x),
{
    let l = roots.len() as int;
    assert forall|j: int| root_targets(roots2).contains(j) implies root_targets(roots).insert(x).contains(j) by {
        let (q, k) = choose|q: int, k: int|
            0 <= q < roots2.len() && 0 <= k < roots2[q].children@.len() && #[trigger] roots2[q].children@[k].idx == j;
        if q < l {
            assert(roots[q].children@[k].idx == j);
        }
    }
    assert forall|j: int| root_targets(roots).insert(x).contains(j) implies root_targets(roots2).contains(j) by {
        if j == x {
            assert(roots2[l].children@[0].idx == j);
        } else {
            let (q, k) = choose|q: int, k: int|
                0 <= q < roots.len() && 0 <= k < roots[q].children@.len() && #[trigger] roots[q].children@[k].idx == j;
            assert(roots2[q].children@[k].idx == j);
        }
    }
    assert(root_targets(roots2) =~= root_targets(roots).insert(x));
}

/// Appending `p` to the children of root `r` adds `p` to the root targets.
pub proof fn lemma_root_targets_extend(roots: Seq<Node>, roots2: Seq<Node>, r: int, p: int)
    requires
        0 <= r < roots.len(),
        roots2.len() == roots.len(),
        forall|q: int| 0 <= q < roots.len() && q != r ==> #[trigger] roots2[q] == roots[q],
        roots2[r].children@ == roots[r].children@.push(NodePointer { idx: p as usize }),
        0 <= p <= usize::MAX,
    ensures
        root_targets(roots2) == root_targets(roots).insert(p),
{
    assert forall|j: int| root_targets(roots2).contains(j) implies root_targets(roots).insert(p).contains(j) by {
        let (q, k) = choose|q: int, k: int|
            0 <= q < roots2.len() && 0 <= k < roots2[q].children@.len() && #[trigger] roots2[q].children@[k].idx == j;
        if q == r {
            if k < roots[r].children@.len() {
                assert(roots[r].children@[k].idx == j);
            }
        } else {
            assert(roots[q].children@[k].idx == j);
        }
    }
    assert forall|j: int| root_targets(roots).insert(p).contains(j) implies root_targets(roots2).contains(j) by {
        if j == p {
            assert(roots2[r].children@[roots[r].children@.len() as int].idx == j);
        } else {
            let (q, k) = choose|q: int, k: int|
                0 <= q < roots.len() && 0 <= k < roots[q].children@.len() && #[trigger] roots[q].children@[k].idx == j;
            assert(roots2[q].children@[k].idx == j);
        }
    }
    assert(root_targets(roots2) =~= root_targets(roots).insert(p));
}

/// More pops prune more: popping by `picks` leaves each children list a
/// prefix of what popping by the first `k` picks leaves.
pub proof fn lemma_more_pops_prune_more(lists: Seq<Seq<NodePointer>>, picks: Seq<usize>, k: int)
    requires
        0 <= k <= picks.len(),
    ensures
        pops_applied(lists, picks).len() == pops_applied(lists, picks.subrange(0, k)).len(),
        forall|i: int|
            0 <= i < lists.len() ==> {
                let long = #[trigger] pops_applied(lists, picks)[i];
                let short = pops_applied(lists, picks.subrange(0, k))[i];
                &&& long.len() <= short.len()
                &&& long == short.subrange(0, long.len() as int)
            },
    decreases picks.len() - k,
{
    lemma_pops_len(lists, picks);
    lemma_pops_len(lists, picks.subrange(0, k));
    if k == picks.len() {
        assert(picks.subrange(0, k) =~= picks);
        assert forall|i: int| 0 <= i < lists.len() implies {
            let long = #[trigger] pops_applied(lists, picks)[i];
            &&& long == long.subrange(0, long.len() as int)
        } by {
            let long = pops_applied(lists, picks)[i];
            assert(long =~= long.subrange(0, long.len() as int));
        }
    } else {
        let p2 = picks.subrange(0, k + 1);
        lemma_more_pops_prune_more(lists, picks, k + 1);
        assert(p2.drop_last() =~= picks.subrange(0, k));
        lemma_pops_len(lists, p2);
        assert forall|i: int| 0 <= i < lists.len() implies {
            let long = #[trigger] pops_applied(lists, picks)[i];
            let short = pops_applied(lists, picks.subrange(0, k))[i];
            &&& long.len() <= short.len()
            &&& long == short.subrange(0, long.len() as int)
        } by {
            let long = pops_applied(lists, picks)[i];
            let mid = pops_applied(lists, p2)[i];
            let short = pops_applied(lists, picks.subrange(0, k))[i];
            assert(mid.len() <= short.len() && mid =~= short.subrange(0, mid.len() as int));
            assert(long =~= short.subrange(0, long.len() as int));
        }
    }
}

proof fn lemma_pops_len(lists: Seq<Seq<NodePointer>>, picks: Seq<usize>)
    ensures
        pops_applied(lists, picks).len() == lists.len(),
    decreases picks.len(),
{
    if picks.len() > 0 {
        lemma_pops_len(lists, picks.drop_last());
    }
}

/// A sliding collection fills the prefix: the slide targets of the live
/// nodes are exactly the slots `[0, number of live nodes)`.
pub proof fn lemma_compaction_fills_prefix(mem: Seq<Node>, roots: Seq<Node>, free: int)
    requires
        closed(mem, 0, free),
        roots_into(roots, 0, free),
    ensures
        slid(live(mem, roots), live(mem, roots)) == slot_range(0, live(mem, roots).len() as int),
{
    let s = live(mem, roots);
    lemma_live_in_region(mem, roots, 0, free);
    crate::mark_compact::lemma_rank_len(s, free);
    let f = |j: int| rank(s, j) as int;
    assert forall|a: int, b: int| s.contains(a) && s.contains(b) && a != b implies f(a) != f(b) by {
        if a < b {
            lemma_rank_strict(s, a, b);
        } else {
            lemma_rank_strict(s, b, a);
        }
    }
    lemma_image_len(s, f);
    assert(slid(s, s) =~= image(s, f));
    assert(slid(s, s).subset_of(slot_range(0, s.len() as int))) by {
        assert forall|u: int| slid(s, s).contains(u) implies slot_range(0, s.len() as int).contains(u) by {
            let j = choose|j: int| s.contains(j) && u == rank(s, j);
            lemma_rank_strict(s, j, free);
        }
    }
    crate::graph::lemma_slot_range_len(0, s.len() as int);
    vstd::set_lib::lemma_subset_equality(slid(s, s), slot_range(0, s.len() as int));
}

/// A higher garbage ratio prunes more: with the picks that `make_garbage`
/// ensures for both ratios (the lower ratio's picks begin the higher one's),
/// each children list left by the higher ratio is a prefix of the one left
/// by the lower ratio.
pub proof fn lemma_higher_ratio_prunes_more(lists: Seq<Seq<NodePointer>>, lower: u64, higher: u64)
    requires
        0 <= garbage_pops(lower) <= garbage_pops(higher),
        garbage_picks(higher).len() == garbage_pops(higher),
        garbage_picks(lower) == garbage_picks(higher).subrange(0, garbage_pops(lower)),
    ensures
        forall|i: int|
            0 <= i < lists.len() ==> {
                let long = #[trigger] pops_applied(lists, garbage_picks(higher))[i];
                let short = pops_applied(lists, garbage_picks(lower))[i];
                &&& long.len() <= short.len()
                &&& long == short.subrange(0, long.len() as int)
            },
{
    lemma_more_pops_prune_more(lists, garbage_picks(higher), garbage_pops(lower));
}

} // verus!
