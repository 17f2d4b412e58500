use std::collections::VecDeque;

use vstd::multiset::Multiset;
use vstd::prelude::*;

use crate::graph::{
    is_edge, lemma_edge_reachable, lemma_queued_at, lemma_queued_init, lemma_queued_prefix, lemma_queued_tail,
    lemma_reach_within_closed, lemma_slot_range_len, lemma_source_reachable, queued, reachable_from, slot_range,
};
use crate::node::{GcError, Node, NodePointer};

verus! {

/// A node's payload as a number; a node without one counts 0.
pub open spec fn value_of(n: Node) -> nat {
    match n.value {
        Some(v) => v as nat,
        None => 0,
    }
}

/// The sum of the payloads of the members of `s` below `n`.
pub open spec fn value_sum(mem: Seq<Node>, s: Set<int>, n: int) -> nat
    decreases n,
{
    if n <= 0 {
        0
    } else {
        value_sum(mem, s, n - 1) + if s.contains(n - 1) {
            value_of(mem[n - 1])
        } else {
            0
        }
    }
}

/// The payloads of the members of `s` below `n`, as a multiset.
pub open spec fn value_bag(mem: Seq<Node>, s: Set<int>, n: int) -> Multiset<Option<u32>>
    decreases n,
{
    if n <= 0 {
        Multiset::empty()
    } else if s.contains(n - 1) {
        value_bag(mem, s, n - 1).insert(mem[n - 1].value)
    } else {
        value_bag(mem, s, n - 1)
    }
}

/// The number of out-edges of the members of `s` below `n`.
pub open spec fn degree_sum(mem: Seq<Node>, s: Set<int>, n: int) -> nat
    decreases n,
{
    if n <= 0 {
        0
    } else {
        degree_sum(mem, s, n - 1) + if s.contains(n - 1) {
            mem[n - 1].children@.len()
        } else {
            0
        }
    }
}

/// The number of members of `s` below `n`.
pub open spec fn member_count(s: Set<int>, n: int) -> nat
    decreases n,
{
    if n <= 0 {
        0
    } else {
        member_count(s, n - 1) + if s.contains(n - 1) {
            1nat
        } else {
            0nat
        }
    }
}

/// The slots reachable from `p`, `p` included.
pub open spec fn reach(mem: Seq<Node>, p: NodePointer) -> Set<int> {
    reachable_from(mem, set![p.idx as int])
}

/// The slots named by the handles `hs`.
pub open spec fn handle_set(hs: Seq<NodePointer>) -> Set<int> {
    Set::new(|j: int| exists|k: int| 0 <= k < hs.len() && #[trigger] hs[k].idx == j)
}

/// The slots reachable from any of the handles `hs`.
pub open spec fn reach_all(mem: Seq<Node>, hs: Seq<NodePointer>) -> Set<int> {
    reachable_from(mem, handle_set(hs))
}

/// How many handles a walk from `hs` takes off its worklist: each of `hs`
/// and one per out-edge of each node it visits.
pub open spec fn walk_len_all(mem: Seq<Node>, hs: Seq<NodePointer>) -> nat {
    hs.len() + degree_sum(mem, reach_all(mem, hs), mem.len() as int)
}

/// Every handle reachable from `p` names a slot of `mem`.
pub open spec fn valid_from(mem: Seq<Node>, p: NodePointer) -> bool {
    reach(mem, p).subset_of(slot_range(0, mem.len() as int))
}

/// How many handles a walk from `p` takes off its worklist: `p` itself and
/// one per out-edge of each node it visits.
pub open spec fn walk_len(mem: Seq<Node>, p: NodePointer) -> nat {
    1 + degree_sum(mem, reach(mem, p), mem.len() as int)
}

/// The order in which a walk first visits nodes, taking at most `fuel`
/// handles off the worklist `wl`: from the front (breadth first) or the back
/// (depth first), appending each newly visited node's children at the back.
pub open spec fn trace(mem: Seq<Node>, wl: Seq<NodePointer>, seen: Set<int>, fuel: nat, depth_first: bool) -> Seq<NodePointer>
    decreases fuel,
{
    if fuel == 0 || wl.len() == 0 {
        seq![]
    } else {
        let h = if depth_first {
            wl[wl.len() - 1]
        } else {
            wl[0]
        };
        let rest = if depth_first {
            wl.drop_last()
        } else {
            wl.subrange(1, wl.len() as int)
        };
        if seen.contains(h.idx as int) || h.idx >= mem.len() {
            trace(mem, rest, seen, (fuel - 1) as nat, depth_first)
        } else {
            seq![h] + trace(mem, rest + mem[h.idx as int].children@, seen.insert(h.idx as int), (fuel - 1) as nat, depth_first)
        }
    }
}

/// The breadth-first visiting order from `p`.
pub open spec fn bfs_order(mem: Seq<Node>, p: NodePointer) -> Seq<NodePointer> {
    trace(mem, seq![p], Set::empty(), walk_len(mem, p), false)
}

/// Adding a slot to a set adds its payload, its out-degree and one member.
pub proof fn lemma_sums_insert(mem: Seq<Node>, s: Set<int>, h: int, n: int)
    requires
        !s.contains(h),
        0 <= h < n,
    ensures
        value_sum(mem, s.insert(h), n) == value_sum(mem, s, n) + value_of(mem[h]),
        degree_sum(mem, s.insert(h), n) == degree_sum(mem, s, n) + mem[h].children@.len(),
        member_count(s.insert(h), n) == member_count(s, n) + 1,
        value_bag(mem, s.insert(h), n) == value_bag(mem, s, n).insert(mem[h].value),
    decreases n,
{
    if n - 1 > h {
        lemma_sums_insert(mem, s, h, n - 1);
        if s.contains(n - 1) {
            assert(value_bag(mem, s, n - 1).insert(mem[h].value).insert(mem[n - 1].value) =~= value_bag(mem, s, n - 1).insert(
                mem[n - 1].value,
            ).insert(mem[h].value));
        }
    } else {
        lemma_sums_same_below(mem, s, s.insert(h), n - 1);
    }
}

proof fn lemma_sums_same_below(mem: Seq<Node>, s: Set<int>, t: Set<int>, n: int)
    requires
        forall|i: int| 0 <= i < n ==> (s.contains(i) <==> t.contains(i)),
    ensures
        value_sum(mem, s, n) == value_sum(mem, t, n),
        degree_sum(mem, s, n) == degree_sum(mem, t, n),
        member_count(s, n) == member_count(t, n),
        value_bag(mem, s, n) == value_bag(mem, t, n),
    decreases n,
{
    if n > 0 {
        lemma_sums_same_below(mem, s, t, n - 1);
    }
}

pub proof fn lemma_sums_empty(mem: Seq<Node>, n: int)
    ensures
        value_sum(mem, Set::empty(), n) == 0,
        degree_sum(mem, Set::empty(), n) == 0,
        member_count(Set::empty(), n) == 0,
        value_bag(mem, Set::empty(), n) == Multiset::<Option<u32>>::empty(),
    decreases n,
{
    if n > 0 {
        lemma_sums_empty(mem, n - 1);
    }
}

pub proof fn lemma_degree_mono(mem: Seq<Node>, s: Set<int>, t: Set<int>, n: int)
    requires
        s.subset_of(t),
    ensures
        degree_sum(mem, s, n) <= degree_sum(mem, t, n),
    decreases n,
{
    if n > 0 {
        lemma_degree_mono(mem, s, t, n - 1);
    }
}

pub proof fn lemma_value_bound(mem: Seq<Node>, s: Set<int>, n: int)
    requires
        n >= 0,
    ensures
        value_sum(mem, s, n) <= n * 0xffff_ffff,
    decreases n,
{
    if n > 0 {
        lemma_value_bound(mem, s, n - 1);
    }
}

/// Walks the graph from the handles `starts`, breadth first or depth first,
/// with one visited set for all of them; fails if it meets a handle that
/// names no slot. Returns, per slot, whether the walk visited it, and the
/// order of first visits.
pub fn walk_from(mem: &[Node], starts: &Vec<NodePointer>, depth_first: bool) -> (r: Option<(Vec<bool>, Vec<NodePointer>)>)
    ensures
        r is None <==> !reach_all(mem@, starts@).subset_of(slot_range(0, mem@.len() as int)),
        r matches Some((visited, order)) ==> {
            &&& visited@.len() == mem@.len()
            &&& forall|i: int| 0 <= i < mem@.len() ==> (visited@[i] <==> #[trigger] reach_all(mem@, starts@).contains(i))
            &&& order@ == trace(mem@, starts@, Set::empty(), walk_len_all(mem@, starts@), depth_first)
        },
{
    let ghost m = mem@;
    let ghost src = handle_set(starts@);
    let ghost rs = reach_all(m, starts@);
    let ghost total = walk_len_all(m, starts@);
    let len = mem.len();
    let mut visited: Vec<bool> = Vec::new();
    let mut i: usize = 0;
    while i < len
        invariant
            i <= len,
            visited@.len() == i,
            forall|j: int| 0 <= j < i ==> !visited@[j],
        decreases len - i,
    {
        visited.push(false);
        i = i + 1;
    }
    let mut order: Vec<NodePointer> = Vec::new();
    let mut wl: VecDeque<NodePointer> = VecDeque::new();
    let mut s0: usize = 0;
    while s0 < starts.len()
        invariant
            s0 <= starts@.len(),
            wl@ == starts@.subrange(0, s0 as int),
        decreases starts@.len() - s0,
    {
        wl.push_back(starts[s0]);
        proof {
            assert(starts@.subrange(0, s0 + 1) =~= starts@.subrange(0, s0 as int).push(starts@[s0 as int]));
        }
        s0 = s0 + 1;
    }
    let ghost mut seen: Set<int> = Set::empty();
    let ghost mut pops: nat = 0;
    proof {
        assert(wl@ =~= starts@);
        assert forall|k: int| 0 <= k < starts@.len() implies queued(wl@, #[trigger] starts@[k].idx as int) && rs.contains(
            starts@[k].idx as int,
        ) by {
            lemma_queued_at(wl@, k, starts@[k].idx as int);
            assert(src.contains(starts@[k].idx as int));
            lemma_source_reachable(m, src, starts@[k].idx as int);
        }
        lemma_slot_range_len(0, len as int);
        lemma_sums_empty(m, len as int);
    }
    while wl.len() > 0
        invariant
            len == m.len(),
            mem@ == m,
            src == handle_set(starts@),
            rs == reach_all(m, starts@),
            total == walk_len_all(m, starts@),
            slot_range(0, len as int).finite(),
            slot_range(0, len as int).len() == len,
            visited@.len() == len,
            forall|j: int| 0 <= j < len ==> (visited@[j] <==> seen.contains(j)),
            seen.subset_of(rs),
            seen.subset_of(slot_range(0, len as int)),
            seen.finite(),
            forall|k: int| 0 <= k < wl@.len() ==> rs.contains(#[trigger] wl@[k].idx as int),
            forall|i2: int, j: int| seen.contains(i2) && #[trigger] is_edge(m, i2, j) ==> seen.contains(j) || queued(wl@, j),
            forall|k: int| 0 <= k < starts@.len() ==> seen.contains(#[trigger] starts@[k].idx as int) || queued(wl@, starts@[k].idx as int),
            pops + wl@.len() == starts@.len() + degree_sum(m, seen, len as int),
            order@ + trace(m, wl@, seen, (total - pops) as nat, depth_first) == trace(m, starts@, Set::empty(), total, depth_first),
        decreases len - seen.len(), wl@.len(),
    {
        proof {
            lemma_degree_mono(m, seen, rs, len as int);
            vstd::set_lib::lemma_len_subset(seen, slot_range(0, len as int));
        }
        let ghost wl0 = wl@;
        let ghost fuel = (total - pops) as nat;
        let h = if depth_first {
            wl.pop_back().unwrap()
        } else {
            wl.pop_front().unwrap()
        };
        let ghost rest = wl@;
        proof {
            assert(fuel >= 1);
            if depth_first {
                assert(h == wl0[wl0.len() - 1]);
                assert(rest =~= wl0.drop_last());
            } else {
                assert(h == wl0[0]);
                assert(rest =~= wl0.subrange(1, wl0.len() as int));
            }
            assert(rs.contains(h.idx as int));
        }
        if h.idx >= len {
            return None;
        }
        if !visited[h.idx] {
            visited.set(h.idx, true);
            order.push(h);
            let ghost seen0 = seen;
            proof {
                lemma_sums_insert(m, seen, h.idx as int, len as int);
                seen = seen.insert(h.idx as int);
                pops = pops + 1;
                vstd::set_lib::lemma_len_subset(seen, slot_range(0, len as int));
            }
            let mut k: usize = 0;
            while k < mem[h.idx].children.len()
                invariant
                    h.idx < len,
                    len == m.len(),
                    mem@ == m,
                    k <= m[h.idx as int].children@.len(),
                    wl@ == rest + m[h.idx as int].children@.subrange(0, k as int),
                decreases m[h.idx as int].children@.len() - k,
            {
                let c = mem[h.idx].children[k];
                wl.push_back(c);
                proof {
                    assert(m[h.idx as int].children@.subrange(0, k + 1) =~= m[h.idx as int].children@.subrange(0, k as int).push(c));
                }
                k = k + 1;
            }
            proof {
                let hc = m[h.idx as int].children@;
                assert(hc.subrange(0, hc.len() as int) =~= hc);
                assert(wl@ == rest + hc);
                assert forall|k2: int| 0 <= k2 < wl@.len() implies rs.contains(#[trigger] wl@[k2].idx as int) by {
                    if k2 >= rest.len() {
                        let m2 = k2 - rest.len();
                        assert(wl@[k2] == hc[m2]);
                        assert(is_edge(m, h.idx as int, hc[m2].idx as int));
                        lemma_edge_reachable(m, src, h.idx as int, hc[m2].idx as int);
                    } else {
                        assert(wl@[k2] == rest[k2]);
                        if depth_first {
                            assert(rest[k2] == wl0[k2]);
                        } else {
                            assert(rest[k2] == wl0[k2 + 1]);
                        }
                    }
                }
                assert forall|i2: int, j: int| seen.contains(i2) && #[trigger] is_edge(m, i2, j) implies seen.contains(j) || queued(wl@, j) by {
                    if i2 == h.idx {
                        let k3 = choose|k3: int| 0 <= k3 < hc.len() && #[trigger] hc[k3].idx == j;
                        lemma_queued_at(wl@, rest.len() + k3, j);
                    } else if !seen.contains(j) {
                        assert(seen0.contains(i2));
                        if depth_first {
                            lemma_queued_init(wl0, rest, j);
                        } else {
                            lemma_queued_tail(wl0, rest, j);
                        }
                        lemma_queued_prefix(rest, wl@, j);
                    }
                }
                assert forall|k: int| 0 <= k < starts@.len() implies seen.contains(#[trigger] starts@[k].idx as int) || queued(
                    wl@,
                    starts@[k].idx as int,
                ) by {
                    let j = starts@[k].idx as int;
                    if !seen.contains(j) {
                        assert(!seen0.contains(j));
                        if depth_first {
                            lemma_queued_init(wl0, rest, j);
                        } else {
                            lemma_queued_tail(wl0, rest, j);
                        }
                        lemma_queued_prefix(rest, wl@, j);
                    }
                }
                assert(trace(m, wl0, seen0, fuel, depth_first) == seq![h] + trace(m, rest + hc, seen, (fuel - 1) as nat, depth_first));
                assert(order@ + trace(m, wl@, seen, (total - pops) as nat, depth_first) =~= trace(m, starts@, Set::empty(), total, depth_first));
            }
        } else {
            proof {
                pops = pops + 1;
                assert forall|k2: int| 0 <= k2 < wl@.len() implies rs.contains(#[trigger] wl@[k2].idx as int) by {
                    if depth_first {
                        assert(wl@[k2] == wl0[k2]);
                    } else {
                        assert(wl@[k2] == wl0[k2 + 1]);
                    }
                }
                assert forall|i2: int, j: int| seen.contains(i2) && #[trigger] is_edge(m, i2, j) implies seen.contains(j) || queued(wl@, j) by {
                    if !seen.contains(j) {
                        if depth_first {
                            lemma_queued_init(wl0, wl@, j);
                        } else {
                            lemma_queued_tail(wl0, wl@, j);
                        }
                    }
                }
                assert forall|k: int| 0 <= k < starts@.len() implies seen.contains(#[trigger] starts@[k].idx as int) || queued(
                    wl@,
                    starts@[k].idx as int,
                ) by {
                    let j = starts@[k].idx as int;
                    if !seen.contains(j) {
                        if depth_first {
                            lemma_queued_init(wl0, wl@, j);
                        } else {
                            lemma_queued_tail(wl0, wl@, j);
                        }
                    }
                }
                assert(trace(m, wl0, seen, fuel, depth_first) == trace(m, rest, seen, (fuel - 1) as nat, depth_first));
            }
        }
    }
    proof {
        assert forall|i2: int, j: int| seen.contains(i2) && #[trigger] is_edge(m, i2, j) implies seen.contains(j) by {
        }
        assert forall|j: int| src.contains(j) implies seen.contains(j) by {
            let k = choose|k: int| 0 <= k < starts@.len() && #[trigger] starts@[k].idx == j;
        }
        lemma_reach_within_closed(m, src, seen);
        assert(seen =~= rs);
        assert(pops == total);
        assert(trace(m, wl@, seen, 0, depth_first) =~= seq![]);
        assert(order@ =~= trace(m, starts@, Set::empty(), total, depth_first));
    }
    Some((visited, order))
}

/// `walk_from` from the single handle `p`.
pub fn walk(mem: &[Node], p: NodePointer, depth_first: bool) -> (r: Option<(Vec<bool>, Vec<NodePointer>)>)
    ensures
        r is None <==> !valid_from(mem@, p),
        r matches Some((visited, order)) ==> {
            &&& visited@.len() == mem@.len()
            &&& forall|i: int| 0 <= i < mem@.len() ==> (visited@[i] <==> #[trigger] reach(mem@, p).contains(i))
            &&& order@ == trace(mem@, seq![p], Set::empty(), walk_len(mem@, p), depth_first)
        },
{
    walk_from(mem, &single(p), depth_first)
}


/// Adds up the payloads of the visited slots.
fn sum_visited(mem: &[Node], visited: &Vec<bool>, Ghost(s): Ghost<Set<int>>) -> (r: u64)
    requires
        visited@.len() == mem@.len(),
        mem@.len() <= 0xffff_ffff,
        forall|i: int| 0 <= i < mem@.len() ==> (visited@[i] <==> #[trigger] s.contains(i)),
    ensures
        r == value_sum(mem@, s, mem@.len() as int),
{
    let mut sum: u64 = 0;
    let mut i: usize = 0;
    while i < mem.len()
        invariant
            i <= mem@.len(),
            visited@.len() == mem@.len(),
            mem@.len() <= 0xffff_ffff,
            forall|j: int| 0 <= j < mem@.len() ==> (visited@[j] <==> #[trigger] s.contains(j)),
            sum == value_sum(mem@, s, i as int),
        decreases mem@.len() - i,
    {
        proof {
            lemma_value_bound(mem@, s, i + 1);
            assert((i + 1) * 0xffff_ffff <= 0xffff_ffff * 0xffff_ffff) by (nonlinear_arith)
                requires
                    i + 1 <= 0xffff_ffff,
            ;
        }
        if visited[i] {
            if let Some(v) = mem[i].value {
                sum = sum + v as u64;
            }
        }
        i = i + 1;
    }
    sum
}

/// The sum of the payloads of the nodes reachable from any of `starts`,
/// each counted once (one visited set for all of them), found by a
/// breadth-first or depth-first walk.
pub fn sum_from(mem: &[Node], starts: &Vec<NodePointer>, depth_first: bool) -> (r: Result<u64, GcError>)
    requires
        mem@.len() <= 0xffff_ffff,
    ensures
        r is Ok <==> reach_all(mem@, starts@).subset_of(slot_range(0, mem@.len() as int)),
        r is Ok ==> r->Ok_0 == value_sum(mem@, reach_all(mem@, starts@), mem@.len() as int),
        r is Err ==> r->Err_0 == GcError::InvalidHandle,
{
    match walk_from(mem, starts, depth_first) {
        None => Err(GcError::InvalidHandle),
        Some((visited, _)) => Ok(sum_visited(mem, &visited, Ghost(reach_all(mem@, starts@)))),
    }
}

/// The number of distinct nodes reachable from any of `starts`, and the
/// number of handles a breadth-first walk from them takes off its worklist
/// (each of `starts` and every out-edge of every visited node).
pub fn count_from(mem: &[Node], starts: &Vec<NodePointer>) -> (r: Result<(u64, u64), GcError>)
    requires
        degree_sum(mem@, slot_range(0, mem@.len() as int), mem@.len() as int) + starts@.len() < u64::MAX,
        mem@.len() < u64::MAX,
    ensures
        r is Ok <==> reach_all(mem@, starts@).subset_of(slot_range(0, mem@.len() as int)),
        r is Ok ==> r->Ok_0.0 == member_count(reach_all(mem@, starts@), mem@.len() as int) && r->Ok_0.1 == walk_len_all(
            mem@,
            starts@,
        ),
        r is Err ==> r->Err_0 == GcError::InvalidHandle,
{
    match walk_from(mem, starts, false) {
        None => Err(GcError::InvalidHandle),
        Some((visited, _)) => {
            let ghost s = reach_all(mem@, starts@);
            let ghost all = slot_range(0, mem@.len() as int);
            let mut nodes: u64 = 0;
            let mut edges: u64 = starts.len() as u64;
            let mut i: usize = 0;
            while i < mem.len()
                invariant
                    i <= mem@.len(),
                    visited@.len() == mem@.len(),
                    forall|j: int| 0 <= j < mem@.len() ==> (visited@[j] <==> #[trigger] s.contains(j)),
                    s.subset_of(all),
                    all == slot_range(0, mem@.len() as int),
                    degree_sum(mem@, all, mem@.len() as int) + starts@.len() < u64::MAX,
                    mem@.len() < u64::MAX,
                    nodes == member_count(s, i as int),
                    nodes <= i,
                    edges == starts@.len() + degree_sum(mem@, s, i as int),
                decreases mem@.len() - i,
            {
                proof {
                    lemma_degree_mono(mem@, s, all, i + 1);
                    lemma_degree_prefix(mem@, all, i + 1, mem@.len() as int);
                }
                if visited[i] {
                    nodes = nodes + 1;
                    edges = edges + mem[i].children.len() as u64;
                }
                i = i + 1;
            }
            Ok((nodes, edges))
        }
    }
}

/// The one-handle list `[p]`.
fn single(p: NodePointer) -> (r: Vec<NodePointer>)
    ensures
        r@ == seq![p],
        handle_set(r@) == set![p.idx as int],
{
    let mut starts: Vec<NodePointer> = Vec::new();
    starts.push(p);
    proof {
        assert(starts@ =~= seq![p]);
        assert(handle_set(starts@) =~= set![p.idx as int]) by {
            assert(starts@[0].idx == p.idx);
        }
    }
    starts
}

/// The sum of the payloads of the nodes reachable from `p`, each counted
/// once, found by a breadth-first walk.
pub fn sum_bfs(mem: &[Node], p: NodePointer) -> (r: Result<u64, GcError>)
    requires
        mem@.len() <= 0xffff_ffff,
    ensures
        r is Ok <==> valid_from(mem@, p),
        r is Ok ==> r->Ok_0 == value_sum(mem@, reach(mem@, p), mem@.len() as int),
        r is Err ==> r->Err_0 == GcError::InvalidHandle,
{
    sum_from(mem, &single(p), false)
}

/// The sum of the payloads of the nodes reachable from `p`, each counted
/// once, found by a depth-first walk.
pub fn sum_dfs(mem: &[Node], p: NodePointer) -> (r: Result<u64, GcError>)
    requires
        mem@.len() <= 0xffff_ffff,
    ensures
        r is Ok <==> valid_from(mem@, p),
        r is Ok ==> r->Ok_0 == value_sum(mem@, reach(mem@, p), mem@.len() as int),
        r is Err ==> r->Err_0 == GcError::InvalidHandle,
{
    sum_from(mem, &single(p), true)
}

/// The number of distinct nodes reachable from `p`, and the number of
/// handles a breadth-first walk from `p` takes off its worklist (`p` and
/// every out-edge of every visited node).
pub fn count(mem: &[Node], p: NodePointer) -> (r: Result<(u64, u64), GcError>)
    requires
        degree_sum(mem@, slot_range(0, mem@.len() as int), mem@.len() as int) + 1 < u64::MAX,
        mem@.len() < u64::MAX,
    ensures
        r is Ok <==> valid_from(mem@, p),
        r is Ok ==> r->Ok_0.0 == member_count(reach(mem@, p), mem@.len() as int) && r->Ok_0.1 == walk_len(mem@, p),
        r is Err ==> r->Err_0 == GcError::InvalidHandle,
{
    count_from(mem, &single(p))
}

proof fn lemma_degree_prefix(mem: Seq<Node>, s: Set<int>, a: int, b: int)
    requires
        a <= b,
    ensures
        degree_sum(mem, s, a) <= degree_sum(mem, s, b),
    decreases b - a,
{
    if a < b {
        lemma_degree_prefix(mem, s, a, b - 1);
    }
}

/// The decimal digit `d`.
pub open spec fn digit_char(d: nat) -> char {
    ((48 + d) as u8) as char
}

/// The decimal numeral of `v`.
pub open spec fn decimal(v: nat) -> Seq<char>
    decreases v,
{
    if v < 10 {
        seq![digit_char(v)]
    } else {
        decimal(v / 10).push(digit_char(v % 10))
    }
}

/// The payloads of the nodes of `order` that have one, as decimal numerals
/// joined by ", ".
pub open spec fn render(mem: Seq<Node>, order: Seq<NodePointer>) -> Seq<char>
    decreases order.len(),
{
    if order.len() == 0 {
        seq![]
    } else {
        let pre = render(mem, order.drop_last());
        match mem[order[order.len() - 1].idx as int].value {
            None => pre,
            Some(v) => if pre.len() == 0 {
                decimal(v as nat)
            } else {
                pre + seq![',', ' '] + decimal(v as nat)
            },
        }
    }
}

/// Relies on `String::push`: appends one character.
#[verifier::external_body]
pub(crate) fn push_char(s: &mut String, c: char)
    ensures
        final(s)@ == old(s)@.push(c),
{
    s.push(c)
}

/// Appends the decimal numeral of `v`.
pub(crate) fn push_decimal(s: &mut String, v: u32)
    ensures
        final(s)@ == old(s)@ + decimal(v as nat),
    decreases v,
{
    if v >= 10 {
        push_decimal(s, v / 10);
    }
    let d = (v % 10) as u8;
    push_char(s, (48u8 + d) as char);
    proof {
        assert(final(s)@ =~= old(s)@ + decimal(v as nat));
    }
}

proof fn lemma_trace_in_range(mem: Seq<Node>, wl: Seq<NodePointer>, seen: Set<int>, fuel: nat, depth_first: bool)
    ensures
        forall|j: int|
            0 <= j < trace(mem, wl, seen, fuel, depth_first).len() ==> #[trigger] trace(mem, wl, seen, fuel, depth_first)[j].idx
                < mem.len(),
    decreases fuel,
{
    if fuel > 0 && wl.len() > 0 {
        let h = if depth_first {
            wl[wl.len() - 1]
        } else {
            wl[0]
        };
        let rest = if depth_first {
            wl.drop_last()
        } else {
            wl.subrange(1, wl.len() as int)
        };
        if seen.contains(h.idx as int) || h.idx >= mem.len() {
            lemma_trace_in_range(mem, rest, seen, (fuel - 1) as nat, depth_first);
            assert(trace(mem, wl, seen, fuel, depth_first) == trace(mem, rest, seen, (fuel - 1) as nat, depth_first));
        } else {
            let wl2 = rest + mem[h.idx as int].children@;
            let seen2 = seen.insert(h.idx as int);
            lemma_trace_in_range(mem, wl2, seen2, (fuel - 1) as nat, depth_first);
            let t2 = trace(mem, wl2, seen2, (fuel - 1) as nat, depth_first);
            assert(trace(mem, wl, seen, fuel, depth_first) == seq![h] + t2);
            assert forall|j: int| 0 <= j < 1 + t2.len() implies #[trigger] (seq![h] + t2)[j].idx < mem.len() by {
                if j > 0 {
                    assert((seq![h] + t2)[j] == t2[j - 1]);
                }
            }
        }
    }
}

proof fn lemma_decimal_nonempty(v: nat)
    ensures
        decimal(v).len() > 0,
    decreases v,
{
    if v >= 10 {
        lemma_decimal_nonempty(v / 10);
    }
}

/// The breadth-first dump of the nodes reachable from `p`: their payloads in
/// visiting order, joined by ", ".
pub fn dump(mem: &[Node], p: NodePointer) -> (r: Result<String, GcError>)
    ensures
        r is Ok <==> valid_from(mem@, p),
        r is Ok ==> r->Ok_0@ == render(mem@, bfs_order(mem@, p)),
        r is Err ==> r->Err_0 == GcError::InvalidHandle,
{
    match walk(mem, p, false) {
        None => Err(GcError::InvalidHandle),
        Some((_, order)) => {
            let mut out = String::new();
            let mut any = false;
            let mut k: usize = 0;
            proof {
                assert(order@.subrange(0, 0) =~= seq![]);
                lemma_trace_in_range(mem@, seq![p], Set::empty(), walk_len(mem@, p), false);
            }
            while k < order.len()
                invariant
                    k <= order@.len(),
                    out@ == render(mem@, order@.subrange(0, k as int)),
                    any <==> out@.len() > 0,
                    forall|j: int| 0 <= j < order@.len() ==> #[trigger] order@[j].idx < mem@.len(),
                decreases order@.len() - k,
            {
                let h = order[k];
                let ghost pre = order@.subrange(0, k as int);
                proof {
                    assert(order@.subrange(0, k + 1).drop_last() =~= pre);
                    assert(order@.subrange(0, k + 1)[k as int] == h);
                }
                if let Some(v) = mem[h.idx].value {
                    if any {
                        push_char(&mut out, ',');
                        push_char(&mut out, ' ');
                    }
                    push_decimal(&mut out, v);
                    any = true;
                    proof {
                        lemma_decimal_nonempty(v as nat);
                        assert(out@ =~= render(mem@, order@.subrange(0, k + 1)));
                    }
                }
                k = k + 1;
            }
            proof {
                assert(order@.subrange(0, order@.len() as int) =~= order@);
            }
            Ok(out)
        }
    }
}

} // verus!
