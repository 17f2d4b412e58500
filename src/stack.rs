use vstd::prelude::*;

use vstd::string::StringExecFns;

use crate::graph::{live, root_targets, slot_range};
use crate::manager::MemoryManager;
use crate::node::{GcError, Node, NodePointer};
use crate::traverse::{
    bfs_order, count_from, decimal, degree_sum, handle_set, member_count, push_char, push_decimal, render, sum_from,
    valid_from, value_sum,
};

verus! {

/// The roots' children, root by root, in order: the root set as handles.
pub open spec fn root_handles(roots: Seq<Node>) -> Seq<NodePointer>
    decreases roots.len(),
{
    if roots.len() == 0 {
        seq![]
    } else {
        root_handles(roots.drop_last()) + roots[roots.len() - 1].children@
    }
}

/// Every node reachable from any of `hs` sits in a slot of `mem`.
pub open spec fn all_valid(mem: Seq<Node>, hs: Seq<NodePointer>) -> bool {
    forall|i: int| 0 <= i < hs.len() ==> valid_from(mem, #[trigger] hs[i])
}

/// The dumps of the handles `cs`, joined by " - ".
pub open spec fn join_dumps(mem: Seq<Node>, cs: Seq<NodePointer>) -> Seq<char>
    decreases cs.len(),
{
    if cs.len() == 0 {
        seq![]
    } else if cs.len() == 1 {
        render(mem, bfs_order(mem, cs[0]))
    } else {
        join_dumps(mem, cs.drop_last()) + seq![' ', '-', ' '] + render(mem, bfs_order(mem, cs[cs.len() - 1]))
    }
}

/// One root's line: `[<value>] ` and the dumps of its children.
pub open spec fn root_line(mem: Seq<Node>, root: Node) -> Seq<char> {
    seq!['['] + decimal(root.value->Some_0 as nat) + seq![']', ' '] + join_dumps(mem, root.children@)
}

/// The lines of all roots, joined by newlines.
pub open spec fn render_all(mem: Seq<Node>, roots: Seq<Node>) -> Seq<char>
    decreases roots.len(),
{
    if roots.len() == 0 {
        seq![]
    } else if roots.len() == 1 {
        root_line(mem, roots[0])
    } else {
        render_all(mem, roots.drop_last()) + seq!['\n'] + root_line(mem, roots[roots.len() - 1])
    }
}

pub proof fn lemma_root_handles_split(roots: Seq<Node>, n: int)
    requires
        0 <= n <= roots.len(),
    ensures
        root_handles(roots) =~= root_handles(roots.subrange(0, n)) + root_handles(roots.subrange(n, roots.len() as int)),
    decreases roots.len() - n,
{
    if n < roots.len() {
        lemma_root_handles_split(roots, n + 1);
        let a = roots.subrange(0, n);
        let a1 = roots.subrange(0, n + 1);
        let b = roots.subrange(n, roots.len() as int);
        let b1 = roots.subrange(n + 1, roots.len() as int);
        assert(a1.drop_last() =~= a);
        lemma_root_handles_cons(b);
        assert(b.subrange(1, b.len() as int) =~= b1);
    } else {
        assert(roots.subrange(0, n) =~= roots);
        assert(roots.subrange(n, roots.len() as int) =~= seq![]);
    }
}

pub proof fn lemma_root_handles_cons(roots: Seq<Node>)
    requires
        roots.len() > 0,
    ensures
        root_handles(roots) =~= roots[0].children@ + root_handles(roots.subrange(1, roots.len() as int)),
    decreases roots.len(),
{
    if roots.len() == 1 {
        assert(roots.drop_last() =~= seq![]);
        assert(roots.subrange(1, 1) =~= seq![]);
    } else {
        let d = roots.drop_last();
        lemma_root_handles_cons(d);
        assert(d.subrange(1, d.len() as int) =~= roots.subrange(1, roots.len() as int).drop_last());
    }
}

/// The root handles name exactly the root targets.
pub proof fn lemma_handle_set_roots(roots: Seq<Node>)
    ensures
        handle_set(root_handles(roots)) == root_targets(roots),
    decreases roots.len(),
{
    assert forall|j: int| handle_set(root_handles(roots)).contains(j) implies root_targets(roots).contains(j) by {
        let i = choose|i: int| 0 <= i < root_handles(roots).len() && #[trigger] root_handles(roots)[i].idx == j;
        lemma_root_handle_target(roots, i);
    }
    assert forall|j: int| root_targets(roots).contains(j) implies handle_set(root_handles(roots)).contains(j) by {
        let (q, k) = choose|q: int, k: int|
            0 <= q < roots.len() && 0 <= k < roots[q].children@.len() && #[trigger] roots[q].children@[k].idx == j;
        lemma_root_handles_split(roots, q);
        let rest = roots.subrange(q, roots.len() as int);
        lemma_root_handles_cons(rest);
        assert(rest[0] == roots[q]);
        let i = root_handles(roots.subrange(0, q)).len() + k;
        assert(root_handles(roots)[i] == roots[q].children@[k]);
    }
    assert(handle_set(root_handles(roots)) =~= root_targets(roots));
}

proof fn lemma_root_handle_target(roots: Seq<Node>, i: int)
    requires
        0 <= i < root_handles(roots).len(),
    ensures
        root_targets(roots).contains(root_handles(roots)[i].idx as int),
    decreases roots.len(),
{
    let d = roots.drop_last();
    let last = roots[roots.len() - 1];
    if i < root_handles(d).len() {
        lemma_root_handle_target(d, i);
        let (q, k) = choose|q: int, k: int|
            0 <= q < d.len() && 0 <= k < d[q].children@.len() && #[trigger] d[q].children@[k].idx == root_handles(d)[i].idx as int;
        assert(roots[q] == d[q]);
        assert(roots[q].children@[k].idx == root_handles(roots)[i].idx as int);
    } else {
        let k = i - root_handles(d).len();
        assert(root_handles(roots)[i] == last.children@[k]);
        assert(roots[roots.len() - 1].children@[k].idx == root_handles(roots)[i].idx as int);
    }
}

/// The mutator's roots: records outside the arena whose children name the
/// root set.
#[derive(Debug, Clone)]
pub struct Stack {
    pub roots: Vec<Node>,
}

impl Stack {
    /// A stack of `num_roots` roots, each with value 0 and no children.
    pub fn new(num_roots: usize) -> (r: Stack)
        ensures
            r.roots@.len() == num_roots,
            forall|i: int|
                0 <= i < num_roots ==> {
                    &&& (#[trigger] r.roots@[i]).value == Some(0u32)
                    &&& r.roots@[i].children@.len() == 0
                    &&& r.roots@[i].parent is None
                    &&& r.roots@[i].forwarding_address is None
                },
    {
        let mut roots: Vec<Node> = Vec::new();
        let mut i: usize = 0;
        while i < num_roots
            invariant
                i <= num_roots,
                roots@.len() == i,
                forall|j: int|
                    0 <= j < i ==> {
                        &&& (#[trigger] roots@[j]).value == Some(0u32)
                        &&& roots@[j].children@.len() == 0
                        &&& roots@[j].parent is None
                        &&& roots@[j].forwarding_address is None
                    },
            decreases num_roots - i,
        {
            let mut node = Node::default();
            node.value = Some(0);
            roots.push(node);
            i = i + 1;
        }
        Stack { roots }
    }
    /// The root set as handles: the roots' children, root by root.
    pub fn handles(&self) -> (r: Vec<NodePointer>)
        ensures
            r@ == root_handles(self.roots@),
    {
        let mut out: Vec<NodePointer> = Vec::new();
        let mut r: usize = 0;
        proof {
            assert(self.roots@.subrange(0, 0) =~= seq![]);
        }
        while r < self.roots.len()
            invariant
                r <= self.roots@.len(),
                out@ == root_handles(self.roots@.subrange(0, r as int)),
            decreases self.roots@.len() - r,
        {
            let mut k: usize = 0;
            let ghost before = out@;
            while k < self.roots[r].children.len()
                invariant
                    r < self.roots@.len(),
                    k <= self.roots@[r as int].children@.len(),
                    out@ == before + self.roots@[r as int].children@.subrange(0, k as int),
                decreases self.roots@[r as int].children@.len() - k,
            {
                out.push(self.roots[r].children[k]);
                proof {
                    assert(self.roots@[r as int].children@.subrange(0, k + 1) =~= self.roots@[r as int].children@.subrange(
                        0,
                        k as int,
                    ).push(self.roots@[r as int].children@[k as int]));
                }
                k = k + 1;
            }
            proof {
                let cs = self.roots@[r as int].children@;
                assert(cs.subrange(0, cs.len() as int) =~= cs);
                assert(self.roots@.subrange(0, r + 1).drop_last() =~= self.roots@.subrange(0, r as int));
            }
            r = r + 1;
        }
        proof {
            assert(self.roots@.subrange(0, self.roots@.len() as int) =~= self.roots@);
        }
        out
    }

    /// The dump of every root: a line `[<root value>] ` followed by the
    /// breadth-first dumps of the root's children joined by " - "; the lines
    /// joined by newlines.
    pub fn dump_all<T: MemoryManager>(&self, heap: &T) -> (r: Result<String, GcError>)
        requires
            forall|q: int| 0 <= q < self.roots@.len() ==> (#[trigger] self.roots@[q]).value is Some,
        ensures
            r is Ok <==> all_valid(heap.memory(), root_handles(self.roots@)),
            r is Ok ==> r->Ok_0@ == render_all(heap.memory(), self.roots@),
            r is Err ==> r->Err_0 == GcError::InvalidHandle,
    {
        let ghost mem = heap.memory();
        let mut out = String::new();
        let mut q: usize = 0;
        proof {
            assert(self.roots@.subrange(0, 0) =~= seq![]);
        }
        while q < self.roots.len()
            invariant
                q <= self.roots@.len(),
                mem == heap.memory(),
                forall|q2: int| 0 <= q2 < self.roots@.len() ==> (#[trigger] self.roots@[q2]).value is Some,
                out@ == render_all(mem, self.roots@.subrange(0, q as int)),
                all_valid(mem, root_handles(self.roots@.subrange(0, q as int))),
            decreases self.roots@.len() - q,
        {
            let ghost rs = self.roots@.subrange(0, q as int);
            let ghost rs1 = self.roots@.subrange(0, q + 1);
            proof {
                assert(rs1.drop_last() =~= rs);
                assert(rs1[q as int] == self.roots@[q as int]);
            }
            if q > 0 {
                push_char(&mut out, '\n');
            }
            let ghost line_start = out@;
            push_char(&mut out, '[');
            let v = match self.roots[q].value {
                Some(v) => v,
                None => 0,
            };
            push_decimal(&mut out, v);
            push_char(&mut out, ']');
            push_char(&mut out, ' ');
            let ghost head = out@;
            let mut k: usize = 0;
            let ghost cs = self.roots@[q as int].children@;
            proof {
                assert(cs.subrange(0, 0) =~= seq![]);
            }
            while k < self.roots[q].children.len()
                invariant
                    q < self.roots@.len(),
                    cs == self.roots@[q as int].children@,
                    k <= cs.len(),
                    mem == heap.memory(),
                    out@ == head + join_dumps(mem, cs.subrange(0, k as int)),
                    rs == self.roots@.subrange(0, q as int),
                    rs1 == self.roots@.subrange(0, q + 1),
                    rs1.drop_last() == rs,
                    rs1[q as int] == self.roots@[q as int],
                    forall|k2: int| 0 <= k2 < k ==> valid_from(mem, #[trigger] cs[k2]),
                decreases cs.len() - k,
            {
                let d = match heap.dump(self.roots[q].children[k]) {
                    Ok(d) => d,
                    Err(e) => {
                        proof {
                            assert(root_handles(self.roots@) =~= root_handles(rs1) + root_handles(
                                self.roots@.subrange(q + 1, self.roots@.len() as int),
                            )) by {
                                lemma_root_handles_split(self.roots@, q + 1);
                            }
                            assert(root_handles(rs1) == root_handles(rs) + cs);
                            let i = root_handles(rs).len() + k;
                            assert(root_handles(self.roots@)[i] == cs[k as int]);
                        }
                        return Err(e);
                    },
                };
                proof {
                    assert(cs.subrange(0, k + 1).drop_last() =~= cs.subrange(0, k as int));
                    assert(cs.subrange(0, k + 1)[k as int] == cs[k as int]);
                }
                if k > 0 {
                    push_char(&mut out, ' ');
                    push_char(&mut out, '-');
                    push_char(&mut out, ' ');
                }
                out.append(d.as_str());
                proof {
                    if k == 0 {
                        assert(cs.subrange(0, 1) =~= seq![cs[0]]);
                    }
                    assert(out@ =~= head + join_dumps(mem, cs.subrange(0, k + 1)));
                }
                k = k + 1;
            }
            proof {
                assert(cs.subrange(0, cs.len() as int) =~= cs);
                assert(out@ =~= line_start + root_line(mem, self.roots@[q as int]));
                if q == 0 {
                    assert(rs1 =~= seq![self.roots@[0]]);
                }
                assert(out@ =~= render_all(mem, rs1));
                assert(root_handles(rs1) == root_handles(rs) + cs);
                assert forall|i: int| 0 <= i < root_handles(rs1).len() implies valid_from(mem, #[trigger] root_handles(rs1)[i]) by {
                    if i >= root_handles(rs).len() {
                        assert(root_handles(rs1)[i] == cs[i - root_handles(rs).len()]);
                    } else {
                        assert(root_handles(rs1)[i] == root_handles(rs)[i]);
                    }
                }
            }
            q = q + 1;
        }
        proof {
            assert(self.roots@.subrange(0, self.roots@.len() as int) =~= self.roots@);
        }
        Ok(out)
    }

    /// The sum of the payloads of the distinct nodes reachable from the
    /// roots, by one breadth-first walk over all root handles with one
    /// visited set.
    pub fn sum_bfs<T: MemoryManager>(&self, heap: &T) -> (r: Result<u64, GcError>)
        requires
            heap.memory().len() <= 0xffff_ffff,
        ensures
            r is Ok <==> live(heap.memory(), self.roots@).subset_of(slot_range(0, heap.memory().len() as int)),
            r is Ok ==> r->Ok_0 == value_sum(heap.memory(), live(heap.memory(), self.roots@), heap.memory().len() as int),
            r is Err ==> r->Err_0 == GcError::InvalidHandle,
    {
        let hs = self.handles();
        proof {
            lemma_handle_set_roots(self.roots@);
        }
        sum_from(heap.committed_memory(), &hs, false)
    }

    /// As `sum_bfs`, by one depth-first walk.
    pub fn sum_dfs<T: MemoryManager>(&self, heap: &T) -> (r: Result<u64, GcError>)
        requires
            heap.memory().len() <= 0xffff_ffff,
        ensures
            r is Ok <==> live(heap.memory(), self.roots@).subset_of(slot_range(0, heap.memory().len() as int)),
            r is Ok ==> r->Ok_0 == value_sum(heap.memory(), live(heap.memory(), self.roots@), heap.memory().len() as int),
            r is Err ==> r->Err_0 == GcError::InvalidHandle,
    {
        let hs = self.handles();
        proof {
            lemma_handle_set_roots(self.roots@);
        }
        sum_from(heap.committed_memory(), &hs, true)
    }

    /// The number of distinct nodes reachable from the roots, and the number
    /// of handles one breadth-first walk over all root handles takes off its
    /// worklist: each root handle, and every out-edge of every reachable node.
    pub fn count<T: MemoryManager>(&self, heap: &T) -> (r: Result<(u64, u64), GcError>)
        requires
            degree_sum(heap.memory(), slot_range(0, heap.memory().len() as int), heap.memory().len() as int) + root_handles(
                self.roots@,
            ).len() < u64::MAX,
            heap.memory().len() < u64::MAX,
        ensures
            r is Ok <==> live(heap.memory(), self.roots@).subset_of(slot_range(0, heap.memory().len() as int)),
            r is Ok ==> r->Ok_0.0 == member_count(live(heap.memory(), self.roots@), heap.memory().len() as int) && r->Ok_0.1
                == root_handles(self.roots@).len() + degree_sum(
                heap.memory(),
                live(heap.memory(), self.roots@),
                heap.memory().len() as int,
            ),
            r is Err ==> r->Err_0 == GcError::InvalidHandle,
    {
        let hs = self.handles();
        proof {
            lemma_handle_set_roots(self.roots@);
        }
        count_from(heap.committed_memory(), &hs)
    }
}


} // verus!
