//! A graph builder whose edges go from a node to its parents, and its orderings.
use vstd::prelude::*;

verus! {

/// A node of a graph: its position among the nodes.
pub type Node = usize;

/// The parents of a node.
#[derive(Debug, Clone, PartialEq, Eq)]
pub struct NodeData {
    pub parents: Vec<Node>,
}

impl NodeData {
    /// The parents of the node.
    pub fn adjacent(&self) -> (r: &Vec<Node>)
        ensures
            r@ == self.parents@,
    {
        &self.parents
    }
}

/// Every edge of the graph ends at a node of the graph.
pub open spec fn edges_ok(nodes: Seq<NodeData>) -> bool {
    forall|u: int, k: int| 0 <= u < nodes.len() && 0 <= k < nodes[u].parents@.len() ==> (#[trigger] nodes[u].parents@[k])
        < nodes.len()
}

/// The parents of node `u` after the edges (each from a child to a parent) are added in
/// order to `nodes`.
pub open spec fn parents_after(nodes: Seq<NodeData>, edges: Seq<(Node, Node)>, u: int) -> Seq<Node>
    decreases edges.len(),
{
    if edges.len() == 0 {
        nodes[u].parents@
    } else {
        let rest = parents_after(nodes, edges.drop_last(), u);
        if edges.last().0 as int == u {
            rest.push(edges.last().1)
        } else {
            rest
        }
    }
}

/// The position of the first `x` in `s`, or -1 where there is none.
pub open spec fn first_pos(s: Seq<Node>, x: Node) -> int {
    if s.contains(x) {
        choose|i: int| 0 <= i < s.len() && s[i] == x && forall|j: int| 0 <= j < i ==> s[j] != x
    } else {
        -1
    }
}

/// For every edge from a node to a parent, the node is not after the parent in `order`
/// (positions are first occurrences; a missing node comes before every present one).
pub open spec fn is_topological_spec(nodes: Seq<NodeData>, order: Seq<Node>) -> bool {
    forall|u: int, k: int|
        0 <= u < nodes.len() && 0 <= k < nodes[u].parents@.len() ==> first_pos(order, u as Node)
            <= first_pos(order, #[trigger] nodes[u].parents@[k])
}

/// For every edge from a node to a parent, the node is not before the parent in `order`.
pub open spec fn is_reverse_topological_spec(nodes: Seq<NodeData>, order: Seq<Node>) -> bool {
    forall|u: int, k: int|
        0 <= u < nodes.len() && 0 <= k < nodes[u].parents@.len() ==> first_pos(order, u as Node)
            >= first_pos(order, #[trigger] nodes[u].parents@[k])
}

/// How many times `v` occurs in `ps`.
pub open spec fn count(ps: Seq<Node>, v: Node) -> nat
    decreases ps.len(),
{
    if ps.len() == 0 {
        0
    } else {
        count(ps.drop_last(), v) + if ps.last() == v {
            1nat
        } else {
            0nat
        }
    }
}

/// The number of edges into `v` from the nodes before `u` that are not `done`.
pub open spec fn pending(nodes: Seq<NodeData>, done: Seq<bool>, v: Node, u: int) -> nat
    decreases u,
{
    if u <= 0 {
        0
    } else {
        pending(nodes, done, v, u - 1) + if done[u - 1] {
            0nat
        } else {
            count(nodes[u - 1].parents@, v)
        }
    }
}

/// No node done.
pub open spec fn none_done(n: nat) -> Seq<bool> {
    Seq::new(n, |i: int| false)
}

/// The number of edges into `v`.
pub open spec fn in_degree(nodes: Seq<NodeData>, v: Node) -> nat {
    pending(nodes, none_done(nodes.len()), v, nodes.len() as int)
}

proof fn lemma_count_take(ps: Seq<Node>, v: Node, k: int)
    requires
        0 <= k < ps.len(),
    ensures
        count(ps.take(k + 1), v) == count(ps.take(k), v) + if ps[k] == v {
            1nat
        } else {
            0nat
        },
{
    assert(ps.take(k + 1).drop_last() =~= ps.take(k));
}

proof fn lemma_count_skip(ps: Seq<Node>, v: Node, k: int)
    requires
        0 <= k <= ps.len(),
    ensures
        count(ps, v) == count(ps.take(k), v) + count(ps.skip(k), v),
    decreases ps.len(),
{
    if k < ps.len() {
        lemma_count_skip(ps.drop_last(), v, k);
        assert(ps.drop_last().take(k) =~= ps.take(k));
        assert(ps.skip(k).drop_last() =~= ps.drop_last().skip(k));
    } else {
        assert(ps.take(k) =~= ps);
        assert(ps.skip(k) =~= Seq::<Node>::empty());
    }
}

proof fn lemma_count_pos(ps: Seq<Node>, v: Node, k: int)
    requires
        0 <= k < ps.len(),
        ps[k] == v,
    ensures
        count(ps, v) >= 1,
    decreases ps.len(),
{
    if k < ps.len() - 1 {
        lemma_count_pos(ps.drop_last(), v, k);
    }
}

/// Marking the not-done node `x` done removes its edges from the pending ones.
proof fn lemma_pending_mark(nodes: Seq<NodeData>, done: Seq<bool>, v: Node, u: int, x: int)
    requires
        0 <= x < done.len(),
        u <= done.len(),
        !done[x],
    ensures
        pending(nodes, done, v, u) == pending(nodes, done.update(x, true), v, u) + if x < u {
            count(nodes[x].parents@, v)
        } else {
            0
        },
    decreases u,
{
    if u > 0 {
        lemma_pending_mark(nodes, done, v, u - 1, x);
    }
}

proof fn lemma_pending_mono(nodes: Seq<NodeData>, done: Seq<bool>, v: Node, u: int, w: int)
    requires
        u <= w,
    ensures
        pending(nodes, done, v, u) <= pending(nodes, done, v, w),
    decreases w - u,
{
    if u < w {
        lemma_pending_mono(nodes, done, v, u, w - 1);
    }
}

/// With no pending edge into `v`, every edge into `v` leaves a done node.
proof fn lemma_pending_zero(nodes: Seq<NodeData>, done: Seq<bool>, v: Node, u: int, w: int, k: int)
    requires
        pending(nodes, done, v, u) == 0,
        0 <= w < u,
        u <= done.len(),
        u <= nodes.len(),
        0 <= k < nodes[w].parents@.len(),
        nodes[w].parents@[k] == v,
    ensures
        done[w],
    decreases u,
{
    if w < u - 1 {
        lemma_pending_zero(nodes, done, v, u - 1, w, k);
    } else if !done[w] {
        lemma_count_pos(nodes[w].parents@, v, k);
    }
}

/// The graph has no cycle: some ranking puts every node strictly below each of its
/// parents (a finite graph has such a ranking exactly when it has no cycle).
pub open spec fn is_acyclic(nodes: Seq<NodeData>) -> bool {
    exists|rank: spec_fn(int) -> nat| ranks_below_parents(nodes, rank)
}

/// Every node ranks strictly below each of its parents.
pub open spec fn ranks_below_parents(nodes: Seq<NodeData>, rank: spec_fn(int) -> nat) -> bool {
    forall|u: int, k: int|
        0 <= u < nodes.len() && 0 <= k < nodes[u].parents@.len() ==> rank(u) < rank(
            #[trigger] nodes[u].parents@[k] as int,
        )
}

proof fn lemma_count_witness(ps: Seq<Node>, v: Node) -> (k: int)
    requires
        count(ps, v) > 0,
    ensures
        0 <= k < ps.len(),
        ps[k] == v,
    decreases ps.len(),
{
    if ps.last() == v {
        (ps.len() - 1) as int
    } else {
        lemma_count_witness(ps.drop_last(), v)
    }
}

/// A pending edge into `v` leaves some node before `u` that is not done.
proof fn lemma_pending_witness(nodes: Seq<NodeData>, done: Seq<bool>, v: Node, u: int) -> (wk: (int, int))
    requires
        pending(nodes, done, v, u) > 0,
        u <= done.len(),
        u <= nodes.len(),
    ensures
        0 <= wk.0 < u,
        !done[wk.0],
        0 <= wk.1 < nodes[wk.0].parents@.len(),
        nodes[wk.0].parents@[wk.1] == v,
    decreases u,
{
    if pending(nodes, done, v, u - 1) > 0 {
        lemma_pending_witness(nodes, done, v, u - 1)
    } else {
        let k = lemma_count_witness(nodes[u - 1].parents@, v);
        (u - 1, k)
    }
}

/// In a ranked graph, where every node without pending edges is done, every node is done.
proof fn lemma_all_done(nodes: Seq<NodeData>, done: Seq<bool>, rank: spec_fn(int) -> nat, v: Node)
    requires
        done.len() == nodes.len(),
        nodes.len() <= usize::MAX,
        v < nodes.len(),
        ranks_below_parents(nodes, rank),
        forall|x: Node| x < nodes.len() && #[trigger] pending(nodes, done, x, nodes.len() as int) == 0 ==> done[x as int],
    ensures
        done[v as int],
    decreases rank(v as int),
{
    if !done[v as int] {
        assert(pending(nodes, done, v, nodes.len() as int) > 0);
        let (w, k) = lemma_pending_witness(nodes, done, v, nodes.len() as int);
        assert(rank(w) < rank(nodes[w].parents@[k] as int));
        assert((w as Node) as int == w);
        lemma_all_done(nodes, done, rank, w as Node);
    }
}

/// Distinct nodes below `n` number at most `n`.
proof fn lemma_distinct_bound(s: Seq<Node>, n: nat)
    requires
        forall|j: int| 0 <= j < s.len() ==> (#[trigger] s[j]) < n,
        forall|i: int, j: int| 0 <= i < j < s.len() ==> #[trigger] s[i] != #[trigger] s[j],
    ensures
        s.len() <= n,
    decreases n,
{
    if n == 0 {
        if s.len() > 0 {
            assert(s[0] < n);
        }
    } else if exists|i: int| 0 <= i < s.len() && s[i] == n - 1 {
        let i = choose|i: int| 0 <= i < s.len() && s[i] == n - 1;
        let t = Seq::new((s.len() - 1) as nat, |j: int| if j < i { s[j] } else { s[j + 1] });
        assert forall|j: int| 0 <= j < t.len() implies (#[trigger] t[j]) < n - 1 by {
            if j < i {
                assert(s[j] != s[i]);
            } else {
                assert(s[i] != s[j + 1]);
            }
        }
        assert forall|a: int, b: int| 0 <= a < b < t.len() implies #[trigger] t[a] != #[trigger] t[b] by {
            if b < i {
                assert(s[a] != s[b]);
            } else if a < i {
                assert(s[a] != s[b + 1]);
            } else {
                assert(s[a + 1] != s[b + 1]);
            }
        }
        lemma_distinct_bound(t, (n - 1) as nat);
    } else {
        assert forall|j: int| 0 <= j < s.len() implies (#[trigger] s[j]) < n - 1 by {
            assert(s[j] != n - 1);
        }
        lemma_distinct_bound(s, (n - 1) as nat);
    }
}

/// The position of the first `x` in `s` as `first_pos` gives it: -1 where there is none.
fn position(s: &Vec<Node>, x: Node) -> (r: i128)
    ensures
        r == first_pos(s@, x),
{
    let mut i: usize = 0;
    while i < s.len()
        invariant
            0 <= i <= s@.len(),
            forall|j: int| 0 <= j < i ==> s@[j] != x,
        decreases s@.len() - i,
    {
        if s[i] == x {
            proof {
                lemma_first_pos(s@, x, i as int);
            }
            return i as i128;
        }
        i = i + 1;
    }
    proof {
        assert(!s@.contains(x));
    }
    -1
}

/// The first position is the one before which `x` does not occur.
pub proof fn lemma_first_pos(s: Seq<Node>, x: Node, i: int)
    requires
        0 <= i < s.len(),
        s[i] == x,
        forall|j: int| 0 <= j < i ==> s[j] != x,
    ensures
        first_pos(s, x) == i,
{
    assert(s.contains(x));
    let c = choose|c: int| 0 <= c < s.len() && s[c] == x && forall|j: int| 0 <= j < c ==> s[j] != x;
    if c < i {
        assert(s[c] != x);
    } else if i < c {
        assert(s[i] != x);
    }
}

/// A graph being built.
#[derive(Debug, Default)]
pub struct DagBuilder {
    nodes: Vec<NodeData>,
}

impl DagBuilder {
    /// The nodes and their parents.
    pub closed spec fn spec_nodes(&self) -> Seq<NodeData> {
        self.nodes@
    }

    #[verifier::type_invariant]
    closed spec fn inv(self) -> bool {
        edges_ok(self.nodes@)
    }

    /// An empty graph.
    pub fn new() -> (r: Self)
        ensures
            r.spec_nodes().len() == 0,
    {
        DagBuilder { nodes: Vec::new() }
    }

    /// The number of nodes.
    pub fn len(&self) -> (r: usize)
        ensures
            r == self.spec_nodes().len(),
    {
        self.nodes.len()
    }

    /// The parents of a node.
    pub fn node_data(&self, node: Node) -> (r: &NodeData)
        requires
            node < self.spec_nodes().len(),
        ensures
            *r == self.spec_nodes()[node as int],
            forall|k: int| 0 <= k < r.parents@.len() ==> (#[trigger] r.parents@[k]) < self.spec_nodes().len(),
    {
        proof {
            use_type_invariant(self);
        }
        &self.nodes[node]
    }

    /// Adds a node without parents and returns it.
    pub fn mk_node(&mut self) -> (r: Node)
        ensures
            r == old(self).spec_nodes().len(),
            final(self).spec_nodes().len() == old(self).spec_nodes().len() + 1,
            forall|i: int| 0 <= i < old(self).spec_nodes().len() ==> final(self).spec_nodes()[i] == old(self).spec_nodes()[i],
            final(self).spec_nodes()[r as int].parents@.len() == 0,
    {
        proof {
            use_type_invariant(&*self);
        }
        let r = self.nodes.len();
        let mut nodes: Vec<NodeData> = Vec::new();
        std::mem::swap(&mut nodes, &mut self.nodes);
        nodes.push(NodeData { parents: Vec::new() });
        proof {
            assert forall|u: int, k: int| 0 <= u < nodes@.len() && 0 <= k < nodes@[u].parents@.len() implies (#[trigger] nodes@[u].parents@[k])
                < nodes@.len() by {
                if u < r {
                    assert(nodes@[u] == old(self).spec_nodes()[u]);
                }
            }
        }
        self.nodes = nodes;
        r
    }

    /// Adds `n` nodes and returns them in order.
    pub fn mk_nodes(&mut self, n: usize) -> (r: Vec<Node>)
        ensures
            r@.len() == n,
            final(self).spec_nodes().len() == old(self).spec_nodes().len() + n,
            forall|i: int| 0 <= i < n ==> #[trigger] r@[i] == old(self).spec_nodes().len() + i,
    {
        let mut r: Vec<Node> = Vec::new();
        let mut i: usize = 0;
        while i < n
            invariant
                0 <= i <= n,
                r@.len() == i,
                self.spec_nodes().len() == old(self).spec_nodes().len() + i,
                forall|j: int| 0 <= j < i ==> #[trigger] r@[j] == old(self).spec_nodes().len() + j,
            decreases n - i,
        {
            let x = self.mk_node();
            r.push(x);
            i = i + 1;
        }
        r
    }

    /// Adds the edge from `child` to `parent`.
    pub fn add_parent(&mut self, child: Node, parent: Node)
        requires
            child < old(self).spec_nodes().len(),
            parent < old(self).spec_nodes().len(),
        ensures
            final(self).spec_nodes().len() == old(self).spec_nodes().len(),
            final(self).spec_nodes()[child as int].parents@ == old(self).spec_nodes()[child as int].parents@.push(parent),
            forall|i: int| 0 <= i < old(self).spec_nodes().len() && i != child ==> final(self).spec_nodes()[i] == old(self).spec_nodes()[i],
    {
        proof {
            use_type_invariant(&*self);
        }
        let mut nodes: Vec<NodeData> = Vec::new();
        std::mem::swap(&mut nodes, &mut self.nodes);
        let ghost n0 = nodes@;
        let mut data = nodes.remove(child);
        data.parents.push(parent);
        nodes.insert(child, data);
        proof {
            assert forall|u: int, k: int| 0 <= u < nodes@.len() && 0 <= k < nodes@[u].parents@.len() implies (#[trigger] nodes@[u].parents@[k])
                < nodes@.len() by {
                if u != child {
                    assert(nodes@[u] == n0[u]);
                } else if k < n0[u].parents@.len() {
                    assert(nodes@[u].parents@[k] == n0[u].parents@[k]);
                }
            }
        }
        self.nodes = nodes;
    }

    /// Adds the edges, each from a child to a parent.
    pub fn add_parents(&mut self, edges: &Vec<(Node, Node)>)
        requires
            forall|j: int| 0 <= j < edges@.len() ==> (#[trigger] edges@[j]).0 < old(self).spec_nodes().len() && edges@[j].1 < old(
                self,
            ).spec_nodes().len(),
        ensures
            final(self).spec_nodes().len() == old(self).spec_nodes().len(),
            forall|u: int| 0 <= u < old(self).spec_nodes().len() ==> (#[trigger] final(self).spec_nodes()[u]).parents@
                == parents_after(old(self).spec_nodes(), edges@, u),
    {
        let mut j: usize = 0;
        proof {
            assert(edges@.take(0) =~= Seq::<(Node, Node)>::empty());
        }
        while j < edges.len()
            invariant
                0 <= j <= edges@.len(),
                self.spec_nodes().len() == old(self).spec_nodes().len(),
                forall|u: int| 0 <= u < old(self).spec_nodes().len() ==> (#[trigger] self.spec_nodes()[u]).parents@
                    == parents_after(old(self).spec_nodes(), edges@.take(j as int), u),
                forall|k: int| 0 <= k < edges@.len() ==> (#[trigger] edges@[k]).0 < old(self).spec_nodes().len() && edges@[k].1 < old(
                    self,
                ).spec_nodes().len(),
            decreases edges@.len() - j,
        {
            let (c, p) = edges[j];
            self.add_parent(c, p);
            proof {
                assert(edges@.take(j + 1).drop_last() =~= edges@.take(j as int));
                assert(edges@.take(j + 1).last() == (c, p));
            }
            j = j + 1;
        }
        proof {
            assert(edges@.take(edges@.len() as int) =~= edges@);
        }
    }

    /// Kahn's ordering: repeatedly takes a node that no remaining node names as a parent,
    /// so that every node comes before its parents. Nodes on a cycle, and the parents they
    /// reach, never become free and are left out; a graph without a cycle comes out whole,
    /// in topological order. The number of edges into a node must fit a `u32`.
    pub fn topological(&self) -> (r: Vec<Node>)
        requires
            forall|v: Node|
                v < self.spec_nodes().len() ==> #[trigger] in_degree(self.spec_nodes(), v) <= u32::MAX,
        ensures
            forall|j: int| 0 <= j < r@.len() ==> (#[trigger] r@[j]) < self.spec_nodes().len(),
            forall|i: int, j: int| 0 <= i < j < r@.len() ==> #[trigger] r@[i] != #[trigger] r@[j],
            forall|i: int, j: int, k: int|
                0 <= i < r@.len() && 0 <= j < r@.len() && 0 <= k < self.spec_nodes()[r@[i] as int].parents@.len()
                    && #[trigger] self.spec_nodes()[r@[i] as int].parents@[k] == #[trigger] r@[j] ==> i < j,
            (forall|v: Node| v < self.spec_nodes().len() ==> #[trigger] r@.contains(v)) ==> is_topological_spec(
                self.spec_nodes(),
                r@,
            ),
            is_acyclic(self.spec_nodes()) ==> forall|v: Node| v < self.spec_nodes().len() ==> #[trigger] r@.contains(v),
            is_acyclic(self.spec_nodes()) ==> is_topological_spec(self.spec_nodes(), r@),
    {
        proof {
            use_type_invariant(self);
        }
        let n = self.nodes.len();
        let ghost nodes = self.nodes@;
        let ghost none: Seq<bool> = none_done(n as nat);
        assert(nodes == self.spec_nodes());
        let mut indegrees: Vec<u32> = Vec::new();
        let mut i: usize = 0;
        while i < n
            invariant
                0 <= i <= n,
                indegrees@.len() == i,
                forall|v: int| 0 <= v < i ==> indegrees@[v as int] == 0,
            decreases n - i,
        {
            indegrees.push(0);
            i = i + 1;
        }
        let mut u: usize = 0;
        while u < n
            invariant
                0 <= u <= n,
                n == nodes.len(),
                nodes == self.nodes@,
                none == none_done(n as nat),
                indegrees@.len() == n,
                edges_ok(nodes),
                forall|v: Node| v < n ==> #[trigger] in_degree(nodes, v) <= u32::MAX,
                forall|v: Node| v < n ==> indegrees@[v as int] == pending(nodes, none, v, u as int),
            decreases n - u,
        {
            let ps = &self.nodes[u].parents;
            let mut k: usize = 0;
            while k < ps.len()
                invariant
                    0 <= k <= ps@.len(),
                    u < n,
                    n == nodes.len(),
                    nodes == self.nodes@,
                    none == none_done(n as nat),
                    indegrees@.len() == n,
                    edges_ok(nodes),
                    *ps == nodes[u as int].parents,
                    forall|v: Node| v < n ==> #[trigger] in_degree(nodes, v) <= u32::MAX,
                    forall|v: Node|
                        v < n ==> indegrees@[v as int] == pending(nodes, none, v, u as int) + count(
                            ps@.take(k as int),
                            v,
                        ),
                decreases ps@.len() - k,
            {
                let p = ps[k];
                proof {
                    assert forall|v: Node| v < n implies count(ps@.take(k + 1), v)
                        == count(ps@.take(k as int), v) + if ps@[k as int] == v {
                        1nat
                    } else {
                        0nat
                    } by {
                        lemma_count_take(ps@, v, k as int);
                    }
                    lemma_count_skip(ps@, p, k + 1);
                    lemma_pending_mono(nodes, none, p, u as int + 1, n as int);
                    assert(in_degree(nodes, p) <= u32::MAX);
                    assert(pending(nodes, none, p, u as int + 1) == pending(nodes, none, p, u as int)
                        + count(ps@, p));
                }
                let d = indegrees[p] + 1;
                indegrees.set(p, d);
                k = k + 1;
            }
            proof {
                assert(ps@.take(ps@.len() as int) =~= ps@);
            }
            u = u + 1;
        }
        let mut queue: Vec<Node> = Vec::new();
        let mut u: usize = 0;
        while u < n
            invariant
                0 <= u <= n,
                indegrees@.len() == n,
                queue@.len() <= u,
                forall|j: int| 0 <= j < queue@.len() ==> (#[trigger] queue@[j]) < u,
                forall|i: int, j: int| 0 <= i < j < queue@.len() ==> #[trigger] queue@[i] < #[trigger] queue@[j],
                forall|v: Node| v < u ==> (indegrees@[v as int] == 0 <==> queue@.contains(v)),
                forall|j: int| 0 <= j < queue@.len() ==> indegrees@[#[trigger] queue@[j] as int] == 0,
            decreases n - u,
        {
            let ghost old_queue = queue@;
            if indegrees[u] == 0 {
                queue.push(u);
            }
            proof {
                assert forall|v: Node| v < u + 1 implies (indegrees@[v as int] == 0 <==> queue@.contains(v)) by {
                    if queue@.contains(v) && v != u {
                        let j = choose|j: int| 0 <= j < queue@.len() && queue@[j] == v;
                        assert(old_queue[j] == v);
                    }
                    if v < u && old_queue.contains(v) {
                        let j = choose|j: int| 0 <= j < old_queue.len() && old_queue[j] == v;
                        assert(queue@[j] == v);
                    }
                    if v == u && indegrees@[v as int] != 0 && queue@.contains(v) {
                        let j = choose|j: int| 0 <= j < queue@.len() && queue@[j] == v;
                        assert(old_queue[j] == v);
                    }
                    if v == u && indegrees@[v as int] == 0 {
                        assert(queue@[queue@.len() - 1] == v);
                    }
                }
            }
            u = u + 1;
        }
        let ghost mut done: Seq<bool> = none;
        proof {
            assert forall|qi: int, w: int, k: int|
                0 <= qi < queue@.len() && 0 <= w < n && 0 <= k < nodes[w].parents@.len()
                    && #[trigger] nodes[w].parents@[k] == #[trigger] queue@[qi] implies 0 <= first_pos(
                queue@,
                w as Node,
            ) < qi by {
                let v = queue@[qi];
                assert(pending(nodes, none, v, n as int) == 0);
                lemma_pending_zero(nodes, none, v, n as int, w, k);
            }
        }
        let mut order: Vec<Node> = Vec::new();
        let mut head: usize = 0;
        let mut fuel: usize = n;
        while head < queue.len() && fuel > 0
            invariant
                head <= queue@.len(),
                queue@.len() <= n,
                head + fuel == n,
                indegrees@.len() == n,
                n == nodes.len(),
                nodes == self.nodes@,
                done.len() == n,
                edges_ok(nodes),
                forall|j: int| 0 <= j < queue@.len() ==> (#[trigger] queue@[j]) < n,
                forall|i: int, j: int| 0 <= i < j < queue@.len() ==> #[trigger] queue@[i] != #[trigger] queue@[j],
                order@ == queue@.take(head as int),
                forall|v: Node| v < n ==> indegrees@[v as int] == pending(nodes, done, v, n as int),
                forall|v: Node| v < n ==> (indegrees@[v as int] == 0 <==> queue@.contains(v)),
                forall|v: Node| v < n ==> (done[v as int] <==> 0 <= first_pos(queue@, v) < head),
                forall|qi: int, w: int, k: int|
                    0 <= qi < queue@.len() && 0 <= w < n && 0 <= k < nodes[w].parents@.len()
                        && #[trigger] nodes[w].parents@[k] == #[trigger] queue@[qi] ==> 0 <= first_pos(
                        queue@,
                        w as Node,
                    ) < qi,
            decreases fuel,
        {
            fuel = fuel - 1;
            let node = queue[head];
            proof {
                lemma_first_pos(queue@, node, head as int);
                assert(!done[node as int]);
                assert forall|v: Node| v < n implies pending(nodes, done, v, n as int)
                    == pending(nodes, done.update(node as int, true), v, n as int) + count(
                    nodes[node as int].parents@,
                    v,
                ) by {
                    lemma_pending_mark(nodes, done, v, n as int, node as int);
                }
                done = done.update(node as int, true);
            }
            head = head + 1;
            order.push(node);
            proof {
                assert(order@ =~= queue@.take(head as int));
                assert forall|v: Node| v < n implies (done[v as int] <==> 0 <= first_pos(queue@, v) < head) by {
                    if v == node {
                    } else if 0 <= first_pos(queue@, v) < head {
                        if first_pos(queue@, v) == head - 1 {
                            assert(queue@.contains(v));
                        }
                    }
                }
            }
            let ps = &self.nodes[node].parents;
            proof {
                assert(ps@.skip(0) =~= ps@);
            }
            let mut k: usize = 0;
            while k < ps.len()
                invariant
                    0 <= k <= ps@.len(),
                    indegrees@.len() == n,
                    n == nodes.len(),
                    nodes == self.nodes@,
                    done.len() == n,
                    edges_ok(nodes),
                    node < n,
                    *ps == nodes[node as int].parents,
                    head <= queue@.len(),
                    queue@.len() <= n,
                    head + fuel == n,
                    forall|j: int| 0 <= j < queue@.len() ==> (#[trigger] queue@[j]) < n,
                    forall|i: int, j: int| 0 <= i < j < queue@.len() ==> #[trigger] queue@[i] != #[trigger] queue@[j],
                    order@ == queue@.take(head as int),
                    forall|v: Node|
                        v < n ==> indegrees@[v as int] == pending(nodes, done, v, n as int) + count(
                            ps@.skip(k as int),
                            v,
                        ),
                    forall|v: Node| v < n ==> (indegrees@[v as int] == 0 <==> queue@.contains(v)),
                    forall|v: Node| v < n ==> (done[v as int] <==> 0 <= first_pos(queue@, v) < head),
                    forall|qi: int, w: int, kk: int|
                        0 <= qi < queue@.len() && 0 <= w < n && 0 <= kk < nodes[w].parents@.len()
                            && #[trigger] nodes[w].parents@[kk] == #[trigger] queue@[qi] ==> 0 <= first_pos(
                            queue@,
                            w as Node,
                        ) < qi,
                decreases ps@.len() - k,
            {
                let p = ps[k];
                proof {
                    assert forall|v: Node| v < n implies count(ps@.skip(k as int), v) == count(
                        ps@.skip(k + 1),
                        v,
                    ) + if ps@[k as int] == v {
                        1nat
                    } else {
                        0nat
                    } by {
                        lemma_count_skip(ps@, v, k as int);
                        lemma_count_skip(ps@, v, k + 1);
                        lemma_count_take(ps@, v, k as int);
                    }
                }
                let d = indegrees[p] - 1;
                indegrees.set(p, d);
                if d == 0 {
                    let ghost old_queue = queue@;
                    queue.push(p);
                    proof {
                        assert(order@ =~= queue@.take(head as int));
                        assert forall|v: Node| v < n && old_queue.contains(v) implies first_pos(
                            queue@,
                            v,
                        ) == first_pos(old_queue, v) by {
                            let i0 = choose|i0: int| 0 <= i0 < old_queue.len() && old_queue[i0] == v;
                            assert forall|j: int| 0 <= j < i0 implies old_queue[j] != v by {
                                assert(old_queue[j] != old_queue[i0]);
                            }
                            lemma_first_pos(old_queue, v, i0);
                            lemma_first_pos(queue@, v, i0);
                        }
                        assert forall|v: Node| v < n && !old_queue.contains(v) && v != p implies !queue@.contains(
                            v,
                        ) by {
                            if queue@.contains(v) {
                                let j = choose|j: int| 0 <= j < queue@.len() && queue@[j] == v;
                                assert(old_queue[j] == v);
                            }
                        }
                        assert forall|v: Node| v < n && !old_queue.contains(v) implies first_pos(
                            queue@,
                            v,
                        ) == -1 || v == p by {
                            if v != p {
                                assert(!queue@.contains(v));
                            }
                        }
                        assert forall|i: int, j: int| 0 <= i < j < queue@.len() implies #[trigger] queue@[i]
                            != #[trigger] queue@[j] by {
                            if j == queue@.len() - 1 {
                                assert(old_queue.contains(queue@[i]));
                            }
                        }
                        assert forall|j: int| 0 <= j < old_queue.len() implies queue@[j] != p by {
                            assert(old_queue.contains(old_queue[j]));
                        }
                        lemma_distinct_bound(queue@, n as nat);
                        lemma_first_pos(queue@, p, old_queue.len() as int);
                        assert forall|qi: int, w: int, kk: int|
                            0 <= qi < queue@.len() && 0 <= w < n && 0 <= kk < nodes[w].parents@.len()
                                && #[trigger] nodes[w].parents@[kk] == #[trigger] queue@[qi] implies 0 <= first_pos(
                                queue@,
                                w as Node,
                            ) < qi by {
                            if qi == old_queue.len() {
                                assert(pending(nodes, done, p, n as int) == 0);
                                lemma_pending_zero(nodes, done, p, n as int, w, kk);
                                assert(old_queue.contains(w as Node)) by {
                                    let i0 = first_pos(old_queue, w as Node);
                                    assert(0 <= first_pos(queue@, w as Node) < head);
                                    let j0 = first_pos(queue@, w as Node);
                                    assert(queue@.contains(w as Node));
                                    let c = choose|c: int| 0 <= c < queue@.len() && queue@[c] == w as Node
                                        && forall|j: int| 0 <= j < c ==> queue@[j] != w as Node;
                                    assert(old_queue[c] == w as Node);
                                }
                            } else {
                                assert(old_queue[qi] == queue@[qi]);
                                assert(old_queue.contains(w as Node)) by {
                                    let j0 = first_pos(old_queue, w as Node);
                                    assert(0 <= j0 < qi);
                                    if !old_queue.contains(w as Node) {
                                        assert(j0 == -1);
                                    }
                                }
                            }
                        }
                    }
                }
                k = k + 1;
            }
            proof {
                assert(ps@.skip(ps@.len() as int) =~= Seq::<Node>::empty());
            }
        }
        proof {
            assert(head == queue@.len());
            assert(order@ =~= queue@);
            if is_acyclic(nodes) {
                let rank = choose|rank: spec_fn(int) -> nat| ranks_below_parents(nodes, rank);
                assert forall|x: Node| x < nodes.len() && #[trigger] pending(nodes, done, x, nodes.len() as int) == 0 implies done[x as int] by {
                    assert(queue@.contains(x));
                    let j = choose|j: int| 0 <= j < queue@.len() && queue@[j] == x;
                    assert forall|jj: int| 0 <= jj < j implies queue@[jj] != x by {
                        assert(queue@[jj] != queue@[j]);
                    }
                    lemma_first_pos(queue@, x, j);
                }
                assert forall|v: Node| v < nodes.len() implies #[trigger] order@.contains(v) by {
                    lemma_all_done(nodes, done, rank, v);
                    assert(queue@.contains(v));
                }
            }
            assert forall|i: int, j: int| 0 <= i < j < order@.len() implies #[trigger] order@[i] != #[trigger] order@[j] by {
                assert(order@[i] == queue@[i] && order@[j] == queue@[j]);
            }
            assert forall|i: int, j: int, k: int|
                0 <= i < order@.len() && 0 <= j < order@.len() && 0 <= k < nodes[order@[i] as int].parents@.len()
                    && #[trigger] nodes[order@[i] as int].parents@[k] == #[trigger] order@[j] implies i < j by {
                let w = order@[i];
                assert(queue@[j] == order@[j]);
                assert(nodes[w as int].parents@[k] == queue@[j]);
                assert forall|jj: int| 0 <= jj < i implies queue@[jj] != w by {
                    assert(queue@[jj] != queue@[i]);
                }
                lemma_first_pos(queue@, w, i);
            }
            if forall|v: Node| v < n ==> order@.contains(v) {
                assert forall|w: int, k: int|
                    0 <= w < nodes.len() && 0 <= k < nodes[w].parents@.len() implies first_pos(order@, w as Node)
                        <= first_pos(order@, #[trigger] nodes[w].parents@[k]) by {
                    let v = nodes[w].parents@[k];
                    assert(order@.contains(w as Node));
                    assert(order@.contains(v));
                    let i = choose|i: int| 0 <= i < order@.len() && order@[i] == w as Node;
                    let j = choose|j: int| 0 <= j < order@.len() && order@[j] == v;
                    assert forall|jj: int| 0 <= jj < i implies order@[jj] != w as Node by {
                        assert(order@[jj] != order@[i]);
                    }
                    assert forall|jj: int| 0 <= jj < j implies order@[jj] != v by {
                        assert(order@[jj] != order@[j]);
                    }
                    lemma_first_pos(order@, w as Node, i);
                    lemma_first_pos(order@, v, j);
                    assert(nodes[order@[i] as int].parents@[k] == order@[j]);
                }
            }
        }
        order
    }

    /// Whether, for every edge, the node is not after its parent in `order`.
    pub fn is_topological(&self, order: &Vec<Node>) -> (r: bool)
        ensures
            r == is_topological_spec(self.spec_nodes(), order@),
    {
        self.check_edges(order, true)
    }

    /// Whether, for every edge, the node is not before its parent in `order`.
    pub fn is_reverse_topological(&self, order: &Vec<Node>) -> (r: bool)
        ensures
            r == is_reverse_topological_spec(self.spec_nodes(), order@),
    {
        self.check_edges(order, false)
    }

    #[verifier::rlimit(40)]
    fn check_edges(&self, order: &Vec<Node>, forward: bool) -> (r: bool)
        ensures
            forward ==> r == is_topological_spec(self.spec_nodes(), order@),
            !forward ==> r == is_reverse_topological_spec(self.spec_nodes(), order@),
    {
        let n = self.nodes.len();
        let mut u: usize = 0;
        while u < n
            invariant
                0 <= u <= n,
                n == self.spec_nodes().len(),
                forall|w: int, k: int|
                    0 <= w < u && 0 <= k < self.spec_nodes()[w].parents@.len() ==> (if forward {
                        first_pos(order@, w as Node) <= first_pos(order@, #[trigger] self.spec_nodes()[w].parents@[k])
                    } else {
                        first_pos(order@, w as Node) >= first_pos(order@, self.spec_nodes()[w].parents@[k])
                    }),
            decreases n - u,
        {
            let pu = position(order, u);
            let ps = &self.nodes[u].parents;
            let mut k: usize = 0;
            while k < ps.len()
                invariant
                    0 <= k <= ps@.len(),
                    u < n,
                    n == self.spec_nodes().len(),
                    *ps == self.spec_nodes()[u as int].parents,
                    pu == first_pos(order@, u),
                    forall|kk: int|
                        0 <= kk < k ==> (if forward {
                            first_pos(order@, u) <= first_pos(order@, #[trigger] ps@[kk])
                        } else {
                            first_pos(order@, u) >= first_pos(order@, ps@[kk])
                        }),
                decreases ps@.len() - k,
            {
                let pv = position(order, ps[k]);
                if forward && pu > pv {
                    return false;
                }
                if !forward && pu < pv {
                    return false;
                }
                k = k + 1;
            }
            u = u + 1;
        }
        true
    }

    /// Every node after its parents: Kahn's ordering reversed. With every node in it, the
    /// order is reverse topological.
    pub fn reverse_topological(&self) -> (r: Vec<Node>)
        requires
            forall|v: Node|
                v < self.spec_nodes().len() ==> #[trigger] in_degree(self.spec_nodes(), v) <= u32::MAX,
        ensures
            forall|j: int| 0 <= j < r@.len() ==> (#[trigger] r@[j]) < self.spec_nodes().len(),
            forall|i: int, j: int| 0 <= i < j < r@.len() ==> #[trigger] r@[i] != #[trigger] r@[j],
            forall|i: int, j: int, k: int|
                0 <= i < r@.len() && 0 <= j < r@.len() && 0 <= k < self.spec_nodes()[r@[i] as int].parents@.len()
                    && #[trigger] self.spec_nodes()[r@[i] as int].parents@[k] == #[trigger] r@[j] ==> j < i,
            (forall|v: Node| v < self.spec_nodes().len() ==> #[trigger] r@.contains(v)) ==> is_reverse_topological_spec(
                self.spec_nodes(),
                r@,
            ),
            is_acyclic(self.spec_nodes()) ==> forall|v: Node| v < self.spec_nodes().len() ==> #[trigger] r@.contains(v),
            is_acyclic(self.spec_nodes()) ==> is_reverse_topological_spec(self.spec_nodes(), r@),
    {
        let order = self.topological();
        let n = order.len();
        let mut r: Vec<Node> = Vec::new();
        let mut i: usize = n;
        while i > 0
            invariant
                0 <= i <= n,
                n == order@.len(),
                r@.len() == n - i,
                forall|t: int| 0 <= t < r@.len() ==> #[trigger] r@[t] == order@[n - 1 - t],
            decreases i,
        {
            i = i - 1;
            r.push(order[i]);
        }
        let total = self.len();
        proof {
            use_type_invariant(self);
            let nodes = self.spec_nodes();
            assert(nodes.len() == total);
            assert forall|j: int| 0 <= j < r@.len() implies (#[trigger] r@[j]) < nodes.len() by {
                assert(r@[j] == order@[n - 1 - j]);
            }
            assert forall|a: int, b: int| 0 <= a < b < r@.len() implies #[trigger] r@[a] != #[trigger] r@[b] by {
                assert(r@[a] == order@[n - 1 - a] && r@[b] == order@[n - 1 - b]);
            }
            assert forall|a: int, b: int, k: int|
                0 <= a < r@.len() && 0 <= b < r@.len() && 0 <= k < nodes[r@[a] as int].parents@.len()
                    && #[trigger] nodes[r@[a] as int].parents@[k] == #[trigger] r@[b] implies b < a by {
                assert(r@[a] == order@[n - 1 - a] && r@[b] == order@[n - 1 - b]);
                assert(nodes[order@[n - 1 - a] as int].parents@[k] == order@[n - 1 - b]);
            }
            if is_acyclic(nodes) {
                assert forall|v: Node| v < nodes.len() implies #[trigger] r@.contains(v) by {
                    assert(order@.contains(v));
                    let j = choose|j: int| 0 <= j < order@.len() && order@[j] == v;
                    assert(r@[n - 1 - j] == order@[j]);
                }
            }
            if forall|v: Node| v < nodes.len() ==> #[trigger] r@.contains(v) {
                assert forall|w: int, k: int|
                    0 <= w < nodes.len() && 0 <= k < nodes[w].parents@.len() implies first_pos(r@, w as Node)
                        >= first_pos(r@, #[trigger] nodes[w].parents@[k]) by {
                    let v = nodes[w].parents@[k];
                    assert((w as Node) as int == w);
                    assert(r@.contains(w as Node));
                    assert(r@.contains(v));
                    let a = choose|a: int| 0 <= a < r@.len() && r@[a] == w as Node;
                    let b = choose|b: int| 0 <= b < r@.len() && r@[b] == v;
                    assert forall|jj: int| 0 <= jj < a implies r@[jj] != w as Node by {
                        assert(r@[jj] != r@[a]);
                    }
                    assert forall|jj: int| 0 <= jj < b implies r@[jj] != v by {
                        assert(r@[jj] != r@[b]);
                    }
                    lemma_first_pos(r@, w as Node, a);
                    lemma_first_pos(r@, v, b);
                    assert(nodes[r@[a] as int].parents@[k] == r@[b]);
                }
            }
        }
        r
    }
}
} // verus!
