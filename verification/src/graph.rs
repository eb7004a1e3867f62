//! Owned, index-addressed directed graph with forward adjacency lists.
//!
//! Nodes are identified by dense, zero-based indices assigned in creation
//! order; each node optionally carries a payload.  Parallel edges and
//! self-loops are permitted and preserved.

use vstd::prelude::*;

verus! {

use vstd::pervasive::VecAdditionalExecFns;
use vstd::pervasive::cloned;

broadcast use vstd::seq_lib::group_seq_properties, vstd::multiset::group_multiset_axioms;

/// Index of a node in a [`TypedGraph`].
pub type NodeId = usize;

/// Directed graph over dense integer node ids, with a payload per node.
#[derive(Clone)]
pub struct TypedGraph<T> {
    next: Vec<Vec<NodeId>>,
    mapping: Vec<T>,
}

impl<T> Default for TypedGraph<T> {
    fn default() -> (r: Self)
        ensures
            r.wf(),
            r.node_count() == 0,
            r.labels().len() == 0,
    {
        Self::new()
    }
}

impl<T> TypedGraph<T> {
    /// Adjacency: for every node, the ordered sequence of its successors.
    pub closed spec fn adj(&self) -> Seq<Seq<NodeId>> {
        self.next@.map_values(|row: Vec<NodeId>| row@)
    }

    /// Node payloads, indexed by node id.
    pub closed spec fn labels(&self) -> Seq<T> {
        self.mapping@
    }

    pub open spec fn node_count(&self) -> nat {
        self.adj().len()
    }

    /// Every successor index is a valid node, and every node has a payload.
    pub open spec fn wf(&self) -> bool {
        &&& self.adj().len() == self.labels().len()
        &&& forall|u: int, k: int|
            0 <= u < self.adj().len() && 0 <= k < self.adj()[u].len() ==> (
            #[trigger] self.adj()[u][k]) < self.node_count()
    }

    /// Number of parallel edges from `u` to `v`.
    pub open spec fn edge_count(&self, u: int, v: int) -> nat
        recommends
            0 <= u < self.node_count(),
    {
        self.adj()[u].to_multiset().count(v as NodeId)
    }

    /// Whether at least one edge leads from `u` to `v`.
    pub open spec fn has_edge(&self, u: int, v: int) -> bool {
        0 <= u < self.node_count() && self.adj()[u].contains(v as NodeId)
    }

    pub fn new() -> (r: Self)
        ensures
            r.wf(),
            r.node_count() == 0,
            r.labels().len() == 0,
    {
        Self { next: Vec::new(), mapping: Vec::new() }
    }

    /// A graph of `size` isolated nodes with default payloads.
    pub fn new_with_size(size: usize) -> (r: Self) where T: Default
        ensures
            r.wf(),
            r.node_count() == size,
            r.labels().len() == size,
            forall|u: int| 0 <= u < r.node_count() ==> (#[trigger] r.adj()[u]).len() == 0,
    {
        let mut next: Vec<Vec<NodeId>> = Vec::new();
        let mut mapping: Vec<T> = Vec::new();
        let mut i: usize = 0;
        while i < size
            invariant
                i <= size,
                next@.len() == i,
                mapping@.len() == i,
                forall|u: int| 0 <= u < i ==> (#[trigger] next@[u])@.len() == 0,
            decreases size - i,
        {
            next.push(Vec::new());
            mapping.push(Default::default());
            i += 1;
        }
        Self { next, mapping }
    }

    pub fn new_with_mapping(mapping: Vec<T>) -> (r: Self)
        ensures
            r.wf(),
            r.labels() == mapping@,
            r.node_count() == mapping@.len(),
            forall|u: int| 0 <= u < r.node_count() ==> #[trigger] r.adj()[u] =~= Seq::<
                NodeId,
            >::empty(),
    {
        let n = mapping.len();
        let mut next: Vec<Vec<NodeId>> = Vec::new();
        let mut i: usize = 0;
        while i < n
            invariant
                i <= n,
                next@.len() == i,
                forall|u: int| 0 <= u < i ==> (#[trigger] next@[u])@.len() == 0,
            decreases n - i,
        {
            next.push(Vec::new());
            i += 1;
        }
        let r = Self { next, mapping };
        proof {
            assert(forall|u: int|
                0 <= u < r.node_count() ==> #[trigger] r.adj()[u] =~= Seq::<NodeId>::empty());
        }
        r
    }

    pub fn size(&self) -> (r: usize)
        ensures
            r == self.node_count(),
    {
        self.next.len()
    }

    /// Appends a node carrying `value`; returns its id.
    pub fn new_node(&mut self, value: T) -> (r: NodeId)
        ensures
            r == old(self).node_count(),
            final(self).adj() =~= old(self).adj().push(Seq::<NodeId>::empty()),
            final(self).labels() == old(self).labels().push(value),
            old(self).wf() ==> final(self).wf(),
    {
        let id = self.next.len();
        self.next.push(Vec::new());
        self.mapping.push(value);
        proof {
            assert(self.adj() =~= old(self).adj().push(Seq::<NodeId>::empty()));
        }
        id
    }

    /// Appends `to` to `from`'s successor list.
    pub fn add_edge(&mut self, from: NodeId, to: NodeId)
        requires
            from < old(self).node_count(),
            to < old(self).node_count(),
        ensures
            final(self).adj() =~= old(self).adj().update(
                from as int,
                old(self).adj()[from as int].push(to),
            ),
            final(self).labels() == old(self).labels(),
            final(self).node_count() == old(self).node_count(),
            old(self).wf() ==> final(self).wf(),
    {
        self.next[from].push(to);
        proof {
            assert(self.adj() =~= old(self).adj().update(
                from as int,
                old(self).adj()[from as int].push(to),
            ));
        }
    }

    pub fn next(&self, id: NodeId) -> (r: &Vec<NodeId>)
        requires
            id < self.node_count(),
        ensures
            r@ == self.adj()[id as int],
    {
        &self.next[id]
    }

    pub fn mapping(&self) -> (r: &Vec<T>)
        ensures
            r@ == self.labels(),
    {
        &self.mapping
    }

    pub fn mapping_mut(&mut self) -> (r: &mut Vec<T>)
        ensures
            r@ == old(self).labels(),
            final(self).labels() == final(r)@,
            final(self).adj() == old(self).adj(),
    {
        &mut self.mapping
    }

    /// Replaces every payload by `f` of it; the structure is unchanged.
    pub fn map<R, F: Fn(T) -> R>(self, f: F) -> (r: TypedGraph<R>)
        requires
            forall|i: int|
                0 <= i < self.labels().len() ==> call_requires(f, (#[trigger] self.labels()[i],)),
        ensures
            r.adj() == self.adj(),
            r.labels().len() == self.labels().len(),
            forall|i: int|
                0 <= i < self.labels().len() ==> call_ensures(
                    f,
                    (self.labels()[i],),
                    #[trigger] r.labels()[i],
                ),
            self.wf() ==> r.wf(),
    {
        let ghost labels0 = self.labels();
        let TypedGraph { next, mapping } = self;
        let mut mapping = mapping;
        let mut out_rev: Vec<R> = Vec::new();
        let ghost n = labels0.len();
        while mapping.len() > 0
            invariant
                n == labels0.len(),
                mapping@ == labels0.take(mapping@.len() as int),
                out_rev@.len() + mapping@.len() == n,
                forall|i: int|
                    0 <= i < labels0.len() ==> call_requires(f, (#[trigger] labels0[i],)),
                forall|j: int|
                    0 <= j < out_rev@.len() ==> call_ensures(
                        f,
                        (labels0[n - 1 - j],),
                        #[trigger] out_rev@[j],
                    ),
            decreases mapping@.len(),
        {
            proof {
                assert(mapping@.last() == labels0[mapping@.len() - 1]);
                assert(mapping@.drop_last() =~= labels0.take(mapping@.len() - 1));
            }
            let x = mapping.pop().unwrap();
            out_rev.push(f(x));
        }
        let mut out: Vec<R> = Vec::new();
        while out_rev.len() > 0
            invariant
                n == labels0.len(),
                out@.len() + out_rev@.len() == n,
                forall|j: int|
                    0 <= j < out_rev@.len() ==> call_ensures(
                        f,
                        (labels0[n - 1 - j],),
                        #[trigger] out_rev@[j],
                    ),
                forall|i: int|
                    0 <= i < out@.len() ==> call_ensures(f, (labels0[i],), #[trigger] out@[i]),
            decreases out_rev@.len(),
        {
            proof {
                assert(out_rev@.last() == out_rev@[out_rev@.len() - 1]);
            }
            let y = out_rev.pop().unwrap();
            out.push(y);
        }
        let r = TypedGraph { next, mapping: out };
        proof {
            assert(r.adj() =~= self.adj());
        }
        r
    }

    /// `p` is a walk through the graph: nonempty, every node valid, and an
    /// edge between every pair of consecutive nodes.
    pub open spec fn path_ok(&self, p: Seq<NodeId>) -> bool {
        &&& p.len() >= 1
        &&& forall|k: int| 0 <= k < p.len() ==> (#[trigger] p[k]) < self.node_count()
        &&& forall|k: int|
            #![trigger p[k]]
            0 <= k < p.len() - 1 ==> self.adj()[p[k] as int].contains(p[k + 1])
    }

    /// `t` is reachable from `s` (inclusive: every valid node reaches itself).
    pub open spec fn reaches(&self, s: NodeId, t: NodeId) -> bool {
        exists|p: Seq<NodeId>| self.path_ok(p) && p.first() == s && p.last() == t
    }

    /// `t` is reachable from at least one node of `starts`.
    pub open spec fn reaches_from(&self, starts: Seq<NodeId>, t: NodeId) -> bool {
        exists|k: int| 0 <= k < starts.len() && self.reaches(#[trigger] starts[k], t)
    }

    /// The marked set is closed under edges: every successor of a marked
    /// node is marked.
    pub open spec fn marks_closed(&self, used: Seq<bool>) -> bool {
        forall|u: int, k: int|
            0 <= u < self.adj().len() && 0 <= k < self.adj()[u].len() && used[u] ==> used[(
            #[trigger] self.adj()[u][k]) as int]
    }

    /// A reached node is a valid node.
    pub proof fn lemma_reaches_valid(&self, s: NodeId, t: NodeId)
        requires
            self.reaches(s, t),
        ensures
            t < self.node_count(),
    {
        let p = choose|p: Seq<NodeId>| self.path_ok(p) && p.first() == s && p.last() == t;
        assert(p[p.len() - 1] < self.node_count());
    }

    pub proof fn lemma_reaches_refl(&self, s: NodeId)
        requires
            s < self.node_count(),
        ensures
            self.reaches(s, s),
    {
        let p = seq![s];
        assert(self.path_ok(p) && p.first() == s && p.last() == s);
    }

    pub proof fn lemma_reaches_step(&self, s: NodeId, u: NodeId, t: NodeId)
        requires
            self.wf(),
            self.reaches(s, u),
            self.has_edge(u as int, t as int),
        ensures
            self.reaches(s, t),
    {
        let p = choose|p: Seq<NodeId>| self.path_ok(p) && p.first() == s && p.last() == u;
        let kk = choose|kk: int| 0 <= kk < self.adj()[u as int].len() && self.adj()[u as int][kk]
            == t;
        let q = p.push(t);
        assert(self.path_ok(q) && q.first() == s && q.last() == t) by {
            assert(forall|k: int| 0 <= k < p.len() ==> q[k] == #[trigger] p[k]);
            assert(q[p.len() as int] == t);
            assert(t < self.node_count());
            assert forall|k: int| #![trigger q[k]] 0 <= k < q.len() - 1 implies self.adj()[q[k]
                as int].contains(q[k + 1]) by {
                if k < p.len() - 1 {
                    assert(self.adj()[p[k] as int].contains(p[k + 1]));
                } else {
                    assert(q[k] == u);
                    assert(self.adj()[u as int].contains(t));
                }
            }
        }
    }

    pub proof fn lemma_reaches_trans(&self, s: NodeId, m: NodeId, t: NodeId)
        requires
            self.reaches(s, m),
            self.reaches(m, t),
        ensures
            self.reaches(s, t),
    {
        let p1 = choose|p: Seq<NodeId>| self.path_ok(p) && p.first() == s && p.last() == m;
        let p2 = choose|p: Seq<NodeId>| self.path_ok(p) && p.first() == m && p.last() == t;
        let q = p1 + p2.skip(1);
        let l1 = p1.len() as int;
        let l2 = p2.len() as int;
        assert(self.path_ok(q) && q.first() == s && q.last() == t) by {
            assert(forall|k: int| 0 <= k < l1 ==> #[trigger] q[k] == p1[k]);
            assert(forall|k: int| l1 <= k < q.len() ==> #[trigger] q[k] == p2[k - l1 + 1]);
            if l2 == 1 {
                assert(q =~= p1);
            } else {
                assert(q.last() == p2[l2 - 1]);
            }
            assert forall|k: int| #![trigger q[k]] 0 <= k < q.len() - 1 implies self.adj()[q[k]
                as int].contains(q[k + 1]) by {
                if k < l1 - 1 {
                    assert(self.adj()[p1[k] as int].contains(p1[k + 1]));
                } else if k == l1 - 1 {
                    assert(q[k] == m);
                    assert(self.adj()[p2[0] as int].contains(p2[1]));
                } else {
                    assert(self.adj()[p2[k - l1] as int].contains(p2[k - l1 + 1]));
                }
            }
        }
    }

    proof fn lemma_marks_contain_path(&self, used: Seq<bool>, p: Seq<NodeId>)
        requires
            self.wf(),
            used.len() == self.node_count(),
            self.marks_closed(used),
            self.path_ok(p),
            used[p.first() as int],
        ensures
            used[p.last() as int],
        decreases p.len(),
    {
        if p.len() > 1 {
            let kk = choose|kk: int|
                0 <= kk < self.adj()[p[0] as int].len() && self.adj()[p[0] as int][kk] == p[1];
            assert(used[p[1] as int]);
            let q = p.skip(1);
            assert(self.path_ok(q)) by {
                assert(forall|k: int| 0 <= k < q.len() ==> #[trigger] q[k] == p[k + 1]);
                assert forall|k: int| #![trigger q[k]] 0 <= k < q.len() - 1 implies self.adj()[
                    q[k] as int].contains(q[k + 1]) by {
                    assert(self.adj()[p[k + 1] as int].contains(p[k + 2]));
                }
            }
            self.lemma_marks_contain_path(used, q);
        }
    }

    /// A closed marked set that contains `s` contains everything reachable
    /// from `s`.
    proof fn lemma_closed_marks_reach(&self, used: Seq<bool>, s: NodeId, t: NodeId)
        requires
            self.wf(),
            used.len() == self.node_count(),
            self.marks_closed(used),
            s < self.node_count(),
            used[s as int],
            self.reaches(s, t),
        ensures
            used[t as int],
    {
        let p = choose|p: Seq<NodeId>| self.path_ok(p) && p.first() == s && p.last() == t;
        self.lemma_marks_contain_path(used, p);
    }
}

/// Number of `false` entries of a marker sequence; the variant of the
/// depth-first traversal.
spec fn count_false(s: Seq<bool>) -> nat
    decreases s.len(),
{
    if s.len() == 0 {
        0
    } else {
        count_false(s.drop_last()) + (if s.last() {
            0nat
        } else {
            1nat
        })
    }
}

proof fn lemma_count_false_update(s: Seq<bool>, i: int)
    requires
        0 <= i < s.len(),
        !s[i],
    ensures
        count_false(s.update(i, true)) + 1 == count_false(s),
    decreases s.len(),
{
    let t = s.update(i, true);
    if i == s.len() - 1 {
        assert(t.drop_last() =~= s.drop_last());
        assert(t.last());
    } else {
        assert(t.drop_last() =~= s.drop_last().update(i, true));
        lemma_count_false_update(s.drop_last(), i);
        assert(t.last() == s.last());
    }
}

impl<T> TypedGraph<T> {
    /// Depth-first traversal from `start` over a shared marker array: marks
    /// exactly the nodes reachable from `start`, on top of an already
    /// edge-closed set of marks.
    fn mark_reachable(&self, start: NodeId, used: &mut Vec<bool>)
        requires
            self.wf(),
            old(used)@.len() == self.node_count(),
            start < self.node_count(),
            self.marks_closed(old(used)@),
        ensures
            final(used)@.len() == old(used)@.len(),
            self.marks_closed(final(used)@),
            forall|i: int|
                0 <= i < final(used)@.len() ==> (final(used)@[i] <==> (old(used)@[i]
                    || self.reaches(start, i as NodeId))),
    {
        let ghost n = self.node_count();
        let _n_bound: usize = used.len();
        let mut stack: Vec<NodeId> = Vec::new();
        stack.push(start);
        used.set(start, true);
        proof {
            self.lemma_reaches_refl(start);
            assert(stack@[0] == start);
            assert(stack@.contains(start));
        }
        while stack.len() > 0
            invariant
                self.wf(),
                n == self.node_count(),
                n <= usize::MAX,
                used@.len() == n,
                start < n,
                used@[start as int],
                forall|k: int|
                    0 <= k < stack@.len() ==> (#[trigger] stack@[k]) < n && used@[stack@[k] as int],
                forall|k: int|
                    0 <= k < stack@.len() ==> self.reaches(start, #[trigger] stack@[k]),
                forall|i: int| 0 <= i < n && old(used)@[i] ==> used@[i],
                forall|i: int|
                    0 <= i < n && used@[i] ==> old(used)@[i] || self.reaches(
                        start,
                        i as NodeId,
                    ),
                forall|u: int, k: int|
                    0 <= u < self.adj().len() && 0 <= k < self.adj()[u].len() && used@[u]
                        && !stack@.contains(u as NodeId) ==> used@[(#[trigger] self.adj()[u][k])
                        as int],
            decreases count_false(used@), stack@.len(),
        {
            let ghost used0 = used@;
            let ghost stack0 = stack@;
            let v = stack.pop().unwrap();
            proof {
                assert forall|x: NodeId| stack0.contains(x) && x != v implies stack@.contains(
                    x,
                ) by {
                    let a = choose|a: int| 0 <= a < stack0.len() && stack0[a] == x;
                    assert(stack@[a] == x);
                }
                assert forall|u: int, k: int|
                    0 <= u < self.adj().len() && 0 <= k < self.adj()[u].len() && used@[u]
                        && !stack@.contains(u as NodeId) && u != v implies used@[(
                #[trigger] self.adj()[u][k]) as int] by {
                    if stack0.contains(u as NodeId) {
                        assert(stack@.contains(u as NodeId));
                    }
                }
            }
            let deg = self.next[v].len();
            let mut j: usize = 0;
            while j < deg
                invariant
                    self.wf(),
                    n == self.node_count(),
                    n <= usize::MAX,
                    used@.len() == n,
                    start < n,
                    used@[start as int],
                    v < n,
                    used@[v as int],
                    self.reaches(start, v),
                    deg == self.adj()[v as int].len(),
                    j <= deg,
                    forall|k: int|
                        0 <= k < stack@.len() ==> (#[trigger] stack@[k]) < n && used@[stack@[k]
                            as int],
                    forall|k: int|
                        0 <= k < stack@.len() ==> self.reaches(start, #[trigger] stack@[k]),
                    forall|i: int| 0 <= i < n && old(used)@[i] ==> used@[i],
                    forall|i: int|
                        0 <= i < n && used@[i] ==> old(used)@[i] || self.reaches(
                            start,
                            i as NodeId,
                        ),
                    forall|jj: int| 0 <= jj < j ==> used@[(#[trigger] self.adj()[v as int][jj])
                        as int],
                    forall|u: int, k: int|
                        0 <= u < self.adj().len() && 0 <= k < self.adj()[u].len() && used@[u]
                            && !stack@.contains(u as NodeId) && u != v ==> used@[(
                        #[trigger] self.adj()[u][k]) as int],
                    (used@ =~= used0 && stack@ =~= stack0.drop_last()) || (count_false(used@)
                        < count_false(used0)),
                decreases deg - j,
            {
                let u = self.next[v][j];
                proof {
                    assert(u == self.adj()[v as int][j as int]);
                    assert(u < n);
                }
                if !used[u] {
                    proof {
                        lemma_count_false_update(used@, u as int);
                        self.lemma_reaches_step(start, v, u);
                    }
                    stack.push(u);
                    used.set(u, true);
                }
                j += 1;
            }
        }
        proof {
            assert(forall|x: NodeId| !stack@.contains(x));
            assert(self.marks_closed(used@));
            assert forall|i: int|
                0 <= i < used@.len() && (old(used)@[i] || self.reaches(
                    start,
                    i as NodeId,
                )) implies used@[i] by {
                if old(used)@[i] {
                } else {
                    self.lemma_closed_marks_reach(used@, start, i as NodeId);
                }
            }
        }
    }

    /// All nodes reachable from any node of `nodes`, in ascending id order.
    pub fn get_reachable(&self, nodes: &[NodeId]) -> (r: Vec<NodeId>)
        requires
            self.wf(),
            forall|k: int| 0 <= k < nodes@.len() ==> (#[trigger] nodes@[k]) < self.node_count(),
        ensures
            forall|a: int, b: int| 0 <= a < b < r@.len() ==> r@[a] < r@[b],
            forall|t: NodeId| #[trigger] r@.contains(t) <==> self.reaches_from(nodes@, t),
    {
        let n = self.size();
        let ghost starts = nodes@;
        let mut used: Vec<bool> = Vec::new();
        let mut i: usize = 0;
        while i < n
            invariant
                i <= n,
                used@.len() == i,
                forall|a: int| 0 <= a < i ==> !used@[a],
            decreases n - i,
        {
            used.push(false);
            i += 1;
        }
        let mut k: usize = 0;
        while k < nodes.len()
            invariant
                self.wf(),
                starts == nodes@,
                k <= nodes@.len(),
                forall|kk: int| 0 <= kk < nodes@.len() ==> (#[trigger] nodes@[kk])
                    < self.node_count(),
                used@.len() == self.node_count(),
                self.marks_closed(used@),
                forall|a: int|
                    0 <= a < used@.len() ==> (used@[a] <==> self.reaches_from(
                        starts.take(k as int),
                        a as NodeId,
                    )),
            decreases nodes@.len() - k,
        {
            let ghost used_before = used@;
            self.mark_reachable(nodes[k], &mut used);
            proof {
                assert forall|a: int| 0 <= a < used@.len() implies (used@[a]
                    <==> self.reaches_from(starts.take(k + 1), a as NodeId)) by {
                    let pre = starts.take(k as int);
                    let post = starts.take(k + 1);
                    assert(forall|kk: int| 0 <= kk < pre.len() ==> pre[kk] == #[trigger] post[kk]);
                    assert(post[k as int] == starts[k as int]);
                    if used@[a] {
                        if used_before[a] {
                            let kk = choose|kk: int|
                                0 <= kk < pre.len() && self.reaches(pre[kk], a as NodeId);
                            assert(self.reaches(post[kk], a as NodeId));
                        } else {
                            assert(self.reaches(post[k as int], a as NodeId));
                        }
                    }
                    if self.reaches_from(post, a as NodeId) {
                        let kk = choose|kk: int|
                            0 <= kk < post.len() && self.reaches(post[kk], a as NodeId);
                        if kk < k as int {
                            assert(self.reaches(pre[kk], a as NodeId));
                            assert(self.reaches_from(pre, a as NodeId));
                        } else {
                            assert(self.reaches(starts[k as int], a as NodeId));
                        }
                    }
                }
            }
            k += 1;
        }
        proof {
            assert(starts.take(starts.len() as int) =~= starts);
        }
        let mut r: Vec<NodeId> = Vec::new();
        let mut w: usize = 0;
        while w < n
            invariant
                n == self.node_count(),
                used@.len() == n,
                w <= n,
                forall|a: int, b: int| 0 <= a < b < r@.len() ==> r@[a] < r@[b],
                forall|a: int| 0 <= a < r@.len() ==> (#[trigger] r@[a]) < w,
                forall|t: NodeId| #[trigger] r@.contains(t) <==> (t < w && used@[t as int]),
            decreases n - w,
        {
            if used[w] {
                let ghost r0 = r@;
                r.push(w);
                proof {
                    assert forall|t: NodeId| #[trigger] r@.contains(t) implies (t < w + 1
                        && used@[t as int]) by {
                        let a = choose|a: int| 0 <= a < r@.len() && r@[a] == t;
                        if a < r@.len() - 1 {
                            assert(r0[a] == t);
                            assert(r0.contains(t));
                        }
                    }
                    assert forall|t: NodeId| t < w + 1 && used@[t as int] implies
                        #[trigger] r@.contains(t) by {
                        if t < w {
                            assert(r0.contains(t));
                            let a = choose|a: int| 0 <= a < r0.len() && r0[a] == t;
                            assert(r@[a] == t);
                        } else {
                            assert(r@[r@.len() - 1] == t);
                        }
                    }
                }
            }
            w += 1;
        }
        proof {
            assert forall|t: NodeId| self.reaches_from(starts, t) implies t
                < self.node_count() by {
                let kk = choose|kk: int| 0 <= kk < starts.len() && self.reaches(starts[kk], t);
                let p = choose|p: Seq<NodeId>|
                    self.path_ok(p) && p.first() == starts[kk] && p.last() == t;
                assert(p[p.len() - 1] < self.node_count());
            }
        }
        r
    }
}

/// Renumbering table of a projection: maps an original node id to the id it
/// gets in the projected graph, `None` for a dropped node.
pub open spec fn inv_tbl(m: Seq<NodeId>, n: nat) -> Seq<Option<NodeId>> {
    Seq::new(
        n,
        |w: int|
            if m.contains(w as NodeId) {
                Some(m.index_of(w as NodeId) as NodeId)
            } else {
                None
            },
    )
}

/// An adjacency row after projection: successors that survive, renumbered
/// through `tbl`, in their original order.
pub open spec fn filter_map_row(row: Seq<NodeId>, tbl: Seq<Option<NodeId>>) -> Seq<NodeId>
    decreases row.len(),
{
    if row.len() == 0 {
        Seq::empty()
    } else {
        let rest = filter_map_row(row.drop_last(), tbl);
        match tbl[row.last() as int] {
            Some(j) => rest.push(j),
            None => rest,
        }
    }
}

/// Every renumbered id in the table is below `bound`.
pub open spec fn tbl_vals_lt(tbl: Seq<Option<NodeId>>, bound: nat) -> bool {
    forall|x: int|
        0 <= x < tbl.len() ==> match #[trigger] tbl[x] {
            Some(j) => j < bound,
            None => true,
        }
}

impl<T> TypedGraph<T> {
    /// Builds the inverse graph: same nodes and payloads, one edge `u -> v`
    /// for every original edge `v -> u`.  Node ids are preserved.
    pub fn inv(&self) -> (r: TypedGraph<T>) where T: Clone
        requires
            self.wf(),
        ensures
            r.wf(),
            r.node_count() == self.node_count(),
            forall|i: int|
                0 <= i < self.labels().len() ==> cloned::<T>(
                    self.labels()[i],
                    #[trigger] r.labels()[i],
                ),
            forall|u: int, v: int|
                0 <= u < self.node_count() && 0 <= v < self.node_count() ==> #[trigger] r.edge_count(
                    u,
                    v,
                ) == self.edge_count(v, u),
    {
        let ghost n = self.node_count();
        let mut r = Self::new_with_mapping(self.mapping.clone());
        proof {
            assert forall|a: int, b: int|
                0 <= a < n && 0 <= b < n implies #[trigger] r.edge_count(a, b) == 0 by {
                assert(r.adj()[a] =~= Seq::<NodeId>::empty());
                assert(!r.adj()[a].contains(b as NodeId));
            }
        }
        let size = self.size();
        let mut v: usize = 0;
        while v < size
            invariant
                self.wf(),
                n == self.node_count(),
                size == n,
                v <= size,
                r.wf(),
                r.node_count() == n,
                r.labels().len() == n,
                forall|i: int|
                    0 <= i < n ==> cloned::<T>(self.labels()[i], #[trigger] r.labels()[i]),
                forall|a: int, b: int|
                    0 <= a < n && 0 <= b < n ==> #[trigger] r.edge_count(a, b) == (if b < v {
                        self.edge_count(b, a)
                    } else {
                        0
                    }),
            decreases size - v,
        {
            let deg = self.next[v].len();
            let ghost row = self.adj()[v as int];
            let mut k: usize = 0;
            while k < deg
                invariant
                    self.wf(),
                    n == self.node_count(),
                    size == n,
                    v < size,
                    row == self.adj()[v as int],
                    deg == row.len(),
                    k <= deg,
                    r.wf(),
                    r.node_count() == n,
                    r.labels().len() == n,
                    forall|i: int|
                        0 <= i < n ==> cloned::<T>(self.labels()[i], #[trigger] r.labels()[i]),
                    forall|a: int, b: int|
                        0 <= a < n && 0 <= b < n ==> #[trigger] r.edge_count(a, b) == (if b < v {
                            self.edge_count(b, a)
                        } else if b == v {
                            row.take(k as int).to_multiset().count(a as NodeId)
                        } else {
                            0
                        }),
                decreases deg - k,
            {
                let x = self.next[v][k];
                let ghost r0 = r;
                r.add_edge(x, v);
                proof {
                    assert(row.take(k + 1) =~= row.take(k as int).push(row[k as int]));
                    assert(row.take(k + 1).to_multiset() =~= row.take(
                        k as int,
                    ).to_multiset().insert(x));
                    assert(r.adj()[x as int] == r0.adj()[x as int].push(v));
                    assert(r.adj()[x as int].to_multiset() =~= r0.adj()[
                        x as int].to_multiset().insert(v));
                    assert forall|a: int, b: int|
                        0 <= a < n && 0 <= b < n implies #[trigger] r.edge_count(a, b) == (if b
                        < v {
                        self.edge_count(b, a)
                    } else if b == v {
                        row.take(k + 1).to_multiset().count(a as NodeId)
                    } else {
                        0
                    }) by {
                        assert(r0.edge_count(a, b) == (if b < v {
                            self.edge_count(b, a)
                        } else if b == v {
                            row.take(k as int).to_multiset().count(a as NodeId)
                        } else {
                            0
                        }));
                        if a == x {
                            assert(r.edge_count(a, b) == r0.adj()[a].to_multiset().insert(v).count(
                                b as NodeId,
                            ));
                            if b == v {
                                assert(r.edge_count(a, b) == r0.edge_count(a, b) + 1);
                                assert(row.take(k + 1).to_multiset().count(a as NodeId) == row.take(
                                    k as int,
                                ).to_multiset().count(a as NodeId) + 1);
                            } else {
                                assert(r.edge_count(a, b) == r0.edge_count(a, b));
                            }
                        } else {
                            assert(r.adj()[a] == r0.adj()[a]);
                            assert(row.take(k + 1).to_multiset().count(a as NodeId) == row.take(
                                k as int,
                            ).to_multiset().count(a as NodeId));
                        }
                    }
                }
                k += 1;
            }
            proof {
                assert(row.take(deg as int) =~= row);
            }
            v += 1;
        }
        r
    }

    /// Induced subgraph over the distinct elements of `nodes`, with node ids
    /// compacted; also returns the new-to-original id mapping.
    pub fn projection(&self, nodes: &[NodeId]) -> (r: (TypedGraph<T>, Vec<NodeId>)) where
        T: Clone,

        requires
            self.wf(),
            forall|k: int| 0 <= k < nodes@.len() ==> (#[trigger] nodes@[k]) < self.node_count(),
        ensures
            forall|a: int, b: int| 0 <= a < b < r.1@.len() ==> r.1@[a] < r.1@[b],
            forall|t: NodeId| #[trigger] r.1@.contains(t) <==> nodes@.contains(t),
            r.0.wf(),
            r.0.node_count() == r.1@.len(),
            forall|i: int|
                0 <= i < r.1@.len() ==> cloned::<T>(
                    self.labels()[r.1@[i] as int],
                    #[trigger] r.0.labels()[i],
                ),
            forall|i: int|
                0 <= i < r.1@.len() ==> #[trigger] r.0.adj()[i] == filter_map_row(
                    self.adj()[r.1@[i] as int],
                    inv_tbl(r.1@, self.node_count()),
                ),
    {
        let ghost n = self.node_count();
        let size = self.size();

        // Distinct ids of `nodes`, ascending.
        let mut m: Vec<NodeId> = Vec::new();
        let mut w: usize = 0;
        while w < size
            invariant
                size == n,
                w <= size,
                forall|a: int, b: int| 0 <= a < b < m@.len() ==> m@[a] < m@[b],
                forall|a: int| 0 <= a < m@.len() ==> (#[trigger] m@[a]) < w,
                forall|t: NodeId| #[trigger] m@.contains(t) <==> (t < w && nodes@.contains(t)),
            decreases size - w,
        {
            if contains_id(nodes, w) {
                let ghost m0 = m@;
                m.push(w);
                proof {
                    assert forall|t: NodeId| #[trigger] m@.contains(t) implies (t < w + 1
                        && nodes@.contains(t)) by {
                        let a = choose|a: int| 0 <= a < m@.len() && m@[a] == t;
                        if a < m@.len() - 1 {
                            assert(m0[a] == t);
                            assert(m0.contains(t));
                        }
                    }
                    assert forall|t: NodeId| t < w + 1 && nodes@.contains(t) implies
                        #[trigger] m@.contains(t) by {
                        if t < w {
                            assert(m0.contains(t));
                            let a = choose|a: int| 0 <= a < m0.len() && m0[a] == t;
                            assert(m@[a] == t);
                        } else {
                            assert(m@[m@.len() - 1] == t);
                        }
                    }
                }
            }
            w += 1;
        }

        // Payloads of the retained nodes.
        let mlen = m.len();
        let mut labs: Vec<T> = Vec::new();
        let mut j: usize = 0;
        while j < mlen
            invariant
                self.wf(),
                n == self.node_count(),
                mlen == m@.len(),
                j <= mlen,
                forall|a: int| 0 <= a < m@.len() ==> (#[trigger] m@[a]) < n,
                labs@.len() == j,
                forall|a: int|
                    0 <= a < j ==> cloned::<T>(self.labels()[m@[a] as int], #[trigger] labs@[a]),
            decreases mlen - j,
        {
            labs.push(self.mapping[m[j]].clone());
            j += 1;
        }

        // Renumbering table: original id -> projected id.
        let mut tbl: Vec<Option<NodeId>> = Vec::new();
        let mut w2: usize = 0;
        while w2 < size
            invariant
                size == n,
                w2 <= size,
                tbl@.len() == w2,
                forall|a: int| 0 <= a < w2 ==> (#[trigger] tbl@[a]) is None,
            decreases size - w2,
        {
            tbl.push(None);
            w2 += 1;
        }
        let mut j2: usize = 0;
        while j2 < mlen
            invariant
                size == n,
                mlen == m@.len(),
                j2 <= mlen,
                tbl@.len() == n,
                forall|a: int, b: int| 0 <= a < b < m@.len() ==> m@[a] < m@[b],
                forall|a: int| 0 <= a < m@.len() ==> (#[trigger] m@[a]) < n,
                forall|jj: int|
                    0 <= jj < j2 ==> tbl@[m@[jj] as int] == Some(m@[jj] as NodeId) || tbl@[m@[jj]
                        as int] == Some(jj as NodeId),
                forall|jj: int| 0 <= jj < j2 ==> #[trigger] tbl@[m@[jj] as int] == Some(
                    jj as NodeId,
                ),
                forall|x: int|
                    0 <= x < n && !m@.take(j2 as int).contains(x as NodeId) ==> (
                    #[trigger] tbl@[x]) is None,
            decreases mlen - j2,
        {
            tbl.set(m[j2], Some(j2));
            proof {
                assert(m@.take(j2 + 1) =~= m@.take(j2 as int).push(m@[j2 as int]));
                assert forall|jj: int| 0 <= jj < j2 + 1 implies #[trigger] tbl@[m@[jj] as int]
                    == Some(jj as NodeId) by {
                    if jj < j2 {
                        assert(m@[jj] < m@[j2 as int]);
                    }
                }
            }
            j2 += 1;
        }
        proof {
            assert(m@.take(mlen as int) =~= m@);
            assert forall|x: int| 0 <= x < n implies tbl@[x] == inv_tbl(m@, n)[x] by {
                if m@.contains(x as NodeId) {
                    let a = choose|a: int| 0 <= a < m@.len() && m@[a] == x as NodeId;
                    let i0 = m@.index_of(x as NodeId);
                    assert(m@[i0] == x as NodeId);
                    if i0 < a {
                        assert(m@[i0] < m@[a]);
                    }
                    if a < i0 {
                        assert(m@[a] < m@[i0]);
                    }
                    assert(i0 == a);
                    assert(tbl@[m@[a] as int] == Some(a as NodeId));
                } else {
                    assert(tbl@[x] is None);
                }
            }
            assert(tbl@ =~= inv_tbl(m@, n));
        }

        // The projected graph.
        let mut g2 = Self::new_with_mapping(labs);
        let mut i: usize = 0;
        while i < mlen
            invariant
                self.wf(),
                n == self.node_count(),
                mlen == m@.len(),
                i <= mlen,
                tbl@.len() == n,
                tbl@ == inv_tbl(m@, n),
                forall|a: int| 0 <= a < m@.len() ==> (#[trigger] m@[a]) < n,
                tbl_vals_lt(tbl@, mlen as nat),
                g2.wf(),
                g2.node_count() == mlen,
                g2.labels().len() == mlen,
                forall|a: int|
                    0 <= a < mlen ==> cloned::<T>(
                        self.labels()[m@[a] as int],
                        #[trigger] g2.labels()[a],
                    ),
                forall|ii: int|
                    0 <= ii < i ==> #[trigger] g2.adj()[ii] == filter_map_row(
                        self.adj()[m@[ii] as int],
                        tbl@,
                    ),
                forall|ii: int| i <= ii < mlen ==> (#[trigger] g2.adj()[ii]).len() == 0,
            decreases mlen - i,
        {
            let src = m[i];
            let deg = self.next[src].len();
            let ghost row = self.adj()[src as int];
            proof {
                assert(g2.adj()[i as int] =~= Seq::<NodeId>::empty());
                assert(row.take(0) =~= Seq::<NodeId>::empty());
                assert(g2.adj()[i as int] == filter_map_row(row.take(0), tbl@));
            }
            let mut k: usize = 0;
            while k < deg
                invariant
                    self.wf(),
                    n == self.node_count(),
                    mlen == m@.len(),
                    i < mlen,
                    src == m@[i as int],
                    src < n,
                    row == self.adj()[src as int],
                    deg == row.len(),
                    k <= deg,
                    tbl@.len() == n,
                    tbl@ == inv_tbl(m@, n),
                    forall|a: int| 0 <= a < m@.len() ==> (#[trigger] m@[a]) < n,
                    tbl_vals_lt(tbl@, mlen as nat),
                    g2.wf(),
                    g2.node_count() == mlen,
                    g2.labels().len() == mlen,
                    forall|a: int|
                        0 <= a < mlen ==> cloned::<T>(
                            self.labels()[m@[a] as int],
                            #[trigger] g2.labels()[a],
                        ),
                    forall|ii: int|
                        0 <= ii < i ==> #[trigger] g2.adj()[ii] == filter_map_row(
                            self.adj()[m@[ii] as int],
                            tbl@,
                        ),
                    g2.adj()[i as int] == filter_map_row(row.take(k as int), tbl@),
                    forall|ii: int| i < ii < mlen ==> (#[trigger] g2.adj()[ii]).len() == 0,
                decreases deg - k,
            {
                let x = self.next[src][k];
                proof {
                    assert(x == row[k as int]);
                    assert(x < n);
                    assert(row.take(k + 1) =~= row.take(k as int).push(row[k as int]));
                    assert(row.take(k + 1).drop_last() =~= row.take(k as int));
                }
                let ghost g2_0 = g2;
                match tbl[x] {
                    Some(u) => {
                        g2.add_edge(i, u);
                        proof {
                            assert(g2.adj()[i as int] == g2_0.adj()[i as int].push(u));
                            assert forall|ii: int|
                                0 <= ii < i implies #[trigger] g2.adj()[ii] == filter_map_row(
                                self.adj()[m@[ii] as int],
                                tbl@,
                            ) by {
                                assert(g2.adj()[ii] == g2_0.adj()[ii]);
                            }
                        }
                    },
                    None => {},
                }
                proof {
                    assert(g2.adj()[i as int] == filter_map_row(row.take(k + 1), tbl@));
                }
                k += 1;
            }
            proof {
                assert(row.take(deg as int) =~= row);
            }
            i += 1;
        }
        (g2, m)
    }
}

/// The node ids below `n` that satisfy `pred`, ascending.
pub open spec fn filter_range(n: nat, pred: spec_fn(int) -> bool) -> Seq<NodeId>
    decreases n,
{
    if n == 0 {
        Seq::empty()
    } else {
        let rest = filter_range((n - 1) as nat, pred);
        if pred(n - 1) {
            rest.push((n - 1) as NodeId)
        } else {
            rest
        }
    }
}

pub proof fn lemma_filter_range_props(n: nat, pred: spec_fn(int) -> bool)
    requires
        n <= usize::MAX,
    ensures
        forall|a: int, b: int|
            0 <= a < b < filter_range(n, pred).len() ==> filter_range(n, pred)[a] < filter_range(
                n,
                pred,
            )[b],
        forall|a: int|
            0 <= a < filter_range(n, pred).len() ==> (#[trigger] filter_range(n, pred)[a]) < n,
        forall|t: NodeId|
            #[trigger] filter_range(n, pred).contains(t) <==> (t < n && pred(t as int)),
    decreases n,
{
    broadcast use vstd::seq_lib::group_seq_properties;

    if n > 0 {
        lemma_filter_range_props((n - 1) as nat, pred);
        let rest = filter_range((n - 1) as nat, pred);
        let cur = filter_range(n, pred);
        if pred(n - 1) {
            assert forall|t: NodeId| #[trigger] cur.contains(t) implies (t < n && pred(
                t as int,
            )) by {
                if t != ((n - 1) as NodeId) {
                    let a = choose|a: int| 0 <= a < cur.len() && cur[a] == t;
                    assert(rest[a] == t);
                    assert(rest.contains(t));
                }
            }
            assert forall|t: NodeId| (t < n && pred(t as int)) implies #[trigger] cur.contains(
                t,
            ) by {
                if t < n - 1 {
                    assert(rest.contains(t));
                    let a = choose|a: int| 0 <= a < rest.len() && rest[a] == t;
                    assert(cur[a] == t);
                } else {
                    assert(cur[cur.len() - 1] == t);
                }
            }
            assert forall|a: int, b: int| 0 <= a < b < cur.len() implies cur[a] < cur[b] by {
                if b == cur.len() - 1 {
                    assert(cur[a] == rest[a]);
                    assert(rest.contains(rest[a]));
                    assert(cur[b] == (n - 1) as NodeId);
                }
            }
        }
    }
}

/// In-degree of `v` counting only edges whose source is below `u_limit`.
pub open spec fn in_deg_upto<T>(g: &TypedGraph<T>, v: int, u_limit: int) -> nat
    decreases u_limit,
{
    if u_limit <= 0 {
        0
    } else {
        in_deg_upto(g, v, u_limit - 1) + g.edge_count(u_limit - 1, v)
    }
}

/// In-degree of `v`, counting parallel edges.
pub open spec fn in_deg<T>(g: &TypedGraph<T>, v: int) -> nat {
    in_deg_upto(g, v, g.node_count() as int)
}

/// Out-degree of `v`, counting parallel edges.
pub open spec fn out_deg<T>(g: &TypedGraph<T>, v: int) -> nat {
    g.adj()[v].len()
}

/// Number of edges whose source is below `u_limit`.
pub open spec fn total_edges_upto<T>(g: &TypedGraph<T>, u_limit: int) -> nat
    decreases u_limit,
{
    if u_limit <= 0 {
        0
    } else {
        total_edges_upto(g, u_limit - 1) + g.adj()[u_limit - 1].len()
    }
}

/// Number of edges of the graph.
pub open spec fn total_edges<T>(g: &TypedGraph<T>) -> nat {
    total_edges_upto(g, g.node_count() as int)
}

pub proof fn lemma_total_upto_mono<T>(g: &TypedGraph<T>, u1: int, u2: int)
    requires
        u1 <= u2,
    ensures
        total_edges_upto(g, u1) <= total_edges_upto(g, u2),
    decreases u2 - u1,
{
    if u1 < u2 {
        lemma_total_upto_mono(g, u1, u2 - 1);
    }
}

/// Two strictly ascending id sequences with the same members are equal.
pub proof fn lemma_ascending_same_membership(a: Seq<NodeId>, b: Seq<NodeId>)
    requires
        forall|x: int, y: int| 0 <= x < y < a.len() ==> a[x] < a[y],
        forall|x: int, y: int| 0 <= x < y < b.len() ==> b[x] < b[y],
        forall|t: NodeId| #[trigger] a.contains(t) <==> b.contains(t),
    ensures
        a == b,
    decreases a.len(),
{
    broadcast use vstd::seq_lib::group_seq_properties;

    if a.len() == 0 {
        if b.len() > 0 {
            assert(b.contains(b[0]));
            assert(a.contains(b[0]));
            assert(false);
        }
        assert(a =~= b);
    } else if b.len() == 0 {
        assert(a.contains(a[0]));
        assert(b.contains(a[0]));
        assert(false);
    } else {
        assert(a.contains(a[0]));
        assert(b.contains(a[0]));
        let ia = choose|i: int| 0 <= i < b.len() && b[i] == a[0];
        assert(b[0] <= b[ia]);
        assert(b.contains(b[0]));
        assert(a.contains(b[0]));
        let ib = choose|i: int| 0 <= i < a.len() && a[i] == b[0];
        assert(a[0] <= a[ib]);
        assert(a[0] == b[0]);
        let at = a.drop_first();
        let bt = b.drop_first();
        assert(forall|k: int| 0 <= k < at.len() ==> #[trigger] at[k] == a[k + 1]);
        assert(forall|k: int| 0 <= k < bt.len() ==> #[trigger] bt[k] == b[k + 1]);
        assert forall|t: NodeId| #[trigger] at.contains(t) implies bt.contains(t) by {
            let i = choose|i: int| 0 <= i < at.len() && at[i] == t;
            assert(a[i + 1] == t);
            assert(a[0] < t);
            assert(a.contains(t));
            assert(b.contains(t));
            let j = choose|j: int| 0 <= j < b.len() && b[j] == t;
            assert(j != 0);
            assert(bt[j - 1] == t);
        }
        assert forall|t: NodeId| #[trigger] bt.contains(t) implies at.contains(t) by {
            let i = choose|i: int| 0 <= i < bt.len() && bt[i] == t;
            assert(b[i + 1] == t);
            assert(b[0] < t);
            assert(b.contains(t));
            assert(a.contains(t));
            let j = choose|j: int| 0 <= j < a.len() && a[j] == t;
            assert(j != 0);
            assert(at[j - 1] == t);
        }
        lemma_ascending_same_membership(at, bt);
        assert(a =~= b);
    }
}

/// `small` is the induced subgraph of `big` over the nodes of `keep`
/// (strictly ascending valid ids), with ids compacted in order and payloads
/// carried over.
pub open spec fn is_projection_of<T: Clone>(
    small: &TypedGraph<T>,
    big: &TypedGraph<T>,
    keep: Seq<NodeId>,
) -> bool {
    &&& small.node_count() == keep.len()
    &&& small.labels().len() == keep.len()
    &&& forall|i: int|
        0 <= i < keep.len() ==> cloned::<T>(big.labels()[keep[i] as int], #[trigger] small.labels()[i])
    &&& forall|i: int|
        0 <= i < keep.len() ==> #[trigger] small.adj()[i] == filter_map_row(
            big.adj()[keep[i] as int],
            inv_tbl(keep, big.node_count()),
        )
}

/// Reachability law: the reachable set contains every start node, and
/// restarting the traversal from the reachable set yields that set again.
/// `reached` is any value meeting [`TypedGraph::get_reachable`]'s contract
/// for the start set `starts`.
pub proof fn lemma_reachable_idempotent<T>(
    g: &TypedGraph<T>,
    starts: Seq<NodeId>,
    reached: Seq<NodeId>,
    t: NodeId,
)
    requires
        g.wf(),
        forall|k: int| 0 <= k < starts.len() ==> (#[trigger] starts[k]) < g.node_count(),
        forall|x: NodeId| #[trigger] reached.contains(x) <==> g.reaches_from(starts, x),
    ensures
        forall|k: int| 0 <= k < starts.len() ==> g.reaches_from(starts, #[trigger] starts[k]),
        g.reaches_from(reached, t) <==> g.reaches_from(starts, t),
{
    assert forall|k: int| 0 <= k < starts.len() implies g.reaches_from(
        starts,
        #[trigger] starts[k],
    ) by {
        g.lemma_reaches_refl(starts[k]);
        assert(g.reaches(starts[k], starts[k]));
    }
    if g.reaches_from(starts, t) {
        let kk = choose|kk: int| 0 <= kk < starts.len() && g.reaches(starts[kk], t);
        let p = choose|p: Seq<NodeId>| g.path_ok(p) && p.first() == starts[kk] && p.last() == t;
        assert(t == p[p.len() - 1]);
        assert(t < g.node_count());
        g.lemma_reaches_refl(t);
        assert(reached.contains(t));
        let a = choose|a: int| 0 <= a < reached.len() && reached[a] == t;
        assert(g.reaches(reached[a], t));
        assert(g.reaches_from(reached, t));
    }
    if g.reaches_from(reached, t) {
        let a = choose|a: int| 0 <= a < reached.len() && g.reaches(reached[a], t);
        assert(reached.contains(reached[a]));
        assert(g.reaches_from(starts, reached[a]));
        let kk = choose|kk: int| 0 <= kk < starts.len() && g.reaches(starts[kk], reached[a]);
        g.lemma_reaches_trans(starts[kk], reached[a], t);
        assert(g.reaches_from(starts, t));
    }
}

/// Inversion law: a graph that inverts an inversion of `g` carries exactly
/// `g`'s edge multiset.  `g1` and `g2` are any values meeting
/// [`TypedGraph::inv`]'s contract for `g` and `g1` respectively.
pub proof fn lemma_inv_involutive<T>(g: &TypedGraph<T>, g1: &TypedGraph<T>, g2: &TypedGraph<T>)
    requires
        g1.node_count() == g.node_count(),
        forall|u: int, v: int|
            0 <= u < g.node_count() && 0 <= v < g.node_count() ==> #[trigger] g1.edge_count(u, v)
                == g.edge_count(v, u),
        g2.node_count() == g1.node_count(),
        forall|u: int, v: int|
            0 <= u < g1.node_count() && 0 <= v < g1.node_count() ==> #[trigger] g2.edge_count(u, v)
                == g1.edge_count(v, u),
    ensures
        g2.node_count() == g.node_count(),
        forall|u: int, v: int|
            0 <= u < g.node_count() && 0 <= v < g.node_count() ==> #[trigger] g2.edge_count(u, v)
                == g.edge_count(u, v),
{
}

/// Projection law: the projected graph has exactly one node per distinct
/// requested id, and the returned mapping is strictly ascending, hence free
/// of duplicates.  `proj` and `m` are any values meeting
/// [`TypedGraph::projection`]'s contract for the request `nodes`.
pub proof fn lemma_projection_distinct<T>(
    g: &TypedGraph<T>,
    proj: &TypedGraph<T>,
    m: Seq<NodeId>,
    nodes: Seq<NodeId>,
)
    requires
        forall|a: int, b: int| 0 <= a < b < m.len() ==> m[a] < m[b],
        forall|t: NodeId| #[trigger] m.contains(t) <==> nodes.contains(t),
        proj.node_count() == m.len(),
    ensures
        m.no_duplicates(),
        proj.node_count() == nodes.to_set().len(),
{
    assert(m.no_duplicates()) by {
        assert forall|a: int, b: int|
            0 <= a < m.len() && 0 <= b < m.len() && a != b implies m[a] != m[b] by {
            if a < b {
                assert(m[a] < m[b]);
            } else {
                assert(m[b] < m[a]);
            }
        }
    }
    m.unique_seq_to_set();
    assert(m.to_set() =~= nodes.to_set()) by {
        assert forall|x: NodeId| #[trigger] m.to_set().contains(x) implies nodes.to_set().contains(
            x,
        ) by {
            assert(m.contains(x));
            assert(nodes.contains(x));
        }
        assert forall|x: NodeId| #[trigger] nodes.to_set().contains(x) implies m.to_set().contains(
            x,
        ) by {
            assert(nodes.contains(x));
            assert(m.contains(x));
        }
    }
}

/// Whether `x` occurs in `nodes`.
pub(crate) fn contains_id(nodes: &[NodeId], x: NodeId) -> (r: bool)
    ensures
        r == nodes@.contains(x),
{
    let len = nodes.len();
    let mut i: usize = 0;
    while i < len
        invariant
            len == nodes@.len(),
            i <= len,
            forall|a: int| 0 <= a < i ==> nodes@[a] != x,
        decreases len - i,
    {
        if nodes[i] == x {
            return true;
        }
        i += 1;
    }
    false
}

} // verus!
