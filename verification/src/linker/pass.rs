//! The pass pipeline: self-contained rewriting operations over call graphs
//! with string labels, applied in a caller-chosen order.

use vstd::prelude::*;

verus! {

use vstd::pervasive::cloned;
use crate::graph::{
    TypedGraph, NodeId, filter_range, lemma_filter_range_props, lemma_ascending_same_membership,
    is_projection_of, in_deg, in_deg_upto, out_deg, total_edges, total_edges_upto,
    lemma_total_upto_mono, contains_id,
};
use crate::linker::pattern::{Pattern, regex_match, any_match, pattern_views, any_match_exec};
use crate::linker::text::{string_views, ws_tokens, split_whitespace_owned, contains_string};
use crate::linker::pattern::{compile_patterns, compile_valid_patterns, compilable};
use crate::linker::text::{split_lines, split_lines_spec};

broadcast use vstd::seq_lib::group_seq_properties, vstd::multiset::group_multiset_axioms;

/// The label of node `v`, as a character sequence.
pub open spec fn label_view(g: &TypedGraph<String>, v: int) -> Seq<char> {
    g.labels()[v]@
}

/// Two label tables that are clones of each other are equal: cloning a
/// `String` preserves its value.
proof fn lemma_cloned_strings(a: Seq<String>, b: Seq<String>)
    requires
        a.len() == b.len(),
        forall|i: int| 0 <= i < a.len() ==> cloned::<String>(a[i], #[trigger] b[i]),
    ensures
        a == b,
{
    assert forall|i: int| 0 <= i < a.len() implies a[i] == #[trigger] b[i] by {
        assert(cloned::<String>(a[i], b[i]));
    }
    assert(a =~= b);
}

/// Reverses every edge in place; node identities are unchanged.
#[derive(Debug)]
pub struct ReverseGraphPass {}

impl Default for ReverseGraphPass {
    fn default() -> (r: Self)
        ensures
            r == (ReverseGraphPass {  }),
    {
        ReverseGraphPass {  }
    }
}

impl ReverseGraphPass {
    pub fn run_pass(&self, graph: &mut TypedGraph<String>)
        requires
            old(graph).wf(),
        ensures
            final(graph).wf(),
            final(graph).node_count() == old(graph).node_count(),
            final(graph).labels() == old(graph).labels(),
            forall|u: int, v: int|
                0 <= u < old(graph).node_count() && 0 <= v < old(graph).node_count()
                    ==> #[trigger] final(graph).edge_count(u, v) == old(graph).edge_count(v, u),
    {
        let g2 = graph.inv();
        proof {
            lemma_cloned_strings(graph.labels(), g2.labels());
        }
        *graph = g2;
    }
}

/// The successors of a node after duplicate edges are removed: first
/// occurrences survive, in order.
pub open spec fn dedup_first(s: Seq<NodeId>) -> Seq<NodeId>
    decreases s.len(),
{
    if s.len() == 0 {
        Seq::empty()
    } else {
        let d = dedup_first(s.drop_last());
        if s.drop_last().contains(s.last()) {
            d
        } else {
            d.push(s.last())
        }
    }
}

pub proof fn lemma_dedup_first_props(s: Seq<NodeId>)
    ensures
        forall|x: NodeId| #[trigger] dedup_first(s).contains(x) <==> s.contains(x),
        dedup_first(s).no_duplicates(),
        dedup_first(s).len() <= s.len(),
    decreases s.len(),
{
    broadcast use vstd::seq_lib::group_seq_properties;

    if s.len() > 0 {
        let dl = s.drop_last();
        lemma_dedup_first_props(dl);
        let d = dedup_first(dl);
        assert(dl.push(s.last()) =~= s);
        assert forall|x: NodeId| s.contains(x) implies #[trigger] dedup_first(s).contains(x) by {
            if dl.contains(s.last()) {
                if x == s.last() {
                    assert(d.contains(x));
                } else {
                    let a = choose|a: int| 0 <= a < s.len() && s[a] == x;
                    assert(dl[a] == x);
                    assert(dl.contains(x));
                }
            } else {
                if x != s.last() {
                    let a = choose|a: int| 0 <= a < s.len() && s[a] == x;
                    assert(dl[a] == x);
                    assert(dl.contains(x));
                    assert(d.contains(x));
                    let b = choose|b: int| 0 <= b < d.len() && d[b] == x;
                    assert(dedup_first(s)[b] == x);
                } else {
                    assert(dedup_first(s).last() == x);
                }
            }
        }
        assert forall|x: NodeId| #[trigger] dedup_first(s).contains(x) implies s.contains(x) by {
            if dl.contains(s.last()) {
                assert(d.contains(x));
                assert(dl.contains(x));
            } else {
                let b = choose|b: int| 0 <= b < dedup_first(s).len() && dedup_first(s)[b] == x;
                if b < dedup_first(s).len() - 1 {
                    assert(d[b] == x);
                    assert(d.contains(x));
                    assert(dl.contains(x));
                } else {
                    assert(x == s.last());
                }
            }
        }
        if !dl.contains(s.last()) {
            assert(!d.contains(s.last()));
            assert forall|a: int, b: int|
                0 <= a < dedup_first(s).len() && 0 <= b < dedup_first(s).len() && a
                    != b implies dedup_first(s)[a] != dedup_first(s)[b] by {
                if a < dedup_first(s).len() - 1 && b < dedup_first(s).len() - 1 {
                } else if a == dedup_first(s).len() - 1 {
                    assert(d[b] == dedup_first(s)[b]);
                    assert(d.contains(d[b]));
                } else {
                    assert(d[a] == dedup_first(s)[a]);
                    assert(d.contains(d[a]));
                }
            }
        }
    }
}

/// Deduplicating an already duplicate-free row leaves it unchanged.
proof fn lemma_dedup_first_nodup(s: Seq<NodeId>)
    requires
        s.no_duplicates(),
    ensures
        dedup_first(s) == s,
    decreases s.len(),
{
    broadcast use vstd::seq_lib::group_seq_properties;

    if s.len() > 0 {
        let dl = s.drop_last();
        assert(dl.no_duplicates());
        lemma_dedup_first_nodup(dl);
        if dl.contains(s.last()) {
            let a = choose|a: int| 0 <= a < dl.len() && dl[a] == s.last();
            assert(s[a] == s.last());
            assert(false);
        }
        assert(dedup_first(s) =~= s);
    }
}

/// Removing duplicate edges twice gives the same rows as doing it once.
pub proof fn lemma_dedup_first_idempotent(s: Seq<NodeId>)
    ensures
        dedup_first(dedup_first(s)) == dedup_first(s),
{
    lemma_dedup_first_props(s);
    lemma_dedup_first_nodup(dedup_first(s));
}

/// Collapses parallel edges: for each ordered pair of nodes at most one
/// edge remains.
#[derive(Debug)]
pub struct UniqueEdgesPass {}

impl Default for UniqueEdgesPass {
    fn default() -> (r: Self)
        ensures
            r == (UniqueEdgesPass {  }),
    {
        UniqueEdgesPass {  }
    }
}

impl UniqueEdgesPass {
    pub fn run_pass(&self, graph: &mut TypedGraph<String>)
        requires
            old(graph).wf(),
        ensures
            final(graph).wf(),
            final(graph).node_count() == old(graph).node_count(),
            final(graph).labels() == old(graph).labels(),
            forall|v: int|
                0 <= v < old(graph).node_count() ==> #[trigger] final(graph).adj()[v]
                    == dedup_first(old(graph).adj()[v]),
    {
        let ghost n = old(graph).node_count();
        let size = graph.size();
        let labs = graph.mapping().clone();
        proof {
            lemma_cloned_strings(graph.labels(), labs@);
        }
        let mut g2 = TypedGraph::<String>::new_with_mapping(labs);
        let mut v: usize = 0;
        while v < size
            invariant
                graph.wf(),
                n == graph.node_count(),
                size == n,
                v <= size,
                g2.wf(),
                g2.node_count() == n,
                g2.labels() == graph.labels(),
                forall|w: int|
                    0 <= w < v ==> #[trigger] g2.adj()[w] == dedup_first(graph.adj()[w]),
                forall|w: int| v <= w < n ==> (#[trigger] g2.adj()[w]).len() == 0,
            decreases size - v,
        {
            let deg = graph.next(v).len();
            let ghost row = graph.adj()[v as int];
            proof {
                assert(g2.adj()[v as int] =~= Seq::<NodeId>::empty());
                assert(row.take(0) =~= Seq::<NodeId>::empty());
            }
            let mut k: usize = 0;
            while k < deg
                invariant
                    graph.wf(),
                    n == graph.node_count(),
                    size == n,
                    v < size,
                    row == graph.adj()[v as int],
                    deg == row.len(),
                    k <= deg,
                    g2.wf(),
                    g2.node_count() == n,
                    g2.labels() == graph.labels(),
                    forall|w: int|
                        0 <= w < v ==> #[trigger] g2.adj()[w] == dedup_first(graph.adj()[w]),
                    g2.adj()[v as int] == dedup_first(row.take(k as int)),
                    forall|w: int| v < w < n ==> (#[trigger] g2.adj()[w]).len() == 0,
                decreases deg - k,
            {
                let x = graph.next(v)[k];
                proof {
                    assert(x == row[k as int]);
                    assert(row.take(k + 1).drop_last() =~= row.take(k as int));
                    assert(row.take(k + 1).last() == row[k as int]);
                    lemma_dedup_first_props(row.take(k as int));
                }
                let present = contains_id(g2.next(v).as_slice(), x);
                if !present {
                    let ghost g2_0 = g2;
                    g2.add_edge(v, x);
                    proof {
                        assert(g2.adj()[v as int] == g2_0.adj()[v as int].push(x));
                        assert forall|w: int|
                            0 <= w < v implies #[trigger] g2.adj()[w] == dedup_first(
                            graph.adj()[w],
                        ) by {
                            assert(g2.adj()[w] == g2_0.adj()[w]);
                        }
                    }
                }
                k += 1;
            }
            proof {
                assert(row.take(deg as int) =~= row);
            }
            v += 1;
        }
        *graph = g2;
    }
}

/// Retains only the nodes whose in- and out-degree, counted over the
/// original graph with parallel edges, stay within the bounds.
#[derive(Debug)]
pub struct CutDegPass {
    max_incoming: usize,
    max_outgoing: usize,
}

impl CutDegPass {
    pub closed spec fn max_in(&self) -> usize {
        self.max_incoming
    }

    pub closed spec fn max_out(&self) -> usize {
        self.max_outgoing
    }

    /// A missing bound means unbounded.
    pub fn new(max_incoming: Option<usize>, max_outgoing: Option<usize>) -> (r: Self)
        ensures
            r.max_in() == (match max_incoming {
                Some(v) => v,
                None => usize::MAX,
            }),
            r.max_out() == (match max_outgoing {
                Some(v) => v,
                None => usize::MAX,
            }),
    {
        Self {
            max_incoming: match max_incoming {
                Some(v) => v,
                None => usize::MAX,
            },
            max_outgoing: match max_outgoing {
                Some(v) => v,
                None => usize::MAX,
            },
        }
    }

    /// The ids that survive the degree filter, ascending.
    pub open spec fn kept(&self, g: &TypedGraph<String>) -> Seq<NodeId> {
        filter_range(
            g.node_count(),
            |v: int| in_deg(g, v) <= self.max_in() && out_deg(g, v) <= self.max_out(),
        )
    }

    #[verifier::loop_isolation(false)]
    pub fn run_pass(&self, graph: &mut TypedGraph<String>)
        requires
            old(graph).wf(),
            total_edges(old(graph)) <= usize::MAX,
        ensures
            final(graph).wf(),
            is_projection_of(final(graph), old(graph), self.kept(old(graph))),
    {
        let ghost n = old(graph).node_count();
        let ghost pred = |v: int|
            in_deg(old(graph), v) <= self.max_in() && out_deg(old(graph), v) <= self.max_out();
        let size = graph.size();

        // In-degrees, counting parallel edges.
        let mut deg_in: Vec<usize> = Vec::new();
        let mut z: usize = 0;
        while z < size
            invariant
                z <= size,
                deg_in@.len() == z,
                forall|w: int| 0 <= w < z ==> (#[trigger] deg_in@[w]) == 0,
            decreases size - z,
        {
            deg_in.push(0);
            z += 1;
        }
        let mut u: usize = 0;
        while u < size
            invariant
                graph.wf(),
                n == graph.node_count(),
                size == n,
                u <= size,
                total_edges(graph) <= usize::MAX,
                deg_in@.len() == n,
                forall|w: int|
                    0 <= w < n ==> (#[trigger] deg_in@[w]) == in_deg_upto(graph, w, u as int),
                forall|w: int|
                    0 <= w < n ==> (#[trigger] deg_in@[w]) <= total_edges_upto(graph, u as int),
            decreases size - u,
        {
            let deg = graph.next(u).len();
            let ghost row = graph.adj()[u as int];
            let mut k: usize = 0;
            while k < deg
                invariant
                    graph.wf(),
                    n == graph.node_count(),
                    size == n,
                    u < size,
                    row == graph.adj()[u as int],
                    deg == row.len(),
                    k <= deg,
                    total_edges(graph) <= usize::MAX,
                    deg_in@.len() == n,
                    forall|w: int|
                        0 <= w < n ==> (#[trigger] deg_in@[w]) == in_deg_upto(graph, w, u as int)
                            + row.take(k as int).to_multiset().count(w as NodeId),
                    forall|w: int|
                        0 <= w < n ==> (#[trigger] deg_in@[w]) <= total_edges_upto(graph, u as int)
                            + k,
                decreases deg - k,
            {
                let tgt = graph.next(u)[k];
                proof {
                    assert(tgt == row[k as int]);
                    assert(tgt < n);
                    assert(row.take(k + 1) =~= row.take(k as int).push(row[k as int]));
                    assert(row.take(k + 1).to_multiset() =~= row.take(
                        k as int,
                    ).to_multiset().insert(tgt));
                    lemma_total_upto_mono(graph, u + 1, n as int);
                    assert(total_edges_upto(graph, u + 1) == total_edges_upto(graph, u as int)
                        + deg);
                }
                let cur = deg_in[tgt];
                deg_in.set(tgt, cur + 1);
                k += 1;
            }
            proof {
                assert(row.take(deg as int) =~= row);
                assert forall|w: int| 0 <= w < n implies (#[trigger] deg_in@[w]) == in_deg_upto(
                    graph,
                    w,
                    u + 1,
                ) by {
                    assert(in_deg_upto(graph, w, u + 1) == in_deg_upto(graph, w, u as int)
                        + graph.edge_count(u as int, w));
                }
                assert forall|w: int| 0 <= w < n implies (#[trigger] deg_in@[w])
                    <= total_edges_upto(graph, u + 1) by {
                    assert(total_edges_upto(graph, u + 1) == total_edges_upto(graph, u as int)
                        + deg);
                }
            }
            u += 1;
        }

        // The surviving ids, ascending.
        let mut keep: Vec<NodeId> = Vec::new();
        let mut v: usize = 0;
        proof {
            assert(keep@ =~= filter_range(0, pred));
        }
        while v < size
            invariant
                graph.wf(),
                n == graph.node_count(),
                *graph == *old(graph),
                size == n,
                v <= size,
                deg_in@.len() == n,
                forall|w: int| 0 <= w < n ==> (#[trigger] deg_in@[w]) == in_deg_upto(
                    graph,
                    w,
                    n as int,
                ),
                keep@ == filter_range(v as nat, pred),
            decreases size - v,
        {
            let outd = graph.next(v).len();
            let keep_this = deg_in[v] <= self.max_incoming && outd <= self.max_outgoing;
            proof {
                assert(deg_in@[v as int] == in_deg_upto(graph, v as int, n as int));
                assert(in_deg(old(graph), v as int) == in_deg_upto(graph, v as int, n as int));
                assert(out_deg(old(graph), v as int) == graph.adj()[v as int].len());
                assert(pred(v as int) == keep_this);
            }
            if keep_this {
                keep.push(v);
            }
            proof {
                assert(filter_range((v + 1) as nat, pred) == (if pred(v as int) {
                    filter_range(v as nat, pred).push(v as NodeId)
                } else {
                    filter_range(v as nat, pred)
                }));
            }
            v += 1;
        }
        proof {
            lemma_filter_range_props(n, pred);
        }
        let (g2, m) = graph.projection(keep.as_slice());
        proof {
            lemma_ascending_same_membership(m@, keep@);
        }
        *graph = g2;
    }
}

/// Removes every node whose label matches any of the patterns, and all
/// edges touching it; the remaining nodes are renumbered.
#[derive(Debug)]
pub struct RemoveNodePass {
    terminate_funcs: Vec<Pattern>,
}

impl RemoveNodePass {
    pub closed spec fn patterns(&self) -> Seq<Seq<char>> {
        pattern_views(self.terminate_funcs@)
    }

    pub fn new(patterns: Vec<Pattern>) -> (r: Self)
        ensures
            r.patterns() == pattern_views(patterns@),
    {
        Self { terminate_funcs: patterns }
    }

    /// One whitespace-separated pattern per word; fails if any word is not
    /// a valid regular expression.
    pub fn new_from_str(s: &str) -> (r: Option<Self>)
        ensures
            match r {
                Some(p) => p.patterns().len() == ws_tokens(s@).len() && forall|k: int|
                    0 <= k < ws_tokens(s@).len() ==> p.patterns()[k] == #[trigger] ws_tokens(
                        s@,
                    )[k],
                None => exists|k: int|
                    0 <= k < ws_tokens(s@).len() && !crate::linker::pattern::regex_ok(
                        #[trigger] ws_tokens(s@)[k],
                    ),
            },
    {
        let words = split_whitespace_owned(s);
        proof {
            assert(forall|k: int|
                0 <= k < words@.len() ==> string_views(words@)[k] == (#[trigger] words@[k])@);
        }
        match compile_patterns(&words) {
            Some(ps) => {
                proof {
                    assert(forall|k: int|
                        0 <= k < words@.len() ==> pattern_views(ps@)[k] == #[trigger] ws_tokens(
                            s@,
                        )[k]);
                }
                Some(Self { terminate_funcs: ps })
            },
            None => {
                proof {
                    let k = choose|k: int|
                        0 <= k < words@.len() && !crate::linker::pattern::regex_ok(
                            (#[trigger] words@[k])@,
                        );
                    assert(!crate::linker::pattern::regex_ok(ws_tokens(s@)[k]));
                }
                None
            },
        }
    }

    /// The ids that survive: nodes whose label matches no pattern.
    pub open spec fn kept(&self, g: &TypedGraph<String>) -> Seq<NodeId> {
        filter_range(g.node_count(), |v: int| !any_match(self.patterns(), label_view(g, v)))
    }

    #[verifier::loop_isolation(false)]
    pub fn run_pass(&self, graph: &mut TypedGraph<String>)
        requires
            old(graph).wf(),
        ensures
            final(graph).wf(),
            is_projection_of(final(graph), old(graph), self.kept(old(graph))),
    {
        let ghost n = old(graph).node_count();
        let ghost pred = |v: int| !any_match(self.patterns(), label_view(old(graph), v));
        let size = graph.size();
        let mut keep: Vec<NodeId> = Vec::new();
        let mut v: usize = 0;
        proof {
            assert(keep@ =~= filter_range(0, pred));
        }
        while v < size
            invariant
                v <= size,
                keep@ == filter_range(v as nat, pred),
            decreases size - v,
        {
            let hit = any_match_exec(&self.terminate_funcs, graph.mapping()[v].as_str());
            if !hit {
                keep.push(v);
            }
            proof {
                assert(pred(v as int) == !hit);
                assert(filter_range((v + 1) as nat, pred) == (if pred(v as int) {
                    filter_range(v as nat, pred).push(v as NodeId)
                } else {
                    filter_range(v as nat, pred)
                }));
            }
            v += 1;
        }
        proof {
            lemma_filter_range_props(n, pred);
        }
        let (g2, m) = graph.projection(keep.as_slice());
        proof {
            lemma_ascending_same_membership(m@, keep@);
        }
        *graph = g2;
    }
}

/// Keeps only the nodes reachable from those whose label is one of the
/// tags, and the edges between them; survivors are renumbered.
#[derive(Debug)]
pub struct SubgraphExtractionPass {
    tags: Vec<String>,
}

impl SubgraphExtractionPass {
    pub closed spec fn tags_seq(&self) -> Seq<Seq<char>> {
        string_views(self.tags@)
    }

    pub fn new(tags: Vec<String>) -> (r: Self)
        ensures
            r.tags_seq() == string_views(tags@),
    {
        Self { tags }
    }

    /// One tag per whitespace-separated word.
    pub fn new_from_str(data: &str) -> (r: Self)
        ensures
            r.tags_seq() == ws_tokens(data@),
    {
        Self { tags: split_whitespace_owned(data) }
    }

    /// The seed nodes: those whose label is one of the tags.
    pub open spec fn seeds(&self, g: &TypedGraph<String>) -> Seq<NodeId> {
        filter_range(g.node_count(), |v: int| self.tags_seq().contains(label_view(g, v)))
    }

    /// The ids that survive: everything reachable from a seed.
    pub open spec fn kept(&self, g: &TypedGraph<String>) -> Seq<NodeId> {
        filter_range(g.node_count(), |v: int| g.reaches_from(self.seeds(g), v as NodeId))
    }

    #[verifier::loop_isolation(false)]
    pub fn run_pass(&self, graph: &mut TypedGraph<String>)
        requires
            old(graph).wf(),
        ensures
            final(graph).wf(),
            is_projection_of(final(graph), old(graph), self.kept(old(graph))),
    {
        let ghost n = old(graph).node_count();
        let ghost seedp = |v: int| self.tags_seq().contains(label_view(old(graph), v));
        let size = graph.size();
        let mut seed_ids: Vec<NodeId> = Vec::new();
        let mut v: usize = 0;
        proof {
            assert(seed_ids@ =~= filter_range(0, seedp));
        }
        while v < size
            invariant
                v <= size,
                seed_ids@ == filter_range(v as nat, seedp),
            decreases size - v,
        {
            let hit = contains_string(&self.tags, graph.mapping()[v].as_str());
            if hit {
                seed_ids.push(v);
            }
            proof {
                assert(seedp(v as int) == hit);
                assert(filter_range((v + 1) as nat, seedp) == (if seedp(v as int) {
                    filter_range(v as nat, seedp).push(v as NodeId)
                } else {
                    filter_range(v as nat, seedp)
                }));
            }
            v += 1;
        }
        proof {
            lemma_filter_range_props(n, seedp);
            assert(seed_ids@ =~= self.seeds(old(graph)));
        }
        let reached = graph.get_reachable(seed_ids.as_slice());
        let ghost keptp = |v: int| old(graph).reaches_from(self.seeds(old(graph)), v as NodeId);
        proof {
            lemma_filter_range_props(n, keptp);
            assert forall|t: NodeId| #[trigger] reached@.contains(t) implies filter_range(
                n,
                keptp,
            ).contains(t) by {
                let kk = choose|kk: int|
                    0 <= kk < seed_ids@.len() && graph.reaches(seed_ids@[kk], t);
                graph.lemma_reaches_valid(seed_ids@[kk], t);
            }
            assert forall|t: NodeId| #[trigger] filter_range(n, keptp).contains(
                t,
            ) implies reached@.contains(t) by {}
            lemma_ascending_same_membership(reached@, filter_range(n, keptp));
        }
        let (g2, m) = graph.projection(reached.as_slice());
        proof {
            lemma_ascending_same_membership(m@, reached@);
        }
        *graph = g2;
    }
}

/// What to do for a node whose label matches a rule's pattern: add an edge
/// from every named node to it, or from it to every named node.
#[derive(Debug)]
pub enum RegexMatchAction<T> {
    AddIncoming(Vec<T>),
    AddOutgoing(Vec<T>),
}

/// The names of an action over label strings.
pub open spec fn action_names(a: &RegexMatchAction<String>) -> Seq<Seq<char>> {
    match a {
        RegexMatchAction::AddIncoming(v) => string_views(v@),
        RegexMatchAction::AddOutgoing(v) => string_views(v@),
    }
}

/// The nodes of `g` whose label is one of `names`, ascending.
pub open spec fn matched_ids(names: Seq<Seq<char>>, g: &TypedGraph<String>) -> Seq<NodeId> {
    filter_range(g.node_count(), |w: int| names.contains(label_view(g, w)))
}

impl RegexMatchAction<String> {
    /// Resolves the names to the nodes of `g` that carry them; unresolved
    /// names are silently skipped.
    #[verifier::loop_isolation(false)]
    fn to_idx_list(&self, graph: &TypedGraph<String>) -> (r: RegexMatchAction<NodeId>)
        requires
            graph.wf(),
        ensures
            match r {
                RegexMatchAction::AddIncoming(ids) => (self is AddIncoming) && ids@ == matched_ids(
                    action_names(self),
                    graph,
                ),
                RegexMatchAction::AddOutgoing(ids) => (self is AddOutgoing) && ids@ == matched_ids(
                    action_names(self),
                    graph,
                ),
            },
    {
        let names: &Vec<String> = match self {
            RegexMatchAction::AddIncoming(v) => v,
            RegexMatchAction::AddOutgoing(v) => v,
        };
        let ghost pred = |w: int| action_names(self).contains(label_view(graph, w));
        let size = graph.size();
        let mut ids: Vec<NodeId> = Vec::new();
        let mut w: usize = 0;
        proof {
            assert(ids@ =~= filter_range(0, pred));
        }
        while w < size
            invariant
                w <= size,
                ids@ == filter_range(w as nat, pred),
            decreases size - w,
        {
            let hit = contains_string(names, graph.mapping()[w].as_str());
            if hit {
                ids.push(w);
            }
            proof {
                assert(pred(w as int) == hit);
                assert(filter_range((w + 1) as nat, pred) == (if pred(w as int) {
                    filter_range(w as nat, pred).push(w as NodeId)
                } else {
                    filter_range(w as nat, pred)
                }));
            }
            w += 1;
        }
        match self {
            RegexMatchAction::AddIncoming(_) => RegexMatchAction::AddIncoming(ids),
            RegexMatchAction::AddOutgoing(_) => RegexMatchAction::AddOutgoing(ids),
        }
    }
}

/// The pattern text of a rule.
pub open spec fn rule_pat(rule: (Pattern, RegexMatchAction<String>)) -> Seq<char> {
    rule.0@
}

/// Whether a rule adds incoming edges (as opposed to outgoing ones).
pub open spec fn rule_incoming(rule: (Pattern, RegexMatchAction<String>)) -> bool {
    rule.1 is AddIncoming
}

/// The names of a rule.
pub open spec fn rule_names(rule: (Pattern, RegexMatchAction<String>)) -> Seq<Seq<char>> {
    action_names(&rule.1)
}

/// Whether applying `rule` to graph `g` adds an edge `u -> v`: for an
/// incoming rule the pattern must match `v`'s label and `u`'s label must be
/// named; for an outgoing rule the roles are swapped.
pub open spec fn rule_adds(
    rule: (Pattern, RegexMatchAction<String>),
    g: &TypedGraph<String>,
    u: int,
    v: int,
) -> bool {
    if rule_incoming(rule) {
        regex_match(rule_pat(rule), label_view(g, v)) && rule_names(rule).contains(label_view(g, u))
    } else {
        regex_match(rule_pat(rule), label_view(g, u)) && rule_names(rule).contains(label_view(g, v))
    }
}

/// Number of rules that add the edge `u -> v`; each applicable rule adds
/// exactly one copy.
pub open spec fn cnt_rules(
    rules: Seq<(Pattern, RegexMatchAction<String>)>,
    g: &TypedGraph<String>,
    u: int,
    v: int,
) -> nat
    decreases rules.len(),
{
    if rules.len() == 0 {
        0
    } else {
        cnt_rules(rules.drop_last(), g, u, v) + (if rule_adds(rules.last(), g, u, v) {
            1nat
        } else {
            0nat
        })
    }
}

/// Whether `rule`, processed at node `w`, adds the edge `u -> v`.
pub open spec fn rule_adds_at(
    rule: (Pattern, RegexMatchAction<String>),
    g: &TypedGraph<String>,
    w: int,
    u: int,
    v: int,
) -> bool {
    rule_adds(rule, g, u, v) && w == (if rule_incoming(rule) {
        v
    } else {
        u
    })
}

spec fn cnt_rules_at(
    rules: Seq<(Pattern, RegexMatchAction<String>)>,
    g: &TypedGraph<String>,
    w: int,
    u: int,
    v: int,
) -> nat
    decreases rules.len(),
{
    if rules.len() == 0 {
        0
    } else {
        cnt_rules_at(rules.drop_last(), g, w, u, v) + (if rule_adds_at(
            rules.last(),
            g,
            w,
            u,
            v,
        ) {
            1nat
        } else {
            0nat
        })
    }
}

spec fn cnt_rule_upto(
    rule: (Pattern, RegexMatchAction<String>),
    g: &TypedGraph<String>,
    w_limit: int,
    u: int,
    v: int,
) -> nat
    decreases w_limit,
{
    if w_limit <= 0 {
        0
    } else {
        cnt_rule_upto(rule, g, w_limit - 1, u, v) + (if rule_adds_at(
            rule,
            g,
            w_limit - 1,
            u,
            v,
        ) {
            1nat
        } else {
            0nat
        })
    }
}

spec fn cnt_upto(
    rules: Seq<(Pattern, RegexMatchAction<String>)>,
    g: &TypedGraph<String>,
    w_limit: int,
    u: int,
    v: int,
) -> nat
    decreases w_limit,
{
    if w_limit <= 0 {
        0
    } else {
        cnt_upto(rules, g, w_limit - 1, u, v) + cnt_rules_at(rules, g, w_limit - 1, u, v)
    }
}

proof fn lemma_cnt_upto_split(
    rules: Seq<(Pattern, RegexMatchAction<String>)>,
    g: &TypedGraph<String>,
    w_limit: int,
    u: int,
    v: int,
)
    requires
        rules.len() > 0,
    ensures
        cnt_upto(rules, g, w_limit, u, v) == cnt_upto(rules.drop_last(), g, w_limit, u, v)
            + cnt_rule_upto(rules.last(), g, w_limit, u, v),
    decreases w_limit,
{
    if w_limit > 0 {
        lemma_cnt_upto_split(rules, g, w_limit - 1, u, v);
    }
}

proof fn lemma_cnt_rule_total(
    rule: (Pattern, RegexMatchAction<String>),
    g: &TypedGraph<String>,
    w_limit: int,
    u: int,
    v: int,
)
    ensures
        cnt_rule_upto(rule, g, w_limit, u, v) == (if rule_adds(rule, g, u, v) && 0 <= (if rule_incoming(rule) {
            v
        } else {
            u
        }) < w_limit {
            1nat
        } else {
            0nat
        }),
    decreases w_limit,
{
    if w_limit > 0 {
        lemma_cnt_rule_total(rule, g, w_limit - 1, u, v);
    }
}

proof fn lemma_cnt_upto_empty(g: &TypedGraph<String>, w_limit: int, u: int, v: int)
    ensures
        cnt_upto(Seq::<(Pattern, RegexMatchAction<String>)>::empty(), g, w_limit, u, v) == 0,
    decreases w_limit,
{
    if w_limit > 0 {
        lemma_cnt_upto_empty(g, w_limit - 1, u, v);
    }
}

proof fn lemma_cnt_total(
    rules: Seq<(Pattern, RegexMatchAction<String>)>,
    g: &TypedGraph<String>,
    n: int,
    u: int,
    v: int,
)
    requires
        0 <= u < n,
        0 <= v < n,
    ensures
        cnt_upto(rules, g, n, u, v) == cnt_rules(rules, g, u, v),
    decreases rules.len(),
{
    if rules.len() == 0 {
        assert(rules =~= Seq::<(Pattern, RegexMatchAction<String>)>::empty());
        lemma_cnt_upto_empty(g, n, u, v);
    } else {
        lemma_cnt_upto_split(rules, g, n, u, v);
        lemma_cnt_rule_total(rules.last(), g, n, u, v);
        lemma_cnt_total(rules.drop_last(), g, n, u, v);
    }
}

/// One rule parsed from a line: the pattern text, the direction, and the
/// names to connect with.
pub open spec fn rule_parts(regex_part: Seq<char>, list_part: Seq<char>, incoming: bool) -> Option<
    (Seq<char>, bool, Seq<Seq<char>>),
> {
    let t = crate::linker::text::trim_spec(regex_part);
    if t.len() >= 2 && t[0] == '"' && t.last() == '"' {
        let pat = t.subrange(1, t.len() - 1);
        if crate::linker::pattern::regex_ok(pat) {
            Some((pat, incoming, ws_tokens(list_part)))
        } else {
            None
        }
    } else {
        None
    }
}

/// How a rule line reads: the part left of the first `->` (or, failing
/// that, `<-`) is a quoted pattern, the rest is a whitespace-separated name
/// list.  A line without an arrow, without quotes, or with a pattern the
/// regex syntax rejects is discarded.
pub open spec fn parse_rule_line(line: Seq<char>) -> Option<(Seq<char>, bool, Seq<Seq<char>>)> {
    let pa = crate::linker::text::find2(line, '-', '>');
    if pa >= 0 {
        rule_parts(line.take(pa), line.skip(pa + 2), false)
    } else {
        let pb = crate::linker::text::find2(line, '<', '-');
        if pb >= 0 {
            rule_parts(line.take(pb), line.skip(pb + 2), true)
        } else {
            None
        }
    }
}

/// The parses of the lines that carry a well-formed rule, in order.
pub open spec fn parsed_rules(lines: Seq<Seq<char>>) -> Seq<(Seq<char>, bool, Seq<Seq<char>>)>
    decreases lines.len(),
{
    if lines.len() == 0 {
        Seq::empty()
    } else {
        let rest = parsed_rules(lines.drop_last());
        match parse_rule_line(lines.last()) {
            Some(p) => rest.push(p),
            None => rest,
        }
    }
}

/// A stored rule realises a parsed one.
pub open spec fn rule_matches_parsed(
    rule: (Pattern, RegexMatchAction<String>),
    p: (Seq<char>, bool, Seq<Seq<char>>),
) -> bool {
    &&& rule_pat(rule) == p.0
    &&& rule_incoming(rule) == p.1
    &&& rule_names(rule) == p.2
}

/// For every node whose label matches a rule's pattern, adds one edge per
/// resolvable name of that rule, towards or away from the node.
#[derive(Debug)]
pub struct RegexEdgeGenPass {
    rules: Vec<(Pattern, RegexMatchAction<String>)>,
}

impl RegexEdgeGenPass {
    pub closed spec fn rules_seq(&self) -> Seq<(Pattern, RegexMatchAction<String>)> {
        self.rules@
    }

    pub fn new() -> (r: Self)
        ensures
            r.rules_seq().len() == 0,
    {
        Self { rules: Vec::new() }
    }

    pub fn add_rule(&mut self, rule: (Pattern, RegexMatchAction<String>))
        ensures
            final(self).rules_seq() == old(self).rules_seq().push(rule),
    {
        self.rules.push(rule);
    }

    /// Parses one rule line and stores the rule; a malformed line leaves
    /// the pass unchanged.
    pub fn add_rule_from_line(&mut self, line: &str)
        ensures
            match parse_rule_line(line@) {
                Some(p) => {
                    &&& final(self).rules_seq().len() == old(self).rules_seq().len() + 1
                    &&& final(self).rules_seq().drop_last() == old(self).rules_seq()
                    &&& rule_matches_parsed(final(self).rules_seq().last(), p)
                },
                None => final(self).rules_seq() == old(self).rules_seq(),
            },
    {
        let len = line.unicode_len();
        let arrow = crate::linker::text::find2_exec(line, '-', '>');
        let back = crate::linker::text::find2_exec(line, '<', '-');
        proof {
            crate::linker::text::lemma_find2(line@, '-', '>');
            crate::linker::text::lemma_find2(line@, '<', '-');
        }
        let (cut, incoming) = match (arrow, back) {
            (Some(i), _) => (i, false),
            (None, Some(i)) => (i, true),
            (None, None) => {
                return ;
            },
        };
        let regex_part = line.substring_char(0, cut);
        let list_part = line.substring_char(cut + 2, len);
        proof {
            if incoming {
                assert(regex_part@ =~= line@.take(crate::linker::text::find2(line@, '<', '-')));
                assert(list_part@ =~= line@.skip(
                    crate::linker::text::find2(line@, '<', '-') + 2,
                ));
            } else {
                assert(regex_part@ =~= line@.take(crate::linker::text::find2(line@, '-', '>')));
                assert(list_part@ =~= line@.skip(
                    crate::linker::text::find2(line@, '-', '>') + 2,
                ));
            }
        }
        let t = crate::linker::text::trim_exec(regex_part);
        let tlen = t.unicode_len();
        if tlen < 2 {
            return ;
        }
        if !(t.get_char(0) == '"' && t.get_char(tlen - 1) == '"') {
            return ;
        }
        let pat_text = t.substring_char(1, tlen - 1);
        proof {
            assert(pat_text@ =~= t@.subrange(1, t@.len() - 1));
        }
        match Pattern::new(pat_text) {
            Some(p) => {
                let names = split_whitespace_owned(list_part);
                let action = if incoming {
                    RegexMatchAction::AddIncoming(names)
                } else {
                    RegexMatchAction::AddOutgoing(names)
                };
                let ghost rules0 = self.rules@;
                self.rules.push((p, action));
                proof {
                    assert(self.rules@.drop_last() =~= rules0);
                }
            },
            None => {
                return ;
            },
        }
    }

    /// One rule per line; malformed lines are discarded.
    pub fn new_from_str(data: &str) -> (r: Self)
        ensures
            ({
                let ps = parsed_rules(split_lines_spec(data@));
                &&& r.rules_seq().len() == ps.len()
                &&& forall|k: int|
                    0 <= k < ps.len() ==> rule_matches_parsed(#[trigger] r.rules_seq()[k], ps[k])
            }),
    {
        let ghost lv = split_lines_spec(data@);
        let lines = split_lines(data);
        let mut result = Self::new();
        let nlines = lines.len();
        let mut k: usize = 0;
        proof {
            assert(lv.take(0) =~= Seq::<Seq<char>>::empty());
        }
        while k < nlines
            invariant
                lv == split_lines_spec(data@),
                string_views(lines@) == lv,
                nlines == lines@.len(),
                k <= nlines,
                result.rules_seq().len() == parsed_rules(lv.take(k as int)).len(),
                forall|j: int|
                    0 <= j < parsed_rules(lv.take(k as int)).len() ==> rule_matches_parsed(
                        #[trigger] result.rules_seq()[j],
                        parsed_rules(lv.take(k as int))[j],
                    ),
            decreases nlines - k,
        {
            let ghost pre = result.rules_seq();
            proof {
                assert(lv.take(k + 1).drop_last() =~= lv.take(k as int));
                assert(lv.take(k + 1).last() == lv[k as int]);
                assert(lines@[k as int]@ == lv[k as int]);
            }
            result.add_rule_from_line(lines[k].as_str());
            proof {
                let cur = parsed_rules(lv.take(k + 1));
                let prev = parsed_rules(lv.take(k as int));
                match parse_rule_line(lv[k as int]) {
                    Some(p) => {
                        assert(cur == prev.push(p));
                        assert(result.rules_seq().drop_last() == pre);
                        assert forall|j: int| 0 <= j < cur.len() implies rule_matches_parsed(
                            #[trigger] result.rules_seq()[j],
                            cur[j],
                        ) by {
                            if j < cur.len() - 1 {
                                assert(result.rules_seq()[j] == result.rules_seq().drop_last()[j]);
                                assert(cur[j] == prev[j]);
                            } else {
                                assert(result.rules_seq().last() == result.rules_seq()[j]);
                            }
                        }
                    },
                    None => {
                        assert(cur == prev);
                    },
                }
            }
            k += 1;
        }
        proof {
            assert(lv.take(nlines as int) =~= lv);
        }
        result
    }

    /// Applies every rule to every node: each rule whose pattern matches a
    /// node's label adds one edge per node that carries one of the rule's
    /// names.  Added edges may duplicate existing ones; unresolved names
    /// add nothing.
    #[verifier::loop_isolation(false)]
    #[verifier::rlimit(100)]
    pub fn run_pass(&self, graph: &mut TypedGraph<String>)
        requires
            old(graph).wf(),
        ensures
            final(graph).wf(),
            final(graph).node_count() == old(graph).node_count(),
            final(graph).labels() == old(graph).labels(),
            forall|u: int, v: int|
                0 <= u < old(graph).node_count() && 0 <= v < old(graph).node_count()
                    ==> #[trigger] final(graph).edge_count(u, v) == old(graph).edge_count(u, v)
                    + cnt_rules(self.rules_seq(), old(graph), u, v),
    {
        let ghost n = old(graph).node_count();
        let size = graph.size();
        let nrules = self.rules.len();

        // Resolve every rule's names against the graph, once.
        let mut resolved: Vec<RegexMatchAction<NodeId>> = Vec::new();
        let mut rk: usize = 0;
        while rk < nrules
            invariant
                rk <= nrules,
                resolved@.len() == rk,
                forall|rr: int|
                    0 <= rr < rk ==> match #[trigger] resolved@[rr] {
                        RegexMatchAction::AddIncoming(ids) => rule_incoming(self.rules_seq()[rr])
                            && ids@ == matched_ids(rule_names(self.rules_seq()[rr]), old(graph)),
                        RegexMatchAction::AddOutgoing(ids) => !rule_incoming(self.rules_seq()[rr])
                            && ids@ == matched_ids(rule_names(self.rules_seq()[rr]), old(graph)),
                    },
            decreases nrules - rk,
        {
            resolved.push(self.rules[rk].1.to_idx_list(graph));
            rk += 1;
        }

        let mut idx: usize = 0;
        while idx < size
            invariant
                graph.wf(),
                graph.node_count() == n,
                graph.labels() == old(graph).labels(),
                idx <= size,
                resolved@.len() == nrules,
                forall|rr: int|
                    0 <= rr < nrules ==> match #[trigger] resolved@[rr] {
                        RegexMatchAction::AddIncoming(ids) => rule_incoming(self.rules_seq()[rr])
                            && ids@ == matched_ids(rule_names(self.rules_seq()[rr]), old(graph)),
                        RegexMatchAction::AddOutgoing(ids) => !rule_incoming(self.rules_seq()[rr])
                            && ids@ == matched_ids(rule_names(self.rules_seq()[rr]), old(graph)),
                    },
                forall|u: int, v: int|
                    0 <= u < n && 0 <= v < n ==> #[trigger] graph.edge_count(u, v) == old(
                        graph,
                    ).edge_count(u, v) + cnt_upto(self.rules_seq(), old(graph), idx as int, u, v),
            decreases size - idx,
        {
            let mut rk2: usize = 0;
            while rk2 < nrules
                invariant
                    idx < size,
                    rk2 <= nrules,
                    graph.wf(),
                    graph.node_count() == n,
                    graph.labels() == old(graph).labels(),
                    forall|u: int, v: int|
                        0 <= u < n && 0 <= v < n ==> #[trigger] graph.edge_count(u, v) == old(
                            graph,
                        ).edge_count(u, v) + cnt_upto(self.rules_seq(), old(graph), idx as int, u, v)
                            + cnt_rules_at(
                            self.rules_seq().take(rk2 as int),
                            old(graph),
                            idx as int,
                            u,
                            v,
                        ),
                decreases nrules - rk2,
            {
                let ghost rules_pre = self.rules_seq().take(rk2 as int);
                let ghost rules_cur = self.rules_seq().take(rk2 + 1);
                let ghost rule = self.rules_seq()[rk2 as int];
                proof {
                    assert(rules_cur.drop_last() =~= rules_pre);
                    assert(rules_cur.last() == rule);
                }
                let hit = self.rules[rk2].0.is_match(graph.mapping()[idx].as_str());
                proof {
                    assert(hit == regex_match(rule_pat(rule), label_view(old(graph), idx as int)));
                }
                if hit {
                    let ghost names = rule_names(rule);
                    let ghost ids_spec = matched_ids(names, old(graph));
                    proof {
                        lemma_filter_range_props(
                            n,
                            |w: int| names.contains(label_view(old(graph), w)),
                        );
                    }
                    match &resolved[rk2] {
                        RegexMatchAction::AddIncoming(list) => {
                            let llen = list.len();
                            let mut t: usize = 0;
                            while t < llen
                                invariant
                                    idx < size,
                                    rk2 < nrules,
                                    llen == list@.len(),
                                    t <= llen,
                                    list@ == ids_spec,
                                    graph.wf(),
                                    graph.node_count() == n,
                                    graph.labels() == old(graph).labels(),
                                    forall|u: int, v: int|
                                        0 <= u < n && 0 <= v < n ==> #[trigger] graph.edge_count(
                                            u,
                                            v,
                                        ) == old(graph).edge_count(u, v) + cnt_upto(
                                            self.rules_seq(),
                                            old(graph),
                                            idx as int,
                                            u,
                                            v,
                                        ) + cnt_rules_at(
                                            rules_pre,
                                            old(graph),
                                            idx as int,
                                            u,
                                            v,
                                        ) + (if v == idx && list@.take(t as int).contains(
                                            u as NodeId,
                                        ) {
                                            1nat
                                        } else {
                                            0nat
                                        }),
                                decreases llen - t,
                            {
                                let src = list[t];
                                let ghost gpre = *graph;
                                graph.add_edge(src, idx);
                                proof {
                                    assert(list@.take(t + 1) =~= list@.take(t as int).push(
                                        list@[t as int],
                                    ));
                                    assert(graph.adj()[src as int] == gpre.adj()[
                                        src as int].push(idx));
                                    assert(graph.adj()[src as int].to_multiset() =~= gpre.adj()[
                                        src as int].to_multiset().insert(idx));
                                    assert forall|u: int, v: int|
                                        0 <= u < n && 0 <= v < n implies #[trigger] graph.edge_count(
                                        u,
                                        v,
                                    ) == old(graph).edge_count(u, v) + cnt_upto(
                                        self.rules_seq(),
                                        old(graph),
                                        idx as int,
                                        u,
                                        v,
                                    ) + cnt_rules_at(rules_pre, old(graph), idx as int, u, v) + (
                                    if v == idx && list@.take(t + 1).contains(u as NodeId) {
                                        1nat
                                    } else {
                                        0nat
                                    }) by {
                                        assert(gpre.edge_count(u, v) == old(graph).edge_count(u, v)
                                            + cnt_upto(
                                            self.rules_seq(),
                                            old(graph),
                                            idx as int,
                                            u,
                                            v,
                                        ) + cnt_rules_at(rules_pre, old(graph), idx as int, u, v)
                                            + (if v == idx && list@.take(t as int).contains(
                                            u as NodeId,
                                        ) {
                                            1nat
                                        } else {
                                            0nat
                                        }));
                                        if u == src && v == idx {
                                            assert(graph.edge_count(u, v) == gpre.edge_count(u, v)
                                                + 1);
                                            assert(!list@.take(t as int).contains(src)) by {
                                                if list@.take(t as int).contains(src) {
                                                    let a = choose|a: int|
                                                        0 <= a < t && list@.take(t as int)[a]
                                                            == src;
                                                    assert(list@[a] == src);
                                                    assert(list@[t as int] == src);
                                                }
                                            }
                                            assert(list@.take(t + 1).contains(src)) by {
                                                assert(list@.take(t + 1)[t as int] == src);
                                            }
                                        } else {
                                            if u != src {
                                                assert(graph.adj()[u] == gpre.adj()[u]);
                                            } else {
                                                assert(graph.edge_count(u, v) == gpre.edge_count(
                                                    u,
                                                    v,
                                                ));
                                            }
                                            if v == idx {
                                                assert(list@.take(t + 1).contains(u as NodeId)
                                                    == list@.take(t as int).contains(
                                                    u as NodeId,
                                                )) by {
                                                    if list@.take(t + 1).contains(u as NodeId) {
                                                        let a = choose|a: int|
                                                            0 <= a < t + 1 && (#[trigger] list@.take(
                                                                t + 1,
                                                            )[a]) == (u as NodeId);
                                                        assert(a < t);
                                                        assert(list@.take(t as int)[a] == (
                                                        u as NodeId));
                                                    }
                                                    if list@.take(t as int).contains(
                                                        u as NodeId,
                                                    ) {
                                                        let a = choose|a: int|
                                                            0 <= a < t && list@.take(t as int)[a]
                                                                == (u as NodeId);
                                                        assert(list@.take(t + 1)[a] == (
                                                        u as NodeId));
                                                    }
                                                }
                                            }
                                        }
                                    }
                                }
                                t += 1;
                            }
                            proof {
                                assert(list@.take(llen as int) =~= list@);
                                assert forall|u: int, v: int|
                                    0 <= u < n && 0 <= v < n implies #[trigger] graph.edge_count(
                                    u,
                                    v,
                                ) == old(graph).edge_count(u, v) + cnt_upto(
                                    self.rules_seq(),
                                    old(graph),
                                    idx as int,
                                    u,
                                    v,
                                ) + cnt_rules_at(rules_cur, old(graph), idx as int, u, v) by {
                                    assert(cnt_rules_at(rules_cur, old(graph), idx as int, u, v)
                                        == cnt_rules_at(rules_pre, old(graph), idx as int, u, v) + (
                                    if rule_adds_at(rule, old(graph), idx as int, u, v) {
                                        1nat
                                    } else {
                                        0nat
                                    }));
                                    assert(rule_adds_at(rule, old(graph), idx as int, u, v) == (v
                                        == idx && ids_spec.contains(u as NodeId)));
                                }
                            }
                        },
                        RegexMatchAction::AddOutgoing(list) => {
                            let llen = list.len();
                            let mut t: usize = 0;
                            while t < llen
                                invariant
                                    idx < size,
                                    rk2 < nrules,
                                    llen == list@.len(),
                                    t <= llen,
                                    list@ == ids_spec,
                                    graph.wf(),
                                    graph.node_count() == n,
                                    graph.labels() == old(graph).labels(),
                                    forall|u: int, v: int|
                                        0 <= u < n && 0 <= v < n ==> #[trigger] graph.edge_count(
                                            u,
                                            v,
                                        ) == old(graph).edge_count(u, v) + cnt_upto(
                                            self.rules_seq(),
                                            old(graph),
                                            idx as int,
                                            u,
                                            v,
                                        ) + cnt_rules_at(
                                            rules_pre,
                                            old(graph),
                                            idx as int,
                                            u,
                                            v,
                                        ) + (if u == idx && list@.take(t as int).contains(
                                            v as NodeId,
                                        ) {
                                            1nat
                                        } else {
                                            0nat
                                        }),
                                decreases llen - t,
                            {
                                let dst = list[t];
                                let ghost gpre = *graph;
                                graph.add_edge(idx, dst);
                                proof {
                                    assert(list@.take(t + 1) =~= list@.take(t as int).push(
                                        list@[t as int],
                                    ));
                                    assert(graph.adj()[idx as int] == gpre.adj()[
                                        idx as int].push(dst));
                                    assert(graph.adj()[idx as int].to_multiset() =~= gpre.adj()[
                                        idx as int].to_multiset().insert(dst));
                                    assert forall|u: int, v: int|
                                        0 <= u < n && 0 <= v < n implies #[trigger] graph.edge_count(
                                        u,
                                        v,
                                    ) == old(graph).edge_count(u, v) + cnt_upto(
                                        self.rules_seq(),
                                        old(graph),
                                        idx as int,
                                        u,
                                        v,
                                    ) + cnt_rules_at(rules_pre, old(graph), idx as int, u, v) + (
                                    if u == idx && list@.take(t + 1).contains(v as NodeId) {
                                        1nat
                                    } else {
                                        0nat
                                    }) by {
                                        assert(gpre.edge_count(u, v) == old(graph).edge_count(u, v)
                                            + cnt_upto(
                                            self.rules_seq(),
                                            old(graph),
                                            idx as int,
                                            u,
                                            v,
                                        ) + cnt_rules_at(rules_pre, old(graph), idx as int, u, v)
                                            + (if u == idx && list@.take(t as int).contains(
                                            v as NodeId,
                                        ) {
                                            1nat
                                        } else {
                                            0nat
                                        }));
                                        if u == idx && v == dst {
                                            assert(graph.edge_count(u, v) == gpre.edge_count(u, v)
                                                + 1);
                                            assert(!list@.take(t as int).contains(dst)) by {
                                                if list@.take(t as int).contains(dst) {
                                                    let a = choose|a: int|
                                                        0 <= a < t && list@.take(t as int)[a]
                                                            == dst;
                                                    assert(list@[a] == dst);
                                                    assert(list@[t as int] == dst);
                                                }
                                            }
                                            assert(list@.take(t + 1).contains(dst)) by {
                                                assert(list@.take(t + 1)[t as int] == dst);
                                            }
                                        } else {
                                            if u != idx {
                                                assert(graph.adj()[u] == gpre.adj()[u]);
                                            } else {
                                                assert(graph.edge_count(u, v) == gpre.edge_count(
                                                    u,
                                                    v,
                                                ));
                                            }
                                            if u == idx {
                                                assert(list@.take(t + 1).contains(v as NodeId)
                                                    == list@.take(t as int).contains(
                                                    v as NodeId,
                                                )) by {
                                                    if list@.take(t + 1).contains(v as NodeId) {
                                                        let a = choose|a: int|
                                                            0 <= a < t + 1 && (#[trigger] list@.take(
                                                                t + 1,
                                                            )[a]) == (v as NodeId);
                                                        assert(a < t);
                                                        assert(list@.take(t as int)[a] == (
                                                        v as NodeId));
                                                    }
                                                    if list@.take(t as int).contains(
                                                        v as NodeId,
                                                    ) {
                                                        let a = choose|a: int|
                                                            0 <= a < t && list@.take(t as int)[a]
                                                                == (v as NodeId);
                                                        assert(list@.take(t + 1)[a] == (
                                                        v as NodeId));
                                                    }
                                                }
                                            }
                                        }
                                    }
                                }
                                t += 1;
                            }
                            proof {
                                assert(list@.take(llen as int) =~= list@);
                                assert forall|u: int, v: int|
                                    0 <= u < n && 0 <= v < n implies #[trigger] graph.edge_count(
                                    u,
                                    v,
                                ) == old(graph).edge_count(u, v) + cnt_upto(
                                    self.rules_seq(),
                                    old(graph),
                                    idx as int,
                                    u,
                                    v,
                                ) + cnt_rules_at(rules_cur, old(graph), idx as int, u, v) by {
                                    assert(cnt_rules_at(rules_cur, old(graph), idx as int, u, v)
                                        == cnt_rules_at(rules_pre, old(graph), idx as int, u, v) + (
                                    if rule_adds_at(rule, old(graph), idx as int, u, v) {
                                        1nat
                                    } else {
                                        0nat
                                    }));
                                    assert(rule_adds_at(rule, old(graph), idx as int, u, v) == (u
                                        == idx && ids_spec.contains(v as NodeId)));
                                }
                            }
                        },
                    }
                } else {
                    proof {
                        assert forall|u: int, v: int| 0 <= u < n && 0 <= v < n implies cnt_rules_at(
                            rules_cur,
                            old(graph),
                            idx as int,
                            u,
                            v,
                        ) == cnt_rules_at(rules_pre, old(graph), idx as int, u, v) by {
                            assert(!rule_adds_at(rule, old(graph), idx as int, u, v));
                        }
                    }
                }
                rk2 += 1;
            }
            proof {
                assert(self.rules_seq().take(nrules as int) =~= self.rules_seq());
                assert(forall|u: int, v: int|
                    0 <= u < n && 0 <= v < n ==> cnt_upto(
                        self.rules_seq(),
                        old(graph),
                        idx + 1,
                        u,
                        v,
                    ) == cnt_upto(self.rules_seq(), old(graph), idx as int, u, v) + cnt_rules_at(
                        self.rules_seq(),
                        old(graph),
                        idx as int,
                        u,
                        v,
                    ));
            }
            idx += 1;
        }
        proof {
            assert forall|u: int, v: int|
                0 <= u < n && 0 <= v < n implies cnt_upto(
                self.rules_seq(),
                old(graph),
                n as int,
                u,
                v,
            ) == cnt_rules(self.rules_seq(), old(graph), u, v) by {
                lemma_cnt_total(self.rules_seq(), old(graph), n as int, u, v);
            }
        }
    }
}

/// Whether any pattern matches the label of node `m`.
pub open spec fn node_matched(pats: Seq<Seq<char>>, g: &TypedGraph<String>, m: int) -> bool {
    any_match(pats, label_view(g, m))
}

/// The bypass edges a node with successor row `row` gains: for every
/// matched successor, that successor's own successors, in order.
pub open spec fn reparent_ext(
    pats: Seq<Seq<char>>,
    g: &TypedGraph<String>,
    row: Seq<NodeId>,
) -> Seq<NodeId>
    decreases row.len(),
{
    if row.len() == 0 {
        Seq::empty()
    } else {
        reparent_ext(pats, g, row.drop_last()) + (if node_matched(pats, g, row.last() as int) {
            g.adj()[row.last() as int]
        } else {
            Seq::empty()
        })
    }
}

/// For every edge `v -> matched` and every edge `matched -> child`, adds a
/// bypass edge `v -> child`.  Matched nodes and all original edges are
/// retained.
#[derive(Debug)]
pub struct ReparentGraphPass {
    reparent_rules: Vec<Pattern>,
}

impl ReparentGraphPass {
    pub closed spec fn patterns(&self) -> Seq<Seq<char>> {
        pattern_views(self.reparent_rules@)
    }

    pub fn new(rules: Vec<Pattern>) -> (r: Self)
        ensures
            r.patterns() == pattern_views(rules@),
    {
        Self { reparent_rules: rules }
    }

    /// One pattern per line; lines that are not valid regular expressions
    /// are dropped.
    pub fn new_from_str(data: &str) -> (r: Self)
        ensures
            r.patterns() == compilable(split_lines_spec(data@)),
    {
        let lines = split_lines(data);
        Self { reparent_rules: compile_valid_patterns(&lines) }
    }

    #[verifier::loop_isolation(false)]
    #[verifier::rlimit(60)]
    pub fn run_pass(&self, graph: &mut TypedGraph<String>)
        requires
            old(graph).wf(),
        ensures
            final(graph).wf(),
            final(graph).node_count() == old(graph).node_count(),
            final(graph).labels() == old(graph).labels(),
            forall|v: int|
                0 <= v < old(graph).node_count() ==> #[trigger] final(graph).adj()[v] == old(
                    graph,
                ).adj()[v] + reparent_ext(self.patterns(), old(graph), old(graph).adj()[v]),
    {
        let ghost n = old(graph).node_count();
        let size = graph.size();

        // Which nodes a pattern matches.
        let mut matched: Vec<bool> = Vec::new();
        let mut w: usize = 0;
        while w < size
            invariant
                w <= size,
                matched@.len() == w,
                forall|m: int|
                    0 <= m < w ==> (#[trigger] matched@[m]) == node_matched(
                        self.patterns(),
                        graph,
                        m,
                    ),
            decreases size - w,
        {
            let hit = any_match_exec(&self.reparent_rules, graph.mapping()[w].as_str());
            matched.push(hit);
            w += 1;
        }

        let labs = graph.mapping().clone();
        proof {
            lemma_cloned_strings(graph.labels(), labs@);
        }
        let mut g2 = TypedGraph::<String>::new_with_mapping(labs);
        let mut v: usize = 0;
        while v < size
            invariant
                v <= size,
                matched@.len() == n,
                forall|m: int|
                    0 <= m < n ==> (#[trigger] matched@[m]) == node_matched(
                        self.patterns(),
                        graph,
                        m,
                    ),
                g2.wf(),
                g2.node_count() == n,
                g2.labels() == graph.labels(),
                forall|u: int|
                    0 <= u < v ==> #[trigger] g2.adj()[u] == graph.adj()[u] + reparent_ext(
                        self.patterns(),
                        graph,
                        graph.adj()[u],
                    ),
                forall|u: int| v <= u < n ==> (#[trigger] g2.adj()[u]).len() == 0,
            decreases size - v,
        {
            let deg = graph.next(v).len();
            let ghost row = graph.adj()[v as int];
            proof {
                assert(g2.adj()[v as int] =~= Seq::<NodeId>::empty());
                assert(row.take(0) =~= Seq::<NodeId>::empty());
            }

            // Copy the original successor row.
            let mut k: usize = 0;
            while k < deg
                invariant
                    v < size,
                    row == graph.adj()[v as int],
                    deg == row.len(),
                    k <= deg,
                    g2.wf(),
                    g2.node_count() == n,
                    g2.labels() == graph.labels(),
                    forall|u: int|
                        0 <= u < v ==> #[trigger] g2.adj()[u] == graph.adj()[u] + reparent_ext(
                            self.patterns(),
                            graph,
                            graph.adj()[u],
                        ),
                    g2.adj()[v as int] == row.take(k as int),
                    forall|u: int| v < u < n ==> (#[trigger] g2.adj()[u]).len() == 0,
                decreases deg - k,
            {
                let x = graph.next(v)[k];
                let ghost g2_0 = g2;
                g2.add_edge(v, x);
                proof {
                    assert(row.take(k + 1) =~= row.take(k as int).push(row[k as int]));
                    assert(g2.adj()[v as int] =~= row.take(k + 1));
                    assert forall|u: int|
                        0 <= u < v implies #[trigger] g2.adj()[u] == graph.adj()[u] + reparent_ext(
                        self.patterns(),
                        graph,
                        graph.adj()[u],
                    ) by {
                        assert(g2.adj()[u] == g2_0.adj()[u]);
                    }
                }
                k += 1;
            }
            proof {
                assert(row.take(deg as int) =~= row);
                assert(reparent_ext(self.patterns(), graph, row.take(0)) =~= Seq::<
                    NodeId,
                >::empty());
                assert(g2.adj()[v as int] =~= row + reparent_ext(
                    self.patterns(),
                    graph,
                    row.take(0),
                ));
            }

            // Append the bypass edges.
            let mut k2: usize = 0;
            while k2 < deg
                invariant
                    v < size,
                    row == graph.adj()[v as int],
                    deg == row.len(),
                    k2 <= deg,
                    matched@.len() == n,
                    forall|m: int|
                        0 <= m < n ==> (#[trigger] matched@[m]) == node_matched(
                            self.patterns(),
                            graph,
                            m,
                        ),
                    g2.wf(),
                    g2.node_count() == n,
                    g2.labels() == graph.labels(),
                    forall|u: int|
                        0 <= u < v ==> #[trigger] g2.adj()[u] == graph.adj()[u] + reparent_ext(
                            self.patterns(),
                            graph,
                            graph.adj()[u],
                        ),
                    g2.adj()[v as int] == row + reparent_ext(
                        self.patterns(),
                        graph,
                        row.take(k2 as int),
                    ),
                    forall|u: int| v < u < n ==> (#[trigger] g2.adj()[u]).len() == 0,
                decreases deg - k2,
            {
                let m = graph.next(v)[k2];
                proof {
                    assert(m == row[k2 as int]);
                    assert(m < n);
                    assert(row.take(k2 + 1) =~= row.take(k2 as int).push(row[k2 as int]));
                    assert(row.take(k2 + 1).drop_last() =~= row.take(k2 as int));
                    assert(row.take(k2 + 1).last() == row[k2 as int]);
                    assert(node_matched(self.patterns(), graph, m as int) == matched@[m as int]);
                }
                if matched[m] {
                    let mdeg = graph.next(m).len();
                    let ghost mrow = graph.adj()[m as int];
                    let mut t: usize = 0;
                    proof {
                        assert(mrow.take(0) =~= Seq::<NodeId>::empty());
                        assert(g2.adj()[v as int] =~= (row + reparent_ext(
                            self.patterns(),
                            graph,
                            row.take(k2 as int),
                        )) + mrow.take(0));
                    }
                    while t < mdeg
                        invariant
                            v < size,
                            m < n,
                            row == graph.adj()[v as int],
                            deg == row.len(),
                            k2 < deg,
                            mrow == graph.adj()[m as int],
                            mdeg == mrow.len(),
                            t <= mdeg,
                            g2.wf(),
                            g2.node_count() == n,
                            g2.labels() == graph.labels(),
                            forall|u: int|
                                0 <= u < v ==> #[trigger] g2.adj()[u] == graph.adj()[u]
                                    + reparent_ext(self.patterns(), graph, graph.adj()[u]),
                            g2.adj()[v as int] == (row + reparent_ext(
                                self.patterns(),
                                graph,
                                row.take(k2 as int),
                            )) + mrow.take(t as int),
                            forall|u: int| v < u < n ==> (#[trigger] g2.adj()[u]).len() == 0,
                        decreases mdeg - t,
                    {
                        let child = graph.next(m)[t];
                        let ghost g2_0 = g2;
                        g2.add_edge(v, child);
                        proof {
                            assert(mrow.take(t + 1) =~= mrow.take(t as int).push(mrow[t as int]));
                            assert(g2.adj()[v as int] =~= (row + reparent_ext(
                                self.patterns(),
                                graph,
                                row.take(k2 as int),
                            )) + mrow.take(t + 1));
                            assert forall|u: int|
                                0 <= u < v implies #[trigger] g2.adj()[u] == graph.adj()[u]
                                + reparent_ext(self.patterns(), graph, graph.adj()[u]) by {
                                assert(g2.adj()[u] == g2_0.adj()[u]);
                            }
                        }
                        t += 1;
                    }
                    proof {
                        assert(mrow.take(mdeg as int) =~= mrow);
                        assert(reparent_ext(self.patterns(), graph, row.take(k2 + 1))
                            == reparent_ext(self.patterns(), graph, row.take(k2 as int)) + mrow);
                        assert(g2.adj()[v as int] =~= row + reparent_ext(
                            self.patterns(),
                            graph,
                            row.take(k2 + 1),
                        ));
                    }
                } else {
                    proof {
                        assert(reparent_ext(self.patterns(), graph, row.take(k2 + 1))
                            == reparent_ext(self.patterns(), graph, row.take(k2 as int)) + Seq::<
                            NodeId,
                        >::empty());
                        assert(g2.adj()[v as int] =~= row + reparent_ext(
                            self.patterns(),
                            graph,
                            row.take(k2 + 1),
                        ));
                    }
                }
                k2 += 1;
            }
            proof {
                assert(row.take(deg as int) =~= row);
            }
            v += 1;
        }
        *graph = g2;
    }
}

/// The label pair of an edge, joined with an unprintable separator: the
/// string a removal rule is matched against.
pub open spec fn joined(a: Seq<char>, b: Seq<char>) -> Seq<char> {
    a + "\0"@ + b
}

/// Whether some rule matches the joined labels of an edge.
pub open spec fn edge_removed(rules: Seq<Seq<char>>, a: Seq<char>, b: Seq<char>) -> bool {
    any_match(rules, joined(a, b))
}

/// A successor row with the matching edges removed.
pub open spec fn remove_row(
    rules: Seq<Seq<char>>,
    labs: Seq<String>,
    from_l: Seq<char>,
    row: Seq<NodeId>,
) -> Seq<NodeId>
    decreases row.len(),
{
    if row.len() == 0 {
        Seq::empty()
    } else {
        let rest = remove_row(rules, labs, from_l, row.drop_last());
        if edge_removed(rules, from_l, labs[row.last() as int]@) {
            rest
        } else {
            rest.push(row.last())
        }
    }
}

/// Removes every edge whose joined label pair matches one of the combined
/// rules.  A rule is one pattern over the joined pair, so an unanchored
/// half can match across the separator.
#[derive(Debug)]
pub struct RemoveEdgesPass {
    rules: Vec<Pattern>,
}

impl Default for RemoveEdgesPass {
    fn default() -> (r: Self)
        ensures
            r.rules_views().len() == 0,
    {
        RemoveEdgesPass { rules: Vec::new() }
    }
}

impl RemoveEdgesPass {
    pub closed spec fn rules_views(&self) -> Seq<Seq<char>> {
        pattern_views(self.rules@)
    }

    pub fn new(rules: Vec<Pattern>) -> (r: Self)
        ensures
            r.rules_views() == pattern_views(rules@),
    {
        Self { rules }
    }

    /// Joins the two labels with the rule separator.
    fn get_edge_string(from_label: &str, to_label: &str) -> (r: String)
        ensures
            r@ == joined(from_label@, to_label@),
    {
        let mut s = String::new();
        s.append(from_label);
        s.append("\0");
        s.append(to_label);
        proof {
            assert(s@ =~= joined(from_label@, to_label@));
        }
        s
    }

    /// Whether some rule matches the edge between these two labels.
    fn edge_matches(&self, from_label: &str, to_label: &str) -> (r: bool)
        ensures
            r == edge_removed(self.rules_views(), from_label@, to_label@),
    {
        let s = Self::get_edge_string(from_label, to_label);
        any_match_exec(&self.rules, s.as_str())
    }

    #[verifier::loop_isolation(false)]
    pub fn run_pass(&self, graph: &mut TypedGraph<String>)
        requires
            old(graph).wf(),
        ensures
            final(graph).wf(),
            final(graph).node_count() == old(graph).node_count(),
            final(graph).labels() == old(graph).labels(),
            forall|v: int|
                0 <= v < old(graph).node_count() ==> #[trigger] final(graph).adj()[v]
                    == remove_row(
                    self.rules_views(),
                    old(graph).labels(),
                    label_view(old(graph), v),
                    old(graph).adj()[v],
                ),
    {
        let ghost n = old(graph).node_count();
        let size = graph.size();
        let labs = graph.mapping().clone();
        proof {
            lemma_cloned_strings(graph.labels(), labs@);
        }
        let mut g2 = TypedGraph::<String>::new_with_mapping(labs);
        let mut v: usize = 0;
        while v < size
            invariant
                v <= size,
                g2.wf(),
                g2.node_count() == n,
                g2.labels() == graph.labels(),
                forall|w: int|
                    0 <= w < v ==> #[trigger] g2.adj()[w] == remove_row(
                        self.rules_views(),
                        graph.labels(),
                        label_view(graph, w),
                        graph.adj()[w],
                    ),
                forall|w: int| v <= w < n ==> (#[trigger] g2.adj()[w]).len() == 0,
            decreases size - v,
        {
            let deg = graph.next(v).len();
            let ghost row = graph.adj()[v as int];
            proof {
                assert(g2.adj()[v as int] =~= Seq::<NodeId>::empty());
                assert(row.take(0) =~= Seq::<NodeId>::empty());
            }
            let mut k: usize = 0;
            while k < deg
                invariant
                    v < size,
                    row == graph.adj()[v as int],
                    deg == row.len(),
                    k <= deg,
                    g2.wf(),
                    g2.node_count() == n,
                    g2.labels() == graph.labels(),
                    forall|w: int|
                        0 <= w < v ==> #[trigger] g2.adj()[w] == remove_row(
                            self.rules_views(),
                            graph.labels(),
                            label_view(graph, w),
                            graph.adj()[w],
                        ),
                    g2.adj()[v as int] == remove_row(
                        self.rules_views(),
                        graph.labels(),
                        label_view(graph, v as int),
                        row.take(k as int),
                    ),
                    forall|w: int| v < w < n ==> (#[trigger] g2.adj()[w]).len() == 0,
                decreases deg - k,
            {
                let x = graph.next(v)[k];
                proof {
                    assert(x == row[k as int]);
                    assert(x < n);
                    assert(row.take(k + 1).drop_last() =~= row.take(k as int));
                    assert(row.take(k + 1).last() == row[k as int]);
                }
                let hit = self.edge_matches(
                    graph.mapping()[v].as_str(),
                    graph.mapping()[x].as_str(),
                );
                if !hit {
                    let ghost g2_0 = g2;
                    g2.add_edge(v, x);
                    proof {
                        assert(g2.adj()[v as int] == g2_0.adj()[v as int].push(x));
                        assert forall|w: int|
                            0 <= w < v implies #[trigger] g2.adj()[w] == remove_row(
                            self.rules_views(),
                            graph.labels(),
                            label_view(graph, w),
                            graph.adj()[w],
                        ) by {
                            assert(g2.adj()[w] == g2_0.adj()[w]);
                        }
                    }
                }
                k += 1;
            }
            proof {
                assert(row.take(deg as int) =~= row);
            }
            v += 1;
        }
        *graph = g2;
    }
}

/// The combined pattern of an edge-removal rule line: the part before the
/// first space and the part after it, joined with the separator; `None`
/// when the line has no space or the joined pattern is rejected.
pub open spec fn parse_edge_rule(line: Seq<char>) -> Option<Seq<char>> {
    let p = crate::linker::text::find_char(line, ' ');
    if p >= 0 {
        let pat = joined(line.take(p), line.skip(p + 1));
        if crate::linker::pattern::regex_ok(pat) {
            Some(pat)
        } else {
            None
        }
    } else {
        None
    }
}

/// The combined patterns of all rule lines; `None` as soon as one fails.
pub open spec fn edge_rules(lines: Seq<Seq<char>>) -> Option<Seq<Seq<char>>>
    decreases lines.len(),
{
    if lines.len() == 0 {
        Some(Seq::empty())
    } else {
        match edge_rules(lines.drop_last()) {
            Some(rs) => match parse_edge_rule(lines.last()) {
                Some(p) => Some(rs.push(p)),
                None => None,
            },
            None => None,
        }
    }
}

proof fn lemma_edge_rules_none(lines: Seq<Seq<char>>, k: int)
    requires
        0 <= k <= lines.len(),
        edge_rules(lines.take(k)) is None,
    ensures
        edge_rules(lines) is None,
    decreases lines.len() - k,
{
    if k < lines.len() {
        assert(lines.take(k + 1).drop_last() =~= lines.take(k));
        lemma_edge_rules_none(lines, k + 1);
    } else {
        assert(lines.take(k) =~= lines);
    }
}

impl RemoveEdgesPass {
    /// Parses one rule line, `from-pattern to-pattern`, separated by the
    /// first space; returns whether the rule was accepted and stored.
    pub fn add_rule_from_str(&mut self, rule: &str) -> (ok: bool)
        ensures
            match parse_edge_rule(rule@) {
                Some(pat) => ok && final(self).rules_views() == old(self).rules_views().push(pat),
                None => !ok && final(self).rules_views() == old(self).rules_views(),
            },
    {
        let len = rule.unicode_len();
        let sp = crate::linker::text::find_char_exec(rule, ' ');
        proof {
            crate::linker::text::lemma_find_char(rule@, ' ');
        }
        match sp {
            Some(p) => {
                let left = rule.substring_char(0, p);
                let right = rule.substring_char(p + 1, len);
                proof {
                    assert(left@ =~= rule@.take(crate::linker::text::find_char(rule@, ' ')));
                    assert(right@ =~= rule@.skip(crate::linker::text::find_char(rule@, ' ') + 1));
                }
                let js = Self::get_edge_string(left, right);
                match Pattern::new(js.as_str()) {
                    Some(pat) => {
                        let ghost rules0 = self.rules@;
                        self.rules.push(pat);
                        proof {
                            assert(pattern_views(self.rules@) =~= pattern_views(rules0).push(
                                pat@,
                            ));
                        }
                        true
                    },
                    None => false,
                }
            },
            None => false,
        }
    }

    /// One rule per line; fails on the first malformed line.
    pub fn new_from_str(data: &str) -> (r: Option<Self>)
        ensures
            match edge_rules(split_lines_spec(data@)) {
                Some(rs) => match r {
                    Some(p) => p.rules_views() == rs,
                    None => false,
                },
                None => r is None,
            },
    {
        let ghost lv = split_lines_spec(data@);
        let lines = split_lines(data);
        let mut result = RemoveEdgesPass { rules: Vec::new() };
        let nlines = lines.len();
        let mut k: usize = 0;
        proof {
            assert(lv.take(0) =~= Seq::<Seq<char>>::empty());
            assert(result.rules_views() =~= Seq::<Seq<char>>::empty());
        }
        while k < nlines
            invariant
                lv == split_lines_spec(data@),
                string_views(lines@) == lv,
                nlines == lines@.len(),
                k <= nlines,
                edge_rules(lv.take(k as int)) == Some(result.rules_views()),
            decreases nlines - k,
        {
            proof {
                assert(lv.take(k + 1).drop_last() =~= lv.take(k as int));
                assert(lv.take(k + 1).last() == lv[k as int]);
                assert(lines@[k as int]@ == lv[k as int]);
            }
            let ok = result.add_rule_from_str(lines[k].as_str());
            if !ok {
                proof {
                    lemma_edge_rules_none(lv, k + 1);
                }
                return None;
            }
            k += 1;
        }
        proof {
            assert(lv.take(nlines as int) =~= lv);
        }
        Some(result)
    }
}

/// Law: collapsing parallel edges is idempotent.  If `g1` is the result of
/// the unique-edges pass on `g0`, and `g2` the result of the same pass on
/// `g1`, then `g2` and `g1` are the same graph.
pub proof fn lemma_unique_edges_idempotent(
    g0: &TypedGraph<String>,
    g1: &TypedGraph<String>,
    g2: &TypedGraph<String>,
)
    requires
        g1.node_count() == g0.node_count(),
        g1.labels() == g0.labels(),
        forall|v: int| 0 <= v < g0.node_count() ==> #[trigger] g1.adj()[v] == dedup_first(
            g0.adj()[v],
        ),
        g2.node_count() == g1.node_count(),
        g2.labels() == g1.labels(),
        forall|v: int| 0 <= v < g1.node_count() ==> #[trigger] g2.adj()[v] == dedup_first(
            g1.adj()[v],
        ),
    ensures
        g2.adj() == g1.adj(),
        g2.labels() == g1.labels(),
{
    assert forall|v: int| 0 <= v < g1.node_count() implies #[trigger] g2.adj()[v]
        == g1.adj()[v] by {
        lemma_dedup_first_idempotent(g0.adj()[v]);
    }
    assert(g2.adj() =~= g1.adj());
}

impl RemoveNodePass {
    pub fn name(&self) -> (r: String)
        ensures
            r@ == "node terminator"@,
    {
        "node terminator".to_owned()
    }
}

impl RegexEdgeGenPass {
    pub fn name(&self) -> (r: String)
        ensures
            r@ == "regex edge generator"@,
    {
        "regex edge generator".to_owned()
    }
}

impl CutDegPass {
    /// The pass name spells out both bounds, each one past its maximum.
    pub fn name(&self) -> (r: String)
        ensures
            r@ == "degree filtering(incoming < "@ + crate::linker::text::dec_str(
                self.max_in() as nat + 1,
            ) + ", outgoing < "@ + crate::linker::text::dec_str(self.max_out() as nat + 1) + ")"@,
    {
        let mut s = String::new();
        s.append("degree filtering(incoming < ");
        crate::linker::text::push_dec(self.max_incoming as u128 + 1, &mut s);
        s.append(", outgoing < ");
        crate::linker::text::push_dec(self.max_outgoing as u128 + 1, &mut s);
        s.append(")");
        proof {
            assert(s@ =~= "degree filtering(incoming < "@ + crate::linker::text::dec_str(
                self.max_in() as nat + 1,
            ) + ", outgoing < "@ + crate::linker::text::dec_str(self.max_out() as nat + 1) + ")"@);
        }
        s
    }
}

impl UniqueEdgesPass {
    pub fn name(&self) -> (r: String)
        ensures
            r@ == "decouple edges"@,
    {
        "decouple edges".to_owned()
    }
}

impl SubgraphExtractionPass {
    pub fn name(&self) -> (r: String)
        ensures
            r@ == "subgraph extraction"@,
    {
        "subgraph extraction".to_owned()
    }
}

impl ReverseGraphPass {
    pub fn name(&self) -> (r: String)
        ensures
            r@ == "reverse graph"@,
    {
        "reverse graph".to_owned()
    }
}

impl ReparentGraphPass {
    pub fn name(&self) -> (r: String)
        ensures
            r@ == "reparent nodes"@,
    {
        "reparent nodes".to_owned()
    }
}

impl RemoveEdgesPass {
    pub fn name(&self) -> (r: String)
        ensures
            r@ == "remove edges"@,
    {
        "remove edges".to_owned()
    }
}

/// One pass of the pipeline: a closed set of graph-rewriting operations
/// dispatched by variant.
#[derive(Debug)]
pub enum Pass {
    RemoveNode(RemoveNodePass),
    RegexEdgeGen(RegexEdgeGenPass),
    CutDeg(CutDegPass),
    UniqueEdges(UniqueEdgesPass),
    SubgraphExtraction(SubgraphExtractionPass),
    ReverseGraph(ReverseGraphPass),
    Reparent(ReparentGraphPass),
    RemoveEdges(RemoveEdgesPass),
}

/// What one application of `p` does to a graph: the conjunction of the
/// variant's own contract.  The degree filter runs only when its edge
/// census fits the machine word; otherwise it leaves the graph unchanged.
pub open spec fn run_rel(p: &Pass, g0: &TypedGraph<String>, g1: &TypedGraph<String>) -> bool {
    match p {
        Pass::RemoveNode(q) => is_projection_of(g1, g0, q.kept(g0)),
        Pass::RegexEdgeGen(q) => {
            &&& g1.node_count() == g0.node_count()
            &&& g1.labels() == g0.labels()
            &&& forall|u: int, v: int|
                0 <= u < g0.node_count() && 0 <= v < g0.node_count() ==> #[trigger] g1.edge_count(
                    u,
                    v,
                ) == g0.edge_count(u, v) + cnt_rules(q.rules_seq(), g0, u, v)
        },
        Pass::CutDeg(q) => if total_edges(g0) <= usize::MAX {
            is_projection_of(g1, g0, q.kept(g0))
        } else {
            g1 == g0
        },
        Pass::UniqueEdges(_) => {
            &&& g1.node_count() == g0.node_count()
            &&& g1.labels() == g0.labels()
            &&& forall|v: int| 0 <= v < g0.node_count() ==> #[trigger] g1.adj()[v] == dedup_first(
                g0.adj()[v],
            )
        },
        Pass::SubgraphExtraction(q) => is_projection_of(g1, g0, q.kept(g0)),
        Pass::ReverseGraph(_) => {
            &&& g1.node_count() == g0.node_count()
            &&& g1.labels() == g0.labels()
            &&& forall|u: int, v: int|
                0 <= u < g0.node_count() && 0 <= v < g0.node_count() ==> #[trigger] g1.edge_count(
                    u,
                    v,
                ) == g0.edge_count(v, u)
        },
        Pass::Reparent(q) => {
            &&& g1.node_count() == g0.node_count()
            &&& g1.labels() == g0.labels()
            &&& forall|v: int|
                0 <= v < g0.node_count() ==> #[trigger] g1.adj()[v] == g0.adj()[v] + reparent_ext(
                    q.patterns(),
                    g0,
                    g0.adj()[v],
                )
        },
        Pass::RemoveEdges(q) => {
            &&& g1.node_count() == g0.node_count()
            &&& g1.labels() == g0.labels()
            &&& forall|v: int|
                0 <= v < g0.node_count() ==> #[trigger] g1.adj()[v] == remove_row(
                    q.rules_views(),
                    g0.labels(),
                    label_view(g0, v),
                    g0.adj()[v],
                )
        },
    }
}

impl Pass {
    /// Applies the pass to `graph`.
    pub fn run(&self, graph: &mut TypedGraph<String>)
        requires
            old(graph).wf(),
        ensures
            final(graph).wf(),
            run_rel(self, old(graph), final(graph)),
    {
        match self {
            Pass::RemoveNode(q) => q.run_pass(graph),
            Pass::RegexEdgeGen(q) => q.run_pass(graph),
            Pass::CutDeg(q) => {
                // The degree census must fit a machine word; tally it first.
                let size = graph.size();
                let mut total: usize = 0;
                let mut u: usize = 0;
                let mut overflow = false;
                while u < size
                    invariant
                        graph.wf(),
                        size == graph.node_count(),
                        u <= size,
                        !overflow ==> total == total_edges_upto(graph, u as int),
                        overflow ==> total_edges_upto(graph, u as int) > usize::MAX,
                    decreases size - u,
                {
                    let deg = graph.next(u).len();
                    if !overflow {
                        match total.checked_add(deg) {
                            Some(x) => {
                                total = x;
                            },
                            None => {
                                overflow = true;
                            },
                        }
                    } else {
                        proof {
                            assert(total_edges_upto(graph, u + 1) >= total_edges_upto(
                                graph,
                                u as int,
                            ));
                        }
                    }
                    u += 1;
                }
                if !overflow {
                    q.run_pass(graph);
                }
            },
            Pass::UniqueEdges(q) => q.run_pass(graph),
            Pass::SubgraphExtraction(q) => q.run_pass(graph),
            Pass::ReverseGraph(q) => q.run_pass(graph),
            Pass::Reparent(q) => q.run_pass(graph),
            Pass::RemoveEdges(q) => q.run_pass(graph),
        }
    }

    /// A human-readable name of the pass.
    pub fn name(&self) -> (r: String)
        ensures
            r@ == match self {
                Pass::RemoveNode(_) => "node terminator"@,
                Pass::RegexEdgeGen(_) => "regex edge generator"@,
                Pass::CutDeg(q) => "degree filtering(incoming < "@ + crate::linker::text::dec_str(
                    q.max_in() as nat + 1,
                ) + ", outgoing < "@ + crate::linker::text::dec_str(q.max_out() as nat + 1)
                    + ")"@,
                Pass::UniqueEdges(_) => "decouple edges"@,
                Pass::SubgraphExtraction(_) => "subgraph extraction"@,
                Pass::ReverseGraph(_) => "reverse graph"@,
                Pass::Reparent(_) => "reparent nodes"@,
                Pass::RemoveEdges(_) => "remove edges"@,
            },
    {
        match self {
            Pass::RemoveNode(q) => q.name(),
            Pass::RegexEdgeGen(q) => q.name(),
            Pass::CutDeg(q) => q.name(),
            Pass::UniqueEdges(q) => q.name(),
            Pass::SubgraphExtraction(q) => q.name(),
            Pass::ReverseGraph(q) => q.name(),
            Pass::Reparent(q) => q.name(),
            Pass::RemoveEdges(q) => q.name(),
        }
    }
}

/// The graphs one pipeline run passes through: `mids[k]` is the graph
/// after the first `k` passes, starting from `g0`, with consecutive
/// entries related by the corresponding pass's relation.
pub open spec fn pipeline_chain(
    ps: Seq<Pass>,
    g0: TypedGraph<String>,
    mids: Seq<TypedGraph<String>>,
) -> bool {
    &&& mids.len() == ps.len() + 1
    &&& mids[0] == g0
    &&& forall|k: int|
        #![trigger ps[k]]
        0 <= k < ps.len() ==> run_rel(&ps[k], &mids[k], &mids[k + 1])
}

/// What the whole pipeline does to one graph: the composition of the
/// passes' relations, in order — some chain of intermediate graphs links
/// the start to the end, one pass relation per step.  An empty pipeline
/// leaves the graph as it is.
pub open spec fn pipeline_rel(
    ps: Seq<Pass>,
    g0: TypedGraph<String>,
    g1: TypedGraph<String>,
) -> bool {
    exists|mids: Seq<TypedGraph<String>>|
        #[trigger] pipeline_chain(ps, g0, mids) && mids.last() == g1
}

/// The empty pipeline relates every graph to itself.
proof fn lemma_pipeline_rel_empty(ps: Seq<Pass>, g0: TypedGraph<String>)
    requires
        ps.len() == 0,
    ensures
        pipeline_rel(ps, g0, g0),
{
    let mids = seq![g0];
    assert(pipeline_chain(ps, g0, mids));
    assert(mids.last() == g0);
}

/// One chaining step of [`pipeline_rel`]: a run of all passes but the
/// last, followed by the last pass.
proof fn lemma_pipeline_rel_step(
    ps: Seq<Pass>,
    g0: TypedGraph<String>,
    m: TypedGraph<String>,
    g1: TypedGraph<String>,
)
    requires
        ps.len() > 0,
        pipeline_rel(ps.drop_last(), g0, m),
        run_rel(&ps.last(), &m, &g1),
    ensures
        pipeline_rel(ps, g0, g1),
{
    let mids = choose|mids: Seq<TypedGraph<String>>|
        #[trigger] pipeline_chain(ps.drop_last(), g0, mids) && mids.last() == m;
    let mids2 = mids.push(g1);
    assert(pipeline_chain(ps, g0, mids2)) by {
        assert forall|k: int| #![trigger ps[k]] 0 <= k < ps.len() implies run_rel(
            &ps[k],
            &mids2[k],
            &mids2[k + 1],
        ) by {
            if k < ps.len() - 1 {
                assert(ps.drop_last()[k] == ps[k]);
                assert(run_rel(&ps.drop_last()[k], &mids[k], &mids[k + 1]));
                assert(mids2[k] == mids[k]);
                assert(mids2[k + 1] == mids[k + 1]);
            } else {
                assert(mids2[k] == mids.last());
                assert(mids2[k + 1] == g1);
                assert(ps[k] == ps.last());
            }
        }
    }
    assert(mids2.last() == g1);
}

/// Applies every pass, in order, to every graph of the working set before
/// moving to the next pass.  Each graph ends up related to its start by the
/// composition of all the passes' relations; the graphs do not interact, so
/// the per-graph chaining and the pass-outer application order agree.
pub fn run_pipeline(passes: &Vec<Pass>, graphs: &mut Vec<TypedGraph<String>>)
    requires
        forall|i: int| 0 <= i < old(graphs)@.len() ==> (#[trigger] old(graphs)@[i]).wf(),
    ensures
        final(graphs)@.len() == old(graphs)@.len(),
        forall|i: int| 0 <= i < final(graphs)@.len() ==> (#[trigger] final(graphs)@[i]).wf(),
        forall|i: int|
            0 <= i < old(graphs)@.len() ==> pipeline_rel(
                passes@,
                old(graphs)@[i],
                #[trigger] final(graphs)@[i],
            ),
{
    let np = passes.len();
    let mut p: usize = 0;
    proof {
        assert(passes@.take(0) =~= Seq::<Pass>::empty());
        assert forall|i: int| 0 <= i < old(graphs)@.len() implies pipeline_rel(
            passes@.take(0),
            old(graphs)@[i],
            #[trigger] graphs@[i],
        ) by {
            lemma_pipeline_rel_empty(passes@.take(0), old(graphs)@[i]);
        }
    }
    while p < np
        invariant
            np == passes@.len(),
            p <= np,
            graphs@.len() == old(graphs)@.len(),
            forall|i: int| 0 <= i < graphs@.len() ==> (#[trigger] graphs@[i]).wf(),
            forall|i: int|
                0 <= i < old(graphs)@.len() ==> pipeline_rel(
                    passes@.take(p as int),
                    old(graphs)@[i],
                    #[trigger] graphs@[i],
                ),
        decreases np - p,
    {
        let ghost round0 = graphs@;
        let ng = graphs.len();
        let mut i: usize = 0;
        proof {
            assert(passes@.take(p + 1).drop_last() =~= passes@.take(p as int));
            assert(passes@.take(p + 1).last() == passes@[p as int]);
            assert(passes@.take(p + 1) =~= passes@.take(p as int).push(passes@[p as int]));
        }
        while i < ng
            invariant
                np == passes@.len(),
                p < np,
                ng == graphs@.len(),
                graphs@.len() == old(graphs)@.len(),
                round0.len() == ng,
                i <= ng,
                forall|j: int| 0 <= j < graphs@.len() ==> (#[trigger] graphs@[j]).wf(),
                forall|j: int| i <= j < ng ==> #[trigger] graphs@[j] == round0[j],
                forall|j: int|
                    0 <= j < ng ==> pipeline_rel(
                        passes@.take(p as int),
                        old(graphs)@[j],
                        #[trigger] round0[j],
                    ),
                forall|j: int|
                    0 <= j < i ==> pipeline_rel(
                        passes@.take(p + 1),
                        old(graphs)@[j],
                        #[trigger] graphs@[j],
                    ),
            decreases ng - i,
        {
            let g = &mut graphs[i];
            passes[p].run(g);
            proof {
                assert(passes@.take(p + 1).drop_last() =~= passes@.take(p as int));
                assert(passes@.take(p + 1).last() == passes@[p as int]);
                assert(run_rel(&passes@[p as int], &round0[i as int], &graphs@[i as int]));
                assert(pipeline_rel(
                    passes@.take(p + 1).drop_last(),
                    old(graphs)@[i as int],
                    round0[i as int],
                ));
                lemma_pipeline_rel_step(
                    passes@.take(p + 1),
                    old(graphs)@[i as int],
                    round0[i as int],
                    graphs@[i as int],
                );
            }
            i += 1;
        }
        p += 1;
    }
    proof {
        assert(passes@.take(np as int) =~= passes@);
    }
}

} // verus!
