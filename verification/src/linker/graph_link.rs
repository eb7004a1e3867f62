//! Linking several call graphs into one: nodes sharing a label are
//! unified, every edge of every input is carried over.

use vstd::prelude::*;

verus! {

use crate::graph::{TypedGraph, NodeId};
use crate::linker::text::str_eq;

broadcast use vstd::seq_lib::group_seq_properties, vstd::multiset::group_multiset_axioms;

/// The labels of a graph, as character sequences in node order.
pub open spec fn label_views(g: &TypedGraph<String>) -> Seq<Seq<char>> {
    g.labels().map_values(|s: String| s@)
}

/// The labels of all graphs, concatenated in graph order.
pub open spec fn all_labels(gs: Seq<TypedGraph<String>>) -> Seq<Seq<char>>
    decreases gs.len(),
{
    if gs.len() == 0 {
        Seq::empty()
    } else {
        all_labels(gs.drop_last()) + label_views(&gs.last())
    }
}

/// First-occurrence deduplication of a label sequence.
pub open spec fn dedup_labels(ls: Seq<Seq<char>>) -> Seq<Seq<char>>
    decreases ls.len(),
{
    if ls.len() == 0 {
        Seq::empty()
    } else {
        let d = dedup_labels(ls.drop_last());
        if ls.drop_last().contains(ls.last()) {
            d
        } else {
            d.push(ls.last())
        }
    }
}

pub proof fn lemma_dedup_labels_props(ls: Seq<Seq<char>>)
    ensures
        forall|x: Seq<char>| #[trigger] dedup_labels(ls).contains(x) <==> ls.contains(x),
        forall|a: int, b: int|
            0 <= a < b < dedup_labels(ls).len() ==> dedup_labels(ls)[a] != dedup_labels(ls)[b],
    decreases ls.len(),
{
    broadcast use vstd::seq_lib::group_seq_properties;

    if ls.len() > 0 {
        let dl = ls.drop_last();
        lemma_dedup_labels_props(dl);
        let d = dedup_labels(dl);
        assert(dl.push(ls.last()) =~= ls);
        assert forall|x: Seq<char>| ls.contains(x) implies #[trigger] dedup_labels(ls).contains(
            x,
        ) by {
            if x != ls.last() {
                let a = choose|a: int| 0 <= a < ls.len() && ls[a] == x;
                assert(dl[a] == x);
                assert(dl.contains(x));
                assert(d.contains(x));
                if !dl.contains(ls.last()) {
                    let b = choose|b: int| 0 <= b < d.len() && d[b] == x;
                    assert(dedup_labels(ls)[b] == x);
                }
            } else {
                if dl.contains(x) {
                    assert(d.contains(x));
                } else {
                    assert(dedup_labels(ls).last() == x);
                }
            }
        }
        assert forall|x: Seq<char>| #[trigger] dedup_labels(ls).contains(x) implies ls.contains(
            x,
        ) by {
            if dl.contains(ls.last()) {
                assert(d.contains(x));
                assert(dl.contains(x));
            } else {
                let b = choose|b: int|
                    0 <= b < dedup_labels(ls).len() && dedup_labels(ls)[b] == x;
                if b < dedup_labels(ls).len() - 1 {
                    assert(d[b] == x);
                    assert(d.contains(x));
                    assert(dl.contains(x));
                } else {
                    assert(x == ls.last());
                }
            }
        }
        if !dl.contains(ls.last()) {
            assert(!d.contains(ls.last()));
            assert forall|a: int, b: int|
                0 <= a < b < dedup_labels(ls).len() implies dedup_labels(ls)[a] != dedup_labels(
                ls,
            )[b] by {
                if b == dedup_labels(ls).len() - 1 {
                    assert(dedup_labels(ls)[a] == d[a]);
                    assert(d.contains(d[a]));
                }
            }
        }
    }
}

/// Some input graph has an edge between nodes carrying these two labels.
pub open spec fn merged_edge(gs: Seq<TypedGraph<String>>, la: Seq<char>, lb: Seq<char>) -> bool {
    exists|gi: int, u: NodeId, v: NodeId|
        0 <= gi < gs.len() && (u as int) < gs[gi].node_count() && (v as int)
            < gs[gi].node_count() && (#[trigger] gs[gi].has_edge(u as int, v as int))
            && label_views(&gs[gi])[u as int] == la && label_views(&gs[gi])[v as int] == lb
}

/// Index of the first node of `g` whose label is `target`.
fn find_label(g: &TypedGraph<String>, target: &str) -> (r: Option<usize>)
    requires
        g.wf(),
    ensures
        match r {
            Some(i) => i < g.node_count() && label_views(g)[i as int] == target@ && forall|j: int|
                0 <= j < i ==> label_views(g)[j] != target@,
            None => forall|j: int| 0 <= j < g.node_count() ==> label_views(g)[j] != target@,
        },
{
    let size = g.size();
    let mut i: usize = 0;
    while i < size
        invariant
            g.wf(),
            size == g.node_count(),
            i <= size,
            forall|j: int| 0 <= j < i ==> label_views(g)[j] != target@,
        decreases size - i,
    {
        if str_eq(g.mapping()[i].as_str(), target) {
            proof {
                assert(label_views(g)[i as int] == target@);
            }
            return Some(i);
        }
        i += 1;
    }
    None
}

/// Links all graphs into one: a node per distinct label, in order of first
/// appearance across the inputs, and an edge wherever any input has one
/// between nodes of those labels.
#[verifier::rlimit(100)]
pub fn link_all_graphs(graphs: &Vec<TypedGraph<String>>) -> (r: TypedGraph<String>)
    requires
        forall|gi: int| 0 <= gi < graphs@.len() ==> (#[trigger] graphs@[gi]).wf(),
    ensures
        r.wf(),
        label_views(&r) == dedup_labels(all_labels(graphs@)),
        forall|a: NodeId, b: NodeId|
            (a as int) < r.node_count() && (b as int) < r.node_count() ==> (#[trigger] r.has_edge(
                a as int,
                b as int,
            ) <==> merged_edge(graphs@, label_views(&r)[a as int], label_views(&r)[b as int])),
        forall|a: NodeId, b: NodeId|
            (a as int) < r.node_count() && (b as int) < r.node_count() ==> #[trigger] r.edge_count(
                a as int,
                b as int,
            ) == merged_edge_count(graphs@, label_views(&r)[a as int], label_views(&r)[b as int]),
{
    let ghost gs = graphs@;
    let mut result: TypedGraph<String> = TypedGraph::new();
    let ng = graphs.len();
    let mut gi: usize = 0;
    proof {
        assert(gs.take(0) =~= Seq::<TypedGraph<String>>::empty());
        assert(label_views(&result) =~= Seq::<Seq<char>>::empty());
        assert(label_views(&result) =~= dedup_labels(all_labels(gs.take(0))));
    }
    while gi < ng
        invariant
            ng == gs.len(),
            gs == graphs@,
            forall|j: int| 0 <= j < gs.len() ==> (#[trigger] gs[j]).wf(),
            gi <= ng,
            result.wf(),
            label_views(&result) == dedup_labels(all_labels(gs.take(gi as int))),
            forall|a: int, b: int|
                0 <= a < label_views(&result).len() && 0 <= b < label_views(&result).len()
                    ==> label_views(&result)[a] != label_views(&result)[b] || a == b,
            forall|a: NodeId, b: NodeId|
                (a as int) < result.node_count() && (b as int) < result.node_count() ==> (
                #[trigger] result.has_edge(a as int, b as int) <==> merged_edge(
                    gs.take(gi as int),
                    label_views(&result)[a as int],
                    label_views(&result)[b as int],
                )),
            forall|a: NodeId, b: NodeId|
                (a as int) < result.node_count() && (b as int) < result.node_count()
                    ==> #[trigger] result.edge_count(a as int, b as int) == merged_edge_count(
                    gs.take(gi as int),
                    label_views(&result)[a as int],
                    label_views(&result)[b as int],
                ),
        decreases ng - gi,
    {
        let g = &graphs[gi];
        let ghost lv = label_views(g);
        proof {
            assert(gs.take(gi + 1).drop_last() =~= gs.take(gi as int));
            assert(gs.take(gi + 1).last() == gs[gi as int]);
            lemma_dedup_labels_props(all_labels(gs.take(gi as int)));
            lemma_dedup_labels_props(all_labels(gs.take(gi as int)) + lv);
        }

        // Give every node of `g` its slot in the result, adding new labels.
        let gsize = g.size();
        let mut map_ids: Vec<NodeId> = Vec::new();
        let mut v: usize = 0;
        proof {
            assert(all_labels(gs.take(gi as int)) + lv.take(0) =~= all_labels(gs.take(gi as int)));
        }
        while v < gsize
            invariant
                ng == gs.len(),
                gs == graphs@,
                forall|j: int| 0 <= j < gs.len() ==> (#[trigger] gs[j]).wf(),
                gi < ng,
                g == &gs[gi as int],
                g.wf(),
                lv == label_views(g),
                gsize == g.node_count(),
                v <= gsize,
                result.wf(),
                label_views(&result) == dedup_labels(
                    all_labels(gs.take(gi as int)) + lv.take(v as int),
                ),
                forall|a: int, b: int|
                    0 <= a < label_views(&result).len() && 0 <= b < label_views(&result).len()
                        ==> label_views(&result)[a] != label_views(&result)[b] || a == b,
                map_ids@.len() == v,
                forall|w: int|
                    0 <= w < v ==> (#[trigger] map_ids@[w]) < result.node_count() && label_views(
                        &result,
                    )[map_ids@[w] as int] == lv[w],
                forall|a: NodeId, b: NodeId|
                    (a as int) < result.node_count() && (b as int) < result.node_count() ==> (
                    #[trigger] result.has_edge(a as int, b as int) <==> merged_edge(
                        gs.take(gi as int),
                        label_views(&result)[a as int],
                        label_views(&result)[b as int],
                    )),
                forall|a: NodeId, b: NodeId|
                    (a as int) < result.node_count() && (b as int) < result.node_count()
                        ==> #[trigger] result.edge_count(a as int, b as int) == merged_edge_count(
                        gs.take(gi as int),
                        label_views(&result)[a as int],
                        label_views(&result)[b as int],
                    ),
            decreases gsize - v,
        {
            let ghost prefix = all_labels(gs.take(gi as int)) + lv.take(v as int);
            proof {
                assert((all_labels(gs.take(gi as int)) + lv.take(v + 1)).drop_last() =~= prefix);
                assert((all_labels(gs.take(gi as int)) + lv.take(v + 1)).last() == lv[v as int]);
                lemma_dedup_labels_props(prefix);
            }
            let label = g.mapping()[v].as_str();
            let slot = match find_label(&result, label) {
                Some(i) => {
                    proof {
                        assert(label_views(&result).contains(lv[v as int]));
                        assert(prefix.contains(lv[v as int]));
                        assert((prefix + seq![lv[v as int]]).drop_last() =~= prefix);
                        assert((prefix + seq![lv[v as int]]).last() == lv[v as int]);
                        assert(dedup_labels(prefix + seq![lv[v as int]]) == dedup_labels(prefix));
                        assert(prefix + seq![lv[v as int]] =~= all_labels(gs.take(gi as int))
                            + lv.take(v + 1));
                    }
                    i
                },
                None => {
                    proof {
                        if prefix.contains(lv[v as int]) {
                            assert(dedup_labels(prefix).contains(lv[v as int]));
                            let j = choose|j: int|
                                0 <= j < label_views(&result).len() && label_views(&result)[j]
                                    == lv[v as int];
                            assert(false);
                        }
                    }
                    let ghost r0 = result;
                    let id = result.new_node(g.mapping()[v].clone());
                    proof {
                        assert(label_views(&result) =~= label_views(&r0).push(lv[v as int]));
                        assert((prefix + seq![lv[v as int]]).drop_last() =~= prefix);
                        assert((prefix + seq![lv[v as int]]).last() == lv[v as int]);
                        assert(prefix + seq![lv[v as int]] =~= all_labels(gs.take(gi as int))
                            + lv.take(v + 1));
                        assert(label_views(&result) =~= dedup_labels(
                            all_labels(gs.take(gi as int)) + lv.take(v + 1),
                        ));
                        // The fresh node neither has nor receives edges, and
                        // its label occurs in no processed graph.
                        assert forall|a: NodeId, b: NodeId|
                            (a as int) < result.node_count() && (b as int)
                                < result.node_count() implies (#[trigger] result.has_edge(
                            a as int,
                            b as int,
                        ) <==> merged_edge(
                            gs.take(gi as int),
                            label_views(&result)[a as int],
                            label_views(&result)[b as int],
                        )) by {
                            if (a as int) < r0.node_count() && (b as int) < r0.node_count() {
                                assert(result.has_edge(a as int, b as int) == r0.has_edge(
                                    a as int,
                                    b as int,
                                ));
                            } else {
                                assert(!result.has_edge(a as int, b as int)) by {
                                    if (a as int) < r0.node_count() {
                                        assert(result.adj()[a as int] == r0.adj()[a as int]);
                                        if result.adj()[a as int].contains(b) {
                                            let k = choose|k: int|
                                                0 <= k < r0.adj()[a as int].len() && r0.adj()[
                                                a as int][k] == b;
                                            assert(r0.adj()[a as int][k] < r0.node_count());
                                            assert(false);
                                        }
                                    } else {
                                        assert(result.adj()[a as int].len() == 0);
                                    }
                                }
                                assert(!merged_edge(
                                    gs.take(gi as int),
                                    label_views(&result)[a as int],
                                    label_views(&result)[b as int],
                                )) by {
                                    let fresh = lv[v as int];
                                    if merged_edge(
                                        gs.take(gi as int),
                                        label_views(&result)[a as int],
                                        label_views(&result)[b as int],
                                    ) {
                                        let (gj, u2, v2) = choose|gj: int, u2: NodeId, v2: NodeId|
                                            0 <= gj < gs.take(gi as int).len() && (u2 as int)
                                                < gs.take(gi as int)[gj].node_count() && (
                                            v2 as int) < gs.take(gi as int)[gj].node_count() && (
                                            #[trigger] gs.take(gi as int)[gj].has_edge(
                                                u2 as int,
                                                v2 as int,
                                            )) && label_views(&gs.take(gi as int)[gj])[u2 as int]
                                                == label_views(&result)[a as int] && label_views(
                                                &gs.take(gi as int)[gj],
                                            )[v2 as int] == label_views(&result)[b as int];
                                        lemma_all_labels_contains(
                                            gs.take(gi as int),
                                            gj,
                                            u2 as int,
                                        );
                                        lemma_all_labels_contains(
                                            gs.take(gi as int),
                                            gj,
                                            v2 as int,
                                        );
                                        assert(prefix.contains(fresh)) by {
                                            if (a as int) >= r0.node_count() {
                                                assert(label_views(&result)[a as int] == fresh);
                                                assert(all_labels(gs.take(gi as int)).contains(
                                                    fresh,
                                                ));
                                                lemma_concat_contains_left(
                                                    all_labels(gs.take(gi as int)),
                                                    lv.take(v as int),
                                                    fresh,
                                                );
                                            } else {
                                                assert(label_views(&result)[b as int] == fresh);
                                                assert(all_labels(gs.take(gi as int)).contains(
                                                    fresh,
                                                ));
                                                lemma_concat_contains_left(
                                                    all_labels(gs.take(gi as int)),
                                                    lv.take(v as int),
                                                    fresh,
                                                );
                                            }
                                        }
                                        assert(false);
                                    }
                                }
                            }
                        }
                        // Edge counts: the fresh node has no edges in
                        // either direction, and its label counts no merged
                        // edges among the processed graphs.
                        assert forall|a: NodeId, b: NodeId|
                            (a as int) < result.node_count() && (b as int)
                                < result.node_count() implies #[trigger] result.edge_count(
                            a as int,
                            b as int,
                        ) == merged_edge_count(
                            gs.take(gi as int),
                            label_views(&result)[a as int],
                            label_views(&result)[b as int],
                        ) by {
                            let fresh = lv[v as int];
                            if (a as int) < r0.node_count() && (b as int) < r0.node_count() {
                                assert(result.adj()[a as int] == r0.adj()[a as int]);
                                assert(result.edge_count(a as int, b as int) == r0.edge_count(
                                    a as int,
                                    b as int,
                                ));
                            } else {
                                assert(result.edge_count(a as int, b as int) == 0) by {
                                    if (a as int) < r0.node_count() {
                                        assert(result.adj()[a as int] == r0.adj()[a as int]);
                                        if result.adj()[a as int].contains(b) {
                                            let k = choose|k: int|
                                                0 <= k < r0.adj()[a as int].len() && r0.adj()[
                                                a as int][k] == b;
                                            assert(r0.adj()[a as int][k] < r0.node_count());
                                            assert(false);
                                        }
                                        assert(result.adj()[a as int].to_multiset().count(b) == 0);
                                    } else {
                                        assert(result.adj()[a as int].len() == 0);
                                        assert(!result.adj()[a as int].contains(b));
                                        assert(result.adj()[a as int].to_multiset().count(b) == 0);
                                    }
                                }
                                assert(!all_labels(gs.take(gi as int)).contains(fresh)) by {
                                    if all_labels(gs.take(gi as int)).contains(fresh) {
                                        lemma_concat_contains_left(
                                            all_labels(gs.take(gi as int)),
                                            lv.take(v as int),
                                            fresh,
                                        );
                                    }
                                }
                                if (a as int) >= r0.node_count() {
                                    assert(label_views(&result)[a as int] == fresh);
                                } else {
                                    assert(label_views(&result)[b as int] == fresh);
                                }
                                lemma_merged_count_zero(
                                    gs.take(gi as int),
                                    label_views(&result)[a as int],
                                    label_views(&result)[b as int],
                                );
                            }
                        }
                    }
                    id
                },
            };
            map_ids.push(slot);
            v += 1;
        }
        proof {
            assert(lv.take(gsize as int) =~= lv);
        }

        // Carry over every edge of `g`.
        let mut v2: usize = 0;
        while v2 < gsize
            invariant
                ng == gs.len(),
                gs == graphs@,
                forall|j: int| 0 <= j < gs.len() ==> (#[trigger] gs[j]).wf(),
                gi < ng,
                g == &gs[gi as int],
                g.wf(),
                lv == label_views(g),
                gsize == g.node_count(),
                v2 <= gsize,
                result.wf(),
                label_views(&result) == dedup_labels(
                    all_labels(gs.take(gi as int)) + lv,
                ),
                forall|a: int, b: int|
                    0 <= a < label_views(&result).len() && 0 <= b < label_views(&result).len()
                        ==> label_views(&result)[a] != label_views(&result)[b] || a == b,
                map_ids@.len() == gsize,
                forall|w: int|
                    0 <= w < gsize ==> (#[trigger] map_ids@[w]) < result.node_count()
                        && label_views(&result)[map_ids@[w] as int] == lv[w],
                forall|a: NodeId, b: NodeId|
                    (a as int) < result.node_count() && (b as int) < result.node_count() ==> (
                    #[trigger] result.has_edge(a as int, b as int) <==> merged_edge(
                        gs.take(gi as int),
                        label_views(&result)[a as int],
                        label_views(&result)[b as int],
                    ) || g_edge_upto(g, lv, label_views(&result)[a as int],
                        label_views(&result)[b as int],
                        v2 as int,
                        0,
                    )),
                forall|a: NodeId, b: NodeId|
                    (a as int) < result.node_count() && (b as int) < result.node_count()
                        ==> #[trigger] result.edge_count(a as int, b as int) == merged_edge_count(
                        gs.take(gi as int),
                        label_views(&result)[a as int],
                        label_views(&result)[b as int],
                    ) + g_label_cnt_rows(
                        g,
                        label_views(&result)[a as int],
                        label_views(&result)[b as int],
                        v2 as int,
                    ),
            decreases gsize - v2,
        {
            let deg = g.next(v2).len();
            let ghost row = g.adj()[v2 as int];
            let mut k: usize = 0;
            while k < deg
                invariant
                    ng == gs.len(),
                    gs == graphs@,
                    forall|j: int| 0 <= j < gs.len() ==> (#[trigger] gs[j]).wf(),
                    gi < ng,
                    g == &gs[gi as int],
                    g.wf(),
                    lv == label_views(g),
                    gsize == g.node_count(),
                    v2 < gsize,
                    row == g.adj()[v2 as int],
                    deg == row.len(),
                    k <= deg,
                    result.wf(),
                    label_views(&result) == dedup_labels(all_labels(gs.take(gi as int)) + lv),
                    forall|a: int, b: int|
                        0 <= a < label_views(&result).len() && 0 <= b < label_views(&result).len()
                            ==> label_views(&result)[a] != label_views(&result)[b] || a == b,
                    map_ids@.len() == gsize,
                    forall|w: int|
                        0 <= w < gsize ==> (#[trigger] map_ids@[w]) < result.node_count()
                            && label_views(&result)[map_ids@[w] as int] == lv[w],
                    forall|a: NodeId, b: NodeId|
                        (a as int) < result.node_count() && (b as int) < result.node_count() ==> (
                        #[trigger] result.has_edge(a as int, b as int) <==> merged_edge(
                            gs.take(gi as int),
                            label_views(&result)[a as int],
                            label_views(&result)[b as int],
                        ) || g_edge_upto(g, lv, label_views(&result)[a as int],
                            label_views(&result)[b as int],
                            v2 as int,
                            k as int,
                        )),
                    forall|a: NodeId, b: NodeId|
                        (a as int) < result.node_count() && (b as int) < result.node_count()
                            ==> #[trigger] result.edge_count(a as int, b as int)
                            == merged_edge_count(
                            gs.take(gi as int),
                            label_views(&result)[a as int],
                            label_views(&result)[b as int],
                        ) + g_label_cnt_rows(
                            g,
                            label_views(&result)[a as int],
                            label_views(&result)[b as int],
                            v2 as int,
                        ) + (if label_views(&result)[a as int] == lv[v2 as int] {
                            row_label_cnt(g, v2 as int, label_views(&result)[b as int], k as int)
                        } else {
                            0nat
                        }),
                decreases deg - k,
            {
                let x = g.next(v2)[k];
                let src = map_ids[v2];
                let dst = map_ids[x];
                let ghost rpre = result;
                result.add_edge(src, dst);
                proof {
                    assert(result.adj()[src as int] == rpre.adj()[src as int].push(dst));
                    assert(label_views(&result) =~= label_views(&rpre));
                    assert forall|a: NodeId, b: NodeId|
                        (a as int) < result.node_count() && (b as int)
                            < result.node_count() implies (#[trigger] result.has_edge(
                        a as int,
                        b as int,
                    ) <==> merged_edge(
                        gs.take(gi as int),
                        label_views(&result)[a as int],
                        label_views(&result)[b as int],
                    ) || g_edge_upto(g, lv, label_views(&result)[a as int],
                        label_views(&result)[b as int],
                        v2 as int,
                        k + 1,
                    )) by {
                        // The new edge and the newly exposed source edge
                        // carry the same label pair; everything else is
                        // unchanged.
                        assert(rpre.has_edge(a as int, b as int) <==> merged_edge(
                            gs.take(gi as int),
                            label_views(&rpre)[a as int],
                            label_views(&rpre)[b as int],
                        ) || g_edge_upto(g, lv, label_views(&rpre)[a as int],
                            label_views(&rpre)[b as int],
                            v2 as int,
                            k as int,
                        ));
                        if a == src && b == dst {
                            assert(result.adj()[a as int].contains(b)) by {
                                assert(result.adj()[a as int].last() == b);
                            }
                            assert(g_edge_upto(g, lv, lv[v2 as int], lv[x as int], v2 as int, k + 1))
                                by {
                                assert(g.adj()[v2 as int][k as int] == x);
                            }
                            assert(label_views(&result)[a as int] == lv[v2 as int]);
                            assert(label_views(&result)[b as int] == lv[x as int]);
                        } else {
                            if a != src {
                                assert(result.adj()[a as int] == rpre.adj()[a as int]);
                                assert(result.has_edge(a as int, b as int) == rpre.has_edge(
                                    a as int,
                                    b as int,
                                ));
                            } else {
                                assert(result.has_edge(a as int, b as int) == rpre.has_edge(
                                    a as int,
                                    b as int,
                                )) by {
                                    if result.adj()[a as int].contains(b) {
                                        let kk = choose|kk: int|
                                            0 <= kk < result.adj()[a as int].len()
                                                && result.adj()[a as int][kk] == b;
                                        assert(kk < result.adj()[a as int].len() - 1);
                                        assert(rpre.adj()[a as int][kk] == b);
                                    }
                                    if rpre.adj()[a as int].contains(b) {
                                        let kk = choose|kk: int|
                                            0 <= kk < rpre.adj()[a as int].len() && rpre.adj()[
                                            a as int][kk] == b;
                                        assert(result.adj()[a as int][kk] == b);
                                    }
                                }
                            }
                            assert(g_edge_upto(g, lv, label_views(&result)[a as int],
                                label_views(&result)[b as int],
                                v2 as int,
                                k + 1,
                            ) == g_edge_upto(g, lv, label_views(&result)[a as int],
                                label_views(&result)[b as int],
                                v2 as int,
                                k as int,
                            )) by {
                                if g_edge_upto(g, lv, label_views(&result)[a as int],
                                    label_views(&result)[b as int],
                                    v2 as int,
                                    k + 1,
                                ) {
                                    let (u3, k3) = choose|u3: NodeId, k3: int|
                                        #![trigger g.adj()[u3 as int][k3]]
                                        (u3 as int) < g.node_count() && 0 <= k3 < g.adj()[
                                        u3 as int].len() && ((u3 as int) < v2 as int || ((
                                        u3 as int) == v2 as int && k3 < k + 1)) && lv[u3 as int]
                                            == label_views(&result)[a as int] && lv[g.adj()[
                                        u3 as int][k3] as int] == label_views(&result)[b as int];
                                    if u3 == v2 && k3 == k as int {
                                        // That edge is the one just added,
                                        // whose labels name a and b uniquely.
                                        assert(label_views(&result)[map_ids@[u3 as int] as int]
                                            == lv[u3 as int]);
                                        assert(a as int == map_ids@[u3 as int] as int);
                                        assert(b as int == map_ids@[g.adj()[u3 as int][k3] as int]
                                            as int);
                                        assert(false);
                                    }
                                }
                            }
                        }
                    }
                    // Edge counts: the one new edge matches the one newly
                    // counted source edge, under the same label pair.
                    assert(result.adj()[src as int].to_multiset() =~= rpre.adj()[
                        src as int].to_multiset().insert(dst));
                    assert(g.adj()[v2 as int][k as int] == x);
                    assert forall|a: NodeId, b: NodeId|
                        (a as int) < result.node_count() && (b as int)
                            < result.node_count() implies #[trigger] result.edge_count(
                        a as int,
                        b as int,
                    ) == merged_edge_count(
                        gs.take(gi as int),
                        label_views(&result)[a as int],
                        label_views(&result)[b as int],
                    ) + g_label_cnt_rows(
                        g,
                        label_views(&result)[a as int],
                        label_views(&result)[b as int],
                        v2 as int,
                    ) + (if label_views(&result)[a as int] == lv[v2 as int] {
                        row_label_cnt(g, v2 as int, label_views(&result)[b as int], k + 1)
                    } else {
                        0nat
                    }) by {
                        assert(rpre.edge_count(a as int, b as int) == merged_edge_count(
                            gs.take(gi as int),
                            label_views(&rpre)[a as int],
                            label_views(&rpre)[b as int],
                        ) + g_label_cnt_rows(
                            g,
                            label_views(&rpre)[a as int],
                            label_views(&rpre)[b as int],
                            v2 as int,
                        ) + (if label_views(&rpre)[a as int] == lv[v2 as int] {
                            row_label_cnt(g, v2 as int, label_views(&rpre)[b as int], k as int)
                        } else {
                            0nat
                        }));
                        assert(row_label_cnt(g, v2 as int, label_views(&result)[b as int], k + 1)
                            == row_label_cnt(
                            g,
                            v2 as int,
                            label_views(&result)[b as int],
                            k as int,
                        ) + (if label_views(g)[x as int] == label_views(&result)[b as int] {
                            1nat
                        } else {
                            0nat
                        }));
                        if a == src && b == dst {
                            assert(result.edge_count(a as int, b as int) == rpre.edge_count(
                                a as int,
                                b as int,
                            ) + 1);
                            assert(label_views(&result)[a as int] == lv[v2 as int]);
                            assert(label_views(&result)[b as int] == lv[x as int]);
                            assert(label_views(g)[x as int] == lv[x as int]);
                        } else if a == src {
                            assert(result.edge_count(a as int, b as int) == rpre.edge_count(
                                a as int,
                                b as int,
                            ));
                            // b carries a different label than the target.
                            assert(label_views(&result)[dst as int] == lv[x as int]);
                            assert(label_views(&result)[b as int] != lv[x as int]);
                        } else {
                            assert(result.adj()[a as int] == rpre.adj()[a as int]);
                            assert(result.edge_count(a as int, b as int) == rpre.edge_count(
                                a as int,
                                b as int,
                            ));
                            // a carries a different label than the source.
                            assert(label_views(&result)[src as int] == lv[v2 as int]);
                            assert(label_views(&result)[a as int] != lv[v2 as int]);
                        }
                    }
                }
                k += 1;
            }
            proof {
                assert forall|a: NodeId, b: NodeId|
                    (a as int) < result.node_count() && (b as int) < result.node_count() implies (
                g_edge_upto(g, lv, label_views(&result)[a as int], label_views(&result)[b as int],
                    v2 as int,
                    deg as int,
                ) == g_edge_upto(g, lv, label_views(&result)[a as int],
                    label_views(&result)[b as int],
                    v2 + 1,
                    0,
                )) by {}
                // Fold the finished row into the per-row edge count.
                assert forall|a: NodeId, b: NodeId|
                    (a as int) < result.node_count() && (b as int)
                        < result.node_count() implies g_label_cnt_rows(
                    g,
                    label_views(&result)[a as int],
                    label_views(&result)[b as int],
                    v2 + 1,
                ) == g_label_cnt_rows(
                    g,
                    label_views(&result)[a as int],
                    label_views(&result)[b as int],
                    v2 as int,
                ) + (if label_views(&result)[a as int] == lv[v2 as int] {
                    row_label_cnt(g, v2 as int, label_views(&result)[b as int], deg as int)
                } else {
                    0nat
                }) by {
                    assert(label_views(g)[v2 as int] == lv[v2 as int]);
                    assert(g.adj()[v2 as int].len() == deg);
                }
            }
            v2 += 1;
        }
        proof {
            assert(all_labels(gs.take(gi + 1)) =~= all_labels(gs.take(gi as int)) + lv);
            assert forall|a: NodeId, b: NodeId|
                (a as int) < result.node_count() && (b as int) < result.node_count() implies (
            #[trigger] result.has_edge(a as int, b as int) <==> merged_edge(gs.take(gi + 1),
                label_views(&result)[a as int],
                label_views(&result)[b as int],
            )) by {
                lemma_merged_edge_snoc(gs.take(gi + 1), label_views(&result)[a as int],
                    label_views(&result)[b as int],
                );
                assert(g_edge_upto(g, lv, label_views(&result)[a as int],
                    label_views(&result)[b as int],
                    gsize as int,
                    0,
                ) == g_has_label_edge(g, label_views(&result)[a as int],
                    label_views(&result)[b as int],
                ));
            }
            assert forall|a: NodeId, b: NodeId|
                (a as int) < result.node_count() && (b as int)
                    < result.node_count() implies #[trigger] result.edge_count(a as int, b as int)
                == merged_edge_count(gs.take(gi + 1),
                label_views(&result)[a as int],
                label_views(&result)[b as int],
            ) by {
                assert(gs.take(gi + 1).last() == gs[gi as int]);
                assert(merged_edge_count(gs.take(gi + 1),
                    label_views(&result)[a as int],
                    label_views(&result)[b as int],
                ) == merged_edge_count(gs.take(gi as int),
                    label_views(&result)[a as int],
                    label_views(&result)[b as int],
                ) + g_label_edge_count(
                    g,
                    label_views(&result)[a as int],
                    label_views(&result)[b as int],
                ));
            }
        }
        gi += 1;
    }
    proof {
        assert(gs.take(ng as int) =~= gs);
    }
    result
}

/// An edge of `g` among those processed so far (rows before `v_lim`, then
/// the first `k_lim` entries of row `v_lim`) carries this label pair.
pub open spec fn g_edge_upto(
    g: &TypedGraph<String>,
    lv: Seq<Seq<char>>,
    la: Seq<char>,
    lb: Seq<char>,
    v_lim: int,
    k_lim: int,
) -> bool {
    exists|u: NodeId, k: int|
        #![trigger g.adj()[u as int][k]]
        (u as int) < g.node_count() && 0 <= k < g.adj()[u as int].len() && ((u as int) < v_lim || (
        (u as int) == v_lim && k < k_lim)) && lv[u as int] == la && lv[g.adj()[u as int][k] as int]
            == lb
}

/// Some edge of `g` carries this label pair.
pub open spec fn g_has_label_edge(g: &TypedGraph<String>, la: Seq<char>, lb: Seq<char>) -> bool {
    exists|u: NodeId, k: int|
        #![trigger g.adj()[u as int][k]]
        (u as int) < g.node_count() && 0 <= k < g.adj()[u as int].len() && label_views(g)[u as int]
            == la && label_views(g)[g.adj()[u as int][k] as int] == lb
}

proof fn lemma_merged_edge_snoc(gs: Seq<TypedGraph<String>>, la: Seq<char>, lb: Seq<char>)
    requires
        gs.len() > 0,
        forall|j: int| 0 <= j < gs.len() ==> (#[trigger] gs[j]).wf(),
    ensures
        merged_edge(gs, la, lb) == (merged_edge(gs.drop_last(), la, lb) || g_has_label_edge(
            &gs.last(),
            la,
            lb,
        )),
{
    if merged_edge(gs, la, lb) {
        let (gj, u, v) = choose|gj: int, u: NodeId, v: NodeId|
            0 <= gj < gs.len() && (u as int) < gs[gj].node_count() && (v as int)
                < gs[gj].node_count() && (#[trigger] gs[gj].has_edge(u as int, v as int))
                && label_views(&gs[gj])[u as int] == la && label_views(&gs[gj])[v as int] == lb;
        if gj < gs.len() - 1 {
            assert(gs.drop_last()[gj].has_edge(u as int, v as int));
            assert(merged_edge(gs.drop_last(), la, lb));
        } else {
            let kk = choose|kk: int|
                0 <= kk < gs[gj].adj()[u as int].len() && gs[gj].adj()[u as int][kk] == v;
            assert(gs.last().adj()[u as int][kk] == v);
            assert(g_has_label_edge(&gs.last(), la, lb));
        }
    }
    if merged_edge(gs.drop_last(), la, lb) {
        let (gj, u, v) = choose|gj: int, u: NodeId, v: NodeId|
            0 <= gj < gs.drop_last().len() && (u as int) < gs.drop_last()[gj].node_count() && (
            v as int) < gs.drop_last()[gj].node_count() && (#[trigger] gs.drop_last()[gj].has_edge(
                u as int,
                v as int,
            )) && label_views(&gs.drop_last()[gj])[u as int] == la && label_views(
                &gs.drop_last()[gj],
            )[v as int] == lb;
        assert(gs[gj].has_edge(u as int, v as int));
        assert(merged_edge(gs, la, lb));
    }
    if g_has_label_edge(&gs.last(), la, lb) {
        let (u, k) = choose|u: NodeId, k: int|
            #![trigger gs.last().adj()[u as int][k]]
            (u as int) < gs.last().node_count() && 0 <= k < gs.last().adj()[u as int].len()
                && label_views(&gs.last())[u as int] == la && label_views(&gs.last())[gs.last().adj()[
            u as int][k] as int] == lb;
        let x = gs.last().adj()[u as int][k];
        assert(gs[gs.len() - 1].has_edge(u as int, x as int)) by {
            assert(gs.last().adj()[u as int].contains(x));
        }
        assert(merged_edge(gs, la, lb));
    }
}

/// Number of edges among the first `k_lim` entries of row `u` of `g`
/// whose target carries label `lb`.
pub open spec fn row_label_cnt(g: &TypedGraph<String>, u: int, lb: Seq<char>, k_lim: int) -> nat
    decreases k_lim,
{
    if k_lim <= 0 {
        0
    } else {
        row_label_cnt(g, u, lb, k_lim - 1) + (if label_views(g)[g.adj()[u][k_lim - 1] as int]
            == lb {
            1nat
        } else {
            0nat
        })
    }
}

/// Edges of `g` from nodes labelled `la` to nodes labelled `lb`, counting
/// parallel edges, over the rows below `v_lim`.
pub open spec fn g_label_cnt_rows(
    g: &TypedGraph<String>,
    la: Seq<char>,
    lb: Seq<char>,
    v_lim: int,
) -> nat
    decreases v_lim,
{
    if v_lim <= 0 {
        0
    } else {
        g_label_cnt_rows(g, la, lb, v_lim - 1) + (if label_views(g)[v_lim - 1] == la {
            row_label_cnt(g, v_lim - 1, lb, g.adj()[v_lim - 1].len() as int)
        } else {
            0nat
        })
    }
}

/// Edges of `g` between nodes labelled `la` and `lb`, counting parallel
/// edges.
pub open spec fn g_label_edge_count(g: &TypedGraph<String>, la: Seq<char>, lb: Seq<char>) -> nat {
    g_label_cnt_rows(g, la, lb, g.node_count() as int)
}

/// Edges between these two labels, summed over all input graphs.
pub open spec fn merged_edge_count(gs: Seq<TypedGraph<String>>, la: Seq<char>, lb: Seq<char>) -> nat
    decreases gs.len(),
{
    if gs.len() == 0 {
        0
    } else {
        merged_edge_count(gs.drop_last(), la, lb) + g_label_edge_count(&gs.last(), la, lb)
    }
}

proof fn lemma_row_label_cnt_zero(g: &TypedGraph<String>, u: int, lb: Seq<char>, k_lim: int)
    requires
        g.wf(),
        0 <= u < g.node_count(),
        !label_views(g).contains(lb),
        0 <= k_lim <= g.adj()[u].len(),
    ensures
        row_label_cnt(g, u, lb, k_lim) == 0,
    decreases k_lim,
{
    if k_lim > 0 {
        lemma_row_label_cnt_zero(g, u, lb, k_lim - 1);
        let t = g.adj()[u][k_lim - 1];
        assert((t as int) < g.node_count());
        if label_views(g)[t as int] == lb {
            assert(label_views(g).contains(lb)) by {
                assert(label_views(g)[t as int] == lb);
            }
            assert(false);
        }
    }
}

proof fn lemma_g_label_rows_zero(g: &TypedGraph<String>, la: Seq<char>, lb: Seq<char>, v_lim: int)
    requires
        g.wf(),
        !label_views(g).contains(la) || !label_views(g).contains(lb),
        0 <= v_lim <= g.node_count(),
    ensures
        g_label_cnt_rows(g, la, lb, v_lim) == 0,
    decreases v_lim,
{
    if v_lim > 0 {
        lemma_g_label_rows_zero(g, la, lb, v_lim - 1);
        if label_views(g)[v_lim - 1] == la {
            assert(label_views(g).contains(la)) by {
                assert(label_views(g)[v_lim - 1] == la);
            }
            lemma_row_label_cnt_zero(g, v_lim - 1, lb, g.adj()[v_lim - 1].len() as int);
        }
    }
}

/// A label pair of which one half occurs in no input graph counts no
/// merged edges.
proof fn lemma_merged_count_zero(gs: Seq<TypedGraph<String>>, la: Seq<char>, lb: Seq<char>)
    requires
        forall|j: int| 0 <= j < gs.len() ==> (#[trigger] gs[j]).wf(),
        !all_labels(gs).contains(la) || !all_labels(gs).contains(lb),
    ensures
        merged_edge_count(gs, la, lb) == 0,
    decreases gs.len(),
{
    if gs.len() > 0 {
        let missing = if !all_labels(gs).contains(la) {
            la
        } else {
            lb
        };
        assert(!label_views(&gs.last()).contains(missing)) by {
            if label_views(&gs.last()).contains(missing) {
                let i = choose|i: int|
                    0 <= i < label_views(&gs.last()).len() && label_views(&gs.last())[i] == missing;
                assert(all_labels(gs)[all_labels(gs.drop_last()).len() + i] == missing);
                assert(all_labels(gs).contains(missing));
            }
        }
        assert(!all_labels(gs.drop_last()).contains(missing)) by {
            if all_labels(gs.drop_last()).contains(missing) {
                lemma_concat_contains_left(
                    all_labels(gs.drop_last()),
                    label_views(&gs.last()),
                    missing,
                );
            }
        }
        assert(gs.last().wf()) by {
            assert(gs[gs.len() - 1].wf());
        }
        lemma_g_label_rows_zero(&gs.last(), la, lb, gs.last().node_count() as int);
        assert(forall|j: int| 0 <= j < gs.drop_last().len() ==> (#[trigger] gs.drop_last()[j]).wf())
            by {
            assert(forall|j: int|
                0 <= j < gs.drop_last().len() ==> #[trigger] gs.drop_last()[j] == gs[j]);
        }
        lemma_merged_count_zero(gs.drop_last(), la, lb);
    }
}

/// The label of any node of any member graph occurs in the concatenation.
proof fn lemma_all_labels_contains(gs: Seq<TypedGraph<String>>, gj: int, i: int)
    requires
        0 <= gj < gs.len(),
        0 <= i < label_views(&gs[gj]).len(),
    ensures
        all_labels(gs).contains(label_views(&gs[gj])[i]),
    decreases gs.len(),
{
    broadcast use vstd::seq_lib::group_seq_properties;

    if gj == gs.len() - 1 {
        assert(label_views(&gs.last()).contains(label_views(&gs[gj])[i])) by {
            assert(label_views(&gs.last())[i] == label_views(&gs[gj])[i]);
        }
    } else {
        lemma_all_labels_contains(gs.drop_last(), gj, i);
        assert(gs.drop_last()[gj] == gs[gj]);
    }
}

proof fn lemma_concat_contains_left(a: Seq<Seq<char>>, b: Seq<Seq<char>>, x: Seq<char>)
    requires
        a.contains(x),
    ensures
        (a + b).contains(x),
{
    let i = choose|i: int| 0 <= i < a.len() && a[i] == x;
    assert((a + b)[i] == x);
}

} // verus!
