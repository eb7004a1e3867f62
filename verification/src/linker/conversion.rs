//! Conversion between the symbol model and the graph abstraction: a graph
//! node per function in table order, a graph edge per resolved call-site
//! reference.

use vstd::prelude::*;

verus! {

use crate::graph::{TypedGraph, NodeId};
use crate::linker::object_file::{ObjectFile, SymPtr, fun_targets, find_fun, lemma_find_fun};
use crate::linker::symbol::{FCall, Function, PtsTo};

/// The callee denotes a function or a points-to set.
pub open spec fn callee_ok(c: FCall<SymPtr>) -> bool {
    c.callee matches SymPtr::F(_) || c.callee matches SymPtr::P(_)
}

/// The callsite, when present, names a function.
pub open spec fn callsite_ok(c: FCall<SymPtr>) -> bool {
    match c.callsite {
        Some(p) => p matches SymPtr::F(_),
        None => true,
    }
}

/// The edges one call contributes to adjacency row `u`: the resolved
/// function targets of its callee when its callsite is function `u`,
/// nothing otherwise.  An orphan call (no callsite) contributes nowhere.
pub open spec fn call_row_part(c: FCall<SymPtr>, pts: Seq<PtsTo<SymPtr>>, u: int) -> Seq<NodeId> {
    if c.callsite == Some(SymPtr::F(u as NodeId)) {
        match c.callee {
            SymPtr::F(i) => seq![i],
            SymPtr::P(i) => fun_targets(pts[i as int].points_to@),
            _ => Seq::empty(),
        }
    } else {
        Seq::empty()
    }
}

/// Adjacency row `u` of the synthesized call graph: the contributions of
/// every call, in table order.
pub open spec fn calls_row(calls: Seq<FCall<SymPtr>>, pts: Seq<PtsTo<SymPtr>>, u: int) -> Seq<
    NodeId,
>
    decreases calls.len(),
{
    if calls.len() == 0 {
        Seq::empty()
    } else {
        calls_row(calls.drop_last(), pts, u) + call_row_part(calls.last(), pts, u)
    }
}

proof fn lemma_fun_targets_bound(s: Seq<SymPtr>, bound: nat)
    requires
        forall|k: int|
            0 <= k < s.len() ==> match #[trigger] s[k] {
                SymPtr::F(j) => j < bound,
                _ => true,
            },
    ensures
        forall|t: int| 0 <= t < fun_targets(s).len() ==> (#[trigger] fun_targets(s)[t]) < bound,
    decreases s.len(),
{
    if s.len() > 0 {
        assert(forall|k: int| 0 <= k < s.len() - 1 ==> #[trigger] s.drop_last()[k] == s[k]);
        lemma_fun_targets_bound(s.drop_last(), bound);
        assert forall|t: int|
            0 <= t < fun_targets(s).len() implies (#[trigger] fun_targets(s)[t]) < bound by {
            match s.last() {
                SymPtr::F(j) => {
                    assert(j < bound);
                    if t < fun_targets(s).len() - 1 {
                        assert(fun_targets(s)[t] == fun_targets(s.drop_last())[t]);
                    }
                },
                _ => {
                    assert(fun_targets(s)[t] == fun_targets(s.drop_last())[t]);
                },
            }
        }
    }
}

/// Builds the call graph of an object file: one node per function, in
/// table order, labelled with its name; for every call whose callsite is a
/// function, one edge from the caller to each function its callee can
/// denote.  Orphan calls contribute no edges.
#[verifier::loop_isolation(false)]
pub fn to_graph(of: &ObjectFile) -> (r: TypedGraph<String>)
    requires
        of.wf(),
        forall|c: int|
            0 <= c < of.calls@.len() ==> callee_ok(#[trigger] of.calls@[c]) && callsite_ok(
                of.calls@[c],
            ),
    ensures
        r.wf(),
        r.node_count() == of.functions@.len(),
        forall|i: int| 0 <= i < of.functions@.len() ==> (#[trigger] r.labels()[i])@
            == of.fnames()[i],
        forall|u: int|
            0 <= u < of.functions@.len() ==> #[trigger] r.adj()[u] == calls_row(
                of.calls@,
                of.points_to@,
                u,
            ),
{
    let ghost n = of.functions@.len();
    let nf = of.functions.len();
    let mut labels: Vec<String> = Vec::new();
    let mut i: usize = 0;
    while i < nf
        invariant
            i <= nf,
            labels@.len() == i,
            forall|j: int| 0 <= j < i ==> (#[trigger] labels@[j])@ == of.fnames()[j],
        decreases nf - i,
    {
        labels.push(of.functions[i].get_name().clone());
        i += 1;
    }
    let mut g = TypedGraph::<String>::new_with_mapping(labels);
    let ghost pts = of.points_to@;
    let nc = of.calls.len();
    let mut c: usize = 0;
    proof {
        assert forall|u: int| 0 <= u < n implies #[trigger] g.adj()[u] == calls_row(
            of.calls@.take(0),
            pts,
            u,
        ) by {
            assert(of.calls@.take(0) =~= Seq::<FCall<SymPtr>>::empty());
            assert(g.adj()[u] =~= Seq::<NodeId>::empty());
        }
    }
    while c < nc
        invariant
            c <= nc,
            g.wf(),
            g.node_count() == n,
            g.labels().len() == n,
            forall|j: int| 0 <= j < n ==> (#[trigger] g.labels()[j])@ == of.fnames()[j],
            forall|u: int|
                0 <= u < n ==> #[trigger] g.adj()[u] == calls_row(of.calls@.take(c as int), pts, u),
        decreases nc - c,
    {
        let ghost call = of.calls@[c as int];
        proof {
            assert(of.calls@.take(c + 1).drop_last() =~= of.calls@.take(c as int));
            assert(of.calls@.take(c + 1).last() == call);
            assert(of.call_valid(call));
        }
        let callsite = match &of.calls[c].callsite {
            Some(p) => match p {
                SymPtr::F(cs) => Some(*cs),
                _ => None,
            },
            None => None,
        };
        match callsite {
            Some(cs) => {
                let callee = of.calls[c].callee;
                let targets = of.get_referenced_functions(callee);
                proof {
                    match callee {
                        SymPtr::F(fi) => {
                            assert(targets@ =~= seq![fi]);
                        },
                        SymPtr::P(pi) => {
                            assert(of.points_to_valid(of.points_to@[pi as int]));
                            lemma_fun_targets_bound(of.points_to@[pi as int].points_to@, n);
                        },
                        _ => {
                            assert(false);
                        },
                    }
                    assert(targets@ == call_row_part(call, pts, cs as int));
                }
                let nt = targets.len();
                let mut t: usize = 0;
                proof {
                    assert(g.adj()[cs as int] + targets@.take(0) =~= g.adj()[cs as int]);
                }
                let ghost row0 = g.adj()[cs as int];
                while t < nt
                    invariant
                        cs < n,
                        t <= nt,
                        nt == targets@.len(),
                        forall|k: int| 0 <= k < targets@.len() ==> (#[trigger] targets@[k]) < n,
                        g.wf(),
                        g.node_count() == n,
                        g.labels().len() == n,
                        forall|j: int| 0 <= j < n ==> (#[trigger] g.labels()[j])@
                            == of.fnames()[j],
                        forall|u: int|
                            0 <= u < n && u != cs ==> #[trigger] g.adj()[u] == calls_row(
                                of.calls@.take(c as int),
                                pts,
                                u,
                            ),
                        g.adj()[cs as int] == row0 + targets@.take(t as int),
                        row0 == calls_row(of.calls@.take(c as int), pts, cs as int),
                    decreases nt - t,
                {
                    let x = targets[t];
                    let ghost gpre = g;
                    g.add_edge(cs, x);
                    proof {
                        assert(targets@.take(t + 1) =~= targets@.take(t as int).push(
                            targets@[t as int],
                        ));
                        assert(g.adj()[cs as int] =~= row0 + targets@.take(t + 1));
                        assert forall|u: int| 0 <= u < n && u != cs implies #[trigger] g.adj()[u]
                            == calls_row(of.calls@.take(c as int), pts, u) by {
                            assert(g.adj()[u] == gpre.adj()[u]);
                        }
                    }
                    t += 1;
                }
                proof {
                    assert(targets@.take(nt as int) =~= targets@);
                    assert forall|u: int| 0 <= u < n implies #[trigger] g.adj()[u] == calls_row(
                        of.calls@.take(c + 1),
                        pts,
                        u,
                    ) by {
                        if u == cs {
                            assert(g.adj()[u] == row0 + targets@);
                        } else {
                            assert(call_row_part(call, pts, u) =~= Seq::<NodeId>::empty());
                            assert(calls_row(of.calls@.take(c + 1), pts, u) =~= calls_row(
                                of.calls@.take(c as int),
                                pts,
                                u,
                            ));
                        }
                    }
                }
            },
            None => {
                proof {
                    assert forall|u: int| 0 <= u < n implies #[trigger] g.adj()[u] == calls_row(
                        of.calls@.take(c + 1),
                        pts,
                        u,
                    ) by {
                        assert(call_row_part(call, pts, u) =~= Seq::<NodeId>::empty());
                        assert(calls_row(of.calls@.take(c + 1), pts, u) =~= calls_row(
                            of.calls@.take(c as int),
                            pts,
                            u,
                        ));
                    }
                }
            },
        }
        c += 1;
    }
    proof {
        assert(of.calls@.take(nc as int) =~= of.calls@);
    }
    g
}

/// The edges of a graph as `(source, target)` pairs, rows in node order.
pub open spec fn edge_pairs<T>(adj: Seq<Seq<NodeId>>, upto: int) -> Seq<(NodeId, NodeId)>
    decreases upto,
{
    if upto <= 0 {
        Seq::empty()
    } else {
        edge_pairs::<T>(adj, upto - 1) + adj[upto - 1].map_values(
            |x: NodeId| (((upto - 1) as NodeId), x),
        )
    }
}

/// Builds the object file of a call graph: one internal function per node,
/// named by its label, and one call per edge, the callsite being the edge's
/// source and the callee its target.  Labels must be distinct, so that
/// nodes and functions correspond one to one.
#[verifier::loop_isolation(false)]
pub fn from_graph(g: &TypedGraph<String>) -> (r: ObjectFile)
    requires
        g.wf(),
        forall|a: int, b: int|
            0 <= a < b < g.node_count() ==> (#[trigger] g.labels()[a])@ != (
            #[trigger] g.labels()[b])@,
    ensures
        r.wf(),
        r.functions@.len() == g.node_count(),
        forall|i: int| 0 <= i < g.node_count() ==> #[trigger] r.fnames()[i] == g.labels()[i]@,
        forall|i: int| 0 <= i < g.node_count() ==> !(#[trigger] r.fexts()[i]),
        r.objects@.len() == 0,
        r.points_to@.len() == 0,
        ({
            let pairs = edge_pairs::<String>(g.adj(), g.node_count() as int);
            &&& r.calls@.len() == pairs.len()
            &&& forall|k: int|
                0 <= k < pairs.len() ==> {
                    let ck = #[trigger] r.calls@[k];
                    &&& ck.callee == SymPtr::F(pairs[k].1)
                    &&& ck.callsite == Some(SymPtr::F(pairs[k].0))
                    &&& ck.arguments@.len() == 0
                }
        }),
{
    let ghost n = g.node_count();
    let size = g.size();
    let mut of = ObjectFile::new();
    let mut v: usize = 0;
    while v < size
        invariant
            v <= size,
            of.wf(),
            of.functions@.len() == v,
            of.objects@.len() == 0,
            of.points_to@.len() == 0,
            of.calls@.len() == 0,
            forall|i: int| 0 <= i < v ==> #[trigger] of.fnames()[i] == g.labels()[i]@,
            forall|i: int| 0 <= i < v ==> !(#[trigger] of.fexts()[i]),
        decreases size - v,
    {
        let name = g.mapping()[v].clone();
        let f = Function::new(name, false);
        proof {
            lemma_find_fun(of.fnames(), f.spec_name());
            if find_fun(of.fnames(), f.spec_name()) >= 0 {
                let j = find_fun(of.fnames(), f.spec_name());
                assert(of.fnames()[j] == g.labels()[v as int]@);
                assert(g.labels()[j]@ == g.labels()[v as int]@);
                assert(false);
            }
        }
        let ghost pre = of;
        let _ = of.add_function(f);
        proof {
            assert(of.functions@ == pre.functions@.push(f));
            assert(of.fnames() =~= pre.fnames().push(f.spec_name()));
            assert(of.fexts() =~= pre.fexts().push(false));
        }
        v += 1;
    }
    let mut u: usize = 0;
    proof {
        assert(edge_pairs::<String>(g.adj(), 0) =~= Seq::<(NodeId, NodeId)>::empty());
    }
    while u < size
        invariant
            u <= size,
            of.wf(),
            of.functions@.len() == n,
            of.objects@.len() == 0,
            of.points_to@.len() == 0,
            forall|i: int| 0 <= i < n ==> #[trigger] of.fnames()[i] == g.labels()[i]@,
            forall|i: int| 0 <= i < n ==> !(#[trigger] of.fexts()[i]),
            ({
                let pairs = edge_pairs::<String>(g.adj(), u as int);
                &&& of.calls@.len() == pairs.len()
                &&& forall|k: int|
                    0 <= k < pairs.len() ==> {
                        let ck = #[trigger] of.calls@[k];
                        &&& ck.callee == SymPtr::F(pairs[k].1)
                        &&& ck.callsite == Some(SymPtr::F(pairs[k].0))
                        &&& ck.arguments@.len() == 0
                    }
            }),
        decreases size - u,
    {
        let ghost row = g.adj()[u as int];
        let ghost row_pairs = row.map_values(|x: NodeId| ((u as NodeId), x));
        let deg = g.next(u).len();
        let mut k: usize = 0;
        while k < deg
            invariant
                u < size,
                k <= deg,
                row == g.adj()[u as int],
                row_pairs == row.map_values(|x: NodeId| ((u as NodeId), x)),
                deg == row.len(),
                of.wf(),
                of.functions@.len() == n,
                of.objects@.len() == 0,
                of.points_to@.len() == 0,
                forall|i: int| 0 <= i < n ==> #[trigger] of.fnames()[i] == g.labels()[i]@,
                forall|i: int| 0 <= i < n ==> !(#[trigger] of.fexts()[i]),
                ({
                    let pairs = edge_pairs::<String>(g.adj(), u as int) + row_pairs.take(k as int);
                    &&& of.calls@.len() == pairs.len()
                    &&& forall|kk: int|
                        0 <= kk < pairs.len() ==> {
                            let ck = #[trigger] of.calls@[kk];
                            &&& ck.callee == SymPtr::F(pairs[kk].1)
                            &&& ck.callsite == Some(SymPtr::F(pairs[kk].0))
                            &&& ck.arguments@.len() == 0
                        }
                }),
            decreases deg - k,
        {
            let x = g.next(u)[k];
            let fc = FCall::new_with_callsite(SymPtr::F(x), Vec::new(), SymPtr::F(u));
            proof {
                assert(of.call_valid(fc));
            }
            let ghost ofpre = of;
            let _ = of.add_fcall(fc);
            proof {
                assert(of.fnames() =~= ofpre.fnames());
                assert(of.fexts() =~= ofpre.fexts());
                assert(row_pairs.take(k + 1) =~= row_pairs.take(k as int).push(
                    row_pairs[k as int],
                ));
                assert(row_pairs[k as int] == ((u as NodeId), row[k as int]));
                assert((edge_pairs::<String>(g.adj(), u as int) + row_pairs.take(k + 1)) =~= (
                edge_pairs::<String>(g.adj(), u as int) + row_pairs.take(k as int)).push(
                    row_pairs[k as int],
                ));
            }
            k += 1;
        }
        proof {
            assert(row_pairs.take(deg as int) =~= row_pairs);
            assert(edge_pairs::<String>(g.adj(), u + 1) =~= edge_pairs::<String>(g.adj(), u as int)
                + row_pairs);
        }
        u += 1;
    }
    of
}

} // verus!
