//! Engine-wide laws, proved from the sampling contracts alone.

use vstd::prelude::*;

use crate::graph::{
    contains_id, edge_ids, edge_views, edges_with_id_views, has_id, induced_edge_views,
    lemma_edges_with_ids_entries, lemma_induced_entries, node_ids, EdgeView, GraphEdge,
    GraphNode, SampleResult,
};
use crate::graph::{insert_unique, lemma_resolvable_ids_distinct, resolvable_ids, resolves};
use crate::sampling::{
    connects_sampled, frontier_expand, frontier_post, frontier_visit, is_selection,
    random_sample_post, walk_post,
};
use crate::adjacency::{incident_list, lemma_incident_list_push};

verus! {

/// Law: a uniform sample holds exactly `min(count, |nodes|)` nodes; when the
/// input node identifiers are unique no two output nodes share an
/// identifier; and every output edge's source and target identifiers are
/// both among the output nodes' identifiers.
pub proof fn lemma_random_sample_shape(
    nodes: Seq<GraphNode>,
    edges: Seq<GraphEdge>,
    count: int,
    r: SampleResult,
)
    requires
        random_sample_post(nodes, edges, count, r),
        node_ids(nodes).no_duplicates(),
    ensures
        r.sampled_nodes@.len() == vstd::math::min(count, nodes.len() as int),
        node_ids(r.sampled_nodes@).no_duplicates(),
        forall|k: int|
            0 <= k < r.sampled_edges@.len() ==> contains_id(
                node_ids(r.sampled_nodes@),
                (#[trigger] r.sampled_edges@[k]).source@,
            ) && contains_id(node_ids(r.sampled_nodes@), r.sampled_edges@[k].target@),
{
    let out = r.sampled_nodes@;
    let sel = choose|sel: Seq<int>| is_selection(sel, nodes, out);
    assert forall|k1: int, k2: int|
        0 <= k1 < k2 < node_ids(out).len() implies node_ids(out)[k1] != node_ids(out)[k2] by {
        assert(out[k1]@ == nodes[sel[k1]]@ && out[k2]@ == nodes[sel[k2]]@);
        assert(node_ids(nodes)[sel[k1]] != node_ids(nodes)[sel[k2]]);
    }
    let oute = r.sampled_edges@;
    lemma_induced_entries(edge_views(edges), node_ids(out));
    assert forall|k: int| 0 <= k < oute.len() implies contains_id(
        node_ids(out),
        (#[trigger] oute[k]).source@,
    ) && contains_id(node_ids(out), oute[k].target@) by {
        assert(edge_views(oute)[k] == oute[k]@);
    }
}

/// Two identifier lists holding the same identifiers induce the same edges.
proof fn lemma_induced_same_ids(edges: Seq<EdgeView>, ids1: Seq<Seq<char>>, ids2: Seq<Seq<char>>)
    requires
        forall|x: Seq<char>| #[trigger] contains_id(ids1, x) == contains_id(ids2, x),
    ensures
        induced_edge_views(edges, ids1) == induced_edge_views(edges, ids2),
    decreases edges.len(),
{
    if edges.len() > 0 {
        lemma_induced_same_ids(edges.drop_last(), ids1, ids2);
        assert(contains_id(ids1, edges.last().source) == contains_id(ids2, edges.last().source));
        assert(contains_id(ids1, edges.last().target) == contains_id(ids2, edges.last().target));
    }
}

/// Law: a uniform sample with `count == 0` is empty.
pub proof fn lemma_random_sample_empty(nodes: Seq<GraphNode>, edges: Seq<GraphEdge>, r: SampleResult)
    requires
        random_sample_post(nodes, edges, 0, r),
    ensures
        r.sampled_nodes@.len() == 0,
        r.sampled_edges@.len() == 0,
{
    lemma_induced_entries(edge_views(edges), node_ids(r.sampled_nodes@));
    if r.sampled_edges@.len() > 0 {
        assert(edge_views(r.sampled_edges@)[0] == r.sampled_edges@[0]@);
        assert(contains_id(node_ids(r.sampled_nodes@), r.sampled_edges@[0]@.source));
    }
}

/// Law: a uniform sample with `count >= |nodes|` returns every node (each
/// input node's identifier appears) and exactly the edges induced by the
/// full input identifier set.
pub proof fn lemma_random_sample_all(
    nodes: Seq<GraphNode>,
    edges: Seq<GraphEdge>,
    count: int,
    r: SampleResult,
)
    requires
        random_sample_post(nodes, edges, count, r),
        count >= nodes.len(),
    ensures
        r.sampled_nodes@.len() == nodes.len(),
        forall|i: int|
            0 <= i < nodes.len() ==> has_id(r.sampled_nodes@, (#[trigger] nodes[i]).id@),
        edge_views(r.sampled_edges@) == induced_edge_views(edge_views(edges), node_ids(nodes)),
{
    let out = r.sampled_nodes@;
    let n = nodes.len() as int;
    let sel = choose|sel: Seq<int>| is_selection(sel, nodes, out);
    assert(sel.len() == n);
    sel.unique_seq_to_set();
    vstd::set_lib::lemma_int_range(0, n);
    assert(sel.to_set().subset_of(vstd::set_lib::set_int_range(0, n))) by {
        assert forall|x: int| sel.to_set().contains(x) implies 0 <= x < n by {
            let k = choose|k: int| 0 <= k < sel.len() && sel[k] == x;
        }
    }
    vstd::set_lib::lemma_subset_equality(sel.to_set(), vstd::set_lib::set_int_range(0, n));
    assert forall|i: int| 0 <= i < n implies has_id(out, (#[trigger] nodes[i]).id@) by {
        assert(sel.to_set().contains(i));
        let k = choose|k: int| 0 <= k < sel.len() && sel[k] == i;
        assert(out[k]@ == nodes[i]@);
        assert(out[k].id@ == nodes[i].id@);
    }
    assert forall|x: Seq<char>| #[trigger] contains_id(node_ids(out), x) == contains_id(
        node_ids(nodes),
        x,
    ) by {
        if contains_id(node_ids(out), x) {
            let k = choose|k: int| 0 <= k < node_ids(out).len() && node_ids(out)[k] == x;
            assert(out[k]@ == nodes[sel[k]]@);
            assert(node_ids(nodes)[sel[k]] == x);
        }
        if contains_id(node_ids(nodes), x) {
            let i = choose|i: int| 0 <= i < node_ids(nodes).len() && node_ids(nodes)[i] == x;
            assert(has_id(out, nodes[i].id@));
            let t = choose|t: int| 0 <= t < out.len() && (#[trigger] out[t]).id@ == nodes[i].id@;
            assert(node_ids(out)[t] == x);
        }
    }
    lemma_induced_same_ids(edge_views(edges), node_ids(out), node_ids(nodes));
}

/// Law: a random walk's result includes the start node whenever at least
/// one walk ran and the start identifier resolves (in particular when
/// `walk_length == 0` or the start node has no incident edges); a
/// zero-length walk returns exactly the start node and no edges.
pub proof fn lemma_walk_includes_start(
    nodes: Seq<GraphNode>,
    edges: Seq<GraphEdge>,
    start: Seq<char>,
    walk_length: int,
    num_walks: int,
    r: SampleResult,
)
    requires
        walk_post(nodes, edges, start, walk_length, num_walks, r),
        num_walks >= 1,
        resolves(nodes, start),
    ensures
        has_id(r.sampled_nodes@, start),
        walk_length == 0 ==> r.sampled_nodes@.len() == 1 && r.sampled_nodes@[0].id@ == start
            && r.sampled_edges@.len() == 0,
{
}

/// Law: when every edge endpoint resolves to a node and edge identifiers
/// are unique, every edge a random walk returns connects two nodes that are
/// both present in the returned node set.
pub proof fn lemma_walk_edges_connect(
    nodes: Seq<GraphNode>,
    edges: Seq<GraphEdge>,
    start: Seq<char>,
    walk_length: int,
    num_walks: int,
    r: SampleResult,
)
    requires
        walk_post(nodes, edges, start, walk_length, num_walks, r),
        edge_ids(edges).no_duplicates(),
        forall|i: int|
            0 <= i < edges.len() ==> resolves(nodes, (#[trigger] edges[i]).source@) && resolves(
                nodes,
                edges[i].target@,
            ),
    ensures
        forall|k: int|
            0 <= k < r.sampled_edges@.len() ==> has_id(
                r.sampled_nodes@,
                (#[trigger] r.sampled_edges@[k]).source@,
            ) && has_id(r.sampled_nodes@, r.sampled_edges@[k].target@),
{
    let oute = r.sampled_edges@;
    assert forall|k: int| 0 <= k < oute.len() implies has_id(
        r.sampled_nodes@,
        (#[trigger] oute[k]).source@,
    ) && has_id(r.sampled_nodes@, oute[k].target@) by {
        let ev = oute[k]@;
        let i1 = choose|i: int| 0 <= i < edge_views(edges).len() && ev == edge_views(edges)[i];
        assert(edge_views(edges)[i1] == edges[i1]@);
        assert(connects_sampled(nodes, edges, r.sampled_nodes@, oute[k].id@));
        let i2 = choose|i: int|
            0 <= i < edges.len() && (#[trigger] edges[i]).id@ == oute[k].id@ && (resolves(
                nodes,
                edges[i].source@,
            ) ==> has_id(r.sampled_nodes@, edges[i].source@)) && (resolves(
                nodes,
                edges[i].target@,
            ) ==> has_id(r.sampled_nodes@, edges[i].target@));
        assert(edge_ids(edges)[i1] == edges[i1].id@);
        assert(edge_ids(edges)[i2] == edges[i2].id@);
        assert(i1 == i2);
        assert(oute[k].source@ == edges[i2].source@ && oute[k].target@ == edges[i2].target@);
    }
}

/// The frontier traversal never visits more nodes than the budget allows.
proof fn lemma_frontier_visit_bound(
    edges: Seq<EdgeView>,
    max: int,
    queue: Seq<Seq<char>>,
    vn: Seq<Seq<char>>,
    ve: Seq<Seq<char>>,
)
    requires
        vn.len() <= max,
    ensures
        frontier_visit(edges, max, queue, vn, ve).0.len() <= max,
    decreases max - vn.len(), queue.len(),
{
    if queue.len() == 0 {
    } else if vn.len() >= max {
    } else {
        let cur = queue[0];
        let rest = queue.drop_first();
        if vn.contains(cur) {
            lemma_frontier_visit_bound(edges, max, rest, vn, ve);
        } else {
            let vn1 = vn.push(cur);
            let step = crate::sampling::frontier_expand(
                edges,
                cur,
                crate::adjacency::incident_list(edges, cur),
                vn1,
                max,
                ve,
                rest,
            );
            lemma_frontier_visit_bound(edges, max, step.1, vn1, step.0);
        }
    }
}

/// Law: a frontier sample never returns more nodes than `max_nodes`, and a
/// budget of zero yields empty node and edge sets whatever the seeds.
pub proof fn lemma_frontier_budget(
    nodes: Seq<GraphNode>,
    edges: Seq<GraphEdge>,
    starts: Seq<Seq<char>>,
    max: int,
    r: SampleResult,
)
    requires
        frontier_post(nodes, edges, starts, max, r),
        max >= 0,
    ensures
        r.sampled_nodes@.len() <= max,
        max == 0 ==> r.sampled_nodes@.len() == 0 && r.sampled_edges@.len() == 0,
{
    let fz = frontier_visit(
        edge_views(edges),
        max,
        starts,
        Seq::<Seq<char>>::empty(),
        Seq::<Seq<char>>::empty(),
    );
    lemma_frontier_visit_bound(
        edge_views(edges),
        max,
        starts,
        Seq::<Seq<char>>::empty(),
        Seq::<Seq<char>>::empty(),
    );
    if max == 0 {
        assert(fz.0.len() == 0);
        lemma_edges_with_ids_entries(edge_views(edges), fz.1);
        if r.sampled_edges@.len() > 0 {
            assert(edge_views(r.sampled_edges@)[0] == r.sampled_edges@[0]@);
            assert(contains_id(fz.1, edge_views(r.sampled_edges@)[0].id));
            assert(fz.1.len() == 0);
        }
    }
}

/// A chain graph: node identifiers are unique, edge identifiers are unique,
/// and edge `i` joins node `i` to node `i + 1`.
pub open spec fn is_chain(nodes: Seq<GraphNode>, edges: Seq<GraphEdge>) -> bool {
    &&& edges.len() + 1 == nodes.len()
    &&& node_ids(nodes).no_duplicates()
    &&& edge_ids(edges).no_duplicates()
    &&& forall|i: int|
        0 <= i < edges.len() ==> (#[trigger] edges[i]).source@ == nodes[i].id@
            && edges[i].target@ == nodes[i + 1].id@
}

/// On a chain, the incident list of node `i` holds edge `i - 1` (if any)
/// and then edge `i` (if any).
proof fn lemma_chain_incident_prefix(nodes: Seq<GraphNode>, edges: Seq<GraphEdge>, i: int, m: int)
    requires
        is_chain(nodes, edges),
        0 <= i < nodes.len(),
        0 <= m <= edges.len(),
    ensures
        incident_list(edge_views(edges).take(m), node_ids(nodes)[i]) == (
        if 1 <= i && i - 1 < m {
            seq![i - 1]
        } else {
            Seq::<int>::empty()
        }) + (if i < m {
            seq![i]
        } else {
            Seq::<int>::empty()
        }),
    decreases m,
{
    let evs = edge_views(edges);
    let nids = node_ids(nodes);
    let id = nids[i];
    if m == 0 {
        assert(evs.take(0) =~= Seq::<EdgeView>::empty());
        assert(incident_list(evs.take(0), id) =~= Seq::<int>::empty());
        assert((Seq::<int>::empty() + Seq::<int>::empty()) =~= Seq::<int>::empty());
    } else {
        lemma_chain_incident_prefix(nodes, edges, i, m - 1);
        assert(evs.take(m) =~= evs.take(m - 1).push(evs[m - 1]));
        lemma_incident_list_push(evs.take(m - 1), evs[m - 1], id);
        assert(evs[m - 1] == edges[m - 1]@);
        assert(evs[m - 1].source == nids[m - 1] && evs[m - 1].target == nids[m]);
        if m - 1 != i {
            assert(nids[m - 1] != nids[i]);
        }
        if m != i {
            assert(nids[m] != nids[i]);
        }
        let a_old: Seq<int> = if 1 <= i && i - 1 < m - 1 {
            seq![i - 1]
        } else {
            Seq::<int>::empty()
        };
        let b_old: Seq<int> = if i < m - 1 {
            seq![i]
        } else {
            Seq::<int>::empty()
        };
        let a_new: Seq<int> = if 1 <= i && i - 1 < m {
            seq![i - 1]
        } else {
            Seq::<int>::empty()
        };
        let b_new: Seq<int> = if i < m {
            seq![i]
        } else {
            Seq::<int>::empty()
        };
        if m - 1 == i {
            assert((a_old + b_old).push(i) =~= a_new + b_new);
        } else if m == i {
            assert((a_old + b_old).push(i - 1) =~= a_new + b_new);
        } else {
            assert(a_old + b_old =~= a_new + b_new);
        }
    }
}

/// Selecting the first `m` edge identifiers of a duplicate-free edge list
/// selects exactly the first `m` edges.
proof fn lemma_prefix_edge_selection(edges: Seq<GraphEdge>, m: int, p: int)
    requires
        edge_ids(edges).no_duplicates(),
        0 <= m <= edges.len(),
        0 <= p <= edges.len(),
    ensures
        edges_with_id_views(edge_views(edges).take(p), edge_ids(edges).take(m))
            == edge_views(edges).take(if p <= m {
            p
        } else {
            m
        }),
    decreases p,
{
    let evs = edge_views(edges);
    let eids = edge_ids(edges);
    if p == 0 {
        assert(evs.take(0) =~= Seq::<EdgeView>::empty());
    } else {
        lemma_prefix_edge_selection(edges, m, p - 1);
        assert(evs.take(p) =~= evs.take(p - 1).push(evs[p - 1]));
        assert(evs.take(p).drop_last() =~= evs.take(p - 1));
        assert(evs.take(p).last() == evs[p - 1]);
        assert(evs[p - 1] == edges[p - 1]@);
        assert(evs[p - 1].id == eids[p - 1]);
        if p - 1 < m {
            assert(contains_id(eids.take(m), eids[p - 1])) by {
                assert(eids.take(m)[p - 1] == eids[p - 1]);
            }
            assert(evs.take(p - 1).push(evs[p - 1]) =~= evs.take(p));
        } else {
            assert(!contains_id(eids.take(m), eids[p - 1])) by {
                if contains_id(eids.take(m), eids[p - 1]) {
                    let j = choose|j: int|
                        0 <= j < eids.take(m).len() && eids.take(m)[j] == eids[p - 1];
                    assert(eids[j] == eids[p - 1]);
                }
            }
        }
    }
}

/// When every identifier resolves, resolution keeps the whole list.
proof fn lemma_resolvable_all(nodes: Seq<GraphNode>, ids: Seq<Seq<char>>)
    requires
        forall|j: int| 0 <= j < ids.len() ==> resolves(nodes, #[trigger] ids[j]),
    ensures
        resolvable_ids(nodes, ids) == ids,
    decreases ids.len(),
{
    if ids.len() > 0 {
        assert(forall|j: int|
            0 <= j < ids.len() - 1 ==> ids.drop_last()[j] == ids[j]);
        lemma_resolvable_all(nodes, ids.drop_last());
        assert(resolves(nodes, ids.last()));
        assert(ids.drop_last().push(ids.last()) =~= ids);
    }
}

/// One chain step: visiting node `i` with the first `i` nodes visited and
/// the first `i` edges recorded completes to the first `k` nodes and the
/// first `k - 1` edges.
proof fn lemma_chain_frontier_step(nodes: Seq<GraphNode>, edges: Seq<GraphEdge>, k: int, i: int)
    requires
        is_chain(nodes, edges),
        0 <= i < k <= nodes.len(),
    ensures
        frontier_visit(
            edge_views(edges),
            k,
            seq![node_ids(nodes)[i]],
            node_ids(nodes).take(i),
            edge_ids(edges).take(i),
        ) == (node_ids(nodes).take(k), edge_ids(edges).take(k - 1)),
    decreases k - i,
{
    let evs = edge_views(edges);
    let nids = node_ids(nodes);
    let eids = edge_ids(edges);
    let cur = nids[i];
    let queue = seq![cur];
    let vn = nids.take(i);
    let ve = eids.take(i);
    assert(queue[0] == cur);
    assert(!vn.contains(cur)) by {
        if vn.contains(cur) {
            let j = choose|j: int| 0 <= j < vn.len() && vn[j] == cur;
            assert(nids[j] == nids[i]);
        }
    }
    let vn1 = vn.push(cur);
    assert(vn1 =~= nids.take(i + 1));
    let rest = queue.drop_first();
    assert(rest =~= Seq::<Seq<char>>::empty());
    lemma_chain_incident_prefix(nodes, edges, i, edges.len() as int);
    assert(evs.take(edges.len() as int) =~= evs);
    let il = incident_list(evs, cur);
    // walking backwards along the discovering edge finds a visited node
    if 1 <= i {
        assert(il[0] == i - 1);
        assert(evs[i - 1].source == nids[i - 1] && evs[i - 1].target == nids[i]);
        assert(nids[i - 1] != nids[i]);
        assert(vn1.contains(nids[i - 1])) by {
            assert(vn1[i - 1] == nids[i - 1]);
        }
    }
    let forward_new = i < edges.len() && !vn1.contains(nids[i + 1]);
    if i < edges.len() {
        assert(!vn1.contains(nids[i + 1])) by {
            if vn1.contains(nids[i + 1]) {
                let j = choose|j: int| 0 <= j < vn1.len() && vn1[j] == nids[i + 1];
                assert(nids[j] == nids[i + 1]);
            }
        }
        assert(evs[i].source == nids[i] && evs[i].target == nids[i + 1]);
    }
    // the recorded edge set grows by edge i exactly when it is recorded
    if i < edges.len() && i + 1 < k {
        assert(!ve.contains(eids[i])) by {
            if ve.contains(eids[i]) {
                let j = choose|j: int| 0 <= j < ve.len() && ve[j] == eids[i];
                assert(eids[j] == eids[i]);
            }
        }
        assert(insert_unique(ve, evs[i].id) =~= eids.take(i + 1));
    }
    // unfold the expansion over the one- or two-entry incident list
    let empty_inc = Seq::<int>::empty();
    let fwd: Seq<int> = seq![i];
    let step = frontier_expand(evs, cur, il, vn1, k, ve, rest);
    if 1 <= i {
        assert(il =~= (seq![i - 1]) + (if i < edges.len() {
            seq![i]
        } else {
            Seq::<int>::empty()
        }));
        assert(il[0] == i - 1);
        assert(il.drop_first() =~= if i < edges.len() {
            fwd
        } else {
            empty_inc
        });
        // the backward edge leads to the already-visited previous node
        assert(evs[i - 1].source != cur);
        if i < edges.len() {
            assert(step == frontier_expand(evs, cur, fwd, vn1, k, ve, rest));
        } else {
            assert(step == frontier_expand(evs, cur, empty_inc, vn1, k, ve, rest));
            assert(step == (ve, rest));
        }
    } else {
        assert(il =~= if i < edges.len() {
            fwd
        } else {
            empty_inc
        });
        if i < edges.len() {
            assert(step == frontier_expand(evs, cur, fwd, vn1, k, ve, rest));
        } else {
            assert(step == (ve, rest));
        }
    }
    if i < edges.len() {
        assert(fwd[0] == i);
        assert(fwd.drop_first() =~= empty_inc);
        assert(evs[i].source == cur);
        if i + 1 < k {
            assert(vn1.len() == i + 1 < k);
            assert(frontier_expand(evs, cur, fwd, vn1, k, ve, rest) == frontier_expand(
                evs,
                cur,
                empty_inc,
                vn1,
                k,
                insert_unique(ve, evs[i].id),
                rest.push(nids[i + 1]),
            ));
            assert(step == (insert_unique(ve, evs[i].id), rest.push(nids[i + 1])));
        } else {
            assert(vn1.len() == i + 1 == k);
            assert(frontier_expand(evs, cur, fwd, vn1, k, ve, rest) == frontier_expand(
                evs,
                cur,
                empty_inc,
                vn1,
                k,
                ve,
                rest,
            ));
            assert(step == (ve, rest));
        }
    }
    // either recurse along the chain or stop on the exhausted budget
    if i + 1 < k {
        assert(i + 1 < k <= nodes.len() && nodes.len() == edges.len() + 1);
        assert(i < edges.len());
        assert(step.0 == insert_unique(ve, evs[i].id) && step.0 == eids.take(i + 1));
        assert(step.1 == rest.push(nids[i + 1]));
        assert(step.1 =~= seq![nids[i + 1]]);
        lemma_chain_frontier_step(nodes, edges, k, i + 1);
        assert(frontier_visit(evs, k, step.1, vn1, step.0) == (nids.take(k), eids.take(k - 1)));
    } else {
        assert(step == (ve, rest));
        assert(vn1.len() == i + 1 == k);
        assert(frontier_visit(evs, k, rest, vn1, ve) == (vn1, ve));
        assert(vn1 =~= nids.take(k));
        assert(ve =~= eids.take(k - 1));
    }
}

/// Law: a frontier sample seeded with the first node of a chain graph and
/// budget `k` returns exactly the chain's first `k` nodes, in breadth-first
/// order, with exactly the first `k - 1` edges.
pub proof fn lemma_frontier_chain(
    nodes: Seq<GraphNode>,
    edges: Seq<GraphEdge>,
    k: int,
    r: SampleResult,
)
    requires
        is_chain(nodes, edges),
        1 <= k <= nodes.len(),
        frontier_post(nodes, edges, seq![nodes[0].id@], k, r),
    ensures
        node_ids(r.sampled_nodes@) == node_ids(nodes).take(k),
        edge_ids(r.sampled_edges@) == edge_ids(edges).take(k - 1),
{
    let evs = edge_views(edges);
    let nids = node_ids(nodes);
    let eids = edge_ids(edges);
    assert(seq![nodes[0].id@] =~= seq![nids[0]]);
    assert(nids.take(0) =~= Seq::<Seq<char>>::empty());
    assert(eids.take(0) =~= Seq::<Seq<char>>::empty());
    lemma_chain_frontier_step(nodes, edges, k, 0);
    let fz = frontier_visit(
        evs,
        k,
        seq![nodes[0].id@],
        Seq::<Seq<char>>::empty(),
        Seq::<Seq<char>>::empty(),
    );
    assert(fz == (nids.take(k), eids.take(k - 1)));
    // every visited identifier resolves, so resolution keeps the whole list
    assert forall|j: int| 0 <= j < nids.take(k).len() implies resolves(
        nodes,
        #[trigger] nids.take(k)[j],
    ) by {
        assert(nids.take(k)[j] == nodes[j].id@);
    }
    lemma_resolvable_all(nodes, nids.take(k));
    // the recorded identifiers select exactly the chain's first k - 1 edges
    lemma_prefix_edge_selection(edges, k - 1, edges.len() as int);
    assert(evs.take(edges.len() as int) =~= evs);
    assert(edge_views(r.sampled_edges@) == evs.take(k - 1));
    assert(edge_ids(r.sampled_edges@) =~= eids.take(k - 1)) by {
        assert forall|j: int| 0 <= j < r.sampled_edges@.len() implies edge_ids(
            r.sampled_edges@,
        )[j] == eids.take(k - 1)[j] by {
            assert(edge_views(r.sampled_edges@)[j] == r.sampled_edges@[j]@);
            assert(evs.take(k - 1)[j] == edges[j]@);
        }
        assert(edge_ids(r.sampled_edges@).len() == edge_views(r.sampled_edges@).len());
    }
}

/// The frontier traversal never visits a node twice.
proof fn lemma_frontier_visit_distinct(
    edges: Seq<EdgeView>,
    max: int,
    queue: Seq<Seq<char>>,
    vn: Seq<Seq<char>>,
    ve: Seq<Seq<char>>,
)
    requires
        vn.no_duplicates(),
    ensures
        frontier_visit(edges, max, queue, vn, ve).0.no_duplicates(),
    decreases max - vn.len(), queue.len(),
{
    if queue.len() == 0 {
    } else if vn.len() >= max {
    } else {
        let cur = queue[0];
        let rest = queue.drop_first();
        if vn.contains(cur) {
            lemma_frontier_visit_distinct(edges, max, rest, vn, ve);
        } else {
            let vn1 = vn.push(cur);
            assert(vn1.no_duplicates()) by {
                assert forall|t1: int, t2: int|
                    0 <= t1 < t2 < vn1.len() implies vn1[t1] != vn1[t2] by {
                    if t2 == vn.len() {
                        assert(vn.contains(vn[t1]));
                    }
                }
            }
            let step = frontier_expand(
                edges,
                cur,
                crate::adjacency::incident_list(edges, cur),
                vn1,
                max,
                ve,
                rest,
            );
            lemma_frontier_visit_distinct(edges, max, step.1, vn1, step.0);
        }
    }
}

/// Law: no two nodes of a frontier sample share an identifier.
pub proof fn lemma_frontier_nodes_distinct(
    nodes: Seq<GraphNode>,
    edges: Seq<GraphEdge>,
    starts: Seq<Seq<char>>,
    max: int,
    r: SampleResult,
)
    requires
        frontier_post(nodes, edges, starts, max, r),
    ensures
        node_ids(r.sampled_nodes@).no_duplicates(),
{
    let fz = frontier_visit(
        edge_views(edges),
        max,
        starts,
        Seq::<Seq<char>>::empty(),
        Seq::<Seq<char>>::empty(),
    );
    lemma_frontier_visit_distinct(
        edge_views(edges),
        max,
        starts,
        Seq::<Seq<char>>::empty(),
        Seq::<Seq<char>>::empty(),
    );
    lemma_resolvable_ids_distinct(nodes, fz.0);
}

} // verus!
