//! The sampling engine: uniform node sampling, multi-walk random-walk
//! sampling, and bounded multi-source frontier sampling.

use vstd::prelude::*;

use crate::adjacency::{
    incident_list, lemma_incident_list_entries, touches, usizes_as_ints, AdjacencyIndex,
};
use crate::graph::{
    clone_node, contains_id, edge_view_from, edge_views, edges_with_id_views, edges_with_ids,
    has_id, induced_edge_views, induced_edges, lemma_edges_with_ids_entries, node_from, node_ids,
    push_unique, resolution_post, resolve_nodes, resolves, string_views, GraphEdge, GraphNode,
    SampleResult,
};
use crate::graph::{clone_string_vec, insert_unique, vec_contains_string, EdgeView};

verus! {

/// Relies on `rand::Rng::gen_range` over `rand::thread_rng()`: a uniformly
/// distributed value below `bound`.
#[verifier::external_body]
fn random_below(bound: usize) -> (r: usize)
    requires
        bound > 0,
    ensures
        r < bound,
{
    rand::Rng::gen_range(&mut rand::thread_rng(), 0..bound)
}

/// A partial Fisher-Yates selection: `out` lists copies of the nodes at the
/// distinct indices `sel`.
pub open spec fn is_selection(sel: Seq<int>, nodes: Seq<GraphNode>, out: Seq<GraphNode>) -> bool {
    &&& sel.len() == out.len()
    &&& sel.no_duplicates()
    &&& forall|k: int| 0 <= k < sel.len() ==> 0 <= #[trigger] sel[k] < nodes.len()
    &&& forall|k: int| 0 <= k < sel.len() ==> (#[trigger] out[k])@ == nodes[sel[k]]@
}

/// What uniform sampling guarantees: exactly `min(count, |nodes|)` nodes,
/// drawn without replacement, and exactly the edges of the induced subgraph.
pub open spec fn random_sample_post(
    nodes: Seq<GraphNode>,
    edges: Seq<GraphEdge>,
    count: int,
    r: SampleResult,
) -> bool {
    &&& r.sampled_nodes@.len() == vstd::math::min(count, nodes.len() as int)
    &&& exists|sel: Seq<int>| is_selection(sel, nodes, r.sampled_nodes@)
    &&& edge_views(r.sampled_edges@) == induced_edge_views(
        edge_views(edges),
        node_ids(r.sampled_nodes@),
    )
}

/// A uniformly shuffled index vector for `0 .. n`.
fn shuffled_indices(n: usize) -> (r: Vec<usize>)
    ensures
        r@.len() == n,
        forall|k: int| 0 <= k < n ==> #[trigger] r@[k] < n,
        r@.no_duplicates(),
{
    let mut idx: Vec<usize> = Vec::new();
    let mut t: usize = 0;
    while t < n
        invariant
            t <= n,
            idx@.len() == t,
            forall|k: int| 0 <= k < t ==> #[trigger] idx@[k] == k,
        decreases n - t,
    {
        idx.push(t);
        t = t + 1;
    }
    let mut i: usize = n;
    while i > 1
        invariant
            i <= n,
            idx@.len() == n,
            forall|k: int| 0 <= k < n ==> #[trigger] idx@[k] < n,
            idx@.no_duplicates(),
        decreases i,
    {
        i = i - 1;
        let j = random_below(i + 1);
        let ghost before = idx@;
        let a = idx[i];
        let b = idx[j];
        idx[i] = b;
        idx[j] = a;
        proof {
            assert(idx@ =~= before.update(i as int, b).update(j as int, a));
            assert forall|k1: int, k2: int|
                0 <= k1 < k2 < idx@.len() implies idx@[k1] != idx@[k2] by {
                assert(before.no_duplicates());
            }
        }
    }
    idx
}

/// Uniform random sample: `min(count, |nodes|)` distinct nodes drawn by a
/// partial Fisher-Yates shuffle, plus the induced subgraph's edges.
pub fn random_sample(nodes: &Vec<GraphNode>, edges: &Vec<GraphEdge>, count: usize) -> (r:
    SampleResult)
    ensures
        random_sample_post(nodes@, edges@, count as int, r),
{
    let n = nodes.len();
    let c = if count < n {
        count
    } else {
        n
    };
    let idx = shuffled_indices(n);
    let mut sampled: Vec<GraphNode> = Vec::new();
    let mut k: usize = 0;
    while k < c
        invariant
            c <= n,
            n == nodes@.len(),
            idx@.len() == n,
            forall|t: int| 0 <= t < n ==> #[trigger] idx@[t] < n,
            idx@.no_duplicates(),
            sampled@.len() == k,
            k <= c,
            forall|t: int| 0 <= t < k ==> (#[trigger] sampled@[t])@ == nodes@[idx@[t] as int]@,
        decreases c - k,
    {
        sampled.push(clone_node(&nodes[idx[k]]));
        k = k + 1;
    }
    let ghost sel = idx@.take(c as int).map_values(|x: usize| x as int);
    proof {
        assert(sel.len() == sampled@.len());
        assert forall|k1: int, k2: int| 0 <= k1 < k2 < sel.len() implies sel[k1] != sel[k2] by {
            assert(idx@[k1] != idx@[k2]);
        }
        assert(sel.no_duplicates());
        assert forall|t: int| 0 <= t < sel.len() implies 0 <= #[trigger] sel[t] < nodes@.len()
            && sampled@[t]@ == nodes@[sel[t]]@ by {
            assert(sel[t] == idx@[t] as int);
        }
        assert(is_selection(sel, nodes@, sampled@));
    }
    let mut ids: Vec<String> = Vec::new();
    let mut t: usize = 0;
    while t < sampled.len()
        invariant
            t <= sampled@.len(),
            ids@.len() == t,
            forall|j: int| 0 <= j < t ==> #[trigger] ids@[j]@ == sampled@[j].id@,
        decreases sampled@.len() - t,
    {
        ids.push(sampled[t].id.clone());
        t = t + 1;
    }
    proof {
        assert(string_views(ids@) =~= node_ids(sampled@));
    }
    let sampled_edges = induced_edges(edges, &ids);
    SampleResult { sampled_nodes: sampled, sampled_edges }
}

/// Whether `n` is a copy of some node of `nodes`.
pub open spec fn node_copy_from(nodes: Seq<GraphNode>, n: GraphNode) -> bool {
    exists|i: int| 0 <= i < nodes.len() && n@ == (#[trigger] nodes[i])@
}

/// Some input edge carries `eid`, and each of its endpoints that resolves
/// against the node list appears in the output node set.
pub open spec fn connects_sampled(
    nodes: Seq<GraphNode>,
    edges: Seq<GraphEdge>,
    out: Seq<GraphNode>,
    eid: Seq<char>,
) -> bool {
    exists|i: int|
        0 <= i < edges.len() && (#[trigger] edges[i]).id@ == eid && (resolves(
            nodes,
            edges[i].source@,
        ) ==> has_id(out, edges[i].source@)) && (resolves(nodes, edges[i].target@) ==> has_id(
            out,
            edges[i].target@,
        ))
}

/// Some input edge carries `eid` and has both endpoint identifiers in `vn`.
pub open spec fn recorded_edge_ok(
    edges: Seq<GraphEdge>,
    vn: Seq<Seq<char>>,
    eid: Seq<char>,
) -> bool {
    exists|i: int|
        0 <= i < edges.len() && (#[trigger] edges[i]).id@ == eid && contains_id(
            vn,
            edges[i].source@,
        ) && contains_id(vn, edges[i].target@)
}

proof fn lemma_recorded_edge_ok_grow(
    edges: Seq<GraphEdge>,
    vn1: Seq<Seq<char>>,
    vn2: Seq<Seq<char>>,
    eid: Seq<char>,
)
    requires
        recorded_edge_ok(edges, vn1, eid),
        forall|x: Seq<char>| contains_id(vn1, x) ==> contains_id(vn2, x),
    ensures
        recorded_edge_ok(edges, vn2, eid),
{
    let i = choose|i: int|
        0 <= i < edges.len() && (#[trigger] edges[i]).id@ == eid && contains_id(
            vn1,
            edges[i].source@,
        ) && contains_id(vn1, edges[i].target@);
    assert(edges[i].id@ == eid);
}

/// What random-walk sampling guarantees of every outcome: output nodes copy
/// input nodes; the start node is represented whenever it resolves and at
/// least one walk ran; every output edge is an input edge both of whose
/// resolvable endpoints are in the output; zero-length walks visit exactly
/// the start node.
pub open spec fn walk_post(
    nodes: Seq<GraphNode>,
    edges: Seq<GraphEdge>,
    start: Seq<char>,
    walk_length: int,
    num_walks: int,
    r: SampleResult,
) -> bool {
    &&& num_walks == 0 ==> r.sampled_nodes@.len() == 0 && r.sampled_edges@.len() == 0
    &&& forall|t: int|
        0 <= t < r.sampled_nodes@.len() ==> node_copy_from(nodes, #[trigger] r.sampled_nodes@[t])
    &&& node_ids(r.sampled_nodes@).no_duplicates()
    &&& num_walks >= 1 && resolves(nodes, start) ==> has_id(r.sampled_nodes@, start)
    &&& forall|k: int|
        0 <= k < r.sampled_edges@.len() ==> edge_view_from(
            edge_views(edges),
            (#[trigger] r.sampled_edges@[k])@,
        ) && connects_sampled(nodes, edges, r.sampled_nodes@, r.sampled_edges@[k].id@)
    &&& num_walks >= 1 && walk_length == 0 ==> {
        &&& r.sampled_edges@.len() == 0
        &&& forall|t: int|
            0 <= t < r.sampled_nodes@.len() ==> (#[trigger] r.sampled_nodes@[t]).id@ == start
        &&& resolves(nodes, start) ==> r.sampled_nodes@.len() == 1
        &&& !resolves(nodes, start) ==> r.sampled_nodes@.len() == 0
    }
}

/// Random-walk sample: `num_walks` independent walks of up to `walk_length`
/// steps from the start node, each step crossing a uniformly chosen incident
/// edge; the result holds the traversal-recorded nodes and edges.
pub fn random_walk_sample(
    nodes: &Vec<GraphNode>,
    edges: &Vec<GraphEdge>,
    start_node_id: &String,
    walk_length: usize,
    num_walks: usize,
) -> (r: SampleResult)
    ensures
        walk_post(nodes@, edges@, start_node_id@, walk_length as int, num_walks as int, r),
{
    let ghost evs = edge_views(edges@);
    let adjacency = AdjacencyIndex::build(edges);
    let mut visited_nodes: Vec<String> = Vec::new();
    let mut visited_edges: Vec<String> = Vec::new();
    let mut w: usize = 0;
    while w < num_walks
        invariant
            evs == edge_views(edges@),
            adjacency.wf(evs),
            w <= num_walks,
            string_views(visited_nodes@).no_duplicates(),
            w > 0 ==> contains_id(string_views(visited_nodes@), start_node_id@),
            w == 0 ==> visited_nodes@.len() == 0 && visited_edges@.len() == 0,
            walk_length == 0 ==> visited_edges@.len() == 0,
            walk_length == 0 ==> forall|t: int|
                0 <= t < visited_nodes@.len() ==> (#[trigger] visited_nodes@[t])@
                    == start_node_id@,
            forall|k: int|
                0 <= k < visited_edges@.len() ==> recorded_edge_ok(
                    edges@,
                    string_views(visited_nodes@),
                    (#[trigger] visited_edges@[k])@,
                ),
        decreases num_walks - w,
    {
        let mut current: String = start_node_id.clone();
        push_unique(&mut visited_nodes, &current);
        let mut step: usize = 0;
        while step < walk_length
            invariant
                evs == edge_views(edges@),
                adjacency.wf(evs),
                step <= walk_length,
                string_views(visited_nodes@).no_duplicates(),
                contains_id(string_views(visited_nodes@), current@),
                contains_id(string_views(visited_nodes@), start_node_id@),
                walk_length == 0 ==> visited_edges@.len() == 0,
                walk_length == 0 ==> forall|t: int|
                    0 <= t < visited_nodes@.len() ==> (#[trigger] visited_nodes@[t])@
                        == start_node_id@,
                forall|k: int|
                    0 <= k < visited_edges@.len() ==> recorded_edge_ok(
                        edges@,
                        string_views(visited_nodes@),
                        (#[trigger] visited_edges@[k])@,
                    ),
            decreases walk_length - step,
        {
            let stop: bool;
            match adjacency.get(&current, Ghost(evs)) {
                Some(list) => {
                    if list.len() == 0 {
                        stop = true;
                    } else {
                        proof {
                            lemma_incident_list_entries(evs, current@);
                        }
                        let pick = random_below(list.len());
                        let ei = list[pick];
                        proof {
                            assert(usizes_as_ints(list@)[pick as int] == list@[pick as int] as int);
                            assert(0 <= ei < evs.len() && crate::adjacency::touches(
                                evs[ei as int],
                                current@,
                            ));
                            assert(evs[ei as int] == edges@[ei as int]@);
                        }
                        let ghost vn_before = string_views(visited_nodes@);
                        push_unique(&mut visited_edges, &edges[ei].id);
                        let next: String = if edges[ei].source.eq(&current) {
                            edges[ei].target.clone()
                        } else {
                            edges[ei].source.clone()
                        };
                        current = next;
                        push_unique(&mut visited_nodes, &current);
                        proof {
                            let vn = string_views(visited_nodes@);
                            assert(contains_id(vn, edges@[ei as int].source@) && contains_id(
                                vn,
                                edges@[ei as int].target@,
                            ));
                            assert forall|k: int|
                                0 <= k < visited_edges@.len() implies recorded_edge_ok(
                                edges@,
                                vn,
                                (#[trigger] visited_edges@[k])@,
                            ) by {
                                if visited_edges@[k]@ == edges@[ei as int].id@ {
                                    assert(recorded_edge_ok(edges@, vn, edges@[ei as int].id@));
                                } else {
                                    lemma_recorded_edge_ok_grow(
                                        edges@,
                                        vn_before,
                                        vn,
                                        visited_edges@[k]@,
                                    );
                                }
                            }
                        }
                        stop = false;
                    }
                },
                None => {
                    stop = true;
                },
            }
            if stop {
                break ;
            }
            step = step + 1;
        }
        w = w + 1;
    }
    let sampled_nodes = resolve_nodes(nodes, &visited_nodes);
    let sampled_edges = edges_with_ids(edges, &visited_edges);
    let r = SampleResult { sampled_nodes, sampled_edges };
    proof {
        let svn = string_views(visited_nodes@);
        let sve = string_views(visited_edges@);
        let out = r.sampled_nodes@;
        let oute = r.sampled_edges@;
        assert(resolution_post(nodes@, svn, out));
        crate::graph::lemma_resolvable_ids_distinct(nodes@, svn);
        lemma_edges_with_ids_entries(evs, sve);
        assert(edge_views(oute).len() == oute.len());
        // every output node copies an input node
        assert forall|t: int| 0 <= t < out.len() implies node_copy_from(
            nodes@,
            #[trigger] out[t],
        ) by {
            assert(node_from(nodes@, svn, out[t]));
        }
        // the start node is represented when it resolves and a walk ran
        if num_walks >= 1 && resolves(nodes@, start_node_id@) {
            let j = choose|j: int| 0 <= j < svn.len() && svn[j] == start_node_id@;
            assert(resolves(nodes@, svn[j]));
        }
        // every output edge is an input edge connecting represented nodes
        assert forall|k: int| 0 <= k < oute.len() implies edge_view_from(
            evs,
            (#[trigger] oute[k])@,
        ) && connects_sampled(nodes@, edges@, out, oute[k].id@) by {
            assert(edge_views(oute)[k] == oute[k]@);
            assert(edge_view_from(evs, oute[k]@));
            assert(contains_id(sve, oute[k]@.id));
            let kk = choose|kk: int| 0 <= kk < sve.len() && sve[kk] == oute[k]@.id;
            assert(visited_edges@[kk]@ == oute[k].id@);
            assert(recorded_edge_ok(edges@, svn, oute[k].id@));
            let i = choose|i: int|
                0 <= i < edges@.len() && (#[trigger] edges@[i]).id@ == oute[k].id@ && contains_id(
                    svn,
                    edges@[i].source@,
                ) && contains_id(svn, edges@[i].target@);
            if resolves(nodes@, edges@[i].source@) {
                let j = choose|j: int| 0 <= j < svn.len() && svn[j] == edges@[i].source@;
                assert(resolves(nodes@, svn[j]));
            }
            if resolves(nodes@, edges@[i].target@) {
                let j = choose|j: int| 0 <= j < svn.len() && svn[j] == edges@[i].target@;
                assert(resolves(nodes@, svn[j]));
            }
            assert(connects_sampled(nodes@, edges@, out, oute[k].id@));
        }
        // empty and zero-length cases
        if num_walks == 0 {
            assert(svn.len() == 0);
            assert(out.len() == 0);
            if oute.len() > 0 {
                assert(contains_id(sve, edge_views(oute)[0].id));
            }
        }
        if num_walks >= 1 && walk_length == 0 {
            if oute.len() > 0 {
                assert(contains_id(sve, edge_views(oute)[0].id));
                let kk = choose|kk: int| 0 <= kk < sve.len() && sve[kk] == edge_views(oute)[0].id;
                assert(false);
            }
            assert forall|t: int| 0 <= t < out.len() implies (#[trigger] out[t]).id@
                == start_node_id@ by {
                assert(contains_id(svn, out[t].id@));
                let j = choose|j: int| 0 <= j < svn.len() && svn[j] == out[t].id@;
                assert(visited_nodes@[j]@ == start_node_id@);
            }
            if svn.len() >= 2 {
                assert(visited_nodes@[0]@ == start_node_id@ && visited_nodes@[1]@
                    == start_node_id@);
                assert(svn[0] == svn[1]);
                assert(false);
            }
            if resolves(nodes@, start_node_id@) {
                assert(has_id(out, start_node_id@));
                assert(out.len() >= 1);
                assert(out.len() <= svn.len());
                assert(out.len() == 1);
            } else {
                if out.len() > 0 {
                    assert(node_from(nodes@, svn, out[0]));
                    let i = choose|i: int|
                        0 <= i < nodes@.len() && out[0]@ == (#[trigger] nodes@[i])@ && contains_id(
                            svn,
                            nodes@[i].id@,
                        );
                    let j = choose|j: int| 0 <= j < svn.len() && svn[j] == nodes@[i].id@;
                    assert(visited_nodes@[j]@ == start_node_id@);
                    assert(nodes@[i].id@ == start_node_id@);
                    assert(false);
                }
            }
        }
    }
    r
}

/// One frontier expansion: walk the incident list of the node just visited;
/// each neighbour that is not yet visited, while the budget still has room,
/// has its discovering edge recorded and is enqueued.
pub open spec fn frontier_expand(
    edges: Seq<EdgeView>,
    cur: Seq<char>,
    inc: Seq<int>,
    vn: Seq<Seq<char>>,
    max: int,
    ve: Seq<Seq<char>>,
    queue: Seq<Seq<char>>,
) -> (Seq<Seq<char>>, Seq<Seq<char>>)
    decreases inc.len(),
{
    if inc.len() == 0 {
        (ve, queue)
    } else {
        let e = edges[inc[0]];
        let nb = if e.source == cur {
            e.target
        } else {
            e.source
        };
        if !vn.contains(nb) && vn.len() < max {
            frontier_expand(
                edges,
                cur,
                inc.drop_first(),
                vn,
                max,
                insert_unique(ve, e.id),
                queue.push(nb),
            )
        } else {
            frontier_expand(edges, cur, inc.drop_first(), vn, max, ve, queue)
        }
    }
}

/// The frontier traversal: dequeue a node; stop once the budget is reached;
/// skip it if already visited; otherwise visit it and expand its frontier.
/// Returns the visited node identifiers (in visit order) and the recorded
/// edge identifiers.
pub open spec fn frontier_visit(
    edges: Seq<EdgeView>,
    max: int,
    queue: Seq<Seq<char>>,
    vn: Seq<Seq<char>>,
    ve: Seq<Seq<char>>,
) -> (Seq<Seq<char>>, Seq<Seq<char>>)
    decreases max - vn.len(), queue.len(),
{
    if queue.len() == 0 {
        (vn, ve)
    } else if vn.len() >= max {
        (vn, ve)
    } else {
        let cur = queue[0];
        let rest = queue.drop_first();
        if vn.contains(cur) {
            frontier_visit(edges, max, rest, vn, ve)
        } else {
            let vn1 = vn.push(cur);
            let step = frontier_expand(edges, cur, incident_list(edges, cur), vn1, max, ve, rest);
            frontier_visit(edges, max, step.1, vn1, step.0)
        }
    }
}

/// What frontier sampling guarantees: the output is exactly the bounded
/// breadth-first traversal seeded by `starts`, resolved against the node
/// list, with exactly the discovery-recorded edges.
pub open spec fn frontier_post(
    nodes: Seq<GraphNode>,
    edges: Seq<GraphEdge>,
    starts: Seq<Seq<char>>,
    max: int,
    r: SampleResult,
) -> bool {
    let fz = frontier_visit(
        edge_views(edges),
        max,
        starts,
        Seq::<Seq<char>>::empty(),
        Seq::<Seq<char>>::empty(),
    );
    &&& resolution_post(nodes, fz.0, r.sampled_nodes@)
    &&& edge_views(r.sampled_edges@) == edges_with_id_views(edge_views(edges), fz.1)
}

/// Frontier sample: a breadth-first traversal seeded by all start
/// identifiers and bounded by `max_nodes` visited nodes, recording an edge
/// only when it discovers a new node within budget.
pub fn frontier_sample(
    nodes: &Vec<GraphNode>,
    edges: &Vec<GraphEdge>,
    start_node_ids: &Vec<String>,
    max_nodes: usize,
) -> (r: SampleResult)
    ensures
        frontier_post(nodes@, edges@, string_views(start_node_ids@), max_nodes as int, r),
{
    let ghost evs = edge_views(edges@);
    let ghost max = max_nodes as int;
    let adjacency = AdjacencyIndex::build(edges);
    let mut visited_nodes: Vec<String> = Vec::new();
    let mut visited_edges: Vec<String> = Vec::new();
    let mut queue: Vec<String> = clone_string_vec(start_node_ids);
    let mut head: usize = 0;
    let ghost target = frontier_visit(
        evs,
        max,
        string_views(start_node_ids@),
        Seq::<Seq<char>>::empty(),
        Seq::<Seq<char>>::empty(),
    );
    proof {
        assert(string_views(queue@).skip(0) =~= string_views(start_node_ids@));
        assert(string_views(visited_nodes@) =~= Seq::<Seq<char>>::empty());
        assert(string_views(visited_edges@) =~= Seq::<Seq<char>>::empty());
    }
    while head < queue.len() && visited_nodes.len() < max_nodes
        invariant
            evs == edge_views(edges@),
            adjacency.wf(evs),
            max == max_nodes as int,
            head <= queue@.len(),
            visited_nodes@.len() <= max_nodes,
            string_views(visited_nodes@).no_duplicates(),
            frontier_visit(
                evs,
                max,
                string_views(queue@).skip(head as int),
                string_views(visited_nodes@),
                string_views(visited_edges@),
            ) == target,
        decreases max_nodes - visited_nodes@.len(), queue@.len() - head,
    {
        let ghost qs = string_views(queue@).skip(head as int);
        let current = queue[head].clone();
        head = head + 1;
        let ghost q_rest = string_views(queue@).skip(head as int);
        proof {
            assert(qs.len() > 0);
            assert(qs[0] == current@);
            assert(qs.drop_first() =~= q_rest);
        }
        let present = vec_contains_string(&visited_nodes, &current);
        if present {
            proof {
                assert(frontier_visit(
                    evs,
                    max,
                    q_rest,
                    string_views(visited_nodes@),
                    string_views(visited_edges@),
                ) == target);
            }
        } else {
            let ghost vn0 = string_views(visited_nodes@);
            let ghost ve0 = string_views(visited_edges@);
            push_unique(&mut visited_nodes, &current);
            let ghost vn1 = string_views(visited_nodes@);
            proof {
                assert(vn1 == vn0.push(current@));
            }
            let ghost il = incident_list(evs, current@);
            proof {
                assert(il.skip(0) =~= il);
            }
            match adjacency.get(&current, Ghost(evs)) {
                Some(list) => {
                    let mut t: usize = 0;
                    while t < list.len()
                        invariant
                            evs == edge_views(edges@),
                            t <= list@.len(),
                            usizes_as_ints(list@) == il,
                            il == incident_list(evs, current@),
                            head <= queue@.len(),
                            vn1 == string_views(visited_nodes@),
                            visited_nodes@.len() <= max_nodes,
                            max == max_nodes as int,
                            string_views(visited_nodes@).no_duplicates(),
                            frontier_expand(
                                evs,
                                current@,
                                il.skip(t as int),
                                vn1,
                                max,
                                string_views(visited_edges@),
                                string_views(queue@).skip(head as int),
                            ) == frontier_expand(evs, current@, il, vn1, max, ve0, q_rest),
                        decreases list@.len() - t,
                    {
                        proof {
                            lemma_incident_list_entries(evs, current@);
                            assert(il[t as int] == list@[t as int] as int);
                        }
                        let ei = list[t];
                        proof {
                            assert(0 <= ei < evs.len() && touches(evs[ei as int], current@));
                            assert(evs[ei as int] == edges@[ei as int]@);
                            assert(il.skip(t as int)[0] == il[t as int]);
                            assert(il.skip(t as int).drop_first() =~= il.skip(t as int + 1));
                        }
                        let neighbor: String = if edges[ei].source.eq(&current) {
                            edges[ei].target.clone()
                        } else {
                            edges[ei].source.clone()
                        };
                        let nb_new = !vec_contains_string(&visited_nodes, &neighbor);
                        let room = visited_nodes.len() < max_nodes;
                        if nb_new && room {
                            push_unique(&mut visited_edges, &edges[ei].id);
                            let ghost q_before = string_views(queue@);
                            queue.push(neighbor.clone());
                            proof {
                                assert(string_views(queue@) =~= q_before.push(neighbor@));
                                assert(string_views(queue@).skip(head as int) =~= q_before.skip(
                                    head as int,
                                ).push(neighbor@));
                            }
                        }
                        t = t + 1;
                    }
                    proof {
                        assert(il.skip(list@.len() as int) =~= Seq::<int>::empty());
                    }
                },
                None => {
                    proof {
                        assert(il =~= Seq::<int>::empty());
                    }
                },
            }
            proof {
                let step = frontier_expand(evs, current@, il, vn1, max, ve0, q_rest);
                assert(step.0 == string_views(visited_edges@) && step.1 == string_views(
                    queue@,
                ).skip(head as int));
                assert(frontier_visit(evs, max, qs, vn0, ve0) == frontier_visit(
                    evs,
                    max,
                    step.1,
                    vn1,
                    step.0,
                ));
            }
        }
    }
    proof {
        let qs = string_views(queue@).skip(head as int);
        if qs.len() != 0 {
            assert(visited_nodes@.len() >= max_nodes);
        }
        assert(target == (string_views(visited_nodes@), string_views(visited_edges@)));
    }
    let sampled_nodes = resolve_nodes(nodes, &visited_nodes);
    let sampled_edges = edges_with_ids(edges, &visited_edges);
    SampleResult { sampled_nodes, sampled_edges }
}

} // verus!
