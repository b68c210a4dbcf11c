//! Graph data model: nodes, edges, sample results, and the shared
//! resolution / edge-selection steps of the result assembler.

use vstd::prelude::*;

verus! {

/// `serde_json::Value` carries node and edge properties through the engine
/// untouched; the engine never inspects such a value.
#[verifier::external_type_specification]
#[verifier::external_body]
pub struct ExJsonValue(serde_json::Value);

/// Relies on the `Clone` impl that serde_json derives for `Value`:
/// a deep copy, equal to the original value.
pub assume_specification[ <serde_json::Value as Clone>::clone ](
    v: &serde_json::Value,
) -> (r: serde_json::Value)
    ensures
        r == *v,
;

/// One named property of a node or an edge.
pub struct Property {
    pub name: String,
    pub value: serde_json::Value,
}

/// A graph node: an identifier, label strings, and opaque properties.
pub struct GraphNode {
    pub id: String,
    pub labels: Vec<String>,
    pub properties: Vec<Property>,
}

/// A graph edge between `source` and `target`, traversed as undirected.
pub struct GraphEdge {
    pub id: String,
    pub source: String,
    pub target: String,
    pub edge_type: String,
    pub properties: Vec<Property>,
}

/// The output of every sampling algorithm: a node subset and an edge subset.
pub struct SampleResult {
    pub sampled_nodes: Vec<GraphNode>,
    pub sampled_edges: Vec<GraphEdge>,
}

pub struct NodeView {
    pub id: Seq<char>,
    pub labels: Seq<String>,
    pub properties: Seq<Property>,
}

pub struct EdgeView {
    pub id: Seq<char>,
    pub source: Seq<char>,
    pub target: Seq<char>,
    pub edge_type: Seq<char>,
    pub properties: Seq<Property>,
}

impl View for GraphNode {
    type V = NodeView;

    open spec fn view(&self) -> NodeView {
        NodeView { id: self.id@, labels: self.labels@, properties: self.properties@ }
    }
}

impl View for GraphEdge {
    type V = EdgeView;

    open spec fn view(&self) -> EdgeView {
        EdgeView {
            id: self.id@,
            source: self.source@,
            target: self.target@,
            edge_type: self.edge_type@,
            properties: self.properties@,
        }
    }
}

pub open spec fn edge_views(s: Seq<GraphEdge>) -> Seq<EdgeView> {
    s.map_values(|e: GraphEdge| e@)
}

pub open spec fn node_ids(s: Seq<GraphNode>) -> Seq<Seq<char>> {
    s.map_values(|n: GraphNode| n.id@)
}

pub open spec fn string_views(s: Seq<String>) -> Seq<Seq<char>> {
    s.map_values(|x: String| x@)
}

pub open spec fn edge_ids(s: Seq<GraphEdge>) -> Seq<Seq<char>> {
    s.map_values(|e: GraphEdge| e.id@)
}

/// Whether some node of `nodes` carries the identifier `id`.
pub open spec fn resolves(nodes: Seq<GraphNode>, id: Seq<char>) -> bool {
    exists|i: int| 0 <= i < nodes.len() && nodes[i].id@ == id
}

pub(crate) fn clone_string_vec(v: &Vec<String>) -> (r: Vec<String>)
    ensures
        r@ == v@,
{
    let mut r: Vec<String> = Vec::new();
    let mut i: usize = 0;
    while i < v.len()
        invariant
            i <= v@.len(),
            r@.len() == i,
            forall|j: int| 0 <= j < i ==> r@[j] == v@[j],
        decreases v@.len() - i,
    {
        r.push(v[i].clone());
        i = i + 1;
    }
    proof {
        assert(r@ =~= v@);
    }
    r
}

fn clone_properties(v: &Vec<Property>) -> (r: Vec<Property>)
    ensures
        r@ == v@,
{
    let mut r: Vec<Property> = Vec::new();
    let mut i: usize = 0;
    while i < v.len()
        invariant
            i <= v@.len(),
            r@.len() == i,
            forall|j: int| 0 <= j < i ==> r@[j] == v@[j],
        decreases v@.len() - i,
    {
        let p = Property { name: v[i].name.clone(), value: v[i].value.clone() };
        r.push(p);
        i = i + 1;
    }
    proof {
        assert(r@ =~= v@);
    }
    r
}

pub fn clone_node(n: &GraphNode) -> (r: GraphNode)
    ensures
        r@ == n@,
{
    GraphNode {
        id: n.id.clone(),
        labels: clone_string_vec(&n.labels),
        properties: clone_properties(&n.properties),
    }
}

pub fn clone_edge(e: &GraphEdge) -> (r: GraphEdge)
    ensures
        r@ == e@,
{
    GraphEdge {
        id: e.id.clone(),
        source: e.source.clone(),
        target: e.target.clone(),
        edge_type: e.edge_type.clone(),
        properties: clone_properties(&e.properties),
    }
}

/// Whether the string sequence `ids` holds the character sequence `x`.
pub open spec fn contains_id(ids: Seq<Seq<char>>, x: Seq<char>) -> bool {
    ids.contains(x)
}

pub fn vec_contains_string(v: &Vec<String>, s: &String) -> (b: bool)
    ensures
        b == contains_id(string_views(v@), s@),
{
    let mut i: usize = 0;
    while i < v.len()
        invariant
            i <= v@.len(),
            forall|j: int| 0 <= j < i ==> string_views(v@)[j] != s@,
        decreases v@.len() - i,
    {
        if v[i].eq(s) {
            proof {
                assert(string_views(v@)[i as int] == s@);
            }
            return true;
        }
        i = i + 1;
    }
    proof {
        assert(forall|j: int|
            0 <= j < string_views(v@).len() ==> string_views(v@)[j] != s@);
    }
    false
}

/// Find the first node carrying the identifier `id`, if any.
pub fn find_node<'a>(nodes: &'a Vec<GraphNode>, id: &String) -> (r: Option<&'a GraphNode>)
    ensures
        match r {
            Some(n) => exists|i: int|
                0 <= i < nodes@.len() && nodes@[i].id@ == id@ && *n == nodes@[i],
            None => !resolves(nodes@, id@),
        },
{
    let mut i: usize = 0;
    while i < nodes.len()
        invariant
            i <= nodes@.len(),
            forall|j: int| 0 <= j < i ==> nodes@[j].id@ != id@,
        decreases nodes@.len() - i,
    {
        if nodes[i].id.eq(id) {
            proof {
                assert(nodes@[i as int].id@ == id@);
            }
            return Some(&nodes[i]);
        }
        i = i + 1;
    }
    None
}

/// The subsequence of `ids` whose identifiers resolve against `nodes`.
pub open spec fn resolvable_ids(nodes: Seq<GraphNode>, ids: Seq<Seq<char>>) -> Seq<Seq<char>>
    decreases ids.len(),
{
    if ids.len() == 0 {
        Seq::empty()
    } else {
        let rest = resolvable_ids(nodes, ids.drop_last());
        if resolves(nodes, ids.last()) {
            rest.push(ids.last())
        } else {
            rest
        }
    }
}

/// Resolution of a duplicate-free identifier list keeps it duplicate-free.
pub proof fn lemma_resolvable_ids_distinct(nodes: Seq<GraphNode>, ids: Seq<Seq<char>>)
    requires
        ids.no_duplicates(),
    ensures
        resolvable_ids(nodes, ids).no_duplicates(),
        forall|x: Seq<char>|
            #[trigger] resolvable_ids(nodes, ids).contains(x) ==> ids.contains(x),
    decreases ids.len(),
{
    if ids.len() > 0 {
        let rest = ids.drop_last();
        assert(forall|j: int| 0 <= j < rest.len() ==> rest[j] == ids[j]);
        assert(rest.no_duplicates());
        lemma_resolvable_ids_distinct(nodes, rest);
        let prev = resolvable_ids(nodes, rest);
        let full = resolvable_ids(nodes, ids);
        assert forall|x: Seq<char>| #[trigger] full.contains(x) implies ids.contains(x) by {
            let t = choose|t: int| 0 <= t < full.len() && full[t] == x;
            if t < prev.len() {
                assert(prev.contains(x));
                let j = choose|j: int| 0 <= j < rest.len() && rest[j] == x;
                assert(ids[j] == x);
            } else {
                assert(x == ids.last());
                assert(ids[ids.len() - 1] == x);
            }
        }
        if resolves(nodes, ids.last()) {
            assert(!prev.contains(ids.last())) by {
                if prev.contains(ids.last()) {
                    let j = choose|j: int| 0 <= j < rest.len() && rest[j] == ids.last();
                    assert(ids[j] == ids[ids.len() - 1]);
                }
            }
            assert forall|t1: int, t2: int|
                0 <= t1 < t2 < full.len() implies full[t1] != full[t2] by {
                if t2 == prev.len() {
                    assert(prev.contains(prev[t1]));
                }
            }
        }
    }
}

/// Whether `n` copies some node of `nodes` whose identifier lies in `ids`.
pub open spec fn node_from(nodes: Seq<GraphNode>, ids: Seq<Seq<char>>, n: GraphNode) -> bool {
    exists|i: int|
        0 <= i < nodes.len() && n@ == #[trigger] nodes[i]@ && contains_id(ids, nodes[i].id@)
}

/// Whether some node of `r` carries the identifier `id`.
pub open spec fn has_id(r: Seq<GraphNode>, id: Seq<char>) -> bool {
    exists|t: int| 0 <= t < r.len() && (#[trigger] r[t]).id@ == id
}

/// What resolution guarantees: every output node is (a copy of) an input
/// node whose identifier was asked for; every identifier that resolves is
/// represented; nothing else appears.
pub open spec fn resolution_post(
    nodes: Seq<GraphNode>,
    ids: Seq<Seq<char>>,
    r: Seq<GraphNode>,
) -> bool {
    &&& forall|t: int| 0 <= t < r.len() ==> node_from(nodes, ids, #[trigger] r[t])
    &&& forall|j: int|
        0 <= j < ids.len() && resolves(nodes, #[trigger] ids[j]) ==> has_id(r, ids[j])
    &&& forall|t: int| 0 <= t < r.len() ==> contains_id(ids, (#[trigger] r[t]).id@)
    &&& r.len() <= ids.len()
    &&& node_ids(r) == resolvable_ids(nodes, ids)
}

/// The result-assembler node step: resolve each visited identifier against
/// the supplied node list, silently dropping identifiers with no match.
pub fn resolve_nodes(nodes: &Vec<GraphNode>, ids: &Vec<String>) -> (r: Vec<GraphNode>)
    ensures
        resolution_post(nodes@, string_views(ids@), r@),
{
    let ghost svs = string_views(ids@);
    let mut r: Vec<GraphNode> = Vec::new();
    let mut k: usize = 0;
    while k < ids.len()
        invariant
            svs == string_views(ids@),
            k <= ids@.len(),
            r@.len() <= k,
            forall|t: int| 0 <= t < r@.len() ==> node_from(nodes@, svs, #[trigger] r@[t]),
            forall|j: int| 0 <= j < k && resolves(nodes@, #[trigger] svs[j]) ==> has_id(r@, svs[j]),
            forall|t: int| 0 <= t < r@.len() ==> contains_id(svs, (#[trigger] r@[t]).id@),
            node_ids(r@) == resolvable_ids(nodes@, svs.take(k as int)),
        decreases ids@.len() - k,
    {
        proof {
            assert(svs[k as int] == ids@[k as int]@);
            assert(svs.take(k + 1).drop_last() =~= svs.take(k as int));
            assert(svs.take(k + 1).last() == svs[k as int]);
        }
        match find_node(nodes, &ids[k]) {
            Some(n) => {
                let ghost i0 = choose|i: int|
                    0 <= i < nodes@.len() && nodes@[i].id@ == ids@[k as int]@ && *n == nodes@[i];
                let c = clone_node(n);
                let ghost before = r@;
                r.push(c);
                proof {
                    let t0 = before.len() as int;
                    assert(forall|t: int| 0 <= t < before.len() ==> r@[t] == before[t]);
                    assert(r@[t0]@ == nodes@[i0]@);
                    assert(r@[t0].id@ == nodes@[i0].id@);
                    assert(contains_id(svs, nodes@[i0].id@)) by {
                        assert(svs[k as int] == nodes@[i0].id@);
                    }
                    assert(node_from(nodes@, svs, r@[t0]));
                    assert(node_ids(r@) =~= node_ids(before).push(r@[t0].id@));
                    assert(resolves(nodes@, svs.take(k + 1).last()));
                    assert forall|j: int|
                        0 <= j < k + 1 && resolves(nodes@, #[trigger] svs[j]) implies has_id(
                        r@, svs[j],
                    ) by {
                        if j == k {
                            assert(r@[t0].id@ == svs[j]);
                        } else {
                            let t = choose|t: int|
                                0 <= t < before.len() && (#[trigger] before[t]).id@ == svs[j];
                            assert(r@[t].id@ == svs[j]);
                        }
                    }
                }
            },
            None => {
                proof {
                    assert(!resolves(nodes@, svs.take(k + 1).last()));
                }
            },
        }
        k = k + 1;
    }
    proof {
        assert(svs.take(ids@.len() as int) =~= svs);
    }
    r
}

/// The edges induced by a node-identifier set: exactly those whose source
/// and target identifiers both lie in `ids`, in input order.
pub open spec fn induced_edge_views(edges: Seq<EdgeView>, ids: Seq<Seq<char>>) -> Seq<EdgeView>
    decreases edges.len(),
{
    if edges.len() == 0 {
        Seq::empty()
    } else {
        let rest = induced_edge_views(edges.drop_last(), ids);
        let e = edges.last();
        if contains_id(ids, e.source) && contains_id(ids, e.target) {
            rest.push(e)
        } else {
            rest
        }
    }
}

/// The edges whose identifier lies in `ids`, in input order.
pub open spec fn edges_with_id_views(edges: Seq<EdgeView>, ids: Seq<Seq<char>>) -> Seq<EdgeView>
    decreases edges.len(),
{
    if edges.len() == 0 {
        Seq::empty()
    } else {
        let rest = edges_with_id_views(edges.drop_last(), ids);
        let e = edges.last();
        if contains_id(ids, e.id) {
            rest.push(e)
        } else {
            rest
        }
    }
}

pub fn induced_edges(edges: &Vec<GraphEdge>, ids: &Vec<String>) -> (r: Vec<GraphEdge>)
    ensures
        edge_views(r@) == induced_edge_views(edge_views(edges@), string_views(ids@)),
{
    let mut r: Vec<GraphEdge> = Vec::new();
    let mut i: usize = 0;
    while i < edges.len()
        invariant
            i <= edges@.len(),
            edge_views(r@) == induced_edge_views(
                edge_views(edges@).take(i as int),
                string_views(ids@),
            ),
        decreases edges@.len() - i,
    {
        let keep = vec_contains_string(ids, &edges[i].source)
            && vec_contains_string(ids, &edges[i].target);
        proof {
            let evs = edge_views(edges@);
            assert(evs.take(i + 1).drop_last() =~= evs.take(i as int));
            assert(evs.take(i + 1).last() == edges@[i as int]@);
        }
        if keep {
            let ghost before = edge_views(r@);
            r.push(clone_edge(&edges[i]));
            proof {
                assert(edge_views(r@) =~= before.push(edges@[i as int]@));
            }
        }
        i = i + 1;
    }
    proof {
        assert(edge_views(edges@).take(edges@.len() as int) =~= edge_views(edges@));
    }
    r
}

pub fn edges_with_ids(edges: &Vec<GraphEdge>, ids: &Vec<String>) -> (r: Vec<GraphEdge>)
    ensures
        edge_views(r@) == edges_with_id_views(edge_views(edges@), string_views(ids@)),
{
    let mut r: Vec<GraphEdge> = Vec::new();
    let mut i: usize = 0;
    while i < edges.len()
        invariant
            i <= edges@.len(),
            edge_views(r@) == edges_with_id_views(
                edge_views(edges@).take(i as int),
                string_views(ids@),
            ),
        decreases edges@.len() - i,
    {
        let keep = vec_contains_string(ids, &edges[i].id);
        proof {
            let evs = edge_views(edges@);
            assert(evs.take(i + 1).drop_last() =~= evs.take(i as int));
            assert(evs.take(i + 1).last() == edges@[i as int]@);
        }
        if keep {
            let ghost before = edge_views(r@);
            r.push(clone_edge(&edges[i]));
            proof {
                assert(edge_views(r@) =~= before.push(edges@[i as int]@));
            }
        }
        i = i + 1;
    }
    proof {
        assert(edge_views(edges@).take(edges@.len() as int) =~= edge_views(edges@));
    }
    r
}

/// Whether `e` is (the view of) one of the edges of `edges`.
pub open spec fn edge_view_from(edges: Seq<EdgeView>, e: EdgeView) -> bool {
    exists|i: int| 0 <= i < edges.len() && e == edges[i]
}

/// Every selected edge comes from the input and carries a selected identifier.
pub proof fn lemma_edges_with_ids_entries(edges: Seq<EdgeView>, ids: Seq<Seq<char>>)
    ensures
        forall|k: int|
            0 <= k < edges_with_id_views(edges, ids).len() ==> edge_view_from(
                edges,
                #[trigger] edges_with_id_views(edges, ids)[k],
            ) && contains_id(ids, edges_with_id_views(edges, ids)[k].id),
    decreases edges.len(),
{
    if edges.len() > 0 {
        lemma_edges_with_ids_entries(edges.drop_last(), ids);
        let prev = edges_with_id_views(edges.drop_last(), ids);
        let full = edges_with_id_views(edges, ids);
        assert forall|k: int| #![trigger full[k]] 0 <= k < full.len() implies edge_view_from(
            edges,
            full[k],
        ) && contains_id(ids, full[k].id) by {
            if k < prev.len() {
                assert(full[k] == prev[k]);
                let i = choose|i: int|
                    0 <= i < edges.drop_last().len() && prev[k] == edges.drop_last()[i];
                assert(edges[i] == edges.drop_last()[i]);
            } else {
                assert(full[k] == edges.last());
                assert(edges[edges.len() - 1] == edges.last());
            }
        }
    }
}

/// Every induced edge comes from the input and has both endpoints selected.
pub proof fn lemma_induced_entries(edges: Seq<EdgeView>, ids: Seq<Seq<char>>)
    ensures
        forall|k: int|
            0 <= k < induced_edge_views(edges, ids).len() ==> edge_view_from(
                edges,
                #[trigger] induced_edge_views(edges, ids)[k],
            ) && contains_id(ids, induced_edge_views(edges, ids)[k].source) && contains_id(
                ids,
                induced_edge_views(edges, ids)[k].target,
            ),
    decreases edges.len(),
{
    if edges.len() > 0 {
        lemma_induced_entries(edges.drop_last(), ids);
        let prev = induced_edge_views(edges.drop_last(), ids);
        let full = induced_edge_views(edges, ids);
        assert forall|k: int| #![trigger full[k]] 0 <= k < full.len() implies edge_view_from(
            edges,
            full[k],
        ) && contains_id(ids, full[k].source) && contains_id(ids, full[k].target) by {
            if k < prev.len() {
                assert(full[k] == prev[k]);
                let i = choose|i: int|
                    0 <= i < edges.drop_last().len() && prev[k] == edges.drop_last()[i];
                assert(edges[i] == edges.drop_last()[i]);
            } else {
                assert(full[k] == edges.last());
                assert(edges[edges.len() - 1] == edges.last());
            }
        }
    }
}

/// `ids` extended with `x` unless it is already present.
pub open spec fn insert_unique(ids: Seq<Seq<char>>, x: Seq<char>) -> Seq<Seq<char>> {
    if ids.contains(x) {
        ids
    } else {
        ids.push(x)
    }
}

/// Record an identifier in a visited set kept as a duplicate-free vector.
pub fn push_unique(v: &mut Vec<String>, s: &String)
    ensures
        string_views(final(v)@) == insert_unique(string_views(old(v)@), s@),
        contains_id(string_views(final(v)@), s@),
        forall|x: Seq<char>|
            contains_id(string_views(old(v)@), x) ==> contains_id(string_views(final(v)@), x),
        string_views(old(v)@).no_duplicates() ==> string_views(final(v)@).no_duplicates(),
        forall|t: int|
            0 <= t < final(v)@.len() ==> (t < old(v)@.len() && final(v)@[t] == old(v)@[t]) || (
            #[trigger] final(v)@[t])@ == s@,
        old(v)@.len() <= final(v)@.len() <= old(v)@.len() + 1,
{
    let present = vec_contains_string(v, s);
    if !present {
        let ghost before = string_views(v@);
        v.push(s.clone());
        proof {
            assert(string_views(v@) =~= before.push(s@));
            assert forall|x: Seq<char>|
                contains_id(before, x) implies contains_id(string_views(v@), x) by {
                let t = choose|t: int| 0 <= t < before.len() && before[t] == x;
                assert(string_views(v@)[t] == x);
            }
            assert(contains_id(string_views(v@), s@)) by {
                assert(string_views(v@)[before.len() as int] == s@);
            }
            if before.no_duplicates() {
                assert forall|t1: int, t2: int|
                    0 <= t1 < t2 < string_views(v@).len() implies string_views(v@)[t1]
                    != string_views(v@)[t2] by {
                    if t2 == before.len() {
                        assert(!contains_id(before, s@));
                        assert(before[t1] != s@);
                    }
                }
            }
        }
    }
}

} // verus!
