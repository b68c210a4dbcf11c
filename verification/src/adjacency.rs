//! Adjacency index: maps a node identifier to the list of incident edges,
//! indexing each edge under both of its endpoints (self-loops twice under
//! the same key), with no deduplication.

use vstd::prelude::*;

use crate::graph::{edge_views, EdgeView, GraphEdge};

verus! {

/// Whether the edge `e` is incident to the identifier `id`.
pub open spec fn touches(e: EdgeView, id: Seq<char>) -> bool {
    e.source == id || e.target == id
}

/// The incident-edge list for `id`: edge indices in input order, the source
/// incidence before the target incidence, so a self-loop appears twice.
pub open spec fn incident_list(edges: Seq<EdgeView>, id: Seq<char>) -> Seq<int>
    decreases edges.len(),
{
    if edges.len() == 0 {
        Seq::empty()
    } else {
        let prev = incident_list(edges.drop_last(), id);
        let i = edges.len() - 1;
        let e = edges.last();
        let with_source = if e.source == id {
            prev.push(i as int)
        } else {
            prev
        };
        if e.target == id {
            with_source.push(i as int)
        } else {
            with_source
        }
    }
}

/// Every entry of an incident list indexes an edge that touches the key.
pub proof fn lemma_incident_list_entries(edges: Seq<EdgeView>, id: Seq<char>)
    ensures
        forall|k: int|
            0 <= k < incident_list(edges, id).len() ==> {
                let i = #[trigger] incident_list(edges, id)[k];
                0 <= i < edges.len() && touches(edges[i], id)
            },
    decreases edges.len(),
{
    if edges.len() > 0 {
        lemma_incident_list_entries(edges.drop_last(), id);
        assert(forall|i: int|
            0 <= i < edges.len() - 1 ==> edges.drop_last()[i] == edges[i]);
        let prev = incident_list(edges.drop_last(), id);
        let full = incident_list(edges, id);
        assert forall|k: int| #![trigger full[k]] 0 <= k < full.len() implies {
            let i = full[k];
            0 <= i < edges.len() && touches(edges[i], id)
        } by {
            if k < prev.len() {
                assert(full[k] == prev[k]);
            } else {
                assert(full[k] == edges.len() - 1);
            }
        }
    }
}

/// An identifier that no edge touches has an empty incident list.
pub proof fn lemma_incident_list_empty(edges: Seq<EdgeView>, id: Seq<char>)
    requires
        forall|i: int| 0 <= i < edges.len() ==> !touches(#[trigger] edges[i], id),
    ensures
        incident_list(edges, id) =~= Seq::<int>::empty(),
    decreases edges.len(),
{
    if edges.len() > 0 {
        assert(forall|i: int|
            0 <= i < edges.len() - 1 ==> edges.drop_last()[i] == edges[i]);
        lemma_incident_list_empty(edges.drop_last(), id);
        assert(!touches(edges.last(), id));
    }
}

/// How one more edge extends an incident list.
pub proof fn lemma_incident_list_push(edges: Seq<EdgeView>, e: EdgeView, id: Seq<char>)
    ensures
        incident_list(edges.push(e), id) == {
            let i = edges.len() as int;
            let with_source = if e.source == id {
                incident_list(edges, id).push(i)
            } else {
                incident_list(edges, id)
            };
            if e.target == id {
                with_source.push(i)
            } else {
                with_source
            }
        },
{
    assert(edges.push(e).drop_last() =~= edges);
    assert(edges.push(e).last() == e);
}

/// The adjacency index: distinct keys, each with its incident-edge list
/// (as indices into the edge list the index was built from).
pub struct AdjacencyIndex {
    pub keys: Vec<String>,
    pub lists: Vec<Vec<usize>>,
}

pub open spec fn usizes_as_ints(s: Seq<usize>) -> Seq<int> {
    s.map_values(|x: usize| x as int)
}

pub proof fn lemma_usizes_as_ints_push(s: Seq<usize>, x: usize)
    ensures
        usizes_as_ints(s.push(x)) == usizes_as_ints(s).push(x as int),
{
    assert(usizes_as_ints(s.push(x)) =~= usizes_as_ints(s).push(x as int));
}

impl AdjacencyIndex {
    /// Well-formedness with respect to the edge list the index was built
    /// from: keys are distinct, each key's list is exactly its incident
    /// list, and every edge endpoint has a key.
    pub open spec fn wf(&self, edges: Seq<EdgeView>) -> bool {
        &&& self.keys@.len() == self.lists@.len()
        &&& forall|j1: int, j2: int|
            0 <= j1 < j2 < self.keys@.len() ==> (#[trigger] self.keys@[j1])@
                != (#[trigger] self.keys@[j2])@
        &&& forall|j: int|
            0 <= j < self.lists@.len() ==> usizes_as_ints((#[trigger] self.lists@[j])@)
                == incident_list(edges, self.keys@[j]@)
        &&& forall|i: int|
            0 <= i < edges.len() ==> self.has_key((#[trigger] edges[i]).source)
                && self.has_key(edges[i].target)
    }

    pub open spec fn has_key(&self, id: Seq<char>) -> bool {
        exists|j: int| 0 <= j < self.keys@.len() && (#[trigger] self.keys@[j])@ == id
    }

    /// Build the index from an edge list, one pass, both endpoints of
    /// every edge.
    pub fn build(edges: &Vec<GraphEdge>) -> (r: AdjacencyIndex)
        ensures
            r.wf(edge_views(edges@)),
    {
        let ghost evs = edge_views(edges@);
        let mut r = AdjacencyIndex { keys: Vec::new(), lists: Vec::new() };
        let mut i: usize = 0;
        while i < edges.len()
            invariant
                evs == edge_views(edges@),
                i <= edges@.len(),
                r.wf(evs.take(i as int)),
            decreases edges@.len() - i,
        {
            let ghost pre = evs.take(i as int);
            let ghost cur = evs[i as int];
            proof {
                assert(evs.take(i + 1) =~= pre.push(cur));
                assert(cur == edges@[i as int]@);
            }
            let ghost s0 = r;
            r.record_incidence(&edges[i].source, i, Ghost(pre));
            let ghost s1 = r;
            r.record_incidence(&edges[i].target, i, Ghost(pre));
            proof {
                let n0 = s0.keys@.len() as int;
                let n1 = s1.keys@.len() as int;
                assert forall|j: int| 0 <= j < r.lists@.len() implies usizes_as_ints(
                    (#[trigger] r.lists@[j])@,
                ) == incident_list(pre.push(cur), r.keys@[j]@) by {
                    let key = r.keys@[j]@;
                    lemma_incident_list_push(pre, cur, key);
                    if j < n1 {
                        assert(r.keys@[j] == s1.keys@[j]);
                    }
                    if j < n0 {
                        assert(s1.keys@[j] == s0.keys@[j]);
                        assert(usizes_as_ints(s0.lists@[j]@) == incident_list(pre, key));
                    } else {
                        // the key was created by one of the two calls, so no
                        // edge of the prefix touches it
                        if j < n1 {
                            assert(key == cur.source);
                            assert(!s0.has_key(key));
                        } else {
                            assert(key == cur.target);
                            assert(!s1.has_key(key));
                            assert(s1.has_key(cur.source));
                            assert(key != cur.source);
                            assert forall|t: int|
                                0 <= t < n0 implies (#[trigger] s0.keys@[t])@ != key by {
                                assert(s1.keys@[t] == s0.keys@[t]);
                            }
                            assert(!s0.has_key(key));
                        }
                        lemma_incident_list_entries(pre, key);
                        if incident_list(pre, key).len() > 0 {
                            let t = incident_list(pre, key)[0];
                            assert(touches(pre[t], key));
                            assert(s0.has_key(pre[t].source) && s0.has_key(pre[t].target));
                            assert(false);
                        }
                        assert(incident_list(pre, key) =~= Seq::<int>::empty());
                        assert(usizes_as_ints(Seq::<usize>::empty()) =~= Seq::<int>::empty());
                    }
                    let l0: Seq<usize> = if j < n0 {
                        s0.lists@[j]@
                    } else {
                        Seq::<usize>::empty()
                    };
                    let l1: Seq<usize> = if key == cur.source {
                        l0.push(i)
                    } else {
                        l0
                    };
                    let l2: Seq<usize> = if key == cur.target {
                        l1.push(i)
                    } else {
                        l1
                    };
                    assert(usizes_as_ints(l0) == incident_list(pre, key));
                    // what the two record calls left at j
                    if j < n1 {
                        assert(s1.lists@[j]@ == l1) by {
                            if key == cur.source && j >= n0 {
                                assert(s1.lists@[j]@ =~= Seq::<usize>::empty().push(i));
                            }
                        }
                    }
                    assert(r.lists@[j]@ == l2) by {
                        if key == cur.target && j >= n1 {
                            assert(r.lists@[j]@ =~= l1.push(i));
                        }
                    }
                    assert(usizes_as_ints(l1) == if key == cur.source {
                        incident_list(pre, key).push(i as int)
                    } else {
                        incident_list(pre, key)
                    }) by {
                        if key == cur.source {
                            lemma_usizes_as_ints_push(l0, i);
                        }
                    }
                    assert(usizes_as_ints(l2) == incident_list(pre.push(cur), key)) by {
                        if key == cur.target {
                            lemma_usizes_as_ints_push(l1, i);
                        }
                    }
                }
                assert forall|t: int|
                    0 <= t < pre.push(cur).len() implies r.has_key(
                    (#[trigger] pre.push(cur)[t]).source,
                ) && r.has_key(pre.push(cur)[t].target) by {
                    if t < pre.len() {
                        assert(s0.has_key(pre[t].source) && s0.has_key(pre[t].target));
                    }
                }
                assert(r.wf(evs.take(i + 1)));
            }
            i = i + 1;
        }
        proof {
            assert(evs.take(edges@.len() as int) =~= evs);
        }
        r
    }

    /// Append edge index `i`    /// Append edge index `i` to the list of key `id`, creating the key if
    /// it is new.
    fn record_incidence(&mut self, id: &String, i: usize, Ghost(edges): Ghost<Seq<EdgeView>>)
        requires
            old(self).keys@.len() == old(self).lists@.len(),
            forall|j1: int, j2: int|
                0 <= j1 < j2 < old(self).keys@.len() ==> (#[trigger] old(self).keys@[j1])@
                    != (#[trigger] old(self).keys@[j2])@,
        ensures
            final(self).keys@.len() == final(self).lists@.len(),
            forall|j1: int, j2: int|
                0 <= j1 < j2 < final(self).keys@.len() ==> (#[trigger] final(self).keys@[j1])@
                    != (#[trigger] final(self).keys@[j2])@,
            old(self).keys@.len() <= final(self).keys@.len() <= old(self).keys@.len() + 1,
            forall|j: int| 0 <= j < old(self).keys@.len() ==> final(self).keys@[j] == old(self).keys@[j],
            forall|j: int|
                old(self).keys@.len() <= j < final(self).keys@.len() ==> (#[trigger] final(self).keys@[j])@
                    == id@,
            final(self).keys@.len() > old(self).keys@.len() ==> !old(self).has_key(id@),
            final(self).has_key(id@),
            forall|x: Seq<char>| old(self).has_key(x) ==> final(self).has_key(x),
            forall|j: int|
                0 <= j < final(self).keys@.len() ==> (#[trigger] final(self).lists@[j])@ == (
                if final(self).keys@[j]@ == id@ {
                    if j < old(self).keys@.len() {
                        old(self).lists@[j]@.push(i)
                    } else {
                        seq![i]
                    }
                } else {
                    old(self).lists@[j]@
                }),
    {
        let mut j: usize = 0;
        let n = self.keys.len();
        while j < n
            invariant
                n == self.keys@.len(),
                self.keys@.len() == self.lists@.len(),
                j <= n,
                *self == *old(self),
                forall|t1: int, t2: int|
                    0 <= t1 < t2 < old(self).keys@.len() ==> (#[trigger] old(self).keys@[t1])@
                        != (#[trigger] old(self).keys@[t2])@,
                forall|t: int| 0 <= t < j ==> (#[trigger] self.keys@[t])@ != id@,
            decreases n - j,
        {
            if self.keys[j].eq(id) {
                proof {
                    assert(self.keys@[j as int]@ == id@);
                }
                let ghost oldlist = self.lists@[j as int]@;
                let lj = &mut self.lists[j];
                lj.push(i);
                proof {
                    assert(self.keys@ == old(self).keys@);
                    assert(self.lists@[j as int]@ == oldlist.push(i));
                    assert(self.has_key(id@)) by {
                        assert(self.keys@[j as int]@ == id@);
                    }
                    assert forall|t1: int, t2: int|
                        0 <= t1 < t2 < self.keys@.len() implies (#[trigger] self.keys@[t1])@ != (
                    #[trigger] self.keys@[t2])@ by {
                        assert(self.keys@[t1] == old(self).keys@[t1]);
                        assert(self.keys@[t2] == old(self).keys@[t2]);
                        assert((old(self).keys@[t1])@ != (old(self).keys@[t2])@);
                    }
                    assert forall|t: int| 0 <= t < self.keys@.len() implies (
                    #[trigger] self.lists@[t])@ == (if self.keys@[t]@ == id@ {
                        if t < old(self).keys@.len() {
                            old(self).lists@[t]@.push(i)
                        } else {
                            seq![i]
                        }
                    } else {
                        old(self).lists@[t]@
                    }) by {
                        if t != j as int {
                            assert(self.lists@[t] == old(self).lists@[t]);
                            if self.keys@[t]@ == id@ {
                                assert(old(self).keys@[t]@ == id@);
                                assert(old(self).keys@[j as int]@ == id@);
                                if t < j as int {
                                    assert(old(self).keys@[t]@ != old(self).keys@[j as int]@);
                                } else {
                                    assert(old(self).keys@[j as int]@ != old(self).keys@[t]@);
                                }
                                assert(false);
                            }
                        }
                    }
                }
                return ;
            }
            j = j + 1;
        }
        self.keys.push(id.clone());
        let mut single: Vec<usize> = Vec::new();
        single.push(i);
        self.lists.push(single);
        proof {
            let jn = old(self).keys@.len() as int;
            assert(self.keys@[jn]@ == id@);
            assert(self.lists@[jn]@ =~= seq![i]);
            assert(self.has_key(id@));
            assert forall|x: Seq<char>| old(self).has_key(x) implies self.has_key(x) by {
                let t = choose|t: int|
                    0 <= t < old(self).keys@.len() && (#[trigger] old(self).keys@[t])@ == x;
                assert(self.keys@[t]@ == x);
            }
        }
    }

    /// Look up the incident-edge list for `id`; `None` means no edge
    /// touches `id`.
    pub fn get<'a>(&'a self, id: &String, Ghost(edges): Ghost<Seq<EdgeView>>) -> (r: Option<
        &'a Vec<usize>,
    >)
        requires
            self.wf(edges),
        ensures
            match r {
                Some(l) => usizes_as_ints(l@) == incident_list(edges, id@),
                None => incident_list(edges, id@) == Seq::<int>::empty(),
            },
    {
        let mut j: usize = 0;
        let n = self.keys.len();
        while j < n
            invariant
                n == self.keys@.len(),
                self.wf(edges),
                j <= n,
                forall|t: int| 0 <= t < j ==> (#[trigger] self.keys@[t])@ != id@,
            decreases n - j,
        {
            if self.keys[j].eq(id) {
                proof {
                    assert(self.keys@[j as int]@ == id@);
                }
                return Some(&self.lists[j]);
            }
            j = j + 1;
        }
        proof {
            assert forall|i: int| 0 <= i < edges.len() implies !touches(
                #[trigger] edges[i], id@,
            ) by {
                if touches(edges[i], id@) {
                    assert(self.has_key(edges[i].source) && self.has_key(edges[i].target));
                }
            }
            lemma_incident_list_empty(edges, id@);
        }
        None
    }
}

} // verus!
