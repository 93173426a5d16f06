use vstd::prelude::*;

use crate::graph::{Edge, Graph};

verus! {

/// `v` is an endpoint of one of the first `i` edges and of one of the edges
/// from position `i` on: the vertices alive after `i` decisions.
pub open spec fn in_frontier(edges: Seq<Edge>, i: int, v: int) -> bool {
    &&& exists|j: int| 0 <= j < i && #[trigger] edges[j].touches(v)
    &&& exists|k: int| i <= k < edges.len() && #[trigger] edges[k].touches(v)
}

/// `v` is an endpoint of some edge after position `i`.
pub open spec fn touched_after(edges: Seq<Edge>, i: int, v: int) -> bool {
    exists|k: int| i < k < edges.len() && #[trigger] edges[k].touches(v)
}

/// `v` is an endpoint of some edge.
pub open spec fn on_some_edge(edges: Seq<Edge>, v: int) -> bool {
    exists|j: int| 0 <= j < edges.len() && #[trigger] edges[j].touches(v)
}

pub open spec fn vertex_in_range(g: Graph, v: usize) -> bool {
    1 <= v <= g.spec_num_vertices()
}

pub open spec fn edges_in_range(g: Graph) -> bool {
    forall|j: int|
        0 <= j < g.spec_edges().len() ==> vertex_in_range(g, #[trigger] g.spec_edges()[j].src)
            && vertex_in_range(g, g.spec_edges()[j].dst)
}

/// Why a graph and a pair of terminals cannot be searched.
#[derive(Debug, Clone, Copy, PartialEq, Eq, Structural)]
pub enum StateError {
    EmptyEdgeList,
    InvalidVertex,
    SameEndpoints,
    EndpointWithoutEdge,
}

/// The first rule that `(g, s, t)` breaks, in the order the rules are checked.
pub open spec fn input_error(g: Graph, s: usize, t: usize) -> Option<StateError> {
    if g.spec_edges().len() == 0 {
        Some(StateError::EmptyEdgeList)
    } else if !edges_in_range(g) || !vertex_in_range(g, s) || !vertex_in_range(g, t) {
        Some(StateError::InvalidVertex)
    } else if s == t {
        Some(StateError::SameEndpoints)
    } else if !on_some_edge(g.spec_edges(), s as int) || !on_some_edge(g.spec_edges(), t as int) {
        Some(StateError::EndpointWithoutEdge)
    } else {
        None
    }
}

/// `f[i]` lists exactly the frontier after `i` decisions, each vertex once,
/// for every `i` from 0 to the edge count; a row is at most two longer than
/// the one before.
pub open spec fn frontier_table(edges: Seq<Edge>, f: Seq<Seq<usize>>) -> bool {
    &&& f.len() == edges.len() + 1
    &&& forall|i: int| 0 <= i <= edges.len() ==> (#[trigger] f[i]).no_duplicates()
    &&& forall|i: int| 1 <= i <= edges.len() ==> (#[trigger] f[i]).len() <= f[i - 1].len() + 2
    &&& forall|i: int, v: usize|
        #![trigger f[i].contains(v)]
        #![trigger in_frontier(edges, i, v as int)]
        0 <= i <= edges.len() ==> (f[i].contains(v) <==> in_frontier(edges, i, v as int))
}

/// One step of the frontier: a vertex is alive after edge `i` iff it was alive
/// before or is an endpoint of edge `i`, and, if it is an endpoint, it appears later.
pub proof fn lemma_frontier_step(edges: Seq<Edge>, i: int, v: int)
    requires
        0 <= i < edges.len(),
    ensures
        in_frontier(edges, i + 1, v) <==> ((in_frontier(edges, i, v) || edges[i].touches(v)) && (
        edges[i].touches(v) ==> touched_after(edges, i, v))),
{
    if in_frontier(edges, i + 1, v) {
        let j = choose|j: int| 0 <= j < i + 1 && #[trigger] edges[j].touches(v);
        let k = choose|k: int| i + 1 <= k < edges.len() && #[trigger] edges[k].touches(v);
        assert(touched_after(edges, i, v));
        if !edges[i].touches(v) {
            assert(j < i);
            assert(in_frontier(edges, i, v));
        }
    }
    if (in_frontier(edges, i, v) || edges[i].touches(v)) && (edges[i].touches(v) ==> touched_after(
        edges,
        i,
        v,
    )) {
        if edges[i].touches(v) {
            let k = choose|k: int| i < k < edges.len() && #[trigger] edges[k].touches(v);
            assert(edges[i].touches(v));
        } else {
            let j = choose|j: int| 0 <= j < i && #[trigger] edges[j].touches(v);
            let k = choose|k: int| i <= k < edges.len() && #[trigger] edges[k].touches(v);
            assert(k != i);
            assert(edges[j].touches(v));
            assert(edges[k].touches(v));
        }
    }
}

/// An alive vertex is an endpoint of some edge, so it is a vertex of the graph.
pub proof fn lemma_frontier_vertex_in_range(g: Graph, i: int, v: int)
    requires
        edges_in_range(g),
        in_frontier(g.spec_edges(), i, v),
    ensures
        1 <= v <= g.spec_num_vertices(),
{
    let j = choose|j: int| 0 <= j < i && #[trigger] g.spec_edges()[j].touches(v);
    let k = choose|k: int| i <= k < g.spec_edges().len() && #[trigger] g.spec_edges()[k].touches(v);
    assert(vertex_in_range(g, g.spec_edges()[k].src));
}

/// Nothing is alive before the first decision or after the last.
pub proof fn lemma_frontier_ends_empty(edges: Seq<Edge>, v: int)
    ensures
        !in_frontier(edges, 0, v),
        !in_frontier(edges, edges.len() as int, v),
{
}

/// `a` pushed onto `s`: the new sequence holds `y` iff `s` did or `y` is `a`.
pub(crate) proof fn lemma_push_contains(s: Seq<usize>, a: usize, y: usize)
    ensures
        s.push(a).contains(y) <==> (s.contains(y) || y == a),
{
    if s.contains(y) {
        let q = choose|q: int| 0 <= q < s.len() && s[q] == y;
        assert(s.push(a)[q] == y);
    }
    if s.push(a).contains(y) && y != a {
        let q = choose|q: int| 0 <= q < s.push(a).len() && s.push(a)[q] == y;
        assert(s[q] == y);
    }
    assert(s.push(a)[s.len() as int] == a);
}

/// `list` holds `v`.
pub(crate) fn contains_vertex(list: &Vec<usize>, v: usize) -> (r: bool)
    ensures
        r == list@.contains(v),
{
    let mut k: usize = 0;
    while k < list.len()
        invariant
            k <= list.len(),
            forall|q: int| 0 <= q < k ==> list@[q] != v,
        decreases list.len() - k,
    {
        if list[k] == v {
            return true;
        }
        k += 1;
    }
    false
}

/// `list` with every occurrence of `v` taken out.
fn without_vertex(list: &Vec<usize>, v: usize) -> (r: Vec<usize>)
    ensures
        forall|y: usize| #[trigger] r@.contains(y) <==> (list@.contains(y) && y != v),
        r@.len() <= list@.len(),
        list@.no_duplicates() ==> r@.no_duplicates(),
{
    let mut r: Vec<usize> = Vec::new();
    let mut k: usize = 0;
    while k < list.len()
        invariant
            k <= list.len(),
            forall|y: usize|
                #[trigger] r@.contains(y) <==> (y != v && exists|q: int|
                    0 <= q < k && #[trigger] list@[q] == y),
            r@.len() <= k,
            list@.no_duplicates() ==> r@.no_duplicates(),
        decreases list.len() - k,
    {
        let a = list[k];
        let ghost r0 = r@;
        if a != v {
            proof {
                if list@.no_duplicates() && r0.contains(a) {
                    let q = choose|q: int| 0 <= q < k && #[trigger] list@[q] == a;
                    assert(list@[q] == list@[k as int]);
                }
            }
            r.push(a);
        }
        proof {
            assert forall|y: usize|
                #[trigger] r@.contains(y) <==> (y != v && exists|q: int|
                    0 <= q < k + 1 && #[trigger] list@[q] == y) by {
                if a != v {
                    lemma_push_contains(r0, a, y);
                }
                if y != v && list@[k as int] == y {
                    assert(r@.contains(y));
                }
            }
        }
        k += 1;
    }
    r
}

pub struct State {
    graph: Graph,
    s: usize,
    t: usize,
    frontier: Vec<Vec<usize>>,
}

impl State {
    pub closed spec fn spec_graph(&self) -> Graph {
        self.graph
    }

    pub closed spec fn spec_s(&self) -> usize {
        self.s
    }

    pub closed spec fn spec_t(&self) -> usize {
        self.t
    }

    pub closed spec fn spec_frontier(&self) -> Seq<Seq<usize>> {
        self.frontier@.map_values(|l: Vec<usize>| l@)
    }

    pub open spec fn spec_edges(&self) -> Seq<Edge> {
        self.spec_graph().spec_edges()
    }

    /// Valid input, and a frontier table that matches the graph.
    pub open spec fn wf(&self) -> bool {
        &&& input_error(self.spec_graph(), self.spec_s(), self.spec_t()) is None
        &&& self.spec_graph().spec_num_vertices() < usize::MAX
        &&& self.spec_edges().len() < usize::MAX
        &&& frontier_table(self.spec_edges(), self.spec_frontier())
    }

    pub fn graph(&self) -> (r: &Graph)
        ensures
            *r == self.spec_graph(),
    {
        &self.graph
    }

    pub fn get_s(&self) -> (r: usize)
        ensures
            r == self.spec_s(),
    {
        self.s
    }

    pub fn get_t(&self) -> (r: usize)
        ensures
            r == self.spec_t(),
    {
        self.t
    }

    /// The vertices alive after `i` decisions.
    pub fn frontier_at(&self, i: usize) -> (r: &Vec<usize>)
        requires
            i < self.spec_frontier().len(),
        ensures
            r@ == self.spec_frontier()[i as int],
    {
        &self.frontier[i]
    }

    /// Checks the input and computes the frontier table.
    pub fn new(graph: Graph, start: usize, end: usize) -> (r: Result<Self, StateError>)
        requires
            graph.spec_num_vertices() < usize::MAX,
        ensures
            r is Err <==> input_error(graph, start, end) is Some,
            r is Err ==> r->Err_0 == input_error(graph, start, end)->0,
            r is Ok ==> {
                let st = r->Ok_0;
                &&& st.wf()
                &&& st.spec_graph() == graph
                &&& st.spec_s() == start
                &&& st.spec_t() == end
            },
    {
        let nv = graph.get_number_of_vertices();
        let edges = graph.get_edge_list();
        if edges.len() == 0 {
            return Err(StateError::EmptyEdgeList);
        }
        let mut k: usize = 0;
        while k < edges.len()
            invariant
                edges@ == graph.spec_edges(),
                nv == graph.spec_num_vertices(),
                k <= edges.len(),
                forall|j: int|
                    0 <= j < k ==> vertex_in_range(graph, #[trigger] edges@[j].src)
                        && vertex_in_range(graph, edges@[j].dst),
            decreases edges.len() - k,
        {
            let e = edges[k];
            if e.src < 1 || e.src > nv || e.dst < 1 || e.dst > nv {
                return Err(StateError::InvalidVertex);
            }
            assert(e == edges@[k as int]);
            assert forall|j: int|
                0 <= j < k + 1 implies vertex_in_range(graph, #[trigger] edges@[j].src)
                    && vertex_in_range(graph, edges@[j].dst) by {
                if j == k {
                    assert(vertex_in_range(graph, e.src));
                }
            }
            k += 1;
        }
        if start < 1 || start > nv || end < 1 || end > nv {
            return Err(StateError::InvalidVertex);
        }
        if start == end {
            return Err(StateError::SameEndpoints);
        }
        if !find_element_from(&graph, 0, start) || !find_element_from(&graph, 0, end) {
            return Err(StateError::EndpointWithoutEdge);
        }
        let frontier = State::compute_frontier(&graph);
        let st = State { graph, s: start, t: end, frontier };
        proof {
            assert(st.spec_frontier() =~= frontier@.map_values(|l: Vec<usize>| l@));
            assert(frontier.len() == graph.spec_edges().len() + 1);
        }
        Ok(st)
    }

    /// For every `i`, the vertices alive after `i` decisions, each listed once,
    /// in the order they first appeared.
    fn compute_frontier(graph: &Graph) -> (r: Vec<Vec<usize>>)
        ensures
            frontier_table(graph.spec_edges(), r@.map_values(|l: Vec<usize>| l@)),
    {
        let edge_list = graph.get_edge_list();
        let ghost edges = graph.spec_edges();
        let mut frontier: Vec<Vec<usize>> = Vec::new();
        frontier.push(Vec::new());
        proof {
            assert forall|v: usize| !in_frontier(edges, 0, v as int) by {
                lemma_frontier_ends_empty(edges, v as int);
            }
        }
        let mut i: usize = 0;
        while i < edge_list.len()
            invariant
                edge_list@ == edges,
                edges == graph.spec_edges(),
                i <= edge_list.len(),
                frontier.len() == i + 1,
                forall|l: int, v: usize|
                    #![trigger frontier@[l]@.contains(v)]
                    0 <= l <= i ==> (frontier@[l]@.contains(v) <==> in_frontier(edges, l, v as int)),
                forall|l: int| 0 <= l <= i ==> (#[trigger] frontier@[l])@.no_duplicates(),
                forall|l: int|
                    1 <= l <= i ==> (#[trigger] frontier@[l])@.len() <= frontier@[l - 1]@.len() + 2,
            decreases edge_list.len() - i,
        {
            let mut next: Vec<usize> = Vec::new();
            let cur = &frontier[i];
            let mut j: usize = 0;
            while j < cur.len()
                invariant
                    j <= cur.len(),
                    next@ == cur@.subrange(0, j as int),
                decreases cur.len() - j,
            {
                next.push(cur[j]);
                j += 1;
            }
            assert(cur@.subrange(0, cur.len() as int) == cur@);
            assert(next@.no_duplicates());
            let edge = edge_list[i];
            let src = edge.src;
            let dst = edge.dst;
            let ghost n0 = next@;
            if !contains_vertex(&next, src) {
                next.push(src);
                proof {
                    assert forall|v: usize| next@.contains(v) <==> (n0.contains(v) || v == src) by {
                        lemma_push_contains(n0, src, v);
                    }
                    assert forall|a: int, b: int|
                        0 <= a < next@.len() && 0 <= b < next@.len() && a != b implies next@[a]
                        != next@[b] by {
                        if a < n0.len() && b < n0.len() {
                            assert(n0[a] != n0[b]);
                        } else if a < n0.len() {
                            assert(n0.contains(n0[a]));
                        } else if b < n0.len() {
                            assert(n0.contains(n0[b]));
                        }
                    }
                }
            }
            let ghost n1 = next@;
            if !contains_vertex(&next, dst) {
                next.push(dst);
                proof {
                    assert forall|v: usize| next@.contains(v) <==> (n1.contains(v) || v == dst) by {
                        lemma_push_contains(n1, dst, v);
                    }
                    assert forall|a: int, b: int|
                        0 <= a < next@.len() && 0 <= b < next@.len() && a != b implies next@[a]
                        != next@[b] by {
                        if a < n1.len() && b < n1.len() {
                            assert(n1[a] != n1[b]);
                        } else if a < n1.len() {
                            assert(n1.contains(n1[a]));
                        } else if b < n1.len() {
                            assert(n1.contains(n1[b]));
                        }
                    }
                }
            }
            assert(forall|v: usize|
                #[trigger] next@.contains(v) <==> (cur@.contains(v) || v == src || v == dst));
            assert(next@.no_duplicates() && next@.len() <= cur@.len() + 2);
            if !State::find_element(graph, i, src) {
                next = without_vertex(&next, src);
            }
            if !State::find_element(graph, i, dst) {
                next = without_vertex(&next, dst);
            }
            proof {
                assert forall|v: usize|
                    next@.contains(v) <==> in_frontier(edges, i + 1, v as int) by {
                    lemma_frontier_step(edges, i as int, v as int);
                }
            }
            let ghost before = frontier@;
            frontier.push(next);
            proof {
                assert(frontier@[i as int] == before[i as int]);
            }
            i += 1;
        }
        proof {
            let f = frontier@.map_values(|l: Vec<usize>| l@);
            assert forall|l: int, v: usize|
                #![trigger f[l].contains(v)]
                #![trigger in_frontier(edges, l, v as int)]
                0 <= l <= edges.len() implies (f[l].contains(v) <==> in_frontier(
                    edges,
                    l,
                    v as int,
                )) by {
                assert(f[l] == frontier@[l]@);
            }
            assert forall|l: int| 0 <= l <= edges.len() implies (#[trigger] f[l]).no_duplicates() by {
                assert(f[l] == frontier@[l]@);
            }
            assert forall|l: int| 1 <= l <= edges.len() implies (#[trigger] f[l]).len() <= f[l
                - 1].len() + 2 by {
                assert(f[l] == frontier@[l]@);
                assert(f[l - 1] == frontier@[l - 1]@);
            }
        }
        frontier
    }

    /// Some edge after position `edge_number` has `value` as an endpoint.
    fn find_element(graph: &Graph, edge_number: usize, value: usize) -> (r: bool)
        requires
            edge_number < usize::MAX,
        ensures
            r == touched_after(graph.spec_edges(), edge_number as int, value as int),
    {
        find_element_from(graph, edge_number + 1, value)
    }
}

/// Some edge from position `from` on has `value` as an endpoint.
fn find_element_from(graph: &Graph, from: usize, value: usize) -> (r: bool)
    ensures
        r == exists|k: int|
            from <= k < graph.spec_edges().len() && #[trigger] graph.spec_edges()[k].touches(
                value as int,
            ),
{
    let edge_list = graph.get_edge_list();
    let mut k: usize = from;
    while k < edge_list.len()
        invariant
            edge_list@ == graph.spec_edges(),
            from <= k,
            forall|q: int| from <= q < k && q < edge_list.len() ==> !(#[trigger] edge_list@[q]).touches(value as int),
        decreases edge_list.len() - k,
    {
        if value == edge_list[k].src || value == edge_list[k].dst {
            assert(edge_list@[k as int].touches(value as int));
            return true;
        }
        k += 1;
    }
    false
}

} // verus!
