use vstd::prelude::*;

verus! {

/// An undirected edge between two 1-indexed vertices.
#[derive(Debug, Clone, Copy, PartialEq, Eq, Structural)]
pub struct Edge {
    pub src: usize,
    pub dst: usize,
}

impl Edge {
    pub fn new(src: usize, dst: usize) -> (r: Self)
        ensures
            r.src == src,
            r.dst == dst,
    {
        Edge { src, dst }
    }

    /// `v` is one of the two endpoints.
    pub open spec fn touches(self, v: int) -> bool {
        self.src == v || self.dst == v
    }
}

/// A graph as a vertex count and an ordered list of edges; immutable once built.
#[derive(Debug, Clone)]
pub struct Graph {
    number_of_vertices: usize,
    edge_list: Vec<Edge>,
}

impl Graph {
    pub closed spec fn spec_num_vertices(&self) -> nat {
        self.number_of_vertices as nat
    }

    pub closed spec fn spec_edges(&self) -> Seq<Edge> {
        self.edge_list@
    }

    pub fn new(number_of_vertices: usize, edge_list: Vec<Edge>) -> (r: Self)
        ensures
            r.spec_num_vertices() == number_of_vertices,
            r.spec_edges() == edge_list@,
    {
        Graph { number_of_vertices, edge_list }
    }

    pub fn get_number_of_vertices(&self) -> (r: usize)
        ensures
            r == self.spec_num_vertices(),
    {
        self.number_of_vertices
    }

    pub fn get_edge_list(&self) -> (r: &Vec<Edge>)
        ensures
            r@ == self.spec_edges(),
    {
        &self.edge_list
    }
}

} // verus!
