use vstd::prelude::*;

use crate::search::{
    arc_correct, entered_comp, entered_deg, equivalent_on, fresh_after, introduced,
    is_search_result, lemma_entering_is_new, lemma_step_fresh, lemma_step_keeps_invariant,
    level_correct, node_invariant, stepped_comp, stepped_deg, terminal_outcome,
};
use crate::state::{lemma_frontier_vertex_in_range, in_frontier, State};
use crate::zdd::{path_count, Child, ZDDNode, ZDD};

verus! {

/// Number of ways to decide edges `i` to `m` (counted from 1), starting from
/// the state `(deg, comp)`, that the rules lead to the one-terminal, each
/// edge decided on its own state, with no merging of states.
pub open spec fn accepted_count(st: State, i: int, deg: Seq<usize>, comp: Seq<usize>) -> nat
    decreases st.spec_edges().len() + 1 - i, 1int,
{
    if 1 <= i <= st.spec_edges().len() {
        arc_accepted(st, i, 0, deg, comp) + arc_accepted(st, i, 1, deg, comp)
    } else {
        0
    }
}

/// The part of `accepted_count` that decides edge `i` with `x`.
pub open spec fn arc_accepted(st: State, i: int, x: usize, deg: Seq<usize>, comp: Seq<usize>) -> nat
    decreases st.spec_edges().len() + 1 - i, 0int,
{
    if 1 <= i <= st.spec_edges().len() {
        let edges = st.spec_edges();
        match terminal_outcome(edges, st.spec_s(), st.spec_t(), i, x, deg, comp) {
            Some(Child::One) => 1nat,
            Some(_) => 0nat,
            None => accepted_count(
                st,
                i + 1,
                stepped_deg(edges, i, x, deg),
                stepped_comp(edges, i, x, comp),
            ),
        }
    } else {
        0
    }
}

/// The root's degrees: 0 at every vertex.
pub open spec fn root_deg(nv: nat) -> Seq<usize> {
    Seq::new(nv + 1, |v: int| 0usize)
}

/// The root's labels: every vertex its own.
pub open spec fn root_comp(nv: nat) -> Seq<usize> {
    Seq::new(nv + 1, |v: int| v as usize)
}

/// Two states that agree on the frontier after `i - 1` decisions and are both
/// untouched outside the first `i - 1` edges accept the same number of ways.
proof fn lemma_accepted_equivalent(
    st: State,
    i: int,
    d1: Seq<usize>,
    c1: Seq<usize>,
    d2: Seq<usize>,
    c2: Seq<usize>,
)
    requires
        st.wf(),
        1 <= i <= st.spec_edges().len() + 1,
        d1.len() == st.spec_graph().spec_num_vertices() + 1,
        c1.len() == st.spec_graph().spec_num_vertices() + 1,
        d2.len() == st.spec_graph().spec_num_vertices() + 1,
        c2.len() == st.spec_graph().spec_num_vertices() + 1,
        equivalent_on(st.spec_edges(), i - 1, d1, c1, d2, c2),
        fresh_after(st.spec_edges(), i - 1, d1, c1),
        fresh_after(st.spec_edges(), i - 1, d2, c2),
    ensures
        accepted_count(st, i, d1, c1) == accepted_count(st, i, d2, c2),
    decreases st.spec_edges().len() + 1 - i,
{
    let edges = st.spec_edges();
    if i <= edges.len() {
        let e = edges[i - 1];
        assert(crate::state::vertex_in_range(st.spec_graph(), e.src));
        if !in_frontier(edges, i - 1, e.src as int) {
            lemma_entering_is_new(edges, i, e.src as int);
        }
        if !in_frontier(edges, i - 1, e.dst as int) {
            lemma_entering_is_new(edges, i, e.dst as int);
        }
        assert(c1[e.src as int] == c2[e.src as int]);
        assert(c1[e.dst as int] == c2[e.dst as int]);
        lemma_step_agrees(st, i, 0, d1, c1, d2, c2);
        lemma_step_agrees(st, i, 1, d1, c1, d2, c2);
        if terminal_outcome(edges, st.spec_s(), st.spec_t(), i, 0, d1, c1) is None {
            lemma_step_fresh(st, i, 0, d1, c1);
            lemma_step_fresh(st, i, 0, d2, c2);
            lemma_accepted_equivalent(
                st,
                i + 1,
                stepped_deg(edges, i, 0, d1),
                stepped_comp(edges, i, 0, c1),
                stepped_deg(edges, i, 0, d2),
                stepped_comp(edges, i, 0, c2),
            );
        }
        if terminal_outcome(edges, st.spec_s(), st.spec_t(), i, 1, d1, c1) is None {
            lemma_step_fresh(st, i, 1, d1, c1);
            lemma_step_fresh(st, i, 1, d2, c2);
            lemma_accepted_equivalent(
                st,
                i + 1,
                stepped_deg(edges, i, 1, d1),
                stepped_comp(edges, i, 1, c1),
                stepped_deg(edges, i, 1, d2),
                stepped_comp(edges, i, 1, c2),
            );
        }
    }
}

/// One decision on two such states: the same outcome, and states that agree
/// on the next frontier.
proof fn lemma_step_agrees(
    st: State,
    i: int,
    x: usize,
    d1: Seq<usize>,
    c1: Seq<usize>,
    d2: Seq<usize>,
    c2: Seq<usize>,
)
    requires
        st.wf(),
        1 <= i <= st.spec_edges().len(),
        x <= 1,
        d1.len() == st.spec_graph().spec_num_vertices() + 1,
        c1.len() == st.spec_graph().spec_num_vertices() + 1,
        d2.len() == st.spec_graph().spec_num_vertices() + 1,
        c2.len() == st.spec_graph().spec_num_vertices() + 1,
        equivalent_on(st.spec_edges(), i - 1, d1, c1, d2, c2),
        fresh_after(st.spec_edges(), i - 1, d1, c1),
        fresh_after(st.spec_edges(), i - 1, d2, c2),
    ensures
        terminal_outcome(st.spec_edges(), st.spec_s(), st.spec_t(), i, x, d1, c1)
            == terminal_outcome(st.spec_edges(), st.spec_s(), st.spec_t(), i, x, d2, c2),
        equivalent_on(
            st.spec_edges(),
            i,
            stepped_deg(st.spec_edges(), i, x, d1),
            stepped_comp(st.spec_edges(), i, x, c1),
            stepped_deg(st.spec_edges(), i, x, d2),
            stepped_comp(st.spec_edges(), i, x, c2),
        ),
{
    let edges = st.spec_edges();
    let e = edges[i - 1];
    let src = e.src as int;
    let dst = e.dst as int;
    assert(crate::state::vertex_in_range(st.spec_graph(), e.src));
    if !in_frontier(edges, i - 1, src) {
        lemma_entering_is_new(edges, i, src);
        assert(!introduced(edges, i - 1, src));
    }
    if !in_frontier(edges, i - 1, dst) {
        lemma_entering_is_new(edges, i, dst);
        assert(!introduced(edges, i - 1, dst));
    }
    let ed1 = entered_deg(edges, i, d1);
    let ed2 = entered_deg(edges, i, d2);
    let ec1 = entered_comp(edges, i, c1);
    let ec2 = entered_comp(edges, i, c2);
    assert(c1[src] == c2[src]);
    assert(c1[dst] == c2[dst]);
    assert(ed1[src] == ed2[src] && ed1[dst] == ed2[dst]);
    assert(ec1[src] == ec2[src] && ec1[dst] == ec2[dst]);
    let sd1 = stepped_deg(edges, i, x, d1);
    let sd2 = stepped_deg(edges, i, x, d2);
    assert(sd1[src] == sd2[src] && sd1[dst] == sd2[dst]);
    let sc1 = stepped_comp(edges, i, x, c1);
    let sc2 = stepped_comp(edges, i, x, c2);
    assert forall|v: int| #[trigger] in_frontier(edges, i, v) implies sd1[v] == sd2[v] && sc1[v]
        == sc2[v] by {
        crate::state::lemma_frontier_step(edges, i - 1, v);
        lemma_frontier_vertex_in_range(st.spec_graph(), i, v);
        if v != src && v != dst {
            assert(in_frontier(edges, i - 1, v));
            assert(ed1[v] == ed2[v] && ec1[v] == ec2[v]);
        }
    }
}


/// `is_search_result`, unfolded only where a proof asks for it.
#[verifier::opaque]
spec fn search_result_sealed(z: ZDD, st: State) -> bool {
    is_search_result(z, st)
}

/// Along arc `x` of the level-`i` node `j`, the paths to the one-terminal are
/// as many as the rules accept after deciding edge `i` with `x`.
proof fn lemma_arc_count_accepted(z: ZDD, st: State, i: int, j: int, x: usize)
    requires
        st.wf(),
        search_result_sealed(z, st),
        z.levels().len() == st.spec_edges().len() + 2,
        1 <= i <= st.spec_edges().len(),
        0 <= j < z.levels()[i].len(),
        x <= 1,
    ensures
        path_count(
            z.links(),
            i + 1,
            if x == 0 {
                z.levels()[i][j].zero_child
            } else {
                z.levels()[i][j].one_child
            },
        ) == arc_accepted(st, i, x, z.levels()[i][j].deg@, z.levels()[i][j].comp@),
    decreases st.spec_edges().len() + 1 - i, 0int,
{
    reveal(search_result_sealed);
    let edges = st.spec_edges();
    let levels = z.levels();
    let n = levels[i][j];
    let c = if x == 0 {
        n.zero_child
    } else {
        n.one_child
    };
    assert(level_correct(st, i, levels[i], levels[i + 1]));
    assert(arc_correct(edges, st.spec_s(), st.spec_t(), i, x, n, c, levels[i + 1]));
    match terminal_outcome(edges, st.spec_s(), st.spec_t(), i, x, n.deg@, n.comp@) {
        Some(term) => {},
        None => {
            let k = c->Node_0;
            assert(i < edges.len());
            assert(level_correct(st, i + 1, levels[i + 1], levels[i + 2]));
            let nk = levels[i + 1][k as int];
            assert(node_invariant(
                nk,
                st.spec_graph().spec_num_vertices(),
                st.spec_s(),
                st.spec_t(),
            ));
            assert(fresh_after(edges, i, nk.deg@, nk.comp@));
            assert(node_invariant(
                n,
                st.spec_graph().spec_num_vertices(),
                st.spec_s(),
                st.spec_t(),
            ));
            assert(fresh_after(edges, i - 1, n.deg@, n.comp@));
            lemma_step_fresh(st, i, x, n.deg@, n.comp@);
            lemma_step_keeps_invariant(st, i, x, n.deg@, n.comp@);
            lemma_accepted_equivalent(
                st,
                i + 1,
                stepped_deg(edges, i, x, n.deg@),
                stepped_comp(edges, i, x, n.comp@),
                nk.deg@,
                nk.comp@,
            );
            lemma_node_count_accepted(z, st, i + 1, k);
        },
    }
}

/// The paths from the level-`i` node `j` to the one-terminal are as many as
/// the ways the rules accept to decide edges `i` to `m` from its state with
/// no merging.
proof fn lemma_node_count_accepted(z: ZDD, st: State, i: int, j: usize)
    requires
        st.wf(),
        search_result_sealed(z, st),
        z.levels().len() == st.spec_edges().len() + 2,
        1 <= i <= st.spec_edges().len(),
        0 <= j < z.levels()[i].len(),
    ensures
        path_count(z.links(), i, Child::Node(j)) == accepted_count(
            st,
            i,
            z.levels()[i][j as int].deg@,
            z.levels()[i][j as int].comp@,
        ),
    decreases st.spec_edges().len() + 1 - i, 1int,
{
    let links = z.links();
    let levels = z.levels();
    assert(links[i] == levels[i].map_values(|n: ZDDNode| crate::zdd::node_links(n)));
    let n = levels[i][j as int];
    assert(links[i][j as int] == crate::zdd::node_links(n));
    assert(path_count(links, i, Child::Node(j)) == path_count(links, i + 1, n.zero_child)
        + path_count(links, i + 1, n.one_child));
    lemma_arc_count_accepted(z, st, i, j as int, 0);
    lemma_arc_count_accepted(z, st, i, j as int, 1);
}

/// Merging equivalent states loses nothing: the diagram's solution count is
/// the number of ways to decide every edge, from the root state, that the
/// rules accept with no merging.
pub proof fn lemma_solutions_accepted(z: ZDD, st: State)
    requires
        st.wf(),
        is_search_result(z, st),
    ensures
        z.spec_solutions() == accepted_count(
            st,
            1,
            root_deg(st.spec_graph().spec_num_vertices()),
            root_comp(st.spec_graph().spec_num_vertices()),
        ),
{
    let nv = st.spec_graph().spec_num_vertices();
    let root = z.levels()[1][0];
    reveal(search_result_sealed);
    lemma_node_count_accepted(z, st, 1, 0);
    assert(root.deg@ =~= root_deg(nv));
    assert(root.comp@ =~= root_comp(nv));
}

} // verus!
