use vstd::prelude::*;

use crate::graph::Edge;
use crate::counting::{
    accepted_count, arc_accepted, lemma_solutions_accepted, root_comp, root_deg,
};
use crate::search::{
    entered_deg, fresh_after, introduced, lemma_step_fresh, lemma_step_keeps_invariant,
    leaves_unfinished, state_bounds, stepped_comp, stepped_deg, terminal_outcome,
};
use crate::state::{in_frontier, lemma_frontier_step, on_some_edge, State};
use crate::search::is_search_result;
use crate::zdd::{Child, ZDD};

verus! {

/// How many of the first `i` edges `xs` selects (`xs[j] == 1`) at `v`; a
/// loop at `v` counts twice.
pub open spec fn selected_degree(edges: Seq<Edge>, xs: Seq<usize>, i: int, v: int) -> nat
    decreases i,
{
    if i <= 0 {
        0
    } else {
        let e = edges[i - 1];
        let here: nat = if xs[i - 1] == 1 {
            (if e.src == v {
                1nat
            } else {
                0nat
            }) + (if e.dst == v {
                1nat
            } else {
                0nat
            })
        } else {
            0nat
        };
        selected_degree(edges, xs, i - 1, v) + here
    }
}

/// Deciding edges `i` to `m` as `xs[i - 1..]` says, from the state
/// `(deg, comp)`, the rules reach the one-terminal.
spec fn run_accepts(st: State, i: int, xs: Seq<usize>, deg: Seq<usize>, comp: Seq<usize>) -> bool
    decreases st.spec_edges().len() + 1 - i,
{
    if 1 <= i <= st.spec_edges().len() {
        let edges = st.spec_edges();
        match terminal_outcome(edges, st.spec_s(), st.spec_t(), i, xs[i - 1], deg, comp) {
            Some(Child::One) => true,
            Some(_) => false,
            None => run_accepts(
                st,
                i + 1,
                xs,
                stepped_deg(edges, i, xs[i - 1], deg),
                stepped_comp(edges, i, xs[i - 1], comp),
            ),
        }
    } else {
        false
    }
}

/// Deciding edges `i` to `m` as `ys` says (`ys[0]` for edge `i`), from the
/// state `(deg, comp)`, the rules reach the one-terminal.
pub open spec fn run_from(st: State, i: int, ys: Seq<usize>, deg: Seq<usize>, comp: Seq<usize>) -> bool
    decreases st.spec_edges().len() + 1 - i,
{
    if 1 <= i <= st.spec_edges().len() && ys.len() > 0 {
        let edges = st.spec_edges();
        match terminal_outcome(edges, st.spec_s(), st.spec_t(), i, ys[0], deg, comp) {
            Some(Child::One) => true,
            Some(_) => false,
            None => run_from(
                st,
                i + 1,
                ys.drop_first(),
                stepped_deg(edges, i, ys[0], deg),
                stepped_comp(edges, i, ys[0], comp),
            ),
        }
    } else {
        false
    }
}

/// `ys` has length `len` and holds only decisions 0 and 1.
pub open spec fn is_decision_seq(ys: Seq<usize>, len: int) -> bool {
    &&& ys.len() == len
    &&& forall|k: int| 0 <= k < ys.len() ==> #[trigger] ys[k] <= 1
}

/// The decisions for edges `i` to `m` that the rules accept from `(deg, comp)`.
pub open spec fn accepted_runs(st: State, i: int, deg: Seq<usize>, comp: Seq<usize>) -> Set<
    Seq<usize>,
> {
    Set::new(
        |ys: Seq<usize>|
            is_decision_seq(ys, st.spec_edges().len() + 1 - i) && run_from(st, i, ys, deg, comp),
    )
}

/// The two ways of reading a run agree.
proof fn lemma_run_forms(st: State, i: int, xs: Seq<usize>, deg: Seq<usize>, comp: Seq<usize>)
    requires
        1 <= i <= st.spec_edges().len() + 1,
        xs.len() == st.spec_edges().len(),
    ensures
        run_from(st, i, xs.subrange(i - 1, xs.len() as int), deg, comp) == run_accepts(st, i, xs, deg, comp),
    decreases st.spec_edges().len() + 1 - i,
{
    let m = st.spec_edges().len() as int;
    let ys = xs.subrange(i - 1, m);
    if i <= m {
        assert(ys[0] == xs[i - 1]);
        assert(ys.drop_first() =~= xs.subrange(i, m));
        let edges = st.spec_edges();
        lemma_run_forms(
            st,
            i + 1,
            xs,
            stepped_deg(edges, i, xs[i - 1], deg),
            stepped_comp(edges, i, xs[i - 1], comp),
        );
    }
}

/// The accepted decisions for edges `i` to `m` are as many as `accepted_count` says.
proof fn lemma_runs_counted(st: State, i: int, deg: Seq<usize>, comp: Seq<usize>)
    requires
        1 <= i <= st.spec_edges().len() + 1,
    ensures
        accepted_runs(st, i, deg, comp).finite(),
        accepted_runs(st, i, deg, comp).len() == accepted_count(st, i, deg, comp),
    decreases st.spec_edges().len() + 1 - i, 1int,
{
    let m = st.spec_edges().len() as int;
    let a = accepted_runs(st, i, deg, comp);
    if i > m {
        assert(a =~= Set::empty());
    } else {
        let p0 = a.filter(|ys: Seq<usize>| ys[0] == 0);
        let p1 = a.filter(|ys: Seq<usize>| ys[0] == 1);
        lemma_arc_runs_counted(st, i, 0, deg, comp);
        lemma_arc_runs_counted(st, i, 1, deg, comp);
        assert(a =~= p0 + p1) by {
            assert forall|ys: Seq<usize>| a.contains(ys) implies (p0 + p1).contains(ys) by {
                assert(ys[0] <= 1);
            }
        }
        assert(p0.disjoint(p1));
        vstd::set_lib::lemma_set_disjoint_lens(p0, p1);
    }
}

/// The accepted decisions for edges `i` to `m` that start with `x` are as
/// many as `arc_accepted` says.
proof fn lemma_arc_runs_counted(st: State, i: int, x: usize, deg: Seq<usize>, comp: Seq<usize>)
    requires
        1 <= i <= st.spec_edges().len(),
        x <= 1,
    ensures
        accepted_runs(st, i, deg, comp).filter(|ys: Seq<usize>| ys[0] == x).finite(),
        accepted_runs(st, i, deg, comp).filter(|ys: Seq<usize>| ys[0] == x).len() == arc_accepted(
            st,
            i,
            x,
            deg,
            comp,
        ),
    decreases st.spec_edges().len() + 1 - i, 0int,
{
    let m = st.spec_edges().len() as int;
    let edges = st.spec_edges();
    let a = accepted_runs(st, i, deg, comp);
    let p = a.filter(|ys: Seq<usize>| ys[0] == x);
    let prepend = |r: Seq<usize>| seq![x] + r;
    match terminal_outcome(edges, st.spec_s(), st.spec_t(), i, x, deg, comp) {
        Some(Child::One) => {
            assert(i == m);
            assert(p =~= set![seq![x]]) by {
                assert forall|ys: Seq<usize>| p.contains(ys) implies ys == seq![x] by {
                    assert(ys =~= seq![x]);
                }
                assert(a.contains(seq![x]));
            }
        },
        Some(_) => {
            assert(p =~= Set::empty());
        },
        None => {
            let d = stepped_deg(edges, i, x, deg);
            let c = stepped_comp(edges, i, x, comp);
            let b = accepted_runs(st, i + 1, d, c);
            lemma_runs_counted(st, i + 1, d, c);
            assert(p =~= b.map(prepend)) by {
                assert forall|ys: Seq<usize>| p.contains(ys) implies b.map(prepend).contains(ys) by {
                    let r = ys.drop_first();
                    assert(ys =~= prepend(r));
                    assert(b.contains(r));
                }
                assert forall|ys: Seq<usize>| b.map(prepend).contains(ys) implies p.contains(ys) by {
                    let r = choose|r: Seq<usize>| b.contains(r) && prepend(r) == ys;
                    assert(ys.drop_first() =~= r);
                    assert(ys[0] == x);
                }
            }
            assert(vstd::relations::injective_on(prepend, b)) by {
                assert forall|r1: Seq<usize>, r2: Seq<usize>|
                    b.contains(r1) && b.contains(r2) && #[trigger] prepend(r1) == #[trigger] prepend(
                        r2,
                    ) implies r1 == r2 by {
                    assert(r1 =~= prepend(r1).drop_first());
                    assert(r2 =~= prepend(r2).drop_first());
                }
            }
            vstd::set_lib::lemma_map_size(b, p, prepend);
        },
    }
}

/// A degree a simple s-t path gives `v`: 1 at the two ends, 0 or 2 elsewhere.
pub open spec fn path_degree(s: usize, t: usize, v: int, d: nat) -> bool {
    if v == s || v == t {
        d == 1
    } else {
        d == 0 || d == 2
    }
}

/// No edge among the first `i` touches `v`, so none is selected there.
proof fn lemma_untouched_degree(edges: Seq<Edge>, xs: Seq<usize>, i: int, v: int)
    requires
        0 <= i <= edges.len(),
        !introduced(edges, i, v),
    ensures
        selected_degree(edges, xs, i, v) == 0,
    decreases i,
{
    if i > 0 {
        if edges[i - 1].touches(v) {
            assert(introduced(edges, i, v));
        }
        assert(!introduced(edges, i - 1, v)) by {
            if introduced(edges, i - 1, v) {
                let j = choose|j: int| 0 <= j < i - 1 && #[trigger] edges[j].touches(v);
                assert(edges[j].touches(v));
            }
        }
        lemma_untouched_degree(edges, xs, i - 1, v);
    }
}

/// Along an accepted run from edge `i`: the degrees kept on the frontier are
/// the selected degrees, the vertices already left have path degrees, and so
/// every vertex ends with a path degree.
proof fn lemma_run_degrees(
    st: State,
    i: int,
    xs: Seq<usize>,
    deg: Seq<usize>,
    comp: Seq<usize>,
    v: int,
)
    requires
        st.wf(),
        1 <= i <= st.spec_edges().len() + 1,
        xs.len() == st.spec_edges().len(),
        forall|j: int| 0 <= j < xs.len() ==> #[trigger] xs[j] <= 1,
        state_bounds(deg, comp, st.spec_graph().spec_num_vertices(), st.spec_s(), st.spec_t()),
        fresh_after(st.spec_edges(), i - 1, deg, comp),
        forall|w: int|
            #[trigger] in_frontier(st.spec_edges(), i - 1, w) ==> deg[w] == selected_degree(
                st.spec_edges(),
                xs,
                i - 1,
                w,
            ),
        1 <= v <= st.spec_graph().spec_num_vertices(),
        introduced(st.spec_edges(), i - 1, v) && !in_frontier(st.spec_edges(), i - 1, v)
            ==> path_degree(
            st.spec_s(),
            st.spec_t(),
            v,
            selected_degree(st.spec_edges(), xs, i - 1, v),
        ),
        run_accepts(st, i, xs, deg, comp),
    ensures
        path_degree(
            st.spec_s(),
            st.spec_t(),
            v,
            selected_degree(st.spec_edges(), xs, st.spec_edges().len() as int, v),
        ),
    decreases st.spec_edges().len() + 1 - i,
{
    let edges = st.spec_edges();
    let m = edges.len() as int;
    let s = st.spec_s();
    let t = st.spec_t();
    let x = xs[i - 1];
    let e = edges[i - 1];
    let d = stepped_deg(edges, i, x, deg);
    let c = stepped_comp(edges, i, x, comp);
    assert(crate::state::vertex_in_range(st.spec_graph(), e.src));
    assert(x <= 1);
    // the decided degree of each endpoint is its selected degree
    assert forall|u: int| #[trigger] e.touches(u) implies d[u] == selected_degree(edges, xs, i, u) by {
        if !in_frontier(edges, i - 1, u) {
            crate::search::lemma_entering_is_new(edges, i, u);
            lemma_untouched_degree(edges, xs, i - 1, u);
        }
        assert(entered_deg(edges, i, deg)[u] == selected_degree(edges, xs, i - 1, u));
    }
    assert(e.touches(e.src as int));
    assert(e.touches(e.dst as int));
    lemma_frontier_step(edges, i - 1, v);
    if !e.touches(v) {
        assert(selected_degree(edges, xs, i, v) == selected_degree(edges, xs, i - 1, v));
    }
    match terminal_outcome(edges, s, t, i, x, deg, comp) {
        Some(term) => {
            assert(term == Child::One);
            assert(i == m);
            if e.touches(v) {
                assert(!in_frontier(edges, i, v));
                assert(!leaves_unfinished(edges, i, s, t, v as usize, d));
            } else if in_frontier(edges, i - 1, v) {
                assert(false);
            } else if !introduced(edges, i - 1, v) {
                lemma_untouched_degree(edges, xs, i - 1, v);
                if v == s || v == t {
                    assert(on_some_edge(edges, v));
                    let j = choose|j: int| 0 <= j < edges.len() && #[trigger] edges[j].touches(v);
                    assert(j != i - 1);
                    assert(introduced(edges, i - 1, v));
                }
            }
        },
        None => {
            lemma_step_keeps_invariant(st, i, x, deg, comp);
            lemma_step_fresh(st, i, x, deg, comp);
            assert forall|w: int| #[trigger] in_frontier(edges, i, w) implies d[w] == selected_degree(
                edges,
                xs,
                i,
                w,
            ) by {
                lemma_frontier_step(edges, i - 1, w);
                if !e.touches(w) {
                    assert(selected_degree(edges, xs, i, w) == selected_degree(edges, xs, i - 1, w));
                }
            }
            if introduced(edges, i, v) && !in_frontier(edges, i, v) {
                if e.touches(v) {
                    assert(!leaves_unfinished(edges, i, s, t, v as usize, d));
                } else {
                    assert(introduced(edges, i - 1, v)) by {
                        let j = choose|j: int| 0 <= j < i && #[trigger] edges[j].touches(v);
                        assert(j != i - 1);
                    }
                }
            }
            lemma_run_degrees(st, i + 1, xs, d, c, v);
        },
    }
}

/// Every selection of edges that the rules accept, decided edge by edge from
/// the root, gives degree 1 to both ends and degree 0 or 2 to every other vertex.
pub proof fn lemma_accepted_degrees(st: State, xs: Seq<usize>, v: int)
    requires
        st.wf(),
        accepted_runs(
            st,
            1,
            root_deg(st.spec_graph().spec_num_vertices()),
            root_comp(st.spec_graph().spec_num_vertices()),
        ).contains(xs),
        1 <= v <= st.spec_graph().spec_num_vertices(),
    ensures
        path_degree(
            st.spec_s(),
            st.spec_t(),
            v,
            selected_degree(st.spec_edges(), xs, st.spec_edges().len() as int, v),
        ),
{
    let nv = st.spec_graph().spec_num_vertices();
    let edges = st.spec_edges();
    assert(xs.subrange(0, xs.len() as int) =~= xs);
    lemma_run_forms(st, 1, xs, root_deg(nv), root_comp(nv));
    assert forall|w: int| !#[trigger] in_frontier(edges, 0, w) by {
        crate::state::lemma_frontier_ends_empty(edges, w);
    }
    assert(!introduced(edges, 0, v));
    lemma_run_degrees(st, 1, xs, root_deg(nv), root_comp(nv), v);
}

/// The diagram's solution count is the number of edge selections, decided
/// edge by edge from the root, that the rules accept.
pub proof fn lemma_solutions_are_runs(z: ZDD, st: State)
    requires
        st.wf(),
        is_search_result(z, st),
    ensures
        accepted_runs(
            st,
            1,
            root_deg(st.spec_graph().spec_num_vertices()),
            root_comp(st.spec_graph().spec_num_vertices()),
        ).finite(),
        z.spec_solutions() == accepted_runs(
            st,
            1,
            root_deg(st.spec_graph().spec_num_vertices()),
            root_comp(st.spec_graph().spec_num_vertices()),
        ).len(),
{
    let nv = st.spec_graph().spec_num_vertices();
    lemma_solutions_accepted(z, st);
    lemma_runs_counted(st, 1, root_deg(nv), root_comp(nv));
}

/// Every edge joins the two ends.
pub open spec fn all_edges_join_ends(st: State) -> bool {
    forall|j: int|
        0 <= j < st.spec_edges().len() ==> {
            let e = #[trigger] st.spec_edges()[j];
            (e.src == st.spec_s() && e.dst == st.spec_t()) || (e.src == st.spec_t() && e.dst
                == st.spec_s())
        }
}

/// With every edge between the ends, the ends are alive between the first
/// and the last edge, and nothing else ever is.
proof fn lemma_parallel_frontier(st: State, j: int, v: int)
    requires
        st.wf(),
        all_edges_join_ends(st),
        0 <= j <= st.spec_edges().len(),
    ensures
        in_frontier(st.spec_edges(), j, v) <==> (1 <= j < st.spec_edges().len() && (v
            == st.spec_s() || v == st.spec_t())),
{
    let edges = st.spec_edges();
    if 1 <= j < edges.len() && (v == st.spec_s() || v == st.spec_t()) {
        assert(edges[j - 1].touches(v));
        assert(edges[j].touches(v));
    }
    if in_frontier(edges, j, v) {
        let k = choose|k: int| j <= k < edges.len() && #[trigger] edges[k].touches(v);
        let q = choose|q: int| 0 <= q < j && #[trigger] edges[q].touches(v);
        assert(edges[k].touches(v));
    }
}

/// One end-to-end edge already taken: only leaving every later edge out is accepted.
proof fn lemma_parallel_taken(st: State, i: int, deg: Seq<usize>, comp: Seq<usize>)
    requires
        st.wf(),
        all_edges_join_ends(st),
        2 <= i <= st.spec_edges().len(),
        deg.len() == st.spec_graph().spec_num_vertices() + 1,
        comp.len() == st.spec_graph().spec_num_vertices() + 1,
        deg[st.spec_s() as int] == 1,
        deg[st.spec_t() as int] == 1,
        comp[st.spec_s() as int] == comp[st.spec_t() as int],
    ensures
        accepted_count(st, i, deg, comp) == 1,
    decreases st.spec_edges().len() + 1 - i,
{
    let edges = st.spec_edges();
    let m = edges.len() as int;
    let s = st.spec_s();
    let t = st.spec_t();
    let e = edges[i - 1];
    assert((e.src == s && e.dst == t) || (e.src == t && e.dst == s));
    lemma_parallel_frontier(st, i - 1, s as int);
    lemma_parallel_frontier(st, i - 1, t as int);
    lemma_parallel_frontier(st, i, s as int);
    lemma_parallel_frontier(st, i, t as int);
    let d = stepped_deg(edges, i, 0, deg);
    let c = stepped_comp(edges, i, 0, comp);
    assert(d[s as int] == 1 && d[t as int] == 1);
    if i < m {
        lemma_parallel_taken(st, i + 1, d, c);
    }
}

/// Nothing taken yet: each of the edges `i` to `m` can be the one taken.
proof fn lemma_parallel_untaken(st: State, i: int, deg: Seq<usize>, comp: Seq<usize>)
    requires
        st.wf(),
        all_edges_join_ends(st),
        1 <= i <= st.spec_edges().len(),
        deg.len() == st.spec_graph().spec_num_vertices() + 1,
        comp.len() == st.spec_graph().spec_num_vertices() + 1,
        deg[st.spec_s() as int] == 0,
        deg[st.spec_t() as int] == 0,
        comp[st.spec_s() as int] != comp[st.spec_t() as int],
    ensures
        accepted_count(st, i, deg, comp) == st.spec_edges().len() + 1 - i,
    decreases st.spec_edges().len() + 1 - i,
{
    let edges = st.spec_edges();
    let m = edges.len() as int;
    let s = st.spec_s();
    let t = st.spec_t();
    let e = edges[i - 1];
    assert((e.src == s && e.dst == t) || (e.src == t && e.dst == s));
    lemma_parallel_frontier(st, i - 1, s as int);
    lemma_parallel_frontier(st, i - 1, t as int);
    lemma_parallel_frontier(st, i, s as int);
    lemma_parallel_frontier(st, i, t as int);
    let ec = crate::search::entered_comp(edges, i, comp);
    assert(ec[s as int] != ec[t as int]);
    let d0 = stepped_deg(edges, i, 0, deg);
    let c0 = stepped_comp(edges, i, 0, comp);
    let d1 = stepped_deg(edges, i, 1, deg);
    let c1 = stepped_comp(edges, i, 1, comp);
    assert(d0[s as int] == 0 && d0[t as int] == 0);
    assert(d1[s as int] == 1 && d1[t as int] == 1);
    if i < m {
        assert(c0[s as int] == ec[s as int] && c0[t as int] == ec[t as int]);
        assert(c1[s as int] == c1[t as int]);
        assert(terminal_outcome(edges, s, t, i, 0, deg, comp) is None);
        assert(terminal_outcome(edges, s, t, i, 1, deg, comp) is None);
        lemma_parallel_untaken(st, i + 1, d0, c0);
        lemma_parallel_taken(st, i + 1, d1, c1);
        assert(arc_accepted(st, i, 0, deg, comp) == m - i);
        assert(arc_accepted(st, i, 1, deg, comp) == 1);
    } else {
        assert(terminal_outcome(edges, s, t, i, 0, deg, comp) == Some(Child::Zero));
        assert(terminal_outcome(edges, s, t, i, 1, deg, comp) == Some(Child::One));
        assert(arc_accepted(st, i, 0, deg, comp) == 0);
        assert(arc_accepted(st, i, 1, deg, comp) == 1);
    }
}

/// With `k` edges, each joining the two ends, the diagram has `k` solutions.
pub proof fn lemma_parallel_ends(z: ZDD, st: State)
    requires
        st.wf(),
        is_search_result(z, st),
        all_edges_join_ends(st),
    ensures
        z.spec_solutions() == st.spec_edges().len(),
{
    let nv = st.spec_graph().spec_num_vertices();
    lemma_solutions_accepted(z, st);
    assert(root_deg(nv)[st.spec_s() as int] == 0);
    assert(root_deg(nv)[st.spec_t() as int] == 0);
    assert(root_comp(nv)[st.spec_s() as int] != root_comp(nv)[st.spec_t() as int]);
    lemma_parallel_untaken(st, 1, root_deg(nv), root_comp(nv));
}

} // verus!
