use vstd::prelude::*;

use crate::graph::Edge;
use crate::state::{
    contains_vertex, in_frontier, lemma_frontier_vertex_in_range, lemma_push_contains, State,
};
use crate::counting::{accepted_count, lemma_solutions_accepted, root_comp, root_deg};
use crate::zdd::{cap_usize, level_total, links_in_range, Child, ZDDNode, ZDD};

verus! {

/// The degrees once the endpoints of edge `i` (counted from 1) that were not
/// alive before it start at 0.
pub open spec fn entered_deg(edges: Seq<Edge>, i: int, deg: Seq<usize>) -> Seq<usize> {
    let e = edges[i - 1];
    let d = if in_frontier(edges, i - 1, e.src as int) {
        deg
    } else {
        deg.update(e.src as int, 0)
    };
    if in_frontier(edges, i - 1, e.dst as int) {
        d
    } else {
        d.update(e.dst as int, 0)
    }
}

/// The component labels once the endpoints of edge `i` that were not alive
/// before it are labelled by themselves.
pub open spec fn entered_comp(edges: Seq<Edge>, i: int, comp: Seq<usize>) -> Seq<usize> {
    let e = edges[i - 1];
    let c = if in_frontier(edges, i - 1, e.src as int) {
        comp
    } else {
        comp.update(e.src as int, e.src)
    };
    if in_frontier(edges, i - 1, e.dst as int) {
        c
    } else {
        c.update(e.dst as int, e.dst)
    }
}

/// Degrees after deciding edge `i`: taken when `x == 1`, left out when `x == 0`.
pub open spec fn stepped_deg(edges: Seq<Edge>, i: int, x: usize, deg: Seq<usize>) -> Seq<usize> {
    let d = entered_deg(edges, i, deg);
    let e = edges[i - 1];
    if x == 0 {
        d
    } else {
        let d1 = d.update(e.src as int, (d[e.src as int] + 1) as usize);
        d1.update(e.dst as int, (d1[e.dst as int] + 1) as usize)
    }
}

/// Component labels after deciding edge `i`: taking it merges the two
/// components on the alive vertices, under the smaller label.
pub open spec fn stepped_comp(edges: Seq<Edge>, i: int, x: usize, comp: Seq<usize>) -> Seq<usize> {
    let c = entered_comp(edges, i, comp);
    let e = edges[i - 1];
    if x == 0 {
        c
    } else {
        let a = c[e.src as int];
        let b = c[e.dst as int];
        let c_max = if a > b {
            a
        } else {
            b
        };
        let c_min = if a > b {
            b
        } else {
            a
        };
        Seq::new(
            c.len(),
            |v: int|
                if in_frontier(edges, i, v) && c[v] == c_max {
                    c_min
                } else {
                    c[v]
                },
        )
    }
}

/// `u` is one of the two ends of the paths sought.
pub open spec fn is_end(s: usize, t: usize, u: usize) -> bool {
    u == s || u == t
}

/// `u` has more selected edges than a path allows.
pub open spec fn degree_over(s: usize, t: usize, u: usize, d: Seq<usize>) -> bool {
    if is_end(s, t, u) {
        d[u as int] > 1
    } else {
        d[u as int] > 2
    }
}

/// `u` leaves the frontier after edge `i` with a degree that no path has.
pub open spec fn leaves_unfinished(
    edges: Seq<Edge>,
    i: int,
    s: usize,
    t: usize,
    u: usize,
    d: Seq<usize>,
) -> bool {
    &&& !in_frontier(edges, i, u as int)
    &&& if is_end(s, t, u) {
        d[u as int] != 1
    } else {
        d[u as int] != 0 && d[u as int] != 2
    }
}

/// Where deciding edge `i` with `x` leads at once: to a terminal, or `None`
/// when the search goes on to a node of the next level.
pub open spec fn terminal_outcome(
    edges: Seq<Edge>,
    s: usize,
    t: usize,
    i: int,
    x: usize,
    deg: Seq<usize>,
    comp: Seq<usize>,
) -> Option<Child> {
    let e = edges[i - 1];
    if x == 1 && comp[e.src as int] == comp[e.dst as int] {
        Some(Child::Zero)
    } else {
        let d = stepped_deg(edges, i, x, deg);
        if degree_over(s, t, e.src, d) || degree_over(s, t, e.dst, d) || leaves_unfinished(
            edges,
            i,
            s,
            t,
            e.src,
            d,
        ) || leaves_unfinished(edges, i, s, t, e.dst, d) {
            Some(Child::Zero)
        } else if i == edges.len() {
            Some(Child::One)
        } else {
            None
        }
    }
}

/// The two states agree, degree and component, on every vertex alive after `i` decisions.
pub open spec fn equivalent_on(
    edges: Seq<Edge>,
    i: int,
    d1: Seq<usize>,
    c1: Seq<usize>,
    d2: Seq<usize>,
    c2: Seq<usize>,
) -> bool {
    forall|v: int| #[trigger] in_frontier(edges, i, v) ==> d1[v] == d2[v] && c1[v] == c2[v]
}

/// `n1` and `n2` agree on the frontier after `i` decisions.
pub open spec fn nodes_equivalent(edges: Seq<Edge>, i: int, n1: ZDDNode, n2: ZDDNode) -> bool {
    equivalent_on(edges, i, n1.deg@, n1.comp@, n2.deg@, n2.comp@)
}

/// `v` is an endpoint of one of the first `i` edges.
pub open spec fn introduced(edges: Seq<Edge>, i: int, v: int) -> bool {
    exists|j: int| 0 <= j < i && #[trigger] edges[j].touches(v)
}

/// Every vertex that none of the first `i` edges touches still has degree 0
/// and its own label.
pub open spec fn fresh_after(edges: Seq<Edge>, i: int, deg: Seq<usize>, comp: Seq<usize>) -> bool {
    forall|v: int|
        #![trigger introduced(edges, i, v)]
        0 <= v < deg.len() && 0 <= v < comp.len() && !introduced(edges, i, v) ==> deg[v] == 0
            && comp[v] == v
}

/// An endpoint of edge `i` (from 1) that was not alive before it has not
/// been touched by an earlier edge.
pub(crate) proof fn lemma_entering_is_new(edges: Seq<Edge>, i: int, u: int)
    requires
        1 <= i <= edges.len(),
        edges[i - 1].touches(u),
        !in_frontier(edges, i - 1, u),
    ensures
        !introduced(edges, i - 1, u),
{
    if introduced(edges, i - 1, u) {
        let j = choose|j: int| 0 <= j < i - 1 && #[trigger] edges[j].touches(u);
        assert(edges[j].touches(u));
        assert(edges[i - 1].touches(u));
    }
}

/// Deciding edge `i` keeps the untouched vertices untouched.
pub(crate) proof fn lemma_step_fresh(st: State, i: int, x: usize, deg: Seq<usize>, comp: Seq<usize>)
    requires
        st.wf(),
        1 <= i <= st.spec_edges().len(),
        x <= 1,
        deg.len() == st.spec_graph().spec_num_vertices() + 1,
        comp.len() == st.spec_graph().spec_num_vertices() + 1,
        fresh_after(st.spec_edges(), i - 1, deg, comp),
    ensures
        fresh_after(
            st.spec_edges(),
            i,
            stepped_deg(st.spec_edges(), i, x, deg),
            stepped_comp(st.spec_edges(), i, x, comp),
        ),
{
    let edges = st.spec_edges();
    let d = stepped_deg(edges, i, x, deg);
    let c = stepped_comp(edges, i, x, comp);
    assert forall|v: int|
        #![trigger introduced(edges, i, v)]
        0 <= v < d.len() && 0 <= v < c.len() && !introduced(edges, i, v) implies d[v] == 0 && c[v]
            == v by {
        if introduced(edges, i - 1, v) {
            let j = choose|j: int| 0 <= j < i - 1 && #[trigger] edges[j].touches(v);
            assert(edges[j].touches(v));
        }
        if edges[i - 1].touches(v) {
            assert(introduced(edges, i, v));
        }
        assert(!in_frontier(edges, i, v));
    }
}

/// What every non-terminal node keeps: arrays for vertices 0 to `nv`, degrees
/// at most 2 (at most 1 at the ends), and each label at most its vertex.
pub open spec fn node_invariant(n: ZDDNode, nv: nat, s: usize, t: usize) -> bool {
    state_bounds(n.deg@, n.comp@, nv, s, t)
}

/// The bounds of `node_invariant`, on a degree array and a label array.
pub open spec fn state_bounds(deg: Seq<usize>, comp: Seq<usize>, nv: nat, s: usize, t: usize) -> bool {
    &&& deg.len() == nv + 1
    &&& comp.len() == nv + 1
    &&& forall|v: int| 0 <= v <= nv ==> #[trigger] deg[v] <= 2
    &&& deg[s as int] <= 1
    &&& deg[t as int] <= 1
    &&& forall|v: int| 0 <= v <= nv ==> #[trigger] comp[v] <= v
}

/// `c0` with the label `c_max` replaced by `c_min` at the vertices of `list`.
pub open spec fn relabeled(c0: Seq<usize>, list: Seq<usize>, c_max: usize, c_min: usize) -> Seq<
    usize,
> {
    Seq::new(
        c0.len(),
        |v: int|
            if list.contains(v as usize) && c0[v] == c_max {
                c_min
            } else {
                c0[v]
            },
    )
}

/// The root state: degree 0 and its own label at every vertex.
pub open spec fn is_root(n: ZDDNode, nv: nat) -> bool {
    &&& n.deg@.len() == nv + 1
    &&& n.comp@.len() == nv + 1
    &&& forall|v: int| 0 <= v <= nv ==> #[trigger] n.deg@[v] == 0
    &&& forall|v: int| 0 <= v <= nv ==> #[trigger] n.comp@[v] == v
}

/// The arc `c` taken out of the level-`i` node `n` when edge `i` is decided
/// with `x` is the terminal the rules give, or else a node of `next` that
/// agrees with the decided state on the frontier after `i` decisions.
pub open spec fn arc_correct(
    edges: Seq<Edge>,
    s: usize,
    t: usize,
    i: int,
    x: usize,
    n: ZDDNode,
    c: Child,
    next: Seq<ZDDNode>,
) -> bool {
    match terminal_outcome(edges, s, t, i, x, n.deg@, n.comp@) {
        Some(term) => c == term,
        None => match c {
            Child::Node(k) => k < next.len() && equivalent_on(
                edges,
                i,
                stepped_deg(edges, i, x, n.deg@),
                stepped_comp(edges, i, x, n.comp@),
                next[k as int].deg@,
                next[k as int].comp@,
            ),
            _ => false,
        },
    }
}

/// Every node of level `i` keeps the node invariant and has both arcs right, into `next`.
pub open spec fn level_correct(st: State, i: int, level: Seq<ZDDNode>, next: Seq<ZDDNode>) -> bool {
    forall|j: int|
        0 <= j < level.len() ==> {
            &&& node_invariant(
                #[trigger] level[j],
                st.spec_graph().spec_num_vertices(),
                st.spec_s(),
                st.spec_t(),
            )
            &&& fresh_after(st.spec_edges(), i - 1, level[j].deg@, level[j].comp@)
            &&& arc_correct(
                st.spec_edges(),
                st.spec_s(),
                st.spec_t(),
                i,
                0,
                level[j],
                level[j].zero_child,
                next,
            )
            &&& arc_correct(
                st.spec_edges(),
                st.spec_s(),
                st.spec_t(),
                i,
                1,
                level[j],
                level[j].one_child,
                next,
            )
        }
}

/// No two nodes of level `i` agree on the frontier after `i - 1` decisions.
pub open spec fn level_distinct(edges: Seq<Edge>, i: int, level: Seq<ZDDNode>) -> bool {
    forall|j: int, k: int|
        0 <= j < k < level.len() ==> !nodes_equivalent(edges, i - 1, #[trigger] level[j], #[trigger] level[k])
}

/// The arc of `n` taken when its edge is decided with `x`.
pub open spec fn arc_of(n: ZDDNode, x: usize) -> Child {
    if x == 0 {
        n.zero_child
    } else {
        n.one_child
    }
}

/// Arcs are decided node by node, the 0-arc before the 1-arc: arc
/// `(q1, x1)` comes before arc `(q2, x2)`.
pub open spec fn arc_before(q1: int, x1: usize, q2: int, x2: usize) -> bool {
    q1 < q2 || (q1 == q2 && x1 < x2)
}

/// Arc `x` of node `q` of `level` is the first arc out of `level` that leads
/// to node `k` of the next level.
pub open spec fn first_arc(level: Seq<ZDDNode>, q: int, x: usize, k: int) -> bool {
    &&& 0 <= q < level.len()
    &&& x <= 1
    &&& arc_of(level[q], x) == Child::Node(k as usize)
    &&& forall|q2: int, x2: usize|
        0 <= q2 < level.len() && x2 <= 1 && arc_before(q2, x2, q, x) ==> #[trigger] arc_of(
            level[q2],
            x2,
        ) != Child::Node(k as usize)
}

/// Node `k` of `next` is reached by an arc out of level `i` (held in
/// `level`) and holds exactly the state that its first such arc decides.
pub open spec fn reached_first(
    edges: Seq<Edge>,
    i: int,
    level: Seq<ZDDNode>,
    next: Seq<ZDDNode>,
    k: int,
) -> bool {
    exists|q: int, x: usize|
        #[trigger] first_arc(level, q, x, k) && next[k].deg@ == stepped_deg(
            edges,
            i,
            x,
            level[q].deg@,
        ) && next[k].comp@ == stepped_comp(edges, i, x, level[q].comp@)
}

/// Every node of `next` is reached by an arc out of level `i` (held in
/// `level`) and holds exactly the state its first such arc decides, and the
/// nodes of `next` stand in the order of their first arcs.
pub open spec fn level_ordered(edges: Seq<Edge>, i: int, level: Seq<ZDDNode>, next: Seq<ZDDNode>) -> bool {
    &&& forall|k: int| 0 <= k < next.len() ==> #[trigger] reached_first(edges, i, level, next, k)
    &&& forall|k1: int, k2: int, q1: int, x1: usize, q2: int, x2: usize|
        0 <= k1 < k2 < next.len() && #[trigger] first_arc(level, q1, x1, k1) && #[trigger] first_arc(
            level,
            q2,
            x2,
            k2,
        ) ==> arc_before(q1, x1, q2, x2)
}

/// Ids are given in the order nodes are made: the root has id 2 and node `k`
/// of level `l` has id 2 plus the number of nodes made before it (capped at
/// `usize::MAX`).
pub open spec fn ids_in_order(levels: Seq<Seq<ZDDNode>>) -> bool {
    forall|l: int, k: int|
        1 <= l < levels.len() && 0 <= k < levels[l].len() ==> (#[trigger] levels[l][k]).id
            == cap_usize((level_total(levels, l) + k + 2) as nat)
}

/// The id that follows `c`, capped at `usize::MAX`.
pub open spec fn id_after(c: usize) -> usize {
    if c < usize::MAX {
        (c + 1) as usize
    } else {
        usize::MAX
    }
}

/// While level `i` is processed up to node `j`: `firsts[k]` is the first
/// arc into node `k` of `next`, `next[k]` holds the state it decides, the
/// first arcs come in the order of `next`, and every arc decided so far
/// leads into `next`.
#[verifier::opaque]
spec fn firsts_ok(
    edges: Seq<Edge>,
    i: int,
    level: Seq<ZDDNode>,
    j: int,
    next: Seq<ZDDNode>,
    firsts: Seq<(int, usize)>,
) -> bool {
    &&& firsts.len() == next.len()
    &&& forall|k: int|
        0 <= k < next.len() ==> {
            let (q, x) = #[trigger] firsts[k];
            &&& q < j
            &&& first_arc(level, q, x, k)
            &&& next[k].deg@ == stepped_deg(edges, i, x, level[q].deg@)
            &&& next[k].comp@ == stepped_comp(edges, i, x, level[q].comp@)
        }
    &&& forall|k1: int, k2: int|
        0 <= k1 < k2 < next.len() ==> arc_before(
            (#[trigger] firsts[k1]).0,
            firsts[k1].1,
            (#[trigger] firsts[k2]).0,
            firsts[k2].1,
        )
    &&& forall|q: int, x: usize|
        0 <= q < j && x <= 1 && (#[trigger] arc_of(level[q], x)) is Node ==> arc_of(
            level[q],
            x,
        )->Node_0 < next.len()
}

proof fn lemma_firsts_start(edges: Seq<Edge>, i: int, level: Seq<ZDDNode>)
    ensures
        firsts_ok(edges, i, level, 0, Seq::empty(), Seq::empty()),
{
    reveal(firsts_ok);
}

/// Deciding both arcs of node `j` keeps `firsts_ok`, with the arcs that made
/// new nodes appended.
proof fn lemma_firsts_step(
    edges: Seq<Edge>,
    i: int,
    j: int,
    before: Seq<ZDDNode>,
    after: Seq<ZDDNode>,
    c0: Child,
    c1: Child,
    next_before: Seq<ZDDNode>,
    next_mid: Seq<ZDDNode>,
    next_after: Seq<ZDDNode>,
    firsts: Seq<(int, usize)>,
) -> (r: Seq<(int, usize)>)
    requires
        0 <= j < before.len(),
        firsts_ok(edges, i, before, j, next_before, firsts),
        after.len() == before.len(),
        forall|q: int| 0 <= q < before.len() && q != j ==> after[q] == before[q],
        after[j] == (ZDDNode { zero_child: c0, one_child: c1, ..before[j] }),
        next_before.len() <= next_mid.len() <= next_after.len() <= usize::MAX,
        forall|k: int| 0 <= k < next_before.len() ==> #[trigger] next_mid[k] == next_before[k],
        forall|k: int| 0 <= k < next_mid.len() ==> #[trigger] next_after[k] == next_mid[k],
        next_mid.len() == next_before.len() ==> (c0 is Node ==> c0->Node_0 < next_before.len()),
        next_mid.len() != next_before.len() ==> {
            &&& next_mid.len() == next_before.len() + 1
            &&& c0 == Child::Node(next_before.len() as usize)
            &&& next_mid[next_before.len() as int].deg@ == stepped_deg(edges, i, 0, before[j].deg@)
            &&& next_mid[next_before.len() as int].comp@ == stepped_comp(edges, i, 0, before[j].comp@)
        },
        next_after.len() == next_mid.len() ==> (c1 is Node ==> c1->Node_0 < next_mid.len()),
        next_after.len() != next_mid.len() ==> {
            &&& next_after.len() == next_mid.len() + 1
            &&& c1 == Child::Node(next_mid.len() as usize)
            &&& next_after[next_mid.len() as int].deg@ == stepped_deg(edges, i, 1, before[j].deg@)
            &&& next_after[next_mid.len() as int].comp@ == stepped_comp(edges, i, 1, before[j].comp@)
        },
    ensures
        firsts_ok(edges, i, after, j + 1, next_after, r),
{
    reveal(firsts_ok);
    let mut r = firsts;
    if next_mid.len() != next_before.len() {
        r = r.push((j, 0usize));
    }
    if next_after.len() != next_mid.len() {
        r = r.push((j, 1usize));
    }
    assert(arc_of(after[j], 0) == c0);
    assert(arc_of(after[j], 1) == c1);
    assert forall|k: int| 0 <= k < next_after.len() implies {
        let (q, x) = #[trigger] r[k];
        &&& q < j + 1
        &&& first_arc(after, q, x, k)
        &&& next_after[k].deg@ == stepped_deg(edges, i, x, after[q].deg@)
        &&& next_after[k].comp@ == stepped_comp(edges, i, x, after[q].comp@)
    } by {
        let (q, x) = r[k];
        if k < next_before.len() {
            assert(r[k] == firsts[k]);
            assert(next_after[k] == next_before[k]);
            assert(first_arc(before, q, x, k));
            assert(after[q] == before[q]);
            assert forall|q2: int, x2: usize|
                0 <= q2 < after.len() && x2 <= 1 && arc_before(q2, x2, q, x) implies #[trigger] arc_of(
                after[q2],
                x2,
            ) != Child::Node(k as usize) by {
                assert(after[q2] == before[q2]);
                assert(arc_of(before[q2], x2) != Child::Node(k as usize));
            }
        } else {
            assert(q == j);
            assert forall|q2: int, x2: usize|
                0 <= q2 < after.len() && x2 <= 1 && arc_before(q2, x2, q, x) implies #[trigger] arc_of(
                after[q2],
                x2,
            ) != Child::Node(k as usize) by {
                if q2 < j {
                    assert(after[q2] == before[q2]);
                    assert(arc_of(after[q2], x2) == arc_of(before[q2], x2));
                    if arc_of(before[q2], x2) is Node {
                        assert(arc_of(before[q2], x2)->Node_0 < next_before.len());
                    }
                }
            }
            if k < next_mid.len() {
                assert(next_after[k] == next_mid[k]);
            }
            assert(after[j].deg@ == before[j].deg@);
            assert(after[j].comp@ == before[j].comp@);
        }
    }
    assert forall|k1: int, k2: int| 0 <= k1 < k2 < next_after.len() implies arc_before(
        (#[trigger] r[k1]).0,
        r[k1].1,
        (#[trigger] r[k2]).0,
        r[k2].1,
    ) by {
        if k2 < next_before.len() {
            assert(r[k1] == firsts[k1]);
            assert(r[k2] == firsts[k2]);
        } else if k1 < next_before.len() {
            assert(r[k1] == firsts[k1]);
            let (q, x) = firsts[k1];
            assert(q < j);
        }
    }
    assert forall|q: int, x: usize|
        0 <= q < j + 1 && x <= 1 && (#[trigger] arc_of(after[q], x)) is Node implies arc_of(
        after[q],
        x,
    )->Node_0 < next_after.len() by {
        if q < j {
            assert(after[q] == before[q]);
            assert(arc_of(after[q], x) == arc_of(before[q], x));
        }
    }
    r
}

/// Once the whole level is processed, `firsts_ok` gives `level_ordered`.
proof fn lemma_firsts_ordered(
    edges: Seq<Edge>,
    i: int,
    level: Seq<ZDDNode>,
    next: Seq<ZDDNode>,
    firsts: Seq<(int, usize)>,
)
    requires
        firsts_ok(edges, i, level, level.len() as int, next, firsts),
    ensures
        level_ordered(edges, i, level, next),
{
    reveal(firsts_ok);
    assert forall|k: int| 0 <= k < next.len() implies #[trigger] reached_first(
        edges,
        i,
        level,
        next,
        k,
    ) by {
        let (q, x) = firsts[k];
        assert(first_arc(level, q, x, k));
    }
    assert forall|k1: int, k2: int, q1: int, x1: usize, q2: int, x2: usize|
        0 <= k1 < k2 < next.len() && #[trigger] first_arc(level, q1, x1, k1) && #[trigger] first_arc(
            level,
            q2,
            x2,
            k2,
        ) implies arc_before(q1, x1, q2, x2) by {
        lemma_first_arc_unique(level, q1, x1, firsts[k1].0, firsts[k1].1, k1);
        lemma_first_arc_unique(level, q2, x2, firsts[k2].0, firsts[k2].1, k2);
    }
}

/// The levels held in `n`, as sequences.
pub open spec fn views(n: Seq<Vec<ZDDNode>>) -> Seq<Seq<ZDDNode>> {
    n.map_values(|v: Vec<ZDDNode>| v@)
}

/// Appending a level leaves the totals of the levels before it alone.
proof fn lemma_level_total_push(levels: Seq<Seq<ZDDNode>>, last: Seq<ZDDNode>, l: int)
    requires
        l <= levels.len(),
    ensures
        level_total(levels.push(last), l) == level_total(levels, l),
    decreases l,
{
    if l > 1 {
        lemma_level_total_push(levels, last, l - 1);
        assert(levels.push(last)[l - 1] == levels[l - 1]);
    }
}

/// Capping twice is capping once.
proof fn lemma_cap_add(a: nat, b: nat)
    ensures
        cap_usize((cap_usize(a) + b) as nat) == cap_usize(a + b),
{
}

/// Ordering into a level depends only on the states held there.
proof fn lemma_level_ordered_same_states(
    edges: Seq<Edge>,
    i: int,
    level: Seq<ZDDNode>,
    next1: Seq<ZDDNode>,
    next2: Seq<ZDDNode>,
)
    requires
        level_ordered(edges, i, level, next1),
        same_states(next1, next2),
    ensures
        level_ordered(edges, i, level, next2),
{
    assert forall|k: int| 0 <= k < next2.len() implies #[trigger] reached_first(
        edges,
        i,
        level,
        next2,
        k,
    ) by {
        assert(reached_first(edges, i, level, next1, k));
        let (q, x) = choose|q: int, x: usize|
            #[trigger] first_arc(level, q, x, k) && next1[k].deg@ == stepped_deg(
                edges,
                i,
                x,
                level[q].deg@,
            ) && next1[k].comp@ == stepped_comp(edges, i, x, level[q].comp@);
        assert(first_arc(level, q, x, k));
    }
}

/// A node has one first arc.
proof fn lemma_first_arc_unique(level: Seq<ZDDNode>, q1: int, x1: usize, q2: int, x2: usize, k: int)
    requires
        first_arc(level, q1, x1, k),
        first_arc(level, q2, x2, k),
    ensures
        q1 == q2 && x1 == x2,
{
    if arc_before(q1, x1, q2, x2) {
        assert(arc_of(level[q1], x1) == Child::Node(k as usize));
    }
    if arc_before(q2, x2, q1, x1) {
        assert(arc_of(level[q2], x2) == Child::Node(k as usize));
    }
}

/// `z` is the diagram that the search builds for `st`: level 0 is unused,
/// level 1 holds the root alone, level `m + 1` is empty, every level from 1 to
/// `m` is correct into the next, no level holds two equivalent nodes, every
/// node past the root is reached from the level before and stands in the
/// order of its first arc, and ids follow the order nodes are made in.
pub open spec fn is_search_result(z: ZDD, st: State) -> bool {
    let levels = z.levels();
    let m = st.spec_edges().len() as int;
    &&& levels.len() == m + 2
    &&& levels[0].len() == 0
    &&& levels[1].len() == 1
    &&& is_root(levels[1][0], st.spec_graph().spec_num_vertices())
    &&& levels[m + 1].len() == 0
    &&& forall|i: int| 1 <= i <= m ==> level_correct(st, i, #[trigger] levels[i], levels[i + 1])
    &&& forall|i: int| 1 <= i <= m + 1 ==> level_distinct(st.spec_edges(), i, #[trigger] levels[i])
    &&& forall|i: int|
        1 <= i <= m ==> level_ordered(st.spec_edges(), i, #[trigger] levels[i], levels[i + 1])
    &&& ids_in_order(levels)
}

/// `a` and `b` hold the same states, position by position.
pub open spec fn same_states(a: Seq<ZDDNode>, b: Seq<ZDDNode>) -> bool {
    &&& a.len() == b.len()
    &&& forall|k: int| 0 <= k < a.len() ==> (#[trigger] a[k]).deg@ == b[k].deg@ && a[k].comp@ == b[k].comp@
}

proof fn lemma_equivalent_symmetric(edges: Seq<Edge>, i: int, n1: ZDDNode, n2: ZDDNode)
    ensures
        nodes_equivalent(edges, i, n1, n2) == nodes_equivalent(edges, i, n2, n1),
{
}

/// Correctness into a level depends only on the states held there.
proof fn lemma_level_correct_same_states(
    st: State,
    i: int,
    level: Seq<ZDDNode>,
    next1: Seq<ZDDNode>,
    next2: Seq<ZDDNode>,
)
    requires
        level_correct(st, i, level, next1),
        same_states(next1, next2),
    ensures
        level_correct(st, i, level, next2),
{
    assert forall|j: int| 0 <= j < level.len() implies {
        &&& arc_correct(
            st.spec_edges(),
            st.spec_s(),
            st.spec_t(),
            i,
            0,
            level[j],
            level[j].zero_child,
            next2,
        )
        &&& arc_correct(
            st.spec_edges(),
            st.spec_s(),
            st.spec_t(),
            i,
            1,
            level[j],
            level[j].one_child,
            next2,
        )
    } by {
        assert(node_invariant(
            level[j],
            st.spec_graph().spec_num_vertices(),
            st.spec_s(),
            st.spec_t(),
        ));
        match level[j].zero_child {
            Child::Node(k) => {
                if k < next1.len() {
                    assert(next1[k as int].deg@ == next2[k as int].deg@);
                }
            },
            _ => {},
        }
        match level[j].one_child {
            Child::Node(k) => {
                if k < next1.len() {
                    assert(next1[k as int].deg@ == next2[k as int].deg@);
                }
            },
            _ => {},
        }
    }
}

/// An arc stays correct when the next level only grows at its end.
proof fn arc_prefix(
    edges: Seq<Edge>,
    st: State,
    i: int,
    x: usize,
    n: ZDDNode,
    next1: Seq<ZDDNode>,
    next2: Seq<ZDDNode>,
)
    requires
        edges == st.spec_edges(),
        arc_correct(
            edges,
            st.spec_s(),
            st.spec_t(),
            i,
            x,
            n,
            if x == 0 {
                n.zero_child
            } else {
                n.one_child
            },
            next1,
        ),
        next1.len() <= next2.len(),
        forall|k: int| 0 <= k < next1.len() ==> #[trigger] next2[k] == next1[k],
    ensures
        arc_correct(
            edges,
            st.spec_s(),
            st.spec_t(),
            i,
            x,
            n,
            if x == 0 {
                n.zero_child
            } else {
                n.one_child
            },
            next2,
        ),
{
    let c = if x == 0 {
        n.zero_child
    } else {
        n.one_child
    };
    match c {
        Child::Node(k) => {
            if k < next1.len() {
                assert(next2[k as int] == next1[k as int]);
            }
        },
        _ => {},
    }
}

/// The arcs of a search result lead to terminals or to nodes of the next level.
proof fn lemma_search_result_links(z: ZDD, st: State)
    requires
        is_search_result(z, st),
    ensures
        z.wf_links(),
{
    let levels = z.levels();
    let links = z.links();
    let m = st.spec_edges().len() as int;
    assert forall|i: int, j: int| 1 <= i < links.len() && 0 <= j < links[i].len() implies {
        let (zc, oc) = #[trigger] links[i][j];
        &&& (zc is Node ==> i + 1 < links.len() && crate::zdd::child_in(zc, links[i + 1]))
        &&& (oc is Node ==> i + 1 < links.len() && crate::zdd::child_in(oc, links[i + 1]))
    } by {
        assert(links[i] == levels[i].map_values(|n: ZDDNode| crate::zdd::node_links(n)));
        if i == m + 1 {
            assert(levels[i].len() == 0);
        } else {
            assert(level_correct(st, i, levels[i], levels[i + 1]));
            assert(links[i + 1] == levels[i + 1].map_values(|n: ZDDNode| crate::zdd::node_links(n)));
            let nd = levels[i][j];
            assert(arc_correct(st.spec_edges(), st.spec_s(), st.spec_t(), i, 0, nd, nd.zero_child, levels[i + 1]));
            assert(arc_correct(st.spec_edges(), st.spec_s(), st.spec_t(), i, 1, nd, nd.one_child, levels[i + 1]));
        }
    }
    assert(links_in_range(links));
}

/// A decided state that the rules let through keeps the node invariant.
pub(crate) proof fn lemma_step_keeps_invariant(st: State, i: int, x: usize, deg: Seq<usize>, comp: Seq<usize>)
    requires
        st.wf(),
        1 <= i <= st.spec_edges().len(),
        x <= 1,
        state_bounds(deg, comp, st.spec_graph().spec_num_vertices(), st.spec_s(), st.spec_t()),
        terminal_outcome(st.spec_edges(), st.spec_s(), st.spec_t(), i, x, deg, comp) is None,
    ensures
        state_bounds(
            stepped_deg(st.spec_edges(), i, x, deg),
            stepped_comp(st.spec_edges(), i, x, comp),
            st.spec_graph().spec_num_vertices(),
            st.spec_s(),
            st.spec_t(),
        ),
{
    let edges = st.spec_edges();
    let e = edges[i - 1];
    assert(crate::state::vertex_in_range(st.spec_graph(), e.src));
    let nv = st.spec_graph().spec_num_vertices();
    let d = stepped_deg(edges, i, x, deg);
    let c0 = entered_comp(edges, i, comp);
    assert forall|v: int| 0 <= v <= nv implies #[trigger] c0[v] <= v by {}
    let s = st.spec_s();
    let t = st.spec_t();
    assert(!degree_over(s, t, e.src, d));
    assert(!degree_over(s, t, e.dst, d));
}

/// `u` has a degree above what a path allows.
fn degree_over_exec(s: usize, t: usize, u: usize, deg: &Vec<usize>) -> (r: bool)
    requires
        u < deg@.len(),
    ensures
        r == degree_over(s, t, u, deg@),
{
    if u == s || u == t {
        deg[u] > 1
    } else {
        deg[u] > 2
    }
}

/// `u` is not in `next` and its degree is one no path leaves a vertex with.
fn leaves_unfinished_exec(s: usize, t: usize, u: usize, deg: &Vec<usize>, next: &Vec<usize>) -> (r:
    bool)
    requires
        u < deg@.len(),
    ensures
        r == (!next@.contains(u) && if is_end(s, t, u) {
            deg@[u as int] != 1
        } else {
            deg@[u as int] != 0 && deg@[u as int] != 2
        }),
{
    if contains_vertex(next, u) {
        false
    } else if u == s || u == t {
        deg[u] != 1
    } else {
        deg[u] != 0 && deg[u] != 2
    }
}

/// The two terminal nodes and the construction of diagrams over them.
pub struct Frontier {
    pub zero_t: ZDDNode,
    pub one_t: ZDDNode,
}

impl Frontier {
    pub fn new() -> (r: Self)
        ensures
            r.zero_t.id == 0,
            r.zero_t.sol == 0,
            r.zero_t.deg@.len() == 0,
            r.zero_t.comp@.len() == 0,
            r.one_t.id == 1,
            r.one_t.sol == 1,
            r.one_t.deg@.len() == 0,
            r.one_t.comp@.len() == 0,
    {
        Frontier { zero_t: ZDDNode::terminal(0, 0), one_t: ZDDNode::terminal(1, 1) }
    }

    /// Advances the id counter and returns the new id; ids stop at `usize::MAX`.
    fn get_zddnode_id(total_id: &mut usize) -> (r: usize)
        ensures
            *final(total_id) == if *old(total_id) < usize::MAX {
                (*old(total_id) + 1) as usize
            } else {
                usize::MAX
            },
            r == *final(total_id),
    {
        *total_id = total_id.saturating_add(1);
        *total_id
    }

    /// Builds the diagram level by level: each node of level `i` gets, for
    /// edge `i` left out and taken, a terminal or a node of level `i + 1`,
    /// where equivalent states share one node.
    pub fn construct(&self, state: &State) -> (r: ZDD)
        requires
            state.wf(),
        ensures
            is_search_result(r, *state),
            r.wf_links(),
            r.spec_solutions() == accepted_count(
                *state,
                1,
                root_deg(state.spec_graph().spec_num_vertices()),
                root_comp(state.spec_graph().spec_num_vertices()),
            ),
    {
        let ghost edges = state.spec_edges();
        let ghost st = *state;
        let m = state.graph().get_edge_list().len();
        let nv = state.graph().get_number_of_vertices();
        let mut total_id: usize = 1;
        let mut n: Vec<Vec<ZDDNode>> = Vec::new();
        n.push(Vec::new());
        let root = ZDDNode::create_root_node(nv, Frontier::get_zddnode_id(&mut total_id));
        let mut current: Vec<ZDDNode> = Vec::new();
        current.push(root);
        proof {
            assert(st.spec_s() <= nv && st.spec_t() <= nv);
            assert(node_invariant(current@[0], nv as nat, st.spec_s(), st.spec_t()));
        }
        let mut i: usize = 1;
        while i <= m
            invariant
                st == *state,
                state.wf(),
                edges == state.spec_edges(),
                m == edges.len(),
                m >= 1,
                nv == state.spec_graph().spec_num_vertices(),
                1 <= i <= m + 1,
                n@.len() == i,
                n@[0]@.len() == 0,
                i >= 2 ==> n@[1]@.len() == 1 && is_root(n@[1]@[0], nv as nat),
                i == 1 ==> current@.len() == 1 && is_root(current@[0], nv as nat),
                forall|l: int| 1 <= l < i - 1 ==> level_correct(st, l, #[trigger] n@[l]@, n@[l + 1]@),
                i >= 2 ==> level_correct(st, i - 1, n@[i - 1]@, current@),
                forall|l: int| 1 <= l < i ==> level_distinct(edges, l, #[trigger] n@[l]@),
                level_distinct(edges, i as int, current@),
                forall|k: int|
                    0 <= k < current@.len() ==> node_invariant(
                        #[trigger] current@[k],
                        nv as nat,
                        st.spec_s(),
                        st.spec_t(),
                    ),
                i == m + 1 ==> current@.len() == 0,
                forall|k: int|
                    0 <= k < current@.len() ==> fresh_after(
                        edges,
                        i - 1,
                        (#[trigger] current@[k]).deg@,
                        current@[k].comp@,
                    ),
                forall|l: int|
                    1 <= l < i - 1 ==> level_ordered(edges, l, #[trigger] n@[l]@, n@[l + 1]@),
                i >= 2 ==> level_ordered(edges, i - 1, n@[i - 1]@, current@),
                forall|l: int, k: int|
                    1 <= l < i && 0 <= k < n@[l]@.len() ==> (#[trigger] n@[l]@[k]).id == cap_usize(
                        (level_total(views(n@), l) + k + 2) as nat,
                    ),
                forall|k: int|
                    0 <= k < current@.len() ==> (#[trigger] current@[k]).id == cap_usize(
                        (level_total(views(n@), i as int) + k + 2) as nat,
                    ),
                total_id == cap_usize((level_total(views(n@), i as int) + current@.len() + 1) as nat),
            decreases m + 1 - i,
        {
            let ghost cur0 = current@;
            let ghost total0 = total_id;
            let next = self.build_level(&mut current, i, state, &mut total_id);
            proof {
                if i >= 2 {
                    lemma_level_correct_same_states(st, i - 1, n@[i - 1]@, cur0, current@);
                    lemma_level_ordered_same_states(edges, i - 1, n@[i - 1]@, cur0, current@);
                }
                assert forall|a: int, b: int|
                    0 <= a < b < current@.len() implies !nodes_equivalent(
                        edges,
                        i - 1,
                        #[trigger] current@[a],
                        #[trigger] current@[b],
                    ) by {
                    assert(!nodes_equivalent(edges, i - 1, cur0[a], cur0[b]));
                }
            }
            let ghost n_before = n@;
            let ghost cur_done = current@;
            n.push(current);
            current = next;
            proof {
                assert forall|l: int| 1 <= l < i implies level_correct(
                    st,
                    l,
                    #[trigger] n@[l]@,
                    n@[l + 1]@,
                ) by {
                    assert(n@[l] == n_before[l]);
                    if l + 1 < i {
                        assert(n@[l + 1] == n_before[l + 1]);
                    }
                }
                assert forall|l: int| 1 <= l < i + 1 implies level_distinct(
                    edges,
                    l,
                    #[trigger] n@[l]@,
                ) by {
                    if l < i {
                        assert(n@[l] == n_before[l]);
                    }
                }
                assert forall|l: int| 1 <= l < i implies level_ordered(
                    edges,
                    l,
                    #[trigger] n@[l]@,
                    n@[l + 1]@,
                ) by {
                    assert(n@[l] == n_before[l]);
                    if l + 1 < i {
                        assert(n@[l + 1] == n_before[l + 1]);
                    }
                }
                let vb = views(n_before);
                let va = views(n@);
                assert(va =~= vb.push(cur_done));
                assert forall|l: int| 0 <= l <= i implies level_total(va, l) == level_total(vb, l) by {
                    lemma_level_total_push(vb, cur_done, l);
                }
                assert(level_total(va, i + 1) == level_total(vb, i as int) + cur_done.len());
                assert forall|l: int, k: int|
                    1 <= l < i + 1 && 0 <= k < n@[l]@.len() implies (#[trigger] n@[l]@[k]).id
                    == cap_usize((level_total(views(n@), l) + k + 2) as nat) by {
                    if l < i {
                        assert(n@[l] == n_before[l]);
                    } else {
                        assert(n@[l]@ == cur_done);
                        assert(cur_done[k].id == cur0[k].id);
                    }
                }
                assert forall|k: int| 0 <= k < current@.len() implies (#[trigger] current@[k]).id
                    == cap_usize((level_total(views(n@), i + 1) + k + 2) as nat) by {
                    lemma_cap_add((level_total(vb, i as int) + cur0.len() + 1) as nat, (k + 1) as nat);
                }
                lemma_cap_add(
                    (level_total(vb, i as int) + cur0.len() + 1) as nat,
                    current@.len() as nat,
                );
            }
            i += 1;
        }
        let ghost n_before = n@;
        n.push(current);
        let r = ZDD::from_levels(n);
        proof {
            let levels = r.levels();
            assert(levels.len() == m + 2);
            assert forall|l: int| 0 <= l < m + 2 implies #[trigger] levels[l] == n@[l]@ by {}
            assert forall|l: int| 1 <= l <= m implies level_correct(
                st,
                l,
                #[trigger] levels[l],
                levels[l + 1],
            ) by {
                assert(levels[l] == n@[l]@);
                assert(levels[l + 1] == n@[l + 1]@);
            }
            assert forall|l: int| 1 <= l <= m + 1 implies level_distinct(
                edges,
                l,
                #[trigger] levels[l],
            ) by {
                assert(levels[l] == n@[l]@);
            }
            assert(levels[1] == n@[1]@);
            assert(levels[0] == n@[0]@);
            assert(levels[m + 1] == n@[m as int + 1]@);
            assert forall|l: int| 1 <= l <= m implies level_ordered(
                edges,
                l,
                #[trigger] levels[l],
                levels[l + 1],
            ) by {
                assert(levels[l] == n@[l]@);
                assert(levels[l + 1] == n@[l + 1]@);
            }
            assert(levels =~= views(n@));
            assert(views(n@) =~= views(n_before).push(n@[m as int + 1]@));
            assert forall|l: int| 0 <= l <= m + 1 implies level_total(levels, l) == level_total(
                views(n_before),
                l,
            ) by {
                lemma_level_total_push(views(n_before), n@[m as int + 1]@, l);
            }
            assert forall|l: int, k: int|
                1 <= l < levels.len() && 0 <= k < levels[l].len() implies (#[trigger] levels[l][k]).id
                == cap_usize((level_total(levels, l) + k + 2) as nat) by {
                assert(levels[l] == n@[l]@);
                assert(n@[l] == n_before[l]);
            }
            lemma_search_result_links(r, st);
            lemma_solutions_accepted(r, st);
        }
        r
    }

    /// Sets both arcs of every node of level `i` (held in `current`) and
    /// returns level `i + 1`.
    fn build_level(
        &self,
        current: &mut Vec<ZDDNode>,
        i: usize,
        state: &State,
        total_id: &mut usize,
    ) -> (next: Vec<ZDDNode>)
        requires
            state.wf(),
            1 <= i <= state.spec_edges().len(),
            forall|k: int|
                0 <= k < old(current)@.len() ==> node_invariant(
                    #[trigger] old(current)@[k],
                    state.spec_graph().spec_num_vertices(),
                    state.spec_s(),
                    state.spec_t(),
                ),
            forall|k: int|
                0 <= k < old(current)@.len() ==> fresh_after(
                    state.spec_edges(),
                    i - 1,
                    (#[trigger] old(current)@[k]).deg@,
                    old(current)@[k].comp@,
                ),
        ensures
            forall|k: int|
                0 <= k < next@.len() ==> fresh_after(
                    state.spec_edges(),
                    i as int,
                    (#[trigger] next@[k]).deg@,
                    next@[k].comp@,
                ),
            same_states(old(current)@, final(current)@),
            level_correct(*state, i as int, final(current)@, next@),
            level_distinct(state.spec_edges(), i + 1, next@),
            forall|k: int|
                0 <= k < next@.len() ==> node_invariant(
                    #[trigger] next@[k],
                    state.spec_graph().spec_num_vertices(),
                    state.spec_s(),
                    state.spec_t(),
                ),
            i == state.spec_edges().len() ==> next@.len() == 0,
            level_ordered(state.spec_edges(), i as int, final(current)@, next@),
            forall|k: int|
                0 <= k < old(current)@.len() ==> (#[trigger] final(current)@[k]).id == old(
                    current,
                )@[k].id,
            forall|k: int|
                0 <= k < next@.len() ==> (#[trigger] next@[k]).id == cap_usize(
                    (*old(total_id) + k + 1) as nat,
                ),
            *final(total_id) == cap_usize((*old(total_id) + next@.len()) as nat),
    {
        let ghost cur0 = current@;
        let ghost t0 = *total_id;
        let ghost mut firsts: Seq<(int, usize)> = Seq::empty();
        proof {
            lemma_firsts_start(state.spec_edges(), i as int, current@);
        }
        let ghost st = *state;
        let ghost edges = state.spec_edges();
        let ghost nv = state.spec_graph().spec_num_vertices();
        let ghost m = edges.len();
        let mut next: Vec<ZDDNode> = Vec::new();
        let mut j: usize = 0;
        while j < current.len()
            invariant
                st == *state,
                state.wf(),
                edges == state.spec_edges(),
                m == edges.len(),
                nv == state.spec_graph().spec_num_vertices(),
                m == state.spec_edges().len(),
                1 <= i <= m,
                j <= current@.len(),
                same_states(cur0, current@),
                forall|k: int|
                    0 <= k < cur0.len() ==> fresh_after(
                        edges,
                        i - 1,
                        (#[trigger] cur0[k]).deg@,
                        cur0[k].comp@,
                    ),
                forall|k: int|
                    0 <= k < next@.len() ==> fresh_after(
                        edges,
                        i as int,
                        (#[trigger] next@[k]).deg@,
                        next@[k].comp@,
                    ),
                forall|k: int|
                    0 <= k < current@.len() ==> node_invariant(
                        #[trigger] current@[k],
                        nv,
                        st.spec_s(),
                        st.spec_t(),
                    ),
                forall|q: int|
                    0 <= q < j ==> {
                        &&& arc_correct(
                            edges,
                            st.spec_s(),
                            st.spec_t(),
                            i as int,
                            0,
                            #[trigger] current@[q],
                            current@[q].zero_child,
                            next@,
                        )
                        &&& arc_correct(
                            edges,
                            st.spec_s(),
                            st.spec_t(),
                            i as int,
                            1,
                            current@[q],
                            current@[q].one_child,
                            next@,
                        )
                    },
                level_distinct(edges, i + 1, next@),
                forall|k: int|
                    0 <= k < next@.len() ==> node_invariant(
                        #[trigger] next@[k],
                        nv,
                        st.spec_s(),
                        st.spec_t(),
                    ),
                i == m ==> next@.len() == 0,
                firsts_ok(edges, i as int, current@, j as int, next@, firsts),
                forall|k: int| 0 <= k < cur0.len() ==> (#[trigger] current@[k]).id == cur0[k].id,
                forall|k: int|
                    0 <= k < next@.len() ==> (#[trigger] next@[k]).id == cap_usize(
                        (t0 + k + 1) as nat,
                    ),
                *total_id == cap_usize((t0 + next@.len()) as nat),
            decreases current@.len() - j,
        {
            let ghost next_before = next@;
            let ghost total_before = *total_id;
            proof {
                assert(cur0[j as int].deg@ == current@[j as int].deg@);
                assert(cur0[j as int].comp@ == current@[j as int].comp@);
            }
            let c0 = self.decide_arc(&current[j], i, 0, state, &mut next, total_id);
            let ghost next_mid = next@;
            let c1 = self.decide_arc(&current[j], i, 1, state, &mut next, total_id);
            let ghost cur_before = current@;
            current[j].zero_child = c0;
            current[j].one_child = c1;
            proof {
                assert(same_states(cur_before, current@));
                assert forall|q: int| 0 <= q < j + 1 implies {
                    &&& arc_correct(
                        edges,
                        st.spec_s(),
                        st.spec_t(),
                        i as int,
                        0,
                        #[trigger] current@[q],
                        current@[q].zero_child,
                        next@,
                    )
                    &&& arc_correct(
                        edges,
                        st.spec_s(),
                        st.spec_t(),
                        i as int,
                        1,
                        current@[q],
                        current@[q].one_child,
                        next@,
                    )
                } by {
                    if q < j {
                        assert(current@[q] == cur_before[q]);
                        arc_prefix(edges, st, i as int, 0, current@[q], next_before, next@);
                        arc_prefix(edges, st, i as int, 1, current@[q], next_before, next@);
                    } else {
                        arc_prefix(edges, st, i as int, 0, current@[q], next_mid, next@);
                    }
                }
                assert forall|k: int|
                    0 <= k < current@.len() implies node_invariant(
                        #[trigger] current@[k],
                        nv,
                        st.spec_s(),
                        st.spec_t(),
                    ) by {
                    assert(cur_before[k].deg@ == current@[k].deg@);
                    assert(node_invariant(cur_before[k], nv, st.spec_s(), st.spec_t()));
                }
                assert(same_states(cur0, current@));
                assert forall|k: int| 0 <= k < cur0.len() implies (#[trigger] current@[k]).id
                    == cur0[k].id by {
                    assert(current@[k].id == cur_before[k].id);
                }
                assert(next@.len() == next.len());
                firsts = lemma_firsts_step(
                    edges,
                    i as int,
                    j as int,
                    cur_before,
                    current@,
                    c0,
                    c1,
                    next_before,
                    next_mid,
                    next@,
                    firsts,
                );
                assert forall|k: int|
                    0 <= k < next@.len() implies (#[trigger] next@[k]).id == cap_usize(
                    (t0 + k + 1) as nat,
                ) by {
                    if k < next_before.len() {
                        assert(next@[k] == next_before[k]);
                    } else if k < next_mid.len() {
                        assert(next@[k] == next_mid[k]);
                    }
                }
            }
            j += 1;
        }
        proof {
            lemma_firsts_ordered(edges, i as int, current@, next@, firsts);
        }
        proof {
            assert forall|k: int| 0 <= k < current@.len() implies fresh_after(
                edges,
                i - 1,
                (#[trigger] current@[k]).deg@,
                current@[k].comp@,
            ) by {
                assert(cur0[k].deg@ == current@[k].deg@);
                assert(cur0[k].comp@ == current@[k].comp@);
            }
        }
        next
    }

    /// Decides edge `i` with `x` at `n_hat`: a terminal, the node of `next`
    /// that holds an equivalent state, or a fresh node appended to `next`.
    fn decide_arc(
        &self,
        n_hat: &ZDDNode,
        i: usize,
        x: usize,
        state: &State,
        next: &mut Vec<ZDDNode>,
        total_id: &mut usize,
    ) -> (r: Child)
        requires
            state.wf(),
            1 <= i <= state.spec_edges().len(),
            x <= 1,
            node_invariant(
                *n_hat,
                state.spec_graph().spec_num_vertices(),
                state.spec_s(),
                state.spec_t(),
            ),
            level_distinct(state.spec_edges(), i + 1, old(next)@),
            forall|k: int|
                0 <= k < old(next)@.len() ==> node_invariant(
                    #[trigger] old(next)@[k],
                    state.spec_graph().spec_num_vertices(),
                    state.spec_s(),
                    state.spec_t(),
                ),
            i == state.spec_edges().len() ==> old(next)@.len() == 0,
            fresh_after(state.spec_edges(), i - 1, n_hat.deg@, n_hat.comp@),
            forall|k: int|
                0 <= k < old(next)@.len() ==> fresh_after(
                    state.spec_edges(),
                    i as int,
                    (#[trigger] old(next)@[k]).deg@,
                    old(next)@[k].comp@,
                ),
        ensures
            forall|k: int|
                0 <= k < final(next)@.len() ==> fresh_after(
                    state.spec_edges(),
                    i as int,
                    (#[trigger] final(next)@[k]).deg@,
                    final(next)@[k].comp@,
                ),
            arc_correct(
                state.spec_edges(),
                state.spec_s(),
                state.spec_t(),
                i as int,
                x,
                *n_hat,
                r,
                final(next)@,
            ),
            old(next)@.len() <= final(next)@.len(),
            forall|k: int| 0 <= k < old(next)@.len() ==> #[trigger] final(next)@[k] == old(next)@[k],
            level_distinct(state.spec_edges(), i + 1, final(next)@),
            forall|k: int|
                0 <= k < final(next)@.len() ==> node_invariant(
                    #[trigger] final(next)@[k],
                    state.spec_graph().spec_num_vertices(),
                    state.spec_s(),
                    state.spec_t(),
                ),
            i == state.spec_edges().len() ==> final(next)@.len() == 0,
            final(next)@.len() == old(next)@.len() ==> {
                &&& (r is Node ==> r->Node_0 < old(next)@.len())
                &&& *final(total_id) == *old(total_id)
            },
            final(next)@.len() != old(next)@.len() ==> {
                let fresh = final(next)@[old(next)@.len() as int];
                &&& final(next)@.len() == old(next)@.len() + 1
                &&& r == Child::Node(old(next)@.len() as usize)
                &&& fresh.deg@ == stepped_deg(state.spec_edges(), i as int, x, n_hat.deg@)
                &&& fresh.comp@ == stepped_comp(state.spec_edges(), i as int, x, n_hat.comp@)
                &&& *final(total_id) == id_after(*old(total_id))
                &&& fresh.id == *final(total_id)
            },
    {
        match self.check_terminal(n_hat, i, x, state) {
            Some(term) => term,
            None => {
                let mut n_prime = n_hat.make_copy(*total_id);
                self.update_info(&mut n_prime, i, x, state);
                proof {
                    lemma_step_keeps_invariant(*state, i as int, x, n_hat.deg@, n_hat.comp@);
                    lemma_step_fresh(*state, i as int, x, n_hat.deg@, n_hat.comp@);
                }
                match self.find(&n_prime, next, i, state) {
                    Some(k) => Child::Node(k),
                    None => {
                        n_prime.set_next_id(Frontier::get_zddnode_id(total_id));
                        let ghost before = next@;
                        next.push(n_prime);
                        proof {
                            assert forall|a: int, b: int|
                                0 <= a < b < next@.len() implies !nodes_equivalent(
                                    state.spec_edges(),
                                    i as int,
                                    #[trigger] next@[a],
                                    #[trigger] next@[b],
                                ) by {
                                if b == before.len() {
                                    lemma_equivalent_symmetric(
                                        state.spec_edges(),
                                        i as int,
                                        n_prime,
                                        before[a],
                                    );
                                } else {
                                    assert(next@[a] == before[a]);
                                    assert(next@[b] == before[b]);
                                }
                            }
                        }
                        Child::Node(next.len() - 1)
                    },
                }
            },
        }
    }

    /// Where deciding edge `i` with `x` at `n_hat` leads at once, following
    /// the cycle, degree, leaving-frontier and last-edge rules in that order.
    fn check_terminal(&self, n_hat: &ZDDNode, i: usize, x: usize, state: &State) -> (r: Option<
        Child,
    >)
        requires
            state.wf(),
            1 <= i <= state.spec_edges().len(),
            x <= 1,
            node_invariant(
                *n_hat,
                state.spec_graph().spec_num_vertices(),
                state.spec_s(),
                state.spec_t(),
            ),
        ensures
            r == terminal_outcome(
                state.spec_edges(),
                state.spec_s(),
                state.spec_t(),
                i as int,
                x,
                n_hat.deg@,
                n_hat.comp@,
            ),
    {
        let ghost edges = state.spec_edges();
        let edge_list = state.graph().get_edge_list();
        let edge = edge_list[i - 1];
        proof {
            assert(edges[i - 1] == edge);
        }
        if x == 1 {
            if n_hat.comp[edge.src] == n_hat.comp[edge.dst] {
                return Some(Child::Zero);
            }
        }
        let mut n_prime = n_hat.make_copy(n_hat.id);
        self.update_info(&mut n_prime, i, x, state);
        let s = state.get_s();
        let t = state.get_t();
        if degree_over_exec(s, t, edge.src, &n_prime.deg) || degree_over_exec(
            s,
            t,
            edge.dst,
            &n_prime.deg,
        ) {
            return Some(Child::Zero);
        }
        let next = state.frontier_at(i);
        proof {
            assert(state.spec_frontier()[i as int].contains(edge.src) <==> in_frontier(
                edges,
                i as int,
                edge.src as int,
            ));
            assert(state.spec_frontier()[i as int].contains(edge.dst) <==> in_frontier(
                edges,
                i as int,
                edge.dst as int,
            ));
        }
        if leaves_unfinished_exec(s, t, edge.src, &n_prime.deg, next) || leaves_unfinished_exec(
            s,
            t,
            edge.dst,
            &n_prime.deg,
            next,
        ) {
            return Some(Child::Zero);
        }
        if i == edge_list.len() {
            return Some(Child::One);
        }
        None
    }

    /// `node1` and `node2` agree, degree and component, on every vertex alive after `i` decisions.
    fn is_equivalent(&self, node1: &ZDDNode, node2: &ZDDNode, i: usize, state: &State) -> (r: bool)
        requires
            state.wf(),
            i <= state.spec_edges().len(),
            node1.deg@.len() == state.spec_graph().spec_num_vertices() + 1,
            node1.comp@.len() == state.spec_graph().spec_num_vertices() + 1,
            node2.deg@.len() == state.spec_graph().spec_num_vertices() + 1,
            node2.comp@.len() == state.spec_graph().spec_num_vertices() + 1,
        ensures
            r == nodes_equivalent(state.spec_edges(), i as int, *node1, *node2),
    {
        let ghost edges = state.spec_edges();
        let frontier = state.frontier_at(i);
        let mut j: usize = 0;
        while j < frontier.len()
            invariant
                state.wf(),
                edges == state.spec_edges(),
                i <= edges.len(),
                frontier@ == state.spec_frontier()[i as int],
                node1.deg@.len() == state.spec_graph().spec_num_vertices() + 1,
                node1.comp@.len() == state.spec_graph().spec_num_vertices() + 1,
                node2.deg@.len() == state.spec_graph().spec_num_vertices() + 1,
                node2.comp@.len() == state.spec_graph().spec_num_vertices() + 1,
                j <= frontier.len(),
                forall|q: int|
                    0 <= q < j ==> node1.deg@[#[trigger] frontier@[q] as int] == node2.deg@[frontier@[q] as int]
                        && node1.comp@[frontier@[q] as int] == node2.comp@[frontier@[q] as int],
            decreases frontier.len() - j,
        {
            let v = frontier[j];
            proof {
                assert(frontier@.contains(v));
                assert(state.spec_frontier()[i as int].contains(v));
                lemma_frontier_vertex_in_range(state.spec_graph(), i as int, v as int);
            }
            if node1.deg[v] != node2.deg[v] {
                return false;
            }
            if node1.comp[v] != node2.comp[v] {
                return false;
            }
            j += 1;
        }
        proof {
            assert forall|v: int| #[trigger] in_frontier(edges, i as int, v) implies node1.deg@[v]
                == node2.deg@[v] && node1.comp@[v] == node2.comp@[v] by {
                lemma_frontier_vertex_in_range(state.spec_graph(), i as int, v);
                assert(state.spec_frontier()[i as int].contains(v as usize));
                let q = choose|q: int| 0 <= q < frontier@.len() && frontier@[q] == v as usize;
                assert(node1.deg@[frontier@[q] as int] == node2.deg@[frontier@[q] as int]);
            }
        }
        true
    }

    /// The position of the first node of `n_i` equivalent to `n_prime` on the
    /// frontier after `i` decisions.
    fn find(&self, n_prime: &ZDDNode, n_i: &Vec<ZDDNode>, i: usize, state: &State) -> (r: Option<
        usize,
    >)
        requires
            state.wf(),
            i <= state.spec_edges().len(),
            n_prime.deg@.len() == state.spec_graph().spec_num_vertices() + 1,
            n_prime.comp@.len() == state.spec_graph().spec_num_vertices() + 1,
            forall|q: int|
                0 <= q < n_i@.len() ==> (#[trigger] n_i@[q]).deg@.len()
                    == state.spec_graph().spec_num_vertices() + 1 && n_i@[q].comp@.len()
                    == state.spec_graph().spec_num_vertices() + 1,
        ensures
            match r {
                Some(k) => {
                    &&& k < n_i@.len()
                    &&& nodes_equivalent(state.spec_edges(), i as int, *n_prime, n_i@[k as int])
                    &&& forall|q: int|
                        0 <= q < k ==> !nodes_equivalent(
                            state.spec_edges(),
                            i as int,
                            *n_prime,
                            #[trigger] n_i@[q],
                        )
                },
                None => forall|q: int|
                    0 <= q < n_i@.len() ==> !nodes_equivalent(
                        state.spec_edges(),
                        i as int,
                        *n_prime,
                        #[trigger] n_i@[q],
                    ),
            },
    {
        let mut j: usize = 0;
        while j < n_i.len()
            invariant
                state.wf(),
                i <= state.spec_edges().len(),
                n_prime.deg@.len() == state.spec_graph().spec_num_vertices() + 1,
                n_prime.comp@.len() == state.spec_graph().spec_num_vertices() + 1,
                forall|q: int|
                    0 <= q < n_i@.len() ==> (#[trigger] n_i@[q]).deg@.len()
                        == state.spec_graph().spec_num_vertices() + 1 && n_i@[q].comp@.len()
                        == state.spec_graph().spec_num_vertices() + 1,
                j <= n_i.len(),
                forall|q: int|
                    0 <= q < j ==> !nodes_equivalent(
                        state.spec_edges(),
                        i as int,
                        *n_prime,
                        #[trigger] n_i@[q],
                    ),
            decreases n_i.len() - j,
        {
            if self.is_equivalent(n_prime, &n_i[j], i, state) {
                return Some(j);
            }
            j += 1;
        }
        None
    }

    /// Decides edge `i` (counted from 1) on `n_hat`'s state, in place: resets
    /// the endpoints that enter the frontier, then, when `x == 1`, adds the edge
    /// to both degrees and merges the two components.
    fn update_info(&self, n_hat: &mut ZDDNode, i: usize, x: usize, state: &State)
        requires
            state.wf(),
            1 <= i <= state.spec_edges().len(),
            x <= 1,
            node_invariant(
                *old(n_hat),
                state.spec_graph().spec_num_vertices(),
                state.spec_s(),
                state.spec_t(),
            ),
        ensures
            final(n_hat).deg@ == stepped_deg(state.spec_edges(), i as int, x, old(n_hat).deg@),
            final(n_hat).comp@ == stepped_comp(state.spec_edges(), i as int, x, old(n_hat).comp@),
            forall|v: int|
                0 <= v < final(n_hat).comp@.len() ==> #[trigger] final(n_hat).comp@[v] <= v,
            final(n_hat).sol == old(n_hat).sol,
            final(n_hat).zero_child == old(n_hat).zero_child,
            final(n_hat).one_child == old(n_hat).one_child,
            final(n_hat).id == old(n_hat).id,
    {
        let ghost edges = state.spec_edges();
        let ghost nv = state.spec_graph().spec_num_vertices();
        let edge = state.graph().get_edge_list()[i - 1];
        let prev = state.frontier_at(i - 1);
        proof {
            assert(edges[i - 1] == edge);
            assert(state.spec_frontier()[i - 1].contains(edge.src) <==> in_frontier(
                edges,
                i - 1,
                edge.src as int,
            ));
            assert(state.spec_frontier()[i - 1].contains(edge.dst) <==> in_frontier(
                edges,
                i - 1,
                edge.dst as int,
            ));
        }
        if !contains_vertex(prev, edge.src) {
            n_hat.deg.set(edge.src, 0);
            n_hat.comp.set(edge.src, edge.src);
        }
        if !contains_vertex(prev, edge.dst) {
            n_hat.deg.set(edge.dst, 0);
            n_hat.comp.set(edge.dst, edge.dst);
        }
        assert(n_hat.deg@ == entered_deg(edges, i as int, old(n_hat).deg@));
        assert(n_hat.comp@ == entered_comp(edges, i as int, old(n_hat).comp@));
        if x == 1 {
            let ds = n_hat.deg[edge.src];
            n_hat.deg.set(edge.src, ds + 1);
            let dd = n_hat.deg[edge.dst];
            n_hat.deg.set(edge.dst, dd + 1);
            let a = n_hat.comp[edge.src];
            let b = n_hat.comp[edge.dst];
            let (c_max, c_min) = if a > b {
                (a, b)
            } else {
                (b, a)
            };
            let next = state.frontier_at(i);
            let ghost c0 = n_hat.comp@;
            let mut j: usize = 0;
            while j < next.len()
                invariant
                    state.wf(),
                    nv == state.spec_graph().spec_num_vertices(),
                    edges == state.spec_edges(),
                    1 <= i <= edges.len(),
                    next@ == state.spec_frontier()[i as int],
                    c0.len() == nv + 1,
                    j <= next.len(),
                    n_hat.comp@ == relabeled(c0, next@.subrange(0, j as int), c_max, c_min),
                    n_hat.deg@ == stepped_deg(edges, i as int, x, old(n_hat).deg@),
                    n_hat.sol == old(n_hat).sol,
                    n_hat.zero_child == old(n_hat).zero_child,
                    n_hat.one_child == old(n_hat).one_child,
                    n_hat.id == old(n_hat).id,
                decreases next.len() - j,
            {
                let u = next[j];
                proof {
                    assert(next@.contains(u));
                    assert(state.spec_frontier()[i as int].contains(u));
                    lemma_frontier_vertex_in_range(state.spec_graph(), i as int, u as int);
                }
                let ghost cj = n_hat.comp@;
                if n_hat.comp[u] == c_max {
                    n_hat.comp.set(u, c_min);
                }
                proof {
                    assert(next@.subrange(0, j + 1) == next@.subrange(0, j as int).push(u));
                    assert forall|v: usize|
                        next@.subrange(0, j + 1).contains(v) <==> (next@.subrange(
                            0,
                            j as int,
                        ).contains(v) || v == u) by {
                        lemma_push_contains(next@.subrange(0, j as int), u, v);
                    }
                    assert(n_hat.comp@ =~= relabeled(
                        c0,
                        next@.subrange(0, j + 1),
                        c_max,
                        c_min,
                    ));
                }
                j += 1;
            }
            proof {
                assert(next@.subrange(0, next.len() as int) == next@);
                assert forall|v: int| 0 <= v < c0.len() implies next@.contains(v as usize)
                    == in_frontier(edges, i as int, v) by {
                    assert(state.spec_frontier()[i as int].contains(v as usize) <==> in_frontier(
                        edges,
                        i as int,
                        v as usize as int,
                    ));
                }
                assert(n_hat.comp@ =~= stepped_comp(edges, i as int, x, old(n_hat).comp@));
            }
        }
        proof {
            let c0 = entered_comp(edges, i as int, old(n_hat).comp@);
            assert forall|v: int| 0 <= v < c0.len() implies #[trigger] c0[v] <= v by {}
        }
    }
}

/// A node of a search result keeps the node invariant.
proof fn lemma_node_in_level(z: ZDD, st: State, i: int, j: int)
    requires
        is_search_result(z, st),
        1 <= i <= st.spec_edges().len() + 1,
        0 <= j < z.levels()[i].len(),
    ensures
        node_invariant(
            z.levels()[i][j],
            st.spec_graph().spec_num_vertices(),
            st.spec_s(),
            st.spec_t(),
        ),
{
    assert(i <= st.spec_edges().len());
    assert(level_correct(st, i, z.levels()[i], z.levels()[i + 1]));
}

/// Every node of level `i` has, at each vertex alive after `i - 1` decisions,
/// degree 0, 1 or 2, and degree 0 or 1 at the two ends.
pub proof fn lemma_degrees_bounded(z: ZDD, st: State, i: int, j: int, v: int)
    requires
        st.wf(),
        is_search_result(z, st),
        1 <= i <= st.spec_edges().len() + 1,
        0 <= j < z.levels()[i].len(),
        in_frontier(st.spec_edges(), i - 1, v),
    ensures
        z.levels()[i][j].deg@[v] <= 2,
        (v == st.spec_s() || v == st.spec_t()) ==> z.levels()[i][j].deg@[v] <= 1,
{
    lemma_frontier_vertex_in_range(st.spec_graph(), i - 1, v);
    lemma_node_in_level(z, st, i, j);
}

/// Every label of every node is at most its own vertex: a component is
/// labelled by its smallest vertex.
pub proof fn lemma_labels_canonical(z: ZDD, st: State, i: int, j: int, v: int)
    requires
        st.wf(),
        is_search_result(z, st),
        1 <= i <= st.spec_edges().len() + 1,
        0 <= j < z.levels()[i].len(),
        0 <= v <= st.spec_graph().spec_num_vertices(),
    ensures
        z.levels()[i][j].comp@[v] <= v,
{
    lemma_node_in_level(z, st, i, j);
}

/// Two different nodes of one level differ, in degree or label, at some vertex
/// alive after `i - 1` decisions.
pub proof fn lemma_levels_unique(z: ZDD, st: State, i: int, j: int, k: int)
    requires
        is_search_result(z, st),
        1 <= i <= st.spec_edges().len() + 1,
        0 <= j < z.levels()[i].len(),
        0 <= k < z.levels()[i].len(),
        j != k,
    ensures
        exists|v: int|
            #[trigger] in_frontier(st.spec_edges(), i - 1, v) && (z.levels()[i][j].deg@[v]
                != z.levels()[i][k].deg@[v] || z.levels()[i][j].comp@[v]
                != z.levels()[i][k].comp@[v]),
{
    assert(level_distinct(st.spec_edges(), i, z.levels()[i]));
    if j < k {
        assert(!nodes_equivalent(st.spec_edges(), i - 1, z.levels()[i][j], z.levels()[i][k]));
    } else {
        assert(!nodes_equivalent(st.spec_edges(), i - 1, z.levels()[i][k], z.levels()[i][j]));
    }
}

} // verus!
