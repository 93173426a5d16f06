use vstd::prelude::*;

verus! {

/// Where an arc of the diagram leads.
#[derive(Debug, Clone, Copy, PartialEq, Eq, Structural)]
pub enum Child {
    /// The zero-terminal (id 0): no extension is a solution.
    Zero,
    /// The one-terminal (id 1): the configuration is a solution.
    One,
    /// The node at this position of the next level.
    Node(usize),
}

/// A node of the diagram.
///
/// `deg[v]` and `comp[v]` are indexed by vertex (index 0 is unused); terminals
/// hold empty arrays.
#[derive(Debug, Clone)]
pub struct ZDDNode {
    pub deg: Vec<usize>,
    pub comp: Vec<usize>,
    pub sol: u64,
    pub zero_child: Child,
    pub one_child: Child,
    pub id: usize,
}

/// The count `n`, capped at `u64::MAX`.
pub open spec fn saturate(n: nat) -> u64 {
    if n > u64::MAX {
        u64::MAX
    } else {
        n as u64
    }
}

/// The count `n`, capped at `usize::MAX`.
pub open spec fn cap_usize(n: nat) -> usize {
    if n > usize::MAX {
        usize::MAX
    } else {
        n as usize
    }
}

/// The two child references of a node.
pub open spec fn node_links(n: ZDDNode) -> (Child, Child) {
    (n.zero_child, n.one_child)
}

/// `a` and `b` differ at most in their `sol` field.
pub open spec fn same_but_sol(a: ZDDNode, b: ZDDNode) -> bool {
    &&& a.deg@ == b.deg@
    &&& a.comp@ == b.comp@
    &&& a.zero_child == b.zero_child
    &&& a.one_child == b.one_child
    &&& a.id == b.id
}

/// Number of paths to the one-terminal along the arc `c` out of level `i - 1`.
pub open spec fn path_count(links: Seq<Seq<(Child, Child)>>, i: int, c: Child) -> nat
    decreases links.len() - i,
{
    match c {
        Child::Zero => 0,
        Child::One => 1,
        Child::Node(k) => if 0 <= i < links.len() && k < links[i].len() {
            let (z, o) = links[i][k as int];
            path_count(links, i + 1, z) + path_count(links, i + 1, o)
        } else {
            0
        },
    }
}

/// `c` is a terminal or a node of `next`.
pub open spec fn child_in(c: Child, next: Seq<(Child, Child)>) -> bool {
    match c {
        Child::Node(k) => k < next.len(),
        _ => true,
    }
}

/// Every arc out of level `i` leads to a terminal or to a node of level `i + 1`.
pub open spec fn links_in_range(links: Seq<Seq<(Child, Child)>>) -> bool {
    forall|i: int, j: int|
        1 <= i < links.len() && 0 <= j < links[i].len() ==> {
            let (z, o) = #[trigger] links[i][j];
            &&& (z is Node ==> i + 1 < links.len() && child_in(z, links[i + 1]))
            &&& (o is Node ==> i + 1 < links.len() && child_in(o, links[i + 1]))
        }
}

/// Sum of the sizes of levels 1 to `k - 1`.
pub open spec fn level_total(levels: Seq<Seq<ZDDNode>>, k: int) -> nat
    decreases k,
{
    if k <= 1 {
        0
    } else {
        level_total(levels, k - 1) + levels[k - 1].len()
    }
}

impl ZDDNode {
    /// The root: degree 0 and its own component for every vertex.
    pub fn create_root_node(number_of_vertices: usize, id: usize) -> (r: Self)
        requires
            number_of_vertices < usize::MAX,
        ensures
            r.deg@.len() == number_of_vertices + 1,
            r.comp@.len() == number_of_vertices + 1,
            forall|v: int| 0 <= v <= number_of_vertices ==> #[trigger] r.deg@[v] == 0,
            forall|v: int| 0 <= v <= number_of_vertices ==> #[trigger] r.comp@[v] == v,
            r.sol == 0,
            r.zero_child == Child::Zero,
            r.one_child == Child::Zero,
            r.id == id,
    {
        let mut deg: Vec<usize> = Vec::new();
        let mut comp: Vec<usize> = Vec::new();
        let mut v: usize = 0;
        while v <= number_of_vertices
            invariant
                number_of_vertices < usize::MAX,
                v <= number_of_vertices + 1,
                deg@.len() == v,
                comp@.len() == v,
                forall|q: int| 0 <= q < v ==> #[trigger] deg@[q] == 0,
                forall|q: int| 0 <= q < v ==> #[trigger] comp@[q] == q,
            decreases number_of_vertices + 1 - v,
        {
            deg.push(0);
            comp.push(v);
            v += 1;
        }
        ZDDNode { deg, comp, sol: 0, zero_child: Child::Zero, one_child: Child::Zero, id }
    }

    /// A terminal node: no degree or component arrays.
    pub fn terminal(id: usize, sol: u64) -> (r: Self)
        ensures
            r.deg@.len() == 0,
            r.comp@.len() == 0,
            r.sol == sol,
            r.zero_child == Child::Zero,
            r.one_child == Child::Zero,
            r.id == id,
    {
        ZDDNode {
            deg: Vec::new(),
            comp: Vec::new(),
            sol,
            zero_child: Child::Zero,
            one_child: Child::Zero,
            id,
        }
    }

    pub fn set_next_id(&mut self, id: usize)
        ensures
            *final(self) == (ZDDNode { id, ..*old(self) }),
    {
        self.id = id;
    }

    pub fn get_id(&self) -> (r: usize)
        ensures
            r == self.id,
    {
        self.id
    }

    pub fn get_sol(&self) -> (r: u64)
        ensures
            r == self.sol,
    {
        self.sol
    }

    /// A fresh node with the same degree and component arrays, no children and the given id.
    pub fn make_copy(&self, id: usize) -> (r: Self)
        ensures
            r.deg@ == self.deg@,
            r.comp@ == self.comp@,
            r.sol == 0,
            r.zero_child == Child::Zero,
            r.one_child == Child::Zero,
            r.id == id,
    {
        let mut deg: Vec<usize> = Vec::new();
        let mut comp: Vec<usize> = Vec::new();
        let mut v: usize = 0;
        while v < self.deg.len()
            invariant
                v <= self.deg.len(),
                deg@ == self.deg@.subrange(0, v as int),
            decreases self.deg.len() - v,
        {
            deg.push(self.deg[v]);
            v += 1;
        }
        let mut v: usize = 0;
        while v < self.comp.len()
            invariant
                v <= self.comp.len(),
                comp@ == self.comp@.subrange(0, v as int),
            decreases self.comp.len() - v,
        {
            comp.push(self.comp[v]);
            v += 1;
        }
        assert(deg@ =~= self.deg@);
        assert(comp@ =~= self.comp@);
        ZDDNode { deg, comp, sol: 0, zero_child: Child::Zero, one_child: Child::Zero, id }
    }

    /// Sets the 0-child when `child_num` is 0, else the 1-child.
    pub fn set_child(&mut self, node: Child, child_num: usize)
        ensures
            child_num == 0 ==> *final(self) == (ZDDNode { zero_child: node, ..*old(self) }),
            child_num != 0 ==> *final(self) == (ZDDNode { one_child: node, ..*old(self) }),
    {
        if child_num == 0 {
            self.zero_child = node;
        } else {
            self.one_child = node;
        }
    }

    /// The 0-child when `child_num` is 0, else the 1-child.
    pub fn get_child(&self, child_num: usize) -> (r: Child)
        ensures
            r == if child_num == 0 {
                self.zero_child
            } else {
                self.one_child
            },
    {
        if child_num == 0 {
            self.zero_child
        } else {
            self.one_child
        }
    }

    /// The degrees of vertices 1 to V.
    pub fn degrees(&self) -> (r: Vec<usize>)
        ensures
            self.deg@.len() == 0 ==> r@.len() == 0,
            self.deg@.len() > 0 ==> r@ == self.deg@.subrange(1, self.deg@.len() as int),
    {
        tail_of(&self.deg)
    }

    /// The component labels of vertices 1 to V.
    pub fn components(&self) -> (r: Vec<usize>)
        ensures
            self.comp@.len() == 0 ==> r@.len() == 0,
            self.comp@.len() > 0 ==> r@ == self.comp@.subrange(1, self.comp@.len() as int),
    {
        tail_of(&self.comp)
    }
}

/// All entries of `a` but the first.
fn tail_of(a: &Vec<usize>) -> (r: Vec<usize>)
    ensures
        a@.len() == 0 ==> r@.len() == 0,
        a@.len() > 0 ==> r@ == a@.subrange(1, a@.len() as int),
{
    let mut r: Vec<usize> = Vec::new();
    let mut v: usize = 1;
    while v < a.len()
        invariant
            1 <= v,
            a@.len() > 0 ==> v <= a.len(),
            a@.len() > 0 ==> r@ == a@.subrange(1, v as int),
            a@.len() == 0 ==> r@.len() == 0,
        decreases a.len() - v,
    {
        r.push(a[v]);
        v += 1;
    }
    r
}

/// A diagram as its levels: level `i` holds the nodes that decide edge `i`
/// (counted from 1); level 0 is unused and level 1 holds the root alone.
#[derive(Debug)]
pub struct ZDD {
    node_list_array: Vec<Vec<ZDDNode>>,
}

impl ZDD {
    pub closed spec fn levels(&self) -> Seq<Seq<ZDDNode>> {
        self.node_list_array@.map_values(|l: Vec<ZDDNode>| l@)
    }

    /// The child references of every node, level by level.
    pub open spec fn links(&self) -> Seq<Seq<(Child, Child)>> {
        self.levels().map_values(|l: Seq<ZDDNode>| l.map_values(|n: ZDDNode| node_links(n)))
    }

    /// A root at level 1, and every child reference in range.
    pub open spec fn wf_links(&self) -> bool {
        &&& self.levels().len() >= 2
        &&& self.levels()[1].len() >= 1
        &&& links_in_range(self.links())
    }

    /// Number of root-to-one-terminal paths.
    pub open spec fn spec_solutions(&self) -> nat {
        path_count(self.links(), 1, Child::Node(0))
    }

    pub(crate) fn from_levels(node_list_array: Vec<Vec<ZDDNode>>) -> (r: Self)
        ensures
            r.levels() == node_list_array@.map_values(|l: Vec<ZDDNode>| l@),
    {
        ZDD { node_list_array }
    }

    pub fn number_of_levels(&self) -> (r: usize)
        ensures
            r == self.levels().len(),
    {
        self.node_list_array.len()
    }

    /// The nodes of level `i`.
    pub fn level(&self, i: usize) -> (r: &Vec<ZDDNode>)
        requires
            i < self.levels().len(),
        ensures
            r@ == self.levels()[i as int],
    {
        &self.node_list_array[i]
    }

    /// The `sol` at the end of arc `c` into level `i`.
    fn child_sol(&self, i: usize, c: Child) -> (s: u64)
        requires
            c is Node ==> i < self.levels().len() && c->Node_0 < self.levels()[i as int].len(),
        ensures
            s == match c {
                Child::Zero => 0,
                Child::One => 1,
                Child::Node(k) => self.levels()[i as int][k as int].sol,
            },
    {
        match c {
            Child::Zero => 0,
            Child::One => 1,
            Child::Node(k) => {
                assert(self.levels()[i as int] == self.node_list_array@[i as int]@);
                self.node_list_array[i][k].sol
            },
        }
    }

    /// Counts the root-to-one-terminal paths bottom-up, storing in every node
    /// its own count; counts above `u64::MAX` are capped there.
    pub fn get_number_of_solutions(&mut self) -> (r: u64)
        requires
            old(self).wf_links(),
        ensures
            r == saturate(old(self).spec_solutions()),
            final(self).links() == old(self).links(),
            final(self).levels().len() == old(self).levels().len(),
            forall|i: int|
                0 <= i < old(self).levels().len() ==> #[trigger] final(self).levels()[i].len()
                    == old(self).levels()[i].len(),
            forall|i: int, j: int|
                0 <= i < old(self).levels().len() && 0 <= j < old(self).levels()[i].len()
                    ==> same_but_sol(#[trigger] final(self).levels()[i][j], old(self).levels()[i][j]),
            forall|i: int, j: int|
                1 <= i < old(self).levels().len() && 0 <= j < old(self).levels()[i].len()
                    ==> (#[trigger] final(self).levels()[i][j]).sol == saturate(
                    path_count(old(self).links(), i, Child::Node(j as usize)),
                ),
    {
        let ghost old_levels = self.levels();
        let ghost links = self.links();
        let n = self.node_list_array.len();
        let mut i: usize = n - 1;
        while i > 0
            invariant
                n == old_levels.len(),
                n >= 2,
                i < n,
                links == old(self).links(),
                old_levels == old(self).levels(),
                links_in_range(links),
                self.levels().len() == n,
                forall|l: int| 0 <= l < n ==> #[trigger] self.levels()[l].len() == old_levels[l].len(),
                forall|l: int, j: int|
                    0 <= l < n && 0 <= j < old_levels[l].len() ==> same_but_sol(
                        #[trigger] self.levels()[l][j],
                        old_levels[l][j],
                    ),
                forall|l: int, j: int|
                    i < l < n && 0 <= j < old_levels[l].len() ==> (#[trigger] self.levels()[l][j]).sol
                        == saturate(path_count(links, l, Child::Node(j as usize))),
            decreases i,
        {
            let mut j: usize = 0;
            while j < self.node_list_array[i].len()
                invariant
                    n == old_levels.len(),
                    0 < i < n,
                    links == old(self).links(),
                    old_levels == old(self).levels(),
                    links_in_range(links),
                    self.levels().len() == n,
                    forall|l: int| 0 <= l < n ==> #[trigger] self.levels()[l].len() == old_levels[l].len(),
                    forall|l: int, q: int|
                        0 <= l < n && 0 <= q < old_levels[l].len() ==> same_but_sol(
                            #[trigger] self.levels()[l][q],
                            old_levels[l][q],
                        ),
                    forall|l: int, q: int|
                        i < l < n && 0 <= q < old_levels[l].len() ==> (#[trigger] self.levels()[l][q]).sol
                            == saturate(path_count(links, l, Child::Node(q as usize))),
                    forall|q: int|
                        0 <= q < j ==> (#[trigger] self.levels()[i as int][q]).sol == saturate(
                            path_count(links, i as int, Child::Node(q as usize)),
                        ),
                decreases self.node_list_array@[i as int].len() - j,
            {
                assert(self.levels()[i as int] == self.node_list_array@[i as int]@);
                let z = self.node_list_array[i][j].zero_child;
                let o = self.node_list_array[i][j].one_child;
                proof {
                    assert(links[i as int][j as int] == node_links(old_levels[i as int][j as int]));
                    assert(same_but_sol(self.levels()[i as int][j as int], old_levels[i as int][j as int]));
                    assert(links[i as int][j as int] == (z, o));
                    if z is Node || o is Node {
                        assert(self.levels()[i + 1].len() == old_levels[i + 1].len());
                        assert(links[i + 1].len() == old_levels[i + 1].len());
                    }
                }
                let lo = self.child_sol(i + 1, z);
                let hi = self.child_sol(i + 1, o);
                let ghost before = self.levels();
                self.node_list_array[i][j].sol = lo.saturating_add(hi);
                proof {
                    assert(path_count(links, i as int, Child::Node(j)) == path_count(
                        links,
                        i + 1,
                        z,
                    ) + path_count(links, i + 1, o));
                    assert(self.levels() =~= before.update(
                        i as int,
                        before[i as int].update(
                            j as int,
                            ZDDNode { sol: lo.saturating_add(hi), ..before[i as int][j as int] },
                        ),
                    ));
                }
                j += 1;
            }
            i -= 1;
        }
        proof {
            assert(self.links() =~= links) by {
                assert forall|l: int| 0 <= l < n implies #[trigger] self.links()[l] =~= links[l] by {
                    assert forall|q: int| 0 <= q < self.links()[l].len() implies #[trigger] self.links()[l][q]
                        == links[l][q] by {
                        assert(same_but_sol(self.levels()[l][q], old_levels[l][q]));
                    }
                }
            }
        }
        assert(self.levels()[1] == self.node_list_array@[1]@);
        self.node_list_array[1][0].sol
    }

    /// Nodes of all levels plus the two terminals, capped at `usize::MAX`.
    pub fn get_number_of_nodes(&self) -> (r: usize)
        ensures
            r == cap_usize(level_total(self.levels(), self.levels().len() as int) + 2),
    {
        let mut num: usize = 0;
        let mut i: usize = 1;
        while i < self.node_list_array.len()
            invariant
                1 <= i,
                i <= self.levels().len() || i == 1,
                num == cap_usize(level_total(self.levels(), i as int)),
            decreases self.node_list_array.len() - i,
        {
            assert(self.levels()[i as int] == self.node_list_array@[i as int]@);
            num = num.saturating_add(self.node_list_array[i].len());
            i += 1;
        }
        proof {
            assert(self.levels().len() == self.node_list_array@.len());
            if self.levels().len() == 0 {
                assert(level_total(self.levels(), 0) == 0);
                assert(level_total(self.levels(), 1) == 0);
            } else {
                assert(i == self.levels().len());
            }
            assert(num == cap_usize(level_total(self.levels(), self.levels().len() as int)));
        }
        let r = num.saturating_add(2);
        assert(r == cap_usize((num + 2) as nat));
        r
    }
}

} // verus!
