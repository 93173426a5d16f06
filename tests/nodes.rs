use frontier_basic_rs::{Child, Edge, Graph, ZDDNode};

fn zdd_create_root_node_fixtures(size: usize) -> (Vec<usize>, Vec<usize>) {
    let comp = (1..=size).collect();
    let deg = vec![0; size];
    (comp, deg)
}

#[test]
fn zddnode_create_root_node() {
    for i in 0..10 {
        let z = ZDDNode::create_root_node(i, 2);
        let (expected_comp, expected_deg) = zdd_create_root_node_fixtures(i);
        assert_eq!(z.components(), expected_comp);
        assert_eq!(z.degrees(), expected_deg);
    }
    for i in 10000..10010 {
        let z = ZDDNode::create_root_node(i, 2);
        let (expected_comp, expected_deg) = zdd_create_root_node_fixtures(i);
        assert_eq!(z.components(), expected_comp);
        assert_eq!(z.degrees(), expected_deg);
    }
    for i in 1000000..1000010 {
        let z = ZDDNode::create_root_node(i, 2);
        let (expected_comp, expected_deg) = zdd_create_root_node_fixtures(i);
        assert_eq!(z.components(), expected_comp);
        assert_eq!(z.degrees(), expected_deg);
    }
}

#[test]
fn graph_get_number_of_vertices() {
    let e1 = Edge::new(0, 1);
    let e2 = Edge::new(0, 2);
    let e3 = Edge::new(1, 3);
    let e4 = Edge::new(2, 3);
    let edge_list = vec![e1, e2, e3, e4];
    let g = Graph::new(4, edge_list.clone());
    assert_eq!(g.get_number_of_vertices(), 4);
    assert_eq!(g.get_edge_list(), &edge_list);
}

#[test]
fn zddnode_get_id() {
    let z1: ZDDNode = ZDDNode {
        deg: vec![],
        comp: vec![],
        sol: 0,
        zero_child: Child::Zero,
        one_child: Child::Zero,
        id: 0,
    };
    assert_eq!(z1.get_id(), 0);
}

#[test]
fn zddnode_get_child() {
    let z1: ZDDNode = ZDDNode {
        deg: vec![],
        comp: vec![],
        sol: 0,
        zero_child: Child::Zero,
        one_child: Child::Zero,
        id: 0,
    };
    let z2: ZDDNode = ZDDNode {
        deg: vec![],
        comp: vec![],
        sol: 0,
        zero_child: Child::Zero,
        one_child: Child::Zero,
        id: 1,
    };
    let z3: ZDDNode = ZDDNode {
        deg: vec![],
        comp: vec![],
        sol: 0,
        zero_child: Child::Zero,
        one_child: Child::One,
        id: 2,
    };
    let terminals = [&z1, &z2];
    let pick = |c: Child| match c {
        Child::Zero => terminals[0],
        Child::One => terminals[1],
        Child::Node(_) => panic!("a terminal was expected"),
    };
    let zero = pick((&z3).get_child(0));
    assert_eq!(zero.id, 0);
    assert_eq!(zero.sol, 0);
    assert_eq!(zero.id, 0);
    assert_eq!(zero.sol, 0);
    let one = pick(z3.get_child(1));
    assert_eq!(one.id, 1);
}

#[test]
fn root_node_arrays_and_terminal() {
    let z = ZDDNode::create_root_node(3, 2);
    assert_eq!(z.deg, vec![0, 0, 0, 0]);
    assert_eq!(z.comp, vec![0, 1, 2, 3]);
    assert_eq!(z.get_id(), 2);
    let t = ZDDNode::terminal(1, 1);
    assert_eq!(t.get_sol(), 1);
    assert!(t.degrees().is_empty());
}

#[test]
fn make_copy_keeps_state() {
    let mut z = ZDDNode::create_root_node(4, 2);
    z.deg[2] = 1;
    z.comp[3] = 1;
    z.set_child(Child::Node(5), 1);
    let c = z.make_copy(9);
    assert_eq!(c.deg, z.deg);
    assert_eq!(c.comp, z.comp);
    assert_eq!(c.get_id(), 9);
    assert_eq!(c.get_child(1), Child::Zero);
    assert_eq!(z.get_child(1), Child::Node(5));
    let mut d = c;
    d.set_next_id(11);
    assert_eq!(d.get_id(), 11);
}
