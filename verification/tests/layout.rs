use bbsort::bbsort::{cfg_cost, cfg_sort, to_vag, CostError, SortError};
use bbsort::block::NoInstrBasicBlock;
use bbsort::kahn::KahnGraph;
use bbsort::scc::Component;
use bbsort::vag::VirtualAddressGraph;
use bbsort::vertex::Vertex;

fn vs(v: &[u64]) -> Vec<Vertex<u64>> {
    v.iter().map(|&x| Vertex::Id(x)).collect()
}

fn graph(entry: u64, blocks: &[(u64, usize, &[u64])]) -> VirtualAddressGraph<u64> {
    let mut nodes = Vec::new();
    for &(address, len, targets) in blocks {
        nodes.push(NoInstrBasicBlock::new(Vertex::Id(address), len, Vec::new(), vs(targets), 0));
    }
    let raw = VirtualAddressGraph::new(Vertex::Id(entry), nodes);
    to_vag(&raw, Vertex::Id(entry)).unwrap()
}

#[test]
fn kahn_prefers_the_longer_block() {
    let g = graph(0, &[(0, 1, &[1, 2]), (1, 10, &[3]), (2, 5, &[3]), (3, 2, &[])]);
    let mut kahn = KahnGraph::from_vag(&g);
    assert_eq!(kahn.kahn_algorithm(), vs(&[0, 1, 2, 3]));
}

#[test]
fn kahn_prefers_the_block_with_more_predecessors() {
    // once 0 and 4 are placed, 2 (two predecessors, short) and 3 (one, long) both wait
    let g = graph(0, &[(0, 7, &[1, 2]), (4, 3, &[2, 3]), (1, 5, &[]), (2, 1, &[]), (3, 50, &[])]);
    let mut kahn = KahnGraph::from_vag(&g);
    assert_eq!(kahn.kahn_algorithm(), vs(&[0, 1, 4, 2, 3]));
}

#[test]
fn kahn_breaks_ties_by_address() {
    let g = graph(0, &[(0, 1, &[9, 5, 7]), (9, 4, &[]), (5, 4, &[]), (7, 4, &[])]);
    let mut kahn = KahnGraph::from_vag(&g);
    assert_eq!(kahn.kahn_algorithm(), vs(&[0, 5, 7, 9]));
}

#[test]
fn kahn_respects_every_edge_of_a_dag() {
    let blocks: &[(u64, usize, &[u64])] = &[
        (0, 1, &[3, 1]),
        (1, 2, &[2, 4]),
        (2, 3, &[5]),
        (3, 9, &[4]),
        (4, 1, &[5]),
        (5, 6, &[]),
    ];
    let g = graph(0, blocks);
    let mut kahn = KahnGraph::from_vag(&g);
    let order = kahn.kahn_algorithm();
    assert_eq!(order.len(), 6);
    for &(u, _, targets) in blocks {
        for &v in targets {
            let pu = order.iter().position(|&x| x == Vertex::Id(u)).unwrap();
            let pv = order.iter().position(|&x| x == Vertex::Id(v)).unwrap();
            assert!(pu < pv);
        }
    }
}

#[test]
fn kahn_gives_the_same_order_twice() {
    let g = graph(0, &[(0, 1, &[1, 2]), (1, 10, &[3]), (2, 5, &[3]), (3, 2, &[])]);
    let mut kahn = KahnGraph::from_vag(&g);
    let first = kahn.kahn_algorithm();
    let second = kahn.kahn_algorithm();
    assert_eq!(first, second);
}

#[test]
fn kahn_stops_before_a_cycle() {
    let g = graph(0, &[(0, 1, &[1]), (1, 1, &[2]), (2, 1, &[1])]);
    let mut kahn = KahnGraph::from_vag(&g);
    assert_eq!(kahn.kahn_algorithm(), vs(&[0]));
}

#[test]
fn weighted_order_of_a_dag_is_the_schedule() {
    let g = graph(0, &[(0, 1, &[1, 2]), (1, 10, &[3]), (2, 5, &[3]), (3, 2, &[])]);
    assert_eq!(g.weighted_order(), vec![0, 1, 2, 3]);
}

#[test]
fn weighted_order_lays_a_loop_between_its_neighbours() {
    let g = graph(0, &[(0, 1, &[1]), (1, 4, &[2]), (2, 6, &[1, 3]), (3, 2, &[])]);
    assert!(g.is_cyclic());
    assert_eq!(g.weighted_order(), vec![0, 1, 2, 3]);
}

#[test]
fn weighted_order_holds_every_block_once() {
    let blocks: &[(u64, usize, &[u64])] = &[
        (10, 3, &[20, 30]),
        (20, 5, &[40]),
        (30, 2, &[40, 50]),
        (40, 7, &[20, 60]),
        (50, 1, &[30, 60]),
        (60, 4, &[]),
    ];
    let g = graph(10, blocks);
    let mut order = g.weighted_order();
    assert_eq!(order.len(), 6);
    assert_eq!(order[0], 10);
    assert_eq!(order[5], 60);
    order.sort();
    assert_eq!(order, vec![10, 20, 30, 40, 50, 60]);
}

#[test]
fn components_of_a_graph_with_a_loop() {
    let g = graph(0, &[(0, 1, &[1]), (1, 4, &[2]), (2, 6, &[1, 3]), (3, 2, &[])]);
    let comps = Component::from_vag(&g);
    assert_eq!(comps.len(), 3);
    // reverse topological order: what an edge enters comes first
    assert_eq!(comps[0].compid(), Vertex::Id(3));
    assert_eq!(comps[1].compid(), Vertex::Id(1));
    assert_eq!(comps[2].compid(), Vertex::Id(0));
    assert!(comps[0].trivial());
    assert!(!comps[1].trivial());
    let mut members = comps[1].nodes().clone();
    members.sort();
    assert_eq!(members, vs(&[1, 2]));
}

#[test]
fn component_without_cycles() {
    let g = graph(0, &[(0, 1, &[2]), (2, 6, &[1]), (1, 4, &[2, 3]), (3, 2, &[])]);
    let comps = Component::from_vag(&g);
    let comp = comps.iter().find(|c| !c.trivial()).unwrap();
    assert_eq!(comp.compid(), Vertex::Id(1));
    assert_eq!(comp.incoming_edges(), vec![(Vertex::Id(0), Vertex::Id(2))]);
    assert_eq!(comp.outgoing_edges(), vec![(Vertex::Id(1), Vertex::Id(3))]);
    let copy = comp.to_acyclic_vag();
    assert!(!copy.is_cyclic());
    assert_eq!(copy.address(), Vertex::Id(1));
    assert_eq!(copy.size(), 4);
    assert!(copy.contains(Vertex::Source));
    assert!(copy.contains(Vertex::Sink));
    // the edge that closed the cycle is gone, on both sides
    assert_eq!(copy.node_at_target(Vertex::Id(2)).targets().len(), 0);
    assert_eq!(copy.node_at_target(Vertex::Id(1)).sources().len(), 0);
    assert_eq!(copy.node_at_target(Vertex::Id(1)).indegree(), 0);
    assert_eq!(copy.node_at_target(Vertex::Id(1)).targets(), &vec![Vertex::Id(2), Vertex::Sink]);
    assert_eq!(copy.node_at_target(Vertex::Source).targets(), &vs(&[2]));
    assert_eq!(copy.node_at_target(Vertex::Id(2)).indegree(), 2);
    assert_eq!(copy.node_at_target(Vertex::Sink).sources(), &vs(&[1]));
}

#[test]
fn condensation_of_single_blocks_is_the_graph() {
    let g = graph(0, &[(0, 1, &[1, 2]), (1, 10, &[3]), (2, 5, &[3]), (3, 2, &[])]);
    let comps = Component::from_vag(&g);
    assert!(comps.iter().all(|c| c.trivial()));
    let h = g.condense(&comps);
    assert_eq!(h.size(), g.size());
    for v in [0u64, 1, 2, 3] {
        let a = h.node_at_target(Vertex::Id(v));
        let b = g.node_at_target(Vertex::Id(v));
        assert_eq!(a.len(), b.len());
        let mut ta = a.targets().clone();
        let mut tb = b.targets().clone();
        ta.sort();
        tb.sort();
        assert_eq!(ta, tb);
        assert_eq!(a.indegree(), b.indegree());
    }
    let mut kahn = KahnGraph::from_vag(&g);
    let direct: Vec<u64> = kahn.kahn_algorithm().iter().map(|v| v.id().unwrap()).collect();
    assert_eq!(g.weighted_order(), direct);
}

#[test]
fn condensation_adds_up_the_weights() {
    let g = graph(0, &[(0, 1, &[1]), (1, 4, &[2]), (2, 6, &[1, 3]), (3, 2, &[])]);
    let comps = Component::from_vag(&g);
    let h = g.condense(&comps);
    assert_eq!(h.size(), 3);
    assert!(!h.is_cyclic());
    assert_eq!(h.node_at_target(Vertex::Id(1)).len(), 10);
    assert_eq!(h.node_at_target(Vertex::Id(1)).targets(), &vs(&[3]));
    assert_eq!(h.node_at_target(Vertex::Id(0)).targets(), &vs(&[1]));
    assert_eq!(h.node_at_target(Vertex::Id(3)).indegree(), 1);
}

#[test]
fn sort_of_an_empty_graph() {
    let raw: VirtualAddressGraph<u64> = VirtualAddressGraph::new(Vertex::Id(0), Vec::new());
    assert_eq!(cfg_sort(&raw, Vertex::Id(0)), Err(SortError::EmptyGraph));
}

#[test]
fn sort_with_an_entry_that_is_no_block() {
    let g = graph(0, &[(0, 1, &[1]), (1, 1, &[])]);
    assert_eq!(cfg_sort(&g, Vertex::Id(3)), Err(SortError::InvalidInitialAddress));
    assert_eq!(cfg_sort(&g, Vertex::Source), Err(SortError::InvalidInitialAddress));
}

#[test]
fn sort_with_a_block_out_of_reach() {
    let g = graph(0, &[(0, 1, &[]), (1, 10, &[])]);
    assert_eq!(cfg_sort(&g, Vertex::Id(0)), Err(SortError::UnreachableNodes));
    let h = graph(0, &[(0, 1, &[1]), (1, 10, &[]), (2, 3, &[1])]);
    assert_eq!(cfg_sort(&h, Vertex::Id(0)), Err(SortError::UnreachableNodes));
}

#[test]
fn sort_forgets_edges_that_leave_the_graph() {
    let g = graph(0, &[(0, 1, &[1, 2, 6]), (1, 10, &[2, 7, 9]), (2, 5, &[6, 7])]);
    assert_eq!(cfg_sort(&g, Vertex::Id(0)), Ok(vec![0, 1, 2]));
}

#[test]
fn cost_of_an_order_of_the_wrong_length() {
    let g = graph(0, &[(0, 1, &[1]), (1, 10, &[])]);
    assert_eq!(
        cfg_cost(&g, Vertex::Id(0), &vec![0]).err(),
        Some(CostError::LessNodesThanOriginal)
    );
    assert_eq!(
        cfg_cost(&g, Vertex::Id(0), &vec![0, 1, 0]).err(),
        Some(CostError::MoreNodesThanOriginal)
    );
}

#[test]
fn cost_against_the_order_of_addresses() {
    let g = graph(5, &[(5, 2, &[1]), (3, 7, &[]), (1, 4, &[3, 5])]);
    let judged = cfg_cost(&g, Vertex::Id(5), &vec![5, 1, 3]).unwrap();
    assert_eq!(judged.entry(), Vertex::Id(5));
    assert_eq!(judged.order(), &vec![5, 1, 3]);
    assert_eq!(judged.original_order(), &vec![1, 3, 5]);
    // 5 -> 1 forward, adjacent: 0; 1 -> 3 forward, adjacent: 0; 1 -> 5 back: 2 + 4
    assert_eq!(judged.cost(), 6);
    // order 1, 3, 5: 1 -> 3: 0; 1 -> 5 forward over 3: 7; 5 -> 1 back over all: 4 + 7 + 2
    assert_eq!(judged.original_cost(), 20);
    assert!(judged.is_better());
}
