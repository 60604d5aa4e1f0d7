use bbsort::bbsort::to_vag;
use bbsort::block::NoInstrBasicBlock;
use bbsort::convert::{UnwrappedBasicBlock, UnwrappedVAGraph};
use bbsort::members::{contains, deduplicated, insert, position, remove};
use bbsort::splice::{real_ids, splice};
use bbsort::vag::VirtualAddressGraph;
use bbsort::vertex::{VAGNodeId, Vertex};

fn vs(v: &[u64]) -> Vec<Vertex<u64>> {
    v.iter().map(|&x| Vertex::Id(x)).collect()
}

fn raw(entry: u64, blocks: &[(u64, usize, &[u64])]) -> VirtualAddressGraph<u64> {
    let mut nodes = Vec::new();
    for &(address, len, targets) in blocks {
        nodes.push(NoInstrBasicBlock::new(Vertex::Id(address), len, Vec::new(), vs(targets), 0));
    }
    VirtualAddressGraph::new(Vertex::Id(entry), nodes)
}

fn graph(entry: u64, blocks: &[(u64, usize, &[u64])]) -> VirtualAddressGraph<u64> {
    to_vag(&raw(entry, blocks), Vertex::Id(entry)).unwrap()
}

#[test]
fn vertex_id_and_order() {
    assert_eq!(Vertex::Id(7u64).id(), Ok(7));
    assert_eq!(Vertex::<u64>::Source.id(), Err("phantom source node"));
    assert_eq!(Vertex::<u64>::Sink.id(), Err("phantom sink node"));
    assert!(Vertex::<u64>::Source.before(&Vertex::Id(0)));
    assert!(Vertex::Id(u64::MAX).before(&Vertex::Sink));
    assert!(Vertex::Id(3u64).before(&Vertex::Id(4)));
    assert!(!Vertex::Id(4u64).before(&Vertex::Id(4)));
    assert!(!Vertex::<u64>::Sink.before(&Vertex::Source));
    assert!(Vertex::Id(4u64).same(&Vertex::Id(4)));
    assert!(!Vertex::Id(4u64).same(&Vertex::Sink));
    assert!(3u64.before(&4) && !4u64.before(&4) && 4u64.same(&4));
    assert!(3u32.before(&4) && !4u32.same(&5));
    assert!(3usize.before(&4) && 4usize.same(&4));
}

#[test]
fn layout_of_a_graph_with_small_ids() {
    let mut nodes: Vec<NoInstrBasicBlock<u32>> = Vec::new();
    nodes.push(NoInstrBasicBlock::new(Vertex::Id(2), 1, Vec::new(), vec![Vertex::Id(1)], 0));
    nodes.push(NoInstrBasicBlock::new(Vertex::Id(1), 1, Vec::new(), Vec::new(), 0));
    let raw = VirtualAddressGraph::new(Vertex::Id(2u32), nodes);
    assert_eq!(bbsort::cfg_sort(&raw, Vertex::Id(2)), Ok(vec![2, 1]));
}

#[test]
fn vertex_sets() {
    let mut v = vs(&[3, 1, 3, 2, 1]);
    assert_eq!(deduplicated(&v), vs(&[3, 1, 2]));
    v = deduplicated(&v);
    assert_eq!(position(&v, Vertex::Id(1)), Some(1));
    assert_eq!(position(&v, Vertex::Id(9)), None);
    assert!(contains(&v, Vertex::Id(2)));
    assert!(!insert(&mut v, Vertex::Id(2)));
    assert!(insert(&mut v, Vertex::Sink));
    assert_eq!(v, vec![Vertex::Id(3), Vertex::Id(1), Vertex::Id(2), Vertex::Sink]);
    assert!(remove(&mut v, Vertex::Id(1)));
    assert!(!remove(&mut v, Vertex::Id(1)));
    assert_eq!(v, vec![Vertex::Id(3), Vertex::Id(2), Vertex::Sink]);
}

#[test]
fn block_reads_its_neighbours_as_sets() {
    let b = NoInstrBasicBlock::new(Vertex::Id(1u64), 4, vs(&[2, 2]), vs(&[5, 6, 5]), 3);
    assert_eq!(b.address(), Vertex::Id(1));
    assert_eq!(b.len(), 4);
    assert_eq!(b.sources(), &vs(&[2]));
    assert_eq!(b.targets(), &vs(&[5, 6]));
    assert_eq!(b.indegree(), 3);
}

#[test]
fn block_edits() {
    let mut b = NoInstrBasicBlock::new(Vertex::Id(1u64), 4, vs(&[2, 3]), vs(&[5]), 2);
    b.add_target(Vertex::Id(6));
    b.add_target(Vertex::Id(5));
    assert_eq!(b.targets(), &vs(&[5, 6]));
    b.erase_target(Vertex::Id(5));
    assert_eq!(b.targets(), &vs(&[6]));
    b.erase_source(Vertex::Id(9));
    assert_eq!(b.indegree(), 2);
    b.erase_source(Vertex::Id(2));
    assert_eq!(b.sources(), &vs(&[3]));
    assert_eq!(b.indegree(), 1);
    b.set_sources(&vs(&[7, 8, 7]));
    assert_eq!(b.sources(), &vs(&[7, 8]));
    b.set_indegree(5);
    b.decrease_indegree();
    assert_eq!(b.indegree(), 4);
    let c = b.duplicate();
    assert_eq!(c.targets(), b.targets());
}

#[test]
fn block_priority() {
    let a = NoInstrBasicBlock::new(Vertex::Id(1u64), 4, Vec::new(), Vec::new(), 2);
    let b = NoInstrBasicBlock::new(Vertex::Id(2u64), 9, Vec::new(), Vec::new(), 1);
    let c = NoInstrBasicBlock::new(Vertex::Id(3u64), 4, Vec::new(), Vec::new(), 2);
    let d = NoInstrBasicBlock::new(Vertex::Id(4u64), 5, Vec::new(), Vec::new(), 2);
    assert!(a.outranks(&b) && !b.outranks(&a));
    assert!(d.outranks(&a) && !a.outranks(&d));
    assert!(a.outranks(&c) && !c.outranks(&a));
    assert!(!a.outranks(&a));
}

#[test]
fn graph_keeps_the_later_of_two_blocks() {
    let g = raw(0, &[(0, 1, &[1]), (1, 2, &[]), (0, 5, &[])]);
    assert_eq!(g.size(), 2);
    assert_eq!(g.address(), Vertex::Id(0));
    assert_eq!(g.position(Vertex::Id(1)), Some(1));
    assert_eq!(g.position(Vertex::Id(2)), None);
    assert_eq!(g.node_at_target(Vertex::Id(0)).len(), 5);
    assert_eq!(g.weight(Vertex::Id(1)), 2);
    assert_eq!(g.nodes().len(), 2);
    assert!(g.is_plain());
    assert_eq!(g.total_weight(), Some(7));
}

#[test]
fn graph_weight_that_is_no_machine_number() {
    let g = raw(0, &[(0, usize::MAX, &[]), (1, 1, &[])]);
    assert_eq!(g.total_weight(), None);
}

#[test]
fn records_follow_the_edges() {
    let mut g = raw(0, &[(0, 1, &[1, 2]), (1, 2, &[2]), (2, 3, &[0])]);
    assert_eq!(g.predecessors(Vertex::Id(2)), vs(&[0, 1]));
    g.update_sources();
    assert_eq!(g.node_at_target(Vertex::Id(2)).sources(), &vs(&[0, 1]));
    assert_eq!(g.node_at_target(Vertex::Id(2)).indegree(), 0);
    g.update_in_degrees();
    assert_eq!(g.node_at_target(Vertex::Id(2)).indegree(), 2);
    let mut h = raw(0, &[(0, 1, &[1, 2]), (1, 2, &[2]), (2, 3, &[0])]);
    h.update_sources_and_indegrees();
    assert_eq!(h.node_at_target(Vertex::Id(0)).sources(), &vs(&[2]));
    assert_eq!(h.node_at_target(Vertex::Id(1)).indegree(), 1);
    assert_eq!(h.node_at_target(Vertex::Id(2)).indegree(), 2);
    assert_eq!(h.arcs(), vec![(0, 1), (0, 2), (1, 2), (2, 0)]);
}

#[test]
fn edges_are_erased_on_both_sides() {
    let mut g = graph(0, &[(0, 1, &[1, 2]), (1, 2, &[2]), (2, 3, &[0])]);
    g.erase_edge((Vertex::Id(0), Vertex::Id(2)));
    assert_eq!(g.node_at_target(Vertex::Id(0)).targets(), &vs(&[1]));
    assert_eq!(g.node_at_target(Vertex::Id(2)).sources(), &vs(&[1]));
    assert_eq!(g.node_at_target(Vertex::Id(2)).indegree(), 1);
    g.erase_edges(&vec![(Vertex::Id(2), Vertex::Id(0)), (Vertex::Id(1), Vertex::Id(2))]);
    assert_eq!(g.node_at_target(Vertex::Id(2)).targets().len(), 0);
    assert_eq!(g.node_at_target(Vertex::Id(0)).indegree(), 0);
    assert_eq!(g.node_at_target(Vertex::Id(2)).indegree(), 0);
    assert_eq!(g.node_at_target(Vertex::Id(1)).indegree(), 1);
}

#[test]
fn back_edges_close_the_cycles() {
    let g = graph(0, &[(0, 1, &[1]), (1, 2, &[2]), (2, 3, &[1, 3]), (3, 1, &[3])]);
    assert!(g.is_cyclic());
    let mut backs = g.backedges();
    backs.sort();
    assert_eq!(
        backs,
        vec![(Vertex::Id(2), Vertex::Id(1)), (Vertex::Id(3), Vertex::Id(3))]
    );
    let mut h = graph(0, &[(0, 1, &[1]), (1, 2, &[2]), (2, 3, &[1, 3]), (3, 1, &[3])]);
    h.erase_edges(&backs);
    assert!(!h.is_cyclic());
    let dag = graph(0, &[(0, 1, &[1, 2]), (1, 2, &[2]), (2, 3, &[])]);
    assert!(!dag.is_cyclic());
    assert_eq!(dag.backedges(), Vec::new());
}

#[test]
fn blocks_out_of_reach() {
    let g = graph(0, &[(0, 1, &[1]), (1, 2, &[0]), (2, 3, &[1]), (3, 1, &[2])]);
    assert_eq!(g.unreachable_from_start(), vs(&[2, 3]));
    let h = graph(0, &[(0, 1, &[1]), (1, 2, &[0])]);
    assert_eq!(h.unreachable_from_start(), Vec::new());
}

#[test]
fn edges_that_leave_the_graph() {
    let mut g = raw(0, &[(0, 1, &[1, 2, 6]), (1, 10, &[2, 7, 9]), (2, 5, &[6, 7])]);
    let erased = g.erase_outgoing_edges();
    assert_eq!(
        erased,
        vec![
            (Vertex::Id(0), Vertex::Id(6)),
            (Vertex::Id(1), Vertex::Id(7)),
            (Vertex::Id(1), Vertex::Id(9)),
            (Vertex::Id(2), Vertex::Id(6)),
            (Vertex::Id(2), Vertex::Id(7)),
        ]
    );
    assert_eq!(g.node_at_target(Vertex::Id(0)).targets(), &vs(&[1, 2]));
    assert_eq!(g.node_at_target(Vertex::Id(1)).targets(), &vs(&[2]));
    assert_eq!(g.node_at_target(Vertex::Id(2)).targets().len(), 0);
}

#[test]
fn phantom_vertices() {
    let mut g = raw(1, &[(1, 4, &[2, 9]), (2, 6, &[1, 9, 8])]);
    g.add_source_vertex(&vec![
        (Vertex::Id(0), Vertex::Id(2)),
        (Vertex::Id(5), Vertex::Id(2)),
        (Vertex::Id(5), Vertex::Id(1)),
    ]);
    let source = g.node_at_target(Vertex::Source);
    assert_eq!(source.targets(), &vs(&[2, 1]));
    assert_eq!(source.indegree(), 0);
    assert_eq!(source.len(), 99999);
    assert_eq!(source.sources().len(), 0);
    g.add_sink_vertex(&vec![
        (Vertex::Id(1), Vertex::Id(9)),
        (Vertex::Id(2), Vertex::Id(9)),
        (Vertex::Id(2), Vertex::Id(8)),
    ]);
    let sink = g.node_at_target(Vertex::Sink);
    assert_eq!(sink.sources(), &vs(&[1, 2]));
    assert_eq!(sink.indegree(), 3);
    assert_eq!(sink.len(), 0);
    assert_eq!(g.node_at_target(Vertex::Id(1)).targets(), &vec![Vertex::Id(2), Vertex::Sink]);
    assert_eq!(g.node_at_target(Vertex::Id(2)).targets(), &vec![Vertex::Id(1), Vertex::Sink]);
    assert!(!g.is_plain());
}

#[test]
fn cost_of_adjacent_forward_edge() {
    let g = graph(0, &[(0, 3, &[1]), (1, 4, &[])]);
    assert_eq!(g.cost_of_order(&vec![0, 1]), 0);
}

#[test]
fn cost_of_edges() {
    // forward over one block: the weight of that block
    let g = graph(0, &[(0, 3, &[2]), (1, 4, &[]), (2, 5, &[])]);
    assert_eq!(g.cost_of_order(&vec![0, 1, 2]), 4);
    // back: both ends count
    let h = graph(0, &[(0, 3, &[1]), (1, 4, &[])]);
    assert_eq!(h.cost_of_order(&vec![1, 0]), 7);
    // a loop costs its block
    let l = graph(0, &[(0, 3, &[0])]);
    assert_eq!(l.cost_of_order(&vec![0]), 3);
    // all together
    let m = graph(0, &[(0, 1, &[1, 3]), (1, 2, &[2]), (2, 4, &[0, 2]), (3, 8, &[])]);
    // 0->1: 0, 0->3: 2 + 4, 1->2: 0, 2->0: 1 + 2 + 4, 2->2: 4
    assert_eq!(m.cost_of_order(&vec![0, 1, 2, 3]), 17);
    assert_eq!(m.try_cost_of_order(&vec![0, 1, 2, 3]), Some(17));
}

#[test]
fn cost_that_is_no_machine_number() {
    let g = graph(0, &[(0, usize::MAX, &[1]), (1, 2, &[0])]);
    assert_eq!(g.try_cost_of_order(&vec![0, 1]), None);
}

#[test]
fn orders_that_are_no_permutation() {
    let g = graph(0, &[(0, 3, &[1]), (1, 4, &[])]);
    assert!(g.is_permutation(&vec![1, 0]));
    assert!(!g.is_permutation(&vec![0]));
    assert!(!g.is_permutation(&vec![0, 0]));
    assert!(!g.is_permutation(&vec![0, 2]));
    assert_eq!(g.ascending_ids(), vec![0, 1]);
}

#[test]
fn splicing() {
    let order = vs(&[4, 1, 9]);
    let inner = vec![(Vertex::Id(1u64), vs(&[2, 1, 3])), (Vertex::Id(7u64), vs(&[8]))];
    let spliced = splice(&order, &inner);
    assert_eq!(spliced, vs(&[4, 2, 1, 3, 9]));
    assert_eq!(real_ids(&spliced), vec![4, 2, 1, 3, 9]);
}

#[test]
fn flat_form() {
    let a = UnwrappedBasicBlock::new(0u64, 3, vec![1, 1, 2], 0);
    assert_eq!(a.address(), 0);
    assert_eq!(a.len(), 3);
    assert_eq!(a.indegree(), 0);
    assert_eq!(a.targets(), &vec![1, 1, 2]);
    let block = a.to_nibb();
    assert_eq!(block.address(), Vertex::Id(0));
    assert_eq!(block.targets(), &vs(&[1, 2]));
    assert_eq!(block.sources().len(), 0);
    let b = UnwrappedBasicBlock::new(1u64, 5, vec![], 1);
    let flat = UnwrappedVAGraph::new(0u64, vec![a, b]);
    assert_eq!(flat.nodes().len(), 2);
    let g = flat.to_vag();
    assert_eq!(g.address(), Vertex::Id(0));
    assert_eq!(g.size(), 2);
    assert_eq!(g.node_at_target(Vertex::Id(1)).len(), 5);
    assert_eq!(g.node_at_target(Vertex::Id(1)).indegree(), 1);
}
