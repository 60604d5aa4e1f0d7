use bbsort::bbsort::{cfg_sort, to_vag, SortError};
use bbsort::block::NoInstrBasicBlock;
use bbsort::vag::VirtualAddressGraph;
use bbsort::vertex::Vertex;

fn ids(v: &[u64]) -> Vec<Vertex<u64>> {
    v.iter().map(|&x| Vertex::Id(x)).collect()
}

#[test]
fn empty_graph() {
    let entry: Vertex<u64> = Vertex::Id(0x0);
    let vag: VirtualAddressGraph<u64> = VirtualAddressGraph::new(entry, Vec::new());
    assert_eq!(to_vag(&vag, entry).is_err_and(|x| x == SortError::EmptyGraph), true);
}

#[test]
fn not_connected() {
    let address: Vertex<u64> = Vertex::Id(0x0);
    let mut nodes: Vec<NoInstrBasicBlock<u64>> = Vec::new();
    nodes.push(NoInstrBasicBlock::new(Vertex::Id(0x0), 1, Vec::new(), Vec::new(), 0));
    nodes.push(NoInstrBasicBlock::new(Vertex::Id(0x1), 10, Vec::new(), Vec::new(), 0));
    let vag: VirtualAddressGraph<u64> = VirtualAddressGraph::new(address, nodes);
    let vag = to_vag(&vag, address).unwrap();
    let result = cfg_sort(&vag, address);
    assert_eq!(result.is_err_and(|x| x == SortError::UnreachableNodes), true);
}

#[test]
fn invalid_entry_address() {
    let address: Vertex<u64> = Vertex::Id(0x3);
    let mut nodes: Vec<NoInstrBasicBlock<u64>> = Vec::new();
    nodes.push(NoInstrBasicBlock::new(Vertex::Id(0x0), 1, Vec::new(), ids(&[0x1, 0x2]), 0));
    nodes.push(NoInstrBasicBlock::new(Vertex::Id(0x1), 10, ids(&[0x1]), ids(&[0x2]), 1));
    nodes.push(NoInstrBasicBlock::new(Vertex::Id(0x2), 5, ids(&[0x0, 0x1]), Vec::new(), 2));
    let vag: VirtualAddressGraph<u64> = VirtualAddressGraph::new(address, nodes);
    assert_eq!(
        to_vag(&vag, address).is_err_and(|x| x == SortError::InvalidInitialAddress),
        true
    );
}

#[test]
fn filtered_targets_two_nodes() {
    let address: Vertex<u64> = Vertex::Id(0x0);
    let mut nodes: Vec<NoInstrBasicBlock<u64>> = Vec::new();
    nodes.push(NoInstrBasicBlock::new(Vertex::Id(0x0), 1, Vec::new(), ids(&[0x1]), 0));
    nodes.push(NoInstrBasicBlock::new(Vertex::Id(0x1), 10, ids(&[0x0]), ids(&[0x2]), 0));
    let vag: VirtualAddressGraph<u64> = VirtualAddressGraph::new(address, nodes);
    let out_vag = to_vag(&vag, address).unwrap();
    assert_ne!(
        out_vag.node_at_target(Vertex::Id(0x1)).targets().len(),
        vag.node_at_target(Vertex::Id(0x1)).targets().len()
    );
    assert_eq!(out_vag.node_at_target(Vertex::Id(0x1)).targets().len(), 0);
}

#[test]
fn filtered_targets_three_nodes_multiple_phantom_edges() {
    let address: Vertex<u64> = Vertex::Id(0x0);
    let mut nodes: Vec<NoInstrBasicBlock<u64>> = Vec::new();
    nodes.push(NoInstrBasicBlock::new(Vertex::Id(0x0), 1, Vec::new(), ids(&[0x1, 0x2, 0x6]), 0));
    nodes.push(NoInstrBasicBlock::new(Vertex::Id(0x1), 10, ids(&[0x1]), ids(&[0x2, 0x7, 0x9]), 1));
    nodes.push(NoInstrBasicBlock::new(Vertex::Id(0x2), 5, ids(&[0x0, 0x1]), ids(&[0x6, 0x7]), 2));
    let vag: VirtualAddressGraph<u64> = VirtualAddressGraph::new(address, nodes);
    let out_vag = to_vag(&vag, address).unwrap();
    assert_ne!(
        out_vag.node_at_target(Vertex::Id(0x0)).targets().len(),
        vag.node_at_target(Vertex::Id(0x0)).targets().len()
    );
    assert_ne!(
        out_vag.node_at_target(Vertex::Id(0x1)).targets().len(),
        vag.node_at_target(Vertex::Id(0x1)).targets().len()
    );
    assert_ne!(
        out_vag.node_at_target(Vertex::Id(0x2)).targets().len(),
        vag.node_at_target(Vertex::Id(0x2)).targets().len()
    );
    assert_eq!(out_vag.node_at_target(Vertex::Id(0x0)).targets().len(), 2);
    assert_eq!(out_vag.node_at_target(Vertex::Id(0x1)).targets().len(), 1);
    assert_eq!(out_vag.node_at_target(Vertex::Id(0x2)).targets().len(), 0);
}
