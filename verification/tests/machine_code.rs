use bbsort::binary::{Binary, Limit, Segment, PT_LOAD};
use bbsort::block::NoInstrBasicBlock;
use bbsort::cfg::{BasicBlock, ControlFlowGraph, FlowControl};
use bbsort::vag::VirtualAddressGraph;
use bbsort::vertex::Vertex;

const OUTSIDE: &str = "invalid virtual address range error";

fn binary(vaddr: u64, code: &[u8]) -> Binary {
    let mut bytes = vec![0u8; 16];
    bytes.extend_from_slice(code);
    let segments = vec![
        Segment { p_type: 6, p_vaddr: 0, p_filesz: 1 << 40, p_offset: 0 },
        Segment { p_type: PT_LOAD, p_vaddr: vaddr, p_filesz: code.len() as u64, p_offset: 16 },
    ];
    Binary::new(segments, bytes).unwrap()
}

// mov rax, 1 ; mov rax, 1 ; jmp +0
const THREE: [u8; 19] = [
    0x48, 0xc7, 0xc0, 0x01, 0x00, 0x00, 0x00, 0x48, 0xc7, 0xc0, 0x01, 0x00, 0x00, 0x00, 0xe9, 0x00,
    0x00, 0x00, 0x00,
];

#[test]
fn next_valid_va() {
    let binary = binary(0x8840, &THREE);
    let virtual_address: u64 = 0x8840;
    let bb = BasicBlock::from_address(&binary, virtual_address).unwrap();
    assert_eq!(
        Err(String::from("address is outside of basic block's range error")),
        bb.next_valid_instr(0x8838)
    );
    assert_eq!(
        Err(String::from("address is outside of basic block's range error")),
        bb.next_valid_instr(0x8853)
    );
    assert_eq!(Ok(0x8847), bb.next_valid_instr(0x8842));
    assert_eq!(Ok(0x8847), bb.next_valid_instr(0x8846));
    assert_eq!(Ok(0x884e), bb.next_valid_instr(0x8849));
    assert_eq!(Ok(0x884e), bb.next_valid_instr(0x884e));
    assert_eq!(Ok(0x8853), bb.next_valid_instr(0x8852));
}

#[test]
fn binary_with_a_segment_outside_the_file() {
    let s = Segment { p_type: PT_LOAD, p_vaddr: 0x1000, p_filesz: 9, p_offset: 0 };
    assert!(Binary::new(vec![s], vec![0u8; 8]).is_none());
    let t = Segment { p_type: PT_LOAD, p_vaddr: u64::MAX, p_filesz: 1, p_offset: 0 };
    assert!(Binary::new(vec![t], vec![0u8; 8]).is_none());
    let b = Binary::new(vec![Segment { p_type: 2, ..s }], vec![0u8; 8]).unwrap();
    assert_eq!(b.segments().len(), 1);
    assert_eq!(b.bytes().len(), 8);
}

#[test]
fn bytes_at_virtual_addresses() {
    let binary = binary(0x1000, &[10, 11, 12, 13, 14]);
    assert_eq!(
        binary.virtual_address_range(Limit::Included(0x1001), Limit::Unbounded),
        Ok(&[11u8, 12, 13, 14][..])
    );
    assert_eq!(
        binary.virtual_address_range(Limit::Excluded(0x1001), Limit::Excluded(0x1005)),
        Ok(&[12u8, 13][..])
    );
    assert_eq!(
        binary.virtual_address_range(Limit::Included(0x1000), Limit::Included(0x1003)),
        Ok(&[10u8, 11, 12][..])
    );
    assert_eq!(
        binary.virtual_address_range(Limit::Included(0x1005), Limit::Unbounded),
        Ok(&[][..])
    );
    for (start, end) in [
        (Limit::Included(0xfff), Limit::Unbounded),
        (Limit::Included(0x1006), Limit::Unbounded),
        (Limit::Unbounded, Limit::Unbounded),
        (Limit::Excluded(u64::MAX), Limit::Unbounded),
        (Limit::Included(0x1000), Limit::Included(0x1006)),
        (Limit::Included(0x1002), Limit::Included(0x1001)),
        (Limit::Included(0x1000), Limit::Excluded(0)),
    ] {
        assert_eq!(binary.virtual_address_range(start, end), Err(String::from(OUTSIDE)));
    }
}

fn elf(code: &[u8]) -> Vec<u8> {
    let mut b: Vec<u8> = Vec::new();
    b.extend_from_slice(&[0x7f, b'E', b'L', b'F', 2, 1, 1, 0, 0, 0, 0, 0, 0, 0, 0, 0]);
    b.extend_from_slice(&2u16.to_le_bytes());
    b.extend_from_slice(&0x3eu16.to_le_bytes());
    b.extend_from_slice(&1u32.to_le_bytes());
    b.extend_from_slice(&0x1000u64.to_le_bytes());
    b.extend_from_slice(&64u64.to_le_bytes());
    b.extend_from_slice(&0u64.to_le_bytes());
    b.extend_from_slice(&0u32.to_le_bytes());
    b.extend_from_slice(&64u16.to_le_bytes());
    b.extend_from_slice(&56u16.to_le_bytes());
    b.extend_from_slice(&1u16.to_le_bytes());
    b.extend_from_slice(&64u16.to_le_bytes());
    b.extend_from_slice(&0u16.to_le_bytes());
    b.extend_from_slice(&0u16.to_le_bytes());
    b.extend_from_slice(&1u32.to_le_bytes());
    b.extend_from_slice(&5u32.to_le_bytes());
    b.extend_from_slice(&120u64.to_le_bytes());
    b.extend_from_slice(&0x1000u64.to_le_bytes());
    b.extend_from_slice(&0x1000u64.to_le_bytes());
    b.extend_from_slice(&(code.len() as u64).to_le_bytes());
    b.extend_from_slice(&(code.len() as u64).to_le_bytes());
    b.extend_from_slice(&0x1000u64.to_le_bytes());
    b.extend_from_slice(code);
    b
}

#[test]
fn binary_from_the_bytes_of_an_elf_file() {
    let binary = Binary::from_bytes(elf(&[0xc3])).unwrap();
    assert_eq!(
        binary.segments(),
        &vec![Segment { p_type: PT_LOAD, p_vaddr: 0x1000, p_filesz: 1, p_offset: 120 }]
    );
    assert_eq!(binary.bytes().len(), 121);
    assert_eq!(
        binary.virtual_address_range(Limit::Included(0x1000), Limit::Unbounded),
        Ok(&[0xc3u8][..])
    );
    assert_eq!(Binary::from_bytes(vec![1, 2, 3]).err(), Some(String::from("cannot parse elf file error")));
    let mut cut = elf(&[0xc3]);
    cut.pop();
    assert_eq!(Binary::from_bytes(cut).err(), Some(String::from("segment outside of file error")));
}

#[test]
fn block_ends_with_a_conditional_branch() {
    // xor eax, eax ; jne +2 ; (nop ; nop)
    let bb = BasicBlock::decode(&[0x31, 0xc0, 0x75, 0x02, 0x90, 0x90], 0x400);
    assert_eq!(bb.address(), 0x400);
    assert_eq!(bb.instructions().len(), 2);
    assert_eq!(bb.instructions()[0].ip, 0x400);
    assert_eq!(bb.instructions()[0].len, 2);
    assert_eq!(bb.instructions()[0].flow_control, FlowControl::Next);
    assert_eq!(bb.instructions()[1].ip, 0x402);
    assert_eq!(bb.instructions()[1].next_ip, 0x404);
    assert_eq!(bb.instructions()[1].flow_control, FlowControl::ConditionalBranch);
    assert_eq!(bb.instructions()[1].near_branch_target, 0x406);
    assert_eq!(bb.targets(), &vec![0x404, 0x406]);
    assert_eq!(bb.end_address(), 0x403);
}

#[test]
fn block_ends_with_a_jump() {
    // jmp -2: to itself
    let bb = BasicBlock::decode(&[0xeb, 0xfe], 0x400);
    assert_eq!(bb.instructions()[0].flow_control, FlowControl::UnconditionalBranch);
    assert!(bb.instructions()[0].is_jmp_short_or_near);
    assert!(!bb.instructions()[0].is_jmp_far);
    assert_eq!(bb.targets(), &vec![0x400]);
}

#[test]
fn block_ends_without_successor() {
    // call +0 ; ret
    let bb = BasicBlock::decode(&[0xe8, 0x00, 0x00, 0x00, 0x00, 0xc3, 0x90], 0x10);
    assert_eq!(bb.instructions().len(), 2);
    assert_eq!(bb.instructions()[0].flow_control, FlowControl::Call);
    assert_eq!(bb.instructions()[1].flow_control, FlowControl::Return);
    assert_eq!(bb.targets().len(), 0);
    // jmp rax
    let indirect = BasicBlock::decode(&[0xff, 0xe0], 0x10);
    assert_eq!(indirect.instructions()[0].flow_control, FlowControl::IndirectBranch);
    assert_eq!(indirect.targets().len(), 0);
    // int3
    let trap = BasicBlock::decode(&[0xcc], 0x10);
    assert_eq!(trap.instructions()[0].flow_control, FlowControl::Interrupt);
    // no bytes at all
    let none = BasicBlock::decode(&[], 0x10);
    assert_eq!(none.instructions().len(), 1);
    assert_eq!(none.instructions()[0].len, 0);
    assert_eq!(none.instructions()[0].flow_control, FlowControl::Exception);
    // the bytes end behind a plain instruction: the block ends with what is decoded from none
    let open = BasicBlock::decode(&[0x90, 0x90], 0x10);
    assert_eq!(open.instructions().len(), 3);
    assert_eq!(open.instructions()[2].len, 0);
    assert_eq!(open.instructions()[2].ip, 0x12);
    assert_eq!(open.targets().len(), 0);
    assert_eq!(open.end_address(), 0x11);
}

#[test]
fn block_outside_the_binary() {
    let binary = binary(0x8840, &THREE);
    assert_eq!(BasicBlock::from_address(&binary, 0x9000).err(), Some(String::from(OUTSIDE)));
    assert_eq!(BasicBlock::from_address(&binary, 0x883f).err(), Some(String::from(OUTSIDE)));
}

#[test]
fn block_is_cut_at_an_instruction() {
    let binary = binary(0x8840, &THREE);
    let bb = || BasicBlock::from_address(&binary, 0x8840).unwrap();
    assert_eq!(bb().targets(), &vec![0x8853]);
    let cut = bb().cut_block(0x8847);
    assert_eq!(cut.len(), 2);
    assert_eq!(cut[0].address(), 0x8840);
    assert_eq!(cut[0].instructions().len(), 1);
    assert_eq!(cut[0].targets(), &vec![0x8847]);
    assert_eq!(cut[0].end_address(), 0x8846);
    assert_eq!(cut[1].address(), 0x8847);
    assert_eq!(cut[1].instructions().len(), 2);
    assert_eq!(cut[1].targets(), &vec![0x8853]);
    // inside an instruction: cut behind it
    let behind = bb().cut_block(0x8849);
    assert_eq!(behind.len(), 2);
    assert_eq!(behind[1].address(), 0x884e);
    assert_eq!(behind[0].instructions().len(), 2);
    // at the start, inside the last instruction, or outside: no cut
    assert_eq!(bb().cut_block(0x8840).len(), 1);
    assert_eq!(bb().cut_block(0x884f).len(), 1);
    assert_eq!(bb().cut_block(0x9000).len(), 1);
    assert_eq!(bb().cut_block(0x9000)[0].instructions().len(), 3);
}

// 0x100: xor eax, eax
// 0x102: inc eax
// 0x104: cmp eax, 5
// 0x107: jne 0x102
// 0x109: jmp 0x10c
// 0x10b: nop
// 0x10c: ret
const LOOP: [u8; 13] =
    [0x31, 0xc0, 0xff, 0xc0, 0x83, 0xf8, 0x05, 0x75, 0xf9, 0xeb, 0x01, 0x90, 0xc3];

#[test]
fn graph_of_a_loop() {
    let binary = binary(0x100, &LOOP);
    let cfg = ControlFlowGraph::from_address(&binary, 0x100).unwrap();
    assert_eq!(cfg.address(), 0x100);
    let starts: Vec<u64> = cfg.blocks().iter().map(|b| b.address()).collect();
    assert_eq!(starts, vec![0x100, 0x102, 0x109, 0x10c]);
    assert_eq!(cfg.blocks()[0].targets(), &vec![0x102]);
    assert_eq!(cfg.blocks()[0].instructions().len(), 1);
    assert_eq!(cfg.blocks()[1].targets(), &vec![0x109, 0x102]);
    assert_eq!(cfg.blocks()[1].instructions().len(), 3);
    assert_eq!(cfg.blocks()[2].targets(), &vec![0x10c]);
    assert_eq!(cfg.blocks()[3].targets().len(), 0);
}

#[test]
fn graph_from_an_address_outside_the_binary() {
    let binary = binary(0x100, &LOOP);
    assert_eq!(
        ControlFlowGraph::from_address(&binary, 0x200).err(),
        Some(String::from(OUTSIDE))
    );
    // the code leads beyond the segment: jmp 0x1105
    let lost = self::binary(0x100, &[0xe9, 0x00, 0x10, 0x00, 0x00]);
    assert_eq!(
        ControlFlowGraph::from_address(&lost, 0x100).err(),
        Some(String::from(OUTSIDE))
    );
    // the code leads nowhere else: ret
    let alone = self::binary(0x100, &[0xc3]);
    let cfg = ControlFlowGraph::from_address(&alone, 0x100).unwrap();
    assert_eq!(cfg.blocks().len(), 1);
    assert_eq!(cfg.blocks()[0].address(), 0x100);
}

#[test]
fn block_graph_of_a_loop() {
    let binary = binary(0x100, &LOOP);
    let cfg = ControlFlowGraph::from_address(&binary, 0x100).unwrap();
    let block = NoInstrBasicBlock::from_bb(&cfg.blocks()[1]);
    assert_eq!(block.address(), Vertex::Id(0x102));
    assert_eq!(block.len(), 3);
    assert_eq!(block.indegree(), 0);
    let vag = VirtualAddressGraph::from_cfg(&cfg);
    assert_eq!(vag.address(), Vertex::Id(0x100));
    assert_eq!(vag.size(), 4);
    assert_eq!(
        vag.node_at_target(Vertex::Id(0x102)).sources(),
        &vec![Vertex::Id(0x100), Vertex::Id(0x102)]
    );
    assert_eq!(vag.node_at_target(Vertex::Id(0x102)).indegree(), 2);
    assert_eq!(vag.node_at_target(Vertex::Id(0x10c)).indegree(), 1);
    assert_eq!(bbsort::cfg_sort(&vag, vag.address()), Ok(vec![0x100, 0x102, 0x109, 0x10c]));
}
