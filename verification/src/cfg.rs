//! Basic blocks of machine code, and the control-flow graph that they form.

use vstd::prelude::*;
use vstd::slice::*;
use iced_x86::{Decoder, FlowControl as Flow};
use crate::binary::{Binary, BinaryView, Limit};

verus! {

/// How an instruction passes control on.
#[derive(Debug, Clone, Copy, PartialEq, Eq)]
pub enum FlowControl {
    /// To the instruction that follows it.
    Next,
    /// To its target, always.
    UnconditionalBranch,
    /// To an address that it computes.
    IndirectBranch,
    /// To its target or to the instruction that follows it.
    ConditionalBranch,
    /// Back to the caller.
    Return,
    /// To a routine, and then to the instruction that follows it.
    Call,
    /// To a routine at an address that it computes.
    IndirectCall,
    /// To an interrupt handler.
    Interrupt,
    /// Into or out of a transaction.
    XbeginXabortXend,
    /// Nowhere: the instruction is invalid.
    Exception,
}

/// What the construction of blocks reads of a decoded instruction.
#[derive(Debug, Clone, Copy, PartialEq, Eq)]
pub struct Instruction {
    /// Address of the instruction.
    pub ip: u64,
    /// Address of the instruction that follows it.
    pub next_ip: u64,
    /// Number of bytes of the instruction.
    pub len: usize,
    /// How it passes control on.
    pub flow_control: FlowControl,
    /// Target of a near branch.
    pub near_branch_target: u64,
    /// Selector of a far branch.
    pub far_branch_selector: u16,
    /// Whether it is a short or near `JMP`.
    pub is_jmp_short_or_near: bool,
    /// Whether it is a far `JMP`.
    pub is_jmp_far: bool,
}

/// The instruction that `iced_x86::Decoder`, made for the given bitness and
/// options, decodes from the front of `bytes`, taken to stand at the address
/// `ip`.
pub uninterp spec fn decoder_output(bitness: u32, bytes: Seq<u8>, ip: u64, options: u32) -> Instruction;

/// The machine code is that of a 64-bit processor.
pub const BITNESS: u32 = 64;

/// No decoder option is set.
pub const NO_OPTIONS: u32 = 0;

/// The instruction at the front of `bytes`, taken to stand at the address
/// `ip`.
pub open spec fn decoded(bytes: Seq<u8>, ip: u64) -> Instruction {
    decoder_output(BITNESS, bytes, ip, NO_OPTIONS)
}

/// The address `len` bytes behind `ip`, around the end of the address space.
pub open spec fn behind(ip: u64, len: usize) -> u64 {
    ((ip + len) % 0x1_0000_0000_0000_0000) as u64
}

/// Decodes one instruction from the front of `bytes` with an
/// `iced_x86::Decoder` made by `Decoder::with_ip`, taken to stand at `ip`.
/// Taken from the decoder's source: it is made for 16, 32 or 64 bits only;
/// the instruction has at most 15 bytes and no more than there are, it
/// stands at `ip`, and the next one stands that many bytes behind it.
#[verifier::external_body]
fn decode_at(bitness: u32, bytes: &[u8], ip: u64, options: u32) -> (r: Instruction)
    requires
        bitness == 16 || bitness == 32 || bitness == 64,
    ensures
        r == decoder_output(bitness, bytes@, ip, options),
        r.len <= 15,
        r.len <= bytes@.len(),
        r.ip == ip,
        r.next_ip == behind(ip, r.len),
{
    let i = Decoder::with_ip(bitness, bytes, ip, options).decode();
    let flow_control = match i.flow_control() {
        Flow::Next => FlowControl::Next, Flow::Call => FlowControl::Call,
        Flow::UnconditionalBranch => FlowControl::UnconditionalBranch,
        Flow::IndirectBranch => FlowControl::IndirectBranch,
        Flow::ConditionalBranch => FlowControl::ConditionalBranch,
        Flow::Return => FlowControl::Return, Flow::Interrupt => FlowControl::Interrupt,
        Flow::IndirectCall => FlowControl::IndirectCall,
        Flow::XbeginXabortXend => FlowControl::XbeginXabortXend,
        Flow::Exception => FlowControl::Exception,
    };
    Instruction { ip: i.ip(), next_ip: i.next_ip(), len: i.len(), flow_control,
        near_branch_target: i.near_branch_target(), far_branch_selector: i.far_branch_selector(),
        is_jmp_short_or_near: i.is_jmp_short_or_near(), is_jmp_far: i.is_jmp_far() }
}

/// Whether the block goes on behind the instruction: control passes to the
/// instruction that follows it, and the instruction has bytes. Where the
/// bytes have run out, the decoder hands out an instruction without bytes,
/// and the block ends with it.
pub open spec fn goes_on(i: Instruction) -> bool {
    (i.flow_control is Next || i.flow_control is Call) && 0 < i.len
}

/// The addresses to which control may pass from a block that ends with the
/// instruction `i`: both ways of a conditional branch, the target of a jump,
/// and none where the target is not known or the instruction does not pass
/// control on.
pub open spec fn successors(i: Instruction) -> Seq<u64> {
    match i.flow_control {
        FlowControl::ConditionalBranch => seq![i.next_ip, i.near_branch_target],
        FlowControl::UnconditionalBranch => if i.is_jmp_short_or_near {
            seq![i.near_branch_target]
        } else if i.is_jmp_far {
            seq![i.far_branch_selector as u64]
        } else {
            Seq::empty()
        },
        _ => Seq::empty(),
    }
}

/// The instructions of the block that starts at place `pos` of `bytes`,
/// which stands at the address `ip`: one after the other up to the first that
/// passes control elsewhere, or that has no bytes.
pub open spec fn run(bytes: Seq<u8>, pos: int, ip: u64) -> Seq<Instruction>
    decreases bytes.len() - pos,
{
    let i = decoded(bytes.skip(pos), ip);
    if 0 <= pos && pos + i.len <= bytes.len() && goes_on(i) {
        seq![i] + run(bytes, pos + i.len, i.next_ip)
    } else {
        seq![i]
    }
}

/// The mathematical content of a basic block.
pub ghost struct BasicBlockView {
    /// Address of the first instruction.
    pub address: u64,
    /// The instructions, one after the other.
    pub instructions: Seq<Instruction>,
    /// The addresses to which control may pass at the end.
    pub targets: Seq<u64>,
}

impl BasicBlockView {
    /// The block has an instruction, starts where its first instruction
    /// stands, and each instruction stands where the one before it ends.
    pub open spec fn wf(self) -> bool {
        &&& self.instructions.len() > 0
        &&& self.instructions[0].ip == self.address
        &&& forall|i: int, j: int|
            0 <= i && j == i + 1 && j < self.instructions.len() ==> (
            #[trigger] self.instructions[i]).next_ip == (#[trigger] self.instructions[j]).ip
    }

    /// The address of the last byte of the block.
    pub open spec fn end_address(self) -> u64 {
        let next = self.instructions.last().next_ip;
        if next == 0 {
            u64::MAX
        } else {
            (next - 1) as u64
        }
    }

    /// Whether the instruction in place `i` holds the address.
    pub open spec fn holds(self, i: int, va: u64) -> bool {
        self.instructions[i].ip <= va && va < self.instructions[i].next_ip
    }

    /// The first among the first `n` instructions that holds the address.
    pub open spec fn holder(self, va: u64, n: int) -> Option<int>
        decreases n,
    {
        if n <= 0 {
            None
        } else {
            match self.holder(va, n - 1) {
                Some(i) => Some(i),
                None => if self.holds(n - 1, va) {
                    Some(n - 1)
                } else {
                    None
                },
            }
        }
    }

    /// The address itself if an instruction starts there; else the start of
    /// the instruction behind the one that holds it. None if no instruction
    /// of the block holds the address.
    pub open spec fn next_valid_instr(self, va: u64) -> Option<u64> {
        match self.holder(va, self.instructions.len() as int) {
            Some(i) => if self.instructions[i].ip == va {
                Some(va)
            } else {
                Some(self.instructions[i].next_ip)
            },
            None => None,
        }
    }

    /// The first among the first `n` instructions that stands at the
    /// address.
    pub open spec fn starting(self, addr: u64, n: int) -> Option<int>
        decreases n,
    {
        if n <= 0 {
            None
        } else {
            match self.starting(addr, n - 1) {
                Some(i) => Some(i),
                None => if self.instructions[n - 1].ip == addr {
                    Some(n - 1)
                } else {
                    None
                },
            }
        }
    }

    /// Where the block is cut for the address: at the start of the next
    /// instruction at or behind it, if that lies behind the start of the
    /// block and not behind its end.
    pub open spec fn cut_point(self, va: u64) -> Option<int> {
        match self.next_valid_instr(va) {
            Some(addr) => if self.address < addr && addr <= self.end_address() {
                self.starting(addr, self.instructions.len() as int)
            } else {
                None
            },
            None => None,
        }
    }

    /// The block cut for the address: the instructions before the cut, with
    /// the cut as their one successor, and the instructions from the cut on,
    /// with the successors of the block. Where there is no cut, the block.
    pub open spec fn cut(self, va: u64) -> Seq<BasicBlockView> {
        match self.cut_point(va) {
            Some(at) => self.halves(at),
            None => seq![self],
        }
    }

    /// What `holder` finds holds the address, and nothing before it does.
    pub proof fn holder_holds(self, va: u64, n: int)
        requires
            0 <= n <= self.instructions.len(),
        ensures
            match self.holder(va, n) {
                Some(i) => 0 <= i < n && self.holds(i, va),
                None => forall|i: int| 0 <= i < n ==> !self.holds(i, va),
            },
        decreases n,
    {
        if n > 0 {
            self.holder_holds(va, n - 1);
        }
    }

    /// What `starting` finds stands at the address.
    pub proof fn starting_starts(self, addr: u64, n: int)
        requires
            0 <= n <= self.instructions.len(),
        ensures
            match self.starting(addr, n) {
                Some(i) => 0 <= i < n && self.instructions[i].ip == addr,
                None => forall|i: int| 0 <= i < n ==> (#[trigger] self.instructions[i]).ip != addr,
            },
        decreases n,
    {
        if n > 0 {
            self.starting_starts(addr, n - 1);
        }
    }

    /// Once found, an instruction stays the first that holds the address.
    pub proof fn holder_stays(self, va: u64, i: int, n: int)
        requires
            0 <= i < n <= self.instructions.len(),
            self.holder(va, i) is None,
            self.holds(i, va),
        ensures
            self.holder(va, n) == Some(i),
        decreases n - i,
    {
        if n > i + 1 {
            self.holder_stays(va, i, n - 1);
        }
    }

    /// Once found, an instruction stays the first that stands at the
    /// address.
    pub proof fn starting_stays(self, addr: u64, i: int, n: int)
        requires
            0 <= i < n <= self.instructions.len(),
            self.starting(addr, i) is None,
            self.instructions[i].ip == addr,
        ensures
            self.starting(addr, n) == Some(i),
        decreases n - i,
    {
        if n > i + 1 {
            self.starting_stays(addr, i, n - 1);
        }
    }

    /// Where a block is cut, an instruction other than the first starts.
    pub proof fn cut_point_properties(self, va: u64)
        requires
            self.wf(),
        ensures
            match self.cut_point(va) {
                Some(at) => 0 < at < self.instructions.len() && self.next_valid_instr(va) == Some(
                    self.instructions[at].ip,
                ) && self.address < self.instructions[at].ip,
                None => true,
            },
    {
        match self.next_valid_instr(va) {
            Some(addr) => {
                self.starting_starts(addr, self.instructions.len() as int);
            },
            None => {},
        }
    }

    /// The two pieces into which the block is cut before the instruction in
    /// place `at`.
    pub open spec fn halves(self, at: int) -> Seq<BasicBlockView> {
        seq![
            BasicBlockView {
                address: self.address,
                instructions: self.instructions.take(at),
                targets: seq![self.instructions[at].ip],
            },
            BasicBlockView {
                address: self.instructions[at].ip,
                instructions: self.instructions.skip(at),
                targets: self.targets,
            },
        ]
    }

    /// The two pieces of a block are blocks.
    pub proof fn halves_are_wf(self, at: int)
        requires
            self.wf(),
            0 < at < self.instructions.len(),
        ensures
            self.halves(at).len() == 2,
            self.halves(at)[0].wf(),
            self.halves(at)[1].wf(),
            self.halves(at)[0].address == self.address,
            self.halves(at)[1].address == self.instructions[at].ip,
    {
        let a = self.halves(at)[0];
        let b = self.halves(at)[1];
        assert(a.instructions == self.instructions.take(at));
        assert(b.instructions == self.instructions.skip(at));
        assert forall|i: int, j: int|
            0 <= i && j == i + 1 && j < a.instructions.len() implies (
            #[trigger] a.instructions[i]).next_ip == (#[trigger] a.instructions[j]).ip by {
            assert(self.instructions[i].next_ip == self.instructions[j].ip);
        }
        assert forall|i: int, j: int|
            0 <= i && j == i + 1 && j < b.instructions.len() implies (
            #[trigger] b.instructions[i]).next_ip == (#[trigger] b.instructions[j]).ip by {
            assert(b.instructions[i] == self.instructions[at + i]);
            assert(b.instructions[j] == self.instructions[at + j]);
            assert(self.instructions[at + i].next_ip == self.instructions[at + j].ip);
        }
    }

    /// The pieces of a cut block are blocks.
    pub proof fn cut_is_wf(self, va: u64)
        requires
            self.wf(),
        ensures
            forall|k: int| 0 <= k < self.cut(va).len() ==> (#[trigger] self.cut(va)[k]).wf(),
            self.cut(va).len() == 1 || self.cut(va).len() == 2,
            self.cut(va)[0].address == self.address,
            self.cut(va).len() == 2 ==> self.address < self.cut(va)[1].address,
    {
        self.cut_point_properties(va);
        match self.cut_point(va) {
            Some(at) => {
                self.halves_are_wf(at);
                assert(self.cut(va) == self.halves(at));
            },
            None => {
                assert(self.cut(va) == seq![self]);
            },
        }
    }
}

/// The instructions of a block are its first instruction and, where the
/// block goes on behind it, the instructions that follow.
pub proof fn run_unfolds(bytes: Seq<u8>, pos: int, ip: u64)
    requires
        0 <= pos <= bytes.len(),
    ensures
        run(bytes, pos, ip) == ({
            let i = decoded(bytes.skip(pos), ip);
            if pos + i.len <= bytes.len() && goes_on(i) {
                seq![i] + run(bytes, pos + i.len, i.next_ip)
            } else {
                seq![i]
            }
        }),
{
}

/// Whether the block holds the instructions in the places `lo..hi` of the run
/// that starts at the address `a` of the binary, and passes control on as
/// they do: to the instruction in place `hi`, or, if the run ends with the
/// block, to the successors of the run.
pub open spec fn is_piece_of(binary: BinaryView, b: BasicBlockView, a: u64, lo: int, hi: int) -> bool {
    &&& binary.bytes_from(a) is Some
    &&& 0 <= lo < hi <= run(binary.bytes_from(a)->Some_0, 0, a).len()
    &&& b.instructions == run(binary.bytes_from(a)->Some_0, 0, a).subrange(lo, hi)
    &&& b.targets == if hi == run(binary.bytes_from(a)->Some_0, 0, a).len() {
        successors(run(binary.bytes_from(a)->Some_0, 0, a).last())
    } else {
        seq![run(binary.bytes_from(a)->Some_0, 0, a)[hi].ip]
    }
}

/// Whether the block is a piece of a run of instructions of the binary.
pub open spec fn is_piece(binary: BinaryView, b: BasicBlockView) -> bool {
    exists|a: u64, lo: int, hi: int| is_piece_of(binary, b, a, lo, hi)
}

/// Whether every block is a piece of a run of instructions of the binary.
pub open spec fn all_pieces(binary: BinaryView, blocks: Seq<BasicBlockView>) -> bool {
    forall|i: int| 0 <= i < blocks.len() ==> is_piece(binary, #[trigger] blocks[i])
}

/// The pieces into which a piece of a run is cut are pieces of that run.
pub proof fn cut_keeps_pieces(binary: BinaryView, b: BasicBlockView, va: u64)
    requires
        b.wf(),
        is_piece(binary, b),
    ensures
        forall|k: int| 0 <= k < b.cut(va).len() ==> is_piece(binary, #[trigger] b.cut(va)[k]),
{
    let (a, lo, hi) = choose|a: u64, lo: int, hi: int| is_piece_of(binary, b, a, lo, hi);
    let r = run(binary.bytes_from(a)->Some_0, 0, a);
    b.cut_point_properties(va);
    match b.cut_point(va) {
        Some(at) => {
            let first = b.halves(at)[0];
            let second = b.halves(at)[1];
            assert(first.instructions =~= r.subrange(lo, lo + at));
            assert(second.instructions =~= r.subrange(lo + at, hi));
            assert(b.instructions[at] == r[lo + at]);
            assert(is_piece_of(binary, first, a, lo, lo + at));
            assert(is_piece_of(binary, second, a, lo + at, hi));
            assert(b.cut(va) == b.halves(at));
        },
        None => {
            assert(b.cut(va) == seq![b]);
        },
    }
}

/// A basic block: instructions that are run one after the other, up to the
/// first that passes control elsewhere.
#[derive(Clone, Debug)]
pub struct BasicBlock {
    address: u64,
    instructions: Vec<Instruction>,
    targets: Vec<u64>,
}

impl View for BasicBlock {
    type V = BasicBlockView;

    closed spec fn view(&self) -> BasicBlockView {
        BasicBlockView {
            address: self.address,
            instructions: self.instructions@,
            targets: self.targets@,
        }
    }
}

impl BasicBlock {
    /// Every block that the library hands out is well formed.
    pub open spec fn wf(&self) -> bool {
        self@.wf()
    }

    /// The block that starts with the first of `bytes`, which stands at the
    /// address `va`.
    pub fn decode(bytes: &[u8], va: u64) -> (bb: Self)
        ensures
            bb.wf(),
            bb@.address == va,
            bb@.instructions == run(bytes@, 0, va),
            bb@.targets == successors(bb@.instructions.last()),
    {
        let mut instructions: Vec<Instruction> = Vec::new();
        let mut pos: usize = 0;
        let mut ip: u64 = va;
        let mut last = Instruction {
            ip: va,
            next_ip: va,
            len: 0,
            flow_control: FlowControl::Exception,
            near_branch_target: 0,
            far_branch_selector: 0,
            is_jmp_short_or_near: false,
            is_jmp_far: false,
        };
        let mut more = true;
        while more
            invariant
                pos <= bytes@.len(),
                more ==> instructions@ + run(bytes@, pos as int, ip) == run(bytes@, 0, va),
                more && instructions.len() == 0 ==> ip == va,
                more && instructions.len() > 0 ==> instructions@.last().next_ip == ip,
                instructions.len() > 0 ==> instructions@[0].ip == va,
                forall|i: int, j: int|
                    0 <= i && j == i + 1 && j < instructions.len() ==> (
                    #[trigger] instructions@[i]).next_ip == (#[trigger] instructions@[j]).ip,
                !more ==> instructions.len() > 0 && instructions@ == run(bytes@, 0, va) && last
                    == instructions@.last(),
            decreases bytes@.len() - pos + if more { 1int } else { 0int },
        {
            let rest = slice_subrange(bytes, pos, bytes.len());
            let instr = decode_at(BITNESS, rest, ip, NO_OPTIONS);
            proof {
                assert(rest@ == bytes@.skip(pos as int));
                run_unfolds(bytes@, pos as int, ip);
            }
            let ghost before = instructions@;
            instructions.push(instr);
            last = instr;
            if Self::goes_on(&instr) {
                proof {
                    assert(pos + instr.len <= bytes@.len());
                    assert(before.push(instr) + run(bytes@, pos + instr.len, instr.next_ip)
                        =~= before + (seq![instr] + run(bytes@, pos + instr.len, instr.next_ip)));
                }
                pos = pos + instr.len;
                ip = instr.next_ip;
            } else {
                proof {
                    assert(before.push(instr) =~= before + seq![instr]);
                }
                more = false;
            }
        }
        let mut targets: Vec<u64> = Vec::new();
        match last.flow_control {
            FlowControl::ConditionalBranch => {
                targets.push(last.next_ip);
                targets.push(last.near_branch_target);
            },
            FlowControl::UnconditionalBranch => {
                if last.is_jmp_short_or_near {
                    targets.push(last.near_branch_target);
                } else if last.is_jmp_far {
                    targets.push(last.far_branch_selector as u64);
                }
            },
            _ => {},
        }
        proof {
            assert(targets@ =~= successors(last));
        }
        BasicBlock { address: va, instructions, targets }
    }

    /// Whether the block goes on behind the instruction.
    fn goes_on(instr: &Instruction) -> (r: bool)
        ensures
            r == goes_on(*instr),
    {
        match instr.flow_control {
            FlowControl::Next | FlowControl::Call => instr.len > 0,
            _ => false,
        }
    }

    /// The block that starts at the virtual address `va` of the binary.
    pub fn from_address(binary: &Binary, va: u64) -> (r: Result<Self, String>)
        requires
            binary.wf(),
        ensures
            match r {
                Ok(bb) => bb.wf() && bb@.address == va && binary@.bytes_from(va) is Some
                    && bb@.instructions == run(binary@.bytes_from(va)->Some_0, 0, va) && bb@.targets
                    == successors(bb@.instructions.last()) && is_piece(binary@, bb@),
                Err(e) => binary@.bytes_from(va) is None && e@
                    == "invalid virtual address range error"@,
            },
    {
        match binary.virtual_address_range(Limit::Included(va), Limit::Unbounded) {
            Ok(bytes) => {
                let bb = Self::decode(bytes, va);
                proof {
                    let r = run(binary@.bytes_from(va)->Some_0, 0, va);
                    assert(r.subrange(0, r.len() as int) =~= r);
                    assert(is_piece_of(binary@, bb@, va, 0, r.len() as int));
                }
                Ok(bb)
            },
            Err(e) => Err(e),
        }
    }

    /// The address of the last byte of the block.
    pub fn end_address(&self) -> (r: u64)
        requires
            self.wf(),
        ensures
            r == self@.end_address(),
    {
        let next = self.instructions[self.instructions.len() - 1].next_ip;
        if next == 0 {
            u64::MAX
        } else {
            next - 1
        }
    }

    /// The address itself if an instruction of the block starts there; else
    /// the start of the instruction behind the one that holds it.
    pub fn next_valid_instr(&self, va: u64) -> (r: Result<u64, String>)
        ensures
            match r {
                Ok(addr) => self@.next_valid_instr(va) == Some(addr),
                Err(e) => self@.next_valid_instr(va) is None && e@
                    == "address is outside of basic block's range error"@,
            },
    {
        proof {
            reveal_strlit("address is outside of basic block's range error");
        }
        let mut i: usize = 0;
        while i < self.instructions.len()
            invariant
                i <= self.instructions.len(),
                self@.holder(va, i as int) is None,
            decreases self.instructions.len() - i,
        {
            let x = self.instructions[i];
            if x.ip <= va && va < x.next_ip {
                proof {
                    self@.holder_stays(va, i as int, self.instructions.len() as int);
                }
                if x.ip == va {
                    return Ok(va);
                } else {
                    return Ok(x.next_ip);
                }
            }
            i += 1;
        }
        Err("address is outside of basic block's range error".to_string())
    }

    /// The block cut in two for the address `va`, or the block as it is where
    /// the address asks for no cut.
    pub fn cut_block(self, va: u64) -> (r: Vec<BasicBlock>)
        requires
            self.wf(),
        ensures
            r.len() == self@.cut(va).len(),
            forall|k: int| 0 <= k < r.len() ==> (#[trigger] r@[k])@ == self@.cut(va)[k],
            forall|k: int| 0 <= k < r.len() ==> (#[trigger] r@[k]).wf(),
    {
        proof {
            self@.cut_is_wf(va);
            self@.cut_point_properties(va);
        }
        match self.cut_index(va) {
            None => {
                let mut r: Vec<BasicBlock> = Vec::new();
                r.push(self);
                r
            },
            Some(at) => {
                proof {
                    self@.halves_are_wf(at as int);
                }
                let first = Self::copy_of(&self.instructions, 0, at);
                let second = Self::copy_of(&self.instructions, at, self.instructions.len());
                proof {
                    assert(self.instructions@.subrange(0, at as int) =~= self.instructions@.take(
                        at as int,
                    ));
                    assert(self.instructions@.subrange(at as int, self.instructions.len() as int)
                        =~= self.instructions@.skip(at as int));
                }
                let mut cut: Vec<u64> = Vec::new();
                cut.push(self.instructions[at].ip);
                let mut r: Vec<BasicBlock> = Vec::new();
                let ghost halves = self@.halves(at as int);
                let a = BasicBlock { address: self.address, instructions: first, targets: cut };
                let b = BasicBlock {
                    address: self.instructions[at].ip,
                    instructions: second,
                    targets: self.targets,
                };
                proof {
                    assert(a@.targets =~= halves[0].targets);
                    assert(a@ == halves[0]);
                    assert(b@ == halves[1]);
                }
                r.push(a);
                r.push(b);
                r
            },
        }
    }

    /// Where the block is cut for the address, if it is.
    fn cut_index(&self, va: u64) -> (r: Option<usize>)
        requires
            self.wf(),
        ensures
            match r {
                Some(at) => self@.cut_point(va) == Some(at as int),
                None => self@.cut_point(va) is None,
            },
    {
        let addr = match self.next_valid_instr(va) {
            Ok(addr) => addr,
            Err(_) => {
                return None;
            },
        };
        if !(self.address < addr && addr <= self.end_address()) {
            return None;
        }
        let mut at: usize = 0;
        while at < self.instructions.len()
            invariant
                at <= self.instructions.len(),
                self@.next_valid_instr(va) == Some(addr),
                self@.address < addr <= self@.end_address(),
                self@.starting(addr, at as int) is None,
            decreases self.instructions.len() - at,
        {
            if self.instructions[at].ip == addr {
                proof {
                    self@.starting_stays(addr, at as int, self.instructions.len() as int);
                }
                return Some(at);
            }
            at += 1;
        }
        None
    }

    /// A copy of the instructions in the places `lo..hi`.
    fn copy_of(instructions: &Vec<Instruction>, lo: usize, hi: usize) -> (r: Vec<Instruction>)
        requires
            lo <= hi <= instructions.len(),
        ensures
            r@ == instructions@.subrange(lo as int, hi as int),
    {
        let mut r: Vec<Instruction> = Vec::new();
        let mut i: usize = lo;
        while i < hi
            invariant
                lo <= i <= hi,
                hi <= instructions.len(),
                r@ == instructions@.subrange(lo as int, i as int),
            decreases hi - i,
        {
            r.push(instructions[i]);
            proof {
                assert(instructions@.subrange(lo as int, i + 1) =~= instructions@.subrange(
                    lo as int,
                    i as int,
                ).push(instructions@[i as int]));
            }
            i += 1;
        }
        r
    }

    /// The address of the first instruction.
    pub fn address(&self) -> (r: u64)
        ensures
            r == self@.address,
    {
        self.address
    }

    /// The addresses to which control may pass at the end of the block.
    pub fn targets(&self) -> (r: &Vec<u64>)
        ensures
            r@ == self@.targets,
    {
        &self.targets
    }

    /// The instructions of the block.
    pub fn instructions(&self) -> (r: &Vec<Instruction>)
        ensures
            r@ == self@.instructions,
    {
        &self.instructions
    }
}

/// The views of a run of blocks.
pub open spec fn block_views(blocks: Seq<BasicBlock>) -> Seq<BasicBlockView> {
    blocks.map_values(|b: BasicBlock| b@)
}

/// Whether the blocks are well formed and stand by ascending address.
pub open spec fn in_order(blocks: Seq<BasicBlockView>) -> bool {
    &&& forall|i: int| 0 <= i < blocks.len() ==> (#[trigger] blocks[i]).wf()
    &&& forall|i: int, j: int|
        0 <= i < j < blocks.len() ==> (#[trigger] blocks[i]).address < (#[trigger] blocks[j]).address
}

/// Whether one of the blocks starts at the address.
pub open spec fn starts_at(blocks: Seq<BasicBlockView>, address: u64) -> bool {
    exists|i: int| 0 <= i < blocks.len() && (#[trigger] blocks[i]).address == address
}

/// Where among the blocks a block that starts at `address` belongs: behind
/// the blocks that start before it.
pub open spec fn place(blocks: Seq<BasicBlockView>, address: u64) -> int
    decreases blocks.len(),
{
    if blocks.len() == 0 {
        0
    } else if blocks.last().address < address {
        blocks.len() as int
    } else {
        place(blocks.drop_last(), address)
    }
}

/// The blocks with `block` stored among them by its address: in the place of
/// the block that starts where it starts, or else between the blocks that
/// start before it and those that start behind it.
pub open spec fn stored(blocks: Seq<BasicBlockView>, block: BasicBlockView) -> Seq<BasicBlockView> {
    let i = place(blocks, block.address);
    if i < blocks.len() && blocks[i].address == block.address {
        blocks.update(i, block)
    } else {
        blocks.insert(i, block)
    }
}

/// The block that the address enters: the last block that starts before it,
/// if no block starts at it and that block does not end before it.
pub open spec fn entered(blocks: Seq<BasicBlockView>, target: u64) -> Option<int> {
    let i = place(blocks, target);
    if 0 < i && !(i < blocks.len() && blocks[i].address == target) && target <= blocks[i
        - 1].end_address() {
        Some(i - 1)
    } else {
        None
    }
}

/// The blocks once the successor `target` of one of them is resolved: the
/// block that the target enters is cut for it, the first piece stands in its
/// place, and the second is stored by its address. Where the target enters no
/// block, or asks for no cut, the blocks stay as they are.
pub open spec fn resolved(blocks: Seq<BasicBlockView>, target: u64) -> Seq<BasicBlockView> {
    match entered(blocks, target) {
        Some(j) => match blocks[j].cut_point(target) {
            Some(at) => stored(blocks.update(j, blocks[j].halves(at)[0]), blocks[j].halves(at)[1]),
            None => blocks,
        },
        None => blocks,
    }
}

/// The addresses that wait to be explored once the successor `target` of a
/// block is resolved: the target is added at the end if it enters no block,
/// no block starts at it, and it does not wait already.
pub open spec fn noted(blocks: Seq<BasicBlockView>, addresses: Seq<u64>, target: u64) -> Seq<u64> {
    if entered(blocks, target) is None && !starts_at(blocks, target) && !addresses.contains(
        target,
    ) {
        addresses.push(target)
    } else {
        addresses
    }
}

/// Among blocks that stand by ascending address, the place of an address is
/// behind all blocks that start before it and before all others.
pub proof fn place_is(blocks: Seq<BasicBlockView>, address: u64, i: int)
    requires
        forall|k: int, l: int|
            0 <= k < l < blocks.len() ==> (#[trigger] blocks[k]).address < (
            #[trigger] blocks[l]).address,
        0 <= i <= blocks.len(),
        forall|k: int| 0 <= k < i ==> (#[trigger] blocks[k]).address < address,
        i < blocks.len() ==> blocks[i].address >= address,
    ensures
        place(blocks, address) == i,
    decreases blocks.len(),
{
    if blocks.len() > 0 {
        let n = blocks.len() - 1;
        if blocks.last().address < address {
            if i < blocks.len() {
                if i < n {
                    assert(blocks[i].address < blocks[n].address);
                }
            }
        } else {
            if i == blocks.len() {
                assert(blocks[n].address < address);
            }
            let front = blocks.drop_last();
            assert forall|k: int, l: int| 0 <= k < l < front.len() implies (
            #[trigger] front[k]).address < (#[trigger] front[l]).address by {
                assert(blocks[k].address < blocks[l].address);
            }
            assert forall|k: int| 0 <= k < i implies (#[trigger] front[k]).address < address by {
                assert(blocks[k].address < address);
            }
            place_is(front, address, i);
        }
    }
}

/// A block that is stored where a block was taken out that started at its
/// address stands in the place of that block.
pub proof fn stored_back(blocks: Seq<BasicBlockView>, j: int, block: BasicBlockView)
    requires
        in_order(blocks),
        0 <= j < blocks.len(),
        block.address == blocks[j].address,
    ensures
        stored(blocks.remove(j), block) == blocks.update(j, block),
{
    let rest = blocks.remove(j);
    assert forall|k: int, l: int| 0 <= k < l < rest.len() implies (#[trigger] rest[k]).address < (
    #[trigger] rest[l]).address by {
        let kk = if k < j { k } else { k + 1 };
        let ll = if l < j { l } else { l + 1 };
        assert(rest[k] == blocks[kk] && rest[l] == blocks[ll]);
        assert(blocks[kk].address < blocks[ll].address);
    }
    assert forall|k: int| 0 <= k < j implies (#[trigger] rest[k]).address < block.address by {
        assert(rest[k] == blocks[k]);
        assert(blocks[k].address < blocks[j].address);
    }
    if j < rest.len() {
        assert(rest[j] == blocks[j + 1]);
        assert(blocks[j].address < blocks[j + 1].address);
    }
    place_is(rest, block.address, j);
    assert(rest.insert(j, block) =~= blocks.update(j, block));
}

/// The block that an address enters is the last block that starts at or
/// before it, if that block starts before it and does not end before it; and
/// a block starts at the address if that block does.
pub proof fn entered_is(blocks: Seq<BasicBlockView>, target: u64, found: Option<int>)
    requires
        in_order(blocks),
        match found {
            Some(j) => 0 <= j < blocks.len() && blocks[j].address <= target && forall|k: int|
                j < k < blocks.len() ==> (#[trigger] blocks[k]).address > target,
            None => forall|k: int| 0 <= k < blocks.len() ==> (#[trigger] blocks[k]).address > target,
        },
    ensures
        entered(blocks, target) == match found {
            Some(j) => if blocks[j].address < target && target <= blocks[j].end_address() {
                Some(j)
            } else {
                None
            },
            None => None,
        },
        starts_at(blocks, target) <==> found is Some && blocks[found->Some_0].address == target,
{
    match found {
        Some(j) => {
            assert forall|k: int| 0 <= k < j implies (#[trigger] blocks[k]).address < target by {
                assert(blocks[k].address < blocks[j].address);
            }
            if blocks[j].address < target {
                place_is(blocks, target, j + 1);
            } else {
                place_is(blocks, target, j);
            }
            if starts_at(blocks, target) {
                let k = choose|k: int| 0 <= k < blocks.len() && (#[trigger] blocks[k]).address == target;
                if k < j {
                    assert(blocks[k].address < blocks[j].address);
                }
            }
        },
        None => {
            place_is(blocks, target, 0);
            if starts_at(blocks, target) {
                let k = choose|k: int| 0 <= k < blocks.len() && (#[trigger] blocks[k]).address == target;
            }
        },
    }
}

/// Whether control may pass from the block that starts at `a` to `t`: the
/// binary holds `a`, and `t` is a successor of the run that starts there.
pub open spec fn steps(binary: BinaryView, a: u64, t: u64) -> bool {
    binary.bytes_from(a) is Some && successors(
        run(binary.bytes_from(a)->Some_0, 0, a).last(),
    ).contains(t)
}

/// A trail: addresses such that control may pass from the block that starts
/// at each to the next.
pub open spec fn is_trail(binary: BinaryView, p: Seq<u64>) -> bool {
    p.len() >= 1 && forall|i: int, j: int|
        0 <= i && j == i + 1 && j < p.len() ==> steps(binary, #[trigger] p[i], #[trigger] p[j])
}

/// Whether the code at `va` leads to the address `a`: by a trail from `va`
/// to `a`.
pub open spec fn leads(binary: BinaryView, va: u64, a: u64) -> bool {
    exists|p: Seq<u64>| is_trail(binary, p) && p.first() == va && p.last() == a
}

/// Whether the code at `va` leads to an address that the binary does not
/// hold.
pub open spec fn leads_outside(binary: BinaryView, va: u64) -> bool {
    exists|a: u64| #[trigger] leads(binary, va, a) && binary.bytes_from(a) is None
}

/// The code at an address leads to that address.
pub proof fn leads_to_itself(binary: BinaryView, va: u64)
    ensures
        leads(binary, va, va),
{
    let p = seq![va];
    assert(is_trail(binary, p) && p.first() == va && p.last() == va);
}

/// Where the code leads to an address, it leads to whatever control may pass
/// to from the block that starts there.
pub proof fn leads_on(binary: BinaryView, va: u64, a: u64, t: u64)
    requires
        leads(binary, va, a),
        steps(binary, a, t),
    ensures
        leads(binary, va, t),
{
    let p = choose|p: Seq<u64>| is_trail(binary, p) && p.first() == va && p.last() == a;
    let q = p.push(t);
    assert forall|i: int, j: int| 0 <= i && j == i + 1 && j < q.len() implies steps(
        binary,
        #[trigger] q[i],
        #[trigger] q[j],
    ) by {
        if j < p.len() {
            assert(steps(binary, p[i], p[j]));
        }
    }
    assert(is_trail(binary, q) && q.first() == va && q.last() == t);
}

/// The mathematical content of a control-flow graph.
pub ghost struct CfgView {
    /// The address at which the graph is entered.
    pub address: u64,
    /// The blocks, by ascending address.
    pub blocks: Seq<BasicBlockView>,
}

/// The control-flow graph of the code that can be reached from one address.
#[derive(Debug)]
pub struct ControlFlowGraph {
    address: u64,
    blocks: Vec<BasicBlock>,
}

impl View for ControlFlowGraph {
    type V = CfgView;

    closed spec fn view(&self) -> CfgView {
        CfgView { address: self.address, blocks: block_views(self.blocks@) }
    }
}

/// Where the block that starts at the address stands.
fn block_at(blocks: &Vec<BasicBlock>, address: u64) -> (r: Option<usize>)
    ensures
        match r {
            Some(i) => i < blocks.len() && blocks@[i as int]@.address == address,
            None => !starts_at(block_views(blocks@), address),
        },
{
    let mut i: usize = 0;
    while i < blocks.len()
        invariant
            i <= blocks.len(),
            forall|k: int| 0 <= k < i ==> (#[trigger] block_views(blocks@)[k]).address != address,
        decreases blocks.len() - i,
    {
        if blocks[i].address() == address {
            return Some(i);
        }
        i += 1;
    }
    None
}

/// Where the last block stands that starts at or before the address.
fn block_before(blocks: &Vec<BasicBlock>, address: u64) -> (r: Option<usize>)
    requires
        in_order(block_views(blocks@)),
    ensures
        match r {
            Some(i) => i < blocks.len() && blocks@[i as int]@.address <= address && forall|
                k: int,
            |
                i < k < blocks.len() ==> (#[trigger] block_views(blocks@)[k]).address > address,
            None => forall|k: int|
                0 <= k < blocks.len() ==> (#[trigger] block_views(blocks@)[k]).address > address,
        },
{
    let ghost views = block_views(blocks@);
    let mut i: usize = 0;
    while i < blocks.len() && blocks[i].address() <= address
        invariant
            i <= blocks.len(),
            views == block_views(blocks@),
            forall|k: int| 0 <= k < i ==> (#[trigger] views[k]).address <= address,
        decreases blocks.len() - i,
    {
        proof {
            assert(views[i as int] == blocks@[i as int]@);
        }
        i += 1;
    }
    proof {
        if i < blocks.len() {
            assert(views[i as int] == blocks@[i as int]@);
            assert forall|k: int| i <= k < blocks.len() implies (#[trigger] views[k]).address
                > address by {
                if k > i {
                    assert(views[i as int].address < views[k].address);
                }
            }
        }
    }
    if i == 0 {
        None
    } else {
        proof {
            assert(views[i - 1] == blocks@[i - 1]@);
        }
        Some(i - 1)
    }
}

/// Stores the block among the others, in the place of its address. A block
/// that started at the same address gives way to it.
fn put_block(blocks: &mut Vec<BasicBlock>, block: BasicBlock)
    requires
        in_order(block_views(old(blocks)@)),
        block.wf(),
    ensures
        in_order(block_views(final(blocks)@)),
        forall|a: u64|
            starts_at(block_views(final(blocks)@), a) <==> starts_at(block_views(old(blocks)@), a)
                || a == block@.address,
        final(blocks).len() == if starts_at(block_views(old(blocks)@), block@.address) {
            old(blocks).len() as int
        } else {
            old(blocks).len() + 1
        },
        forall|k: int|
            0 <= k < final(blocks).len() ==> (#[trigger] block_views(final(blocks)@)[k]) == block@
                || block_views(old(blocks)@).contains(block_views(final(blocks)@)[k]),
        block_views(final(blocks)@) == stored(block_views(old(blocks)@), block@),
{
    let ghost before = block_views(blocks@);
    let address = block.address();
    let mut i: usize = 0;
    while i < blocks.len() && blocks[i].address() < address
        invariant
            i <= blocks.len(),
            blocks@ == old(blocks)@,
            before == block_views(blocks@),
            forall|k: int| 0 <= k < i ==> (#[trigger] before[k]).address < address,
        decreases blocks.len() - i,
    {
        proof {
            assert(before[i as int] == blocks@[i as int]@);
        }
        i += 1;
    }
    let same = i < blocks.len() && blocks[i].address() == address;
    proof {
        if i < blocks.len() {
            assert(before[i as int] == blocks@[i as int]@);
            assert forall|k: int| i < k < before.len() implies (#[trigger] before[k]).address
                > address by {
                assert(before[i as int].address < before[k].address);
            }
        }
        place_is(before, address, i as int);
    }
    if same {
        blocks.set(i, block);
        proof {
            let after = block_views(blocks@);
            assert(after =~= before.update(i as int, block@));
            assert forall|k: int, l: int| 0 <= k < l < after.len() implies (
            #[trigger] after[k]).address < (#[trigger] after[l]).address by {
                assert(before[k].address < before[l].address);
            }
            assert forall|k: int| 0 <= k < after.len() implies (#[trigger] after[k]).wf() by {
                if k != i {
                    assert(before[k].wf());
                }
            }
            assert forall|a: u64| starts_at(after, a) <==> starts_at(before, a) || a == address by {
                if starts_at(after, a) {
                    let k = choose|k: int| 0 <= k < after.len() && (#[trigger] after[k]).address == a;
                    assert(before[k].address == a);
                }
                if starts_at(before, a) {
                    let k = choose|k: int|
                        0 <= k < before.len() && (#[trigger] before[k]).address == a;
                    assert(after[k].address == a);
                }
                assert(after[i as int].address == address);
            }
            assert(before[i as int].address == address);
            assert forall|k: int| 0 <= k < after.len() implies (#[trigger] after[k]) == block@
                || before.contains(after[k]) by {
                if k != i {
                    assert(after[k] == before[k]);
                }
            }
        }
    } else {
        blocks.insert(i, block);
        proof {
            let after = block_views(blocks@);
            assert(after =~= before.insert(i as int, block@));
            assert forall|k: int| 0 <= k < after.len() implies (#[trigger] after[k]).wf() by {
                if k < i {
                    assert(after[k] == before[k]);
                    assert(before[k].wf());
                } else if k > i {
                    assert(after[k] == before[k - 1]);
                    assert(before[k - 1].wf());
                }
            }
            assert forall|k: int, l: int| 0 <= k < l < after.len() implies (
            #[trigger] after[k]).address < (#[trigger] after[l]).address by {
                let kk = if k < i { k } else { k - 1 };
                let ll = if l < i { l } else { l - 1 };
                if k != i && l != i {
                    assert(after[k] == before[kk] && after[l] == before[ll]);
                    assert(before[kk].address < before[ll].address);
                } else if k == i {
                    assert(after[l] == before[ll]);
                    if ll > i {
                        assert(before[i as int].address < before[ll].address);
                    }
                } else {
                    assert(after[k] == before[kk]);
                }
            }
            assert forall|a: u64| starts_at(after, a) <==> starts_at(before, a) || a == address by {
                if starts_at(after, a) {
                    let k = choose|k: int| 0 <= k < after.len() && (#[trigger] after[k]).address == a;
                    if k < i {
                        assert(before[k].address == a);
                    } else if k > i {
                        assert(before[k - 1].address == a);
                    }
                }
                if starts_at(before, a) {
                    let k = choose|k: int|
                        0 <= k < before.len() && (#[trigger] before[k]).address == a;
                    let kk = if k < i { k } else { k + 1 };
                    assert(after[kk] == before[k]);
                }
                assert(after[i as int].address == address);
            }
            if starts_at(before, address) {
                let k = choose|k: int|
                    0 <= k < before.len() && (#[trigger] before[k]).address == address;
                if k < i {
                    assert(before[k].address < address);
                }
            }
            assert forall|k: int| 0 <= k < after.len() implies (#[trigger] after[k]) == block@
                || before.contains(after[k]) by {
                if k < i {
                    assert(after[k] == before[k]);
                } else if k > i {
                    assert(after[k] == before[k - 1]);
                }
            }
        }
    }
}

/// Takes the block in place `j` out.
fn take_block(blocks: &mut Vec<BasicBlock>, j: usize) -> (block: BasicBlock)
    requires
        in_order(block_views(old(blocks)@)),
        j < old(blocks).len(),
    ensures
        block@ == block_views(old(blocks)@)[j as int],
        block.wf(),
        in_order(block_views(final(blocks)@)),
        final(blocks).len() == old(blocks).len() - 1,
        !starts_at(block_views(final(blocks)@), block@.address),
        forall|a: u64|
            starts_at(block_views(old(blocks)@), a) <==> starts_at(block_views(final(blocks)@), a)
                || a == block@.address,
        forall|k: int|
            0 <= k < final(blocks).len() ==> block_views(old(blocks)@).contains(
                #[trigger] block_views(final(blocks)@)[k],
            ),
        block_views(final(blocks)@) == block_views(old(blocks)@).remove(j as int),
{
    let ghost before = block_views(blocks@);
    let block = blocks.remove(j);
    proof {
        let after = block_views(blocks@);
        assert(after =~= before.remove(j as int));
        assert forall|k: int| 0 <= k < after.len() implies before.contains(#[trigger] after[k]) by {
            let kk = if k < j { k } else { k + 1 };
            assert(after[k] == before[kk]);
        }
        assert(before[j as int].wf());
        assert forall|k: int| 0 <= k < after.len() implies (#[trigger] after[k]).wf() by {
            let kk = if k < j { k } else { k + 1 };
            assert(after[k] == before[kk]);
            assert(before[kk].wf());
        }
        assert forall|k: int, l: int| 0 <= k < l < after.len() implies (#[trigger] after[k]).address
            < (#[trigger] after[l]).address by {
            let kk = if k < j { k } else { k + 1 };
            let ll = if l < j { l } else { l + 1 };
            assert(after[k] == before[kk] && after[l] == before[ll]);
            assert(before[kk].address < before[ll].address);
        }
        if starts_at(after, block@.address) {
            let k = choose|k: int|
                0 <= k < after.len() && (#[trigger] after[k]).address == block@.address;
            let kk = if k < j { k } else { k + 1 };
            assert(after[k] == before[kk]);
            if kk < j {
                assert(before[kk].address < before[j as int].address);
            } else {
                assert(before[j as int].address < before[kk].address);
            }
        }
        assert forall|a: u64|
            starts_at(before, a) <==> starts_at(after, a) || a == block@.address by {
            if starts_at(before, a) && a != block@.address {
                let k = choose|k: int| 0 <= k < before.len() && (#[trigger] before[k]).address == a;
                let kk = if k < j { k } else { k - 1 };
                assert(after[kk] == before[k]);
            }
            if starts_at(after, a) {
                let k = choose|k: int| 0 <= k < after.len() && (#[trigger] after[k]).address == a;
                let kk = if k < j { k } else { k + 1 };
                assert(after[k] == before[kk]);
            }
            assert(before[j as int].address == block@.address);
        }
    }
    block
}

/// Whether the address is among the given ones.
fn listed(addresses: &Vec<u64>, address: u64) -> (r: bool)
    ensures
        r == addresses@.contains(address),
{
    let mut i: usize = 0;
    while i < addresses.len()
        invariant
            i <= addresses.len(),
            forall|k: int| 0 <= k < i ==> addresses@[k] != address,
        decreases addresses.len() - i,
    {
        if addresses[i] == address {
            return true;
        }
        i += 1;
    }
    false
}

impl ControlFlowGraph {
    /// The blocks stand by ascending address, and each is well formed.
    pub open spec fn wf(&self) -> bool {
        in_order(self@.blocks)
    }

    /// Cuts the block that holds the target, if the target lies behind its
    /// start; else notes the target as an address to explore, unless a block
    /// starts there or it is noted already.
    fn resolve(
        blocks: &mut Vec<BasicBlock>,
        addresses: &mut Vec<u64>,
        target: u64,
        Ghost(binary): Ghost<BinaryView>,
    )
        requires
            in_order(block_views(old(blocks)@)),
            all_pieces(binary, block_views(old(blocks)@)),
        ensures
            block_views(final(blocks)@) == resolved(block_views(old(blocks)@), target),
            final(addresses)@ == noted(block_views(old(blocks)@), old(addresses)@, target),
            in_order(block_views(final(blocks)@)),
            all_pieces(binary, block_views(final(blocks)@)),
            final(blocks).len() >= old(blocks).len(),
            forall|a: u64|
                starts_at(block_views(old(blocks)@), a) ==> starts_at(
                    block_views(final(blocks)@),
                    a,
                ),
    {
        let found = block_before(blocks, target);
        proof {
            let views = block_views(blocks@);
            match found {
                Some(j) => {
                    assert(views[j as int] == blocks@[j as int]@);
                    entered_is(views, target, Some(j as int));
                },
                None => {
                    entered_is(views, target, None);
                },
            }
        }
        let inside = match found {
            Some(j) => {
                proof {
                    assert(block_views(blocks@)[j as int] == blocks@[j as int]@);
                    assert(block_views(blocks@)[j as int].wf());
                }
                blocks[j].address() < target && target <= blocks[j].end_address()
            },
            None => false,
        };
        if inside {
            let j = found.unwrap();
            let ghost n = blocks.len();
            let ghost before = block_views(blocks@);
            let whole = take_block(blocks, j);
            proof {
                whole@.cut_is_wf(target);
                whole@.cut_point_properties(target);
                assert(is_piece(binary, before[j as int]));
                cut_keeps_pieces(binary, whole@, target);
            }
            let ghost cut = whole@.cut(target);
            let mut pieces = whole.cut_block(target);
            let second = if pieces.len() == 2 {
                pieces.pop()
            } else {
                None
            };
            let first = pieces.pop();
            proof {
                assert(all_pieces(binary, block_views(blocks@))) by {
                    assert forall|k: int| 0 <= k < blocks.len() implies is_piece(
                        binary,
                        #[trigger] block_views(blocks@)[k],
                    ) by {
                        let x = block_views(blocks@)[k];
                        let l = choose|l: int| 0 <= l < before.len() && before[l] == x;
                        assert(is_piece(binary, before[l]));
                    }
                }
            }
            match first {
                Some(piece) => {
                    proof {
                        assert(piece@ == cut[0]);
                    }
                    let ghost mid = block_views(blocks@);
                    put_block(blocks, piece);
                    proof {
                        Self::pieces_stay(binary, mid, block_views(blocks@), piece@);
                        stored_back(before, j as int, cut[0]);
                        assert(block_views(blocks@) == before.update(j as int, cut[0]));
                        if cut.len() == 1 {
                            assert(before.update(j as int, before[j as int]) =~= before);
                        }
                    }
                },
                None => {},
            }
            match second {
                Some(piece) => {
                    proof {
                        assert(piece@ == cut[1]);
                    }
                    let ghost mid = block_views(blocks@);
                    put_block(blocks, piece);
                    proof {
                        Self::pieces_stay(binary, mid, block_views(blocks@), piece@);
                    }
                },
                None => {},
            }
        } else {
            let at = block_at(blocks, target);
            proof {
                if let Some(i) = at {
                    assert(block_views(blocks@)[i as int].address == target);
                }
            }
            if at.is_none() && !listed(addresses, target) {
                addresses.push(target);
            }
        }
    }

    /// Blocks that are pieces stay pieces when a piece is stored among them.
    proof fn pieces_stay(
        binary: BinaryView,
        before: Seq<BasicBlockView>,
        after: Seq<BasicBlockView>,
        block: BasicBlockView,
    )
        requires
            all_pieces(binary, before),
            is_piece(binary, block),
            forall|k: int|
                0 <= k < after.len() ==> (#[trigger] after[k]) == block || before.contains(after[k]),
        ensures
            all_pieces(binary, after),
    {
        assert forall|k: int| 0 <= k < after.len() implies is_piece(binary, #[trigger] after[k]) by {
            if after[k] != block {
                let l = choose|l: int| 0 <= l < before.len() && before[l] == after[k];
                assert(is_piece(binary, before[l]));
            }
        }
    }

    /// The control-flow graph of the code that can be reached from the
    /// address `va` of the binary: the blocks that are found by following
    /// the successors of the block at `va`, each cut where a successor of
    /// another enters it. It is built whenever the binary holds every address
    /// to which the code at `va` leads; it is not built if the binary does
    /// not hold `va`, and only if the code leads to an address that it does
    /// not hold.
    pub fn from_address(binary: &Binary, va: u64) -> (r: Result<Self, String>)
        requires
            binary.wf(),
        ensures
            match r {
                Ok(cfg) => cfg.wf() && cfg@.address == va && starts_at(cfg@.blocks, va)
                    && all_pieces(binary@, cfg@.blocks),
                Err(e) => leads_outside(binary@, va) && e@
                    == "invalid virtual address range error"@,
            },
            binary@.bytes_from(va) is None ==> r is Err,
            !leads_outside(binary@, va) ==> r is Ok,
    {
        let mut blocks: Vec<BasicBlock> = Vec::new();
        let mut addresses: Vec<u64> = Vec::new();
        addresses.push(va);
        proof {
            leads_to_itself(binary@, va);
        }
        while addresses.len() > 0
            invariant
                binary.wf(),
                in_order(block_views(blocks@)),
                all_pieces(binary@, block_views(blocks@)),
                forall|k: int|
                    0 <= k < addresses.len() ==> leads(binary@, va, #[trigger] addresses@[k]),
                blocks.len() == 0 ==> addresses@ == seq![va],
                blocks.len() > 0 ==> starts_at(block_views(blocks@), va) && binary@.bytes_from(va)
                    is Some,
            decreases usize::MAX - blocks.len(), addresses.len(),
        {
            let ghost size = blocks.len();
            let ghost waiting = addresses@;
            let address = addresses.pop().unwrap();
            proof {
                assert(address == waiting[waiting.len() - 1]);
                assert forall|k: int| 0 <= k < addresses.len() implies leads(
                    binary@,
                    va,
                    #[trigger] addresses@[k],
                ) by {
                    assert(addresses@[k] == waiting[k]);
                }
            }
            if block_at(&blocks, address).is_none() {
                let bb = match BasicBlock::from_address(binary, address) {
                    Ok(bb) => bb,
                    Err(e) => {
                        proof {
                            assert(leads(binary@, va, address) && binary@.bytes_from(address) is None);
                        }
                        return Err(e);
                    },
                };
                let targets = Self::copy_of(bb.targets());
                let ghost before = block_views(blocks@);
                let ghost built = bb@;
                proof {
                    assert forall|l: int| 0 <= l < targets.len() implies steps(
                        binary@,
                        address,
                        #[trigger] targets@[l],
                    ) by {
                        assert(built.targets.contains(targets@[l]));
                    }
                }
                put_block(&mut blocks, bb);
                proof {
                    Self::pieces_stay(binary@, before, block_views(blocks@), built);
                }
                let mut k: usize = targets.len();
                while k > 0
                    invariant
                        k <= targets.len(),
                        in_order(block_views(blocks@)),
                        all_pieces(binary@, block_views(blocks@)),
                        blocks.len() > size,
                        starts_at(block_views(blocks@), va),
                        starts_at(block_views(blocks@), address),
                        binary@.bytes_from(va) is Some,
                        leads(binary@, va, address),
                        forall|l: int|
                            0 <= l < targets.len() ==> steps(binary@, address, #[trigger] targets@[l]),
                        forall|l: int|
                            0 <= l < addresses.len() ==> leads(
                                binary@,
                                va,
                                #[trigger] addresses@[l],
                            ),
                    decreases k,
                {
                    k -= 1;
                    let ghost noted_before = addresses@;
                    Self::resolve(&mut blocks, &mut addresses, targets[k], Ghost(binary@));
                    proof {
                        leads_on(binary@, va, address, targets@[k as int]);
                        assert forall|l: int| 0 <= l < addresses.len() implies leads(
                            binary@,
                            va,
                            #[trigger] addresses@[l],
                        ) by {
                            if l < noted_before.len() {
                                assert(addresses@[l] == noted_before[l]);
                            }
                        }
                    }
                }
            }
        }
        Ok(ControlFlowGraph { address: va, blocks })
    }

    /// A copy of the addresses.
    fn copy_of(addresses: &Vec<u64>) -> (r: Vec<u64>)
        ensures
            r@ == addresses@,
    {
        let mut r: Vec<u64> = Vec::new();
        let mut i: usize = 0;
        while i < addresses.len()
            invariant
                i <= addresses.len(),
                r@ == addresses@.take(i as int),
            decreases addresses.len() - i,
        {
            r.push(addresses[i]);
            proof {
                assert(addresses@.take(i + 1) =~= addresses@.take(i as int).push(
                    addresses@[i as int],
                ));
            }
            i += 1;
        }
        proof {
            assert(addresses@.take(addresses.len() as int) =~= addresses@);
        }
        r
    }

    /// The address at which the graph is entered.
    pub fn address(&self) -> (r: u64)
        ensures
            r == self@.address,
    {
        self.address
    }

    /// The blocks, by ascending address.
    pub fn blocks(&self) -> (r: &Vec<BasicBlock>)
        ensures
            block_views(r@) == self@.blocks,
    {
        &self.blocks
    }
}

} // verus!
