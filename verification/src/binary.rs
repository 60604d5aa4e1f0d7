//! The loadable segments of an executable image, and the bytes that stand at
//! a virtual address.

use vstd::prelude::*;
use vstd::slice::*;

verus! {

/// The type of a segment that is loaded into memory.
pub const PT_LOAD: u32 = 1;

/// What the address translation reads of a program header.
#[derive(Debug, Clone, Copy, PartialEq, Eq)]
pub struct Segment {
    /// Segment type.
    pub p_type: u32,
    /// Virtual address of the first byte.
    pub p_vaddr: u64,
    /// Number of bytes that the segment has in the file.
    pub p_filesz: u64,
    /// Offset of the first byte in the file.
    pub p_offset: u64,
}

/// One end of a range of virtual addresses.
#[derive(Debug, Clone, Copy, PartialEq, Eq)]
pub enum Limit {
    /// The range goes as far as the segment.
    Unbounded,
    /// The range goes up to this address, and holds it.
    Included(u64),
    /// The range goes up to this address, and does not hold it.
    Excluded(u64),
}

/// The error of `goblin`, whatever it holds: it is only handed on.
#[verifier::external_type_specification]
#[verifier::external_body]
pub struct ExGoblinError(goblin::error::Error);

/// The program headers that `goblin::elf::Elf::parse` reads from the bytes of
/// an ELF file, or `None` where it reports an error.
pub uninterp spec fn parsed_segments(contents: Seq<u8>) -> Option<Seq<Segment>>;

/// The program headers of an ELF file, as `goblin::elf::Elf::parse` reads
/// them from its bytes: of each header its type, virtual address, size in
/// the file and offset in the file.
#[verifier::external_body]
fn elf_segments(contents: &[u8]) -> (r: Result<Vec<Segment>, goblin::error::Error>)
    ensures
        match r {
            Ok(segments) => parsed_segments(contents@) == Some(segments@),
            Err(_) => parsed_segments(contents@) is None,
        },
{
    goblin::elf::Elf::parse(contents).map(
        |elf|
            elf.program_headers.iter().map(
                |h|
                    Segment {
                        p_type: h.p_type,
                        p_vaddr: h.p_vaddr,
                        p_filesz: h.p_filesz,
                        p_offset: h.p_offset,
                    },
            ).collect(),
    )
}

/// The mathematical content of a binary.
pub ghost struct BinaryView {
    /// The program headers, in the order of the file.
    pub segments: Seq<Segment>,
    /// The bytes of the file.
    pub bytes: Seq<u8>,
}

impl BinaryView {
    /// Whether the segment is loaded and lies within the address space and
    /// within the file.
    pub open spec fn fits(self, s: Segment) -> bool {
        s.p_type == PT_LOAD ==> s.p_vaddr + s.p_filesz <= u64::MAX && s.p_offset + s.p_filesz
            <= self.bytes.len()
    }

    /// Every loaded segment lies within the address space and within the
    /// file.
    pub open spec fn wf(self) -> bool {
        forall|i: int| 0 <= i < self.segments.len() ==> self.fits(#[trigger] self.segments[i])
    }

    /// Whether the segment is loaded and holds the address, or ends just
    /// before it.
    pub open spec fn holds(s: Segment, va: u64) -> bool {
        s.p_type == PT_LOAD && s.p_vaddr <= va && va <= s.p_vaddr + s.p_filesz
    }

    /// The first of the first `n` segments that holds the address.
    pub open spec fn segment_of(self, va: u64, n: int) -> Option<int>
        decreases n,
    {
        if n <= 0 {
            None
        } else {
            match self.segment_of(va, n - 1) {
                Some(i) => Some(i),
                None => if Self::holds(self.segments[n - 1], va) {
                    Some(n - 1)
                } else {
                    None
                },
            }
        }
    }

    /// The first address of the range, if there is one.
    pub open spec fn first(start: Limit) -> Option<u64> {
        match start {
            Limit::Unbounded => Some(0u64),
            Limit::Included(n) => Some(n),
            Limit::Excluded(n) => if n < u64::MAX {
                Some((n + 1) as u64)
            } else {
                None
            },
        }
    }

    /// The address at which the range ends in the segment, if there is one.
    pub open spec fn last(s: Segment, end: Limit) -> Option<u64> {
        match end {
            Limit::Unbounded => Some((s.p_vaddr + s.p_filesz) as u64),
            Limit::Included(n) => Some(n),
            Limit::Excluded(n) => if n > 0 {
                Some((n - 1) as u64)
            } else {
                None
            },
        }
    }

    /// The bytes of the file that stand at the given range of virtual
    /// addresses: from the first address of the range, in the first loaded
    /// segment that holds it, up to the end of the range. There are none if
    /// no loaded segment holds the first address, or if the range ends
    /// before it starts or behind the segment.
    pub open spec fn range(self, start: Limit, end: Limit) -> Option<Seq<u8>> {
        match Self::first(start) {
            None => None,
            Some(from) => match self.segment_of(from, self.segments.len() as int) {
                None => None,
                Some(i) => {
                    let s = self.segments[i];
                    match Self::last(s, end) {
                        None => None,
                        Some(to) => if from <= to && to <= s.p_vaddr + s.p_filesz {
                            Some(
                                self.bytes.subrange(
                                    from - s.p_vaddr + s.p_offset,
                                    to - s.p_vaddr + s.p_offset,
                                ),
                            )
                        } else {
                            None
                        },
                    }
                },
            },
        }
    }

    /// The bytes from the address to the end of its segment.
    pub open spec fn bytes_from(self, va: u64) -> Option<Seq<u8>> {
        self.range(Limit::Included(va), Limit::Unbounded)
    }

    /// What `segment_of` finds is a segment that holds the address.
    pub proof fn segment_of_holds(self, va: u64, n: int)
        requires
            0 <= n <= self.segments.len(),
        ensures
            match self.segment_of(va, n) {
                Some(i) => 0 <= i < n && Self::holds(self.segments[i], va),
                None => forall|i: int| 0 <= i < n ==> !Self::holds(#[trigger] self.segments[i], va),
            },
        decreases n,
    {
        if n > 0 {
            self.segment_of_holds(va, n - 1);
        }
    }
}

/// An executable image: its program headers and its bytes.
#[derive(Debug)]
pub struct Binary {
    program_header: Vec<Segment>,
    bytes: Vec<u8>,
}

impl View for Binary {
    type V = BinaryView;

    closed spec fn view(&self) -> BinaryView {
        BinaryView { segments: self.program_header@, bytes: self.bytes@ }
    }
}

impl Binary {
    /// Every binary that the library hands out is well formed.
    pub open spec fn wf(&self) -> bool {
        self@.wf()
    }

    /// A binary from its program headers and its bytes. There is none if a
    /// loaded segment does not lie within the address space and the file.
    pub fn new(program_header: Vec<Segment>, bytes: Vec<u8>) -> (r: Option<Self>)
        ensures
            match r {
                Some(binary) => binary.wf() && binary@ == (BinaryView {
                    segments: program_header@,
                    bytes: bytes@,
                }),
                None => !(BinaryView { segments: program_header@, bytes: bytes@ }).wf(),
            },
    {
        let ghost view = BinaryView { segments: program_header@, bytes: bytes@ };
        let mut i: usize = 0;
        while i < program_header.len()
            invariant
                i <= program_header.len(),
                view == (BinaryView { segments: program_header@, bytes: bytes@ }),
                forall|k: int| 0 <= k < i ==> view.fits(#[trigger] view.segments[k]),
            decreases program_header.len() - i,
        {
            let s = program_header[i];
            proof {
                assert(view.segments[i as int] == s);
            }
            if s.p_type == PT_LOAD {
                if s.p_filesz > u64::MAX - s.p_vaddr {
                    proof {
                        assert(!view.fits(view.segments[i as int]));
                    }
                    return None;
                }
                if s.p_offset as u128 + s.p_filesz as u128 > bytes.len() as u128 {
                    proof {
                        assert(!view.fits(view.segments[i as int]));
                    }
                    return None;
                }
            }
            i += 1;
        }
        Some(Binary { program_header, bytes })
    }

    /// The binary in the bytes of an ELF file.
    pub fn from_bytes(contents: Vec<u8>) -> (r: Result<Self, String>)
        ensures
            match r {
                Ok(binary) => binary.wf() && binary@.bytes == contents@ && parsed_segments(
                    contents@,
                ) == Some(binary@.segments),
                Err(_) => match parsed_segments(contents@) {
                    None => true,
                    Some(segments) => !(BinaryView { segments, bytes: contents@ }).wf(),
                },
            },
    {
        match elf_segments(contents.as_slice()) {
            Ok(segments) => match Self::new(segments, contents) {
                Some(binary) => Ok(binary),
                None => Err("segment outside of file error".to_string()),
            },
            Err(_) => Err("cannot parse elf file error".to_string()),
        }
    }

    /// The program headers.
    pub fn segments(&self) -> (r: &Vec<Segment>)
        ensures
            r@ == self@.segments,
    {
        &self.program_header
    }

    /// The bytes of the file.
    pub fn bytes(&self) -> (r: &Vec<u8>)
        ensures
            r@ == self@.bytes,
    {
        &self.bytes
    }

    /// The first loaded segment that holds the address, or ends just before
    /// it.
    fn segment_of(&self, va: u64) -> (r: Option<usize>)
        requires
            self.wf(),
        ensures
            match r {
                Some(i) => self@.segment_of(va, self@.segments.len() as int) == Some(i as int) && i
                    < self@.segments.len(),
                None => self@.segment_of(va, self@.segments.len() as int) is None,
            },
    {
        let mut i: usize = 0;
        while i < self.program_header.len()
            invariant
                i <= self.program_header.len(),
                self.wf(),
                self@.segment_of(va, i as int) is None,
            decreases self.program_header.len() - i,
        {
            let s = self.program_header[i];
            proof {
                assert(self@.fits(self@.segments[i as int]));
            }
            if s.p_type == PT_LOAD && s.p_vaddr <= va && va <= s.p_vaddr + s.p_filesz {
                proof {
                    self@.segment_after(va, i as int, self@.segments.len() as int);
                }
                return Some(i);
            }
            i += 1;
        }
        None
    }

    /// The bytes that stand at the given range of virtual addresses.
    pub fn virtual_address_range(&self, start: Limit, end: Limit) -> (r: Result<&[u8], String>)
        requires
            self.wf(),
        ensures
            match r {
                Ok(bytes) => self@.range(start, end) == Some(bytes@),
                Err(e) => self@.range(start, end) is None && e@
                    == "invalid virtual address range error"@,
            },
    {
        proof {
            reveal_strlit("invalid virtual address range error");
        }
        let from: u64 = match start {
            Limit::Unbounded => 0,
            Limit::Included(n) => n,
            Limit::Excluded(n) => {
                if n == u64::MAX {
                    return Err("invalid virtual address range error".to_string());
                }
                n + 1
            },
        };
        let i = match self.segment_of(from) {
            Some(i) => i,
            None => {
                return Err("invalid virtual address range error".to_string());
            },
        };
        let segment = self.program_header[i];
        proof {
            self@.segment_of_holds(from, self@.segments.len() as int);
            assert(segment == self@.segments[i as int]);
            assert(self@.fits(self@.segments[i as int]));
            assert(BinaryView::holds(segment, from));
            assert(segment.p_offset + segment.p_filesz <= self.bytes.len());
            assert(BinaryView::first(start) == Some(from));
        }
        let to: u64 = match end {
            Limit::Unbounded => segment.p_vaddr + segment.p_filesz,
            Limit::Included(n) => n,
            Limit::Excluded(n) => {
                if n == 0 {
                    return Err("invalid virtual address range error".to_string());
                }
                n - 1
            },
        };
        proof {
            assert(BinaryView::last(segment, end) == Some(to));
        }
        if to > segment.p_vaddr + segment.p_filesz || from > to {
            Err("invalid virtual address range error".to_string())
        } else {
            let lo = (from - segment.p_vaddr + segment.p_offset) as usize;
            let hi = (to - segment.p_vaddr + segment.p_offset) as usize;
            Ok(slice_subrange(self.bytes.as_slice(), lo, hi))
        }
    }
}

impl BinaryView {
    /// A segment that holds the address, with none before it that does, is
    /// the segment of the address.
    pub proof fn segment_after(self, va: u64, i: int, n: int)
        requires
            0 <= i < n <= self.segments.len(),
            self.segment_of(va, i) is None,
            Self::holds(self.segments[i], va),
        ensures
            self.segment_of(va, n) == Some(i),
        decreases n - i,
    {
        if n > i + 1 {
            self.segment_after(va, i, n - 1);
        }
    }
}

} // verus!
