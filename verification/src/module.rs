//! The loaded module: architecture, base address, section list, and the
//! address space the sections were mapped into.

use vstd::prelude::*;

use crate::aspace::{AddressSpace, PAGE_SIZE};
use crate::le::{le32, le64};
use crate::Error;

verus! {

/// The module's architecture, which fixes the pointer width.
#[derive(Debug, PartialEq, Eq, Structural, Clone, Copy)]
pub enum Arch {
    X32,
    X64,
}

impl Arch {
    /// Width in bytes of a pointer: four on 32-bit, eight on 64-bit.
    pub open spec fn spec_pointer_size(self) -> usize {
        match self {
            Arch::X32 => 4,
            Arch::X64 => 8,
        }
    }

    pub fn pointer_size(self) -> (r: usize)
        ensures
            r == self.spec_pointer_size(),
    {
        match self {
            Arch::X32 => 4,
            Arch::X64 => 8,
        }
    }
}

/// The access a section grants: read, write, execute.
#[derive(Debug, PartialEq, Eq, Structural, Clone, Copy)]
pub struct Permissions {
    pub r: bool,
    pub w: bool,
    pub x: bool,
}

impl Permissions {
    /// Whether these permissions include everything `need` asks for.
    pub open spec fn spec_grants(self, need: Permissions) -> bool {
        &&& need.r ==> self.r
        &&& need.w ==> self.w
        &&& need.x ==> self.x
    }

    pub fn grants(self, need: Permissions) -> (res: bool)
        ensures
            res == self.spec_grants(need),
    {
        (!need.r || self.r) && (!need.w || self.w) && (!need.x || self.x)
    }

    pub fn new(r: bool, w: bool, x: bool) -> (res: Permissions)
        ensures
            res == (Permissions { r, w, x }),
    {
        Permissions { r, w, x }
    }

    /// Read permission alone.
    pub fn read() -> (res: Permissions)
        ensures
            res == (Permissions { r: true, w: false, x: false }),
    {
        Permissions { r: true, w: false, x: false }
    }

    /// Execute permission alone.
    pub fn execute() -> (res: Permissions)
        ensures
            res == (Permissions { r: false, w: false, x: true }),
    {
        Permissions { r: false, w: false, x: true }
    }
}

/// A half-open range of addresses or file offsets.
#[derive(Debug, PartialEq, Eq, Structural, Clone, Copy)]
pub struct Span {
    pub start: u64,
    pub end: u64,
}

impl Span {
    pub open spec fn wf(self) -> bool {
        self.start <= self.end
    }

    pub open spec fn spec_contains(self, x: u64) -> bool {
        self.start <= x < self.end
    }

    pub open spec fn spec_len(self) -> int {
        self.end - self.start
    }

    pub fn contains(&self, x: u64) -> (r: bool)
        ensures
            r == self.spec_contains(x),
    {
        self.start <= x && x < self.end
    }

    pub fn len(&self) -> (r: u64)
        requires
            self.wf(),
        ensures
            r == self.spec_len(),
    {
        self.end - self.start
    }
}

/// A contiguous region of the loaded binary with uniform permissions,
/// mapped from file bytes into virtual memory.
pub struct Section {
    /// the header's name bytes up to the first NUL
    pub name: Vec<u8>,
    /// the virtual addresses the section occupies once loaded
    pub virtual_range: Span,
    /// the file offsets its raw content was read from
    pub physical_range: Span,
    pub permissions: Permissions,
}

impl Section {
    /// Whether the section's virtual range contains `va`.
    pub fn contains(&self, va: u64) -> (r: bool)
        ensures
            r == self.virtual_range.spec_contains(va),
    {
        self.virtual_range.contains(va)
    }
}

/// Largest virtual end address over the sections; zero when there are none.
pub open spec fn spec_max_section_end(sections: Seq<Section>) -> u64
    decreases sections.len(),
{
    if sections.len() == 0 {
        0u64
    } else {
        let rest = spec_max_section_end(sections.drop_last());
        if sections.last().virtual_range.end > rest {
            sections.last().virtual_range.end
        } else {
            rest
        }
    }
}

pub struct Module {
    pub arch: Arch,
    pub base_address: u64,
    pub sections: Vec<Section>,
    pub address_space: AddressSpace,
}

impl Module {
    /// The module's sections and address space agree: section ranges are
    /// well-formed, page-multiple-sized virtual ranges, and every mapped
    /// address lies inside some section.
    pub open spec fn wf(self) -> bool {
        &&& self.address_space.wf()
        &&& self.address_space.spec_base() == self.base_address
        &&& forall|i: int|
            0 <= i < self.sections@.len() ==> (#[trigger] self.sections@[i]).virtual_range.wf()
                && self.sections@[i].physical_range.wf()
                && self.sections@[i].virtual_range.spec_len() % (PAGE_SIZE as int) == 0
        &&& forall|va: u64|
            #[trigger] self.address_space.is_mapped(va) ==> exists|i: int|
                0 <= i < self.sections@.len() && (#[trigger] self.sections@[i]).virtual_range.spec_contains(
                    va,
                )
    }

    /// Whether `va` is mapped and some section containing it grants `need`.
    pub open spec fn spec_probe(self, va: u64, need: Permissions) -> bool {
        &&& self.address_space.is_mapped(va)
        &&& exists|i: int|
            0 <= i < self.sections@.len() && (#[trigger] self.sections@[i]).virtual_range.spec_contains(
                va,
            ) && self.sections@[i].permissions.spec_grants(need)
    }

    /// Probe `va` for the permissions `need`; never fails, and answers
    /// false on unmapped addresses and permission mismatches alike.
    pub fn probe_va(&self, va: u64, need: Permissions) -> (r: bool)
        requires
            self.wf(),
        ensures
            r == self.spec_probe(va, need),
    {
        if !self.address_space.probe(va) {
            return false;
        }
        let mut i: usize = 0;
        while i < self.sections.len()
            invariant
                self.wf(),
                self.address_space.is_mapped(va),
                i <= self.sections@.len(),
                forall|j: int|
                    0 <= j < i ==> !((#[trigger] self.sections@[j]).virtual_range.spec_contains(va)
                        && self.sections@[j].permissions.spec_grants(need)),
            decreases self.sections@.len() - i,
        {
            let sec = &self.sections[i];
            if sec.contains(va) && sec.permissions.grants(need) {
                proof {
                    assert(self.address_space.is_mapped(va));
                    assert((self.sections@[i as int]).virtual_range.spec_contains(va)
                        && self.sections@[i as int].permissions.spec_grants(need));
                    assert(exists|k: int|
                        0 <= k < self.sections@.len()
                            && (#[trigger] self.sections@[k]).virtual_range.spec_contains(va)
                            && self.sections@[k].permissions.spec_grants(need));
                }
                return true;
            }
            i += 1;
        }
        false
    }

    /// The first section whose virtual range contains `va`.
    pub fn get_section(&self, va: u64) -> (r: Result<&Section, Error>)
        ensures
            match r {
                Ok(s) => exists|i: int|
                    {
                        &&& 0 <= i < self.sections@.len()
                        &&& (#[trigger] self.sections@[i]).virtual_range.spec_contains(va)
                        &&& s == &self.sections@[i]
                        &&& forall|j: int|
                            0 <= j < i ==> !(#[trigger] self.sections@[j]).virtual_range.spec_contains(
                                va,
                            )
                    },
                Err(e) => e == Error::AddressNotMapped && forall|i: int|
                    0 <= i < self.sections@.len() ==> !(#[trigger] self.sections@[i]).virtual_range.spec_contains(
                        va,
                    ),
            },
    {
        let mut i: usize = 0;
        while i < self.sections.len()
            invariant
                i <= self.sections@.len(),
                forall|j: int|
                    0 <= j < i ==> !(#[trigger] self.sections@[j]).virtual_range.spec_contains(va),
            decreases self.sections@.len() - i,
        {
            let sec = &self.sections[i];
            if sec.contains(va) {
                return Ok(sec);
            }
            i += 1;
        }
        Err(Error::AddressNotMapped)
    }

    /// Largest virtual end address over the module's sections.
    pub fn max_section_end(&self) -> (r: u64)
        ensures
            r == spec_max_section_end(self.sections@),
    {
        let mut best: u64 = 0;
        let mut i: usize = 0;
        while i < self.sections.len()
            invariant
                i <= self.sections@.len(),
                best == spec_max_section_end(self.sections@.take(i as int)),
            decreases self.sections@.len() - i,
        {
            let e = self.sections[i].virtual_range.end;
            proof {
                assert(self.sections@.take(i as int + 1).drop_last() == self.sections@.take(
                    i as int,
                ));
                assert(self.sections@.take(i as int + 1).last() == self.sections@[i as int]);
            }
            if e > best {
                best = e;
            }
            i += 1;
        }
        proof {
            assert(self.sections@.take(self.sections@.len() as int) == self.sections@);
        }
        best
    }

    /// The bytes mapped at `va .. va + n` as a sequence.
    pub open spec fn spec_mem_bytes(self, va: u64, n: int) -> Seq<u8> {
        Seq::new(n as nat, |i: int| self.address_space.mem()[(va + i) as u64])
    }

    /// The little-endian pointer-width value mapped at `va`.
    pub open spec fn spec_pointer_at(self, va: u64) -> int {
        match self.arch {
            Arch::X32 => le32(self.spec_mem_bytes(va, 4)),
            Arch::X64 => le64(self.spec_mem_bytes(va, 8)),
        }
    }

    /// Read the pointer-width little-endian value at `va`.
    ///
    /// Succeeds exactly when the whole pointer span is mapped.
    pub fn read_va_at_va(&self, va: u64) -> (r: Result<u64, Error>)
        requires
            self.wf(),
        ensures
            match r {
                Ok(p) => {
                    &&& self.address_space.span_mapped(
                        va,
                        self.arch.spec_pointer_size() as int,
                    )
                    &&& p as int == self.spec_pointer_at(va)
                },
                Err(e) => {
                    &&& e == Error::AddressNotMapped
                    &&& !self.address_space.span_mapped(va, self.arch.spec_pointer_size() as int)
                },
            },
    {
        let psize = self.arch.pointer_size();
        let v = match self.address_space.read_bytes(va, psize) {
            Ok(v) => v,
            Err(e) => {
                return Err(e);
            },
        };
        match self.arch {
            Arch::X32 => {
                let p = crate::le::read_u32(v.as_slice(), 0);
                proof {
                    assert(v@.subrange(0, 4) =~= self.spec_mem_bytes(va, 4));
                }
                Ok(p as u64)
            },
            Arch::X64 => {
                let p = crate::le::read_u64(v.as_slice(), 0);
                proof {
                    assert(v@.subrange(0, 8) =~= self.spec_mem_bytes(va, 8));
                }
                Ok(p)
            },
        }
    }

    /// The file offset the byte mapped at `va` was read from, through the
    /// first section containing `va`; the zero-filled tail of a section has
    /// no file offset.
    pub fn file_offset(&self, va: u64) -> (r: Result<u64, Error>)
        requires
            self.wf(),
        ensures
            match r {
                Ok(off) => exists|i: int|
                    {
                        &&& 0 <= i < self.sections@.len()
                        &&& (#[trigger] self.sections@[i]).virtual_range.spec_contains(va)
                        &&& off == self.sections@[i].physical_range.start + (va
                            - self.sections@[i].virtual_range.start)
                        &&& off < self.sections@[i].physical_range.end
                    },
                Err(e) => {
                    ||| (e == Error::AddressNotMapped && forall|i: int|
                        0 <= i < self.sections@.len()
                            ==> !(#[trigger] self.sections@[i]).virtual_range.spec_contains(va))
                    ||| exists|i: int|
                        {
                            &&& 0 <= i < self.sections@.len()
                            &&& (#[trigger] self.sections@[i]).virtual_range.spec_contains(va)
                            &&& forall|j: int|
                                0 <= j < i ==> !(
                                #[trigger] self.sections@[j]).virtual_range.spec_contains(va)
                            &&& {
                                let off = self.sections@[i].physical_range.start + (va
                                    - self.sections@[i].virtual_range.start);
                                ||| (off > u64::MAX && e == Error::MalformedFile)
                                ||| (off <= u64::MAX && off
                                    >= self.sections@[i].physical_range.end && e
                                    == Error::AddressNotMapped)
                            }
                        }
                },
            },
    {
        let sec = match self.get_section(va) {
            Ok(s) => s,
            Err(e) => {
                return Err(e);
            },
        };
        let delta = va - sec.virtual_range.start;
        if u64::MAX - sec.physical_range.start < delta {
            return Err(Error::MalformedFile);
        }
        let off = sec.physical_range.start + delta;
        if off < sec.physical_range.end {
            Ok(off)
        } else {
            Err(Error::AddressNotMapped)
        }
    }
}

/// Every section range of a well-formed module has a length that is a
/// multiple of the page alignment unit; the loader rejects geometry that
/// cannot meet this before it builds any address space.
pub proof fn lemma_section_ranges_page_aligned(m: Module, i: int)
    requires
        m.wf(),
        0 <= i < m.sections@.len(),
    ensures
        m.sections@[i].virtual_range.spec_len() % (PAGE_SIZE as int) == 0,
        m.sections@[i].virtual_range.wf(),
{
}

/// A virtual address outside every section of a well-formed module is not
/// mapped: probing it reports false whatever permissions are asked, and a
/// read of any positive length starting there fails.
pub proof fn lemma_unmapped_outside_sections(m: Module, va: u64, need: Permissions, n: int)
    requires
        m.wf(),
        forall|i: int|
            0 <= i < m.sections@.len() ==> !(#[trigger] m.sections@[i]).virtual_range.spec_contains(
                va,
            ),
    ensures
        !m.spec_probe(va, need),
        !m.address_space.is_mapped(va),
        n > 0 ==> !m.address_space.span_mapped(va, n),
{
    if m.address_space.is_mapped(va) {
        assert(false);
    }
    if n > 0 && m.address_space.span_mapped(va, n) {
        assert(m.address_space.is_mapped(va));
    }
}

} // verus!
