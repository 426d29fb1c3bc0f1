//! Defensive PE loader: parses raw file bytes into section metadata and
//! populates the address space, tolerating malformed and adversarial
//! inputs.
//!
//! Acceptance is layered. A file whose DOS stub, PE signature or optional
//! header magic cannot be recognized is `FormatNotSupported`. A recognized
//! file whose declared sizes contradict the file itself — a truncated
//! optional header or section table, raw data beyond the end of the file,
//! unaligned or descending section addresses, or address arithmetic that
//! would overflow — is `MalformedFile`. A raw size larger than the virtual
//! size is not an error: the copy is clamped to the virtual size.

use vstd::prelude::*;

use crate::aspace::{page_ceil, AddressSpace, PAGE_SIZE};
use crate::le::{le16, le32, le64, read_u16, read_u32, read_u64};
use crate::module::{Arch, Module, Permissions, Section, Span};
use crate::Error;

verus! {

use vstd::arithmetic::div_mod::{lemma_fundamental_div_mod, lemma_fundamental_div_mod_converse};

/// The section can be executed as code.
pub const IMAGE_SCN_MEM_EXECUTE: u32 = 0x20000000;

/// The section can be read.
pub const IMAGE_SCN_MEM_READ: u32 = 0x40000000;

/// The section can be written to.
pub const IMAGE_SCN_MEM_WRITE: u32 = 0x80000000;

// ---------------------------------------------------------------------------
// What the raw bytes declare, as spec-level views of the file.
// ---------------------------------------------------------------------------

/// The DOS stub is present: the file opens with `MZ` and is long enough to
/// hold the offset of the NT headers.
pub open spec fn spec_dos_ok(b: Seq<u8>) -> bool {
    &&& b.len() >= 0x40
    &&& b[0] == 0x4du8
    &&& b[1] == 0x5au8
}

/// Declared file offset of the NT headers.
#[verifier::opaque]
pub open spec fn spec_e_lfanew(b: Seq<u8>) -> int {
    le32(b.subrange(0x3c, 0x40))
}

/// The `PE\0\0` signature and the COFF file header fit and match.
pub open spec fn spec_sig_ok(b: Seq<u8>) -> bool {
    let e = spec_e_lfanew(b);
    &&& spec_dos_ok(b)
    &&& e + 0x18 <= b.len()
    &&& b[e] == 0x50u8
    &&& b[e + 1] == 0x45u8
    &&& b[e + 2] == 0u8
    &&& b[e + 3] == 0u8
}

#[verifier::opaque]
pub open spec fn spec_machine(b: Seq<u8>) -> int {
    le16(b.subrange(spec_e_lfanew(b) + 4, spec_e_lfanew(b) + 6))
}

#[verifier::opaque]
pub open spec fn spec_nsections(b: Seq<u8>) -> int {
    le16(b.subrange(spec_e_lfanew(b) + 6, spec_e_lfanew(b) + 8))
}

#[verifier::opaque]
pub open spec fn spec_size_opt(b: Seq<u8>) -> int {
    le16(b.subrange(spec_e_lfanew(b) + 20, spec_e_lfanew(b) + 22))
}

/// File offset of the optional header.
pub open spec fn spec_opt_off(b: Seq<u8>) -> int {
    spec_e_lfanew(b) + 24
}

#[verifier::opaque]
pub open spec fn spec_opt_magic(b: Seq<u8>) -> int {
    le16(b.subrange(spec_opt_off(b), spec_opt_off(b) + 2))
}

/// The header is recognizable as PE at all: signature plus a readable
/// optional-header magic of a known kind.
pub open spec fn spec_format_ok(b: Seq<u8>) -> bool {
    &&& spec_sig_ok(b)
    &&& spec_size_opt(b) >= 2
    &&& spec_opt_off(b) + 2 <= b.len()
    &&& (spec_opt_magic(b) == 0x10b || spec_opt_magic(b) == 0x20b)
}

pub open spec fn spec_is_64(b: Seq<u8>) -> bool {
    spec_opt_magic(b) == 0x20b
}

/// Least optional-header size that reaches through the data-directory
/// count.
pub open spec fn spec_min_opt_size(b: Seq<u8>) -> int {
    if spec_is_64(b) {
        112
    } else {
        96
    }
}

/// The optional header is large enough for the fields the loader reads and
/// lies entirely within the file.
pub open spec fn spec_opt_ok(b: Seq<u8>) -> bool {
    &&& spec_size_opt(b) >= spec_min_opt_size(b)
    &&& spec_opt_off(b) + spec_size_opt(b) <= b.len()
}

#[verifier::opaque]
pub open spec fn spec_entry(b: Seq<u8>) -> int {
    le32(b.subrange(spec_opt_off(b) + 16, spec_opt_off(b) + 20))
}

#[verifier::opaque]
pub open spec fn spec_image_base(b: Seq<u8>) -> int {
    if spec_is_64(b) {
        le64(b.subrange(spec_opt_off(b) + 24, spec_opt_off(b) + 32))
    } else {
        le32(b.subrange(spec_opt_off(b) + 28, spec_opt_off(b) + 32))
    }
}

#[verifier::opaque]
pub open spec fn spec_size_of_headers(b: Seq<u8>) -> int {
    le32(b.subrange(spec_opt_off(b) + 60, spec_opt_off(b) + 64))
}

#[verifier::opaque]
pub open spec fn spec_nrva(b: Seq<u8>) -> int {
    le32(
        b.subrange(
            spec_opt_off(b) + spec_min_opt_size(b) - 4,
            spec_opt_off(b) + spec_min_opt_size(b),
        ),
    )
}

/// Number of data directories the loader records: the declared count,
/// clamped to the canonical sixteen and to what the optional header holds.
pub open spec fn spec_ndirs(b: Seq<u8>) -> int {
    let declared = spec_nrva(b);
    let fit = (spec_size_opt(b) - spec_min_opt_size(b)) / 8;
    let a = if declared <= 16 {
        declared
    } else {
        16
    };
    if a <= fit {
        a
    } else {
        fit
    }
}

#[verifier::opaque]
pub open spec fn spec_dir_rva(b: Seq<u8>, i: int) -> int {
    le32(
        b.subrange(
            spec_opt_off(b) + spec_min_opt_size(b) + 8 * i,
            spec_opt_off(b) + spec_min_opt_size(b) + 8 * i + 4,
        ),
    )
}

#[verifier::opaque]
pub open spec fn spec_dir_size(b: Seq<u8>, i: int) -> int {
    le32(
        b.subrange(
            spec_opt_off(b) + spec_min_opt_size(b) + 8 * i + 4,
            spec_opt_off(b) + spec_min_opt_size(b) + 8 * i + 8,
        ),
    )
}

/// File offset of section header `i`.
pub open spec fn spec_sec_off(b: Seq<u8>, i: int) -> int {
    spec_opt_off(b) + spec_size_opt(b) + 40 * i
}

/// The whole section table lies within the file.
pub open spec fn spec_sec_table_ok(b: Seq<u8>) -> bool {
    spec_sec_off(b, spec_nsections(b)) <= b.len()
}

#[verifier::opaque]
pub open spec fn spec_sec_name(b: Seq<u8>, i: int) -> Seq<u8> {
    b.subrange(spec_sec_off(b, i), spec_sec_off(b, i) + 8)
}

#[verifier::opaque]
pub open spec fn spec_sec_vsize(b: Seq<u8>, i: int) -> int {
    le32(b.subrange(spec_sec_off(b, i) + 8, spec_sec_off(b, i) + 12))
}

#[verifier::opaque]
pub open spec fn spec_sec_va(b: Seq<u8>, i: int) -> int {
    le32(b.subrange(spec_sec_off(b, i) + 12, spec_sec_off(b, i) + 16))
}

#[verifier::opaque]
pub open spec fn spec_sec_rawsize(b: Seq<u8>, i: int) -> int {
    le32(b.subrange(spec_sec_off(b, i) + 16, spec_sec_off(b, i) + 20))
}

#[verifier::opaque]
pub open spec fn spec_sec_praw(b: Seq<u8>, i: int) -> int {
    le32(b.subrange(spec_sec_off(b, i) + 20, spec_sec_off(b, i) + 24))
}

#[verifier::opaque]
pub open spec fn spec_sec_chars(b: Seq<u8>, i: int) -> int {
    le32(b.subrange(spec_sec_off(b, i) + 36, spec_sec_off(b, i) + 40))
}

/// Bytes copied from the file for section `i`: the declared raw size,
/// clamped to the virtual size.
pub open spec fn spec_sec_raw_len(b: Seq<u8>, i: int) -> int {
    if spec_sec_vsize(b, i) <= spec_sec_rawsize(b, i) {
        spec_sec_vsize(b, i)
    } else {
        spec_sec_rawsize(b, i)
    }
}

/// Loaded (virtual) size of section `i`: the virtual size rounded up to a
/// page multiple.
pub open spec fn spec_sec_asize(b: Seq<u8>, i: int) -> int {
    page_ceil(spec_sec_vsize(b, i))
}

/// One past the last RVA of section `i` once loaded.
pub open spec fn spec_sec_end(b: Seq<u8>, i: int) -> int {
    spec_sec_va(b, i) + spec_sec_asize(b, i)
}

/// Bytes of the synthetic header section copied from the file.
pub open spec fn spec_hdr_raw(b: Seq<u8>) -> int {
    if spec_size_of_headers(b) <= b.len() {
        spec_size_of_headers(b)
    } else {
        b.len() as int
    }
}

pub open spec fn spec_hdr_virt(b: Seq<u8>) -> int {
    page_ceil(spec_hdr_raw(b))
}

/// Section `i` has sound geometry and follows its predecessor: its start
/// is page-aligned, its raw bytes lie within the file, its range does not
/// overflow the address space, and sections ascend without overlap.
pub open spec fn spec_sec_ok(b: Seq<u8>, i: int) -> bool {
    &&& spec_sec_va(b, i) % (PAGE_SIZE as int) == 0
    &&& spec_sec_asize(b, i) <= usize::MAX as int
    &&& spec_sec_praw(b, i) + spec_sec_raw_len(b, i) <= b.len()
    &&& spec_image_base(b) + spec_sec_end(b, i) <= u64::MAX as int
    &&& spec_sec_va(b, i) >= (if i == 0 {
        spec_hdr_virt(b)
    } else {
        spec_sec_end(b, i - 1)
    })
}

/// The declared section geometry is consistent with the file.
pub open spec fn spec_sections_ok(b: Seq<u8>) -> bool {
    &&& spec_sec_table_ok(b)
    &&& spec_hdr_virt(b) <= usize::MAX as int
    &&& spec_image_base(b) + spec_hdr_virt(b) <= u64::MAX as int
    &&& forall|i: int| 0 <= i < spec_nsections(b) ==> spec_sec_ok(b, i)
}

/// One past the highest RVA the loaded module may occupy.
pub open spec fn spec_capacity(b: Seq<u8>) -> int {
    if spec_nsections(b) == 0 {
        spec_hdr_virt(b)
    } else {
        spec_sec_end(b, spec_nsections(b) - 1)
    }
}

/// Everything the loader demands of the bytes.
pub open spec fn spec_loadable(b: Seq<u8>) -> bool {
    &&& spec_format_ok(b)
    &&& spec_opt_ok(b)
    &&& spec_sections_ok(b)
}

// ---------------------------------------------------------------------------
// Parsed header fields.
// ---------------------------------------------------------------------------

/// The header fields the loader and the analyzers read, as declared by the
/// file.
pub struct PEHeader {
    pub e_lfanew: u32,
    pub machine: u16,
    pub number_of_sections: u16,
    pub size_of_optional_header: u16,
    pub is_64: bool,
    pub image_base: u64,
    pub address_of_entry_point: u32,
    pub size_of_headers: u32,
    /// RVA and size of each data directory, in declared order
    pub data_directories: Vec<(u32, u32)>,
}

impl PEHeader {
    /// The parsed fields repeat what the bytes declare.
    pub open spec fn matches(self, b: Seq<u8>) -> bool {
        &&& self.e_lfanew as int == spec_e_lfanew(b)
        &&& self.machine as int == spec_machine(b)
        &&& self.number_of_sections as int == spec_nsections(b)
        &&& self.size_of_optional_header as int == spec_size_opt(b)
        &&& self.is_64 == spec_is_64(b)
        &&& self.image_base as int == spec_image_base(b)
        &&& self.address_of_entry_point as int == spec_entry(b)
        &&& self.size_of_headers as int == spec_size_of_headers(b)
        &&& self.data_directories@.len() == spec_ndirs(b)
        &&& forall|i: int|
            0 <= i < self.data_directories@.len() ==> (#[trigger] self.data_directories@[i]).0
                as int == spec_dir_rva(b, i) && self.data_directories@[i].1 as int == spec_dir_size(
                b,
                i,
            )
    }
}

/// Parse the DOS, COFF and optional headers.
///
/// Fails with `FormatNotSupported` when the bytes are not recognizably PE,
/// and with `MalformedFile` when the recognized optional header is too
/// small for its declared kind or runs past the end of the file.
pub fn parse_pe_header(buf: &[u8]) -> (r: Result<PEHeader, Error>)
    ensures
        match r {
            Ok(h) => spec_format_ok(buf@) && spec_opt_ok(buf@) && h.matches(buf@),
            Err(e) => {
                &&& (e == Error::FormatNotSupported || e == Error::MalformedFile)
                &&& (e == Error::FormatNotSupported <==> !spec_format_ok(buf@))
                &&& (e == Error::MalformedFile <==> spec_format_ok(buf@) && !spec_opt_ok(buf@))
            },
        },
{
    proof {
        reveal(spec_e_lfanew);
        reveal(spec_machine);
        reveal(spec_nsections);
        reveal(spec_size_opt);
        reveal(spec_opt_magic);
        reveal(spec_entry);
        reveal(spec_image_base);
        reveal(spec_size_of_headers);
        reveal(spec_nrva);
    }
    if buf.len() < 0x40 {
        return Err(Error::FormatNotSupported);
    }
    if !(buf[0] == 0x4d && buf[1] == 0x5a) {
        return Err(Error::FormatNotSupported);
    }
    let e_lfanew = read_u32(buf, 0x3c);
    proof {
        assert(buf@.subrange(0x3c, 0x40) == buf@.subrange(0x3c as int, 0x3c as int + 4));
    }
    let e = e_lfanew as usize;
    if e > buf.len() || buf.len() - e < 0x18 {
        return Err(Error::FormatNotSupported);
    }
    if !(buf[e] == 0x50 && buf[e + 1] == 0x45 && buf[e + 2] == 0 && buf[e + 3] == 0) {
        return Err(Error::FormatNotSupported);
    }
    let machine = read_u16(buf, e + 4);
    let number_of_sections = read_u16(buf, e + 6);
    let size_of_optional_header = read_u16(buf, e + 20);
    if size_of_optional_header < 2 {
        return Err(Error::FormatNotSupported);
    }
    let opt = e + 24;
    if buf.len() - opt < 2 {
        return Err(Error::FormatNotSupported);
    }
    let magic = read_u16(buf, opt);
    if !(magic == 0x10b || magic == 0x20b) {
        return Err(Error::FormatNotSupported);
    }
    let is_64 = magic == 0x20b;
    let min_opt: usize = if is_64 {
        112
    } else {
        96
    };
    if (size_of_optional_header as usize) < min_opt {
        return Err(Error::MalformedFile);
    }
    if buf.len() - opt < size_of_optional_header as usize {
        return Err(Error::MalformedFile);
    }
    let address_of_entry_point = read_u32(buf, opt + 16);
    let image_base: u64 = if is_64 {
        read_u64(buf, opt + 24)
    } else {
        read_u32(buf, opt + 28) as u64
    };
    let size_of_headers = read_u32(buf, opt + 60);
    let nrva = read_u32(buf, opt + min_opt - 4);
    let fit = (size_of_optional_header as usize - min_opt) / 8;
    let declared: usize = if nrva > 16 {
        16
    } else {
        nrva as usize
    };
    let ndirs: usize = if declared <= fit {
        declared
    } else {
        fit
    };
    let mut data_directories: Vec<(u32, u32)> = Vec::new();
    let mut i: usize = 0;
    proof {
        assert(ndirs == spec_ndirs(buf@));
        assert(8 * ndirs <= size_of_optional_header - min_opt) by {
            lemma_fundamental_div_mod((size_of_optional_header - min_opt) as int, 8);
        };
    }
    while i < ndirs
        invariant
            i <= ndirs,
            ndirs == spec_ndirs(buf@),
            spec_format_ok(buf@),
            spec_opt_ok(buf@),
            min_opt == spec_min_opt_size(buf@),
            opt == spec_opt_off(buf@),
            8 * ndirs <= spec_size_opt(buf@) - min_opt,
            opt + spec_size_opt(buf@) <= buf@.len(),
            opt + spec_size_opt(buf@) <= usize::MAX,
            data_directories@.len() == i,
            forall|k: int|
                0 <= k < i ==> (#[trigger] data_directories@[k]).0 as int == spec_dir_rva(buf@, k)
                    && data_directories@[k].1 as int == spec_dir_size(buf@, k),
        decreases ndirs - i,
    {
        proof {
            reveal(spec_dir_rva);
            reveal(spec_dir_size);
        }
        let rva = read_u32(buf, opt + min_opt + 8 * i);
        let size = read_u32(buf, opt + min_opt + 8 * i + 4);
        data_directories.push((rva, size));
        i += 1;
    }
    Ok(
        PEHeader {
            e_lfanew,
            machine,
            number_of_sections,
            size_of_optional_header,
            is_64,
            image_base,
            address_of_entry_point,
            size_of_headers,
            data_directories,
        },
    )
}

// ---------------------------------------------------------------------------
// Section validation.
// ---------------------------------------------------------------------------

/// `name` is `full` cut at its first NUL byte.
pub open spec fn is_nul_prefix(full: Seq<u8>, name: Seq<u8>) -> bool {
    &&& name.len() <= full.len()
    &&& forall|k: int| 0 <= k < name.len() ==> #[trigger] name[k] == full[k] && full[k] != 0
    &&& (name.len() == full.len() || full[name.len() as int] == 0)
}

/// Round `x` up to the next page multiple.
fn page_align_up(x: u64) -> (r: u64)
    requires
        x + PAGE_SIZE <= u64::MAX as int + 1,
    ensures
        r as int == page_ceil(x as int),
        r % PAGE_SIZE == 0,
        x <= r,
{
    let rem = x % PAGE_SIZE;
    let r = if rem == 0 {
        x
    } else {
        x + (PAGE_SIZE - rem)
    };
    proof {
        let d = PAGE_SIZE as int;
        lemma_fundamental_div_mod(x as int, d);
        if rem == 0 {
            lemma_fundamental_div_mod_converse(x as int + d - 1, d, x as int / d, d - 1);
        } else {
            lemma_fundamental_div_mod_converse(
                x as int + d - 1,
                d,
                x as int / d + 1,
                rem as int - 1,
            );
            assert((x as int / d + 1) * d == (x as int / d) * d + d) by (nonlinear_arith);
        }
        assert(r as int == page_ceil(x as int));
        lemma_fundamental_div_mod_converse(
            r as int,
            d,
            if rem == 0 {
                x as int / d
            } else {
                x as int / d + 1
            },
            0,
        );
    }
    r
}

/// The little-endian section header fields are non-negative and bounded
/// by their 32-bit width, whatever the bytes are.
pub proof fn lemma_sec_field_bounds(b: Seq<u8>, i: int)
    ensures
        0 <= spec_sec_vsize(b, i) < 0x100000000,
        0 <= spec_sec_va(b, i) < 0x100000000,
        0 <= spec_sec_rawsize(b, i) < 0x100000000,
        0 <= spec_sec_praw(b, i) < 0x100000000,
        0 <= spec_sec_chars(b, i) < 0x100000000,
{
    reveal(spec_sec_vsize);
    reveal(spec_sec_va);
    reveal(spec_sec_rawsize);
    reveal(spec_sec_praw);
    reveal(spec_sec_chars);
}

/// The declared header size is a 32-bit value, so the header's clamped raw
/// size is never negative.
pub proof fn lemma_hdr_bounds(b: Seq<u8>)
    ensures
        0 <= spec_size_of_headers(b) < 0x100000000,
        0 <= spec_hdr_raw(b),
        0 <= spec_nsections(b) < 0x10000,
{
    reveal(spec_size_of_headers);
    reveal(spec_nsections);
}

/// Read the fields of section header `i`, which starts at offset `so`.
fn read_section_header(buf: &[u8], so: usize, Ghost(i): Ghost<int>) -> (r: (
    u32,
    u32,
    u32,
    u32,
    u32,
    Vec<u8>,
))
    requires
        so as int == spec_sec_off(buf@, i),
        so + 40 <= buf.len(),
    ensures
        r.0 as int == spec_sec_vsize(buf@, i),
        r.1 as int == spec_sec_va(buf@, i),
        r.2 as int == spec_sec_rawsize(buf@, i),
        r.3 as int == spec_sec_praw(buf@, i),
        r.4 as int == spec_sec_chars(buf@, i),
        is_nul_prefix(spec_sec_name(buf@, i), r.5@),
{
    proof {
        reveal(spec_sec_vsize);
        reveal(spec_sec_va);
        reveal(spec_sec_rawsize);
        reveal(spec_sec_praw);
        reveal(spec_sec_chars);
        reveal(spec_sec_name);
    }
    let vsize = read_u32(buf, so + 8);
    let va = read_u32(buf, so + 12);
    let rawsize = read_u32(buf, so + 16);
    let praw = read_u32(buf, so + 20);
    let chars = read_u32(buf, so + 36);
    let name = read_sec_name(buf, so);
    (vsize, va, rawsize, praw, chars, name)
}

/// Section ends never decrease along the table.
proof fn lemma_sec_end_monotone(b: Seq<u8>, i: int, j: int)
    requires
        forall|k: int| 0 <= k < spec_nsections(b) ==> spec_sec_ok(b, k),
        0 <= i <= j < spec_nsections(b),
    ensures
        spec_sec_end(b, i) <= spec_sec_end(b, j),
    decreases j - i,
{
    if i < j {
        lemma_sec_end_monotone(b, i, j - 1);
        assert(spec_sec_ok(b, j));
        lemma_sec_field_bounds(b, j);
        crate::aspace::lemma_page_bounds(spec_sec_vsize(b, j));
    }
}

/// Check the declared section geometry and compute the address-space
/// capacity: the aligned end of the highest section, or of the header when
/// there are no sections.
fn validate_sections(buf: &[u8], h: &PEHeader) -> (r: Result<u64, Error>)
    requires
        spec_format_ok(buf@),
        spec_opt_ok(buf@),
        h.matches(buf@),
    ensures
        match r {
            Ok(cap) => {
                &&& spec_sections_ok(buf@)
                &&& cap as int == spec_capacity(buf@)
                &&& cap % PAGE_SIZE == 0
                &&& spec_image_base(buf@) + cap <= u64::MAX as int
                &&& spec_hdr_virt(buf@) <= cap
                &&& forall|i: int|
                    0 <= i < spec_nsections(buf@) ==> spec_sec_end(buf@, i) <= cap
            },
            Err(e) => e == Error::MalformedFile && !spec_sections_ok(buf@),
        },
{
    let blen = buf.len();
    proof {
        assert(buf@.len() <= usize::MAX);
        assert(spec_opt_off(buf@) + spec_size_opt(buf@) <= buf@.len());
    }
    let e = h.e_lfanew as usize;
    let opt = e + 24;
    let sec0 = opt + h.size_of_optional_header as usize;
    let nsec = h.number_of_sections as usize;
    if (buf.len() - sec0) / 40 < nsec {
        proof {
            lemma_fundamental_div_mod((buf@.len() - sec0) as int, 40);
            assert(!spec_sec_table_ok(buf@));
        }
        return Err(Error::MalformedFile);
    }
    proof {
        lemma_fundamental_div_mod((buf@.len() - sec0) as int, 40);
        assert((buf@.len() - sec0) / 40 * 40 <= buf@.len() - sec0);
        assert(40 * nsec <= 40 * ((buf@.len() - sec0) as int / 40)) by (nonlinear_arith)
            requires
                nsec <= (buf@.len() - sec0) as int / 40,
        ;
        assert(spec_sec_table_ok(buf@));
    }
    let hdr_raw: u64 = if (h.size_of_headers as u64) <= buf.len() as u64 {
        h.size_of_headers as u64
    } else {
        buf.len() as u64
    };
    let hdr_virt = page_align_up(hdr_raw);
    if hdr_virt > usize::MAX as u64 {
        return Err(Error::MalformedFile);
    }
    if h.image_base > u64::MAX - hdr_virt {
        return Err(Error::MalformedFile);
    }
    let mut prev_end: u64 = hdr_virt;
    let mut i: usize = 0;
    while i < nsec
        invariant
            spec_format_ok(buf@),
            spec_opt_ok(buf@),
            h.matches(buf@),
            spec_sec_table_ok(buf@),
            nsec == spec_nsections(buf@),
            sec0 == spec_opt_off(buf@) + spec_size_opt(buf@),
            sec0 + 40 * nsec <= buf@.len(),
            buf@.len() <= usize::MAX,
            hdr_virt as int == spec_hdr_virt(buf@),
            hdr_virt % PAGE_SIZE == 0,
            spec_image_base(buf@) + hdr_virt <= u64::MAX as int,
            i <= nsec,
            forall|k: int| 0 <= k < i ==> spec_sec_ok(buf@, k),
            prev_end as int == (if i == 0 {
                spec_hdr_virt(buf@)
            } else {
                spec_sec_end(buf@, i as int - 1)
            }),
            prev_end % PAGE_SIZE == 0,
            spec_image_base(buf@) + prev_end <= u64::MAX as int,
        decreases nsec - i,
    {
        let so = sec0 + 40 * i;
        proof {
            assert(so == spec_sec_off(buf@, i as int));
            assert(so + 40 <= buf@.len()) by (nonlinear_arith)
                requires
                    so == sec0 + 40 * i,
                    sec0 + 40 * nsec <= buf@.len(),
                    i < nsec,
            ;
        }
        let (vsize, va, rawsize, praw, _chars, _name) = read_section_header(
            buf,
            so,
            Ghost(i as int),
        );
        if (va as u64) % PAGE_SIZE != 0 {
            proof {
                assert(!spec_sec_ok(buf@, i as int));
            }
            return Err(Error::MalformedFile);
        }
        let raw_len: u32 = if vsize <= rawsize {
            vsize
        } else {
            rawsize
        };
        if buf.len() < (praw as usize) || buf.len() - (praw as usize) < (raw_len as usize) {
            proof {
                assert(!spec_sec_ok(buf@, i as int));
            }
            return Err(Error::MalformedFile);
        }
        let asize = page_align_up(vsize as u64);
        if asize > usize::MAX as u64 {
            proof {
                assert(!spec_sec_ok(buf@, i as int));
            }
            return Err(Error::MalformedFile);
        }
        let end = va as u64 + asize;
        if h.image_base > u64::MAX - end {
            proof {
                assert(!spec_sec_ok(buf@, i as int));
            }
            return Err(Error::MalformedFile);
        }
        if (va as u64) < prev_end {
            proof {
                assert(!spec_sec_ok(buf@, i as int));
            }
            return Err(Error::MalformedFile);
        }
        proof {
            crate::aspace::lemma_page_bounds(vsize as int);
            assert(spec_sec_ok(buf@, i as int));
            assert(end % PAGE_SIZE == 0) by {
                lemma_fundamental_div_mod(va as int, PAGE_SIZE as int);
                lemma_fundamental_div_mod(asize as int, PAGE_SIZE as int);
                lemma_fundamental_div_mod_converse(
                    end as int,
                    PAGE_SIZE as int,
                    va as int / (PAGE_SIZE as int) + asize as int / (PAGE_SIZE as int),
                    0,
                );
                assert((va as int / (PAGE_SIZE as int) + asize as int / (PAGE_SIZE as int)) * (
                PAGE_SIZE as int) == (va as int / (PAGE_SIZE as int)) * (PAGE_SIZE as int) + (
                asize as int / (PAGE_SIZE as int)) * (PAGE_SIZE as int)) by (nonlinear_arith);
            };
        }
        prev_end = end;
        i += 1;
    }
    proof {
        assert(spec_sections_ok(buf@));
        if nsec > 0 {
            assert forall|k: int| 0 <= k < spec_nsections(buf@) implies spec_sec_end(buf@, k)
                <= prev_end by {
                lemma_sec_end_monotone(buf@, k, nsec as int - 1);
            }
            assert(spec_sec_ok(buf@, 0));
            lemma_sec_field_bounds(buf@, 0);
            crate::aspace::lemma_page_bounds(spec_sec_vsize(buf@, 0));
            lemma_sec_end_monotone(buf@, 0, nsec as int - 1);
        }
    }
    Ok(prev_end)
}

// ---------------------------------------------------------------------------
// Loading.
// ---------------------------------------------------------------------------

/// `s` repeats what section header `i` declares.
pub open spec fn spec_section_matches(b: Seq<u8>, i: int, s: Section) -> bool {
    &&& s.virtual_range.start as int == spec_image_base(b) + spec_sec_va(b, i)
    &&& s.virtual_range.end as int == spec_image_base(b) + spec_sec_end(b, i)
    &&& s.physical_range.start as int == spec_sec_praw(b, i)
    &&& s.physical_range.end as int == spec_sec_praw(b, i) + spec_sec_raw_len(b, i)
    &&& s.permissions.r == ((spec_sec_chars(b, i) as u32) & IMAGE_SCN_MEM_READ != 0)
    &&& s.permissions.w == ((spec_sec_chars(b, i) as u32) & IMAGE_SCN_MEM_WRITE != 0)
    &&& s.permissions.x == ((spec_sec_chars(b, i) as u32) & IMAGE_SCN_MEM_EXECUTE != 0)
    &&& is_nul_prefix(spec_sec_name(b, i), s.name@)
}

/// The module's section list is the synthetic read-only header section
/// followed by one entry per declared section.
pub open spec fn spec_module_matches(b: Seq<u8>, m: Module) -> bool {
    &&& m.base_address as int == spec_image_base(b)
    &&& m.sections@.len() == spec_nsections(b) + 1
    &&& m.sections@[0].virtual_range.start == m.base_address
    &&& m.sections@[0].virtual_range.end as int == spec_image_base(b) + spec_hdr_virt(b)
    &&& m.sections@[0].physical_range.start == 0
    &&& m.sections@[0].physical_range.end as int == spec_hdr_raw(b)
    &&& m.sections@[0].permissions == (Permissions { r: true, w: false, x: false })
    &&& forall|i: int|
        1 <= i <= spec_nsections(b) ==> spec_section_matches(b, i - 1, #[trigger] m.sections@[i])
}

/// The header bytes, clamped to the file and zero-extended to a page
/// multiple, are mapped at the base address.
pub open spec fn spec_hdr_mem_ok(b: Seq<u8>, a: AddressSpace) -> bool {
    let base = spec_image_base(b);
    forall|va: u64|
        base <= va < base + spec_hdr_virt(b) ==> {
            &&& #[trigger] a.is_mapped(va)
            &&& a.mem()[va] == (if va - base < spec_hdr_raw(b) {
                b[va - base]
            } else {
                0u8
            })
        }
}

/// Section `i`'s clamped raw bytes are mapped at its virtual address and
/// the rest of its aligned virtual size reads as zero.
pub open spec fn spec_sec_mem_ok(b: Seq<u8>, i: int, a: AddressSpace) -> bool {
    let va0 = spec_image_base(b) + spec_sec_va(b, i);
    forall|va: u64|
        va0 <= va < va0 + spec_sec_asize(b, i) ==> {
            &&& #[trigger] a.is_mapped(va)
            &&& a.mem()[va] == (if va - va0 < spec_sec_raw_len(b, i) {
                b[spec_sec_praw(b, i) + (va - va0)]
            } else {
                0u8
            })
        }
}

/// The whole loaded image: header plus every section.
pub open spec fn spec_mem_loaded(b: Seq<u8>, a: AddressSpace) -> bool {
    &&& spec_hdr_mem_ok(b, a)
    &&& forall|i: int| 0 <= i < spec_nsections(b) ==> #[trigger] spec_sec_mem_ok(b, i, a)
}

/// `va` lies in the loaded header or in one of the first `upto` sections.
pub open spec fn spec_in_loaded(b: Seq<u8>, upto: int, va: u64) -> bool {
    let base = spec_image_base(b);
    ||| base <= va < base + spec_hdr_virt(b)
    ||| exists|k: int|
        0 <= k < upto && base + spec_sec_va(b, k) <= va < base + #[trigger] spec_sec_end(b, k)
}

/// `raw` bytes of `buf` starting at `start`, zero-extended to `total`.
fn build_zero_padded(buf: &[u8], start: usize, raw: usize, total: usize) -> (v: Vec<u8>)
    requires
        start + raw <= buf.len(),
        raw <= total,
    ensures
        v@.len() == total,
        forall|j: int| 0 <= j < raw ==> #[trigger] v@[j] == buf@[start + j],
        forall|j: int| raw <= j < total ==> #[trigger] v@[j] == 0u8,
{
    let mut v: Vec<u8> = Vec::new();
    let mut j: usize = 0;
    while j < total
        invariant
            start + raw <= buf.len(),
            raw <= total,
            j <= total,
            v@.len() == j,
            forall|t: int| 0 <= t < j && t < raw ==> #[trigger] v@[t] == buf@[start + t],
            forall|t: int| raw <= t < j ==> #[trigger] v@[t] == 0u8,
        decreases total - j,
    {
        let x: u8 = if j < raw {
            buf[start + j]
        } else {
            0
        };
        v.push(x);
        j += 1;
    }
    v
}

/// The section header's name bytes, cut at the first NUL.
fn read_sec_name(buf: &[u8], off: usize) -> (name: Vec<u8>)
    requires
        off + 8 <= buf.len(),
    ensures
        is_nul_prefix(buf@.subrange(off as int, off as int + 8), name@),
{
    let mut name: Vec<u8> = Vec::new();
    let mut k: usize = 0;
    while k < 8
        invariant
            off + 8 <= buf.len(),
            k <= 8,
            name@.len() == k,
            forall|t: int| 0 <= t < k ==> #[trigger] name@[t] == buf@[off + t] && buf@[off + t] != 0,
        decreases 8 - k,
    {
        let c = buf[off + k];
        if c == 0 {
            proof {
                assert(buf@.subrange(off as int, off as int + 8)[k as int] == 0);
                assert(is_nul_prefix(buf@.subrange(off as int, off as int + 8), name@));
            }
            return name;
        }
        name.push(c);
        k += 1;
    }
    proof {
        assert(is_nul_prefix(buf@.subrange(off as int, off as int + 8), name@));
    }
    name
}

/// The operating system a loaded format targets.
#[derive(Debug, PartialEq, Eq, Structural, Clone, Copy)]
pub enum Platform {
    Windows,
}

/// The on-disk format a loader understands.
#[derive(Debug, PartialEq, Eq, Structural, Clone, Copy)]
pub enum FileFormat {
    PE,
}

/// A loaded PE file: the module plus the parsed header fields.
pub struct PE {
    pub module: Module,
    pub header: PEHeader,
}

/// Loads PE files for one requested architecture.
pub struct PELoader {
    arch: Arch,
}

impl PELoader {
    pub fn new(arch: Arch) -> (r: PELoader)
        ensures
            r.spec_arch() == arch,
    {
        PELoader { arch }
    }

    pub closed spec fn spec_arch(self) -> Arch {
        self.arch
    }

    pub fn get_arch(&self) -> (r: Arch)
        ensures
            r == self.spec_arch(),
    {
        self.arch
    }

    pub fn get_plat(&self) -> (r: Platform)
        ensures
            r == Platform::Windows,
    {
        Platform::Windows
    }

    pub fn get_file_format(&self) -> (r: FileFormat)
        ensures
            r == FileFormat::PE,
    {
        FileFormat::PE
    }

    /// Whether the bytes are a loadable PE file of this loader's
    /// architecture.
    pub fn taste(&self, buf: &[u8]) -> (r: bool)
        ensures
            r == (spec_format_ok(buf@) && spec_opt_ok(buf@) && ((self.spec_arch() == Arch::X64)
                == spec_is_64(buf@))),
    {
        match parse_pe_header(buf) {
            Ok(h) => {
                let want64 = match self.arch {
                    Arch::X64 => true,
                    Arch::X32 => false,
                };
                h.is_64 == want64
            },
            Err(_) => false,
        }
    }

    /// Load the bytes as a PE module of this loader's architecture.
    ///
    /// On success the returned module is well-formed, its section list
    /// repeats the declared section table behind a synthetic header
    /// section, and its address space holds each section's clamped raw
    /// bytes followed by zeros up to the aligned virtual size.
    #[verifier::rlimit(100)]
    pub fn load(&self, buf: &[u8]) -> (r: Result<PE, Error>)
        ensures
            match r {
                Ok(pe) => {
                    &&& spec_loadable(buf@)
                    &&& (self.spec_arch() == Arch::X64) == spec_is_64(buf@)
                    &&& pe.module.wf()
                    &&& pe.module.arch == self.spec_arch()
                    &&& pe.header.matches(buf@)
                    &&& spec_module_matches(buf@, pe.module)
                    &&& spec_mem_loaded(buf@, pe.module.address_space)
                },
                Err(e) => {
                    &&& (e == Error::FormatNotSupported || e == Error::MismatchedBitness || e
                        == Error::MalformedFile)
                    &&& (e == Error::FormatNotSupported <==> !spec_format_ok(buf@))
                    &&& (e == Error::MismatchedBitness <==> spec_format_ok(buf@) && spec_opt_ok(
                        buf@,
                    ) && (self.spec_arch() == Arch::X64) != spec_is_64(buf@))
                    &&& (e == Error::MalformedFile <==> spec_format_ok(buf@) && (!spec_opt_ok(buf@)
                        || ((self.spec_arch() == Arch::X64) == spec_is_64(buf@)
                        && !spec_sections_ok(buf@))))
                },
            },
    {
        let h = match parse_pe_header(buf) {
            Ok(h) => h,
            Err(e) => {
                return Err(e);
            },
        };
        let want64 = match self.arch {
            Arch::X64 => true,
            Arch::X32 => false,
        };
        if h.is_64 != want64 {
            return Err(Error::MismatchedBitness);
        }
        let cap = match validate_sections(buf, &h) {
            Ok(c) => c,
            Err(e) => {
                return Err(e);
            },
        };
        let base = h.image_base;
        let mut aspace = AddressSpace::with_capacity(base, cap);
        let mut sections: Vec<Section> = Vec::new();

        // the header itself becomes a synthetic read-only section, so
        // header-relative reads work through the same address space
        let blen = buf.len();
        let hdr_raw: u64 = if (h.size_of_headers as u64) <= blen as u64 {
            h.size_of_headers as u64
        } else {
            blen as u64
        };
        let hdr_virt = page_align_up(hdr_raw);
        map_header(&mut aspace, buf, hdr_raw, hdr_virt, base, cap);
        let mut hdr_name: Vec<u8> = Vec::new();
        hdr_name.push(0x68);
        hdr_name.push(0x65);
        hdr_name.push(0x61);
        hdr_name.push(0x64);
        hdr_name.push(0x65);
        hdr_name.push(0x72);
        sections.push(
            Section {
                name: hdr_name,
                virtual_range: Span { start: base, end: base + hdr_virt },
                physical_range: Span { start: 0, end: hdr_raw },
                permissions: Permissions::read(),
            },
        );
        let nsec = h.number_of_sections as usize;
        let e = h.e_lfanew as usize;
        let sec0 = e + 24 + h.size_of_optional_header as usize;
        let mut i: usize = 0;
        while i < nsec
            invariant
                spec_loadable(buf@),
                h.matches(buf@),
                nsec == spec_nsections(buf@),
                sec0 == spec_opt_off(buf@) + spec_size_opt(buf@),
                sec0 + 40 * nsec <= buf@.len(),
                buf@.len() <= usize::MAX,
                base == h.image_base,
                base as int == spec_image_base(buf@),
                cap as int == spec_capacity(buf@),
                base + cap <= u64::MAX,
                hdr_virt as int == spec_hdr_virt(buf@),
                hdr_virt <= cap,
                forall|k: int| 0 <= k < nsec ==> spec_sec_end(buf@, k) <= cap,
                aspace.wf(),
                aspace.spec_base() == base,
                aspace.spec_capacity() == cap,
                i <= nsec,
                sections@.len() == i + 1,
                sections@[0].virtual_range.start == base,
                sections@[0].virtual_range.end as int == spec_image_base(buf@) + spec_hdr_virt(
                    buf@,
                ),
                sections@[0].physical_range.start == 0,
                sections@[0].physical_range.end as int == spec_hdr_raw(buf@),
                sections@[0].permissions == (Permissions { r: true, w: false, x: false }),
                sections@[0].name@ == seq![0x68u8, 0x65u8, 0x61u8, 0x64u8, 0x65u8, 0x72u8],
                forall|k: int|
                    1 <= k <= i ==> spec_section_matches(buf@, k - 1, #[trigger] sections@[k]),
                spec_hdr_mem_ok(buf@, aspace),
                forall|k: int| 0 <= k < i ==> #[trigger] spec_sec_mem_ok(buf@, k, aspace),
                forall|va: u64|
                    #[trigger] aspace.is_mapped(va) <==> spec_in_loaded(buf@, i as int, va),
            decreases nsec - i,
        {
            let so = sec0 + 40 * i;
            proof {
                assert(so == spec_sec_off(buf@, i as int));
                assert(so + 40 <= buf@.len()) by (nonlinear_arith)
                    requires
                        so == sec0 + 40 * i,
                        sec0 + 40 * nsec <= buf@.len(),
                        i < nsec,
                ;
                assert(spec_sec_ok(buf@, i as int));
            }
            let (vsize, va, rawsize, praw, chars, name) = read_section_header(
                buf,
                so,
                Ghost(i as int),
            );
            let raw_len: u32 = if vsize <= rawsize {
                vsize
            } else {
                rawsize
            };
            let asize = page_align_up(vsize as u64);
            let end = va as u64 + asize;
            proof {
                assert(end as int == spec_sec_end(buf@, i as int));
                assert(spec_sec_end(buf@, i as int) <= cap);
            }
            if asize > 0 {
                map_one_section(
                    &mut aspace,
                    buf,
                    Ghost(i as int),
                    va,
                    raw_len,
                    asize,
                    praw,
                    base,
                    cap,
                );
            } else {
                proof {
                    lemma_after_section_empty(buf@, i as int, aspace, base);
                }
            }
            let perms = Permissions::new(
                chars & IMAGE_SCN_MEM_READ != 0,
                chars & IMAGE_SCN_MEM_WRITE != 0,
                chars & IMAGE_SCN_MEM_EXECUTE != 0,
            );
            sections.push(
                Section {
                    name,
                    virtual_range: Span { start: base + va as u64, end: base + end },
                    physical_range: Span {
                        start: praw as u64,
                        end: praw as u64 + raw_len as u64,
                    },
                    permissions: perms,
                },
            );
            proof {
                assert(spec_section_matches(buf@, i as int, sections@[i as int + 1]));
            }
            i += 1;
        }

        let module = Module { arch: self.arch, base_address: base, sections, address_space: aspace };
        proof {
            lemma_loaded_module_wf(buf@, module);
        }
        Ok(PE { module, header: h })
    }
}

/// Detect the architecture from the file itself and load it.
pub fn load_pe(buf: &[u8]) -> (r: Result<PE, Error>)
    ensures
        match r {
            Ok(pe) => {
                &&& spec_loadable(buf@)
                &&& pe.module.wf()
                &&& pe.module.arch == (if spec_is_64(buf@) {
                    Arch::X64
                } else {
                    Arch::X32
                })
                &&& pe.header.matches(buf@)
                &&& spec_module_matches(buf@, pe.module)
                &&& spec_mem_loaded(buf@, pe.module.address_space)
            },
            Err(e) => {
                &&& (e == Error::FormatNotSupported || e == Error::MalformedFile)
                &&& (e == Error::FormatNotSupported <==> !spec_format_ok(buf@))
                &&& (e == Error::MalformedFile <==> spec_format_ok(buf@) && !(spec_opt_ok(buf@)
                    && spec_sections_ok(buf@)))
            },
        },
{
    let h = match parse_pe_header(buf) {
        Ok(h) => h,
        Err(e) => {
            return Err(e);
        },
    };
    let arch = if h.is_64 {
        Arch::X64
    } else {
        Arch::X32
    };
    PELoader::new(arch).load(buf)
}

/// A page-aligned start and a page-multiple end are their own page floor
/// and ceiling: the touched page range of such a region is the region.
proof fn lemma_aligned_region(lo: int, hi: int)
    requires
        0 <= lo <= hi,
        lo % (PAGE_SIZE as int) == 0,
        hi % (PAGE_SIZE as int) == 0,
    ensures
        crate::aspace::page_floor(lo) == lo,
        page_ceil(hi) == hi,
{
    let d = PAGE_SIZE as int;
    lemma_fundamental_div_mod(hi, d);
    lemma_fundamental_div_mod_converse(hi + d - 1, d, hi / d, d - 1);
}

/// Everything loaded before section `i` lies below section `i`'s start.
proof fn lemma_below_section(b: Seq<u8>, i: int)
    requires
        spec_loadable(b),
        0 <= i < spec_nsections(b),
    ensures
        spec_hdr_virt(b) <= spec_sec_va(b, i),
        forall|k: int| 0 <= k < i ==> #[trigger] spec_sec_end(b, k) <= spec_sec_va(b, i),
{
    assert(spec_sec_ok(b, i));
    assert(spec_sec_ok(b, 0));
    lemma_sec_field_bounds(b, 0);
    crate::aspace::lemma_page_bounds(spec_sec_vsize(b, 0));
    if i > 0 {
        lemma_sec_end_monotone(b, 0, i - 1);
    }
    assert forall|k: int| 0 <= k < i implies #[trigger] spec_sec_end(b, k) <= spec_sec_va(
        b,
        i,
    ) by {
        lemma_sec_end_monotone(b, k, i - 1);
    }
}

/// Below `bound` nothing changed, so the loaded header bytes persist.
proof fn lemma_low_preserved_hdr(
    b: Seq<u8>,
    pre: AddressSpace,
    post: AddressSpace,
    base: u64,
    bound: int,
)
    requires
        base as int == spec_image_base(b),
        spec_hdr_mem_ok(b, pre),
        base + spec_hdr_virt(b) <= bound,
        forall|va: u64|
            va < bound ==> ((#[trigger] post.is_mapped(va)) == pre.is_mapped(va)) && (
            pre.is_mapped(va) ==> post.mem()[va] == pre.mem()[va]),
    ensures
        spec_hdr_mem_ok(b, post),
{
    assert forall|va: u64|
        spec_image_base(b) <= va < spec_image_base(b) + spec_hdr_virt(b) implies {
        &&& #[trigger] post.is_mapped(va)
        &&& post.mem()[va] == (if va - spec_image_base(b) < spec_hdr_raw(b) {
            b[va - spec_image_base(b)]
        } else {
            0u8
        })
    } by {
        assert(pre.is_mapped(va));
        assert(post.is_mapped(va) == pre.is_mapped(va));
    }
}

/// Below `bound` nothing changed, so section `k`'s loaded bytes persist.
proof fn lemma_low_preserved_sec(
    b: Seq<u8>,
    k: int,
    pre: AddressSpace,
    post: AddressSpace,
    base: u64,
    bound: int,
)
    requires
        base as int == spec_image_base(b),
        spec_sec_mem_ok(b, k, pre),
        base + spec_sec_end(b, k) <= bound,
        forall|va: u64|
            va < bound ==> ((#[trigger] post.is_mapped(va)) == pre.is_mapped(va)) && (
            pre.is_mapped(va) ==> post.mem()[va] == pre.mem()[va]),
    ensures
        spec_sec_mem_ok(b, k, post),
{
    let va0 = spec_image_base(b) + spec_sec_va(b, k);
    assert forall|va: u64|
        va0 <= va < va0 + spec_sec_asize(b, k) implies {
        &&& #[trigger] post.is_mapped(va)
        &&& post.mem()[va] == (if va - va0 < spec_sec_raw_len(b, k) {
            b[spec_sec_praw(b, k) + (va - va0)]
        } else {
            0u8
        })
    } by {
        assert(pre.is_mapped(va));
        assert(post.is_mapped(va) == pre.is_mapped(va));
    }
}

/// The freshly mapped region is exactly section `i`'s loaded bytes.
proof fn lemma_new_sec(b: Seq<u8>, i: int, post: AddressSpace, base: u64)
    requires
        base as int == spec_image_base(b),
        forall|va: u64|
            base + spec_sec_va(b, i) <= va < base + spec_sec_end(b, i) ==> (
            #[trigger] post.is_mapped(va)) && post.mem()[va] == (if va - (base + spec_sec_va(
                b,
                i,
            )) < spec_sec_raw_len(b, i) {
                b[spec_sec_praw(b, i) + (va - (base + spec_sec_va(b, i)))]
            } else {
                0u8
            }),
    ensures
        spec_sec_mem_ok(b, i, post),
{
    let va0 = spec_image_base(b) + spec_sec_va(b, i);
    assert forall|va: u64|
        va0 <= va < va0 + spec_sec_asize(b, i) implies {
        &&& #[trigger] post.is_mapped(va)
        &&& post.mem()[va] == (if va - va0 < spec_sec_raw_len(b, i) {
            b[spec_sec_praw(b, i) + (va - va0)]
        } else {
            0u8
        })
    } by {
        assert(base + spec_sec_va(b, i) <= va < base + spec_sec_end(b, i));
        assert(post.is_mapped(va));
    }
}

/// After the step, the mapped addresses are those loaded so far plus the
/// new section's region.
proof fn lemma_step_coverage(
    b: Seq<u8>,
    i: int,
    pre: AddressSpace,
    post: AddressSpace,
    base: u64,
)
    requires
        spec_loadable(b),
        0 <= i < spec_nsections(b),
        base as int == spec_image_base(b),
        forall|va: u64| #[trigger] pre.is_mapped(va) <==> spec_in_loaded(b, i, va),
        forall|va: u64|
            #[trigger] post.is_mapped(va) <==> (pre.is_mapped(va) || (base + spec_sec_va(b, i)
                <= va < base + spec_sec_end(b, i))),
    ensures
        forall|va: u64| #[trigger] post.is_mapped(va) <==> spec_in_loaded(b, i + 1, va),
{
    let lo = base + spec_sec_va(b, i);
    let hi = base + spec_sec_end(b, i);
    assert forall|va: u64| #[trigger] post.is_mapped(va) implies spec_in_loaded(b, i + 1, va) by {
        if pre.is_mapped(va) {
            assert(spec_in_loaded(b, i, va));
            if !(spec_image_base(b) <= va < spec_image_base(b) + spec_hdr_virt(b)) {
                let k = choose|k: int|
                    0 <= k < i && spec_image_base(b) + spec_sec_va(b, k) <= va < spec_image_base(
                        b,
                    ) + #[trigger] spec_sec_end(b, k);
                assert(0 <= k < i + 1 && spec_image_base(b) + spec_sec_va(b, k) <= va
                    < spec_image_base(b) + spec_sec_end(b, k));
            }
        } else {
            assert(lo <= va < hi);
            assert(0 <= i < i + 1 && spec_image_base(b) + spec_sec_va(b, i) <= va
                < spec_image_base(b) + spec_sec_end(b, i));
        }
    }
    assert forall|va: u64| spec_in_loaded(b, i + 1, va) implies post.is_mapped(va) by {
        if spec_image_base(b) <= va < spec_image_base(b) + spec_hdr_virt(b) {
            assert(spec_in_loaded(b, i, va));
            assert(pre.is_mapped(va));
        } else {
            let k = choose|k: int|
                0 <= k < i + 1 && spec_image_base(b) + spec_sec_va(b, k) <= va < spec_image_base(
                    b,
                ) + #[trigger] spec_sec_end(b, k);
            if k < i {
                assert(spec_in_loaded(b, i, va));
                assert(pre.is_mapped(va));
            } else {
                assert(lo <= va < hi);
            }
        }
    }
}

/// Map the file's header bytes, zero-extended to a page multiple, at the
/// base of the empty address space.
fn map_header(aspace: &mut AddressSpace, buf: &[u8], hdr_raw: u64, hdr_virt: u64, base: u64, cap: u64)
    requires
        hdr_raw as int == spec_hdr_raw(buf@),
        hdr_virt as int == spec_hdr_virt(buf@),
        base as int == spec_image_base(buf@),
        hdr_raw <= buf@.len(),
        hdr_raw <= hdr_virt,
        hdr_virt <= usize::MAX,
        hdr_virt <= cap,
        hdr_virt % PAGE_SIZE == 0,
        old(aspace).wf(),
        old(aspace).spec_base() == base,
        old(aspace).spec_capacity() == cap,
        old(aspace).mem() == Map::<u64, u8>::empty(),
    ensures
        final(aspace).wf(),
        final(aspace).spec_base() == base,
        final(aspace).spec_capacity() == cap,
        spec_hdr_mem_ok(buf@, *final(aspace)),
        forall|x: u64| #[trigger] final(aspace).is_mapped(x) <==> spec_in_loaded(buf@, 0, x),
{
    if hdr_virt == 0 {
        proof {
            assert(spec_hdr_virt(buf@) == 0);
            assert(spec_hdr_mem_ok(buf@, *aspace));
            assert forall|x: u64| #[trigger] aspace.is_mapped(x) <==> spec_in_loaded(
                buf@,
                0,
                x,
            ) by {
                assert(!aspace.mem().dom().contains(x));
            }
        }
        return ;
    }
    let ghost pre = *aspace;
    let hbuf = build_zero_padded(buf, 0, hdr_raw as usize, hdr_virt as usize);
    let res = aspace.mapzx(0, hbuf.as_slice());
    proof {
        lemma_aligned_region(0, hdr_virt as int);
        if res is Err {
            assert(false);
        }
        assert forall|va: u64| base <= va < base + spec_hdr_virt(buf@) implies (
        #[trigger] aspace.is_mapped(va)) && aspace.mem()[va] == (if va - base < spec_hdr_raw(
            buf@,
        ) {
            buf@[va - base]
        } else {
            0u8
        }) by {
            assert(aspace.is_mapped(va));
            assert(aspace.mem()[va] == hbuf@[va - base]);
            assert(hbuf@[va - base] == (if va - base < spec_hdr_raw(buf@) {
                buf@[va - base]
            } else {
                0u8
            }));
        }
        assert(spec_hdr_mem_ok(buf@, *aspace));
        assert forall|x: u64| #[trigger] aspace.is_mapped(x) <==> spec_in_loaded(buf@, 0, x) by {
            if aspace.is_mapped(x) && !(base <= x < base + spec_hdr_virt(buf@)) {
                assert(pre.is_mapped(x));
                assert(false);
            }
            if base <= x < base + spec_hdr_virt(buf@) {
                assert(aspace.is_mapped(x));
            }
        }
    }
}

/// Map section `i`'s zero-padded bytes and carry the loop's memory facts
/// across the step.
#[verifier::rlimit(100)]
#[verifier::spinoff_prover]
fn map_one_section(
    aspace: &mut AddressSpace,
    buf: &[u8],
    Ghost(i): Ghost<int>,
    va: u32,
    raw_len: u32,
    asize: u64,
    praw: u32,
    base: u64,
    cap: u64,
)
    requires
        spec_loadable(buf@),
        0 <= i < spec_nsections(buf@),
        va as int == spec_sec_va(buf@, i),
        raw_len as int == spec_sec_raw_len(buf@, i),
        asize as int == spec_sec_asize(buf@, i),
        praw as int == spec_sec_praw(buf@, i),
        base as int == spec_image_base(buf@),
        asize > 0,
        asize <= usize::MAX,
        praw + raw_len <= buf@.len(),
        raw_len <= asize,
        va + asize == spec_sec_end(buf@, i),
        spec_sec_end(buf@, i) <= cap,
        old(aspace).wf(),
        old(aspace).spec_base() == base,
        old(aspace).spec_capacity() == cap,
        spec_hdr_mem_ok(buf@, *old(aspace)),
        forall|k: int| 0 <= k < i ==> #[trigger] spec_sec_mem_ok(buf@, k, *old(aspace)),
        forall|x: u64| #[trigger] old(aspace).is_mapped(x) <==> spec_in_loaded(buf@, i, x),
    ensures
        final(aspace).wf(),
        final(aspace).spec_base() == base,
        final(aspace).spec_capacity() == cap,
        spec_hdr_mem_ok(buf@, *final(aspace)),
        forall|k: int| 0 <= k <= i ==> #[trigger] spec_sec_mem_ok(buf@, k, *final(aspace)),
        forall|x: u64| #[trigger] final(aspace).is_mapped(x) <==> spec_in_loaded(buf@, i + 1, x),
{
    let ghost pre = *aspace;
    proof {
        assert(spec_sec_ok(buf@, i));
    }
    let secbuf = build_zero_padded(buf, praw as usize, raw_len as usize, asize as usize);
    let res = aspace.mapzx(va as u64, secbuf.as_slice());
    proof {
        lemma_aligned_region(va as int, va as int + asize as int);
        if res is Err {
            assert(false);
        }
        let b = buf@;
        let rva = va as u64;
        let sbuf = secbuf@;
        assert(pre.spec_base() == base);
        assert(crate::aspace::page_floor(rva as int) == rva as int);
        assert(page_ceil(rva + sbuf.len()) == rva + sbuf.len());
        lemma_below_section(b, i);
        lemma_sec_field_bounds(b, i);
        crate::aspace::lemma_page_bounds(spec_sec_vsize(b, i));
        let lo = base + spec_sec_va(b, i);
        let hi = base + spec_sec_end(b, i);

        // the freshly mapped region holds the section's bytes
        assert forall|x: u64|
            base + spec_sec_va(b, i) <= x < base + spec_sec_end(b, i) implies (
        #[trigger] aspace.is_mapped(x)) && aspace.mem()[x] == (if x - (base + spec_sec_va(b, i))
            < spec_sec_raw_len(b, i) {
            b[spec_sec_praw(b, i) + (x - (base + spec_sec_va(b, i)))]
        } else {
            0u8
        }) by {
            assert(aspace.is_mapped(x));
            assert(aspace.mem()[x] == sbuf[x - base - rva]);
            assert(sbuf[x - (base + spec_sec_va(b, i))] == (if x - (base + spec_sec_va(b, i))
                < spec_sec_raw_len(b, i) {
                b[spec_sec_praw(b, i) + (x - (base + spec_sec_va(b, i)))]
            } else {
                0u8
            }));
        }

        // everything below the section's start is untouched
        assert forall|x: u64|
            x < lo implies ((#[trigger] aspace.is_mapped(x)) == pre.is_mapped(x)) && (
        pre.is_mapped(x) ==> aspace.mem()[x] == pre.mem()[x]) by {
            assert(!(pre.spec_base() + crate::aspace::page_floor(rva as int) <= x && x
                < pre.spec_base() + page_ceil(rva + sbuf.len())));
        }
        lemma_low_preserved_hdr(b, pre, *aspace, base, lo);
        assert forall|k: int| 0 <= k <= i implies #[trigger] spec_sec_mem_ok(b, k, *aspace) by {
            if k < i {
                assert(spec_sec_mem_ok(b, k, pre));
                assert(base + spec_sec_end(b, k) <= lo);
                lemma_low_preserved_sec(b, k, pre, *aspace, base, lo);
            } else {
                lemma_new_sec(b, i, *aspace, base);
            }
        }

        // the mapped set grew by exactly the section's region
        assert forall|x: u64|
            #[trigger] aspace.is_mapped(x) <==> (pre.is_mapped(x) || (base + spec_sec_va(b, i)
                <= x < base + spec_sec_end(b, i))) by {
            if base + spec_sec_va(b, i) <= x < base + spec_sec_end(b, i) {
                assert(aspace.is_mapped(x));
            } else {
                assert(!(pre.spec_base() + crate::aspace::page_floor(rva as int) <= x && x
                    < pre.spec_base() + page_ceil(rva + sbuf.len())));
                assert(aspace.is_mapped(x) == pre.is_mapped(x));
            }
        }
        lemma_step_coverage(b, i, pre, *aspace, base);
    }
}

/// A section with no virtual size maps nothing: the loop's memory facts
/// carry over unchanged.
proof fn lemma_after_section_empty(b: Seq<u8>, i: int, post: AddressSpace, base: u64)
    requires
        spec_loadable(b),
        0 <= i < spec_nsections(b),
        base as int == spec_image_base(b),
        spec_sec_asize(b, i) == 0,
        spec_hdr_mem_ok(b, post),
        forall|k: int| 0 <= k < i ==> #[trigger] spec_sec_mem_ok(b, k, post),
        forall|va: u64| #[trigger] post.is_mapped(va) <==> spec_in_loaded(b, i, va),
    ensures
        forall|k: int| 0 <= k <= i ==> #[trigger] spec_sec_mem_ok(b, k, post),
        forall|va: u64| #[trigger] post.is_mapped(va) <==> spec_in_loaded(b, i + 1, va),
{
    assert forall|k: int| 0 <= k <= i implies #[trigger] spec_sec_mem_ok(b, k, post) by {
        if k == i {
            let va0 = spec_image_base(b) + spec_sec_va(b, i);
            assert(va0 + spec_sec_asize(b, i) == va0);
        }
    }
    assert forall|va: u64| #[trigger] post.is_mapped(va) <==> spec_in_loaded(b, i + 1, va) by {
        if post.is_mapped(va) {
            assert(spec_in_loaded(b, i, va));
            if !(spec_image_base(b) <= va < spec_image_base(b) + spec_hdr_virt(b)) {
                let k = choose|k: int|
                    0 <= k < i && spec_image_base(b) + spec_sec_va(b, k) <= va < spec_image_base(
                        b,
                    ) + #[trigger] spec_sec_end(b, k);
                assert(0 <= k < i + 1 && spec_image_base(b) + spec_sec_va(b, k) <= va
                    < spec_image_base(b) + spec_sec_end(b, k));
            }
        }
        if spec_in_loaded(b, i + 1, va) {
            if spec_image_base(b) <= va < spec_image_base(b) + spec_hdr_virt(b) {
                assert(spec_in_loaded(b, i, va));
            } else {
                let k = choose|k: int|
                    0 <= k < i + 1 && spec_image_base(b) + spec_sec_va(b, k) <= va
                        < spec_image_base(b) + #[trigger] spec_sec_end(b, k);
                assert(k < i);
                assert(spec_in_loaded(b, i, va));
            }
        }
    }
}

/// Mapping a section and reading it back round-trips: in a loaded module,
/// the bytes of section `i`'s virtual range are exactly its clamped raw
/// file bytes, and every address from the raw length up to the aligned
/// virtual size reads zero.
pub proof fn lemma_section_round_trip(b: Seq<u8>, m: Module, i: int)
    requires
        spec_loadable(b),
        spec_mem_loaded(b, m.address_space),
        m.base_address as int == spec_image_base(b),
        0 <= i < spec_nsections(b),
    ensures
        m.address_space.span_mapped(
            (spec_image_base(b) + spec_sec_va(b, i)) as u64,
            spec_sec_asize(b, i),
        ),
        forall|j: int|
            0 <= j < spec_sec_raw_len(b, i) ==> #[trigger] m.address_space.mem()[(spec_image_base(
                b,
            ) + spec_sec_va(b, i) + j) as u64] == b[spec_sec_praw(b, i) + j],
        forall|j: int|
            spec_sec_raw_len(b, i) <= j < spec_sec_asize(b, i)
                ==> #[trigger] m.address_space.mem()[(spec_image_base(b) + spec_sec_va(b, i)
                + j) as u64] == 0u8,
{
    assert(spec_sec_ok(b, i));
    lemma_sec_field_bounds(b, i);
    crate::aspace::lemma_page_bounds(spec_sec_vsize(b, i));
    assert(spec_sec_mem_ok(b, i, m.address_space));
    let va0 = spec_image_base(b) + spec_sec_va(b, i);
    assert forall|a: u64| va0 <= a < va0 + spec_sec_asize(b, i) implies
        #[trigger] m.address_space.is_mapped(a) by {}
    assert forall|j: int| 0 <= j < spec_sec_raw_len(b, i) implies #[trigger] m.address_space.mem()[(
    va0 + j) as u64] == b[spec_sec_praw(b, i) + j] by {
        let a = (va0 + j) as u64;
        assert(m.address_space.is_mapped(a) && m.address_space.mem()[a] == (if a - va0
            < spec_sec_raw_len(b, i) {
            b[spec_sec_praw(b, i) + (a - va0)]
        } else {
            0u8
        }));
    }
    assert forall|j: int|
        spec_sec_raw_len(b, i) <= j < spec_sec_asize(b, i) implies #[trigger] m.address_space.mem()[(
    va0 + j) as u64] == 0u8 by {
        let a = (va0 + j) as u64;
        assert(m.address_space.is_mapped(a) && m.address_space.mem()[a] == (if a - va0
            < spec_sec_raw_len(b, i) {
            b[spec_sec_praw(b, i) + (a - va0)]
        } else {
            0u8
        }));
    }
}

/// The assembled module is well-formed: its section geometry is sound and
/// every mapped address lies in a section.
#[verifier::rlimit(100)]
proof fn lemma_loaded_module_wf(b: Seq<u8>, m: Module)
    requires
        spec_loadable(b),
        m.address_space.wf(),
        m.address_space.spec_base() == m.base_address,
        spec_module_matches(b, m),
        forall|va: u64|
            #[trigger] m.address_space.is_mapped(va) <==> spec_in_loaded(
                b,
                spec_nsections(b),
                va,
            ),
    ensures
        m.wf(),
{
    lemma_hdr_bounds(b);
    assert forall|i: int| 0 <= i < m.sections@.len() implies (
    #[trigger] m.sections@[i]).virtual_range.wf() && m.sections@[i].physical_range.wf()
        && m.sections@[i].virtual_range.spec_len() % (PAGE_SIZE as int) == 0 by {
        if i == 0 {
            lemma_hdr_bounds(b);
            crate::aspace::lemma_page_bounds(spec_hdr_raw(b));
            lemma_aligned_region(0, spec_hdr_virt(b));
        } else {
            assert(spec_section_matches(b, i - 1, m.sections@[i]));
            assert(spec_sec_ok(b, i - 1));
            lemma_sec_field_bounds(b, i - 1);
            crate::aspace::lemma_page_bounds(spec_sec_vsize(b, i - 1));
            lemma_aligned_region(spec_sec_va(b, i - 1), spec_sec_va(b, i - 1) + spec_sec_asize(
                b,
                i - 1,
            ));
        }
    }
    assert forall|va: u64| #[trigger] m.address_space.is_mapped(va) implies exists|i: int|
        0 <= i < m.sections@.len() && (#[trigger] m.sections@[i]).virtual_range.spec_contains(
            va,
        ) by {
        assert(spec_in_loaded(b, spec_nsections(b), va));
        let base = spec_image_base(b);
        if base <= va < base + spec_hdr_virt(b) {
            assert((m.sections@[0]).virtual_range.spec_contains(va));
            assert(0 < m.sections@.len() && (m.sections@[0]).virtual_range.spec_contains(va));
        } else {
            let k = choose|k: int|
                0 <= k < spec_nsections(b) && base + spec_sec_va(b, k) <= va < base
                    + #[trigger] spec_sec_end(b, k);
            assert(spec_section_matches(b, k, m.sections@[k + 1]));
            assert(0 <= k + 1 < m.sections@.len() && (m.sections@[k + 1]).virtual_range.spec_contains(
                va,
            ));
        }
    }
}

} // verus!
