//! The analyzer pipeline: an ordered, architecture-conditioned chain of
//! candidate sources feeding one deduplicated set of function start
//! addresses.
//!
//! Each analyzer contributes zero or more candidates from the loaded
//! module; accumulation is monotonic set union, so no analyzer removes an
//! earlier finding, and a table that cannot be read contributes nothing
//! rather than stopping the pipeline. The orphan-function analyzer always
//! runs last: it bounds its pointer sweep by the union of every earlier
//! result's CFG extent.

use vstd::prelude::*;

use crate::cfg::{build_cfg, spec_block_exists, spec_extent_end, spec_reachable, BasicBlock, Insn,
    InsnTable};
use crate::le::{le16, le32};
use crate::loader::PE;
use crate::module::{Arch, Module, Permissions};
use crate::patterns::spec_prologues;
use crate::pointers::spec_sweep;

verus! {

/// The little-endian `u32` mapped at `va`.
pub open spec fn spec_u32_at(m: Module, va: u64) -> int {
    le32(m.spec_mem_bytes(va, 4))
}

/// The little-endian `u16` mapped at `va`.
pub open spec fn spec_u16_at(m: Module, va: u64) -> int {
    le16(m.spec_mem_bytes(va, 2))
}

/// Read the mapped `u32` at `va`.
fn read_u32_at(m: &Module, va: u64) -> (r: Option<u32>)
    requires
        m.wf(),
    ensures
        match r {
            Some(x) => m.address_space.span_mapped(va, 4) && x as int == spec_u32_at(*m, va),
            None => !m.address_space.span_mapped(va, 4),
        },
{
    match m.address_space.read_bytes(va, 4) {
        Ok(v) => {
            let x = crate::le::read_u32(v.as_slice(), 0);
            proof {
                assert(v@.subrange(0, 4) =~= m.spec_mem_bytes(va, 4));
            }
            Some(x)
        },
        Err(_) => None,
    }
}

/// Read the mapped `u16` at `va`.
fn read_u16_at(m: &Module, va: u64) -> (r: Option<u16>)
    requires
        m.wf(),
    ensures
        match r {
            Some(x) => m.address_space.span_mapped(va, 2) && x as int == spec_u16_at(*m, va),
            None => !m.address_space.span_mapped(va, 2),
        },
{
    match m.address_space.read_bytes(va, 2) {
        Ok(v) => {
            let x = crate::le::read_u16(v.as_slice(), 0);
            proof {
                assert(v@.subrange(0, 2) =~= m.spec_mem_bytes(va, 2));
            }
            Some(x)
        },
        Err(_) => None,
    }
}

/// The RVA and size of data directory `i`, when the header declares it.
pub open spec fn spec_dir(pe: PE, i: int) -> Option<(u32, u32)> {
    if 0 <= i < pe.header.data_directories@.len() {
        Some(pe.header.data_directories@[i])
    } else {
        None
    }
}

/// Data directory `i`, when present.
fn get_dir(pe: &PE, i: usize) -> (r: Option<(u32, u32)>)
    ensures
        r == spec_dir(*pe, i as int),
{
    if i < pe.header.data_directories.len() {
        Some(pe.header.data_directories[i])
    } else {
        None
    }
}

// ---------------------------------------------------------------------------
// A shared scanner for tables of 32-bit RVAs.
// ---------------------------------------------------------------------------

/// Entry `j` of the table at `table_va` yields a candidate: its `u32` RVA
/// field is readable and nonzero, lies outside the skipped RVA range, and
/// the address it denotes probes executable.
pub open spec fn spec_table_hit(
    m: Module,
    table_va: u64,
    stride: int,
    skip_lo: int,
    skip_hi: int,
    j: int,
) -> bool {
    let eva = table_va + j * stride;
    let frva = spec_u32_at(m, eva as u64);
    &&& eva + 4 <= u64::MAX as int + 1
    &&& m.address_space.span_mapped(eva as u64, 4)
    &&& frva != 0
    &&& !(skip_lo <= frva < skip_hi)
    &&& m.base_address + frva <= u64::MAX
    &&& m.spec_probe((m.base_address + frva) as u64, Permissions { r: false, w: false, x: true })
}

/// The candidate of table entry `j`.
pub open spec fn spec_table_val(m: Module, table_va: u64, stride: int, j: int) -> u64 {
    (m.base_address + spec_u32_at(m, (table_va + j * stride) as u64)) as u64
}

/// Candidates of the first `n` entries, in table order.
pub open spec fn spec_table_candidates(
    m: Module,
    table_va: u64,
    stride: int,
    skip_lo: int,
    skip_hi: int,
    n: int,
) -> Seq<u64>
    decreases n,
{
    if n <= 0 {
        Seq::empty()
    } else {
        let p = spec_table_candidates(m, table_va, stride, skip_lo, skip_hi, n - 1);
        if spec_table_hit(m, table_va, stride, skip_lo, skip_hi, n - 1) {
            p.push(spec_table_val(m, table_va, stride, n - 1))
        } else {
            p
        }
    }
}

/// Scan `count` table entries of `stride` bytes, each opening with a `u32`
/// RVA, and collect the executable addresses they denote. Unreadable
/// entries contribute nothing.
fn scan_rva_table(
    m: &Module,
    table_va: u64,
    stride: u64,
    skip_lo: u32,
    skip_hi: u64,
    count: usize,
) -> (r: Vec<u64>)
    requires
        m.wf(),
        1 <= stride <= 0x100,
        count <= 0x10000,
    ensures
        r@ == spec_table_candidates(
            *m,
            table_va,
            stride as int,
            skip_lo as int,
            skip_hi as int,
            count as int,
        ),
{
    let mut r: Vec<u64> = Vec::new();
    let mut j: usize = 0;
    while j < count
        invariant
            m.wf(),
            1 <= stride <= 0x100,
            count <= 0x10000,
            j <= count,
            r@ == spec_table_candidates(
                *m,
                table_va,
                stride as int,
                skip_lo as int,
                skip_hi as int,
                j as int,
            ),
        decreases count - j,
    {
        proof {
            assert((j as int) * (stride as int) <= 0x1000000) by (nonlinear_arith)
                requires
                    0 <= j <= 0x10000,
                    0 <= stride <= 0x100,
            ;
        }
        let off = (j as u64) * stride;
        if table_va <= u64::MAX - off && table_va + off <= u64::MAX - 3 {
            let eva = table_va + off;
            match read_u32_at(m, eva) {
                Some(frva) => {
                    if frva != 0 && !(skip_lo <= frva && (frva as u64) < skip_hi)
                        && m.base_address <= u64::MAX - frva as u64 {
                        let va = m.base_address + frva as u64;
                        if m.probe_va(va, Permissions::execute()) {
                            r.push(va);
                        }
                    }
                },
                None => {},
            }
        } else {
            proof {
                assert(!spec_table_hit(
                    *m,
                    table_va,
                    stride as int,
                    skip_lo as int,
                    skip_hi as int,
                    j as int,
                ));
            }
        }
        j += 1;
    }
    r
}

// ---------------------------------------------------------------------------
// The analyzers.
// ---------------------------------------------------------------------------

/// The declared entry point, when it probes executable.
pub open spec fn spec_entry_candidates(pe: PE) -> Seq<u64> {
    let m = pe.module;
    let va = m.base_address + pe.header.address_of_entry_point;
    if va <= u64::MAX && m.spec_probe(va as u64, Permissions { r: false, w: false, x: true }) {
        seq![va as u64]
    } else {
        Seq::empty()
    }
}

fn analyze_entry_point(pe: &PE) -> (r: Vec<u64>)
    requires
        pe.module.wf(),
    ensures
        r@ == spec_entry_candidates(*pe),
{
    let m = &pe.module;
    let mut r: Vec<u64> = Vec::new();
    if m.base_address <= u64::MAX - pe.header.address_of_entry_point as u64 {
        let va = m.base_address + pe.header.address_of_entry_point as u64;
        if m.probe_va(va, Permissions::execute()) {
            r.push(va);
            proof {
                assert(r@ =~= spec_entry_candidates(*pe));
            }
        }
    }
    r
}

/// The export table's function addresses: every nonzero, non-forwarder
/// entry of `AddressOfFunctions` that probes executable. Nothing when the
/// directory is absent or its header cannot be read.
pub open spec fn spec_export_candidates(pe: PE) -> Seq<u64> {
    let m = pe.module;
    match spec_dir(pe, 0) {
        Some((drva, dsize)) => {
            let dva = m.base_address + drva;
            if drva != 0 && dva + 0x20 <= u64::MAX as int + 1 && m.address_space.span_mapped(
                (dva + 0x14) as u64,
                4,
            ) && m.address_space.span_mapped((dva + 0x1c) as u64, 4) {
                let nfuncs = spec_u32_at(m, (dva + 0x14) as u64);
                let aof = spec_u32_at(m, (dva + 0x1c) as u64);
                let count = if nfuncs <= 0x10000 {
                    nfuncs
                } else {
                    0x10000
                };
                if m.base_address + aof <= u64::MAX {
                    spec_table_candidates(
                        m,
                        (m.base_address + aof) as u64,
                        4,
                        drva as int,
                        drva + dsize,
                        count,
                    )
                } else {
                    Seq::empty()
                }
            } else {
                Seq::empty()
            }
        },
        None => Seq::empty(),
    }
}

fn analyze_exports(pe: &PE) -> (r: Vec<u64>)
    requires
        pe.module.wf(),
    ensures
        r@ == spec_export_candidates(*pe),
{
    let m = &pe.module;
    let (drva, dsize) = match get_dir(pe, 0) {
        Some(d) => d,
        None => {
            return Vec::new();
        },
    };
    if drva == 0 || m.base_address > u64::MAX - drva as u64 || u64::MAX - (m.base_address + drva
        as u64) < 0x1f {
        return Vec::new();
    }
    let dva = m.base_address + drva as u64;
    let nfuncs = match read_u32_at(m, dva + 0x14) {
        Some(x) => x,
        None => {
            return Vec::new();
        },
    };
    let aof = match read_u32_at(m, dva + 0x1c) {
        Some(x) => x,
        None => {
            return Vec::new();
        },
    };
    let count: usize = if nfuncs <= 0x10000 {
        nfuncs as usize
    } else {
        0x10000
    };
    if m.base_address > u64::MAX - aof as u64 {
        return Vec::new();
    }
    let skip_hi: u64 = drva as u64 + dsize as u64;
    scan_rva_table(m, m.base_address + aof as u64, 4, drva, skip_hi, count)
}

/// Import thunk targets: every non-ordinal thunk value, taken as an RVA,
/// whose address probes executable. On files seen in practice the thunks
/// hold import names and this contributes nothing, but a bound table is
/// honored.
pub open spec fn spec_import_candidates(pe: PE) -> Seq<u64> {
    let m = pe.module;
    match spec_dir(pe, 1) {
        Some((drva, dsize)) => {
            if drva != 0 && m.base_address + drva <= u64::MAX {
                spec_import_descriptors(pe, (m.base_address + drva) as u64, 0x1000)
            } else {
                Seq::empty()
            }
        },
        None => Seq::empty(),
    }
}

/// Candidates of the first `fuel` import descriptors at `dva`; the walk
/// stops at an unreadable or all-zero descriptor.
pub open spec fn spec_import_descriptors(pe: PE, dva: u64, fuel: int) -> Seq<u64>
    decreases fuel,
{
    let m = pe.module;
    if fuel <= 0 {
        Seq::empty()
    } else if !(dva + 20 <= u64::MAX as int + 1 && m.address_space.span_mapped(
        (dva + 12) as u64,
        4,
    ) && m.address_space.span_mapped((dva + 16) as u64, 4)) {
        Seq::empty()
    } else {
        let name = spec_u32_at(m, (dva + 12) as u64);
        let first_thunk = spec_u32_at(m, (dva + 16) as u64);
        if name == 0 && first_thunk == 0 {
            Seq::empty()
        } else {
            let here = if m.base_address + first_thunk <= u64::MAX {
                spec_thunks(pe, (m.base_address + first_thunk) as u64, 0x10000)
            } else {
                Seq::empty()
            };
            if dva + 20 <= u64::MAX {
                here + spec_import_descriptors(pe, (dva + 20) as u64, fuel - 1)
            } else {
                here
            }
        }
    }
}

/// Candidates of the first `fuel` thunks at `tva`; the walk stops at an
/// unreadable or zero thunk or one importing by ordinal.
pub open spec fn spec_thunks(pe: PE, tva: u64, fuel: int) -> Seq<u64>
    decreases fuel,
{
    let m = pe.module;
    let psize = m.arch.spec_pointer_size() as int;
    if fuel <= 0 {
        Seq::empty()
    } else if !m.address_space.span_mapped(tva, psize) {
        Seq::empty()
    } else {
        let v = m.spec_pointer_at(tva);
        let ordinal_bit: int = match m.arch {
            Arch::X32 => 0x80000000,
            Arch::X64 => 0x8000000000000000,
        };
        if v == 0 || v >= ordinal_bit {
            Seq::empty()
        } else {
            let rest = if tva + psize <= u64::MAX {
                spec_thunks(pe, (tva + psize) as u64, fuel - 1)
            } else {
                Seq::empty()
            };
            if m.base_address + v <= u64::MAX && m.spec_probe(
                (m.base_address + v) as u64,
                Permissions { r: false, w: false, x: true },
            ) {
                seq![(m.base_address + v) as u64] + rest
            } else {
                rest
            }
        }
    }
}

fn analyze_thunks(pe: &PE, tva: u64, fuel: usize) -> (r: Vec<u64>)
    requires
        pe.module.wf(),
        fuel <= 0x10000,
    ensures
        r@ == spec_thunks(*pe, tva, fuel as int),
    decreases fuel,
{
    let m = &pe.module;
    if fuel == 0 {
        return Vec::new();
    }
    let v = match m.read_va_at_va(tva) {
        Ok(v) => v,
        Err(_) => {
            return Vec::new();
        },
    };
    let ordinal_bit: u64 = match m.arch {
        Arch::X32 => 0x80000000,
        Arch::X64 => 0x8000000000000000,
    };
    if v == 0 || v >= ordinal_bit {
        return Vec::new();
    }
    let psize = m.arch.pointer_size() as u64;
    let mut rest: Vec<u64> = if tva <= u64::MAX - psize {
        analyze_thunks(pe, tva + psize, fuel - 1)
    } else {
        Vec::new()
    };
    if m.base_address <= u64::MAX - v {
        let va = m.base_address + v;
        if m.probe_va(va, Permissions::execute()) {
            let mut out: Vec<u64> = Vec::new();
            out.push(va);
            out.append(&mut rest);
            proof {
                assert(out@ =~= spec_thunks(*pe, tva, fuel as int));
            }
            return out;
        }
    }
    rest
}

/// Handle one import descriptor: its thunk candidates, and the next
/// descriptor's address when the walk goes on.
fn import_step(pe: &PE, dva: u64) -> (r: (Vec<u64>, Option<u64>))
    requires
        pe.module.wf(),
    ensures
        forall|f: int|
            f > 0 ==> #[trigger] spec_import_descriptors(*pe, dva, f) == (match r.1 {
                None => r.0@,
                Some(next) => r.0@ + spec_import_descriptors(*pe, next, f - 1),
            }),
{
    let m = &pe.module;
    if dva > u64::MAX - 19 {
        return (Vec::new(), None);
    }
    let name = match read_u32_at(m, dva + 12) {
        Some(x) => x,
        None => {
            return (Vec::new(), None);
        },
    };
    let first_thunk = match read_u32_at(m, dva + 16) {
        Some(x) => x,
        None => {
            return (Vec::new(), None);
        },
    };
    if name == 0 && first_thunk == 0 {
        return (Vec::new(), None);
    }
    let here: Vec<u64> = if m.base_address <= u64::MAX - first_thunk as u64 {
        analyze_thunks(pe, m.base_address + first_thunk as u64, 0x10000)
    } else {
        Vec::new()
    };
    if dva <= u64::MAX - 20 {
        (here, Some(dva + 20))
    } else {
        (here, None)
    }
}

fn analyze_imports(pe: &PE) -> (r: Vec<u64>)
    requires
        pe.module.wf(),
    ensures
        r@ == spec_import_candidates(*pe),
{
    let m = &pe.module;
    let (drva, _dsize) = match get_dir(pe, 1) {
        Some(d) => d,
        None => {
            return Vec::new();
        },
    };
    if drva == 0 || m.base_address > u64::MAX - drva as u64 {
        return Vec::new();
    }
    let mut dva = m.base_address + drva as u64;
    let mut out: Vec<u64> = Vec::new();
    let mut fuel: usize = 0x1000;
    loop
        invariant_except_break
            pe.module.wf(),
            m == &pe.module,
            0 < fuel <= 0x1000,
            spec_import_candidates(*pe) =~= out@ + spec_import_descriptors(
                *pe,
                dva,
                fuel as int,
            ),
        ensures
            out@ =~= spec_import_candidates(*pe),
        decreases fuel,
    {
        let (mut add, next) = import_step(pe, dva);
        out.append(&mut add);
        match next {
            Some(nd) => {
                if fuel == 1 {
                    proof {
                        assert(spec_import_descriptors(*pe, nd, 0) =~= Seq::<u64>::empty());
                    }
                    break ;
                }
                dva = nd;
                fuel -= 1;
            },
            None => {
                break ;
            },
        }
    }
    out
}

/// Control-flow-guard function table entries. The stride is four bytes
/// plus whatever extra the guard flags declare.
pub open spec fn spec_cfguard_candidates(pe: PE) -> Seq<u64> {
    let m = pe.module;
    let table_off: int = if pe.header.is_64 {
        0x80
    } else {
        0x50
    };
    match spec_dir(pe, 10) {
        Some((drva, dsize)) => {
            let lcva = m.base_address + drva;
            if drva != 0 && lcva + table_off + 0x18 <= u64::MAX as int + 1
                && m.address_space.span_mapped((lcva + table_off) as u64, m.arch.spec_pointer_size() as int)
                && m.address_space.span_mapped((lcva + table_off + m.arch.spec_pointer_size()) as u64, 4)
                && m.address_space.span_mapped((lcva + table_off + 2 * m.arch.spec_pointer_size()) as u64, 4) {
                let table = m.spec_pointer_at((lcva + table_off) as u64);
                let count = spec_u32_at(m, (lcva + table_off + m.arch.spec_pointer_size()) as u64);
                let flags = spec_u32_at(m, (lcva + table_off + 2 * m.arch.spec_pointer_size()) as u64);
                let stride = 4 + ((flags as u32 >> 28) & 0xf);
                let n = if count <= 0x10000 {
                    count
                } else {
                    0x10000
                };
                if table <= u64::MAX {
                    spec_table_candidates(m, table as u64, stride as int, 0, 0, n)
                } else {
                    Seq::empty()
                }
            } else {
                Seq::empty()
            }
        },
        None => Seq::empty(),
    }
}

fn analyze_cfguard(pe: &PE) -> (r: Vec<u64>)
    requires
        pe.module.wf(),
    ensures
        r@ == spec_cfguard_candidates(*pe),
{
    let m = &pe.module;
    let table_off: u64 = if pe.header.is_64 {
        0x80
    } else {
        0x50
    };
    let (drva, _dsize) = match get_dir(pe, 10) {
        Some(d) => d,
        None => {
            return Vec::new();
        },
    };
    if drva == 0 || m.base_address > u64::MAX - drva as u64 {
        return Vec::new();
    }
    let lcva = m.base_address + drva as u64;
    if lcva > u64::MAX - table_off || u64::MAX - (lcva + table_off) < 0x17 {
        return Vec::new();
    }
    let psize = m.arch.pointer_size() as u64;
    let table = match m.read_va_at_va(lcva + table_off) {
        Ok(v) => v,
        Err(_) => {
            return Vec::new();
        },
    };
    let count = match read_u32_at(m, lcva + table_off + psize) {
        Some(x) => x,
        None => {
            return Vec::new();
        },
    };
    let flags = match read_u32_at(m, lcva + table_off + 2 * psize) {
        Some(x) => x,
        None => {
            return Vec::new();
        },
    };
    let masked = (flags >> 28) & 0xf;
    proof {
        assert(((flags >> 28) & 0xf) <= 0xf) by (bit_vector);
    }
    let stride = 4 + masked;
    let n: usize = if count <= 0x10000 {
        count as usize
    } else {
        0x10000
    };
    scan_rva_table(m, table, stride as u64, 0, 0, n)
}

/// Base-relocation-derived candidates: each relocated slot whose stored
/// pointer lands in executable memory.
pub open spec fn spec_reloc_candidates(pe: PE) -> Seq<u64> {
    let m = pe.module;
    match spec_dir(pe, 5) {
        Some((drva, dsize)) => {
            if drva != 0 && m.base_address + drva <= u64::MAX {
                spec_reloc_blocks(pe, (m.base_address + drva) as u64, dsize as int, 0x10000)
            } else {
                Seq::empty()
            }
        },
        None => Seq::empty(),
    }
}

/// Candidates of the relocation blocks within the next `remaining` bytes.
pub open spec fn spec_reloc_blocks(pe: PE, bva: u64, remaining: int, fuel: int) -> Seq<u64>
    decreases fuel,
{
    let m = pe.module;
    if fuel <= 0 || remaining < 8 {
        Seq::empty()
    } else if !(bva + 8 <= u64::MAX as int + 1 && m.address_space.span_mapped(bva, 4)
        && m.address_space.span_mapped((bva + 4) as u64, 4)) {
        Seq::empty()
    } else {
        let page = spec_u32_at(m, bva);
        let bsize = spec_u32_at(m, (bva + 4) as u64);
        if bsize < 8 || bsize > remaining {
            Seq::empty()
        } else {
            let here = spec_reloc_entries(pe, bva, page, (bsize - 8) / 2, (bsize - 8) / 2);
            if bva + bsize <= u64::MAX {
                here + spec_reloc_blocks(pe, (bva + bsize) as u64, remaining - bsize, fuel - 1)
            } else {
                here
            }
        }
    }
}

/// Candidates of the first `n` of the block's `total` entries.
pub open spec fn spec_reloc_entries(pe: PE, bva: u64, page: int, total: int, n: int) -> Seq<u64>
    decreases n,
{
    let m = pe.module;
    if n <= 0 {
        Seq::empty()
    } else {
        let p = spec_reloc_entries(pe, bva, page, total, n - 1);
        let j = n - 1;
        let eva = bva + 8 + 2 * j;
        if eva + 2 <= u64::MAX as int + 1 && m.address_space.span_mapped(eva as u64, 2) {
            let e = spec_u16_at(m, eva as u64);
            let kind = e / 0x1000;
            let off = e % 0x1000;
            if (kind == 3 || kind == 10) && m.base_address + page + off <= u64::MAX {
                let loc = (m.base_address + page + off) as u64;
                if m.address_space.span_mapped(loc, m.arch.spec_pointer_size() as int)
                    && m.spec_pointer_at(loc) <= u64::MAX && m.spec_probe(
                    m.spec_pointer_at(loc) as u64,
                    Permissions { r: false, w: false, x: true },
                ) {
                    p.push(m.spec_pointer_at(loc) as u64)
                } else {
                    p
                }
            } else {
                p
            }
        } else {
            p
        }
    }
}

fn analyze_reloc_entries(pe: &PE, bva: u64, page: u32, total: usize) -> (r: Vec<u64>)
    requires
        pe.module.wf(),
        total <= 0x80000000,
    ensures
        r@ == spec_reloc_entries(*pe, bva, page as int, total as int, total as int),
{
    let m = &pe.module;
    let mut r: Vec<u64> = Vec::new();
    let mut j: usize = 0;
    while j < total
        invariant
            pe.module.wf(),
            m == &pe.module,
            total <= 0x80000000,
            j <= total,
            r@ == spec_reloc_entries(*pe, bva, page as int, total as int, j as int),
        decreases total - j,
    {
        let off2 = 8 + 2 * (j as u64);
        if bva <= u64::MAX - off2 && u64::MAX - (bva + off2) >= 1 {
            let eva = bva + off2;
            match read_u16_at(m, eva) {
                Some(e) => {
                    let kind = e / 0x1000;
                    let off = e % 0x1000;
                    if (kind == 3 || kind == 10) && m.base_address <= u64::MAX - page as u64 - off
                        as u64 {
                        let loc = m.base_address + page as u64 + off as u64;
                        match m.read_va_at_va(loc) {
                            Ok(v) => {
                                if m.probe_va(v, Permissions::execute()) {
                                    proof {
                                        assert(v == pe.module.spec_pointer_at(loc) as u64);
                                    }
                                    r.push(v);
                                }
                            },
                            Err(_) => {},
                        }
                    }
                },
                None => {},
            }
        } else {
            proof {
                assert(bva + 8 + 2 * (j as int) + 2 > u64::MAX as int + 1);
            }
        }
        j += 1;
    }
    r
}

/// Handle one relocation block: its candidates, and the next block's
/// address and remaining byte budget when the walk goes on.
fn reloc_step(pe: &PE, bva: u64, remaining: u64) -> (r: (Vec<u64>, Option<(u64, u64)>))
    requires
        pe.module.wf(),
        remaining <= u32::MAX,
    ensures
        forall|f: int|
            f > 0 ==> #[trigger] spec_reloc_blocks(*pe, bva, remaining as int, f) == (match r.1 {
                None => r.0@,
                Some(nx) => r.0@ + spec_reloc_blocks(*pe, nx.0, nx.1 as int, f - 1),
            }),
        match r.1 {
            Some(nx) => nx.1 <= u32::MAX,
            None => true,
        },
{
    let m = &pe.module;
    if remaining < 8 || bva > u64::MAX - 7 {
        return (Vec::new(), None);
    }
    let page = match read_u32_at(m, bva) {
        Some(x) => x,
        None => {
            return (Vec::new(), None);
        },
    };
    let bsize = match read_u32_at(m, bva + 4) {
        Some(x) => x,
        None => {
            return (Vec::new(), None);
        },
    };
    if bsize < 8 || bsize as u64 > remaining {
        return (Vec::new(), None);
    }
    let nent: usize = ((bsize - 8) / 2) as usize;
    let here = analyze_reloc_entries(pe, bva, page, nent);
    if bva <= u64::MAX - bsize as u64 {
        (here, Some((bva + bsize as u64, remaining - bsize as u64)))
    } else {
        (here, None)
    }
}

fn analyze_relocs(pe: &PE) -> (r: Vec<u64>)
    requires
        pe.module.wf(),
    ensures
        r@ == spec_reloc_candidates(*pe),
{
    let m = &pe.module;
    let (drva, dsize) = match get_dir(pe, 5) {
        Some(d) => d,
        None => {
            return Vec::new();
        },
    };
    if drva == 0 || m.base_address > u64::MAX - drva as u64 {
        return Vec::new();
    }
    let mut bva = m.base_address + drva as u64;
    let mut remaining: u64 = dsize as u64;
    let mut fuel: usize = 0x10000;
    let mut out: Vec<u64> = Vec::new();
    loop
        invariant_except_break
            pe.module.wf(),
            m == &pe.module,
            0 < fuel <= 0x10000,
            remaining <= u32::MAX,
            spec_reloc_candidates(*pe) =~= out@ + spec_reloc_blocks(
                *pe,
                bva,
                remaining as int,
                fuel as int,
            ),
        ensures
            out@ =~= spec_reloc_candidates(*pe),
        decreases fuel,
    {
        let (mut add, next) = reloc_step(pe, bva, remaining);
        out.append(&mut add);
        match next {
            Some(nx) => {
                if fuel == 1 {
                    proof {
                        assert(spec_reloc_blocks(*pe, nx.0, nx.1 as int, 0) =~= Seq::<
                            u64,
                        >::empty());
                    }
                    break ;
                }
                bva = nx.0;
                remaining = nx.1;
                fuel -= 1;
            },
            None => {
                break ;
            },
        }
    }
    out
}

/// The 64-bit exception (runtime function) table: each entry's begin
/// address, when it probes executable.
pub open spec fn spec_runtime_candidates(pe: PE) -> Seq<u64> {
    let m = pe.module;
    match spec_dir(pe, 3) {
        Some((drva, dsize)) => {
            if drva != 0 && m.base_address + drva <= u64::MAX {
                let count = dsize / 12;
                let n = if count <= 0x10000 {
                    count as int
                } else {
                    0x10000
                };
                spec_table_candidates(m, (m.base_address + drva) as u64, 12, 0, 0, n)
            } else {
                Seq::empty()
            }
        },
        None => Seq::empty(),
    }
}

fn analyze_runtime_functions(pe: &PE) -> (r: Vec<u64>)
    requires
        pe.module.wf(),
    ensures
        r@ == spec_runtime_candidates(*pe),
{
    let m = &pe.module;
    let (drva, dsize) = match get_dir(pe, 3) {
        Some(d) => d,
        None => {
            return Vec::new();
        },
    };
    if drva == 0 || m.base_address > u64::MAX - drva as u64 {
        return Vec::new();
    }
    let count = dsize / 12;
    let n: usize = if count <= 0x10000 {
        count as usize
    } else {
        0x10000
    };
    scan_rva_table(m, m.base_address + drva as u64, 12, 0, 0, n)
}

// ---------------------------------------------------------------------------
// The orphan-function analyzer.
// ---------------------------------------------------------------------------

/// The control flow graph a successful `build_cfg` returns, as a value.
pub open spec fn spec_cfg_map(m: Module, t: Map<u64, Insn>, f: u64) -> Map<u64, BasicBlock> {
    Map::new(
        |k: u64| spec_reachable(m, t, f).contains(k),
        |k: u64|
            BasicBlock { addr: k, length: (crate::cfg::spec_block_end(m, t, k) - k) as u64 },
    )
}

/// One past the contiguous extent of the function at `f`; a start that
/// yields no CFG covers nothing.
pub open spec fn spec_function_extent_end(m: Module, t: Map<u64, Insn>, f: u64) -> int {
    if spec_block_exists(m, t, f) {
        spec_extent_end(spec_cfg_map(m, t, f), f)
    } else {
        f as int
    }
}

/// `c` lies within the contiguous extent of some already-found function.
pub open spec fn spec_covered(m: Module, t: Map<u64, Insn>, found: Seq<u64>, c: u64) -> bool {
    exists|j: int|
        0 <= j < found.len() && #[trigger] found[j] <= c && c < spec_function_extent_end(
            m,
            t,
            found[j],
        )
}

/// The first `n` sweep results that no earlier function's extent covers.
pub open spec fn spec_orphan_filter(
    m: Module,
    t: Map<u64, Insn>,
    found: Seq<u64>,
    sweep: Seq<u64>,
    n: int,
) -> Seq<u64>
    decreases n,
{
    if n <= 0 {
        Seq::empty()
    } else {
        let p = spec_orphan_filter(m, t, found, sweep, n - 1);
        if !spec_covered(m, t, found, sweep[n - 1]) {
            p.push(sweep[n - 1])
        } else {
            p
        }
    }
}

/// What the orphan analyzer contributes: pointer-sweep hits outside every
/// found function's extent.
pub open spec fn spec_orphan_candidates(pe: PE, t: Map<u64, Insn>, found: Seq<u64>) -> Seq<u64> {
    let sweep = spec_sweep(pe.module, pe.module.sections@.len() as int);
    spec_orphan_filter(pe.module, t, found, sweep, sweep.len() as int)
}

fn analyze_orphans(pe: &PE, insns: &InsnTable, found: &Vec<u64>) -> (r: Vec<u64>)
    requires
        pe.module.wf(),
        insns.wf(),
    ensures
        r@ == spec_orphan_candidates(*pe, insns.insns(), found@),
{
    let m = &pe.module;
    let ghost t = insns.insns();
    // measure each found function's contiguous extent once
    let mut covers: Vec<(u64, u64)> = Vec::new();
    let mut i: usize = 0;
    while i < found.len()
        invariant
            pe.module.wf(),
            insns.wf(),
            m == &pe.module,
            t == insns.insns(),
            i <= found@.len(),
            covers@.len() == i,
            forall|j: int|
                0 <= j < i ==> (#[trigger] covers@[j]).0 == found@[j] && covers@[j].1 as int
                    == spec_function_extent_end(pe.module, t, found@[j]),
        decreases found@.len() - i,
    {
        let f = found[i];
        match build_cfg(m, insns, f) {
            Ok(cfg) => {
                proof {
                    assert(cfg.basic_blocks@ =~= spec_cfg_map(pe.module, t, f));
                }
                let e = cfg.contiguous_extent_end(f);
                covers.push((f, e));
            },
            Err(_) => {
                covers.push((f, f));
            },
        }
        i += 1;
    }
    let sweep = crate::pointers::find_pe_nonrelocated_executable_pointers(pe);
    let mut r: Vec<u64> = Vec::new();
    let mut k: usize = 0;
    while k < sweep.len()
        invariant
            pe.module.wf(),
            insns.wf(),
            m == &pe.module,
            t == insns.insns(),
            sweep@ == spec_sweep(pe.module, pe.module.sections@.len() as int),
            covers@.len() == found@.len(),
            forall|j: int|
                0 <= j < found@.len() ==> (#[trigger] covers@[j]).0 == found@[j] && covers@[j].1
                    as int == spec_function_extent_end(pe.module, t, found@[j]),
            k <= sweep@.len(),
            r@ == spec_orphan_filter(pe.module, t, found@, sweep@, k as int),
        decreases sweep@.len() - k,
    {
        let c = sweep[k];
        let mut covered = false;
        let mut j: usize = 0;
        while j < covers.len()
            invariant
                covers@.len() == found@.len(),
                forall|q: int|
                    0 <= q < found@.len() ==> (#[trigger] covers@[q]).0 == found@[q]
                        && covers@[q].1 as int == spec_function_extent_end(
                        pe.module,
                        t,
                        found@[q],
                    ),
                j <= covers@.len(),
                covered == exists|q: int|
                    0 <= q < j && #[trigger] found@[q] <= c && c < spec_function_extent_end(
                        pe.module,
                        t,
                        found@[q],
                    ),
            decreases covers@.len() - j,
        {
            let (f, e) = covers[j];
            if f <= c && c < e {
                proof {
                    assert(found@[j as int] <= c && c < spec_function_extent_end(
                        pe.module,
                        t,
                        found@[j as int],
                    ));
                }
                covered = true;
            }
            j += 1;
        }
        if !covered {
            r.push(c);
        }
        k += 1;
    }
    r
}

// ---------------------------------------------------------------------------
// The pipeline.
// ---------------------------------------------------------------------------

/// The closed set of candidate sources, ordered and conditioned on the
/// architecture at pipeline-construction time.
#[derive(Debug, PartialEq, Eq, Structural, Clone, Copy)]
pub enum Analyzer {
    EntryPoint,
    Exports,
    Imports,
    CFGuardTable,
    Reloc,
    ByteSig,
    RuntimeFunction,
    OrphanFunction,
}

/// What analyzer `a` contributes, given what earlier analyzers found.
pub open spec fn spec_analyze(a: Analyzer, pe: PE, t: Map<u64, Insn>, found: Seq<u64>) -> Seq<
    u64,
> {
    match a {
        Analyzer::EntryPoint => spec_entry_candidates(pe),
        Analyzer::Exports => spec_export_candidates(pe),
        Analyzer::Imports => spec_import_candidates(pe),
        Analyzer::CFGuardTable => spec_cfguard_candidates(pe),
        Analyzer::Reloc => spec_reloc_candidates(pe),
        Analyzer::ByteSig => spec_prologues(pe.module, pe.module.sections@.len() as int),
        Analyzer::RuntimeFunction => spec_runtime_candidates(pe),
        Analyzer::OrphanFunction => spec_orphan_candidates(pe, t, found),
    }
}

impl Analyzer {
    /// Run this analyzer: zero or more candidate function starts.
    pub fn analyze(&self, pe: &PE, insns: &InsnTable, found: &Vec<u64>) -> (r: Vec<u64>)
        requires
            pe.module.wf(),
            insns.wf(),
        ensures
            r@ == spec_analyze(*self, *pe, insns.insns(), found@),
    {
        match self {
            Analyzer::EntryPoint => analyze_entry_point(pe),
            Analyzer::Exports => analyze_exports(pe),
            Analyzer::Imports => analyze_imports(pe),
            Analyzer::CFGuardTable => analyze_cfguard(pe),
            Analyzer::Reloc => analyze_relocs(pe),
            Analyzer::ByteSig => crate::patterns::find_function_prologues(pe),
            Analyzer::RuntimeFunction => analyze_runtime_functions(pe),
            Analyzer::OrphanFunction => analyze_orphans(pe, insns, found),
        }
    }
}

/// The fixed analyzer order; the runtime-function table only exists on
/// 64-bit modules, and the orphan search always runs last.
pub open spec fn spec_analyzer_list(is_64: bool) -> Seq<Analyzer> {
    if is_64 {
        seq![
            Analyzer::EntryPoint,
            Analyzer::Exports,
            Analyzer::Imports,
            Analyzer::CFGuardTable,
            Analyzer::Reloc,
            Analyzer::ByteSig,
            Analyzer::RuntimeFunction,
            Analyzer::OrphanFunction,
        ]
    } else {
        seq![
            Analyzer::EntryPoint,
            Analyzer::Exports,
            Analyzer::Imports,
            Analyzer::CFGuardTable,
            Analyzer::Reloc,
            Analyzer::ByteSig,
            Analyzer::OrphanFunction,
        ]
    }
}

/// The analyzers for one architecture, in pipeline order.
pub fn analyzers_for(is_64: bool) -> (r: Vec<Analyzer>)
    ensures
        r@ == spec_analyzer_list(is_64),
{
    let mut r: Vec<Analyzer> = Vec::new();
    r.push(Analyzer::EntryPoint);
    r.push(Analyzer::Exports);
    r.push(Analyzer::Imports);
    r.push(Analyzer::CFGuardTable);
    r.push(Analyzer::Reloc);
    r.push(Analyzer::ByteSig);
    if is_64 {
        r.push(Analyzer::RuntimeFunction);
    }
    r.push(Analyzer::OrphanFunction);
    proof {
        assert(r@ =~= spec_analyzer_list(is_64));
    }
    r
}

/// `acc` extended by the first `n` new elements of `add`, first seen
/// first.
pub open spec fn spec_merge(acc: Seq<u64>, add: Seq<u64>, n: int) -> Seq<u64>
    decreases n,
{
    if n <= 0 {
        acc
    } else {
        let p = spec_merge(acc, add, n - 1);
        if !p.contains(add[n - 1]) {
            p.push(add[n - 1])
        } else {
            p
        }
    }
}

/// The accumulated candidate set after the first `k` analyzers.
pub open spec fn spec_pipeline(pe: PE, t: Map<u64, Insn>, k: int) -> Seq<u64>
    decreases k,
{
    if k <= 0 {
        Seq::empty()
    } else {
        let acc = spec_pipeline(pe, t, k - 1);
        let add = spec_analyze(spec_analyzer_list(pe.header.is_64)[k - 1], pe, t, acc);
        spec_merge(acc, add, add.len() as int)
    }
}

/// Everything the pipeline finds: a pure function of the loaded module and
/// the instruction table.
pub open spec fn spec_find_function_starts(pe: PE, t: Map<u64, Insn>) -> Seq<u64> {
    spec_pipeline(pe, t, spec_analyzer_list(pe.header.is_64).len() as int)
}

/// Merging never introduces a duplicate.
proof fn lemma_merge_no_dup(acc: Seq<u64>, add: Seq<u64>, n: int)
    requires
        acc.no_duplicates(),
    ensures
        spec_merge(acc, add, n).no_duplicates(),
    decreases n,
{
    if n > 0 {
        lemma_merge_no_dup(acc, add, n - 1);
    }
}

/// The pipeline's accumulated set never holds a duplicate.
proof fn lemma_pipeline_no_dup(pe: PE, t: Map<u64, Insn>, k: int)
    ensures
        spec_pipeline(pe, t, k).no_duplicates(),
    decreases k,
{
    if k > 0 {
        lemma_pipeline_no_dup(pe, t, k - 1);
        let acc = spec_pipeline(pe, t, k - 1);
        let add = spec_analyze(spec_analyzer_list(pe.header.is_64)[k - 1], pe, t, acc);
        lemma_merge_no_dup(acc, add, add.len() as int);
    }
}

/// Run the full pipeline: the merged, deduplicated set of function start
/// addresses, each at its first occurrence.
pub fn find_function_starts(pe: &PE, insns: &InsnTable) -> (r: Vec<u64>)
    requires
        pe.module.wf(),
        insns.wf(),
    ensures
        r@ == spec_find_function_starts(*pe, insns.insns()),
        r@.no_duplicates(),
{
    let analyzers = analyzers_for(pe.header.is_64);
    let mut found: Vec<u64> = Vec::new();
    let mut k: usize = 0;
    while k < analyzers.len()
        invariant
            pe.module.wf(),
            insns.wf(),
            analyzers@ == spec_analyzer_list(pe.header.is_64),
            k <= analyzers@.len(),
            found@ == spec_pipeline(*pe, insns.insns(), k as int),
        decreases analyzers@.len() - k,
    {
        let a = analyzers[k];
        let add = a.analyze(pe, insns, &found);
        let mut j: usize = 0;
        while j < add.len()
            invariant
                k < analyzers@.len(),
                a == spec_analyzer_list(pe.header.is_64)[k as int],
                add@ == spec_analyze(a, *pe, insns.insns(), spec_pipeline(*pe, insns.insns(), k as int)),
                j <= add@.len(),
                found@ == spec_merge(
                    spec_pipeline(*pe, insns.insns(), k as int),
                    add@,
                    j as int,
                ),
            decreases add@.len() - j,
        {
            let c = add[j];
            if !crate::pointers::vec_contains(&found, c) {
                found.push(c);
            }
            j += 1;
        }
        k += 1;
    }
    proof {
        lemma_pipeline_no_dup(*pe, insns.insns(), spec_analyzer_list(pe.header.is_64).len() as int);
    }
    found
}

/// The pipeline is deterministic: two runs over the same module and
/// instruction table yield identical candidate sequences, and so identical
/// candidate sets — scheduling can never affect the result.
pub proof fn lemma_pipeline_deterministic(pe: PE, t: Map<u64, Insn>, r1: Seq<u64>, r2: Seq<u64>)
    requires
        r1 == spec_find_function_starts(pe, t),
        r2 == spec_find_function_starts(pe, t),
    ensures
        r1 == r2,
        r1.to_set() == r2.to_set(),
{
}

} // verus!
