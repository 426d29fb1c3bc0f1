//! Pointer sweep: find code addresses embedded as data.
//!
//! Every section's bytes are scanned at every (unaligned) offset for a
//! pointer-width little-endian value that lands in the module's executable
//! memory — vtable slots and callback pointers look exactly like this.
//! Structural filters then drop the usual false positives: a candidate
//! must follow a return or filler byte (jump tables and exception handlers
//! rarely do), must not itself hold a readable pointer (then it is data,
//! not code), and must not open a printable ASCII run (then it is a
//! string). When the bytes before a candidate cannot be read, the
//! candidate is kept: at the edge of mapped memory, absence of evidence is
//! not evidence of absence.

use vstd::prelude::*;

use crate::le::{le32, le64};
use crate::loader::PE;
use crate::module::{Arch, Module, Permissions};

verus! {

/// The pointer-width little-endian value of the window of `bytes` at
/// `off`.
pub open spec fn spec_window_val(m: Module, bytes: Seq<u8>, off: int) -> int {
    match m.arch {
        Arch::X32 => le32(bytes.subrange(off, off + 4)),
        Arch::X64 => le64(bytes.subrange(off, off + 8)),
    }
}

/// The three bytes before `va` pass the boundary filter, or cannot be
/// read at all: a near return with immediate three bytes back, or a trap,
/// no-op, or return byte immediately before.
pub open spec fn spec_preceded_ok(m: Module, va: u64) -> bool {
    if va >= 3 && m.address_space.span_mapped((va - 3) as u64, 3) {
        ||| m.address_space.mem()[(va - 3) as u64] == 0xC2u8
        ||| m.address_space.mem()[(va - 1) as u64] == 0xCCu8
        ||| m.address_space.mem()[(va - 1) as u64] == 0x90u8
        ||| m.address_space.mem()[(va - 1) as u64] == 0xC3u8
        ||| m.address_space.mem()[(va - 1) as u64] == 0xCBu8
    } else {
        true
    }
}

/// The value stored at `va` is itself a pointer into readable memory —
/// then `va` is far more likely data than code.
pub open spec fn spec_target_is_pointer(m: Module, va: u64) -> bool {
    &&& m.address_space.span_mapped(va, m.arch.spec_pointer_size() as int)
    &&& m.spec_probe(m.spec_pointer_at(va) as u64, Permissions { r: true, w: false, x: false })
}

/// All structural filters pass for candidate `va`.
pub open spec fn spec_keeps(m: Module, va: u64) -> bool {
    &&& spec_preceded_ok(m, va)
    &&& !spec_target_is_pointer(m, va)
    &&& !m.address_space.ascii_run(va, 4)
}

/// The window at `off` yields a reported candidate: it holds a value in
/// `[base, highest section end)` that probes executable and survives every
/// filter.
pub open spec fn spec_sweep_hit(m: Module, bytes: Seq<u8>, off: int) -> bool {
    let v = spec_window_val(m, bytes, off);
    &&& off + m.arch.spec_pointer_size() <= bytes.len()
    &&& m.base_address <= v < crate::module::spec_max_section_end(m.sections@)
    &&& m.spec_probe(v as u64, Permissions { r: false, w: false, x: true })
    &&& spec_keeps(m, v as u64)
}

/// Fold the hits of the first `n` offsets onto `acc`, first occurrence
/// only.
pub open spec fn spec_sweep_offsets(m: Module, bytes: Seq<u8>, n: int, acc: Seq<u64>) -> Seq<u64>
    decreases n,
{
    if n <= 0 {
        acc
    } else {
        let p = spec_sweep_offsets(m, bytes, n - 1, acc);
        if spec_sweep_hit(m, bytes, n - 1) && !p.contains(
            spec_window_val(m, bytes, n - 1) as u64,
        ) {
            p.push(spec_window_val(m, bytes, n - 1) as u64)
        } else {
            p
        }
    }
}

/// What scanning section `i` adds to `acc`: nothing when its bytes cannot
/// be read.
pub open spec fn spec_sweep_section(m: Module, i: int, acc: Seq<u64>) -> Seq<u64> {
    let s = m.sections@[i];
    let len = s.virtual_range.spec_len();
    if len <= usize::MAX && m.address_space.span_mapped(s.virtual_range.start, len) {
        spec_sweep_offsets(m, m.spec_mem_bytes(s.virtual_range.start, len), len, acc)
    } else {
        acc
    }
}

/// The whole sweep over the first `upto` sections.
pub open spec fn spec_sweep(m: Module, upto: int) -> Seq<u64>
    decreases upto,
{
    if upto <= 0 {
        Seq::empty()
    } else {
        spec_sweep_section(m, upto - 1, spec_sweep(m, upto - 1))
    }
}

/// Folding more hits onto a duplicate-free accumulator keeps it
/// duplicate-free.
proof fn lemma_sweep_offsets_no_dup(m: Module, bytes: Seq<u8>, n: int, acc: Seq<u64>)
    requires
        acc.no_duplicates(),
    ensures
        spec_sweep_offsets(m, bytes, n, acc).no_duplicates(),
    decreases n,
{
    if n > 0 {
        lemma_sweep_offsets_no_dup(m, bytes, n - 1, acc);
    }
}

/// The sweep's result never repeats an address.
proof fn lemma_sweep_no_dup(m: Module, upto: int)
    ensures
        spec_sweep(m, upto).no_duplicates(),
    decreases upto,
{
    if upto > 0 {
        lemma_sweep_no_dup(m, upto - 1);
        let s = m.sections@[upto - 1];
        let len = s.virtual_range.spec_len();
        if len <= usize::MAX && m.address_space.span_mapped(s.virtual_range.start, len) {
            lemma_sweep_offsets_no_dup(
                m,
                m.spec_mem_bytes(s.virtual_range.start, len),
                len,
                spec_sweep(m, upto - 1),
            );
        }
    }
}

/// Whether `v` already holds `x`.
pub fn vec_contains(v: &Vec<u64>, x: u64) -> (r: bool)
    ensures
        r == v@.contains(x),
{
    let mut i: usize = 0;
    while i < v.len()
        invariant
            i <= v@.len(),
            forall|j: int| 0 <= j < i ==> v@[j] != x,
        decreases v@.len() - i,
    {
        if v[i] == x {
            return true;
        }
        i += 1;
    }
    false
}

/// All structural filters, executed.
fn keeps(m: &Module, va: u64) -> (r: bool)
    requires
        m.wf(),
    ensures
        r == spec_keeps(*m, va),
{
    if va >= 3 {
        match m.address_space.read_bytes(va - 3, 3) {
            Ok(b3) => {
                let ok = b3[0] == 0xC2 || b3[2] == 0xCC || b3[2] == 0x90 || b3[2] == 0xC3
                    || b3[2] == 0xCB;
                if !ok {
                    return false;
                }
            },
            Err(_) => {},
        }
    }
    match m.read_va_at_va(va) {
        Ok(p) => {
            if m.probe_va(p, Permissions::read()) {
                proof {
                    assert(p == m.spec_pointer_at(va) as u64);
                }
                return false;
            }
        },
        Err(_) => {},
    }
    match m.address_space.read_ascii(va, 4) {
        Ok(s) => {
            proof {
                assert(m.address_space.ascii_run(va, 4));
            }
            return false;
        },
        Err(_) => {},
    }
    true
}

/// Sweep every section for non-relocated pointers into executable memory.
///
/// The result is deduplicated: each surviving address appears once, at its
/// first occurrence in scan order.
pub fn find_pe_nonrelocated_executable_pointers(pe: &PE) -> (r: Vec<u64>)
    requires
        pe.module.wf(),
    ensures
        r@ == spec_sweep(pe.module, pe.module.sections@.len() as int),
        r@.no_duplicates(),
{
    let m = &pe.module;
    let psize = m.arch.pointer_size();
    let min_addr = m.base_address;
    let max_addr = m.max_section_end();
    let mut r: Vec<u64> = Vec::new();
    let mut i: usize = 0;
    while i < m.sections.len()
        invariant
            pe.module.wf(),
            m == &pe.module,
            psize == m.arch.spec_pointer_size(),
            min_addr == m.base_address,
            max_addr == crate::module::spec_max_section_end(m.sections@),
            i <= m.sections@.len(),
            r@ == spec_sweep(pe.module, i as int),
        decreases m.sections@.len() - i,
    {
        let sec = &m.sections[i];
        let vstart = sec.virtual_range.start;
        let len64 = sec.virtual_range.len();
        if len64 <= usize::MAX as u64 {
            let len = len64 as usize;
            match m.address_space.read_bytes(vstart, len) {
                Ok(buf) => {
                    proof {
                        assert(buf@ =~= m.spec_mem_bytes(vstart, len as int));
                    }
                    let mut off: usize = 0;
                    while off < len
                        invariant
                            pe.module.wf(),
                            m == &pe.module,
                            psize == m.arch.spec_pointer_size(),
                            min_addr == m.base_address,
                            max_addr == crate::module::spec_max_section_end(m.sections@),
                            i < m.sections@.len(),
                            buf@.len() == len,
                            buf@ == m.spec_mem_bytes(vstart, len as int),
                            off <= len,
                            r@ == spec_sweep_offsets(
                                pe.module,
                                buf@,
                                off as int,
                                spec_sweep(pe.module, i as int),
                            ),
                        decreases len - off,
                    {
                        if len - off >= psize {
                            let v: u64 = match m.arch {
                                Arch::X32 => crate::le::read_u32(buf.as_slice(), off) as u64,
                                Arch::X64 => crate::le::read_u64(buf.as_slice(), off),
                            };
                            proof {
                                assert(v as int == spec_window_val(pe.module, buf@, off as int));
                            }
                            if v >= min_addr && v < max_addr && m.probe_va(
                                v,
                                Permissions::execute(),
                            ) && keeps(m, v) && !vec_contains(&r, v) {
                                r.push(v);
                            }
                        }
                        off += 1;
                    }
                    proof {
                        assert(spec_sweep(pe.module, i as int + 1) == spec_sweep_offsets(
                            pe.module,
                            buf@,
                            len as int,
                            spec_sweep(pe.module, i as int),
                        ));
                    }
                },
                Err(_) => {
                    proof {
                        assert(spec_sweep(pe.module, i as int + 1) == spec_sweep(
                            pe.module,
                            i as int,
                        ));
                    }
                },
            }
        } else {
            proof {
                assert(spec_sweep(pe.module, i as int + 1) == spec_sweep(pe.module, i as int));
            }
        }
        i += 1;
    }
    proof {
        lemma_sweep_no_dup(pe.module, pe.module.sections@.len() as int);
    }
    r
}

} // verus!
