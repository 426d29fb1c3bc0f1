//! Byte-signature matcher for function prologues.
//!
//! Every executable section is scanned for a curated catalogue of prologue
//! idioms. A hit counts only where a function boundary precedes it: either
//! an inter-function filler or return byte immediately before, or the very
//! start of the section. The catalogue is a deliberately small, enabled
//! subset of the known idioms — adding a pattern is an explicit opt-in —
//! and nothing is filtered here: downstream consumers validate candidates.

use vstd::prelude::*;

use crate::loader::PE;
use crate::module::Module;

verus! {

/// Some filler or boundary pattern ends at offset `i`: a trap byte
/// (`0xCC`, once or doubled), a no-op (`0x90`), a near return (`0xC3`),
/// or `leave; ret` (`0xC9 0xC3`).
pub open spec fn is_filler_end(b: Seq<u8>, i: int) -> bool {
    ||| (i >= 1 && (b[i - 1] == 0xCCu8 || b[i - 1] == 0x90u8 || b[i - 1] == 0xC3u8))
    ||| (i >= 2 && b[i - 2] == 0xCCu8 && b[i - 1] == 0xCCu8)
    ||| (i >= 2 && b[i - 2] == 0xC9u8 && b[i - 1] == 0xC3u8)
}

/// A prologue idiom starts at offset `i`: `push ebp; mov ebp, esp`
/// (`55 8B EC`) or its hot-patch-padded variant `mov edi, edi; push ebp;
/// mov ebp, esp` (`8B FF 55 8B EC`).
pub open spec fn is_prologue_at(b: Seq<u8>, i: int) -> bool {
    ||| (i + 3 <= b.len() && b[i] == 0x55u8 && b[i + 1] == 0x8Bu8 && b[i + 2] == 0xECu8)
    ||| (i + 5 <= b.len() && b[i] == 0x8Bu8 && b[i + 1] == 0xFFu8 && b[i + 2] == 0x55u8 && b[i
        + 3] == 0x8Bu8 && b[i + 4] == 0xECu8)
}

/// Offset `i` is reported: a prologue idiom, immediately preceded by a
/// filler/boundary pattern or standing at the start of the scanned bytes.
pub open spec fn is_candidate_at(b: Seq<u8>, i: int) -> bool {
    is_prologue_at(b, i) && (i == 0 || is_filler_end(b, i))
}

/// Candidate virtual addresses among the first `n` offsets of a section
/// whose bytes are `b` and whose first byte sits at `vstart`, in ascending
/// order.
pub open spec fn spec_section_candidates(b: Seq<u8>, vstart: u64, n: int) -> Seq<u64>
    decreases n,
{
    if n <= 0 {
        Seq::empty()
    } else {
        let p = spec_section_candidates(b, vstart, n - 1);
        if is_candidate_at(b, n - 1) && vstart + n - 1 <= u64::MAX {
            p.push((vstart + n - 1) as u64)
        } else {
            p
        }
    }
}

/// What one section contributes: its candidates when it is executable and
/// its whole virtual range is readable, nothing otherwise.
pub open spec fn spec_section_contribution(m: Module, i: int) -> Seq<u64> {
    let s = m.sections@[i];
    let len = s.virtual_range.spec_len();
    if s.permissions.x && len <= usize::MAX && m.address_space.span_mapped(
        s.virtual_range.start,
        len,
    ) {
        spec_section_candidates(
            m.spec_mem_bytes(s.virtual_range.start, len),
            s.virtual_range.start,
            len,
        )
    } else {
        Seq::empty()
    }
}

/// Candidates of the first `upto` sections, concatenated in section order.
pub open spec fn spec_prologues(m: Module, upto: int) -> Seq<u64>
    decreases upto,
{
    if upto <= 0 {
        Seq::empty()
    } else {
        spec_prologues(m, upto - 1) + spec_section_contribution(m, upto - 1)
    }
}

/// Whether offset `i` of `buf` is a reported prologue candidate.
fn is_candidate(buf: &Vec<u8>, i: usize) -> (r: bool)
    requires
        i < buf.len(),
    ensures
        r == is_candidate_at(buf@, i as int),
{
    let n = buf.len();
    let prologue = (n - i >= 3 && buf[i] == 0x55 && buf[i + 1] == 0x8B && buf[i + 2] == 0xEC) || (n
        - i >= 5 && buf[i] == 0x8B && buf[i + 1] == 0xFF && buf[i + 2] == 0x55 && buf[i + 3] == 0x8B
        && buf[i + 4] == 0xEC);
    if !prologue {
        return false;
    }
    if i == 0 {
        return true;
    }
    let single = buf[i - 1] == 0xCC || buf[i - 1] == 0x90 || buf[i - 1] == 0xC3;
    let double = i >= 2 && ((buf[i - 2] == 0xCC && buf[i - 1] == 0xCC) || (buf[i - 2] == 0xC9
        && buf[i - 1] == 0xC3));
    single || double
}

/// Scan every executable section for the prologue catalogue and report the
/// virtual address of each hit, in section order and ascending within a
/// section.
///
/// A section whose bytes cannot be read contributes nothing, in line with
/// the crate's policy that a failed read disqualifies a region rather than
/// aborting the analysis.
pub fn find_function_prologues(pe: &PE) -> (r: Vec<u64>)
    requires
        pe.module.wf(),
    ensures
        r@ == spec_prologues(pe.module, pe.module.sections@.len() as int),
{
    let m = &pe.module;
    let mut r: Vec<u64> = Vec::new();
    let mut i: usize = 0;
    while i < m.sections.len()
        invariant
            pe.module.wf(),
            m == &pe.module,
            i <= m.sections@.len(),
            r@ == spec_prologues(pe.module, i as int),
        decreases m.sections@.len() - i,
    {
        let sec = &m.sections[i];
        let vstart = sec.virtual_range.start;
        let len64 = sec.virtual_range.len();
        if sec.permissions.x && len64 <= usize::MAX as u64 {
            let len = len64 as usize;
            match m.address_space.read_bytes(vstart, len) {
                Ok(buf) => {
                    proof {
                        assert(buf@ =~= m.spec_mem_bytes(vstart, len as int));
                    }
                    let mut j: usize = 0;
                    while j < len
                        invariant
                            pe.module.wf(),
                            m == &pe.module,
                            i < m.sections@.len(),
                            sec == &m.sections@[i as int],
                            vstart == sec.virtual_range.start,
                            len == sec.virtual_range.spec_len(),
                            buf@.len() == len,
                            buf@ == m.spec_mem_bytes(vstart, len as int),
                            m.address_space.span_mapped(vstart, len as int),
                            sec.permissions.x,
                            j <= len,
                            r@ == spec_prologues(pe.module, i as int)
                                + spec_section_candidates(buf@, vstart, j as int),
                        decreases len - j,
                    {
                        if is_candidate(&buf, j) {
                            proof {
                                assert(vstart + j < sec.virtual_range.end);
                            }
                            r.push(vstart + j as u64);
                        }
                        j += 1;
                    }
                    proof {
                        assert(spec_section_contribution(pe.module, i as int)
                            == spec_section_candidates(buf@, vstart, len as int));
                    }
                },
                Err(_) => {
                    proof {
                        assert(spec_section_contribution(pe.module, i as int) == Seq::<
                            u64,
                        >::empty());
                        assert(r@ =~= spec_prologues(pe.module, i as int)
                            + spec_section_contribution(pe.module, i as int));
                    }
                },
            }
        } else {
            proof {
                assert(spec_section_contribution(pe.module, i as int) == Seq::<u64>::empty());
                assert(r@ =~= spec_prologues(pe.module, i as int) + spec_section_contribution(
                    pe.module,
                    i as int,
                ));
            }
        }
        i += 1;
    }
    r
}

} // verus!
