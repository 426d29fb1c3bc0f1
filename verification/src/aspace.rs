//! Sparse, page-granular virtual address space.
//!
//! The space maps page-aligned regions of bytes at relative virtual
//! addresses (RVAs) above a fixed base address. It is filled once by the
//! loader through [`AddressSpace::mapzx`] and read-only afterwards; reads
//! outside every mapped page fail with [`Error::AddressNotMapped`] rather
//! than returning garbage.

use vstd::prelude::*;

use std::collections::HashMap;

use crate::Error;

verus! {

use vstd::arithmetic::div_mod::{
    lemma_fundamental_div_mod,
    lemma_fundamental_div_mod_converse,
    lemma_div_is_ordered,
};

broadcast use vstd::std_specs::hash::group_hash_axioms;

/// Bytes in one page of the address space, and the unit section virtual
/// sizes are aligned to.
pub const PAGE_SIZE: u64 = 0x200;

/// A byte is printable ASCII: space through tilde.
pub open spec fn is_printable(b: u8) -> bool {
    0x20 <= b <= 0x7e
}

/// Largest multiple of the page size that is at most `x`.
pub open spec fn page_floor(x: int) -> int {
    x - x % (PAGE_SIZE as int)
}

/// Smallest multiple of the page size that is at least `x`.
pub open spec fn page_ceil(x: int) -> int {
    page_floor(x + PAGE_SIZE - 1)
}

/// The byte a freshly mapped page holds at page-relative offset `j`:
/// the source byte where the page overlaps `[rva, rva + buf.len())`,
/// zero elsewhere in the page.
pub open spec fn page_byte(rva: u64, buf: Seq<u8>, pidx: u64, j: int) -> u8 {
    let a = pidx * PAGE_SIZE + j;
    if rva <= a < rva + buf.len() {
        buf[a - rva]
    } else {
        0
    }
}

pub struct AddressSpace {
    base_address: u64,
    /// one past the highest RVA this space may ever map; multiple of the
    /// page size
    capacity_end: u64,
    /// page index (RVA divided by the page size) to page content
    pages: HashMap<u64, Vec<u8>>,
}

impl AddressSpace {
    /// The lowest address of the space (the module's image base).
    pub closed spec fn spec_base(self) -> u64 {
        self.base_address
    }

    /// One past the highest RVA the space may map.
    pub closed spec fn spec_capacity(self) -> u64 {
        self.capacity_end
    }

    pub closed spec fn wf(self) -> bool {
        &&& self.capacity_end % PAGE_SIZE == 0
        &&& self.base_address + self.capacity_end <= u64::MAX as int + 1
        &&& forall|k: u64|
            #[trigger] self.pages@.dom().contains(k) ==> k < self.capacity_end / PAGE_SIZE
                && self.pages@[k]@.len() == PAGE_SIZE
    }

    spec fn pidx_of(self, va: u64) -> u64 {
        ((va - self.base_address) as u64) / PAGE_SIZE
    }

    spec fn poff_of(self, va: u64) -> u64 {
        ((va - self.base_address) as u64) % PAGE_SIZE
    }

    /// The mapped bytes: a partial map from virtual address to content.
    pub closed spec fn mem(self) -> Map<u64, u8> {
        Map::new(
            |va: u64| va >= self.base_address && self.pages@.dom().contains(self.pidx_of(va)),
            |va: u64| self.pages@[self.pidx_of(va)]@[self.poff_of(va) as int],
        )
    }

    pub open spec fn is_mapped(self, va: u64) -> bool {
        self.mem().dom().contains(va)
    }

    /// Addresses `va, va + 1, .., va + n - 1` all exist and are mapped.
    pub open spec fn span_mapped(self, va: u64, n: int) -> bool {
        &&& va + n <= u64::MAX as int + 1
        &&& forall|a: u64| va <= a < va + n ==> #[trigger] self.is_mapped(a)
    }

    /// An empty space able to map RVAs below `size` over base `base`.
    pub fn with_capacity(base: u64, size: u64) -> (r: AddressSpace)
        requires
            size % PAGE_SIZE == 0,
            base + size <= u64::MAX as int + 1,
        ensures
            r.wf(),
            r.spec_base() == base,
            r.spec_capacity() == size,
            r.mem() == Map::<u64, u8>::empty(),
    {
        let r = AddressSpace { base_address: base, capacity_end: size, pages: HashMap::new() };
        proof {
            assert(r.mem() =~= Map::<u64, u8>::empty());
        }
        r
    }

    /// The space's base address.
    pub fn base_address(&self) -> (r: u64)
        ensures
            r == self.spec_base(),
    {
        self.base_address
    }

    /// The byte mapped at `va`, if any.
    pub fn byte_at(&self, va: u64) -> (r: Option<u8>)
        requires
            self.wf(),
        ensures
            match r {
                Some(b) => self.is_mapped(va) && self.mem()[va] == b,
                None => !self.is_mapped(va),
            },
    {
        if va < self.base_address {
            return None;
        }
        let rva = va - self.base_address;
        let pidx = rva / PAGE_SIZE;
        let poff = rva % PAGE_SIZE;
        match self.pages.get(&pidx) {
            Some(page) => Some(page[poff as usize]),
            None => None,
        }
    }

    /// Whether `va` is mapped; never fails.
    pub fn probe(&self, va: u64) -> (r: bool)
        requires
            self.wf(),
        ensures
            r == self.is_mapped(va),
    {
        self.byte_at(va).is_some()
    }

    /// Read `n` bytes starting at `va`.
    ///
    /// Succeeds exactly when the whole span is mapped; the result is the
    /// mapped content, byte for byte.
    pub fn read_bytes(&self, va: u64, n: usize) -> (r: Result<Vec<u8>, Error>)
        requires
            self.wf(),
        ensures
            match r {
                Ok(v) => {
                    &&& self.span_mapped(va, n as int)
                    &&& v@.len() == n
                    &&& forall|i: int| 0 <= i < n ==> v@[i] == self.mem()[(va + i) as u64]
                },
                Err(e) => e == Error::AddressNotMapped && !self.span_mapped(va, n as int),
            },
    {
        let mut v: Vec<u8> = Vec::new();
        let mut i: usize = 0;
        while i < n
            invariant
                self.wf(),
                i <= n,
                v@.len() == i,
                va + i <= u64::MAX as int + 1,
                forall|a: u64| va <= a < va + i ==> #[trigger] self.is_mapped(a),
                forall|j: int| 0 <= j < i ==> #[trigger] v@[j] == self.mem()[(va + j) as u64],
            decreases n - i,
        {
            if u64::MAX - va < i as u64 {
                return Err(Error::AddressNotMapped);
            }
            let a = va + i as u64;
            match self.byte_at(a) {
                Some(b) => {
                    v.push(b);
                    proof {
                        let gi = i as int;
                        assert(v@[gi] == self.mem()[(va + gi) as u64]);
                    }
                },
                None => {
                    return Err(Error::AddressNotMapped);
                },
            }
            i += 1;
        }
        Ok(v)
    }

    /// Fill `buf` from the bytes starting at `va`.
    ///
    /// Succeeds exactly when `buf.len()` bytes are mapped there; on failure
    /// `buf` is left unchanged.
    pub fn read_into(&self, va: u64, buf: &mut Vec<u8>) -> (r: Result<(), Error>)
        requires
            self.wf(),
        ensures
            match r {
                Ok(_) => {
                    &&& self.span_mapped(va, old(buf)@.len() as int)
                    &&& final(buf)@.len() == old(buf)@.len()
                    &&& forall|i: int|
                        0 <= i < old(buf)@.len() ==> final(buf)@[i] == self.mem()[(va + i) as u64]
                },
                Err(e) => {
                    &&& e == Error::AddressNotMapped
                    &&& !self.span_mapped(va, old(buf)@.len() as int)
                    &&& *final(buf) == *old(buf)
                },
            },
    {
        match self.read_bytes(va, buf.len()) {
            Ok(v) => {
                *buf = v;
                Ok(())
            },
            Err(e) => Err(e),
        }
    }

    /// Addresses `va, va + 1, .., va + n - 1` all exist, are mapped, and
    /// hold printable ASCII bytes.
    pub open spec fn ascii_run(self, va: u64, n: int) -> bool {
        &&& va + n <= u64::MAX as int + 1
        &&& forall|a: u64|
            va <= a < va + n ==> #[trigger] self.is_mapped(a) && is_printable(self.mem()[a])
    }

    /// The maximal printable-ASCII run starting at `va`, if it has at least
    /// `min` bytes; it stops at the first NUL or other unprintable byte and
    /// at the edge of mapped memory.
    pub fn read_ascii(&self, va: u64, min: usize) -> (r: Result<String, Error>)
        requires
            self.wf(),
        ensures
            match r {
                Ok(s) => {
                    &&& s@.len() >= min
                    &&& self.ascii_run(va, s@.len() as int)
                    &&& s@.len() < usize::MAX ==> !self.ascii_run(va, s@.len() as int + 1)
                    &&& forall|i: int|
                        0 <= i < s@.len() ==> #[trigger] s@[i] == self.mem()[(va + i) as u64] as char
                },
                Err(e) => {
                    &&& !self.ascii_run(va, min as int)
                    &&& (e == Error::AddressNotMapped <==> (min > 0 && !self.is_mapped(va)))
                    &&& (e == Error::NotAscii <==> !(min > 0 && !self.is_mapped(va)))
                },
            },
    {
        let mut bytes: Vec<u8> = Vec::new();
        let mut count: usize = 0;
        loop
            invariant
                self.wf(),
                bytes@.len() == count,
                va + count <= u64::MAX as int + 1,
                self.ascii_run(va, count as int),
                forall|j: int| 0 <= j < count ==> #[trigger] bytes@[j] == self.mem()[(va + j) as u64],
                forall|j: int| 0 <= j < count ==> is_printable(#[trigger] bytes@[j]),
            ensures
                count < usize::MAX ==> !self.ascii_run(va, count as int + 1),
            decreases u64::MAX as int - count,
        {
            if u64::MAX - va < count as u64 {
                break ;
            }
            if count == usize::MAX {
                break ;
            }
            let a = va + count as u64;
            match self.byte_at(a) {
                Some(b) => {
                    if b >= 0x20 && b <= 0x7e {
                        bytes.push(b);
                        count += 1;
                        proof {
                            let gi = count as int - 1;
                            assert(bytes@[gi] == self.mem()[(va + gi) as u64]);
                            lemma_ascii_run_extend(*self, va, gi, a);
                        }
                    } else {
                        break ;
                    }
                },
                None => {
                    break ;
                },
            }
        }
        if count >= min {
            Ok(string_of_printable_bytes(bytes))
        } else if min > 0 && !self.probe(va) {
            proof {
                lemma_ascii_run_shrink(*self, va, min as int, count as int + 1);
            }
            Err(Error::AddressNotMapped)
        } else {
            proof {
                lemma_ascii_run_shrink(*self, va, min as int, count as int + 1);
                if count > 0 {
                    assert(self.is_mapped(va));
                }
            }
            Err(Error::NotAscii)
        }
    }

    /// Addresses `va .. va + 2n` hold `n` UTF-16LE units of printable
    /// ASCII: a printable low byte followed by a zero high byte each.
    pub open spec fn utf16_run(self, va: u64, n: int) -> bool {
        &&& va + 2 * n <= u64::MAX as int + 1
        &&& forall|k: int|
            0 <= k < n ==> #[trigger] self.is_mapped((va + 2 * k) as u64) && self.is_mapped(
                (va + 2 * k + 1) as u64,
            ) && is_printable(self.mem()[(va + 2 * k) as u64]) && self.mem()[(va + 2 * k
                + 1) as u64] == 0u8
    }

    /// The maximal run of printable-ASCII UTF-16LE units starting at `va`,
    /// if it has at least `min` units; it stops at the first unit that is
    /// NUL, unprintable, or beyond mapped memory.
    pub fn read_utf16(&self, va: u64, min: usize) -> (r: Result<String, Error>)
        requires
            self.wf(),
        ensures
            match r {
                Ok(s) => {
                    &&& s@.len() >= min
                    &&& self.utf16_run(va, s@.len() as int)
                    &&& s@.len() < usize::MAX ==> !self.utf16_run(va, s@.len() as int + 1)
                    &&& forall|k: int|
                        0 <= k < s@.len() ==> #[trigger] s@[k] == self.mem()[(va + 2 * k) as u64] as char
                },
                Err(e) => {
                    &&& !self.utf16_run(va, min as int)
                    &&& (e == Error::AddressNotMapped <==> (min > 0 && !self.is_mapped(va)))
                    &&& (e == Error::NotAscii <==> !(min > 0 && !self.is_mapped(va)))
                },
            },
    {
        let mut bytes: Vec<u8> = Vec::new();
        let mut count: usize = 0;
        loop
            invariant
                self.wf(),
                bytes@.len() == count,
                va + 2 * count <= u64::MAX as int + 1,
                self.utf16_run(va, count as int),
                forall|k: int|
                    0 <= k < count ==> #[trigger] bytes@[k] == self.mem()[(va + 2 * k) as u64],
                forall|k: int| 0 <= k < count ==> is_printable(#[trigger] bytes@[k]),
            ensures
                count < usize::MAX ==> !self.utf16_run(va, count as int + 1),
            decreases u64::MAX as int - count,
        {
            if count as u64 > (u64::MAX - 1) / 2 || u64::MAX - va < 2 * count as u64 + 1 {
                break ;
            }
            if count == usize::MAX {
                break ;
            }
            let lo_at = va + 2 * count as u64;
            let lo = match self.byte_at(lo_at) {
                Some(b) => b,
                None => {
                    break ;
                },
            };
            let hi = match self.byte_at(lo_at + 1) {
                Some(b) => b,
                None => {
                    break ;
                },
            };
            if lo >= 0x20 && lo <= 0x7e && hi == 0 {
                bytes.push(lo);
                count += 1;
                proof {
                    let gk = count as int - 1;
                    assert(bytes@[gk] == self.mem()[(va + 2 * gk) as u64]);
                    assert forall|k: int|
                        0 <= k < count implies #[trigger] self.is_mapped((va + 2 * k) as u64)
                        && self.is_mapped((va + 2 * k + 1) as u64) && is_printable(
                        self.mem()[(va + 2 * k) as u64],
                    ) && self.mem()[(va + 2 * k + 1) as u64] == 0u8 by {
                        if k < gk {
                            assert(self.utf16_run(va, count as int - 1));
                        } else {
                            assert((va + 2 * k) as u64 == lo_at);
                            assert((va + 2 * k + 1) as u64 == lo_at + 1);
                        }
                    }
                }
            } else {
                break ;
            }
        }
        if count >= min {
            Ok(string_of_printable_bytes(bytes))
        } else if min > 0 && !self.probe(va) {
            proof {
                lemma_utf16_run_shrink(*self, va, min as int, count as int + 1);
            }
            Err(Error::AddressNotMapped)
        } else {
            proof {
                lemma_utf16_run_shrink(*self, va, min as int, count as int + 1);
                if count > 0 {
                    assert(self.is_mapped((va + 2 * 0) as u64));
                }
            }
            Err(Error::NotAscii)
        }
    }

    /// Map `buf` at `rva`, zero-extending the partially covered head of the
    /// first touched page and tail of the last.
    ///
    /// Fails, leaving the space unchanged, on a zero-length region and on a
    /// region that exceeds the space's capacity; a write is never silently
    /// truncated.
    pub fn mapzx(&mut self, rva: u64, buf: &[u8]) -> (r: Result<(), Error>)
        requires
            old(self).wf(),
        ensures
            final(self).wf(),
            final(self).spec_base() == old(self).spec_base(),
            final(self).spec_capacity() == old(self).spec_capacity(),
            match r {
                Ok(_) => {
                    &&& buf@.len() > 0
                    &&& rva + buf@.len() <= old(self).spec_capacity()
                    &&& forall|va: u64|
                        old(self).spec_base() + page_floor(rva as int) <= va
                            && va < old(self).spec_base() + page_ceil(rva + buf@.len()) ==> {
                            &&& #[trigger] final(self).is_mapped(va)
                            &&& final(self).mem()[va] == (if rva <= va - old(self).spec_base()
                                < rva + buf@.len() {
                                buf@[va - old(self).spec_base() - rva]
                            } else {
                                0u8
                            })
                        }
                    &&& forall|va: u64|
                        !(old(self).spec_base() + page_floor(rva as int) <= va
                            && va < old(self).spec_base() + page_ceil(rva + buf@.len())) ==> {
                            &&& (#[trigger] final(self).is_mapped(va)) == old(self).is_mapped(va)
                            &&& (old(self).is_mapped(va) ==> final(self).mem()[va] == old(
                                self,
                            ).mem()[va])
                        }
                },
                Err(e) => {
                    &&& e == Error::MalformedFile
                    &&& *final(self) == *old(self)
                    &&& !(buf@.len() > 0 && rva + buf@.len() <= old(self).spec_capacity())
                },
            },
    {
        if buf.len() == 0 {
            return Err(Error::MalformedFile);
        }
        let len = buf.len() as u64;
        let end = match rva.checked_add(len) {
            Some(e) => e,
            None => {
                proof {
                    assert(rva + buf@.len() > old(self).spec_capacity());
                }
                return Err(Error::MalformedFile);
            },
        };
        if end > self.capacity_end {
            return Err(Error::MalformedFile);
        }
        let p0 = rva / PAGE_SIZE;
        let p1 = end / PAGE_SIZE + (if end % PAGE_SIZE != 0 {
            1u64
        } else {
            0u64
        });
        proof {
            let d = PAGE_SIZE as int;
            lemma_fundamental_div_mod(rva as int, d);
            lemma_fundamental_div_mod(end as int, d);
            lemma_fundamental_div_mod(self.capacity_end as int, d);
            lemma_div_is_ordered(end as int, self.capacity_end as int, d);
            // p1 * PAGE_SIZE is page_ceil(end) and stays within capacity
            if end % PAGE_SIZE != 0 {
                assert(end / PAGE_SIZE < self.capacity_end / PAGE_SIZE) by {
                    if end / PAGE_SIZE == self.capacity_end / PAGE_SIZE {
                        assert(end as int == (end as int / d) * d + end as int % d);
                        assert(false);
                    }
                };
                lemma_fundamental_div_mod_converse(
                    end as int + d - (end as int % d),
                    d,
                    end as int / d + 1,
                    0,
                );
            }
            assert(p1 as int * d == page_ceil(rva + buf@.len()));
            assert(p1 <= self.capacity_end / PAGE_SIZE);
            assert(p0 as int * d == page_floor(rva as int));
            assert((self.capacity_end / PAGE_SIZE) as int * d == self.capacity_end as int);
        }
        let ghost old_self = *self;
        let mut pidx = p0;
        while pidx < p1
            invariant
                old_self.wf(),
                self.base_address == old_self.base_address,
                self.capacity_end == old_self.capacity_end,
                p0 <= pidx <= p1,
                p1 <= self.capacity_end / PAGE_SIZE,
                p1 as int * PAGE_SIZE == page_ceil(rva + buf@.len()),
                p0 as int * PAGE_SIZE == page_floor(rva as int),
                (self.capacity_end / PAGE_SIZE) as int * PAGE_SIZE == self.capacity_end as int,
                rva + buf@.len() <= self.capacity_end,
                buf@.len() == len,
                forall|k: u64|
                    #[trigger] self.pages@.dom().contains(k) <==> (old_self.pages@.dom().contains(
                        k,
                    ) || (p0 <= k < pidx)),
                forall|k: u64|
                    p0 <= k < pidx ==> (#[trigger] self.pages@[k]@.len() == PAGE_SIZE && forall|
                        j: int,
                    |
                        0 <= j < PAGE_SIZE ==> self.pages@[k]@[j] == page_byte(rva, buf@, k, j)),
                forall|k: u64|
                    !(p0 <= k < pidx) && old_self.pages@.dom().contains(k)
                        ==> #[trigger] self.pages@[k] == old_self.pages@[k],
                self.wf(),
            decreases p1 - pidx,
        {
            proof {
                assert(pidx as int * PAGE_SIZE + PAGE_SIZE <= p1 as int * PAGE_SIZE) by (
                nonlinear_arith)
                    requires
                        pidx < p1,
                        PAGE_SIZE > 0,
                ;
            }
            let page = build_page(rva, buf, pidx);
            let ghost page_view = page@;
            self.pages.insert(pidx, page);
            proof {
                assert(self.pages@[pidx]@ == page_view);
                assert forall|j: int| 0 <= j < PAGE_SIZE implies self.pages@[pidx]@[j]
                    == page_byte(rva, buf@, pidx, j) by {
                    assert(page_view[j] == page_byte(rva, buf@, pidx, j));
                }
            }
            pidx += 1;
        }
        proof {
            lemma_region_mem(old_self, *self, rva, buf@, p0, p1);
        }
        Ok(())
    }
}

/// Content of page `pidx` after mapping `buf` at `rva`: the covered bytes
/// from the source, zero elsewhere.
fn build_page(rva: u64, buf: &[u8], pidx: u64) -> (page: Vec<u8>)
    requires
        pidx as int * PAGE_SIZE + PAGE_SIZE <= u64::MAX as int + 1,
        rva + buf@.len() <= u64::MAX as int + 1,
    ensures
        page@.len() == PAGE_SIZE,
        forall|j: int| 0 <= j < PAGE_SIZE ==> page@[j] == page_byte(rva, buf@, pidx, j),
{
    let mut page: Vec<u8> = Vec::new();
    let mut j: usize = 0;
    let pstart = pidx * PAGE_SIZE;
    while j < PAGE_SIZE as usize
        invariant
            pstart == pidx * PAGE_SIZE,
            pstart as int + PAGE_SIZE <= u64::MAX as int + 1,
            rva + buf@.len() <= u64::MAX as int + 1,
            j <= PAGE_SIZE,
            page@.len() == j,
            forall|t: int| 0 <= t < j ==> page@[t] == page_byte(rva, buf@, pidx, t),
        decreases PAGE_SIZE as int - j,
    {
        let a = pstart + j as u64;
        let b: u8 = if a >= rva && (a - rva) < buf.len() as u64 {
            buf[(a - rva) as usize]
        } else {
            0
        };
        page.push(b);
        j += 1;
    }
    page
}

/// After the map loop rewrote pages `p0..p1`, the memory view over the
/// region follows the page contents, and everything else is untouched.
proof fn lemma_region_mem(
    old_s: AddressSpace,
    new_s: AddressSpace,
    rva: u64,
    buf: Seq<u8>,
    p0: u64,
    p1: u64,
)
    requires
        old_s.wf(),
        new_s.wf(),
        new_s.spec_base() == old_s.spec_base(),
        new_s.spec_capacity() == old_s.spec_capacity(),
        buf.len() > 0,
        rva + buf.len() <= old_s.spec_capacity(),
        p0 as int * PAGE_SIZE == page_floor(rva as int),
        p1 as int * PAGE_SIZE == page_ceil(rva + buf.len()),
        forall|k: u64|
            #[trigger] new_s.pages@.dom().contains(k) <==> (old_s.pages@.dom().contains(k) || (p0
                <= k < p1)),
        forall|k: u64|
            p0 <= k < p1 ==> (#[trigger] new_s.pages@[k]@.len() == PAGE_SIZE && forall|j: int|
                0 <= j < PAGE_SIZE ==> new_s.pages@[k]@[j] == page_byte(rva, buf, k, j)),
        forall|k: u64|
            !(p0 <= k < p1) && old_s.pages@.dom().contains(k) ==> #[trigger] new_s.pages@[k]
                == old_s.pages@[k],
    ensures
        forall|va: u64|
            old_s.spec_base() + page_floor(rva as int) <= va && va < old_s.spec_base() + page_ceil(
                rva + buf.len(),
            ) ==> {
                &&& #[trigger] new_s.is_mapped(va)
                &&& new_s.mem()[va] == (if rva <= va - old_s.spec_base() < rva + buf.len() {
                    buf[va - old_s.spec_base() - rva]
                } else {
                    0u8
                })
            },
        forall|va: u64|
            !(old_s.spec_base() + page_floor(rva as int) <= va && va < old_s.spec_base()
                + page_ceil(rva + buf.len())) ==> {
                &&& (#[trigger] new_s.is_mapped(va)) == old_s.is_mapped(va)
                &&& (old_s.is_mapped(va) ==> new_s.mem()[va] == old_s.mem()[va])
            },
{
    let d = PAGE_SIZE as int;
    let base = old_s.spec_base() as int;
    let lo = page_floor(rva as int);
    let hi = page_ceil(rva + buf.len());
    lemma_fundamental_div_mod(rva as int, d);
    lemma_fundamental_div_mod(rva + buf.len() + d - 1, d);
    assert(lo <= rva as int);
    assert(rva + buf.len() <= hi) by {
        lemma_page_bounds(rva + buf.len());
    };
    assert forall|va: u64| base + lo <= va && va < base + hi implies {
        &&& #[trigger] new_s.is_mapped(va)
        &&& new_s.mem()[va] == (if rva <= va - base < rva + buf.len() {
            buf[va - base - rva]
        } else {
            0u8
        })
    } by {
        let x = va - base;
        lemma_page_split(x, lo, hi);
        let k = ((va - new_s.spec_base()) as u64) / PAGE_SIZE;
        let off = ((va - new_s.spec_base()) as u64) % PAGE_SIZE;
        assert(p0 <= k < p1) by {
            assert(lo / d == p0 as int && hi / d == p1 as int) by {
                lemma_mul_div_exact(p0 as int, d);
                lemma_mul_div_exact(p1 as int, d);
            };
        };
        assert(new_s.pages@.dom().contains(k));
        assert(new_s.is_mapped(va));
        assert(new_s.pages@[k]@[off as int] == page_byte(rva, buf, k, off as int));
        assert(k as int * d + off == x);
    };
    assert forall|va: u64|
        !(base + lo <= va && va < base + hi) implies {
        &&& (#[trigger] new_s.is_mapped(va)) == old_s.is_mapped(va)
        &&& (old_s.is_mapped(va) ==> new_s.mem()[va] == old_s.mem()[va])
    } by {
        if va >= base {
            let x = va - base;
            let k = ((va - new_s.spec_base()) as u64) / PAGE_SIZE;
            assert(!(p0 <= k < p1)) by {
                lemma_page_outside(x, lo, hi);
                lemma_mul_div_exact(p0 as int, d);
                lemma_mul_div_exact(p1 as int, d);
            };
        }
    };
}

/// A printable mapped byte right after a run extends the run by one.
proof fn lemma_ascii_run_extend(s: AddressSpace, va: u64, n: int, a: u64)
    requires
        n >= 0,
        s.ascii_run(va, n),
        a == va + n,
        va + n + 1 <= u64::MAX as int + 1,
        s.is_mapped(a),
        is_printable(s.mem()[a]),
    ensures
        s.ascii_run(va, n + 1),
{
    assert forall|x: u64| va <= x < va + n + 1 implies #[trigger] s.is_mapped(x) && is_printable(
        s.mem()[x],
    ) by {
        if x != a {
            assert(va <= x < va + n);
        }
    }
}

/// A unit-run requirement only gets harder as it grows.
proof fn lemma_utf16_run_shrink(s: AddressSpace, va: u64, m: int, k: int)
    requires
        k <= m,
        !s.utf16_run(va, k),
    ensures
        !s.utf16_run(va, m),
{
    if s.utf16_run(va, m) {
        assert forall|j: int|
            0 <= j < k implies #[trigger] s.is_mapped((va + 2 * j) as u64) && s.is_mapped(
            (va + 2 * j + 1) as u64,
        ) && is_printable(s.mem()[(va + 2 * j) as u64]) && s.mem()[(va + 2 * j + 1) as u64]
            == 0u8 by {}
        assert(s.utf16_run(va, k));
    }
}

/// A run requirement only gets harder as it grows.
proof fn lemma_ascii_run_shrink(s: AddressSpace, va: u64, m: int, k: int)
    requires
        k <= m,
        !s.ascii_run(va, k),
    ensures
        !s.ascii_run(va, m),
{
    if s.ascii_run(va, m) {
        assert(s.ascii_run(va, k));
    }
}

/// Relies on String::from_utf8: printable ASCII bytes are one-byte UTF-8
/// code points and decode to the chars with the same values.
#[verifier::external_body]
fn string_of_printable_bytes(bytes: Vec<u8>) -> (r: String)
    requires
        forall|i: int| 0 <= i < bytes@.len() ==> is_printable(#[trigger] bytes@[i]),
    ensures
        r@ == bytes@.map_values(|b: u8| b as char),
{
    String::from_utf8(bytes).unwrap_or_default()
}

/// `x` is between its page floor and its page ceiling.
pub proof fn lemma_page_bounds(x: int)
    requires
        x >= 0,
    ensures
        page_floor(x) <= x <= page_ceil(x),
        page_floor(x) % (PAGE_SIZE as int) == 0,
        page_ceil(x) % (PAGE_SIZE as int) == 0,
{
    let d = PAGE_SIZE as int;
    lemma_fundamental_div_mod(x, d);
    lemma_fundamental_div_mod(x + d - 1, d);
    lemma_mod_sub_self(x);
    lemma_mod_sub_self(x + d - 1);
}

/// Subtracting a value's remainder leaves a multiple of the page size.
proof fn lemma_mod_sub_self(x: int)
    requires
        x >= 0,
    ensures
        (x - x % (PAGE_SIZE as int)) % (PAGE_SIZE as int) == 0,
        (x - x % (PAGE_SIZE as int)) / (PAGE_SIZE as int) == x / (PAGE_SIZE as int),
{
    let d = PAGE_SIZE as int;
    lemma_fundamental_div_mod(x, d);
    lemma_fundamental_div_mod_converse(x - x % d, d, x / d, 0);
}

/// A multiple of the page size divides back to its factor.
proof fn lemma_mul_div_exact(q: int, d: int)
    requires
        d > 0,
        q >= 0,
    ensures
        (q * d) / d == q,
        (q * d) % d == 0,
{
    assert(q * d == q * d + 0);
    lemma_fundamental_div_mod_converse(q * d, d, q, 0);
}

/// Splitting an offset inside an aligned region into page index and page
/// offset keeps the index inside the region's page range.
proof fn lemma_page_split(x: int, lo: int, hi: int)
    requires
        0 <= lo <= x < hi,
        lo % (PAGE_SIZE as int) == 0,
        hi % (PAGE_SIZE as int) == 0,
    ensures
        lo / (PAGE_SIZE as int) <= x / (PAGE_SIZE as int) < hi / (PAGE_SIZE as int),
        x == (x / (PAGE_SIZE as int)) * (PAGE_SIZE as int) + x % (PAGE_SIZE as int),
        0 <= x % (PAGE_SIZE as int) < (PAGE_SIZE as int),
{
    let d = PAGE_SIZE as int;
    lemma_fundamental_div_mod(x, d);
    lemma_fundamental_div_mod(lo, d);
    lemma_fundamental_div_mod(hi, d);
    lemma_div_is_ordered(lo, x, d);
    if x / d >= hi / d {
        assert((x / d) * d >= (hi / d) * d) by (nonlinear_arith)
            requires
                x / d >= hi / d,
                d > 0,
        ;
        assert(false);
    }
}

/// An offset outside an aligned region has its page index outside the
/// region's page range.
proof fn lemma_page_outside(x: int, lo: int, hi: int)
    requires
        0 <= x,
        0 <= lo < hi,
        lo % (PAGE_SIZE as int) == 0,
        hi % (PAGE_SIZE as int) == 0,
        x < lo || x >= hi,
    ensures
        x / (PAGE_SIZE as int) < lo / (PAGE_SIZE as int) || x / (PAGE_SIZE as int) >= hi / (
        PAGE_SIZE as int),
{
    let d = PAGE_SIZE as int;
    lemma_fundamental_div_mod(x, d);
    lemma_fundamental_div_mod(lo, d);
    lemma_fundamental_div_mod(hi, d);
    if x < lo {
        if x / d >= lo / d {
            assert((x / d) * d >= (lo / d) * d) by (nonlinear_arith)
                requires
                    x / d >= lo / d,
                    d > 0,
            ;
            assert(false);
        }
    } else {
        lemma_div_is_ordered(hi, x, d);
    }
}

} // verus!
