//! Recovery of function start addresses from Windows PE executables.
//!
//! The crate loads raw PE bytes into a sparse virtual-address-space model,
//! then runs a pipeline of analyzers (entry point, exports, metadata tables,
//! byte signatures, pointer sweep, orphan search) that each contribute
//! candidate function addresses.

use vstd::prelude::*;

pub mod analysis;
pub mod aspace;
pub mod cfg;
pub mod le;
pub mod loader;
pub mod module;
pub mod patterns;
pub mod pointers;

verus! {

use vstd::arithmetic::div_mod::{lemma_fundamental_div_mod, lemma_mod_multiples_basic};

/// Errors surfaced by the loader and the address space.
#[derive(Debug, PartialEq, Eq, Structural, Clone, Copy)]
pub enum Error {
    /// The header is not a recognizable PE header.
    FormatNotSupported,
    /// The caller requested an architecture that disagrees with the file.
    MismatchedBitness,
    /// Size or offset fields are internally inconsistent.
    MalformedFile,
    /// A read or probe touched an address outside every mapped page.
    AddressNotMapped,
    /// The bytes at an address do not form a printable ASCII run.
    NotAscii,
    /// An I/O failure outside the core (reported by callers that do I/O).
    FileAccess,
}

/// Round `i` up to the next multiple of `b`.
pub fn align(i: usize, b: usize) -> (r: usize)
    requires
        b >= 2,
        i + b <= usize::MAX,
    ensures
        r % b == 0,
        i <= r < i + b,
{
    let rem = i % b;
    let r = if rem == 0 {
        i
    } else {
        i + (b - rem)
    };
    proof {
        lemma_fundamental_div_mod(i as int, b as int);
        let q = i as int / b as int;
        if rem != 0 {
            assert((q + 1) * (b as int) == (b as int) * q + (b as int)) by (nonlinear_arith);
            lemma_mod_multiples_basic(q + 1, b as int);
            assert(r as int == (q + 1) * (b as int));
        }
        assert(r % b == 0);
    }
    r
}

/// The printable rendering of one byte: itself when graphic ASCII or a
/// space, otherwise a dot.
pub fn hexdump_ascii(b: u8) -> (c: char)
    ensures
        (0x21 <= b <= 0x7e || b == 0x20) ==> c == b as char,
        !(0x21 <= b <= 0x7e || b == 0x20) ==> c == '.',
{
    if (b >= 0x21 && b <= 0x7e) || b == 0x20 {
        b as char
    } else {
        '.'
    }
}

} // verus!
