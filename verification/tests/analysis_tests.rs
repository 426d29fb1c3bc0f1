//! The analyzers and the pipeline on synthetic modules.

use lancelot::analysis::{analyzers_for, find_function_starts, Analyzer};
use lancelot::cfg::InsnTable;
use lancelot::loader::{load_pe, IMAGE_SCN_MEM_EXECUTE, IMAGE_SCN_MEM_READ, IMAGE_SCN_MEM_WRITE};
use lancelot::patterns::find_function_prologues;
use lancelot::pointers::find_pe_nonrelocated_executable_pointers;

fn put_u16(f: &mut Vec<u8>, off: usize, v: u16) {
    f[off..off + 2].copy_from_slice(&v.to_le_bytes());
}

fn put_u32(f: &mut Vec<u8>, off: usize, v: u32) {
    f[off..off + 4].copy_from_slice(&v.to_le_bytes());
}

fn put_u64(f: &mut Vec<u8>, off: usize, v: u64) {
    f[off..off + 8].copy_from_slice(&v.to_le_bytes());
}

struct SecSpec {
    name: [u8; 8],
    vsize: u32,
    va: u32,
    raw: Vec<u8>,
    chars: u32,
}

fn synth_pe(is64: bool, base: u64, entry: u32, dirs: &[(usize, u32, u32)], secs: &[SecSpec]) -> Vec<u8> {
    let min_opt: usize = if is64 { 112 } else { 96 };
    let size_opt = min_opt + 16 * 8;
    let opt = 0x40 + 24;
    let sec0 = opt + size_opt;
    assert!(sec0 + 40 * secs.len() <= 0x200);
    let mut f = vec![0u8; 0x200];
    f[0] = b'M';
    f[1] = b'Z';
    put_u32(&mut f, 0x3c, 0x40);
    f[0x40] = b'P';
    f[0x41] = b'E';
    put_u16(&mut f, 0x44, if is64 { 0x8664 } else { 0x14c });
    put_u16(&mut f, 0x46, secs.len() as u16);
    put_u16(&mut f, 0x54, size_opt as u16);
    put_u16(&mut f, opt, if is64 { 0x20b } else { 0x10b });
    put_u32(&mut f, opt + 16, entry);
    if is64 {
        put_u64(&mut f, opt + 24, base);
    } else {
        put_u32(&mut f, opt + 28, base as u32);
    }
    put_u32(&mut f, opt + 60, 0x200);
    put_u32(&mut f, opt + min_opt - 4, 16);
    for &(idx, rva, size) in dirs {
        put_u32(&mut f, opt + min_opt + 8 * idx, rva);
        put_u32(&mut f, opt + min_opt + 8 * idx + 4, size);
    }
    let mut praw = 0x200usize;
    for (i, s) in secs.iter().enumerate() {
        let so = sec0 + 40 * i;
        f[so..so + 8].copy_from_slice(&s.name);
        put_u32(&mut f, so + 8, s.vsize);
        put_u32(&mut f, so + 12, s.va);
        put_u32(&mut f, so + 16, s.raw.len() as u32);
        put_u32(&mut f, so + 20, praw as u32);
        put_u32(&mut f, so + 36, s.chars);
        praw += s.raw.len();
    }
    for s in secs {
        f.extend_from_slice(&s.raw);
    }
    f
}

const BASE: u64 = 0x140000000;
const RX: u32 = IMAGE_SCN_MEM_READ | IMAGE_SCN_MEM_EXECUTE;
const RW: u32 = IMAGE_SCN_MEM_READ | IMAGE_SCN_MEM_WRITE;

fn text(raw: Vec<u8>) -> SecSpec {
    SecSpec { name: *b".text\0\0\0", vsize: 0x200, va: 0x200, raw, chars: RX }
}

#[test]
fn hot_patch_prologue_at_section_start_is_found_by_byte_sig_alone() {
    // the hot-patch prologue at offset 0 of the one executable section:
    // the prologue matcher reports it, and nothing else contributes
    let f = synth_pe(true, BASE, 0, &[], &[text(vec![0x8B, 0xFF, 0x55, 0x8B, 0xEC])]);
    let pe = load_pe(&f).expect("loadable");
    assert_eq!(find_function_prologues(&pe), vec![BASE + 0x200]);
    let insns = InsnTable::new();
    let found = find_function_starts(&pe, &insns);
    assert_eq!(found, vec![BASE + 0x200]);
}

#[test]
fn prologue_needs_a_boundary_before_it() {
    // push ebp; mov ebp, esp after a trap byte is reported; the same bytes
    // after an arbitrary opcode are not; a section start needs no boundary
    let f = synth_pe(
        true,
        BASE,
        0,
        &[],
        &[text(vec![
            0x90, // filler at section start
            0x41, 0x55, 0x8B, 0xEC, // prologue after a non-boundary byte: no hit
            0xCC, 0x55, 0x8B, 0xEC, // prologue after a trap byte: hit
            0xC3, 0x8B, 0xFF, 0x55, 0x8B, 0xEC, // hot-patch variant after ret: hit
        ])],
    );
    let pe = load_pe(&f).expect("loadable");
    let hits = find_function_prologues(&pe);
    assert_eq!(hits, vec![BASE + 0x206, BASE + 0x20A]);
}

#[test]
fn pipeline_runs_are_identical() {
    let f = synth_pe(true, BASE, 0x200, &[], &[text(vec![0x8B, 0xFF, 0x55, 0x8B, 0xEC, 0xC3])]);
    let pe = load_pe(&f).expect("loadable");
    let insns = InsnTable::new();
    let once = find_function_starts(&pe, &insns);
    let twice = find_function_starts(&pe, &insns);
    assert_eq!(once, twice);
    // the result set is deduplicated
    let mut sorted = once.clone();
    sorted.sort();
    sorted.dedup();
    assert_eq!(sorted.len(), once.len());
}

#[test]
fn entry_point_contributes_when_executable() {
    let f = synth_pe(true, BASE, 0x204, &[], &[text(vec![0x90; 0x10])]);
    let pe = load_pe(&f).expect("loadable");
    let insns = InsnTable::new();
    let found = find_function_starts(&pe, &insns);
    assert_eq!(found, vec![BASE + 0x204]);
    // an entry pointing at the read-only header contributes nothing
    let f2 = synth_pe(true, BASE, 0, &[], &[text(vec![0x90; 0x10])]);
    let pe2 = load_pe(&f2).expect("loadable");
    assert_eq!(find_function_starts(&pe2, &insns), vec![]);
}

#[test]
fn pointer_sweep_accepts_after_trap_and_rejects_after_other_bytes() {
    // .text holds a trap byte, then eight 0xFF bytes at the pointed-to
    // address; .data holds a pointer to that address
    let mut code = vec![0xCC];
    code.extend_from_slice(&[0xFF; 8]);
    let mut data = vec![0u8; 0x10];
    data[0..8].copy_from_slice(&(BASE + 0x201).to_le_bytes());
    let f = synth_pe(
        true,
        BASE,
        0,
        &[],
        &[
            text(code),
            SecSpec { name: *b".data\0\0\0", vsize: 0x200, va: 0x400, raw: data.clone(), chars: RW },
        ],
    );
    let pe = load_pe(&f).expect("loadable");
    assert_eq!(find_pe_nonrelocated_executable_pointers(&pe), vec![BASE + 0x201]);

    // the identical pointer, but the byte before the target is 0x41
    let mut code2 = vec![0x41];
    code2.extend_from_slice(&[0xFF; 8]);
    let f2 = synth_pe(
        true,
        BASE,
        0,
        &[],
        &[
            text(code2),
            SecSpec { name: *b".data\0\0\0", vsize: 0x200, va: 0x400, raw: data, chars: RW },
        ],
    );
    let pe2 = load_pe(&f2).expect("loadable");
    assert_eq!(find_pe_nonrelocated_executable_pointers(&pe2), vec![]);
}

#[test]
fn pointer_sweep_rejects_string_targets() {
    // the pointed-to bytes form a printable ASCII run of four
    let mut code = vec![0xCC];
    code.extend_from_slice(b"ABCD");
    code.push(0);
    let mut data = vec![0u8; 0x10];
    data[0..8].copy_from_slice(&(BASE + 0x201).to_le_bytes());
    let f = synth_pe(
        true,
        BASE,
        0,
        &[],
        &[
            text(code),
            SecSpec { name: *b".data\0\0\0", vsize: 0x200, va: 0x400, raw: data, chars: RW },
        ],
    );
    let pe = load_pe(&f).expect("loadable");
    assert_eq!(find_pe_nonrelocated_executable_pointers(&pe), vec![]);
}

#[test]
fn exports_analyzer_reads_the_function_table() {
    // export directory at RVA 0x400: two entries at RVA 0x430, the second
    // zero and skipped
    let code = vec![0x90; 0x10];
    let mut edata = vec![0u8; 0x40];
    put_u32(&mut edata, 0x14, 2); // NumberOfFunctions
    put_u32(&mut edata, 0x1c, 0x430); // AddressOfFunctions
    edata.resize(0x38, 0);
    let mut full = vec![0u8; 0x50];
    full[..0x38].copy_from_slice(&edata[..0x38]);
    put_u32(&mut full, 0x30, 0x200); // table entry 0 at rva 0x430
    put_u32(&mut full, 0x34, 0); // table entry 1: zero, skipped
    let f = synth_pe(
        true,
        BASE,
        0,
        &[(0, 0x400, 0x28)],
        &[
            text(code),
            SecSpec { name: *b".edata\0\0", vsize: 0x200, va: 0x400, raw: full, chars: RW },
        ],
    );
    let pe = load_pe(&f).expect("loadable");
    let insns = InsnTable::new();
    let got = Analyzer::Exports.analyze(&pe, &insns, &Vec::new());
    assert_eq!(got, vec![BASE + 0x200]);
}

#[test]
fn runtime_function_table_contributes_begin_addresses() {
    let code = vec![0x90; 0x10];
    let mut pdata = vec![0u8; 0x18];
    put_u32(&mut pdata, 0, 0x204); // BeginAddress
    put_u32(&mut pdata, 4, 0x210); // EndAddress
    put_u32(&mut pdata, 8, 0); // UnwindInfo
    // second entry stays zero and is skipped
    let f = synth_pe(
        true,
        BASE,
        0,
        &[(3, 0x400, 0x18)],
        &[
            text(code),
            SecSpec { name: *b".pdata\0\0", vsize: 0x200, va: 0x400, raw: pdata, chars: RW },
        ],
    );
    let pe = load_pe(&f).expect("loadable");
    let insns = InsnTable::new();
    let got = Analyzer::RuntimeFunction.analyze(&pe, &insns, &Vec::new());
    assert_eq!(got, vec![BASE + 0x204]);
}

#[test]
fn reloc_analyzer_follows_relocated_slots() {
    // one relocation block for page 0x400 with a single 64-bit entry at
    // offset 0x10, whose slot holds a pointer to executable code
    let code = vec![0x90; 0x10];
    let mut rdata = vec![0u8; 0x40];
    // the relocated slot at rva 0x410
    rdata[0x10..0x18].copy_from_slice(&(BASE + 0x208).to_le_bytes());
    // the relocation table itself at rva 0x420
    put_u32(&mut rdata, 0x20, 0x400); // page rva
    put_u32(&mut rdata, 0x24, 12); // block size: header + two entries
    put_u16(&mut rdata, 0x28, (10 << 12) | 0x10); // DIR64 at offset 0x10
    put_u16(&mut rdata, 0x2a, 0); // padding entry, type 0: skipped
    let f = synth_pe(
        true,
        BASE,
        0,
        &[(5, 0x420, 12)],
        &[
            text(code),
            SecSpec { name: *b".data\0\0\0", vsize: 0x200, va: 0x400, raw: rdata, chars: RW },
        ],
    );
    let pe = load_pe(&f).expect("loadable");
    let insns = InsnTable::new();
    let got = Analyzer::Reloc.analyze(&pe, &insns, &Vec::new());
    assert_eq!(got, vec![BASE + 0x208]);
}

#[test]
fn cfguard_table_entries_are_candidates() {
    // load config at RVA 0x400: the guard function table sits at RVA 0x500
    // with one entry of four RVA bytes plus one metadata byte
    let code = vec![0x90; 0x10];
    let mut sec = vec![0u8; 0x180];
    put_u64(&mut sec, 0x80, BASE + 0x500); // GuardCFFunctionTable (a VA)
    put_u32(&mut sec, 0x88, 1); // GuardCFFunctionCount
    put_u32(&mut sec, 0x90, 0x10000000); // GuardFlags: one extra byte per entry
    put_u32(&mut sec, 0x100, 0x204); // table entry: rva 0x204
    sec[0x104] = 0xAB; // the entry's metadata byte
    let f = synth_pe(
        true,
        BASE,
        0,
        &[(10, 0x400, 0x94)],
        &[
            text(code),
            SecSpec { name: *b".rdata\0\0", vsize: 0x200, va: 0x400, raw: sec, chars: RW },
        ],
    );
    let pe = load_pe(&f).expect("loadable");
    let insns = InsnTable::new();
    let got = Analyzer::CFGuardTable.analyze(&pe, &insns, &Vec::new());
    assert_eq!(got, vec![BASE + 0x204]);
}

#[test]
fn import_thunks_probing_executable_are_candidates() {
    // one import descriptor whose first-thunk array holds an RVA into the
    // executable section, then a zero terminator; a bound table like this
    // is rare but honored
    let code = vec![0x90; 0x10];
    let mut idata = vec![0u8; 0x100];
    // descriptor 0 at rva 0x400
    put_u32(&mut idata, 12, 0x500); // Name (nonzero)
    put_u32(&mut idata, 16, 0x480); // FirstThunk
    // descriptor 1 stays all zero: the terminator
    // thunk array at rva 0x480 = section offset 0x80
    put_u64(&mut idata, 0x80, 0x208); // an RVA, not an ordinal
    put_u64(&mut idata, 0x88, 0); // terminator
    let f = synth_pe(
        true,
        BASE,
        0,
        &[(1, 0x400, 40)],
        &[
            text(code),
            SecSpec { name: *b".idata\0\0", vsize: 0x200, va: 0x400, raw: idata, chars: RW },
        ],
    );
    let pe = load_pe(&f).expect("loadable");
    let insns = InsnTable::new();
    let got = Analyzer::Imports.analyze(&pe, &insns, &Vec::new());
    assert_eq!(got, vec![BASE + 0x208]);
    // an ordinal import contributes nothing
    let mut idata2 = vec![0u8; 0x100];
    put_u32(&mut idata2, 12, 0x500);
    put_u32(&mut idata2, 16, 0x480);
    put_u64(&mut idata2, 0x80, 0x8000000000000208);
    let f2 = synth_pe(
        true,
        BASE,
        0,
        &[(1, 0x400, 40)],
        &[
            text(vec![0x90; 0x10]),
            SecSpec { name: *b".idata\0\0", vsize: 0x200, va: 0x400, raw: idata2, chars: RW },
        ],
    );
    let pe2 = load_pe(&f2).expect("loadable");
    assert_eq!(Analyzer::Imports.analyze(&pe2, &insns, &Vec::new()), vec![]);
}

#[test]
fn pointer_sweep_handles_32_bit_pointers() {
    let base32: u64 = 0x400000;
    let mut code = vec![0xC3];
    code.extend_from_slice(&[0xFF; 4]);
    let mut data = vec![0u8; 0x10];
    data[0..4].copy_from_slice(&((base32 as u32) + 0x201).to_le_bytes());
    let f = synth_pe(
        false,
        base32,
        0,
        &[],
        &[
            text(code),
            SecSpec { name: *b".data\0\0\0", vsize: 0x200, va: 0x400, raw: data, chars: RW },
        ],
    );
    let pe = load_pe(&f).expect("loadable");
    assert_eq!(find_pe_nonrelocated_executable_pointers(&pe), vec![base32 + 0x201]);
}

#[test]
fn analyzer_order_is_fixed_and_architecture_conditioned() {
    let a64 = analyzers_for(true);
    assert_eq!(a64.len(), 8);
    assert!(matches!(a64[0], Analyzer::EntryPoint));
    assert!(matches!(a64[5], Analyzer::ByteSig));
    assert!(matches!(a64[6], Analyzer::RuntimeFunction));
    assert!(matches!(a64[7], Analyzer::OrphanFunction));
    let a32 = analyzers_for(false);
    assert_eq!(a32.len(), 7);
    assert!(matches!(a32[6], Analyzer::OrphanFunction));
    assert!(!a32.iter().any(|a| matches!(a, Analyzer::RuntimeFunction)));
}

#[test]
fn pipeline_merges_without_duplicates() {
    // entry point and prologue matcher find the same address: it appears
    // once
    let f = synth_pe(true, BASE, 0x200, &[], &[text(vec![0x8B, 0xFF, 0x55, 0x8B, 0xEC])]);
    let pe = load_pe(&f).expect("loadable");
    let insns = InsnTable::new();
    let found = find_function_starts(&pe, &insns);
    assert_eq!(found, vec![BASE + 0x200]);
}
