//! CFG construction and the contiguous-extent measure.

use std::collections::HashMap;

use lancelot::analysis::Analyzer;
use lancelot::cfg::{build_cfg, BasicBlock, Cfg, FlowKind, Insn, InsnTable};
use lancelot::loader::{load_pe, IMAGE_SCN_MEM_EXECUTE, IMAGE_SCN_MEM_READ};
use lancelot::Error;

fn put_u16(f: &mut Vec<u8>, off: usize, v: u16) {
    f[off..off + 2].copy_from_slice(&v.to_le_bytes());
}

fn put_u32(f: &mut Vec<u8>, off: usize, v: u32) {
    f[off..off + 4].copy_from_slice(&v.to_le_bytes());
}

fn put_u64(f: &mut Vec<u8>, off: usize, v: u64) {
    f[off..off + 8].copy_from_slice(&v.to_le_bytes());
}

/// A one-section 64-bit module whose executable section at RVA 0x200
/// holds `raw`.
fn synth_text_pe(base: u64, raw: Vec<u8>) -> Vec<u8> {
    let min_opt: usize = 112;
    let size_opt = min_opt + 16 * 8;
    let opt = 0x40 + 24;
    let sec0 = opt + size_opt;
    let mut f = vec![0u8; 0x200];
    f[0] = b'M';
    f[1] = b'Z';
    put_u32(&mut f, 0x3c, 0x40);
    f[0x40] = b'P';
    f[0x41] = b'E';
    put_u16(&mut f, 0x44, 0x8664);
    put_u16(&mut f, 0x46, 1);
    put_u16(&mut f, 0x54, size_opt as u16);
    put_u16(&mut f, opt, 0x20b);
    put_u64(&mut f, opt + 24, base);
    put_u32(&mut f, opt + 60, 0x200);
    put_u32(&mut f, opt + min_opt - 4, 16);
    f[sec0..sec0 + 8].copy_from_slice(b".text\0\0\0");
    put_u32(&mut f, sec0 + 8, 0x200);
    put_u32(&mut f, sec0 + 12, 0x200);
    put_u32(&mut f, sec0 + 16, raw.len() as u32);
    put_u32(&mut f, sec0 + 20, 0x200);
    put_u32(&mut f, sec0 + 36, IMAGE_SCN_MEM_READ | IMAGE_SCN_MEM_EXECUTE);
    f.extend_from_slice(&raw);
    f
}

const BASE: u64 = 0x140000000;

#[test]
fn insn_table_rejects_zero_length() {
    let mut t = InsnTable::new();
    assert!(!t.insert(0x1000, Insn { length: 0, flow: FlowKind::Return }));
    assert!(t.insert(0x1000, Insn { length: 1, flow: FlowKind::Return }));
    assert!(t.contains(0x1000));
    assert!(!t.contains(0x1001));
    let got = t.get(0x1000).expect("recorded");
    assert_eq!(got.length, 1);
    assert!(matches!(got.flow, FlowKind::Return));
    // an instruction overflowing the address type is rejected too
    assert!(!t.insert(u64::MAX, Insn { length: 2, flow: FlowKind::Return }));
}

#[test]
fn build_cfg_walks_blocks_and_stops_at_cycles() {
    let f = synth_text_pe(BASE, vec![0x90; 0x40]);
    let pe = load_pe(&f).expect("loadable");
    let entry = BASE + 0x200;
    let mut t = InsnTable::new();
    // entry block: two sequential instructions, then a conditional jump
    assert!(t.insert(entry, Insn { length: 2, flow: FlowKind::Sequential }));
    assert!(t.insert(entry + 2, Insn { length: 2, flow: FlowKind::CondJump(entry + 0x10) }));
    // fall-through block returns
    assert!(t.insert(entry + 4, Insn { length: 1, flow: FlowKind::Return }));
    // taken block jumps back to the entry: a cycle
    assert!(t.insert(entry + 0x10, Insn { length: 2, flow: FlowKind::Jump(Some(entry)) }));
    let cfg = build_cfg(&pe.module, &t, entry).expect("start decodes");
    assert_eq!(cfg.basic_blocks.len(), 3);
    assert_eq!(cfg.get_block(entry), Some(BasicBlock { addr: entry, length: 4 }));
    assert_eq!(cfg.get_block(entry + 4), Some(BasicBlock { addr: entry + 4, length: 1 }));
    assert_eq!(cfg.get_block(entry + 0x10), Some(BasicBlock { addr: entry + 0x10, length: 2 }));
    assert_eq!(cfg.get_block(entry + 2), None);
    // the two back-to-back blocks form the extent; the block at +0x10 is
    // past a gap
    assert_eq!(cfg.contiguous_extent_end(entry), entry + 5);
}

#[test]
fn build_cfg_drops_edges_to_nowhere() {
    let f = synth_text_pe(BASE, vec![0x90; 0x40]);
    let pe = load_pe(&f).expect("loadable");
    let entry = BASE + 0x200;
    let mut t = InsnTable::new();
    // a call whose fall-through has no decoded instruction, and whose
    // block ends there
    assert!(t.insert(entry, Insn { length: 5, flow: FlowKind::Call }));
    let cfg = build_cfg(&pe.module, &t, entry).expect("start decodes");
    assert_eq!(cfg.basic_blocks.len(), 1);
    assert_eq!(cfg.get_block(entry), Some(BasicBlock { addr: entry, length: 5 }));
}

#[test]
fn build_cfg_fails_outside_executable_memory() {
    let f = synth_text_pe(BASE, vec![0x90; 0x40]);
    let pe = load_pe(&f).expect("loadable");
    let mut t = InsnTable::new();
    // decoded, but in the read-only header
    assert!(t.insert(BASE + 0x40, Insn { length: 1, flow: FlowKind::Return }));
    assert_eq!(build_cfg(&pe.module, &t, BASE + 0x40).err(), Some(Error::AddressNotMapped));
    // executable, but nothing decoded there
    assert_eq!(build_cfg(&pe.module, &t, BASE + 0x200).err(), Some(Error::AddressNotMapped));
}

#[test]
fn sequential_run_becomes_one_block() {
    let f = synth_text_pe(BASE, vec![0x90; 0x40]);
    let pe = load_pe(&f).expect("loadable");
    let entry = BASE + 0x200;
    let mut t = InsnTable::new();
    assert!(t.insert(entry, Insn { length: 1, flow: FlowKind::Sequential }));
    assert!(t.insert(entry + 1, Insn { length: 3, flow: FlowKind::Sequential }));
    assert!(t.insert(entry + 4, Insn { length: 1, flow: FlowKind::Return }));
    let cfg = build_cfg(&pe.module, &t, entry).expect("start decodes");
    assert_eq!(cfg.basic_blocks.len(), 1);
    assert_eq!(cfg.get_block(entry), Some(BasicBlock { addr: entry, length: 5 }));
}

#[test]
fn extent_stops_at_the_first_gap() {
    // blocks [0x1000, 0x1010) and [0x1010, 0x1020) are contiguous; the
    // block at [0x1030, 0x1040) lies past a gap and is excluded
    let mut blocks: HashMap<u64, BasicBlock> = HashMap::new();
    blocks.insert(0x1000, BasicBlock { addr: 0x1000, length: 0x10 });
    blocks.insert(0x1010, BasicBlock { addr: 0x1010, length: 0x10 });
    blocks.insert(0x1030, BasicBlock { addr: 0x1030, length: 0x10 });
    let cfg = Cfg { basic_blocks: blocks };
    assert_eq!(cfg.contiguous_extent_end(0x1000), 0x1020);
    // starting inside the gap covers nothing
    assert_eq!(cfg.contiguous_extent_end(0x1020), 0x1020);
    assert_eq!(cfg.contiguous_extent_end(0x1030), 0x1040);
}

#[test]
fn orphan_analyzer_skips_covered_sweep_hits() {
    // .text: a trap byte, then bytes that a pointer in .data targets
    let mut code = vec![0xCC];
    code.extend_from_slice(&[0xFF; 8]);
    let mut raw = vec![0u8; 0x200];
    raw[..code.len()].copy_from_slice(&code);
    let f = {
        let mut f = synth_text_pe(BASE, raw);
        f // one-section module: embed the pointer into the same section
    };
    let pe = load_pe(&f).expect("loadable");
    let target = BASE + 0x201;
    // place a pointer to the target inside the mapped section through a
    // second module build: simpler here, reuse the sweep over .text whose
    // window at offset 0x10 holds the target
    let mut raw2 = vec![0u8; 0x200];
    raw2[..code.len()].copy_from_slice(&code);
    raw2[0x10..0x18].copy_from_slice(&target.to_le_bytes());
    let f2 = synth_text_pe(BASE, raw2);
    let pe2 = load_pe(&f2).expect("loadable");
    let mut t = InsnTable::new();
    assert!(t.insert(target, Insn { length: 8, flow: FlowKind::Return }));
    // uncovered: the orphan analyzer reports the sweep hit
    let got = Analyzer::OrphanFunction.analyze(&pe2, &t, &Vec::new());
    assert_eq!(got, vec![target]);
    // covered by a found function whose block spans the target: dropped
    let found = vec![target];
    let got2 = Analyzer::OrphanFunction.analyze(&pe2, &t, &found);
    assert_eq!(got2, vec![]);
    drop(pe);
}
