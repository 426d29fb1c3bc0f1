//! Loading synthetic PE images: acceptance, rejection, and the memory the
//! loader builds.

use lancelot::loader::{load_pe, PELoader, IMAGE_SCN_MEM_EXECUTE, IMAGE_SCN_MEM_READ,
    IMAGE_SCN_MEM_WRITE};
use lancelot::module::{Arch, Permissions};
use lancelot::{align, hexdump_ascii, Error};

fn put_u16(f: &mut Vec<u8>, off: usize, v: u16) {
    f[off..off + 2].copy_from_slice(&v.to_le_bytes());
}

fn put_u32(f: &mut Vec<u8>, off: usize, v: u32) {
    f[off..off + 4].copy_from_slice(&v.to_le_bytes());
}

fn put_u64(f: &mut Vec<u8>, off: usize, v: u64) {
    f[off..off + 8].copy_from_slice(&v.to_le_bytes());
}

struct SecSpec {
    name: [u8; 8],
    vsize: u32,
    va: u32,
    raw: Vec<u8>,
    chars: u32,
}

/// A minimal synthetic PE image: DOS stub, NT headers with sixteen empty
/// data directories, section headers, and each section's raw bytes at
/// ascending file offsets from 0x200.
fn synth_pe(is64: bool, base: u64, entry: u32, dirs: &[(usize, u32, u32)], secs: &[SecSpec]) -> Vec<u8> {
    let min_opt: usize = if is64 { 112 } else { 96 };
    let size_opt = min_opt + 16 * 8;
    let opt = 0x40 + 24;
    let sec0 = opt + size_opt;
    assert!(sec0 + 40 * secs.len() <= 0x200);
    let mut f = vec![0u8; 0x200];
    f[0] = b'M';
    f[1] = b'Z';
    put_u32(&mut f, 0x3c, 0x40);
    f[0x40] = b'P';
    f[0x41] = b'E';
    put_u16(&mut f, 0x44, if is64 { 0x8664 } else { 0x14c });
    put_u16(&mut f, 0x46, secs.len() as u16);
    put_u16(&mut f, 0x54, size_opt as u16);
    put_u16(&mut f, opt, if is64 { 0x20b } else { 0x10b });
    put_u32(&mut f, opt + 16, entry);
    if is64 {
        put_u64(&mut f, opt + 24, base);
    } else {
        put_u32(&mut f, opt + 28, base as u32);
    }
    put_u32(&mut f, opt + 60, 0x200);
    put_u32(&mut f, opt + min_opt - 4, 16);
    for &(idx, rva, size) in dirs {
        put_u32(&mut f, opt + min_opt + 8 * idx, rva);
        put_u32(&mut f, opt + min_opt + 8 * idx + 4, size);
    }
    let mut praw = 0x200usize;
    for (i, s) in secs.iter().enumerate() {
        let so = sec0 + 40 * i;
        f[so..so + 8].copy_from_slice(&s.name);
        put_u32(&mut f, so + 8, s.vsize);
        put_u32(&mut f, so + 12, s.va);
        put_u32(&mut f, so + 16, s.raw.len() as u32);
        put_u32(&mut f, so + 20, praw as u32);
        put_u32(&mut f, so + 36, s.chars);
        praw += s.raw.len();
    }
    for s in secs {
        f.extend_from_slice(&s.raw);
    }
    f
}

fn text_section(raw: Vec<u8>) -> SecSpec {
    SecSpec {
        name: *b".text\0\0\0",
        vsize: 0x200,
        va: 0x200,
        raw,
        chars: IMAGE_SCN_MEM_READ | IMAGE_SCN_MEM_EXECUTE,
    }
}

const BASE: u64 = 0x140000000;

#[test]
fn load_basic_module() {
    let raw = vec![0x8B, 0xFF, 0x55, 0x8B, 0xEC];
    let f = synth_pe(true, BASE, 0, &[], &[text_section(raw.clone())]);
    let pe = load_pe(&f).expect("loadable");
    assert_eq!(pe.module.base_address, BASE);
    assert!(matches!(pe.module.arch, Arch::X64));
    assert_eq!(pe.module.sections.len(), 2);
    assert_eq!(pe.module.sections[0].name, b"header".to_vec());
    assert_eq!(pe.module.sections[0].virtual_range.start, BASE);
    assert_eq!(pe.module.sections[0].virtual_range.end, BASE + 0x200);
    assert_eq!(pe.module.sections[1].name, b".text".to_vec());
    assert_eq!(pe.module.sections[1].virtual_range.start, BASE + 0x200);
    assert_eq!(pe.module.sections[1].virtual_range.end, BASE + 0x400);
    assert!(pe.module.sections[1].permissions.x);
    assert!(!pe.module.sections[1].permissions.w);
    assert_eq!(pe.header.address_of_entry_point, 0);
    assert_eq!(pe.header.data_directories.len(), 16);
}

#[test]
fn section_lengths_are_page_multiples() {
    // a 5-byte raw and a 0x20-byte virtual size still produce ranges whose
    // lengths are multiples of 0x200
    let f = synth_pe(
        true,
        BASE,
        0,
        &[],
        &[SecSpec {
            name: *b".text\0\0\0",
            vsize: 0x20,
            va: 0x200,
            raw: vec![1, 2, 3, 4, 5],
            chars: IMAGE_SCN_MEM_READ | IMAGE_SCN_MEM_EXECUTE,
        }],
    );
    let pe = load_pe(&f).expect("loadable");
    for s in &pe.module.sections {
        let len = s.virtual_range.end - s.virtual_range.start;
        assert_eq!(len % 0x200, 0);
    }
}

#[test]
fn round_trip_raw_bytes_then_zeros() {
    let raw: Vec<u8> = (1..=16).collect();
    let f = synth_pe(
        true,
        BASE,
        0,
        &[],
        &[SecSpec {
            name: *b".data\0\0\0",
            vsize: 0x20,
            va: 0x200,
            raw: raw.clone(),
            chars: IMAGE_SCN_MEM_READ,
        }],
    );
    let pe = load_pe(&f).expect("loadable");
    let got = pe.module.address_space.read_bytes(BASE + 0x200, 16).expect("mapped");
    assert_eq!(got, raw);
    let tail = pe.module.address_space.read_bytes(BASE + 0x210, 0x1F0).expect("mapped");
    assert!(tail.iter().all(|&b| b == 0));
    // the header section holds the file's opening bytes
    let hdr = pe.module.address_space.read_bytes(BASE, 2).expect("mapped");
    assert_eq!(hdr, vec![b'M', b'Z']);
}

#[test]
fn raw_size_exceeding_virtual_size_is_clamped() {
    // declared raw size 0x40 with virtual size 0x10: the copy clamps to
    // 0x10 bytes and the load succeeds
    let raw: Vec<u8> = (0..0x40u8).collect();
    let f = synth_pe(
        true,
        BASE,
        0,
        &[],
        &[SecSpec {
            name: *b".data\0\0\0",
            vsize: 0x10,
            va: 0x200,
            raw: raw.clone(),
            chars: IMAGE_SCN_MEM_READ,
        }],
    );
    let pe = load_pe(&f).expect("loadable despite oversized raw data");
    let got = pe.module.address_space.read_bytes(BASE + 0x200, 0x10).expect("mapped");
    assert_eq!(got, raw[..0x10].to_vec());
    let beyond = pe.module.address_space.read_bytes(BASE + 0x210, 0x30).expect("mapped");
    assert!(beyond.iter().all(|&b| b == 0));
}

#[test]
fn unmapped_addresses_probe_false_and_fail_reads() {
    let f = synth_pe(true, BASE, 0, &[], &[text_section(vec![0x90; 8])]);
    let pe = load_pe(&f).expect("loadable");
    let any = Permissions::new(false, false, false);
    // below the image, beyond its end, and far away
    for va in [BASE - 1, BASE + 0x400, BASE + 0x123456, 0, u64::MAX] {
        assert!(!pe.module.probe_va(va, any));
        assert!(!pe.module.probe_va(va, Permissions::read()));
        assert_eq!(pe.module.address_space.read_bytes(va, 1), Err(Error::AddressNotMapped));
    }
    // mapped, but without the asked permission
    assert!(pe.module.probe_va(BASE + 0x200, Permissions::execute()));
    assert!(!pe.module.probe_va(BASE + 0x200, Permissions::new(false, true, false)));
    assert!(!pe.module.probe_va(BASE, Permissions::execute()));
}

#[test]
fn rejects_garbage_and_truncation() {
    assert!(matches!(load_pe(&[]), Err(Error::FormatNotSupported)));
    assert!(matches!(load_pe(&[0u8; 0x100]), Err(Error::FormatNotSupported)));
    let mut f = synth_pe(true, BASE, 0, &[], &[text_section(vec![0x90; 0x200])]);
    f[1] = b'X';
    assert!(matches!(load_pe(&f), Err(Error::FormatNotSupported)));
}

#[test]
fn rejects_raw_data_past_end_of_file() {
    let f = synth_pe(true, BASE, 0, &[], &[text_section(vec![0x90; 0x200])]);
    // keep the headers but cut the section's raw bytes short
    let truncated = f[..0x240].to_vec();
    assert!(matches!(load_pe(&truncated), Err(Error::MalformedFile)));
}

#[test]
fn rejects_unaligned_section_address() {
    let f = synth_pe(
        true,
        BASE,
        0,
        &[],
        &[SecSpec {
            name: *b".text\0\0\0",
            vsize: 0x200,
            va: 0x300,
            raw: vec![0x90; 4],
            chars: IMAGE_SCN_MEM_READ | IMAGE_SCN_MEM_EXECUTE,
        }],
    );
    assert!(matches!(load_pe(&f), Err(Error::MalformedFile)));
}

#[test]
fn rejects_descending_sections() {
    let f = synth_pe(
        true,
        BASE,
        0,
        &[],
        &[
            SecSpec {
                name: *b"a\0\0\0\0\0\0\0",
                vsize: 0x200,
                va: 0x600,
                raw: vec![],
                chars: IMAGE_SCN_MEM_READ,
            },
            SecSpec {
                name: *b"b\0\0\0\0\0\0\0",
                vsize: 0x200,
                va: 0x400,
                raw: vec![],
                chars: IMAGE_SCN_MEM_READ,
            },
        ],
    );
    assert!(matches!(load_pe(&f), Err(Error::MalformedFile)));
}

#[test]
fn mismatched_bitness_is_its_own_error() {
    let f64 = synth_pe(true, BASE, 0, &[], &[text_section(vec![0x90; 4])]);
    let loader32 = PELoader::new(Arch::X32);
    assert!(matches!(loader32.load(&f64), Err(Error::MismatchedBitness)));
    let loader64 = PELoader::new(Arch::X64);
    assert!(loader64.load(&f64).is_ok());
    assert!(loader64.taste(&f64));
    assert!(!loader32.taste(&f64));
    let f32 = synth_pe(false, 0x400000, 0, &[], &[text_section(vec![0x90; 4])]);
    assert!(loader32.taste(&f32));
    assert!(!loader64.taste(&f32));
    assert!(matches!(loader64.load(&f32), Err(Error::MismatchedBitness)));
    let pe32 = load_pe(&f32).expect("loadable");
    assert!(matches!(pe32.module.arch, Arch::X32));
}

#[test]
fn read_ascii_runs() {
    let mut raw = b"ABCD\0rest".to_vec();
    raw.push(0xFF);
    let f = synth_pe(
        true,
        BASE,
        0,
        &[],
        &[SecSpec {
            name: *b".rdata\0\0",
            vsize: 0x200,
            va: 0x200,
            raw,
            chars: IMAGE_SCN_MEM_READ,
        }],
    );
    let pe = load_pe(&f).expect("loadable");
    let aspace = &pe.module.address_space;
    assert_eq!(aspace.read_ascii(BASE + 0x200, 4), Ok("ABCD".to_string()));
    // the run is exactly four bytes: asking for five fails
    assert_eq!(aspace.read_ascii(BASE + 0x200, 5), Err(Error::NotAscii));
    // a NUL byte is not printable
    assert_eq!(aspace.read_ascii(BASE + 0x204, 1), Err(Error::NotAscii));
    assert_eq!(aspace.read_ascii(BASE + 0x205, 4), Ok("rest".to_string()));
    assert_eq!(aspace.read_ascii(BASE - 0x1000, 1), Err(Error::AddressNotMapped));
}

#[test]
fn pointer_width_reads() {
    let mut raw = vec![0u8; 0x20];
    raw[0..8].copy_from_slice(&0x1122334455667788u64.to_le_bytes());
    let f = synth_pe(
        true,
        BASE,
        0,
        &[],
        &[SecSpec {
            name: *b".data\0\0\0",
            vsize: 0x200,
            va: 0x200,
            raw,
            chars: IMAGE_SCN_MEM_READ,
        }],
    );
    let pe = load_pe(&f).expect("loadable");
    assert_eq!(pe.module.read_va_at_va(BASE + 0x200), Ok(0x1122334455667788));
    assert!(pe.module.read_va_at_va(BASE + 0x3FF).is_err());
}

#[test]
fn align_rounds_up_to_the_base() {
    assert_eq!(align(0, 2), 0);
    assert_eq!(align(1, 2), 2);
    assert_eq!(align(2, 2), 2);
    assert_eq!(align(3, 2), 4);
    assert_eq!(align(4, 2), 4);
    assert_eq!(align(0x201, 0x200), 0x400);
}

#[test]
fn hexdump_ascii_renders_printable_bytes() {
    assert_eq!(hexdump_ascii(b'A'), 'A');
    assert_eq!(hexdump_ascii(b' '), ' ');
    assert_eq!(hexdump_ascii(0x00), '.');
    assert_eq!(hexdump_ascii(0x7F), '.');
    assert_eq!(hexdump_ascii(0xCC), '.');
}

#[test]
fn get_section_and_file_offset() {
    let raw: Vec<u8> = (1..=8).collect();
    let f = synth_pe(
        true,
        BASE,
        0,
        &[],
        &[SecSpec {
            name: *b".data\0\0\0",
            vsize: 0x200,
            va: 0x200,
            raw,
            chars: IMAGE_SCN_MEM_READ | IMAGE_SCN_MEM_WRITE,
        }],
    );
    let pe = load_pe(&f).expect("loadable");
    let sec = pe.module.get_section(BASE + 0x204).expect("contained");
    assert_eq!(sec.name, b".data".to_vec());
    assert!(sec.permissions.w);
    assert!(pe.module.get_section(BASE + 0x400).is_err());
    // the fifth raw byte sits at file offset 0x204
    assert_eq!(pe.module.file_offset(BASE + 0x204), Ok(0x204));
    // the zero-filled tail has no file offset
    assert!(pe.module.file_offset(BASE + 0x210).is_err());
}
