//! The sparse address space on its own: mapping, zero-extension, and
//! bounds-checked reads.

use lancelot::aspace::AddressSpace;
use lancelot::Error;

const BASE: u64 = 0x400000;

#[test]
fn mapzx_round_trips_and_zero_extends() {
    let mut a = AddressSpace::with_capacity(BASE, 0x1000);
    let src: Vec<u8> = (1..=5).collect();
    a.mapzx(0x200, &src).expect("fits");
    // the mapped bytes read back unchanged
    assert_eq!(a.read_bytes(BASE + 0x200, 5), Ok(src));
    // the rest of the touched page reads as zero
    let tail = a.read_bytes(BASE + 0x205, 0x1FB).expect("mapped");
    assert!(tail.iter().all(|&b| b == 0));
    // the next page stays unmapped
    assert_eq!(a.read_bytes(BASE + 0x400, 1), Err(Error::AddressNotMapped));
    assert!(a.probe(BASE + 0x200));
    assert!(a.probe(BASE + 0x3FF));
    assert!(!a.probe(BASE + 0x400));
    assert!(!a.probe(BASE - 1));
    assert_eq!(a.byte_at(BASE + 0x202), Some(3));
    assert_eq!(a.byte_at(BASE + 0x1FF), None);
}

#[test]
fn mapzx_rejects_zero_length_regions() {
    let mut a = AddressSpace::with_capacity(BASE, 0x1000);
    assert_eq!(a.mapzx(0x200, &[]), Err(Error::MalformedFile));
}

#[test]
fn mapzx_never_truncates_past_capacity() {
    let mut a = AddressSpace::with_capacity(BASE, 0x400);
    // one byte too many: rejected outright, nothing mapped
    let big = vec![0xAAu8; 0x401];
    assert_eq!(a.mapzx(0, &big), Err(Error::MalformedFile));
    assert!(!a.probe(BASE));
    // exactly the capacity is fine
    let fit = vec![0xAAu8; 0x400];
    a.mapzx(0, &fit).expect("fits");
    assert_eq!(a.byte_at(BASE + 0x3FF), Some(0xAA));
}

#[test]
fn unaligned_mapzx_zero_fills_the_page_head() {
    let mut a = AddressSpace::with_capacity(BASE, 0x1000);
    a.mapzx(0x210, &[7u8, 8, 9]).expect("fits");
    // the partially covered page's head reads as zero
    assert_eq!(a.byte_at(BASE + 0x200), Some(0));
    assert_eq!(a.read_bytes(BASE + 0x210, 3), Ok(vec![7, 8, 9]));
    assert_eq!(a.byte_at(BASE + 0x213), Some(0));
}

#[test]
fn read_into_fills_or_leaves_the_buffer() {
    let mut a = AddressSpace::with_capacity(BASE, 0x400);
    a.mapzx(0, &[1u8, 2, 3, 4]).expect("fits");
    let mut buf = vec![0u8; 3];
    a.read_into(BASE + 1, &mut buf).expect("mapped");
    assert_eq!(buf, vec![2, 3, 4]);
    let mut buf2 = vec![9u8; 4];
    assert_eq!(a.read_into(BASE + 0x3FE, &mut buf2), Err(Error::AddressNotMapped));
    assert_eq!(buf2, vec![9, 9, 9, 9]);
}

#[test]
fn read_utf16_runs() {
    let mut a = AddressSpace::with_capacity(BASE, 0x400);
    let mut src = vec![0u8; 0x20];
    // "Hi!" as UTF-16LE, then a NUL unit
    src[0..8].copy_from_slice(&[b'H', 0, b'i', 0, b'!', 0, 0, 0]);
    a.mapzx(0, &src).expect("fits");
    assert_eq!(a.read_utf16(BASE, 3), Ok("Hi!".to_string()));
    assert_eq!(a.read_utf16(BASE, 4), Err(Error::NotAscii));
    assert_eq!(a.read_utf16(BASE + 0x1000, 1), Err(Error::AddressNotMapped));
}

#[test]
fn reads_cross_page_boundaries() {
    let mut a = AddressSpace::with_capacity(BASE, 0x1000);
    let src: Vec<u8> = (0..=255).cycle().take(0x400).map(|x| x as u8).collect();
    a.mapzx(0, &src).expect("fits");
    // an unaligned multi-byte read spanning two pages
    let got = a.read_bytes(BASE + 0x1FE, 4).expect("mapped");
    assert_eq!(got, src[0x1FE..0x202].to_vec());
}
