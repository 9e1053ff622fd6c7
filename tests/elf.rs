use microkit::elf::{ElfError, ElfFile};

fn put16(b: &mut [u8], at: usize, v: u16) {
    b[at..at + 2].copy_from_slice(&v.to_le_bytes());
}

fn put32(b: &mut [u8], at: usize, v: u32) {
    b[at..at + 4].copy_from_slice(&v.to_le_bytes());
}

fn put64(b: &mut [u8], at: usize, v: u64) {
    b[at..at + 8].copy_from_slice(&v.to_le_bytes());
}

/// A small 64-bit executable: one loadable segment, one note segment, and a
/// symbol table with two symbols.
fn sample64() -> Vec<u8> {
    let mut b = vec![0u8; 0x400];
    b[0..4].copy_from_slice(&[0x7f, b'E', b'L', b'F']);
    b[4] = 2;
    b[5] = 1;
    put64(&mut b, 24, 0x8000_0000);
    put64(&mut b, 32, 0x40); // program headers
    put64(&mut b, 40, 0x200); // section headers
    put16(&mut b, 54, 56);
    put16(&mut b, 56, 2);
    put16(&mut b, 58, 64);
    put16(&mut b, 60, 3);
    // loadable segment: 0x10 bytes at file offset 0x100
    let ph = 0x40;
    put32(&mut b, ph, 1);
    put32(&mut b, ph + 4, 5);
    put64(&mut b, ph + 8, 0x100);
    put64(&mut b, ph + 16, 0x8000_0000);
    put64(&mut b, ph + 24, 0x4000_0000);
    put64(&mut b, ph + 32, 0x10);
    put64(&mut b, ph + 40, 0x1000);
    // a non-loadable segment
    let ph2 = ph + 56;
    put32(&mut b, ph2, 4);
    put64(&mut b, ph2 + 8, 0x110);
    put64(&mut b, ph2 + 32, 4);
    for i in 0..0x10 {
        b[0x100 + i] = i as u8 + 1;
    }
    // section 1: symbol table at 0x180 with three entries, linked to section 2
    let sh1 = 0x200 + 64;
    put32(&mut b, sh1 + 4, 2);
    put64(&mut b, sh1 + 24, 0x180);
    put64(&mut b, sh1 + 32, 3 * 24);
    put32(&mut b, sh1 + 40, 2);
    // section 2: string table at 0x160
    let sh2 = 0x200 + 128;
    put32(&mut b, sh2 + 4, 3);
    put64(&mut b, sh2 + 24, 0x160);
    put64(&mut b, sh2 + 32, 0x20);
    b[0x160..0x160 + 14].copy_from_slice(b"\0_text\0answer\0");
    let s1 = 0x180 + 24;
    put32(&mut b, s1, 1);
    put64(&mut b, s1 + 8, 0x8000_0000);
    put64(&mut b, s1 + 16, 0);
    let s2 = 0x180 + 48;
    put32(&mut b, s2, 7);
    put64(&mut b, s2 + 8, 0x8000_0008);
    put64(&mut b, s2 + 16, 4);
    b
}

#[test]
fn parses_segments_and_symbols() {
    let e = ElfFile::from_bytes(&sample64()).unwrap();
    assert_eq!(e.word_size, 64);
    assert_eq!(e.entry, 0x8000_0000);
    assert_eq!(e.segments.len(), 2);
    let s = &e.segments[0];
    assert!(s.loadable);
    assert_eq!(s.virt_addr, 0x8000_0000);
    assert_eq!(s.phys_addr, 0x4000_0000);
    assert_eq!(s.mem_size(), 0x1000);
    assert_eq!(s.data().len(), 0x10);
    assert_eq!(s.data[0], 1);
    assert!(!e.segments[1].loadable);
    assert_eq!(e.symbols.len(), 3);
    assert_eq!(e.find_symbol("_text").unwrap(), (0x8000_0000, 0));
    assert_eq!(e.find_symbol("answer").unwrap(), (0x8000_0008, 4));
    assert_eq!(e.get_data(0x8000_0008, 4), Some(vec![9, 10, 11, 12]));
    assert_eq!(e.loadable_segments().len(), 1);
}

#[test]
fn rejects_non_executables() {
    assert_eq!(ElfFile::from_bytes(b"hello world").err(), Some(ElfError::NotExecutable));
    let mut b = sample64();
    b[5] = 2;
    assert_eq!(ElfFile::from_bytes(&b).err(), Some(ElfError::Unsupported));
    let mut b = sample64();
    put64(&mut b, 0x40 + 32, 0x10_0000);
    assert_eq!(ElfFile::from_bytes(&b).err(), Some(ElfError::Malformed));
    assert_eq!(ElfFile::from_bytes(&sample64()[..40]).err(), Some(ElfError::Malformed));
}
