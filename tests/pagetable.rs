use microkit::pagetable::{PGD, PUD};

fn word(buf: &[u8], pos: usize) -> u64 {
    u64::from_le_bytes(buf[pos..pos + 8].try_into().unwrap())
}

fn idx(vaddr: u64, shift: u64) -> usize {
    ((vaddr >> shift) & 0x1ff) as usize
}

#[test]
fn small_page_round_trip() {
    let mut pgd = PGD::new();
    let vaddr = 0x0000_4020_0030_5000u64;
    let frame = 0x1234_5000u64;
    pgd.add_page_at_vaddr(vaddr, frame, 0x1000);
    let mut buf = Vec::new();
    let end = pgd.recurse(0, &mut buf);
    assert_eq!(end, buf.len() as u64);
    assert_eq!(pgd.get_size(), buf.len() as u64);
    assert_eq!(buf.len(), 4 * 4096);
    let top = buf.len() - 4096;
    let pud = word(&buf, top + 8 * idx(vaddr, 39)) as usize;
    let dir = word(&buf, pud + 8 * idx(vaddr, 30)) as usize;
    let pt = word(&buf, dir + 8 * idx(vaddr, 21)) as usize;
    assert_eq!(word(&buf, pt + 8 * idx(vaddr, 12)), frame);
    // every other slot of the leaf table is empty
    assert_eq!(word(&buf, pt + 8 * ((idx(vaddr, 12) + 1) % 512)), u64::MAX);
    assert_eq!(word(&buf, top + 8 * ((idx(vaddr, 39) + 1) % 512)), u64::MAX);
}

#[test]
fn large_page_round_trip() {
    let mut pgd = PGD::new();
    let vaddr = 0x0000_0000_4060_0000u64;
    let frame = 0x8000_0000u64;
    pgd.add_page_at_vaddr(vaddr, frame, 0x200000);
    let mut buf = Vec::new();
    pgd.recurse(0, &mut buf);
    assert_eq!(buf.len(), 3 * 4096);
    let top = buf.len() - 4096;
    let pud = word(&buf, top + 8 * idx(vaddr, 39)) as usize;
    let dir = word(&buf, pud + 8 * idx(vaddr, 30)) as usize;
    assert_eq!(word(&buf, dir + 8 * idx(vaddr, 21)), frame | (1 << 63));
}

#[test]
fn range_adds_consecutive_pages() {
    let mut pud = PUD::new();
    pud.add_page_at_vaddr_range(0x1000, 0x2800, 0x9000, 0x1000);
    let mut buf = Vec::new();
    pud.recurse(0, &mut buf);
    // one leaf table, one directory, the upper directory
    assert_eq!(buf.len(), 3 * 4096);
    assert_eq!(pud.get_size(), 3 * 4096);
    let pt = 0usize;
    assert_eq!(word(&buf, pt + 8), 0x9000);
    assert_eq!(word(&buf, pt + 16), 0x9000);
    assert_eq!(word(&buf, pt + 24), 0x9000);
    assert_eq!(word(&buf, pt + 32), u64::MAX);
}

#[test]
fn offsets_follow_start_offset() {
    let mut pgd = PGD::new();
    pgd.add_page_at_vaddr(0x1000, 0x5000, 0x1000);
    let mut buf = vec![0u8; 4096];
    let end = pgd.recurse(4096, &mut buf);
    assert_eq!(end, 5 * 4096);
    assert_eq!(buf.len(), 5 * 4096);
    // the leaf table comes first after the given offset
    let dir = buf.len() - 3 * 4096;
    assert_eq!(word(&buf, dir), 4096);
}

#[test]
fn empty_tree_is_one_table() {
    let pgd = PGD::default();
    let mut buf = Vec::new();
    assert_eq!(pgd.recurse(0, &mut buf), 4096);
    assert!(buf.chunks(8).all(|c| c == [0xff; 8]));
}
