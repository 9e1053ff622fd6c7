use microkit::region::{DisjointMemoryRegion, MemoryRegion, UntypedObject};
use microkit::sel4::{Arch, Config, PageSize};

fn identity() -> Config {
    Config { arch: Arch::Aarch64, hypervisor: false, kernel_vaddr_offset: 0, riscv_pt_levels: None }
}

fn set_of(regions: &[(u64, u64)]) -> DisjointMemoryRegion {
    let mut s = DisjointMemoryRegion::default();
    for &(b, e) in regions {
        s.insert_region(b, e);
    }
    s
}

fn pairs(s: &DisjointMemoryRegion) -> Vec<(u64, u64)> {
    s.regions.iter().map(|r| (r.base, r.end)).collect()
}

#[test]
fn insert_touching_merges_then_remove_splits() {
    let mut s = set_of(&[(0x1000, 0x2000)]);
    s.insert_region(0x2000, 0x3000);
    assert_eq!(pairs(&s), vec![(0x1000, 0x3000)]);
    s.remove_region(0x1800, 0x2800);
    assert_eq!(pairs(&s), vec![(0x1000, 0x1800), (0x2800, 0x3000)]);
}

#[test]
fn insert_between_two_regions_merges_both() {
    let mut s = set_of(&[(0x0, 0x10), (0x20, 0x30)]);
    s.insert_region(0x10, 0x20);
    assert_eq!(pairs(&s), vec![(0x0, 0x30)]);
}

#[test]
fn insert_keeps_order_and_gaps() {
    let s = set_of(&[(0x5000, 0x6000), (0x1000, 0x2000), (0x3000, 0x4000), (0x8000, 0x9000)]);
    let p = pairs(&s);
    assert_eq!(p, vec![(0x1000, 0x2000), (0x3000, 0x4000), (0x5000, 0x6000), (0x8000, 0x9000)]);
    for w in p.windows(2) {
        assert!(w[0].0 < w[0].1);
        assert!(w[0].1 < w[1].0);
    }
}

#[test]
fn insert_overlapping_span_unions() {
    let s = set_of(&[(0x1000, 0x2000), (0x3000, 0x4000), (0x1800, 0x3800)]);
    assert_eq!(pairs(&s), vec![(0x1000, 0x4000)]);
}

#[test]
fn insert_contained_span_is_noop() {
    let mut s = set_of(&[(0x1000, 0x4000)]);
    s.insert_region(0x2000, 0x3000);
    assert_eq!(pairs(&s), vec![(0x1000, 0x4000)]);
}

#[test]
fn remove_exact_trim_start_trim_end() {
    let mut s = set_of(&[(0x1000, 0x2000), (0x3000, 0x6000)]);
    s.remove_region(0x1000, 0x2000);
    assert_eq!(pairs(&s), vec![(0x3000, 0x6000)]);
    s.remove_region(0x3000, 0x4000);
    assert_eq!(pairs(&s), vec![(0x4000, 0x6000)]);
    s.remove_region(0x5000, 0x6000);
    assert_eq!(pairs(&s), vec![(0x4000, 0x5000)]);
}

#[test]
fn allocate_is_first_fit_and_aligned() {
    let mut s = set_of(&[(0x800, 0x1800), (0x10000, 0x20000)]);
    // the first region has no aligned page that fits 0x1000 bytes
    let a = s.allocate(0x1000, PageSize::Small);
    assert_eq!(a, Some(0x10000));
    assert_eq!(a.unwrap() % 0x1000, 0);
    assert_eq!(pairs(&s), vec![(0x800, 0x1800), (0x11000, 0x20000)]);
    let b = s.allocate(0x800, PageSize::Small);
    assert_eq!(b, Some(0x1000));
    assert_eq!(pairs(&s), vec![(0x800, 0x1000), (0x11000, 0x20000)]);
}

#[test]
fn allocate_large_alignment() {
    let mut s = set_of(&[(0x1000, 0x600000)]);
    let a = s.allocate(0x200000, PageSize::Large);
    assert_eq!(a, Some(0x200000));
    assert_eq!(pairs(&s), vec![(0x1000, 0x200000), (0x400000, 0x600000)]);
}

#[test]
fn allocate_none_leaves_set_unchanged() {
    let mut s = set_of(&[(0x1000, 0x2000), (0x3000, 0x3800)]);
    assert_eq!(s.allocate(0x2000, PageSize::Small), None);
    assert_eq!(pairs(&s), vec![(0x1000, 0x2000), (0x3000, 0x3800)]);
}

#[test]
fn allocate_from_respects_lower_bound() {
    let mut s = set_of(&[(0x1000, 0x5000), (0x8000, 0x9000), (0xa000, 0xc000)]);
    assert_eq!(s.allocate_from(0x1800, 0x2000), Some(0xa000));
    assert_eq!(pairs(&s), vec![(0x1000, 0x5000), (0x8000, 0x9000), (0xb800, 0xc000)]);
    assert_eq!(s.allocate_from(0x1000, 0x9000), None);
}

#[test]
fn decomposition_identity_example() {
    let r = MemoryRegion::new(0x0, 0x3000);
    let pieces = r.aligned_power_of_two_regions(&identity(), 12);
    assert_eq!(pieces, vec![
        MemoryRegion::new(0x0, 0x1000),
        MemoryRegion::new(0x1000, 0x2000),
        MemoryRegion::new(0x2000, 0x3000),
    ]);
}

#[test]
fn decomposition_uses_largest_aligned_pieces() {
    let r = MemoryRegion::new(0x1000, 0x10000);
    let pieces = r.aligned_power_of_two_regions(&identity(), 63);
    assert_eq!(pieces, vec![
        MemoryRegion::new(0x1000, 0x2000),
        MemoryRegion::new(0x2000, 0x4000),
        MemoryRegion::new(0x4000, 0x8000),
        MemoryRegion::new(0x8000, 0x10000),
    ]);
    // a partition: consecutive, each a power of two aligned to its size
    assert_eq!(pieces[0].base, 0x1000);
    assert_eq!(pieces.last().unwrap().end, 0x10000);
    for w in pieces.windows(2) {
        assert_eq!(w[0].end, w[1].base);
    }
    for p in &pieces {
        let size = p.size();
        assert!(size.is_power_of_two());
        assert_eq!(p.base % size, 0);
    }
}

#[test]
fn decomposition_wraps_in_kernel_virtual_space() {
    // kernel-virtual addresses wrap: physical 0x1000 is kernel-virtual 0
    let cfg = Config {
        arch: Arch::Aarch64,
        hypervisor: false,
        kernel_vaddr_offset: 0u64.wrapping_sub(0x1000),
        riscv_pt_levels: None,
    };
    let r = MemoryRegion::new(0x0, 0x4000);
    let pieces = r.aligned_power_of_two_regions(&cfg, 63);
    assert_eq!(pieces, vec![
        MemoryRegion::new(0x0, 0x1000),
        MemoryRegion::new(0x1000, 0x3000),
        MemoryRegion::new(0x3000, 0x4000),
    ]);
}

#[test]
fn decomposition_of_empty_region_is_empty() {
    let r = MemoryRegion::new(0x5000, 0x5000);
    assert!(r.aligned_power_of_two_regions(&identity(), 12).is_empty());
}

#[test]
fn set_decomposition_concatenates() {
    let s = set_of(&[(0x0, 0x2000), (0x4000, 0x5000)]);
    let pieces = s.aligned_power_of_two_regions(&identity(), 12);
    assert_eq!(pieces, vec![
        MemoryRegion::new(0x0, 0x1000),
        MemoryRegion::new(0x1000, 0x2000),
        MemoryRegion::new(0x4000, 0x5000),
    ]);
}

#[test]
fn untyped_size_bits_is_lowest_set_bit() {
    let ut = UntypedObject::new(7, MemoryRegion::new(0x10000, 0x20000), true);
    assert_eq!(ut.size_bits(), 16);
    assert_eq!(ut.base(), 0x10000);
    assert_eq!(ut.end(), 0x20000);
}

#[test]
fn untyped_descriptor_bytes() {
    let ut = UntypedObject::new(1, MemoryRegion::new(0x8000_0000, 0x8010_0000), true);
    let bytes = microkit::region::serialise_ut(&ut);
    assert_eq!(bytes.len(), 16);
    assert_eq!(&bytes[0..8], &0x8000_0000u64.to_le_bytes());
    assert_eq!(bytes[8], 20);
    assert_eq!(bytes[9], 1);
    assert!(bytes[10..].iter().all(|b| *b == 0));
}
