use microkit::elf::{ElfFile, ElfSegment, ElfSymbol};
use microkit::loader::{
    aarch64_setup_pagetables, check_non_overlapping, riscv64_setup_pagetables, Aarch64, Loader,
    LoaderError, RegionLabel, Riscv64,
};
use microkit::region::MemoryRegion;
use microkit::sel4::{Arch, Config, RiscvVirtualMemory};

const IMAGE_VADDR: u64 = 0x7000_0000;
const KERNEL_VADDR: u64 = 0xFFFF_FF80_0000_0000;

fn word(buf: &[u8], pos: usize) -> u64 {
    u64::from_le_bytes(buf[pos..pos + 8].try_into().unwrap())
}

fn segment(vaddr: u64, data: Vec<u8>, loadable: bool) -> ElfSegment {
    let mem_size = data.len() as u64;
    ElfSegment { data, phys_addr: vaddr, virt_addr: vaddr, loadable, attrs: 0, mem_size }
}

fn sym(name: &str, value: u64, size: u64) -> ElfSymbol {
    ElfSymbol { name: name.as_bytes().to_vec(), value, size }
}

/// A 64-bit bootloader for `n` kernels, with AArch64 table arrays in its image.
fn bootloader(n: u8) -> ElfFile {
    let mut data = vec![0u8; 0x20000];
    data[0x10] = n;
    let per = 4096 * n as u64;
    ElfFile {
        word_size: 64,
        entry: IMAGE_VADDR,
        segments: vec![segment(IMAGE_VADDR, data, true)],
        symbols: vec![
            sym("num_multikernels", IMAGE_VADDR + 0x10, 1),
            sym("boot_lvl0_lower", IMAGE_VADDR + 0x1000, per),
            sym("boot_lvl1_lower", IMAGE_VADDR + 0x5000, per),
            sym("boot_lvl0_upper", IMAGE_VADDR + 0x9000, per),
            sym("boot_lvl1_upper", IMAGE_VADDR + 0xd000, per),
            sym("boot_lvl2_upper", IMAGE_VADDR + 0x11000, per),
        ],
    }
}

fn kernel() -> ElfFile {
    ElfFile {
        word_size: 64,
        entry: KERNEL_VADDR + 0x100,
        segments: vec![segment(KERNEL_VADDR, vec![0xaa; 0x2000], true), segment(0, vec![1, 2, 3], false)],
        symbols: vec![],
    }
}

fn task(entry: u64) -> ElfFile {
    ElfFile {
        word_size: 64,
        entry,
        segments: vec![segment(0x20_0000, vec![0x55; 0x1000], true)],
        symbols: vec![],
    }
}

fn config() -> Config {
    Config { arch: Arch::Aarch64, hypervisor: false, kernel_vaddr_offset: 0, riscv_pt_levels: None }
}

fn two_kernels(system: Vec<(u64, Vec<u8>)>) -> Result<Loader, LoaderError> {
    let pv = [KERNEL_VADDR - 0x4000_0000, KERNEL_VADDR - 0x5000_0000];
    let tasks = [task(0x20_0000), task(0x20_0010)];
    let phys = [0x4800_0000u64, 0x5800_0000];
    let reserved = [MemoryRegion::new(0x9000_0000, 0x9000_1000), MemoryRegion::new(0x9100_0000, 0x9100_1000)];
    let ram = [
        vec![MemoryRegion::new(0x4000_0000, 0x5000_0000)],
        vec![MemoryRegion::new(0x5000_0000, 0x6000_0000)],
    ];
    Loader::new(&config(), &bootloader(2), &kernel(), &pv, &tasks, &phys, &reserved, system, &ram)
}

#[test]
fn aarch64_tables_scenario() {
    let elf = bootloader(1);
    let first_vaddr = 0xFFFF_FF80_0000_0000u64;
    let first_paddr = 0x4000_0000u64;
    let tables = aarch64_setup_pagetables(&elf, first_vaddr, first_paddr, 0).unwrap();
    assert_eq!(tables.len(), 5);
    let (l0l_addr, l0l_size, l0l) = &tables[0];
    let l1l_addr = tables[1].0;
    let l1u_addr = tables[3].0;
    assert_eq!(*l0l_addr, IMAGE_VADDR + 0x1000);
    assert_eq!(*l0l_size, 4096);
    assert_eq!(l0l.len(), 4096);
    assert_eq!(word(l0l, 0), l1l_addr | 3);
    let lvl0 = Aarch64::lvl0_index(first_vaddr);
    assert_eq!(lvl0, 511);
    assert_eq!(word(l0l, 8 * lvl0), l1u_addr | 3);
    let l2u = &tables[4].2;
    let lvl2 = Aarch64::lvl2_index(first_vaddr);
    assert_eq!(word(l2u, 8 * lvl2), first_paddr | 0x711);
    assert_eq!(word(l2u, 8 * (lvl2 + 1)), (first_paddr + 0x20_0000) | 0x711);
    let l1l = &tables[1].2;
    assert_eq!(word(l1l, 8 * 3), (3u64 << 30) | (1 << 10) | 1);
    let l1u = &tables[3].2;
    assert_eq!(word(l1u, 8 * Aarch64::lvl1_index(first_vaddr)), tables[4].0 | 3);
    assert!(tables[2].2.iter().all(|b| *b == 0));
}

#[test]
fn aarch64_tables_offset_moves_addresses() {
    let elf = bootloader(2);
    let tables = aarch64_setup_pagetables(&elf, KERNEL_VADDR, 0x5000_0000, 4096).unwrap();
    assert_eq!(tables[0].0, IMAGE_VADDR + 0x1000 + 4096);
    assert_eq!(word(&tables[0].2, 0), (IMAGE_VADDR + 0x5000 + 4096) | 3);
}

#[test]
fn aarch64_tables_missing_symbol() {
    let mut elf = bootloader(1);
    elf.symbols.retain(|s| s.name != b"boot_lvl2_upper");
    match aarch64_setup_pagetables(&elf, KERNEL_VADDR, 0x4000_0000, 0) {
        Err(LoaderError::MissingSymbol(name)) => assert_eq!(name, "boot_lvl2_upper"),
        other => panic!("unexpected {:?}", other.map(|t| t.len())),
    }
}

#[test]
fn riscv_sv39_tables_scenario() {
    let text = 0x8000_0000u64;
    let elf = ElfFile {
        word_size: 64,
        entry: text,
        segments: vec![segment(text, vec![0u8; 0x10000], true)],
        symbols: vec![
            sym("_text", text, 0),
            sym("boot_lvl1_pt", text + 0x1000, 4096),
            sym("boot_lvl2_pt", text + 0x2000, 4096),
            sym("boot_lvl2_pt_elf", text + 0x3000, 4096),
        ],
    };
    let first_vaddr = 0xFFFF_FFC0_0020_0000u64;
    let first_paddr = 0x8020_0000u64;
    let levels = RiscvVirtualMemory::Sv39.levels();
    assert_eq!(levels, 3);
    let tables = riscv64_setup_pagetables(levels, &elf, first_vaddr, first_paddr, 0).unwrap();
    assert_eq!(tables.len(), 3);
    let idx2 = Riscv64::pt_index(levels, first_vaddr, 2);
    assert_eq!(idx2, 1);
    let lvl2 = &tables[1].2;
    assert_eq!(word(lvl2, 8 * idx2), ((first_paddr >> 12) << 10) | 0xCF);
    assert_eq!(word(lvl2, 0), 0);
    let lvl1 = &tables[0].2;
    let idx1 = Riscv64::pt_index(levels, first_vaddr, 1);
    assert_eq!(word(lvl1, 8 * idx1), (((text + 0x2000) >> 12) << 10) | 1);
    let tidx = Riscv64::pt_index(levels, text, 1);
    assert_eq!(word(lvl1, 8 * tidx), (((text + 0x3000) >> 12) << 10) | 1);
    let elf_table = &tables[2].2;
    let t2 = Riscv64::pt_index(levels, text, 2);
    assert_eq!(word(elf_table, 8 * t2), ((text >> 12) << 10) | 0xCF);
    assert_eq!(Riscv64::pte_leaf(0x8020_0000), Riscv64::pte_ppn(0x8020_0000) | 0xCF);
    assert_eq!(Riscv64::pte_next(0x1000), (1 << 10) | 1);
}

#[test]
fn two_kernel_image_layout() {
    let loader = two_kernels(vec![]).unwrap();
    let mut out = Vec::new();
    loader.write_image(&mut out);
    let image_len = 0x20000usize;
    let header = 48usize;
    let kernel_segments = 1usize;
    let num_regions = 2 * (kernel_segments + 1);
    let data: usize = 2 * 0x2000 + 2 * 0x1000;
    assert_eq!(loader.header.num_regions, num_regions as u64);
    assert_eq!(out.len(), image_len + header + 2 * 4096 + 32 * num_regions + data);
    assert_eq!(loader.header.magic, 0x5e14dead14de5ead);
    assert_eq!(loader.header.num_multikernels, 2);
    assert_eq!(loader.header.size, (header + num_regions * 32 + data) as u64);
    assert_eq!(loader.header.kernel_v_entry, KERNEL_VADDR + 0x100);
    // two hand-off pages, each starting with the record's magic
    let blocks = image_len + header;
    for i in 0..2 {
        let at = blocks + i * 4096;
        assert_eq!(u32::from_le_bytes(out[at..at + 4].try_into().unwrap()), 0x73654c34);
        // root task entry of the kernel's own initial task
        assert_eq!(word(&out, at + 8), 0x20_0000 + 0x10 * i as u64);
        // one kernel, one RAM, one root-task and two reserved regions
        assert_eq!(&out[at + 16..at + 20], &[1, 1, 1, 2]);
    }
    // the first kernel's region: its physical base, end left to the bootloader
    assert_eq!(word(&out, blocks + 24), 0x4000_0000);
    assert_eq!(word(&out, blocks + 32), 0);
    // the second kernel reserves the first kernel's RAM
    let second = blocks + 4096;
    let reserved_at = second + 24 + 16 + 16 + 32;
    assert_eq!(word(&out, reserved_at), 0x9100_0000);
    assert_eq!(word(&out, reserved_at + 16), 0x4000_0000);
    assert_eq!(word(&out, reserved_at + 24), 0x5000_0000);
    // descriptors: kernels, then initial tasks, offsets running over the data
    let desc = blocks + 2 * 4096;
    assert_eq!(word(&out, desc), 0x4000_0000);
    assert_eq!(word(&out, desc + 8), 0x2000);
    assert_eq!(word(&out, desc + 16), 0);
    assert_eq!(word(&out, desc + 24), 1);
    assert_eq!(word(&out, desc + 32), 0x5000_0000);
    assert_eq!(word(&out, desc + 48), 0x2000);
    assert_eq!(word(&out, desc + 64), 0x4800_0000);
    assert_eq!(word(&out, desc + 80), 0x4000);
    assert_eq!(loader.regions[0].2, RegionLabel::Kernel(0));
    assert_eq!(loader.regions[1].2, RegionLabel::Kernel(1));
    assert_eq!(loader.regions[2].2, RegionLabel::InitialTask);
    // the tables were patched into the bootloader image, one page per kernel
    assert_eq!(word(&out, 0x1000), (IMAGE_VADDR + 0x5000) | 3);
    assert_eq!(word(&out, 0x2000), (IMAGE_VADDR + 0x5000 + 4096) | 3);
}

#[test]
fn overlapping_regions_are_named() {
    let regions = vec![
        (0x1000u64, vec![0u8; 8], RegionLabel::System(0)),
        (0x1004u64, vec![0u8; 8], RegionLabel::System(1)),
    ];
    assert_eq!(check_non_overlapping(&regions), Some((0, 1)));
    let apart = vec![
        (0x1000u64, vec![0u8; 8], RegionLabel::System(0)),
        (0x1008u64, vec![0u8; 8], RegionLabel::System(1)),
    ];
    assert_eq!(check_non_overlapping(&apart), None);
}

#[test]
fn overlapping_system_regions_fail_assembly() {
    match two_kernels(vec![(0x1000, vec![0u8; 8]), (0x1004, vec![0u8; 8])]) {
        Err(LoaderError::OverlappingRegions { first, second, regions }) => {
            assert_eq!(regions[first], (0x1000, 8, RegionLabel::System(0)));
            assert_eq!(regions[second], (0x1004, 8, RegionLabel::System(1)));
        },
        Err(e) => panic!("unexpected error {:?}", e),
        Ok(_) => panic!("overlap not detected"),
    }
}

#[test]
fn replica_count_mismatch() {
    let pv = [KERNEL_VADDR - 0x4000_0000];
    let tasks = [task(0x20_0000)];
    let phys = [0x4800_0000u64];
    let reserved = [MemoryRegion::new(0x9000_0000, 0x9000_1000)];
    let ram = [vec![MemoryRegion::new(0x4000_0000, 0x5000_0000)]];
    let r = Loader::new(&config(), &bootloader(2), &kernel(), &pv, &tasks, &phys, &reserved, vec![], &ram);
    assert!(matches!(r, Err(LoaderError::ReplicaCountMismatch)));
}

#[test]
fn unexpected_word_size() {
    let mut elf = bootloader(1);
    elf.word_size = 16;
    let r = Loader::new(&config(), &elf, &kernel(), &[0], &[task(0)], &[0], &[MemoryRegion::new(0, 1)], vec![], &[vec![]]);
    assert!(matches!(r, Err(LoaderError::UnexpectedWordSize(16))));
}

#[test]
fn missing_kernel_count() {
    let mut elf = bootloader(1);
    elf.symbols.remove(0);
    let r = Loader::new(&config(), &elf, &kernel(), &[0], &[task(0)], &[0], &[MemoryRegion::new(0, 1)], vec![], &[vec![]]);
    assert!(matches!(r, Err(LoaderError::MissingSymbol(_))));
}

#[test]
fn zero_kernels() {
    let elf = bootloader(0);
    let r = Loader::new(&config(), &elf, &kernel(), &[], &[], &[], &[], vec![], &[]);
    assert!(matches!(r, Err(LoaderError::NoKernels)));
}

#[test]
fn loader_entry_must_start_image() {
    let mut elf = bootloader(2);
    elf.entry = IMAGE_VADDR + 4;
    let pv = [KERNEL_VADDR - 0x4000_0000, KERNEL_VADDR - 0x5000_0000];
    let tasks = [task(0x20_0000), task(0x20_0000)];
    let phys = [0x4800_0000u64, 0x5800_0000];
    let reserved = [MemoryRegion::new(0x9000_0000, 0x9000_1000), MemoryRegion::new(0x9100_0000, 0x9100_1000)];
    let ram = [
        vec![MemoryRegion::new(0x4000_0000, 0x5000_0000)],
        vec![MemoryRegion::new(0x5000_0000, 0x6000_0000)],
    ];
    let r = Loader::new(&config(), &elf, &kernel(), &pv, &tasks, &phys, &reserved, vec![], &ram);
    assert!(matches!(r, Err(LoaderError::LoaderEntryMismatch)));
}

#[test]
fn initial_task_needs_one_segment() {
    let mut t = task(0);
    t.segments.push(segment(0x40_0000, vec![1], true));
    let r = Loader::new(&config(), &bootloader(1), &kernel(), &[KERNEL_VADDR - 0x4000_0000], &[t], &[0x4800_0000], &[MemoryRegion::new(0, 1)], vec![], &[vec![]]);
    assert!(matches!(r, Err(LoaderError::InitialTaskSegments(0))));
}

#[test]
fn kernel_without_loadable_segment() {
    let mut k = kernel();
    k.segments.retain(|s| !s.loadable);
    let r = Loader::new(&config(), &bootloader(1), &k, &[0], &[task(0)], &[0], &[MemoryRegion::new(0, 1)], vec![], &[vec![]]);
    assert!(matches!(r, Err(LoaderError::NoKernelSegment)));
}

#[test]
fn shared_ram_is_refused() {
    let pv = [KERNEL_VADDR - 0x4000_0000, KERNEL_VADDR - 0x5000_0000];
    let tasks = [task(0x20_0000), task(0x20_0000)];
    let phys = [0x4800_0000u64, 0x5800_0000];
    let reserved = [MemoryRegion::new(0x9000_0000, 0x9000_1000), MemoryRegion::new(0x9100_0000, 0x9100_1000)];
    let ram = [
        vec![MemoryRegion::new(0x4000_0000, 0x5000_0000)],
        vec![MemoryRegion::new(0x4000_0000, 0x5000_0000)],
    ];
    let r = Loader::new(&config(), &bootloader(2), &kernel(), &pv, &tasks, &phys, &reserved, vec![], &ram);
    assert!(matches!(r, Err(LoaderError::SharedRamRegions)));
}

#[test]
fn riscv_without_levels_is_refused() {
    let cfg = Config { arch: Arch::Riscv64, hypervisor: true, kernel_vaddr_offset: 0, riscv_pt_levels: None };
    let r = Loader::new(&cfg, &bootloader(1), &kernel(), &[KERNEL_VADDR - 0x4000_0000], &[task(0)], &[0x4800_0000], &[MemoryRegion::new(0, 1)], vec![], &[vec![]]);
    assert!(matches!(r, Err(LoaderError::MissingPageTableLevels)));
}

#[test]
fn find_symbol_and_data() {
    let elf = bootloader(3);
    assert_eq!(elf.find_symbol("num_multikernels").unwrap(), (IMAGE_VADDR + 0x10, 1));
    assert!(elf.find_symbol("nothing").is_err());
    assert_eq!(elf.get_data(IMAGE_VADDR + 0x10, 1), Some(vec![3]));
    assert_eq!(elf.get_data(IMAGE_VADDR + 0x1ffff, 2), None);
    assert_eq!(kernel().loadable_segments().len(), 1);
}

fn one_kernel_with(
    loader: &ElfFile,
    k: &ElfFile,
    pv: u64,
    t: ElfFile,
    phys: u64,
    ram: Vec<MemoryRegion>,
) -> Result<Loader, LoaderError> {
    Loader::new(&config(), loader, k, &[pv], &[t], &[phys], &[MemoryRegion::new(0x9000_0000, 0x9000_1000)], vec![], &[ram])
}

#[test]
fn unreadable_kernel_count() {
    let mut elf = bootloader(1);
    elf.symbols[0].value = 0x1000;
    let r = one_kernel_with(&elf, &kernel(), KERNEL_VADDR - 0x4000_0000, task(0), 0x4800_0000, vec![]);
    assert!(matches!(r, Err(LoaderError::UnreadableKernelCount)));
}

#[test]
fn kernel_offset_below_zero() {
    let r = one_kernel_with(&bootloader(1), &kernel(), KERNEL_VADDR + 1, task(0), 0x4800_0000, vec![]);
    assert!(matches!(r, Err(LoaderError::AddressOverflow)));
}

#[test]
fn empty_initial_task_range() {
    let r = one_kernel_with(&bootloader(1), &kernel(), KERNEL_VADDR - 0x4000_0000, task(0), u64::MAX - 0x100, vec![]);
    assert!(matches!(r, Err(LoaderError::EmptyInitialTask(0))));
}

#[test]
fn bootloader_without_loadable_segment() {
    let mut elf = bootloader(1);
    elf.segments[0].loadable = false;
    let r = one_kernel_with(&elf, &kernel(), KERNEL_VADDR - 0x4000_0000, task(0), 0x4800_0000, vec![]);
    assert!(matches!(r, Err(LoaderError::NoLoaderSegment)));
}

#[test]
fn page_table_outside_image() {
    let mut elf = bootloader(1);
    elf.symbols[5].value = IMAGE_VADDR + 0x20000;
    let r = one_kernel_with(&elf, &kernel(), KERNEL_VADDR - 0x4000_0000, task(0), 0x4800_0000, vec![]);
    assert!(matches!(r, Err(LoaderError::PageTableOutOfImage)));
}

#[test]
fn too_many_ram_regions() {
    let ram: Vec<MemoryRegion> = (0..256u64).map(|i| MemoryRegion::new(i * 0x1000, i * 0x1000 + 0x800)).collect();
    let r = one_kernel_with(&bootloader(1), &kernel(), KERNEL_VADDR - 0x4000_0000, task(0), 0x4800_0000, ram);
    assert!(matches!(r, Err(LoaderError::TooManyRegions)));
}

#[test]
fn hand_off_larger_than_a_page() {
    let ram: Vec<MemoryRegion> = (0..251u64).map(|i| MemoryRegion::new(i * 0x1000, i * 0x1000 + 0x800)).collect();
    let r = one_kernel_with(&bootloader(1), &kernel(), KERNEL_VADDR - 0x4000_0000, task(0), 0x4800_0000, ram);
    assert!(matches!(r, Err(LoaderError::BootInfoTooLarge(4104))));
}

#[test]
fn one_kernel_hypervisor_flag_and_32_bit_magic() {
    let mut elf = bootloader(1);
    elf.word_size = 32;
    let cfg = Config { arch: Arch::Aarch64, hypervisor: true, kernel_vaddr_offset: 0, riscv_pt_levels: None };
    let l = Loader::new(&cfg, &elf, &kernel(), &[KERNEL_VADDR - 0x4000_0000], &[task(0x20_0000)], &[0x4800_0000], &[MemoryRegion::new(0x9000_0000, 0x9000_1000)], vec![(0x6000_0000, vec![7; 16])], &[vec![]]).unwrap();
    assert_eq!(l.header.magic, 0x5e14dead);
    assert_eq!(l.header.flags, 1);
    assert_eq!(l.regions[2].2, RegionLabel::System(0));
    assert_eq!(l.region_metadata[2].offset, 0x2000 + 0x1000);
    let mut out = Vec::new();
    l.write_image(&mut out);
    assert_eq!(&out[out.len() - 16..], &[7; 16]);
}
