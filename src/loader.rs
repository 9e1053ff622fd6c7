//! Assembly of the boot image: the bootloader's boot page tables, the
//! hand-off records of each kernel, and the layout of every region.
use crate::elf::{ElfFile, ElfSegment};
use crate::encode::{encode_words, le_words, push_bytes, push_u64, push_zeros};
use crate::kernel_bootinfo::{
    boot_info_bytes, pair_bytes, root_task_bytes, seL4_KernelBootInfo, seL4_KernelBoot_KernelRegion, seL4_KernelBoot_RamRegion,
    seL4_KernelBoot_ReservedRegion, seL4_KernelBoot_RootTaskRegion, BOOT_INFO_BYTES,
    REGION_RECORD_BYTES, ROOT_TASK_RECORD_BYTES, SEL4_KERNEL_BOOT_INFO_MAGIC,
    SEL4_KERNEL_BOOT_INFO_VERSION_0,
};
use crate::region::MemoryRegion;
use crate::sel4::{Arch, Config};
use vstd::bytes::spec_u64_to_le_bytes;
use vstd::prelude::*;

verus! {

/// Bytes of one boot page table.
pub const PAGE_TABLE_SIZE: usize = 4096;

/// Most a 2 MiB block entry adds to the base address of a table: 511 blocks.
pub const BLOCK_SPAN_2MB: u64 = 511 * 0x20_0000;

pub open spec fn zero_table() -> Seq<u64> {
    Seq::new(512, |_i: int| 0u64)
}

/// Index helpers for the AArch64 4 KiB-granule boot tables.
pub struct Aarch64;

pub open spec fn lvl0_of(addr: u64) -> int {
    ((addr >> 39u64) & 0x1ff) as int
}

pub open spec fn lvl1_of(addr: u64) -> int {
    ((addr >> 30u64) & 0x1ff) as int
}

pub open spec fn lvl2_of(addr: u64) -> int {
    ((addr >> 21u64) & 0x1ff) as int
}

impl Aarch64 {
    /// Index in a level-0 table: bits 47..39.
    pub fn lvl0_index(addr: u64) -> (r: usize)
        ensures
            r == lvl0_of(addr),
            r < 512,
    {
        let idx = (addr >> 39u64) & 0x1ff;
        assert(idx < 512) by (bit_vector)
            requires
                idx == (addr >> 39u64) & 0x1ff,
        ;
        idx as usize
    }

    /// Index in a level-1 table: bits 38..30.
    pub fn lvl1_index(addr: u64) -> (r: usize)
        ensures
            r == lvl1_of(addr),
            r < 512,
    {
        let idx = (addr >> 30u64) & 0x1ff;
        assert(idx < 512) by (bit_vector)
            requires
                idx == (addr >> 30u64) & 0x1ff,
        ;
        idx as usize
    }

    /// Index in a level-2 table: bits 29..21.
    pub fn lvl2_index(addr: u64) -> (r: usize)
        ensures
            r == lvl2_of(addr),
            r < 512,
    {
        let idx = (addr >> 21u64) & 0x1ff;
        assert(idx < 512) by (bit_vector)
            requires
                idx == (addr >> 21u64) & 0x1ff,
        ;
        idx as usize
    }
}

/// Entry and index helpers for the RISC-V Sv39/48/57 boot tables.
pub struct Riscv64;

pub open spec fn pt_index_of(pt_levels: nat, addr: u64, level: nat) -> int {
    ((addr >> ((9 * (pt_levels - level) + 12) as u64)) % 512) as int
}

pub open spec fn pte_ppn_of(addr: u64) -> u64 {
    (addr >> 12u64) << 10u64
}

/// A valid entry pointing at the next-level table at `addr`.
pub open spec fn pte_next_of(addr: u64) -> u64 {
    pte_ppn_of(addr) | 1
}

/// A valid leaf entry for `addr` with D, A, X, W and R set.
pub open spec fn pte_leaf_of(addr: u64) -> u64 {
    pte_ppn_of(addr) | 0xce | 1
}

impl Riscv64 {
    /// The index that `addr` selects at `level` (1 for the root) of a tree
    /// with `pt_levels` levels.
    pub fn pt_index(pt_levels: usize, addr: u64, level: usize) -> (r: usize)
        requires
            level <= pt_levels <= level + 5,
        ensures
            r == pt_index_of(pt_levels as nat, addr, level as nat),
            r < 512,
    {
        let pt_index_bits = 9 * (pt_levels - level) as u64;
        let idx = (addr >> (pt_index_bits + 12)) % 512;
        idx as usize
    }

    /// Physical page number of `addr`, placed where an entry holds it.
    pub fn pte_ppn(addr: u64) -> (r: u64)
        ensures
            r == pte_ppn_of(addr),
    {
        (addr >> 12u64) << 10u64
    }

    pub fn pte_next(addr: u64) -> (r: u64)
        ensures
            r == pte_next_of(addr),
    {
        let ppn = Self::pte_ppn(addr);
        assert(ppn | 0 | 1 == ppn | 1) by (bit_vector);
        ppn | 0 | 1
    }

    pub fn pte_leaf(addr: u64) -> (r: u64)
        ensures
            r == pte_leaf_of(addr),
    {
        Self::pte_ppn(addr) | 0xce | 1
    }
}

/// The AArch64 lower level-0 table: slot 0 points at the identity level-1
/// table, the slot of `first_vaddr` at the upper level-1 table.
pub open spec fn aarch64_lvl0_lower(lvl1_lower: u64, lvl1_upper: u64, first_vaddr: u64) -> Seq<u64> {
    zero_table().update(0, lvl1_lower | 3).update(lvl0_of(first_vaddr), lvl1_upper | 3)
}

/// The identity level-1 table: 512 1 GiB blocks, access flag set, strongly
/// ordered.
pub open spec fn aarch64_lvl1_lower() -> Seq<u64> {
    Seq::new(512, |i: int| ((i as u64) << 30u64) | 0x401)
}

pub open spec fn aarch64_lvl1_upper(lvl2_upper: u64, first_vaddr: u64) -> Seq<u64> {
    zero_table().update(lvl1_of(first_vaddr), lvl2_upper | 3)
}

/// The upper level-2 table: from the slot of `first_vaddr` on, 2 MiB blocks
/// of normal inner-shareable memory from `first_paddr` on.
pub open spec fn aarch64_lvl2_upper(first_paddr: u64, first_vaddr: u64) -> Seq<u64> {
    Seq::new(
        512,
        |i: int|
            if i < lvl2_of(first_vaddr) {
                0u64
            } else {
                ((((i - lvl2_of(first_vaddr)) as u64) << 21u64) + first_paddr) as u64 | 0x711
            },
    )
}

/// The RISC-V root table: the slot of `text` points at the table mapping
/// the bootloader, the slot of `first_vaddr` at the kernel's.
pub open spec fn riscv_lvl1(levels: nat, text: u64, lvl2_elf: u64, lvl2: u64, first_vaddr: u64) -> Seq<u64> {
    zero_table().update(pt_index_of(levels, text, 1), pte_next_of(lvl2_elf)).update(
        pt_index_of(levels, first_vaddr, 1),
        pte_next_of(lvl2),
    )
}

/// A RISC-V level-2 table mapping 2 MiB leaves from `paddr` on, starting at
/// the slot of `vaddr`.
pub open spec fn riscv_lvl2(levels: nat, vaddr: u64, paddr: u64) -> Seq<u64> {
    Seq::new(
        512,
        |i: int|
            if i < pt_index_of(levels, vaddr, 2) {
                0u64
            } else {
                pte_leaf_of(
                    (paddr + (((i - pt_index_of(levels, vaddr, 2)) as u64) << 21u64)) as u64,
                )
            },
    )
}

/// The tables as (address, size, bytes) values.
pub open spec fn tables_view(r: Seq<(u64, u64, Vec<u8>)>) -> Seq<(u64, u64, Seq<u8>)> {
    r.map_values(|t: (u64, u64, Vec<u8>)| (t.0, t.1, t.2@))
}

pub open spec fn aarch64_tables(
    lvl0_lower: (u64, u64),
    lvl1_lower: (u64, u64),
    lvl0_upper: (u64, u64),
    lvl1_upper: (u64, u64),
    lvl2_upper: (u64, u64),
    first_vaddr: u64,
    first_paddr: u64,
) -> Seq<(u64, u64, Seq<u8>)> {
    seq![
        (lvl0_lower.0, lvl0_lower.1, le_words(aarch64_lvl0_lower(lvl1_lower.0, lvl1_upper.0, first_vaddr))),
        (lvl1_lower.0, lvl1_lower.1, le_words(aarch64_lvl1_lower())),
        (lvl0_upper.0, lvl0_upper.1, le_words(zero_table())),
        (lvl1_upper.0, lvl1_upper.1, le_words(aarch64_lvl1_upper(lvl2_upper.0, first_vaddr))),
        (lvl2_upper.0, lvl2_upper.1, le_words(aarch64_lvl2_upper(first_paddr, first_vaddr))),
    ]
}

pub open spec fn riscv64_tables(
    levels: nat,
    text_addr: u64,
    lvl1_pt: (u64, u64),
    lvl2_pt: (u64, u64),
    lvl2_pt_elf: (u64, u64),
    first_vaddr: u64,
    first_paddr: u64,
) -> Seq<(u64, u64, Seq<u8>)> {
    seq![
        (lvl1_pt.0, lvl1_pt.1, le_words(riscv_lvl1(levels, text_addr, lvl2_pt_elf.0, lvl2_pt.0, first_vaddr))),
        (lvl2_pt.0, lvl2_pt.1, le_words(riscv_lvl2(levels, first_vaddr, first_paddr))),
        (lvl2_pt_elf.0, lvl2_pt_elf.1, le_words(riscv_lvl2(levels, text_addr, text_addr))),
    ]
}

/// `(addr + offset, size)` of a symbol, when it exists and does not wrap.
pub open spec fn shifted_symbol(elf: ElfFile, name: Seq<char>, offset: u64) -> Option<(u64, u64)> {
    match elf.symbol(name) {
        Some(s) => if s.0 + offset <= u64::MAX {
            Some(((s.0 + offset) as u64, s.1))
        } else {
            None
        },
        None => None,
    }
}

/// The AArch64 boot tables of one kernel, with their symbols moved by
/// `offset`; `None` when a symbol is missing or an address wraps.
pub open spec fn aarch64_setup(elf: ElfFile, first_vaddr: u64, first_paddr: u64, offset: u64) -> Option<
    Seq<(u64, u64, Seq<u8>)>,
> {
    let l1l = shifted_symbol(elf, "boot_lvl1_lower"@, offset);
    let l1u = shifted_symbol(elf, "boot_lvl1_upper"@, offset);
    let l2u = shifted_symbol(elf, "boot_lvl2_upper"@, offset);
    let l0l = shifted_symbol(elf, "boot_lvl0_lower"@, offset);
    let l0u = shifted_symbol(elf, "boot_lvl0_upper"@, offset);
    if l1l.is_some() && l1u.is_some() && l2u.is_some() && l0l.is_some() && l0u.is_some()
        && first_paddr <= u64::MAX - BLOCK_SPAN_2MB {
        Some(
            aarch64_tables(
                l0l.unwrap(),
                l1l.unwrap(),
                l0u.unwrap(),
                l1u.unwrap(),
                l2u.unwrap(),
                first_vaddr,
                first_paddr,
            ),
        )
    } else {
        None
    }
}

/// The RISC-V boot tables of one kernel, with the table symbols moved by
/// `offset`; `None` when a symbol is missing or an address wraps.
pub open spec fn riscv64_setup(
    levels: nat,
    elf: ElfFile,
    first_vaddr: u64,
    first_paddr: u64,
    offset: u64,
) -> Option<Seq<(u64, u64, Seq<u8>)>> {
    let text = elf.symbol("_text"@);
    let l1 = shifted_symbol(elf, "boot_lvl1_pt"@, offset);
    let l2 = shifted_symbol(elf, "boot_lvl2_pt"@, offset);
    let l2e = shifted_symbol(elf, "boot_lvl2_pt_elf"@, offset);
    if text.is_some() && l1.is_some() && l2.is_some() && l2e.is_some() && text.unwrap().0
        <= u64::MAX - BLOCK_SPAN_2MB && first_paddr <= u64::MAX - BLOCK_SPAN_2MB {
        Some(
            riscv64_tables(
                levels,
                text.unwrap().0,
                l1.unwrap(),
                l2.unwrap(),
                l2e.unwrap(),
                first_vaddr,
                first_paddr,
            ),
        )
    } else {
        None
    }
}

proof fn lemma_block_offset(k: u64)
    requires
        k < 512,
    ensures
        (k << 21u64) <= BLOCK_SPAN_2MB,
{
    assert((k << 21u64) <= 511 * 0x20_0000) by (bit_vector)
        requires
            k < 512,
    ;
}

/// Builds the five AArch64 boot tables from the addresses of their symbols.
/// Each entry of the result is (address, symbol size, table bytes), in the
/// order level-0 lower, level-1 lower, level-0 upper, level-1 upper,
/// level-2 upper.
pub fn aarch64_pagetables(
    lvl0_lower: (u64, u64),
    lvl1_lower: (u64, u64),
    lvl0_upper: (u64, u64),
    lvl1_upper: (u64, u64),
    lvl2_upper: (u64, u64),
    first_vaddr: u64,
    first_paddr: u64,
) -> (r: Vec<(u64, u64, Vec<u8>)>)
    requires
        first_paddr <= u64::MAX - BLOCK_SPAN_2MB,
    ensures
        r@.len() == 5,
        r@[0].0 == lvl0_lower.0 && r@[0].1 == lvl0_lower.1,
        r@[1].0 == lvl1_lower.0 && r@[1].1 == lvl1_lower.1,
        r@[2].0 == lvl0_upper.0 && r@[2].1 == lvl0_upper.1,
        r@[3].0 == lvl1_upper.0 && r@[3].1 == lvl1_upper.1,
        r@[4].0 == lvl2_upper.0 && r@[4].1 == lvl2_upper.1,
        r@[0].2@ == le_words(aarch64_lvl0_lower(lvl1_lower.0, lvl1_upper.0, first_vaddr)),
        r@[1].2@ == le_words(aarch64_lvl1_lower()),
        r@[2].2@ == le_words(zero_table()),
        r@[3].2@ == le_words(aarch64_lvl1_upper(lvl2_upper.0, first_vaddr)),
        r@[4].2@ == le_words(aarch64_lvl2_upper(first_paddr, first_vaddr)),
        tables_view(r@) == aarch64_tables(
            lvl0_lower,
            lvl1_lower,
            lvl0_upper,
            lvl1_upper,
            lvl2_upper,
            first_vaddr,
            first_paddr,
        ),
{
    let mut boot_lvl0_lower: Vec<u64> = vec![0u64; 512];
    boot_lvl0_lower[0] = lvl1_lower.0 | 3;
    let idx0 = Aarch64::lvl0_index(first_vaddr);
    boot_lvl0_lower[idx0] = lvl1_upper.0 | 3;
    proof {
        assert(boot_lvl0_lower@ =~= aarch64_lvl0_lower(lvl1_lower.0, lvl1_upper.0, first_vaddr));
    }

    let mut boot_lvl1_lower: Vec<u64> = vec![0u64; 512];
    let mut i: usize = 0;
    while i < 512
        invariant
            i <= 512,
            boot_lvl1_lower@.len() == 512,
            forall|k: int| 0 <= k < i ==> #[trigger] boot_lvl1_lower@[k] == aarch64_lvl1_lower()[k],
        decreases 512 - i,
    {
        // access flag, strongly ordered memory, 1 GiB block
        boot_lvl1_lower[i] = ((i as u64) << 30u64) | 0x401;
        i = i + 1;
    }
    proof {
        assert(boot_lvl1_lower@ =~= aarch64_lvl1_lower());
    }

    let boot_lvl0_upper: Vec<u64> = vec![0u64; 512];
    proof {
        assert(boot_lvl0_upper@ =~= zero_table());
    }

    let mut boot_lvl1_upper: Vec<u64> = vec![0u64; 512];
    let idx1 = Aarch64::lvl1_index(first_vaddr);
    boot_lvl1_upper[idx1] = lvl2_upper.0 | 3;
    proof {
        assert(boot_lvl1_upper@ =~= aarch64_lvl1_upper(lvl2_upper.0, first_vaddr));
    }

    let mut boot_lvl2_upper: Vec<u64> = vec![0u64; 512];
    let lvl2_idx = Aarch64::lvl2_index(first_vaddr);
    let mut j: usize = lvl2_idx;
    while j < 512
        invariant
            lvl2_idx <= j <= 512,
            lvl2_idx == lvl2_of(first_vaddr),
            first_paddr <= u64::MAX - BLOCK_SPAN_2MB,
            boot_lvl2_upper@.len() == 512,
            forall|k: int| 0 <= k < j ==> #[trigger] boot_lvl2_upper@[k] == aarch64_lvl2_upper(first_paddr, first_vaddr)[k],
            forall|k: int| j <= k < 512 ==> #[trigger] boot_lvl2_upper@[k] == 0,
        decreases 512 - j,
    {
        let block = ((j - lvl2_idx) as u64) << 21u64;
        proof {
            lemma_block_offset((j - lvl2_idx) as u64);
        }
        // access flag, inner shareable, normal memory, 2 MiB block
        boot_lvl2_upper[j] = (block + first_paddr) | 0x711;
        j = j + 1;
    }
    proof {
        assert(boot_lvl2_upper@ =~= aarch64_lvl2_upper(first_paddr, first_vaddr));
    }

    let mut r: Vec<(u64, u64, Vec<u8>)> = Vec::new();
    r.push((lvl0_lower.0, lvl0_lower.1, encode_words(&boot_lvl0_lower)));
    r.push((lvl1_lower.0, lvl1_lower.1, encode_words(&boot_lvl1_lower)));
    r.push((lvl0_upper.0, lvl0_upper.1, encode_words(&boot_lvl0_upper)));
    r.push((lvl1_upper.0, lvl1_upper.1, encode_words(&boot_lvl1_upper)));
    r.push((lvl2_upper.0, lvl2_upper.1, encode_words(&boot_lvl2_upper)));
    proof {
        assert(tables_view(r@) =~= aarch64_tables(
            lvl0_lower,
            lvl1_lower,
            lvl0_upper,
            lvl1_upper,
            lvl2_upper,
            first_vaddr,
            first_paddr,
        ));
    }
    r
}

/// A RISC-V level-2 table of 2 MiB leaves for `paddr` on, from the slot of
/// `vaddr`.
fn riscv_leaf_table(levels: usize, vaddr: u64, paddr: u64) -> (r: Vec<u64>)
    requires
        2 <= levels <= 6,
        paddr <= u64::MAX - BLOCK_SPAN_2MB,
    ensures
        r@ == riscv_lvl2(levels as nat, vaddr, paddr),
{
    let mut table: Vec<u64> = vec![0u64; 512];
    let index = Riscv64::pt_index(levels, vaddr, 2);
    let mut i: usize = index;
    while i < 512
        invariant
            index <= i <= 512,
            index == pt_index_of(levels as nat, vaddr, 2),
            paddr <= u64::MAX - BLOCK_SPAN_2MB,
            table@.len() == 512,
            forall|k: int| 0 <= k < i ==> #[trigger] table@[k] == riscv_lvl2(levels as nat, vaddr, paddr)[k],
            forall|k: int| i <= k < 512 ==> #[trigger] table@[k] == 0,
        decreases 512 - i,
    {
        let page = (i - index) as u64;
        proof {
            lemma_block_offset(page);
        }
        let addr = paddr + (page << 21u64);
        table[i] = Riscv64::pte_leaf(addr);
        i = i + 1;
    }
    proof {
        assert(table@ =~= riscv_lvl2(levels as nat, vaddr, paddr));
    }
    table
}

/// Builds the three RISC-V boot tables from the addresses of their symbols.
/// Each entry of the result is (address, symbol size, table bytes), in the
/// order level-1, level-2 for the kernel, level-2 for the bootloader.
pub fn riscv64_pagetables(
    levels: usize,
    text_addr: u64,
    lvl1_pt: (u64, u64),
    lvl2_pt: (u64, u64),
    lvl2_pt_elf: (u64, u64),
    first_vaddr: u64,
    first_paddr: u64,
) -> (r: Vec<(u64, u64, Vec<u8>)>)
    requires
        3 <= levels <= 5,
        text_addr <= u64::MAX - BLOCK_SPAN_2MB,
        first_paddr <= u64::MAX - BLOCK_SPAN_2MB,
    ensures
        r@.len() == 3,
        r@[0].0 == lvl1_pt.0 && r@[0].1 == lvl1_pt.1,
        r@[1].0 == lvl2_pt.0 && r@[1].1 == lvl2_pt.1,
        r@[2].0 == lvl2_pt_elf.0 && r@[2].1 == lvl2_pt_elf.1,
        r@[0].2@ == le_words(riscv_lvl1(levels as nat, text_addr, lvl2_pt_elf.0, lvl2_pt.0, first_vaddr)),
        r@[1].2@ == le_words(riscv_lvl2(levels as nat, first_vaddr, first_paddr)),
        r@[2].2@ == le_words(riscv_lvl2(levels as nat, text_addr, text_addr)),
        tables_view(r@) == riscv64_tables(
            levels as nat,
            text_addr,
            lvl1_pt,
            lvl2_pt,
            lvl2_pt_elf,
            first_vaddr,
            first_paddr,
        ),
{
    let mut boot_lvl1_pt: Vec<u64> = vec![0u64; 512];
    let text_index_lvl1 = Riscv64::pt_index(levels, text_addr, 1);
    boot_lvl1_pt[text_index_lvl1] = Riscv64::pte_next(lvl2_pt_elf.0);
    let boot_lvl2_pt_elf = riscv_leaf_table(levels, text_addr, text_addr);
    let index = Riscv64::pt_index(levels, first_vaddr, 1);
    boot_lvl1_pt[index] = Riscv64::pte_next(lvl2_pt.0);
    proof {
        assert(boot_lvl1_pt@ =~= riscv_lvl1(levels as nat, text_addr, lvl2_pt_elf.0, lvl2_pt.0, first_vaddr));
    }
    let boot_lvl2_pt = riscv_leaf_table(levels, first_vaddr, first_paddr);
    let mut r: Vec<(u64, u64, Vec<u8>)> = Vec::new();
    r.push((lvl1_pt.0, lvl1_pt.1, encode_words(&boot_lvl1_pt)));
    r.push((lvl2_pt.0, lvl2_pt.1, encode_words(&boot_lvl2_pt)));
    r.push((lvl2_pt_elf.0, lvl2_pt_elf.1, encode_words(&boot_lvl2_pt_elf)));
    proof {
        assert(tables_view(r@) =~= riscv64_tables(
            levels as nat,
            text_addr,
            lvl1_pt,
            lvl2_pt,
            lvl2_pt_elf,
            first_vaddr,
            first_paddr,
        ));
    }
    r
}


/// What a region of the image holds, for diagnostics.
#[derive(Debug, Clone, Copy, PartialEq, Eq, Structural)]
pub enum RegionLabel {
    /// A segment of a kernel replica, numbered over all replicas.
    Kernel(usize),
    InitialTask,
    /// A region the system description asked for, numbered in order.
    System(usize),
    Loader,
}

/// Why an image cannot be assembled.
#[derive(Debug)]
pub enum LoaderError {
    /// The bootloader is neither a 32-bit nor a 64-bit executable.
    UnexpectedWordSize(usize),
    /// The bootloader lacks a symbol that the assembly needs.
    MissingSymbol(String),
    /// The bytes of `num_multikernels` cannot be read from the bootloader.
    UnreadableKernelCount,
    /// The bootloader is configured for no kernel.
    NoKernels,
    /// The per-kernel inputs are not one per configured kernel.
    ReplicaCountMismatch,
    /// The kernel has no loadable segment.
    NoKernelSegment,
    /// An initial task has other than exactly one loadable segment.
    InitialTaskSegments(usize),
    /// An initial task would occupy no memory.
    EmptyInitialTask(usize),
    /// A RISC-V target without a number of page-table levels.
    MissingPageTableLevels,
    /// The bootloader has no loadable segment.
    NoLoaderSegment,
    /// The bootloader's entry point is not the first byte of its image.
    LoaderEntryMismatch,
    /// A boot page table does not fit its place in the bootloader image.
    PageTableOutOfImage,
    /// An address computation leaves the 64-bit range.
    AddressOverflow,
    /// Two regions overlap in physical memory. `regions` lists every region
    /// as (address, size, label); `first` and `second` index the offenders.
    OverlappingRegions { first: usize, second: usize, regions: Vec<(u64, u64, RegionLabel)> },
    /// Two kernels were handed the same RAM regions.
    SharedRamRegions,
    /// A hand-off record would list more than 255 regions of one kind.
    TooManyRegions,
    /// A hand-off record and its regions exceed one page.
    BootInfoTooLarge(usize),
}

/// `[a, a + la)` and `[b, b + lb)` share an address.
pub open spec fn overlaps(a: u64, la: nat, b: u64, lb: nat) -> bool {
    !(a + la <= b || a >= b + lb)
}

pub open spec fn region_overlap(rs: Seq<(u64, Vec<u8>, RegionLabel)>, j: int, i: int) -> bool {
    overlaps(rs[i].0, rs[i].1@.len(), rs[j].0, rs[j].1@.len())
}

/// Checks that no two regions overlap, the later of each pair against the
/// earlier ones in order. Returns the first overlapping pair found
/// (earlier, later), or `None` when all are disjoint.
pub fn check_non_overlapping(regions: &Vec<(u64, Vec<u8>, RegionLabel)>) -> (r: Option<(usize, usize)>)
    ensures
        match r {
            None => forall|j: int, i: int| 0 <= j < i < regions@.len() ==> !region_overlap(regions@, j, i),
            Some((j, i)) => {
                &&& j < i < regions@.len()
                &&& region_overlap(regions@, j as int, i as int)
                &&& forall|j2: int, i2: int|
                    0 <= j2 < i2 < regions@.len() && (i2 < i || (i2 == i && j2 < j)) ==> !region_overlap(regions@, j2, i2)
            },
        },
{
    let n = regions.len();
    let mut i: usize = 0;
    while i < n
        invariant
            n == regions@.len(),
            i <= n,
            forall|j2: int, i2: int| 0 <= j2 < i2 < i ==> !region_overlap(regions@, j2, i2),
        decreases n - i,
    {
        let base = regions[i].0 as u128;
        let end = base + regions[i].1.len() as u128;
        let mut j: usize = 0;
        while j < i
            invariant
                n == regions@.len(),
                j <= i < n,
                base == regions@[i as int].0,
                end == regions@[i as int].0 + regions@[i as int].1@.len(),
                forall|j2: int, i2: int| 0 <= j2 < i2 < i ==> !region_overlap(regions@, j2, i2),
                forall|j2: int| 0 <= j2 < j ==> !region_overlap(regions@, j2, i as int),
            decreases i - j,
        {
            let b = regions[j].0 as u128;
            let e = b + regions[j].1.len() as u128;
            if !(end <= b || base >= e) {
                return Some((j, i));
            }
            j = j + 1;
        }
        i = i + 1;
    }
    None
}

/// Looks up `name`, turning its absence into an error that names it.
fn symbol(elf: &ElfFile, name: &str) -> (r: Result<(u64, u64), LoaderError>)
    ensures
        match r {
            Ok(found) => elf.symbol(name@) == Some(found),
            Err(e) => elf.symbol(name@).is_none() && e is MissingSymbol,
        },
{
    match elf.find_symbol(name) {
        Ok(found) => Ok(found),
        Err(missing) => Err(LoaderError::MissingSymbol(missing)),
    }
}

/// `(addr + offset, size)`, failing when the address wraps.
fn shifted(sym: (u64, u64), offset: u64) -> (r: Result<(u64, u64), LoaderError>)
    ensures
        match r {
            Ok(s) => sym.0 + offset <= u64::MAX && s == ((sym.0 + offset) as u64, sym.1),
            Err(e) => sym.0 + offset > u64::MAX && e is AddressOverflow,
        },
{
    if sym.0 > u64::MAX - offset {
        Err(LoaderError::AddressOverflow)
    } else {
        Ok((sym.0 + offset, sym.1))
    }
}


/// The AArch64 boot tables of one kernel, read from the bootloader's
/// symbols, each moved by `offset` into the kernel's share of the table
/// arrays.
pub fn aarch64_setup_pagetables(elf: &ElfFile, first_vaddr: u64, first_paddr: u64, offset: u64) -> (r:
    Result<Vec<(u64, u64, Vec<u8>)>, LoaderError>)
    ensures
        match r {
            Ok(t) => aarch64_setup(*elf, first_vaddr, first_paddr, offset) == Some(tables_view(t@)),
            Err(e) => aarch64_setup(*elf, first_vaddr, first_paddr, offset).is_none() && (e is MissingSymbol
                || e is AddressOverflow),
        },
{
    let boot_lvl1_lower = shifted(symbol(elf, "boot_lvl1_lower")?, offset)?;
    let boot_lvl1_upper = shifted(symbol(elf, "boot_lvl1_upper")?, offset)?;
    let boot_lvl2_upper = shifted(symbol(elf, "boot_lvl2_upper")?, offset)?;
    let boot_lvl0_lower = shifted(symbol(elf, "boot_lvl0_lower")?, offset)?;
    let boot_lvl0_upper = shifted(symbol(elf, "boot_lvl0_upper")?, offset)?;
    if first_paddr > u64::MAX - BLOCK_SPAN_2MB {
        return Err(LoaderError::AddressOverflow);
    }
    Ok(
        aarch64_pagetables(
            boot_lvl0_lower,
            boot_lvl1_lower,
            boot_lvl0_upper,
            boot_lvl1_upper,
            boot_lvl2_upper,
            first_vaddr,
            first_paddr,
        ),
    )
}

/// The RISC-V boot tables of one kernel, read from the bootloader's symbols;
/// the table symbols are moved by `offset` into the kernel's share of the
/// table arrays.
pub fn riscv64_setup_pagetables(
    levels: usize,
    elf: &ElfFile,
    first_vaddr: u64,
    first_paddr: u64,
    offset: u64,
) -> (r: Result<Vec<(u64, u64, Vec<u8>)>, LoaderError>)
    requires
        3 <= levels <= 5,
    ensures
        match r {
            Ok(t) => riscv64_setup(levels as nat, *elf, first_vaddr, first_paddr, offset) == Some(
                tables_view(t@),
            ),
            Err(e) => riscv64_setup(levels as nat, *elf, first_vaddr, first_paddr, offset).is_none() && (e
                is MissingSymbol || e is AddressOverflow),
        },
{
    let (text_addr, _) = symbol(elf, "_text")?;
    let boot_lvl1_pt = shifted(symbol(elf, "boot_lvl1_pt")?, offset)?;
    let boot_lvl2_pt = shifted(symbol(elf, "boot_lvl2_pt")?, offset)?;
    let boot_lvl2_pt_elf = shifted(symbol(elf, "boot_lvl2_pt_elf")?, offset)?;
    if text_addr > u64::MAX - BLOCK_SPAN_2MB || first_paddr > u64::MAX - BLOCK_SPAN_2MB {
        return Err(LoaderError::AddressOverflow);
    }
    Ok(
        riscv64_pagetables(
            levels,
            text_addr,
            boot_lvl1_pt,
            boot_lvl2_pt,
            boot_lvl2_pt_elf,
            first_vaddr,
            first_paddr,
        ),
    )
}


/// Describes one region of the image to the bootloader.
#[derive(Debug, Clone, Copy)]
pub struct LoaderRegion64 {
    pub load_addr: u64,
    pub size: u64,
    pub offset: u64,
    pub region_type: u64,
}

/// The fixed header that follows the bootloader image.
#[derive(Debug, Clone, Copy)]
pub struct LoaderHeader64 {
    pub magic: u64,
    pub size: u64,
    pub flags: u64,
    pub num_multikernels: u64,
    pub num_regions: u64,
    pub kernel_v_entry: u64,
}

/// Bytes of an encoded `LoaderHeader64`.
pub const LOADER_HEADER_BYTES: u64 = 48;

/// Bytes of an encoded `LoaderRegion64`.
pub const LOADER_REGION_BYTES: u64 = 32;

/// Bytes given to the hand-off record of each kernel in the image.
pub const BOOT_INFO_BLOCK_BYTES: u64 = 4096;

/// The loader magic for a word size.
pub open spec fn loader_magic(word_size: nat) -> Option<u64> {
    if word_size == 32 {
        Some(0x5e14dead)
    } else if word_size == 64 {
        Some(0x5e14dead14de5ead)
    } else {
        None
    }
}

/// The number of kernels the bootloader was built for: the first byte of
/// its `num_multikernels` symbol.
pub open spec fn kernel_count(elf: ElfFile) -> Option<nat> {
    match elf.symbol("num_multikernels"@) {
        Some((addr, size)) => match crate::elf::data_at(elf.segments@, addr, size) {
            Some(d) => if d.len() > 0 {
                Some(d[0] as nat)
            } else {
                None
            },
            None => None,
        },
        None => None,
    }
}

/// A region as a value: address, contents, label.
pub open spec fn region_view(r: (u64, Vec<u8>, RegionLabel)) -> (u64, Seq<u8>, RegionLabel) {
    (r.0, r.1@, r.2)
}

pub open spec fn regions_view(rs: Seq<(u64, Vec<u8>, RegionLabel)>) -> Seq<(u64, Seq<u8>, RegionLabel)> {
    rs.map_values(|r: (u64, Vec<u8>, RegionLabel)| region_view(r))
}

/// The kernel's loadable segments placed for the replica at `pv_offset`,
/// labelled from `first_label` on.
pub open spec fn replica_regions(segs: Seq<ElfSegment>, pv_offset: u64, first_label: nat) -> Seq<
    (u64, Seq<u8>, RegionLabel),
> {
    Seq::new(
        segs.len(),
        |k: int|
            (
                (segs[k].virt_addr - pv_offset) as u64,
                segs[k].data@,
                RegionLabel::Kernel((first_label + k) as usize),
            ),
    )
}

/// The regions of every kernel replica, replica after replica.
pub open spec fn kernel_regions_spec(segs: Seq<ElfSegment>, pv_offsets: Seq<u64>) -> Seq<
    (u64, Seq<u8>, RegionLabel),
>
    decreases pv_offsets.len(),
{
    if pv_offsets.len() == 0 {
        seq![]
    } else {
        let before = kernel_regions_spec(segs, pv_offsets.drop_last());
        before + replica_regions(segs, pv_offsets.last(), before.len())
    }
}

/// No replica's offset moves a kernel segment below address zero.
pub open spec fn offsets_fit(segs: Seq<ElfSegment>, pv_offsets: Seq<u64>) -> bool {
    forall|i: int, k: int| 0 <= i < pv_offsets.len() && 0 <= k < segs.len() ==> #[trigger] pv_offsets[i] <= #[trigger] segs[k].virt_addr
}

/// The one loadable segment of an initial task.
pub open spec fn task_segment(t: ElfFile) -> ElfSegment {
    crate::elf::loadable(t.segments@)[0]
}

/// Where an initial task goes: (pv offset, first physical address, end of
/// its physical range, entry point).
pub open spec fn task_info(t: ElfFile, phys: u64) -> (u64, u64, u64, u64) {
    let seg = task_segment(t);
    let first_vaddr = seg.virt_addr;
    let last_vaddr = crate::util::round_up_spec(first_vaddr + seg.mem_size, 4096) as u64;
    let p_v_offset = vstd::wrapping::u64_specs::wrapping_sub(first_vaddr, phys);
    (
        vstd::wrapping::u64_specs::wrapping_sub(phys, first_vaddr),
        phys,
        vstd::wrapping::u64_specs::wrapping_sub(last_vaddr, p_v_offset),
        t.entry,
    )
}

/// The initial task can be placed: one loadable segment whose rounded end
/// stays in range, giving a non-empty physical range.
pub open spec fn task_fits(t: ElfFile, phys: u64) -> bool {
    &&& crate::elf::loadable(t.segments@).len() == 1
    &&& task_segment(t).virt_addr + task_segment(t).mem_size + 4096 <= u64::MAX
    &&& task_info(t, phys).2 > task_info(t, phys).1
}

/// Sum of the sizes of the regions.
pub open spec fn total_data(rs: Seq<(u64, Seq<u8>, RegionLabel)>) -> nat
    decreases rs.len(),
{
    if rs.len() == 0 {
        0
    } else {
        total_data(rs.drop_last()) + rs.last().1.len()
    }
}

/// The descriptors of the regions: each region's data follows the data of
/// the regions before it.
pub open spec fn metadata_spec(rs: Seq<(u64, Seq<u8>, RegionLabel)>) -> Seq<LoaderRegion64> {
    Seq::new(
        rs.len(),
        |k: int|
            LoaderRegion64 {
                load_addr: rs[k].0,
                size: rs[k].1.len() as u64,
                offset: total_data(rs.take(k)) as u64,
                region_type: 1,
            },
    )
}


/// The boot tables of every kernel, kernel after kernel; kernel `i` gets the
/// `i`-th page of each table array.
pub open spec fn replica_tables(config: Config, elf: ElfFile, first_vaddr: u64, paddrs: Seq<u64>) -> Option<
    Seq<(u64, u64, Seq<u8>)>,
>
    decreases paddrs.len(),
{
    if paddrs.len() == 0 {
        Some(seq![])
    } else {
        match replica_tables(config, elf, first_vaddr, paddrs.drop_last()) {
            None => None,
            Some(before) => {
                let off = ((paddrs.len() - 1) * 4096) as u64;
                let t = match config.arch {
                    Arch::Aarch64 => aarch64_setup(elf, first_vaddr, paddrs.last(), off),
                    Arch::Riscv64 => match config.riscv_pt_levels {
                        Some(l) => riscv64_setup(l.levels_spec(), elf, first_vaddr, paddrs.last(), off),
                        None => None,
                    },
                };
                match t {
                    Some(t) => Some(before + t),
                    None => None,
                }
            },
        }
    }
}

/// A table fits its place in an image of `img_len` bytes loaded at `vaddr`,
/// and is the kernel's share of its symbol.
pub open spec fn patch_fits(img_len: nat, vaddr: u64, n: nat, t: (u64, u64, Seq<u8>)) -> bool {
    &&& t.0 > vaddr
    &&& t.1 / (n as u64) == t.2.len()
    &&& (t.0 - vaddr) + t.2.len() <= img_len
}

/// The image with each table written over its place, in order.
pub open spec fn apply_patches(img: Seq<u8>, vaddr: u64, ts: Seq<(u64, u64, Seq<u8>)>) -> Seq<u8>
    decreases ts.len(),
{
    if ts.len() == 0 {
        img
    } else {
        let prev = apply_patches(img, vaddr, ts.drop_last());
        let t = ts.last();
        let off = t.0 - vaddr;
        prev.subrange(0, off) + t.2 + prev.subrange(off + t.2.len(), prev.len() as int)
    }
}

/// The RAM regions of every kernel other than `i`, kernel after kernel.
pub open spec fn other_ram(ram: Seq<Seq<MemoryRegion>>, i: int, n: nat) -> Seq<MemoryRegion>
    decreases n,
{
    if n == 0 {
        seq![]
    } else if n - 1 != i {
        other_ram(ram, i, (n - 1) as nat) + ram[n - 1]
    } else {
        other_ram(ram, i, (n - 1) as nat)
    }
}

pub open spec fn ram_view(ram: Seq<Vec<MemoryRegion>>) -> Seq<Seq<MemoryRegion>> {
    ram.map_values(|v: Vec<MemoryRegion>| v@)
}

pub type KernelBootInfoRecords = (
    seL4_KernelBootInfo,
    Vec<seL4_KernelBoot_KernelRegion>,
    Vec<seL4_KernelBoot_RamRegion>,
    Vec<seL4_KernelBoot_RootTaskRegion>,
    Vec<seL4_KernelBoot_ReservedRegion>,
);

/// The hand-off of one kernel: the kernel region (whose end the bootloader
/// fills in), its RAM, its initial task, and as reserved the given region
/// followed by the RAM of every other kernel.
pub open spec fn boot_info_matches(
    b: KernelBootInfoRecords,
    first_paddr: u64,
    task: (u64, u64, u64, u64),
    ram: Seq<MemoryRegion>,
    reserved: Seq<MemoryRegion>,
) -> bool {
    let (info, kr, rr, rt, res) = b;
    &&& info.magic == SEL4_KERNEL_BOOT_INFO_MAGIC
    &&& info.version == SEL4_KERNEL_BOOT_INFO_VERSION_0
    &&& info._padding0@ == seq![0u8, 0u8, 0u8]
    &&& info.root_task_entry == task.3
    &&& info.num_kernel_regions == 1
    &&& info.num_ram_regions == ram.len()
    &&& info.num_root_task_regions == 1
    &&& info.num_reserved_regions == reserved.len()
    &&& info._padding@ == seq![0u8, 0u8, 0u8, 0u8]
    &&& kr@.len() == 1 && kr@[0].base == first_paddr && kr@[0].end == 0
    &&& rr@.len() == ram.len()
    &&& forall|k: int| 0 <= k < ram.len() ==> (#[trigger] rr@[k]).base == ram[k].base && rr@[k].end == ram[k].end
    &&& rt@.len() == 1 && rt@[0].paddr_base == task.1 && rt@[0].paddr_end == task.2
    &&& rt@[0].vaddr_base == vstd::wrapping::u64_specs::wrapping_sub(task.1, task.0)
    &&& rt@[0]._padding@ == Seq::new(8, |_i: int| 0u8)
    &&& res@.len() == reserved.len()
    &&& forall|k: int| 0 <= k < reserved.len() ==> (#[trigger] res@[k]).base == reserved[k].base && res@[k].end == reserved[k].end
}

/// Bytes of a hand-off record and its region records.
pub open spec fn boot_info_size(b: KernelBootInfoRecords) -> nat {
    (BOOT_INFO_BYTES + REGION_RECORD_BYTES * (b.1@.len() + b.2@.len() + b.4@.len())
        + ROOT_TASK_RECORD_BYTES * b.3@.len()) as nat
}


/// The number of kernels the bootloader was built for.
fn read_kernel_count(elf: &ElfFile) -> (r: Result<usize, LoaderError>)
    ensures
        match r {
            Ok(n) => kernel_count(*elf) == Some(n as nat) && n > 0,
            Err(e) => (kernel_count(*elf).is_none() || kernel_count(*elf) == Some(0nat)) && (e is MissingSymbol
                || e is UnreadableKernelCount || e is NoKernels),
        },
{
    let (addr, size) = symbol(elf, "num_multikernels")?;
    match elf.get_data(addr, size) {
        Some(data) => {
            if data.len() == 0 {
                return Err(LoaderError::UnreadableKernelCount);
            }
            let n = data[0] as usize;
            if n == 0 {
                return Err(LoaderError::NoKernels);
            }
            Ok(n)
        },
        None => Err(LoaderError::UnreadableKernelCount),
    }
}

/// The kernel's loadable segments placed once for each replica, labelled in
/// order; an error when an offset would move a segment below zero.
fn place_kernels(
    segs: &Vec<&ElfSegment>,
    pv_offsets: &[u64],
    Ghost(ksegs): Ghost<Seq<ElfSegment>>,
) -> (r: Result<(Vec<(u64, Vec<u8>, RegionLabel)>, Vec<u64>), LoaderError>)
    requires
        segs@.len() == ksegs.len() > 0,
        forall|k: int| 0 <= k < ksegs.len() ==> *(#[trigger] segs@[k]) == ksegs[k],
    ensures
        match r {
            Ok((regions, paddrs)) => {
                &&& offsets_fit(ksegs, pv_offsets@)
                &&& regions_view(regions@) == kernel_regions_spec(ksegs, pv_offsets@)
                &&& paddrs@.len() == pv_offsets@.len()
                &&& forall|i: int| 0 <= i < paddrs@.len() ==> #[trigger] paddrs@[i] == ksegs[0].virt_addr - pv_offsets@[i]
            },
            Err(e) => !offsets_fit(ksegs, pv_offsets@) && e is AddressOverflow,
        },
{
    let mut regions: Vec<(u64, Vec<u8>, RegionLabel)> = Vec::new();
    let mut paddrs: Vec<u64> = Vec::new();
    let n = pv_offsets.len();
    let mut i: usize = 0;
    while i < n
        invariant
            n == pv_offsets@.len(),
            i <= n,
            segs@.len() == ksegs.len() > 0,
            forall|k: int| 0 <= k < ksegs.len() ==> *(#[trigger] segs@[k]) == ksegs[k],
            offsets_fit(ksegs, pv_offsets@.take(i as int)),
            regions_view(regions@) == kernel_regions_spec(ksegs, pv_offsets@.take(i as int)),
            paddrs@.len() == i,
            forall|j: int| 0 <= j < i ==> #[trigger] paddrs@[j] == ksegs[0].virt_addr - pv_offsets@[j],
        decreases n - i,
    {
        let pv = pv_offsets[i];
        let ghost before = regions_view(regions@);
        let ghost first_label = before.len();
        proof {
            assert(pv_offsets@.take(i + 1).drop_last() =~= pv_offsets@.take(i as int));
        }
        let mut k: usize = 0;
        while k < segs.len()
            invariant
                n == pv_offsets@.len(),
                i < n,
                pv == pv_offsets@[i as int],
                segs@.len() == ksegs.len() > 0,
                forall|m: int| 0 <= m < ksegs.len() ==> *(#[trigger] segs@[m]) == ksegs[m],
                forall|m: int| 0 <= m < k ==> pv <= (#[trigger] ksegs[m]).virt_addr,
                first_label == before.len(),
                before == kernel_regions_spec(ksegs, pv_offsets@.take(i as int)),
                paddrs@.len() == i,
                forall|j: int| 0 <= j < i ==> #[trigger] paddrs@[j] == ksegs[0].virt_addr - pv_offsets@[j],
                offsets_fit(ksegs, pv_offsets@.take(i as int)),
                k <= segs@.len(),
                regions@.len() == first_label + k,
                regions_view(regions@) == before + replica_regions(ksegs, pv, first_label).take(k as int),
            decreases segs@.len() - k,
        {
            let seg = segs[k];
            if seg.virt_addr < pv {
                proof {
                    assert(pv_offsets@[i as int] > ksegs[k as int].virt_addr);
                }
                return Err(LoaderError::AddressOverflow);
            }
            let data = crate::encode::copy_bytes(seg.data.as_slice());
            let label = regions.len();
            let ghost old_regions = regions@;
            let item = (seg.virt_addr - pv, data, RegionLabel::Kernel(label));
            proof {
                assert(*seg == ksegs[k as int]);
                assert(region_view(item) == replica_regions(ksegs, pv, first_label)[k as int]);
            }
            regions.push(item);
            proof {
                assert(regions_view(regions@) =~= regions_view(old_regions).push(region_view(item)));
            }
            k = k + 1;
            proof {
                assert(regions_view(regions@) =~= before + replica_regions(ksegs, pv, first_label).take(k as int));
            }
        }
        paddrs.push(segs[0].virt_addr - pv);
        i = i + 1;
        proof {
            assert(kernel_regions_spec(ksegs, pv_offsets@.take(i as int)) == before + replica_regions(ksegs, pv, first_label));
            assert(replica_regions(ksegs, pv, first_label).take(segs@.len() as int) =~= replica_regions(ksegs, pv, first_label));
            assert(offsets_fit(ksegs, pv_offsets@.take(i as int))) by {
                assert forall|a: int, b: int| 0 <= a < i && 0 <= b < ksegs.len() implies #[trigger] pv_offsets@.take(i as int)[a] <= #[trigger] ksegs[b].virt_addr by {
                    if a < i - 1 {
                        assert(pv_offsets@.take(i - 1)[a] == pv_offsets@.take(i as int)[a]);
                    }
                }
            }
        }
    }
    proof {
        assert(pv_offsets@.take(n as int) =~= pv_offsets@);
    }
    Ok((regions, paddrs))
}


/// The region of each initial task: its one loadable segment at its
/// physical base.
pub open spec fn task_regions_spec(tasks: Seq<ElfFile>, phys: Seq<u64>) -> Seq<(u64, Seq<u8>, RegionLabel)> {
    Seq::new(tasks.len(), |i: int| (phys[i], task_segment(tasks[i]).data@, RegionLabel::InitialTask))
}

pub open spec fn system_view(sys: Seq<(u64, Vec<u8>)>) -> Seq<(u64, Seq<u8>)> {
    sys.map_values(|t: (u64, Vec<u8>)| (t.0, t.1@))
}

/// The regions the system description asked for, numbered in order.
pub open spec fn system_regions_spec(sys: Seq<(u64, Seq<u8>)>) -> Seq<(u64, Seq<u8>, RegionLabel)> {
    Seq::new(sys.len(), |i: int| (sys[i].0, sys[i].1, RegionLabel::System(i as usize)))
}

/// Places each initial task at its physical base.
fn place_tasks(tasks: &[ElfFile], phys: &[u64]) -> (r: Result<
    (Vec<(u64, Vec<u8>, RegionLabel)>, Vec<(u64, u64, u64, u64)>),
    LoaderError,
>)
    requires
        tasks@.len() == phys@.len(),
    ensures
        match r {
            Ok((regions, infos)) => {
                &&& forall|i: int| 0 <= i < tasks@.len() ==> task_fits(#[trigger] tasks@[i], phys@[i])
                &&& regions_view(regions@) == task_regions_spec(tasks@, phys@)
                &&& infos@.len() == tasks@.len()
                &&& forall|i: int| 0 <= i < tasks@.len() ==> #[trigger] infos@[i] == task_info(tasks@[i], phys@[i])
            },
            Err(e) => (exists|i: int| 0 <= i < tasks@.len() && !task_fits(#[trigger] tasks@[i], phys@[i])) && (
            e is InitialTaskSegments || e is AddressOverflow || e is EmptyInitialTask),
        },
{
    let n = tasks.len();
    let mut regions: Vec<(u64, Vec<u8>, RegionLabel)> = Vec::new();
    let mut infos: Vec<(u64, u64, u64, u64)> = Vec::new();
    let mut i: usize = 0;
    while i < n
        invariant
            n == tasks@.len() == phys@.len(),
            i <= n,
            forall|j: int| 0 <= j < i ==> task_fits(#[trigger] tasks@[j], phys@[j]),
            regions_view(regions@) == task_regions_spec(tasks@, phys@).take(i as int),
            infos@.len() == i,
            forall|j: int| 0 <= j < i ==> #[trigger] infos@[j] == task_info(tasks@[j], phys@[j]),
        decreases n - i,
    {
        let task = &tasks[i];
        let segments = task.loadable_segments();
        if segments.len() != 1 {
            proof {
                assert(!task_fits(tasks@[i as int], phys@[i as int]));
            }
            return Err(LoaderError::InitialTaskSegments(i));
        }
        let segment = segments[0];
        proof {
            assert(*segment == task_segment(tasks@[i as int]));
        }
        if segment.virt_addr > u64::MAX - 4096 || segment.mem_size > u64::MAX - 4096 - segment.virt_addr {
            proof {
                assert(!task_fits(tasks@[i as int], phys@[i as int]));
            }
            return Err(LoaderError::AddressOverflow);
        }
        let inittask_first_vaddr = segment.virt_addr;
        let inittask_last_vaddr = crate::util::round_up(segment.virt_addr + segment.mem_size(), 4096);
        let inittask_first_paddr = phys[i];
        let inittask_p_v_offset = inittask_first_vaddr.wrapping_sub(inittask_first_paddr);
        let pv_offset = inittask_first_paddr.wrapping_sub(inittask_first_vaddr);
        let ui_p_reg_start = inittask_first_paddr;
        let ui_p_reg_end = inittask_last_vaddr.wrapping_sub(inittask_p_v_offset);
        if ui_p_reg_end <= ui_p_reg_start {
            proof {
                assert(!task_fits(tasks@[i as int], phys@[i as int]));
            }
            return Err(LoaderError::EmptyInitialTask(i));
        }
        let data = crate::encode::copy_bytes(segment.data.as_slice());
        let ghost old_regions = regions@;
        let item = (inittask_first_paddr, data, RegionLabel::InitialTask);
        regions.push(item);
        infos.push((pv_offset, ui_p_reg_start, ui_p_reg_end, task.entry));
        proof {
            assert(regions_view(regions@) =~= regions_view(old_regions).push(region_view(item)));
            assert(regions_view(regions@) =~= task_regions_spec(tasks@, phys@).take(i + 1));
        }
        i = i + 1;
    }
    proof {
        assert(task_regions_spec(tasks@, phys@).take(n as int) =~= task_regions_spec(tasks@, phys@));
    }
    Ok((regions, infos))
}

/// The system regions, labelled in order.
fn place_system(system: &Vec<(u64, Vec<u8>)>) -> (r: Vec<(u64, Vec<u8>, RegionLabel)>)
    ensures
        regions_view(r@) == system_regions_spec(system_view(system@)),
{
    let mut regions: Vec<(u64, Vec<u8>, RegionLabel)> = Vec::new();
    let mut i: usize = 0;
    while i < system.len()
        invariant
            i <= system@.len(),
            regions_view(regions@) == system_regions_spec(system_view(system@)).take(i as int),
        decreases system@.len() - i,
    {
        let data = crate::encode::copy_bytes(system[i].1.as_slice());
        let ghost old_regions = regions@;
        let item = (system[i].0, data, RegionLabel::System(i));
        regions.push(item);
        proof {
            assert(regions_view(regions@) =~= regions_view(old_regions).push(region_view(item)));
            assert(regions_view(regions@) =~= system_regions_spec(system_view(system@)).take(i + 1));
        }
        i = i + 1;
    }
    proof {
        assert(system_regions_spec(system_view(system@)).take(system@.len() as int) =~= system_regions_spec(
            system_view(system@),
        ));
    }
    regions
}


/// The boot tables of every kernel, kernel after kernel.
fn build_tables(config: &Config, elf: &ElfFile, first_vaddr: u64, paddrs: &Vec<u64>) -> (r: Result<
    Vec<(u64, u64, Vec<u8>)>,
    LoaderError,
>)
    requires
        paddrs@.len() <= 256,
    ensures
        match r {
            Ok(t) => replica_tables(*config, *elf, first_vaddr, paddrs@) == Some(tables_view(t@)),
            Err(e) => replica_tables(*config, *elf, first_vaddr, paddrs@).is_none() && (e is MissingSymbol
                || e is AddressOverflow || e is MissingPageTableLevels),
        },
{
    let mut all: Vec<(u64, u64, Vec<u8>)> = Vec::new();
    let mut i: usize = 0;
    while i < paddrs.len()
        invariant
            i <= paddrs@.len() <= 256,
            replica_tables(*config, *elf, first_vaddr, paddrs@.take(i as int)) == Some(tables_view(all@)),
        decreases paddrs@.len() - i,
    {
        proof {
            assert(paddrs@.take(i + 1).drop_last() =~= paddrs@.take(i as int));
        }
        let offset = (i * PAGE_TABLE_SIZE) as u64;
        let tables = match config.arch {
            Arch::Aarch64 => aarch64_setup_pagetables(elf, first_vaddr, paddrs[i], offset),
            Arch::Riscv64 => match config.riscv_pt_levels {
                Some(l) => riscv64_setup_pagetables(l.levels(), elf, first_vaddr, paddrs[i], offset),
                None => Err(LoaderError::MissingPageTableLevels),
            },
        };
        let mut tables = match tables {
            Ok(t) => t,
            Err(e) => {
                proof {
                    lemma_replica_tables_stuck(*config, *elf, first_vaddr, paddrs@, i + 1);
                }
                return Err(e);
            },
        };
        let ghost old_all = tables_view(all@);
        let ghost added = tables_view(tables@);
        all.append(&mut tables);
        proof {
            assert(tables_view(all@) =~= old_all + added);
        }
        i = i + 1;
    }
    proof {
        assert(paddrs@.take(paddrs@.len() as int) =~= paddrs@);
    }
    Ok(all)
}

/// Once the tables of some kernel cannot be built, those of all kernels
/// cannot.
proof fn lemma_replica_tables_stuck(config: Config, elf: ElfFile, first_vaddr: u64, paddrs: Seq<u64>, n: int)
    requires
        0 < n <= paddrs.len(),
        replica_tables(config, elf, first_vaddr, paddrs.take(n)).is_none(),
    ensures
        replica_tables(config, elf, first_vaddr, paddrs).is_none(),
    decreases paddrs.len() - n,
{
    if n == paddrs.len() {
        assert(paddrs.take(n) =~= paddrs);
    } else {
        assert(paddrs.take(n + 1).drop_last() =~= paddrs.take(n));
        lemma_replica_tables_stuck(config, elf, first_vaddr, paddrs, n + 1);
    }
}

/// Writes each table over its place in the bootloader image loaded at
/// `vaddr`; an error when one does not fit.
fn patch_image(image: &mut Vec<u8>, vaddr: u64, n: usize, tables: &Vec<(u64, u64, Vec<u8>)>) -> (r: Result<
    (),
    LoaderError,
>)
    requires
        n > 0,
    ensures
        match r {
            Ok(_) => {
                &&& forall|k: int| 0 <= k < tables@.len() ==> patch_fits(old(image)@.len(), vaddr, n as nat, #[trigger] tables_view(tables@)[k])
                &&& final(image)@ == apply_patches(old(image)@, vaddr, tables_view(tables@))
            },
            Err(e) => e is PageTableOutOfImage && exists|k: int| 0 <= k < tables@.len() && !patch_fits(old(image)@.len(), vaddr, n as nat, #[trigger] tables_view(tables@)[k]),
        },
{
    let ghost start = image@;
    let ghost ts = tables_view(tables@);
    let mut t: usize = 0;
    while t < tables.len()
        invariant
            n > 0,
            t <= tables@.len(),
            ts == tables_view(tables@),
            image@.len() == start.len(),
            start == old(image)@,
            forall|k: int| 0 <= k < t ==> patch_fits(start.len(), vaddr, n as nat, #[trigger] ts[k]),
            image@ == apply_patches(start, vaddr, ts.take(t as int)),
        decreases tables@.len() - t,
    {
        let var_addr = tables[t].0;
        let var_size = tables[t].1 / (n as u64);
        let var_data = &tables[t].2;
        proof {
            assert(ts[t as int] == (var_addr, tables@[t as int].1, var_data@));
        }
        if var_addr <= vaddr || var_size != var_data.len() as u64 || var_addr - vaddr > image.len() as u64
            || var_data.len() > image.len() - (var_addr - vaddr) as usize {
            proof {
                assert(!patch_fits(start.len(), vaddr, n as nat, ts[t as int]));
            }
            return Err(LoaderError::PageTableOutOfImage);
        }
        let offset = (var_addr - vaddr) as usize;
        let ghost prev = image@;
        let ilen = image.len();
        let mut k: usize = 0;
        while k < var_data.len()
            invariant
                k <= var_data@.len(),
                prev.len() == ilen,
                offset + var_data@.len() <= prev.len(),
                image@.len() == prev.len(),
                forall|m: int| 0 <= m < offset ==> #[trigger] image@[m] == prev[m],
                forall|m: int| offset + k <= m < prev.len() ==> #[trigger] image@[m] == prev[m],
                forall|m: int| offset <= m < offset + k ==> #[trigger] image@[m] == var_data@[m - offset],
            decreases var_data@.len() - k,
        {
            image[offset + k] = var_data[k];
            k = k + 1;
        }
        proof {
            let len = var_data@.len() as int;
            assert(image@ =~= prev.subrange(0, offset as int) + var_data@ + prev.subrange(offset + len, prev.len() as int));
            assert(ts.take(t + 1).drop_last() =~= ts.take(t as int));
            assert(ts.take(t + 1).last() == ts[t as int]);
        }
        t = t + 1;
    }
    proof {
        assert(ts.take(tables@.len() as int) =~= ts);
    }
    Ok(())
}


proof fn lemma_total_data_mono(rs: Seq<(u64, Seq<u8>, RegionLabel)>, a: int, b: int)
    requires
        0 <= a <= b <= rs.len(),
    ensures
        total_data(rs.take(a)) <= total_data(rs.take(b)),
    decreases b - a,
{
    if a < b {
        assert(rs.take(b).drop_last() =~= rs.take(b - 1));
        lemma_total_data_mono(rs, a, b - 1);
    }
}

/// The descriptors of the regions, and the size the header announces: the
/// header, then a descriptor and the data of each region.
fn build_metadata(regions: &Vec<(u64, Vec<u8>, RegionLabel)>) -> (r: Result<(Vec<LoaderRegion64>, u64), LoaderError>)
    ensures
        match r {
            Ok((m, size)) => {
                &&& m@ == metadata_spec(regions_view(regions@))
                &&& size == LOADER_HEADER_BYTES + LOADER_REGION_BYTES * regions@.len() + total_data(regions_view(regions@))
            },
            Err(e) => e is AddressOverflow && LOADER_HEADER_BYTES + LOADER_REGION_BYTES * regions@.len() + total_data(
                regions_view(regions@),
            ) > u64::MAX,
        },
{
    let ghost rs = regions_view(regions@);
    let n = regions.len();
    let mut metadata: Vec<LoaderRegion64> = Vec::new();
    let mut offset: u64 = 0;
    let mut size: u64 = LOADER_HEADER_BYTES;
    let mut k: usize = 0;
    while k < n
        invariant
            n == regions@.len() == rs.len(),
            rs == regions_view(regions@),
            k <= n,
            offset == total_data(rs.take(k as int)),
            size == LOADER_HEADER_BYTES + LOADER_REGION_BYTES * k + offset,
            metadata@ == metadata_spec(rs).take(k as int),
        decreases n - k,
    {
        let len = regions[k].1.len() as u64;
        proof {
            assert(rs.take(k + 1).drop_last() =~= rs.take(k as int));
            assert(rs[k as int].1.len() == len);
        }
        if size > u64::MAX - LOADER_REGION_BYTES || len > u64::MAX - LOADER_REGION_BYTES - size {
            proof {
                lemma_total_data_mono(rs, k + 1, n as int);
                assert(rs.take(n as int) =~= rs);
                assert(LOADER_REGION_BYTES * (k + 1) <= LOADER_REGION_BYTES * n);
            }
            return Err(LoaderError::AddressOverflow);
        }
        metadata.push(LoaderRegion64 { load_addr: regions[k].0, size: len, offset, region_type: 1 });
        offset = offset + len;
        size = size + LOADER_REGION_BYTES + len;
        k = k + 1;
        proof {
            assert(metadata@ =~= metadata_spec(rs).take(k as int));
        }
    }
    proof {
        assert(rs.take(n as int) =~= rs);
        assert(metadata_spec(rs).take(n as int) =~= metadata_spec(rs));
    }
    Ok((metadata, size))
}

/// Whether two lists of regions are equal.
fn same_regions(a: &Vec<MemoryRegion>, b: &Vec<MemoryRegion>) -> (r: bool)
    ensures
        r == (a@ == b@),
{
    if a.len() != b.len() {
        return false;
    }
    let mut i: usize = 0;
    while i < a.len()
        invariant
            a@.len() == b@.len(),
            i <= a@.len(),
            forall|k: int| 0 <= k < i ==> a@[k] == b@[k],
        decreases a@.len() - i,
    {
        if a[i] != b[i] {
            return false;
        }
        i = i + 1;
    }
    proof {
        assert(a@ =~= b@);
    }
    true
}

/// Some other kernel was handed the same RAM regions as kernel `i`.
pub open spec fn ram_shared(ram: Seq<Seq<MemoryRegion>>, i: int) -> bool {
    exists|j: int| 0 <= j < ram.len() && j != i && #[trigger] ram[j] == ram[i]
}

/// The hand-off records of kernel `i`.
fn build_boot_info(
    first_paddr: u64,
    task: (u64, u64, u64, u64),
    reserved: MemoryRegion,
    all_ram: &[Vec<MemoryRegion>],
    i: usize,
) -> (r: Result<KernelBootInfoRecords, LoaderError>)
    requires
        i < all_ram@.len(),
    ensures
        ({
            let ram = ram_view(all_ram@);
            let res = seq![reserved] + other_ram(ram, i as int, ram.len());
            match r {
                Ok(b) => {
                    &&& !ram_shared(ram, i as int)
                    &&& ram[i as int].len() <= 255 && res.len() <= 255
                    &&& boot_info_matches(b, first_paddr, task, ram[i as int], res)
                    &&& boot_info_size(b) <= BOOT_INFO_BLOCK_BYTES
                },
                Err(e) => (e is SharedRamRegions || e is TooManyRegions || e is BootInfoTooLarge) && (ram_shared(
                    ram,
                    i as int,
                ) || ram[i as int].len() > 255 || res.len() > 255 || BOOT_INFO_BYTES + REGION_RECORD_BYTES * (1
                    + ram[i as int].len() + res.len()) + ROOT_TASK_RECORD_BYTES > BOOT_INFO_BLOCK_BYTES),
            }
        }),
{
    let ghost ram = ram_view(all_ram@);
    let own = &all_ram[i];
    proof {
        assert(own@ == ram[i as int]);
    }
    let kernel_regions = vec![seL4_KernelBoot_KernelRegion { base: first_paddr, end: 0 }];
    let mut ram_regions: Vec<seL4_KernelBoot_RamRegion> = Vec::new();
    let mut k: usize = 0;
    while k < own.len()
        invariant
            k <= own@.len(),
            ram_regions@.len() == k,
            forall|m: int| 0 <= m < k ==> (#[trigger] ram_regions@[m]).base == own@[m].base && ram_regions@[m].end == own@[m].end,
        decreases own@.len() - k,
    {
        ram_regions.push(seL4_KernelBoot_RamRegion { base: own[k].base, end: own[k].end });
        k = k + 1;
    }
    let root_task_regions = vec![
        seL4_KernelBoot_RootTaskRegion {
            paddr_base: task.1,
            paddr_end: task.2,
            vaddr_base: task.1.wrapping_sub(task.0),
            _padding: [0u8, 0u8, 0u8, 0u8, 0u8, 0u8, 0u8, 0u8],
        },
    ];
    let mut reserved_regions: Vec<seL4_KernelBoot_ReservedRegion> = Vec::new();
    reserved_regions.push(seL4_KernelBoot_ReservedRegion { base: reserved.base, end: reserved.end });
    let ghost mut expected: Seq<MemoryRegion> = seq![reserved];
    let mut j: usize = 0;
    while j < all_ram.len()
        invariant
            i < all_ram@.len(),
            ram == ram_view(all_ram@),
            j <= all_ram@.len(),
            forall|m: int| 0 <= m < j && m != i ==> #[trigger] ram[m] != ram[i as int],
            expected == seq![reserved] + other_ram(ram, i as int, j as nat),
            reserved_regions@.len() == expected.len(),
            forall|m: int| 0 <= m < expected.len() ==> (#[trigger] reserved_regions@[m]).base == expected[m].base && reserved_regions@[m].end == expected[m].end,
        decreases all_ram@.len() - j,
    {
        if j != i {
            let other = &all_ram[j];
            proof {
                assert(other@ == ram[j as int]);
            }
            if same_regions(other, &all_ram[i]) {
                return Err(LoaderError::SharedRamRegions);
            }
            let ghost before = expected;
            let mut k: usize = 0;
            while k < other.len()
                invariant
                    k <= other@.len(),
                    reserved_regions@.len() == before.len() + k,
                    forall|m: int| 0 <= m < before.len() ==> (#[trigger] reserved_regions@[m]).base == before[m].base && reserved_regions@[m].end == before[m].end,
                    forall|m: int| 0 <= m < k ==> (#[trigger] reserved_regions@[before.len() + m]).base == other@[m].base && reserved_regions@[before.len() + m].end == other@[m].end,
                decreases other@.len() - k,
            {
                reserved_regions.push(seL4_KernelBoot_ReservedRegion { base: other[k].base, end: other[k].end });
                k = k + 1;
            }
            proof {
                expected = before + ram[j as int];
                assert forall|m: int| 0 <= m < expected.len() implies (#[trigger] reserved_regions@[m]).base == expected[m].base && reserved_regions@[m].end == expected[m].end by {
                    if m >= before.len() {
                        let q = m - before.len();
                        assert(reserved_regions@[before.len() + q] == reserved_regions@[m]);
                    }
                }
                assert(expected =~= seq![reserved] + other_ram(ram, i as int, (j + 1) as nat));
            }
        } else {
            proof {
                assert(expected =~= seq![reserved] + other_ram(ram, i as int, (j + 1) as nat));
            }
        }
        j = j + 1;
    }
    if ram_regions.len() > 255 || reserved_regions.len() > 255 {
        return Err(LoaderError::TooManyRegions);
    }
    let total = BOOT_INFO_BYTES + REGION_RECORD_BYTES * (1 + ram_regions.len() as u64 + reserved_regions.len() as u64)
        + ROOT_TASK_RECORD_BYTES;
    if total > BOOT_INFO_BLOCK_BYTES {
        return Err(LoaderError::BootInfoTooLarge(total as usize));
    }
    let info = seL4_KernelBootInfo {
        magic: SEL4_KERNEL_BOOT_INFO_MAGIC,
        version: SEL4_KERNEL_BOOT_INFO_VERSION_0,
        _padding0: [0u8, 0u8, 0u8],
        root_task_entry: task.3,
        num_kernel_regions: 1,
        num_ram_regions: ram_regions.len() as u8,
        num_root_task_regions: 1,
        num_reserved_regions: reserved_regions.len() as u8,
        _padding: [0u8, 0u8, 0u8, 0u8],
    };
    proof {
        assert(!ram_shared(ram, i as int));
        assert(info._padding0@ =~= seq![0u8, 0u8, 0u8]);
        assert(info._padding@ =~= seq![0u8, 0u8, 0u8, 0u8]);
        assert(root_task_regions@[0]._padding@ =~= Seq::new(8, |_i: int| 0u8));
        assert(other_ram(ram, i as int, all_ram@.len() as nat) == other_ram(ram, i as int, ram.len()));
    }
    Ok((info, kernel_regions, ram_regions, root_task_regions, reserved_regions))
}


/// An assembled boot image, ready to be written out.
pub struct Loader {
    pub image: Vec<u8>,
    pub header: LoaderHeader64,
    pub kernel_bootinfos: Vec<KernelBootInfoRecords>,
    pub region_metadata: Vec<LoaderRegion64>,
    pub regions: Vec<(u64, Vec<u8>, RegionLabel)>,
}

/// No two of the regions share an address.
pub open spec fn pairwise_disjoint(rs: Seq<(u64, Seq<u8>, RegionLabel)>) -> bool {
    forall|j: int, i: int| 0 <= j < i < rs.len() ==> !overlaps(#[trigger] rs[i].0, rs[i].1.len(), #[trigger] rs[j].0, rs[j].1.len())
}

/// Everything the assembly reads from its inputs, when it succeeds.
pub open spec fn assembled(
    l: Loader,
    config: Config,
    loader_elf: ElfFile,
    kernel_elf: ElfFile,
    pv_offsets: Seq<u64>,
    tasks: Seq<ElfFile>,
    phys: Seq<u64>,
    reserved: Seq<MemoryRegion>,
    system: Seq<(u64, Seq<u8>)>,
    ram: Seq<Seq<MemoryRegion>>,
) -> bool {
    let n = pv_offsets.len();
    let ksegs = crate::elf::loadable(kernel_elf.segments@);
    let first_vaddr = ksegs[0].virt_addr;
    let paddrs = Seq::new(n, |i: int| (first_vaddr - pv_offsets[i]) as u64);
    let regions = kernel_regions_spec(ksegs, pv_offsets) + task_regions_spec(tasks, phys) + system_regions_spec(system);
    let img = crate::elf::loadable(loader_elf.segments@)[0];
    &&& kernel_count(loader_elf) == Some(n)
    &&& tasks.len() == n && phys.len() == n && reserved.len() == n && ram.len() == n
    &&& ksegs.len() > 0 && offsets_fit(ksegs, pv_offsets)
    &&& forall|i: int| 0 <= i < n ==> task_fits(#[trigger] tasks[i], phys[i])
    &&& img.virt_addr == loader_elf.entry
    &&& replica_tables(config, loader_elf, first_vaddr, paddrs) matches Some(ts) && l.image@ == apply_patches(img.data@, img.virt_addr, ts)
    &&& pairwise_disjoint(regions.push((img.virt_addr, l.image@, RegionLabel::Loader)))
    &&& regions_view(l.regions@) == regions
    &&& l.region_metadata@ == metadata_spec(regions)
    &&& loader_magic(loader_elf.word_size as nat) == Some(l.header.magic)
    &&& l.header.size == LOADER_HEADER_BYTES + LOADER_REGION_BYTES * regions.len() + total_data(regions)
    &&& l.header.flags == (if config.hypervisor { 1u64 } else { 0u64 })
    &&& l.header.num_multikernels == n
    &&& l.header.num_regions == regions.len()
    &&& l.header.kernel_v_entry == kernel_elf.entry
    &&& l.kernel_bootinfos@.len() == n
    &&& forall|i: int| 0 <= i < n ==> boot_info_matches(
        #[trigger] l.kernel_bootinfos@[i],
        paddrs[i],
        task_info(tasks[i], phys[i]),
        ram[i],
        seq![reserved[i]] + other_ram(ram, i, n),
    )
}

/// The hand-off of kernel `i` can be built: no other kernel was handed the
/// same RAM, and its records fit in counts of one byte and in one page.
pub open spec fn boot_info_fits(ram: Seq<Seq<MemoryRegion>>, i: int, reserved: MemoryRegion) -> bool {
    let res = seq![reserved] + other_ram(ram, i, ram.len());
    &&& !ram_shared(ram, i)
    &&& ram[i].len() <= 255
    &&& res.len() <= 255
    &&& BOOT_INFO_BYTES + REGION_RECORD_BYTES * (1 + ram[i].len() + res.len()) + ROOT_TASK_RECORD_BYTES
        <= BOOT_INFO_BLOCK_BYTES
}

/// The inputs can be assembled into an image.
pub open spec fn assembly_possible(
    config: Config,
    loader_elf: ElfFile,
    kernel_elf: ElfFile,
    pv_offsets: Seq<u64>,
    tasks: Seq<ElfFile>,
    phys: Seq<u64>,
    reserved: Seq<MemoryRegion>,
    system: Seq<(u64, Seq<u8>)>,
    ram: Seq<Seq<MemoryRegion>>,
) -> bool {
    let n = pv_offsets.len();
    let ksegs = crate::elf::loadable(kernel_elf.segments@);
    let first_vaddr = ksegs[0].virt_addr;
    let paddrs = Seq::new(n, |i: int| (first_vaddr - pv_offsets[i]) as u64);
    let lsegs = crate::elf::loadable(loader_elf.segments@);
    let img = lsegs[0];
    let regions = kernel_regions_spec(ksegs, pv_offsets) + task_regions_spec(tasks, phys) + system_regions_spec(system);
    &&& loader_magic(loader_elf.word_size as nat).is_some()
    &&& kernel_count(loader_elf) == Some(n) && n > 0
    &&& tasks.len() == n && phys.len() == n && reserved.len() == n && ram.len() == n
    &&& ksegs.len() > 0
    &&& offsets_fit(ksegs, pv_offsets)
    &&& forall|i: int| 0 <= i < n ==> task_fits(#[trigger] tasks[i], phys[i])
    &&& lsegs.len() > 0
    &&& img.virt_addr == loader_elf.entry
    &&& match replica_tables(config, loader_elf, first_vaddr, paddrs) {
        Some(ts) => {
            &&& forall|k: int| 0 <= k < ts.len() ==> patch_fits(img.data@.len(), img.virt_addr, n, #[trigger] ts[k])
            &&& pairwise_disjoint(
                regions.push((img.virt_addr, apply_patches(img.data@, img.virt_addr, ts), RegionLabel::Loader)),
            )
        },
        None => false,
    }
    &&& LOADER_HEADER_BYTES + LOADER_REGION_BYTES * regions.len() + total_data(regions) <= u64::MAX
    &&& forall|i: int| 0 <= i < n ==> boot_info_fits(ram, i, #[trigger] reserved[i])
}

impl Loader {
    /// Every hand-off record fits its page.
    pub open spec fn wf(&self) -> bool {
        forall|i: int| 0 <= i < self.kernel_bootinfos@.len() ==> boot_info_size(#[trigger] self.kernel_bootinfos@[i]) <= BOOT_INFO_BLOCK_BYTES
    }

    /// Assembles the image from the parsed bootloader, the kernel, one initial
    /// task, physical base, reserved region and RAM list per kernel, and the
    /// system regions.
    pub fn new(
        config: &Config,
        loader_elf: &ElfFile,
        kernel_elf: &ElfFile,
        kernel_elf_pv_offsets: &[u64],
        initial_task_elfs: &[ElfFile],
        initial_task_phys_base: &[u64],
        reserved_regions: &[MemoryRegion],
        system_regions: Vec<(u64, Vec<u8>)>,
        per_core_ram_regions: &[Vec<MemoryRegion>],
    ) -> (r: Result<Loader, LoaderError>)
        ensures
            r is Ok <==> assembly_possible(
                *config,
                *loader_elf,
                *kernel_elf,
                kernel_elf_pv_offsets@,
                initial_task_elfs@,
                initial_task_phys_base@,
                reserved_regions@,
                system_view(system_regions@),
                ram_view(per_core_ram_regions@),
            ),
            match r {
                Ok(l) => l.wf() && assembled(
                    l,
                    *config,
                    *loader_elf,
                    *kernel_elf,
                    kernel_elf_pv_offsets@,
                    initial_task_elfs@,
                    initial_task_phys_base@,
                    reserved_regions@,
                    system_view(system_regions@),
                    ram_view(per_core_ram_regions@),
                ),
                Err(LoaderError::UnexpectedWordSize(_)) => loader_magic(loader_elf.word_size as nat).is_none(),
                Err(LoaderError::ReplicaCountMismatch) => kernel_count(*loader_elf) matches Some(n) && (
                    kernel_elf_pv_offsets@.len() != n || initial_task_elfs@.len() != n
                        || initial_task_phys_base@.len() != n || reserved_regions@.len() != n
                        || per_core_ram_regions@.len() != n),
                Err(LoaderError::NoKernelSegment) => crate::elf::loadable(kernel_elf.segments@).len() == 0,
                Err(LoaderError::LoaderEntryMismatch) => crate::elf::loadable(loader_elf.segments@).len() > 0
                    && crate::elf::loadable(loader_elf.segments@)[0].virt_addr != loader_elf.entry,
                Err(LoaderError::OverlappingRegions { first, second, regions }) => first < second < regions@.len()
                    && overlaps(regions@[second as int].0, regions@[second as int].1 as nat, regions@[first as int].0, regions@[first as int].1 as nat),
                Err(_) => true,
            },
    {
        let magic: u64 = if loader_elf.word_size == 32 {
            0x5e14dead
        } else if loader_elf.word_size == 64 {
            0x5e14dead14de5ead
        } else {
            return Err(LoaderError::UnexpectedWordSize(loader_elf.word_size));
        };
        let num_multikernels = read_kernel_count(loader_elf)?;
        if kernel_elf_pv_offsets.len() != num_multikernels || initial_task_elfs.len() != num_multikernels
            || initial_task_phys_base.len() != num_multikernels || reserved_regions.len() != num_multikernels
            || per_core_ram_regions.len() != num_multikernels {
            return Err(LoaderError::ReplicaCountMismatch);
        }
        proof {
            assert(num_multikernels <= 255);
        }
        let loadable_kernel_segments = kernel_elf.loadable_segments();
        if loadable_kernel_segments.len() == 0 {
            return Err(LoaderError::NoKernelSegment);
        }
        let ghost ksegs = crate::elf::loadable(kernel_elf.segments@);
        let kernel_first_vaddr = loadable_kernel_segments[0].virt_addr;
        let (kernel_regions, kernel_first_paddrs) = place_kernels(
            &loadable_kernel_segments,
            kernel_elf_pv_offsets,
            Ghost(ksegs),
        )?;
        let (inittask_regions, initial_task_info) = place_tasks(initial_task_elfs, initial_task_phys_base)?;
        let ghost paddrs = Seq::new(
            num_multikernels as nat,
            |i: int| (ksegs[0].virt_addr - kernel_elf_pv_offsets@[i]) as u64,
        );
        proof {
            assert(kernel_first_paddrs@ =~= paddrs);
        }
        let tables = build_tables(config, loader_elf, kernel_first_vaddr, &kernel_first_paddrs)?;

        let loader_segments = loader_elf.loadable_segments();
        if loader_segments.len() == 0 {
            return Err(LoaderError::NoLoaderSegment);
        }
        let image_segment = loader_segments[0];
        let image_vaddr = image_segment.virt_addr;
        if image_vaddr != loader_elf.entry {
            return Err(LoaderError::LoaderEntryMismatch);
        }
        let mut image = crate::encode::copy_bytes(image_segment.data.as_slice());
        patch_image(&mut image, image_vaddr, num_multikernels, &tables)?;

        let mut all_regions = kernel_regions;
        let mut more = inittask_regions;
        let ghost kv = regions_view(all_regions@);
        let ghost tv = regions_view(more@);
        all_regions.append(&mut more);
        let mut system = place_system(&system_regions);
        let ghost sv = regions_view(system@);
        let ghost before_system = all_regions@;
        all_regions.append(&mut system);
        let ghost expected = kv + tv + sv;
        proof {
            assert(regions_view(all_regions@) =~= expected);
        }

        let mut with_loader: Vec<(u64, Vec<u8>, RegionLabel)> = Vec::new();
        let mut k: usize = 0;
        while k < all_regions.len()
            invariant
                k <= all_regions@.len(),
                regions_view(with_loader@) == regions_view(all_regions@).take(k as int),
            decreases all_regions@.len() - k,
        {
            let ghost old_w = with_loader@;
            let item = (all_regions[k].0, crate::encode::copy_bytes(all_regions[k].1.as_slice()), all_regions[k].2);
            with_loader.push(item);
            proof {
                assert(regions_view(with_loader@) =~= regions_view(old_w).push(region_view(item)));
                assert(regions_view(with_loader@) =~= regions_view(all_regions@).take(k + 1));
            }
            k = k + 1;
        }
        let ghost old_w = with_loader@;
        let loader_item = (image_vaddr, crate::encode::copy_bytes(image.as_slice()), RegionLabel::Loader);
        with_loader.push(loader_item);
        let ghost loaded = expected.push((image_vaddr, image@, RegionLabel::Loader));
        proof {
            assert(regions_view(all_regions@).take(all_regions@.len() as int) =~= regions_view(all_regions@));
            assert(regions_view(with_loader@) =~= regions_view(old_w).push(region_view(loader_item)));
            assert(regions_view(with_loader@) =~= loaded);
        }
        match check_non_overlapping(&with_loader) {
            Some((first, second)) => {
                let mut listing: Vec<(u64, u64, RegionLabel)> = Vec::new();
                let mut m: usize = 0;
                while m < with_loader.len()
                    invariant
                        m <= with_loader@.len(),
                        listing@.len() == m,
                        forall|q: int| 0 <= q < m ==> (#[trigger] listing@[q]).0 == with_loader@[q].0 && listing@[q].1 == with_loader@[q].1@.len(),
                    decreases with_loader@.len() - m,
                {
                    listing.push((with_loader[m].0, with_loader[m].1.len() as u64, with_loader[m].2));
                    m = m + 1;
                }
                proof {
                    let w = regions_view(with_loader@);
                    assert(w == loaded);
                    assert(region_overlap(with_loader@, first as int, second as int));
                    assert(!pairwise_disjoint(loaded)) by {
                        assert(w[second as int] == region_view(with_loader@[second as int]));
                        assert(w[first as int] == region_view(with_loader@[first as int]));
                        assert(overlaps(
                            loaded[second as int].0,
                            loaded[second as int].1.len(),
                            loaded[first as int].0,
                            loaded[first as int].1.len(),
                        ));
                    }
                }
                return Err(LoaderError::OverlappingRegions { first, second, regions: listing });
            },
            None => {},
        }
        proof {
            let w = regions_view(with_loader@);
            assert forall|j: int, i: int| 0 <= j < i < w.len() implies !overlaps(#[trigger] w[i].0, w[i].1.len(), #[trigger] w[j].0, w[j].1.len()) by {
                assert(!region_overlap(with_loader@, j, i));
            }
            assert(pairwise_disjoint(loaded));
        }

        let flags: u64 = if config.hypervisor { 1 } else { 0 };
        let (region_metadata, size) = build_metadata(&all_regions)?;

        let mut kernel_bootinfos: Vec<KernelBootInfoRecords> = Vec::new();
        let mut i: usize = 0;
        while i < num_multikernels
            invariant
                i <= num_multikernels,
                num_multikernels == kernel_first_paddrs@.len() == initial_task_info@.len() == reserved_regions@.len()
                    == per_core_ram_regions@.len() == initial_task_elfs@.len() == initial_task_phys_base@.len(),
                kernel_first_paddrs@ == paddrs,
                forall|q: int| 0 <= q < num_multikernels ==> #[trigger] initial_task_info@[q] == task_info(initial_task_elfs@[q], initial_task_phys_base@[q]),
                kernel_bootinfos@.len() == i,
                forall|q: int| 0 <= q < i ==> boot_info_size(#[trigger] kernel_bootinfos@[q]) <= BOOT_INFO_BLOCK_BYTES,
                forall|q: int| 0 <= q < i ==> boot_info_fits(ram_view(per_core_ram_regions@), q, #[trigger] reserved_regions@[q]),
                forall|q: int| 0 <= q < i ==> boot_info_matches(
                    #[trigger] kernel_bootinfos@[q],
                    paddrs[q],
                    task_info(initial_task_elfs@[q], initial_task_phys_base@[q]),
                    ram_view(per_core_ram_regions@)[q],
                    seq![reserved_regions@[q]] + other_ram(ram_view(per_core_ram_regions@), q, num_multikernels as nat),
                ),
            decreases num_multikernels - i,
        {
            let b = build_boot_info(
                kernel_first_paddrs[i],
                initial_task_info[i],
                reserved_regions[i],
                per_core_ram_regions,
                i,
            )?;
            proof {
                let ram = ram_view(per_core_ram_regions@);
                assert(boot_info_fits(ram, i as int, reserved_regions@[i as int]));
            }
            kernel_bootinfos.push(b);
            i = i + 1;
        }

        let header = LoaderHeader64 {
            magic,
            size,
            flags,
            num_multikernels: num_multikernels as u64,
            num_regions: all_regions.len() as u64,
            kernel_v_entry: kernel_elf.entry,
        };
        let l = Loader { image, header, kernel_bootinfos, region_metadata, regions: all_regions };
        proof {
            assert(task_regions_spec(initial_task_elfs@, initial_task_phys_base@) == tv);
        }
        Ok(l)
    }
}


pub open spec fn header_bytes(h: LoaderHeader64) -> Seq<u8> {
    spec_u64_to_le_bytes(h.magic) + spec_u64_to_le_bytes(h.size) + spec_u64_to_le_bytes(h.flags)
        + spec_u64_to_le_bytes(h.num_multikernels) + spec_u64_to_le_bytes(h.num_regions)
        + spec_u64_to_le_bytes(h.kernel_v_entry)
}

pub open spec fn descriptor_bytes(m: LoaderRegion64) -> Seq<u8> {
    spec_u64_to_le_bytes(m.load_addr) + spec_u64_to_le_bytes(m.size) + spec_u64_to_le_bytes(m.offset)
        + spec_u64_to_le_bytes(m.region_type)
}

pub open spec fn descriptors_bytes(ms: Seq<LoaderRegion64>) -> Seq<u8>
    decreases ms.len(),
{
    if ms.len() == 0 {
        seq![]
    } else {
        descriptors_bytes(ms.drop_last()) + descriptor_bytes(ms.last())
    }
}

pub open spec fn data_bytes(rs: Seq<(u64, Vec<u8>, RegionLabel)>) -> Seq<u8>
    decreases rs.len(),
{
    if rs.len() == 0 {
        seq![]
    } else {
        data_bytes(rs.drop_last()) + rs.last().1@
    }
}

pub open spec fn kernel_records_bytes(v: Seq<seL4_KernelBoot_KernelRegion>) -> Seq<u8>
    decreases v.len(),
{
    if v.len() == 0 {
        seq![]
    } else {
        kernel_records_bytes(v.drop_last()) + pair_bytes(v.last().base, v.last().end)
    }
}

pub open spec fn ram_records_bytes(v: Seq<seL4_KernelBoot_RamRegion>) -> Seq<u8>
    decreases v.len(),
{
    if v.len() == 0 {
        seq![]
    } else {
        ram_records_bytes(v.drop_last()) + pair_bytes(v.last().base, v.last().end)
    }
}

pub open spec fn root_task_records_bytes(v: Seq<seL4_KernelBoot_RootTaskRegion>) -> Seq<u8>
    decreases v.len(),
{
    if v.len() == 0 {
        seq![]
    } else {
        root_task_records_bytes(v.drop_last()) + root_task_bytes(v.last())
    }
}

pub open spec fn reserved_records_bytes(v: Seq<seL4_KernelBoot_ReservedRegion>) -> Seq<u8>
    decreases v.len(),
{
    if v.len() == 0 {
        seq![]
    } else {
        reserved_records_bytes(v.drop_last()) + pair_bytes(v.last().base, v.last().end)
    }
}

/// A hand-off record, its region records in the order the kernel reads
/// them, then zeros up to the end of its page.
pub open spec fn boot_info_block(b: KernelBootInfoRecords) -> Seq<u8> {
    let content = boot_info_bytes(b.0) + kernel_records_bytes(b.1@) + ram_records_bytes(b.2@)
        + root_task_records_bytes(b.3@) + reserved_records_bytes(b.4@);
    content + Seq::new((BOOT_INFO_BLOCK_BYTES - content.len()) as nat, |_i: int| 0u8)
}

pub open spec fn boot_info_blocks(bs: Seq<KernelBootInfoRecords>) -> Seq<u8>
    decreases bs.len(),
{
    if bs.len() == 0 {
        seq![]
    } else {
        boot_info_blocks(bs.drop_last()) + boot_info_block(bs.last())
    }
}

/// The whole output: the patched bootloader image, the header, one page of
/// hand-off per kernel, the region descriptors, and the data of every region.
pub open spec fn image_bytes(l: Loader) -> Seq<u8> {
    l.image@ + header_bytes(l.header) + boot_info_blocks(l.kernel_bootinfos@) + descriptors_bytes(
        l.region_metadata@,
    ) + data_bytes(l.regions@)
}

proof fn lemma_records_len(b: KernelBootInfoRecords)
    ensures
        kernel_records_bytes(b.1@).len() == REGION_RECORD_BYTES * b.1@.len(),
        ram_records_bytes(b.2@).len() == REGION_RECORD_BYTES * b.2@.len(),
        root_task_records_bytes(b.3@).len() == ROOT_TASK_RECORD_BYTES * b.3@.len(),
        reserved_records_bytes(b.4@).len() == REGION_RECORD_BYTES * b.4@.len(),
        boot_info_bytes(b.0).len() == BOOT_INFO_BYTES,
{
    lemma_kernel_records_len(b.1@);
    lemma_ram_records_len(b.2@);
    lemma_root_task_records_len(b.3@);
    lemma_reserved_records_len(b.4@);
    crate::kernel_bootinfo::lemma_record_lengths(b.0, 0, 0, b.3@[0]);
}

proof fn lemma_kernel_records_len(v: Seq<seL4_KernelBoot_KernelRegion>)
    ensures
        kernel_records_bytes(v).len() == REGION_RECORD_BYTES * v.len(),
    decreases v.len(),
{
    if v.len() > 0 {
        lemma_kernel_records_len(v.drop_last());
        crate::kernel_bootinfo::lemma_record_lengths(arbitrary(), v.last().base, v.last().end, arbitrary());
    }
}

proof fn lemma_ram_records_len(v: Seq<seL4_KernelBoot_RamRegion>)
    ensures
        ram_records_bytes(v).len() == REGION_RECORD_BYTES * v.len(),
    decreases v.len(),
{
    if v.len() > 0 {
        lemma_ram_records_len(v.drop_last());
        crate::kernel_bootinfo::lemma_record_lengths(arbitrary(), v.last().base, v.last().end, arbitrary());
    }
}

proof fn lemma_root_task_records_len(v: Seq<seL4_KernelBoot_RootTaskRegion>)
    ensures
        root_task_records_bytes(v).len() == ROOT_TASK_RECORD_BYTES * v.len(),
    decreases v.len(),
{
    if v.len() > 0 {
        lemma_root_task_records_len(v.drop_last());
        crate::kernel_bootinfo::lemma_record_lengths(arbitrary(), 0, 0, v.last());
    }
}

proof fn lemma_reserved_records_len(v: Seq<seL4_KernelBoot_ReservedRegion>)
    ensures
        reserved_records_bytes(v).len() == REGION_RECORD_BYTES * v.len(),
    decreases v.len(),
{
    if v.len() > 0 {
        lemma_reserved_records_len(v.drop_last());
        crate::kernel_bootinfo::lemma_record_lengths(arbitrary(), v.last().base, v.last().end, arbitrary());
    }
}

/// For an image assembled for `N` kernels, exactly `N` hand-off blocks are
/// written, each of exactly one page: the hand-off part of the output, which
/// follows the bootloader image and the header, is `N` pages long, and the
/// block of kernel `i` is the page at offset `4096 * i` of it.
pub proof fn lemma_boot_info_blocks(l: Loader)
    requires
        l.wf(),
        l.kernel_bootinfos@.len() == l.header.num_multikernels,
    ensures
        image_bytes(l).subrange(
            l.image@.len() + LOADER_HEADER_BYTES,
            l.image@.len() + LOADER_HEADER_BYTES + BOOT_INFO_BLOCK_BYTES * l.header.num_multikernels,
        ) == boot_info_blocks(l.kernel_bootinfos@),
        boot_info_blocks(l.kernel_bootinfos@).len() == BOOT_INFO_BLOCK_BYTES * l.header.num_multikernels,
        forall|i: int| 0 <= i < l.kernel_bootinfos@.len() ==> (#[trigger] boot_info_block(l.kernel_bootinfos@[i])).len() == BOOT_INFO_BLOCK_BYTES,
        forall|i: int| 0 <= i < l.kernel_bootinfos@.len() ==> boot_info_blocks(l.kernel_bootinfos@).subrange(
            BOOT_INFO_BLOCK_BYTES * i,
            BOOT_INFO_BLOCK_BYTES * (i + 1),
        ) == #[trigger] boot_info_block(l.kernel_bootinfos@[i]),
{
    lemma_blocks(l.kernel_bootinfos@);
    vstd::bytes::lemma_auto_spec_u64_to_from_le_bytes();
    let head = l.image@ + header_bytes(l.header);
    assert(head.len() == l.image@.len() + LOADER_HEADER_BYTES);
    let blocks = boot_info_blocks(l.kernel_bootinfos@);
    assert(image_bytes(l).subrange(head.len() as int, (head.len() + blocks.len()) as int) =~= blocks);
}

proof fn lemma_block_len(b: KernelBootInfoRecords)
    requires
        boot_info_size(b) <= BOOT_INFO_BLOCK_BYTES,
    ensures
        boot_info_block(b).len() == BOOT_INFO_BLOCK_BYTES,
{
    lemma_records_len(b);
}

proof fn lemma_blocks(bs: Seq<KernelBootInfoRecords>)
    requires
        forall|i: int| 0 <= i < bs.len() ==> boot_info_size(#[trigger] bs[i]) <= BOOT_INFO_BLOCK_BYTES,
    ensures
        boot_info_blocks(bs).len() == BOOT_INFO_BLOCK_BYTES * bs.len(),
        forall|i: int| 0 <= i < bs.len() ==> (#[trigger] boot_info_block(bs[i])).len() == BOOT_INFO_BLOCK_BYTES,
        forall|i: int| 0 <= i < bs.len() ==> boot_info_blocks(bs).subrange(
            BOOT_INFO_BLOCK_BYTES * i,
            BOOT_INFO_BLOCK_BYTES * (i + 1),
        ) == #[trigger] boot_info_block(bs[i]),
    decreases bs.len(),
{
    if bs.len() > 0 {
        let init = bs.drop_last();
        lemma_blocks(init);
        lemma_block_len(bs.last());
        assert forall|i: int| 0 <= i < bs.len() implies (#[trigger] boot_info_block(bs[i])).len() == BOOT_INFO_BLOCK_BYTES by {
            lemma_block_len(bs[i]);
        }
        let all = boot_info_blocks(bs);
        let n = bs.len() - 1;
        assert(BOOT_INFO_BLOCK_BYTES * (n + 1) == BOOT_INFO_BLOCK_BYTES * n + BOOT_INFO_BLOCK_BYTES) by (nonlinear_arith);
        assert forall|i: int| 0 <= i < bs.len() implies all.subrange(
            BOOT_INFO_BLOCK_BYTES * i,
            BOOT_INFO_BLOCK_BYTES * (i + 1),
        ) == #[trigger] boot_info_block(bs[i]) by {
            assert(BOOT_INFO_BLOCK_BYTES * (i + 1) == BOOT_INFO_BLOCK_BYTES * i + BOOT_INFO_BLOCK_BYTES) by (nonlinear_arith);
            if i < n {
                assert(init[i] == bs[i]);
                assert(BOOT_INFO_BLOCK_BYTES * (i + 1) <= BOOT_INFO_BLOCK_BYTES * n) by (nonlinear_arith)
                    requires
                        i + 1 <= n,
                ;
                assert(all.subrange(BOOT_INFO_BLOCK_BYTES * i, BOOT_INFO_BLOCK_BYTES * (i + 1)) =~= boot_info_blocks(
                    init,
                ).subrange(BOOT_INFO_BLOCK_BYTES * i, BOOT_INFO_BLOCK_BYTES * (i + 1)));
            } else {
                assert(all.subrange(BOOT_INFO_BLOCK_BYTES * i, BOOT_INFO_BLOCK_BYTES * (i + 1)) =~= boot_info_block(
                    bs.last(),
                ));
            }
        }
    }
}


impl LoaderHeader64 {
    pub fn write_to(&self, buf: &mut Vec<u8>)
        ensures
            final(buf)@ == old(buf)@ + header_bytes(*self),
    {
        let ghost start = buf@;
        push_u64(buf, self.magic);
        push_u64(buf, self.size);
        push_u64(buf, self.flags);
        push_u64(buf, self.num_multikernels);
        push_u64(buf, self.num_regions);
        push_u64(buf, self.kernel_v_entry);
        proof {
            assert(buf@ =~= start + header_bytes(*self));
        }
    }
}

impl LoaderRegion64 {
    pub fn write_to(&self, buf: &mut Vec<u8>)
        ensures
            final(buf)@ == old(buf)@ + descriptor_bytes(*self),
    {
        let ghost start = buf@;
        push_u64(buf, self.load_addr);
        push_u64(buf, self.size);
        push_u64(buf, self.offset);
        push_u64(buf, self.region_type);
        proof {
            assert(buf@ =~= start + descriptor_bytes(*self));
        }
    }
}

/// Appends the hand-off block of one kernel: its records, then zeros up to
/// the end of the page.
fn write_boot_info(b: &KernelBootInfoRecords, buf: &mut Vec<u8>)
    requires
        boot_info_size(*b) <= BOOT_INFO_BLOCK_BYTES,
    ensures
        final(buf)@ == old(buf)@ + boot_info_block(*b),
{
    let ghost start = buf@;
    b.0.write_to(buf);
    let mut i: usize = 0;
    while i < b.1.len()
        invariant
            i <= b.1@.len(),
            buf@ == start + boot_info_bytes(b.0) + kernel_records_bytes(b.1@.take(i as int)),
        decreases b.1@.len() - i,
    {
        b.1[i].write_to(buf);
        proof {
            assert(b.1@.take(i + 1).drop_last() =~= b.1@.take(i as int));
        }
        i = i + 1;
    }
    proof {
        assert(b.1@.take(b.1@.len() as int) =~= b.1@);
    }
    let ghost s1 = buf@;
    let mut i: usize = 0;
    while i < b.2.len()
        invariant
            i <= b.2@.len(),
            buf@ == s1 + ram_records_bytes(b.2@.take(i as int)),
        decreases b.2@.len() - i,
    {
        b.2[i].write_to(buf);
        proof {
            assert(b.2@.take(i + 1).drop_last() =~= b.2@.take(i as int));
        }
        i = i + 1;
    }
    proof {
        assert(b.2@.take(b.2@.len() as int) =~= b.2@);
    }
    let ghost s2 = buf@;
    let mut i: usize = 0;
    while i < b.3.len()
        invariant
            i <= b.3@.len(),
            buf@ == s2 + root_task_records_bytes(b.3@.take(i as int)),
        decreases b.3@.len() - i,
    {
        b.3[i].write_to(buf);
        proof {
            assert(b.3@.take(i + 1).drop_last() =~= b.3@.take(i as int));
        }
        i = i + 1;
    }
    proof {
        assert(b.3@.take(b.3@.len() as int) =~= b.3@);
    }
    let ghost s3 = buf@;
    let mut i: usize = 0;
    while i < b.4.len()
        invariant
            i <= b.4@.len(),
            buf@ == s3 + reserved_records_bytes(b.4@.take(i as int)),
        decreases b.4@.len() - i,
    {
        b.4[i].write_to(buf);
        proof {
            assert(b.4@.take(i + 1).drop_last() =~= b.4@.take(i as int));
        }
        i = i + 1;
    }
    proof {
        assert(b.4@.take(b.4@.len() as int) =~= b.4@);
        lemma_records_len(*b);
    }
    let total_size = (BOOT_INFO_BYTES + REGION_RECORD_BYTES * (b.1.len() as u64 + b.2.len() as u64 + b.4.len() as u64)
        + ROOT_TASK_RECORD_BYTES * b.3.len() as u64) as usize;
    // pad out to a page
    push_zeros(buf, BOOT_INFO_BLOCK_BYTES as usize - total_size);
    proof {
        assert(buf@ =~= start + boot_info_block(*b));
    }
}

impl Loader {
    /// Appends the whole image: the patched bootloader, the header, one page
    /// of hand-off per kernel, the region descriptors, then the data of every
    /// region in order.
    pub fn write_image(&self, buf: &mut Vec<u8>)
        requires
            self.wf(),
        ensures
            final(buf)@ == old(buf)@ + image_bytes(*self),
    {
        let ghost start = buf@;
        push_bytes(buf, self.image.as_slice());
        self.header.write_to(buf);
        let ghost s1 = buf@;
        let mut i: usize = 0;
        while i < self.kernel_bootinfos.len()
            invariant
                self.wf(),
                i <= self.kernel_bootinfos@.len(),
                buf@ == s1 + boot_info_blocks(self.kernel_bootinfos@.take(i as int)),
            decreases self.kernel_bootinfos@.len() - i,
        {
            write_boot_info(&self.kernel_bootinfos[i], buf);
            proof {
                assert(self.kernel_bootinfos@.take(i + 1).drop_last() =~= self.kernel_bootinfos@.take(i as int));
            }
            i = i + 1;
        }
        proof {
            assert(self.kernel_bootinfos@.take(self.kernel_bootinfos@.len() as int) =~= self.kernel_bootinfos@);
        }
        let ghost s2 = buf@;
        let mut i: usize = 0;
        while i < self.region_metadata.len()
            invariant
                i <= self.region_metadata@.len(),
                buf@ == s2 + descriptors_bytes(self.region_metadata@.take(i as int)),
            decreases self.region_metadata@.len() - i,
        {
            self.region_metadata[i].write_to(buf);
            proof {
                assert(self.region_metadata@.take(i + 1).drop_last() =~= self.region_metadata@.take(i as int));
            }
            i = i + 1;
        }
        proof {
            assert(self.region_metadata@.take(self.region_metadata@.len() as int) =~= self.region_metadata@);
        }
        let ghost s3 = buf@;
        let mut i: usize = 0;
        while i < self.regions.len()
            invariant
                i <= self.regions@.len(),
                buf@ == s3 + data_bytes(self.regions@.take(i as int)),
            decreases self.regions@.len() - i,
        {
            push_bytes(buf, self.regions[i].1.as_slice());
            proof {
                assert(self.regions@.take(i + 1).drop_last() =~= self.regions@.take(i as int));
            }
            i = i + 1;
        }
        proof {
            assert(self.regions@.take(self.regions@.len() as int) =~= self.regions@);
            assert(buf@ =~= start + image_bytes(*self));
        }
    }
}

} // verus!
