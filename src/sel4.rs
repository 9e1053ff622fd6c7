//! Target configuration: architecture, page sizes and the kernel's
//! physical-to-virtual window.
use vstd::prelude::*;

verus! {

/// The architectures for which an image can be assembled.
#[derive(Clone, Copy, Debug, PartialEq, Eq, Structural)]
pub enum Arch {
    Aarch64,
    Riscv64,
}

/// RISC-V virtual-memory schemes, by their number of page-table levels.
#[derive(Clone, Copy, Debug, PartialEq, Eq, Structural)]
pub enum RiscvVirtualMemory {
    Sv39,
    Sv48,
    Sv57,
}

impl RiscvVirtualMemory {
    pub open spec fn levels_spec(&self) -> nat {
        match self {
            RiscvVirtualMemory::Sv39 => 3,
            RiscvVirtualMemory::Sv48 => 4,
            RiscvVirtualMemory::Sv57 => 5,
        }
    }

    /// Number of page-table levels of the scheme.
    pub fn levels(&self) -> (r: usize)
        ensures
            r == self.levels_spec(),
    {
        match self {
            RiscvVirtualMemory::Sv39 => 3,
            RiscvVirtualMemory::Sv48 => 4,
            RiscvVirtualMemory::Sv57 => 5,
        }
    }
}

/// Page sizes of the address-space tree: 4 KiB and 2 MiB.
#[derive(Clone, Copy, Debug, PartialEq, Eq, Structural)]
pub enum PageSize {
    Small,
    Large,
}

pub const SMALL_PAGE_BYTES: u64 = 0x1000;

pub const LARGE_PAGE_BYTES: u64 = 0x200000;

impl PageSize {
    pub open spec fn bytes_spec(&self) -> u64 {
        match self {
            PageSize::Small => SMALL_PAGE_BYTES,
            PageSize::Large => LARGE_PAGE_BYTES,
        }
    }

    /// Size of the page in bytes.
    pub fn bytes(&self) -> (r: u64)
        ensures
            r == self.bytes_spec(),
    {
        match self {
            PageSize::Small => SMALL_PAGE_BYTES,
            PageSize::Large => LARGE_PAGE_BYTES,
        }
    }
}

/// What the assembler needs to know of the target.
///
/// Kernel-virtual addresses lie at a constant offset from physical ones:
/// `kvaddr = paddr + kernel_vaddr_offset`, modulo 2^64, as the kernel
/// computes them.
#[derive(Clone, Copy, Debug)]
pub struct Config {
    pub arch: Arch,
    pub hypervisor: bool,
    pub kernel_vaddr_offset: u64,
    pub riscv_pt_levels: Option<RiscvVirtualMemory>,
}

impl Config {
    pub open spec fn to_kvaddr(&self, paddr: u64) -> u64 {
        vstd::wrapping::u64_specs::wrapping_add(paddr, self.kernel_vaddr_offset)
    }

    pub open spec fn to_paddr(&self, kvaddr: u64) -> u64 {
        vstd::wrapping::u64_specs::wrapping_sub(kvaddr, self.kernel_vaddr_offset)
    }

    /// The kernel-virtual address of a physical address.
    pub fn paddr_to_kernel_vaddr(&self, paddr: u64) -> (r: u64)
        ensures
            r == self.to_kvaddr(paddr),
    {
        paddr.wrapping_add(self.kernel_vaddr_offset)
    }

    /// The physical address of a kernel-virtual address.
    pub fn kernel_vaddr_to_paddr(&self, kvaddr: u64) -> (r: u64)
        ensures
            r == self.to_paddr(kvaddr),
    {
        kvaddr.wrapping_sub(self.kernel_vaddr_offset)
    }
}

} // verus!
