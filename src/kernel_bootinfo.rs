//! The per-kernel hand-off record and its region records, as the kernel
//! reads them: packed, little-endian.
#![allow(non_camel_case_types)]
use crate::encode::{push_bytes, push_u32, push_u64};
use vstd::bytes::{spec_u32_to_le_bytes, spec_u64_to_le_bytes};
use vstd::prelude::*;

verus! {

pub const SEL4_KERNEL_BOOT_INFO_MAGIC: u32 = 0x73654c34;

pub const SEL4_KERNEL_BOOT_INFO_VERSION_0: u8 = 0;

/// Bytes of an encoded `seL4_KernelBootInfo`.
pub const BOOT_INFO_BYTES: u64 = 24;

/// Bytes of an encoded kernel, RAM or reserved region record.
pub const REGION_RECORD_BYTES: u64 = 16;

/// Bytes of an encoded root-task region record.
pub const ROOT_TASK_RECORD_BYTES: u64 = 32;

#[derive(Debug, Copy, Clone)]
pub struct seL4_KernelBootInfo {
    pub magic: u32,
    pub version: u8,
    pub _padding0: [u8; 3],
    pub root_task_entry: u64,
    pub num_kernel_regions: u8,
    pub num_ram_regions: u8,
    pub num_root_task_regions: u8,
    pub num_reserved_regions: u8,
    pub _padding: [u8; 4],
}

#[derive(Debug, Copy, Clone)]
pub struct seL4_KernelBoot_KernelRegion {
    pub base: u64,
    pub end: u64,
}

#[derive(Debug, Copy, Clone)]
pub struct seL4_KernelBoot_RamRegion {
    pub base: u64,
    pub end: u64,
}

#[derive(Debug, Copy, Clone)]
pub struct seL4_KernelBoot_RootTaskRegion {
    pub paddr_base: u64,
    pub paddr_end: u64,
    pub vaddr_base: u64,
    pub _padding: [u8; 8],
}

#[derive(Debug, Copy, Clone)]
pub struct seL4_KernelBoot_ReservedRegion {
    pub base: u64,
    pub end: u64,
}

/// The packed encoding of a hand-off record: 24 bytes.
pub open spec fn boot_info_bytes(b: seL4_KernelBootInfo) -> Seq<u8> {
    spec_u32_to_le_bytes(b.magic) + seq![b.version] + b._padding0@ + spec_u64_to_le_bytes(
        b.root_task_entry,
    ) + seq![
        b.num_kernel_regions,
        b.num_ram_regions,
        b.num_root_task_regions,
        b.num_reserved_regions,
    ] + b._padding@
}

/// Two words, base then end: 16 bytes.
pub open spec fn pair_bytes(base: u64, end: u64) -> Seq<u8> {
    spec_u64_to_le_bytes(base) + spec_u64_to_le_bytes(end)
}

pub open spec fn root_task_bytes(r: seL4_KernelBoot_RootTaskRegion) -> Seq<u8> {
    spec_u64_to_le_bytes(r.paddr_base) + spec_u64_to_le_bytes(r.paddr_end) + spec_u64_to_le_bytes(
        r.vaddr_base,
    ) + r._padding@
}

pub proof fn lemma_record_lengths(b: seL4_KernelBootInfo, base: u64, end: u64, r: seL4_KernelBoot_RootTaskRegion)
    ensures
        boot_info_bytes(b).len() == BOOT_INFO_BYTES,
        pair_bytes(base, end).len() == REGION_RECORD_BYTES,
        root_task_bytes(r).len() == ROOT_TASK_RECORD_BYTES,
{
    vstd::bytes::lemma_auto_spec_u64_to_from_le_bytes();
    vstd::bytes::lemma_auto_spec_u32_to_from_le_bytes();
}

impl seL4_KernelBootInfo {
    /// Appends the packed record.
    pub fn write_to(&self, buf: &mut Vec<u8>)
        ensures
            final(buf)@ == old(buf)@ + boot_info_bytes(*self),
    {
        let ghost start = buf@;
        push_u32(buf, self.magic);
        buf.push(self.version);
        push_bytes(buf, &self._padding0);
        push_u64(buf, self.root_task_entry);
        buf.push(self.num_kernel_regions);
        buf.push(self.num_ram_regions);
        buf.push(self.num_root_task_regions);
        buf.push(self.num_reserved_regions);
        push_bytes(buf, &self._padding);
        proof {
            assert(buf@ =~= start + boot_info_bytes(*self));
        }
    }
}

impl seL4_KernelBoot_KernelRegion {
    pub fn write_to(&self, buf: &mut Vec<u8>)
        ensures
            final(buf)@ == old(buf)@ + pair_bytes(self.base, self.end),
    {
        let ghost start = buf@;
        push_u64(buf, self.base);
        push_u64(buf, self.end);
        proof {
            assert(buf@ =~= start + pair_bytes(self.base, self.end));
        }
    }
}

impl seL4_KernelBoot_RamRegion {
    pub fn write_to(&self, buf: &mut Vec<u8>)
        ensures
            final(buf)@ == old(buf)@ + pair_bytes(self.base, self.end),
    {
        let ghost start = buf@;
        push_u64(buf, self.base);
        push_u64(buf, self.end);
        proof {
            assert(buf@ =~= start + pair_bytes(self.base, self.end));
        }
    }
}

impl seL4_KernelBoot_ReservedRegion {
    pub fn write_to(&self, buf: &mut Vec<u8>)
        ensures
            final(buf)@ == old(buf)@ + pair_bytes(self.base, self.end),
    {
        let ghost start = buf@;
        push_u64(buf, self.base);
        push_u64(buf, self.end);
        proof {
            assert(buf@ =~= start + pair_bytes(self.base, self.end));
        }
    }
}

impl seL4_KernelBoot_RootTaskRegion {
    pub fn write_to(&self, buf: &mut Vec<u8>)
        ensures
            final(buf)@ == old(buf)@ + root_task_bytes(*self),
    {
        let ghost start = buf@;
        push_u64(buf, self.paddr_base);
        push_u64(buf, self.paddr_end);
        push_u64(buf, self.vaddr_base);
        push_bytes(buf, &self._padding);
        proof {
            assert(buf@ =~= start + root_task_bytes(*self));
        }
    }
}

} // verus!
