//! Boot-image assembly for a multikernel system: region arithmetic, page-table
//! synthesis, executable parsing and the layout of the loader image.

pub mod sel4;
pub mod util;
pub mod encode;
pub mod region;
pub mod pagetable;
pub mod kernel_bootinfo;
pub mod elf;
pub mod loader;
