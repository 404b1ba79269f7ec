//! Memory subsystem of a small kernel: a physical frame ledger, a page mapper
//! and a block-granular heap allocator layered on both, with the global
//! allocator front that hands the heap to the rest of the kernel.

pub mod bits;
pub mod frame;
pub mod ledger;
pub mod table;
pub mod mapper;
pub mod slob;
pub mod malloc;
pub mod cell;
pub mod ring;
pub mod params;
pub mod idt;
pub mod cr3;
pub mod instructions;
pub mod pci;
pub mod msix;
