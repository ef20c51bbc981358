//! Device-tree analysis and translation-table construction for an AArch64
//! hypervisor bootloader.
//!
//! The device-tree side walks a flattened device tree held in a byte buffer:
//! `dtb` has the blob and its tokens, `dtb_cursor` the elementary movements
//! and the lookup of a property, `dtb_search` the searches by node name and
//! by `compatible`, and `dtb_laws` what holds of every search.
//!
//! The paging side builds stage-1 and stage-2 translation tables inside a
//! window of physical memory, with tables from a pool of frames: `memory`
//! has the window and the pool, `descriptor` and `registers` the bits of
//! descriptors and system registers, `table_alloc` the frames for tables,
//! `mapping` the descent that maps a range, `paging` the operations on the
//! machine, `stage2` the identity map of stage 2, `copy` the copy of a
//! tree, `walk` the reading of a tree and `dump` its listing.
//!
//! What holds of whole trees of tables is stated in `forest` and `tree`
//! and proved in `table_laws`, `map_law`, `dummy_law`, `copy_law` and
//! `supply`.

pub mod dtb;
pub mod dtb_cursor;
pub mod dtb_search;
pub mod dtb_laws;

pub mod memory;
pub mod descriptor;
pub mod registers;
pub mod table_alloc;
pub mod mapping;
pub mod paging;
pub mod stage2;
pub mod copy;
pub mod walk;
pub mod dump;

pub mod table_laws;
pub mod forest;
pub mod tree;
pub mod map_law;
pub mod dummy_law;
pub mod copy_law;
pub mod supply;
