//! Mapping from canvas pixel coordinates to bytes or tensor elements.
//!
//! Two variants: one continuous space-filling curve over the concatenated byte
//! stream of every source (1 px = 1 byte), and a structure-aware mode in which
//! each tensor occupies a rectangle of its natural 2D element shape (1 px = 1
//! element).

pub mod arch;
pub mod arch_laws;
pub mod bin_pack;
pub mod blueprint;
pub mod color_laws;
pub mod columns;
pub mod hilbert;
pub mod name_laws;
pub mod name_tree;
pub mod place_laws;
pub mod plugin;
pub mod render;
pub mod select;
pub mod sub_path;
pub mod tile;
pub mod tile_laws;
