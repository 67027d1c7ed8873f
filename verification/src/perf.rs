//! Low-level building blocks: bump arenas and what is laid out in them.

pub mod align;
pub mod bit_set;
pub mod chain_arena;
pub mod concurrent_arena;
pub mod move_options;
pub mod slots;
pub mod virt_arena;
