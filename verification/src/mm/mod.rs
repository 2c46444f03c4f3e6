//! Memory management: page numbers, physical memory, page-table entries
//! and page tables, and access to user memory through them.
pub mod address;
pub mod memory;
pub mod memory_set;
pub mod page_table;
pub mod user_buffer;

pub use address::{PhysPageNum, VirtPageNum};
pub use memory::{FrameTracker, PhysMemory};
pub use page_table::{PTEFlags, PageTable, PageTableEntry};
pub use user_buffer::{
    copy_from_user, copy_to_user, read_user_byte, save_byte_to_user, translated_byte_buffer,
    write_user_byte,
};
