pub mod allocator;
pub mod free_list;
pub mod gc;
pub mod heap;
pub mod layout;
pub mod mem;
pub mod object;
pub mod types;
pub mod vm;
