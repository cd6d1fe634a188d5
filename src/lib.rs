//! A first-fit heap allocator over a caller-supplied address range, built on
//! an address-ordered list of boundary-tag headers.

mod bits;
pub mod segment;
pub mod layout;
pub mod memory_segmenter;
pub mod linked_list_allocator;
