//! Collections built over an explicit, pluggable allocator model.
//!
//! The core of the crate is a separate-chaining hash table whose storage is
//! owned node by node: a table owns an array of buckets, each bucket owns a
//! singly linked chain of heap-allocated key/value nodes, and every
//! allocation and release is charged to an explicit [`allocator::Allocator`]
//! handle that can be budgeted and audited. Around the core stand the other
//! owned containers of the crate: a growable ring-buffer queue, singly and
//! doubly linked lists, a binary heap, and bit strings.

pub mod allocator;
pub mod bitstring;
pub mod bucket;
pub mod doubly_linked_list;
pub mod fp;
pub mod hash_table;
pub mod hashing;
pub mod heap;
pub mod inner;
pub mod iterable;
pub mod queue;
pub mod separate_chaining;
pub mod singly_linked_list;
pub mod tester;
pub mod traits;

pub use crate::allocator::{AllocError, Allocator};
pub use crate::hash_table::SCHashTable;
pub use crate::hashing::{HashBuilder, HashKey};
pub use crate::queue::ArrayQueue;
pub use crate::singly_linked_list::SinglyLinkedList;
