//! A heap allocator that keeps its bookkeeping inside the memory it hands out.
//!
//! `Talloc` is the allocator, over any `Memory`. Its contracts speak of a
//! `model::Heap`: which chunks there are, what they are used for, and the order in
//! which free ones are tried. `Talloc::wf` holds between any two calls.

pub mod arena;
pub mod bucket;
pub mod chunk;
pub mod effects;
pub mod extent;
pub mod free;
pub mod laws;
pub mod layout;
pub mod llist;
pub mod lock;
pub mod malloc;
pub mod memory;
pub mod model;
pub mod mov;
pub mod oom;
pub mod order;
pub mod payload;
pub mod record;
pub mod resize;
pub mod scan;
pub mod span;
pub mod summary;
pub mod tag;
pub mod talloc;
pub mod word;

pub use bucket::g_of_size;
pub use layout::{Layout, LayoutError};
pub use lock::Tallock;
pub use memory::{Memory, WordMemory};
pub use oom::{alloc_error, AllocError, GiveUp, OomHandler};
pub use span::Span;
pub use summary::Summary;
pub use tag::Tag;
pub use talloc::Talloc;
