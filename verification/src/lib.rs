//! A binary buddy allocator over one anonymous memory mapping.
//!
//! The pool carves a region of `2^k` bytes into power-of-two blocks. Every
//! block starts with an in-band header; free blocks of one order form a
//! circular doubly-linked list whose head is a sentinel kept in the pool.
//!
//! All addresses are byte offsets from the start of the region. The pointer
//! to a block is the offset of the first byte after its header, so that `0`
//! is free to stand for the null pointer. The heads of the lists have
//! addresses of their own, beyond any region, so that a link can name a block
//! or a head alike.
//!
//! The modules, from the ground up: `order` and `dyadic` hold the arithmetic
//! of orders and aligned ranges; `region` and `header` the bytes of the
//! mapping and the layout of a header in them; `model` and `moves` the
//! mathematical model of a pool and of what the operations do to it; `pool`
//! the pool itself; `laws` what holds of every pool.

pub mod buddy_error;
pub mod order;
pub mod region;
pub mod dyadic;
pub mod header;
pub mod model;
pub mod moves;
pub mod pool;
pub mod laws;

pub use buddy_error::{BuddyError, ENOMEM};
pub use header::{Avail, BLOCK_AVAIL, BLOCK_RESERVED, BLOCK_UNUSED, NIL, SENTINEL_BASE};
pub use order::{b_to_k, DEFAULT_K, HEADER_SIZE, LEAST_K, MAX_K, MIN_K};
pub use pool::{BuddyPool, NULL};

