//! Core of a minimal on-disk key/value storage engine: a slotted page format
//! holding sorted key/value records inside a fixed 4096-byte buffer, a bitmap
//! frame allocator, a recency tracker for victim selection, and a buffer pool
//! manager that caches pages and orchestrates fetch/pin/unpin/flush/evict.

pub mod bitmap;
pub mod buffpool;
pub mod double_link;
pub mod error;
pub mod page;
pub mod trace;
