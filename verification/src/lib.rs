//! A verified radix sort engine for fixed-size, byte-decomposable keys.
//!
//! Elements are ordered by the lexicographic comparison of their radix
//! bytes, most significant level first. The engine offers a family of
//! cooperating kernels (counting, out-of-place scatter, in-place ska
//! partitioning, LSB and MSB drivers, a comparison fallback) and a
//! director that picks a kernel per sub-bucket.

pub mod counts;
pub mod director;
pub mod lsb_radix_sort;
pub mod msb_ska_sort;
pub mod radix_key;
mod radix_key_impl;
pub mod sorts;
pub mod tuner;

pub use director::sort;
pub use director::sort_in_place;
pub use radix_key::RadixKey;
