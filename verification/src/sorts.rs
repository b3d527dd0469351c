//! The sorting kernels: counting scatter passes, the in-place ska
//! partition, and the comparison fallback.

pub mod comparative_sort;
pub mod out_of_place_sort;
pub mod regions_sort;
pub mod scanning_radix_sort;
pub mod ska_sort;
