//! Radix-key decompositions for the primitive integer types.
//!
//! Unsigned integers decompose into their little-endian bytes. Signed
//! integers flip the high bit of the most significant byte, so that the
//! two's-complement order agrees with the byte order.

use vstd::prelude::*;
use crate::radix_key::RadixKey;

verus! {

/// The little-endian byte of `x` selected by `level`, for 16-bit values.
pub open spec fn byte_of_u16(x: u16, level: int) -> u8 {
    if level == 0 {
        x as u8
    } else {
        (x >> 8) as u8
    }
}

/// The little-endian byte of `x` selected by `level`, for 32-bit values.
pub open spec fn byte_of_u32(x: u32, level: int) -> u8 {
    if level == 0 {
        x as u8
    } else if level == 1 {
        (x >> 8) as u8
    } else if level == 2 {
        (x >> 16) as u8
    } else {
        (x >> 24) as u8
    }
}

/// The little-endian byte of `x` selected by `level`, for 64-bit values.
pub open spec fn byte_of_u64(x: u64, level: int) -> u8 {
    if level == 0 {
        x as u8
    } else if level == 1 {
        (x >> 8) as u8
    } else if level == 2 {
        (x >> 16) as u8
    } else if level == 3 {
        (x >> 24) as u8
    } else if level == 4 {
        (x >> 32) as u8
    } else if level == 5 {
        (x >> 40) as u8
    } else if level == 6 {
        (x >> 48) as u8
    } else {
        (x >> 56) as u8
    }
}

/// The little-endian byte of `x` selected by `level`, for 128-bit values.
pub open spec fn byte_of_u128(x: u128, level: int) -> u8 {
    if level < 8 {
        byte_of_u64(x as u64, level)
    } else {
        byte_of_u64((x >> 64) as u64, level - 8)
    }
}

fn u16_level(x: u16, level: usize) -> (r: u8)
    requires
        level < 2,
    ensures
        r == byte_of_u16(x, level as int),
{
    if level == 0 {
        #[verifier::truncate] (x as u8)
    } else {
        #[verifier::truncate] ((x >> 8) as u8)
    }
}

fn u32_level(x: u32, level: usize) -> (r: u8)
    requires
        level < 4,
    ensures
        r == byte_of_u32(x, level as int),
{
    if level == 0 {
        #[verifier::truncate] (x as u8)
    } else if level == 1 {
        #[verifier::truncate] ((x >> 8) as u8)
    } else if level == 2 {
        #[verifier::truncate] ((x >> 16) as u8)
    } else {
        #[verifier::truncate] ((x >> 24) as u8)
    }
}

fn u64_level(x: u64, level: usize) -> (r: u8)
    requires
        level < 8,
    ensures
        r == byte_of_u64(x, level as int),
{
    if level == 0 {
        #[verifier::truncate] (x as u8)
    } else if level == 1 {
        #[verifier::truncate] ((x >> 8) as u8)
    } else if level == 2 {
        #[verifier::truncate] ((x >> 16) as u8)
    } else if level == 3 {
        #[verifier::truncate] ((x >> 24) as u8)
    } else if level == 4 {
        #[verifier::truncate] ((x >> 32) as u8)
    } else if level == 5 {
        #[verifier::truncate] ((x >> 40) as u8)
    } else if level == 6 {
        #[verifier::truncate] ((x >> 48) as u8)
    } else {
        #[verifier::truncate] ((x >> 56) as u8)
    }
}

fn u128_level(x: u128, level: usize) -> (r: u8)
    requires
        level < 16,
    ensures
        r == byte_of_u128(x, level as int),
{
    if level < 8 {
        u64_level(#[verifier::truncate] (x as u64), level)
    } else {
        u64_level(#[verifier::truncate] ((x >> 64) as u64), level - 8)
    }
}

impl RadixKey for u8 {
    open spec fn spec_levels() -> int {
        1
    }

    open spec fn spec_level(self, level: int) -> u8 {
        self
    }

    fn levels() -> usize {
        1
    }

    fn get_level(&self, level: usize) -> u8 {
        *self
    }
}

impl RadixKey for u16 {
    open spec fn spec_levels() -> int {
        2
    }

    open spec fn spec_level(self, level: int) -> u8 {
        byte_of_u16(self, level)
    }

    fn levels() -> usize {
        2
    }

    fn get_level(&self, level: usize) -> u8 {
        u16_level(*self, level)
    }
}

impl RadixKey for u32 {
    open spec fn spec_levels() -> int {
        4
    }

    open spec fn spec_level(self, level: int) -> u8 {
        byte_of_u32(self, level)
    }

    fn levels() -> usize {
        4
    }

    fn get_level(&self, level: usize) -> u8 {
        u32_level(*self, level)
    }
}

impl RadixKey for u64 {
    open spec fn spec_levels() -> int {
        8
    }

    open spec fn spec_level(self, level: int) -> u8 {
        byte_of_u64(self, level)
    }

    fn levels() -> usize {
        8
    }

    fn get_level(&self, level: usize) -> u8 {
        u64_level(*self, level)
    }
}

impl RadixKey for u128 {
    open spec fn spec_levels() -> int {
        16
    }

    open spec fn spec_level(self, level: int) -> u8 {
        byte_of_u128(self, level)
    }

    fn levels() -> usize {
        16
    }

    fn get_level(&self, level: usize) -> u8 {
        u128_level(*self, level)
    }
}

impl RadixKey for usize {
    open spec fn spec_levels() -> int {
        8
    }

    open spec fn spec_level(self, level: int) -> u8 {
        byte_of_u64(self as u64, level)
    }

    fn levels() -> usize {
        8
    }

    fn get_level(&self, level: usize) -> u8 {
        u64_level(*self as u64, level)
    }
}

impl RadixKey for i8 {
    open spec fn spec_levels() -> int {
        1
    }

    open spec fn spec_level(self, level: int) -> u8 {
        (self as u8) ^ 0x80
    }

    fn levels() -> usize {
        1
    }

    fn get_level(&self, level: usize) -> u8 {
        (#[verifier::truncate] (*self as u8)) ^ 0x80
    }
}

impl RadixKey for i16 {
    open spec fn spec_levels() -> int {
        2
    }

    open spec fn spec_level(self, level: int) -> u8 {
        if level == 1 {
            byte_of_u16(self as u16, 1) ^ 0x80
        } else {
            byte_of_u16(self as u16, level)
        }
    }

    fn levels() -> usize {
        2
    }

    fn get_level(&self, level: usize) -> u8 {
        let b = u16_level(#[verifier::truncate] (*self as u16), level);
        if level == 1 {
            b ^ 0x80
        } else {
            b
        }
    }
}

impl RadixKey for i32 {
    open spec fn spec_levels() -> int {
        4
    }

    open spec fn spec_level(self, level: int) -> u8 {
        if level == 3 {
            byte_of_u32(self as u32, 3) ^ 0x80
        } else {
            byte_of_u32(self as u32, level)
        }
    }

    fn levels() -> usize {
        4
    }

    fn get_level(&self, level: usize) -> u8 {
        let b = u32_level(#[verifier::truncate] (*self as u32), level);
        if level == 3 {
            b ^ 0x80
        } else {
            b
        }
    }
}

impl RadixKey for i64 {
    open spec fn spec_levels() -> int {
        8
    }

    open spec fn spec_level(self, level: int) -> u8 {
        if level == 7 {
            byte_of_u64(self as u64, 7) ^ 0x80
        } else {
            byte_of_u64(self as u64, level)
        }
    }

    fn levels() -> usize {
        8
    }

    fn get_level(&self, level: usize) -> u8 {
        let b = u64_level(#[verifier::truncate] (*self as u64), level);
        if level == 7 {
            b ^ 0x80
        } else {
            b
        }
    }
}

impl RadixKey for i128 {
    open spec fn spec_levels() -> int {
        16
    }

    open spec fn spec_level(self, level: int) -> u8 {
        if level == 15 {
            byte_of_u128(self as u128, 15) ^ 0x80
        } else {
            byte_of_u128(self as u128, level)
        }
    }

    fn levels() -> usize {
        16
    }

    fn get_level(&self, level: usize) -> u8 {
        let b = u128_level(#[verifier::truncate] (*self as u128), level);
        if level == 15 {
            b ^ 0x80
        } else {
            b
        }
    }
}

impl RadixKey for isize {
    open spec fn spec_levels() -> int {
        8
    }

    open spec fn spec_level(self, level: int) -> u8 {
        if level == 7 {
            byte_of_u64((self as i64) as u64, 7) ^ 0x80
        } else {
            byte_of_u64((self as i64) as u64, level)
        }
    }

    fn levels() -> usize {
        8
    }

    fn get_level(&self, level: usize) -> u8 {
        let b = u64_level(#[verifier::truncate] ((*self as i64) as u64), level);
        if level == 7 {
            b ^ 0x80
        } else {
            b
        }
    }
}

} // verus!
