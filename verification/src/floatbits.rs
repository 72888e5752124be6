//! Narrowing an IEEE 754 double-precision number to single precision,
//! on the raw bits.
//!
//! The bootstrap format stores its floats at single precision, while
//! the TOML parser yields doubles.  The crate never computes on float
//! values, so the narrowing - rounding to nearest, ties to even - is
//! done here on the bit patterns alone.

use vstd::prelude::*;

verus! {

/// The single-precision bits nearest to the double-precision value with
/// bits `x`: round to nearest, ties to even; overflow goes to infinity,
/// values below the single-precision subnormal range to zero, and any
/// NaN to the canonical quiet NaN.
pub open spec fn spec_f32_narrow(x: u64) -> u32 {
    let sign: u32 = if (x >> 63) == 1 {
        0x80000000u32
    } else {
        0u32
    };
    let e = (x >> 52) & 0x7ff;
    let m = x & 0xfffffffffffff;
    if e == 0x7ff {
        if m != 0 {
            sign | 0x7fc00000u32
        } else {
            sign | 0x7f800000u32
        }
    } else if e == 0 {
        sign
    } else {
        let newe = e as int - 1023 + 127;
        if newe >= 0xff {
            sign | 0x7f800000u32
        } else {
            let sig = (m | 0x10000000000000) as u64;
            let shift: u64 = if newe <= 0 {
                (30 - newe) as u64
            } else {
                29u64
            };
            if shift >= 54 {
                sign
            } else {
                let keep = sig >> shift;
                let rem = sig & (((1u64 << shift) as u64 - 1) as u64);
                let half = (1u64 << (shift - 1) as u64) as u64;
                let rounded = if rem > half || (rem == half && keep & 1 == 1) {
                    (keep + 1) as u64
                } else {
                    keep
                };
                if newe <= 0 {
                    (sign + rounded as u32) as u32
                } else {
                    (sign + (((newe - 1) * 0x800000) as u32 + rounded as u32) as u32) as u32
                }
            }
        }
    }
}

/// Narrow double-precision bits to single-precision bits.
pub fn f32_narrow(x: u64) -> (r: u32)
    ensures
        r == spec_f32_narrow(x),
{
    let sign: u32 = if (x >> 63) == 1 {
        0x80000000
    } else {
        0
    };
    let e: u64 = (x >> 52) & 0x7ff;
    let m: u64 = x & 0xfffffffffffff;
    if e == 0x7ff {
        if m != 0 {
            sign | 0x7fc00000
        } else {
            sign | 0x7f800000
        }
    } else if e == 0 {
        sign
    } else if e >= 1151 {
        // the rebiased exponent e - 896 reaches the infinity exponent
        proof {
            assert(e as int - 1023 + 127 >= 0xff);
        }
        sign | 0x7f800000
    } else {
        let sig: u64 = m | 0x10000000000000;
        proof {
            assert(x & 0xfffffffffffff <= 0xfffffffffffffu64) by (bit_vector);
            assert((x & 0xfffffffffffff) | 0x10000000000000 <= 0x1fffffffffffffu64) by (bit_vector);
        }
        let shift: u64 = if e <= 896 {
            30 + 896 - e
        } else {
            29
        };
        proof {
            assert(shift == if (e as int - 1023 + 127) <= 0 {
                30 - (e as int - 1023 + 127)
            } else {
                29int
            });
        }
        if shift >= 54 {
            sign
        } else {
            assert(29 <= shift < 54);
            proof {
                assert(1u64 << shift >= 1u64 && sig >> shift <= 0xffffffu64) by (bit_vector)
                    requires
                        29 <= shift < 54 && sig <= 0x1fffffffffffffu64,
                ;
            }
            let keep: u64 = sig >> shift;
            let rem: u64 = sig & ((1u64 << shift) - 1);
            let half: u64 = 1u64 << (shift - 1);
            let rounded: u64 = if rem > half || (rem == half && keep & 1 == 1) {
                keep + 1
            } else {
                keep
            };
            if e <= 896 {
                proof {
                    assert(rounded <= 0x1000000);
                }
                sign + rounded as u32
            } else {
                let newe: u32 = (e - 896) as u32;
                proof {
                    assert(newe as int == e as int - 1023 + 127);
                    assert(newe >= 1 && newe <= 0xfe);
                    assert(rounded <= 0x1000000);
                }
                sign + ((newe - 1) * 0x800000 + rounded as u32)
            }
        }
    }
}

} // verus!
