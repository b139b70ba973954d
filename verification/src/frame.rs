//! Size of an RGBA frame.

use vstd::prelude::*;

verus! {

/// `len` bytes hold a frame of `w` by `h` RGBA pixels.
pub open spec fn spec_holds_frame(len: usize, w: usize, h: usize) -> bool {
    w * h * 4 <= len
}

/// Whether `len` bytes hold a frame of `w` by `h` RGBA pixels.
#[verifier::when_used_as_spec(spec_holds_frame)]
pub fn holds_frame(len: usize, w: usize, h: usize) -> (r: bool)
    ensures
        r == spec_holds_frame(len, w, h),
{
    match w.checked_mul(h) {
        None => {
            assert(w * h * 4 > usize::MAX);
            false
        },
        Some(pixels) => match pixels.checked_mul(4) {
            None => false,
            Some(bytes) => bytes <= len,
        },
    }
}

} // verus!
