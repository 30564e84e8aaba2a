//! Kernel launch arithmetic for the GPU backend: the dimensions a Metal
//! kernel receives as 32-bit `uint`.

use vstd::prelude::*;

verus! {

/// Threads in the one threadgroup a reduction kernel runs as.
pub const REDUCTION_THREADS: usize = 256;

/// A dimension as the kernel's `uint`. A silent truncation on a huge
/// shape would launch a correct-size grid with a wrong-size kernel
/// argument, so only dimensions that fit are accepted.
pub fn dim_u32(n: usize) -> (r: u32)
    requires
        n <= u32::MAX,
    ensures
        r == n,
{
    n as u32
}

/// A reduction dimension. Reduction kernels stride their row loop by the
/// threadgroup size in 32-bit math; a dimension in the top 256 values of
/// u32 would wrap the loop index, so those are not accepted.
pub fn reduction_dim_u32(n: usize) -> (r: u32)
    requires
        n + REDUCTION_THREADS <= u32::MAX,
    ensures
        r == n,
        r + REDUCTION_THREADS <= u32::MAX,
{
    dim_u32(n)
}

} // verus!
