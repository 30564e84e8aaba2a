//! The compute layer's pinned versions: the `mlx-rs` wrapper, the
//! `mlx-c` API it links, and the MLX core under that. All three are baked
//! into the binary at build time; these are the ground truth the docs
//! cite.

use vstd::prelude::*;

use crate::text::push_str;

verus! {

pub open spec fn mlx_rs_version_text() -> Seq<char> {
    "0.25.3"@
}

pub open spec fn mlx_c_version_text() -> Seq<char> {
    "0.5.0"@
}

pub open spec fn mlx_version_text() -> Seq<char> {
    "0.30.6"@
}

/// The `mlx-rs` (Rust wrapper) version, exact-pinned.
pub fn mlx_rs_version() -> (r: &'static str)
    ensures
        r@ == mlx_rs_version_text(),
{
    "0.25.3"
}

/// The `mlx-c` (Apple's C API) version that `mlx-rs` pins.
pub fn mlx_c_version() -> (r: &'static str)
    ensures
        r@ == mlx_c_version_text(),
{
    "0.5.0"
}

/// The MLX (C++ core) version that `mlx-c` pins. A newer MLX on the host
/// does not change what this returns.
pub fn mlx_version() -> (r: &'static str)
    ensures
        r@ == mlx_version_text(),
{
    "0.30.6"
}

/// `mlx-rs A → mlx-c B → MLX C`, for logs and the inspect verdict.
pub open spec fn triple_text() -> Seq<char> {
    "mlx-rs "@ + mlx_rs_version_text() + " → mlx-c "@ + mlx_c_version_text() + " → MLX "@
        + mlx_version_text()
}

/// One-line summary of the three pinned versions.
pub fn version_triple() -> (r: String)
    ensures
        r@ == triple_text(),
{
    let mut out = String::new();
    push_str(&mut out, "mlx-rs ");
    push_str(&mut out, mlx_rs_version());
    push_str(&mut out, " → mlx-c ");
    push_str(&mut out, mlx_c_version());
    push_str(&mut out, " → MLX ");
    push_str(&mut out, mlx_version());
    proof {
        assert(out@ =~= triple_text());
    }
    out
}

} // verus!
