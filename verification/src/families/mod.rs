//! Model families: each moves the loader's Yamf into named fields and
//! runs the forward pass exactly as its reference defines it.

pub mod qwen3;
