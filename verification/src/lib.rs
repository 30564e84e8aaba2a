//! nucleon — an LLM inference engine's verified core.

pub mod backend;
pub mod families;
pub mod loader;
pub mod metal;
pub mod mlx;
pub mod tensor;
pub mod text;
pub mod tokenizer;
