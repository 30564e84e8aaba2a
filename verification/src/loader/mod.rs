//! The loader: the engine's loader. One weights file in, one `Yamf` out,
//! or a refusal naming exactly what could not be supported.

pub mod config;
pub mod container;
pub mod dequant;
pub mod error;
pub mod index;
pub mod plan;
pub mod tokens;
pub mod template;
pub mod vocab;
pub mod yamf;

pub use error::LoaderError;
