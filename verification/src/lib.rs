//! Kernelizer: a library for extracting LLM context and optimizing prompts into
//! the KERNEL template (Task / Constraints / Format / Verify).

pub mod cli;
pub mod error;
pub mod patterns;
pub mod repomap;
pub mod template;
pub mod text;
pub mod translate;

pub use error::KernelizerError;
pub use template::{compile_kernel, extract_at_files_with, ParsedPrompt};
