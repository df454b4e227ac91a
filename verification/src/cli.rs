//! Command-line interface definitions.

use vstd::prelude::*;

verus! {

/// Kernelizer CLI - API-Keyless KERNEL Template Compiler
pub struct Cli {
    /// Subcommands
    pub command: Commands,
}

/// Available CLI commands
pub enum Commands {
    /// Formats the prompt and context into a KERNEL Markdown layout and prints to STDOUT
    Optimize {
        /// The unstructured user prompt
        prompt: String,
        /// Skip the repo map scan and LLM translation: deterministic template only.
        /// Best when @file tags are present and the task is unambiguous.
        fast: bool,
        /// Accepted for the plugin's `--context` invocation; it changes nothing.
        context: bool,
    },
}

} // verus!
