# kernelizer_rs

Kernelizer turns an unstructured prompt into a strict KERNEL template
(Task / Constraints / Format / Verify) for a coding model. This crate is the
library, verified with Verus, plus a thin command-line program around it.

## Layout

- `src/text.rs`: character-level primitives (whitespace splitting, trimming,
  substring search, joining, lines, decimal notation, UTF-8 lengths) with their
  mathematical definitions.
- `src/template.rs`: `@file` tag extraction, follow-our-style detection, and the
  assembly of the KERNEL Markdown (`compile_kernel`).
- `src/patterns.rs`: search terms drawn from the prompt and the scan that turns
  matching source files into snippets.
- `src/repomap.rs`: the repo map: signatures and call lists from tree-sitter
  syntax trees, ranking of files by keyword overlap, and the 4000-byte budget.
- `src/translate.rs`: the request sent to the host's LLM command-line tools,
  the order in which the two tools are tried (Gemini's flash model first,
  then the Haiku model, else the deterministic template), their arguments,
  and the cleaning of their answer. The Haiku model's program is named by the
  `KERNELIZER_HAIKU_CLI` environment variable.
- `src/cli.rs`, `src/error.rs`: the command and error types.
- `app/`: `main`, file-system walking and reading, the LLM subprocess, JSON
  parsing, and the clap / thiserror / serde derives.

Each public function states its result exactly in its `ensures`; the `law_*`
proof functions state properties that span functions or hold of every input.
