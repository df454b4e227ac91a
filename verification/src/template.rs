//! The KERNEL template: parsed prompts, translation parameters, pattern-intent
//! detection and the assembly of the final Markdown.

use vstd::prelude::*;

use vstd::string::StringExecFns;

use crate::text::{
    is_white_space, chars_of, contains_chars, contains_seq, push_char, spec_to_lowercase, split_whitespace,
    string_of, to_lowercase, words, join_seq, ascii_lower, ascii_upper, occurs_at, split_state,
};

verus! {

/// The phrases that show a request to follow the project's existing style.
pub open spec fn follow_signals() -> Seq<Seq<char>> {
    seq![
        "like we do"@,
        "like we have"@,
        "following our"@,
        "consistent with"@,
        "matching our"@,
        "same as existing"@,
        "our pattern"@,
        "our style"@,
        "as we have"@,
        "follow our"@,
        "use our"@,
        "like existing"@,
        "like the existing"@,
        "as implemented"@,
        "our existing"@,
        "project style"@,
        "project pattern"@,
    ]
}

fn follow_signal_list() -> (r: Vec<&'static str>)
    ensures
        r@.map_values(|s: &str| s@) == follow_signals(),
{
    let r = vec![
        "like we do",
        "like we have",
        "following our",
        "consistent with",
        "matching our",
        "same as existing",
        "our pattern",
        "our style",
        "as we have",
        "follow our",
        "use our",
        "like existing",
        "like the existing",
        "as implemented",
        "our existing",
        "project style",
        "project pattern",
    ];
    assert(r@.map_values(|s: &str| s@) =~= follow_signals());
    r
}

/// The prompt, lowercased, contains one of the follow-our-style phrases.
pub open spec fn spec_follows_pattern(prompt: Seq<char>) -> bool {
    exists|i: int|
        0 <= i < follow_signals().len() && contains_seq(
            spec_to_lowercase(prompt),
            #[trigger] follow_signals()[i],
        )
}

/// Some follow-our-style phrase appears in the prompt, its ASCII letters in any case.
pub open spec fn signal_in_any_case(prompt: Seq<char>) -> bool {
    exists|i: int|
        0 <= i < follow_signals().len() && contains_seq(
            ascii_lower(prompt),
            #[trigger] follow_signals()[i],
        )
}

proof fn lemma_follow_signals_ascii(k: int)
    requires
        0 <= k < follow_signals().len(),
    ensures
        vstd::utf8::is_ascii_chars(follow_signals()[k]),
{
    reveal_strlit("like we do");
    reveal_strlit("like we have");
    reveal_strlit("following our");
    reveal_strlit("consistent with");
    reveal_strlit("matching our");
    reveal_strlit("same as existing");
    reveal_strlit("our pattern");
    reveal_strlit("our style");
    reveal_strlit("as we have");
    reveal_strlit("follow our");
    reveal_strlit("use our");
    reveal_strlit("like existing");
    reveal_strlit("like the existing");
    reveal_strlit("as implemented");
    reveal_strlit("our existing");
    reveal_strlit("project style");
    reveal_strlit("project pattern");
}

/// A phrase found in the ASCII-lowercased prompt lies on ASCII characters of the
/// prompt, and so is found in its lowercase form too.
proof fn lemma_signal_in_lowercase(s: Seq<char>, lower: Seq<char>)
    requires
        lower == spec_to_lowercase(s),
        forall|i: int, j: int|
            0 <= i <= j <= s.len() && vstd::utf8::is_ascii_chars(#[trigger] s.subrange(i, j))
                ==> contains_seq(lower, ascii_lower(s.subrange(i, j))),
    ensures
        signal_in_any_case(s) ==> spec_follows_pattern(s),
{
    if signal_in_any_case(s) {
        let k = choose|k: int|
            0 <= k < follow_signals().len() && contains_seq(
                ascii_lower(s),
                #[trigger] follow_signals()[k],
            );
        let sig = follow_signals()[k];
        lemma_follow_signals_ascii(k);
        let p = choose|p: int| #[trigger] occurs_at(ascii_lower(s), sig, p);
        let part = s.subrange(p, p + sig.len());
        assert(ascii_lower(part) =~= sig);
        assert forall|t: int| 0 <= t < part.len() implies '\0' <= #[trigger] part[t] <= '\u{7f}' by {
            assert(ascii_lower(part)[t] == sig[t]);
        }
        assert(vstd::utf8::is_ascii_chars(part));
        assert(contains_seq(lower, ascii_lower(part)));
    }
}

/// A phrase found in the lowercase form of a beginning or an end of the prompt is
/// found in the lowercase form of the whole prompt.
proof fn lemma_parts_in_lowercase(s: Seq<char>, lower: Seq<char>)
    requires
        lower == spec_to_lowercase(s),
        forall|k: int, n: Seq<char>|
            #![trigger contains_seq(spec_to_lowercase(s.take(k)), n)]
            #![trigger contains_seq(spec_to_lowercase(s.skip(k)), n)]
            0 <= k <= s.len() && vstd::utf8::is_ascii_chars(n) && (contains_seq(
                spec_to_lowercase(s.take(k)),
                n,
            ) || contains_seq(spec_to_lowercase(s.skip(k)), n)) ==> contains_seq(lower, n),
    ensures
        forall|k: int|
            #![trigger spec_follows_pattern(s.take(k))]
            #![trigger spec_follows_pattern(s.skip(k))]
            0 <= k <= s.len() && (spec_follows_pattern(s.take(k)) || spec_follows_pattern(s.skip(k)))
                ==> spec_follows_pattern(s),
{
    assert forall|k: int|
        #![trigger spec_follows_pattern(s.take(k))]
        #![trigger spec_follows_pattern(s.skip(k))]
        0 <= k <= s.len() && (spec_follows_pattern(s.take(k)) || spec_follows_pattern(s.skip(k)))
            implies spec_follows_pattern(s) by {
        if spec_follows_pattern(s.take(k)) {
            let i = choose|i: int|
                0 <= i < follow_signals().len() && contains_seq(
                    spec_to_lowercase(s.take(k)),
                    #[trigger] follow_signals()[i],
                );
            lemma_follow_signals_ascii(i);
            assert(contains_seq(lower, follow_signals()[i]));
        } else {
            let i = choose|i: int|
                0 <= i < follow_signals().len() && contains_seq(
                    spec_to_lowercase(s.skip(k)),
                    #[trigger] follow_signals()[i],
                );
            lemma_follow_signals_ascii(i);
            assert(contains_seq(lower, follow_signals()[i]));
        }
    }
}

/// Returns true when the prompt explicitly signals the user wants to follow the
/// project's existing coding style (rather than the best general solution). The
/// answer ignores the case of ASCII letters; it is true whenever a phrase appears
/// in the prompt in any ASCII case, and for an all-ASCII prompt exactly then; and
/// it is true whenever it is for some beginning or end of the prompt, so adding
/// text before or after a prompt never takes a detected phrase away.
pub fn detects_follow_pattern_intent(prompt: &str) -> (r: bool)
    ensures
        r == spec_follows_pattern(prompt@),
        r == spec_follows_pattern(ascii_upper(prompt@)),
        signal_in_any_case(prompt@) ==> r,
        vstd::utf8::is_ascii_chars(prompt@) ==> (r == signal_in_any_case(prompt@)),
        forall|k: int|
            #![trigger spec_follows_pattern(prompt@.take(k))]
            #![trigger spec_follows_pattern(prompt@.skip(k))]
            0 <= k <= prompt@.len() && (spec_follows_pattern(prompt@.take(k)) || spec_follows_pattern(
                prompt@.skip(k),
            )) ==> r,
{
    let lower_string = to_lowercase(prompt);
    let lower = chars_of(lower_string.as_str());
    proof {
        lemma_signal_in_lowercase(prompt@, lower@);
        lemma_parts_in_lowercase(prompt@, lower@);
    }
    let signals = follow_signal_list();
    let n: usize = signals.len();
    for i in 0..n
        invariant
            n == signals@.len(),
            signals@.map_values(|s: &str| s@) == follow_signals(),
            lower@ == spec_to_lowercase(prompt@),
            lower@ == spec_to_lowercase(ascii_upper(prompt@)),
            vstd::utf8::is_ascii_chars(prompt@) ==> lower@ == ascii_lower(prompt@),
            signal_in_any_case(prompt@) ==> spec_follows_pattern(prompt@),
            forall|k: int|
                #![trigger spec_follows_pattern(prompt@.take(k))]
                #![trigger spec_follows_pattern(prompt@.skip(k))]
                0 <= k <= prompt@.len() && (spec_follows_pattern(prompt@.take(k))
                    || spec_follows_pattern(prompt@.skip(k))) ==> spec_follows_pattern(prompt@),
            forall|j: int|
                0 <= j < i ==> !contains_seq(lower@, #[trigger] follow_signals()[j]),
    {
        let sig = chars_of(signals[i]);
        assert(sig@ == follow_signals()[i as int]);
        if contains_chars(lower.as_slice(), sig.as_slice()) {
            return true;
        }
    }
    false
}

/// The structured output from the LLM prompt translation.
pub struct KernelParams {
    /// The focused task.
    pub task: String,
    /// The inferred technical constraints.
    pub constraints: Vec<String>,
    /// The expected output format.
    pub format: String,
    /// The success criteria to verify.
    pub verify: String,
}

/// The text content of a [`KernelParams`].
pub struct KernelParamsView {
    /// The focused task.
    pub task: Seq<char>,
    /// The inferred technical constraints.
    pub constraints: Seq<Seq<char>>,
    /// The expected output format.
    pub format: Seq<char>,
    /// The success criteria to verify.
    pub verify: Seq<char>,
}

impl View for KernelParams {
    type V = KernelParamsView;

    open spec fn view(&self) -> KernelParamsView {
        KernelParamsView {
            task: self.task@,
            constraints: self.constraints.deep_view(),
            format: self.format@,
            verify: self.verify@,
        }
    }
}

/// Parsed user prompt with extracted explicit file contexts.
pub struct ParsedPrompt {
    cleaned_prompt: String,
    explicit_files_content: String,
}

/// The text content of a [`ParsedPrompt`].
pub struct ParsedPromptView {
    /// The prompt with its resolved `@` tags replaced by labels.
    pub cleaned_prompt: Seq<char>,
    /// The concatenated content of all explicitly tagged files.
    pub explicit_content: Seq<char>,
}

impl View for ParsedPrompt {
    type V = ParsedPromptView;

    closed spec fn view(&self) -> ParsedPromptView {
        ParsedPromptView {
            cleaned_prompt: self.cleaned_prompt@,
            explicit_content: self.explicit_files_content@,
        }
    }
}

impl ParsedPrompt {
    /// Returns the cleaned prompt stripped of `@file` tags.
    #[must_use]
    pub fn cleaned_prompt(&self) -> (r: &str)
        ensures
            r@ == self@.cleaned_prompt,
    {
        self.cleaned_prompt.as_str()
    }

    /// Returns the concatenated content of all explicitly tagged files.
    #[must_use]
    pub fn explicit_content(&self) -> (r: &str)
        ensures
            r@ == self@.explicit_content,
    {
        self.explicit_files_content.as_str()
    }
}

/// Tool-usage rule when tagged files are present.
pub const TOOL_USAGE_FILES: &'static str = "- Tool Usage (CRITICAL): The files in ## Explicitly Tagged Files are pre-loaded in full \u{2014} do NOT re-read or re-fetch them. Trust them as complete and authoritative. Only call tools for files not already provided.\n- Scope: Limit changes to the files provided in # Context unless the task explicitly requires otherwise.\n";

/// Tool-usage rule when only codebase patterns are present.
pub const TOOL_USAGE_PATTERNS: &'static str = "- Tool Usage: The ## Existing Codebase Patterns section provides relevant context already found in the project. Do not re-search for patterns already shown above.\n";

/// Tool-usage rule when neither tagged files nor patterns are present.
pub const TOOL_USAGE_OPEN: &'static str = "- Tool Usage (IMPORTANT): You are encouraged to use your available tools to gather more context. However, your FINAL answer must strictly conform to these constraints, avoiding apologies or chatty preambles.\n";

/// Pattern rule when the user asked to follow the project's style.
pub const PATTERN_STRICT: &'static str = "- Pattern Adherence (STRICT): The user explicitly requested the project's coding style. You MUST implement using the exact patterns shown in ## Existing Codebase Patterns \u{2014} no deviations.\n";

/// Pattern rule when patterns are shown for reference only.
pub const PATTERN_ADVISORY: &'static str = "- Pattern Reference (ADVISORY): ## Existing Codebase Patterns shows how this project currently approaches similar problems. Use it as context but improve on it if a better, idiomatic solution exists.\n";

/// The fixed constraints of the deterministic template.
pub const DEFAULT_CONSTRAINTS: &'static str = "- Keep it simple: One clear goal. Do not add unnecessary conversational fluff.\n- Narrow scope: Address only the prompt's explicit request. Do not write unrelated functions.\n- Explicit constraints: Follow established design patterns and idiomatic rules for the language provided.\n";

/// The fixed format section of the deterministic template.
pub const DEFAULT_FORMAT: &'static str = "Strictly return the requested code, architecture, or fix. Provide direct solutions without preamble.\n\n";

/// The fixed verify section of the deterministic template.
pub const DEFAULT_VERIFY: &'static str = "Ensure output matches the requested format exactly and success criteria are easy to verify. Ensure reproducible results using specific versions if applicable.\n";

/// The `# Context (input)` part: a header when any context is present, then each
/// non-empty source of context under its own heading (the codebase patterns under
/// `## Repo Map (function & type signatures):`).
pub open spec fn context_section(explicit: Seq<char>, patterns: Seq<char>, stdin: Seq<char>) -> Seq<char> {
    let header = if explicit.len() > 0 || patterns.len() > 0 || stdin.len() > 0 {
        "# Context (input)\n"@
    } else {
        Seq::empty()
    };
    let files = if explicit.len() > 0 {
        "## Explicitly Tagged Files:\n"@ + explicit
    } else {
        Seq::empty()
    };
    let pats = if patterns.len() > 0 {
        "## Repo Map (function & type signatures):\n"@ + patterns + "\n\n"@
    } else {
        Seq::empty()
    };
    let piped = if stdin.len() > 0 {
        "## Piped Standard Input:\n```\n"@ + stdin + "\n```\n\n"@
    } else {
        Seq::empty()
    };
    header + files + pats + piped
}

/// The tool-usage constraint, chosen by which context is present.
pub open spec fn tool_usage_text(has_explicit: bool, has_patterns: bool) -> Seq<char> {
    if has_explicit {
        TOOL_USAGE_FILES@
    } else if has_patterns {
        TOOL_USAGE_PATTERNS@
    } else {
        TOOL_USAGE_OPEN@
    }
}

/// The pattern constraint: none without patterns, strict when the user asked for the
/// project's style, advisory otherwise.
pub open spec fn pattern_text(has_patterns: bool, follow_pattern: bool) -> Seq<char> {
    if !has_patterns {
        Seq::empty()
    } else if follow_pattern {
        PATTERN_STRICT@
    } else {
        PATTERN_ADVISORY@
    }
}

/// The most translated constraints the template lists.
pub const MAX_CONSTRAINTS: usize = 4;

/// The translated constraints the template lists: the first four.
pub open spec fn kept_constraints(cs: Seq<Seq<char>>) -> Seq<Seq<char>> {
    if cs.len() > MAX_CONSTRAINTS {
        cs.take(MAX_CONSTRAINTS as int)
    } else {
        cs
    }
}

/// Each constraint as a Markdown bullet line.
pub open spec fn constraint_lines(cs: Seq<Seq<char>>) -> Seq<char>
    decreases cs.len(),
{
    if cs.len() == 0 {
        Seq::empty()
    } else {
        constraint_lines(cs.drop_last()) + "- "@ + cs.last() + "\n"@
    }
}

/// The Task / Constraints / Format / Verify sections from translated parameters;
/// at most four of the translated constraints are listed.
pub open spec fn translated_body(p: KernelParamsView, rules: Seq<char>) -> Seq<char> {
    "# Task (function)\n"@ + p.task + "\n\n"@ + "# Constraints (parameters)\n"@
        + constraint_lines(kept_constraints(p.constraints)) + rules + "\n"@ + "# Format (output)\n"@ + p.format
        + "\n\n"@ + "# Verify\n"@ + p.verify + "\n"@
}

/// The Task / Constraints / Format / Verify sections of the deterministic template.
pub open spec fn default_body(cleaned_prompt: Seq<char>, rules: Seq<char>) -> Seq<char> {
    "# Task (function)\n"@ + cleaned_prompt + "\n\n"@ + "# Constraints (parameters)\n"@
        + DEFAULT_CONSTRAINTS@ + rules + "\n"@ + "# Format (output)\n"@ + DEFAULT_FORMAT@
        + "# Verify\n"@ + DEFAULT_VERIFY@
}

/// The views of optional translation parameters.
pub open spec fn params_view(p: Option<&KernelParams>) -> Option<KernelParamsView> {
    match p {
        Some(k) => Some(k@),
        None => None,
    }
}

/// The complete KERNEL Markdown.
pub open spec fn kernel_text(
    parsed: ParsedPromptView,
    patterns: Seq<char>,
    follow_pattern: bool,
    stdin: Seq<char>,
    params: Option<KernelParamsView>,
) -> Seq<char> {
    let has_explicit = parsed.explicit_content.len() > 0;
    let has_patterns = patterns.len() > 0;
    let rules = tool_usage_text(has_explicit, has_patterns) + pattern_text(
        has_patterns,
        follow_pattern,
    );
    context_section(parsed.explicit_content, patterns, stdin) + match params {
        Some(p) => translated_body(p, rules),
        None => default_body(parsed.cleaned_prompt, rules),
    }
}

fn push_context(output: &mut String, explicit: &str, patterns: &str, stdin: &str)
    ensures
        final(output)@ == old(output)@ + context_section(explicit@, patterns@, stdin@),
{
    let has_explicit = !explicit.is_empty();
    let has_patterns = !patterns.is_empty();
    let has_stdin = !stdin.is_empty();
    if has_explicit || has_patterns || has_stdin {
        output.append("# Context (input)\n");
    }
    if has_explicit {
        output.append("## Explicitly Tagged Files:\n");
        output.append(explicit);
    }
    if has_patterns {
        output.append("## Repo Map (function & type signatures):\n");
        output.append(patterns);
        output.append("\n\n");
    }
    if has_stdin {
        output.append("## Piped Standard Input:\n```\n");
        output.append(stdin);
        output.append("\n```\n\n");
    }
    assert(output@ =~= old(output)@ + context_section(explicit@, patterns@, stdin@));
}

fn push_constraint_lines(output: &mut String, cs: &Vec<String>)
    ensures
        final(output)@ == old(output)@ + constraint_lines(kept_constraints(cs.deep_view())),
{
    let ghost dv = cs.deep_view();
    let n: usize = if cs.len() > MAX_CONSTRAINTS {
        MAX_CONSTRAINTS
    } else {
        cs.len()
    };
    for i in 0..n
        invariant
            n <= cs@.len(),
            n == kept_constraints(dv).len(),
            dv == cs.deep_view(),
            output@ == old(output)@ + constraint_lines(dv.take(i as int)),
    {
        assert(dv.take(i + 1).drop_last() =~= dv.take(i as int));
        assert(dv[i as int] == cs@[i as int]@);
        output.append("- ");
        output.append(cs[i].as_str());
        output.append("\n");
        assert(output@ =~= old(output)@ + constraint_lines(dv.take(i + 1)));
    }
    assert(dv.take(n as int) =~= kept_constraints(dv));
}

fn push_translated_body(output: &mut String, params: &KernelParams, tool: &str, pattern: Option<&str>)
    ensures
        final(output)@ == old(output)@ + translated_body(
            params@,
            tool@ + match pattern {
                Some(p) => p@,
                None => Seq::empty(),
            },
        ),
{
    output.append("# Task (function)\n");
    output.append(params.task.as_str());
    output.append("\n\n");
    output.append("# Constraints (parameters)\n");
    let ghost head = output@;
    push_constraint_lines(output, &params.constraints);
    output.append(tool);
    if let Some(pc) = pattern {
        output.append(pc);
    }
    output.append("\n");
    let ghost mid = output@;
    output.append("# Format (output)\n");
    output.append(params.format.as_str());
    output.append("\n\n");
    output.append("# Verify\n");
    output.append(params.verify.as_str());
    output.append("\n");
    let ghost rules = tool@ + match pattern {
        Some(p) => p@,
        None => Seq::empty(),
    };
    assert(mid =~= head + constraint_lines(kept_constraints(params@.constraints)) + rules + "\n"@);
    assert(output@ =~= old(output)@ + translated_body(params@, rules));
}

fn push_default_body(output: &mut String, cleaned_prompt: &str, tool: &str, pattern: Option<&str>)
    ensures
        final(output)@ == old(output)@ + default_body(
            cleaned_prompt@,
            tool@ + match pattern {
                Some(p) => p@,
                None => Seq::empty(),
            },
        ),
{
    output.append("# Task (function)\n");
    output.append(cleaned_prompt);
    output.append("\n\n");
    output.append("# Constraints (parameters)\n");
    output.append(DEFAULT_CONSTRAINTS);
    let ghost head = output@;
    output.append(tool);
    if let Some(pc) = pattern {
        output.append(pc);
    }
    output.append("\n");
    let ghost mid = output@;
    output.append("# Format (output)\n");
    output.append(DEFAULT_FORMAT);
    output.append("# Verify\n");
    output.append(DEFAULT_VERIFY);
    let ghost rules = tool@ + match pattern {
        Some(p) => p@,
        None => Seq::empty(),
    };
    assert(mid =~= head + rules + "\n"@);
    assert(output@ =~= old(output)@ + default_body(cleaned_prompt@, rules));
}

/// Compiles the final KERNEL Markdown template combining the user's intent,
/// explicit files, STDIN, codebase patterns and, when present, the translated
/// parameters; without them the deterministic template is used.
#[must_use]
pub fn compile_kernel(
    parsed_prompt: &ParsedPrompt,
    patterns_context: &str,
    follow_pattern: bool,
    stdin_context: &str,
    translated_params: Option<&KernelParams>,
) -> (output: String)
    ensures
        output@ == kernel_text(
            parsed_prompt@,
            patterns_context@,
            follow_pattern,
            stdin_context@,
            params_view(translated_params),
        ),
{
    let mut output = String::new();
    let explicit = parsed_prompt.explicit_files_content.as_str();
    let has_explicit_files = !explicit.is_empty();
    let has_patterns = !patterns_context.is_empty();
    push_context(&mut output, explicit, patterns_context, stdin_context);
    let tool_usage_constraint: &str = if has_explicit_files {
        TOOL_USAGE_FILES
    } else if has_patterns {
        TOOL_USAGE_PATTERNS
    } else {
        TOOL_USAGE_OPEN
    };
    let pattern_constraint: Option<&str> = if has_patterns {
        if follow_pattern {
            Some(PATTERN_STRICT)
        } else {
            Some(PATTERN_ADVISORY)
        }
    } else {
        None
    };
    assert(tool_usage_constraint@ + match pattern_constraint {
        Some(p) => p@,
        None => Seq::empty(),
    } =~= tool_usage_text(has_explicit_files, has_patterns) + pattern_text(
        has_patterns,
        follow_pattern,
    ));
    match translated_params {
        Some(params) => {
            push_translated_body(&mut output, params, tool_usage_constraint, pattern_constraint);
        },
        None => {
            push_default_body(
                &mut output,
                parsed_prompt.cleaned_prompt.as_str(),
                tool_usage_constraint,
                pattern_constraint,
            );
        },
    }
    output
}

/// The Markdown block that presents one file's content.
pub open spec fn file_block_text(path: Seq<char>, content: Seq<char>) -> Seq<char> {
    "**File: "@ + path + "**\n```\n"@ + content + "\n```\n\n"@
}

/// The Markdown block that presents one file's content: its path in bold, then
/// the content in a code fence.
pub fn file_block(path: &str, content: &str) -> (r: String)
    ensures
        r@ == file_block_text(path@, content@),
{
    let mut r = String::new();
    r.append("**File: ");
    r.append(path);
    r.append("**\n```\n");
    r.append(content);
    r.append("\n```\n\n");
    assert(r@ =~= file_block_text(path@, content@));
    r
}

/// The blocks of the files of a directory, one after the other.
pub open spec fn file_blocks_text(files: Seq<(Seq<char>, Seq<char>)>) -> Seq<char>
    decreases files.len(),
{
    if files.len() == 0 {
        Seq::empty()
    } else {
        file_blocks_text(files.drop_last()) + file_block_text(files.last().0, files.last().1)
    }
}

/// The blocks of the files of a directory, given by path and content.
pub fn file_blocks(files: &Vec<(String, String)>) -> (r: String)
    ensures
        r@ == file_blocks_text(files.deep_view()),
{
    let ghost fv = files.deep_view();
    let mut r = String::new();
    let n: usize = files.len();
    for i in 0..n
        invariant
            n == files@.len(),
            fv == files.deep_view(),
            r@ == file_blocks_text(fv.take(i as int)),
    {
        assert(fv.take(i + 1).drop_last() =~= fv.take(i as int));
        assert(fv[i as int] == (files@[i as int].0@, files@[i as int].1@));
        let block = file_block(files[i].0.as_str(), files[i].1.as_str());
        r.append(block.as_str());
    }
    assert(fv.take(n as int) =~= fv);
    r
}

/// Text made of file blocks: empty, or opening with `**File: ` and closing with a
/// code fence and a blank line.
pub open spec fn is_block_text(s: Seq<char>) -> bool {
    s.len() == 0 || (s.len() >= "**File: "@.len() + "\n```\n\n"@.len() && s.take(
        "**File: "@.len() as int,
    ) == "**File: "@ && s.skip(s.len() - "\n```\n\n"@.len()) == "\n```\n\n"@)
}

proof fn lemma_block_text_concat(a: Seq<char>, b: Seq<char>)
    requires
        is_block_text(a),
        is_block_text(b),
    ensures
        is_block_text(a + b),
{
    if a.len() == 0 {
        assert(a + b =~= b);
    } else if b.len() == 0 {
        assert(a + b =~= a);
    } else {
        let h = "**File: "@.len() as int;
        let t = "\n```\n\n"@.len() as int;
        assert((a + b).take(h) =~= a.take(h));
        assert((a + b).skip((a + b).len() - t) =~= b.skip(b.len() - t));
    }
}

proof fn lemma_file_block_is_block_text(path: Seq<char>, content: Seq<char>)
    ensures
        is_block_text(file_block_text(path, content)),
{
    let s = file_block_text(path, content);
    let h = "**File: "@;
    let t = "\n```\n\n"@;
    assert(s == h + (path + "**\n```\n"@ + content) + t);
    assert(s.take(h.len() as int) =~= h);
    assert(s.skip(s.len() - t.len()) =~= t);
}

proof fn lemma_file_blocks_block_text(files: Seq<(Seq<char>, Seq<char>)>)
    ensures
        is_block_text(file_blocks_text(files)),
    decreases files.len(),
{
    if files.len() > 0 {
        lemma_file_blocks_block_text(files.drop_last());
        lemma_file_block_is_block_text(files.last().0, files.last().1);
        lemma_block_text_concat(
            file_blocks_text(files.drop_last()),
            file_block_text(files.last().0, files.last().1),
        );
    }
}

proof fn lemma_explicit_block_text(ws: Seq<Seq<char>>, res: Seq<TagResolutionView>)
    ensures
        is_block_text(extract_state(ws, res).1),
    decreases ws.len(),
{
    if ws.len() > 0 {
        lemma_explicit_block_text(ws.drop_last(), res);
        let prev = extract_state(ws.drop_last(), res).1;
        match tag_path(ws.last()) {
            Some(p) => match resolution_at(res, tag_paths(ws.drop_last()).len() as int) {
                TagResolutionView::File(Some(c)) => {
                    lemma_file_block_is_block_text(p, c);
                    lemma_block_text_concat(prev, file_block_text(p, c));
                },
                TagResolutionView::Directory(files) => {
                    lemma_file_blocks_block_text(files);
                    lemma_block_text_concat(prev, file_blocks_text(files));
                },
                _ => {},
            },
            None => {},
        }
    }
}

/// The path named by a word of the prompt: what follows a leading `@`, when that
/// is not empty.
pub open spec fn tag_path(word: Seq<char>) -> Option<Seq<char>> {
    if word.len() > 1 && word[0] == '@' {
        Some(word.drop_first())
    } else {
        None
    }
}

/// The paths named by `@` tags among the words, in order.
pub open spec fn tag_paths(ws: Seq<Seq<char>>) -> Seq<Seq<char>>
    decreases ws.len(),
{
    if ws.len() == 0 {
        Seq::empty()
    } else {
        match tag_path(ws.last()) {
            Some(p) => tag_paths(ws.drop_last()).push(p),
            None => tag_paths(ws.drop_last()),
        }
    }
}

/// What the file system holds at a tagged path.
pub enum TagResolution {
    /// A file: its content, or `None` when it could not be read as text.
    File(Option<String>),
    /// A directory: the path and content of each readable file under it.
    Directory(Vec<(String, String)>),
    /// Nothing at that path.
    Missing,
}

/// The text content of a [`TagResolution`].
pub enum TagResolutionView {
    /// A file and its content, when readable.
    File(Option<Seq<char>>),
    /// A directory and the path and content of each of its files.
    Directory(Seq<(Seq<char>, Seq<char>)>),
    /// Nothing at that path.
    Missing,
}

impl View for TagResolution {
    type V = TagResolutionView;

    open spec fn view(&self) -> TagResolutionView {
        match self {
            TagResolution::File(Some(c)) => TagResolutionView::File(Some(c@)),
            TagResolution::File(None) => TagResolutionView::File(None),
            TagResolution::Directory(files) => TagResolutionView::Directory(files.deep_view()),
            TagResolution::Missing => TagResolutionView::Missing,
        }
    }
}

/// The final component of a path, as `Path::file_name` gives it (`None` when
/// the path ends in `..` or has no final component).
pub uninterp spec fn spec_path_file_name(path: Seq<char>) -> Option<Seq<char>>;

/// The views of an optional string.
pub open spec fn opt_string_view(s: Option<String>) -> Option<Seq<char>> {
    match s {
        Some(t) => Some(t@),
        None => None,
    }
}

/// Calls `Path::file_name` on the path, then `OsStr::to_str`; the result, as text,
/// is named [`spec_path_file_name`] of the path. Beside the name stands what the
/// documentation gives: a file name is the path's final component, so a piece of
/// the path itself. Which piece it is is left unsaid.
#[verifier::external_body]
fn path_file_name(path: &str) -> (r: Option<String>)
    ensures
        opt_string_view(r) == spec_path_file_name(path@),
        r matches Some(n) ==> contains_seq(path@, n@),
{
    std::path::Path::new(path).file_name().and_then(|n| n.to_str()).map(|n| n.to_string())
}

/// The label that stands for a tagged path in the cleaned prompt: its file name,
/// or the path itself when it has none.
pub open spec fn tag_label(path: Seq<char>) -> Seq<char> {
    match spec_path_file_name(path) {
        Some(n) => n,
        None => path,
    }
}

/// `s` is single-spaced: its only whitespace is `' '`, which is neither first,
/// nor last, nor next to another `' '` (what joining words with one space gives).
pub open spec fn is_single_spaced(s: Seq<char>) -> bool {
    &&& forall|i: int| 0 <= i < s.len() && is_white_space(#[trigger] s[i]) ==> s[i] == ' '
    &&& s.len() > 0 ==> s[0] != ' ' && s.last() != ' '
    &&& forall|i: int| 0 <= i < s.len() - 1 && #[trigger] s[i] == ' ' ==> s[i + 1] != ' '
}

/// `s` could begin a single-spaced text: its only whitespace is `' '`, which is
/// neither first nor next to another `' '` (it may be last).
pub open spec fn spaced_start(s: Seq<char>) -> bool {
    &&& forall|i: int| 0 <= i < s.len() && is_white_space(#[trigger] s[i]) ==> s[i] == ' '
    &&& s.len() > 0 ==> s[0] != ' '
    &&& forall|i: int| 0 <= i < s.len() - 1 && #[trigger] s[i] == ' ' ==> s[i + 1] != ' '
}

proof fn lemma_split_spaced(s: Seq<char>)
    requires
        spaced_start(s),
    ensures
        split_state(s).1.len() > 0 ==> join_seq(split_state(s).0.push(split_state(s).1), " "@) == s
            && s.last() != ' ',
        split_state(s).1.len() == 0 ==> (s.len() == 0 && split_state(s).0.len() == 0) || (s.len() > 0
            && s.last() == ' ' && split_state(s).0.len() > 0 && join_seq(split_state(s).0, " "@)
            + " "@ == s),
    decreases s.len(),
{
    assert(" "@ == seq![' ']) by {
        reveal_strlit(" ");
    }
    assert(is_white_space(' '));
    if s.len() > 0 {
        let t = s.drop_last();
        let c = s.last();
        assert forall|i: int| 0 <= i < t.len() - 1 && #[trigger] t[i] == ' ' implies t[i + 1] != ' ' by {
            assert(s[i] == t[i] && s[i + 1] == t[i + 1]);
        }
        assert forall|i: int| 0 <= i < t.len() && is_white_space(#[trigger] t[i]) implies t[i] == ' ' by {
            assert(s[i] == t[i]);
        }
        if t.len() > 0 {
            assert(t[0] == s[0]);
        }
        lemma_split_spaced(t);
        let done = split_state(t).0;
        let cur = split_state(t).1;
        if is_white_space(c) {
            assert(c == s[s.len() - 1]);
            if t.len() > 0 {
                assert(t.last() == s[s.len() - 2]);
                if s[s.len() - 2] == ' ' {
                    assert(s[s.len() - 1] != ' ');
                }
            }
            assert(s =~= t + " "@);
        } else {
            if cur.len() > 0 {
                if done.len() == 0 {
                    assert(done.push(cur.push(c)) =~= seq![cur.push(c)]);
                    assert(done.push(cur) =~= seq![cur]);
                    assert(s =~= t.push(c));
                } else {
                    assert(done.push(cur.push(c)).drop_last() =~= done);
                    assert(done.push(cur).drop_last() =~= done);
                    let j = join_seq(done, " "@);
                    assert(t == j + " "@ + cur);
                    assert(s =~= t.push(c));
                    assert((j + " "@ + cur).push(c) =~= j + " "@ + cur.push(c));
                }
            } else {
                assert(cur.push(c) =~= seq![c]);
                if t.len() == 0 {
                    assert(done.push(seq![c]) =~= seq![seq![c]]);
                    assert(s =~= seq![c]);
                } else {
                    assert(done.push(seq![c]).drop_last() =~= done);
                    let j = join_seq(done, " "@);
                    assert(s =~= j + " "@ + seq![c]);
                }
            }
        }
    }
}

/// A single-spaced text is its own words joined by single spaces.
proof fn lemma_single_spaced_words(s: Seq<char>)
    requires
        is_single_spaced(s),
    ensures
        join_seq(words(s), " "@) == s,
{
    lemma_split_spaced(s);
    if s.len() == 0 {
        assert(words(s) =~= Seq::<Seq<char>>::empty());
    }
}

/// A word for the cleaned prompt: not empty, and without whitespace.
pub open spec fn is_word(w: Seq<char>) -> bool {
    w.len() > 0 && forall|i: int| 0 <= i < w.len() ==> !is_white_space(#[trigger] w[i])
}

proof fn lemma_add_word_single_spaced(cleaned: Seq<char>, word: Seq<char>)
    requires
        is_single_spaced(cleaned),
        is_word(word),
    ensures
        is_single_spaced(add_word(cleaned, word)),
{
    assert(is_white_space(' '));
    if cleaned.len() > 0 {
        let s = cleaned + " "@ + word;
        let n: int = cleaned.len() as int;
        assert(" "@ == seq![' ']) by {
            reveal_strlit(" ");
        }
        assert(s[n] == ' ');
        assert forall|i: int| 0 <= i < s.len() && is_white_space(#[trigger] s[i]) implies s[i] == ' ' by {
            if i < n {
                assert(s[i] == cleaned[i]);
            } else if i > n {
                assert(s[i] == word[i - n - 1]);
            }
        }
        assert(s[0] == cleaned[0]);
        assert(s.last() == word[word.len() - 1]);
        assert forall|i: int| 0 <= i < s.len() - 1 && #[trigger] s[i] == ' ' implies s[i + 1] != ' ' by {
            if i < n - 1 {
                assert(s[i] == cleaned[i]);
                assert(s[i + 1] == cleaned[i + 1]);
            } else if i == n - 1 {
                assert(s[i] == cleaned.last());
            } else if i == n {
                assert(s[i + 1] == word[0]);
            } else {
                assert(s[i] == word[i - n - 1]);
            }
        }
    } else {
        assert forall|i: int| 0 <= i < word.len() - 1 && #[trigger] word[i] == ' ' implies word[i + 1] != ' ' by {
            assert(!is_white_space(word[i]));
        }
    }
}

/// `cleaned` with `word` added, separated by one space when `cleaned` is not empty.
pub open spec fn add_word(cleaned: Seq<char>, word: Seq<char>) -> Seq<char> {
    if cleaned.len() > 0 {
        cleaned + " "@ + word
    } else {
        word
    }
}

/// The resolution of the `k`-th tag; tags beyond the given list count as missing.
pub open spec fn resolution_at(res: Seq<TagResolutionView>, k: int) -> TagResolutionView {
    if 0 <= k < res.len() {
        res[k]
    } else {
        TagResolutionView::Missing
    }
}

/// The cleaned prompt and the explicit content after reading the words `ws`, where
/// the `k`-th `@` tag is resolved by `res[k]`: a tag that names a file or directory
/// becomes its label in backticks and brings its content; any other word is kept.
pub open spec fn extract_state(ws: Seq<Seq<char>>, res: Seq<TagResolutionView>) -> (Seq<char>, Seq<char>)
    decreases ws.len(),
{
    if ws.len() == 0 {
        (Seq::empty(), Seq::empty())
    } else {
        let prev = extract_state(ws.drop_last(), res);
        let w = ws.last();
        let labelled = |p: Seq<char>| add_word(prev.0, "`"@ + tag_label(p) + "`"@);
        match tag_path(w) {
            Some(p) => match resolution_at(res, tag_paths(ws.drop_last()).len() as int) {
                TagResolutionView::File(Some(c)) => (labelled(p), prev.1 + file_block_text(p, c)),
                TagResolutionView::File(None) => (labelled(p), prev.1),
                TagResolutionView::Directory(files) => (labelled(p), prev.1 + file_blocks_text(files)),
                TagResolutionView::Missing => (add_word(prev.0, w), prev.1),
            },
            None => (add_word(prev.0, w), prev.1),
        }
    }
}

/// The parsed prompt for `raw` when its tags resolve as `res` says.
pub open spec fn spec_parsed_prompt(raw: Seq<char>, res: Seq<TagResolutionView>) -> ParsedPromptView {
    let st = extract_state(words(raw), res);
    ParsedPromptView { cleaned_prompt: st.0, explicit_content: st.1 }
}

/// The paths of the explicit `@` tags in a raw prompt (e.g. `src/main.rs` for the
/// word `@src/main.rs`), in the order they occur; these are what the file system
/// is asked about before [`extract_at_files_with`].
pub fn at_file_tags(raw_prompt: &str) -> (r: Vec<String>)
    ensures
        r.deep_view() == tag_paths(words(raw_prompt@)),
{
    let chars = chars_of(raw_prompt);
    let ws = split_whitespace(chars.as_slice());
    let ghost wv = ws.deep_view();
    let mut r: Vec<String> = Vec::new();
    let n: usize = ws.len();
    for i in 0..n
        invariant
            n == ws@.len(),
            wv == ws.deep_view(),
            r.deep_view() == tag_paths(wv.take(i as int)),
    {
        assert(wv.take(i + 1).drop_last() =~= wv.take(i as int));
        assert(wv[i as int] == ws@[i as int]@);
        let w = &ws[i];
        if w.len() > 1 && w[0] == '@' {
            let path = string_of(vstd::slice::slice_subrange(w.as_slice(), 1, w.len()));
            let ghost old_r = r.deep_view();
            r.push(path);
            assert(r.deep_view() =~= old_r.push(w@.drop_first()));
        }
    }
    assert(wv.take(n as int) =~= wv);
    r
}

proof fn lemma_tag_paths_len(ws: Seq<Seq<char>>)
    ensures
        tag_paths(ws).len() <= ws.len(),
    decreases ws.len(),
{
    if ws.len() > 0 {
        lemma_tag_paths_len(ws.drop_last());
    }
}

fn push_word(cleaned: &mut String, word: &str)
    ensures
        final(cleaned)@ == add_word(old(cleaned)@, word@),
{
    if !cleaned.as_str().is_empty() {
        push_char(cleaned, ' ');
    }
    cleaned.append(word);
    assert(cleaned@ =~= add_word(old(cleaned)@, word@)) by {
        reveal_strlit(" ");
    }
}

/// The views of a list of tag resolutions.
pub open spec fn resolutions_view(res: Seq<TagResolution>) -> Seq<TagResolutionView> {
    res.map_values(|t: TagResolution| t@)
}

/// Builds the parsed prompt for a raw prompt whose `@` tags (in the order
/// [`at_file_tags`] lists them) resolve as `resolutions` says: each tag that
/// names a file or directory is replaced by its file name in backticks and its
/// content joins the explicit content; any other word is kept as it is; words
/// are separated by single spaces.
pub fn extract_at_files_with(raw_prompt: &str, resolutions: &Vec<TagResolution>) -> (r: ParsedPrompt)
    ensures
        r@ == spec_parsed_prompt(raw_prompt@, resolutions_view(resolutions@)),
        is_single_spaced(r@.cleaned_prompt),
        r@.cleaned_prompt == join_seq(words(r@.cleaned_prompt), " "@),
{
    let chars = chars_of(raw_prompt);
    let ws = split_whitespace(chars.as_slice());
    let ghost wv = ws.deep_view();
    proof {
        crate::text::lemma_words_no_white_space(chars@);
        crate::text::lemma_words_nonempty(chars@);
        assert forall|j: int| 0 <= j < wv.len() implies is_word(#[trigger] wv[j]) by {
            assert forall|t: int| 0 <= t < wv[j].len() implies !is_white_space(#[trigger] wv[j][t]) by {
                assert(!is_white_space(words(chars@)[j][t]));
            }
        }
    }
    let ghost rv = resolutions_view(resolutions@);
    let mut cleaned = String::new();
    let mut explicit = String::new();
    let mut k: usize = 0;
    let n: usize = ws.len();
    for i in 0..n
        invariant
            n == ws@.len(),
            wv == ws.deep_view(),
            rv == resolutions_view(resolutions@),
            (cleaned@, explicit@) == extract_state(wv.take(i as int), rv),
            k == tag_paths(wv.take(i as int)).len(),
            is_single_spaced(cleaned@),
            forall|j: int| 0 <= j < wv.len() ==> is_word(#[trigger] wv[j]),
    {
        assert(wv.take(i + 1).drop_last() =~= wv.take(i as int));
        assert(wv[i as int] == ws@[i as int]@);
        proof {
            lemma_tag_paths_len(wv.take(i as int));
        }
        let w = &ws[i];
        let mut valid = false;
        if w.len() > 1 && w[0] == '@' {
            let path = string_of(vstd::slice::slice_subrange(w.as_slice(), 1, w.len()));
            assert(path@ == tag_path(w@)->0);
            if k < resolutions.len() {
                assert(rv[k as int] == resolutions@[k as int]@);
                match &resolutions[k] {
                    TagResolution::File(Some(content)) => {
                        let block = file_block(path.as_str(), content.as_str());
                        explicit.append(block.as_str());
                        valid = true;
                    },
                    TagResolution::File(None) => {
                        valid = true;
                    },
                    TagResolution::Directory(files) => {
                        let blocks = file_blocks(files);
                        explicit.append(blocks.as_str());
                        valid = true;
                    },
                    TagResolution::Missing => {},
                }
            }
            k = k + 1;
            if valid {
                let label = match path_file_name(path.as_str()) {
                    Some(name) => name,
                    None => path,
                };
                let mut quoted = String::new();
                push_char(&mut quoted, '`');
                quoted.append(label.as_str());
                push_char(&mut quoted, '`');
                assert(quoted@ =~= "`"@ + label@ + "`"@) by {
                    reveal_strlit("`");
                }
                proof {
                    assert forall|t: int| 0 <= t < label@.len() implies !is_white_space(#[trigger] label@[t]) by {
                        if label@ != path@ {
                            let q = choose|q: int| #[trigger] occurs_at(path@, label@, q);
                            assert(path@.subrange(q, q + label@.len())[t] == path@[q + t]);
                        }
                        assert(wv[i as int][0] == '@');
                    }
                    assert forall|t: int| 0 <= t < quoted@.len() implies !is_white_space(#[trigger] quoted@[t]) by {
                        if 0 < t < quoted@.len() - 1 {
                            assert(quoted@[t] == label@[t - 1]);
                        }
                    }
                    lemma_add_word_single_spaced(cleaned@, quoted@);
                }
                push_word(&mut cleaned, quoted.as_str());
            }
        }
        if !valid {
            let word = string_of(w.as_slice());
            proof {
                lemma_add_word_single_spaced(cleaned@, word@);
            }
            push_word(&mut cleaned, word.as_str());
        }
    }
    assert(wv.take(n as int) =~= wv);
    proof {
        lemma_single_spaced_words(cleaned@);
    }
    ParsedPrompt { cleaned_prompt: cleaned, explicit_files_content: explicit }
}

proof fn lemma_unresolved_state(ws: Seq<Seq<char>>, res: Seq<TagResolutionView>)
    requires
        forall|k: int| 0 <= k < res.len() ==> #[trigger] res[k] is Missing,
        forall|w: int| 0 <= w < ws.len() ==> #[trigger] ws[w].len() > 0,
    ensures
        extract_state(ws, res) == (join_seq(ws, " "@), Seq::<char>::empty()),
    decreases ws.len(),
{
    if ws.len() > 0 {
        let t = ws.drop_last();
        assert forall|w: int| 0 <= w < t.len() implies #[trigger] t[w].len() > 0 by {
            assert(t[w] == ws[w]);
        }
        lemma_unresolved_state(t, res);
        assert(ws[ws.len() - 1] == ws.last());
        if ws.len() > 1 {
            assert(t[0] == ws[0]);
            lemma_join_nonempty(t);
        }
    }
}

proof fn lemma_join_nonempty(parts: Seq<Seq<char>>)
    requires
        parts.len() > 0,
        parts[0].len() > 0,
    ensures
        join_seq(parts, " "@).len() > 0,
    decreases parts.len(),
{
    if parts.len() > 1 {
        assert(parts.drop_last()[0] == parts[0]);
        lemma_join_nonempty(parts.drop_last());
    }
}

/// Tags that name nothing (such as `@mentions`) stay in the prompt as they are:
/// when no tag resolves to a file or directory, the cleaned prompt is the prompt's
/// words joined by single spaces and there is no explicit content.
pub proof fn law_unresolved_tags_kept(raw: Seq<char>, res: Seq<TagResolutionView>)
    requires
        forall|k: int| 0 <= k < res.len() ==> #[trigger] res[k] is Missing,
    ensures
        spec_parsed_prompt(raw, res) == (ParsedPromptView {
            cleaned_prompt: join_seq(words(raw), " "@),
            explicit_content: Seq::empty(),
        }),
{
    crate::text::lemma_words_nonempty(raw);
    lemma_unresolved_state(words(raw), res);
}

/// The pattern choice matters only when there are codebase patterns: without them
/// the output is the same whether or not the user asked to follow the project's
/// style.
pub proof fn law_follow_pattern_needs_patterns(
    parsed: ParsedPromptView,
    stdin: Seq<char>,
    params: Option<KernelParamsView>,
)
    ensures
        kernel_text(parsed, Seq::empty(), true, stdin, params) == kernel_text(
            parsed,
            Seq::empty(),
            false,
            stdin,
            params,
        ),
{
}

/// The `# Context (input)` header opens the output exactly when some context (tagged
/// files, patterns or piped input) is present; without any, the output starts
/// with the task.
pub proof fn law_context_header(
    parsed: ParsedPromptView,
    patterns: Seq<char>,
    follow_pattern: bool,
    stdin: Seq<char>,
    params: Option<KernelParamsView>,
)
    ensures
        ({
            let out = kernel_text(parsed, patterns, follow_pattern, stdin, params);
            let header = "# Context (input)\n"@;
            let task = "# Task (function)\n"@;
            &&& (parsed.explicit_content.len() > 0 || patterns.len() > 0 || stdin.len() > 0)
                ==> out.take(header.len() as int) == header
            &&& !(parsed.explicit_content.len() > 0 || patterns.len() > 0 || stdin.len() > 0)
                ==> out.take(task.len() as int) == task
        }),
{
    let out = kernel_text(parsed, patterns, follow_pattern, stdin, params);
    let header = "# Context (input)\n"@;
    let task = "# Task (function)\n"@;
    let ctx = context_section(parsed.explicit_content, patterns, stdin);
    let has_explicit = parsed.explicit_content.len() > 0;
    let has_patterns = patterns.len() > 0;
    let rules = tool_usage_text(has_explicit, has_patterns) + pattern_text(has_patterns, follow_pattern);
    let body = match params {
        Some(p) => translated_body(p, rules),
        None => default_body(parsed.cleaned_prompt, rules),
    };
    assert(out == ctx + body);
    if has_explicit || has_patterns || stdin.len() > 0 {
        let f = if has_explicit {
            "## Explicitly Tagged Files:\n"@ + parsed.explicit_content
        } else {
            Seq::empty()
        };
        let pt = if has_patterns {
            "## Repo Map (function & type signatures):\n"@ + patterns + "\n\n"@
        } else {
            Seq::empty()
        };
        let pi = if stdin.len() > 0 {
            "## Piped Standard Input:\n```\n"@ + stdin + "\n```\n\n"@
        } else {
            Seq::empty()
        };
        assert(ctx == header + f + pt + pi);
        assert((header + f + pt + pi + body).take(header.len() as int) =~= header);
    } else {
        assert(ctx =~= Seq::<char>::empty());
        assert(out =~= body);
        match params {
            Some(p) => {
                assert(body.take(task.len() as int) =~= task);
            },
            None => {
                assert(body.take(task.len() as int) =~= task);
            },
        }
    }
}

/// Without translated parameters the output is the deterministic template: the
/// cleaned prompt is the task and the output ends with the fixed verify section.
pub proof fn law_default_template(
    parsed: ParsedPromptView,
    patterns: Seq<char>,
    follow_pattern: bool,
    stdin: Seq<char>,
)
    ensures
        ({
            let out = kernel_text(parsed, patterns, follow_pattern, stdin, None);
            &&& out.len() >= DEFAULT_VERIFY@.len()
            &&& out.skip(out.len() - DEFAULT_VERIFY@.len()) == DEFAULT_VERIFY@
            &&& contains_seq(out, "# Task (function)\n"@ + parsed.cleaned_prompt + "\n\n"@)
        }),
{
    let out = kernel_text(parsed, patterns, follow_pattern, stdin, None);
    let has_explicit = parsed.explicit_content.len() > 0;
    let has_patterns = patterns.len() > 0;
    let rules = tool_usage_text(has_explicit, has_patterns) + pattern_text(has_patterns, follow_pattern);
    let ctx = context_section(parsed.explicit_content, patterns, stdin);
    let task = "# Task (function)\n"@ + parsed.cleaned_prompt + "\n\n"@;
    let rest = "# Constraints (parameters)\n"@ + DEFAULT_CONSTRAINTS@ + rules + "\n"@
        + "# Format (output)\n"@ + DEFAULT_FORMAT@ + "# Verify\n"@;
    assert(out =~= ctx + task + rest + DEFAULT_VERIFY@);
    assert(out.skip(out.len() - DEFAULT_VERIFY@.len()) =~= DEFAULT_VERIFY@);
    assert(out.subrange(ctx.len() as int, (ctx.len() + task.len()) as int) =~= task);
    assert(crate::text::occurs_at(out, task, ctx.len() as int));
}

/// Whether the user asked to follow the project's style depends on the prompt's
/// lowercase form alone: prompts with the same lowercase form get the same answer.
pub proof fn law_follow_intent_ignores_case(p: Seq<char>, q: Seq<char>)
    requires
        spec_to_lowercase(p) == spec_to_lowercase(q),
    ensures
        spec_follows_pattern(p) == spec_follows_pattern(q),
{
}

/// A follow-our-style phrase, in whatever ASCII case, is still found after text is
/// added before or after the prompt, so such a prompt stays detected.
pub proof fn law_signal_survives_added_text(p: Seq<char>, q: Seq<char>)
    requires
        signal_in_any_case(p),
    ensures
        signal_in_any_case(p + q),
        signal_in_any_case(q + p),
{
    let k = choose|k: int|
        0 <= k < follow_signals().len() && contains_seq(ascii_lower(p), #[trigger] follow_signals()[k]);
    let sig = follow_signals()[k];
    let i = choose|i: int| #[trigger] occurs_at(ascii_lower(p), sig, i);
    assert(ascii_lower(p + q) =~= ascii_lower(p) + ascii_lower(q));
    assert(ascii_lower(q + p) =~= ascii_lower(q) + ascii_lower(p));
    assert((ascii_lower(p) + ascii_lower(q)).subrange(i, i + sig.len()) =~= ascii_lower(p).subrange(
        i,
        i + sig.len(),
    ));
    assert(occurs_at(ascii_lower(p + q), sig, i));
    let j = i + ascii_lower(q).len();
    assert((ascii_lower(q) + ascii_lower(p)).subrange(j, j + sig.len()) =~= ascii_lower(p).subrange(
        i,
        i + sig.len(),
    ));
    assert(occurs_at(ascii_lower(q + p), sig, j));
}

/// Uppercasing the ASCII letters of a prompt changes neither whether a
/// follow-our-style phrase appears in it in some case.
pub proof fn law_signal_ignores_ascii_case(p: Seq<char>)
    ensures
        signal_in_any_case(ascii_upper(p)) == signal_in_any_case(p),
{
    assert forall|t: int| 0 <= t < p.len() implies #[trigger] ascii_lower(ascii_upper(p))[t]
        == ascii_lower(p)[t] by {
        let c = p[t];
        if 'a' <= c <= 'z' {
            assert(((((c as u32) - 32) as char) as u32) == (c as u32) - 32);
        }
    }
    assert(ascii_lower(ascii_upper(p)) =~= ascii_lower(p));
}

/// The explicit content is made of file blocks: it is empty, or it opens with
/// `**File: ` and closes with a code fence and a blank line.
pub proof fn law_explicit_content_blocks(raw: Seq<char>, res: Seq<TagResolutionView>)
    ensures
        is_block_text(spec_parsed_prompt(raw, res).explicit_content),
{
    lemma_explicit_block_text(words(raw), res);
}

proof fn lemma_contains_middle(x: Seq<char>, y: Seq<char>, z: Seq<char>)
    ensures
        contains_seq(x + y + z, y),
{
    assert((x + y + z).subrange(x.len() as int, (x.len() + y.len()) as int) =~= y);
    assert(occurs_at(x + y + z, y, x.len() as int));
}

proof fn lemma_translated_rules_inside(p: KernelParamsView, tool: Seq<char>, pat: Seq<char>)
    ensures
        contains_seq(translated_body(p, tool + pat), pat),
        forall|ctx: Seq<char>| contains_seq(ctx + translated_body(p, tool + pat), pat),
{
    let a = "# Task (function)\n"@ + p.task + "\n\n"@ + "# Constraints (parameters)\n"@
        + constraint_lines(kept_constraints(p.constraints));
    let b = "\n"@ + "# Format (output)\n"@ + p.format + "\n\n"@ + "# Verify\n"@ + p.verify + "\n"@;
    let body = translated_body(p, tool + pat);
    assert(body =~= (a + tool) + pat + b);
    lemma_contains_middle(a + tool, pat, b);
    assert forall|ctx: Seq<char>| contains_seq(ctx + body, pat) by {
        assert(ctx + body =~= (ctx + (a + tool)) + pat + b);
        lemma_contains_middle(ctx + (a + tool), pat, b);
    }
}

proof fn lemma_default_rules_inside(cleaned: Seq<char>, tool: Seq<char>, pat: Seq<char>)
    ensures
        forall|ctx: Seq<char>| contains_seq(ctx + default_body(cleaned, tool + pat), pat),
{
    let a = "# Task (function)\n"@ + cleaned + "\n\n"@ + "# Constraints (parameters)\n"@
        + DEFAULT_CONSTRAINTS@;
    let b = "\n"@ + "# Format (output)\n"@ + DEFAULT_FORMAT@ + "# Verify\n"@ + DEFAULT_VERIFY@;
    let body = default_body(cleaned, tool + pat);
    assert(body =~= (a + tool) + pat + b);
    assert forall|ctx: Seq<char>| contains_seq(ctx + body, pat) by {
        assert(ctx + body =~= (ctx + (a + tool)) + pat + b);
        lemma_contains_middle(ctx + (a + tool), pat, b);
    }
}

/// With codebase patterns present, the output carries the strict pattern rule when
/// the user asked to follow the project's style and the advisory rule otherwise,
/// whatever the translated parameters are and whether there are any.
pub proof fn law_pattern_rule_in_output(
    parsed: ParsedPromptView,
    patterns: Seq<char>,
    follow_pattern: bool,
    stdin: Seq<char>,
    params: Option<KernelParamsView>,
)
    requires
        patterns.len() > 0,
    ensures
        follow_pattern ==> contains_seq(
            kernel_text(parsed, patterns, follow_pattern, stdin, params),
            PATTERN_STRICT@,
        ),
        !follow_pattern ==> contains_seq(
            kernel_text(parsed, patterns, follow_pattern, stdin, params),
            PATTERN_ADVISORY@,
        ),
{
    let ctx = context_section(parsed.explicit_content, patterns, stdin);
    let tool = tool_usage_text(parsed.explicit_content.len() > 0, true);
    let pat = pattern_text(true, follow_pattern);
    match params {
        Some(p) => {
            lemma_translated_rules_inside(p, tool, pat);
            assert(contains_seq(ctx + translated_body(p, tool + pat), pat));
        },
        None => {
            lemma_default_rules_inside(parsed.cleaned_prompt, tool, pat);
            assert(contains_seq(ctx + default_body(parsed.cleaned_prompt, tool + pat), pat));
        },
    }
}

proof fn lemma_split_append_word(x: Seq<char>, w: Seq<char>)
    requires
        forall|i: int| 0 <= i < w.len() ==> !is_white_space(#[trigger] w[i]),
    ensures
        split_state(x + w) == (split_state(x).0, split_state(x).1 + w),
    decreases w.len(),
{
    if w.len() == 0 {
        assert(x + w =~= x);
        assert(split_state(x).1 + w =~= split_state(x).1);
    } else {
        let v = w.drop_last();
        assert forall|i: int| 0 <= i < v.len() implies !is_white_space(#[trigger] v[i]) by {
            assert(v[i] == w[i]);
        }
        lemma_split_append_word(x, v);
        assert((x + w).drop_last() =~= x + v);
        assert((x + w).last() == w.last());
        assert(split_state(x).1 + w =~= (split_state(x).1 + v).push(w.last()));
    }
}

/// The words of `x`, a space and the word `w` are those of `x` followed by `w`.
proof fn lemma_words_append(x: Seq<char>, w: Seq<char>)
    requires
        is_word(w),
    ensures
        words(x + " "@ + w) == words(x).push(w),
{
    assert(" "@ == seq![' ']) by {
        reveal_strlit(" ");
    }
    assert(is_white_space(' '));
    let xs = x + " "@;
    assert(xs.drop_last() =~= x);
    assert(xs.last() == ' ');
    assert(split_state(xs) == (words(x), Seq::<char>::empty()));
    lemma_split_append_word(xs, w);
    assert(Seq::<char>::empty() + w =~= w);
}

/// A tag added at the end of a prompt that resolves to a readable file brings that
/// file's block after the explicit content the prompt had, and its label after the
/// prompt's cleaned words: each readable tagged file contributes its block, in tag
/// order.
pub proof fn law_added_file_tag(
    raw: Seq<char>,
    path: Seq<char>,
    content: Seq<char>,
    res: Seq<TagResolutionView>,
)
    requires
        is_word(path),
        resolution_at(res, tag_paths(words(raw)).len() as int) == TagResolutionView::File(
            Some(content),
        ),
    ensures
        spec_parsed_prompt(raw + " @"@ + path, res).explicit_content == spec_parsed_prompt(
            raw,
            res,
        ).explicit_content + file_block_text(path, content),
        spec_parsed_prompt(raw + " @"@ + path, res).cleaned_prompt == add_word(
            spec_parsed_prompt(raw, res).cleaned_prompt,
            "`"@ + tag_label(path) + "`"@,
        ),
{
    assert(" @"@ == seq![' ', '@']) by {
        reveal_strlit(" @");
    }
    assert("@"@ == seq!['@']) by {
        reveal_strlit("@");
    }
    let w = seq!['@'] + path;
    assert(raw + " @"@ + path =~= raw + " "@ + w) by {
        reveal_strlit(" ");
    }
    assert forall|i: int| 0 <= i < w.len() implies !is_white_space(#[trigger] w[i]) by {
        if i > 0 {
            assert(w[i] == path[i - 1]);
        }
    }
    lemma_words_append(raw, w);
    let ws = words(raw).push(w);
    assert(ws.drop_last() =~= words(raw));
    assert(w.drop_first() =~= path);
    assert(tag_path(w) == Some(path));
}

} // verus!
