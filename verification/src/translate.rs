//! Preparing a prompt for translation by a command-line LLM, and cleaning what
//! it answers before the answer is parsed.

use vstd::prelude::*;
use vstd::string::StringExecFns;

use crate::template::KernelParams;
use crate::text::{chars_of, matches_at, string_of, trim_chars, trim_ws, CharClass};

verus! {

/// The instructions given to the translating model ahead of the request.
pub const SYSTEM_PROMPT: &'static str = "You are an expert Prompt Engineer. Convert the user's vague request into strict KERNEL framework parameters. Rules: Task: single unambiguous goal. Constraints: infer technical constraints (max 3) \u{2014} be specific to the code provided. Format: exact output structure. Verify: how to test this. Respond ONLY in JSON matching this schema: {\"task\":\"...\",\"constraints\":[\"...\"],\"format\":\"...\",\"verify\":\"...\"}. Do not use markdown blocks, output raw JSON.";

/// The most characters of file context sent along for translation.
pub const TRANSLATE_CONTEXT_CAP: usize = 2000;

/// The file context as sent for translation: its first 2000 characters.
pub open spec fn truncated_context(s: Seq<char>) -> Seq<char> {
    if s.len() > TRANSLATE_CONTEXT_CAP {
        s.take(TRANSLATE_CONTEXT_CAP as int)
    } else {
        s
    }
}

/// The file context cut to its first 2000 characters (the whole context when it
/// is shorter).
pub fn truncate_context(file_context: &str) -> (r: String)
    ensures
        r@ == truncated_context(file_context@),
{
    let chars = chars_of(file_context);
    let k: usize = if chars.len() > TRANSLATE_CONTEXT_CAP {
        TRANSLATE_CONTEXT_CAP
    } else {
        chars.len()
    };
    let r = string_of(vstd::slice::slice_subrange(chars.as_slice(), 0, k));
    assert(r@ =~= truncated_context(file_context@));
    r
}

/// The request handed to the translating model: the instructions, the file context
/// when there is any, and the user's request.
pub open spec fn translation_prompt_text(prompt: Seq<char>, context: Seq<char>) -> Seq<char> {
    if context.len() == 0 {
        SYSTEM_PROMPT@ + "\n\nUser Request: "@ + prompt
    } else {
        SYSTEM_PROMPT@ + "\n\nFile Context (use to make constraints specific):\n"@ + context
            + "\n\nUser Request: "@ + prompt
    }
}

/// Builds the request for the translating model from the user's prompt and the
/// content of the tagged files, cut to 2000 characters.
pub fn translation_prompt(prompt: &str, file_context: &str) -> (r: String)
    ensures
        r@ == translation_prompt_text(prompt@, truncated_context(file_context@)),
{
    let truncated = truncate_context(file_context);
    let mut r = String::from_str(SYSTEM_PROMPT);
    if truncated.as_str().is_empty() {
        r.append("\n\nUser Request: ");
        r.append(prompt);
    } else {
        r.append("\n\nFile Context (use to make constraints specific):\n");
        r.append(truncated.as_str());
        r.append("\n\nUser Request: ");
        r.append(prompt);
    }
    assert(r@ =~= translation_prompt_text(prompt@, truncated@));
    r
}

/// `s` with every leading copy of `p` removed (`str::trim_start_matches`).
pub open spec fn strip_leading(s: Seq<char>, p: Seq<char>) -> Seq<char>
    decreases s.len(),
{
    if p.len() > 0 && p.len() <= s.len() && s.take(p.len() as int) == p {
        strip_leading(s.skip(p.len() as int), p)
    } else {
        s
    }
}

/// `s` with every trailing copy of `p` removed (`str::trim_end_matches`).
pub open spec fn strip_trailing(s: Seq<char>, p: Seq<char>) -> Seq<char>
    decreases s.len(),
{
    if p.len() > 0 && p.len() <= s.len() && s.skip(s.len() - p.len()) == p {
        strip_trailing(s.take(s.len() - p.len()), p)
    } else {
        s
    }
}

/// The model's answer without surrounding whitespace and Markdown code fences.
pub open spec fn clean_output_text(s: Seq<char>) -> Seq<char> {
    trim_ws(
        strip_trailing(strip_leading(strip_leading(trim_ws(s), "```json"@), "```"@), "```"@),
    )
}

fn strip_leading_exec(s: &[char], p: &[char]) -> (r: Vec<char>)
    ensures
        r@ == strip_leading(s@, p@),
{
    let n: usize = s.len();
    let m: usize = p.len();
    let mut i: usize = 0;
    assert(s@.skip(0) =~= s@);
    while m > 0 && m <= n - i && matches_at(s, p, i)
        invariant
            n == s@.len(),
            m == p@.len(),
            i <= n,
            strip_leading(s@, p@) == strip_leading(s@.skip(i as int), p@),
        decreases n - i,
    {
        assert(s@.skip(i as int).take(m as int) =~= s@.subrange(i as int, i + m));
        assert(s@.skip(i as int).skip(m as int) =~= s@.skip(i + m));
        i = i + m;
    }
    proof {
        if m > 0 && m <= n - i {
            assert(s@.skip(i as int).take(m as int) =~= s@.subrange(i as int, i + m));
        }
    }
    let r = vstd::slice::slice_to_vec(vstd::slice::slice_subrange(s, i, n));
    assert(r@ =~= s@.skip(i as int));
    r
}

fn strip_trailing_exec(s: &[char], p: &[char]) -> (r: Vec<char>)
    ensures
        r@ == strip_trailing(s@, p@),
{
    let n: usize = s.len();
    let m: usize = p.len();
    let mut j: usize = n;
    assert(s@.take(n as int) =~= s@);
    while m > 0 && m <= j && matches_at(s, p, j - m)
        invariant
            n == s@.len(),
            m == p@.len(),
            j <= n,
            strip_trailing(s@, p@) == strip_trailing(s@.take(j as int), p@),
        decreases j,
    {
        assert(s@.take(j as int).skip(j - m) =~= s@.subrange(j - m, j as int));
        assert(s@.take(j as int).take(j - m) =~= s@.take(j - m));
        j = j - m;
    }
    proof {
        if m > 0 && m <= j {
            assert(s@.take(j as int).skip(j - m) =~= s@.subrange(j - m, j as int));
        }
    }
    let r = vstd::slice::slice_to_vec(vstd::slice::slice_subrange(s, 0, j));
    assert(r@ =~= s@.take(j as int));
    r
}

/// Cleans what the translating model printed: surrounding whitespace, a leading
/// ```` ```json ```` or ```` ``` ```` fence and trailing ```` ``` ```` fences are removed, so
/// that the raw JSON remains.
pub fn clean_cli_output(stdout: &str) -> (r: String)
    ensures
        r@ == clean_output_text(stdout@),
{
    let s = chars_of(stdout);
    let t1 = trim_chars(s.as_slice(), CharClass::WhiteSpace);
    let json_fence = chars_of("```json");
    let fence = chars_of("```");
    let t2 = strip_leading_exec(t1.as_slice(), json_fence.as_slice());
    let t3 = strip_leading_exec(t2.as_slice(), fence.as_slice());
    let t4 = strip_trailing_exec(t3.as_slice(), fence.as_slice());
    let t5 = trim_chars(t4.as_slice(), CharClass::WhiteSpace);
    string_of(t5.as_slice())
}

/// The cleaned answer has no whitespace at either end.
pub proof fn law_clean_output_trimmed(s: Seq<char>)
    ensures
        clean_output_text(s).len() > 0 ==> !crate::text::is_white_space(clean_output_text(s)[0])
            && !crate::text::is_white_space(clean_output_text(s).last()),
{
    crate::text::lemma_trim_class_ends(
        strip_trailing(strip_leading(strip_leading(trim_ws(s), "```json"@), "```"@), "```"@),
        CharClass::WhiteSpace,
    );
}

/// The program that runs the Gemini translation.
pub const GEMINI_PROGRAM: &'static str = "gemini";

/// The host command-line tools that can translate a prompt, in the order they are
/// tried: Gemini's flash model, then the Haiku model.
#[derive(Clone, Copy, PartialEq, Eq, Structural)]
pub enum TranslateCli {
    /// `gemini` with its flash model.
    Gemini,
    /// The Haiku model's command-line tool, run bare.
    Claude,
}

/// The arguments given to `gemini` for a request.
pub open spec fn gemini_args(full_prompt: Seq<char>) -> Seq<Seq<char>> {
    seq!["-y"@, "-o"@, "text"@, "-m"@, "gemini-2.5-flash"@, "-p"@, full_prompt]
}

/// The arguments given to the Haiku model's tool for a request.
pub open spec fn claude_args(full_prompt: Seq<char>) -> Seq<Seq<char>> {
    seq!["--bare"@, "-p"@, full_prompt, "--model"@, "haiku"@]
}

/// The arguments a translation tool is run with for the request `full_prompt`.
pub fn cli_args(cli: TranslateCli, full_prompt: &str) -> (r: Vec<String>)
    ensures
        cli is Gemini ==> r.deep_view() == gemini_args(full_prompt@),
        cli is Claude ==> r.deep_view() == claude_args(full_prompt@),
{
    let p = String::from_str(full_prompt);
    match cli {
        TranslateCli::Gemini => {
            let r = vec![
                String::from_str("-y"),
                String::from_str("-o"),
                String::from_str("text"),
                String::from_str("-m"),
                String::from_str("gemini-2.5-flash"),
                String::from_str("-p"),
                p,
            ];
            assert(r.deep_view() =~= gemini_args(full_prompt@));
            r
        },
        TranslateCli::Claude => {
            let r = vec![
                String::from_str("--bare"),
                String::from_str("-p"),
                p,
                String::from_str("--model"),
                String::from_str("haiku"),
            ];
            assert(r.deep_view() =~= claude_args(full_prompt@));
            r
        },
    }
}

/// What to do next while translating.
pub enum TranslateStep {
    /// Run this tool on the request and report its parsed answer.
    Run(TranslateCli),
    /// Stop with this result.
    Done(Option<KernelParams>),
}

/// The translation's next step, given how many tools have run and the parsed answer
/// of the last one: Gemini first; the Haiku model's tool when Gemini gave no usable
/// answer; then the last answer, which is `None` when neither tool gave one.
pub fn next_translate_step(tried: usize, parsed: Option<KernelParams>) -> (r: TranslateStep)
    ensures
        tried == 0 ==> r == TranslateStep::Run(TranslateCli::Gemini),
        tried == 1 && parsed is Some ==> r == TranslateStep::Done(parsed),
        tried == 1 && parsed is None ==> r == TranslateStep::Run(TranslateCli::Claude),
        tried >= 2 ==> r == TranslateStep::Done(parsed),
{
    if tried == 0 {
        TranslateStep::Run(TranslateCli::Gemini)
    } else if tried == 1 {
        match parsed {
            Some(p) => TranslateStep::Done(Some(p)),
            None => TranslateStep::Run(TranslateCli::Claude),
        }
    } else {
        TranslateStep::Done(parsed)
    }
}

} // verus!
