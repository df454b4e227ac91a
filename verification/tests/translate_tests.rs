use kernelizer_rs::template::KernelParams;
use kernelizer_rs::translate::{
    clean_cli_output, cli_args, next_translate_step, translation_prompt, truncate_context,
    TranslateCli, TranslateStep, GEMINI_PROGRAM, SYSTEM_PROMPT,
};

#[test]
fn short_context_is_kept() {
    assert_eq!(truncate_context("abc"), "abc");
    assert_eq!(truncate_context(""), "");
}

#[test]
fn long_context_is_cut_at_two_thousand_characters() {
    let all_two_byte: String = std::iter::repeat('\u{e9}').take(2500).collect();
    let cut = truncate_context(&all_two_byte);
    assert_eq!(cut.chars().count(), 2000);
    assert_eq!(cut.len(), 4000);

    let shifted = format!("a{}", all_two_byte);
    let cut = truncate_context(&shifted);
    assert_eq!(cut.chars().count(), 2000);
    assert!(shifted.starts_with(cut.as_str()));

    let exact: String = "a".repeat(2000);
    assert_eq!(truncate_context(&exact), exact);
    let sixteen_hundred: String = "a".repeat(1600);
    assert_eq!(truncate_context(&sixteen_hundred), sixteen_hundred);
    assert_eq!(truncate_context(&"a".repeat(2001)), "a".repeat(2000));
}

#[test]
fn translation_prompt_sends_1600_characters_whole() {
    let ctx = "a".repeat(1600);
    assert_eq!(
        translation_prompt("p", &ctx),
        format!(
            "{}\n\nFile Context (use to make constraints specific):\n{}\n\nUser Request: p",
            SYSTEM_PROMPT, ctx
        )
    );
}

#[test]
fn tool_arguments() {
    assert_eq!(
        cli_args(TranslateCli::Gemini, "REQ"),
        vec!["-y", "-o", "text", "-m", "gemini-2.5-flash", "-p", "REQ"]
    );
    assert_eq!(cli_args(TranslateCli::Claude, "REQ"), vec!["--bare", "-p", "REQ", "--model", "haiku"]);
    assert_eq!(GEMINI_PROGRAM, "gemini");
}

fn params(task: &str) -> KernelParams {
    KernelParams {
        task: task.to_owned(),
        constraints: vec![],
        format: String::new(),
        verify: String::new(),
    }
}

#[test]
fn gemini_first_then_haiku_then_give_up() {
    assert!(matches!(next_translate_step(0, None), TranslateStep::Run(TranslateCli::Gemini)));
    assert!(matches!(next_translate_step(1, None), TranslateStep::Run(TranslateCli::Claude)));
    match next_translate_step(1, Some(params("g"))) {
        TranslateStep::Done(Some(p)) => assert_eq!(p.task, "g"),
        _ => panic!("a usable Gemini answer ends the translation"),
    }
    match next_translate_step(2, Some(params("h"))) {
        TranslateStep::Done(Some(p)) => assert_eq!(p.task, "h"),
        _ => panic!("the second answer is the result"),
    }
    assert!(matches!(next_translate_step(2, None), TranslateStep::Done(None)));
}

#[test]
fn translation_prompt_with_and_without_context() {
    assert_eq!(
        translation_prompt("do it", ""),
        format!("{}\n\nUser Request: do it", SYSTEM_PROMPT)
    );
    assert_eq!(
        translation_prompt("do it", "CTX"),
        format!(
            "{}\n\nFile Context (use to make constraints specific):\nCTX\n\nUser Request: do it",
            SYSTEM_PROMPT
        )
    );
}

#[test]
fn cli_output_fences_are_removed() {
    assert_eq!(clean_cli_output("```json\n{\"task\":\"t\"}\n```\n"), "{\"task\":\"t\"}");
    assert_eq!(clean_cli_output("  ```\n{}\n```  "), "{}");
    assert_eq!(clean_cli_output("{\"a\":1}"), "{\"a\":1}");
    assert_eq!(clean_cli_output("``````json x"), "json x");
}
