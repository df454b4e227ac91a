use kernelizer_rs::text::{
    chars_of, contains_chars, is_whitespace, join_chars, push_decimal, split_lines,
    split_whitespace, string_of, trim_chars, utf8_len_of, CharClass,
};

fn cs(s: &str) -> Vec<char> {
    s.chars().collect()
}

fn strings(v: &Vec<Vec<char>>) -> Vec<String> {
    v.iter().map(|w| w.iter().collect()).collect()
}

#[test]
fn whitespace_matches_std_on_the_first_code_points() {
    for u in 0u32..0x3100 {
        if let Some(c) = char::from_u32(u) {
            assert_eq!(is_whitespace(c), c.is_whitespace(), "code point {:#x}", u);
        }
    }
}

#[test]
fn split_whitespace_matches_std() {
    let s = "  fix the\tauth \n bug\u{3000}now  ";
    let words = split_whitespace(&cs(s));
    let expected: Vec<String> = s.split_whitespace().map(|w| w.to_string()).collect();
    assert_eq!(strings(&words), expected);
}

#[test]
fn split_whitespace_of_blank_text_is_empty() {
    assert!(split_whitespace(&cs(" \n\t ")).is_empty());
    assert!(split_whitespace(&cs("")).is_empty());
}

#[test]
fn trim_by_class() {
    assert_eq!(string_of(&trim_chars(&cs("  a b \n"), CharClass::WhiteSpace)), "a b");
    assert_eq!(string_of(&trim_chars(&cs("`rate_limit,`"), CharClass::NotWordChar)), "rate_limit");
    assert_eq!(string_of(&trim_chars(&cs("`rate_limit,`"), CharClass::NotAlphanumeric)), "rate_limit");
    assert_eq!(string_of(&trim_chars(&cs("_x_"), CharClass::NotAlphanumeric)), "x");
    assert_eq!(string_of(&trim_chars(&cs("{:a:{"), CharClass::BraceOrColon)), "a");
    assert_eq!(string_of(&trim_chars(&cs("{:}"), CharClass::BraceOrColon)), "}");
}

#[test]
fn lines_match_std() {
    for s in ["a\nb\r\nc", "a\n", "", "\n\n", "x\r", "one\r\n\r\ntwo\n"] {
        let expected: Vec<String> = s.lines().map(|l| l.to_string()).collect();
        assert_eq!(strings(&split_lines(&cs(s))), expected, "input {:?}", s);
    }
}

#[test]
fn decimal_notation() {
    for n in [0usize, 7, 10, 99, 100, 4000, 1234567890] {
        let mut out = String::from("L");
        push_decimal(&mut out, n);
        assert_eq!(out, format!("L{}", n));
    }
}

#[test]
fn utf8_lengths() {
    assert_eq!(utf8_len_of(&cs("abc")), 3);
    assert_eq!(utf8_len_of(&cs("\u{e9}")), 2);
    assert_eq!(utf8_len_of(&cs("\u{2192}")), 3);
    assert_eq!(utf8_len_of(&cs("\u{1F600}")), 4);
}

#[test]
fn join_and_contains() {
    let parts = vec![cs("a"), cs("bc"), cs("")];
    assert_eq!(string_of(&join_chars(&parts, &cs(", "))), "a, bc, ");
    assert!(contains_chars(&cs("hello world"), &cs("o w")));
    assert!(!contains_chars(&cs("hello"), &cs("hello!")));
    assert!(contains_chars(&cs("x"), &cs("")));
}

#[test]
fn chars_round_trip() {
    let s = "caf\u{e9} \u{2192} ok";
    assert_eq!(string_of(&chars_of(s)), s);
}
