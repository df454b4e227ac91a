//! Finding code snippets relevant to a prompt: the search terms drawn from the
//! prompt, and the scan that turns matching source files into snippets.

use vstd::prelude::*;
use vstd::string::StringExecFns;

use crate::text::{
    append_chars, chars_eq, chars_of, contains_chars, contains_seq, decimal, join_seq, lines,
    push_decimal, split_lines, is_one_of, lowercase_chars, spec_to_lowercase,
    split_whitespace, string_of, trim_chars, trim_class, utf8_len, utf8_len_of, words, CharClass,
    ascii_upper,
};

verus! {

/// Words too common to say anything about a task.
pub open spec fn stop_words() -> Seq<Seq<char>> {
    seq![
        "the"@, "a"@, "an"@, "to"@, "for"@, "of"@, "in"@, "on"@, "at"@, "add"@, "with"@,
        "our"@, "we"@, "and"@, "or"@, "is"@, "it"@, "be"@, "as"@, "by"@, "that"@, "this"@,
        "from"@, "into"@, "file"@, "files"@, "code"@, "use"@, "using"@, "make"@, "like"@,
        "can"@, "should"@, "would"@, "will"@, "all"@, "also"@, "not"@, "but"@, "do"@, "does"@,
    ]
}

fn stop_word_list() -> (r: Vec<&'static str>)
    ensures
        r@.map_values(|s: &str| s@) == stop_words(),
{
    let r = vec![
        "the", "a", "an", "to", "for", "of", "in", "on", "at", "add", "with", "our", "we", "and",
        "or", "is", "it", "be", "as", "by", "that", "this", "from", "into", "file", "files",
        "code", "use", "using", "make", "like", "can", "should", "would", "will", "all", "also",
        "not", "but", "do", "does",
    ];
    assert(r@.map_values(|s: &str| s@) =~= stop_words());
    r
}

/// A prompt word as a keyword candidate: trimmed of characters that are neither
/// alphanumeric nor `_`, then lowercased.
pub open spec fn keyword_candidate(w: Seq<char>) -> Seq<char> {
    spec_to_lowercase(trim_class(w, CharClass::NotWordChar))
}

/// A candidate counts as a keyword when it is longer than three bytes and no stop word.
pub open spec fn is_keyword(k: Seq<char>) -> bool {
    utf8_len(k) > 3 && !stop_words().contains(k)
}

/// The distinct keywords of the words `ws`, in order of first occurrence.
pub open spec fn keyword_list(ws: Seq<Seq<char>>) -> Seq<Seq<char>>
    decreases ws.len(),
{
    if ws.len() == 0 {
        Seq::empty()
    } else {
        let prev = keyword_list(ws.drop_last());
        let k = keyword_candidate(ws.last());
        if is_keyword(k) && !prev.contains(k) {
            prev.push(k)
        } else {
            prev
        }
    }
}

/// A prompt word as it enters a word pair: trimmed of non-alphanumeric characters.
pub open spec fn pair_word(w: Seq<char>) -> Seq<char> {
    trim_class(w, CharClass::NotAlphanumeric)
}

/// The words `ws` that enter word pairs: trimmed, longer than three bytes, and
/// not a stop word once lowercased.
pub open spec fn pair_words(ws: Seq<Seq<char>>) -> Seq<Seq<char>>
    decreases ws.len(),
{
    if ws.len() == 0 {
        Seq::empty()
    } else {
        let prev = pair_words(ws.drop_last());
        let t = pair_word(ws.last());
        if utf8_len(t) > 3 && !stop_words().contains(spec_to_lowercase(t)) {
            prev.push(t)
        } else {
            prev
        }
    }
}

/// For each two neighbouring words, their lowercase forms joined directly and
/// joined with `_` (e.g. `ratelimiting` and `rate_limiting`).
pub open spec fn pair_terms(pw: Seq<Seq<char>>) -> Seq<Seq<char>>
    decreases pw.len(),
{
    if pw.len() < 2 {
        Seq::empty()
    } else {
        let a = spec_to_lowercase(pw[pw.len() - 2]);
        let b = spec_to_lowercase(pw.last());
        pair_terms(pw.drop_last()) + seq![a + b, a + "_"@ + b]
    }
}

/// `s` with each run of equal neighbours reduced to one element (`Vec::dedup`).
pub open spec fn dedup(s: Seq<Seq<char>>) -> Seq<Seq<char>>
    decreases s.len(),
{
    if s.len() == 0 {
        Seq::empty()
    } else {
        let prev = dedup(s.drop_last());
        if prev.len() > 0 && prev.last() == s.last() {
            prev
        } else {
            prev.push(s.last())
        }
    }
}

/// The terms searched for in the project's files for `prompt`: its keywords,
/// then its word pairs, with neighbouring repeats removed.
pub open spec fn spec_search_terms(prompt: Seq<char>) -> Seq<Seq<char>> {
    let ws = words(prompt);
    dedup(keyword_list(ws) + pair_terms(pair_words(ws)))
}

/// Each of the words with its ASCII letters uppercased.
pub open spec fn upper_words(ws: Seq<Seq<char>>) -> Seq<Seq<char>> {
    ws.map_values(|w: Seq<char>| ascii_upper(w))
}

proof fn lemma_pair_terms_ascii_upper(pw: Seq<Seq<char>>)
    requires
        forall|j: int|
            0 <= j < pw.len() ==> spec_to_lowercase(ascii_upper(#[trigger] pw[j])) == spec_to_lowercase(pw[j]),
    ensures
        pair_terms(upper_words(pw)) == pair_terms(pw),
    decreases pw.len(),
{
    if pw.len() >= 2 {
        assert(upper_words(pw).drop_last() =~= upper_words(pw.drop_last()));
        assert forall|j: int| 0 <= j < pw.drop_last().len() implies spec_to_lowercase(
            ascii_upper(#[trigger] pw.drop_last()[j]),
        ) == spec_to_lowercase(pw.drop_last()[j]) by {
            assert(pw.drop_last()[j] == pw[j]);
        }
        lemma_pair_terms_ascii_upper(pw.drop_last());
        assert(spec_to_lowercase(ascii_upper(pw[pw.len() - 2])) == spec_to_lowercase(pw[pw.len() - 2]));
        assert(spec_to_lowercase(ascii_upper(pw[pw.len() - 1])) == spec_to_lowercase(pw[pw.len() - 1]));
    }
}

/// Whether `v` is one of the sequences of `list`.
pub fn contains_vec(list: &Vec<Vec<char>>, v: &[char]) -> (r: bool)
    ensures
        r == list.deep_view().contains(v@),
{
    let ghost lv = list.deep_view();
    let n: usize = list.len();
    for i in 0..n
        invariant
            n == list@.len(),
            lv == list.deep_view(),
            forall|j: int| 0 <= j < i ==> lv[j] != v@,
    {
        assert(lv[i as int] == list@[i as int]@);
        if chars_eq(list[i].as_slice(), v) {
            return true;
        }
    }
    false
}

fn push_vec(list: &mut Vec<Vec<char>>, v: Vec<char>)
    ensures
        final(list).deep_view() == old(list).deep_view().push(v@),
{
    let ghost old_dv = list.deep_view();
    let ghost vv = v@;
    assert(v.deep_view() =~= vv);
    list.push(v);
    assert(list.deep_view() =~= old_dv.push(vv));
}

fn keywords_of(ws: &Vec<Vec<char>>) -> (r: Vec<Vec<char>>)
    ensures
        r.deep_view() == keyword_list(ws.deep_view()),
        r.deep_view() == keyword_list(upper_words(ws.deep_view())),
{
    let ghost wv = ws.deep_view();
    let stops = stop_word_list();
    let mut r: Vec<Vec<char>> = Vec::new();
    let n: usize = ws.len();
    for i in 0..n
        invariant
            n == ws@.len(),
            wv == ws.deep_view(),
            stops@.map_values(|s: &str| s@) == stop_words(),
            r.deep_view() == keyword_list(wv.take(i as int)),
            r.deep_view() == keyword_list(upper_words(wv.take(i as int))),
    {
        assert(wv.take(i + 1).drop_last() =~= wv.take(i as int));
        assert(upper_words(wv.take(i + 1)).drop_last() =~= upper_words(wv.take(i as int)));
        assert(wv[i as int] == ws@[i as int]@);
        let trimmed = trim_chars(ws[i].as_slice(), CharClass::NotWordChar);
        let k = lowercase_chars(trimmed.as_slice());
        proof {
            crate::text::lemma_trim_ascii_upper(wv[i as int], CharClass::NotWordChar);
            assert(upper_words(wv.take(i + 1)).last() == ascii_upper(wv[i as int]));
        }
        if utf8_len_of(k.as_slice()) > 3 && !is_one_of(k.as_slice(), &stops) && !contains_vec(
            &r,
            k.as_slice(),
        ) {
            push_vec(&mut r, k);
        }
    }
    assert(wv.take(n as int) =~= wv);
    r
}

fn pair_words_of(ws: &Vec<Vec<char>>) -> (r: Vec<Vec<char>>)
    ensures
        r.deep_view() == pair_words(ws.deep_view()),
        pair_words(upper_words(ws.deep_view())) == upper_words(r.deep_view()),
        forall|j: int|
            0 <= j < r.deep_view().len() ==> spec_to_lowercase(ascii_upper(#[trigger] r.deep_view()[j]))
                == spec_to_lowercase(r.deep_view()[j]),
{
    let ghost wv = ws.deep_view();
    let stops = stop_word_list();
    let mut r: Vec<Vec<char>> = Vec::new();
    let n: usize = ws.len();
    for i in 0..n
        invariant
            n == ws@.len(),
            wv == ws.deep_view(),
            stops@.map_values(|s: &str| s@) == stop_words(),
            r.deep_view() == pair_words(wv.take(i as int)),
            pair_words(upper_words(wv.take(i as int))) == upper_words(r.deep_view()),
            forall|j: int|
                0 <= j < r.deep_view().len() ==> spec_to_lowercase(
                    ascii_upper(#[trigger] r.deep_view()[j]),
                ) == spec_to_lowercase(r.deep_view()[j]),
    {
        assert(wv.take(i + 1).drop_last() =~= wv.take(i as int));
        assert(upper_words(wv.take(i + 1)).drop_last() =~= upper_words(wv.take(i as int)));
        assert(wv[i as int] == ws@[i as int]@);
        let t = trim_chars(ws[i].as_slice(), CharClass::NotAlphanumeric);
        let lower = lowercase_chars(t.as_slice());
        proof {
            crate::text::lemma_trim_ascii_upper(wv[i as int], CharClass::NotAlphanumeric);
            crate::text::lemma_utf8_len_ascii_upper(t@);
            assert(upper_words(wv.take(i + 1)).last() == ascii_upper(wv[i as int]));
        }
        let ghost before = r.deep_view();
        if utf8_len_of(t.as_slice()) > 3 && !is_one_of(lower.as_slice(), &stops) {
            push_vec(&mut r, t);
            assert(upper_words(r.deep_view()) =~= upper_words(before).push(ascii_upper(t@)));
            assert(r.deep_view().last() == t@);
        }
    }
    assert(wv.take(n as int) =~= wv);
    r
}

fn pair_terms_of(pw: &Vec<Vec<char>>) -> (r: Vec<Vec<char>>)
    ensures
        r.deep_view() == pair_terms(pw.deep_view()),
{
    let ghost pv = pw.deep_view();
    let mut r: Vec<Vec<char>> = Vec::new();
    let n: usize = pw.len();
    if n < 2 {
        return r;
    }
    assert(pair_terms(pv.take(1)) =~= Seq::<Seq<char>>::empty());
    for i in 1..n
        invariant
            n == pw@.len(),
            pv == pw.deep_view(),
            r.deep_view() == pair_terms(pv.take(i as int)),
    {
        let ghost pre = pv.take(i + 1);
        assert(pre.drop_last() =~= pv.take(i as int));
        assert(pre[pre.len() - 2] == pw@[i - 1]@);
        assert(pre.last() == pw@[i as int]@);
        let a = lowercase_chars(pw[i - 1].as_slice());
        let b = lowercase_chars(pw[i].as_slice());
        let mut joined: Vec<char> = Vec::new();
        append_chars(&mut joined, a.as_slice());
        append_chars(&mut joined, b.as_slice());
        let mut underscored: Vec<char> = Vec::new();
        append_chars(&mut underscored, a.as_slice());
        underscored.push('_');
        append_chars(&mut underscored, b.as_slice());
        assert(underscored@ =~= a@ + "_"@ + b@) by {
            reveal_strlit("_");
        }
        let ghost before = r.deep_view();
        push_vec(&mut r, joined);
        push_vec(&mut r, underscored);
        assert(r.deep_view() =~= before + seq![a@ + b@, a@ + "_"@ + b@]);
    }
    assert(pv.take(n as int) =~= pv);
    r
}

fn dedup_of(s: &Vec<Vec<char>>) -> (r: Vec<Vec<char>>)
    ensures
        r.deep_view() == dedup(s.deep_view()),
{
    let ghost sv = s.deep_view();
    let mut r: Vec<Vec<char>> = Vec::new();
    let n: usize = s.len();
    for i in 0..n
        invariant
            n == s@.len(),
            sv == s.deep_view(),
            r.deep_view() == dedup(sv.take(i as int)),
    {
        assert(sv.take(i + 1).drop_last() =~= sv.take(i as int));
        assert(sv[i as int] == s@[i as int]@);
        let len: usize = r.len();
        let repeat = if len > 0 {
            assert(r.deep_view()[len - 1] == r@[len - 1]@);
            chars_eq(r[len - 1].as_slice(), s[i].as_slice())
        } else {
            false
        };
        if !repeat {
            let item = s[i].clone();
            push_vec(&mut r, item);
        }
    }
    assert(sv.take(n as int) =~= sv);
    r
}

fn strings_of(v: &Vec<Vec<char>>) -> (r: Vec<String>)
    ensures
        r.deep_view() == v.deep_view(),
{
    let ghost vv = v.deep_view();
    let mut r: Vec<String> = Vec::new();
    let n: usize = v.len();
    for i in 0..n
        invariant
            n == v@.len(),
            vv == v.deep_view(),
            r.deep_view() == vv.take(i as int),
    {
        let s = string_of(v[i].as_slice());
        assert(vv[i as int] == v@[i as int]@);
        let ghost before = r.deep_view();
        r.push(s);
        assert(r.deep_view() =~= before.push(v@[i as int]@));
        assert(vv.take(i + 1) =~= vv.take(i as int).push(vv[i as int]));
    }
    assert(vv.take(n as int) =~= vv);
    r
}

/// The terms to search the project's files for: the prompt's distinct keywords
/// (trimmed, lowercased, longer than three bytes, no stop words) in the order they
/// first occur, followed by the joined and underscored lowercase forms of each pair
/// of neighbouring words, neighbouring repeats removed. The terms are only ever
/// searched for, so their order decides nothing but which repeats are neighbours.
/// Uppercasing the prompt's ASCII letters changes none of the terms.
pub fn search_terms(prompt: &str) -> (r: Vec<String>)
    ensures
        r.deep_view() == spec_search_terms(prompt@),
        r.deep_view() == spec_search_terms(ascii_upper(prompt@)),
{
    let chars = chars_of(prompt);
    let ws = split_whitespace(chars.as_slice());
    let mut terms = keywords_of(&ws);
    let pw = pair_words_of(&ws);
    let pt = pair_terms_of(&pw);
    proof {
        crate::text::lemma_words_ascii_upper(prompt@);
        lemma_pair_terms_ascii_upper(pw.deep_view());
        assert(words(ascii_upper(prompt@)) == upper_words(words(prompt@)));
    }
    let ghost before = terms.deep_view();
    let m: usize = pt.len();
    for i in 0..m
        invariant
            m == pt@.len(),
            terms.deep_view() == before + pt.deep_view().take(i as int),
    {
        let item = pt[i].clone();
        let ghost iv = item@;
        assert(iv == pt.deep_view()[i as int]);
        push_vec(&mut terms, item);
        assert(pt.deep_view().take(i + 1) =~= pt.deep_view().take(i as int).push(iv));
    }
    assert(pt.deep_view().take(m as int) =~= pt.deep_view());
    let deduped = dedup_of(&terms);
    strings_of(&deduped)
}

/// Some term occurs in `hay`.
pub open spec fn matches_any(hay: Seq<char>, terms: Seq<Seq<char>>) -> bool {
    exists|j: int| 0 <= j < terms.len() && contains_seq(hay, #[trigger] terms[j])
}

/// Line `i` of `ls`, lowercased, contains some term.
pub open spec fn line_matches(ls: Seq<Seq<char>>, terms: Seq<Seq<char>>, i: int) -> bool {
    matches_any(spec_to_lowercase(ls[i]), terms)
}

/// The first line of `ls` that contains some term once lowercased, if any.
pub open spec fn first_match(ls: Seq<Seq<char>>, terms: Seq<Seq<char>>) -> Option<int> {
    if exists|i: int| 0 <= i < ls.len() && #[trigger] line_matches(ls, terms, i) {
        Some(
            choose|i: int|
                0 <= i < ls.len() && #[trigger] line_matches(ls, terms, i) && forall|j: int|
                    0 <= j < i ==> !#[trigger] line_matches(ls, terms, j),
        )
    } else {
        None
    }
}

/// The first line shown around a match on line `i`: two lines before it.
pub open spec fn snippet_start(i: int) -> int {
    if i >= 2 {
        i - 2
    } else {
        0
    }
}

/// One past the last line shown around a match on line `i`: up to eighteen lines from it.
pub open spec fn snippet_end(i: int, n: int) -> int {
    if i + 18 < n {
        i + 18
    } else {
        n
    }
}

/// The snippet for a match on line `i` (counted from 0) of the lines `ls` of `path`.
pub open spec fn snippet_text(path: Seq<char>, ls: Seq<Seq<char>>, i: int) -> Seq<char> {
    "**"@ + path + "** (line "@ + decimal((i + 1) as nat) + "):\n```\n"@ + join_seq(
        ls.subrange(snippet_start(i), snippet_end(i, ls.len() as int)),
        "\n"@,
    ) + "\n```"@
}

/// The most snippets a scan collects.
pub const MAX_SNIPPETS: usize = 5;

/// The state of a scan: the terms searched for, the snippets found and the files seen.
pub struct PatternScanView {
    /// The terms searched for.
    pub terms: Seq<Seq<char>>,
    /// The snippets found so far, in the order of the files they come from.
    pub snippets: Seq<Seq<char>>,
    /// The paths of the files that contained a term.
    pub seen: Seq<Seq<char>>,
}

/// What visiting a file does to a scan: a file visited after the scan has its
/// snippets, whose content lacks every term, or whose path was seen already changes
/// nothing; otherwise its path is recorded and the snippet around its first
/// matching line, if a line matches, is added.
pub open spec fn visit_step(st: PatternScanView, path: Seq<char>, content: Seq<char>) -> PatternScanView {
    if st.snippets.len() >= MAX_SNIPPETS || !matches_any(spec_to_lowercase(content), st.terms)
        || st.seen.contains(path) {
        st
    } else {
        let ls = lines(content);
        PatternScanView {
            terms: st.terms,
            snippets: match first_match(ls, st.terms) {
                Some(i) => st.snippets.push(snippet_text(path, ls, i)),
                None => st.snippets,
            },
            seen: st.seen.push(path),
        }
    }
}

/// A scan of the project's source files for snippets relevant to a prompt.
pub struct PatternScan {
    terms: Vec<Vec<char>>,
    snippets: Vec<Vec<char>>,
    seen: Vec<Vec<char>>,
}

impl View for PatternScan {
    type V = PatternScanView;

    closed spec fn view(&self) -> PatternScanView {
        PatternScanView {
            terms: self.terms.deep_view(),
            snippets: self.snippets.deep_view(),
            seen: self.seen.deep_view(),
        }
    }
}

fn matches_any_exec(hay: &[char], terms: &Vec<Vec<char>>) -> (r: bool)
    ensures
        r == matches_any(hay@, terms.deep_view()),
{
    let ghost tv = terms.deep_view();
    let n: usize = terms.len();
    for j in 0..n
        invariant
            n == terms@.len(),
            tv == terms.deep_view(),
            forall|m: int| 0 <= m < j ==> !contains_seq(hay@, #[trigger] tv[m]),
    {
        assert(tv[j as int] == terms@[j as int]@);
        if contains_chars(hay, terms[j].as_slice()) {
            return true;
        }
    }
    false
}

fn snippet(path: &[char], ls: &Vec<Vec<char>>, i: usize) -> (r: Vec<char>)
    requires
        i < ls@.len(),
    ensures
        r@ == snippet_text(path@, ls.deep_view(), i as int),
{
    let ghost lv = ls.deep_view();
    let n: usize = ls.len();
    let start: usize = if i >= 2 {
        i - 2
    } else {
        0
    };
    let end: usize = if n >= 18 && i < n - 18 {
        i + 18
    } else {
        n
    };
    assert(end == snippet_end(i as int, n as int));
    let mut out = String::new();
    out.append("**");
    let p = string_of(path);
    out.append(p.as_str());
    out.append("** (line ");
    push_decimal(&mut out, i + 1);
    out.append("):\n```\n");
    let ghost head = out@;
    assert(ls.deep_view().subrange(start as int, start as int) =~= Seq::<Seq<char>>::empty());
    for j in start..end
        invariant
            start <= end <= n == ls@.len(),
            lv == ls.deep_view(),
            out@ == head + join_seq(lv.subrange(start as int, j as int), "\n"@),
    {
        assert(lv.subrange(start as int, j + 1).drop_last() =~= lv.subrange(start as int, j as int));
        assert(lv[j as int] == ls@[j as int]@);
        if j > start {
            out.append("\n");
        }
        let line = string_of(ls[j].as_slice());
        out.append(line.as_str());
        proof {
            if j == start {
                assert(out@ =~= head + lv.subrange(start as int, j + 1)[0]);
            }
        }
        assert(out@ =~= head + join_seq(lv.subrange(start as int, j + 1), "\n"@));
    }
    out.append("\n```");
    assert(out@ =~= snippet_text(path@, lv, i as int));
    chars_of(out.as_str())
}

impl PatternScan {
    /// Starts a scan for the given search terms.
    pub fn new(terms: &Vec<String>) -> (r: PatternScan)
        ensures
            r@ == (PatternScanView {
                terms: terms.deep_view(),
                snippets: Seq::empty(),
                seen: Seq::empty(),
            }),
    {
        let ghost tv = terms.deep_view();
        let mut ts: Vec<Vec<char>> = Vec::new();
        let n: usize = terms.len();
        for i in 0..n
            invariant
                n == terms@.len(),
                tv == terms.deep_view(),
                ts.deep_view() == tv.take(i as int),
        {
            let t = chars_of(terms[i].as_str());
            assert(tv[i as int] == terms@[i as int]@);
            push_vec(&mut ts, t);
            assert(tv.take(i + 1) =~= tv.take(i as int).push(tv[i as int]));
        }
        assert(tv.take(n as int) =~= tv);
        let r = PatternScan { terms: ts, snippets: Vec::new(), seen: Vec::new() };
        assert(r@.snippets =~= Seq::<Seq<char>>::empty());
        assert(r@.seen =~= Seq::<Seq<char>>::empty());
        r
    }

    /// Whether the scan still looks for snippets: it has terms and fewer than
    /// five snippets.
    pub fn wants_more(&self) -> (r: bool)
        ensures
            r == (self@.terms.len() > 0 && self@.snippets.len() < MAX_SNIPPETS),
    {
        self.terms.len() > 0 && self.snippets.len() < MAX_SNIPPETS
    }

    /// Looks at one source file of the project, given by its path and content.
    pub fn visit(&mut self, path: &str, content: &str)
        ensures
            final(self)@ == visit_step(old(self)@, path@, content@),
    {
        if self.snippets.len() >= MAX_SNIPPETS {
            return;
        }
        let text = chars_of(content);
        let lower = lowercase_chars(text.as_slice());
        if !matches_any_exec(lower.as_slice(), &self.terms) {
            return;
        }
        let p = chars_of(path);
        if contains_vec(&self.seen, p.as_slice()) {
            return;
        }
        let ls = split_lines(text.as_slice());
        let ghost lv = ls.deep_view();
        let ghost tv = self.terms.deep_view();
        let n: usize = ls.len();
        let mut found: Option<usize> = None;
        let mut i: usize = 0;
        while i < n
            invariant_except_break
                found is None,
            invariant
                n == ls@.len(),
                lv == ls.deep_view(),
                tv == self.terms.deep_view(),
                i <= n,
                forall|j: int| 0 <= j < i ==> !#[trigger] line_matches(lv, tv, j),
            ensures
                found matches Some(k) ==> k == i && i < n && line_matches(lv, tv, k as int),
                found is None ==> i == n,
            decreases n - i,
        {
            assert(lv[i as int] == ls@[i as int]@);
            let ll = lowercase_chars(ls[i].as_slice());
            if matches_any_exec(ll.as_slice(), &self.terms) {
                found = Some(i);
                break;
            }
            i = i + 1;
        }
        proof {
            match found {
                Some(k) => {
                    assert(line_matches(lv, tv, k as int));
                    let c = first_match(lv, tv)->0;
                    assert(line_matches(lv, tv, c));
                    assert(c == k) by {
                        if c < k {
                            assert(!line_matches(lv, tv, c));
                        }
                        if k < c {
                            assert(!line_matches(lv, tv, k as int));
                        }
                    }
                },
                None => {
                    assert(first_match(lv, tv) is None);
                },
            }
        }
        if let Some(k) = found {
            let snip = snippet(p.as_slice(), &ls, k);
            push_vec(&mut self.snippets, snip);
        }
        push_vec(&mut self.seen, p);
    }

    /// The snippets found, separated by blank lines.
    pub fn finish(&self) -> (r: String)
        ensures
            r@ == join_seq(self@.snippets, "\n\n"@),
    {
        let sep = chars_of("\n\n");
        let joined = crate::text::join_chars(&self.snippets, sep.as_slice());
        string_of(joined.as_slice())
    }
}

/// The directory names a scan of the project does not enter.
pub open spec fn skip_dirs() -> Seq<Seq<char>> {
    seq![
        "target"@, "node_modules"@, ".git"@, "venv"@, ".venv"@, "__pycache__"@, "vendor"@,
        "dist"@, "build"@, ".tox"@, "migrations"@, "static"@, "media"@,
    ]
}

/// Whether a scan of the project skips an entry of this name (and, for a
/// directory, everything under it).
pub fn is_skipped_dir(name: &str) -> (r: bool)
    ensures
        r == skip_dirs().contains(name@),
{
    let list = vec![
        "target", "node_modules", ".git", "venv", ".venv", "__pycache__", "vendor", "dist",
        "build", ".tox", "migrations", "static", "media",
    ];
    assert(list@.map_values(|s: &str| s@) =~= skip_dirs());
    let n = chars_of(name);
    is_one_of(n.as_slice(), &list)
}

/// The file extensions whose files the pattern scan reads.
pub open spec fn source_extensions() -> Seq<Seq<char>> {
    seq![
        "py"@, "rs"@, "ts"@, "tsx"@, "js"@, "jsx"@, "go"@, "java"@, "rb"@, "php"@, "cs"@,
    ]
}

/// Whether the pattern scan reads files with this extension (without the dot).
pub fn is_source_extension(ext: &str) -> (r: bool)
    ensures
        r == source_extensions().contains(ext@),
{
    let list = vec!["py", "rs", "ts", "tsx", "js", "jsx", "go", "java", "rb", "php", "cs"];
    assert(list@.map_values(|s: &str| s@) =~= source_extensions());
    let e = chars_of(ext);
    is_one_of(e.as_slice(), &list)
}

/// Visiting a file keeps the snippets found so far, adds at most one, never takes
/// a scan past five snippets, and records each path at most once.
pub proof fn law_visit_step(st: PatternScanView, path: Seq<char>, content: Seq<char>)
    requires
        st.snippets.len() <= MAX_SNIPPETS,
        st.seen.no_duplicates(),
    ensures
        visit_step(st, path, content).snippets.len() <= MAX_SNIPPETS,
        visit_step(st, path, content).snippets.len() <= st.snippets.len() + 1,
        visit_step(st, path, content).snippets.take(st.snippets.len() as int) == st.snippets,
        visit_step(st, path, content).seen.no_duplicates(),
        visit_step(st, path, content).terms == st.terms,
{
    let r = visit_step(st, path, content);
    assert(r.snippets.take(st.snippets.len() as int) =~= st.snippets);
    if r.seen != st.seen {
        assert(!st.seen.contains(path));
        assert forall|a: int, b: int| 0 <= a < r.seen.len() && 0 <= b < r.seen.len() && a != b implies r.seen[a] != r.seen[b] by {
            if a < st.seen.len() && b < st.seen.len() {
            } else if a < st.seen.len() {
                assert(r.seen[b] == path);
                assert(st.seen[a] == r.seen[a]);
            } else {
                assert(r.seen[a] == path);
                assert(st.seen[b] == r.seen[b]);
            }
        }
    }
}

/// No two neighbouring elements of `s` are equal.
pub open spec fn no_equal_neighbours(s: Seq<Seq<char>>) -> bool {
    forall|i: int| 0 <= i < s.len() - 1 ==> #[trigger] s[i] != s[i + 1]
}

proof fn lemma_dedup_props(s: Seq<Seq<char>>)
    ensures
        no_equal_neighbours(dedup(s)),
        s.len() > 0 ==> dedup(s).len() > 0 && dedup(s).last() == s.last(),
        forall|y: Seq<char>| #[trigger] dedup(s).contains(y) <==> s.contains(y),
    decreases s.len(),
{
    if s.len() > 0 {
        let t = s.drop_last();
        lemma_dedup_props(t);
        let d = dedup(s);
        let p = dedup(t);
        assert forall|i: int| 0 <= i < d.len() - 1 implies #[trigger] d[i] != d[i + 1] by {
            assert(d[i] == p[i]);
            if i + 1 < p.len() {
                assert(d[i + 1] == p[i + 1]);
            }
        }
        assert forall|y: Seq<char>| #[trigger] d.contains(y) <==> s.contains(y) by {
            if d.contains(y) {
                let k = choose|k: int| 0 <= k < d.len() && d[k] == y;
                if k < p.len() {
                    assert(p[k] == y);
                    assert(p.contains(y));
                    assert(t.contains(y));
                    let m = choose|m: int| 0 <= m < t.len() && t[m] == y;
                    assert(s[m] == y);
                } else {
                    assert(s[s.len() - 1] == y);
                }
            }
            if s.contains(y) {
                let k = choose|k: int| 0 <= k < s.len() && s[k] == y;
                if k < t.len() {
                    assert(t[k] == y);
                    assert(t.contains(y));
                    assert(p.contains(y));
                    let m = choose|m: int| 0 <= m < p.len() && p[m] == y;
                    assert(d[m] == y);
                } else if p.len() > 0 && p.last() == s.last() {
                    assert(d[p.len() - 1] == y);
                } else {
                    assert(d[d.len() - 1] == y);
                }
            }
        }
    }
}

proof fn lemma_keyword_list_distinct(ws: Seq<Seq<char>>)
    ensures
        keyword_list(ws).no_duplicates(),
        forall|i: int| 0 <= i < keyword_list(ws).len() ==> is_keyword(#[trigger] keyword_list(ws)[i]),
    decreases ws.len(),
{
    if ws.len() > 0 {
        lemma_keyword_list_distinct(ws.drop_last());
        let p = keyword_list(ws.drop_last());
        let r = keyword_list(ws);
        if r != p {
            assert forall|a: int, b: int| 0 <= a < r.len() && 0 <= b < r.len() && a != b implies r[a] != r[b] by {
                if a < p.len() && b < p.len() {
                } else if a < p.len() {
                    assert(r[a] == p[a]);
                    assert(p.contains(r[a]));
                } else {
                    assert(r[b] == p[b]);
                    assert(p.contains(r[b]));
                }
            }
            assert forall|i: int| 0 <= i < r.len() implies is_keyword(#[trigger] r[i]) by {
                if i < p.len() {
                    assert(r[i] == p[i]);
                }
            }
        }
    }
}

/// The search terms have no equal neighbours; every keyword of the prompt (each a
/// distinct, lowercased word longer than three bytes and no stop word) is among
/// them, and so are the joined and underscored forms of every word pair.
pub proof fn law_search_terms(prompt: Seq<char>)
    ensures
        no_equal_neighbours(spec_search_terms(prompt)),
        keyword_list(words(prompt)).no_duplicates(),
        forall|i: int|
            0 <= i < keyword_list(words(prompt)).len() ==> is_keyword(
                #[trigger] keyword_list(words(prompt))[i],
            ),
        forall|y: Seq<char>| #[trigger]
            spec_search_terms(prompt).contains(y) <==> (keyword_list(words(prompt)).contains(y)
                || pair_terms(pair_words(words(prompt))).contains(y)),
{
    let ws = words(prompt);
    let all = keyword_list(ws) + pair_terms(pair_words(ws));
    lemma_dedup_props(all);
    lemma_keyword_list_distinct(ws);
    assert forall|y: Seq<char>| #[trigger] spec_search_terms(prompt).contains(y) <==> (
    keyword_list(ws).contains(y) || pair_terms(pair_words(ws)).contains(y)) by {
        let a = keyword_list(ws);
        let b = pair_terms(pair_words(ws));
        if all.contains(y) {
            let k = choose|k: int| 0 <= k < all.len() && all[k] == y;
            if k < a.len() {
                assert(a[k] == y);
            } else {
                assert(b[k - a.len()] == y);
            }
        }
        if a.contains(y) {
            let k = choose|k: int| 0 <= k < a.len() && a[k] == y;
            assert(all[k] == y);
        }
        if b.contains(y) {
            let k = choose|k: int| 0 <= k < b.len() && b[k] == y;
            assert(all[k + a.len()] == y);
        }
    }
}

proof fn lemma_first_matching_line(ls: Seq<Seq<char>>, terms: Seq<Seq<char>>, i: int)
    requires
        0 <= i < ls.len(),
        line_matches(ls, terms, i),
    ensures
        exists|m: int|
            0 <= m < ls.len() && #[trigger] line_matches(ls, terms, m) && forall|j: int|
                0 <= j < m ==> !#[trigger] line_matches(ls, terms, j),
    decreases i,
{
    if exists|j: int| 0 <= j < i && #[trigger] line_matches(ls, terms, j) {
        let j = choose|j: int| 0 <= j < i && #[trigger] line_matches(ls, terms, j);
        lemma_first_matching_line(ls, terms, j);
    } else {
        assert(0 <= i < ls.len() && line_matches(ls, terms, i) && forall|j: int|
            0 <= j < i ==> !#[trigger] line_matches(ls, terms, j));
    }
}

/// The snippet a visit adds is the one around the file's first matching line: line
/// `i` contains a term once lowercased, no line before it does, and the snippet is
/// the one that reports line `i + 1`.
pub proof fn law_visit_snippet_at_first_match(st: PatternScanView, path: Seq<char>, content: Seq<char>)
    ensures
        visit_step(st, path, content).snippets.len() > st.snippets.len() ==> exists|i: int|
            0 <= i < lines(content).len() && #[trigger] line_matches(lines(content), st.terms, i)
                && (forall|j: int| 0 <= j < i ==> !#[trigger] line_matches(lines(content), st.terms, j))
                && visit_step(st, path, content).snippets.last() == snippet_text(
                path,
                lines(content),
                i,
            ),
{
    let ls = lines(content);
    let r = visit_step(st, path, content);
    if r.snippets.len() > st.snippets.len() {
        let i = first_match(ls, st.terms)->0;
        let w = choose|w: int| 0 <= w < ls.len() && #[trigger] line_matches(ls, st.terms, w);
        lemma_first_matching_line(ls, st.terms, w);
        assert(0 <= i < ls.len() && line_matches(ls, st.terms, i));
        assert(r.snippets.last() == snippet_text(path, ls, i));
    }
}

} // verus!
