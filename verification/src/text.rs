//! Character-level text primitives: splitting, trimming, searching and joining
//! over sequences of `char`, with their mathematical definitions.

use vstd::prelude::*;
use vstd::utf8::encode_utf8;

verus! {

/// The Unicode `White_Space` property (PropList.txt), which `char::is_whitespace`,
/// `str::trim` and `str::split_whitespace` go by.
pub open spec fn is_white_space(c: char) -> bool {
    let u = c as u32;
    ||| 0x09 <= u <= 0x0D
    ||| u == 0x20
    ||| u == 0x85
    ||| u == 0xA0
    ||| u == 0x1680
    ||| 0x2000 <= u <= 0x200A
    ||| u == 0x2028
    ||| u == 0x2029
    ||| u == 0x202F
    ||| u == 0x205F
    ||| u == 0x3000
}

/// Whether `c` has the Unicode `White_Space` property.
pub fn is_whitespace(c: char) -> (r: bool)
    ensures
        r == is_white_space(c),
{
    let u: u32 = c as u32;
    (0x09 <= u && u <= 0x0D) || u == 0x20 || u == 0x85 || u == 0xA0 || u == 0x1680 || (0x2000
        <= u && u <= 0x200A) || u == 0x2028 || u == 0x2029 || u == 0x202F || u == 0x205F || u
        == 0x3000
}

/// Calls `String::push`: the string afterwards is the old one with `c` added at
/// the end.
#[verifier::external_body]
pub(crate) fn push_char(s: &mut String, c: char)
    ensures
        final(s)@ == old(s)@.push(c),
{
    s.push(c)
}

/// The characters of `s`, in order.
pub fn chars_of(s: &str) -> (r: Vec<char>)
    ensures
        r@ == s@,
{
    let mut r: Vec<char> = Vec::new();
    for c in it: s.chars()
        invariant
            r@ == it.seq().take(it.index() as int),
    {
        r.push(c);
    }
    r
}

/// The string made of the characters of `v`.
pub fn string_of(v: &[char]) -> (r: String)
    ensures
        r@ == v@,
{
    let mut r = String::new();
    let n: usize = v.len();
    for i in 0..n
        invariant
            n == v@.len(),
            r@ == v@.take(i as int),
    {
        push_char(&mut r, v[i]);
        assert(v@.take(i as int).push(v@[i as int]) =~= v@.take(i + 1));
    }
    assert(v@.take(n as int) =~= v@);
    r
}

/// One step of splitting at whitespace: the words finished so far and the word in progress.
pub open spec fn split_step(acc: (Seq<Seq<char>>, Seq<char>), c: char) -> (Seq<Seq<char>>, Seq<char>) {
    if is_white_space(c) {
        if acc.1.len() > 0 {
            (acc.0.push(acc.1), Seq::empty())
        } else {
            (acc.0, Seq::empty())
        }
    } else {
        (acc.0, acc.1.push(c))
    }
}

/// The state of splitting `s` at whitespace after reading all of it.
pub open spec fn split_state(s: Seq<char>) -> (Seq<Seq<char>>, Seq<char>)
    decreases s.len(),
{
    if s.len() == 0 {
        (Seq::empty(), Seq::empty())
    } else {
        split_step(split_state(s.drop_last()), s.last())
    }
}

/// The maximal runs of non-whitespace characters of `s`, in order (`str::split_whitespace`).
pub open spec fn words(s: Seq<char>) -> Seq<Seq<char>> {
    let st = split_state(s);
    if st.1.len() > 0 {
        st.0.push(st.1)
    } else {
        st.0
    }
}

/// Splits `s` into its whitespace-separated words.
pub fn split_whitespace(s: &[char]) -> (r: Vec<Vec<char>>)
    ensures
        r.deep_view() == words(s@),
{
    let mut done: Vec<Vec<char>> = Vec::new();
    let mut cur: Vec<char> = Vec::new();
    let n: usize = s.len();
    for i in 0..n
        invariant
            n == s@.len(),
            (done.deep_view(), cur@) == split_state(s@.take(i as int)),
    {
        let c = s[i];
        assert(s@.take(i + 1).drop_last() =~= s@.take(i as int));
        if is_whitespace(c) {
            if cur.len() > 0 {
                let ghost old_done = done.deep_view();
                let ghost w = cur@;
                assert(cur.deep_view() =~= w);
                done.push(cur);
                cur = Vec::new();
                assert(done.deep_view() =~= old_done.push(w));
            }
        } else {
            cur.push(c);
        }
        assert(cur@ =~= split_state(s@.take(i + 1)).1);
    }
    assert(s@.take(n as int) =~= s@);
    if cur.len() > 0 {
        let ghost old_done = done.deep_view();
        let ghost w = cur@;
        assert(cur.deep_view() =~= w);
        done.push(cur);
        assert(done.deep_view() =~= old_done.push(w));
    }
    done
}

/// A class of characters that trimming can remove.
#[derive(Clone, Copy, PartialEq, Eq, Structural)]
pub enum CharClass {
    /// Characters with the `White_Space` property.
    WhiteSpace,
    /// Characters that are not alphanumeric.
    NotAlphanumeric,
    /// Characters that are neither alphanumeric nor `_`.
    NotWordChar,
    /// The characters `{` and `:`.
    BraceOrColon,
    /// The characters `:` and `.`.
    ColonOrDot,
}

/// What `char::is_alphanumeric` answers for `c` (Unicode `Alphabetic` or `Numeric`).
pub uninterp spec fn spec_is_alphanumeric(c: char) -> bool;

/// `c` is an ASCII letter or digit.
pub open spec fn is_ascii_alphanumeric(c: char) -> bool {
    ||| '0' <= c <= '9'
    ||| 'A' <= c <= 'Z'
    ||| 'a' <= c <= 'z'
}

/// Whether `c` is alphanumeric: for an ASCII character, whether it is a letter or
/// a digit; for any other, [`spec_is_alphanumeric`].
pub open spec fn alphanumeric(c: char) -> bool {
    if c <= '\u{7f}' {
        is_ascii_alphanumeric(c)
    } else {
        spec_is_alphanumeric(c)
    }
}

/// Calls `char::is_alphanumeric`; its answer is named [`spec_is_alphanumeric`] of
/// the character. Beside the name stands what the documentation gives for ASCII:
/// the alphabetic ASCII characters are the letters and the numeric ones the digits.
/// What it answers for other characters is left unsaid.
#[verifier::external_body]
pub(crate) fn is_alphanumeric(c: char) -> (r: bool)
    ensures
        r == spec_is_alphanumeric(c),
        c <= '\u{7f}' ==> r == is_ascii_alphanumeric(c),
{
    c.is_alphanumeric()
}

/// Whether `c` belongs to the class `k`.
pub open spec fn in_class(k: CharClass, c: char) -> bool {
    match k {
        CharClass::WhiteSpace => is_white_space(c),
        CharClass::NotAlphanumeric => !alphanumeric(c),
        CharClass::NotWordChar => !alphanumeric(c) && c != '_',
        CharClass::BraceOrColon => c == '{' || c == ':',
        CharClass::ColonOrDot => c == ':' || c == '.',
    }
}

/// Whether `c` belongs to the class `k`.
pub fn is_in_class(k: CharClass, c: char) -> (r: bool)
    ensures
        r == in_class(k, c),
{
    match k {
        CharClass::WhiteSpace => is_whitespace(c),
        CharClass::NotAlphanumeric => !is_alphanumeric(c),
        CharClass::NotWordChar => !is_alphanumeric(c) && c != '_',
        CharClass::BraceOrColon => c == '{' || c == ':',
        CharClass::ColonOrDot => c == ':' || c == '.',
    }
}

/// `s` without its leading characters of class `k`.
pub open spec fn trim_start_class(s: Seq<char>, k: CharClass) -> Seq<char>
    decreases s.len(),
{
    if s.len() > 0 && in_class(k, s[0]) {
        trim_start_class(s.drop_first(), k)
    } else {
        s
    }
}

/// `s` without its trailing characters of class `k`.
pub open spec fn trim_end_class(s: Seq<char>, k: CharClass) -> Seq<char>
    decreases s.len(),
{
    if s.len() > 0 && in_class(k, s.last()) {
        trim_end_class(s.drop_last(), k)
    } else {
        s
    }
}

/// `s` without its leading and trailing characters of class `k` (`str::trim_matches`).
pub open spec fn trim_class(s: Seq<char>, k: CharClass) -> Seq<char> {
    trim_end_class(trim_start_class(s, k), k)
}

/// `s` with whitespace removed from both ends (`str::trim`).
pub open spec fn trim_ws(s: Seq<char>) -> Seq<char> {
    trim_class(s, CharClass::WhiteSpace)
}

proof fn lemma_trim_start_skip(s: Seq<char>, k: CharClass, i: int)
    requires
        0 <= i <= s.len(),
        forall|j: int| 0 <= j < i ==> in_class(k, #[trigger] s[j]),
    ensures
        trim_start_class(s, k) == trim_start_class(s.subrange(i, s.len() as int), k),
    decreases i,
{
    if i > 0 {
        assert(s.drop_first().subrange(i - 1, s.drop_first().len() as int) =~= s.subrange(
            i,
            s.len() as int,
        ));
        lemma_trim_start_skip(s.drop_first(), k, i - 1);
    } else {
        assert(s.subrange(0, s.len() as int) =~= s);
    }
}

proof fn lemma_trim_end_skip(s: Seq<char>, k: CharClass, j: int)
    requires
        0 <= j <= s.len(),
        forall|m: int| j <= m < s.len() ==> in_class(k, #[trigger] s[m]),
    ensures
        trim_end_class(s, k) == trim_end_class(s.subrange(0, j), k),
    decreases s.len() - j,
{
    if j < s.len() {
        assert(s.drop_last().subrange(0, j) =~= s.subrange(0, j));
        lemma_trim_end_skip(s.drop_last(), k, j);
    } else {
        assert(s.subrange(0, j) =~= s);
    }
}

/// The characters of `s` without leading and trailing characters of class `k`.
pub fn trim_chars(s: &[char], k: CharClass) -> (r: Vec<char>)
    ensures
        r@ == trim_class(s@, k),
{
    let n: usize = s.len();
    let mut i: usize = 0;
    while i < n && is_in_class(k, s[i])
        invariant
            i <= n == s@.len(),
            forall|j: int| 0 <= j < i ==> in_class(k, #[trigger] s@[j]),
        decreases n - i,
    {
        i = i + 1;
    }
    let mut j: usize = n;
    while j > i && is_in_class(k, s[j - 1])
        invariant
            i <= j <= n == s@.len(),
            forall|m: int| j <= m < n ==> in_class(k, #[trigger] s@[m]),
        decreases j - i,
    {
        j = j - 1;
    }
    proof {
        lemma_trim_start_skip(s@, k, i as int);
        let t = s@.subrange(i as int, n as int);
        assert(trim_start_class(t, k) == t);
        lemma_trim_end_skip(t, k, (j - i) as int);
        assert(t.subrange(0, (j - i) as int) =~= s@.subrange(i as int, j as int));
    }
    let mut r: Vec<char> = Vec::new();
    let mut m: usize = i;
    while m < j
        invariant
            i <= m <= j <= n == s@.len(),
            r@ == s@.subrange(i as int, m as int),
        decreases j - m,
    {
        r.push(s[m]);
        assert(r@ =~= s@.subrange(i as int, m + 1));
        m = m + 1;
    }
    r
}

/// `needle` occurs in `hay` starting at index `i`.
pub open spec fn occurs_at(hay: Seq<char>, needle: Seq<char>, i: int) -> bool {
    &&& 0 <= i
    &&& i + needle.len() <= hay.len()
    &&& hay.subrange(i, i + needle.len()) == needle
}

/// `needle` occurs somewhere in `hay` (`str::contains` with a string pattern).
pub open spec fn contains_seq(hay: Seq<char>, needle: Seq<char>) -> bool {
    exists|i: int| #[trigger] occurs_at(hay, needle, i)
}

/// Whether `needle` occurs in `hay` at index `i`.
pub fn matches_at(hay: &[char], needle: &[char], i: usize) -> (r: bool)
    requires
        i + needle@.len() <= hay@.len(),
    ensures
        r == occurs_at(hay@, needle@, i as int),
{
    let n: usize = needle.len();
    let mut k: usize = 0;
    while k < n
        invariant
            n == needle@.len(),
            i + n <= hay@.len(),
            hay@.len() == hay.len(),
            k <= n,
            forall|m: int| 0 <= m < k ==> hay@[i + m] == needle@[m],
        decreases n - k,
    {
        if hay[i + k] != needle[k] {
            assert(hay@.subrange(i as int, i + n)[k as int] != needle@[k as int]);
            return false;
        }
        k = k + 1;
    }
    assert(hay@.subrange(i as int, i + n) =~= needle@);
    true
}

/// Whether `needle` occurs in `hay`.
pub fn contains_chars(hay: &[char], needle: &[char]) -> (r: bool)
    ensures
        r == contains_seq(hay@, needle@),
{
    if needle.len() == 0 {
        assert(hay@.subrange(0, 0) =~= needle@);
        assert(occurs_at(hay@, needle@, 0));
        return true;
    }
    if needle.len() > hay.len() {
        return false;
    }
    let stop: usize = hay.len() - needle.len() + 1;
    for i in 0..stop
        invariant
            stop == hay@.len() - needle@.len() + 1,
            forall|j: int| 0 <= j < i ==> !#[trigger] occurs_at(hay@, needle@, j),
    {
        if matches_at(hay, needle, i) {
            return true;
        }
    }
    false
}

/// Whether two character sequences are equal.
pub fn chars_eq(a: &[char], b: &[char]) -> (r: bool)
    ensures
        r == (a@ == b@),
{
    if a.len() != b.len() {
        return false;
    }
    let r = matches_at(a, b, 0);
    assert(a@.subrange(0, b@.len() as int) =~= a@);
    r
}

/// The parts joined with `sep` between each two neighbours (`[T]::join`).
pub open spec fn join_seq(parts: Seq<Seq<char>>, sep: Seq<char>) -> Seq<char>
    decreases parts.len(),
{
    if parts.len() == 0 {
        Seq::empty()
    } else if parts.len() == 1 {
        parts[0]
    } else {
        join_seq(parts.drop_last(), sep) + sep + parts.last()
    }
}

/// Appends the characters of `v` to `r`.
pub fn append_chars(r: &mut Vec<char>, v: &[char])
    ensures
        final(r)@ == old(r)@ + v@,
{
    let n: usize = v.len();
    for i in 0..n
        invariant
            n == v@.len(),
            r@ == old(r)@ + v@.take(i as int),
    {
        r.push(v[i]);
        assert(old(r)@ + v@.take(i + 1) =~= old(r)@ + v@.take(i as int) + seq![v@[i as int]]);
    }
    assert(v@.take(n as int) =~= v@);
}

/// The parts joined with `sep`.
pub fn join_chars(parts: &Vec<Vec<char>>, sep: &[char]) -> (r: Vec<char>)
    ensures
        r@ == join_seq(parts.deep_view(), sep@),
{
    let ghost dv = parts.deep_view();
    let mut r: Vec<char> = Vec::new();
    let n: usize = parts.len();
    for i in 0..n
        invariant
            n == parts@.len(),
            dv == parts.deep_view(),
            r@ == join_seq(dv.take(i as int), sep@),
    {
        assert(dv.take(i + 1).drop_last() =~= dv.take(i as int));
        assert(dv[i as int] == parts@[i as int]@);
        if i > 0 {
            append_chars(&mut r, sep);
        }
        append_chars(&mut r, parts[i].as_slice());
        proof {
            if i == 0 {
                assert(r@ =~= dv.take(1)[0]);
            }
        }
    }
    assert(dv.take(n as int) =~= dv);
    r
}

/// `l` without one trailing carriage return.
pub open spec fn strip_cr(l: Seq<char>) -> Seq<char> {
    if l.len() > 0 && l.last() == '\r' {
        l.drop_last()
    } else {
        l
    }
}

/// One step of splitting into lines: the lines finished so far and the line in progress.
pub open spec fn lines_step(acc: (Seq<Seq<char>>, Seq<char>), c: char) -> (Seq<Seq<char>>, Seq<char>) {
    if c == '\n' {
        (acc.0.push(strip_cr(acc.1)), Seq::empty())
    } else {
        (acc.0, acc.1.push(c))
    }
}

/// The state of splitting `s` into lines after reading all of it.
pub open spec fn lines_state(s: Seq<char>) -> (Seq<Seq<char>>, Seq<char>)
    decreases s.len(),
{
    if s.len() == 0 {
        (Seq::empty(), Seq::empty())
    } else {
        lines_step(lines_state(s.drop_last()), s.last())
    }
}

/// The lines of `s` (`str::lines`): split after each `\n`, a `\r` right before it dropped,
/// and no empty line after a final line ending.
pub open spec fn lines(s: Seq<char>) -> Seq<Seq<char>> {
    let st = lines_state(s);
    if st.1.len() > 0 {
        st.0.push(st.1)
    } else {
        st.0
    }
}

/// Splits `s` into its lines.
pub fn split_lines(s: &[char]) -> (r: Vec<Vec<char>>)
    ensures
        r.deep_view() == lines(s@),
{
    let mut done: Vec<Vec<char>> = Vec::new();
    let mut cur: Vec<char> = Vec::new();
    let n: usize = s.len();
    for i in 0..n
        invariant
            n == s@.len(),
            (done.deep_view(), cur@) == lines_state(s@.take(i as int)),
    {
        let c = s[i];
        assert(s@.take(i + 1).drop_last() =~= s@.take(i as int));
        if c == '\n' {
            let ghost old_done = done.deep_view();
            let ghost w = strip_cr(cur@);
            if cur.len() > 0 && cur[cur.len() - 1] == '\r' {
                cur.pop();
            }
            assert(cur.deep_view() =~= w);
            done.push(cur);
            cur = Vec::new();
            assert(done.deep_view() =~= old_done.push(w));
        } else {
            cur.push(c);
        }
        assert(cur@ =~= lines_state(s@.take(i + 1)).1);
    }
    assert(s@.take(n as int) =~= s@);
    if cur.len() > 0 {
        let ghost old_done = done.deep_view();
        let ghost w = cur@;
        assert(cur.deep_view() =~= w);
        done.push(cur);
        assert(done.deep_view() =~= old_done.push(w));
    }
    done
}

/// The decimal digit for `d`.
pub open spec fn digit_char(d: nat) -> char {
    if d == 0 {
        '0'
    } else if d == 1 {
        '1'
    } else if d == 2 {
        '2'
    } else if d == 3 {
        '3'
    } else if d == 4 {
        '4'
    } else if d == 5 {
        '5'
    } else if d == 6 {
        '6'
    } else if d == 7 {
        '7'
    } else if d == 8 {
        '8'
    } else {
        '9'
    }
}

/// The decimal notation of `n`, as `Display` writes an unsigned integer.
pub open spec fn decimal(n: nat) -> Seq<char>
    decreases n,
{
    if n < 10 {
        seq![digit_char(n)]
    } else {
        decimal(n / 10).push(digit_char(n % 10))
    }
}

fn digit(d: usize) -> (c: char)
    requires
        d < 10,
    ensures
        c == digit_char(d as nat),
{
    if d == 0 {
        '0'
    } else if d == 1 {
        '1'
    } else if d == 2 {
        '2'
    } else if d == 3 {
        '3'
    } else if d == 4 {
        '4'
    } else if d == 5 {
        '5'
    } else if d == 6 {
        '6'
    } else if d == 7 {
        '7'
    } else if d == 8 {
        '8'
    } else {
        '9'
    }
}

/// Appends the decimal notation of `n` to `out`.
pub fn push_decimal(out: &mut String, n: usize)
    ensures
        final(out)@ == old(out)@ + decimal(n as nat),
    decreases n,
{
    if n >= 10 {
        push_decimal(out, n / 10);
    }
    push_char(out, digit(n % 10));
    assert(old(out)@ + decimal(n as nat) =~= out@);
}

/// What `str::to_lowercase` gives for `s`: its lowercase mapping under the Unicode
/// `Lowercase` derived property, in which one character may become several.
pub uninterp spec fn spec_to_lowercase(s: Seq<char>) -> Seq<char>;

/// `c` with an ASCII uppercase letter made lowercase (`char::to_ascii_lowercase`).
pub open spec fn ascii_lower_char(c: char) -> char {
    if 'A' <= c <= 'Z' {
        ((c as u32) + 32) as char
    } else {
        c
    }
}

/// `c` with an ASCII lowercase letter made uppercase (`char::to_ascii_uppercase`).
pub open spec fn ascii_upper_char(c: char) -> char {
    if 'a' <= c <= 'z' {
        ((c as u32) - 32) as char
    } else {
        c
    }
}

/// `s` with its ASCII letters lowercased (`str::to_ascii_lowercase`).
pub open spec fn ascii_lower(s: Seq<char>) -> Seq<char> {
    s.map_values(|c: char| ascii_lower_char(c))
}

/// `s` with its ASCII letters uppercased (`str::to_ascii_uppercase`).
pub open spec fn ascii_upper(s: Seq<char>) -> Seq<char> {
    s.map_values(|c: char| ascii_upper_char(c))
}

/// Calls `str::to_lowercase`. Its result is named [`spec_to_lowercase`] of the
/// text; beside the name stand facts of std's documentation: characters are
/// mapped one by one (only `'\u{3a3}'` looks at its neighbours, and only at whether
/// they are cased letters, which ASCII letters of either case are; what it becomes
/// is never ASCII), and an ASCII letter maps to its ASCII lowercase. Hence the
/// result is the same after the text's ASCII letters are uppercased; every stretch
/// of ASCII characters of the text appears in it lowercased; an all-ASCII text
/// lowercases as `str::to_ascii_lowercase` does; and ASCII text found in the
/// lowercase form of a beginning or an end of the text is found in the result.
/// What other characters map to is left unsaid.
#[verifier::external_body]
pub(crate) fn to_lowercase(s: &str) -> (r: String)
    ensures
        r@ == spec_to_lowercase(s@),
        r@ == spec_to_lowercase(ascii_upper(s@)),
        forall|i: int, j: int|
            0 <= i <= j <= s@.len() && vstd::utf8::is_ascii_chars(#[trigger] s@.subrange(i, j))
                ==> contains_seq(r@, ascii_lower(s@.subrange(i, j))),
        vstd::utf8::is_ascii_chars(s@) ==> r@ == ascii_lower(s@),
        forall|k: int, n: Seq<char>|
            #![trigger contains_seq(spec_to_lowercase(s@.take(k)), n)]
            #![trigger contains_seq(spec_to_lowercase(s@.skip(k)), n)]
            0 <= k <= s@.len() && vstd::utf8::is_ascii_chars(n) && (contains_seq(
                spec_to_lowercase(s@.take(k)),
                n,
            ) || contains_seq(spec_to_lowercase(s@.skip(k)), n)) ==> contains_seq(r@, n),
{
    s.to_lowercase()
}

/// The lowercase characters of `v`.
pub fn lowercase_chars(v: &[char]) -> (r: Vec<char>)
    ensures
        r@ == spec_to_lowercase(v@),
        r@ == spec_to_lowercase(ascii_upper(v@)),
{
    let s = string_of(v);
    let l = to_lowercase(s.as_str());
    chars_of(l.as_str())
}

/// The number of bytes in the UTF-8 encoding of `s` (what `str::len` counts).
pub open spec fn utf8_len(s: Seq<char>) -> nat {
    encode_utf8(s).len()
}

/// The number of bytes in the UTF-8 encoding of `c` (`char::len_utf8`).
pub open spec fn char_utf8_len(c: char) -> nat {
    let u = c as u32;
    if u <= 0x7F {
        1
    } else if u <= 0x7FF {
        2
    } else if u <= 0xFFFF {
        3
    } else {
        4
    }
}

/// Adding a character to a sequence adds that character's width to its UTF-8 length.
pub proof fn lemma_encode_utf8_push(s: Seq<char>, c: char)
    ensures
        utf8_len(s.push(c)) == utf8_len(s) + char_utf8_len(c),
    decreases s.len(),
{
    broadcast use vstd::utf8::char_is_scalar;

    if s.len() == 0 {
        assert(s.push(c).drop_first() =~= Seq::<char>::empty());
        assert(encode_utf8(Seq::<char>::empty()) =~= Seq::<u8>::empty());
    } else {
        assert(s.push(c).drop_first() =~= s.drop_first().push(c));
        lemma_encode_utf8_push(s.drop_first(), c);
    }
}

/// The number of bytes in the UTF-8 encoding of the characters of `v`, or
/// `usize::MAX` when that number does not fit.
pub fn utf8_len_of(v: &[char]) -> (r: usize)
    ensures
        r == if utf8_len(v@) <= usize::MAX {
            utf8_len(v@)
        } else {
            usize::MAX as nat
        },
{
    let n: usize = v.len();
    let mut total: usize = 0;
    for i in 0..n
        invariant
            n == v@.len(),
            total == if utf8_len(v@.take(i as int)) <= usize::MAX {
                utf8_len(v@.take(i as int))
            } else {
                usize::MAX as nat
            },
    {
        proof {
            assert(v@.take(i + 1) =~= v@.take(i as int).push(v@[i as int]));
            lemma_encode_utf8_push(v@.take(i as int), v@[i as int]);
        }
        let u: u32 = v[i] as u32;
        let w: usize = if u <= 0x7F {
            1
        } else if u <= 0x7FF {
            2
        } else if u <= 0xFFFF {
            3
        } else {
            4
        };
        total = total.saturating_add(w);
    }
    assert(v@.take(n as int) =~= v@);
    total
}

/// Whether `w` is one of the strings in `list`.
pub fn is_one_of(w: &[char], list: &Vec<&str>) -> (r: bool)
    ensures
        r == list@.map_values(|s: &str| s@).contains(w@),
{
    let ghost lv = list@.map_values(|s: &str| s@);
    let n: usize = list.len();
    for i in 0..n
        invariant
            n == list@.len(),
            lv == list@.map_values(|s: &str| s@),
            forall|j: int| 0 <= j < i ==> lv[j] != w@,
    {
        let item = chars_of(list[i]);
        if chars_eq(w, item.as_slice()) {
            assert(lv[i as int] == w@);
            return true;
        }
    }
    false
}

/// The characters of `s` without trailing characters of class `k`.
pub fn trim_end_chars(s: &[char], k: CharClass) -> (r: Vec<char>)
    ensures
        r@ == trim_end_class(s@, k),
{
    let n: usize = s.len();
    let mut j: usize = n;
    while j > 0 && is_in_class(k, s[j - 1])
        invariant
            j <= n == s@.len(),
            forall|m: int| j <= m < n ==> in_class(k, #[trigger] s@[m]),
        decreases j,
    {
        j = j - 1;
    }
    proof {
        lemma_trim_end_skip(s@, k, j as int);
    }
    let r = vstd::slice::slice_to_vec(vstd::slice::slice_subrange(s, 0, j));
    r
}

proof fn lemma_split_state_no_white_space(s: Seq<char>)
    ensures
        forall|w: int, i: int|
            0 <= w < split_state(s).0.len() && 0 <= i < split_state(s).0[w].len()
                ==> !is_white_space(#[trigger] split_state(s).0[w][i]),
        forall|i: int| 0 <= i < split_state(s).1.len() ==> !is_white_space(#[trigger] split_state(s).1[i]),
    decreases s.len(),
{
    if s.len() > 0 {
        lemma_split_state_no_white_space(s.drop_last());
        let prev = split_state(s.drop_last());
        let st = split_state(s);
        assert forall|w: int, i: int|
            0 <= w < st.0.len() && 0 <= i < st.0[w].len() implies !is_white_space(#[trigger] st.0[w][i]) by {
            if w < prev.0.len() {
                assert(st.0[w] == prev.0[w]);
            } else {
                assert(st.0[w] == prev.1);
            }
        }
        assert forall|i: int| 0 <= i < st.1.len() implies !is_white_space(#[trigger] st.1[i]) by {
            if i < prev.1.len() {
                assert(st.1[i] == prev.1[i]);
            }
        }
    }
}

/// No word holds a whitespace character.
pub proof fn lemma_words_no_white_space(s: Seq<char>)
    ensures
        forall|w: int, i: int|
            0 <= w < words(s).len() && 0 <= i < words(s)[w].len() ==> !is_white_space(
                #[trigger] words(s)[w][i],
            ),
{
    lemma_split_state_no_white_space(s);
    let st = split_state(s);
    let ws = words(s);
    assert forall|w: int, i: int| 0 <= w < ws.len() && 0 <= i < ws[w].len() implies !is_white_space(
        #[trigger] ws[w][i],
    ) by {
        if w < st.0.len() {
            assert(ws[w] == st.0[w]);
        } else {
            assert(ws[w] == st.1);
        }
    }
}

/// Parts without whitespace joined by single spaces hold no whitespace but spaces.
pub proof fn lemma_join_only_spaces(parts: Seq<Seq<char>>)
    requires
        forall|w: int, i: int|
            0 <= w < parts.len() && 0 <= i < parts[w].len() ==> !is_white_space(#[trigger] parts[w][i]),
    ensures
        forall|i: int|
            0 <= i < join_seq(parts, " "@).len() ==> is_white_space(#[trigger] join_seq(parts, " "@)[i])
                ==> join_seq(parts, " "@)[i] == ' ',
    decreases parts.len(),
{
    reveal_strlit(" ");
    if parts.len() > 1 {
        let t = parts.drop_last();
        assert forall|w: int, i: int| 0 <= w < t.len() && 0 <= i < t[w].len() implies !is_white_space(
            #[trigger] t[w][i],
        ) by {
            assert(t[w] == parts[w]);
        }
        lemma_join_only_spaces(t);
        let a = join_seq(t, " "@);
        let j = join_seq(parts, " "@);
        assert forall|i: int| 0 <= i < j.len() && is_white_space(#[trigger] j[i]) implies j[i] == ' ' by {
            if i < a.len() {
                assert(j[i] == a[i]);
            } else if i == a.len() {
                assert(j[i] == ' ');
            } else {
                assert(j[i] == parts.last()[i - a.len() - 1]);
                assert(parts[parts.len() - 1] == parts.last());
            }
        }
    } else if parts.len() == 1 {
        let j = join_seq(parts, " "@);
        assert(j == parts[0]);
    }
}

/// Trimming the end of `s` leaves a prefix of it.
pub proof fn lemma_trim_end_is_prefix(s: Seq<char>, k: CharClass)
    ensures
        trim_end_class(s, k).len() <= s.len(),
        trim_end_class(s, k) == s.take(trim_end_class(s, k).len() as int),
    decreases s.len(),
{
    if s.len() > 0 && in_class(k, s.last()) {
        lemma_trim_end_is_prefix(s.drop_last(), k);
        assert(s.drop_last().take(trim_end_class(s, k).len() as int) =~= s.take(
            trim_end_class(s, k).len() as int,
        ));
    } else {
        assert(s.take(s.len() as int) =~= s);
    }
}

/// Trimming the start of `s` leaves a suffix of it.
pub proof fn lemma_trim_start_is_suffix(s: Seq<char>, k: CharClass)
    ensures
        trim_start_class(s, k).len() <= s.len(),
        trim_start_class(s, k) == s.skip(s.len() - trim_start_class(s, k).len()),
    decreases s.len(),
{
    if s.len() > 0 && in_class(k, s[0]) {
        lemma_trim_start_is_suffix(s.drop_first(), k);
        assert(s.drop_first().skip(s.drop_first().len() - trim_start_class(s, k).len()) =~= s.skip(
            s.len() - trim_start_class(s, k).len(),
        ));
    } else {
        assert(s.skip(0) =~= s);
    }
}

/// Trimming `s` at both ends leaves a contiguous part of it.
pub proof fn lemma_trim_is_subrange(s: Seq<char>, k: CharClass)
    ensures
        exists|a: int, b: int| 0 <= a <= b <= s.len() && #[trigger] trim_class(s, k) == s.subrange(a, b),
{
    let t = trim_start_class(s, k);
    lemma_trim_start_is_suffix(s, k);
    lemma_trim_end_is_prefix(t, k);
    let a = s.len() - t.len();
    let b = a + trim_end_class(t, k).len();
    assert(trim_class(s, k) =~= s.subrange(a, b));
}

/// The UTF-8 length of a concatenation is the sum of the lengths.
pub proof fn lemma_utf8_len_concat(a: Seq<char>, b: Seq<char>)
    ensures
        utf8_len(a + b) == utf8_len(a) + utf8_len(b),
    decreases b.len(),
{
    if b.len() == 0 {
        assert(a + b =~= a);
        assert(vstd::utf8::encode_utf8(b) =~= Seq::<u8>::empty());
    } else {
        lemma_utf8_len_concat(a, b.drop_last());
        assert(a + b =~= (a + b.drop_last()).push(b.last()));
        assert(b =~= b.drop_last().push(b.last()));
        lemma_encode_utf8_push(a + b.drop_last(), b.last());
        lemma_encode_utf8_push(b.drop_last(), b.last());
    }
}

/// Trimming leaves no character of the class at either end.
pub proof fn lemma_trim_class_ends(s: Seq<char>, k: CharClass)
    ensures
        trim_class(s, k).len() > 0 ==> !in_class(k, trim_class(s, k)[0]) && !in_class(
            k,
            trim_class(s, k).last(),
        ),
    decreases s.len(),
{
    lemma_trim_start_first(s, k);
    lemma_trim_end_last(trim_start_class(s, k), k);
    let t = trim_start_class(s, k);
    lemma_trim_end_is_prefix(t, k);
    if trim_class(s, k).len() > 0 {
        assert(trim_class(s, k)[0] == t[0]);
    }
}

proof fn lemma_trim_start_first(s: Seq<char>, k: CharClass)
    ensures
        trim_start_class(s, k).len() > 0 ==> !in_class(k, trim_start_class(s, k)[0]),
    decreases s.len(),
{
    if s.len() > 0 && in_class(k, s[0]) {
        lemma_trim_start_first(s.drop_first(), k);
    }
}

proof fn lemma_trim_end_last(s: Seq<char>, k: CharClass)
    ensures
        trim_end_class(s, k).len() > 0 ==> !in_class(k, trim_end_class(s, k).last()),
    decreases s.len(),
{
    if s.len() > 0 && in_class(k, s.last()) {
        lemma_trim_end_last(s.drop_last(), k);
    }
}

proof fn lemma_split_state_nonempty(s: Seq<char>)
    ensures
        forall|w: int| 0 <= w < split_state(s).0.len() ==> #[trigger] split_state(s).0[w].len() > 0,
    decreases s.len(),
{
    if s.len() > 0 {
        lemma_split_state_nonempty(s.drop_last());
        let prev = split_state(s.drop_last());
        let st = split_state(s);
        assert forall|w: int| 0 <= w < st.0.len() implies #[trigger] st.0[w].len() > 0 by {
            if w < prev.0.len() {
                assert(st.0[w] == prev.0[w]);
            }
        }
    }
}

/// No word is empty.
pub proof fn lemma_words_nonempty(s: Seq<char>)
    ensures
        forall|w: int| 0 <= w < words(s).len() ==> #[trigger] words(s)[w].len() > 0,
{
    lemma_split_state_nonempty(s);
    let st = split_state(s);
    let ws = words(s);
    assert forall|w: int| 0 <= w < ws.len() implies #[trigger] ws[w].len() > 0 by {
        if w < st.0.len() {
            assert(ws[w] == st.0[w]);
        }
    }
}

/// Uppercasing ASCII letters keeps every character's whitespace property.
pub proof fn lemma_ascii_upper_char(c: char)
    ensures
        is_white_space(ascii_upper_char(c)) == is_white_space(c),
        alphanumeric(ascii_upper_char(c)) == alphanumeric(c),
        ascii_upper_char(c) == '_' <==> c == '_',
        char_utf8_len(ascii_upper_char(c)) == char_utf8_len(c),
{
    if 'a' <= c <= 'z' {
        assert(((((c as u32) - 32) as char) as u32) == (c as u32) - 32);
    }
}

/// Splitting at whitespace commutes with uppercasing ASCII letters.
pub proof fn lemma_split_state_ascii_upper(s: Seq<char>)
    ensures
        split_state(ascii_upper(s)).0 == split_state(s).0.map_values(|w: Seq<char>| ascii_upper(w)),
        split_state(ascii_upper(s)).1 == ascii_upper(split_state(s).1),
    decreases s.len(),
{
    if s.len() > 0 {
        lemma_split_state_ascii_upper(s.drop_last());
        assert(ascii_upper(s).drop_last() =~= ascii_upper(s.drop_last()));
        lemma_ascii_upper_char(s.last());
        let prev = split_state(s.drop_last());
        assert(ascii_upper(prev.1.push(s.last())) =~= ascii_upper(prev.1).push(ascii_upper_char(s.last())));
        assert(prev.0.push(prev.1).map_values(|w: Seq<char>| ascii_upper(w)) =~= prev.0.map_values(
            |w: Seq<char>| ascii_upper(w),
        ).push(ascii_upper(prev.1)));
        assert(ascii_upper(Seq::<char>::empty()) =~= Seq::<char>::empty());
    } else {
        assert(ascii_upper(s) =~= Seq::<char>::empty());
        assert(ascii_upper(Seq::<char>::empty()) =~= Seq::<char>::empty());
        assert(Seq::<Seq<char>>::empty().map_values(|w: Seq<char>| ascii_upper(w)) =~= Seq::<Seq<char>>::empty());
    }
}

/// The words of `s` with ASCII letters uppercased are the uppercased words of `s`.
pub proof fn lemma_words_ascii_upper(s: Seq<char>)
    ensures
        words(ascii_upper(s)) == words(s).map_values(|w: Seq<char>| ascii_upper(w)),
{
    lemma_split_state_ascii_upper(s);
    let st = split_state(s);
    assert(st.0.push(st.1).map_values(|w: Seq<char>| ascii_upper(w)) =~= st.0.map_values(
        |w: Seq<char>| ascii_upper(w),
    ).push(ascii_upper(st.1)));
}

/// Trimming alphanumeric-based classes commutes with uppercasing ASCII letters.
pub proof fn lemma_trim_ascii_upper(s: Seq<char>, k: CharClass)
    requires
        k is NotAlphanumeric || k is NotWordChar,
    ensures
        trim_class(ascii_upper(s), k) == ascii_upper(trim_class(s, k)),
{
    lemma_trim_start_ascii_upper(s, k);
    lemma_trim_end_ascii_upper(trim_start_class(s, k), k);
}

proof fn lemma_trim_start_ascii_upper(s: Seq<char>, k: CharClass)
    requires
        k is NotAlphanumeric || k is NotWordChar,
    ensures
        trim_start_class(ascii_upper(s), k) == ascii_upper(trim_start_class(s, k)),
    decreases s.len(),
{
    if s.len() > 0 {
        lemma_ascii_upper_char(s[0]);
        assert(ascii_upper(s)[0] == ascii_upper_char(s[0]));
        assert(ascii_upper(s).drop_first() =~= ascii_upper(s.drop_first()));
        lemma_trim_start_ascii_upper(s.drop_first(), k);
    }
}

proof fn lemma_trim_end_ascii_upper(s: Seq<char>, k: CharClass)
    requires
        k is NotAlphanumeric || k is NotWordChar,
    ensures
        trim_end_class(ascii_upper(s), k) == ascii_upper(trim_end_class(s, k)),
    decreases s.len(),
{
    if s.len() > 0 {
        lemma_ascii_upper_char(s.last());
        assert(ascii_upper(s).last() == ascii_upper_char(s.last()));
        assert(ascii_upper(s).drop_last() =~= ascii_upper(s.drop_last()));
        lemma_trim_end_ascii_upper(s.drop_last(), k);
    }
}

/// Uppercasing ASCII letters keeps the UTF-8 length.
pub proof fn lemma_utf8_len_ascii_upper(s: Seq<char>)
    ensures
        utf8_len(ascii_upper(s)) == utf8_len(s),
    decreases s.len(),
{
    if s.len() > 0 {
        lemma_utf8_len_ascii_upper(s.drop_last());
        assert(s =~= s.drop_last().push(s.last()));
        assert(ascii_upper(s) =~= ascii_upper(s.drop_last()).push(ascii_upper_char(s.last())));
        lemma_encode_utf8_push(s.drop_last(), s.last());
        lemma_encode_utf8_push(ascii_upper(s.drop_last()), ascii_upper_char(s.last()));
        lemma_ascii_upper_char(s.last());
    } else {
        assert(ascii_upper(s) =~= s);
    }
}

} // verus!
