//! The repo map: for each source file, its function and type signatures with
//! the functions each function calls, ranked by how well the file matches the
//! prompt and capped in size.

use vstd::prelude::*;
use vstd::string::StringExecFns;
use vstd::utf8::{decode_utf8, valid_utf8};

use crate::text::{
    contains_chars, contains_seq, decimal, join_chars, join_seq, lowercase_chars, push_decimal,
    spec_to_lowercase, split_whitespace, words,
    chars_of, in_class, is_in_class, is_one_of, string_of, trim_chars, trim_end_chars, trim_class, trim_end_class,
    trim_ws, utf8_len, utf8_len_of, CharClass,
};

verus! {

/// A node of a syntax tree, holding what the repo map reads of it.
pub struct SyntaxNode {
    /// The node's grammar kind, such as `function_item`.
    pub kind: String,
    /// The byte offset where the node starts.
    pub start_byte: usize,
    /// The byte offset where the node ends.
    pub end_byte: usize,
    /// The row (counted from 0) where the node starts.
    pub start_row: usize,
    /// The byte range of the child in the node's `function` field, if it has one.
    pub function_span: Option<(usize, usize)>,
    /// The byte range of the child in the node's `method` field, if it has one.
    pub method_span: Option<(usize, usize)>,
    /// The node's children, in order.
    pub children: Vec<SyntaxNode>,
}

/// The node kinds that are functions.
pub open spec fn function_kinds() -> Seq<Seq<char>> {
    seq![
        "function_item"@,
        "function_definition"@,
        "function_declaration"@,
        "method_definition"@,
        "method_declaration"@,
    ]
}

/// The node kinds that are types and other containers of declarations.
pub open spec fn container_kinds() -> Seq<Seq<char>> {
    seq![
        "struct_item"@,
        "enum_item"@,
        "trait_item"@,
        "impl_item"@,
        "type_alias_item"@,
        "class_definition"@,
        "class_declaration"@,
        "interface_declaration"@,
        "type_alias_declaration"@,
        "type_declaration"@,
    ]
}

/// The node kinds that are bodies: a signature is everything before the body.
pub open spec fn body_kinds() -> Seq<Seq<char>> {
    seq![
        "block"@,
        "statement_block"@,
        "suite"@,
        "declaration_list"@,
        "field_declaration_list"@,
        "enum_variant_list"@,
    ]
}

fn function_kind_list() -> (r: Vec<&'static str>)
    ensures
        r@.map_values(|s: &str| s@) == function_kinds(),
{
    let r = vec![
        "function_item",
        "function_definition",
        "function_declaration",
        "method_definition",
        "method_declaration",
    ];
    assert(r@.map_values(|s: &str| s@) =~= function_kinds());
    r
}

fn container_kind_list() -> (r: Vec<&'static str>)
    ensures
        r@.map_values(|s: &str| s@) == container_kinds(),
{
    let r = vec![
        "struct_item",
        "enum_item",
        "trait_item",
        "impl_item",
        "type_alias_item",
        "class_definition",
        "class_declaration",
        "interface_declaration",
        "type_alias_declaration",
        "type_declaration",
    ];
    assert(r@.map_values(|s: &str| s@) =~= container_kinds());
    r
}

fn body_kind_list() -> (r: Vec<&'static str>)
    ensures
        r@.map_values(|s: &str| s@) == body_kinds(),
{
    let r = vec![
        "block",
        "statement_block",
        "suite",
        "declaration_list",
        "field_declaration_list",
        "enum_variant_list",
    ];
    assert(r@.map_values(|s: &str| s@) =~= body_kinds());
    r
}

/// The source languages the repo map can parse.
#[derive(Clone, Copy, PartialEq, Eq, Structural)]
pub enum SourceLanguage {
    /// Rust (`.rs`).
    Rust,
    /// Python (`.py`).
    Python,
    /// JavaScript (`.js`, `.jsx`).
    JavaScript,
    /// TypeScript (`.ts`).
    TypeScript,
    /// TypeScript with JSX (`.tsx`).
    Tsx,
    /// Go (`.go`).
    Go,
}

/// The language of a file with extension `ext`, if the repo map parses it.
pub open spec fn spec_language_for_ext(ext: Seq<char>) -> Option<SourceLanguage> {
    if ext == "rs"@ {
        Some(SourceLanguage::Rust)
    } else if ext == "py"@ {
        Some(SourceLanguage::Python)
    } else if ext == "js"@ || ext == "jsx"@ {
        Some(SourceLanguage::JavaScript)
    } else if ext == "ts"@ {
        Some(SourceLanguage::TypeScript)
    } else if ext == "tsx"@ {
        Some(SourceLanguage::Tsx)
    } else if ext == "go"@ {
        Some(SourceLanguage::Go)
    } else {
        None
    }
}

fn str_is(s: &[char], lit: &str) -> (r: bool)
    ensures
        r == (s@ == lit@),
{
    let l = chars_of(lit);
    crate::text::chars_eq(s, l.as_slice())
}

/// The language of a file with extension `ext` (without the dot), if the repo map
/// parses it.
pub fn language_for_ext(ext: &str) -> (r: Option<SourceLanguage>)
    ensures
        r == spec_language_for_ext(ext@),
{
    let e = chars_of(ext);
    if str_is(e.as_slice(), "rs") {
        Some(SourceLanguage::Rust)
    } else if str_is(e.as_slice(), "py") {
        Some(SourceLanguage::Python)
    } else if str_is(e.as_slice(), "js") || str_is(e.as_slice(), "jsx") {
        Some(SourceLanguage::JavaScript)
    } else if str_is(e.as_slice(), "ts") {
        Some(SourceLanguage::TypeScript)
    } else if str_is(e.as_slice(), "tsx") {
        Some(SourceLanguage::Tsx)
    } else if str_is(e.as_slice(), "go") {
        Some(SourceLanguage::Go)
    } else {
        None
    }
}

/// Calls `std::str::from_utf8`: it gives text exactly when the bytes are valid
/// UTF-8, and then the text they decode to.
#[verifier::external_body]
fn str_from_utf8(bytes: &[u8]) -> (r: Option<&str>)
    ensures
        r is Some <==> valid_utf8(bytes@),
        r matches Some(s) ==> s@ == decode_utf8(bytes@),
{
    std::str::from_utf8(bytes).ok()
}

/// The text of the bytes, or nothing when they are not valid UTF-8.
pub open spec fn text_or_empty(bytes: Seq<u8>) -> Seq<char> {
    if valid_utf8(bytes) {
        decode_utf8(bytes)
    } else {
        Seq::empty()
    }
}

fn span_text(source: &[u8], a: usize, b: usize) -> (r: Vec<char>)
    requires
        a <= b <= source@.len(),
    ensures
        r@ == text_or_empty(source@.subrange(a as int, b as int)),
{
    let bytes = vstd::slice::slice_subrange(source, a, b);
    match str_from_utf8(bytes) {
        Some(s) => chars_of(s),
        None => Vec::new(),
    }
}

/// The trailing run of characters of `t` that are neither `:` nor `.`.
pub open spec fn last_run(t: Seq<char>) -> Seq<char>
    decreases t.len(),
{
    if t.len() == 0 || in_class(CharClass::ColonOrDot, t.last()) {
        Seq::empty()
    } else {
        last_run(t.drop_last()).push(t.last())
    }
}

/// The called name in a callee expression such as `a::b::c` or `x.y`: the last
/// non-empty segment between `:` and `.` separators (the whole text when there is
/// none), trimmed.
pub open spec fn callee_name(raw: Seq<char>) -> Seq<char> {
    let t = trim_end_class(raw, CharClass::ColonOrDot);
    trim_ws(if t.len() == 0 { raw } else { last_run(t) })
}

/// A name counts as a call when it is not empty, at most 40 bytes long and made of
/// alphanumeric characters and `_`.
pub open spec fn is_call_name(name: Seq<char>) -> bool {
    &&& name.len() > 0
    &&& utf8_len(name) <= 40
    &&& forall|i: int|
        0 <= i < name.len() ==> !in_class(CharClass::NotWordChar, #[trigger] name[i])
}

/// The call a single node records: a `call_expression` records the name of its
/// `function` field, a `method_call_expression` the text of its `method` field.
pub open spec fn own_call(node: SyntaxNode, source: Seq<u8>) -> Seq<Seq<char>> {
    if node.kind@ == "call_expression"@ {
        match node.function_span {
            Some((a, b)) => {
                let name = callee_name(trim_ws(text_or_empty(source.subrange(a as int, b as int))));
                if is_call_name(name) {
                    seq![name]
                } else {
                    Seq::empty()
                }
            },
            None => Seq::empty(),
        }
    } else if node.kind@ == "method_call_expression"@ {
        match node.method_span {
            Some((a, b)) => {
                let name = trim_ws(text_or_empty(source.subrange(a as int, b as int)));
                if name.len() > 0 && utf8_len(name) <= 40 {
                    seq![name]
                } else {
                    Seq::empty()
                }
            },
            None => Seq::empty(),
        }
    } else {
        Seq::empty()
    }
}

/// Every function name called within the subtree of `node`, in pre-order.
pub open spec fn calls_in(node: SyntaxNode, source: Seq<u8>) -> Seq<Seq<char>>
    decreases node,
{
    own_call(node, source) + calls_in_seq(node.children@, source)
}

/// The calls within each of the trees `nodes`, in order.
pub open spec fn calls_in_seq(nodes: Seq<SyntaxNode>, source: Seq<u8>) -> Seq<Seq<char>>
    decreases nodes,
{
    if nodes.len() == 0 {
        Seq::empty()
    } else {
        calls_in_seq(nodes.drop_last(), source) + calls_in(nodes.last(), source)
    }
}

/// A node's own byte ranges that the repo map slices lie within a source of `len` bytes.
pub open spec fn own_spans_ok(node: SyntaxNode, len: nat) -> bool {
    &&& node.kind@ == "call_expression"@ ==> match node.function_span {
        Some((a, b)) => a <= b <= len,
        None => true,
    }
    &&& node.kind@ == "method_call_expression"@ ==> match node.method_span {
        Some((a, b)) => a <= b <= len,
        None => true,
    }
}

/// Every node of the tree of `node` has its call ranges within the source.
pub open spec fn calls_ok(node: SyntaxNode, len: nat) -> bool
    decreases node,
{
    own_spans_ok(node, len) && calls_ok_seq(node.children@, len)
}

/// Every tree of `nodes` has its call ranges within the source.
pub open spec fn calls_ok_seq(nodes: Seq<SyntaxNode>, len: nat) -> bool
    decreases nodes,
{
    nodes.len() == 0 || (calls_ok_seq(nodes.drop_last(), len) && calls_ok(nodes.last(), len))
}

proof fn lemma_calls_ok_seq(nodes: Seq<SyntaxNode>, len: nat, i: int)
    requires
        calls_ok_seq(nodes, len),
        0 <= i < nodes.len(),
    ensures
        calls_ok(nodes[i], len),
    decreases nodes.len(),
{
    if i < nodes.len() - 1 {
        lemma_calls_ok_seq(nodes.drop_last(), len, i);
    }
}

fn callee_name_exec(raw: &[char]) -> (r: Vec<char>)
    ensures
        r@ == callee_name(raw@),
{
    let t = trim_end_chars(raw, CharClass::ColonOrDot);
    if t.len() == 0 {
        return trim_chars(raw, CharClass::WhiteSpace);
    }
    let n: usize = t.len();
    let mut j: usize = n;
    assert(t@.take(n as int) =~= t@);
    assert(t@.skip(n as int) =~= Seq::<char>::empty());
    assert(t@ + Seq::<char>::empty() =~= t@);
    while j > 0 && !is_in_class(CharClass::ColonOrDot, t[j - 1])
        invariant
            j <= n == t@.len(),
            last_run(t@) == last_run(t@.take(j as int)) + t@.skip(j as int),
        decreases j,
    {
        assert(t@.take(j as int).drop_last() =~= t@.take(j - 1));
        assert(t@.skip(j - 1) =~= seq![t@[j - 1]] + t@.skip(j as int));
        j = j - 1;
    }
    proof {
        assert(t@.take(n as int) =~= t@);
        assert(t@.skip(n as int) =~= Seq::<char>::empty());
        assert(last_run(t@.take(j as int)) =~= Seq::<char>::empty());
    }
    let run = vstd::slice::slice_to_vec(vstd::slice::slice_subrange(t.as_slice(), j, n));
    assert(run@ =~= last_run(t@));
    trim_chars(run.as_slice(), CharClass::WhiteSpace)
}

fn is_call_name_exec(name: &[char]) -> (r: bool)
    ensures
        r == is_call_name(name@),
{
    if name.len() == 0 || utf8_len_of(name) > 40 {
        return false;
    }
    let n: usize = name.len();
    for i in 0..n
        invariant
            n == name@.len(),
            forall|m: int| 0 <= m < i ==> !in_class(CharClass::NotWordChar, #[trigger] name@[m]),
    {
        if is_in_class(CharClass::NotWordChar, name[i]) {
            return false;
        }
    }
    true
}

fn push_string(out: &mut Vec<String>, s: String)
    ensures
        final(out).deep_view() == old(out).deep_view().push(s@),
{
    let ghost before = out.deep_view();
    let ghost sv = s@;
    out.push(s);
    assert(out.deep_view() =~= before.push(sv));
}

/// Collects every function name called within the subtree of `node`, in
/// pre-order: the name of each `call_expression`'s callee (its last `::` or `.`
/// segment, when that is a plain identifier of at most 40 bytes) and the name of
/// each `method_call_expression`'s method (when not empty and at most 40 bytes).
pub fn collect_calls_in(node: &SyntaxNode, source: &[u8], out: &mut Vec<String>)
    requires
        calls_ok(*node, source@.len()),
    ensures
        final(out).deep_view() == old(out).deep_view() + calls_in(*node, source@),
    decreases node,
{
    let kind = chars_of(node.kind.as_str());
    if str_is(kind.as_slice(), "call_expression") {
        if let Some((a, b)) = node.function_span {
            let raw = span_text(source, a, b);
            let trimmed = trim_chars(raw.as_slice(), CharClass::WhiteSpace);
            let name = callee_name_exec(trimmed.as_slice());
            if is_call_name_exec(name.as_slice()) {
                push_string(out, string_of(name.as_slice()));
            }
        }
    } else if str_is(kind.as_slice(), "method_call_expression") {
        if let Some((a, b)) = node.method_span {
            let raw = span_text(source, a, b);
            let name = trim_chars(raw.as_slice(), CharClass::WhiteSpace);
            if name.len() > 0 && utf8_len_of(name.as_slice()) <= 40 {
                push_string(out, string_of(name.as_slice()));
            }
        }
    }
    let ghost after_own = out.deep_view();
    assert(after_own =~= old(out).deep_view() + own_call(*node, source@));
    let n: usize = node.children.len();
    for i in 0..n
        invariant
            n == node.children@.len(),
            calls_ok(*node, source@.len()),
            out.deep_view() == after_own + calls_in_seq(node.children@.take(i as int), source@),
    {
        assert(node.children@.take(i + 1).drop_last() =~= node.children@.take(i as int));
        proof {
            lemma_calls_ok_seq(node.children@, source@.len(), i as int);
        }
        collect_calls_in(&node.children[i], source, out);
        assert(out.deep_view() =~= after_own + calls_in_seq(node.children@.take(i + 1), source@));
    }
    assert(node.children@.take(n as int) =~= node.children@);
}

/// Whether `k` is a body kind.
pub open spec fn is_body_kind(k: Seq<char>) -> bool {
    body_kinds().contains(k)
}

/// The index of the first child of `node` that is a body, if any.
pub open spec fn body_index(node: SyntaxNode) -> Option<int> {
    let cs = node.children@;
    if exists|i: int| 0 <= i < cs.len() && #[trigger] is_body_kind(cs[i].kind@) {
        Some(
            choose|i: int|
                0 <= i < cs.len() && #[trigger] is_body_kind(cs[i].kind@) && forall|j: int|
                    0 <= j < i ==> !#[trigger] is_body_kind(cs[j].kind@),
        )
    } else {
        None
    }
}

/// Where a node's signature ends: where its body starts, or where the node ends.
pub open spec fn sig_end(node: SyntaxNode) -> int {
    match body_index(node) {
        Some(i) => node.children@[i].start_byte as int,
        None => node.end_byte as int,
    }
}

/// The most bytes a signature may have.
pub const MAX_SIG_BYTES: usize = 200;

/// The signature of a declaration node: its text up to its body, whitespace runs
/// collapsed to single spaces, trailing `{` and `:` and surrounding whitespace
/// removed; none when that range is not within the source or not valid UTF-8, or
/// when the result is empty or longer than 200 bytes.
pub open spec fn spec_extract_sig(node: SyntaxNode, source: Seq<u8>) -> Option<Seq<char>> {
    let start = node.start_byte as int;
    let end = sig_end(node);
    if !(start <= end <= source.len()) || !valid_utf8(source.subrange(start, end)) {
        None
    } else {
        let normalized = join_seq(words(decode_utf8(source.subrange(start, end))), " "@);
        let trimmed = trim_ws(trim_end_class(normalized, CharClass::BraceOrColon));
        if trimmed.len() == 0 || utf8_len(trimmed) > MAX_SIG_BYTES {
            None
        } else {
            Some(trimmed)
        }
    }
}

fn body_index_exec(node: &SyntaxNode) -> (r: Option<usize>)
    ensures
        match r {
            Some(i) => body_index(*node) == Some(i as int) && i < node.children@.len(),
            None => body_index(*node) is None,
        },
{
    let kinds = body_kind_list();
    let cs = &node.children;
    let n: usize = cs.len();
    for i in 0..n
        invariant
            n == cs@.len(),
            cs@ == node.children@,
            kinds@.map_values(|s: &str| s@) == body_kinds(),
            forall|j: int| 0 <= j < i ==> !#[trigger] is_body_kind(cs@[j].kind@),
    {
        let k = chars_of(cs[i].kind.as_str());
        if is_one_of(k.as_slice(), &kinds) {
            proof {
                assert(is_body_kind(cs@[i as int].kind@));
                let c = body_index(*node)->0;
                assert(is_body_kind(cs@[c].kind@));
                if c < i {
                    assert(!is_body_kind(cs@[c].kind@));
                }
                if (i as int) < c {
                    assert(!is_body_kind(cs@[i as int].kind@));
                }
            }
            return Some(i);
        }
    }
    None
}

/// Extracts the signature of a declaration node: everything before its body,
/// with whitespace collapsed and a trailing `{` or `:` stripped.
pub fn extract_sig(node: &SyntaxNode, source: &[u8]) -> (r: Option<String>)
    ensures
        opt_view(r) == spec_extract_sig(*node, source@),
{
    let end: usize = match body_index_exec(node) {
        Some(i) => node.children[i].start_byte,
        None => node.end_byte,
    };
    let start: usize = node.start_byte;
    if start > end || end > source.len() {
        return None;
    }
    let bytes = vstd::slice::slice_subrange(source, start, end);
    let text = match str_from_utf8(bytes) {
        Some(t) => t,
        None => {
            return None;
        },
    };
    let chars = chars_of(text);
    let ws = split_whitespace(chars.as_slice());
    let space = chars_of(" ");
    let normalized = join_chars(&ws, space.as_slice());
    let stripped = trim_end_chars(normalized.as_slice(), CharClass::BraceOrColon);
    let trimmed = trim_chars(stripped.as_slice(), CharClass::WhiteSpace);
    if trimmed.len() == 0 || utf8_len_of(trimmed.as_slice()) > MAX_SIG_BYTES {
        return None;
    }
    Some(string_of(trimmed.as_slice()))
}

/// The views of an optional string.
pub open spec fn opt_view(s: Option<String>) -> Option<Seq<char>> {
    match s {
        Some(t) => Some(t@),
        None => None,
    }
}

/// `a` comes before `b` in lexicographic order by code point (the order of their
/// UTF-8 bytes, by which `String`s sort).
pub open spec fn char_seq_lt(a: Seq<char>, b: Seq<char>) -> bool
    decreases a.len(),
{
    if a.len() == 0 {
        b.len() > 0
    } else if b.len() == 0 {
        false
    } else if (a[0] as u32) < (b[0] as u32) {
        true
    } else if a[0] == b[0] {
        char_seq_lt(a.drop_first(), b.drop_first())
    } else {
        false
    }
}

/// `x` put into the sorted sequence `s` at its place, unless `s` holds it already.
pub open spec fn insert_sorted(s: Seq<Seq<char>>, x: Seq<char>) -> Seq<Seq<char>>
    decreases s.len(),
{
    if s.len() == 0 {
        seq![x]
    } else if char_seq_lt(s[0], x) {
        seq![s[0]] + insert_sorted(s.drop_first(), x)
    } else if s[0] == x {
        s
    } else {
        seq![x] + s
    }
}

/// The distinct elements of `s` in sorted order (`sort_unstable` then `dedup`).
pub open spec fn sort_dedup(s: Seq<Seq<char>>) -> Seq<Seq<char>>
    decreases s.len(),
{
    if s.len() == 0 {
        Seq::empty()
    } else {
        insert_sorted(sort_dedup(s.drop_last()), s.last())
    }
}

fn char_seq_lt_exec(a: &[char], b: &[char]) -> (r: bool)
    ensures
        r == char_seq_lt(a@, b@),
{
    let n: usize = a.len();
    let m: usize = b.len();
    let mut i: usize = 0;
    assert(a@.skip(0) =~= a@);
    assert(b@.skip(0) =~= b@);
    while i < n && i < m && a[i] == b[i]
        invariant
            n == a@.len(),
            m == b@.len(),
            i <= n,
            i <= m,
            char_seq_lt(a@, b@) == char_seq_lt(a@.skip(i as int), b@.skip(i as int)),
        decreases n - i,
    {
        assert(a@.skip(i as int).drop_first() =~= a@.skip(i + 1));
        assert(b@.skip(i as int).drop_first() =~= b@.skip(i + 1));
        i = i + 1;
    }
    if i == n {
        i < m
    } else if i == m {
        false
    } else {
        (a[i] as u32) < (b[i] as u32)
    }
}

proof fn lemma_insert_at(s: Seq<Seq<char>>, x: Seq<char>, p: int)
    requires
        0 <= p <= s.len(),
        forall|j: int| 0 <= j < p ==> char_seq_lt(#[trigger] s[j], x),
        p < s.len() ==> !char_seq_lt(s[p], x),
    ensures
        p < s.len() && s[p] == x ==> insert_sorted(s, x) == s,
        !(p < s.len() && s[p] == x) ==> insert_sorted(s, x) == s.take(p) + seq![x] + s.skip(p),
    decreases p,
{
    if p > 0 {
        let t = s.drop_first();
        assert forall|j: int| 0 <= j < p - 1 implies char_seq_lt(#[trigger] t[j], x) by {
            assert(t[j] == s[j + 1]);
        }
        if p < s.len() {
            assert(t[p - 1] == s[p]);
        }
        lemma_insert_at(t, x, p - 1);
        assert(char_seq_lt(s[0], x));
        assert(insert_sorted(s, x) == seq![s[0]] + insert_sorted(t, x));
        if p < s.len() && s[p] == x {
            assert(seq![s[0]] + t =~= s);
        } else {
            assert(seq![s[0]] + (t.take(p - 1) + seq![x] + t.skip(p - 1)) =~= s.take(p) + seq![x]
                + s.skip(p));
        }
    } else {
        assert(s.take(0) + seq![x] + s.skip(0) =~= seq![x] + s);
    }
}

fn insert_sorted_exec(s: &mut Vec<Vec<char>>, x: Vec<char>)
    ensures
        final(s).deep_view() == insert_sorted(old(s).deep_view(), x@),
{
    let ghost sv = s.deep_view();
    let n: usize = s.len();
    let mut p: usize = 0;
    while p < n && char_seq_lt_exec(s[p].as_slice(), x.as_slice())
        invariant
            n == s@.len(),
            sv == s.deep_view(),
            p <= n,
            forall|j: int| 0 <= j < p ==> char_seq_lt(#[trigger] sv[j], x@),
        decreases n - p,
    {
        assert(sv[p as int] == s@[p as int]@);
        p = p + 1;
    }
    proof {
        if p < n {
            assert(sv[p as int] == s@[p as int]@);
        }
        lemma_insert_at(sv, x@, p as int);
    }
    if p < n && crate::text::chars_eq(s[p].as_slice(), x.as_slice()) {
        return;
    }
    let ghost xv = x@;
    assert(x.deep_view() =~= xv);
    s.insert(p, x);
    assert(s.deep_view() =~= sv.take(p as int) + seq![xv] + sv.skip(p as int));
}

/// The elements of `s` longer than one byte, in order.
pub open spec fn long_names(s: Seq<Seq<char>>) -> Seq<Seq<char>>
    decreases s.len(),
{
    if s.len() == 0 {
        Seq::empty()
    } else if utf8_len(s.last()) > 1 {
        long_names(s.drop_last()).push(s.last())
    } else {
        long_names(s.drop_last())
    }
}

/// The most calls listed for one function.
pub const MAX_CALLS: usize = 7;

/// The calls listed for a function whose body makes the calls `raw`: the distinct
/// names in sorted order, those of one byte left out, at most seven.
pub open spec fn call_list(raw: Seq<Seq<char>>) -> Seq<Seq<char>> {
    let names = long_names(sort_dedup(raw));
    if names.len() > MAX_CALLS {
        names.take(MAX_CALLS as int)
    } else {
        names
    }
}

fn call_list_exec(raw: &Vec<String>) -> (r: Vec<String>)
    ensures
        r.deep_view() == call_list(raw.deep_view()),
{
    let ghost rv = raw.deep_view();
    let mut sorted: Vec<Vec<char>> = Vec::new();
    let n: usize = raw.len();
    for i in 0..n
        invariant
            n == raw@.len(),
            rv == raw.deep_view(),
            sorted.deep_view() == sort_dedup(rv.take(i as int)),
    {
        assert(rv.take(i + 1).drop_last() =~= rv.take(i as int));
        assert(rv[i as int] == raw@[i as int]@);
        let x = chars_of(raw[i].as_str());
        insert_sorted_exec(&mut sorted, x);
    }
    assert(rv.take(n as int) =~= rv);
    let ghost sv = sorted.deep_view();
    let mut r: Vec<String> = Vec::new();
    let m: usize = sorted.len();
    for j in 0..m
        invariant
            m == sorted@.len(),
            sv == sorted.deep_view(),
            r.deep_view() == long_names(sv.take(j as int)),
    {
        assert(sv.take(j + 1).drop_last() =~= sv.take(j as int));
        assert(sv[j as int] == sorted@[j as int]@);
        if utf8_len_of(sorted[j].as_slice()) > 1 {
            push_string(&mut r, string_of(sorted[j].as_slice()));
        }
    }
    assert(sv.take(m as int) =~= sv);
    if r.len() > MAX_CALLS {
        let ghost before = r.deep_view();
        r.truncate(MAX_CALLS);
        assert(r.deep_view() =~= before.take(MAX_CALLS as int));
    }
    r
}

/// One entry of the repo map: a function or type declaration.
pub struct SigEntry {
    /// The line (counted from 1) where the declaration starts.
    pub line: usize,
    /// The declaration's signature.
    pub sig: String,
    /// The functions it calls, for a function.
    pub calls: Vec<String>,
}

/// The content of a [`SigEntry`].
pub struct SigEntryView {
    /// The line (counted from 1) where the declaration starts.
    pub line: nat,
    /// The declaration's signature.
    pub sig: Seq<char>,
    /// The functions it calls, for a function.
    pub calls: Seq<Seq<char>>,
}

impl View for SigEntry {
    type V = SigEntryView;

    open spec fn view(&self) -> SigEntryView {
        SigEntryView { line: self.line as nat, sig: self.sig@, calls: self.calls.deep_view() }
    }
}

/// The views of a sequence of entries.
pub open spec fn entries_view(es: Seq<SigEntry>) -> Seq<SigEntryView> {
    es.map_values(|e: SigEntry| e@)
}

/// `k` is a function kind.
pub open spec fn is_fn_kind(k: Seq<char>) -> bool {
    function_kinds().contains(k)
}

/// `k` is a container kind.
pub open spec fn is_container_kind(k: Seq<char>) -> bool {
    container_kinds().contains(k)
}

/// The calls listed for a function node: those made in its body, if it has one.
pub open spec fn node_calls(node: SyntaxNode, source: Seq<u8>) -> Seq<Seq<char>> {
    match body_index(node) {
        Some(i) => call_list(calls_in(node.children@[i], source)),
        None => Seq::empty(),
    }
}

/// The entry a node contributes itself: a function or container whose signature
/// can be extracted gives one entry, with its calls when it is a function.
pub open spec fn own_entry(node: SyntaxNode, source: Seq<u8>) -> Seq<SigEntryView> {
    let k = node.kind@;
    if is_fn_kind(k) || is_container_kind(k) {
        match spec_extract_sig(node, source) {
            Some(sig) => seq![
                SigEntryView {
                    line: (node.start_row + 1) as nat,
                    sig: sig,
                    calls: if is_fn_kind(k) {
                        node_calls(node, source)
                    } else {
                        Seq::empty()
                    },
                },
            ],
            None => Seq::empty(),
        }
    } else {
        Seq::empty()
    }
}

/// The entries of the tree of `node` in pre-order; the inside of a function
/// contributes none.
pub open spec fn sigs_of(node: SyntaxNode, source: Seq<u8>) -> Seq<SigEntryView>
    decreases node,
{
    if is_fn_kind(node.kind@) {
        own_entry(node, source)
    } else {
        own_entry(node, source) + sigs_of_seq(node.children@, source)
    }
}

/// The entries of each of the trees `nodes`, in order.
pub open spec fn sigs_of_seq(nodes: Seq<SyntaxNode>, source: Seq<u8>) -> Seq<SigEntryView>
    decreases nodes,
{
    if nodes.len() == 0 {
        Seq::empty()
    } else {
        sigs_of_seq(nodes.drop_last(), source) + sigs_of(nodes.last(), source)
    }
}

/// What collecting the entries of `node` reads lies within a source of `len` bytes
/// and its line numbers fit: declaration rows are below `usize::MAX`, and the
/// bodies whose calls are listed have their call ranges within the source.
pub open spec fn sigs_ok(node: SyntaxNode, len: nat, source: Seq<u8>) -> bool
    decreases node,
{
    let k = node.kind@;
    &&& (is_fn_kind(k) || is_container_kind(k)) ==> node.start_row < usize::MAX
    &&& if is_fn_kind(k) {
        (spec_extract_sig(node, source) is Some && body_index(node) is Some) ==> calls_ok(
            node.children@[body_index(node)->0],
            len,
        )
    } else {
        sigs_ok_seq(node.children@, len, source)
    }
}

/// [`sigs_ok`] for each of the trees `nodes`.
pub open spec fn sigs_ok_seq(nodes: Seq<SyntaxNode>, len: nat, source: Seq<u8>) -> bool
    decreases nodes,
{
    nodes.len() == 0 || (sigs_ok_seq(nodes.drop_last(), len, source) && sigs_ok(
        nodes.last(),
        len,
        source,
    ))
}

proof fn lemma_sigs_ok_seq(nodes: Seq<SyntaxNode>, len: nat, source: Seq<u8>, i: int)
    requires
        sigs_ok_seq(nodes, len, source),
        0 <= i < nodes.len(),
    ensures
        sigs_ok(nodes[i], len, source),
    decreases nodes.len(),
{
    if i < nodes.len() - 1 {
        lemma_sigs_ok_seq(nodes.drop_last(), len, source, i);
    }
}

fn push_entry(out: &mut Vec<SigEntry>, e: SigEntry)
    ensures
        entries_view(final(out)@) == entries_view(old(out)@).push(e@),
{
    let ghost before = entries_view(out@);
    let ghost ev = e@;
    out.push(e);
    assert(entries_view(out@) =~= before.push(ev));
}

/// Collects the repo map entries of the tree of `node`: each function or type
/// declaration whose signature can be extracted, in pre-order, with a function's
/// calls; the inside of a function is not searched for further declarations.
pub fn collect_sigs(node: &SyntaxNode, source: &[u8], out: &mut Vec<SigEntry>)
    requires
        sigs_ok(*node, source@.len(), source@),
    ensures
        entries_view(final(out)@) == entries_view(old(out)@) + sigs_of(*node, source@),
    decreases node,
{
    let kind = chars_of(node.kind.as_str());
    let fn_kinds = function_kind_list();
    let container_kinds_exec = container_kind_list();
    let is_fn = is_one_of(kind.as_slice(), &fn_kinds);
    let is_container = is_one_of(kind.as_slice(), &container_kinds_exec);
    if is_fn || is_container {
        let line: usize = node.start_row + 1;
        if let Some(sig) = extract_sig(node, source) {
            let calls: Vec<String> = if is_fn {
                match body_index_exec(node) {
                    Some(b) => {
                        let mut raw: Vec<String> = Vec::new();
                        collect_calls_in(&node.children[b], source, &mut raw);
                        assert(raw.deep_view() =~= calls_in(node.children@[b as int], source@));
                        call_list_exec(&raw)
                    },
                    None => Vec::new(),
                }
            } else {
                Vec::new()
            };
            assert(calls.deep_view() =~= if is_fn {
                node_calls(*node, source@)
            } else {
                Seq::empty()
            });
            push_entry(out, SigEntry { line, sig, calls });
        }
    }
    let ghost after_own = entries_view(out@);
    assert(after_own =~= entries_view(old(out)@) + own_entry(*node, source@));
    if is_fn {
        return;
    }
    let n: usize = node.children.len();
    for i in 0..n
        invariant
            n == node.children@.len(),
            !is_fn_kind(node.kind@),
            sigs_ok(*node, source@.len(), source@),
            entries_view(out@) == after_own + sigs_of_seq(node.children@.take(i as int), source@),
    {
        assert(node.children@.take(i + 1).drop_last() =~= node.children@.take(i as int));
        proof {
            lemma_sigs_ok_seq(node.children@, source@.len(), source@, i as int);
        }
        collect_sigs(&node.children[i], source, out);
        assert(entries_view(out@) =~= after_own + sigs_of_seq(
            node.children@.take(i + 1),
            source@,
        ));
    }
    assert(node.children@.take(n as int) =~= node.children@);
}

fn calls_ok_exec(node: &SyntaxNode, len: usize) -> (r: bool)
    ensures
        r == calls_ok(*node, len as nat),
    decreases node,
{
    let kind = chars_of(node.kind.as_str());
    if str_is(kind.as_slice(), "call_expression") {
        if let Some((a, b)) = node.function_span {
            if a > b || b > len {
                return false;
            }
        }
    }
    if str_is(kind.as_slice(), "method_call_expression") {
        if let Some((a, b)) = node.method_span {
            if a > b || b > len {
                return false;
            }
        }
    }
    let n: usize = node.children.len();
    for i in 0..n
        invariant
            n == node.children@.len(),
            calls_ok_seq(node.children@.take(i as int), len as nat),
    {
        assert(node.children@.take(i + 1).drop_last() =~= node.children@.take(i as int));
        if !calls_ok_exec(&node.children[i], len) {
            proof {
                lemma_calls_ok_seq_prefix(node.children@, len as nat, i as int);
            }
            return false;
        }
    }
    assert(node.children@.take(n as int) =~= node.children@);
    true
}

proof fn lemma_calls_ok_seq_prefix(nodes: Seq<SyntaxNode>, len: nat, i: int)
    requires
        0 <= i < nodes.len(),
        !calls_ok(nodes[i], len),
    ensures
        !calls_ok_seq(nodes, len),
{
    if calls_ok_seq(nodes, len) {
        lemma_calls_ok_seq(nodes, len, i);
    }
}

proof fn lemma_sigs_ok_seq_prefix(nodes: Seq<SyntaxNode>, len: nat, source: Seq<u8>, i: int)
    requires
        0 <= i < nodes.len(),
        !sigs_ok(nodes[i], len, source),
    ensures
        !sigs_ok_seq(nodes, len, source),
{
    if sigs_ok_seq(nodes, len, source) {
        lemma_sigs_ok_seq(nodes, len, source, i);
    }
}

fn sigs_ok_exec(node: &SyntaxNode, source: &[u8]) -> (r: bool)
    ensures
        r == sigs_ok(*node, source@.len(), source@),
    decreases node,
{
    let kind = chars_of(node.kind.as_str());
    let fn_kinds = function_kind_list();
    let container_kinds_exec = container_kind_list();
    let is_fn = is_one_of(kind.as_slice(), &fn_kinds);
    let is_container = is_one_of(kind.as_slice(), &container_kinds_exec);
    if (is_fn || is_container) && node.start_row == usize::MAX {
        return false;
    }
    if is_fn {
        if extract_sig(node, source).is_some() {
            if let Some(b) = body_index_exec(node) {
                return calls_ok_exec(&node.children[b], source.len());
            }
        }
        return true;
    }
    let n: usize = node.children.len();
    assert(!is_fn_kind(node.kind@));
    for i in 0..n
        invariant
            n == node.children@.len(),
            !is_fn_kind(node.kind@),
            sigs_ok_seq(node.children@.take(i as int), source@.len(), source@),
    {
        assert(node.children@.take(i + 1).drop_last() =~= node.children@.take(i as int));
        if !sigs_ok_exec(&node.children[i], source) {
            proof {
                lemma_sigs_ok_seq_prefix(node.children@, source@.len(), source@, i as int);
                assert(!is_fn_kind(node.kind@));
                assert(!sigs_ok(*node, source@.len(), source@));
            }
            return false;
        }
    }
    assert(node.children@.take(n as int) =~= node.children@);
    true
}

/// The syntax tree that tree-sitter parses from `source` with the grammar of
/// `language` (`Parser::set_language`, then `Parser::parse`), converted node by
/// node; `None` when the grammar cannot be set or parsing gives no tree.
pub uninterp spec fn spec_parse_source(language: SourceLanguage, source: Seq<u8>) -> Option<SyntaxNode>;

/// A span `(a, b)` that lies within a source of `len` bytes.
pub open spec fn span_in(span: Option<(usize, usize)>, len: nat) -> bool {
    match span {
        Some((a, b)) => a <= b <= len,
        None => true,
    }
}

/// What tree-sitter guarantees of a tree parsed from `len` bytes: each node's byte
/// range lies within the source, its start row (the line breaks before it) is at
/// most its start byte, and the ranges of its `function` and `method` children lie
/// within the source.
pub open spec fn tree_in_source(node: SyntaxNode, len: nat) -> bool
    decreases node,
{
    &&& node.start_byte <= node.end_byte <= len
    &&& node.start_row <= node.start_byte
    &&& span_in(node.function_span, len)
    &&& span_in(node.method_span, len)
    &&& trees_in_source(node.children@, len)
}

/// [`tree_in_source`] for each of the trees `nodes`.
pub open spec fn trees_in_source(nodes: Seq<SyntaxNode>, len: nat) -> bool
    decreases nodes,
{
    nodes.len() == 0 || (trees_in_source(nodes.drop_last(), len) && tree_in_source(nodes.last(), len))
}

proof fn lemma_trees_in_source(nodes: Seq<SyntaxNode>, len: nat, i: int)
    requires
        trees_in_source(nodes, len),
        0 <= i < nodes.len(),
    ensures
        tree_in_source(nodes[i], len),
    decreases nodes.len(),
{
    if i < nodes.len() - 1 {
        lemma_trees_in_source(nodes.drop_last(), len, i);
    }
}

proof fn lemma_in_source_calls_ok(node: SyntaxNode, len: nat)
    requires
        tree_in_source(node, len),
    ensures
        calls_ok(node, len),
    decreases node,
{
    lemma_in_source_calls_ok_seq(node.children@, len);
}

proof fn lemma_in_source_calls_ok_seq(nodes: Seq<SyntaxNode>, len: nat)
    requires
        trees_in_source(nodes, len),
    ensures
        calls_ok_seq(nodes, len),
    decreases nodes,
{
    if nodes.len() > 0 {
        lemma_in_source_calls_ok_seq(nodes.drop_last(), len);
        lemma_in_source_calls_ok(nodes.last(), len);
    }
}

proof fn lemma_first_body(cs: Seq<SyntaxNode>, i: int)
    requires
        0 <= i < cs.len(),
        is_body_kind(cs[i].kind@),
    ensures
        exists|m: int|
            0 <= m < cs.len() && #[trigger] is_body_kind(cs[m].kind@) && forall|j: int|
                0 <= j < m ==> !#[trigger] is_body_kind(cs[j].kind@),
    decreases i,
{
    if exists|j: int| 0 <= j < i && #[trigger] is_body_kind(cs[j].kind@) {
        let j = choose|j: int| 0 <= j < i && #[trigger] is_body_kind(cs[j].kind@);
        lemma_first_body(cs, j);
    } else {
        assert(0 <= i < cs.len() && is_body_kind(cs[i].kind@) && forall|j: int|
            0 <= j < i ==> !#[trigger] is_body_kind(cs[j].kind@));
    }
}

proof fn lemma_body_index_in_range(node: SyntaxNode)
    ensures
        body_index(node) matches Some(b) ==> 0 <= b < node.children@.len(),
{
    let cs = node.children@;
    if exists|i: int| 0 <= i < cs.len() && #[trigger] is_body_kind(cs[i].kind@) {
        let i = choose|i: int| 0 <= i < cs.len() && #[trigger] is_body_kind(cs[i].kind@);
        lemma_first_body(cs, i);
    }
}

proof fn lemma_in_source_sigs_ok(node: SyntaxNode, len: nat, source: Seq<u8>)
    requires
        tree_in_source(node, len),
        len < usize::MAX,
    ensures
        sigs_ok(node, len, source),
    decreases node,
{
    let k = node.kind@;
    if is_fn_kind(k) {
        lemma_body_index_in_range(node);
        if let Some(b) = body_index(node) {
            lemma_trees_in_source(node.children@, len, b);
            lemma_in_source_calls_ok(node.children@[b], len);
        }
    } else {
        lemma_in_source_sigs_ok_seq(node.children@, len, source);
    }
}

proof fn lemma_in_source_sigs_ok_seq(nodes: Seq<SyntaxNode>, len: nat, source: Seq<u8>)
    requires
        trees_in_source(nodes, len),
        len < usize::MAX,
    ensures
        sigs_ok_seq(nodes, len, source),
    decreases nodes,
{
    if nodes.len() > 0 {
        lemma_in_source_sigs_ok_seq(nodes.drop_last(), len, source);
        lemma_in_source_sigs_ok(nodes.last(), len, source);
    }
}

/// A node of a tree-sitter syntax tree.
#[verifier::external_type_specification]
#[verifier::external_body]
pub struct ExTreeSitterNode<'tree>(tree_sitter::Node<'tree>);

/// Reads a tree-sitter node and its subtree into a [`SyntaxNode`], field by field
/// (`kind`, `start_byte`, `end_byte`, `start_position().row`, the byte ranges of
/// `child_by_field_name("function")` and `("method")`, and `child(i)` for each
/// `i` below `child_count()`). It states nothing: it serves [`parse_source`] alone.
#[verifier::external_body]
fn syntax_node_from(node: tree_sitter::Node) -> SyntaxNode {
    SyntaxNode {
        kind: node.kind().to_string(),
        start_byte: node.start_byte(),
        end_byte: node.end_byte(),
        start_row: node.start_position().row,
        function_span: node.child_by_field_name("function").map(|f| (f.start_byte(), f.end_byte())),
        method_span: node.child_by_field_name("method").map(|m| (m.start_byte(), m.end_byte())),
        children: (0..node.child_count()).filter_map(|i| node.child(i)).map(syntax_node_from).collect(),
    }
}

/// Calls tree-sitter (`Parser::new`, `Parser::set_language` with the grammar of
/// `language` from its grammar crate, `Parser::parse`) and reads the tree with
/// [`syntax_node_from`]; the result is named [`spec_parse_source`] of the language
/// and the bytes. Beside the name stands what tree-sitter's nodes guarantee: every
/// node, and every field child, covers a byte range of the parsed source, and a
/// node's row counts the line breaks before it. Which tree it is is left unsaid.
#[verifier::external_body]
fn parse_source(source: &[u8], language: SourceLanguage) -> (r: Option<SyntaxNode>)
    ensures
        r == spec_parse_source(language, source@),
        r matches Some(t) ==> tree_in_source(t, source@.len()),
{
    let grammar: tree_sitter::Language = match language {
        SourceLanguage::Rust => tree_sitter_rust::LANGUAGE.into(),
        SourceLanguage::Python => tree_sitter_python::LANGUAGE.into(),
        SourceLanguage::JavaScript => tree_sitter_javascript::LANGUAGE.into(),
        SourceLanguage::TypeScript => tree_sitter_typescript::LANGUAGE_TYPESCRIPT.into(),
        SourceLanguage::Tsx => tree_sitter_typescript::LANGUAGE_TSX.into(),
        SourceLanguage::Go => tree_sitter_go::LANGUAGE.into(),
    };
    let mut parser = tree_sitter::Parser::new();
    parser.set_language(&grammar).ok()?;
    parser.parse(source, None).map(|tree| syntax_node_from(tree.root_node()))
}

/// The entries of a parsed file: those of its syntax tree, or none when it has no
/// tree or the tree's ranges and rows do not fit the source.
pub open spec fn spec_file_entries(root: Option<SyntaxNode>, source: Seq<u8>) -> Seq<SigEntryView> {
    match root {
        Some(t) => if sigs_ok(t, source.len(), source) {
            sigs_of(t, source)
        } else {
            Seq::empty()
        },
        None => Seq::empty(),
    }
}

/// The repo map entries of the tree parsed from `source`, or none when the tree
/// is missing or its ranges and rows do not fit the source.
pub fn entries_of_tree(root: Option<SyntaxNode>, source: &[u8]) -> (r: Vec<SigEntry>)
    ensures
        entries_view(r@) == spec_file_entries(root, source@),
{
    let mut entries: Vec<SigEntry> = Vec::new();
    assert(entries_view(entries@) =~= Seq::<SigEntryView>::empty());
    match root {
        Some(tree) => {
            if sigs_ok_exec(&tree, source) {
                collect_sigs(&tree, source, &mut entries);
                assert(entries_view(entries@) =~= sigs_of(tree, source@));
            }
        },
        None => {},
    }
    entries
}

/// Parses a source file and collects its repo map entries: those of every
/// signature in the tree tree-sitter gives, when it gives one.
pub fn parse_file(source: &[u8], language: SourceLanguage) -> (r: Vec<SigEntry>)
    ensures
        entries_view(r@) == spec_file_entries(spec_parse_source(language, source@), source@),
        source@.len() < usize::MAX ==> (spec_parse_source(language, source@) matches Some(t)
            ==> entries_view(r@) == sigs_of(t, source@)),
{
    let root = parse_source(source, language);
    proof {
        if root is Some && source@.len() < usize::MAX {
            lemma_in_source_sigs_ok(root->0, source@.len(), source@);
        }
    }
    entries_of_tree(root, source)
}

/// The keywords the repo map ranks files by: the prompt's words trimmed of
/// non-alphanumeric characters, lowercased, and longer than three bytes.
pub open spec fn map_keywords(ws: Seq<Seq<char>>) -> Seq<Seq<char>>
    decreases ws.len(),
{
    if ws.len() == 0 {
        Seq::empty()
    } else {
        let k = spec_to_lowercase(trim_class(ws.last(), CharClass::NotAlphanumeric));
        if utf8_len(k) > 3 {
            map_keywords(ws.drop_last()).push(k)
        } else {
            map_keywords(ws.drop_last())
        }
    }
}

fn map_keywords_exec(prompt: &str) -> (r: Vec<Vec<char>>)
    ensures
        r.deep_view() == map_keywords(words(prompt@)),
{
    let chars = chars_of(prompt);
    let ws = split_whitespace(chars.as_slice());
    let ghost wv = ws.deep_view();
    let mut r: Vec<Vec<char>> = Vec::new();
    let n: usize = ws.len();
    for i in 0..n
        invariant
            n == ws@.len(),
            wv == ws.deep_view(),
            wv == words(prompt@),
            r.deep_view() == map_keywords(wv.take(i as int)),
    {
        assert(wv.take(i + 1).drop_last() =~= wv.take(i as int));
        assert(wv[i as int] == ws@[i as int]@);
        let t = trim_chars(ws[i].as_slice(), CharClass::NotAlphanumeric);
        let k = lowercase_chars(t.as_slice());
        if utf8_len_of(k.as_slice()) > 3 {
            let ghost before = r.deep_view();
            let ghost kv = k@;
            assert(k.deep_view() =~= kv);
            r.push(k);
            assert(r.deep_view() =~= before.push(kv));
        }
    }
    assert(wv.take(n as int) =~= wv);
    r
}

/// The signatures found in one source file.
pub struct FileSignatures {
    /// The file's path.
    pub path: String,
    /// The file's entries.
    pub entries: Vec<SigEntry>,
}

/// The content of a [`FileSignatures`].
pub struct FileSignaturesView {
    /// The file's path.
    pub path: Seq<char>,
    /// The file's entries.
    pub entries: Seq<SigEntryView>,
}

impl View for FileSignatures {
    type V = FileSignaturesView;

    open spec fn view(&self) -> FileSignaturesView {
        FileSignaturesView { path: self.path@, entries: entries_view(self.entries@) }
    }
}

/// The views of a sequence of files.
pub open spec fn files_view(fs: Seq<FileSignatures>) -> Seq<FileSignaturesView> {
    fs.map_values(|f: FileSignatures| f@)
}

/// The marker that introduces a function's calls in its line of the repo map.
pub const CALLS_MARKER: &'static str = "  \u{2192}[";

/// One entry as a line of the repo map: two spaces, `L`, the line number, a colon
/// and the signature, followed by the calls in brackets after an arrow when it
/// lists any.
pub open spec fn entry_line(e: SigEntryView) -> Seq<char> {
    "  L"@ + decimal(e.line) + ": "@ + e.sig + if e.calls.len() == 0 {
        Seq::empty()
    } else {
        CALLS_MARKER@ + join_seq(e.calls, ", "@) + "]"@
    }
}

/// The lines of a sequence of entries.
pub open spec fn entry_lines(es: Seq<SigEntryView>) -> Seq<Seq<char>> {
    es.map_values(|e: SigEntryView| entry_line(e))
}

/// One file as a block of the repo map: its path and a colon, then its entries,
/// one per line.
pub open spec fn block_text(f: FileSignaturesView) -> Seq<char> {
    f.path + ":\n"@ + join_seq(entry_lines(f.entries), "\n"@) + "\n"@
}

/// The signatures of a sequence of entries.
pub open spec fn entry_sigs(es: Seq<SigEntryView>) -> Seq<Seq<char>> {
    es.map_values(|e: SigEntryView| e.sig)
}

/// The text a file is matched against: its path and signatures, lowercased.
pub open spec fn haystack(f: FileSignaturesView) -> Seq<char> {
    spec_to_lowercase(f.path + " "@ + join_seq(entry_sigs(f.entries), " "@))
}

/// How many of the keywords (counted with repeats) occur in `hay`.
pub open spec fn match_count(keywords: Seq<Seq<char>>, hay: Seq<char>) -> nat
    decreases keywords.len(),
{
    if keywords.len() == 0 {
        0
    } else {
        match_count(keywords.drop_last(), hay) + if contains_seq(hay, keywords.last()) {
            1nat
        } else {
            0nat
        }
    }
}

fn entry_line_exec(e: &SigEntry) -> (r: String)
    ensures
        r@ == entry_line(e@),
{
    let mut r = String::new();
    r.append("  L");
    push_decimal(&mut r, e.line);
    r.append(": ");
    r.append(e.sig.as_str());
    if e.calls.len() > 0 {
        r.append(CALLS_MARKER);
        let ghost dv = e.calls.deep_view();
        let ghost start = r@;
        let n: usize = e.calls.len();
        for i in 0..n
            invariant
                n == e.calls@.len(),
                dv == e.calls.deep_view(),
                r@ == start + join_seq(dv.take(i as int), ", "@),
        {
            assert(dv.take(i + 1).drop_last() =~= dv.take(i as int));
            assert(dv[i as int] == e.calls@[i as int]@);
            if i > 0 {
                r.append(", ");
            }
            r.append(e.calls[i].as_str());
            proof {
                if i == 0 {
                    assert(r@ =~= start + dv.take(1)[0]);
                }
            }
            assert(r@ =~= start + join_seq(dv.take(i + 1), ", "@));
        }
        assert(dv.take(n as int) =~= dv);
        r.append("]");
    }
    assert(r@ =~= entry_line(e@));
    r
}

fn block_exec(f: &FileSignatures) -> (r: String)
    ensures
        r@ == block_text(f@),
{
    let mut r = String::new();
    r.append(f.path.as_str());
    r.append(":\n");
    let ghost lv = entry_lines(f@.entries);
    let ghost start = r@;
    let n: usize = f.entries.len();
    for i in 0..n
        invariant
            n == f.entries@.len(),
            lv == entry_lines(f@.entries),
            r@ == start + join_seq(lv.take(i as int), "\n"@),
    {
        assert(lv.take(i + 1).drop_last() =~= lv.take(i as int));
        if i > 0 {
            r.append("\n");
        }
        let line = entry_line_exec(&f.entries[i]);
        assert(line@ == lv[i as int]);
        r.append(line.as_str());
        proof {
            if i == 0 {
                assert(r@ =~= start + lv.take(1)[0]);
            }
        }
        assert(r@ =~= start + join_seq(lv.take(i + 1), "\n"@));
    }
    assert(lv.take(n as int) =~= lv);
    r.append("\n");
    assert(r@ =~= block_text(f@));
    r
}

fn haystack_exec(f: &FileSignatures) -> (r: Vec<char>)
    ensures
        r@ == haystack(f@),
{
    let mut text = String::new();
    text.append(f.path.as_str());
    text.append(" ");
    let ghost sv = entry_sigs(f@.entries);
    let ghost start = text@;
    let n: usize = f.entries.len();
    for i in 0..n
        invariant
            n == f.entries@.len(),
            sv == entry_sigs(f@.entries),
            text@ == start + join_seq(sv.take(i as int), " "@),
    {
        assert(sv.take(i + 1).drop_last() =~= sv.take(i as int));
        if i > 0 {
            text.append(" ");
        }
        text.append(f.entries[i].sig.as_str());
        proof {
            if i == 0 {
                assert(text@ =~= start + sv.take(1)[0]);
            }
        }
        assert(text@ =~= start + join_seq(sv.take(i + 1), " "@));
    }
    assert(sv.take(n as int) =~= sv);
    assert(text@ =~= f@.path + " "@ + join_seq(entry_sigs(f@.entries), " "@));
    let chars = chars_of(text.as_str());
    lowercase_chars(chars.as_slice())
}

fn match_count_exec(keywords: &Vec<Vec<char>>, hay: &[char]) -> (r: usize)
    ensures
        r == match_count(keywords.deep_view(), hay@),
{
    let ghost kv = keywords.deep_view();
    let mut count: usize = 0;
    let n: usize = keywords.len();
    for i in 0..n
        invariant
            n == keywords@.len(),
            kv == keywords.deep_view(),
            count == match_count(kv.take(i as int), hay@),
            count <= i,
    {
        assert(kv.take(i + 1).drop_last() =~= kv.take(i as int));
        assert(kv[i as int] == keywords@[i as int]@);
        if contains_chars(hay, keywords[i].as_slice()) {
            count = count + 1;
        }
    }
    assert(kv.take(n as int) =~= kv);
    count
}

/// The files that have entries, in order.
pub open spec fn nonempty_files(fs: Seq<FileSignaturesView>) -> Seq<FileSignaturesView>
    decreases fs.len(),
{
    if fs.len() == 0 {
        Seq::empty()
    } else if fs.last().entries.len() > 0 {
        nonempty_files(fs.drop_last()).push(fs.last())
    } else {
        nonempty_files(fs.drop_last())
    }
}

/// Index `i` put into `order` after every index whose key is at least `keys[i]`.
pub open spec fn insert_ranked(order: Seq<int>, keys: Seq<nat>, i: int) -> Seq<int>
    decreases order.len(),
{
    if order.len() == 0 {
        seq![i]
    } else if keys[order[0]] >= keys[i] {
        seq![order[0]] + insert_ranked(order.drop_first(), keys, i)
    } else {
        seq![i] + order
    }
}

/// The indices `0..n` ordered by descending key, equal keys keeping their order
/// (a stable sort by `Reverse(key)`).
pub open spec fn rank(keys: Seq<nat>, n: nat) -> Seq<int>
    decreases n,
{
    if n == 0 {
        Seq::empty()
    } else {
        insert_ranked(rank(keys, (n - 1) as nat), keys, n - 1)
    }
}

/// The most bytes the repo map may hold.
pub const REPO_MAP_BUDGET: usize = 4000;

/// `acc` followed by the blocks in order, up to the first block that would take the
/// total past the budget.
pub open spec fn fill_budget(acc: Seq<char>, blocks: Seq<Seq<char>>) -> Seq<char>
    decreases blocks.len(),
{
    if blocks.len() == 0 {
        acc
    } else if utf8_len(acc) + utf8_len(blocks[0]) > REPO_MAP_BUDGET {
        acc
    } else {
        fill_budget(acc + blocks[0], blocks.drop_first())
    }
}

/// The keys of the files: how many keywords occur in each file's haystack.
pub open spec fn file_keys(keywords: Seq<Seq<char>>, fs: Seq<FileSignaturesView>) -> Seq<nat> {
    fs.map_values(|f: FileSignaturesView| match_count(keywords, haystack(f)))
}

/// The repo map for `prompt` over the parsed files: the blocks of the files with
/// entries, those matching more keywords first, added while the total stays within
/// the budget.
pub open spec fn spec_repo_map(prompt: Seq<char>, files: Seq<FileSignaturesView>) -> Seq<char> {
    fill_budget(Seq::empty(), spec_repo_map_blocks(prompt, files))
}

proof fn lemma_insert_ranked_at(order: Seq<int>, keys: Seq<nat>, i: int, q: int)
    requires
        0 <= q <= order.len(),
        forall|j: int| 0 <= j < q ==> keys[#[trigger] order[j]] >= keys[i],
        q < order.len() ==> keys[order[q]] < keys[i],
    ensures
        insert_ranked(order, keys, i) == order.take(q) + seq![i] + order.skip(q),
    decreases q,
{
    if q > 0 {
        let t = order.drop_first();
        assert forall|j: int| 0 <= j < q - 1 implies keys[#[trigger] t[j]] >= keys[i] by {
            assert(t[j] == order[j + 1]);
        }
        if q < order.len() {
            assert(t[q - 1] == order[q]);
        }
        lemma_insert_ranked_at(t, keys, i, q - 1);
        assert(keys[order[0]] >= keys[i]);
        assert(seq![order[0]] + (t.take(q - 1) + seq![i] + t.skip(q - 1)) =~= order.take(q) + seq![
            i,
        ] + order.skip(q));
    } else {
        assert(order.take(0) + seq![i] + order.skip(0) =~= seq![i] + order);
    }
}

/// The views of a sequence of indices.
pub open spec fn index_view(v: Seq<usize>) -> Seq<int> {
    v.map_values(|x: usize| x as int)
}

/// The views of a sequence of counts.
pub open spec fn count_view(v: Seq<usize>) -> Seq<nat> {
    v.map_values(|x: usize| x as nat)
}

proof fn lemma_rank_bounded(keys: Seq<nat>, n: nat)
    ensures
        rank(keys, n).len() == n,
        forall|j: int| 0 <= j < n ==> 0 <= #[trigger] rank(keys, n)[j] < n,
    decreases n,
{
    if n > 0 {
        let prev = rank(keys, (n - 1) as nat);
        lemma_rank_bounded(keys, (n - 1) as nat);
        lemma_insert_ranked_elems(prev, keys, n - 1);
    }
}

proof fn lemma_insert_ranked_elems(order: Seq<int>, keys: Seq<nat>, i: int)
    ensures
        insert_ranked(order, keys, i).len() == order.len() + 1,
        forall|j: int|
            0 <= j < order.len() + 1 ==> #[trigger] insert_ranked(order, keys, i)[j] == i
                || order.contains(insert_ranked(order, keys, i)[j]),
    decreases order.len(),
{
    if order.len() > 0 && keys[order[0]] >= keys[i] {
        let t = order.drop_first();
        lemma_insert_ranked_elems(t, keys, i);
        let r = insert_ranked(order, keys, i);
        assert forall|j: int| 0 <= j < order.len() + 1 implies #[trigger] r[j] == i
            || order.contains(r[j]) by {
            if j == 0 {
                assert(order.contains(order[0]));
            } else {
                let x = insert_ranked(t, keys, i)[j - 1];
                assert(r[j] == x);
                if x != i {
                    let k = choose|k: int| 0 <= k < t.len() && t[k] == x;
                    assert(order[k + 1] == x);
                }
            }
        }
    } else if order.len() > 0 {
        let r = insert_ranked(order, keys, i);
        assert forall|j: int| 0 <= j < order.len() + 1 implies #[trigger] r[j] == i
            || order.contains(r[j]) by {
            if j > 0 {
                assert(r[j] == order[j - 1]);
            }
        }
    }
}

fn rank_exec(keys: &Vec<usize>) -> (r: Vec<usize>)
    ensures
        index_view(r@) == rank(count_view(keys@), keys@.len()),
        r@.len() == keys@.len(),
        forall|j: int| 0 <= j < r@.len() ==> #[trigger] r@[j] < keys@.len(),
{
    let ghost kv = count_view(keys@);
    let mut order: Vec<usize> = Vec::new();
    let n: usize = keys.len();
    assert(index_view(order@) =~= Seq::<int>::empty());
    for i in 0..n
        invariant
            n == keys@.len(),
            kv == count_view(keys@),
            index_view(order@) == rank(kv, i as nat),
            order@.len() == i,
            forall|j: int| 0 <= j < order@.len() ==> #[trigger] order@[j] < i,
    {
        let ghost ov = index_view(order@);
        let mut q: usize = 0;
        while q < order.len() && keys[order[q]] >= keys[i]
            invariant
                n == keys@.len(),
                kv == count_view(keys@),
                ov == index_view(order@),
                order@.len() == i,
                forall|j: int| 0 <= j < order@.len() ==> #[trigger] order@[j] < i,
                i < n,
                q <= order@.len(),
                forall|j: int| 0 <= j < q ==> kv[#[trigger] ov[j]] >= kv[i as int],
            decreases order@.len() - q,
        {
            assert(ov[q as int] == order@[q as int] as int);
            q = q + 1;
        }
        proof {
            if q < order@.len() {
                assert(ov[q as int] == order@[q as int] as int);
            }
            lemma_insert_ranked_at(ov, kv, i as int, q as int);
        }
        order.insert(q, i);
        assert(index_view(order@) =~= ov.take(q as int) + seq![i as int] + ov.skip(q as int));
    }
    order
}

/// Renders the repo map for `prompt` from the signatures of the project's source
/// files: files with entries only, those whose path and signatures contain more of
/// the prompt's keywords first (ties keep their order), each as a block of its
/// path and entry lines, added while the total stays within 4000 bytes.
pub fn render_repo_map(prompt: &str, files: &Vec<FileSignatures>) -> (r: String)
    ensures
        r@ == spec_repo_map(prompt@, files_view(files@)),
{
    let keywords = map_keywords_exec(prompt);
    let ghost fv = files_view(files@);
    let ghost kw = keywords.deep_view();
    let mut blocks: Vec<String> = Vec::new();
    let mut keys: Vec<usize> = Vec::new();
    let n: usize = files.len();
    for i in 0..n
        invariant
            n == files@.len(),
            fv == files_view(files@),
            kw == keywords.deep_view(),
            blocks.deep_view() == nonempty_files(fv.take(i as int)).map_values(
                |f: FileSignaturesView| block_text(f),
            ),
            count_view(keys@) == file_keys(kw, nonempty_files(fv.take(i as int))),
    {
        assert(fv.take(i + 1).drop_last() =~= fv.take(i as int));
        assert(fv[i as int] == files@[i as int]@);
        let f = &files[i];
        if f.entries.len() > 0 {
            let b = block_exec(f);
            let hay = haystack_exec(f);
            let k = match_count_exec(&keywords, hay.as_slice());
            let ghost bb = blocks.deep_view();
            let ghost kk = count_view(keys@);
            let ghost bv = b@;
            blocks.push(b);
            keys.push(k);
            assert(blocks.deep_view() =~= bb.push(bv));
            assert(count_view(keys@) =~= kk.push(k as nat));
            assert(nonempty_files(fv.take(i + 1)) == nonempty_files(fv.take(i as int)).push(fv[i as int]));
            assert(blocks.deep_view() =~= nonempty_files(fv.take(i + 1)).map_values(
                |f: FileSignaturesView| block_text(f),
            ));
            assert(count_view(keys@) =~= file_keys(kw, nonempty_files(fv.take(i + 1))));
        }
    }
    assert(fv.take(n as int) =~= fv);
    let ghost fs = nonempty_files(fv);
    let ghost bv = blocks.deep_view();
    assert(fs.len() == keys@.len());
    let order = rank_exec(&keys);
    let ghost ordered = rank(count_view(keys@), keys@.len()).map_values(|i: int| block_text(fs[i]));
    proof {
        lemma_rank_bounded(count_view(keys@), keys@.len());
    }
    let mut out = String::new();
    let mut out_len: usize = 0;
    let m: usize = order.len();
    assert(ordered.skip(0) =~= ordered);
    assert(vstd::utf8::encode_utf8(Seq::<char>::empty()) =~= Seq::<u8>::empty());
    let mut j: usize = 0;
    while j < m
        invariant
            m == order@.len() == keys@.len() == blocks@.len(),
            fs.len() == m,
            bv == blocks.deep_view(),
            bv == fs.map_values(|f: FileSignaturesView| block_text(f)),
            index_view(order@) == rank(count_view(keys@), keys@.len()),
            forall|t: int| 0 <= t < order@.len() ==> #[trigger] order@[t] < keys@.len(),
            ordered == rank(count_view(keys@), keys@.len()).map_values(|i: int| block_text(fs[i])),
            j <= m,
            out_len == utf8_len(out@),
            out_len <= REPO_MAP_BUDGET,
            j == m ==> ordered.skip(j as int) =~= Seq::<Seq<char>>::empty(),
            fill_budget(Seq::empty(), ordered) == fill_budget(out@, ordered.skip(j as int)),
        ensures
            fill_budget(Seq::empty(), ordered) == out@,
        decreases m - j,
    {
        let idx: usize = order[j];
        assert(index_view(order@)[j as int] == idx as int);
        assert(ordered[j as int] == block_text(fs[idx as int]));
        assert(bv[idx as int] == blocks@[idx as int]@);
        let block_chars = chars_of(blocks[idx].as_str());
        let block_len: usize = utf8_len_of(block_chars.as_slice());
        assert(ordered.skip(j as int)[0] == ordered[j as int]);
        assert(block_chars@ == ordered[j as int]);
        if block_len > REPO_MAP_BUDGET - out_len {
            assert(fill_budget(out@, ordered.skip(j as int)) == out@);
            break;
        }
        proof {
            crate::text::lemma_utf8_len_concat(out@, block_chars@);
        }
        out.append(blocks[idx].as_str());
        out_len = out_len + block_len;
        assert(ordered.skip(j as int).drop_first() =~= ordered.skip(j + 1));
        j = j + 1;
    }
    assert(ordered == spec_repo_map_blocks(prompt@, fv));
    out
}

/// The blocks of the repo map in ranked order, before the budget applies.
pub open spec fn spec_repo_map_blocks(prompt: Seq<char>, files: Seq<FileSignaturesView>) -> Seq<Seq<char>> {
    let fs = nonempty_files(files);
    let keys = file_keys(map_keywords(words(prompt)), fs);
    rank(keys, fs.len()).map_values(|i: int| block_text(fs[i]))
}

proof fn lemma_fill_budget_bound(acc: Seq<char>, blocks: Seq<Seq<char>>)
    requires
        utf8_len(acc) <= REPO_MAP_BUDGET,
    ensures
        utf8_len(fill_budget(acc, blocks)) <= REPO_MAP_BUDGET,
    decreases blocks.len(),
{
    if blocks.len() > 0 && utf8_len(acc) + utf8_len(blocks[0]) <= REPO_MAP_BUDGET {
        crate::text::lemma_utf8_len_concat(acc, blocks[0]);
        lemma_fill_budget_bound(acc + blocks[0], blocks.drop_first());
    }
}

/// The repo map never holds more than 4000 bytes, whatever the prompt and files.
pub proof fn law_repo_map_within_budget(prompt: Seq<char>, files: Seq<FileSignaturesView>)
    ensures
        utf8_len(spec_repo_map(prompt, files)) <= REPO_MAP_BUDGET,
{
    assert(vstd::utf8::encode_utf8(Seq::<char>::empty()) =~= Seq::<u8>::empty());
    lemma_fill_budget_bound(Seq::empty(), spec_repo_map_blocks(prompt, files));
}

proof fn lemma_fill_budget_prefix(acc: Seq<char>, blocks: Seq<Seq<char>>)
    ensures
        exists|k: int|
            0 <= k <= blocks.len() && #[trigger] fill_budget(acc, blocks) == acc + concat_blocks(
                blocks.take(k),
            ),
    decreases blocks.len(),
{
    if blocks.len() == 0 || utf8_len(acc) + utf8_len(blocks[0]) > REPO_MAP_BUDGET {
        assert(acc + concat_blocks(blocks.take(0)) =~= acc);
    } else {
        lemma_fill_budget_prefix(acc + blocks[0], blocks.drop_first());
        let k = choose|k: int|
            0 <= k <= blocks.drop_first().len() && #[trigger] fill_budget(
                acc + blocks[0],
                blocks.drop_first(),
            ) == acc + blocks[0] + concat_blocks(blocks.drop_first().take(k));
        lemma_concat_blocks_first(blocks.take(k + 1));
        assert(blocks.take(k + 1).drop_first() =~= blocks.drop_first().take(k));
        assert(acc + blocks[0] + concat_blocks(blocks.drop_first().take(k)) =~= acc
            + concat_blocks(blocks.take(k + 1)));
    }
}

/// The blocks one after another.
pub open spec fn concat_blocks(blocks: Seq<Seq<char>>) -> Seq<char>
    decreases blocks.len(),
{
    if blocks.len() == 0 {
        Seq::empty()
    } else {
        concat_blocks(blocks.drop_last()) + blocks.last()
    }
}

proof fn lemma_concat_blocks_first(blocks: Seq<Seq<char>>)
    requires
        blocks.len() > 0,
    ensures
        concat_blocks(blocks) == blocks[0] + concat_blocks(blocks.drop_first()),
    decreases blocks.len(),
{
    if blocks.len() == 1 {
        assert(blocks.drop_last() =~= Seq::<Seq<char>>::empty());
        assert(blocks.drop_first() =~= Seq::<Seq<char>>::empty());
        assert(concat_blocks(blocks) =~= blocks[0] + concat_blocks(blocks.drop_first()));
    } else {
        lemma_concat_blocks_first(blocks.drop_last());
        assert(blocks.drop_last().drop_first() =~= blocks.drop_first().drop_last());
        assert(blocks.drop_first().last() == blocks.last());
        assert(concat_blocks(blocks) =~= blocks[0] + concat_blocks(blocks.drop_first()));
    }
}

/// The repo map is whole blocks: the first blocks of the ranked order, one after
/// another, no block cut short.
pub proof fn law_repo_map_whole_blocks(prompt: Seq<char>, files: Seq<FileSignaturesView>)
    ensures
        exists|k: int|
            0 <= k <= spec_repo_map_blocks(prompt, files).len() && spec_repo_map(prompt, files)
                == #[trigger] concat_blocks(spec_repo_map_blocks(prompt, files).take(k)),
{
    let blocks = spec_repo_map_blocks(prompt, files);
    lemma_fill_budget_prefix(Seq::empty(), blocks);
    let k = choose|k: int|
        0 <= k <= blocks.len() && #[trigger] fill_budget(Seq::empty(), blocks) == Seq::<
            char,
        >::empty() + concat_blocks(blocks.take(k));
    assert(Seq::<char>::empty() + concat_blocks(blocks.take(k)) =~= concat_blocks(blocks.take(k)));
}

/// Index `a` comes before index `b` in the ranking: a larger key, or an equal key
/// and an earlier index.
pub open spec fn ranked_before(keys: Seq<nat>, a: int, b: int) -> bool {
    keys[a] > keys[b] || (keys[a] == keys[b] && a < b)
}

/// Every earlier element of `order` is ranked before every later one.
pub open spec fn is_ranked(keys: Seq<nat>, order: Seq<int>) -> bool {
    forall|p: int, q: int|
        0 <= p < q < order.len() ==> ranked_before(keys, #[trigger] order[p], #[trigger] order[q])
}

proof fn lemma_insert_ranked_keeps_order(order: Seq<int>, keys: Seq<nat>, i: int)
    requires
        is_ranked(keys, order),
        forall|j: int| 0 <= j < order.len() ==> #[trigger] order[j] < i,
    ensures
        is_ranked(keys, insert_ranked(order, keys, i)),
    decreases order.len(),
{
    let r = insert_ranked(order, keys, i);
    lemma_insert_ranked_elems(order, keys, i);
    if order.len() == 0 {
    } else if keys[order[0]] >= keys[i] {
        let t = order.drop_first();
        assert forall|p: int, q: int| 0 <= p < q < t.len() implies ranked_before(
            keys,
            #[trigger] t[p],
            #[trigger] t[q],
        ) by {
            assert(t[p] == order[p + 1] && t[q] == order[q + 1]);
        }
        lemma_insert_ranked_keeps_order(t, keys, i);
        lemma_insert_ranked_elems(t, keys, i);
        let rt = insert_ranked(t, keys, i);
        assert forall|p: int, q: int| 0 <= p < q < r.len() implies ranked_before(
            keys,
            #[trigger] r[p],
            #[trigger] r[q],
        ) by {
            if p == 0 {
                let x = rt[q - 1];
                assert(r[q] == x);
                if x != i {
                    let k = choose|k: int| 0 <= k < t.len() && t[k] == x;
                    assert(order[k + 1] == x);
                    assert(ranked_before(keys, order[0], order[k + 1]));
                }
            } else {
                assert(r[p] == rt[p - 1] && r[q] == rt[q - 1]);
            }
        }
    } else {
        assert forall|p: int, q: int| 0 <= p < q < r.len() implies ranked_before(
            keys,
            #[trigger] r[p],
            #[trigger] r[q],
        ) by {
            if p == 0 {
                assert(r[q] == order[q - 1]);
                if q - 1 > 0 {
                    assert(ranked_before(keys, order[0], order[q - 1]));
                }
            } else {
                assert(r[p] == order[p - 1] && r[q] == order[q - 1]);
            }
        }
    }
}

proof fn lemma_rank_ranked(keys: Seq<nat>, n: nat)
    ensures
        is_ranked(keys, rank(keys, n)),
    decreases n,
{
    if n > 0 {
        lemma_rank_ranked(keys, (n - 1) as nat);
        lemma_rank_bounded(keys, (n - 1) as nat);
        lemma_insert_ranked_keeps_order(rank(keys, (n - 1) as nat), keys, n - 1);
    }
}

/// The ranking of the repo map lists each file exactly once, files matching more
/// keywords first and files matching equally many in the order they were found.
pub proof fn law_rank_is_stable_sort(keys: Seq<nat>, n: nat)
    ensures
        rank(keys, n).len() == n,
        forall|j: int| 0 <= j < n ==> 0 <= #[trigger] rank(keys, n)[j] < n,
        rank(keys, n).no_duplicates(),
        is_ranked(keys, rank(keys, n)),
{
    lemma_rank_bounded(keys, n);
    lemma_rank_ranked(keys, n);
    let r = rank(keys, n);
    assert forall|p: int, q: int| 0 <= p < r.len() && 0 <= q < r.len() && p != q implies r[p]
        != r[q] by {
        if p < q {
            assert(ranked_before(keys, r[p], r[q]));
        } else {
            assert(ranked_before(keys, r[q], r[p]));
        }
    }
}

proof fn lemma_lt_irreflexive(a: Seq<char>)
    ensures
        !char_seq_lt(a, a),
    decreases a.len(),
{
    if a.len() > 0 {
        lemma_lt_irreflexive(a.drop_first());
    }
}

proof fn lemma_lt_transitive(a: Seq<char>, b: Seq<char>, c: Seq<char>)
    requires
        char_seq_lt(a, b),
        char_seq_lt(b, c),
    ensures
        char_seq_lt(a, c),
    decreases a.len(),
{
    if a.len() > 0 && b.len() > 0 && c.len() > 0 && a[0] == b[0] && b[0] == c[0] {
        lemma_lt_transitive(a.drop_first(), b.drop_first(), c.drop_first());
    }
}

proof fn lemma_lt_total(a: Seq<char>, b: Seq<char>)
    ensures
        char_seq_lt(a, b) || char_seq_lt(b, a) || a == b,
    decreases a.len(),
{
    if a.len() > 0 && b.len() > 0 {
        if a[0] == b[0] {
            lemma_lt_total(a.drop_first(), b.drop_first());
            if a.drop_first() == b.drop_first() {
                assert(a =~= seq![a[0]] + a.drop_first());
                assert(b =~= seq![b[0]] + b.drop_first());
            }
        } else {
            let u = a[0] as u32;
            let v = b[0] as u32;
            if u == v {
                vstd::utf8::char_u32_cast(a[0], u);
                vstd::utf8::char_u32_cast(b[0], v);
            }
        }
    } else if a.len() == 0 && b.len() == 0 {
        assert(a =~= b);
    }
}

/// Each earlier element of `s` comes strictly before each later one.
pub open spec fn strictly_sorted(s: Seq<Seq<char>>) -> bool {
    forall|p: int, q: int| 0 <= p < q < s.len() ==> char_seq_lt(#[trigger] s[p], #[trigger] s[q])
}

proof fn lemma_insert_sorted_props(s: Seq<Seq<char>>, x: Seq<char>)
    requires
        strictly_sorted(s),
    ensures
        strictly_sorted(insert_sorted(s, x)),
        forall|y: Seq<char>| #[trigger] insert_sorted(s, x).contains(y) <==> (s.contains(y) || y == x),
    decreases s.len(),
{
    let r = insert_sorted(s, x);
    if s.len() == 0 {
        assert forall|y: Seq<char>| #[trigger] r.contains(y) <==> (s.contains(y) || y == x) by {
            if r.contains(y) {
                assert(r[0] == x);
            }
            if y == x {
                assert(r[0] == y);
            }
        }
    } else if char_seq_lt(s[0], x) {
        let t = s.drop_first();
        assert forall|p: int, q: int| 0 <= p < q < t.len() implies char_seq_lt(
            #[trigger] t[p],
            #[trigger] t[q],
        ) by {
            assert(t[p] == s[p + 1] && t[q] == s[q + 1]);
        }
        lemma_insert_sorted_props(t, x);
        let rt = insert_sorted(t, x);
        assert(r == seq![s[0]] + rt);
        assert forall|p: int, q: int| 0 <= p < q < r.len() implies char_seq_lt(
            #[trigger] r[p],
            #[trigger] r[q],
        ) by {
            if p == 0 {
                let y = rt[q - 1];
                assert(r[q] == y);
                assert(rt.contains(y));
                if y != x {
                    let k = choose|k: int| 0 <= k < t.len() && t[k] == y;
                    assert(s[k + 1] == y);
                }
            } else {
                assert(r[p] == rt[p - 1] && r[q] == rt[q - 1]);
            }
        }
        assert forall|y: Seq<char>| #[trigger] r.contains(y) <==> (s.contains(y) || y == x) by {
            if r.contains(y) {
                let k = choose|k: int| 0 <= k < r.len() && r[k] == y;
                if k > 0 {
                    assert(rt[k - 1] == y);
                    assert(rt.contains(y));
                    if t.contains(y) {
                        let m = choose|m: int| 0 <= m < t.len() && t[m] == y;
                        assert(s[m + 1] == y);
                    }
                } else {
                    assert(s[0] == y);
                }
            }
            if s.contains(y) {
                let k = choose|k: int| 0 <= k < s.len() && s[k] == y;
                if k > 0 {
                    assert(t[k - 1] == y);
                    assert(t.contains(y));
                    assert(rt.contains(y));
                    let m = choose|m: int| 0 <= m < rt.len() && rt[m] == y;
                    assert(r[m + 1] == y);
                } else {
                    assert(r[0] == y);
                }
            }
            if y == x {
                assert(rt.contains(x));
                let m = choose|m: int| 0 <= m < rt.len() && rt[m] == x;
                assert(r[m + 1] == x);
            }
        }
    } else if s[0] == x {
        assert(s.contains(s[0]));
    } else {
        lemma_lt_total(s[0], x);
        assert(r == seq![x] + s);
        assert forall|p: int, q: int| 0 <= p < q < r.len() implies char_seq_lt(
            #[trigger] r[p],
            #[trigger] r[q],
        ) by {
            if p == 0 {
                assert(r[q] == s[q - 1]);
                if q - 1 > 0 {
                    lemma_lt_transitive(x, s[0], s[q - 1]);
                }
            } else {
                assert(r[p] == s[p - 1] && r[q] == s[q - 1]);
            }
        }
        assert forall|y: Seq<char>| #[trigger] r.contains(y) <==> (s.contains(y) || y == x) by {
            if r.contains(y) {
                let k = choose|k: int| 0 <= k < r.len() && r[k] == y;
                if k > 0 {
                    assert(s[k - 1] == y);
                }
            }
            if s.contains(y) {
                let k = choose|k: int| 0 <= k < s.len() && s[k] == y;
                assert(r[k + 1] == y);
            }
            if y == x {
                assert(r[0] == y);
            }
        }
    }
}

proof fn lemma_sort_dedup_props(s: Seq<Seq<char>>)
    ensures
        strictly_sorted(sort_dedup(s)),
        forall|y: Seq<char>| #[trigger] sort_dedup(s).contains(y) <==> s.contains(y),
    decreases s.len(),
{
    if s.len() > 0 {
        lemma_sort_dedup_props(s.drop_last());
        lemma_insert_sorted_props(sort_dedup(s.drop_last()), s.last());
        assert forall|y: Seq<char>| #[trigger] sort_dedup(s).contains(y) <==> s.contains(y) by {
            if s.drop_last().contains(y) {
                let k = choose|k: int| 0 <= k < s.drop_last().len() && s.drop_last()[k] == y;
                assert(s[k] == y);
            }
            if s.contains(y) && y != s.last() {
                let k = choose|k: int| 0 <= k < s.len() && s[k] == y;
                assert(s.drop_last()[k] == y);
            }
            if y == s.last() {
                assert(s[s.len() - 1] == y);
            }
        }
    }
}

proof fn lemma_long_names_props(s: Seq<Seq<char>>)
    ensures
        forall|p: int|
            0 <= p < long_names(s).len() ==> exists|q: int|
                0 <= q < s.len() && s[q] == #[trigger] long_names(s)[p],
        forall|p: int, q: int|
            0 <= p < q < long_names(s).len() ==> exists|a: int, b: int|
                0 <= a < b < s.len() && s[a] == #[trigger] long_names(s)[p] && s[b]
                    == #[trigger] long_names(s)[q],
        forall|p: int| 0 <= p < long_names(s).len() ==> utf8_len(#[trigger] long_names(s)[p]) > 1,
        forall|y: Seq<char>| s.contains(y) && utf8_len(y) > 1 ==> #[trigger] long_names(s).contains(y),
    decreases s.len(),
{
    if s.len() > 0 {
        let t = s.drop_last();
        lemma_long_names_props(t);
        let lt = long_names(t);
        let l = long_names(s);
        assert forall|p: int| 0 <= p < l.len() implies exists|q: int|
            0 <= q < s.len() && s[q] == #[trigger] l[p] by {
            if p < lt.len() {
                assert(l[p] == lt[p]);
                let q = choose|q: int| 0 <= q < t.len() && t[q] == lt[p];
                assert(s[q] == l[p]);
            } else {
                assert(s[s.len() - 1] == l[p]);
            }
        }
        assert forall|p: int, q: int| 0 <= p < q < l.len() implies exists|a: int, b: int|
            0 <= a < b < s.len() && s[a] == #[trigger] l[p] && s[b] == #[trigger] l[q] by {
            if q < lt.len() {
                assert(l[p] == lt[p] && l[q] == lt[q]);
                let (a, b) = choose|a: int, b: int|
                    0 <= a < b < t.len() && t[a] == lt[p] && t[b] == lt[q];
                assert(s[a] == l[p] && s[b] == l[q]);
            } else {
                assert(l[p] == lt[p]);
                let a = choose|a: int| 0 <= a < t.len() && t[a] == lt[p];
                assert(s[a] == l[p]);
                assert(s[s.len() - 1] == l[q]);
            }
        }
        assert forall|y: Seq<char>| s.contains(y) && utf8_len(y) > 1 implies #[trigger] l.contains(
            y,
        ) by {
            let k = choose|k: int| 0 <= k < s.len() && s[k] == y;
            if k < t.len() {
                assert(t[k] == y);
                assert(t.contains(y));
                assert(lt.contains(y));
                let m = choose|m: int| 0 <= m < lt.len() && lt[m] == y;
                assert(l[m] == y);
            } else {
                assert(l[l.len() - 1] == y);
            }
        }
    }
}

/// The calls listed for a function are at most seven distinct names in sorted
/// order, each longer than one byte and each called in the function's body; when
/// the body calls at most seven such names, all of them are listed.
pub proof fn law_call_list(raw: Seq<Seq<char>>)
    ensures
        call_list(raw).len() <= MAX_CALLS,
        strictly_sorted(call_list(raw)),
        forall|p: int| 0 <= p < call_list(raw).len() ==> raw.contains(#[trigger] call_list(raw)[p]),
        forall|p: int| 0 <= p < call_list(raw).len() ==> utf8_len(#[trigger] call_list(raw)[p]) > 1,
        long_names(sort_dedup(raw)).len() <= MAX_CALLS ==> forall|y: Seq<char>|
            raw.contains(y) && utf8_len(y) > 1 ==> #[trigger] call_list(raw).contains(y),
{
    let sd = sort_dedup(raw);
    lemma_sort_dedup_props(raw);
    lemma_long_names_props(sd);
    let l = long_names(sd);
    let c = call_list(raw);
    assert forall|p: int| 0 <= p < c.len() implies raw.contains(#[trigger] c[p]) by {
        assert(c[p] == l[p]);
        let q = choose|q: int| 0 <= q < sd.len() && sd[q] == l[p];
        assert(sd.contains(c[p]));
    }
    assert forall|p: int, q: int| 0 <= p < q < c.len() implies char_seq_lt(
        #[trigger] c[p],
        #[trigger] c[q],
    ) by {
        assert(c[p] == l[p] && c[q] == l[q]);
        let (a, b) = choose|a: int, b: int| 0 <= a < b < sd.len() && sd[a] == l[p] && sd[b] == l[q];
    }
    assert forall|p: int| 0 <= p < c.len() implies utf8_len(#[trigger] c[p]) > 1 by {
        assert(c[p] == l[p]);
    }
}

/// An entry as the repo map makes it: a line from 1 on, a signature of 1 to 200
/// bytes on one line (no whitespace but single spaces), at most seven calls.
pub open spec fn entry_ok(e: SigEntryView) -> bool {
    &&& e.line >= 1
    &&& e.sig.len() > 0
    &&& utf8_len(e.sig) <= MAX_SIG_BYTES
    &&& forall|i: int|
        0 <= i < e.sig.len() ==> crate::text::is_white_space(#[trigger] e.sig[i]) ==> e.sig[i]
            == ' '
    &&& e.calls.len() <= MAX_CALLS
}

proof fn lemma_extract_sig_single_line(node: SyntaxNode, source: Seq<u8>)
    requires
        spec_extract_sig(node, source) is Some,
    ensures
        forall|i: int|
            0 <= i < spec_extract_sig(node, source)->0.len() ==> crate::text::is_white_space(
                #[trigger] spec_extract_sig(node, source)->0[i],
            ) ==> spec_extract_sig(node, source)->0[i] == ' ',
{
    let start = node.start_byte as int;
    let end = sig_end(node);
    let ws = words(decode_utf8(source.subrange(start, end)));
    crate::text::lemma_words_no_white_space(decode_utf8(source.subrange(start, end)));
    let normalized = join_seq(ws, " "@);
    crate::text::lemma_join_only_spaces(ws);
    let stripped = trim_end_class(normalized, CharClass::BraceOrColon);
    crate::text::lemma_trim_end_is_prefix(normalized, CharClass::BraceOrColon);
    crate::text::lemma_trim_is_subrange(stripped, CharClass::WhiteSpace);
}

proof fn lemma_own_entry_ok(node: SyntaxNode, source: Seq<u8>)
    ensures
        forall|j: int| 0 <= j < own_entry(node, source).len() ==> entry_ok(#[trigger] own_entry(node, source)[j]),
{
    let k = node.kind@;
    if (is_fn_kind(k) || is_container_kind(k)) && spec_extract_sig(node, source) is Some {
        lemma_extract_sig_single_line(node, source);
        match body_index(node) {
            Some(i) => {
                law_call_list(calls_in(node.children@[i], source));
            },
            None => {},
        }
    }
}

proof fn lemma_sigs_of_ok(node: SyntaxNode, source: Seq<u8>)
    ensures
        forall|j: int| 0 <= j < sigs_of(node, source).len() ==> entry_ok(#[trigger] sigs_of(node, source)[j]),
    decreases node,
{
    lemma_own_entry_ok(node, source);
    if !is_fn_kind(node.kind@) {
        lemma_sigs_of_seq_ok(node.children@, source);
        let a = own_entry(node, source);
        let b = sigs_of_seq(node.children@, source);
        assert forall|j: int| 0 <= j < (a + b).len() implies entry_ok(#[trigger] (a + b)[j]) by {
            if j >= a.len() {
                assert((a + b)[j] == b[j - a.len()]);
            }
        }
    }
}

proof fn lemma_sigs_of_seq_ok(nodes: Seq<SyntaxNode>, source: Seq<u8>)
    ensures
        forall|j: int|
            0 <= j < sigs_of_seq(nodes, source).len() ==> entry_ok(
                #[trigger] sigs_of_seq(nodes, source)[j],
            ),
    decreases nodes,
{
    if nodes.len() > 0 {
        lemma_sigs_of_seq_ok(nodes.drop_last(), source);
        lemma_sigs_of_ok(nodes.last(), source);
        let a = sigs_of_seq(nodes.drop_last(), source);
        let b = sigs_of(nodes.last(), source);
        assert forall|j: int| 0 <= j < (a + b).len() implies entry_ok(#[trigger] (a + b)[j]) by {
            if j >= a.len() {
                assert((a + b)[j] == b[j - a.len()]);
            }
        }
    }
}

/// Every entry a parsed file yields starts on a line from 1 on, has a one-line
/// signature of 1 to 200 bytes and lists at most seven calls.
pub proof fn law_file_entries_ok(root: Option<SyntaxNode>, source: Seq<u8>)
    ensures
        forall|j: int|
            0 <= j < spec_file_entries(root, source).len() ==> entry_ok(
                #[trigger] spec_file_entries(root, source)[j],
            ),
{
    if let Some(t) = root {
        lemma_sigs_of_ok(t, source);
    }
}

/// `b` appears in `s` as a contiguous block.
pub open spec fn has_block(s: Seq<SigEntryView>, b: Seq<SigEntryView>) -> bool {
    exists|k: int| 0 <= k && k + b.len() <= s.len() && #[trigger] s.subrange(k, k + b.len()) == b
}

proof fn lemma_child_block(nodes: Seq<SyntaxNode>, source: Seq<u8>, i: int)
    requires
        0 <= i < nodes.len(),
    ensures
        exists|k: int|
            0 <= k && k + sigs_of(nodes[i], source).len() <= sigs_of_seq(nodes, source).len()
                && #[trigger] sigs_of_seq(nodes, source).subrange(
                k,
                k + sigs_of(nodes[i], source).len(),
            ) == sigs_of(nodes[i], source),
    decreases nodes.len(),
{
    let all = sigs_of_seq(nodes, source);
    let pre = sigs_of_seq(nodes.drop_last(), source);
    let b = sigs_of(nodes[i], source);
    if i == nodes.len() - 1 {
        assert(all.subrange(pre.len() as int, (pre.len() + b.len()) as int) =~= b);
    } else {
        lemma_child_block(nodes.drop_last(), source, i);
        assert(nodes.drop_last()[i] == nodes[i]);
        let k = choose|k: int|
            0 <= k && k + b.len() <= pre.len() && #[trigger] pre.subrange(k, k + b.len()) == b;
        assert(all.subrange(k, k + b.len()) =~= pre.subrange(k, k + b.len()));
    }
}

/// Only a function's inside is skipped: a node of any other kind (a container such
/// as an `impl`, a trait or a class included) lists its own entry and then the
/// entries of its children in order, so each child's entries, such as those of a
/// method, appear among its own as one block.
pub proof fn law_entries_of_non_function_node(node: SyntaxNode, source: Seq<u8>)
    requires
        !is_fn_kind(node.kind@),
    ensures
        sigs_of(node, source) == own_entry(node, source) + sigs_of_seq(node.children@, source),
        forall|i: int|
            0 <= i < node.children@.len() ==> has_block(
                sigs_of(node, source),
                sigs_of(#[trigger] node.children@[i], source),
            ),
{
    let all = sigs_of(node, source);
    let own = own_entry(node, source);
    assert forall|i: int| 0 <= i < node.children@.len() implies has_block(
        all,
        sigs_of(#[trigger] node.children@[i], source),
    ) by {
        lemma_child_block(node.children@, source, i);
        let b = sigs_of(node.children@[i], source);
        let rest = sigs_of_seq(node.children@, source);
        let k = choose|k: int|
            0 <= k && k + b.len() <= rest.len() && #[trigger] rest.subrange(k, k + b.len()) == b;
        assert(all.subrange(own.len() + k, own.len() + k + b.len()) =~= rest.subrange(k, k + b.len()));
    }
}

/// How well a file matches the keywords: how many of them occur in the lowercase
/// form of its path, a space, and its signatures joined by spaces.
pub open spec fn path_and_signature_score(keywords: Seq<Seq<char>>, f: FileSignaturesView) -> nat {
    match_count(keywords, spec_to_lowercase(f.path + " "@ + join_seq(f.entries.map_values(|e: SigEntryView| e.sig), " "@)))
}

/// The repo map lists the files that have entries ordered by how many of the
/// prompt's keywords their lowercased path and signatures contain, most first, files
/// with equal counts in the order given; block `p` is that of the `p`-th file so
/// ranked. A keyword in a file's path counts as much as one in its signatures.
pub proof fn law_repo_map_ranks_by_path_and_signatures(prompt: Seq<char>, files: Seq<FileSignaturesView>)
    ensures
        ({
            let fs = nonempty_files(files);
            let kw = map_keywords(words(prompt));
            let order = rank(file_keys(kw, fs), fs.len());
            &&& spec_repo_map_blocks(prompt, files).len() == fs.len()
            &&& forall|p: int|
                0 <= p < fs.len() ==> 0 <= #[trigger] order[p] < fs.len()
                    && spec_repo_map_blocks(prompt, files)[p] == block_text(fs[order[p]])
            &&& forall|p: int, q: int|
                0 <= p < q < fs.len() ==> path_and_signature_score(kw, fs[#[trigger] order[p]])
                    > path_and_signature_score(kw, fs[#[trigger] order[q]]) || (path_and_signature_score(
                    kw,
                    fs[order[p]],
                ) == path_and_signature_score(kw, fs[order[q]]) && order[p] < order[q])
        }),
{
    let fs = nonempty_files(files);
    let kw = map_keywords(words(prompt));
    let keys = file_keys(kw, fs);
    law_rank_is_stable_sort(keys, fs.len());
    let order = rank(keys, fs.len());
    assert forall|i: int| 0 <= i < fs.len() implies #[trigger] keys[i] == path_and_signature_score(kw, fs[i]) by {
        assert(entry_sigs(fs[i].entries) =~= fs[i].entries.map_values(|e: SigEntryView| e.sig));
    }
    assert forall|p: int, q: int| 0 <= p < q < fs.len() implies path_and_signature_score(kw, fs[#[trigger] order[p]])
        > path_and_signature_score(kw, fs[#[trigger] order[q]]) || (path_and_signature_score(
        kw,
        fs[order[p]],
    ) == path_and_signature_score(kw, fs[order[q]]) && order[p] < order[q]) by {
        assert(ranked_before(keys, order[p], order[q]));
        assert(keys[order[p]] == path_and_signature_score(kw, fs[order[p]]));
        assert(keys[order[q]] == path_and_signature_score(kw, fs[order[q]]));
    }
}

} // verus!
