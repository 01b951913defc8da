//! Single-pass scanning of Liberty text: comment removal, whitespace,
//! case-insensitive keyword search, attribute values and `name(...) { ... }`
//! groups.
use vstd::prelude::*;
use vstd::slice::slice_subrange;
use vstd::utf8::encode_utf8;
use vstd::string::StringSliceAdditionalSpecFns;
use crate::text::eq_ignore_case;
use crate::text::lossy_utf8;
use crate::text::lossy_chars;
use crate::text::unquote;
use crate::text::unquote_chars;
use crate::text::string_from_chars;
use crate::text::chars_eq_ignore_case;

verus! {

// ---------------------------------------------------------------------------
// Byte classes
// ---------------------------------------------------------------------------

pub const SLASH: u8 = 0x2F;
pub const STAR: u8 = 0x2A;
pub const NEWLINE: u8 = 0x0A;
pub const LBRACE: u8 = 0x7B;
pub const RBRACE: u8 = 0x7D;
pub const SEMICOLON: u8 = 0x3B;
pub const COLON: u8 = 0x3A;
pub const LPAREN: u8 = 0x28;
pub const RPAREN: u8 = 0x29;

/// The bytes that `u8::is_ascii_whitespace` accepts.
pub open spec fn is_ascii_ws(b: u8) -> bool {
    b == 0x20u8 || b == 0x09u8 || b == 0x0Au8 || b == 0x0Cu8 || b == 0x0Du8
}

/// `u8::is_ascii_alphanumeric`.
pub open spec fn is_alnum(b: u8) -> bool {
    (0x30u8 <= b <= 0x39u8) || (0x41u8 <= b <= 0x5Au8) || (0x61u8 <= b <= 0x7Au8)
}

/// A byte that may continue an identifier: ASCII alphanumeric or `_`.
pub open spec fn is_ident_byte(b: u8) -> bool {
    is_alnum(b) || b == 0x5Fu8
}

/// ASCII lower-casing of a byte.
pub open spec fn lower_byte(b: u8) -> u8 {
    if 0x41u8 <= b <= 0x5Au8 {
        (b + 32) as u8
    } else {
        b
    }
}

pub fn byte_is_ws(b: u8) -> (r: bool)
    ensures
        r == is_ascii_ws(b),
{
    b == 0x20 || b == 0x09 || b == 0x0A || b == 0x0C || b == 0x0D
}

pub fn byte_is_alnum(b: u8) -> (r: bool)
    ensures
        r == is_alnum(b),
{
    (0x30 <= b && b <= 0x39) || (0x41 <= b && b <= 0x5A) || (0x61 <= b && b <= 0x7A)
}

pub fn byte_is_ident(b: u8) -> (r: bool)
    ensures
        r == is_ident_byte(b),
{
    byte_is_alnum(b) || b == 0x5F
}

fn to_lower_byte(b: u8) -> (r: u8)
    ensures
        r == lower_byte(b),
{
    if 0x41 <= b && b <= 0x5A {
        b + 32
    } else {
        b
    }
}

// ---------------------------------------------------------------------------
// Whitespace
// ---------------------------------------------------------------------------

/// The first position at or after `pos` that is not ASCII whitespace.
pub open spec fn skip_ws_spec(data: Seq<u8>, pos: int) -> int
    decreases data.len() - pos,
{
    if 0 <= pos < data.len() && is_ascii_ws(data[pos]) {
        skip_ws_spec(data, pos + 1)
    } else {
        pos
    }
}

pub proof fn lemma_skip_ws(data: Seq<u8>, pos: int)
    requires
        0 <= pos,
    ensures
        skip_ws_spec(data, pos) >= pos,
        pos <= data.len() ==> skip_ws_spec(data, pos) <= data.len(),
        pos > data.len() ==> skip_ws_spec(data, pos) == pos,
        forall|k: int| pos <= k < skip_ws_spec(data, pos) ==> is_ascii_ws(#[trigger] data[k]),
        skip_ws_spec(data, pos) < data.len() ==> !is_ascii_ws(data[skip_ws_spec(data, pos)]),
    decreases data.len() - pos,
{
    if 0 <= pos < data.len() && is_ascii_ws(data[pos]) {
        lemma_skip_ws(data, pos + 1);
    }
}

/// Advances `pos` over ASCII whitespace: the result is the first position at
/// or after `pos` that holds no whitespace byte (or `pos` itself when that is
/// past the end).
pub fn skip_ws(data: &[u8], pos: usize) -> (r: usize)
    ensures
        r == skip_ws_spec(data@, pos as int),
        r >= pos,
        r > pos ==> r <= data@.len(),
        forall|k: int| pos <= k < r ==> is_ascii_ws(#[trigger] data@[k]),
        r < data@.len() ==> !is_ascii_ws(data@[r as int]),
{
    proof {
        lemma_skip_ws(data@, pos as int);
    }
    let mut p = pos;
    while p < data.len() && byte_is_ws(data[p])
        invariant
            p >= pos,
            p > pos ==> p <= data@.len(),
            skip_ws_spec(data@, pos as int) == skip_ws_spec(data@, p as int),
        decreases data@.len() - p,
    {
        p = p + 1;
    }
    p
}

// ---------------------------------------------------------------------------
// Keyword search
// ---------------------------------------------------------------------------

/// `needle` occurs at `i` in `data`, up to ASCII case.
pub open spec fn matches_ci_at(data: Seq<u8>, needle: Seq<u8>, i: int) -> bool {
    &&& 0 <= i
    &&& i + needle.len() <= data.len()
    &&& forall|k: int|
        0 <= k < needle.len() ==> lower_byte(data[i + k]) == lower_byte(#[trigger] needle[k])
}

/// `needle` occurs at `i` in `data`, byte for byte.
pub open spec fn matches_at(data: Seq<u8>, needle: Seq<u8>, i: int) -> bool {
    &&& 0 <= i
    &&& i + needle.len() <= data.len()
    &&& forall|k: int| 0 <= k < needle.len() ==> data[i + k] == #[trigger] needle[k]
}

/// The first position at or after `from` where `needle` occurs up to ASCII
/// case (what `data[from..].windows(n).position(eq_ignore_ascii_case)` finds).
pub open spec fn find_ci(data: Seq<u8>, needle: Seq<u8>, from: int) -> Option<int>
    decreases data.len() - from,
{
    if from < 0 || from + needle.len() > data.len() {
        None
    } else if matches_ci_at(data, needle, from) {
        Some(from)
    } else {
        find_ci(data, needle, from + 1)
    }
}

/// The first position at or after `from` where `needle` occurs exactly.
pub open spec fn find_exact(data: Seq<u8>, needle: Seq<u8>, from: int) -> Option<int>
    decreases data.len() - from,
{
    if from < 0 || from + needle.len() > data.len() {
        None
    } else if matches_at(data, needle, from) {
        Some(from)
    } else {
        find_exact(data, needle, from + 1)
    }
}

pub proof fn lemma_find_ci(data: Seq<u8>, needle: Seq<u8>, from: int)
    requires
        0 <= from,
    ensures
        find_ci(data, needle, from) matches Some(m) ==> from <= m && matches_ci_at(
            data,
            needle,
            m,
        ) && forall|j: int| from <= j < m ==> !matches_ci_at(data, needle, j),
        find_ci(data, needle, from) is None ==> forall|j: int|
            from <= j ==> !matches_ci_at(data, needle, j),
    decreases data.len() - from,
{
    if from + needle.len() > data.len() {
    } else if matches_ci_at(data, needle, from) {
    } else {
        lemma_find_ci(data, needle, from + 1);
    }
}

pub proof fn lemma_find_exact(data: Seq<u8>, needle: Seq<u8>, from: int)
    requires
        0 <= from,
    ensures
        find_exact(data, needle, from) matches Some(m) ==> from <= m && matches_at(
            data,
            needle,
            m,
        ) && forall|j: int| from <= j < m ==> !matches_at(data, needle, j),
        find_exact(data, needle, from) is None ==> forall|j: int|
            from <= j ==> !matches_at(data, needle, j),
    decreases data.len() - from,
{
    if from + needle.len() > data.len() {
    } else if matches_at(data, needle, from) {
    } else {
        lemma_find_exact(data, needle, from + 1);
    }
}

fn matches_ci_exec(data: &[u8], needle: &[u8], i: usize) -> (r: bool)
    requires
        i + needle@.len() <= data@.len(),
    ensures
        r == matches_ci_at(data@, needle@, i as int),
{
    let n = needle.len();
    let dl = data.len();
    let mut k: usize = 0;
    while k < n
        invariant
            n == needle@.len(),
            dl == data@.len(),
            i + needle@.len() <= data@.len(),
            k <= needle@.len(),
            forall|j: int| 0 <= j < k ==> lower_byte(data@[i + j]) == lower_byte(#[trigger] needle@[j]),
        decreases needle@.len() - k,
    {
        if to_lower_byte(data[i + k]) != to_lower_byte(needle[k]) {
            return false;
        }
        k = k + 1;
    }
    true
}

fn matches_exec(data: &[u8], needle: &[u8], i: usize) -> (r: bool)
    requires
        i + needle@.len() <= data@.len(),
    ensures
        r == matches_at(data@, needle@, i as int),
{
    let n = needle.len();
    let dl = data.len();
    let mut k: usize = 0;
    while k < n
        invariant
            n == needle@.len(),
            dl == data@.len(),
            i + needle@.len() <= data@.len(),
            k <= needle@.len(),
            forall|j: int| 0 <= j < k ==> data@[i + j] == #[trigger] needle@[j],
        decreases needle@.len() - k,
    {
        if data[i + k] != needle[k] {
            return false;
        }
        k = k + 1;
    }
    true
}

/// The first case-insensitive occurrence of `needle` at or after `from`.
pub fn find_ci_from(data: &[u8], needle: &[u8], from: usize) -> (r: Option<usize>)
    requires
        needle@.len() > 0,
    ensures
        r matches Some(m) ==> find_ci(data@, needle@, from as int) == Some(m as int),
        r is None ==> find_ci(data@, needle@, from as int) is None,
{
    let n = needle.len();
    if n > data.len() {
        return None;
    }
    let mut i = from;
    while i <= data.len() - n
        invariant
            n == needle@.len(),
            n <= data@.len(),
            from <= i,
            i <= data@.len() - n + 1 || i == from,
            find_ci(data@, needle@, from as int) == find_ci(data@, needle@, i as int),
        decreases data@.len() - i,
    {
        if matches_ci_exec(data, needle, i) {
            return Some(i);
        }
        i = i + 1;
    }
    None
}

/// The first exact occurrence of `needle` at or after `from`.
pub fn find_exact_from(data: &[u8], needle: &[u8], from: usize) -> (r: Option<usize>)
    requires
        needle@.len() > 0,
    ensures
        r matches Some(m) ==> find_exact(data@, needle@, from as int) == Some(m as int),
        r is None ==> find_exact(data@, needle@, from as int) is None,
{
    let n = needle.len();
    if n > data.len() {
        return None;
    }
    let mut i = from;
    while i <= data.len() - n
        invariant
            n == needle@.len(),
            n <= data@.len(),
            from <= i,
            i <= data@.len() - n + 1 || i == from,
            find_exact(data@, needle@, from as int) == find_exact(data@, needle@, i as int),
        decreases data@.len() - i,
    {
        if matches_exec(data, needle, i) {
            return Some(i);
        }
        i = i + 1;
    }
    None
}

// ---------------------------------------------------------------------------
// Comments
// ---------------------------------------------------------------------------

/// Where the text after a block comment resumes, when the comment body starts
/// at `j`: just past the first `*/` at or after `j`, or the end of the input
/// when the comment is never closed.
pub open spec fn block_skip(s: Seq<u8>, j: int) -> int
    decreases s.len() - j,
{
    if j + 1 >= s.len() {
        s.len() as int
    } else if s[j] == STAR && s[j + 1] == SLASH {
        j + 2
    } else {
        block_skip(s, j + 1)
    }
}

/// The first newline at or after `j`, or the end of the input: a line
/// comment keeps its newline.
pub open spec fn line_skip(s: Seq<u8>, j: int) -> int
    decreases s.len() - j,
{
    if j >= s.len() || s[j] == NEWLINE {
        j
    } else {
        line_skip(s, j + 1)
    }
}

pub proof fn lemma_block_skip(s: Seq<u8>, j: int)
    requires
        0 <= j <= s.len(),
    ensures
        j <= block_skip(s, j) <= s.len(),
    decreases s.len() - j,
{
    if j + 1 < s.len() && !(s[j] == STAR && s[j + 1] == SLASH) {
        lemma_block_skip(s, j + 1);
    }
}

pub proof fn lemma_line_skip(s: Seq<u8>, j: int)
    requires
        0 <= j <= s.len(),
    ensures
        j <= line_skip(s, j) <= s.len(),
    decreases s.len() - j,
{
    if j < s.len() && s[j] != NEWLINE {
        lemma_line_skip(s, j + 1);
    }
}

/// The text from position `i` on, with `/* ... */` and `// ...` comments
/// removed.
pub open spec fn stripped_from(s: Seq<u8>, i: int) -> Seq<u8>
    decreases s.len() - i,
{
    if i < 0 || i >= s.len() {
        Seq::empty()
    } else if i + 1 < s.len() && s[i] == SLASH && s[i + 1] == STAR {
        proof {
            lemma_block_skip(s, i + 2);
        }
        stripped_from(s, block_skip(s, i + 2))
    } else if i + 1 < s.len() && s[i] == SLASH && s[i + 1] == SLASH {
        proof {
            lemma_line_skip(s, i + 2);
        }
        stripped_from(s, line_skip(s, i + 2))
    } else {
        seq![s[i]] + stripped_from(s, i + 1)
    }
}

/// The whole text with its comments removed.
pub open spec fn stripped(s: Seq<u8>) -> Seq<u8> {
    stripped_from(s, 0)
}

/// No `//` and no `/*` occurs in `t`.
pub open spec fn no_comment_openers(t: Seq<u8>) -> bool {
    forall|k: int|
        0 <= k < t.len() - 1 ==> !(#[trigger] t[k] == SLASH && (t[k + 1] == SLASH || t[k + 1] == STAR))
}

/// Removes `/* ... */` and `// ...` comments. An unclosed block comment runs
/// to the end of the input; a line comment stops before its newline.
pub fn strip_comments(input: &[u8]) -> (out: Vec<u8>)
    ensures
        out@ == stripped(input@),
{
    let n = input.len();
    let mut out: Vec<u8> = Vec::new();
    let mut i: usize = 0;
    assert(out@ + stripped_from(input@, 0) =~= stripped_from(input@, 0));
    while i < n
        invariant
            n == input@.len(),
            i <= n,
            stripped(input@) == out@ + stripped_from(input@, i as int),
        decreases n - i,
    {
        if i + 1 < n && input[i] == SLASH && input[i + 1] == STAR {
            let ghost start = i + 2;
            proof {
                lemma_block_skip(input@, start);
            }
            i = i + 2;
            while i < n - 1 && !(input[i] == STAR && input[i + 1] == SLASH)
                invariant
                    n == input@.len(),
                    n >= 2,
                    start <= i <= n,
                    block_skip(input@, start) == block_skip(input@, i as int),
                decreases n - i,
            {
                i = i + 1;
            }
            if i < n - 1 {
                i = i + 2;
            } else {
                i = n;
            }
        } else if i + 1 < n && input[i] == SLASH && input[i + 1] == SLASH {
            let ghost start = i + 2;
            proof {
                lemma_line_skip(input@, start);
            }
            i = i + 2;
            while i < n && input[i] != NEWLINE
                invariant
                    n == input@.len(),
                    start <= i <= n,
                    line_skip(input@, start) == line_skip(input@, i as int),
                decreases n - i,
            {
                i = i + 1;
            }
        } else {
            let ghost old_out = out@;
            out.push(input[i]);
            assert(old_out + stripped_from(input@, i as int) =~= out@ + stripped_from(
                input@,
                i + 1,
            ));
            i = i + 1;
        }
    }
    assert(out@ + stripped_from(input@, i as int) =~= out@);
    out
}

pub proof fn lemma_stripped_no_openers(s: Seq<u8>, i: int)
    requires
        0 <= i,
    ensures
        no_comment_openers(stripped_from(s, i)),
    decreases s.len() - i,
{
    if i >= s.len() {
    } else if i + 1 < s.len() && s[i] == SLASH && s[i + 1] == STAR {
        lemma_block_skip(s, i + 2);
        lemma_stripped_no_openers(s, block_skip(s, i + 2));
    } else if i + 1 < s.len() && s[i] == SLASH && s[i + 1] == SLASH {
        lemma_line_skip(s, i + 2);
        lemma_stripped_no_openers(s, line_skip(s, i + 2));
    } else {
        lemma_stripped_no_openers(s, i + 1);
        let r = stripped_from(s, i + 1);
        let t = stripped_from(s, i);
        assert(t == seq![s[i]] + r);
        if s[i] == SLASH && i + 1 < s.len() {
            // the next byte cannot open a comment, so it is kept
            assert(s[i + 1] != SLASH && s[i + 1] != STAR);
            assert(r[0] == s[i + 1]);
        }
        assert forall|k: int| 0 <= k < t.len() - 1 implies !(#[trigger] t[k] == SLASH && (t[k + 1]
            == SLASH || t[k + 1] == STAR)) by {
            if k > 0 {
                assert(t[k] == r[k - 1] && t[k + 1] == r[k]);
            }
        }
    }
}

pub proof fn lemma_stripped_identity(t: Seq<u8>, i: int)
    requires
        0 <= i <= t.len(),
        no_comment_openers(t),
    ensures
        stripped_from(t, i) == t.skip(i),
    decreases t.len() - i,
{
    if i < t.len() {
        if i + 1 < t.len() {
            assert(!(t[i] == SLASH && (t[i + 1] == SLASH || t[i + 1] == STAR)));
        }
        lemma_stripped_identity(t, i + 1);
        assert(t.skip(i) =~= seq![t[i]] + t.skip(i + 1));
    } else {
        assert(t.skip(i) =~= Seq::<u8>::empty());
    }
}

/// The text that comes out of comment removal holds no comment opener.
pub proof fn strip_leaves_no_comment(s: Seq<u8>)
    ensures
        no_comment_openers(stripped(s)),
{
    lemma_stripped_no_openers(s, 0);
}

/// Text without `//` or `/*` comes out of comment removal unchanged.
pub proof fn strip_keeps_comment_free_text(t: Seq<u8>)
    requires
        no_comment_openers(t),
    ensures
        stripped(t) == t,
{
    lemma_stripped_identity(t, 0);
    assert(t.skip(0) =~= t);
}

/// Removing comments twice gives what removing them once gives.
pub proof fn strip_is_idempotent(s: Seq<u8>)
    ensures
        stripped(stripped(s)) == stripped(s),
{
    strip_leaves_no_comment(s);
    strip_keeps_comment_free_text(stripped(s));
}

// ---------------------------------------------------------------------------
// Group bodies
// ---------------------------------------------------------------------------

/// How a byte changes the brace depth.
pub open spec fn brace_delta(b: u8) -> int {
    if b == LBRACE {
        1
    } else if b == RBRACE {
        -1
    } else {
        0
    }
}

/// Scanning from `i` with brace depth `depth`: the position just past the
/// byte that brings the depth to zero, or the end of the input.
pub open spec fn group_close(data: Seq<u8>, i: int, depth: int) -> int
    decreases data.len() - i,
{
    if 0 <= i < data.len() && depth > 0 {
        group_close(data, i + 1, depth + brace_delta(data[i]))
    } else {
        i
    }
}

pub proof fn lemma_group_close(data: Seq<u8>, i: int, depth: int)
    requires
        0 <= i <= data.len(),
    ensures
        i <= group_close(data, i, depth) <= data.len(),
        i < data.len() && depth > 0 ==> group_close(data, i, depth) > i,
    decreases data.len() - i,
{
    if i < data.len() && depth > 0 {
        lemma_group_close(data, i + 1, depth + brace_delta(data[i]));
    }
}

/// The body of the group whose opening brace precedes `pos`: the bytes up to
/// (not including) the matching closing brace, and the position just past
/// that brace. When the group is never closed, the body stops one byte
/// before the end of the input and the position is the end of the input.
pub fn extract_group_body(data: &[u8], pos: usize) -> (r: (&[u8], usize))
    requires
        pos < data@.len() || pos == 0,
    ensures
        r.1 == group_close(data@, pos as int, 1),
        pos <= r.1 <= data@.len(),
        pos < data@.len() ==> r.1 > pos,
        r.0@ == data@.subrange(pos as int, if r.1 > 0 { r.1 - 1 } else { 0 }),
{
    proof {
        lemma_group_close(data@, pos as int, 1);
    }
    let start = pos;
    let mut depth: u128 = 1;
    let mut i = pos;
    while i < data.len() && depth > 0
        invariant
            pos <= i <= data@.len(),
            depth as int <= i - pos + 1,
            group_close(data@, pos as int, 1) == group_close(data@, i as int, depth as int),
        decreases data@.len() - i,
    {
        if data[i] == LBRACE {
            depth = depth + 1;
        } else if data[i] == RBRACE {
            depth = depth - 1;
        }
        i = i + 1;
    }
    let stop = if i > 0 { i - 1 } else { 0 };
    (slice_subrange(data, start, stop), i)
}

// ---------------------------------------------------------------------------
// Attribute values
// ---------------------------------------------------------------------------

/// An attribute value ends at `;`, `{` or `}`.
pub open spec fn is_value_stop(b: u8) -> bool {
    b == SEMICOLON || b == LBRACE || b == RBRACE
}

/// The first value stop at or after `j`, or the end of the input.
pub open spec fn value_end(data: Seq<u8>, j: int) -> int
    decreases data.len() - j,
{
    if j < 0 || j >= data.len() || is_value_stop(data[j]) {
        j
    } else {
        value_end(data, j + 1)
    }
}

pub proof fn lemma_value_end(data: Seq<u8>, j: int)
    requires
        0 <= j <= data.len(),
    ensures
        j <= value_end(data, j) <= data.len(),
        forall|k: int| j <= k < value_end(data, j) ==> !is_value_stop(#[trigger] data[k]),
        value_end(data, j) < data.len() ==> is_value_stop(data[value_end(data, j)]),
    decreases data.len() - j,
{
    if j < data.len() && !is_value_stop(data[j]) {
        lemma_value_end(data, j + 1);
    }
}

/// The text of the attribute value that starts at `pos`: the bytes after the
/// leading whitespace up to the value stop, decoded, trimmed and unquoted.
pub open spec fn attr_value_text(data: Seq<u8>, pos: int) -> Seq<char> {
    let start = skip_ws_spec(data, pos);
    unquote(lossy_utf8(data.subrange(start, value_end(data, start))))
}

/// Where scanning resumes after the attribute value at `pos`: past its `;`,
/// or at the `{`, `}` or end of input that stopped it.
pub open spec fn attr_value_next(data: Seq<u8>, pos: int) -> int {
    let e = value_end(data, skip_ws_spec(data, pos));
    if e < data.len() && data[e] == SEMICOLON {
        e + 1
    } else {
        e
    }
}

/// Reads the attribute value that starts at `pos` (just after its `:`).
pub fn read_attr_value(data: &[u8], pos: usize) -> (r: (String, usize))
    requires
        pos <= data@.len(),
    ensures
        r.0@ == attr_value_text(data@, pos as int),
        r.1 == attr_value_next(data@, pos as int),
        pos <= r.1 <= data@.len(),
{
    let pos = skip_ws(data, pos);
    let start = pos;
    let mut end = pos;
    proof {
        lemma_value_end(data@, start as int);
    }
    while end < data.len() && data[end] != SEMICOLON && data[end] != LBRACE && data[end] != RBRACE
        invariant
            start <= end <= data@.len(),
            value_end(data@, start as int) == value_end(data@, end as int),
        decreases data@.len() - end,
    {
        end = end + 1;
    }
    let raw = lossy_chars(slice_subrange(data, start, end));
    let val = unquote_chars(raw.as_slice());
    let next = if end < data.len() && data[end] == SEMICOLON {
        end + 1
    } else {
        end
    };
    (string_from_chars(val.as_slice()), next)
}

// ---------------------------------------------------------------------------
// Needles
// ---------------------------------------------------------------------------

/// A non-empty text has a non-empty UTF-8 encoding.
pub proof fn lemma_encode_nonempty(s: Seq<char>)
    ensures
        s.len() > 0 <==> encode_utf8(s).len() > 0,
{
    if s.len() > 0 {
        assert(encode_utf8(s) == vstd::utf8::encode_scalar(s[0] as u32) + encode_utf8(
            s.drop_first(),
        ));
    }
}

/// The first byte at or after `j` that equals `b`, or the end of the input.
pub open spec fn byte_pos(data: Seq<u8>, j: int, b: u8) -> int
    decreases data.len() - j,
{
    if j < 0 || j >= data.len() || data[j] == b {
        j
    } else {
        byte_pos(data, j + 1, b)
    }
}

pub proof fn lemma_byte_pos(data: Seq<u8>, j: int, b: u8)
    requires
        0 <= j <= data.len(),
    ensures
        j <= byte_pos(data, j, b) <= data.len(),
        forall|k: int| j <= k < byte_pos(data, j, b) ==> #[trigger] data[k] != b,
        byte_pos(data, j, b) < data.len() ==> data[byte_pos(data, j, b)] == b,
    decreases data.len() - j,
{
    if j < data.len() && data[j] != b {
        lemma_byte_pos(data, j + 1, b);
    }
}

fn find_byte(data: &[u8], j: usize, b: u8) -> (r: usize)
    requires
        j <= data@.len(),
    ensures
        r == byte_pos(data@, j as int, b),
        j <= r <= data@.len(),
{
    proof {
        lemma_byte_pos(data@, j as int, b);
    }
    let mut p = j;
    while p < data.len() && data[p] != b
        invariant
            j <= p <= data@.len(),
            byte_pos(data@, j as int, b) == byte_pos(data@, p as int, b),
        decreases data@.len() - p,
    {
        p = p + 1;
    }
    p
}

// ---------------------------------------------------------------------------
// Groups
// ---------------------------------------------------------------------------

/// A group `type(name) { body }` found in a text: its name and the range of
/// its body in that text.
#[derive(Clone, Debug)]
pub struct Group {
    pub name: String,
    pub start: usize,
    pub end: usize,
}

impl View for Group {
    type V = (Seq<char>, int, int);

    open spec fn view(&self) -> (Seq<char>, int, int) {
        (self.name@, self.start as int, self.end as int)
    }
}

/// `r` with `a` in front, when there is an `r`.
pub open spec fn prepend<T>(a: Seq<T>, r: Option<Seq<T>>) -> Option<Seq<T>> {
    match r {
        Some(x) => Some(a + x),
        None => None,
    }
}

/// The groups of type `gt` found by scanning `data` from `pos`, as (name,
/// body start, body end); `None` where the scan meets a `{` that is the last
/// byte of the text, or searches for an empty type name.
///
/// A candidate is an occurrence of `gt` (up to ASCII case) that does not
/// continue an identifier; it is a group when optional whitespace, `(`, a
/// name up to `)`, optional whitespace and `{` follow. A group's body is
/// skipped as a whole; any other candidate is passed over.
pub open spec fn groups_from(data: Seq<u8>, gt: Seq<u8>, pos: int) -> Option<
    Seq<(Seq<char>, int, int)>,
>
    decreases data.len() + 1 - pos,
{
    if pos < 0 || !(pos + gt.len() < data.len()) {
        Some(Seq::empty())
    } else if gt.len() == 0 {
        None
    } else {
        match find_ci(data, gt, pos) {
            None => Some(Seq::empty()),
            Some(m) => {
                proof {
                    lemma_find_ci(data, gt, pos);
                }
                if m > 0 && is_ident_byte(data[m - 1]) {
                    groups_from(data, gt, m + gt.len())
                } else {
                    let after = skip_ws_spec(data, m + gt.len());
                    proof {
                        lemma_skip_ws(data, m + gt.len());
                    }
                    if after >= data.len() || data[after] != LPAREN {
                        groups_from(data, gt, after)
                    } else {
                        let close = byte_pos(data, after + 1, RPAREN);
                        let q = skip_ws_spec(data, close + 1);
                        proof {
                            lemma_byte_pos(data, after + 1, RPAREN);
                            lemma_skip_ws(data, close + 1);
                        }
                        if q >= data.len() || data[q] != LBRACE {
                            groups_from(data, gt, q)
                        } else if q + 1 >= data.len() {
                            None
                        } else {
                            let end = group_close(data, q + 1, 1);
                            proof {
                                lemma_group_close(data, q + 1, 1);
                            }
                            let g = (
                                unquote(lossy_utf8(data.subrange(after + 1, close))),
                                q + 1,
                                end - 1,
                            );
                            prepend(seq![g], groups_from(data, gt, end))
                        }
                    }
                }
            },
        }
    }
}

/// The bodies of the groups that a scan from `pos` finds lie inside the
/// text, after `pos`, one after the other without overlap.
pub proof fn groups_lie_in_order(data: Seq<u8>, gt: Seq<u8>, pos: int)
    requires
        0 <= pos,
    ensures
        groups_from(data, gt, pos) matches Some(gs) ==> {
            &&& forall|i: int|
                0 <= i < gs.len() ==> pos <= (#[trigger] gs[i]).1 <= gs[i].2 < data.len()
            &&& forall|i: int, j: int|
                0 <= i < j < gs.len() ==> (#[trigger] gs[i]).2 < (#[trigger] gs[j]).1
        },
    decreases data.len() + 1 - pos,
{
    if pos < 0 || !(pos + gt.len() < data.len()) || gt.len() == 0 {
    } else {
        lemma_find_ci(data, gt, pos);
        match find_ci(data, gt, pos) {
            None => {},
            Some(m) => {
                if m > 0 && is_ident_byte(data[m - 1]) {
                    groups_lie_in_order(data, gt, m + gt.len());
                } else {
                    let after = skip_ws_spec(data, m + gt.len());
                    lemma_skip_ws(data, m + gt.len());
                    if after >= data.len() || data[after] != LPAREN {
                        groups_lie_in_order(data, gt, after);
                    } else {
                        let close = byte_pos(data, after + 1, RPAREN);
                        let q = skip_ws_spec(data, close + 1);
                        lemma_byte_pos(data, after + 1, RPAREN);
                        lemma_skip_ws(data, close + 1);
                        if q >= data.len() || data[q] != LBRACE {
                            groups_lie_in_order(data, gt, q);
                        } else if q + 1 >= data.len() {
                        } else {
                            let end = group_close(data, q + 1, 1);
                            lemma_group_close(data, q + 1, 1);
                            groups_lie_in_order(data, gt, end);
                            match groups_from(data, gt, end) {
                                None => {},
                                Some(rest) => {
                                    let g = (
                                        unquote(lossy_utf8(data.subrange(after + 1, close))),
                                        q + 1,
                                        end - 1,
                                    );
                                    let gs = seq![g] + rest;
                                    assert(groups_from(data, gt, pos) == Some(gs));
                                    assert forall|i: int, j: int|
                                        0 <= i < j < gs.len() implies (#[trigger] gs[i]).2 < (
                                        #[trigger] gs[j]).1 by {
                                        if i > 0 {
                                            assert(gs[i] == rest[i - 1]);
                                        }
                                        assert(gs[j] == rest[j - 1]);
                                    }
                                    assert forall|i: int| 0 <= i < gs.len() implies pos <= (
                                    #[trigger] gs[i]).1 <= gs[i].2 < data.len() by {
                                        if i > 0 {
                                            assert(gs[i] == rest[i - 1]);
                                        }
                                    }
                                },
                            }
                        }
                    }
                }
            },
        }
    }
}

/// The groups of type `gt` in `data`, or `None` on the inputs on which the
/// scan cannot complete (see [`groups_from`]).
pub fn scan_groups(data: &[u8], gt: &[u8]) -> (r: Option<Vec<Group>>)
    ensures
        r matches Some(v) ==> groups_from(data@, gt@, 0) == Some(
            v@.map_values(|g: Group| g@),
        ),
        r is None ==> groups_from(data@, gt@, 0) is None,
{
    let n = gt.len();
    let len = data.len();
    let mut out: Vec<Group> = Vec::new();
    let mut pos: usize = 0;
    assert(out@.map_values(|g: Group| g@) =~= Seq::<(Seq<char>, int, int)>::empty());
    assert(prepend(Seq::<(Seq<char>, int, int)>::empty(), groups_from(data@, gt@, 0))
        == groups_from(data@, gt@, 0));
    while pos < len && n < len - pos
        invariant
            n == gt@.len(),
            len == data@.len(),
            pos <= len,
            groups_from(data@, gt@, 0) == prepend(
                out@.map_values(|g: Group| g@),
                groups_from(data@, gt@, pos as int),
            ),
        decreases len - pos,
    {
        if n == 0 {
            return None;
        }
        proof {
            lemma_find_ci(data@, gt@, pos as int);
        }
        let found = find_ci_from(data, gt, pos);
        let m = match found {
            None => {
                assert(groups_from(data@, gt@, pos as int) == Some(
                    Seq::<(Seq<char>, int, int)>::empty(),
                ));
                assert(groups_from(data@, gt@, len as int) == Some(
                    Seq::<(Seq<char>, int, int)>::empty(),
                ));
                pos = len;
                continue ;
            },
            Some(m) => m,
        };
        if m > 0 && byte_is_ident(data[m - 1]) {
            pos = m + n;
            continue ;
        }
        let after = skip_ws(data, m + n);
        if after >= len || data[after] != LPAREN {
            pos = after;
            continue ;
        }
        let name_start = after + 1;
        let close = find_byte(data, name_start, RPAREN);
        if close >= len {
            proof {
                lemma_skip_ws(data@, close + 1);
                assert(groups_from(data@, gt@, close + 1) == Some(
                    Seq::<(Seq<char>, int, int)>::empty(),
                ));
            }
            pos = len;
            continue ;
        }
        let q = skip_ws(data, close + 1);
        if q >= len || data[q] != LBRACE {
            pos = q;
            continue ;
        }
        let body_start = q + 1;
        if body_start >= len {
            return None;
        }
        let raw = lossy_chars(slice_subrange(data, name_start, close));
        let name_chars = unquote_chars(raw.as_slice());
        let name = string_from_chars(name_chars.as_slice());
        let (_, end) = extract_group_body(data, body_start);
        let g = Group { name, start: body_start, end: end - 1 };
        let ghost before = out@.map_values(|g: Group| g@);
        out.push(g);
        assert(out@.map_values(|g: Group| g@) =~= before + seq![g@]);
        pos = end;
    }
    proof {
        assert(groups_from(data@, gt@, pos as int) == Some(
            Seq::<(Seq<char>, int, int)>::empty(),
        ));
        assert(out@.map_values(|g: Group| g@) + Seq::<(Seq<char>, int, int)>::empty()
            =~= out@.map_values(|g: Group| g@));
    }
    Some(out)
}

/// Calls `group_type(name) { body }` for each group of the given type, in
/// order: here the groups come back as a list of names with body ranges.
/// The scan is the one of [`groups_from`]; `requires` leaves out the inputs
/// on which it cannot complete.
pub fn for_each_group(data: &[u8], group_type: &str) -> (r: Vec<Group>)
    requires
        groups_from(data@, group_type.spec_bytes(), 0) is Some,
    ensures
        groups_from(data@, group_type.spec_bytes(), 0) == Some(r@.map_values(|g: Group| g@)),
{
    match scan_groups(data, group_type.as_bytes()) {
        Some(v) => v,
        None => Vec::new(),
    }
}

// ---------------------------------------------------------------------------
// Attributes
// ---------------------------------------------------------------------------

/// The value of the first attribute `name : value` found by scanning `data`
/// from `pos`, or the empty text when there is none. A candidate is an
/// occurrence of `name` (up to ASCII case) that is a whole word; it is the
/// attribute when optional whitespace and `:` follow it.
pub open spec fn attr_from(data: Seq<u8>, name: Seq<u8>, pos: int) -> Seq<char>
    decreases data.len() - pos,
{
    if pos < 0 || !(pos + name.len() < data.len()) || name.len() == 0 {
        Seq::empty()
    } else {
        match find_ci(data, name, pos) {
            None => Seq::empty(),
            Some(m) => {
                proof {
                    lemma_find_ci(data, name, pos);
                }
                let after_word = m + name.len();
                if m > 0 && is_ident_byte(data[m - 1]) {
                    attr_from(data, name, after_word)
                } else if after_word < data.len() && is_ident_byte(data[after_word]) {
                    attr_from(data, name, after_word)
                } else {
                    let p = skip_ws_spec(data, after_word);
                    proof {
                        lemma_skip_ws(data, after_word);
                    }
                    if p >= data.len() || data[p] != COLON {
                        attr_from(data, name, p)
                    } else {
                        attr_value_text(data, p + 1)
                    }
                }
            },
        }
    }
}

/// [`attr_from`] on a byte needle, from the start of `data`.
pub fn attr_value_of(data: &[u8], name: &[u8]) -> (r: String)
    ensures
        r@ == attr_from(data@, name@, 0),
{
    let n = name.len();
    let len = data.len();
    let mut pos: usize = 0;
    while pos < len && n < len - pos
        invariant
            n == name@.len(),
            len == data@.len(),
            pos <= len,
            attr_from(data@, name@, 0) == attr_from(data@, name@, pos as int),
        decreases len - pos,
    {
        if n == 0 {
            assert(attr_from(data@, name@, pos as int) == Seq::<char>::empty());
            assert(attr_from(data@, name@, len as int) == Seq::<char>::empty());
            pos = len;
            continue ;
        }
        proof {
            lemma_find_ci(data@, name@, pos as int);
        }
        let m = match find_ci_from(data, name, pos) {
            None => {
                assert(attr_from(data@, name@, pos as int) == Seq::<char>::empty());
                assert(attr_from(data@, name@, len as int) == Seq::<char>::empty());
                pos = len;
                continue ;
            },
            Some(m) => m,
        };
        let after_word = m + n;
        if m > 0 && byte_is_ident(data[m - 1]) {
            pos = after_word;
            continue ;
        }
        if after_word < len && byte_is_ident(data[after_word]) {
            pos = after_word;
            continue ;
        }
        let p = skip_ws(data, after_word);
        if p >= len || data[p] != COLON {
            pos = p;
            continue ;
        }
        let (val, _) = read_attr_value(data, p + 1);
        return val;
    }
    assert(attr_from(data@, name@, pos as int) == Seq::<char>::empty());
    string_from_chars(Vec::<char>::new().as_slice())
}

/// The value of attribute `attr` in `data` (see [`attr_from`]), or the
/// empty string when it has none.
pub fn get_attr(data: &[u8], attr: &str) -> (r: String)
    requires
        attr@.len() > 0 || data@.len() == 0,
    ensures
        r@ == attr_from(data@, attr.spec_bytes(), 0),
{
    attr_value_of(data, attr.as_bytes())
}

/// The text `true`.
pub open spec fn true_text() -> Seq<char> {
    seq!['t', 'r', 'u', 'e']
}

/// Whether attribute `attr` in `data` reads `true`, in any ASCII case.
pub fn get_attr_bool(data: &[u8], attr: &str) -> (r: bool)
    requires
        attr@.len() > 0 || data@.len() == 0,
    ensures
        r == eq_ignore_case(attr_from(data@, attr.spec_bytes(), 0), true_text()),
{
    let val = get_attr(data, attr);
    let chars = crate::text::chars_of(val.as_str());
    let t: [char; 4] = ['t', 'r', 'u', 'e'];
    assert(t@ == true_text());
    chars_eq_ignore_case(chars.as_slice(), t.as_slice())
}

/// Whether scanning `data` from `pos` meets the type name `gt` (up to ASCII
/// case, as a word that does not continue an identifier) followed by
/// optional whitespace and `(`.
pub open spec fn group_open_from(data: Seq<u8>, gt: Seq<u8>, pos: int) -> bool
    decreases data.len() - pos,
{
    if pos < 0 || !(pos + gt.len() < data.len()) || gt.len() == 0 {
        false
    } else {
        match find_ci(data, gt, pos) {
            None => false,
            Some(m) => {
                proof {
                    lemma_find_ci(data, gt, pos);
                }
                if m > 0 && is_ident_byte(data[m - 1]) {
                    group_open_from(data, gt, m + gt.len())
                } else {
                    let after = skip_ws_spec(data, m + gt.len());
                    proof {
                        lemma_skip_ws(data, m + gt.len());
                    }
                    if after < data.len() && data[after] == LPAREN {
                        true
                    } else {
                        group_open_from(data, gt, after)
                    }
                }
            },
        }
    }
}

/// [`group_open_from`] on a byte needle, from the start of `data`.
pub fn group_opens(data: &[u8], gt: &[u8]) -> (r: bool)
    ensures
        r == group_open_from(data@, gt@, 0),
{
    let n = gt.len();
    let len = data.len();
    let mut pos: usize = 0;
    while pos < len && n < len - pos
        invariant
            n == gt@.len(),
            len == data@.len(),
            pos <= len,
            group_open_from(data@, gt@, 0) == group_open_from(data@, gt@, pos as int),
        decreases len - pos,
    {
        if n == 0 {
            assert(!group_open_from(data@, gt@, pos as int));
            assert(!group_open_from(data@, gt@, len as int));
            pos = len;
            continue ;
        }
        proof {
            lemma_find_ci(data@, gt@, pos as int);
        }
        let m = match find_ci_from(data, gt, pos) {
            None => {
                assert(!group_open_from(data@, gt@, pos as int));
                assert(!group_open_from(data@, gt@, len as int));
                pos = len;
                continue ;
            },
            Some(m) => m,
        };
        if m > 0 && byte_is_ident(data[m - 1]) {
            pos = m + n;
            continue ;
        }
        let after = skip_ws(data, m + n);
        if after < len && data[after] == LPAREN {
            return true;
        }
        pos = after;
    }
    assert(!group_open_from(data@, gt@, pos as int));
    false
}

/// Whether `data` opens a group of type `group_type` (see
/// [`group_open_from`]).
pub fn has_group(data: &[u8], group_type: &str) -> (r: bool)
    requires
        group_type@.len() > 0 || data@.len() == 0,
    ensures
        r == group_open_from(data@, group_type.spec_bytes(), 0),
{
    group_opens(data, group_type.as_bytes())
}

// ---------------------------------------------------------------------------
// Laws
// ---------------------------------------------------------------------------

/// A name that does not occur in the text (in any ASCII case) has the empty
/// value.
pub proof fn absent_attr_is_empty(data: Seq<u8>, name: Seq<u8>)
    requires
        forall|i: int| !matches_ci_at(data, name, i),
    ensures
        attr_from(data, name, 0) == Seq::<char>::empty(),
{
    lemma_find_ci(data, name, 0);
}

/// A text in which the scan finds a group of some type opens a group of
/// that type: `has_group` holds wherever `for_each_group` finds something.
pub proof fn found_group_is_opened(data: Seq<u8>, gt: Seq<u8>, pos: int)
    requires
        0 <= pos,
        groups_from(data, gt, pos) matches Some(gs) && gs.len() > 0,
    ensures
        group_open_from(data, gt, pos),
    decreases data.len() + 1 - pos,
{
    if pos < 0 || !(pos + gt.len() < data.len()) || gt.len() == 0 {
    } else {
        lemma_find_ci(data, gt, pos);
        match find_ci(data, gt, pos) {
            None => {},
            Some(m) => {
                if m > 0 && is_ident_byte(data[m - 1]) {
                    found_group_is_opened(data, gt, m + gt.len());
                } else {
                    let after = skip_ws_spec(data, m + gt.len());
                    lemma_skip_ws(data, m + gt.len());
                    if after >= data.len() || data[after] != LPAREN {
                        found_group_is_opened(data, gt, after);
                    }
                }
            },
        }
    }
}

} // verus!
