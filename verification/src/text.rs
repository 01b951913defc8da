//! Character-level text helpers: Unicode whitespace trimming, trimming of a
//! given character, splitting on a separator, ASCII case folding, and the
//! conversions between bytes, characters and `String`.
use vstd::prelude::*;
use vstd::utf8::decode_utf8;
use vstd::utf8::valid_utf8;

verus! {

// ---------------------------------------------------------------------------
// Character classes
// ---------------------------------------------------------------------------

/// The characters that `char::is_whitespace` accepts (Unicode `White_Space`).
pub open spec fn is_unicode_ws(c: char) -> bool {
    let u = c as u32;
    ||| 0x09 <= u <= 0x0D
    ||| u == 0x20
    ||| u == 0x85
    ||| u == 0xA0
    ||| u == 0x1680
    ||| 0x2000 <= u <= 0x200A
    ||| u == 0x2028
    ||| u == 0x2029
    ||| u == 0x202F
    ||| u == 0x205F
    ||| u == 0x3000
}

/// Executable test for [`is_unicode_ws`].
pub fn char_is_ws(c: char) -> (r: bool)
    ensures
        r == is_unicode_ws(c),
{
    let u = c as u32;
    (0x09 <= u && u <= 0x0D) || u == 0x20 || u == 0x85 || u == 0xA0 || u == 0x1680 || (0x2000
        <= u && u <= 0x200A) || u == 0x2028 || u == 0x2029 || u == 0x202F || u == 0x205F || u
        == 0x3000
}

/// An ASCII upper-case letter.
pub open spec fn is_ascii_upper_char(c: char) -> bool {
    'A' <= c <= 'Z'
}

/// ASCII lower-casing of one character (`char::to_ascii_lowercase`).
pub open spec fn ascii_lower_char(c: char) -> char {
    if is_ascii_upper_char(c) {
        ((c as u32) + 32) as char
    } else {
        c
    }
}

/// ASCII lower-casing of a whole text (`str::to_ascii_lowercase`).
pub open spec fn ascii_lower(s: Seq<char>) -> Seq<char> {
    s.map_values(|c: char| ascii_lower_char(c))
}

/// Equality up to ASCII case (`str::eq_ignore_ascii_case`).
pub open spec fn eq_ignore_case(a: Seq<char>, b: Seq<char>) -> bool {
    &&& a.len() == b.len()
    &&& forall|i: int| 0 <= i < a.len() ==> ascii_lower_char(#[trigger] a[i]) == ascii_lower_char(
        b[i],
    )
}

// ---------------------------------------------------------------------------
// Trimming
// ---------------------------------------------------------------------------

/// `s` without its leading Unicode whitespace.
pub open spec fn trim_start_ws(s: Seq<char>) -> Seq<char>
    decreases s.len(),
{
    if s.len() > 0 && is_unicode_ws(s[0]) {
        trim_start_ws(s.drop_first())
    } else {
        s
    }
}

/// `s` without its trailing Unicode whitespace.
pub open spec fn trim_end_ws(s: Seq<char>) -> Seq<char>
    decreases s.len(),
{
    if s.len() > 0 && is_unicode_ws(s.last()) {
        trim_end_ws(s.drop_last())
    } else {
        s
    }
}

/// `str::trim`: both ends freed of Unicode whitespace.
pub open spec fn trim_ws(s: Seq<char>) -> Seq<char> {
    trim_end_ws(trim_start_ws(s))
}

/// `s` without the copies of `t` at its start.
pub open spec fn trim_start_char(s: Seq<char>, t: char) -> Seq<char>
    decreases s.len(),
{
    if s.len() > 0 && s[0] == t {
        trim_start_char(s.drop_first(), t)
    } else {
        s
    }
}

/// `s` without the copies of `t` at its end.
pub open spec fn trim_end_char(s: Seq<char>, t: char) -> Seq<char>
    decreases s.len(),
{
    if s.len() > 0 && s.last() == t {
        trim_end_char(s.drop_last(), t)
    } else {
        s
    }
}

/// `str::trim_matches(t)` for a single character `t`.
pub open spec fn trim_char(s: Seq<char>, t: char) -> Seq<char> {
    trim_end_char(trim_start_char(s, t), t)
}

/// The text of a quoted or unquoted Liberty token: trimmed, then freed of
/// surrounding double quotes.
pub open spec fn unquote(s: Seq<char>) -> Seq<char> {
    trim_char(trim_ws(s), '"')
}

// ---------------------------------------------------------------------------
// Splitting
// ---------------------------------------------------------------------------

/// Index of the first `c` in `s`, or `s.len()` when there is none.
pub open spec fn char_pos(s: Seq<char>, c: char) -> int
    decreases s.len(),
{
    if s.len() == 0 {
        0
    } else if s[0] == c {
        0
    } else {
        1 + char_pos(s.drop_first(), c)
    }
}

/// `str::split(sep)`: the pieces between the separators, in order; a text
/// without the separator is one piece.
pub open spec fn split_on(s: Seq<char>, sep: char) -> Seq<Seq<char>>
    decreases s.len(),
{
    let i = char_pos(s, sep);
    if 0 <= i < s.len() {
        seq![s.take(i)] + split_on(s.skip(i + 1), sep)
    } else {
        seq![s]
    }
}

/// `char_pos` is the first index that holds `c`.
pub proof fn lemma_char_pos_is(s: Seq<char>, c: char, k: int)
    requires
        0 <= k <= s.len(),
        k < s.len() ==> s[k] == c,
        forall|j: int| 0 <= j < k ==> s[j] != c,
    ensures
        char_pos(s, c) == k,
    decreases s.len(),
{
    if s.len() > 0 && k > 0 {
        assert forall|j: int| 0 <= j < k - 1 implies s.drop_first()[j] != c by {
            assert(s[j + 1] != c);
        }
        lemma_char_pos_is(s.drop_first(), c, k - 1);
    }
}

// ---------------------------------------------------------------------------
// Executable helpers
// ---------------------------------------------------------------------------

/// A copy of `s[lo..hi]`.
pub fn copy_range(s: &[char], lo: usize, hi: usize) -> (r: Vec<char>)
    requires
        lo <= hi <= s@.len(),
    ensures
        r@ == s@.subrange(lo as int, hi as int),
{
    let mut r: Vec<char> = Vec::new();
    let mut i = lo;
    while i < hi
        invariant
            lo <= i <= hi <= s@.len(),
            r@ == s@.subrange(lo as int, i as int),
        decreases hi - i,
    {
        r.push(s[i]);
        i = i + 1;
    }
    r
}

/// `str::trim` on a character vector.
pub fn trim_ws_chars(s: &[char]) -> (r: Vec<char>)
    ensures
        r@ == trim_ws(s@),
{
    let mut lo: usize = 0;
    assert(s@.skip(0) =~= s@);
    while lo < s.len() && char_is_ws(s[lo])
        invariant
            lo <= s@.len(),
            trim_start_ws(s@) == trim_start_ws(s@.skip(lo as int)),
        decreases s@.len() - lo,
    {
        assert(s@.skip(lo as int).drop_first() =~= s@.skip(lo + 1));
        lo = lo + 1;
    }
    assert(trim_start_ws(s@) == s@.skip(lo as int));
    let mut hi: usize = s.len();
    while hi > lo && char_is_ws(s[hi - 1])
        invariant
            lo <= hi <= s@.len(),
            trim_ws(s@) == trim_end_ws(s@.subrange(lo as int, hi as int)),
        decreases hi,
    {
        assert(s@.subrange(lo as int, hi as int).drop_last() =~= s@.subrange(
            lo as int,
            hi - 1,
        ));
        hi = hi - 1;
    }
    assert(s@.skip(lo as int) =~= s@.subrange(lo as int, s@.len() as int));
    copy_range(s, lo, hi)
}

/// `str::trim_matches(t)` on a character vector.
pub fn trim_char_chars(s: &[char], t: char) -> (r: Vec<char>)
    ensures
        r@ == trim_char(s@, t),
{
    let mut lo: usize = 0;
    assert(s@.skip(0) =~= s@);
    while lo < s.len() && s[lo] == t
        invariant
            lo <= s@.len(),
            trim_start_char(s@, t) == trim_start_char(s@.skip(lo as int), t),
        decreases s@.len() - lo,
    {
        assert(s@.skip(lo as int).drop_first() =~= s@.skip(lo + 1));
        lo = lo + 1;
    }
    assert(trim_start_char(s@, t) == s@.skip(lo as int));
    let mut hi: usize = s.len();
    while hi > lo && s[hi - 1] == t
        invariant
            lo <= hi <= s@.len(),
            trim_char(s@, t) == trim_end_char(s@.subrange(lo as int, hi as int), t),
        decreases hi,
    {
        assert(s@.subrange(lo as int, hi as int).drop_last() =~= s@.subrange(
            lo as int,
            hi - 1,
        ));
        hi = hi - 1;
    }
    assert(s@.skip(lo as int) =~= s@.subrange(lo as int, s@.len() as int));
    copy_range(s, lo, hi)
}

/// [`unquote`] on a character vector.
pub fn unquote_chars(s: &[char]) -> (r: Vec<char>)
    ensures
        r@ == unquote(s@),
{
    let t = trim_ws_chars(s);
    trim_char_chars(t.as_slice(), '"')
}

/// Whether two character sequences are equal.
pub fn chars_eq(a: &[char], b: &[char]) -> (r: bool)
    ensures
        r == (a@ == b@),
{
    if a.len() != b.len() {
        return false;
    }
    let mut i: usize = 0;
    while i < a.len()
        invariant
            a@.len() == b@.len(),
            i <= a@.len(),
            forall|k: int| 0 <= k < i ==> a@[k] == b@[k],
        decreases a@.len() - i,
    {
        if a[i] != b[i] {
            return false;
        }
        i = i + 1;
    }
    assert(a@ =~= b@);
    true
}

/// [`ascii_lower_char`] in executable form.
pub fn lower_char(c: char) -> (r: char)
    ensures
        r == ascii_lower_char(c),
{
    if 'A' <= c && c <= 'Z' {
        let u = (c as u32) + 32;
        assert(0x61 <= u <= 0x7A);
        (u as u8) as char
    } else {
        c
    }
}

/// `str::to_ascii_lowercase` on a character vector.
pub fn ascii_lower_chars(s: &[char]) -> (r: Vec<char>)
    ensures
        r@ == ascii_lower(s@),
{
    let mut r: Vec<char> = Vec::new();
    let mut i: usize = 0;
    while i < s.len()
        invariant
            i <= s@.len(),
            r@ == ascii_lower(s@.take(i as int)),
        decreases s@.len() - i,
    {
        r.push(lower_char(s[i]));
        assert(ascii_lower(s@.take(i + 1)) =~= ascii_lower(s@.take(i as int)).push(
            ascii_lower_char(s@[i as int]),
        ));
        i = i + 1;
    }
    assert(s@.take(s@.len() as int) =~= s@);
    r
}

/// `str::eq_ignore_ascii_case`.
pub fn chars_eq_ignore_case(a: &[char], b: &[char]) -> (r: bool)
    ensures
        r == eq_ignore_case(a@, b@),
{
    if a.len() != b.len() {
        return false;
    }
    let mut i: usize = 0;
    while i < a.len()
        invariant
            a@.len() == b@.len(),
            i <= a@.len(),
            forall|k: int| 0 <= k < i ==> ascii_lower_char(#[trigger] a@[k]) == ascii_lower_char(
                b@[k],
            ),
        decreases a@.len() - i,
    {
        if lower_char(a[i]) != lower_char(b[i]) {
            return false;
        }
        i = i + 1;
    }
    true
}

/// `str::split(sep)`, each piece then trimmed with `str::trim`, as strings.
pub fn split_trimmed(s: &[char], sep: char) -> (r: Vec<String>)
    ensures
        r@.len() == split_on(s@, sep).len(),
        forall|i: int| 0 <= i < r@.len() ==> (#[trigger] r@[i])@ == trim_ws(split_on(s@, sep)[i]),
{
    let mut r: Vec<String> = Vec::new();
    let mut start: usize = 0;
    let mut i: usize = 0;
    let ghost done: Seq<Seq<char>> = Seq::empty();
    assert(s@.skip(0) =~= s@);
    assert(done + split_on(s@, sep) =~= split_on(s@, sep));
    while i < s.len()
        invariant
            start <= i <= s@.len(),
            split_on(s@, sep) == done + split_on(s@.skip(start as int), sep),
            r@.len() == done.len(),
            forall|k: int| 0 <= k < r@.len() ==> (#[trigger] r@[k])@ == trim_ws(done[k]),
            forall|k: int| start <= k < i ==> s@[k] != sep,
        decreases s@.len() - i,
    {
        if s[i] == sep {
            let ghost rest = s@.skip(start as int);
            proof {
                lemma_char_pos_is(rest, sep, i - start);
                assert(rest.take(i - start) =~= s@.subrange(start as int, i as int));
                assert(rest.skip(i - start + 1) =~= s@.skip(i + 1));
                done = done.push(s@.subrange(start as int, i as int));
                assert(split_on(rest, sep) =~= seq![s@.subrange(start as int, i as int)] + split_on(
                    s@.skip(i + 1),
                    sep,
                ));
            }
            let piece = copy_range(s, start, i);
            let t = trim_ws_chars(piece.as_slice());
            r.push(string_from_chars(t.as_slice()));
            start = i + 1;
        }
        i = i + 1;
    }
    let ghost rest = s@.skip(start as int);
    proof {
        lemma_char_pos_is(rest, sep, rest.len() as int);
        assert(split_on(rest, sep) == seq![rest]);
    }
    let piece = copy_range(s, start, s.len());
    assert(piece@ =~= rest);
    let t = trim_ws_chars(piece.as_slice());
    r.push(string_from_chars(t.as_slice()));
    proof {
        done = done.push(rest);
    }
    assert(split_on(s@, sep) =~= done);
    r
}

// ---------------------------------------------------------------------------
// Conversions made by std
// ---------------------------------------------------------------------------

/// The characters that `String::from_utf8_lossy` makes of `bytes`.
pub uninterp spec fn lossy_utf8(bytes: Seq<u8>) -> Seq<char>;

/// Calls `String::from_utf8_lossy` and lists the characters of its result.
/// Trusted: the result is the named decoding of the bytes and, as std
/// documents, bytes that are valid UTF-8 decode to their UTF-8 characters.
/// How invalid sequences are replaced by U+FFFD is left unstated.
#[verifier::external_body]
pub(crate) fn lossy_chars(bytes: &[u8]) -> (r: Vec<char>)
    ensures
        r@ == lossy_utf8(bytes@),
        valid_utf8(bytes@) ==> r@ == decode_utf8(bytes@),
{
    String::from_utf8_lossy(bytes).chars().collect()
}

/// Calls `<String as FromIterator<&char>>::from_iter`.
/// Trusted: the string holds exactly the given characters, in order.
#[verifier::external_body]
pub(crate) fn string_from_chars(chars: &[char]) -> (r: String)
    ensures
        r@ == chars@,
{
    String::from_iter(chars.iter())
}

/// The characters of a string, in order.
pub fn chars_of(s: &str) -> (v: Vec<char>)
    ensures
        v@ == s@,
{
    let mut v: Vec<char> = Vec::new();
    for c in it: s.chars()
        invariant
            v@.len() == it.index(),
            forall|i: int| 0 <= i < v@.len() ==> v@[i] == it.seq()[i],
    {
        v.push(c);
    }
    v
}

} // verus!
