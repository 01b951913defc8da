//! NLDM lookup tables: the text of their `index_1`/`index_2` lists and of
//! their `values` rows. The numbers themselves are read by the caller.
use vstd::prelude::*;
use vstd::slice::slice_subrange;
use vstd::string::StringSliceAdditionalSpecFns;
use crate::scan::LPAREN;
use crate::scan::RPAREN;
use crate::scan::byte_pos;
use crate::scan::lemma_byte_pos;
use crate::scan::find_ci;
use crate::scan::find_ci_from;
use crate::scan::lemma_find_ci;
use crate::scan::find_exact;
use crate::scan::find_exact_from;
use crate::scan::lemma_find_exact;
use crate::scan::skip_ws;
use crate::scan::skip_ws_spec;
use crate::scan::lemma_skip_ws;
use crate::scan::lemma_encode_nonempty;
use crate::scan::matches_at;
use crate::scan::is_ascii_ws;
use crate::genlib::lemma_find_exact_is;
use crate::text::lossy_utf8;
use crate::text::lossy_chars;
use crate::text::split_on;
use crate::text::split_trimmed;
use crate::text::trim_ws;
use crate::text::trim_char;
use crate::text::trim_ws_chars;
use crate::text::trim_char_chars;
use crate::text::chars_eq;
use crate::text::copy_range;

verus! {

pub const QUOTE: u8 = 0x22;

/// The texts of a list of strings.
pub open spec fn texts(v: Seq<String>) -> Seq<Seq<char>> {
    v.map_values(|s: String| s@)
}

/// The pieces of `t` between the separators `sep`, each trimmed.
pub open spec fn trimmed_pieces(t: Seq<char>, sep: char) -> Seq<Seq<char>> {
    split_on(t, sep).map_values(|p: Seq<char>| trim_ws(p))
}

fn split_pieces(t: &[char], sep: char) -> (r: Vec<String>)
    ensures
        texts(r@) == trimmed_pieces(t@, sep),
{
    let r = split_trimmed(t, sep);
    assert(texts(r@) =~= trimmed_pieces(t@, sep));
    r
}

// ---------------------------------------------------------------------------
// Index lists
// ---------------------------------------------------------------------------

/// Calls `memchr::memchr`.
/// Trusted: the result is the index of the first occurrence of `needle` in
/// `haystack`, or `None` when it does not occur, as the crate documents.
#[verifier::external_body]
fn memchr_first(needle: u8, haystack: &[u8]) -> (r: Option<usize>)
    ensures
        r matches Some(i) ==> i < haystack@.len() && haystack@[i as int] == needle && forall|
            j: int,
        |
            0 <= j < i ==> haystack@[j] != needle,
        r is None ==> forall|j: int| 0 <= j < haystack@.len() ==> haystack@[j] != needle,
{
    memchr::memchr(needle, haystack)
}

/// Position of the first `b` at or after `from`, or the end of `data`,
/// found with `memchr`.
fn next_byte(data: &[u8], from: usize, b: u8) -> (r: usize)
    requires
        from <= data@.len(),
    ensures
        r == byte_pos(data@, from as int, b),
{
    proof {
        lemma_byte_pos(data@, from as int, b);
    }
    let rest = slice_subrange(data, from, data.len());
    match memchr_first(b, rest) {
        Some(i) => {
            proof {
                let k = byte_pos(data@, from as int, b);
                if k < from + i {
                    assert(rest@[k - from] == data@[k]);
                }
                if from + i < k {
                    assert(data@[from + i] == rest@[i as int]);
                }
            }
            from + i
        },
        None => {
            proof {
                let k = byte_pos(data@, from as int, b);
                if k < data@.len() {
                    assert(rest@[k - from] == data@[k]);
                }
            }
            data.len()
        },
    }
}

/// The entries of the index list `name` of a table body: after the first
/// exact occurrence of `name`, optional whitespace and `(`, the text between
/// the next two double quotes, split at commas, each entry trimmed. Empty
/// when any of these parts is missing.
pub open spec fn index_entries(body: Seq<u8>, name: Seq<u8>) -> Seq<Seq<char>> {
    match find_exact(body, name, 0) {
        None => Seq::empty(),
        Some(pos) => {
            let p = skip_ws_spec(body, pos + name.len());
            if p >= body.len() || body[p] != LPAREN {
                Seq::empty()
            } else {
                let q = byte_pos(body, p + 1, QUOTE);
                if q >= body.len() {
                    Seq::empty()
                } else {
                    let e = byte_pos(body, q + 1, QUOTE);
                    if e >= body.len() {
                        Seq::empty()
                    } else {
                        trimmed_pieces(lossy_utf8(body.subrange(q + 1, e)), ',')
                    }
                }
            }
        },
    }
}

/// The entries of the index list `name` (see [`index_entries`]).
pub fn index_tokens(body: &[u8], name: &str) -> (r: Vec<String>)
    requires
        name@.len() > 0,
    ensures
        texts(r@) == index_entries(body@, name.spec_bytes()),
{
    let needle = name.as_bytes();
    proof {
        lemma_encode_nonempty(name@);
        lemma_find_exact(body@, needle@, 0);
    }
    let pos = match find_exact_from(body, needle, 0) {
        None => {
            return Vec::new();
        },
        Some(pos) => pos,
    };
    let n = needle.len();
    let blen = body.len();
    assert(pos + n <= blen);
    let p = skip_ws(body, pos + n);
    proof {
        lemma_skip_ws(body@, pos + needle@.len());
    }
    if p >= body.len() || body[p] != LPAREN {
        return Vec::new();
    }
    let q = next_byte(body, p + 1, QUOTE);
    if q >= body.len() {
        return Vec::new();
    }
    let e = next_byte(body, q + 1, QUOTE);
    if e >= body.len() {
        return Vec::new();
    }
    proof {
        lemma_byte_pos(body@, q + 1, QUOTE);
    }
    let raw = lossy_chars(slice_subrange(body, q + 1, e));
    split_pieces(raw.as_slice(), ',')
}

// ---------------------------------------------------------------------------
// Value rows
// ---------------------------------------------------------------------------

/// How a byte changes the parenthesis depth.
pub open spec fn paren_delta(b: u8) -> int {
    if b == LPAREN {
        1
    } else if b == RPAREN {
        -1
    } else {
        0
    }
}

/// Scanning from `i` with parenthesis depth `depth`: the position just past
/// the byte that brings the depth to zero, or the end of the input.
pub open spec fn paren_close(data: Seq<u8>, i: int, depth: int) -> int
    decreases data.len() - i,
{
    if 0 <= i < data.len() && depth > 0 {
        paren_close(data, i + 1, depth + paren_delta(data[i]))
    } else {
        i
    }
}

pub proof fn lemma_paren_close(data: Seq<u8>, i: int, depth: int)
    requires
        0 <= i <= data.len(),
    ensures
        i <= paren_close(data, i, depth) <= data.len(),
        i < data.len() && depth > 0 ==> paren_close(data, i, depth) > i,
    decreases data.len() - i,
{
    if i < data.len() && depth > 0 {
        lemma_paren_close(data, i + 1, depth + paren_delta(data[i]));
    }
}

/// A quoted segment of the `values` text, freed of surrounding whitespace
/// and commas.
pub open spec fn clean_segment(seg: Seq<char>) -> Seq<char> {
    trim_ws(trim_char(trim_ws(seg), ','))
}

/// A cleaned segment that is a row: neither empty nor a lone backslash.
pub open spec fn is_row(t: Seq<char>) -> bool {
    t.len() > 0 && t != seq!['\\']
}

/// The rows of a list of segments: each row segment split at commas, each
/// entry trimmed.
pub open spec fn rows_of_segments(segs: Seq<Seq<char>>) -> Seq<Seq<Seq<char>>>
    decreases segs.len(),
{
    if segs.len() == 0 {
        Seq::empty()
    } else {
        let t = clean_segment(segs[0]);
        let rest = rows_of_segments(segs.drop_first());
        if is_row(t) {
            seq![trimmed_pieces(t, ',')] + rest
        } else {
            rest
        }
    }
}

/// The rows of entries of the `values(...)` list of a table body: the text
/// inside the parentheses that follow the first `values` (any ASCII case),
/// split at double quotes into segments, of which the rows are kept.
/// Empty when there is no such list; `None` when the `(` is the last byte of
/// the body.
pub open spec fn value_rows(body: Seq<u8>) -> Option<Seq<Seq<Seq<char>>>> {
    let kw = "values".spec_bytes();
    match find_ci(body, kw, 0) {
        None => Some(Seq::empty()),
        Some(v) => {
            let p = skip_ws_spec(body, v + kw.len());
            if p >= body.len() || body[p] != LPAREN {
                Some(Seq::empty())
            } else if p + 1 >= body.len() {
                None
            } else {
                let end = paren_close(body, p + 1, 1);
                Some(rows_of_segments(split_on(lossy_utf8(body.subrange(p + 1, end - 1)), '"')))
            }
        },
    }
}

/// The view of a list of rows of strings.
pub open spec fn rows_view(v: Seq<Vec<String>>) -> Seq<Seq<Seq<char>>> {
    v.map_values(|row: Vec<String>| texts(row@))
}

fn segments(t: &[char]) -> (r: Vec<Vec<char>>)
    ensures
        r@.map_values(|v: Vec<char>| v@) == split_on(t@, '"'),
{
    let mut r: Vec<Vec<char>> = Vec::new();
    let mut start: usize = 0;
    let mut i: usize = 0;
    let ghost done: Seq<Seq<char>> = Seq::empty();
    assert(t@.skip(0) =~= t@);
    assert(done + split_on(t@, '"') =~= split_on(t@, '"'));
    while i < t.len()
        invariant
            start <= i <= t@.len(),
            split_on(t@, '"') == done + split_on(t@.skip(start as int), '"'),
            r@.map_values(|v: Vec<char>| v@) == done,
            forall|k: int| start <= k < i ==> t@[k] != '"',
        decreases t@.len() - i,
    {
        if t[i] == '"' {
            let ghost rest = t@.skip(start as int);
            proof {
                crate::text::lemma_char_pos_is(rest, '"', i - start);
                assert(rest.take(i - start) =~= t@.subrange(start as int, i as int));
                assert(rest.skip(i - start + 1) =~= t@.skip(i + 1));
                assert(split_on(rest, '"') =~= seq![t@.subrange(start as int, i as int)]
                    + split_on(t@.skip(i + 1), '"'));
                done = done.push(t@.subrange(start as int, i as int));
            }
            let piece = copy_range(t, start, i);
            r.push(piece);
            assert(r@.map_values(|v: Vec<char>| v@) =~= done);
            start = i + 1;
        }
        i = i + 1;
    }
    let ghost rest = t@.skip(start as int);
    proof {
        crate::text::lemma_char_pos_is(rest, '"', rest.len() as int);
        assert(split_on(rest, '"') == seq![rest]);
    }
    let piece = copy_range(t, start, t.len());
    assert(piece@ =~= rest);
    r.push(piece);
    proof {
        done = done.push(rest);
    }
    assert(r@.map_values(|v: Vec<char>| v@) =~= done);
    assert(split_on(t@, '"') =~= done);
    r
}

fn rows_from_segments(segs: &Vec<Vec<char>>) -> (r: Vec<Vec<String>>)
    ensures
        rows_view(r@) == rows_of_segments(segs@.map_values(|v: Vec<char>| v@)),
{
    let ghost all = segs@.map_values(|v: Vec<char>| v@);
    let mut r: Vec<Vec<String>> = Vec::new();
    let mut i: usize = 0;
    assert(all.skip(0) =~= all);
    assert(rows_view(r@) + rows_of_segments(all) =~= rows_of_segments(all));
    while i < segs.len()
        invariant
            i <= segs@.len(),
            all == segs@.map_values(|v: Vec<char>| v@),
            rows_of_segments(all) == rows_view(r@) + rows_of_segments(all.skip(i as int)),
        decreases segs@.len() - i,
    {
        let a = trim_ws_chars(segs[i].as_slice());
        let b = trim_char_chars(a.as_slice(), ',');
        let t = trim_ws_chars(b.as_slice());
        let backslash: [char; 1] = ['\\'];
        assert(backslash@ =~= seq!['\\']);
        assert(all.skip(i as int).drop_first() =~= all.skip(i + 1));
        assert(all.skip(i as int)[0] == segs@[i as int]@);
        if t.len() > 0 && !chars_eq(t.as_slice(), backslash.as_slice()) {
            let row = split_pieces(t.as_slice(), ',');
            let ghost before = rows_view(r@);
            r.push(row);
            assert(rows_view(r@) =~= before.push(texts(row@)));
            assert(before + rows_of_segments(all.skip(i as int)) =~= rows_view(r@)
                + rows_of_segments(all.skip(i + 1)));
        }
        i = i + 1;
    }
    assert(all.skip(segs@.len() as int) =~= Seq::<Seq<char>>::empty());
    assert(rows_view(r@) + Seq::<Seq<Seq<char>>>::empty() =~= rows_view(r@));
    r
}

/// The rows of entries of the `values` list (see [`value_rows`]); `None`
/// where [`value_rows`] is `None`.
pub fn table_value_tokens(body: &[u8]) -> (r: Option<Vec<Vec<String>>>)
    ensures
        r matches Some(v) ==> value_rows(body@) == Some(rows_view(v@)),
        r is None ==> value_rows(body@) is None,
{
    let kw = "values".as_bytes();
    proof {
        reveal_strlit("values");
        lemma_encode_nonempty("values"@);
        lemma_find_ci(body@, kw@, 0);
    }
    let v = match find_ci_from(body, kw, 0) {
        None => {
            return Some(Vec::new());
        },
        Some(v) => v,
    };
    let n = kw.len();
    let blen = body.len();
    assert(v + n <= blen);
    let p = skip_ws(body, v + n);
    if p >= body.len() || body[p] != LPAREN {
        return Some(Vec::new());
    }
    if p + 1 >= body.len() {
        return None;
    }
    let start = p + 1;
    proof {
        lemma_paren_close(body@, start as int, 1);
    }
    let mut depth: u128 = 1;
    let mut pos = start;
    while pos < body.len() && depth > 0
        invariant
            start <= pos <= body@.len(),
            depth as int <= pos - start + 1,
            paren_close(body@, start as int, 1) == paren_close(body@, pos as int, depth as int),
        decreases body@.len() - pos,
    {
        if body[pos] == LPAREN {
            depth = depth + 1;
        } else if body[pos] == RPAREN {
            depth = depth - 1;
        }
        pos = pos + 1;
    }
    let raw = lossy_chars(slice_subrange(body, start, pos - 1));
    let segs = segments(raw.as_slice());
    Some(rows_from_segments(&segs))
}

/// `byte_pos` is the first index at or after `j` that holds `b`.
pub proof fn lemma_byte_pos_is(data: Seq<u8>, j: int, b: u8, k: int)
    requires
        0 <= j <= k < data.len(),
        data[k] == b,
        forall|m: int| j <= m < k ==> data[m] != b,
    ensures
        byte_pos(data, j, b) == k,
    decreases k - j,
{
    if j < k {
        lemma_byte_pos_is(data, j + 1, b, k);
    }
}

/// An index list reads the text between the quotes that follow its name
/// and `(`: in a body made of `pre`, the name, `("`, a text `t` without
/// double quotes, `"` and anything else, where `pre` holds no earlier
/// occurrence of the name, the entries are the comma-separated pieces of `t`,
/// trimmed.
pub proof fn index_list_reads_quoted_text(
    pre: Seq<u8>,
    name: Seq<u8>,
    t: Seq<u8>,
    rest: Seq<u8>,
)
    requires
        name.len() > 0,
        forall|j: int|
            0 <= j < pre.len() ==> !matches_at(
                pre + name + seq![LPAREN, QUOTE] + t + seq![QUOTE] + rest,
                name,
                j,
            ),
        forall|k: int| 0 <= k < t.len() ==> t[k] != QUOTE,
    ensures
        index_entries(pre + name + seq![LPAREN, QUOTE] + t + seq![QUOTE] + rest, name)
            == trimmed_pieces(lossy_utf8(t), ','),
{
    let body = pre + name + seq![LPAREN, QUOTE] + t + seq![QUOTE] + rest;
    let a = pre.len() as int;
    let n = name.len() as int;
    assert forall|k: int| 0 <= k < n implies body[a + k] == #[trigger] name[k] by {}
    assert(matches_at(body, name, a));
    lemma_find_exact_is(body, name, 0, a);
    let p = a + n;
    assert(body[p] == LPAREN);
    assert(!is_ascii_ws(body[p]));
    assert(skip_ws_spec(body, p) == p);
    assert(body[p + 1] == QUOTE);
    lemma_byte_pos_is(body, p + 1, QUOTE, p + 1);
    let e = p + 2 + t.len();
    assert(body[e] == QUOTE);
    assert forall|m: int| p + 2 <= m < e implies body[m] != QUOTE by {
        assert(body[m] == t[m - p - 2]);
    }
    lemma_byte_pos_is(body, p + 2, QUOTE, e);
    assert(body.subrange(p + 2, e) =~= t);
}

} // verus!
