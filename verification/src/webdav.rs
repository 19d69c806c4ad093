//! WebDAV sync logic: which algorithm and password apply, the sync payloads,
//! and the reading of PROPFIND multistatus replies.
//!
//! The multistatus reader works on the UTF-8 bytes of the reply. Tag names are
//! compared without their namespace prefix (`<D:href>`, `<d:href>` and
//! `<href>` all name `href`).

use vstd::prelude::*;
use vstd::string::*;
use vstd::utf8::*;
use crate::codec::{
    gunzip_text, gunzip_to_string, gzip_best, gzip_compress_best, string_from_utf8, text_bytes,
    utf8_error_text,
};
use crate::crypto::{
    aes_gcm_name, bytes_result, chosen_algorithm, decrypt, decrypt_key_fits, decrypt_text,
    default_algorithm, encrypt, encrypt_key_fits, header_chars, seal_fits, sealed_text,
};
use crate::commands::{decimal, decimal_text};
use crate::models::{RemoteAttachment, WebdavConfig};

verus! {

// ---------------------------------------------------------------------------
// Byte-level scanning
// ---------------------------------------------------------------------------

/// A byte that ends a tag name: a space, `>` or `/`.
pub open spec fn is_name_stop(c: u8) -> bool {
    c == 0x20u8 || c == 0x3eu8 || c == 0x2fu8
}

/// The first position at or after `i` that holds a name stop, or the length.
pub open spec fn first_stop(s: Seq<u8>, i: int) -> int
    decreases s.len() - i,
{
    if i >= s.len() {
        s.len() as int
    } else if is_name_stop(s[i]) {
        i
    } else {
        first_stop(s, i + 1)
    }
}

/// Where the local part of the name `s[lo..hi]` starts: just after its last
/// `:`, or at `lo` when it has none.
pub open spec fn local_start(s: Seq<u8>, lo: int, hi: int) -> int
    decreases hi - lo,
{
    if hi <= lo {
        lo
    } else if s[hi - 1] == 0x3au8 {
        hi
    } else {
        local_start(s, lo, hi - 1)
    }
}

/// Position `i` holds a `<` whose name, without namespace prefix, is `tag`.
pub open spec fn opens_tag_at(s: Seq<u8>, i: int, tag: Seq<u8>) -> bool {
    &&& 0 <= i < s.len()
    &&& s[i] == 0x3cu8
    &&& s.subrange(local_start(s, i + 1, first_stop(s, i + 1)), first_stop(s, i + 1)) == tag
}

/// The first position at or after `from` where `tag` opens.
pub open spec fn next_tag(s: Seq<u8>, from: int, tag: Seq<u8>) -> Option<int>
    decreases s.len() - from,
{
    if from < 0 || from >= s.len() {
        None
    } else if opens_tag_at(s, from, tag) {
        Some(from)
    } else {
        next_tag(s, from + 1, tag)
    }
}

pub proof fn lemma_first_stop_bounds(s: Seq<u8>, i: int)
    requires
        0 <= i <= s.len(),
    ensures
        i <= first_stop(s, i) <= s.len(),
    decreases s.len() - i,
{
    if i < s.len() && !is_name_stop(s[i]) {
        lemma_first_stop_bounds(s, i + 1);
    }
}

pub proof fn lemma_local_start_bounds(s: Seq<u8>, lo: int, hi: int)
    requires
        lo <= hi,
    ensures
        lo <= local_start(s, lo, hi) <= hi,
    decreases hi - lo,
{
    if hi > lo && s[hi - 1] != 0x3au8 {
        lemma_local_start_bounds(s, lo, hi - 1);
    }
}

pub proof fn lemma_next_tag_bounds(s: Seq<u8>, from: int, tag: Seq<u8>)
    ensures
        next_tag(s, from, tag) matches Some(i) ==> from <= i < s.len() && opens_tag_at(s, i, tag),
    decreases s.len() - from,
{
    if 0 <= from < s.len() && !opens_tag_at(s, from, tag) {
        lemma_next_tag_bounds(s, from + 1, tag);
    }
}

fn first_stop_exec(s: &[u8], i: usize) -> (r: usize)
    requires
        i <= s@.len(),
    ensures
        r == first_stop(s@, i as int),
{
    let mut j = i;
    while j < s.len()
        invariant
            i <= j <= s@.len(),
            first_stop(s@, i as int) == first_stop(s@, j as int),
        decreases s@.len() - j,
    {
        let c = s[j];
        if c == 0x20u8 || c == 0x3eu8 || c == 0x2fu8 {
            return j;
        }
        j += 1;
    }
    j
}

fn local_start_exec(s: &[u8], lo: usize, hi: usize) -> (r: usize)
    requires
        lo <= hi <= s@.len(),
    ensures
        r == local_start(s@, lo as int, hi as int),
{
    let mut j = hi;
    while j > lo
        invariant
            lo <= j <= hi <= s@.len(),
            local_start(s@, lo as int, hi as int) == local_start(s@, lo as int, j as int),
        decreases j - lo,
    {
        if s[j - 1] == 0x3au8 {
            return j;
        }
        j -= 1;
    }
    j
}

/// Whether `s[lo..hi]` equals `pat`.
pub(crate) fn range_eq(s: &[u8], lo: usize, hi: usize, pat: &[u8]) -> (r: bool)
    requires
        lo <= hi <= s@.len(),
    ensures
        r == (s@.subrange(lo as int, hi as int) == pat@),
{
    if hi - lo != pat.len() {
        return false;
    }
    let mut k: usize = 0;
    while k < pat.len()
        invariant
            hi - lo == pat@.len(),
            lo <= hi <= s@.len(),
            k <= pat@.len(),
            forall|q: int| 0 <= q < k ==> s@[lo + q] == pat@[q],
        decreases pat@.len() - k,
    {
        if s[lo + k] != pat[k] {
            assert(s@.subrange(lo as int, hi as int)[k as int] != pat@[k as int]);
            return false;
        }
        k += 1;
    }
    assert(s@.subrange(lo as int, hi as int) =~= pat@);
    true
}

/// The first position at or after `from` where an element named `tag` opens
/// (namespace prefix ignored).
pub fn find_tag_start(body: &[u8], from: usize, tag: &[u8]) -> (r: Option<usize>)
    ensures
        r matches Some(i) ==> next_tag(body@, from as int, tag@) == Some(i as int),
        r is None ==> next_tag(body@, from as int, tag@) is None,
{
    let mut i = from;
    while i < body.len()
        invariant
            from <= i,
            next_tag(body@, from as int, tag@) == next_tag(body@, i as int, tag@),
        decreases body@.len() - i,
    {
        if body[i] == 0x3cu8 {
            let end = first_stop_exec(body, i + 1);
            proof {
                lemma_first_stop_bounds(body@, i + 1);
            }
            let ls = local_start_exec(body, i + 1, end);
            proof {
                lemma_local_start_bounds(body@, i + 1, end as int);
            }
            if range_eq(body, ls, end, tag) {
                return Some(i);
            }
        }
        i += 1;
    }
    None
}

/// `response` as bytes.
pub open spec fn response_name() -> Seq<u8> {
    seq![0x72u8, 0x65u8, 0x73u8, 0x70u8, 0x6fu8, 0x6eu8, 0x73u8, 0x65u8]
}

/// The first position at or after `from` where a `response` element opens.
pub fn find_response_start(body: &[u8], from: usize) -> (r: Option<usize>)
    ensures
        r matches Some(i) ==> next_tag(body@, from as int, response_name()) == Some(i as int),
        r is None ==> next_tag(body@, from as int, response_name()) is None,
{
    let name = vec![0x72u8, 0x65u8, 0x73u8, 0x70u8, 0x6fu8, 0x6eu8, 0x73u8, 0x65u8];
    assert(name@ == response_name());
    find_tag_start(body, from, name.as_slice())
}

/// The `response` blocks of a multistatus body from `i` on: each runs from
/// where a `response` element opens to where the next one opens, or to the end.
pub open spec fn response_blocks(s: Seq<u8>, i: int) -> Seq<(int, int)>
    decreases s.len() - i,
{
    if i < 0 || i >= s.len() {
        seq![]
    } else {
        match next_tag(s, i, response_name()) {
            None => seq![],
            Some(st) => {
                let nx = match next_tag(s, st + 1, response_name()) {
                    Some(n) => n,
                    None => s.len() as int,
                };
                proof {
                    lemma_next_tag_bounds(s, i, response_name());
                    lemma_next_tag_bounds(s, st + 1, response_name());
                }
                if nx <= i {
                    seq![]
                } else {
                    seq![(st, nx)] + response_blocks(s, nx)
                }
            },
        }
    }
}

/// Every range of `r` is ordered and ends by `n`.
pub open spec fn ranges_within(r: Seq<(usize, usize)>, n: int) -> bool {
    forall|k: int| 0 <= k < r.len() ==> #[trigger] r[k].0 <= r[k].1 && r[k].1 <= n
}

pub open spec fn ranges_view(r: Seq<(usize, usize)>) -> Seq<(int, int)> {
    r.map_values(|p: (usize, usize)| (p.0 as int, p.1 as int))
}

/// Splits a multistatus body into its `response` blocks.
pub fn split_responses(body: &[u8]) -> (r: Vec<(usize, usize)>)
    ensures
        ranges_view(r@) == response_blocks(body@, 0),
        forall|k: int| 0 <= k < r@.len() ==> #[trigger] r@[k].0 < r@[k].1 <= body@.len(),
{
    let mut blocks: Vec<(usize, usize)> = Vec::new();
    let mut i: usize = 0;
    while i < body.len()
        invariant
            i <= body@.len(),
            ranges_view(blocks@) + response_blocks(body@, i as int) == response_blocks(body@, 0),
            forall|k: int| 0 <= k < blocks@.len() ==> #[trigger] blocks@[k].0 < blocks@[k].1 <= body@.len(),
        decreases body@.len() - i,
    {
        let start = match find_response_start(body, i) {
            Some(s) => s,
            None => {
                assert(response_blocks(body@, i as int) == Seq::<(int, int)>::empty());
                assert(ranges_view(blocks@) =~= response_blocks(body@, 0));
                return blocks;
            },
        };
        proof {
            lemma_next_tag_bounds(body@, i as int, response_name());
            lemma_next_tag_bounds(body@, start + 1, response_name());
        }
        let next = match find_response_start(body, start + 1) {
            Some(s) => s,
            None => body.len(),
        };
        let ghost before = blocks@;
        blocks.push((start, next));
        proof {
            assert(ranges_view(blocks@) =~= ranges_view(before).push((start as int, next as int)));
            assert(response_blocks(body@, i as int) == seq![(start as int, next as int)] + response_blocks(body@, next as int));
            assert(ranges_view(blocks@) + response_blocks(body@, next as int) =~= ranges_view(before) + response_blocks(body@, i as int));
        }
        i = next;
    }
    proof {
        if i >= body@.len() {
            assert(response_blocks(body@, i as int) == Seq::<(int, int)>::empty());
        }
        assert(ranges_view(blocks@) + response_blocks(body@, i as int) == response_blocks(body@, 0));
    }
    blocks
}

// ---------------------------------------------------------------------------
// Element contents
// ---------------------------------------------------------------------------

/// `r` (exec) and `s` (spec) denote the same optional position.
pub open spec fn same_pos(r: Option<usize>, s: Option<int>) -> bool {
    match r {
        Some(i) => s == Some(i as int),
        None => s is None,
    }
}

/// The first position at or after `from` holding byte `c`.
pub open spec fn find_byte(s: Seq<u8>, from: int, c: u8) -> Option<int>
    decreases s.len() - from,
{
    if from < 0 || from >= s.len() {
        None
    } else if s[from] == c {
        Some(from)
    } else {
        find_byte(s, from + 1, c)
    }
}

/// The first position at or after `from` where `pat` occurs.
pub open spec fn find_pat(s: Seq<u8>, from: int, pat: Seq<u8>) -> Option<int>
    decreases s.len() - from,
{
    if from < 0 || from >= s.len() || from + pat.len() > s.len() {
        None
    } else if s.subrange(from, from + pat.len()) == pat {
        Some(from)
    } else {
        find_pat(s, from + 1, pat)
    }
}

pub proof fn lemma_find_byte_bounds(s: Seq<u8>, from: int, c: u8)
    ensures
        find_byte(s, from, c) matches Some(i) ==> from <= i < s.len() && s[i] == c,
    decreases s.len() - from,
{
    if 0 <= from < s.len() && s[from] != c {
        lemma_find_byte_bounds(s, from + 1, c);
    }
}

pub proof fn lemma_find_pat_bounds(s: Seq<u8>, from: int, pat: Seq<u8>)
    ensures
        find_pat(s, from, pat) matches Some(i) ==> from <= i && i + pat.len() <= s.len()
            && s.subrange(i, i + pat.len()) == pat,
    decreases s.len() - from,
{
    if 0 <= from && from < s.len() && from + pat.len() <= s.len() && s.subrange(from, from + pat.len()) != pat {
        lemma_find_pat_bounds(s, from + 1, pat);
    }
}

/// The one-byte white-space characters: tab, line feed, vertical tab, form
/// feed, carriage return and space.
pub open spec fn is_ws1(a: u8) -> bool {
    (0x09u8 <= a && a <= 0x0du8) || a == 0x20u8
}

/// The two-byte white-space characters: U+0085 and U+00A0.
pub open spec fn is_ws2(a: u8, b: u8) -> bool {
    a == 0xc2u8 && (b == 0x85u8 || b == 0xa0u8)
}

/// The three-byte white-space characters: U+1680, U+2000 to U+200A, U+2028,
/// U+2029, U+202F, U+205F and U+3000.
pub open spec fn is_ws3(a: u8, b: u8, c: u8) -> bool {
    ||| (a == 0xe1u8 && b == 0x9au8 && c == 0x80u8)
    ||| (a == 0xe2u8 && b == 0x80u8 && ((0x80u8 <= c && c <= 0x8au8) || c == 0xa8u8 || c == 0xa9u8
        || c == 0xafu8))
    ||| (a == 0xe2u8 && b == 0x81u8 && c == 0x9fu8)
    ||| (a == 0xe3u8 && b == 0x80u8 && c == 0x80u8)
}

/// The width in bytes of the white-space character that starts at `i` and
/// ends by `hi`, or 0. On UTF-8 text these are the characters of Unicode's
/// White_Space property, which `str::trim` and `split_whitespace` remove.
pub open spec fn ws_width_at(s: Seq<u8>, i: int, hi: int) -> int {
    if 0 <= i && i < hi && hi <= s.len() {
        if is_ws1(s[i]) {
            1
        } else if i + 2 <= hi && is_ws2(s[i], s[i + 1]) {
            2
        } else if i + 3 <= hi && is_ws3(s[i], s[i + 1], s[i + 2]) {
            3
        } else {
            0
        }
    } else {
        0
    }
}

/// The width in bytes of the white-space character that ends at `j` and
/// starts at or after `lo`, or 0.
pub open spec fn ws_width_before(s: Seq<u8>, lo: int, j: int) -> int {
    if 0 <= lo && lo < j && j <= s.len() {
        if is_ws1(s[j - 1]) {
            1
        } else if lo <= j - 2 && is_ws2(s[j - 2], s[j - 1]) {
            2
        } else if lo <= j - 3 && is_ws3(s[j - 3], s[j - 2], s[j - 1]) {
            3
        } else {
            0
        }
    } else {
        0
    }
}

/// Skips white space forward from `i`, staying before `hi`.
pub open spec fn skip_ws(s: Seq<u8>, i: int, hi: int) -> int
    decreases hi - i,
{
    if i < hi && ws_width_at(s, i, hi) > 0 {
        skip_ws(s, i + ws_width_at(s, i, hi), hi)
    } else {
        i
    }
}

/// The first position at or after `i` where white space starts, or `hi`.
pub open spec fn next_ws(s: Seq<u8>, i: int, hi: int) -> int
    decreases hi - i,
{
    if i >= hi {
        hi
    } else if ws_width_at(s, i, hi) > 0 {
        i
    } else {
        next_ws(s, i + 1, hi)
    }
}

/// Drops white space from the end of `s[lo..hi]`.
pub open spec fn trim_end(s: Seq<u8>, lo: int, hi: int) -> int
    decreases hi - lo,
{
    if hi > lo && ws_width_before(s, lo, hi) > 0 {
        trim_end(s, lo, hi - ws_width_before(s, lo, hi))
    } else {
        hi
    }
}

/// `s[lo..hi]` with white space removed from both ends.
pub open spec fn trimmed(s: Seq<u8>, lo: int, hi: int) -> (int, int) {
    let a = skip_ws(s, lo, hi);
    (a, trim_end(s, a, hi))
}

pub open spec fn is_ascii_alnum(c: u8) -> bool {
    (0x30u8 <= c && c <= 0x39u8) || (0x41u8 <= c && c <= 0x5au8) || (0x61u8 <= c && c <= 0x7au8)
}

/// Skips ASCII letters and digits from `k`.
pub open spec fn skip_alnum(s: Seq<u8>, k: int) -> int
    decreases s.len() - k,
{
    if 0 <= k < s.len() && is_ascii_alnum(s[k]) {
        skip_alnum(s, k + 1)
    } else {
        k
    }
}

/// The `</` at `p` closes `tag` through a namespace prefix: `</ns:tag>`.
pub open spec fn prefixed_close_at(s: Seq<u8>, p: int, tag: Seq<u8>) -> bool {
    let k = skip_alnum(s, p + 2);
    let k2 = if k < s.len() && s[k] == 0x3au8 { k + 1 } else { k };
    &&& k2 + tag.len() < s.len()
    &&& s.subrange(k2, k2 + tag.len()) == tag
    &&& s[k2 + tag.len()] == 0x3eu8
}

/// `</` as bytes.
pub open spec fn close_mark() -> Seq<u8> {
    seq![0x3cu8, 0x2fu8]
}

/// The first `</` at or after `from` that closes `tag` through a namespace prefix.
pub open spec fn prefixed_close(s: Seq<u8>, from: int, tag: Seq<u8>) -> Option<int>
    decreases s.len() - from,
{
    match find_pat(s, from, close_mark()) {
        None => None,
        Some(p) => {
            proof {
                lemma_find_pat_bounds(s, from, close_mark());
            }
            if prefixed_close_at(s, p, tag) {
                Some(p)
            } else if p + 2 <= from {
                None
            } else {
                prefixed_close(s, p + 2, tag)
            }
        },
    }
}

/// `</tag>` as bytes.
pub open spec fn exact_close(tag: Seq<u8>) -> Seq<u8> {
    close_mark() + tag + seq![0x3eu8]
}

/// Where the element `tag` whose content starts at `a` closes: at the first
/// `</tag>`, or failing that at the first `</ns:tag>`.
pub open spec fn find_close(s: Seq<u8>, a: int, tag: Seq<u8>) -> Option<int> {
    match find_pat(s, a, exact_close(tag)) {
        Some(c) => Some(c),
        None => prefixed_close(s, a, tag),
    }
}

pub proof fn lemma_prefixed_close_bounds(s: Seq<u8>, from: int, tag: Seq<u8>)
    ensures
        prefixed_close(s, from, tag) matches Some(i) ==> from <= i < s.len(),
    decreases s.len() - from,
{
    lemma_find_pat_bounds(s, from, close_mark());
    match find_pat(s, from, close_mark()) {
        None => {},
        Some(p) => {
            if !prefixed_close_at(s, p, tag) && p + 2 > from {
                lemma_prefixed_close_bounds(s, p + 2, tag);
            }
        },
    }
}

pub proof fn lemma_find_close_bounds(s: Seq<u8>, a: int, tag: Seq<u8>)
    ensures
        find_close(s, a, tag) matches Some(i) ==> a <= i < s.len(),
{
    lemma_find_pat_bounds(s, a, exact_close(tag));
    lemma_prefixed_close_bounds(s, a, tag);
}

/// The trimmed contents, from position `pos` on, of the elements named `tag`
/// (namespace prefix ignored). At each `<` the name is the first
/// white-space-separated word up to the next `>`, taken after its last `:`.
/// When it is `tag` and a closing tag is found, the content runs to that
/// closing tag and the scan goes on after the `>` that follows it; otherwise
/// the scan goes on after the `>` of the opening tag.
pub open spec fn tag_contents(s: Seq<u8>, pos: int, tag: Seq<u8>) -> Seq<(int, int)>
    decreases s.len() - pos,
{
    if pos < 0 || pos >= s.len() {
        seq![]
    } else {
        match find_byte(s, pos, 0x3cu8) {
            None => seq![],
            Some(o) => match find_byte(s, o + 1, 0x3eu8) {
                None => seq![],
                Some(g) => {
                    proof {
                        lemma_find_byte_bounds(s, pos, 0x3cu8);
                        lemma_find_byte_bounds(s, o + 1, 0x3eu8);
                    }
                    let t0 = skip_ws(s, o + 1, g);
                    let t1 = next_ws(s, t0, g);
                    if s.subrange(local_start(s, t0, t1), t1) != tag {
                        tag_contents(s, g + 1, tag)
                    } else {
                        match find_close(s, g + 1, tag) {
                            None => tag_contents(s, g + 1, tag),
                            Some(c) => {
                                proof {
                                    lemma_find_close_bounds(s, g + 1, tag);
                                    lemma_find_byte_bounds(s, c + 1, 0x3eu8);
                                }
                                let next = match find_byte(s, c + 1, 0x3eu8) {
                                    Some(q) => q + 1,
                                    None => c + 1,
                                };
                                seq![trimmed(s, g + 1, c)] + tag_contents(s, next, tag)
                            },
                        }
                    }
                },
            },
        }
    }
}

pub(crate) fn find_byte_exec(s: &[u8], from: usize, c: u8) -> (r: Option<usize>)
    ensures
        same_pos(r, find_byte(s@, from as int, c)),
{
    let mut i = from;
    while i < s.len()
        invariant
            from <= i,
            find_byte(s@, from as int, c) == find_byte(s@, i as int, c),
        decreases s@.len() - i,
    {
        if s[i] == c {
            return Some(i);
        }
        i += 1;
    }
    None
}

pub(crate) fn find_pat_exec(s: &[u8], from: usize, pat: &[u8]) -> (r: Option<usize>)
    ensures
        same_pos(r, find_pat(s@, from as int, pat@)),
{
    let mut i = from;
    while i < s.len()
        invariant
            from <= i,
            find_pat(s@, from as int, pat@) == find_pat(s@, i as int, pat@),
        decreases s@.len() - i,
    {
        if pat.len() > s.len() - i {
            return None;
        }
        if range_eq(s, i, i + pat.len(), pat) {
            return Some(i);
        }
        i += 1;
    }
    None
}

fn ws_width_at_exec(s: &[u8], i: usize, hi: usize) -> (r: usize)
    requires
        i < hi <= s@.len(),
    ensures
        r == ws_width_at(s@, i as int, hi as int),
{
    let a = s[i];
    if (0x09u8 <= a && a <= 0x0du8) || a == 0x20u8 {
        return 1;
    }
    if hi - i >= 2 {
        let b = s[i + 1];
        if a == 0xc2u8 && (b == 0x85u8 || b == 0xa0u8) {
            return 2;
        }
    }
    if hi - i >= 3 {
        let b = s[i + 1];
        let c = s[i + 2];
        if (a == 0xe1u8 && b == 0x9au8 && c == 0x80u8) || (a == 0xe2u8 && b == 0x80u8 && ((0x80u8
            <= c && c <= 0x8au8) || c == 0xa8u8 || c == 0xa9u8 || c == 0xafu8)) || (a == 0xe2u8 && b
            == 0x81u8 && c == 0x9fu8) || (a == 0xe3u8 && b == 0x80u8 && c == 0x80u8) {
            return 3;
        }
    }
    0
}

fn ws_width_before_exec(s: &[u8], lo: usize, j: usize) -> (r: usize)
    requires
        lo < j <= s@.len(),
    ensures
        r == ws_width_before(s@, lo as int, j as int),
{
    let z = s[j - 1];
    if (0x09u8 <= z && z <= 0x0du8) || z == 0x20u8 {
        return 1;
    }
    if j - lo >= 2 {
        let y = s[j - 2];
        if y == 0xc2u8 && (z == 0x85u8 || z == 0xa0u8) {
            return 2;
        }
    }
    if j - lo >= 3 {
        let x = s[j - 3];
        let y = s[j - 2];
        if (x == 0xe1u8 && y == 0x9au8 && z == 0x80u8) || (x == 0xe2u8 && y == 0x80u8 && ((0x80u8
            <= z && z <= 0x8au8) || z == 0xa8u8 || z == 0xa9u8 || z == 0xafu8)) || (x == 0xe2u8 && y
            == 0x81u8 && z == 0x9fu8) || (x == 0xe3u8 && y == 0x80u8 && z == 0x80u8) {
            return 3;
        }
    }
    0
}

fn skip_ws_exec(s: &[u8], i: usize, hi: usize) -> (r: usize)
    requires
        i <= hi <= s@.len(),
    ensures
        r == skip_ws(s@, i as int, hi as int),
        i <= r <= hi,
{
    let mut k = i;
    while k < hi
        invariant
            i <= k <= hi <= s@.len(),
            skip_ws(s@, i as int, hi as int) == skip_ws(s@, k as int, hi as int),
        decreases hi - k,
    {
        let w = ws_width_at_exec(s, k, hi);
        if w == 0 {
            return k;
        }
        k += w;
    }
    k
}

fn next_ws_exec(s: &[u8], i: usize, hi: usize) -> (r: usize)
    requires
        i <= hi <= s@.len(),
    ensures
        r == next_ws(s@, i as int, hi as int),
        i <= r <= hi,
{
    let mut k = i;
    while k < hi
        invariant
            i <= k <= hi <= s@.len(),
            next_ws(s@, i as int, hi as int) == next_ws(s@, k as int, hi as int),
        decreases hi - k,
    {
        if ws_width_at_exec(s, k, hi) > 0 {
            return k;
        }
        k += 1;
    }
    k
}

fn trim_end_exec(s: &[u8], lo: usize, hi: usize) -> (r: usize)
    requires
        lo <= hi <= s@.len(),
    ensures
        r == trim_end(s@, lo as int, hi as int),
        lo <= r <= hi,
{
    let mut k = hi;
    while k > lo
        invariant
            lo <= k <= hi <= s@.len(),
            trim_end(s@, lo as int, hi as int) == trim_end(s@, lo as int, k as int),
        decreases k - lo,
    {
        let w = ws_width_before_exec(s, lo, k);
        if w == 0 {
            return k;
        }
        k -= w;
    }
    k
}

fn skip_alnum_exec(s: &[u8], k: usize) -> (r: usize)
    requires
        k <= s@.len(),
    ensures
        r == skip_alnum(s@, k as int),
        k <= r <= s@.len(),
{
    let mut j = k;
    while j < s.len()
        invariant
            k <= j <= s@.len(),
            skip_alnum(s@, k as int) == skip_alnum(s@, j as int),
        decreases s@.len() - j,
    {
        let c = s[j];
        if !((0x30u8 <= c && c <= 0x39u8) || (0x41u8 <= c && c <= 0x5au8) || (0x61u8 <= c && c
            <= 0x7au8)) {
            return j;
        }
        j += 1;
    }
    j
}

fn prefixed_close_at_exec(s: &[u8], p: usize, tag: &[u8]) -> (r: bool)
    requires
        p + 2 <= s@.len(),
    ensures
        r == prefixed_close_at(s@, p as int, tag@),
{
    let n = s.len();
    let k = skip_alnum_exec(s, p + 2);
    let k2 = if k < s.len() && s[k] == 0x3au8 {
        k + 1
    } else {
        k
    };
    if k2 >= s.len() || tag.len() >= s.len() - k2 {
        return false;
    }
    range_eq(s, k2, k2 + tag.len(), tag) && s[k2 + tag.len()] == 0x3eu8
}

fn prefixed_close_exec(s: &[u8], from: usize, tag: &[u8]) -> (r: Option<usize>)
    ensures
        same_pos(r, prefixed_close(s@, from as int, tag@)),
{
    let mark = vec![0x3cu8, 0x2fu8];
    let n = s.len();
    assert(mark@ == close_mark());
    let mut f = from;
    loop
        invariant
            from <= f,
            n == s@.len(),
            mark@ == close_mark(),
            prefixed_close(s@, from as int, tag@) == prefixed_close(s@, f as int, tag@),
        decreases s@.len() - f,
    {
        proof {
            lemma_find_pat_bounds(s@, f as int, close_mark());
        }
        match find_pat_exec(s, f, mark.as_slice()) {
            None => {
                return None;
            },
            Some(p) => {
                if prefixed_close_at_exec(s, p, tag) {
                    return Some(p);
                }
                f = p + 2;
            },
        }
    }
}

fn find_close_exec(s: &[u8], a: usize, tag: &[u8]) -> (r: Option<usize>)
    ensures
        same_pos(r, find_close(s@, a as int, tag@)),
{
    let mut exact: Vec<u8> = vec![0x3cu8, 0x2fu8];
    let mut k: usize = 0;
    while k < tag.len()
        invariant
            k <= tag@.len(),
            exact@ == close_mark() + tag@.take(k as int),
        decreases tag@.len() - k,
    {
        exact.push(tag[k]);
        k += 1;
        assert(exact@ =~= close_mark() + tag@.take(k as int));
    }
    exact.push(0x3eu8);
    assert(exact@ =~= exact_close(tag@));
    match find_pat_exec(s, a, exact.as_slice()) {
        Some(c) => Some(c),
        None => prefixed_close_exec(s, a, tag),
    }
}

/// The positions of the trimmed contents of every element named `tag` in
/// `xml` (namespace prefix ignored), in order.
fn extract_tag(xml: &[u8], tag: &[u8]) -> (r: Vec<(usize, usize)>)
    ensures
        ranges_view(r@) == tag_contents(xml@, 0, tag@),
        ranges_within(r@, xml@.len() as int),
{
    let mut out: Vec<(usize, usize)> = Vec::new();
    let mut pos: usize = 0;
    while pos < xml.len()
        invariant
            ranges_view(out@) + tag_contents(xml@, pos as int, tag@) == tag_contents(xml@, 0, tag@),
            ranges_within(out@, xml@.len() as int),
        decreases xml@.len() - pos,
    {
        proof {
            lemma_find_byte_bounds(xml@, pos as int, 0x3cu8);
        }
        let open = match find_byte_exec(xml, pos, 0x3cu8) {
            Some(o) => o,
            None => {
                assert(tag_contents(xml@, pos as int, tag@) == Seq::<(int, int)>::empty());
                assert(ranges_view(out@) =~= tag_contents(xml@, 0, tag@));
                return out;
            },
        };
        proof {
            lemma_find_byte_bounds(xml@, open + 1, 0x3eu8);
        }
        let gt = match find_byte_exec(xml, open + 1, 0x3eu8) {
            Some(g) => g,
            None => {
                assert(tag_contents(xml@, pos as int, tag@) == Seq::<(int, int)>::empty());
                assert(ranges_view(out@) =~= tag_contents(xml@, 0, tag@));
                return out;
            },
        };
        let t0 = skip_ws_exec(xml, open + 1, gt);
        let t1 = next_ws_exec(xml, t0, gt);
        let ls = local_start_exec(xml, t0, t1);
        proof {
            lemma_local_start_bounds(xml@, t0 as int, t1 as int);
        }
        if !range_eq(xml, ls, t1, tag) {
            pos = gt + 1;
            assert(ranges_within(out@, xml@.len() as int));
        } else {
            proof {
                lemma_find_close_bounds(xml@, gt + 1, tag@);
            }
            match find_close_exec(xml, gt + 1, tag) {
                None => {
                    pos = gt + 1;
                    assert(ranges_within(out@, xml@.len() as int));
                },
                Some(c) => {
                    let a = skip_ws_exec(xml, gt + 1, c);
                    let b = trim_end_exec(xml, a, c);
                    let ghost before = out@;
                    assert(c < xml@.len());
                    out.push((a, b));
                    assert(out@[before.len() as int] == (a, b));
                    proof {
                        lemma_find_byte_bounds(xml@, c + 1, 0x3eu8);
                    }
                    let next = match find_byte_exec(xml, c + 1, 0x3eu8) {
                        Some(q) => q + 1,
                        None => c + 1,
                    };
                    proof {
                        assert forall|k: int| 0 <= k < out@.len() implies #[trigger] out@[k].0 <= out@[k].1
                            && out@[k].1 <= xml@.len() by {
                            if k < before.len() {
                                assert(out@[k] == before[k]);
                            }
                        }
                        assert(ranges_within(out@, xml@.len() as int));
                        assert(ranges_view(out@) =~= ranges_view(before).push((a as int, b as int)));
                        assert(tag_contents(xml@, pos as int, tag@) == seq![(a as int, b as int)]
                            + tag_contents(xml@, next as int, tag@));
                        assert(ranges_view(out@) + tag_contents(xml@, next as int, tag@)
                            =~= ranges_view(before) + tag_contents(xml@, pos as int, tag@));
                    }
                    pos = next;
                    assert(ranges_within(out@, xml@.len() as int));
                },
            }
        }
    }
    assert(tag_contents(xml@, pos as int, tag@) == Seq::<(int, int)>::empty());
    assert(ranges_view(out@) =~= tag_contents(xml@, 0, tag@));
    out
}

// ---------------------------------------------------------------------------
// Sizes and entry names
// ---------------------------------------------------------------------------

pub open spec fn is_digit(c: u8) -> bool {
    0x30u8 <= c && c <= 0x39u8
}

/// The decimal value of a digit string.
pub open spec fn digits_value(s: Seq<u8>) -> int
    decreases s.len(),
{
    if s.len() == 0 {
        0
    } else {
        digits_value(s.drop_last()) * 10 + (s.last() - 0x30u8)
    }
}

/// The digits of a number as `u64`'s `from_str` reads them: an optional `+`
/// followed by at least one digit.
pub open spec fn number_digits(s: Seq<u8>) -> Seq<u8> {
    if s.len() > 0 && s[0] == 0x2bu8 {
        s.subrange(1, s.len() as int)
    } else {
        s
    }
}

/// A `u64` read in decimal: an optional `+`, then digits only, with a value
/// that fits.
pub open spec fn parse_u64(s: Seq<u8>) -> Option<u64> {
    let d = number_digits(s);
    if d.len() == 0 || !(forall|i: int| 0 <= i < d.len() ==> is_digit(#[trigger] d[i]))
        || digits_value(d) > u64::MAX {
        None
    } else {
        Some(digits_value(d) as u64)
    }
}

pub proof fn lemma_digits_value_grows(s: Seq<u8>, i: int)
    requires
        0 <= i <= s.len(),
        forall|k: int| 0 <= k < s.len() ==> is_digit(#[trigger] s[k]),
    ensures
        0 <= digits_value(s.take(i)) <= digits_value(s),
    decreases s.len() - i,
{
    if i < s.len() {
        lemma_digits_value_grows(s, i + 1);
        assert(s.take(i + 1).drop_last() =~= s.take(i));
        assert(s.take(i + 1).last() == s[i]);
        assert(digits_value(s.take(i)) >= 0) by {
            lemma_digits_value_nonneg(s.take(i));
        }
    } else {
        assert(s.take(i) =~= s);
        lemma_digits_value_nonneg(s);
    }
}

pub proof fn lemma_digits_value_nonneg(s: Seq<u8>)
    requires
        forall|k: int| 0 <= k < s.len() ==> is_digit(#[trigger] s[k]),
    ensures
        digits_value(s) >= 0,
    decreases s.len(),
{
    if s.len() > 0 {
        lemma_digits_value_nonneg(s.drop_last());
    }
}

/// Reads `s[lo..hi]` as a `u64` (see `parse_u64`).
fn parse_u64_exec(s: &[u8], lo: usize, hi: usize) -> (r: Option<u64>)
    requires
        lo <= hi <= s@.len(),
    ensures
        r == parse_u64(s@.subrange(lo as int, hi as int)),
{
    let ghost whole = s@.subrange(lo as int, hi as int);
    let start = if lo < hi && s[lo] == 0x2bu8 {
        lo + 1
    } else {
        lo
    };
    let ghost d = s@.subrange(start as int, hi as int);
    assert(number_digits(whole) =~= d);
    if start == hi {
        assert(number_digits(whole).len() == 0);
        return None;
    }
    let mut v: u64 = 0;
    let mut i = start;
    while i < hi
        invariant
            start <= i <= hi <= s@.len(),
            lo <= start,
            d == s@.subrange(start as int, hi as int),
            whole == s@.subrange(lo as int, hi as int),
            number_digits(whole) == d,
            forall|k: int| 0 <= k < i - start ==> is_digit(#[trigger] d[k]),
            v == digits_value(d.take(i - start)),
        decreases hi - i,
    {
        let c = s[i];
        assert(c == d[i - start]);
        if !(0x30u8 <= c && c <= 0x39u8) {
            assert(!is_digit(d[i - start]));
            assert(number_digits(whole).len() > 0);
            return None;
        }
        assert(d.take(i - start + 1).drop_last() =~= d.take(i - start));
        assert(d.take(i - start + 1).last() == c);
        let m = v.checked_mul(10);
        match m {
            None => {
                proof {
                    assert forall|k: int| 0 <= k < i - start + 1 implies is_digit(
                        #[trigger] d.take(i - start + 1)[k],
                    ) by {}
                    if forall|k: int| 0 <= k < d.len() ==> is_digit(#[trigger] d[k]) {
                        lemma_digits_value_grows(d, i - start + 1);
                    }
                }
                return None;
            },
            Some(m) => match m.checked_add((c - 0x30u8) as u64) {
                None => {
                    proof {
                        if forall|k: int| 0 <= k < d.len() ==> is_digit(#[trigger] d[k]) {
                            lemma_digits_value_grows(d, i - start + 1);
                        }
                    }
                    return None;
                },
                Some(nv) => {
                    v = nv;
                },
            },
        }
        i += 1;
    }
    assert(d.take(hi - start) =~= d);
    Some(v)
}

/// `propstat` as bytes.
pub open spec fn propstat_name() -> Seq<u8> {
    seq![0x70u8, 0x72u8, 0x6fu8, 0x70u8, 0x73u8, 0x74u8, 0x61u8, 0x74u8]
}

/// `status` as bytes.
pub open spec fn status_name() -> Seq<u8> {
    seq![0x73u8, 0x74u8, 0x61u8, 0x74u8, 0x75u8, 0x73u8]
}

/// `getcontentlength` as bytes.
pub open spec fn length_name() -> Seq<u8> {
    seq![
        0x67u8, 0x65u8, 0x74u8, 0x63u8, 0x6fu8, 0x6eu8, 0x74u8, 0x65u8, 0x6eu8, 0x74u8, 0x6cu8,
        0x65u8, 0x6eu8, 0x67u8, 0x74u8, 0x68u8,
    ]
}

/// `href` as bytes.
pub open spec fn href_name() -> Seq<u8> {
    seq![0x68u8, 0x72u8, 0x65u8, 0x66u8]
}

/// `</response>` as bytes.
pub open spec fn response_close() -> Seq<u8> {
    seq![0x3cu8, 0x2fu8, 0x72u8, 0x65u8, 0x73u8, 0x70u8, 0x6fu8, 0x6eu8, 0x73u8, 0x65u8, 0x3eu8]
}

/// `200` as bytes.
pub open spec fn ok_code() -> Seq<u8> {
    seq![0x32u8, 0x30u8, 0x30u8]
}

/// Some `status` element of the chunk contains `200`.
pub open spec fn status_ok(chunk: Seq<u8>) -> bool {
    exists|k: int|
        0 <= k < tag_contents(chunk, 0, status_name()).len() && #[trigger] find_pat(
            chunk.subrange(
                tag_contents(chunk, 0, status_name())[k].0,
                tag_contents(chunk, 0, status_name())[k].1,
            ),
            0,
            ok_code(),
        ) is Some
}

/// The size that a chunk's first `getcontentlength` element gives, if it reads as a `u64`.
pub open spec fn chunk_length(chunk: Seq<u8>) -> Option<u64> {
    let ls = tag_contents(chunk, 0, length_name());
    if ls.len() == 0 {
        None
    } else {
        let t = trimmed(chunk, ls[0].0, ls[0].1);
        parse_u64(chunk.subrange(t.0, t.1))
    }
}

/// Where the `propstat` chunk that opens at `st` ends: at the next `propstat`,
/// else at `</response>`, else at the end.
pub open spec fn propstat_end(b: Seq<u8>, st: int) -> int {
    match next_tag(b, st + 1, propstat_name()) {
        Some(e) => e,
        None => match find_pat(b, st, response_close()) {
            Some(e) => e,
            None => b.len() as int,
        },
    }
}

pub proof fn lemma_propstat_end_after(b: Seq<u8>, st: int)
    requires
        opens_tag_at(b, st, propstat_name()),
    ensures
        st < propstat_end(b, st) <= b.len(),
{
    lemma_next_tag_bounds(b, st + 1, propstat_name());
    lemma_find_pat_bounds(b, st, response_close());
    lemma_first_stop_bounds(b, st + 1);
    if find_pat(b, st, response_close()) == Some(st) {
        assert(b.subrange(st, st + 11)[1] == 0x2fu8);
        assert(b[st + 1] == 0x2fu8);
        assert(first_stop(b, st + 1) == st + 1);
        assert(b.subrange(st + 1, st + 1).len() == 0);
    }
}

/// The size given by the first `propstat` at or after `i` whose status
/// contains `200` and whose length reads as a number; 0 when there is none.
pub open spec fn content_length_from(b: Seq<u8>, i: int) -> u64
    decreases b.len() - i,
{
    if i < 0 || i >= b.len() {
        0
    } else {
        match next_tag(b, i, propstat_name()) {
            None => 0,
            Some(st) => {
                proof {
                    lemma_next_tag_bounds(b, i, propstat_name());
                    lemma_propstat_end_after(b, st);
                }
                let en = propstat_end(b, st);
                let chunk = b.subrange(st, en);
                if status_ok(chunk) && chunk_length(chunk) is Some {
                    chunk_length(chunk)->Some_0
                } else {
                    content_length_from(b, en)
                }
            },
        }
    }
}

/// Whether some `status` element of `chunk` contains `200`.
fn chunk_status_ok(chunk: &[u8]) -> (r: bool)
    ensures
        r == status_ok(chunk@),
{
    let status = vec![0x73u8, 0x74u8, 0x61u8, 0x74u8, 0x75u8, 0x73u8];
    assert(status@ == status_name());
    let code = vec![0x32u8, 0x30u8, 0x30u8];
    assert(code@ == ok_code());
    let found = extract_tag(chunk, status.as_slice());
    let ghost tc = tag_contents(chunk@, 0, status_name());
    let mut k: usize = 0;
    while k < found.len()
        invariant
            k <= found@.len(),
            ranges_view(found@) == tc,
            ranges_within(found@, chunk@.len() as int),
            code@ == ok_code(),
            tc == tag_contents(chunk@, 0, status_name()),
            forall|q: int|
                0 <= q < k ==> #[trigger] find_pat(chunk@.subrange(tc[q].0, tc[q].1), 0, ok_code()) is None,
        decreases found@.len() - k,
    {
        let (lo, hi) = found[k];
        assert(tc[k as int] == (lo as int, hi as int));
        assert(found@[k as int].0 <= found@[k as int].1 && found@[k as int].1 <= chunk@.len());
        let part = &chunk[lo..hi];
        if find_pat_exec(part, 0, code.as_slice()).is_some() {
            return true;
        }
        k += 1;
    }
    false
}

/// The reported size of a `response` block: the `getcontentlength` of its
/// first `propstat` with a `200` status whose length reads as a number, else 0.
pub fn extract_content_length(block: &[u8]) -> (r: u64)
    ensures
        r == content_length_from(block@, 0),
{
    let propstat = vec![0x70u8, 0x72u8, 0x6fu8, 0x70u8, 0x73u8, 0x74u8, 0x61u8, 0x74u8];
    assert(propstat@ == propstat_name());
    let close = vec![0x3cu8, 0x2fu8, 0x72u8, 0x65u8, 0x73u8, 0x70u8, 0x6fu8, 0x6eu8, 0x73u8, 0x65u8, 0x3eu8];
    assert(close@ == response_close());
    let length = vec![
        0x67u8, 0x65u8, 0x74u8, 0x63u8, 0x6fu8, 0x6eu8, 0x74u8, 0x65u8, 0x6eu8, 0x74u8, 0x6cu8,
        0x65u8, 0x6eu8, 0x67u8, 0x74u8, 0x68u8,
    ];
    assert(length@ == length_name());
    let mut i: usize = 0;
    while i < block.len()
        invariant
            propstat@ == propstat_name(),
            close@ == response_close(),
            length@ == length_name(),
            content_length_from(block@, 0) == content_length_from(block@, i as int),
        decreases block@.len() - i,
    {
        proof {
            lemma_next_tag_bounds(block@, i as int, propstat_name());
        }
        let start = match find_tag_start(block, i, propstat.as_slice()) {
            Some(p) => p,
            None => {
                return 0;
            },
        };
        proof {
            lemma_next_tag_bounds(block@, start + 1, propstat_name());
            lemma_find_pat_bounds(block@, start as int, response_close());
            lemma_propstat_end_after(block@, start as int);
        }
        let end = match find_tag_start(block, start + 1, propstat.as_slice()) {
            Some(e) => e,
            None => match find_pat_exec(block, start, close.as_slice()) {
                Some(e) => e,
                None => block.len(),
            },
        };
        assert(end == propstat_end(block@, start as int));
        let chunk = &block[start..end];
        if chunk_status_ok(chunk) {
            let lens = extract_tag(chunk, length.as_slice());
            if lens.len() > 0 {
                let (lo, hi) = lens[0];
                assert(ranges_view(lens@)[0] == (lo as int, hi as int));
                assert(lens@[0].0 <= lens@[0].1 && lens@[0].1 <= chunk@.len());
                let a = skip_ws_exec(chunk, lo, hi);
                let b = trim_end_exec(chunk, a, hi);
                match parse_u64_exec(chunk, a, b) {
                    Some(v) => {
                        return v;
                    },
                    None => {},
                }
            }
        }
        i = end;
    }
    0
}

// ---------------------------------------------------------------------------
// Entry names
// ---------------------------------------------------------------------------

/// The value of a hexadecimal digit.
pub open spec fn hex_digit(c: u8) -> Option<u8> {
    if 0x30u8 <= c && c <= 0x39u8 {
        Some((c - 0x30u8) as u8)
    } else if 0x61u8 <= c && c <= 0x66u8 {
        Some((c - 0x61u8 + 10) as u8)
    } else if 0x41u8 <= c && c <= 0x46u8 {
        Some((c - 0x41u8 + 10) as u8)
    } else {
        None
    }
}

/// The value of a hexadecimal digit, upper or lower case.
fn hex_val(c: u8) -> (r: Option<u8>)
    ensures
        r == hex_digit(c),
        r matches Some(v) ==> v < 16,
{
    if 0x30u8 <= c && c <= 0x39u8 {
        Some(c - 0x30u8)
    } else if 0x61u8 <= c && c <= 0x66u8 {
        Some(c - 0x61u8 + 10)
    } else if 0x41u8 <= c && c <= 0x46u8 {
        Some(c - 0x41u8 + 10)
    } else {
        None
    }
}

/// `s[i..]` with each `%` that two hexadecimal digits follow replaced by the
/// byte they spell.
pub open spec fn percent_decode(s: Seq<u8>, i: int) -> Seq<u8>
    decreases s.len() - i,
{
    if i < 0 || i >= s.len() {
        seq![]
    } else if s[i] == 0x25u8 && i + 2 < s.len() && hex_digit(s[i + 1]) is Some && hex_digit(
        s[i + 2],
    ) is Some {
        seq![(hex_digit(s[i + 1])->Some_0 * 16 + hex_digit(s[i + 2])->Some_0) as u8] + percent_decode(
            s,
            i + 3,
        )
    } else {
        seq![s[i]] + percent_decode(s, i + 1)
    }
}

/// Replaces each `%XX` escape by its byte.
fn decode_href_bytes(bytes: &[u8]) -> (r: Vec<u8>)
    ensures
        r@ == percent_decode(bytes@, 0),
{
    let mut out: Vec<u8> = Vec::new();
    let mut i: usize = 0;
    while i < bytes.len()
        invariant
            i <= bytes@.len(),
            out@ + percent_decode(bytes@, i as int) == percent_decode(bytes@, 0),
        decreases bytes@.len() - i,
    {
        let ghost before = out@;
        if bytes[i] == 0x25u8 && bytes.len() - i > 2 {
            match (hex_val(bytes[i + 1]), hex_val(bytes[i + 2])) {
                (Some(h), Some(l)) => {
                    out.push(h * 16 + l);
                    assert(out@ + percent_decode(bytes@, i + 3) =~= before + percent_decode(bytes@, i as int));
                    i += 3;
                    continue;
                },
                _ => {},
            }
        }
        out.push(bytes[i]);
        assert(out@ + percent_decode(bytes@, i + 1) =~= before + percent_decode(bytes@, i as int));
        i += 1;
    }
    assert(out@ =~= percent_decode(bytes@, 0));
    out
}

/// Names what `String::from_utf8_lossy` makes of a byte string.
pub uninterp spec fn utf8_lossy(bytes: Seq<u8>) -> Seq<char>;

/// The text of a byte string read leniently: the text it encodes when it is
/// UTF-8, otherwise what `String::from_utf8_lossy` makes of it.
pub open spec fn lossy_decoded(bytes: Seq<u8>) -> Seq<char> {
    if valid_utf8(bytes) {
        decode_utf8(bytes)
    } else {
        utf8_lossy(bytes)
    }
}

/// std's `String::from_utf8_lossy`, taken as an owned `String`. Claimed: the
/// text is the named value of the bytes, and, as the documentation says, on
/// valid UTF-8 it is exactly the text those bytes encode.
#[verifier::external_body]
fn lossy_text(bytes: &[u8]) -> (r: String)
    ensures
        r@ == utf8_lossy(bytes@),
        valid_utf8(bytes@) ==> r@ == decode_utf8(bytes@),
{
    String::from_utf8_lossy(bytes).to_string()
}

/// The text an href stands for: its `%XX` escapes decoded, and byte
/// sequences that are then not UTF-8 read as U+FFFD.
pub open spec fn decoded_name(href: Seq<char>) -> Seq<char> {
    lossy_decoded(percent_decode(encode_utf8(href), 0))
}

/// Decodes the `%XX` escapes of an href (such as `%E4%B8%AD` or `%20`); byte
/// sequences that are then not UTF-8 become U+FFFD.
pub fn decode_href(href: &str) -> (r: String)
    ensures
        r@ == decoded_name(href@),
{
    let out = decode_href_bytes(href.as_bytes());
    lossy_text(out.as_slice())
}

/// Without any `%` in it, an href decodes to itself.
pub proof fn lemma_decode_href_plain(bytes: Seq<u8>, i: int)
    requires
        0 <= i <= bytes.len(),
        forall|k: int| 0 <= k < bytes.len() ==> bytes[k] != 0x25u8,
    ensures
        percent_decode(bytes, i) == bytes.subrange(i, bytes.len() as int),
    decreases bytes.len() - i,
{
    if i < bytes.len() {
        lemma_decode_href_plain(bytes, i + 1);
        assert(seq![bytes[i]] + bytes.subrange(i + 1, bytes.len() as int) =~= bytes.subrange(
            i,
            bytes.len() as int,
        ));
    } else {
        assert(bytes.subrange(i, bytes.len() as int) =~= Seq::<u8>::empty());
    }
}

/// A text without `%` decodes to itself.
pub proof fn lemma_decoded_name_plain(href: Seq<char>)
    requires
        !encode_utf8(href).contains(0x25u8),
    ensures
        decoded_name(href) == href,
{
    let b = encode_utf8(href);
    assert forall|k: int| 0 <= k < b.len() implies b[k] != 0x25u8 by {
        if b[k] == 0x25u8 {
            assert(b.contains(0x25u8));
        }
    }
    lemma_decode_href_plain(b, 0);
    assert(b.subrange(0, b.len() as int) =~= b);
    encode_utf8_valid_utf8(href);
    encode_utf8_decode_utf8(href);
}

/// `enc` writes each byte of `bytes` as `%` and its two hexadecimal digits
/// (in either case).
pub open spec fn escapes(enc: Seq<u8>, bytes: Seq<u8>) -> bool {
    &&& enc.len() == 3 * bytes.len()
    &&& forall|k: int|
        0 <= k < bytes.len() ==> {
            &&& #[trigger] enc[3 * k] == 0x25u8
            &&& hex_digit(enc[3 * k + 1]) == Some((bytes[k] / 16) as u8)
            &&& hex_digit(enc[3 * k + 2]) == Some((bytes[k] % 16) as u8)
        }
}

proof fn lemma_escapes_decode(enc: Seq<u8>, bytes: Seq<u8>, k: int)
    requires
        escapes(enc, bytes),
        0 <= k <= bytes.len(),
    ensures
        percent_decode(enc, 3 * k) == bytes.subrange(k, bytes.len() as int),
    decreases bytes.len() - k,
{
    if k < bytes.len() {
        lemma_escapes_decode(enc, bytes, k + 1);
        assert(enc[3 * k] == 0x25u8);
        let h = hex_digit(enc[3 * k + 1])->Some_0;
        let l = hex_digit(enc[3 * k + 2])->Some_0;
        assert((h * 16 + l) as u8 == bytes[k]);
        assert(3 * k + 3 == 3 * (k + 1));
        assert(seq![bytes[k]] + bytes.subrange(k + 1, bytes.len() as int) =~= bytes.subrange(
            k,
            bytes.len() as int,
        ));
    } else {
        assert(bytes.subrange(k, bytes.len() as int) =~= Seq::<u8>::empty());
    }
}

/// An href that writes every byte of a text's UTF-8 as a `%` escape decodes
/// to that text.
pub proof fn lemma_decoded_name_escaped(href: Seq<char>, text: Seq<char>)
    requires
        escapes(encode_utf8(href), encode_utf8(text)),
    ensures
        decoded_name(href) == text,
{
    let b = encode_utf8(text);
    lemma_escapes_decode(encode_utf8(href), b, 0);
    assert(b.subrange(0, b.len() as int) =~= b);
    encode_utf8_valid_utf8(text);
    encode_utf8_decode_utf8(text);
}

/// Where the last path segment of `d` starts: just after its last `/`, or at 0.
pub open spec fn segment_start(d: Seq<char>) -> int
    decreases d.len(),
{
    if d.len() == 0 {
        0
    } else if d.last() == '/' {
        d.len() as int
    } else {
        segment_start(d.drop_last())
    }
}

pub proof fn lemma_segment_start_bounds(d: Seq<char>)
    ensures
        0 <= segment_start(d) <= d.len(),
        forall|k: int| segment_start(d) <= k < d.len() ==> d[k] != '/',
    decreases d.len(),
{
    if d.len() > 0 && d.last() != '/' {
        lemma_segment_start_bounds(d.drop_last());
        assert forall|k: int| segment_start(d) <= k < d.len() implies d[k] != '/' by {
            if k < d.len() - 1 {
                assert(d.drop_last()[k] == d[k]);
            }
        }
    }
}

/// The first non-empty range of `r` at or after `i`.
pub open spec fn first_nonempty(r: Seq<(int, int)>, i: int) -> Option<(int, int)>
    decreases r.len() - i,
{
    if i < 0 || i >= r.len() {
        None
    } else if r[i].0 < r[i].1 {
        Some(r[i])
    } else {
        first_nonempty(r, i + 1)
    }
}

/// Where the head of a `response` block ends: at its first `propstat`, or at its end.
pub open spec fn head_end(blk: Seq<u8>) -> int {
    match next_tag(blk, 0, propstat_name()) {
        Some(p) => p,
        None => blk.len() as int,
    }
}

/// The href of a `response` block: the first non-empty `href` before its
/// first `propstat` (the empty hrefs inside a `propstat` are not its name).
pub open spec fn response_href(blk: Seq<u8>) -> Option<(int, int)> {
    first_nonempty(tag_contents(blk.subrange(0, head_end(blk)), 0, href_name()), 0)
}

/// The position of the href of a `response` block.
fn extract_response_href(block: &[u8]) -> (r: Option<(usize, usize)>)
    ensures
        match r {
            Some(p) => response_href(block@) == Some((p.0 as int, p.1 as int)) && p.0 < p.1
                <= head_end(block@) <= block@.len(),
            None => response_href(block@) is None,
        },
{
    let propstat = vec![0x70u8, 0x72u8, 0x6fu8, 0x70u8, 0x73u8, 0x74u8, 0x61u8, 0x74u8];
    assert(propstat@ == propstat_name());
    let href = vec![0x68u8, 0x72u8, 0x65u8, 0x66u8];
    assert(href@ == href_name());
    proof {
        lemma_next_tag_bounds(block@, 0, propstat_name());
    }
    let head_len = match find_tag_start(block, 0, propstat.as_slice()) {
        Some(p) => p,
        None => block.len(),
    };
    let head = &block[0..head_len];
    let found = extract_tag(head, href.as_slice());
    let ghost tc = tag_contents(head@, 0, href_name());
    let mut k: usize = 0;
    while k < found.len()
        invariant
            k <= found@.len(),
            ranges_view(found@) == tc,
            ranges_within(found@, head@.len() as int),
            head@.len() == head_end(block@),
            head_end(block@) <= block@.len(),
            tc == tag_contents(block@.subrange(0, head_end(block@)), 0, href_name()),
            first_nonempty(tc, 0) == first_nonempty(tc, k as int),
        decreases found@.len() - k,
    {
        let (lo, hi) = found[k];
        assert(tc[k as int] == (lo as int, hi as int));
        assert(found@[k as int].0 <= found@[k as int].1 && found@[k as int].1 <= head@.len());
        if lo < hi {
            return Some((lo, hi));
        }
        k += 1;
    }
    None
}

/// The file entry of one `response` block: its name is the last path segment
/// of its decoded href; blocks without an href, with an empty last segment
/// (the directory itself) or named `.` or `..` give none. The entry carries
/// the reported size and whether a local file has that name.
pub open spec fn remote_entry(blk: Seq<u8>, local: Seq<Seq<char>>) -> Option<(Seq<char>, u64, bool)> {
    match response_href(blk) {
        None => None,
        Some(h) => {
            let d = lossy_decoded(percent_decode(blk.subrange(h.0, h.1), 0));
            let name = d.subrange(segment_start(d), d.len() as int);
            if name.len() == 0 || name == seq!['.'] || name == seq!['.', '.'] {
                None
            } else {
                Some((name, content_length_from(blk, 0), local.contains(name)))
            }
        },
    }
}

/// The file entries of the first `j` blocks.
pub open spec fn propfind_entries(
    b: Seq<u8>,
    blocks: Seq<(int, int)>,
    local: Seq<Seq<char>>,
    j: int,
) -> Seq<(Seq<char>, u64, bool)>
    decreases j,
{
    if j <= 0 {
        seq![]
    } else {
        let prev = propfind_entries(b, blocks, local, j - 1);
        match remote_entry(b.subrange(blocks[j - 1].0, blocks[j - 1].1), local) {
            Some(e) => prev.push(e),
            None => prev,
        }
    }
}

/// Every entry read from a listing is marked as present locally exactly when
/// its own file name is among the local names.
pub proof fn lemma_entries_mark_local_names(
    b: Seq<u8>,
    blocks: Seq<(int, int)>,
    local: Seq<Seq<char>>,
    j: int,
)
    ensures
        forall|k: int|
            0 <= k < propfind_entries(b, blocks, local, j).len() ==> (#[trigger] propfind_entries(
                b,
                blocks,
                local,
                j,
            )[k]).2 == local.contains(propfind_entries(b, blocks, local, j)[k].0),
    decreases j,
{
    if j > 0 {
        lemma_entries_mark_local_names(b, blocks, local, j - 1);
        let prev = propfind_entries(b, blocks, local, j - 1);
        match remote_entry(b.subrange(blocks[j - 1].0, blocks[j - 1].1), local) {
            Some(e) => {
                assert forall|k: int| 0 <= k < prev.push(e).len() implies (#[trigger] prev.push(e)[k]).2
                    == local.contains(prev.push(e)[k].0) by {
                    if k < prev.len() {
                        assert(prev.push(e)[k] == prev[k]);
                    }
                }
            },
            None => {},
        }
    }
}

/// The entries of a listing as plain values: name, size, and whether a local
/// file has that name.
pub open spec fn remote_view(r: Seq<RemoteAttachment>) -> Seq<(Seq<char>, u64, bool)> {
    r.map_values(|a: RemoteAttachment| (a.filename@, a.size, a.exists_local))
}

/// The texts of a sequence of strings.
pub open spec fn names_view(names: Seq<String>) -> Seq<Seq<char>> {
    names.map_values(|n: String| n@)
}

/// Whether one of `names` equals `name`.
pub(crate) fn has_name(names: &[String], name: &String) -> (r: bool)
    ensures
        r == names_view(names@).contains(name@),
{
    let mut k: usize = 0;
    while k < names.len()
        invariant
            k <= names@.len(),
            forall|q: int| 0 <= q < k ==> names@[q]@ != name@,
        decreases names@.len() - k,
    {
        if names[k] == *name {
            assert(names_view(names@)[k as int] == name@);
            return true;
        }
        k += 1;
    }
    proof {
        if names_view(names@).contains(name@) {
            let w = choose|w: int| 0 <= w < names@.len() && #[trigger] names_view(names@)[w] == name@;
            assert(names@[w]@ == name@);
        }
    }
    false
}

/// The file entry of one `response` block, if it names a file.
fn entry_of_block(block: &[u8], local_names: &[String]) -> (r: Option<RemoteAttachment>)
    ensures
        match r {
            Some(a) => remote_entry(block@, names_view(local_names@)) == Some(
                (a.filename@, a.size, a.exists_local),
            ),
            None => remote_entry(block@, names_view(local_names@)) is None,
        },
{
    let (lo, hi) = match extract_response_href(block) {
        Some(h) => h,
        None => {
            return None;
        },
    };
    let raw = &block[lo..hi];
    let bytes = decode_href_bytes(raw);
    let decoded = lossy_text(bytes.as_slice());
    let ghost d = decoded@;
    let dstr = decoded.as_str();
    let n = dstr.unicode_len();
    let mut j = n;
    let mut stop = false;
    assert(d.take(n as int) =~= d);
    while j > 0 && !stop
        invariant
            j <= n,
            n == d.len(),
            dstr@ == d,
            segment_start(d) == segment_start(d.take(j as int)),
            stop ==> j > 0 && d[j - 1] == '/',
        decreases j, (if stop { 0int } else { 1int }),
    {
        assert(d.take(j as int).drop_last() =~= d.take(j - 1));
        if dstr.get_char(j - 1) == '/' {
            stop = true;
        } else {
            j -= 1;
        }
    }
    proof {
        if j == 0 {
            assert(segment_start(d.take(0)) == 0);
        } else {
            assert(d.take(j as int).last() == d[j - 1]);
        }
    }
    let name_str = dstr.substring_char(j, n);
    let name = String::from_str(name_str);
    let nl = name_str.unicode_len();
    if nl == 0 {
        return None;
    }
    if nl == 1 && name_str.get_char(0) == '.' {
        assert(name@ =~= seq!['.']);
        return None;
    }
    if nl == 2 && name_str.get_char(0) == '.' && name_str.get_char(1) == '.' {
        assert(name@ =~= seq!['.', '.']);
        return None;
    }
    proof {
        if name@ == seq!['.'] {
            assert(name@[0] == '.');
        }
        if name@ == seq!['.', '.'] {
            assert(name@[0] == '.' && name@[1] == '.');
        }
    }
    let size = extract_content_length(block);
    let exists_local = has_name(local_names, &name);
    Some(RemoteAttachment { filename: name, size, exists_local })
}

/// Reads a PROPFIND multistatus reply: one entry per `response` block that
/// names a file (see `remote_entry`), in order, each with its reported size and
/// whether `local_names` already holds its name. The directory itself, which
/// the reply lists with a name ending in `/`, gives no entry.
pub fn parse_propfind(body: &str, local_names: &[String]) -> (r: Vec<RemoteAttachment>)
    ensures
        remote_view(r@) == propfind_entries(
            encode_utf8(body@),
            response_blocks(encode_utf8(body@), 0),
            names_view(local_names@),
            response_blocks(encode_utf8(body@), 0).len() as int,
        ),
        forall|k: int|
            0 <= k < r@.len() ==> (#[trigger] r@[k]).exists_local == names_view(local_names@).contains(
                r@[k].filename@,
            ),
{
    let b = body.as_bytes();
    let blocks = split_responses(b);
    let ghost bl = response_blocks(b@, 0);
    let mut results: Vec<RemoteAttachment> = Vec::new();
    let mut j: usize = 0;
    while j < blocks.len()
        invariant
            j <= blocks@.len(),
            b@ == encode_utf8(body@),
            ranges_view(blocks@) == bl,
            forall|k: int| 0 <= k < blocks@.len() ==> #[trigger] blocks@[k].0 < blocks@[k].1 <= b@.len(),
            remote_view(results@) == propfind_entries(b@, bl, names_view(local_names@), j as int),
        decreases blocks@.len() - j,
    {
        let (st, nx) = blocks[j];
        assert(bl[j as int] == (st as int, nx as int));
        assert(blocks@[j as int].0 < blocks@[j as int].1 <= b@.len());
        let block = &b[st..nx];
        let ghost before = results@;
        match entry_of_block(block, local_names) {
            Some(a) => {
                results.push(a);
                assert(remote_view(results@) =~= remote_view(before).push(
                    (a.filename@, a.size, a.exists_local),
                ));
            },
            None => {},
        }
        j += 1;
    }
    proof {
        lemma_entries_mark_local_names(b@, bl, names_view(local_names@), j as int);
        assert forall|k: int| 0 <= k < results@.len() implies (#[trigger] results@[k]).exists_local
            == names_view(local_names@).contains(results@[k].filename@) by {
            assert(remote_view(results@)[k] == (results@[k].filename@, results@[k].size, results@[k].exists_local));
        }
    }
    results
}

// ---------------------------------------------------------------------------
// Algorithm, passwords and payloads
// ---------------------------------------------------------------------------

/// The configured algorithm, `aes256-gcm` when none is set.
pub open spec fn enc_alg_name(cfg: WebdavConfig) -> Seq<char> {
    if cfg.enc_algorithm@.len() == 0 {
        aes_gcm_name()
    } else {
        cfg.enc_algorithm@
    }
}

/// With no algorithm configured (older configurations), payloads use
/// `aes256-gcm`; otherwise the configured name.
pub proof fn lemma_configured_algorithm(cfg: WebdavConfig)
    ensures
        cfg.enc_algorithm@.len() == 0 ==> enc_alg_name(cfg) == "aes256-gcm"@,
        cfg.enc_algorithm@.len() > 0 ==> enc_alg_name(cfg) == cfg.enc_algorithm@,
{
    crate::crypto::lemma_algorithm_names();
}

/// Whether the data is encrypted before it leaves: encryption is on and a
/// password is set.
pub open spec fn encrypts(cfg: WebdavConfig) -> bool {
    cfg.encrypt && cfg.enc_pass@.len() > 0
}

/// Encrypting with password `pw` and the configured algorithm can derive its key.
pub open spec fn upload_key_fits(cfg: WebdavConfig, pw: Seq<char>) -> bool {
    encrypt_key_fits(encode_utf8(pw), enc_alg_name(cfg))
}

/// Decrypting the payload bytes `body` with password `pw` and the configured
/// algorithm can derive its key, where `body` is text (else it is not
/// decrypted).
pub open spec fn download_key_fits(cfg: WebdavConfig, pw: Seq<char>, body: Seq<u8>) -> bool {
    valid_utf8(body) ==> decrypt_key_fits(body, encode_utf8(pw), enc_alg_name(cfg))
}

/// The algorithm to encrypt with: the configured one, or `aes256-gcm` when
/// none is set (older configurations have none).
pub fn enc_alg(cfg: &WebdavConfig) -> (r: &str)
    ensures
        r@ == enc_alg_name(*cfg),
        cfg.enc_algorithm@.len() == 0 ==> r@ == "aes256-gcm"@,
{
    proof {
        lemma_configured_algorithm(*cfg);
    }
    if cfg.enc_algorithm.as_str().is_empty() {
        default_algorithm()
    } else {
        cfg.enc_algorithm.as_str()
    }
}

/// The password that protects the settings: the settings password when set,
/// else the data password when set, else none.
pub fn settings_pass(cfg: &WebdavConfig) -> (r: Option<String>)
    ensures
        r matches Some(p) ==> p@ == (if cfg.settings_pass@.len() > 0 {
            cfg.settings_pass@
        } else {
            cfg.enc_pass@
        }) && p@.len() > 0,
        r is None <==> cfg.settings_pass@.len() == 0 && cfg.enc_pass@.len() == 0,
{
    if !cfg.settings_pass.as_str().is_empty() {
        Some(cfg.settings_pass.clone())
    } else if !cfg.enc_pass.as_str().is_empty() {
        Some(cfg.enc_pass.clone())
    } else {
        None
    }
}

/// `prefix` followed by `tail`.
fn prefixed(prefix: &str, tail: &str) -> (r: String)
    ensures
        r@ == prefix@ + tail@,
{
    let mut s = String::from_str(prefix);
    s.append(tail);
    s
}

/// `p` is an encrypted payload of `data`: the UTF-8 bytes of what `encrypt`
/// makes with password `pw` and algorithm `alg` for some nonce and salt, and
/// it decrypts back to `data`.
pub open spec fn sealed_payload(p: Seq<u8>, data: Seq<u8>, pw: Seq<char>, alg: Seq<char>) -> bool {
    &&& exists|nonce: Seq<u8>, salt: Seq<u8>|
        nonce.len() == 12 && salt.len() == 16 && p == encode_utf8(
            #[trigger] sealed_text(data, encode_utf8(pw), chosen_algorithm(alg), nonce, salt),
        )
    &&& forall|other: Seq<char>| #[trigger]
        decrypt_text(p, encode_utf8(pw), other) == Ok::<Seq<u8>, Seq<char>>(data)
}

/// Encrypts `data` into payload bytes, prefixing an error with `label`.
fn seal_payload(data: &[u8], pass: &String, alg: &str, label: &str) -> (r: Result<Vec<u8>, String>)
    requires
        encrypt_key_fits(encode_utf8(pass@), alg@),
    ensures
        match r {
            Ok(p) => sealed_payload(p@, data@, pass@, alg@),
            Err(e) => !seal_fits(chosen_algorithm(alg@), data@.len() as int) && e@ == label@
                + "aead::Error"@,
        },
{
    match encrypt(data, pass.as_str(), alg) {
        Ok(s) => {
            let p = text_bytes(s.as_str());
            proof {
                let pw = encode_utf8(pass@);
                let ca = chosen_algorithm(alg@);
                let (nonce, salt) = choose|nonce: Seq<u8>, salt: Seq<u8>|
                    nonce.len() == 12 && salt.len() == 16 && s@ == #[trigger] sealed_text(
                        data@,
                        pw,
                        ca,
                        nonce,
                        salt,
                    );
                assert(p@ == encode_utf8(sealed_text(data@, pw, ca, nonce, salt)));
            }
            Ok(p)
        },
        Err(e) => Err(prefixed(label, e.as_str())),
    }
}

/// Decrypts payload bytes that must be UTF-8 text; a text error is prefixed with `label`.
fn open_payload(body: Vec<u8>, pass: &String, alg: &str, label: &str) -> (r: Result<Vec<u8>, String>)
    requires
        valid_utf8(body@) ==> decrypt_key_fits(body@, encode_utf8(pass@), alg@),
    ensures
        bytes_result(r) == (if valid_utf8(body@) {
            decrypt_text(body@, encode_utf8(pass@), alg@)
        } else {
            Err(label@ + utf8_error_text(body@))
        }),
{
    let ghost b = body@;
    match string_from_utf8(body) {
        Ok(text) => {
            proof {
                decode_utf8_encode_utf8(b);
            }
            decrypt(text.as_str(), pass.as_str(), alg)
        },
        Err(e) => Err(prefixed(label, e.as_str())),
    }
}

/// The backup as it is uploaded: encrypted when `encrypts(cfg)`, as it is otherwise.
pub open spec fn upload_ok(cfg: WebdavConfig, data: Seq<u8>, p: Seq<u8>) -> bool {
    if encrypts(cfg) {
        sealed_payload(p, data, cfg.enc_pass@, enc_alg_name(cfg))
    } else {
        p == data
    }
}

/// What reading back an uploaded backup gives.
pub open spec fn download_result(cfg: WebdavConfig, body: Seq<u8>) -> Result<Seq<u8>, Seq<char>> {
    if encrypts(cfg) {
        if valid_utf8(body) {
            decrypt_text(body, encode_utf8(cfg.enc_pass@), enc_alg_name(cfg))
        } else {
            Err("解码失败: "@ + utf8_error_text(body))
        }
    } else {
        Ok(body)
    }
}

/// The bytes that go up as the backup: `data` encrypted with the data password
/// and the configured algorithm when `encrypts(cfg)`, `data` itself otherwise.
pub fn sync_upload_payload(cfg: &WebdavConfig, data: &[u8]) -> (r: Result<Vec<u8>, String>)
    requires
        encrypts(*cfg) ==> upload_key_fits(*cfg, cfg.enc_pass@),
    ensures
        match r {
            Ok(p) => upload_ok(*cfg, data@, p@),
            Err(e) => encrypts(*cfg) && !seal_fits(chosen_algorithm(enc_alg_name(*cfg)), data@.len() as int)
                && e@ == "加密失败: "@ + "aead::Error"@,
        },
{
    if cfg.encrypt && !cfg.enc_pass.as_str().is_empty() {
        seal_payload(data, &cfg.enc_pass, enc_alg(cfg), "加密失败: ")
    } else {
        let mut v: Vec<u8> = Vec::new();
        crate::crypto::push_all(&mut v, data);
        assert(v@ =~= data@);
        Ok(v)
    }
}

/// The backup bytes that a download yields: decrypted when `encrypts(cfg)`
/// (the body must then be UTF-8 text), as they came otherwise.
pub fn sync_download_payload(cfg: &WebdavConfig, body: Vec<u8>) -> (r: Result<Vec<u8>, String>)
    requires
        encrypts(*cfg) ==> download_key_fits(*cfg, cfg.enc_pass@, body@),
    ensures
        bytes_result(r) == download_result(*cfg, body@),
{
    if cfg.encrypt && !cfg.enc_pass.as_str().is_empty() {
        open_payload(body, &cfg.enc_pass, enc_alg(cfg), "解码失败: ")
    } else {
        Ok(body)
    }
}

/// What the upload sends, the download gives back.
pub proof fn lemma_sync_payload_roundtrip(cfg: WebdavConfig, data: Seq<u8>, p: Seq<u8>)
    requires
        upload_ok(cfg, data, p),
    ensures
        download_result(cfg, p) == Ok::<Seq<u8>, Seq<char>>(data),
{
    if encrypts(cfg) {
        let pw = encode_utf8(cfg.enc_pass@);
        let ca = chosen_algorithm(enc_alg_name(cfg));
        let (nonce, salt) = choose|nonce: Seq<u8>, salt: Seq<u8>|
            nonce.len() == 12 && salt.len() == 16 && p == encode_utf8(
                #[trigger] sealed_text(data, pw, ca, nonce, salt),
            );
        encode_utf8_valid_utf8(sealed_text(data, pw, ca, nonce, salt));
        assert(decrypt_text(p, pw, enc_alg_name(cfg)) == Ok::<Seq<u8>, Seq<char>>(data));
    }
}

/// With no algorithm configured, an encrypted backup goes up under the
/// header `DT1:aes256-gcm:`.
pub proof fn lemma_default_upload_header(cfg: WebdavConfig, data: Seq<u8>, p: Seq<u8>)
    requires
        upload_ok(cfg, data, p),
        encrypts(cfg),
        cfg.enc_algorithm@.len() == 0,
    ensures
        p.take(encode_utf8("DT1:aes256-gcm:"@).len() as int) == encode_utf8("DT1:aes256-gcm:"@),
{
    reveal_strlit("DT1:aes256-gcm:");
    lemma_configured_algorithm(cfg);
    crate::crypto::lemma_algorithm_names();
    let pw = encode_utf8(cfg.enc_pass@);
    let ca = chosen_algorithm(enc_alg_name(cfg));
    assert(ca == aes_gcm_name());
    let (nonce, salt) = choose|nonce: Seq<u8>, salt: Seq<u8>|
        nonce.len() == 12 && salt.len() == 16 && p == encode_utf8(
            #[trigger] sealed_text(data, pw, ca, nonce, salt),
        );
    let head = header_chars() + ca + seq![':'];
    let tail = crate::crypto::base64_standard_encode(
        nonce + salt + crate::crypto::sealed_ct(data, pw, ca, nonce, salt),
    );
    assert(sealed_text(data, pw, ca, nonce, salt) == head + tail);
    assert(head =~= "DT1:aes256-gcm:"@);
    crate::crypto::lemma_encode_concat(head, tail);
    assert(p =~= encode_utf8(head) + encode_utf8(tail));
    assert(p.take(encode_utf8(head).len() as int) =~= encode_utf8(head));
}

/// With no algorithm configured, a downloaded backup without the `DT1:`
/// header is read as `aes256-gcm`.
pub proof fn lemma_default_download_algorithm(cfg: WebdavConfig, body: Seq<u8>)
    requires
        encrypts(cfg),
        cfg.enc_algorithm@.len() == 0,
        valid_utf8(body),
    ensures
        download_result(cfg, body) == decrypt_text(body, encode_utf8(cfg.enc_pass@), "aes256-gcm"@),
{
    lemma_configured_algorithm(cfg);
}

/// The password that protects the settings (see `settings_pass`).
pub open spec fn settings_password(cfg: WebdavConfig) -> Seq<char> {
    if cfg.settings_pass@.len() > 0 {
        cfg.settings_pass@
    } else {
        cfg.enc_pass@
    }
}

pub open spec fn no_settings_password_to_upload() -> Seq<char> {
    "未设置加密密码，设置无法加密存储，请填写「设置加密密码」或「加密密码」"@
}

pub open spec fn no_settings_password_to_download() -> Seq<char> {
    "未设置加密密码，无法解密云端设置"@
}

/// `p` is an uploaded settings payload for the settings JSON `json`: the
/// gzip stream of `json`, encrypted with the settings password.
pub open spec fn settings_upload_ok(cfg: WebdavConfig, json: Seq<u8>, p: Seq<u8>) -> bool {
    &&& settings_password(cfg).len() > 0
    &&& gzip_compress_best(json) matches Ok(c) && sealed_payload(
        p,
        c,
        settings_password(cfg),
        enc_alg_name(cfg),
    ) && (valid_utf8(json) ==> gunzip_text(c) == Ok::<Seq<char>, Seq<char>>(decode_utf8(json)))
}

/// What the settings JSON read back from a downloaded settings payload is.
pub open spec fn settings_download_result(cfg: WebdavConfig, body: Seq<u8>) -> Result<
    Seq<char>,
    Seq<char>,
> {
    if settings_password(cfg).len() == 0 {
        Err(no_settings_password_to_download())
    } else if !valid_utf8(body) {
        Err("设置解码失败: "@ + utf8_error_text(body))
    } else {
        match decrypt_text(body, encode_utf8(settings_password(cfg)), enc_alg_name(cfg)) {
            Err(e) => Err(e),
            Ok(d) => gunzip_text(d),
        }
    }
}

pub open spec fn text_result(r: Result<String, String>) -> Result<Seq<char>, Seq<char>> {
    match r {
        Ok(v) => Ok(v@),
        Err(e) => Err(e@),
    }
}

/// The settings payload that goes up: the settings JSON `json` gzipped, then
/// encrypted with the settings password (see `settings_pass`). Without any
/// password the settings are not uploaded.
pub fn settings_upload_payload(cfg: &WebdavConfig, json: &[u8]) -> (r: Result<Vec<u8>, String>)
    requires
        settings_password(*cfg).len() > 0 ==> upload_key_fits(*cfg, settings_password(*cfg)),
    ensures
        match r {
            Ok(p) => settings_upload_ok(*cfg, json@, p@),
            Err(e) => if settings_password(*cfg).len() == 0 {
                e@ == no_settings_password_to_upload()
            } else {
                gzip_compress_best(json@) == Err::<Seq<u8>, Seq<char>>(e@) || (gzip_compress_best(
                    json@,
                ) matches Ok(c) && !seal_fits(chosen_algorithm(enc_alg_name(*cfg)), c.len() as int)
                    && e@ == "设置加密失败: "@ + "aead::Error"@)
            },
        },
{
    let pass = match settings_pass(cfg) {
        Some(p) => p,
        None => {
            return Err(String::from_str("未设置加密密码，设置无法加密存储，请填写「设置加密密码」或「加密密码」"));
        },
    };
    let compressed = match gzip_best(json) {
        Ok(c) => c,
        Err(e) => {
            return Err(e);
        },
    };
    seal_payload(compressed.as_slice(), &pass, enc_alg(cfg), "设置加密失败: ")
}

/// The settings JSON text in a downloaded settings payload: decrypted with the
/// settings password, then gunzipped.
pub fn settings_download_json(cfg: &WebdavConfig, body: Vec<u8>) -> (r: Result<String, String>)
    requires
        settings_password(*cfg).len() > 0 ==> download_key_fits(*cfg, settings_password(*cfg), body@),
    ensures
        text_result(r) == settings_download_result(*cfg, body@),
{
    let pass = match settings_pass(cfg) {
        Some(p) => p,
        None => {
            return Err(String::from_str("未设置加密密码，无法解密云端设置"));
        },
    };
    let ghost b = body@;
    let decrypted = match open_payload(body, &pass, enc_alg(cfg), "设置解码失败: ") {
        Ok(d) => d,
        Err(e) => {
            return Err(e);
        },
    };
    gunzip_to_string(decrypted.as_slice())
}

/// Settings uploaded as UTF-8 JSON are read back as that JSON text.
pub proof fn lemma_settings_payload_roundtrip(cfg: WebdavConfig, json: Seq<u8>, p: Seq<u8>)
    requires
        settings_upload_ok(cfg, json, p),
        valid_utf8(json),
    ensures
        settings_download_result(cfg, p) == Ok::<Seq<char>, Seq<char>>(decode_utf8(json)),
{
    let c = gzip_compress_best(json)->Ok_0;
    let pw = encode_utf8(settings_password(cfg));
    let ca = chosen_algorithm(enc_alg_name(cfg));
    let (nonce, salt) = choose|nonce: Seq<u8>, salt: Seq<u8>|
        nonce.len() == 12 && salt.len() == 16 && p == encode_utf8(
            #[trigger] sealed_text(c, pw, ca, nonce, salt),
        );
    encode_utf8_valid_utf8(sealed_text(c, pw, ca, nonce, salt));
    assert(decrypt_text(p, pw, enc_alg_name(cfg)) == Ok::<Seq<u8>, Seq<char>>(c));
}

/// The backup that do_sync uploads: the data JSON gzipped, then prepared as
/// `sync_upload_payload` prepares it.
pub open spec fn backup_upload_ok(cfg: WebdavConfig, json: Seq<u8>, p: Seq<u8>) -> bool {
    gzip_compress_best(json) matches Ok(c) && upload_ok(cfg, c, p) && (valid_utf8(json)
        ==> gunzip_text(c) == Ok::<Seq<char>, Seq<char>>(decode_utf8(json)))
}

/// The backup payload for the data JSON `json`: gzipped, then encrypted when
/// `encrypts(cfg)`.
pub fn backup_payload(cfg: &WebdavConfig, json: &[u8]) -> (r: Result<Vec<u8>, String>)
    requires
        encrypts(*cfg) ==> upload_key_fits(*cfg, cfg.enc_pass@),
    ensures
        match r {
            Ok(p) => backup_upload_ok(*cfg, json@, p@),
            Err(e) => gzip_compress_best(json@) == Err::<Seq<u8>, Seq<char>>(e@) || (gzip_compress_best(
                json@,
            ) matches Ok(c) && encrypts(*cfg) && !seal_fits(
                chosen_algorithm(enc_alg_name(*cfg)),
                c.len() as int,
            ) && e@ == "加密失败: "@ + "aead::Error"@),
        },
{
    let compressed = match gzip_best(json) {
        Ok(c) => c,
        Err(e) => {
            return Err(e);
        },
    };
    sync_upload_payload(cfg, compressed.as_slice())
}

/// What the data JSON read back by a pull from a downloaded backup `raw` is:
/// decrypted when `encrypts(cfg)` (a UTF-8 error passed on as its bare text),
/// then gunzipped.
pub open spec fn pulled_json(cfg: WebdavConfig, raw: Seq<u8>) -> Result<Seq<char>, Seq<char>> {
    let opened = if encrypts(cfg) {
        if valid_utf8(raw) {
            decrypt_text(raw, encode_utf8(cfg.enc_pass@), enc_alg_name(cfg))
        } else {
            Err(""@ + utf8_error_text(raw))
        }
    } else {
        Ok(raw)
    };
    match opened {
        Err(e) => Err(e),
        Ok(d) => gunzip_text(d),
    }
}

/// The data JSON text in a backup downloaded by a pull.
pub fn pulled_backup_json(cfg: &WebdavConfig, raw: Vec<u8>) -> (r: Result<String, String>)
    requires
        encrypts(*cfg) ==> download_key_fits(*cfg, cfg.enc_pass@, raw@),
    ensures
        text_result(r) == pulled_json(*cfg, raw@),
{
    let decrypted = if cfg.encrypt && !cfg.enc_pass.as_str().is_empty() {
        match open_payload(raw, &cfg.enc_pass, enc_alg(cfg), "") {
            Ok(d) => d,
            Err(e) => {
                return Err(e);
            },
        }
    } else {
        raw
    };
    gunzip_to_string(decrypted.as_slice())
}

/// What the data JSON read back by a merging sync from a downloaded backup is:
/// `download_result`, then gunzipped.
pub open spec fn merged_json(cfg: WebdavConfig, raw: Seq<u8>) -> Result<Seq<char>, Seq<char>> {
    match download_result(cfg, raw) {
        Err(e) => Err(e),
        Ok(d) => gunzip_text(d),
    }
}

/// A backup uploaded by a sync reads back, by a pull and by a merging sync
/// alike, as the data JSON that went up.
pub proof fn lemma_backup_roundtrip(cfg: WebdavConfig, json: Seq<u8>, p: Seq<u8>)
    requires
        backup_upload_ok(cfg, json, p),
        valid_utf8(json),
    ensures
        pulled_json(cfg, p) == Ok::<Seq<char>, Seq<char>>(decode_utf8(json)),
        merged_json(cfg, p) == Ok::<Seq<char>, Seq<char>>(decode_utf8(json)),
{
    let c = gzip_compress_best(json)->Ok_0;
    lemma_sync_payload_roundtrip(cfg, c, p);
    if encrypts(cfg) {
        let pw = encode_utf8(cfg.enc_pass@);
        let ca = chosen_algorithm(enc_alg_name(cfg));
        let (nonce, salt) = choose|nonce: Seq<u8>, salt: Seq<u8>|
            nonce.len() == 12 && salt.len() == 16 && p == encode_utf8(
                #[trigger] sealed_text(c, pw, ca, nonce, salt),
            );
        encode_utf8_valid_utf8(sealed_text(c, pw, ca, nonce, salt));
    }
}

pub open spec fn plain_upload_refused() -> Seq<char> {
    "附件上传需要启用加密并设置加密密码（或在设置中开启「允许明文上传附件」）"@
}

pub open spec fn plain_download_refused() -> Seq<char> {
    "附件下载需要启用加密并设置加密密码（或在设置中开启「允许明文下载附件」）"@
}

/// The bytes of an attachment as they go up: encrypted when `encrypts(cfg)`;
/// otherwise as they are, and only when plain attachments are allowed.
pub fn attachment_upload_payload(cfg: &WebdavConfig, bytes: &[u8]) -> (r: Result<Vec<u8>, String>)
    requires
        encrypts(*cfg) ==> upload_key_fits(*cfg, cfg.enc_pass@),
    ensures
        match r {
            Ok(p) => if encrypts(*cfg) {
                sealed_payload(p@, bytes@, cfg.enc_pass@, enc_alg_name(*cfg))
            } else {
                cfg.allow_unencrypted_attachment && p@ == bytes@
            },
            Err(e) => if encrypts(*cfg) {
                !seal_fits(chosen_algorithm(enc_alg_name(*cfg)), bytes@.len() as int) && e@
                    == "附件加密失败: "@ + "aead::Error"@
            } else {
                !cfg.allow_unencrypted_attachment && e@ == plain_upload_refused()
            },
        },
{
    let encrypted = cfg.encrypt && !cfg.enc_pass.as_str().is_empty();
    if !encrypted && !cfg.allow_unencrypted_attachment {
        return Err(String::from_str("附件上传需要启用加密并设置加密密码（或在设置中开启「允许明文上传附件」）"));
    }
    if encrypted {
        seal_payload(bytes, &cfg.enc_pass, enc_alg(cfg), "附件加密失败: ")
    } else {
        let mut v: Vec<u8> = Vec::new();
        crate::crypto::push_all(&mut v, bytes);
        assert(v@ =~= bytes@);
        Ok(v)
    }
}

/// Whether attachments may be downloaded: they are encrypted, or plain ones are allowed.
pub fn attachment_download_allowed(cfg: &WebdavConfig) -> (r: Result<(), String>)
    ensures
        r is Ok <==> encrypts(*cfg) || cfg.allow_unencrypted_attachment,
        r matches Err(e) ==> e@ == plain_download_refused(),
{
    if !(cfg.encrypt && !cfg.enc_pass.as_str().is_empty()) && !cfg.allow_unencrypted_attachment {
        return Err(String::from_str("附件下载需要启用加密并设置加密密码（或在设置中开启「允许明文下载附件」）"));
    }
    Ok(())
}

/// What the bytes of a downloaded encrypted attachment decrypt to.
pub open spec fn attachment_plaintext_result(cfg: WebdavConfig, body: Seq<u8>) -> Result<
    Seq<u8>,
    Seq<char>,
> {
    if valid_utf8(body) {
        decrypt_text(body, encode_utf8(cfg.enc_pass@), enc_alg_name(cfg))
    } else {
        Err(""@ + utf8_error_text(body))
    }
}

/// Decrypts the bytes of a downloaded encrypted attachment.
pub fn attachment_plaintext(cfg: &WebdavConfig, body: Vec<u8>) -> (r: Result<Vec<u8>, String>)
    requires
        download_key_fits(*cfg, cfg.enc_pass@, body@),
    ensures
        bytes_result(r) == attachment_plaintext_result(*cfg, body@),
{
    open_payload(body, &cfg.enc_pass, enc_alg(cfg), "")
}

/// An encrypted attachment downloads back to the bytes that went up.
pub proof fn lemma_attachment_roundtrip(cfg: WebdavConfig, bytes: Seq<u8>, p: Seq<u8>)
    requires
        sealed_payload(p, bytes, cfg.enc_pass@, enc_alg_name(cfg)),
    ensures
        attachment_plaintext_result(cfg, p) == Ok::<Seq<u8>, Seq<char>>(bytes),
{
    let pw = encode_utf8(cfg.enc_pass@);
    let ca = chosen_algorithm(enc_alg_name(cfg));
    let (nonce, salt) = choose|nonce: Seq<u8>, salt: Seq<u8>|
        nonce.len() == 12 && salt.len() == 16 && p == encode_utf8(
            #[trigger] sealed_text(bytes, pw, ca, nonce, salt),
        );
    encode_utf8_valid_utf8(sealed_text(bytes, pw, ca, nonce, salt));
}

// ---------------------------------------------------------------------------
// Remote locations
// ---------------------------------------------------------------------------

/// `s` without the `c`s at its end.
pub open spec fn trim_end_char(s: Seq<char>, c: char) -> Seq<char>
    decreases s.len(),
{
    if s.len() > 0 && s.last() == c {
        trim_end_char(s.drop_last(), c)
    } else {
        s
    }
}

/// `s` without the `c`s at its start.
pub open spec fn trim_start_char(s: Seq<char>, c: char) -> Seq<char>
    decreases s.len(),
{
    if s.len() > 0 && s[0] == c {
        trim_start_char(s.drop_first(), c)
    } else {
        s
    }
}

/// The remote location `rel` inside the sync directory:
/// `<url without trailing slashes>/<path without outer slashes>/<rel>`.
pub open spec fn remote_location(cfg: WebdavConfig, rel: Seq<char>) -> Seq<char> {
    trim_end_char(cfg.url@, '/') + seq!['/'] + trim_end_char(trim_start_char(cfg.path@, '/'), '/')
        + seq!['/'] + rel
}

/// `s` without the `c`s at its start and end.
fn trim_char(s: &str, c: char, start: bool, end: bool) -> (r: String)
    ensures
        r@ == (if end {
            trim_end_char(if start { trim_start_char(s@, c) } else { s@ }, c)
        } else if start {
            trim_start_char(s@, c)
        } else {
            s@
        }),
{
    let n = s.unicode_len();
    let mut lo: usize = 0;
    assert(s@.subrange(0, n as int) =~= s@);
    if start {
        while lo < n && s.get_char(lo) == c
            invariant
                lo <= n == s@.len(),
                trim_start_char(s@, c) == trim_start_char(s@.subrange(lo as int, n as int), c),
            decreases n - lo,
        {
            assert(s@.subrange(lo as int, n as int).drop_first() =~= s@.subrange(lo + 1, n as int));
            lo += 1;
        }
    }
    proof {
        if start {
            assert(s@.subrange(lo as int, n as int).len() == 0 || s@.subrange(lo as int, n as int)[0]
                != c);
        }
        assert(s@.subrange(0, n as int) =~= s@);
    }
    let ghost mid = s@.subrange(lo as int, n as int);
    assert(start ==> mid == trim_start_char(s@, c));
    let mut hi: usize = n;
    if end {
        while hi > lo && s.get_char(hi - 1) == c
            invariant
                lo <= hi <= n == s@.len(),
                mid == s@.subrange(lo as int, n as int),
                trim_end_char(mid, c) == trim_end_char(s@.subrange(lo as int, hi as int), c),
            decreases hi - lo,
        {
            assert(s@.subrange(lo as int, hi as int).drop_last() =~= s@.subrange(lo as int, hi - 1));
            hi -= 1;
        }
    }
    String::from_str(s.substring_char(lo, hi))
}

/// The remote location `rel` inside the sync directory (see `remote_location`).
pub fn remote_url(cfg: &WebdavConfig, rel: &str) -> (r: String)
    ensures
        r@ == remote_location(*cfg, rel@),
{
    let base = trim_char(cfg.url.as_str(), '/', false, true);
    let path = trim_char(cfg.path.as_str(), '/', true, true);
    let mut out = base;
    out.append("/");
    out.append(path.as_str());
    out.append("/");
    out.append(rel);
    proof {
        reveal_strlit("/");
        assert(out@ =~= remote_location(*cfg, rel@));
    }
    out
}


// ---------------------------------------------------------------------------
// Server replies
// ---------------------------------------------------------------------------

/// A 2xx HTTP status (207 Multi-Status among them), as reqwest's
/// `StatusCode::is_success` tells it.
pub open spec fn is_success_status(status: u16) -> bool {
    200 <= status <= 299
}

/// Whether `status` is a success; see `is_success_status`.
pub fn status_is_success(status: u16) -> (r: bool)
    ensures
        r == is_success_status(status),
{
    200 <= status && status <= 299
}

/// Whether a MKCOL reply leaves the directory in place: created (201), or
/// refused because it exists (405).
pub fn dir_ready(status: u16) -> (r: bool)
    ensures
        r == (status == 201 || status == 405),
{
    status == 201 || status == 405
}

/// What a step of the connection test found.
pub enum Probe {
    /// The step succeeded.
    Reachable,
    /// The step failed for the reason given.
    Refused(String),
    /// The step failed; the reason is in the reply's body.
    Failed,
}

/// The answer to the PROPFIND on the server root: 401 means wrong
/// credentials, any other status outside 2xx a failure.
pub fn root_probe(status: u16) -> (r: Probe)
    ensures
        status == 401 ==> (r matches Probe::Refused(m) && m@ == "401 未授权：账号或密码错误。注意 WebDAV 密码通常是服务商提供的「专用应用密码/授权码」，不是登录密码"@),
        status != 401 && is_success_status(status) ==> r is Reachable,
        status != 401 && !is_success_status(status) ==> r is Failed,
{
    if status == 401 {
        Probe::Refused(String::from_str(
            "401 未授权：账号或密码错误。注意 WebDAV 密码通常是服务商提供的「专用应用密码/授权码」，不是登录密码",
        ))
    } else if status_is_success(status) {
        Probe::Reachable
    } else {
        Probe::Failed
    }
}

/// The answer to the MKCOL on the sync directory: created or present is
/// fine, 401 means no rights on it, anything else a failure.
pub fn mkcol_probe(status: u16) -> (r: Probe)
    ensures
        status == 201 || status == 405 ==> r is Reachable,
        status == 401 ==> (r matches Probe::Refused(m) && m@ == "根目录可访问，但同步子路径无权限（401）。请确认同步路径正确，且账号对该目录有写入权限"@),
        status != 201 && status != 405 && status != 401 ==> r is Failed,
{
    if dir_ready(status) {
        Probe::Reachable
    } else if status == 401 {
        Probe::Refused(String::from_str(
            "根目录可访问，但同步子路径无权限（401）。请确认同步路径正确，且账号对该目录有写入权限",
        ))
    } else {
        Probe::Failed
    }
}

/// The message of a failed root probe: the status as the server gave it and
/// the reply's body.
pub fn root_failure(status_text: &str, body: &str) -> (r: String)
    ensures
        r@ == "服务器返回 "@ + status_text@ + ": "@ + body@,
{
    let mut out = String::from_str("服务器返回 ");
    out.append(status_text);
    out.append(": ");
    out.append(body);
    out
}

/// The message of a failed MKCOL on the sync directory.
pub fn mkcol_failure(status: u16, body: &str) -> (r: String)
    ensures
        r@ == "连接成功，但无法创建同步目录 (HTTP "@ + decimal(status as nat) + ")："@ + body@,
{
    let mut out = String::from_str("连接成功，但无法创建同步目录 (HTTP ");
    let code = decimal_text(status as u64);
    out.append(code.as_str());
    out.append(")：");
    out.append(body);
    out
}

/// The message of a completed backup upload: whether it was encrypted, and
/// the sync directory.
pub fn upload_done_message(cfg: &WebdavConfig) -> (r: String)
    ensures
        r@ == "同步完成 · "@ + (if encrypts(*cfg) { "加密"@ } else { "未加密"@ }) + "上传至 /"@
            + trim_end_char(trim_start_char(cfg.path@, '/'), '/'),
{
    let mut out = String::from_str("同步完成 · ");
    if cfg.encrypt && !cfg.enc_pass.as_str().is_empty() {
        out.append("加密");
    } else {
        out.append("未加密");
    }
    out.append("上传至 /");
    let path = trim_char(cfg.path.as_str(), '/', true, true);
    out.append(path.as_str());
    out
}

/// The message of an uploaded attachment file, marked when it went up in the clear.
pub fn attachment_uploaded_message(cfg: &WebdavConfig, filename: &str) -> (r: String)
    ensures
        r@ == "附件 "@ + filename@ + " 已上传"@ + (if encrypts(*cfg) { seq![] } else { "（明文）"@ }),
{
    let mut out = String::from_str("附件 ");
    out.append(filename);
    out.append(" 已上传");
    if !(cfg.encrypt && !cfg.enc_pass.as_str().is_empty()) {
        out.append("（明文）");
    }
    proof {
        assert(out@ =~= "附件 "@ + filename@ + " 已上传"@ + (if encrypts(*cfg) { seq![] } else { "（明文）"@ }));
    }
    out
}

/// The server address without its trailing slashes, where the connection
/// test starts.
pub fn server_root(cfg: &WebdavConfig) -> (r: String)
    ensures
        r@ == trim_end_char(cfg.url@, '/'),
{
    trim_char(cfg.url.as_str(), '/', false, true)
}

/// Whether payloads are encrypted; see `encrypts`.
pub fn encrypts_payloads(cfg: &WebdavConfig) -> (r: bool)
    ensures
        r == encrypts(*cfg),
{
    cfg.encrypt && !cfg.enc_pass.as_str().is_empty()
}

/// Whether attachments may be uploaded: they are encrypted, or plain ones are allowed.
pub fn attachment_upload_allowed(cfg: &WebdavConfig) -> (r: Result<(), String>)
    ensures
        r is Ok <==> encrypts(*cfg) || cfg.allow_unencrypted_attachment,
        r matches Err(e) ==> e@ == plain_upload_refused(),
{
    if !encrypts_payloads(cfg) && !cfg.allow_unencrypted_attachment {
        return Err(String::from_str("附件上传需要启用加密并设置加密密码（或在设置中开启「允许明文上传附件」）"));
    }
    Ok(())
}

} // verus!
