//! The AI endpoint settings: where the list of models is asked for.

use vstd::prelude::*;
use vstd::string::*;
use crate::webdav::trim_end_char;

verus! {

/// `s` without the copies of `pat` at its end, as `str::trim_end_matches`
/// removes them.
pub open spec fn trim_end_seq(s: Seq<char>, pat: Seq<char>) -> Seq<char>
    decreases s.len(),
{
    if pat.len() > 0 && s.len() >= pat.len() && s.subrange(s.len() - pat.len(), s.len() as int) == pat {
        trim_end_seq(s.subrange(0, s.len() - pat.len()), pat)
    } else {
        s
    }
}

/// Where the list of models of the endpoint `url` is: the address without its
/// trailing slashes, then without trailing `/v1`s, then without trailing
/// slashes again, followed by `/models`.
pub open spec fn models_location(url: Seq<char>) -> Seq<char> {
    trim_end_char(trim_end_seq(trim_end_char(url, '/'), "/v1"@), '/') + "/models"@
}

/// Strips the slashes at the end of `s[0..hi]`.
fn strip_slashes(s: &str, hi: usize) -> (r: usize)
    requires
        hi <= s@.len(),
    ensures
        r <= hi,
        trim_end_char(s@.subrange(0, hi as int), '/') == s@.subrange(0, r as int),
{
    let mut h = hi;
    while h > 0 && s.get_char(h - 1) == '/'
        invariant
            h <= hi <= s@.len(),
            trim_end_char(s@.subrange(0, hi as int), '/') == trim_end_char(s@.subrange(0, h as int), '/'),
        decreases h,
    {
        assert(s@.subrange(0, h as int).drop_last() =~= s@.subrange(0, h - 1));
        h -= 1;
    }
    h
}

/// The address of the list of models of the endpoint `url`; see `models_location`.
pub fn models_url(url: &str) -> (r: String)
    ensures
        r@ == models_location(url@),
{
    let n = url.unicode_len();
    assert(url@.subrange(0, n as int) =~= url@);
    let a = strip_slashes(url, n);
    let ghost pat = "/v1"@;
    proof {
        reveal_strlit("/v1");
    }
    let mut b = a;
    while b >= 3 && url.get_char(b - 3) == '/' && url.get_char(b - 2) == 'v' && url.get_char(b - 1) == '1'
        invariant
            b <= a <= url@.len(),
            pat == "/v1"@,
            pat.len() == 3,
            pat[0] == '/' && pat[1] == 'v' && pat[2] == '1',
            trim_end_seq(url@.subrange(0, a as int), pat) == trim_end_seq(url@.subrange(0, b as int), pat),
        decreases b,
    {
        let ghost t = url@.subrange(0, b as int);
        assert(t.subrange(t.len() - 3, t.len() as int) =~= pat);
        assert(t.subrange(0, t.len() - 3) =~= url@.subrange(0, b - 3));
        b -= 3;
    }
    proof {
        let t = url@.subrange(0, b as int);
        if t.len() >= 3 {
            assert(t.subrange(t.len() - 3, t.len() as int)[0] == url@[b - 3]);
            assert(t.subrange(t.len() - 3, t.len() as int)[1] == url@[b - 2]);
            assert(t.subrange(t.len() - 3, t.len() as int)[2] == url@[b - 1]);
        }
        assert(trim_end_seq(t, pat) == t);
    }
    let c = strip_slashes(url, b);
    let mut out = String::from_str(url.substring_char(0, c));
    out.append("/models");
    out
}

} // verus!
