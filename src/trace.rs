//! Masking of secrets in text bound for traces.

use vstd::prelude::*;
use vstd::utf8::{encode_scalar, encode_utf8};
use crate::text::{chars_of, slice_chars, string_of};

verus! {

/// The most bytes of masked text that a trace keeps.
pub const TRACE_TEXT_LIMIT: usize = 512;

/// Secret references: `op://` up to whitespace or a quote.
pub const OP_REFERENCE_PATTERN: &'static str = "op://[^\\s\"']+";

/// `key=value` pairs whose key names a secret, at the start or after a
/// separator; the key and `=` are group 1.
pub const SECRET_PAIR_PATTERN: &'static str = "(?i)((?:^|[?&\\s,;])(?:token|password|passwd|secret|apikey|api_key|access_key|client_secret)=)[^\\s&]+";

/// What `regex::Regex::replace_all` makes of `text` with `pattern` and
/// `replacement`; `text` itself where `pattern` is not a valid regex.
pub uninterp spec fn regex_replaced(
    pattern: Seq<char>,
    text: Seq<char>,
    replacement: Seq<char>,
) -> Seq<char>;

/// Relies on `regex::Regex::new` and `regex::Regex::replace_all`: every
/// match of `pattern` in `text` replaced, the result a function of the three
/// texts alone. Where the pattern does not compile the text is returned.
#[verifier::external_body]
fn replace_all_matches(pattern: &str, text: &str, replacement: &str) -> (r: String)
    ensures
        r@ == regex_replaced(pattern@, text@, replacement@),
{
    match regex::Regex::new(pattern) {
        Ok(re) => re.replace_all(text, replacement).into_owned(),
        Err(_) => text.to_owned(),
    }
}

/// The number of bytes of the UTF-8 encoding of `c`.
pub open spec fn utf8_width(c: char) -> int {
    encode_scalar(c as u32).len() as int
}

/// How many leading characters of `s` fit, encoded in UTF-8, in `budget`
/// bytes: the longest such prefix.
pub open spec fn fit_count(s: Seq<char>, budget: int) -> nat
    decreases s.len(),
{
    if s.len() == 0 || utf8_width(s[0]) > budget {
        0
    } else {
        1 + fit_count(s.drop_first(), budget - utf8_width(s[0]))
    }
}

/// `s` cut to the trace limit of 512 bytes, at a character boundary, with a
/// marker where something was cut.
pub open spec fn truncated(s: Seq<char>) -> Seq<char> {
    if encode_utf8(s).len() > TRACE_TEXT_LIMIT {
        s.subrange(0, fit_count(s, TRACE_TEXT_LIMIT as int) as int) + "...[truncated]"@
    } else {
        s
    }
}

proof fn lemma_fit_count(s: Seq<char>, budget: int)
    requires
        0 <= budget,
    ensures
        fit_count(s, budget) <= s.len(),
        fit_count(s, budget) < s.len() <==> encode_utf8(s).len() > budget,
    decreases s.len(),
{
    if s.len() > 0 {
        let w = utf8_width(s[0]);
        assert(encode_utf8(s).len() == w + encode_utf8(s.drop_first()).len());
        if w <= budget {
            lemma_fit_count(s.drop_first(), budget - w);
        }
    }
}

fn utf8_width_exec(c: char) -> (r: usize)
    ensures
        r as int == utf8_width(c),
        1 <= r <= 4,
{
    let u = c as u32;
    if u <= 0x7F {
        1
    } else if u <= 0x7FF {
        2
    } else if u <= 0xFFFF {
        3
    } else {
        4
    }
}

/// Keeps the longest leading part of `masked` whose UTF-8 encoding fits in
/// 512 bytes and marks the cut with `...[truncated]`; text of at most 512
/// bytes is returned as it is.
pub fn truncate_for_trace(masked: &str) -> (r: String)
    ensures
        r@ == truncated(masked@),
{
    let v = chars_of(masked);
    let ghost s = v@;
    let mut i: usize = 0;
    let mut used: usize = 0;
    let mut full = false;
    assert(s.subrange(0, s.len() as int) == s);
    while i < v.len() && !full
        invariant
            i <= s.len(),
            full ==> i < s.len() && fit_count(
                s.subrange(i as int, s.len() as int),
                TRACE_TEXT_LIMIT - used,
            ) == 0,
            s == v@,
            used <= TRACE_TEXT_LIMIT,
            fit_count(s, TRACE_TEXT_LIMIT as int) == i + fit_count(
                s.subrange(i as int, s.len() as int),
                TRACE_TEXT_LIMIT - used,
            ),
        decreases s.len() - i + if full {
            0int
        } else {
            1int
        },
    {
        let w = utf8_width_exec(v[i]);
        let ghost rest = s.subrange(i as int, s.len() as int);
        assert(rest[0] == s[i as int]);
        assert(rest.drop_first() == s.subrange(i + 1 as int, s.len() as int));
        if w > TRACE_TEXT_LIMIT - used {
            full = true;
        } else {
            used = used + w;
            i = i + 1;
        }
    }
    assert(i == s.len() ==> s.subrange(i as int, s.len() as int).len() == 0);
    proof {
        lemma_fit_count(s, TRACE_TEXT_LIMIT as int);
    }
    if i < v.len() {
        let mut out = slice_chars(&v, 0, i);
        let marker = chars_of("...[truncated]");
        crate::text::push_all(&mut out, &marker);
        string_of(&out)
    } else {
        string_of(&v)
    }
}

/// The text of a trace attribute: secret references become `op://***`, the
/// values of secret-named `key=value` pairs become `***`, and the result is
/// cut to 512 bytes at a character boundary.
pub open spec fn sanitized(input: Seq<char>) -> Seq<char> {
    truncated(
        regex_replaced(
            SECRET_PAIR_PATTERN@,
            regex_replaced(OP_REFERENCE_PATTERN@, input, "op://***"@),
            "$1***"@,
        ),
    )
}

/// Masks secret references and secret-named `key=value` values in `input`
/// and cuts the result to the trace limit.
pub fn sanitize_for_trace(input: &str) -> (r: String)
    ensures
        r@ == sanitized(input@),
{
    let masked_refs = replace_all_matches(OP_REFERENCE_PATTERN, input, "op://***");
    let masked = replace_all_matches(SECRET_PAIR_PATTERN, masked_refs.as_str(), "$1***");
    truncate_for_trace(masked.as_str())
}

} // verus!
