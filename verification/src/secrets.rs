//! Secret redaction. Three detectors run in a fixed order over the evolving
//! text: a generic `key = "value"` detector for common secret-ish key names,
//! a detector for a well-known AI-provider key shape, and a detector for a
//! cloud-provider access-key-id shape. Each replaces what it matches with a
//! fixed placeholder; the placeholders are chosen so that no detector can
//! match a placeholder again.
#![allow(unused_imports)]
use vstd::prelude::*;
use crate::bytes::{extend_bytes, extend_slice, run_end, lemma_run_end};

verus! {

// ---------------------------------------------------------------- characters

/// ASCII whitespace accepted between a key, its separator and its value.
pub open spec fn is_ws(c: u8) -> bool {
    c == 32 || c == 9 || c == 10 || c == 13 || c == 11 || c == 12
}

/// A letter or digit.
pub open spec fn is_alnum(c: u8) -> bool {
    (97 <= c <= 122) || (65 <= c <= 90) || (48 <= c <= 57)
}

/// A character allowed in a generic secret value.
pub open spec fn is_value_char(c: u8) -> bool {
    is_alnum(c) || c == 95 || c == 45
}

/// An uppercase letter or digit, the alphabet of the cloud-provider key id.
pub open spec fn is_upper_digit(c: u8) -> bool {
    (65 <= c <= 90) || (48 <= c <= 57)
}

/// A single or double quote.
pub open spec fn is_quote(c: u8) -> bool {
    c == 34 || c == 39
}

/// The key/value separator.
pub open spec fn is_sep(c: u8) -> bool {
    c == 58 || c == 61
}

/// ASCII lowercasing, for the case-insensitive key names.
pub open spec fn lower(c: u8) -> u8 {
    if 65 <= c <= 90 {
        (c + 32) as u8
    } else {
        c
    }
}

pub fn is_ws_exec(c: u8) -> (r: bool)
    ensures
        r == is_ws(c),
{
    c == 32 || c == 9 || c == 10 || c == 13 || c == 11 || c == 12
}

pub fn is_alnum_exec(c: u8) -> (r: bool)
    ensures
        r == is_alnum(c),
{
    (97 <= c && c <= 122) || (65 <= c && c <= 90) || (48 <= c && c <= 57)
}

pub fn is_value_char_exec(c: u8) -> (r: bool)
    ensures
        r == is_value_char(c),
{
    is_alnum_exec(c) || c == 95 || c == 45
}

pub fn is_upper_digit_exec(c: u8) -> (r: bool)
    ensures
        r == is_upper_digit(c),
{
    (65 <= c && c <= 90) || (48 <= c && c <= 57)
}

pub fn is_quote_exec(c: u8) -> (r: bool)
    ensures
        r == is_quote(c),
{
    c == 34 || c == 39
}

pub fn is_sep_exec(c: u8) -> (r: bool)
    ensures
        r == is_sep(c),
{
    c == 58 || c == 61
}

pub fn lower_exec(c: u8) -> (r: u8)
    ensures
        r == lower(c),
{
    if 65 <= c && c <= 90 {
        c + 32
    } else {
        c
    }
}

/// The whitespace class as a value, shared by spec and proofs.
pub open spec fn ws_pred() -> spec_fn(u8) -> bool {
    |c: u8| is_ws(c)
}

/// The value-character class as a value.
pub open spec fn value_pred() -> spec_fn(u8) -> bool {
    |c: u8| is_value_char(c)
}

/// The letter-or-digit class as a value.
pub open spec fn alnum_pred() -> spec_fn(u8) -> bool {
    |c: u8| is_alnum(c)
}

// ------------------------------------------------------------------- matches

/// `w` occurs verbatim in `t` at position `p`.
pub open spec fn word_at(t: Seq<u8>, p: int, w: Seq<u8>) -> bool {
    0 <= p && p + w.len() <= t.len() && (forall|j: int| 0 <= j < w.len() ==> t[p + j] == w[j])
}

/// `w` occurs in `t` at position `p`, compared after ASCII lowercasing.
pub open spec fn word_at_ci(t: Seq<u8>, p: int, w: Seq<u8>) -> bool {
    0 <= p && p + w.len() <= t.len() && (forall|j: int|
        0 <= j < w.len() ==> lower(t[p + j]) == w[j])
}

// ------------------------------------------------------------------ keywords

/// The secret-ish key names the generic detector recognizes, each in its
/// plain and its underscored spelling, in the order they are tried.
pub open spec fn keywords() -> Seq<Seq<u8>> {
    seq![
        spec_kw_api_key(),
        spec_kw_apikey(),
        spec_kw_auth_token(),
        spec_kw_authtoken(),
        spec_kw_access_key(),
        spec_kw_accesskey(),
        spec_kw_secret(),
        spec_kw_password(),
    ]
}

pub open spec fn spec_kw_api_key() -> Seq<u8> {
    seq![97u8, 112, 105, 95, 107, 101, 121]
}

pub open spec fn spec_kw_apikey() -> Seq<u8> {
    seq![97u8, 112, 105, 107, 101, 121]
}

pub open spec fn spec_kw_auth_token() -> Seq<u8> {
    seq![97u8, 117, 116, 104, 95, 116, 111, 107, 101, 110]
}

pub open spec fn spec_kw_authtoken() -> Seq<u8> {
    seq![97u8, 117, 116, 104, 116, 111, 107, 101, 110]
}

pub open spec fn spec_kw_access_key() -> Seq<u8> {
    seq![97u8, 99, 99, 101, 115, 115, 95, 107, 101, 121]
}

pub open spec fn spec_kw_accesskey() -> Seq<u8> {
    seq![97u8, 99, 99, 101, 115, 115, 107, 101, 121]
}

pub open spec fn spec_kw_secret() -> Seq<u8> {
    seq![115u8, 101, 99, 114, 101, 116]
}

pub open spec fn spec_kw_password() -> Seq<u8> {
    seq![112u8, 97, 115, 115, 119, 111, 114, 100]
}

/// The first keyword, from index `ki` on, that occurs at `i`; its length.
pub open spec fn key_len_from(t: Seq<u8>, i: int, ki: int) -> Option<int>
    decreases 8 - ki,
{
    if ki < 0 || ki >= 8 {
        None
    } else if word_at_ci(t, i, keywords()[ki]) {
        Some(keywords()[ki].len() as int)
    } else {
        key_len_from(t, i, ki + 1)
    }
}

/// The length of the secret-ish key name occurring at `i`, if any.
pub open spec fn key_len_at(t: Seq<u8>, i: int) -> Option<int> {
    key_len_from(t, i, 0)
}

// ------------------------------------------------------- the three detectors

/// The generic detector at position `i`: a key name, optional whitespace, a
/// `:` or `=` separator, optional whitespace, a quote, a value of at least 8
/// value characters, and a closing quote. Yields the value's span and the
/// end of the whole match.
pub open spec fn generic_match_at(t: Seq<u8>, i: int) -> Option<(int, int, int)> {
    match key_len_at(t, i) {
        None => None,
        Some(kl) => {
            let p1 = run_end(t, i + kl, ws_pred());
            if !(p1 < t.len() && is_sep(t[p1])) {
                None
            } else {
                let p2 = run_end(t, p1 + 1, ws_pred());
                if !(p2 < t.len() && is_quote(t[p2])) {
                    None
                } else {
                    let vs = p2 + 1;
                    let ve = run_end(t, vs, value_pred());
                    if ve - vs >= 8 && ve < t.len() && is_quote(t[ve]) {
                        Some((vs, ve, ve + 1))
                    } else {
                        None
                    }
                }
            }
        },
    }
}

/// The AI-provider key shape at position `i`: `sk-`, then 20 or more
/// letters or digits, ending in the provider's fixed marker. Yields the end
/// of the whole match, which is the longest one the shape allows.
pub open spec fn openai_match_at(t: Seq<u8>, i: int) -> Option<int> {
    if word_at(t, i, spec_sk_prefix()) {
        let s = i + 3;
        let m = run_end(t, s, alnum_pred());
        openai_best_end(t, s, m - s - 8)
    } else {
        None
    }
}

pub open spec fn spec_sk_prefix() -> Seq<u8> {
    seq![115u8, 107, 45]
}

/// The provider marker that ends the AI key shape.
pub open spec fn spec_openai_marker() -> Seq<u8> {
    seq![84u8, 51, 66, 108, 98, 107, 70, 74]
}

/// Largest `k'` at most `k`, at least 20, with the marker at `s + k'`;
/// the match then ends just after the marker.
pub open spec fn openai_best_end(t: Seq<u8>, s: int, k: int) -> Option<int>
    decreases k,
{
    if k < 20 {
        None
    } else if word_at(t, s + k, spec_openai_marker()) {
        Some(s + k + 8)
    } else {
        openai_best_end(t, s, k - 1)
    }
}

/// The cloud-provider access-key-id shape at position `i`: the fixed `AKIA`
/// prefix followed by exactly 16 uppercase letters or digits.
pub open spec fn aws_match_at(t: Seq<u8>, i: int) -> bool {
    word_at(t, i, spec_akia_prefix()) && i + 20 <= t.len() && (forall|j: int|
        i + 4 <= j < i + 20 ==> is_upper_digit(t[j]))
}

pub open spec fn spec_akia_prefix() -> Seq<u8> {
    seq![65u8, 75, 73, 65]
}

// ------------------------------------------------------------------- bounds

/// A generic match lies inside the text, after its start, with a value of
/// at least 8 characters.
pub proof fn lemma_generic_match_bounds(t: Seq<u8>, i: int)
    requires
        0 <= i <= t.len(),
        generic_match_at(t, i) is Some,
    ensures
        ({
            let (vs, ve, e) = generic_match_at(t, i)->Some_0;
            &&& i + 6 < vs
            &&& vs + 8 <= ve
            &&& e == ve + 1
            &&& e <= t.len()
            &&& is_quote(t[vs - 1])
            &&& is_quote(t[ve])
            &&& forall|j: int| vs <= j < ve ==> is_value_char(t[j])
        }),
{
    let kl = key_len_at(t, i)->Some_0;
    lemma_key_len_bounds(t, i, 0);
    let p1 = run_end(t, i + kl, ws_pred());
    lemma_run_end(t, i + kl, ws_pred());
    let p2 = run_end(t, p1 + 1, ws_pred());
    lemma_run_end(t, p1 + 1, ws_pred());
    let vs = p2 + 1;
    lemma_run_end(t, vs, value_pred());
}

/// A keyword occurrence is 6 to 10 characters long and in bounds.
pub proof fn lemma_key_len_bounds(t: Seq<u8>, i: int, ki: int)
    requires
        0 <= i,
        key_len_from(t, i, ki) is Some,
    ensures
        ({
            let kl = key_len_from(t, i, ki)->Some_0;
            6 <= kl <= 10 && i + kl <= t.len()
        }),
    decreases 8 - ki,
{
    if 0 <= ki < 8 && word_at_ci(t, i, keywords()[ki]) {
    } else {
        lemma_key_len_bounds(t, i, ki + 1);
    }
}

/// An AI-provider match ends inside the text, at least 31 characters after
/// its start.
pub proof fn lemma_openai_match_bounds(t: Seq<u8>, i: int)
    requires
        0 <= i <= t.len(),
        openai_match_at(t, i) is Some,
    ensures
        ({
            let e = openai_match_at(t, i)->Some_0;
            i + 31 <= e <= t.len()
        }),
{
    let s = i + 3;
    let m = run_end(t, s, alnum_pred());
    lemma_run_end(t, s, alnum_pred());
    lemma_openai_best_end_bounds(t, s, m - s - 8);
}

pub proof fn lemma_openai_best_end_bounds(t: Seq<u8>, s: int, k: int)
    requires
        0 <= s,
        openai_best_end(t, s, k) is Some,
    ensures
        ({
            let e = openai_best_end(t, s, k)->Some_0;
            s + 28 <= e <= t.len() && e <= s + k + 8
        }),
    decreases k,
{
    if k >= 20 && !word_at(t, s + k, spec_openai_marker()) {
        lemma_openai_best_end_bounds(t, s, k - 1);
    }
}

// ----------------------------------------------------------------- placeholders

/// The generic redaction placeholder, `[REDACTED_SECRET]`.
pub open spec fn secret_label() -> Seq<u8> {
    seq![91u8, 82, 69, 68, 65, 67, 84, 69, 68, 95, 83, 69, 67, 82, 69, 84, 93]
}

/// The AI-provider redaction placeholder, `[REDACTED_OPENAI_KEY]`.
pub open spec fn openai_label() -> Seq<u8> {
    seq![91u8, 82, 69, 68, 65, 67, 84, 69, 68, 95, 79, 80, 69, 78, 65, 73, 95, 75, 69, 89, 93]
}

/// The cloud-provider redaction placeholder, `[REDACTED_AWS_KEY]`.
pub open spec fn aws_label() -> Seq<u8> {
    seq![91u8, 82, 69, 68, 65, 67, 84, 69, 68, 95, 65, 87, 83, 95, 75, 69, 89, 93]
}

pub fn secret_label_vec() -> (r: Vec<u8>)
    ensures
        r@ == secret_label(),
{
    let mut v: Vec<u8> = Vec::new();
    v.push(91);
    v.push(82);
    v.push(69);
    v.push(68);
    v.push(65);
    v.push(67);
    v.push(84);
    v.push(69);
    v.push(68);
    v.push(95);
    v.push(83);
    v.push(69);
    v.push(67);
    v.push(82);
    v.push(69);
    v.push(84);
    v.push(93);
    proof {
        assert(v@ =~= secret_label());
    }
    v
}

pub fn openai_label_vec() -> (r: Vec<u8>)
    ensures
        r@ == openai_label(),
{
    let mut v: Vec<u8> = Vec::new();
    v.push(91);
    v.push(82);
    v.push(69);
    v.push(68);
    v.push(65);
    v.push(67);
    v.push(84);
    v.push(69);
    v.push(68);
    v.push(95);
    v.push(79);
    v.push(80);
    v.push(69);
    v.push(78);
    v.push(65);
    v.push(73);
    v.push(95);
    v.push(75);
    v.push(69);
    v.push(89);
    v.push(93);
    proof {
        assert(v@ =~= openai_label());
    }
    v
}

pub fn aws_label_vec() -> (r: Vec<u8>)
    ensures
        r@ == aws_label(),
{
    let mut v: Vec<u8> = Vec::new();
    v.push(91);
    v.push(82);
    v.push(69);
    v.push(68);
    v.push(65);
    v.push(67);
    v.push(84);
    v.push(69);
    v.push(68);
    v.push(95);
    v.push(65);
    v.push(87);
    v.push(83);
    v.push(95);
    v.push(75);
    v.push(69);
    v.push(89);
    v.push(93);
    proof {
        assert(v@ =~= aws_label());
    }
    v
}

// ---------------------------------------------------------------- redaction

/// The text from `pos` on, with every generic match replaced: only the value
/// substring is replaced by the placeholder; key, separator and quotes stay.
/// Matching continues after each match, scanning left to right.
pub open spec fn generic_redact_from(t: Seq<u8>, pos: int) -> Seq<u8>
    decreases t.len() - pos,
    via generic_redact_from_decreases
{
    if !(0 <= pos < t.len()) {
        Seq::empty()
    } else {
        match generic_match_at(t, pos) {
            Some(m) => t.subrange(pos, m.0) + secret_label() + t.subrange(m.1, m.2)
                + generic_redact_from(t, m.2),
            None => seq![t[pos]] + generic_redact_from(t, pos + 1),
        }
    }
}

#[via_fn]
proof fn generic_redact_from_decreases(t: Seq<u8>, pos: int) {
    if 0 <= pos < t.len() && generic_match_at(t, pos) is Some {
        lemma_generic_match_bounds(t, pos);
    }
}

/// The whole text with every generic match redacted.
pub open spec fn generic_redact(t: Seq<u8>) -> Seq<u8> {
    generic_redact_from(t, 0)
}

/// The text from `pos` on, with every AI-provider match replaced whole by
/// its placeholder.
pub open spec fn openai_redact_from(t: Seq<u8>, pos: int) -> Seq<u8>
    decreases t.len() - pos,
    via openai_redact_from_decreases
{
    if !(0 <= pos < t.len()) {
        Seq::empty()
    } else {
        match openai_match_at(t, pos) {
            Some(e) => openai_label() + openai_redact_from(t, e),
            None => seq![t[pos]] + openai_redact_from(t, pos + 1),
        }
    }
}

#[via_fn]
proof fn openai_redact_from_decreases(t: Seq<u8>, pos: int) {
    if 0 <= pos < t.len() && openai_match_at(t, pos) is Some {
        lemma_openai_match_bounds(t, pos);
    }
}

/// The whole text with every AI-provider match redacted.
pub open spec fn openai_redact(t: Seq<u8>) -> Seq<u8> {
    openai_redact_from(t, 0)
}

/// The text from `pos` on, with every cloud-provider match replaced whole
/// by its placeholder.
pub open spec fn aws_redact_from(t: Seq<u8>, pos: int) -> Seq<u8>
    decreases t.len() - pos,
{
    if !(0 <= pos < t.len()) {
        Seq::empty()
    } else if aws_match_at(t, pos) {
        aws_label() + aws_redact_from(t, pos + 20)
    } else {
        seq![t[pos]] + aws_redact_from(t, pos + 1)
    }
}

/// The whole text with every cloud-provider match redacted.
pub open spec fn aws_redact(t: Seq<u8>) -> Seq<u8> {
    aws_redact_from(t, 0)
}

/// Some generic match occurs somewhere in `t`.
pub open spec fn has_generic_match(t: Seq<u8>) -> bool {
    exists|i: int| 0 <= i < t.len() && (#[trigger] generic_match_at(t, i)) is Some
}

/// Some AI-provider match occurs somewhere in `t`.
pub open spec fn has_openai_match(t: Seq<u8>) -> bool {
    exists|i: int| 0 <= i < t.len() && (#[trigger] openai_match_at(t, i)) is Some
}

/// Some cloud-provider match occurs somewhere in `t`.
pub open spec fn has_aws_match(t: Seq<u8>) -> bool {
    exists|i: int| 0 <= i < t.len() && #[trigger] aws_match_at(t, i)
}

/// The three detectors applied in their fixed order.
pub open spec fn scan_spec(t: Seq<u8>) -> Seq<u8> {
    aws_redact(openai_redact(generic_redact(t)))
}

/// Whether any detector fires during a scan, each on the text the previous
/// detectors left behind.
pub open spec fn scan_finds(t: Seq<u8>) -> bool {
    has_generic_match(t) || has_openai_match(generic_redact(t)) || has_aws_match(
        openai_redact(generic_redact(t)),
    )
}

// ------------------------------------------------------------ exec matching

/// Whether `w` occurs verbatim at `p`.
pub fn word_at_exec(t: &Vec<u8>, p: usize, w: &Vec<u8>) -> (r: bool)
    requires
        p <= t@.len(),
    ensures
        r == word_at(t@, p as int, w@),
{
    if t.len() - p < w.len() {
        return false;
    }
    let mut j: usize = 0;
    while j < w.len()
        invariant
            p + w@.len() <= t@.len(),
            t@.len() <= usize::MAX,
            j <= w@.len(),
            forall|q: int| 0 <= q < j ==> t@[p + q] == w@[q],
        decreases w@.len() - j,
    {
        if t[p + j] != w[j] {
            return false;
        }
        j = j + 1;
    }
    true
}

/// Whether `w` occurs at `p` after ASCII lowercasing.
pub fn word_at_ci_exec(t: &Vec<u8>, p: usize, w: &Vec<u8>) -> (r: bool)
    requires
        p <= t@.len(),
    ensures
        r == word_at_ci(t@, p as int, w@),
{
    if t.len() - p < w.len() {
        return false;
    }
    let mut j: usize = 0;
    while j < w.len()
        invariant
            p + w@.len() <= t@.len(),
            t@.len() <= usize::MAX,
            j <= w@.len(),
            forall|q: int| 0 <= q < j ==> lower(t@[p + q]) == w@[q],
        decreases w@.len() - j,
    {
        if lower_exec(t[p + j]) != w[j] {
            return false;
        }
        j = j + 1;
    }
    true
}

/// The recognized keywords, in the order they are tried.
pub fn keywords_vec() -> (r: Vec<Vec<u8>>)
    ensures
        r@.len() == 8,
        forall|q: int| 0 <= q < 8 ==> r@[q]@ == keywords()[q],
{
    let mut r: Vec<Vec<u8>> = Vec::new();
    let mut w: Vec<u8> = Vec::new();
    w.push(97);
    w.push(112);
    w.push(105);
    w.push(95);
    w.push(107);
    w.push(101);
    w.push(121);
    proof {
        assert(w@ =~= spec_kw_api_key());
    }
    r.push(w);
    let mut w: Vec<u8> = Vec::new();
    w.push(97);
    w.push(112);
    w.push(105);
    w.push(107);
    w.push(101);
    w.push(121);
    proof {
        assert(w@ =~= spec_kw_apikey());
    }
    r.push(w);
    let mut w: Vec<u8> = Vec::new();
    w.push(97);
    w.push(117);
    w.push(116);
    w.push(104);
    w.push(95);
    w.push(116);
    w.push(111);
    w.push(107);
    w.push(101);
    w.push(110);
    proof {
        assert(w@ =~= spec_kw_auth_token());
    }
    r.push(w);
    let mut w: Vec<u8> = Vec::new();
    w.push(97);
    w.push(117);
    w.push(116);
    w.push(104);
    w.push(116);
    w.push(111);
    w.push(107);
    w.push(101);
    w.push(110);
    proof {
        assert(w@ =~= spec_kw_authtoken());
    }
    r.push(w);
    let mut w: Vec<u8> = Vec::new();
    w.push(97);
    w.push(99);
    w.push(99);
    w.push(101);
    w.push(115);
    w.push(115);
    w.push(95);
    w.push(107);
    w.push(101);
    w.push(121);
    proof {
        assert(w@ =~= spec_kw_access_key());
    }
    r.push(w);
    let mut w: Vec<u8> = Vec::new();
    w.push(97);
    w.push(99);
    w.push(99);
    w.push(101);
    w.push(115);
    w.push(115);
    w.push(107);
    w.push(101);
    w.push(121);
    proof {
        assert(w@ =~= spec_kw_accesskey());
    }
    r.push(w);
    let mut w: Vec<u8> = Vec::new();
    w.push(115);
    w.push(101);
    w.push(99);
    w.push(114);
    w.push(101);
    w.push(116);
    proof {
        assert(w@ =~= spec_kw_secret());
    }
    r.push(w);
    let mut w: Vec<u8> = Vec::new();
    w.push(112);
    w.push(97);
    w.push(115);
    w.push(115);
    w.push(119);
    w.push(111);
    w.push(114);
    w.push(100);
    proof {
        assert(w@ =~= spec_kw_password());
    }
    r.push(w);
    r
}

/// The length of the keyword occurring at `i`, if any.
pub fn key_len_at_exec(t: &Vec<u8>, i: usize) -> (r: Option<usize>)
    requires
        i <= t@.len(),
    ensures
        match r {
            Some(k) => key_len_at(t@, i as int) == Some(k as int),
            None => key_len_at(t@, i as int) is None,
        },
{
    let kws = keywords_vec();
    let mut ki: usize = 0;
    while ki < 8
        invariant
            ki <= 8,
            i <= t@.len(),
            kws@.len() == 8,
            forall|q: int| 0 <= q < 8 ==> kws@[q]@ == keywords()[q],
            key_len_at(t@, i as int) == key_len_from(t@, i as int, ki as int),
        decreases 8 - ki,
    {
        if word_at_ci_exec(t, i, &kws[ki]) {
            return Some(kws[ki].len());
        }
        ki = ki + 1;
    }
    None
}

/// End of the maximal whitespace run starting at `i`.
pub fn ws_end_exec(t: &Vec<u8>, i: usize) -> (r: usize)
    requires
        i <= t@.len(),
    ensures
        r as int == run_end(t@, i as int, ws_pred()),
        i <= r <= t@.len(),
{
    let mut j: usize = i;
    while j < t.len() && is_ws_exec(t[j])
        invariant
            i <= j <= t@.len(),
            run_end(t@, i as int, ws_pred()) == run_end(t@, j as int, ws_pred()),
        decreases t@.len() - j,
    {
        j = j + 1;
    }
    j
}

/// End of the maximal value-character run starting at `i`.
pub fn value_end_exec(t: &Vec<u8>, i: usize) -> (r: usize)
    requires
        i <= t@.len(),
    ensures
        r as int == run_end(t@, i as int, value_pred()),
        i <= r <= t@.len(),
{
    let mut j: usize = i;
    while j < t.len() && is_value_char_exec(t[j])
        invariant
            i <= j <= t@.len(),
            run_end(t@, i as int, value_pred()) == run_end(t@, j as int, value_pred()),
        decreases t@.len() - j,
    {
        j = j + 1;
    }
    j
}

/// End of the maximal letter-or-digit run starting at `i`.
pub fn alnum_end_exec(t: &Vec<u8>, i: usize) -> (r: usize)
    requires
        i <= t@.len(),
    ensures
        r as int == run_end(t@, i as int, alnum_pred()),
        i <= r <= t@.len(),
{
    let mut j: usize = i;
    while j < t.len() && is_alnum_exec(t[j])
        invariant
            i <= j <= t@.len(),
            run_end(t@, i as int, alnum_pred()) == run_end(t@, j as int, alnum_pred()),
        decreases t@.len() - j,
    {
        j = j + 1;
    }
    j
}

/// The generic detector at `i`, as executed.
pub fn generic_match_at_exec(t: &Vec<u8>, i: usize) -> (r: Option<(usize, usize, usize)>)
    requires
        i <= t@.len(),
    ensures
        match r {
            Some(m) => generic_match_at(t@, i as int) == Some(
                (m.0 as int, m.1 as int, m.2 as int),
            ),
            None => generic_match_at(t@, i as int) is None,
        },
{
    let kl = match key_len_at_exec(t, i) {
        None => {
            return None;
        },
        Some(k) => k,
    };
    proof {
        lemma_key_len_bounds(t@, i as int, 0);
        assert(t.len() == t@.len());
    }
    let p1 = ws_end_exec(t, i + kl);
    if !(p1 < t.len() && is_sep_exec(t[p1])) {
        return None;
    }
    let p2 = ws_end_exec(t, p1 + 1);
    if !(p2 < t.len() && is_quote_exec(t[p2])) {
        return None;
    }
    let vs = p2 + 1;
    let ve = value_end_exec(t, vs);
    if ve - vs >= 8 && ve < t.len() && is_quote_exec(t[ve]) {
        Some((vs, ve, ve + 1))
    } else {
        None
    }
}

pub fn sk_prefix_vec() -> (r: Vec<u8>)
    ensures
        r@ == spec_sk_prefix(),
{
    let mut v: Vec<u8> = Vec::new();
    v.push(115);
    v.push(107);
    v.push(45);
    proof {
        assert(v@ =~= spec_sk_prefix());
    }
    v
}

pub fn openai_marker_vec() -> (r: Vec<u8>)
    ensures
        r@ == spec_openai_marker(),
{
    let mut v: Vec<u8> = Vec::new();
    v.push(84);
    v.push(51);
    v.push(66);
    v.push(108);
    v.push(98);
    v.push(107);
    v.push(70);
    v.push(74);
    proof {
        assert(v@ =~= spec_openai_marker());
    }
    v
}

pub fn akia_vec() -> (r: Vec<u8>)
    ensures
        r@ == spec_akia_prefix(),
{
    let mut v: Vec<u8> = Vec::new();
    v.push(65);
    v.push(75);
    v.push(73);
    v.push(65);
    proof {
        assert(v@ =~= spec_akia_prefix());
    }
    v
}

/// The AI-provider detector at `i`, as executed.
pub fn openai_match_at_exec(t: &Vec<u8>, i: usize) -> (r: Option<usize>)
    requires
        i <= t@.len(),
    ensures
        match r {
            Some(e) => openai_match_at(t@, i as int) == Some(e as int),
            None => openai_match_at(t@, i as int) is None,
        },
{
    let sk = sk_prefix_vec();
    if !word_at_exec(t, i, &sk) {
        return None;
    }
    proof {
        assert(t.len() == t@.len());
    }
    let s = i + 3;
    let m = alnum_end_exec(t, s);
    if m - s < 28 {
        return None;
    }
    let marker = openai_marker_vec();
    let mut k: usize = m - s - 8;
    loop
        invariant
            20 <= k <= m - s - 8,
            s + 3 <= m <= t@.len(),
            i + 3 == s,
            marker@ == spec_openai_marker(),
            openai_match_at(t@, i as int) == openai_best_end(t@, s as int, k as int),
        decreases k,
    {
        if word_at_exec(t, s + k, &marker) {
            return Some(s + k + 8);
        }
        if k == 20 {
            proof {
                assert(openai_best_end(t@, s as int, 19) is None);
            }
            return None;
        }
        k = k - 1;
    }
}

/// The cloud-provider detector at `i`, as executed.
pub fn aws_match_at_exec(t: &Vec<u8>, i: usize) -> (r: bool)
    requires
        i <= t@.len(),
    ensures
        r == aws_match_at(t@, i as int),
{
    let ak = akia_vec();
    if !word_at_exec(t, i, &ak) {
        return false;
    }
    if t.len() - i < 20 {
        return false;
    }
    let mut j: usize = i + 4;
    while j < i + 20
        invariant
            i + 4 <= j <= i + 20,
            i + 20 <= t@.len(),
            t@.len() <= usize::MAX,
            forall|q: int| i + 4 <= q < j ==> is_upper_digit(t@[q]),
        decreases i + 20 - j,
    {
        if !is_upper_digit_exec(t[j]) {
            return false;
        }
        j = j + 1;
    }
    true
}

// ----------------------------------------------------------- exec redaction

/// Runs the generic detector over the whole text; yields the redacted text
/// and whether anything matched.
pub fn redact_generic(t: &Vec<u8>) -> (r: (Vec<u8>, bool))
    ensures
        r.0@ == generic_redact(t@),
        r.1 == has_generic_match(t@),
{
    let mut out: Vec<u8> = Vec::new();
    let mut found = false;
    let mut pos: usize = 0;
    proof {
        assert(Seq::<u8>::empty() + generic_redact_from(t@, 0) =~= generic_redact_from(t@, 0));
        assert(t.len() == t@.len());
    }
    while pos < t.len()
        invariant
            pos <= t@.len(),
            t@.len() <= usize::MAX,
            generic_redact(t@) == out@ + generic_redact_from(t@, pos as int),
            found ==> has_generic_match(t@),
            !found ==> forall|q: int| 0 <= q < pos ==> (#[trigger] generic_match_at(t@, q)) is None,
        decreases t@.len() - pos,
    {
        match generic_match_at_exec(t, pos) {
            Some(m) => {
                proof {
                    lemma_generic_match_bounds(t@, pos as int);
                }
                let ghost pre = out@;
                extend_slice(&mut out, t, pos, m.0);
                let label = secret_label_vec();
                extend_bytes(&mut out, &label);
                extend_slice(&mut out, t, m.1, m.2);
                proof {
                    assert(out@ =~= pre + (t@.subrange(pos as int, m.0 as int) + secret_label()
                        + t@.subrange(m.1 as int, m.2 as int)));
                    assert(generic_redact(t@) == out@ + generic_redact_from(t@, m.2 as int)) by {
                        assert(pre + (t@.subrange(pos as int, m.0 as int) + secret_label()
                            + t@.subrange(m.1 as int, m.2 as int) + generic_redact_from(
                            t@,
                            m.2 as int,
                        )) =~= out@ + generic_redact_from(t@, m.2 as int));
                    }
                }
                found = true;
                pos = m.2;
            },
            None => {
                let ghost pre = out@;
                out.push(t[pos]);
                proof {
                    assert(generic_redact(t@) == out@ + generic_redact_from(t@, pos + 1)) by {
                        assert(pre + (seq![t@[pos as int]] + generic_redact_from(t@, pos + 1))
                            =~= out@ + generic_redact_from(t@, pos + 1));
                    }
                }
                pos = pos + 1;
            },
        }
    }
    proof {
        assert(out@ + generic_redact_from(t@, pos as int) =~= out@);
    }
    (out, found)
}

/// Runs the AI-provider detector over the whole text.
pub fn redact_openai(t: &Vec<u8>) -> (r: (Vec<u8>, bool))
    ensures
        r.0@ == openai_redact(t@),
        r.1 == has_openai_match(t@),
{
    let mut out: Vec<u8> = Vec::new();
    let mut found = false;
    let mut pos: usize = 0;
    proof {
        assert(Seq::<u8>::empty() + openai_redact_from(t@, 0) =~= openai_redact_from(t@, 0));
        assert(t.len() == t@.len());
    }
    while pos < t.len()
        invariant
            pos <= t@.len(),
            t@.len() <= usize::MAX,
            openai_redact(t@) == out@ + openai_redact_from(t@, pos as int),
            found ==> has_openai_match(t@),
            !found ==> forall|q: int| 0 <= q < pos ==> (#[trigger] openai_match_at(t@, q)) is None,
        decreases t@.len() - pos,
    {
        match openai_match_at_exec(t, pos) {
            Some(e) => {
                proof {
                    lemma_openai_match_bounds(t@, pos as int);
                }
                let ghost pre = out@;
                let label = openai_label_vec();
                extend_bytes(&mut out, &label);
                proof {
                    assert(openai_redact(t@) == out@ + openai_redact_from(t@, e as int)) by {
                        assert(pre + (openai_label() + openai_redact_from(t@, e as int)) =~= out@
                            + openai_redact_from(t@, e as int));
                    }
                }
                found = true;
                pos = e;
            },
            None => {
                let ghost pre = out@;
                out.push(t[pos]);
                proof {
                    assert(openai_redact(t@) == out@ + openai_redact_from(t@, pos + 1)) by {
                        assert(pre + (seq![t@[pos as int]] + openai_redact_from(t@, pos + 1))
                            =~= out@ + openai_redact_from(t@, pos + 1));
                    }
                }
                pos = pos + 1;
            },
        }
    }
    proof {
        assert(out@ + openai_redact_from(t@, pos as int) =~= out@);
    }
    (out, found)
}

/// Runs the cloud-provider detector over the whole text.
pub fn redact_aws(t: &Vec<u8>) -> (r: (Vec<u8>, bool))
    ensures
        r.0@ == aws_redact(t@),
        r.1 == has_aws_match(t@),
{
    let mut out: Vec<u8> = Vec::new();
    let mut found = false;
    let mut pos: usize = 0;
    proof {
        assert(Seq::<u8>::empty() + aws_redact_from(t@, 0) =~= aws_redact_from(t@, 0));
        assert(t.len() == t@.len());
    }
    while pos < t.len()
        invariant
            pos <= t@.len(),
            t@.len() <= usize::MAX,
            aws_redact(t@) == out@ + aws_redact_from(t@, pos as int),
            found ==> has_aws_match(t@),
            !found ==> forall|q: int| 0 <= q < pos ==> !(#[trigger] aws_match_at(t@, q)),
        decreases t@.len() - pos,
    {
        if aws_match_at_exec(t, pos) {
            let ghost pre = out@;
            let label = aws_label_vec();
            extend_bytes(&mut out, &label);
            proof {
                assert(aws_redact(t@) == out@ + aws_redact_from(t@, pos + 20)) by {
                    assert(pre + (aws_label() + aws_redact_from(t@, pos + 20)) =~= out@
                        + aws_redact_from(t@, pos + 20));
                }
            }
            found = true;
            pos = pos + 20;
        } else {
            let ghost pre = out@;
            out.push(t[pos]);
            proof {
                assert(aws_redact(t@) == out@ + aws_redact_from(t@, pos + 1)) by {
                    assert(pre + (seq![t@[pos as int]] + aws_redact_from(t@, pos + 1)) =~= out@
                        + aws_redact_from(t@, pos + 1));
                }
            }
            pos = pos + 1;
        }
    }
    proof {
        assert(out@ + aws_redact_from(t@, pos as int) =~= out@);
    }
    (out, found)
}

// --------------------------------------------------------------- the scanner

/// The ordered set of secret detectors. The detectors themselves are fixed;
/// the struct is the handle the processing pipeline shares.
pub struct SecretScanner {}

impl SecretScanner {
    pub fn new() -> (s: SecretScanner) {
        SecretScanner {}
    }

    /// Redacts every detector match in `content`, detector after detector,
    /// each over the text the previous one produced. Yields the sanitized
    /// text and whether any detector fired, so that the caller can warn.
    pub fn scan(&self, content: &Vec<u8>) -> (r: (Vec<u8>, bool))
        ensures
            r.0@ == scan_spec(content@),
            r.1 == scan_finds(content@),
    {
        let (t1, f1) = redact_generic(content);
        let (t2, f2) = redact_openai(&t1);
        let (t3, f3) = redact_aws(&t2);
        (t3, f1 || f2 || f3)
    }
}

} // verus!
