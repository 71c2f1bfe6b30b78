//! Properties of the pipeline that hold across functions, each proved
//! here once and for all inputs.
#![allow(unused_imports)]
use vstd::prelude::*;
use crate::bytes::{bytes_lt, lemma_bytes_lt_irreflexive, lemma_run_end, run_end};
use crate::compose::{
    block_paths, file_block, file_blocks, lit_contents_header, lit_structure_header, payload_spec,
};
use crate::selection::has_path;
use crate::process::{numbered, processed_text, ProcessedFile};
use crate::secrets::{
    alnum_pred, aws_label, aws_match_at, aws_redact, aws_redact_from, generic_match_at,
    generic_redact, generic_redact_from, has_aws_match, has_generic_match, has_openai_match,
    is_alnum, is_quote, is_sep, is_upper_digit, is_value_char, is_ws, key_len_at, key_len_from,
    keywords, lemma_generic_match_bounds, lemma_key_len_bounds, lemma_openai_match_bounds, lower,
    openai_best_end, openai_label, openai_match_at, openai_redact, openai_redact_from, scan_finds,
    scan_spec, secret_label, spec_akia_prefix, spec_openai_marker, spec_sk_prefix, value_pred,
    word_at, word_at_ci, ws_pred,
};
use crate::OutputFormat;

verus! {

// --------------------------------------------------------- run-end helpers

/// `run_end` is pinned down by its run: all of `[a, b)` satisfies the
/// class and `b` does not (or is the end).
proof fn lemma_run_end_char(t: Seq<u8>, a: int, b: int, pred: spec_fn(u8) -> bool)
    requires
        0 <= a <= b <= t.len(),
        forall|q: int| a <= q < b ==> pred(t[q]),
        b == t.len() || !pred(t[b]),
    ensures
        run_end(t, a, pred) == b,
    decreases b - a,
{
    if a < b {
        lemma_run_end_char(t, a + 1, b, pred);
    }
}

/// A run of class characters pushes `run_end` at least that far.
proof fn lemma_run_end_at_least(t: Seq<u8>, a: int, b: int, pred: spec_fn(u8) -> bool)
    requires
        0 <= a <= b <= t.len(),
        forall|q: int| a <= q < b ==> pred(t[q]),
    ensures
        run_end(t, a, pred) >= b,
    decreases b - a,
{
    lemma_run_end(t, a, pred);
    if a < b {
        lemma_run_end_at_least(t, a + 1, b, pred);
    }
}

// -------------------------------------------------------- window transfers

/// Whether a word occurs at a position depends on the characters there
/// alone.
proof fn lemma_word_window(x: Seq<u8>, i: int, y: Seq<u8>, j: int, w: Seq<u8>)
    requires
        0 <= i,
        i + w.len() <= x.len(),
        0 <= j,
        j + w.len() <= y.len(),
        forall|q: int| 0 <= q < w.len() ==> y[j + q] == #[trigger] x[i + q],
    ensures
        word_at(y, j, w) == word_at(x, i, w),
{
}

/// The case-blind variant.
proof fn lemma_word_ci_window(x: Seq<u8>, i: int, y: Seq<u8>, j: int, w: Seq<u8>)
    requires
        0 <= i,
        i + w.len() <= x.len(),
        0 <= j,
        j + w.len() <= y.len(),
        forall|q: int| 0 <= q < w.len() ==> y[j + q] == #[trigger] x[i + q],
    ensures
        word_at_ci(y, j, w) == word_at_ci(x, i, w),
{
}

/// Every keyword character is a lowercase letter or an underscore.
proof fn lemma_keyword_chars()
    ensures
        forall|ki: int, q: int|
            0 <= ki < 8 && 0 <= q < keywords()[ki].len() ==> 95 <= #[trigger] keywords()[ki][q]
                <= 122,
{
}

/// The keyword occurring at a position depends on the first ten
/// characters there alone.
proof fn lemma_key_len_window(x: Seq<u8>, i: int, y: Seq<u8>, j: int, ki: int)
    requires
        0 <= i,
        i + 10 <= x.len(),
        0 <= j,
        j + 10 <= y.len(),
        forall|q: int| 0 <= q < 10 ==> y[j + q] == #[trigger] x[i + q],
        0 <= ki <= 8,
    ensures
        key_len_from(y, j, ki) == key_len_from(x, i, ki),
    decreases 8 - ki,
{
    if ki < 8 {
        lemma_word_ci_window(x, i, y, j, keywords()[ki]);
        lemma_key_len_window(x, i, y, j, ki + 1);
    }
}

// ------------------------------------------------------- placeholder shape

/// A character a placeholder may hold: an uppercase letter, a bracket or
/// an underscore.
spec fn label_char(c: u8) -> bool {
    (65 <= c <= 90) || c == 91 || c == 93 || c == 95
}

/// What all three placeholders look like: bracketed, short, all label
/// characters.
spec fn label_shape(lab: Seq<u8>) -> bool {
    &&& 17 <= lab.len() <= 21
    &&& lab[0] == 91
    &&& lab[lab.len() - 1] == 93
    &&& forall|q: int| 0 <= q < lab.len() ==> label_char(#[trigger] lab[q])
}

proof fn lemma_secret_label_shape()
    ensures
        label_shape(secret_label()),
{
    assert forall|q: int| 0 <= q < secret_label().len() implies label_char(
        #[trigger] secret_label()[q],
    ) by {}
}

proof fn lemma_openai_label_shape()
    ensures
        label_shape(openai_label()),
{
    assert forall|q: int| 0 <= q < openai_label().len() implies label_char(
        #[trigger] openai_label()[q],
    ) by {}
}

proof fn lemma_aws_label_shape()
    ensures
        label_shape(aws_label()),
{
    assert forall|q: int| 0 <= q < aws_label().len() implies label_char(
        #[trigger] aws_label()[q],
    ) by {}
}

// ------------------------------------------------------- match anatomy

/// Some keyword witnesses a `key_len_from` answer.
proof fn lemma_key_len_word(t: Seq<u8>, i: int, ki: int)
    requires
        0 <= ki <= 8,
        key_len_from(t, i, ki) is Some,
    ensures
        exists|k2: int|
            ki <= k2 < 8 && word_at_ci(t, i, keywords()[k2]) && key_len_from(t, i, ki)->Some_0
                == keywords()[k2].len(),
    decreases 8 - ki,
{
    if ki < 8 && !word_at_ci(t, i, keywords()[ki]) {
        lemma_key_len_word(t, i, ki + 1);
    }
}

/// A character the generic detector can match.
spec fn d1_char(c: u8) -> bool {
    is_value_char(c) || is_ws(c) || is_sep(c) || is_quote(c)
}

/// A character the AI-provider detector can match.
spec fn d2_char(c: u8) -> bool {
    is_alnum(c) || c == 45
}

/// Every character of a generic match is a `d1_char`; in particular,
/// neither bracket of a placeholder occurs in one.
proof fn lemma_generic_match_chars(t: Seq<u8>, i: int)
    requires
        0 <= i <= t.len(),
        generic_match_at(t, i) is Some,
    ensures
        ({
            let (vs, ve, e) = generic_match_at(t, i)->Some_0;
            forall|q: int| i <= q < e ==> d1_char(#[trigger] t[q])
        }),
{
    let kl = key_len_at(t, i)->Some_0;
    lemma_key_len_bounds(t, i, 0);
    lemma_key_len_word(t, i, 0);
    lemma_keyword_chars();
    let p1 = run_end(t, i + kl, ws_pred());
    lemma_run_end(t, i + kl, ws_pred());
    let p2 = run_end(t, p1 + 1, ws_pred());
    lemma_run_end(t, p1 + 1, ws_pred());
    let vs = p2 + 1;
    let ve = run_end(t, vs, value_pred());
    lemma_run_end(t, vs, value_pred());
    let e = ve + 1;
    let k2 = choose|k2: int|
        0 <= k2 < 8 && word_at_ci(t, i, keywords()[k2]) && kl == keywords()[k2].len();
    assert forall|q: int| i <= q < e implies d1_char(#[trigger] t[q]) by {
        if q < i + kl {
            assert(lower(t[q]) == keywords()[k2][q - i]);
            assert(95 <= lower(t[q]) <= 122);
        } else if q < p1 {
            assert(is_ws(t[q]));
        } else if q == p1 {
        } else if q < p2 {
            assert(is_ws(t[q]));
        } else if q == p2 {
        } else if q < ve {
            assert(is_value_char(t[q]));
        } else {
        }
    }
}

/// The marker the AI-provider detector ends on really occurs, inside the
/// searched window.
proof fn lemma_openai_best_end_word(t: Seq<u8>, s: int, k: int)
    requires
        0 <= s,
        openai_best_end(t, s, k) is Some,
    ensures
        ({
            let e = openai_best_end(t, s, k)->Some_0;
            word_at(t, e - 8, spec_openai_marker()) && 20 <= e - 8 - s <= k
        }),
    decreases k,
{
    if k >= 20 && !word_at(t, s + k, spec_openai_marker()) {
        lemma_openai_best_end_word(t, s, k - 1);
    }
}

/// Where the marker occurs inside the window, the search succeeds.
proof fn lemma_openai_best_end_exists(t: Seq<u8>, s: int, cap: int, k: int)
    requires
        0 <= s,
        20 <= k <= cap,
        word_at(t, s + k, spec_openai_marker()),
    ensures
        openai_best_end(t, s, cap) is Some,
    decreases cap,
{
    if cap > k && !word_at(t, s + cap, spec_openai_marker()) {
        lemma_openai_best_end_exists(t, s, cap - 1, k);
    }
}

/// Every character of an AI-provider match is a `d2_char`.
proof fn lemma_openai_match_chars(t: Seq<u8>, i: int)
    requires
        0 <= i <= t.len(),
        openai_match_at(t, i) is Some,
    ensures
        ({
            let e = openai_match_at(t, i)->Some_0;
            forall|q: int| i <= q < e ==> d2_char(#[trigger] t[q])
        }),
{
    let s = i + 3;
    let m = run_end(t, s, alnum_pred());
    lemma_run_end(t, s, alnum_pred());
    lemma_openai_best_end_word(t, s, m - s - 8);
    let e = openai_match_at(t, i)->Some_0;
    assert(e <= m);
    assert forall|q: int| i <= q < e implies d2_char(#[trigger] t[q]) by {
        if q < s {
            assert(t[q] == spec_sk_prefix()[q - i]);
        } else {
            assert(is_alnum(t[q]));
        }
    }
}

// ------------------------------------------------------- match transfers

/// A generic match depends on its own characters alone: wherever the same
/// characters stand, the same match stands.
proof fn lemma_generic_transfer(x: Seq<u8>, i: int, y: Seq<u8>, j: int)
    requires
        0 <= i <= x.len(),
        0 <= j <= y.len(),
        generic_match_at(x, i) is Some,
        j + (generic_match_at(x, i)->Some_0.2 - i) <= y.len(),
        forall|q: int|
            0 <= q < generic_match_at(x, i)->Some_0.2 - i ==> y[j + q] == #[trigger] x[i + q],
    ensures
        ({
            let (vs, ve, e) = generic_match_at(x, i)->Some_0;
            generic_match_at(y, j) == Some((j + (vs - i), j + (ve - i), j + (e - i)))
        }),
{
    let kl = key_len_at(x, i)->Some_0;
    lemma_key_len_bounds(x, i, 0);
    let p1 = run_end(x, i + kl, ws_pred());
    lemma_run_end(x, i + kl, ws_pred());
    let p2 = run_end(x, p1 + 1, ws_pred());
    lemma_run_end(x, p1 + 1, ws_pred());
    let vs = p2 + 1;
    let ve = run_end(x, vs, value_pred());
    lemma_run_end(x, vs, value_pred());
    let e = ve + 1;
    lemma_generic_match_bounds(x, i);
    lemma_key_len_window(x, i, y, j, 0);
    assert(key_len_at(y, j) == Some(kl));
    assert forall|q: int| j + kl <= q < j + (p1 - i) implies ws_pred()(y[q]) by {
        assert(y[q] == x[i + (q - j)]);
    }
    assert(y[j + (p1 - i)] == x[i + (p1 - i)]);
    lemma_run_end_char(y, j + kl, j + (p1 - i), ws_pred());
    assert forall|q: int| j + (p1 - i) + 1 <= q < j + (p2 - i) implies ws_pred()(y[q]) by {
        assert(y[q] == x[i + (q - j)]);
    }
    assert(y[j + (p2 - i)] == x[i + (p2 - i)]);
    lemma_run_end_char(y, j + (p1 - i) + 1, j + (p2 - i), ws_pred());
    assert forall|q: int| j + (vs - i) <= q < j + (ve - i) implies value_pred()(y[q]) by {
        assert(y[q] == x[i + (q - j)]);
    }
    assert(y[j + (ve - i)] == x[i + (ve - i)]);
    lemma_run_end_char(y, j + (vs - i), j + (ve - i), value_pred());
}

/// The same for the cloud-provider shape, which is 20 characters long.
proof fn lemma_aws_transfer(x: Seq<u8>, i: int, y: Seq<u8>, j: int)
    requires
        0 <= i,
        aws_match_at(x, i),
        0 <= j,
        j + 20 <= y.len(),
        forall|q: int| 0 <= q < 20 ==> y[j + q] == #[trigger] x[i + q],
    ensures
        aws_match_at(y, j),
{
    lemma_word_window(x, i, y, j, spec_akia_prefix());
    assert forall|q: int| j + 4 <= q < j + 20 implies is_upper_digit(y[q]) by {
        assert(y[q] == x[i + (q - j)]);
    }
}

/// An AI-provider match carried to another context is still a match
/// there, though its exact extent may differ.
proof fn lemma_openai_transfer(x: Seq<u8>, i: int, y: Seq<u8>, j: int)
    requires
        0 <= i <= x.len(),
        0 <= j <= y.len(),
        openai_match_at(x, i) is Some,
        j + (openai_match_at(x, i)->Some_0 - i) <= y.len(),
        forall|q: int|
            0 <= q < openai_match_at(x, i)->Some_0 - i ==> y[j + q] == #[trigger] x[i + q],
    ensures
        openai_match_at(y, j) is Some,
{
    let e = openai_match_at(x, i)->Some_0;
    let s = i + 3;
    let m = run_end(x, s, alnum_pred());
    lemma_run_end(x, s, alnum_pred());
    lemma_openai_best_end_word(x, s, m - s - 8);
    lemma_openai_match_bounds(x, i);
    let k = e - 8 - s;
    lemma_openai_match_chars(x, i);
    lemma_word_window(x, i, y, j, spec_sk_prefix());
    let sy = j + 3;
    assert forall|q: int| sy <= q < j + (e - i) implies alnum_pred()(y[q]) by {
        assert(y[q] == x[i + (q - j)]);
        assert(d2_char(x[i + (q - j)]));
        assert(x[i + (q - j)] != 45) by {
            assert(is_alnum(x[i + (q - j)])) by {
                if i + (q - j) < s + k {
                } else {
                }
            }
        }
    }
    lemma_run_end_at_least(y, sy, j + (e - i), alnum_pred());
    let my = run_end(y, sy, alnum_pred());
    lemma_run_end(y, sy, alnum_pred());
    assert forall|q: int|
        0 <= q < spec_openai_marker().len() implies y[sy + k + q] == #[trigger] x[s + k + q] by {
        assert(y[j + (k + 3 + q)] == x[i + (k + 3 + q)]);
    }
    lemma_word_window(x, s + k, y, sy + k, spec_openai_marker());
    lemma_openai_best_end_exists(y, sy, my - sy - 8, k);
}

// --------------------------------------- nothing matches inside a placeholder

/// The cloud-provider shape cannot start inside a placeholder occurrence:
/// its 20 characters would have to cover a bracket or an underscore.
proof fn lemma_no_aws_in_label(s: Seq<u8>, off: int, lab: Seq<u8>, i: int)
    requires
        0 <= off,
        off + lab.len() <= s.len(),
        forall|q: int| 0 <= q < lab.len() ==> s[off + q] == #[trigger] lab[q],
        label_shape(lab),
        off <= i < off + lab.len(),
    ensures
        !aws_match_at(s, i),
{
    if aws_match_at(s, i) {
        let ll = lab.len();
        if i == off {
            assert(s[i] == spec_akia_prefix()[0]);
            assert(s[off] == lab[0]);
        } else if i + 20 > off + ll - 1 {
            let b = off + ll - 1;
            assert(s[b] == lab[ll - 1]);
            if b < i + 4 {
                assert(s[b] == spec_akia_prefix()[b - i]);
            } else {
                assert(is_upper_digit(s[b]));
            }
        } else {
            assert(20 <= ll - 2);
        }
    }
}

/// The AI-provider shape cannot start inside a placeholder occurrence: it
/// begins with a lowercase letter and placeholders hold none.
proof fn lemma_no_openai_in_label(s: Seq<u8>, off: int, lab: Seq<u8>, i: int)
    requires
        0 <= off,
        off + lab.len() <= s.len(),
        forall|q: int| 0 <= q < lab.len() ==> s[off + q] == #[trigger] lab[q],
        label_shape(lab),
        off <= i < off + lab.len(),
    ensures
        openai_match_at(s, i) is None,
{
    if openai_match_at(s, i) is Some {
        assert(s[i] == spec_sk_prefix()[0]);
        assert(s[i] == lab[i - off]);
        assert(label_char(lab[i - off]));
    }
}

/// The generic shape cannot start inside a placeholder occurrence: its
/// separator would have to be a placeholder character, or its key would
/// have to run across the closing bracket.
proof fn lemma_no_generic_in_label(s: Seq<u8>, off: int, lab: Seq<u8>, i: int)
    requires
        0 <= off,
        off + lab.len() <= s.len(),
        forall|q: int| 0 <= q < lab.len() ==> s[off + q] == #[trigger] lab[q],
        label_shape(lab),
        off <= i < off + lab.len(),
    ensures
        generic_match_at(s, i) is None,
{
    if generic_match_at(s, i) is Some {
        let ll = lab.len();
        let kl = key_len_at(s, i)->Some_0;
        lemma_key_len_bounds(s, i, 0);
        lemma_key_len_word(s, i, 0);
        lemma_keyword_chars();
        let k2 = choose|k2: int|
            0 <= k2 < 8 && word_at_ci(s, i, keywords()[k2]) && kl == keywords()[k2].len();
        let p1 = run_end(s, i + kl, ws_pred());
        lemma_run_end(s, i + kl, ws_pred());
        assert(p1 < s.len() && is_sep(s[p1]));
        if p1 < off + ll {
            assert(s[p1] == lab[p1 - off]);
            assert(label_char(lab[p1 - off]));
        } else {
            let b = off + ll - 1;
            assert(s[b] == lab[ll - 1]);
            assert(s[b] == 93);
            if b < i + kl {
                assert(lower(s[b]) == keywords()[k2][b - i]);
                assert(95 <= lower(s[b]) <= 122);
            } else {
                assert(is_ws(s[b]));
            }
        }
    }
}

// ------------------------------------- redacted text maps back to the source

/// Before its opening quote, a generic match holds no quote at all.
proof fn lemma_generic_match_quotes(t: Seq<u8>, i: int)
    requires
        0 <= i <= t.len(),
        generic_match_at(t, i) is Some,
    ensures
        forall|q: int|
            i <= q < generic_match_at(t, i)->Some_0.0 - 1 ==> !is_quote(#[trigger] t[q]),
{
    let kl = key_len_at(t, i)->Some_0;
    lemma_key_len_bounds(t, i, 0);
    lemma_key_len_word(t, i, 0);
    lemma_keyword_chars();
    let k2 = choose|k2: int|
        0 <= k2 < 8 && word_at_ci(t, i, keywords()[k2]) && kl == keywords()[k2].len();
    let p1 = run_end(t, i + kl, ws_pred());
    lemma_run_end(t, i + kl, ws_pred());
    let p2 = run_end(t, p1 + 1, ws_pred());
    lemma_run_end(t, p1 + 1, ws_pred());
    assert forall|q: int|
        i <= q < generic_match_at(t, i)->Some_0.0 - 1 implies !is_quote(#[trigger] t[q]) by {
        if q < i + kl {
            assert(lower(t[q]) == keywords()[k2][q - i]);
            assert(95 <= lower(t[q]) <= 122);
        } else if q < p1 {
            assert(is_ws(t[q]));
        } else if q == p1 {
            assert(is_sep(t[q]));
        } else {
            assert(is_ws(t[q]));
        }
    }
}

/// A class-character prefix of the generic redaction is the source text
/// itself, as long as the class excludes the placeholder's bracket.
proof fn lemma_generic_redact_maps(t: Seq<u8>, pos: int, m: int, p: spec_fn(u8) -> bool)
    requires
        0 <= pos <= t.len(),
        !p(91),
        0 <= m <= generic_redact_from(t, pos).len(),
        forall|q: int| 0 <= q < m ==> p(#[trigger] generic_redact_from(t, pos)[q]),
    ensures
        m <= t.len() - pos,
        generic_redact_from(t, pos).take(m) == t.subrange(pos, pos + m),
    decreases t.len() - pos,
{
    let s = generic_redact_from(t, pos);
    if pos == t.len() {
        assert(s.take(0) =~= t.subrange(pos, pos));
    } else {
        match generic_match_at(t, pos) {
            Some(mm) => {
                lemma_generic_match_bounds(t, pos);
                let vs = mm.0;
                assert(s == t.subrange(pos, vs) + secret_label() + t.subrange(mm.1, mm.2)
                    + generic_redact_from(t, mm.2));
                if m <= vs - pos {
                    assert(s.take(m) =~= t.subrange(pos, pos + m)) by {
                        assert forall|q: int| 0 <= q < m implies s[q] == t[pos + q] by {
                            assert(s[q] == t.subrange(pos, vs)[q]);
                        }
                    }
                } else {
                    assert(s[vs - pos] == secret_label()[0]);
                    assert(p(s[vs - pos]));
                    assert(false);
                }
            },
            None => {
                if m == 0 {
                    assert(s.take(0) =~= t.subrange(pos, pos));
                } else {
                    let rest = generic_redact_from(t, pos + 1);
                    assert(s == seq![t[pos]] + rest);
                    assert forall|q: int| 0 <= q < m - 1 implies p(#[trigger] rest[q]) by {
                        assert(rest[q] == s[q + 1]);
                    }
                    lemma_generic_redact_maps(t, pos + 1, m - 1, p);
                    assert(s.take(m) =~= t.subrange(pos, pos + m)) by {
                        assert forall|q: int| 0 <= q < m implies s[q] == t[pos + q] by {
                            if q > 0 {
                                assert(s[q] == rest[q - 1]);
                                assert(rest.take(m - 1)[q - 1] == t.subrange(
                                    pos + 1,
                                    pos + m,
                                )[q - 1]);
                            }
                        }
                    }
                }
            },
        }
    }
}

/// The same for the AI-provider redaction.
proof fn lemma_openai_redact_maps(t: Seq<u8>, pos: int, m: int, p: spec_fn(u8) -> bool)
    requires
        0 <= pos <= t.len(),
        !p(91),
        0 <= m <= openai_redact_from(t, pos).len(),
        forall|q: int| 0 <= q < m ==> p(#[trigger] openai_redact_from(t, pos)[q]),
    ensures
        m <= t.len() - pos,
        openai_redact_from(t, pos).take(m) == t.subrange(pos, pos + m),
    decreases t.len() - pos,
{
    let s = openai_redact_from(t, pos);
    if pos == t.len() {
        assert(s.take(0) =~= t.subrange(pos, pos));
    } else {
        match openai_match_at(t, pos) {
            Some(e) => {
                lemma_openai_match_bounds(t, pos);
                assert(s == openai_label() + openai_redact_from(t, e));
                if m > 0 {
                    assert(s[0] == openai_label()[0]);
                    assert(p(s[0]));
                    assert(false);
                } else {
                    assert(s.take(0) =~= t.subrange(pos, pos));
                }
            },
            None => {
                if m == 0 {
                    assert(s.take(0) =~= t.subrange(pos, pos));
                } else {
                    let rest = openai_redact_from(t, pos + 1);
                    assert(s == seq![t[pos]] + rest);
                    assert forall|q: int| 0 <= q < m - 1 implies p(#[trigger] rest[q]) by {
                        assert(rest[q] == s[q + 1]);
                    }
                    lemma_openai_redact_maps(t, pos + 1, m - 1, p);
                    assert(s.take(m) =~= t.subrange(pos, pos + m)) by {
                        assert forall|q: int| 0 <= q < m implies s[q] == t[pos + q] by {
                            if q > 0 {
                                assert(s[q] == rest[q - 1]);
                                assert(rest.take(m - 1)[q - 1] == t.subrange(
                                    pos + 1,
                                    pos + m,
                                )[q - 1]);
                            }
                        }
                    }
                }
            },
        }
    }
}

/// And for the cloud-provider redaction.
proof fn lemma_aws_redact_maps(t: Seq<u8>, pos: int, m: int, p: spec_fn(u8) -> bool)
    requires
        0 <= pos <= t.len(),
        !p(91),
        0 <= m <= aws_redact_from(t, pos).len(),
        forall|q: int| 0 <= q < m ==> p(#[trigger] aws_redact_from(t, pos)[q]),
    ensures
        m <= t.len() - pos,
        aws_redact_from(t, pos).take(m) == t.subrange(pos, pos + m),
    decreases t.len() - pos,
{
    let s = aws_redact_from(t, pos);
    if pos == t.len() {
        assert(s.take(0) =~= t.subrange(pos, pos));
    } else {
        if aws_match_at(t, pos) {
            assert(s == aws_label() + aws_redact_from(t, pos + 20));
            if m > 0 {
                assert(s[0] == aws_label()[0]);
                assert(p(s[0]));
                assert(false);
            } else {
                assert(s.take(0) =~= t.subrange(pos, pos));
            }
        } else {
            if m == 0 {
                assert(s.take(0) =~= t.subrange(pos, pos));
            } else {
                let rest = aws_redact_from(t, pos + 1);
                assert(s == seq![t[pos]] + rest);
                assert forall|q: int| 0 <= q < m - 1 implies p(#[trigger] rest[q]) by {
                    assert(rest[q] == s[q + 1]);
                }
                lemma_aws_redact_maps(t, pos + 1, m - 1, p);
                assert(s.take(m) =~= t.subrange(pos, pos + m)) by {
                    assert forall|q: int| 0 <= q < m implies s[q] == t[pos + q] by {
                        if q > 0 {
                            assert(s[q] == rest[q - 1]);
                            assert(rest.take(m - 1)[q - 1] == t.subrange(pos + 1, pos + m)[q
                                - 1]);
                        }
                    }
                }
            }
        }
    }
}

// ----------------------------------------------- no detector fires twice

/// One position of the generic redaction of a text whose head matched:
/// nothing matches there.
#[verifier::rlimit(60)]
#[verifier::spinoff_prover]
proof fn lemma_generic_clean_matched(t: Seq<u8>, pos: int, i: int)
    requires
        0 <= pos < t.len(),
        generic_match_at(t, pos) is Some,
        0 <= i < generic_redact_from(t, pos).len(),
        forall|q: int|
            0 <= q < generic_redact_from(t, generic_match_at(t, pos)->Some_0.2).len() ==> (
            #[trigger] generic_match_at(
                generic_redact_from(t, generic_match_at(t, pos)->Some_0.2),
                q,
            )) is None,
    ensures
        generic_match_at(generic_redact_from(t, pos), i) is None,
{
    let s = generic_redact_from(t, pos);
    let (vs, ve, e) = generic_match_at(t, pos)->Some_0;
    lemma_generic_match_bounds(t, pos);
    lemma_generic_match_quotes(t, pos);
    lemma_secret_label_shape();
    let lab = secret_label();
    let rest = generic_redact_from(t, e);
    let alen = vs - pos;
    let plen = alen + lab.len() + 1;
    assert(s == t.subrange(pos, vs) + lab + t.subrange(ve, e) + rest);
    assert(t.subrange(ve, e) =~= seq![t[ve]]);
    assert forall|q: int| 0 <= q < alen implies s[q] == t[pos + q] by {
        assert(s[q] == t.subrange(pos, vs)[q]);
    }
    assert forall|q: int| 0 <= q < lab.len() implies s[alen + q] == #[trigger] lab[q] by {}
    assert(s[plen - 1] == t[ve]);
    assert forall|q: int| 0 <= q < rest.len() implies s[plen + q] == #[trigger] rest[q] by {}
    if generic_match_at(s, i) is Some {
        let (vs2, ve2, e2) = generic_match_at(s, i)->Some_0;
        lemma_generic_match_bounds(s, i);
        lemma_generic_match_chars(s, i);
        if i >= plen {
            assert forall|q: int|
                0 <= q < e2 - i implies rest[i - plen + q] == #[trigger] s[i + q] by {
                assert(s[plen + (i - plen + q)] == rest[i - plen + q]);
            }
            lemma_generic_transfer(s, i, rest, i - plen);
        } else if alen <= i < alen + lab.len() {
            lemma_no_generic_in_label(s, alen, lab, i);
        } else if i == plen - 1 {
            lemma_key_len_bounds(s, i, 0);
            lemma_key_len_word(s, i, 0);
            lemma_keyword_chars();
            let k2 = choose|k2: int| 0 <= k2 < 8 && word_at_ci(s, i, keywords()[k2]);
            assert(lower(s[i]) == keywords()[k2][0]);
            assert(is_quote(t[ve]));
        } else {
            // the match would start before the placeholder
            if e2 <= alen {
                // two distinct quotes inside a quote-free span
                assert(is_quote(s[vs2 - 1]));
                assert(is_quote(s[ve2]));
                assert(s[vs2 - 1] == t[pos + (vs2 - 1)]);
                assert(s[ve2] == t[pos + ve2]);
                assert(pos + (vs2 - 1) == vs - 1 || !is_quote(t[pos + (vs2 - 1)]));
                assert(pos + ve2 == vs - 1 || !is_quote(t[pos + ve2]));
            } else {
                assert(d1_char(s[alen]));
                assert(s[alen] == lab[0]);
            }
        }
    }
}

/// One position of the generic redaction of a text whose head did not
/// match: nothing matches there.
#[verifier::rlimit(60)]
#[verifier::spinoff_prover]
proof fn lemma_generic_clean_unmatched(t: Seq<u8>, pos: int, i: int)
    requires
        0 <= pos < t.len(),
        generic_match_at(t, pos) is None,
        0 <= i < generic_redact_from(t, pos).len(),
        forall|q: int|
            0 <= q < generic_redact_from(t, pos + 1).len() ==> (#[trigger] generic_match_at(
                generic_redact_from(t, pos + 1),
                q,
            )) is None,
    ensures
        generic_match_at(generic_redact_from(t, pos), i) is None,
{
    let s = generic_redact_from(t, pos);
    let rest = generic_redact_from(t, pos + 1);
    assert(s == seq![t[pos]] + rest);
    assert forall|q: int| 0 <= q < rest.len() implies s[1 + q] == #[trigger] rest[q] by {}
    if generic_match_at(s, i) is Some {
        let (vs2, ve2, e2) = generic_match_at(s, i)->Some_0;
        lemma_generic_match_bounds(s, i);
        if i >= 1 {
            assert forall|q: int|
                0 <= q < e2 - i implies rest[i - 1 + q] == #[trigger] s[i + q] by {
                assert(s[1 + (i - 1 + q)] == rest[i - 1 + q]);
            }
            lemma_generic_transfer(s, i, rest, i - 1);
        } else {
            lemma_generic_match_chars(s, 0);
            lemma_generic_redact_maps(t, pos, e2, |c: u8| d1_char(c));
            assert forall|q: int| 0 <= q < e2 - 0 implies t[pos + q] == #[trigger] s[0 + q] by {
                assert(s.take(e2)[q] == t.subrange(pos, pos + e2)[q]);
            }
            lemma_generic_transfer(s, 0, t, pos);
        }
    }
}

/// What the generic detector leaves behind, it never matches again.
proof fn lemma_generic_redact_clean(t: Seq<u8>, pos: int)
    requires
        0 <= pos <= t.len(),
    ensures
        forall|i: int|
            0 <= i < generic_redact_from(t, pos).len() ==> (#[trigger] generic_match_at(
                generic_redact_from(t, pos),
                i,
            )) is None,
    decreases t.len() - pos,
{
    if pos < t.len() {
        match generic_match_at(t, pos) {
            Some(mm) => {
                lemma_generic_match_bounds(t, pos);
                lemma_generic_redact_clean(t, mm.2);
                assert forall|i: int|
                    0 <= i < generic_redact_from(t, pos).len() implies (
                #[trigger] generic_match_at(generic_redact_from(t, pos), i)) is None by {
                    lemma_generic_clean_matched(t, pos, i);
                }
            },
            None => {
                lemma_generic_redact_clean(t, pos + 1);
                assert forall|i: int|
                    0 <= i < generic_redact_from(t, pos).len() implies (
                #[trigger] generic_match_at(generic_redact_from(t, pos), i)) is None by {
                    lemma_generic_clean_unmatched(t, pos, i);
                }
            },
        }
    }
}

/// One position of the AI-provider redaction of a text whose head
/// matched: neither the generic nor the AI-provider detector fires there.
#[verifier::rlimit(60)]
#[verifier::spinoff_prover]
proof fn lemma_openai_clean_matched(t: Seq<u8>, pos: int, i: int)
    requires
        0 <= pos < t.len(),
        openai_match_at(t, pos) is Some,
        0 <= i < openai_redact_from(t, pos).len(),
        forall|q: int|
            0 <= q < openai_redact_from(t, openai_match_at(t, pos)->Some_0).len() ==> (
            #[trigger] openai_match_at(
                openai_redact_from(t, openai_match_at(t, pos)->Some_0),
                q,
            )) is None,
        forall|q: int|
            0 <= q < openai_redact_from(t, openai_match_at(t, pos)->Some_0).len() ==> (
            #[trigger] generic_match_at(
                openai_redact_from(t, openai_match_at(t, pos)->Some_0),
                q,
            )) is None,
    ensures
        openai_match_at(openai_redact_from(t, pos), i) is None,
        generic_match_at(openai_redact_from(t, pos), i) is None,
{
    let s = openai_redact_from(t, pos);
    let e = openai_match_at(t, pos)->Some_0;
    lemma_openai_match_bounds(t, pos);
    lemma_openai_label_shape();
    let lab = openai_label();
    let rest = openai_redact_from(t, e);
    let plen = lab.len();
    assert(s == lab + rest);
    assert forall|q: int| 0 <= q < plen implies s[q] == #[trigger] lab[q] by {}
    assert forall|q: int| 0 <= q < rest.len() implies s[plen + q] == #[trigger] rest[q] by {}
    if openai_match_at(s, i) is Some {
        let e2 = openai_match_at(s, i)->Some_0;
        lemma_openai_match_bounds(s, i);
        if i < plen {
            lemma_no_openai_in_label(s, 0, lab, i);
        } else {
            assert forall|q: int|
                0 <= q < e2 - i implies rest[i - plen + q] == #[trigger] s[i + q] by {
                assert(s[plen + (i - plen + q)] == rest[i - plen + q]);
            }
            lemma_openai_transfer(s, i, rest, i - plen);
        }
    }
    if generic_match_at(s, i) is Some {
        let (vs2, ve2, e2) = generic_match_at(s, i)->Some_0;
        lemma_generic_match_bounds(s, i);
        if i < plen {
            lemma_no_generic_in_label(s, 0, lab, i);
        } else {
            assert forall|q: int|
                0 <= q < e2 - i implies rest[i - plen + q] == #[trigger] s[i + q] by {
                assert(s[plen + (i - plen + q)] == rest[i - plen + q]);
            }
            lemma_generic_transfer(s, i, rest, i - plen);
        }
    }
}

/// One position of the AI-provider redaction of a text whose head did not
/// match.
#[verifier::rlimit(60)]
#[verifier::spinoff_prover]
proof fn lemma_openai_clean_unmatched(t: Seq<u8>, pos: int, i: int)
    requires
        0 <= pos < t.len(),
        openai_match_at(t, pos) is None,
        generic_match_at(t, pos) is None,
        0 <= i < openai_redact_from(t, pos).len(),
        forall|q: int|
            0 <= q < openai_redact_from(t, pos + 1).len() ==> (#[trigger] openai_match_at(
                openai_redact_from(t, pos + 1),
                q,
            )) is None,
        forall|q: int|
            0 <= q < openai_redact_from(t, pos + 1).len() ==> (#[trigger] generic_match_at(
                openai_redact_from(t, pos + 1),
                q,
            )) is None,
    ensures
        openai_match_at(openai_redact_from(t, pos), i) is None,
        generic_match_at(openai_redact_from(t, pos), i) is None,
{
    let s = openai_redact_from(t, pos);
    let rest = openai_redact_from(t, pos + 1);
    assert(s == seq![t[pos]] + rest);
    assert forall|q: int| 0 <= q < rest.len() implies s[1 + q] == #[trigger] rest[q] by {}
    if openai_match_at(s, i) is Some {
        let e2 = openai_match_at(s, i)->Some_0;
        lemma_openai_match_bounds(s, i);
        if i >= 1 {
            assert forall|q: int|
                0 <= q < e2 - i implies rest[i - 1 + q] == #[trigger] s[i + q] by {
                assert(s[1 + (i - 1 + q)] == rest[i - 1 + q]);
            }
            lemma_openai_transfer(s, i, rest, i - 1);
        } else {
            lemma_openai_match_chars(s, 0);
            lemma_openai_redact_maps(t, pos, e2, |c: u8| d2_char(c));
            assert forall|q: int| 0 <= q < e2 - 0 implies t[pos + q] == #[trigger] s[0 + q] by {
                assert(s.take(e2)[q] == t.subrange(pos, pos + e2)[q]);
            }
            lemma_openai_transfer(s, 0, t, pos);
        }
    }
    if generic_match_at(s, i) is Some {
        let (vs2, ve2, e2) = generic_match_at(s, i)->Some_0;
        lemma_generic_match_bounds(s, i);
        if i >= 1 {
            assert forall|q: int|
                0 <= q < e2 - i implies rest[i - 1 + q] == #[trigger] s[i + q] by {
                assert(s[1 + (i - 1 + q)] == rest[i - 1 + q]);
            }
            lemma_generic_transfer(s, i, rest, i - 1);
        } else {
            lemma_generic_match_chars(s, 0);
            lemma_openai_redact_maps(t, pos, e2, |c: u8| d1_char(c));
            assert forall|q: int| 0 <= q < e2 - 0 implies t[pos + q] == #[trigger] s[0 + q] by {
                assert(s.take(e2)[q] == t.subrange(pos, pos + e2)[q]);
            }
            lemma_generic_transfer(s, 0, t, pos);
        }
    }
}

/// What the AI-provider detector leaves behind, neither it nor the
/// generic detector matches again, as long as the generic detector had
/// already been run.
proof fn lemma_openai_redact_clean(t: Seq<u8>, pos: int)
    requires
        0 <= pos <= t.len(),
        forall|q: int| 0 <= q < t.len() ==> (#[trigger] generic_match_at(t, q)) is None,
    ensures
        forall|i: int|
            0 <= i < openai_redact_from(t, pos).len() ==> (#[trigger] openai_match_at(
                openai_redact_from(t, pos),
                i,
            )) is None,
        forall|i: int|
            0 <= i < openai_redact_from(t, pos).len() ==> (#[trigger] generic_match_at(
                openai_redact_from(t, pos),
                i,
            )) is None,
    decreases t.len() - pos,
{
    if pos < t.len() {
        match openai_match_at(t, pos) {
            Some(e) => {
                lemma_openai_match_bounds(t, pos);
                lemma_openai_redact_clean(t, e);
                assert forall|i: int|
                    0 <= i < openai_redact_from(t, pos).len() implies (#[trigger] openai_match_at(
                    openai_redact_from(t, pos),
                    i,
                )) is None by {
                    lemma_openai_clean_matched(t, pos, i);
                }
                assert forall|i: int|
                    0 <= i < openai_redact_from(t, pos).len() implies (#[trigger] generic_match_at(
                    openai_redact_from(t, pos),
                    i,
                )) is None by {
                    lemma_openai_clean_matched(t, pos, i);
                }
            },
            None => {
                lemma_openai_redact_clean(t, pos + 1);
                assert forall|i: int|
                    0 <= i < openai_redact_from(t, pos).len() implies (#[trigger] openai_match_at(
                    openai_redact_from(t, pos),
                    i,
                )) is None by {
                    lemma_openai_clean_unmatched(t, pos, i);
                }
                assert forall|i: int|
                    0 <= i < openai_redact_from(t, pos).len() implies (#[trigger] generic_match_at(
                    openai_redact_from(t, pos),
                    i,
                )) is None by {
                    lemma_openai_clean_unmatched(t, pos, i);
                }
            },
        }
    }
}

/// One position of the cloud-provider redaction of a text whose head
/// matched: no detector fires there.
#[verifier::rlimit(60)]
#[verifier::spinoff_prover]
proof fn lemma_aws_clean_matched(t: Seq<u8>, pos: int, i: int)
    requires
        0 <= pos < t.len(),
        aws_match_at(t, pos),
        0 <= i < aws_redact_from(t, pos).len(),
        forall|q: int|
            0 <= q < aws_redact_from(t, pos + 20).len() ==> !(#[trigger] aws_match_at(
                aws_redact_from(t, pos + 20),
                q,
            )),
        forall|q: int|
            0 <= q < aws_redact_from(t, pos + 20).len() ==> (#[trigger] openai_match_at(
                aws_redact_from(t, pos + 20),
                q,
            )) is None,
        forall|q: int|
            0 <= q < aws_redact_from(t, pos + 20).len() ==> (#[trigger] generic_match_at(
                aws_redact_from(t, pos + 20),
                q,
            )) is None,
    ensures
        !aws_match_at(aws_redact_from(t, pos), i),
        openai_match_at(aws_redact_from(t, pos), i) is None,
        generic_match_at(aws_redact_from(t, pos), i) is None,
{
    let s = aws_redact_from(t, pos);
    lemma_aws_label_shape();
    let lab = aws_label();
    let rest = aws_redact_from(t, pos + 20);
    let plen = lab.len();
    assert(s == lab + rest);
    assert forall|q: int| 0 <= q < plen implies s[q] == #[trigger] lab[q] by {}
    assert forall|q: int| 0 <= q < rest.len() implies s[plen + q] == #[trigger] rest[q] by {}
    if aws_match_at(s, i) {
        if i < plen {
            lemma_no_aws_in_label(s, 0, lab, i);
        } else {
            assert forall|q: int| 0 <= q < 20 implies rest[i - plen + q] == #[trigger] s[i
                + q] by {
                assert(s[plen + (i - plen + q)] == rest[i - plen + q]);
            }
            lemma_aws_transfer(s, i, rest, i - plen);
        }
    }
    if openai_match_at(s, i) is Some {
        let e2 = openai_match_at(s, i)->Some_0;
        lemma_openai_match_bounds(s, i);
        if i < plen {
            lemma_no_openai_in_label(s, 0, lab, i);
        } else {
            assert forall|q: int|
                0 <= q < e2 - i implies rest[i - plen + q] == #[trigger] s[i + q] by {
                assert(s[plen + (i - plen + q)] == rest[i - plen + q]);
            }
            lemma_openai_transfer(s, i, rest, i - plen);
        }
    }
    if generic_match_at(s, i) is Some {
        let (vs2, ve2, e2) = generic_match_at(s, i)->Some_0;
        lemma_generic_match_bounds(s, i);
        if i < plen {
            lemma_no_generic_in_label(s, 0, lab, i);
        } else {
            assert forall|q: int|
                0 <= q < e2 - i implies rest[i - plen + q] == #[trigger] s[i + q] by {
                assert(s[plen + (i - plen + q)] == rest[i - plen + q]);
            }
            lemma_generic_transfer(s, i, rest, i - plen);
        }
    }
}

/// One position of the cloud-provider redaction of a text whose head did
/// not match.
#[verifier::rlimit(60)]
#[verifier::spinoff_prover]
proof fn lemma_aws_clean_unmatched(t: Seq<u8>, pos: int, i: int)
    requires
        0 <= pos < t.len(),
        !aws_match_at(t, pos),
        openai_match_at(t, pos) is None,
        generic_match_at(t, pos) is None,
        0 <= i < aws_redact_from(t, pos).len(),
        forall|q: int|
            0 <= q < aws_redact_from(t, pos + 1).len() ==> !(#[trigger] aws_match_at(
                aws_redact_from(t, pos + 1),
                q,
            )),
        forall|q: int|
            0 <= q < aws_redact_from(t, pos + 1).len() ==> (#[trigger] openai_match_at(
                aws_redact_from(t, pos + 1),
                q,
            )) is None,
        forall|q: int|
            0 <= q < aws_redact_from(t, pos + 1).len() ==> (#[trigger] generic_match_at(
                aws_redact_from(t, pos + 1),
                q,
            )) is None,
    ensures
        !aws_match_at(aws_redact_from(t, pos), i),
        openai_match_at(aws_redact_from(t, pos), i) is None,
        generic_match_at(aws_redact_from(t, pos), i) is None,
{
    let s = aws_redact_from(t, pos);
    let rest = aws_redact_from(t, pos + 1);
    assert(s == seq![t[pos]] + rest);
    assert forall|q: int| 0 <= q < rest.len() implies s[1 + q] == #[trigger] rest[q] by {}
    if aws_match_at(s, i) {
        if i >= 1 {
            assert forall|q: int| 0 <= q < 20 implies rest[i - 1 + q] == #[trigger] s[i
                + q] by {
                assert(s[1 + (i - 1 + q)] == rest[i - 1 + q]);
            }
            lemma_aws_transfer(s, i, rest, i - 1);
        } else {
            assert forall|q: int| 0 <= q < 20 implies is_upper_digit(#[trigger] s[q]) by {
                if q < 4 {
                    assert(s[q] == spec_akia_prefix()[q]);
                }
            }
            lemma_aws_redact_maps(t, pos, 20, |c: u8| is_upper_digit(c));
            assert forall|q: int| 0 <= q < 20 implies t[pos + q] == #[trigger] s[0 + q] by {
                assert(s.take(20)[q] == t.subrange(pos, pos + 20)[q]);
            }
            lemma_aws_transfer(s, 0, t, pos);
        }
    }
    if openai_match_at(s, i) is Some {
        let e2 = openai_match_at(s, i)->Some_0;
        lemma_openai_match_bounds(s, i);
        if i >= 1 {
            assert forall|q: int|
                0 <= q < e2 - i implies rest[i - 1 + q] == #[trigger] s[i + q] by {
                assert(s[1 + (i - 1 + q)] == rest[i - 1 + q]);
            }
            lemma_openai_transfer(s, i, rest, i - 1);
        } else {
            lemma_openai_match_chars(s, 0);
            lemma_aws_redact_maps(t, pos, e2, |c: u8| d2_char(c));
            assert forall|q: int| 0 <= q < e2 - 0 implies t[pos + q] == #[trigger] s[0 + q] by {
                assert(s.take(e2)[q] == t.subrange(pos, pos + e2)[q]);
            }
            lemma_openai_transfer(s, 0, t, pos);
        }
    }
    if generic_match_at(s, i) is Some {
        let (vs2, ve2, e2) = generic_match_at(s, i)->Some_0;
        lemma_generic_match_bounds(s, i);
        if i >= 1 {
            assert forall|q: int|
                0 <= q < e2 - i implies rest[i - 1 + q] == #[trigger] s[i + q] by {
                assert(s[1 + (i - 1 + q)] == rest[i - 1 + q]);
            }
            lemma_generic_transfer(s, i, rest, i - 1);
        } else {
            lemma_generic_match_chars(s, 0);
            lemma_aws_redact_maps(t, pos, e2, |c: u8| d1_char(c));
            assert forall|q: int| 0 <= q < e2 - 0 implies t[pos + q] == #[trigger] s[0 + q] by {
                assert(s.take(e2)[q] == t.subrange(pos, pos + e2)[q]);
            }
            lemma_generic_transfer(s, 0, t, pos);
        }
    }
}

/// What the cloud-provider detector leaves behind, no detector matches
/// again, as long as the other two had already been run.
proof fn lemma_aws_redact_clean(t: Seq<u8>, pos: int)
    requires
        0 <= pos <= t.len(),
        forall|q: int| 0 <= q < t.len() ==> (#[trigger] generic_match_at(t, q)) is None,
        forall|q: int| 0 <= q < t.len() ==> (#[trigger] openai_match_at(t, q)) is None,
    ensures
        forall|i: int|
            0 <= i < aws_redact_from(t, pos).len() ==> !(#[trigger] aws_match_at(
                aws_redact_from(t, pos),
                i,
            )),
        forall|i: int|
            0 <= i < aws_redact_from(t, pos).len() ==> (#[trigger] openai_match_at(
                aws_redact_from(t, pos),
                i,
            )) is None,
        forall|i: int|
            0 <= i < aws_redact_from(t, pos).len() ==> (#[trigger] generic_match_at(
                aws_redact_from(t, pos),
                i,
            )) is None,
    decreases t.len() - pos,
{
    if pos < t.len() {
        if aws_match_at(t, pos) {
            lemma_aws_redact_clean(t, pos + 20);
            assert forall|i: int|
                0 <= i < aws_redact_from(t, pos).len() implies !(#[trigger] aws_match_at(
                aws_redact_from(t, pos),
                i,
            )) by {
                lemma_aws_clean_matched(t, pos, i);
            }
            assert forall|i: int|
                0 <= i < aws_redact_from(t, pos).len() implies (#[trigger] openai_match_at(
                aws_redact_from(t, pos),
                i,
            )) is None by {
                lemma_aws_clean_matched(t, pos, i);
            }
            assert forall|i: int|
                0 <= i < aws_redact_from(t, pos).len() implies (#[trigger] generic_match_at(
                aws_redact_from(t, pos),
                i,
            )) is None by {
                lemma_aws_clean_matched(t, pos, i);
            }
        } else {
            lemma_aws_redact_clean(t, pos + 1);
            assert forall|i: int|
                0 <= i < aws_redact_from(t, pos).len() implies !(#[trigger] aws_match_at(
                aws_redact_from(t, pos),
                i,
            )) by {
                lemma_aws_clean_unmatched(t, pos, i);
            }
            assert forall|i: int|
                0 <= i < aws_redact_from(t, pos).len() implies (#[trigger] openai_match_at(
                aws_redact_from(t, pos),
                i,
            )) is None by {
                lemma_aws_clean_unmatched(t, pos, i);
            }
            assert forall|i: int|
                0 <= i < aws_redact_from(t, pos).len() implies (#[trigger] generic_match_at(
                aws_redact_from(t, pos),
                i,
            )) is None by {
                lemma_aws_clean_unmatched(t, pos, i);
            }
        }
    }
}

// ------------------------------------------------- clean text stays as it is

proof fn lemma_generic_redact_id_from(t: Seq<u8>, pos: int)
    requires
        0 <= pos <= t.len(),
        forall|i: int| 0 <= i < t.len() ==> (#[trigger] generic_match_at(t, i)) is None,
    ensures
        generic_redact_from(t, pos) == t.skip(pos),
    decreases t.len() - pos,
{
    if pos < t.len() {
        lemma_generic_redact_id_from(t, pos + 1);
        assert(t.skip(pos) =~= seq![t[pos]] + t.skip(pos + 1));
    } else {
        assert(t.skip(pos) =~= Seq::<u8>::empty());
    }
}

proof fn lemma_openai_redact_id_from(t: Seq<u8>, pos: int)
    requires
        0 <= pos <= t.len(),
        forall|i: int| 0 <= i < t.len() ==> (#[trigger] openai_match_at(t, i)) is None,
    ensures
        openai_redact_from(t, pos) == t.skip(pos),
    decreases t.len() - pos,
{
    if pos < t.len() {
        lemma_openai_redact_id_from(t, pos + 1);
        assert(t.skip(pos) =~= seq![t[pos]] + t.skip(pos + 1));
    } else {
        assert(t.skip(pos) =~= Seq::<u8>::empty());
    }
}

proof fn lemma_aws_redact_id_from(t: Seq<u8>, pos: int)
    requires
        0 <= pos <= t.len(),
        forall|i: int| 0 <= i < t.len() ==> !(#[trigger] aws_match_at(t, i)),
    ensures
        aws_redact_from(t, pos) == t.skip(pos),
    decreases t.len() - pos,
{
    if pos < t.len() {
        lemma_aws_redact_id_from(t, pos + 1);
        assert(t.skip(pos) =~= seq![t[pos]] + t.skip(pos + 1));
    } else {
        assert(t.skip(pos) =~= Seq::<u8>::empty());
    }
}

/// A text in which no detector finds anything is left exactly as it is by
/// the scanner; a processed file then shows the original content, or the
/// same content with only the line-number prefixes added.
pub proof fn lemma_clean_text_unchanged(t: Seq<u8>, number: bool)
    requires
        !has_generic_match(t),
        !has_openai_match(t),
        !has_aws_match(t),
    ensures
        scan_spec(t) == t,
        !scan_finds(t),
        processed_text(t, number) == (if number {
            numbered(t)
        } else {
            t
        }),
{
    assert forall|i: int| 0 <= i < t.len() implies (#[trigger] generic_match_at(t, i))
        is None by {
        if generic_match_at(t, i) is Some {
            assert(has_generic_match(t));
        }
    }
    lemma_generic_redact_id_from(t, 0);
    assert(t.skip(0) =~= t);
    assert(generic_redact(t) == t);
    assert forall|i: int| 0 <= i < t.len() implies (#[trigger] openai_match_at(t, i))
        is None by {
        if openai_match_at(t, i) is Some {
            assert(has_openai_match(t));
        }
    }
    lemma_openai_redact_id_from(t, 0);
    assert(openai_redact(t) == t);
    assert forall|i: int| 0 <= i < t.len() implies !(#[trigger] aws_match_at(t, i)) by {
        if aws_match_at(t, i) {
            assert(has_aws_match(t));
        }
    }
    lemma_aws_redact_id_from(t, 0);
    assert(aws_redact(t) == t);
}

/// Re-running the scanner on already-redacted text produces no further
/// change: no detector matches the text the three detectors left behind,
/// their placeholders included, so a second scan returns its input and
/// reports nothing found.
pub proof fn lemma_scan_idempotent(t: Seq<u8>)
    ensures
        scan_spec(scan_spec(t)) == scan_spec(t),
        !scan_finds(scan_spec(t)),
{
    let t1 = generic_redact(t);
    let t2 = openai_redact(t1);
    let t3 = aws_redact(t2);
    lemma_generic_redact_clean(t, 0);
    lemma_openai_redact_clean(t1, 0);
    lemma_aws_redact_clean(t2, 0);
    assert(!has_generic_match(t3));
    assert(!has_openai_match(t3));
    assert(!has_aws_match(t3));
    lemma_clean_text_unchanged(t3, false);
}

// ----------------------------------------------- what the payload may show

/// Every block path is the path of some successfully processed entry.
proof fn lemma_block_paths_member(entries: Seq<(Vec<u8>, Option<ProcessedFile>)>, k: int)
    requires
        0 <= k < block_paths(entries).len(),
    ensures
        exists|i: int|
            0 <= i < entries.len() && (#[trigger] entries[i]).1 is Some && entries[i].0@
                == block_paths(entries)[k],
    decreases entries.len(),
{
    if entries.len() > 0 {
        let tail = entries.skip(1);
        let bp = block_paths(entries);
        if entries[0].1 is Some {
            if k == 0 {
                assert(bp[0] == entries[0].0@);
            } else {
                lemma_block_paths_member(tail, k - 1);
                let i = choose|i: int|
                    0 <= i < tail.len() && (#[trigger] tail[i]).1 is Some && tail[i].0@
                        == block_paths(tail)[k - 1];
                assert(tail[i] == entries[i + 1]);
                assert(bp[k] == block_paths(tail)[k - 1]);
            }
        } else {
            assert(bp =~= block_paths(tail));
            lemma_block_paths_member(tail, k);
            let i = choose|i: int|
                0 <= i < tail.len() && (#[trigger] tail[i]).1 is Some && tail[i].0@
                    == block_paths(tail)[k];
            assert(tail[i] == entries[i + 1]);
        }
    }
}

/// Entries in strictly increasing path order yield block paths in
/// strictly increasing order.
proof fn lemma_block_paths_sorted(entries: Seq<(Vec<u8>, Option<ProcessedFile>)>)
    requires
        forall|i: int, j: int|
            #![trigger entries[i], entries[j]]
            0 <= i < j < entries.len() ==> bytes_lt(entries[i].0@, entries[j].0@),
    ensures
        forall|k1: int, k2: int|
            0 <= k1 < k2 < block_paths(entries).len() ==> bytes_lt(
                #[trigger] block_paths(entries)[k1],
                #[trigger] block_paths(entries)[k2],
            ),
    decreases entries.len(),
{
    if entries.len() > 0 {
        let tail = entries.skip(1);
        assert forall|i: int, j: int|
            #![trigger tail[i], tail[j]]
            0 <= i < j < tail.len() implies bytes_lt(tail[i].0@, tail[j].0@) by {
            assert(tail[i] == entries[i + 1]);
            assert(tail[j] == entries[j + 1]);
        }
        lemma_block_paths_sorted(tail);
        let bp = block_paths(entries);
        let bpt = block_paths(tail);
        if entries[0].1 is Some {
            assert forall|k1: int, k2: int|
                0 <= k1 < k2 < bp.len() implies bytes_lt(
                #[trigger] bp[k1],
                #[trigger] bp[k2],
            ) by {
                if k1 == 0 {
                    assert(bp[k2] == bpt[k2 - 1]);
                    lemma_block_paths_member(tail, k2 - 1);
                    let i = choose|i: int|
                        0 <= i < tail.len() && (#[trigger] tail[i]).1 is Some && tail[i].0@
                            == bpt[k2 - 1];
                    assert(tail[i] == entries[i + 1]);
                    assert(bytes_lt(entries[0].0@, entries[i + 1].0@));
                } else {
                    assert(bp[k1] == bpt[k1 - 1]);
                    assert(bp[k2] == bpt[k2 - 1]);
                }
            }
        } else {
            assert(bp =~= bpt);
        }
    }
}

/// A skipped entry's path never stands among the block paths, as long as
/// the entries' paths are distinct.
proof fn lemma_block_paths_skip_entry(entries: Seq<(Vec<u8>, Option<ProcessedFile>)>, i: int)
    requires
        forall|a: int, b: int|
            #![trigger entries[a], entries[b]]
            0 <= a < b < entries.len() ==> bytes_lt(entries[a].0@, entries[b].0@),
        0 <= i < entries.len(),
        entries[i].1 is None,
    ensures
        !block_paths(entries).contains(entries[i].0@),
{
    let bp = block_paths(entries);
    if bp.contains(entries[i].0@) {
        let k = choose|k: int| 0 <= k < bp.len() && bp[k] == entries[i].0@;
        lemma_block_paths_member(entries, k);
        let j = choose|j: int|
            0 <= j < entries.len() && (#[trigger] entries[j]).1 is Some && entries[j].0@
                == bp[k];
        if j < i {
            assert(bytes_lt(entries[j].0@, entries[i].0@));
        } else {
            assert(bytes_lt(entries[i].0@, entries[j].0@));
        }
        lemma_bytes_lt_irreflexive(entries[i].0@);
    }
}

/// What the payload may show, settled at the level of its file blocks:
/// every block's path belongs to a discovered file that the filter kept;
/// the blocks stand in strictly increasing path order, each path at most
/// once; and an entry the processing skipped leaves no block at all.
/// Instantiated with `plan_scan`'s postcondition and the processing
/// contract, this is the selection property of a whole scan.
pub proof fn lemma_payload_blocks_respect_selection(
    raw: Seq<Vec<u8>>,
    kept: spec_fn(Seq<u8>) -> bool,
    entries: Seq<(Vec<u8>, Option<ProcessedFile>)>,
)
    requires
        forall|i: int, j: int|
            #![trigger entries[i], entries[j]]
            0 <= i < j < entries.len() ==> bytes_lt(entries[i].0@, entries[j].0@),
        forall|i: int|
            0 <= i < entries.len() ==> has_path(raw, (#[trigger] entries[i]).0@) && kept(
                entries[i].0@,
            ),
    ensures
        forall|k: int|
            0 <= k < block_paths(entries).len() ==> has_path(
                raw,
                #[trigger] block_paths(entries)[k],
            ) && kept(block_paths(entries)[k]),
        forall|k1: int, k2: int|
            0 <= k1 < k2 < block_paths(entries).len() ==> bytes_lt(
                #[trigger] block_paths(entries)[k1],
                #[trigger] block_paths(entries)[k2],
            ),
        forall|i: int|
            0 <= i < entries.len() && (#[trigger] entries[i]).1 is None ==> !block_paths(
                entries,
            ).contains(entries[i].0@),
{
    assert forall|k: int|
        0 <= k < block_paths(entries).len() implies has_path(
        raw,
        #[trigger] block_paths(entries)[k],
    ) && kept(block_paths(entries)[k]) by {
        lemma_block_paths_member(entries, k);
        let i = choose|i: int|
            0 <= i < entries.len() && (#[trigger] entries[i]).1 is Some && entries[i].0@
                == block_paths(entries)[k];
    }
    lemma_block_paths_sorted(entries);
    assert forall|i: int|
        0 <= i < entries.len() && (#[trigger] entries[i]).1 is None implies !block_paths(
        entries,
    ).contains(entries[i].0@) by {
        lemma_block_paths_skip_entry(entries, i);
    }
}

/// With exactly two successfully processed files, the payload is the
/// optional context block and the two banners, followed by exactly the
/// first file's block and then the second's, in either block shape.
pub proof fn lemma_two_file_payload(
    context: Option<Seq<u8>>,
    tree: Seq<u8>,
    pa: Vec<u8>,
    fa: ProcessedFile,
    pb: Vec<u8>,
    fb: ProcessedFile,
    fmt: OutputFormat,
)
    ensures
        payload_spec(context, tree, seq![(pa, Some(fa)), (pb, Some(fb))], fmt) == (match context {
            Some(c) => c + seq![10u8],
            None => Seq::empty(),
        }) + lit_structure_header() + tree + lit_contents_header() + file_block(fmt, pa@, fa)
            + file_block(fmt, pb@, fb),
{
    let entries = seq![(pa, Some(fa)), (pb, Some(fb))];
    let second = entries.skip(1);
    assert(second =~= seq![(pb, Some(fb))]);
    assert(second.skip(1) =~= Seq::<(Vec<u8>, Option<ProcessedFile>)>::empty());
    assert(second[0] == (pb, Some(fb)));
    assert(file_blocks(second.skip(1), fmt) =~= Seq::<u8>::empty());
    assert(file_blocks(second, fmt) == file_block(fmt, second[0].0@, fb) + file_blocks(
        second.skip(1),
        fmt,
    ));
    assert(file_blocks(second, fmt) =~= file_block(fmt, pb@, fb));
    assert(entries[0] == (pa, Some(fa)));
    assert(file_blocks(entries, fmt) == file_block(fmt, entries[0].0@, fa) + file_blocks(
        second,
        fmt,
    ));
    assert(file_blocks(entries, fmt) =~= file_block(fmt, pa@, fa) + file_block(fmt, pb@, fb));
    assert(payload_spec(context, tree, entries, fmt) =~= (match context {
        Some(c) => c + seq![10u8],
        None => Seq::<u8>::empty(),
    }) + lit_structure_header() + tree + lit_contents_header() + file_block(fmt, pa@, fa)
        + file_block(fmt, pb@, fb));
}

// ------------------------------------------------ skipped files leave nothing

/// An entry whose processing produced nothing leaves no block in the
/// payload: the file blocks are those of the other entries alone. With the
/// processing contract, a file whose probe held a zero byte is such an
/// entry, so it never appears in the final payload.
pub proof fn lemma_skipped_entry_leaves_no_block(
    entries: Seq<(Vec<u8>, Option<ProcessedFile>)>,
    fmt: OutputFormat,
    i: int,
)
    requires
        0 <= i < entries.len(),
        entries[i].1 is None,
    ensures
        file_blocks(entries, fmt) == file_blocks(entries.remove(i), fmt),
    decreases entries.len(),
{
    if i == 0 {
        assert(entries.remove(0) =~= entries.skip(1));
    } else {
        lemma_skipped_entry_leaves_no_block(entries.skip(1), fmt, i - 1);
        assert(entries.remove(i).skip(1) =~= entries.skip(1).remove(i - 1));
        assert(entries.remove(i)[0] == entries[0]);
        assert(file_blocks(entries, fmt) == (match entries[0].1 {
            Some(pf) => file_block(fmt, entries[0].0@, pf),
            None => Seq::empty(),
        }) + file_blocks(entries.skip(1), fmt));
    }
}

} // verus!
