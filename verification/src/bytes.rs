//! Helpers over byte strings: comparison, concatenation and decimal
//! rendering. All texts the core handles are byte strings.
#![allow(unused_imports)]
use vstd::prelude::*;

verus! {

/// Strict lexicographic order on byte strings.
pub open spec fn bytes_lt(a: Seq<u8>, b: Seq<u8>) -> bool
    decreases a.len(),
{
    if b.len() == 0 {
        false
    } else if a.len() == 0 {
        true
    } else if a[0] < b[0] {
        true
    } else if a[0] == b[0] {
        bytes_lt(a.skip(1), b.skip(1))
    } else {
        false
    }
}

/// `bytes_lt` never holds of a string and itself.
pub proof fn lemma_bytes_lt_irreflexive(a: Seq<u8>)
    ensures
        !bytes_lt(a, a),
    decreases a.len(),
{
    if a.len() > 0 {
        lemma_bytes_lt_irreflexive(a.skip(1));
    }
}

/// Of two distinct byte strings, exactly one is `bytes_lt` the other.
pub proof fn lemma_bytes_lt_total(a: Seq<u8>, b: Seq<u8>)
    ensures
        bytes_lt(a, b) || bytes_lt(b, a) || a == b,
        !(bytes_lt(a, b) && bytes_lt(b, a)),
    decreases a.len(),
{
    if a.len() > 0 && b.len() > 0 && a[0] == b[0] {
        lemma_bytes_lt_total(a.skip(1), b.skip(1));
        if a.skip(1) == b.skip(1) {
            assert(a =~= b) by {
                assert forall|i: int| 0 <= i < a.len() implies a[i] == b[i] by {
                    if i > 0 {
                        assert(a[i] == a.skip(1)[i - 1]);
                        assert(b[i] == b.skip(1)[i - 1]);
                    }
                }
            }
        }
    }
}

/// `bytes_lt` is transitive.
pub proof fn lemma_bytes_lt_transitive(a: Seq<u8>, b: Seq<u8>, c: Seq<u8>)
    requires
        bytes_lt(a, b),
        bytes_lt(b, c),
    ensures
        bytes_lt(a, c),
    decreases a.len(),
{
    if a.len() > 0 && b.len() > 0 && c.len() > 0 {
        if a[0] == b[0] && b[0] == c[0] {
            lemma_bytes_lt_transitive(a.skip(1), b.skip(1), c.skip(1));
        }
    }
}

/// Compares two byte strings; the result is the `bytes_lt` order.
pub fn bytes_lt_exec(a: &Vec<u8>, b: &Vec<u8>) -> (r: bool)
    ensures
        r == bytes_lt(a@, b@),
{
    let mut i: usize = 0;
    proof {
        assert(a@.skip(0) =~= a@);
        assert(b@.skip(0) =~= b@);
        assert(a@.take(0) =~= b@.take(0));
    }
    loop
        invariant
            i <= a.len(),
            i <= b.len(),
            a@.take(i as int) == b@.take(i as int),
            bytes_lt(a@, b@) == bytes_lt(a@.skip(i as int), b@.skip(i as int)),
        decreases a.len() - i,
    {
        proof {
            lemma_bytes_lt_step(a@, b@, i as int);
        }
        if i == a.len() {
            return i < b.len();
        }
        if i == b.len() {
            return false;
        }
        let ca = a[i];
        let cb = b[i];
        if ca < cb {
            return true;
        }
        if ca > cb {
            return false;
        }
        proof {
            assert(a@.take(i as int + 1) =~= a@.take(i as int).push(a@[i as int]));
            assert(b@.take(i as int + 1) =~= b@.take(i as int).push(b@[i as int]));
            assert(a@.skip(i as int).skip(1) =~= a@.skip(i as int + 1));
            assert(b@.skip(i as int).skip(1) =~= b@.skip(i as int + 1));
        }
        i = i + 1;
    }
}

/// One unfolding of `bytes_lt` on the suffixes starting at `i`.
proof fn lemma_bytes_lt_step(a: Seq<u8>, b: Seq<u8>, i: int)
    requires
        0 <= i <= a.len(),
        0 <= i <= b.len(),
    ensures
        i == a.len() && i == b.len() ==> !bytes_lt(a.skip(i), b.skip(i)),
        i == a.len() && i < b.len() ==> bytes_lt(a.skip(i), b.skip(i)),
        i < a.len() && i == b.len() ==> !bytes_lt(a.skip(i), b.skip(i)),
        i < a.len() && i < b.len() && a[i] < b[i] ==> bytes_lt(a.skip(i), b.skip(i)),
        i < a.len() && i < b.len() && a[i] > b[i] ==> !bytes_lt(a.skip(i), b.skip(i)),
        i < a.len() && i < b.len() && a[i] == b[i] ==> bytes_lt(a.skip(i), b.skip(i)) == bytes_lt(
            a.skip(i + 1),
            b.skip(i + 1),
        ),
{
    if i < a.len() && i < b.len() && a[i] == b[i] {
        assert(a.skip(i).skip(1) =~= a.skip(i + 1));
        assert(b.skip(i).skip(1) =~= b.skip(i + 1));
    }
}

/// Tests two byte strings for equality.
pub fn bytes_eq(a: &Vec<u8>, b: &Vec<u8>) -> (r: bool)
    ensures
        r == (a@ == b@),
{
    if a.len() != b.len() {
        return false;
    }
    let mut i: usize = 0;
    while i < a.len()
        invariant
            i <= a.len(),
            a.len() == b.len(),
            a@.take(i as int) == b@.take(i as int),
        decreases a.len() - i,
    {
        if a[i] != b[i] {
            return false;
        }
        proof {
            assert(a@.take(i as int + 1) =~= a@.take(i as int).push(a@[i as int]));
            assert(b@.take(i as int + 1) =~= b@.take(i as int).push(b@[i as int]));
        }
        i = i + 1;
    }
    proof {
        assert(a@.take(a.len() as int) =~= a@);
        assert(b@.take(b.len() as int) =~= b@);
    }
    true
}

/// Appends a copy of `s` to `out`.
pub fn extend_bytes(out: &mut Vec<u8>, s: &Vec<u8>)
    ensures
        final(out)@ == old(out)@ + s@,
{
    let mut i: usize = 0;
    while i < s.len()
        invariant
            i <= s.len(),
            out@ == old(out)@ + s@.take(i as int),
        decreases s.len() - i,
    {
        out.push(s[i]);
        proof {
            assert(old(out)@ + s@.take(i as int + 1) =~= (old(out)@ + s@.take(i as int)).push(
                s@[i as int],
            ));
        }
        i = i + 1;
    }
    proof {
        assert(s@.take(s.len() as int) =~= s@);
    }
}

/// Appends a copy of `t[from..to]` to `out`.
pub fn extend_slice(out: &mut Vec<u8>, t: &Vec<u8>, from: usize, to: usize)
    requires
        from <= to <= t@.len(),
    ensures
        final(out)@ == old(out)@ + t@.subrange(from as int, to as int),
{
    let mut j: usize = from;
    proof {
        assert(out@ =~= out@ + t@.subrange(from as int, from as int));
    }
    while j < to
        invariant
            from <= j <= to <= t@.len(),
            out@ == old(out)@ + t@.subrange(from as int, j as int),
        decreases to - j,
    {
        out.push(t[j]);
        proof {
            assert(old(out)@ + t@.subrange(from as int, j as int + 1) =~= (old(out)@
                + t@.subrange(from as int, j as int)).push(t@[j as int]));
        }
        j = j + 1;
    }
    proof {
        assert(out@ =~= old(out)@ + t@.subrange(from as int, to as int));
    }
}

/// End of the maximal run of characters satisfying `pred`, starting at `i`.
pub open spec fn run_end(t: Seq<u8>, i: int, pred: spec_fn(u8) -> bool) -> int
    decreases t.len() - i,
{
    if 0 <= i < t.len() && pred(t[i]) {
        run_end(t, i + 1, pred)
    } else {
        i
    }
}

/// What `run_end` yields: a maximal in-bounds run.
pub proof fn lemma_run_end(t: Seq<u8>, i: int, pred: spec_fn(u8) -> bool)
    requires
        0 <= i <= t.len(),
    ensures
        i <= run_end(t, i, pred) <= t.len(),
        forall|j: int| i <= j < run_end(t, i, pred) ==> pred(t[j]),
        run_end(t, i, pred) < t.len() ==> !pred(t[run_end(t, i, pred)]),
    decreases t.len() - i,
{
    if i < t.len() && pred(t[i]) {
        lemma_run_end(t, i + 1, pred);
    }
}

/// The not-a-newline class as a value.
pub open spec fn nl_pred() -> spec_fn(u8) -> bool {
    |c: u8| c != 10
}

/// The views of a list of byte vectors.
pub open spec fn views(s: Seq<Vec<u8>>) -> Seq<Seq<u8>> {
    s.map_values(|v: Vec<u8>| v@)
}

/// The lines of `t` from `pos` on: segments split at a line feed, a
/// carriage return directly before a line feed dropped, no final empty
/// segment after a trailing line feed. A final segment that no line feed
/// closes keeps a trailing carriage return.
pub open spec fn lines_from(t: Seq<u8>, pos: int) -> Seq<Seq<u8>>
    decreases t.len() - pos,
    via lines_from_decreases
{
    if !(0 <= pos < t.len()) {
        Seq::empty()
    } else {
        let e = run_end(t, pos, nl_pred());
        let seg = t.subrange(pos, e);
        let line = if e < t.len() && seg.len() > 0 && seg[seg.len() - 1] == 13 {
            seg.take(seg.len() - 1)
        } else {
            seg
        };
        seq![line] + lines_from(t, if e < t.len() { e + 1 } else { e })
    }
}

#[via_fn]
proof fn lines_from_decreases(t: Seq<u8>, pos: int) {
    if 0 <= pos < t.len() {
        lemma_run_end(t, pos, nl_pred());
    }
}

/// The lines of `t`.
pub open spec fn lines_of(t: Seq<u8>) -> Seq<Seq<u8>> {
    lines_from(t, 0)
}

/// Splits `t` into its lines.
pub fn split_lines(t: &Vec<u8>) -> (r: Vec<Vec<u8>>)
    ensures
        views(r@) == lines_of(t@),
{
    let mut r: Vec<Vec<u8>> = Vec::new();
    let mut pos: usize = 0;
    proof {
        assert(t.len() == t@.len());
        assert(views(r@) + lines_from(t@, 0) =~= lines_from(t@, 0));
    }
    while pos < t.len()
        invariant
            pos <= t@.len(),
            t@.len() <= usize::MAX,
            lines_of(t@) == views(r@) + lines_from(t@, pos as int),
        decreases t@.len() - pos,
    {
        proof {
            lemma_run_end(t@, pos as int, nl_pred());
        }
        let mut e: usize = pos;
        while e < t.len() && t[e] != 10
            invariant
                pos <= e <= t@.len(),
                t@.len() <= usize::MAX,
                run_end(t@, pos as int, nl_pred()) == run_end(t@, e as int, nl_pred()),
            decreases t@.len() - e,
        {
            e = e + 1;
        }
        let seg_end = if e < t.len() && e > pos && t[e - 1] == 13 {
            e - 1
        } else {
            e
        };
        let mut line: Vec<u8> = Vec::new();
        extend_slice(&mut line, t, pos, seg_end);
        let ghost pre = r@;
        r.push(line);
        let next = if e < t.len() {
            e + 1
        } else {
            e
        };
        proof {
            let eg = run_end(t@, pos as int, nl_pred());
            let seg = t@.subrange(pos as int, eg);
            let spec_line = if eg < t@.len() && seg.len() > 0 && seg[seg.len() - 1] == 13 {
                seg.take(seg.len() - 1)
            } else {
                seg
            };
            assert(line@ =~= spec_line);
            assert(views(r@) =~= views(pre).push(line@));
            assert(lines_from(t@, pos as int) == seq![spec_line] + lines_from(t@, next as int));
            assert(views(pre) + (seq![spec_line] + lines_from(t@, next as int)) =~= views(r@)
                + lines_from(t@, next as int));
        }
        pos = next;
    }
    proof {
        assert(views(r@) + lines_from(t@, pos as int) =~= views(r@));
    }
    r
}

/// Copies a byte string.
pub fn copy_bytes(t: &Vec<u8>) -> (r: Vec<u8>)
    ensures
        r@ == t@,
{
    let mut r: Vec<u8> = Vec::new();
    extend_slice(&mut r, t, 0, t.len());
    proof {
        assert(t@.subrange(0, t@.len() as int) =~= t@);
        assert(r@ =~= t@);
    }
    r
}

/// The decimal digits of `n`, most significant first.
pub open spec fn dec_digits(n: nat) -> Seq<u8>
    decreases n,
{
    if n < 10 {
        seq![(48 + n) as u8]
    } else {
        dec_digits(n / 10) + seq![(48 + n % 10) as u8]
    }
}

/// Renders `n` in decimal.
pub fn u64_to_dec(n: u64) -> (r: Vec<u8>)
    ensures
        r@ == dec_digits(n as nat),
    decreases n,
{
    if n < 10 {
        let mut v: Vec<u8> = Vec::new();
        v.push(48 + (n as u8));
        proof {
            assert(v@ =~= dec_digits(n as nat));
        }
        v
    } else {
        let mut v = u64_to_dec(n / 10);
        v.push(48 + ((n % 10) as u8));
        proof {
            assert(v@ =~= dec_digits(n as nat));
        }
        v
    }
}

} // verus!
