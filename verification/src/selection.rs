//! File selection: the glob filter, the deterministic ordering of the
//! retained paths, the directory-pruning predicate a discovery walk asks,
//! and the parsing of a git-diff file list.
#![allow(unused_imports)]
use vstd::prelude::*;
use crate::bytes::{
    bytes_eq, bytes_lt, bytes_lt_exec, copy_bytes, lemma_bytes_lt_total, lemma_bytes_lt_transitive,
    lines_of, split_lines, views,
};
use crate::ScanError;

verus! {

// ------------------------------------------------------------ glob matching

/// Whether a glob pattern compiles; what `glob::Pattern::new` accepts.
pub uninterp spec fn glob_valid(pattern: Seq<u8>) -> bool;

/// Whether a path matches a glob pattern; what `glob::Pattern::matches`
/// answers for the compiled pattern.
pub uninterp spec fn glob_matches(pattern: Seq<u8>, path: Seq<u8>) -> bool;

/// Relies on glob::Pattern::new: whether a pattern compiles is a function
/// of the pattern text alone. The texts are read as UTF-8, lossily.
#[verifier::external_body]
fn glob_pattern_ok(pattern: &Vec<u8>) -> (r: bool)
    ensures
        r == glob_valid(pattern@),
{
    glob::Pattern::new(&String::from_utf8_lossy(pattern)).is_ok()
}

/// Relies on glob::Pattern::new and glob::Pattern::matches: whether a path
/// matches is a function of the pattern and path texts alone. The pattern
/// is known to compile, so the unwrap cannot fail.
#[verifier::external_body]
fn glob_match_exec(pattern: &Vec<u8>, path: &Vec<u8>) -> (r: bool)
    requires
        glob_valid(pattern@),
    ensures
        r == glob_matches(pattern@, path@),
{
    let compiled = glob::Pattern::new(&String::from_utf8_lossy(pattern)).unwrap();
    compiled.matches(&String::from_utf8_lossy(path))
}

/// Whether the optional filter keeps `path`.
pub open spec fn filter_keeps(filter: Option<Seq<u8>>, path: Seq<u8>) -> bool {
    match filter {
        Some(p) => glob_matches(p, path),
        None => true,
    }
}

/// The view of an optional pattern.
pub open spec fn filter_view(filter: Option<Vec<u8>>) -> Option<Seq<u8>> {
    match filter {
        Some(p) => Some(p@),
        None => None,
    }
}

// ------------------------------------------------------------------ ordering

/// `q` is among the paths of `s`.
pub open spec fn has_path(s: Seq<Vec<u8>>, q: Seq<u8>) -> bool {
    exists|i: int| 0 <= i < s.len() && (#[trigger] s[i])@ == q
}

/// The paths of `s` are strictly increasing: sorted, with no duplicate.
pub open spec fn sorted_strict(s: Seq<Vec<u8>>) -> bool {
    forall|i: int, j: int|
        #![trigger s[i], s[j]]
        0 <= i < j < s.len() ==> bytes_lt(s[i]@, s[j]@)
}

/// Inserts `x` into a strictly sorted list, keeping it strictly sorted;
/// a path already present is not duplicated.
fn insert_sorted_unique(list: &mut Vec<Vec<u8>>, x: Vec<u8>)
    requires
        sorted_strict(old(list)@),
    ensures
        sorted_strict(final(list)@),
        forall|q: Seq<u8>|
            #[trigger] has_path(final(list)@, q) <==> (has_path(old(list)@, q) || q == x@),
{
    let mut i: usize = 0;
    while i < list.len() && bytes_lt_exec(&list[i], &x)
        invariant
            i <= list@.len(),
            list@ == old(list)@,
            sorted_strict(list@),
            forall|j: int| 0 <= j < i ==> bytes_lt((#[trigger] list@[j])@, x@),
        decreases list@.len() - i,
    {
        i = i + 1;
    }
    if i < list.len() {
        if bytes_eq(&list[i], &x) {
            proof {
                assert forall|q: Seq<u8>|
                    #[trigger] has_path(list@, q) <==> (has_path(old(list)@, q) || q == x@) by {
                    if q == x@ {
                        assert(list@[i as int]@ == q);
                    }
                }
            }
            return ;
        }
    }
    let ghost pre = list@;
    list.insert(i, x);
    proof {
        assert(list@ == pre.insert(i as int, x));
        assert forall|a: int, b: int|
            #![trigger list@[a], list@[b]]
            0 <= a < b < list@.len() implies bytes_lt(list@[a]@, list@[b]@) by {
            if i < pre.len() {
                lemma_bytes_lt_total(pre[i as int]@, x@);
            }
            if a == i {
                // x before the old element at i and everything after it
                if b > i {
                    assert(list@[b]@ == pre[b - 1]@);
                    if b - 1 > i {
                        lemma_bytes_lt_transitive(x@, pre[i as int]@, pre[b - 1]@);
                    }
                }
            } else if b == i {
                assert(list@[a]@ == pre[a]@);
            } else {
                if a < i && b > i {
                    assert(list@[a]@ == pre[a]@);
                    assert(list@[b]@ == pre[b - 1]@);
                } else if b < i {
                    assert(list@[a]@ == pre[a]@);
                    assert(list@[b]@ == pre[b]@);
                } else {
                    assert(list@[a]@ == pre[a - 1]@);
                    assert(list@[b]@ == pre[b - 1]@);
                }
            }
        }
        assert forall|q: Seq<u8>|
            #[trigger] has_path(list@, q) <==> (has_path(pre, q) || q == x@) by {
            if has_path(list@, q) {
                let k = choose|k: int| 0 <= k < list@.len() && (#[trigger] list@[k])@ == q;
                if k < i {
                    assert(pre[k]@ == q);
                } else if k > i {
                    assert(pre[k - 1]@ == q);
                }
            }
            if has_path(pre, q) {
                let k = choose|k: int| 0 <= k < pre.len() && (#[trigger] pre[k])@ == q;
                if k < i {
                    assert(list@[k]@ == q);
                } else {
                    assert(list@[k + 1]@ == q);
                }
            }
            if q == x@ {
                assert(list@[i as int]@ == q);
            }
        }
    }
}

// ----------------------------------------------------------------- planning

/// Applies the optional glob filter to the discovered paths and orders the
/// kept ones strictly: sorted lexicographically, each path at most once.
/// An invalid pattern is a fatal configuration error, found before any
/// per-path work.
pub fn plan_scan(raw: &Vec<Vec<u8>>, filter: &Option<Vec<u8>>) -> (r: Result<
    Vec<Vec<u8>>,
    ScanError,
>)
    ensures
        match r {
            Ok(planned) => {
                &&& (match filter {
                    Some(p) => glob_valid(p@),
                    None => true,
                })
                &&& sorted_strict(planned@)
                &&& forall|q: Seq<u8>|
                    #[trigger] has_path(planned@, q) <==> (has_path(raw@, q) && filter_keeps(
                        filter_view(*filter),
                        q,
                    ))
            },
            Err(e) => {
                &&& e == ScanError::InvalidGlob
                &&& match filter {
                    Some(p) => !glob_valid(p@),
                    None => false,
                }
            },
        },
{
    match filter {
        Some(p) => {
            if !glob_pattern_ok(p) {
                return Err(ScanError::InvalidGlob);
            }
        },
        None => {},
    }
    let mut planned: Vec<Vec<u8>> = Vec::new();
    let mut i: usize = 0;
    while i < raw.len()
        invariant
            i <= raw@.len(),
            match filter {
                Some(p) => glob_valid(p@),
                None => true,
            },
            sorted_strict(planned@),
            forall|q: Seq<u8>|
                #[trigger] has_path(planned@, q) <==> (has_path(raw@.take(i as int), q)
                    && filter_keeps(filter_view(*filter), q)),
        decreases raw@.len() - i,
    {
        let keep = match filter {
            Some(p) => glob_match_exec(p, &raw[i]),
            None => true,
        };
        let ghost pre = planned@;
        if keep {
            insert_sorted_unique(&mut planned, copy_bytes(&raw[i]));
        }
        proof {
            assert forall|q: Seq<u8>|
                #[trigger] has_path(planned@, q) <==> (has_path(raw@.take(i as int + 1), q)
                    && filter_keeps(filter_view(*filter), q)) by {
                let prefix = raw@.take(i as int);
                let prefix1 = raw@.take(i as int + 1);
                assert(prefix1 =~= prefix.push(raw@[i as int]));
                if has_path(prefix, q) {
                    let k = choose|k: int| 0 <= k < prefix.len() && (#[trigger] prefix[k])@ == q;
                    assert(prefix1[k]@ == q);
                }
                if has_path(prefix1, q) {
                    let k = choose|k: int| 0 <= k < prefix1.len() && (#[trigger] prefix1[k])@ == q;
                    if k < prefix.len() {
                        assert(prefix[k]@ == q);
                    }
                }
                if q == raw@[i as int]@ {
                    assert(prefix1[i as int]@ == q);
                }
            }
        }
        i = i + 1;
    }
    proof {
        assert(raw@.take(raw@.len() as int) =~= raw@);
    }
    Ok(planned)
}

// ------------------------------------------------------------------ pruning

/// The bulk directories a full walk prunes before visiting their contents.
pub open spec fn pruned_dirs() -> Seq<Seq<u8>> {
    seq![
        seq![110u8, 111, 100, 101, 95, 109, 111, 100, 117, 108, 101, 115],
        seq![46u8, 103, 105, 116],
        seq![116u8, 97, 114, 103, 101, 116],
        seq![100u8, 105, 115, 116],
        seq![98u8, 117, 105, 108, 100],
        seq![118u8, 101, 110, 100, 111, 114],
        seq![46u8, 110, 101, 120, 116],
    ]
}

/// Whether a directory of this name is pruned at discovery time, so that
/// its contents are never visited.
pub fn is_pruned_dir(name: &Vec<u8>) -> (r: bool)
    ensures
        r == pruned_dirs().contains(name@),
{
    let table = pruned_dirs_vec();
    let mut i: usize = 0;
    while i < table.len()
        invariant
            i <= table@.len(),
            table@.len() == 7,
            forall|q: int| 0 <= q < 7 ==> (#[trigger] table@[q])@ == pruned_dirs()[q],
            forall|q: int| 0 <= q < i ==> pruned_dirs()[q] != name@,
        decreases table@.len() - i,
    {
        if bytes_eq(&table[i], name) {
            assert(pruned_dirs()[i as int] == name@);
            return true;
        }
        i = i + 1;
    }
    assert(forall|q: int| 0 <= q < pruned_dirs().len() ==> pruned_dirs()[q] != name@);
    false
}

fn pruned_dirs_vec() -> (r: Vec<Vec<u8>>)
    ensures
        r@.len() == 7,
        forall|q: int| 0 <= q < 7 ==> (#[trigger] r@[q])@ == pruned_dirs()[q],
{
    let mut r: Vec<Vec<u8>> = Vec::new();
    let mut w: Vec<u8> = Vec::new();
    w.push(110);
    w.push(111);
    w.push(100);
    w.push(101);
    w.push(95);
    w.push(109);
    w.push(111);
    w.push(100);
    w.push(117);
    w.push(108);
    w.push(101);
    w.push(115);
    proof {
        assert(w@ =~= pruned_dirs()[0]);
    }
    r.push(w);
    let mut w: Vec<u8> = Vec::new();
    w.push(46);
    w.push(103);
    w.push(105);
    w.push(116);
    proof {
        assert(w@ =~= pruned_dirs()[1]);
    }
    r.push(w);
    let mut w: Vec<u8> = Vec::new();
    w.push(116);
    w.push(97);
    w.push(114);
    w.push(103);
    w.push(101);
    w.push(116);
    proof {
        assert(w@ =~= pruned_dirs()[2]);
    }
    r.push(w);
    let mut w: Vec<u8> = Vec::new();
    w.push(100);
    w.push(105);
    w.push(115);
    w.push(116);
    proof {
        assert(w@ =~= pruned_dirs()[3]);
    }
    r.push(w);
    let mut w: Vec<u8> = Vec::new();
    w.push(98);
    w.push(117);
    w.push(105);
    w.push(108);
    w.push(100);
    proof {
        assert(w@ =~= pruned_dirs()[4]);
    }
    r.push(w);
    let mut w: Vec<u8> = Vec::new();
    w.push(118);
    w.push(101);
    w.push(110);
    w.push(100);
    w.push(111);
    w.push(114);
    proof {
        assert(w@ =~= pruned_dirs()[5]);
    }
    r.push(w);
    let mut w: Vec<u8> = Vec::new();
    w.push(46);
    w.push(110);
    w.push(101);
    w.push(120);
    w.push(116);
    proof {
        assert(w@ =~= pruned_dirs()[6]);
    }
    r.push(w);
    r
}

// ----------------------------------------------------------- git-diff lists

/// The nonempty entries of a list of lines.
pub open spec fn drop_empty(ls: Seq<Seq<u8>>) -> Seq<Seq<u8>>
    decreases ls.len(),
{
    if ls.len() == 0 {
        Seq::empty()
    } else if ls[0].len() > 0 {
        seq![ls[0]] + drop_empty(ls.skip(1))
    } else {
        drop_empty(ls.skip(1))
    }
}

/// The candidate paths in the output of a git-diff file query: its
/// nonempty lines, in order. Whether each still exists as a regular file
/// is checked where the filesystem is available.
pub fn parse_git_paths(out: &Vec<u8>) -> (r: Vec<Vec<u8>>)
    ensures
        views(r@) == drop_empty(lines_of(out@)),
{
    let lines = split_lines(out);
    let mut r: Vec<Vec<u8>> = Vec::new();
    let mut i: usize = 0;
    proof {
        assert(views(r@) + drop_empty(lines_of(out@)) =~= drop_empty(lines_of(out@)));
        assert(views(lines@).skip(0) =~= views(lines@));
    }
    while i < lines.len()
        invariant
            i <= lines@.len(),
            views(lines@) == lines_of(out@),
            drop_empty(lines_of(out@)) == views(r@) + drop_empty(views(lines@).skip(i as int)),
        decreases lines@.len() - i,
    {
        let ghost tail = views(lines@).skip(i as int);
        proof {
            assert(tail[0] == lines@[i as int]@);
            assert(tail.skip(1) =~= views(lines@).skip(i as int + 1));
        }
        if lines[i].len() > 0 {
            let ghost pre = r@;
            r.push(copy_bytes(&lines[i]));
            proof {
                assert(views(r@) =~= views(pre).push(lines@[i as int]@));
                assert(views(pre) + (seq![tail[0]] + drop_empty(tail.skip(1))) =~= views(r@)
                    + drop_empty(tail.skip(1)));
            }
        }
        i = i + 1;
    }
    proof {
        assert(views(lines@).skip(i as int) =~= Seq::<Seq<u8>>::empty());
        assert(views(r@) + drop_empty(views(lines@).skip(i as int)) =~= views(r@));
    }
    r
}

} // verus!
