//! The tree view: retained paths are split into segments and inserted into
//! a trie whose children are kept in strict lexicographic order; rendering
//! walks the trie depth-first with branch connectors, a different one for
//! the last child at a level, and marks directory nodes with a trailing
//! slash.
#![allow(unused_imports)]
use vstd::prelude::*;
use crate::bytes::{
    bytes_eq, bytes_lt, bytes_lt_exec, copy_bytes, extend_bytes, extend_slice,
    lemma_bytes_lt_irreflexive, lemma_bytes_lt_total, lemma_bytes_lt_transitive, lemma_run_end,
    run_end, views,
};
use crate::selection::drop_empty;

verus! {

// ----------------------------------------------------------- path segments

/// The not-a-separator class as a value.
pub open spec fn slash_pred() -> spec_fn(u8) -> bool {
    |c: u8| c != 47
}

/// The raw chunks of `t` split at every `/`, empty chunks included.
pub open spec fn raw_segments_from(t: Seq<u8>, pos: int) -> Seq<Seq<u8>>
    decreases t.len() - pos,
    via raw_segments_from_decreases
{
    if !(0 <= pos < t.len()) {
        Seq::empty()
    } else {
        let e = run_end(t, pos, slash_pred());
        seq![t.subrange(pos, e)] + raw_segments_from(t, if e < t.len() { e + 1 } else { e })
    }
}

#[via_fn]
proof fn raw_segments_from_decreases(t: Seq<u8>, pos: int) {
    if 0 <= pos < t.len() {
        lemma_run_end(t, pos, slash_pred());
    }
}

/// The segments of a relative path: chunks split at `/`, empties dropped.
pub open spec fn segments_of(t: Seq<u8>) -> Seq<Seq<u8>> {
    drop_empty(raw_segments_from(t, 0))
}

/// Splits a path into its nonempty segments.
pub fn segments_exec(t: &Vec<u8>) -> (r: Vec<Vec<u8>>)
    ensures
        views(r@) == segments_of(t@),
{
    let mut r: Vec<Vec<u8>> = Vec::new();
    let mut pos: usize = 0;
    proof {
        assert(t.len() == t@.len());
        assert(views(r@) + drop_empty(raw_segments_from(t@, 0)) =~= drop_empty(
            raw_segments_from(t@, 0),
        ));
    }
    while pos < t.len()
        invariant
            pos <= t@.len(),
            t@.len() <= usize::MAX,
            segments_of(t@) == views(r@) + drop_empty(raw_segments_from(t@, pos as int)),
        decreases t@.len() - pos,
    {
        proof {
            lemma_run_end(t@, pos as int, slash_pred());
        }
        let mut e: usize = pos;
        while e < t.len() && t[e] != 47
            invariant
                pos <= e <= t@.len(),
                t@.len() <= usize::MAX,
                run_end(t@, pos as int, slash_pred()) == run_end(t@, e as int, slash_pred()),
            decreases t@.len() - e,
        {
            e = e + 1;
        }
        let next = if e < t.len() {
            e + 1
        } else {
            e
        };
        let ghost chunk = t@.subrange(pos as int, e as int);
        let ghost rest = raw_segments_from(t@, next as int);
        proof {
            assert(raw_segments_from(t@, pos as int) == seq![chunk] + rest);
            assert((seq![chunk] + rest)[0] == chunk);
            assert((seq![chunk] + rest).skip(1) =~= rest);
        }
        if e > pos {
            let ghost pre = r@;
            let mut seg: Vec<u8> = Vec::new();
            extend_slice(&mut seg, t, pos, e);
            r.push(seg);
            proof {
                assert(seg@ =~= chunk);
                assert(views(r@) =~= views(pre).push(chunk));
                assert(drop_empty(seq![chunk] + rest) == seq![chunk] + drop_empty(rest));
                assert(views(pre) + (seq![chunk] + drop_empty(rest)) =~= views(r@) + drop_empty(
                    rest,
                ));
            }
        } else {
            proof {
                assert(chunk.len() == 0);
                assert(drop_empty(seq![chunk] + rest) == drop_empty(rest));
            }
        }
        pos = next;
    }
    proof {
        assert(views(r@) + drop_empty(raw_segments_from(t@, pos as int)) =~= views(r@));
    }
    r
}

/// The path with the scan root (and its separator) stripped from its
/// front; the path itself where it does not start with the root, and
/// nothing where it is the root.
pub open spec fn strip_root(path: Seq<u8>, root: Seq<u8>) -> Seq<u8> {
    if root.len() > 0 && path.len() > root.len() && path.take(root.len() as int) == root && path[
        root.len() as int
    ] == 47 {
        path.skip(root.len() as int + 1)
    } else if path == root {
        Seq::empty()
    } else {
        path
    }
}

/// Whether `root` is the first part of `path`.
fn take_eq(path: &Vec<u8>, root: &Vec<u8>) -> (r: bool)
    requires
        root@.len() <= path@.len(),
    ensures
        r == (path@.take(root@.len() as int) == root@),
{
    let mut i: usize = 0;
    while i < root.len()
        invariant
            i <= root@.len() <= path@.len(),
            forall|j: int| 0 <= j < i ==> path@[j] == root@[j],
        decreases root@.len() - i,
    {
        if path[i] != root[i] {
            assert(path@.take(root@.len() as int)[i as int] != root@[i as int]);
            return false;
        }
        i = i + 1;
    }
    proof {
        assert(path@.take(root@.len() as int) =~= root@);
    }
    true
}

/// Strips the scan root from the front of a path.
pub fn strip_root_exec(path: &Vec<u8>, root: &Vec<u8>) -> (r: Vec<u8>)
    ensures
        r@ == strip_root(path@, root@),
{
    if root.len() > 0 && path.len() > root.len() {
        if take_eq(path, root) {
            if path[root.len()] == 47 {
                let mut r: Vec<u8> = Vec::new();
                extend_slice(&mut r, path, root.len() + 1, path.len());
                proof {
                    assert(r@ =~= path@.skip(root@.len() as int + 1));
                }
                return r;
            }
        }
    }
    if bytes_eq(path, root) {
        return Vec::new();
    }
    copy_bytes(path)
}

// ------------------------------------------------------------------ the trie

/// A node of the tree view: children keyed by path segment, in strict
/// lexicographic order. A node with no children is a leaf, that is a file;
/// any other node is a directory.
pub struct TreeNode {
    pub children: Vec<(Vec<u8>, TreeNode)>,
}

/// Well-formed: children strictly ordered by name at every level.
pub open spec fn wf_node(n: TreeNode) -> bool
    decreases n,
{
    &&& (forall|i: int, j: int|
        #![trigger n.children@[i], n.children@[j]]
        0 <= i < j < n.children@.len() ==> bytes_lt(n.children@[i].0@, n.children@[j].0@))
    &&& (forall|i: int|
        0 <= i < n.children@.len() ==> wf_node((#[trigger] n.children@[i]).1))
}

/// The segment path `p` leads to a node of the trie.
pub open spec fn node_has(n: TreeNode, p: Seq<Seq<u8>>) -> bool
    decreases n,
{
    p.len() == 0 || exists|i: int|
        0 <= i < n.children@.len() && (#[trigger] n.children@[i]).0@ == p[0] && node_has(
            n.children@[i].1,
            p.skip(1),
        )
}

/// `p` is `s` cut off at some length.
pub open spec fn is_prefix(p: Seq<Seq<u8>>, s: Seq<Seq<u8>>) -> bool {
    p.len() <= s.len() && p == s.take(p.len() as int)
}

/// A nonempty prefix is a matching head plus a prefix of the tail.
proof fn lemma_prefix_step(p: Seq<Seq<u8>>, s: Seq<Seq<u8>>)
    requires
        p.len() > 0,
        s.len() > 0,
        p[0] == s[0],
        is_prefix(p.skip(1), s.skip(1)),
    ensures
        is_prefix(p, s),
{
    assert(p =~= s.take(p.len() as int)) by {
        assert forall|q: int| 0 <= q < p.len() implies p[q] == s.take(p.len() as int)[q] by {
            if q > 0 {
                assert(p.skip(1)[q - 1] == s.skip(1).take(p.len() - 1)[q - 1]);
                assert(p[q] == p.skip(1)[q - 1]);
                assert(s.skip(1)[q - 1] == s[q]);
            }
        }
    }
}

/// ... and the other way round.
proof fn lemma_prefix_unstep(p: Seq<Seq<u8>>, s: Seq<Seq<u8>>)
    requires
        p.len() > 0,
        is_prefix(p, s),
    ensures
        p[0] == s[0],
        is_prefix(p.skip(1), s.skip(1)),
{
    assert(p[0] == s.take(p.len() as int)[0]);
    assert(p.skip(1) =~= s.skip(1).take(p.len() - 1)) by {
        assert forall|q: int| 0 <= q < p.len() - 1 implies p.skip(1)[q] == s.skip(1).take(
            p.len() - 1,
        )[q] by {
            assert(p.skip(1)[q] == p[q + 1]);
            assert(p[q + 1] == s.take(p.len() as int)[q + 1]);
            assert(s.skip(1).take(p.len() - 1)[q] == s[q + 1]);
        }
    }
}

impl TreeNode {
    /// An empty tree: it holds the empty path and nothing else.
    pub fn new() -> (n: TreeNode)
        ensures
            wf_node(n),
            n.children@.len() == 0,
            forall|p: Seq<Seq<u8>>| #[trigger] node_has(n, p) <==> p.len() == 0,
    {
        let n = TreeNode { children: Vec::new() };
        proof {
            assert forall|p: Seq<Seq<u8>>| #[trigger] node_has(n, p) <==> p.len() == 0 by {}
        }
        n
    }

    /// Inserts the path `segs[from..]`: afterwards the trie holds exactly
    /// what it held before, and every prefix of the inserted path.
    pub fn insert_from(&mut self, segs: &Vec<Vec<u8>>, from: usize)
        requires
            wf_node(*old(self)),
            from <= segs@.len(),
        ensures
            wf_node(*final(self)),
            forall|p: Seq<Seq<u8>>|
                #[trigger] node_has(*final(self), p) <==> (node_has(*old(self), p) || is_prefix(
                    p,
                    views(segs@).skip(from as int),
                )),
        decreases segs@.len() - from,
    {
        let ghost suffix = views(segs@).skip(from as int);
        if from == segs.len() {
            proof {
                assert(suffix.len() == 0);
                assert forall|p: Seq<Seq<u8>>| is_prefix(p, suffix) implies p.len() == 0 by {}
                assert forall|p: Seq<Seq<u8>>|
                    #[trigger] node_has(*self, p) <==> (node_has(*self, p) || is_prefix(
                        p,
                        suffix,
                    )) by {
                    if is_prefix(p, suffix) {
                        assert(p.len() == 0);
                    }
                }
            }
            return ;
        }
        proof {
            assert(suffix[0] == segs@[from as int]@);
            assert(suffix.skip(1) =~= views(segs@).skip(from as int + 1));
        }
        let mut i: usize = 0;
        while i < self.children.len() && bytes_lt_exec(&self.children[i].0, &segs[from])
            invariant
                i <= self.children@.len(),
                *self == *old(self),
                wf_node(*self),
                from < segs@.len(),
                forall|j: int|
                    0 <= j < i ==> bytes_lt((#[trigger] self.children@[j]).0@, segs@[from as int]@),
            decreases self.children@.len() - i,
    {
            i = i + 1;
        }
        let found = i < self.children.len() && bytes_eq(&self.children[i].0, &segs[from]);
        if found {
            let ghost pre = self.children@;
            let mut pair = self.children.remove(i);
            let ghost oldchild = pair.1;
            pair.1.insert_from(segs, from + 1);
            let ghost newchild = pair.1;
            self.children.insert(i, pair);
            proof {
                let cur = self.children@;
                assert(cur.len() == pre.len());
                assert forall|j: int| 0 <= j < cur.len() implies (#[trigger] cur[j]).0@
                    == pre[j].0@ && (j != i ==> cur[j] == pre[j]) by {
                    if j < i {
                    } else if j == i {
                    } else {
                    }
                }
                assert(cur[i as int].1 == newchild);
                assert(wf_node(*self)) by {
                    assert forall|a: int, b: int|
                        #![trigger cur[a], cur[b]]
                        0 <= a < b < cur.len() implies bytes_lt(cur[a].0@, cur[b].0@) by {
                        assert(pre[a].0@ == cur[a].0@);
                        assert(pre[b].0@ == cur[b].0@);
                    }
                    assert forall|j: int| 0 <= j < cur.len() implies wf_node(
                        (#[trigger] cur[j]).1,
                    ) by {
                        if j != i {
                            assert(cur[j] == pre[j]);
                        }
                    }
                }
                assert forall|p: Seq<Seq<u8>>|
                    #[trigger] node_has(*self, p) <==> (node_has(*old(self), p) || is_prefix(
                        p,
                        suffix,
                    )) by {
                    if p.len() == 0 {
                    } else {
                        // names are unique, so only the child named p[0] decides
                        assert forall|a: int, b: int|
                            0 <= a < b < pre.len() implies (#[trigger] pre[a]).0@ != (
                        #[trigger] pre[b]).0@ by {
                            lemma_bytes_lt_irreflexive(pre[a].0@);
                        }
                        if p[0] == segs@[from as int]@ {
                            if node_has(*self, p) {
                                let k = choose|k: int|
                                    0 <= k < cur.len() && (#[trigger] cur[k]).0@ == p[0]
                                        && node_has(cur[k].1, p.skip(1));
                                if k != i {
                                    assert(cur[k] == pre[k]);
                                    assert(pre[k].0@ == pre[i as int].0@);
                                    lemma_bytes_lt_irreflexive(pre[k].0@);
                                    assert(k == i);
                                }
                                assert(node_has(newchild, p.skip(1)));
                            }
                            if node_has(*old(self), p) {
                                let k = choose|k: int|
                                    0 <= k < pre.len() && (#[trigger] pre[k]).0@ == p[0]
                                        && node_has(pre[k].1, p.skip(1));
                                if k != i {
                                    lemma_bytes_lt_irreflexive(pre[k].0@);
                                }
                                assert(node_has(oldchild, p.skip(1)));
                                assert(node_has(newchild, p.skip(1)));
                                assert(node_has(*self, p));
                            }
                            if is_prefix(p, suffix) {
                                lemma_prefix_unstep(p, suffix);
                                assert(node_has(newchild, p.skip(1)));
                                assert(node_has(*self, p));
                            }
                            if node_has(newchild, p.skip(1)) {
                                if node_has(oldchild, p.skip(1)) {
                                    assert(node_has(*old(self), p));
                                } else {
                                    assert(is_prefix(p.skip(1), suffix.skip(1)));
                                    lemma_prefix_step(p, suffix);
                                }
                            }
                        } else {
                            assert(!is_prefix(p, suffix)) by {
                                if is_prefix(p, suffix) {
                                    assert(p[0] == suffix[0]);
                                }
                            }
                            if node_has(*self, p) {
                                let k = choose|k: int|
                                    0 <= k < cur.len() && (#[trigger] cur[k]).0@ == p[0]
                                        && node_has(cur[k].1, p.skip(1));
                                assert(k != i);
                                assert(cur[k] == pre[k]);
                                assert(node_has(*old(self), p));
                            }
                            if node_has(*old(self), p) {
                                let k = choose|k: int|
                                    0 <= k < pre.len() && (#[trigger] pre[k]).0@ == p[0]
                                        && node_has(pre[k].1, p.skip(1));
                                assert(k != i);
                                assert(cur[k] == pre[k]);
                                assert(node_has(*self, p));
                            }
                        }
                    }
                }
            }
        } else {
            let ghost pre = self.children@;
            let child = chain_node(segs, from + 1);
            let name = copy_bytes(&segs[from]);
            self.children.insert(i, (name, child));
            proof {
                let cur = self.children@;
                let x = segs@[from as int]@;
                if i < pre.len() {
                    lemma_bytes_lt_total(pre[i as int].0@, x);
                    assert(bytes_lt(x, pre[i as int].0@));
                }
                assert(wf_node(*self)) by {
                    assert forall|a: int, b: int|
                        #![trigger cur[a], cur[b]]
                        0 <= a < b < cur.len() implies bytes_lt(cur[a].0@, cur[b].0@) by {
                        if a == i {
                            if b > i {
                                assert(cur[b] == pre[b - 1]);
                                if b - 1 > i {
                                    lemma_bytes_lt_transitive(x, pre[i as int].0@, pre[b - 1].0@);
                                }
                            }
                        } else if b == i {
                            assert(cur[a] == pre[a]);
                        } else if a < i && b > i {
                            assert(cur[a] == pre[a]);
                            assert(cur[b] == pre[b - 1]);
                            if b - 1 == i {
                            } else {
                            }
                        } else if b < i {
                            assert(cur[a] == pre[a]);
                            assert(cur[b] == pre[b]);
                        } else {
                            assert(cur[a] == pre[a - 1]);
                            assert(cur[b] == pre[b - 1]);
                        }
                    }
                    assert forall|j: int| 0 <= j < cur.len() implies wf_node(
                        (#[trigger] cur[j]).1,
                    ) by {
                        if j < i {
                            assert(cur[j] == pre[j]);
                        } else if j > i {
                            assert(cur[j] == pre[j - 1]);
                        }
                    }
                }
                // no old child carries the inserted name
                assert forall|j: int| 0 <= j < pre.len() implies (#[trigger] pre[j]).0@ != x by {
                    if j < i {
                        lemma_bytes_lt_irreflexive(pre[j].0@);
                    } else if j == i {
                        lemma_bytes_lt_irreflexive(x);
                    } else {
                        lemma_bytes_lt_transitive(x, pre[i as int].0@, pre[j].0@);
                        lemma_bytes_lt_irreflexive(x);
                    }
                }
                assert forall|p: Seq<Seq<u8>>|
                    #[trigger] node_has(*self, p) <==> (node_has(*old(self), p) || is_prefix(
                        p,
                        suffix,
                    )) by {
                    if p.len() == 0 {
                    } else {
                        if p[0] == x {
                            if node_has(*self, p) {
                                let k = choose|k: int|
                                    0 <= k < cur.len() && (#[trigger] cur[k]).0@ == p[0]
                                        && node_has(cur[k].1, p.skip(1));
                                if k < i {
                                    assert(cur[k] == pre[k]);
                                } else if k > i {
                                    assert(cur[k] == pre[k - 1]);
                                }
                                assert(k == i);
                                assert(is_prefix(p.skip(1), suffix.skip(1)));
                                lemma_prefix_step(p, suffix);
                            }
                            if node_has(*old(self), p) {
                                let k = choose|k: int|
                                    0 <= k < pre.len() && (#[trigger] pre[k]).0@ == p[0]
                                        && node_has(pre[k].1, p.skip(1));
                            }
                            if is_prefix(p, suffix) {
                                lemma_prefix_unstep(p, suffix);
                                assert(node_has(child, p.skip(1)));
                                assert(cur[i as int].0@ == p[0]);
                                assert(node_has(*self, p));
                            }
                        } else {
                            assert(!is_prefix(p, suffix)) by {
                                if is_prefix(p, suffix) {
                                    assert(p[0] == suffix[0]);
                                }
                            }
                            if node_has(*self, p) {
                                let k = choose|k: int|
                                    0 <= k < cur.len() && (#[trigger] cur[k]).0@ == p[0]
                                        && node_has(cur[k].1, p.skip(1));
                                assert(k != i);
                                if k < i {
                                    assert(cur[k] == pre[k]);
                                } else {
                                    assert(cur[k] == pre[k - 1]);
                                }
                                assert(node_has(*old(self), p));
                            }
                            if node_has(*old(self), p) {
                                let k = choose|k: int|
                                    0 <= k < pre.len() && (#[trigger] pre[k]).0@ == p[0]
                                        && node_has(pre[k].1, p.skip(1));
                                if k < i {
                                    assert(cur[k] == pre[k]);
                                    assert(node_has(*self, p));
                                } else {
                                    assert(cur[k + 1] == pre[k]);
                                    assert(node_has(*self, p));
                                }
                            }
                        }
                    }
                }
            }
        }
    }
}

/// A fresh chain of nodes holding exactly the prefixes of `segs[from..]`.
fn chain_node(segs: &Vec<Vec<u8>>, from: usize) -> (n: TreeNode)
    requires
        from <= segs@.len(),
    ensures
        wf_node(n),
        forall|p: Seq<Seq<u8>>|
            #[trigger] node_has(n, p) <==> is_prefix(p, views(segs@).skip(from as int)),
    decreases segs@.len() - from,
{
    let ghost suffix = views(segs@).skip(from as int);
    if from == segs.len() {
        let n = TreeNode::new();
        proof {
            assert(suffix.len() == 0);
            assert forall|p: Seq<Seq<u8>>|
                #[trigger] node_has(n, p) <==> is_prefix(p, suffix) by {
                if p.len() == 0 {
                    assert(p =~= suffix.take(0));
                }
            }
        }
        n
    } else {
        let child = chain_node(segs, from + 1);
        let name = copy_bytes(&segs[from]);
        let mut children: Vec<(Vec<u8>, TreeNode)> = Vec::new();
        children.push((name, child));
        let n = TreeNode { children };
        proof {
            assert(suffix[0] == segs@[from as int]@);
            assert(suffix.skip(1) =~= views(segs@).skip(from as int + 1));
            assert(n.children@.len() == 1);
            assert(n.children@[0].0@ == segs@[from as int]@);
            assert(n.children@[0].1 == child);
            assert forall|p: Seq<Seq<u8>>|
                #[trigger] node_has(n, p) <==> is_prefix(p, suffix) by {
                if p.len() == 0 {
                    assert(p =~= suffix.take(0));
                } else {
                    if node_has(n, p) {
                        let k = choose|k: int|
                            0 <= k < n.children@.len() && (#[trigger] n.children@[k]).0@ == p[0]
                                && node_has(n.children@[k].1, p.skip(1));
                        assert(k == 0);
                        assert(is_prefix(p.skip(1), suffix.skip(1)));
                        lemma_prefix_step(p, suffix);
                    }
                    if is_prefix(p, suffix) {
                        lemma_prefix_unstep(p, suffix);
                        assert(node_has(child, p.skip(1)));
                        assert(node_has(n, p));
                    }
                }
            }
        }
        n
    }
}


// ----------------------------------------------------------------- rendering

/// The branch connector before a child: one drawing for the last child at
/// a level, another for the earlier ones.
pub open spec fn connector(last: bool) -> Seq<u8> {
    if last {
        seq![226u8, 148, 148, 226, 148, 128, 226, 148, 128, 32]
    } else {
        seq![226u8, 148, 156, 226, 148, 128, 226, 148, 128, 32]
    }
}

/// What a child's own children are indented with.
pub open spec fn child_pad(last: bool) -> Seq<u8> {
    if last {
        seq![32u8, 32, 32, 32]
    } else {
        seq![226u8, 148, 130, 32, 32, 32]
    }
}

/// A directory node is shown with a trailing slash; a leaf file plain.
pub open spec fn display_name(name: Seq<u8>, dir: bool) -> Seq<u8> {
    if dir {
        name + seq![47u8]
    } else {
        name
    }
}

fn connector_vec(last: bool) -> (r: Vec<u8>)
    ensures
        r@ == connector(last),
{
    let mut v: Vec<u8> = Vec::new();
    v.push(226);
    v.push(148);
    if last {
        v.push(148);
    } else {
        v.push(156);
    }
    v.push(226);
    v.push(148);
    v.push(128);
    v.push(226);
    v.push(148);
    v.push(128);
    v.push(32);
    proof {
        assert(v@ =~= connector(last));
    }
    v
}

fn child_pad_vec(last: bool) -> (r: Vec<u8>)
    ensures
        r@ == child_pad(last),
{
    let mut v: Vec<u8> = Vec::new();
    if last {
        v.push(32);
        v.push(32);
        v.push(32);
        v.push(32);
    } else {
        v.push(226);
        v.push(148);
        v.push(130);
        v.push(32);
        v.push(32);
        v.push(32);
    }
    proof {
        assert(v@ =~= child_pad(last));
    }
    v
}

/// The rendering of a run of children under `prefix`: each child's line,
/// then its own subtree, the last child drawn with the closing connector.
pub open spec fn spec_render_children(cs: Seq<(Vec<u8>, TreeNode)>, prefix: Seq<u8>) -> Seq<u8>
    decreases cs,
{
    if cs.len() == 0 {
        Seq::empty()
    } else {
        let last = cs.len() == 1;
        prefix + connector(last) + display_name(cs[0].0@, cs[0].1.children@.len() > 0)
            + seq![10u8] + spec_render_children(cs[0].1.children@, prefix + child_pad(last))
            + spec_render_children(cs.skip(1), prefix)
    }
}

/// The rendering of a whole node's subtree.
pub open spec fn spec_render(n: TreeNode, prefix: Seq<u8>) -> Seq<u8> {
    spec_render_children(n.children@, prefix)
}

impl TreeNode {
    /// Renders the subtree below this node, every line beginning with
    /// `prefix`.
    pub fn render(&self, prefix: &Vec<u8>) -> (r: Vec<u8>)
        ensures
            r@ == spec_render(*self, prefix@),
        decreases *self,
    {
        let mut out: Vec<u8> = Vec::new();
        let mut i: usize = 0;
        proof {
            assert(self.children@.skip(0) =~= self.children@);
            assert(Seq::<u8>::empty() + spec_render_children(self.children@, prefix@)
                =~= spec_render_children(self.children@, prefix@));
        }
        while i < self.children.len()
            invariant
                i <= self.children@.len(),
                spec_render(*self, prefix@) == out@ + spec_render_children(
                    self.children@.skip(i as int),
                    prefix@,
                ),
            decreases self.children@.len() - i,
        {
            let ghost tail = self.children@.skip(i as int);
            proof {
                assert(tail[0] == self.children@[i as int]);
                assert(tail.skip(1) =~= self.children@.skip(i as int + 1));
            }
            let last = i + 1 == self.children.len();
            let ghost pre = out@;
            extend_bytes(&mut out, prefix);
            let conn = connector_vec(last);
            extend_bytes(&mut out, &conn);
            extend_bytes(&mut out, &self.children[i].0);
            let dir = self.children[i].1.children.len() > 0;
            if dir {
                out.push(47);
            }
            out.push(10);
            let mut cp = copy_bytes(prefix);
            let pad = child_pad_vec(last);
            extend_bytes(&mut cp, &pad);
            proof {
                assert(decreases_to!(*self => self.children@[i as int].1)) by {
                    assert(decreases_to!(self.children => self.children@));
                    assert(decreases_to!(self.children@ => self.children@[i as int]));
                }
            }
            let sub = self.children[i].1.render(&cp);
            extend_bytes(&mut out, &sub);
            proof {
                assert(spec_render_children(tail, prefix@) == prefix@ + connector(last)
                    + display_name(tail[0].0@, tail[0].1.children@.len() > 0) + seq![10u8]
                    + spec_render_children(tail[0].1.children@, prefix@ + child_pad(last))
                    + spec_render_children(tail.skip(1), prefix@));
                assert(cp@ == prefix@ + child_pad(last));
                assert(pre + spec_render_children(tail, prefix@) =~= out@
                    + spec_render_children(tail.skip(1), prefix@));
            }
            i = i + 1;
        }
        proof {
            assert(out@ + spec_render_children(self.children@.skip(i as int), prefix@) =~= out@);
        }
        out
    }
}

// ------------------------------------------------------------- the tree view

/// The paths the rendered trie holds: every prefix of every retained
/// path's segments, relative to the scan root.
pub open spec fn scan_tree_has(paths: Seq<Seq<u8>>, root: Seq<u8>, p: Seq<Seq<u8>>) -> bool {
    p.len() == 0 || exists|f: int|
        0 <= f < paths.len() && is_prefix(p, segments_of(strip_root(#[trigger] paths[f], root)))
}

/// Builds the trie of all retained paths, relative to the scan root, and
/// renders it below the root label. The trie is well formed and holds
/// exactly the prefixes of the retained paths' segments.
pub fn generate_tree_view(files: &Vec<Vec<u8>>, root: &Vec<u8>) -> (r: Vec<u8>)
    ensures
        exists|n: TreeNode|
            {
                &&& #[trigger] wf_node(n)
                &&& (forall|p: Seq<Seq<u8>>|
                    #[trigger] node_has(n, p) <==> scan_tree_has(views(files@), root@, p))
                &&& r@ == root@ + seq![10u8] + spec_render(n, Seq::empty())
            },
{
    let mut tree = TreeNode::new();
    let mut i: usize = 0;
    proof {
        assert forall|p: Seq<Seq<u8>>|
            #[trigger] node_has(tree, p) <==> scan_tree_has(
                views(files@).take(0),
                root@,
                p,
            ) by {}
    }
    while i < files.len()
        invariant
            i <= files@.len(),
            wf_node(tree),
            forall|p: Seq<Seq<u8>>|
                #[trigger] node_has(tree, p) <==> scan_tree_has(
                    views(files@).take(i as int),
                    root@,
                    p,
                ),
        decreases files@.len() - i,
    {
        let rel = strip_root_exec(&files[i], root);
        let segs = segments_exec(&rel);
        let ghost before = tree;
        tree.insert_from(&segs, 0);
        proof {
            let inserted = segments_of(strip_root(files@[i as int]@, root@));
            assert(views(segs@).skip(0) =~= views(segs@));
            assert(views(segs@) == inserted);
            let prev = views(files@).take(i as int);
            let now = views(files@).take(i as int + 1);
            assert(now =~= prev.push(files@[i as int]@));
            assert forall|p: Seq<Seq<u8>>|
                #[trigger] node_has(tree, p) <==> scan_tree_has(now, root@, p) by {
                if p.len() > 0 {
                    if node_has(tree, p) {
                        if node_has(before, p) {
                            let f = choose|f: int|
                                0 <= f < prev.len() && is_prefix(
                                    p,
                                    segments_of(strip_root(#[trigger] prev[f], root@)),
                                );
                            assert(now[f] == prev[f]);
                            assert(scan_tree_has(now, root@, p));
                        } else {
                            assert(is_prefix(p, inserted));
                            assert(now[i as int] == files@[i as int]@);
                            assert(scan_tree_has(now, root@, p));
                        }
                    }
                    if scan_tree_has(now, root@, p) {
                        let f = choose|f: int|
                            0 <= f < now.len() && is_prefix(
                                p,
                                segments_of(strip_root(#[trigger] now[f], root@)),
                            );
                        if f < i {
                            assert(now[f] == prev[f]);
                            assert(scan_tree_has(prev, root@, p));
                            assert(node_has(before, p));
                        } else {
                            assert(now[f] == files@[i as int]@);
                            assert(is_prefix(p, inserted));
                        }
                        assert(node_has(tree, p));
                    }
                }
            }
        }
        i = i + 1;
    }
    let empty_prefix: Vec<u8> = Vec::new();
    let rendered = tree.render(&empty_prefix);
    let mut r = copy_bytes(root);
    r.push(10);
    extend_bytes(&mut r, &rendered);
    proof {
        assert(views(files@).take(files@.len() as int) =~= views(files@));
        assert(wf_node(tree));
        assert(r@ =~= root@ + seq![10u8] + spec_render(tree, Seq::empty()));
    }
    r
}


// ---------------------------------------------------- rendering is canonical

/// Some child of `cs` carries the name `n`.
spec fn has_child(cs: Seq<(Vec<u8>, TreeNode)>, n: Seq<u8>) -> bool {
    exists|i: int| 0 <= i < cs.len() && (#[trigger] cs[i]).0@ == n
}

/// What one child list must share with another for both to render alike:
/// the same name at each place, a subtree that renders the same under
/// every prefix, and the same leaf-or-directory shape.
spec fn children_correspond(
    x: Seq<(Vec<u8>, TreeNode)>,
    y: Seq<(Vec<u8>, TreeNode)>,
) -> bool {
    &&& x.len() == y.len()
    &&& forall|i: int|
        #![trigger x[i], y[i]]
        0 <= i < x.len() ==> {
            &&& x[i].0@ == y[i].0@
            &&& (forall|pf: Seq<u8>|
                #[trigger] spec_render(x[i].1, pf) == spec_render(y[i].1, pf))
            &&& (x[i].1.children@.len() > 0) == (y[i].1.children@.len() > 0)
        }
}

/// In a strictly sorted child list, the tail holds exactly the names
/// other than the head's.
proof fn lemma_tail_membership(x: Seq<(Vec<u8>, TreeNode)>, n: Seq<u8>)
    requires
        x.len() > 0,
        forall|i: int, j: int|
            #![trigger x[i], x[j]]
            0 <= i < j < x.len() ==> bytes_lt(x[i].0@, x[j].0@),
    ensures
        has_child(x.skip(1), n) == (has_child(x, n) && n != x[0].0@),
{
    let xt = x.skip(1);
    if has_child(xt, n) {
        let i = choose|i: int| 0 <= i < xt.len() && (#[trigger] xt[i]).0@ == n;
        assert(xt[i] == x[i + 1]);
        assert(has_child(x, n));
        if n == x[0].0@ {
            assert(bytes_lt(x[0].0@, x[i + 1].0@));
            lemma_bytes_lt_irreflexive(n);
        }
    }
    if has_child(x, n) && n != x[0].0@ {
        let i = choose|i: int| 0 <= i < x.len() && (#[trigger] x[i]).0@ == n;
        assert(i > 0);
        assert(xt[i - 1] == x[i]);
        assert(has_child(xt, n));
    }
}

/// Strictly sorted child lists with the same names carry them at the same
/// places.
proof fn lemma_sorted_names_equal(x: Seq<(Vec<u8>, TreeNode)>, y: Seq<(Vec<u8>, TreeNode)>)
    requires
        forall|i: int, j: int|
            #![trigger x[i], x[j]]
            0 <= i < j < x.len() ==> bytes_lt(x[i].0@, x[j].0@),
        forall|i: int, j: int|
            #![trigger y[i], y[j]]
            0 <= i < j < y.len() ==> bytes_lt(y[i].0@, y[j].0@),
        forall|n: Seq<u8>| #[trigger] has_child(x, n) == has_child(y, n),
    ensures
        x.len() == y.len(),
        forall|i: int| #![trigger x[i], y[i]] 0 <= i < x.len() ==> x[i].0@ == y[i].0@,
    decreases x.len(),
{
    if x.len() == 0 {
        if y.len() > 0 {
            assert(has_child(y, y[0].0@));
            assert(has_child(x, y[0].0@));
        }
    } else if y.len() == 0 {
        assert(has_child(x, x[0].0@));
        assert(has_child(y, x[0].0@));
    } else {
        assert(has_child(x, x[0].0@));
        let k = choose|k: int| 0 <= k < y.len() && (#[trigger] y[k]).0@ == x[0].0@;
        if k > 0 {
            assert(bytes_lt(y[0].0@, y[k].0@));
            assert(has_child(y, y[0].0@));
            assert(has_child(x, y[0].0@));
            let m = choose|m: int| 0 <= m < x.len() && (#[trigger] x[m]).0@ == y[0].0@;
            if m > 0 {
                assert(bytes_lt(x[0].0@, x[m].0@));
                lemma_bytes_lt_transitive(x[0].0@, x[m].0@, x[0].0@);
            }
            lemma_bytes_lt_irreflexive(x[0].0@);
        }
        assert(x[0].0@ == y[0].0@);
        let xt = x.skip(1);
        let yt = y.skip(1);
        assert forall|n: Seq<u8>| #[trigger] has_child(xt, n) == has_child(yt, n) by {
            lemma_tail_membership(x, n);
            lemma_tail_membership(y, n);
        }
        assert forall|i: int, j: int|
            #![trigger xt[i], xt[j]]
            0 <= i < j < xt.len() implies bytes_lt(xt[i].0@, xt[j].0@) by {
            assert(xt[i] == x[i + 1]);
            assert(xt[j] == x[j + 1]);
        }
        assert forall|i: int, j: int|
            #![trigger yt[i], yt[j]]
            0 <= i < j < yt.len() implies bytes_lt(yt[i].0@, yt[j].0@) by {
            assert(yt[i] == y[i + 1]);
            assert(yt[j] == y[j + 1]);
        }
        lemma_sorted_names_equal(xt, yt);
        assert forall|i: int|
            #![trigger x[i], y[i]]
            0 <= i < x.len() implies x[i].0@ == y[i].0@ by {
            if i > 0 {
                assert(xt[i - 1].0@ == yt[i - 1].0@);
                assert(xt[i - 1] == x[i]);
                assert(yt[i - 1] == y[i]);
            }
        }
    }
}

/// A trie holds a one-segment path exactly when a child carries it.
proof fn lemma_single_step_membership(a: TreeNode, n: Seq<u8>)
    ensures
        node_has(a, seq![n]) == has_child(a.children@, n),
{
    let p = seq![n];
    assert(p.skip(1) =~= Seq::<Seq<u8>>::empty());
    if has_child(a.children@, n) {
        let i = choose|i: int| 0 <= i < a.children@.len() && (#[trigger] a.children@[i]).0@ == n;
        assert(node_has(a.children@[i].1, p.skip(1)));
    }
}

/// A trie holds `[n] + p` exactly when its child named `n` holds `p`;
/// with strictly sorted names, that child is unique.
proof fn lemma_child_step(a: TreeNode, i: int, p: Seq<Seq<u8>>)
    requires
        wf_node(a),
        0 <= i < a.children@.len(),
    ensures
        node_has(a, seq![a.children@[i].0@] + p) == node_has(a.children@[i].1, p),
{
    let n = a.children@[i].0@;
    let full = seq![n] + p;
    assert(full[0] == n);
    assert(full.skip(1) =~= p);
    if node_has(a, full) {
        let k = choose|k: int|
            0 <= k < a.children@.len() && (#[trigger] a.children@[k]).0@ == full[0] && node_has(
                a.children@[k].1,
                full.skip(1),
            );
        if k != i {
            lemma_bytes_lt_irreflexive(n);
        }
    }
    if node_has(a.children@[i].1, p) {
        assert(node_has(a, full));
    }
}

/// Corresponding child lists render identically under every prefix.
proof fn lemma_render_children_pointwise(
    x: Seq<(Vec<u8>, TreeNode)>,
    y: Seq<(Vec<u8>, TreeNode)>,
    prefix: Seq<u8>,
)
    requires
        children_correspond(x, y),
    ensures
        spec_render_children(x, prefix) == spec_render_children(y, prefix),
    decreases x.len(),
{
    if x.len() > 0 {
        let xt = x.skip(1);
        let yt = y.skip(1);
        assert(x[0].0@ == y[0].0@ && (x[0].1.children@.len() > 0) == (y[0].1.children@.len()
            > 0));
        assert(spec_render(x[0].1, prefix + child_pad(x.len() == 1)) == spec_render(
            y[0].1,
            prefix + child_pad(x.len() == 1),
        ));
        assert(children_correspond(xt, yt)) by {
            assert forall|i: int|
                #![trigger xt[i], yt[i]]
                0 <= i < xt.len() implies {
                &&& xt[i].0@ == yt[i].0@
                &&& (forall|pf: Seq<u8>|
                    #[trigger] spec_render(xt[i].1, pf) == spec_render(yt[i].1, pf))
                &&& (xt[i].1.children@.len() > 0) == (yt[i].1.children@.len() > 0)
            } by {
                assert(xt[i] == x[i + 1]);
                assert(yt[i] == y[i + 1]);
            }
        }
        lemma_render_children_pointwise(xt, yt, prefix);
    }
}

/// Two well-formed tries holding the same paths render identically, under
/// every prefix: the rendered tree view is a function of the retained
/// paths alone.
pub proof fn lemma_render_canonical(a: TreeNode, b: TreeNode)
    requires
        wf_node(a),
        wf_node(b),
        forall|p: Seq<Seq<u8>>| #[trigger] node_has(a, p) == node_has(b, p),
    ensures
        forall|prefix: Seq<u8>| #[trigger] spec_render(a, prefix) == spec_render(b, prefix),
    decreases a,
{
    let x = a.children@;
    let y = b.children@;
    assert forall|n: Seq<u8>| #[trigger] has_child(x, n) == has_child(y, n) by {
        lemma_single_step_membership(a, n);
        lemma_single_step_membership(b, n);
        assert(node_has(a, seq![n]) == node_has(b, seq![n]));
    }
    lemma_sorted_names_equal(x, y);
    assert forall|i: int|
        #![trigger x[i], y[i]]
        0 <= i < x.len() implies {
        &&& x[i].0@ == y[i].0@
        &&& (forall|pf: Seq<u8>| #[trigger] spec_render(x[i].1, pf) == spec_render(y[i].1, pf))
        &&& (x[i].1.children@.len() > 0) == (y[i].1.children@.len() > 0)
    } by {
        assert(wf_node(x[i].1));
        assert(wf_node(y[i].1));
        assert forall|p: Seq<Seq<u8>>|
            #[trigger] node_has(x[i].1, p) == node_has(y[i].1, p) by {
            lemma_child_step(a, i, p);
            lemma_child_step(b, i, p);
            assert(node_has(a, seq![x[i].0@] + p) == node_has(b, seq![y[i].0@] + p));
        }
        assert(decreases_to!(a => a.children@[i].1)) by {
            assert(decreases_to!(a.children => a.children@));
            assert(decreases_to!(a.children@ => a.children@[i]));
        }
        lemma_render_canonical(x[i].1, y[i].1);
        if x[i].1.children@.len() > 0 {
            let n0 = x[i].1.children@[0].0@;
            lemma_single_step_membership(x[i].1, n0);
            lemma_single_step_membership(y[i].1, n0);
            assert(has_child(x[i].1.children@, n0));
        }
        if y[i].1.children@.len() > 0 {
            let n0 = y[i].1.children@[0].0@;
            lemma_single_step_membership(x[i].1, n0);
            lemma_single_step_membership(y[i].1, n0);
            assert(has_child(y[i].1.children@, n0));
        }
    }
    assert forall|prefix: Seq<u8>|
        #[trigger] spec_render(a, prefix) == spec_render(b, prefix) by {
        lemma_render_children_pointwise(x, y, prefix);
    }
}

} // verus!
