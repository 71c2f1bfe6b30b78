//! Best-effort project identity: the core is handed the plain facts read
//! out of up to two root manifests, a structured config and a JSON
//! manifest, and renders the project-context block: project name,
//! ecosystem label, and up to a fixed cap of dependency pairs per
//! manifest. Reading and parsing the manifests happens outside the core;
//! a missing or unreadable manifest is simply absent here.
#![allow(unused_imports)]
use vstd::prelude::*;
use crate::bytes::{extend_bytes, dec_digits, u64_to_dec};

verus! {

/// What one parsed manifest told: the project name, if any, and its
/// dependency pairs, if a dependency table was present at all. A version
/// is `None` where the manifest holds one in a shape that is not plain
/// text.
pub struct ManifestInfo {
    pub name: Option<Vec<u8>>,
    pub deps: Option<Vec<(Vec<u8>, Option<Vec<u8>>)>>,
}

/// At most this many dependency pairs are shown per manifest.
pub open spec fn dep_cap() -> int {
    15
}

/// The project-line lead-in.
pub open spec fn lit_project() -> Seq<u8> {
    seq![91u8, 43, 93, 32, 80, 114, 111, 106, 101, 99, 116, 58, 32]
}

fn lit_project_vec() -> (r: Vec<u8>)
    ensures
        r@ == lit_project(),
{
    let mut v: Vec<u8> = Vec::new();
    v.push(91);
    v.push(43);
    v.push(93);
    v.push(32);
    v.push(80);
    v.push(114);
    v.push(111);
    v.push(106);
    v.push(101);
    v.push(99);
    v.push(116);
    v.push(58);
    v.push(32);
    proof {
        assert(v@ =~= lit_project());
    }
    v
}

/// The dependency-section header.
pub open spec fn lit_deps_header() -> Seq<u8> {
    seq![91u8, 43, 93, 32, 68, 101, 112, 101, 110, 100, 101, 110, 99, 105, 101, 115, 58, 10]
}

fn lit_deps_header_vec() -> (r: Vec<u8>)
    ensures
        r@ == lit_deps_header(),
{
    let mut v: Vec<u8> = Vec::new();
    v.push(91);
    v.push(43);
    v.push(93);
    v.push(32);
    v.push(68);
    v.push(101);
    v.push(112);
    v.push(101);
    v.push(110);
    v.push(100);
    v.push(101);
    v.push(110);
    v.push(99);
    v.push(105);
    v.push(101);
    v.push(115);
    v.push(58);
    v.push(10);
    proof {
        assert(v@ =~= lit_deps_header());
    }
    v
}

/// The per-dependency lead-in.
pub open spec fn lit_indent() -> Seq<u8> {
    seq![32u8, 32, 32, 32, 45, 32]
}

fn lit_indent_vec() -> (r: Vec<u8>)
    ensures
        r@ == lit_indent(),
{
    let mut v: Vec<u8> = Vec::new();
    v.push(32);
    v.push(32);
    v.push(32);
    v.push(32);
    v.push(45);
    v.push(32);
    proof {
        assert(v@ =~= lit_indent());
    }
    v
}

/// Between a dependency's name and version.
pub open spec fn lit_colon_space() -> Seq<u8> {
    seq![58u8, 32]
}

fn lit_colon_space_vec() -> (r: Vec<u8>)
    ensures
        r@ == lit_colon_space(),
{
    let mut v: Vec<u8> = Vec::new();
    v.push(58);
    v.push(32);
    proof {
        assert(v@ =~= lit_colon_space());
    }
    v
}

/// The version shown where a manifest gives none.
pub open spec fn lit_star() -> Seq<u8> {
    seq![42u8]
}

fn lit_star_vec() -> (r: Vec<u8>)
    ensures
        r@ == lit_star(),
{
    let mut v: Vec<u8> = Vec::new();
    v.push(42);
    proof {
        assert(v@ =~= lit_star());
    }
    v
}

/// The name shown where a manifest gives none.
pub open spec fn lit_unknown() -> Seq<u8> {
    seq![85u8, 110, 107, 110, 111, 119, 110]
}

fn lit_unknown_vec() -> (r: Vec<u8>)
    ensures
        r@ == lit_unknown(),
{
    let mut v: Vec<u8> = Vec::new();
    v.push(85);
    v.push(110);
    v.push(107);
    v.push(110);
    v.push(111);
    v.push(119);
    v.push(110);
    proof {
        assert(v@ =~= lit_unknown());
    }
    v
}

/// The ecosystem label of the structured config manifest.
pub open spec fn lit_rust() -> Seq<u8> {
    seq![82u8, 117, 115, 116]
}

fn lit_rust_vec() -> (r: Vec<u8>)
    ensures
        r@ == lit_rust(),
{
    let mut v: Vec<u8> = Vec::new();
    v.push(82);
    v.push(117);
    v.push(115);
    v.push(116);
    proof {
        assert(v@ =~= lit_rust());
    }
    v
}

/// The ecosystem label of the JSON manifest.
pub open spec fn lit_nodejs() -> Seq<u8> {
    seq![78u8, 111, 100, 101, 46, 106, 115]
}

fn lit_nodejs_vec() -> (r: Vec<u8>)
    ensures
        r@ == lit_nodejs(),
{
    let mut v: Vec<u8> = Vec::new();
    v.push(78);
    v.push(111);
    v.push(100);
    v.push(101);
    v.push(46);
    v.push(106);
    v.push(115);
    proof {
        assert(v@ =~= lit_nodejs());
    }
    v
}

/// The banner above the project-context block.
pub open spec fn lit_ctx_header() -> Seq<u8> {
    seq![80u8, 82, 79, 74, 69, 67, 84, 32, 67, 79, 78, 84, 69, 88, 84, 58, 10, 61, 61, 61, 61, 61, 61, 61, 61, 61, 61, 61, 61, 61, 61, 61, 61, 10]
}

fn lit_ctx_header_vec() -> (r: Vec<u8>)
    ensures
        r@ == lit_ctx_header(),
{
    let mut v: Vec<u8> = Vec::new();
    v.push(80);
    v.push(82);
    v.push(79);
    v.push(74);
    v.push(69);
    v.push(67);
    v.push(84);
    v.push(32);
    v.push(67);
    v.push(79);
    v.push(78);
    v.push(84);
    v.push(69);
    v.push(88);
    v.push(84);
    v.push(58);
    v.push(10);
    v.push(61);
    v.push(61);
    v.push(61);
    v.push(61);
    v.push(61);
    v.push(61);
    v.push(61);
    v.push(61);
    v.push(61);
    v.push(61);
    v.push(61);
    v.push(61);
    v.push(61);
    v.push(61);
    v.push(61);
    v.push(61);
    v.push(10);
    proof {
        assert(v@ =~= lit_ctx_header());
    }
    v
}


/// One dependency line.
pub open spec fn dep_line(k: Seq<u8>, v: Option<Seq<u8>>) -> Seq<u8> {
    lit_indent() + k + lit_colon_space() + (match v {
        Some(s) => s,
        None => lit_star(),
    }) + seq![10u8]
}

/// The view of an optional byte string.
pub open spec fn opt_view(v: Option<Vec<u8>>) -> Option<Seq<u8>> {
    match v {
        Some(x) => Some(x@),
        None => None,
    }
}

/// The first `count` dependency lines.
pub open spec fn dep_lines(deps: Seq<(Vec<u8>, Option<Vec<u8>>)>, count: int) -> Seq<u8>
    decreases deps.len(),
{
    if count <= 0 || deps.len() == 0 {
        Seq::empty()
    } else {
        dep_line(deps[0].0@, opt_view(deps[0].1)) + dep_lines(deps.skip(1), count - 1)
    }
}

/// The summary of one manifest: project line, then the capped dependency
/// list where the manifest had a dependency table.
pub open spec fn manifest_summary(m: ManifestInfo, eco: Seq<u8>) -> Seq<u8> {
    lit_project() + (match m.name {
        Some(n) => n@,
        None => lit_unknown(),
    }) + seq![32u8, 40] + eco + seq![41u8, 10] + (match m.deps {
        Some(ds) => lit_deps_header() + dep_lines(ds@, dep_cap()),
        None => Seq::empty(),
    })
}

/// The two manifests' summaries, the structured config first.
pub open spec fn summaries(rust: Option<ManifestInfo>, node: Option<ManifestInfo>) -> Seq<u8> {
    (match rust {
        Some(m) => manifest_summary(m, lit_rust()),
        None => Seq::empty(),
    }) + (match node {
        Some(m) => manifest_summary(m, lit_nodejs()),
        None => Seq::empty(),
    })
}

/// The whole project-context block, or nothing where no manifest spoke.
pub open spec fn context_block(rust: Option<ManifestInfo>, node: Option<ManifestInfo>) -> Option<
    Seq<u8>,
> {
    if summaries(rust, node).len() == 0 {
        None
    } else {
        Some(lit_ctx_header() + summaries(rust, node) + seq![10u8])
    }
}

/// Appends one manifest's summary.
fn append_manifest(out: &mut Vec<u8>, m: &ManifestInfo, eco: &Vec<u8>)
    ensures
        final(out)@ == old(out)@ + manifest_summary(*m, eco@),
{
    let lead = lit_project_vec();
    extend_bytes(out, &lead);
    match &m.name {
        Some(n) => extend_bytes(out, n),
        None => {
            let u = lit_unknown_vec();
            extend_bytes(out, &u);
        },
    }
    out.push(32);
    out.push(40);
    extend_bytes(out, eco);
    out.push(41);
    out.push(10);
    match &m.deps {
        Some(ds) => {
            let h = lit_deps_header_vec();
            extend_bytes(out, &h);
            let ghost before_deps = out@;
            let mut j: usize = 0;
            proof {
                assert(ds@.skip(0) =~= ds@);
                assert(before_deps + dep_lines(ds@, dep_cap()) =~= before_deps + dep_lines(
                    ds@.skip(0),
                    dep_cap() - 0,
                ));
            }
            while j < ds.len() && j < 15
                invariant
                    j <= ds@.len(),
                    j <= 15,
                    before_deps + dep_lines(ds@, dep_cap()) == out@ + dep_lines(
                        ds@.skip(j as int),
                        dep_cap() - j,
                    ),
                decreases ds@.len() - j,
            {
                let ghost tail = ds@.skip(j as int);
                let ghost pre = out@;
                proof {
                    assert(tail[0] == ds@[j as int]);
                    assert(tail.skip(1) =~= ds@.skip(j as int + 1));
                    assert(dep_lines(tail, dep_cap() - j) == dep_line(
                        tail[0].0@,
                        opt_view(tail[0].1),
                    ) + dep_lines(tail.skip(1), dep_cap() - j - 1));
                }
                let ind = lit_indent_vec();
                extend_bytes(out, &ind);
                extend_bytes(out, &ds[j].0);
                let cs = lit_colon_space_vec();
                extend_bytes(out, &cs);
                match &ds[j].1 {
                    Some(v) => extend_bytes(out, v),
                    None => {
                        let st = lit_star_vec();
                        extend_bytes(out, &st);
                    },
                }
                out.push(10);
                proof {
                    assert(out@ =~= pre + dep_line(tail[0].0@, opt_view(tail[0].1)));
                    assert(pre + dep_lines(tail, dep_cap() - j) =~= out@ + dep_lines(
                        tail.skip(1),
                        dep_cap() - j - 1,
                    ));
                }
                j = j + 1;
            }
            proof {
                assert(dep_lines(ds@.skip(j as int), dep_cap() - j) =~= Seq::<u8>::empty());
                assert(out@ =~= before_deps + dep_lines(ds@, dep_cap()));
                assert(out@ =~= old(out)@ + manifest_summary(*m, eco@));
            }
        },
        None => {
            proof {
                assert(out@ =~= old(out)@ + manifest_summary(*m, eco@));
            }
        },
    }
}

/// Renders the project-context block out of what the manifests told, or
/// nothing where neither was there to tell anything.
pub fn summarize_manifests(rust: &Option<ManifestInfo>, node: &Option<ManifestInfo>) -> (r:
    Option<Vec<u8>>)
    ensures
        match r {
            Some(v) => context_block(*rust, *node) == Some(v@),
            None => context_block(*rust, *node) is None,
        },
{
    let mut summary: Vec<u8> = Vec::new();
    match rust {
        Some(m) => {
            let eco = lit_rust_vec();
            append_manifest(&mut summary, m, &eco);
        },
        None => {},
    }
    match node {
        Some(m) => {
            let eco = lit_nodejs_vec();
            append_manifest(&mut summary, m, &eco);
        },
        None => {},
    }
    proof {
        assert(summary@ =~= summaries(*rust, *node));
    }
    if summary.len() == 0 {
        return None;
    }
    let mut out = lit_ctx_header_vec();
    extend_bytes(&mut out, &summary);
    out.push(10);
    proof {
        assert(out@ =~= lit_ctx_header() + summaries(*rust, *node) + seq![10u8]);
    }
    Some(out)
}

} // verus!
