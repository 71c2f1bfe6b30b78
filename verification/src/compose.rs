//! Output assembly: the optional project-context block, the labeled tree
//! view, then one block per successfully processed file, in the given
//! order, in markdown or structured-markup shape; and the final metrics,
//! computed over the whole assembled payload, never as a sum of per-file
//! counts.
#![allow(unused_imports)]
use vstd::prelude::*;
use crate::bytes::{dec_digits, extend_bytes, u64_to_dec};
use crate::process::{token_count, token_count_of, ProcessedFile};
use crate::OutputFormat;

verus! {

/// The banner above the tree view.
pub open spec fn lit_structure_header() -> Seq<u8> {
    seq![80u8, 82, 79, 74, 69, 67, 84, 32, 83, 84, 82, 85, 67, 84, 85, 82, 69, 58, 10, 61, 61, 61, 61, 61, 61, 61, 61, 61, 61, 61, 61, 61, 61, 61, 61, 61, 61, 10]
}

fn lit_structure_header_vec() -> (r: Vec<u8>)
    ensures
        r@ == lit_structure_header(),
{
    let mut v: Vec<u8> = Vec::new();
    v.push(80);
    v.push(82);
    v.push(79);
    v.push(74);
    v.push(69);
    v.push(67);
    v.push(84);
    v.push(32);
    v.push(83);
    v.push(84);
    v.push(82);
    v.push(85);
    v.push(67);
    v.push(84);
    v.push(85);
    v.push(82);
    v.push(69);
    v.push(58);
    v.push(10);
    v.push(61);
    v.push(61);
    v.push(61);
    v.push(61);
    v.push(61);
    v.push(61);
    v.push(61);
    v.push(61);
    v.push(61);
    v.push(61);
    v.push(61);
    v.push(61);
    v.push(61);
    v.push(61);
    v.push(61);
    v.push(61);
    v.push(61);
    v.push(61);
    v.push(10);
    proof {
        assert(v@ =~= lit_structure_header());
    }
    v
}

/// The banner between the tree view and the file blocks.
pub open spec fn lit_contents_header() -> Seq<u8> {
    seq![10u8, 10, 70, 73, 76, 69, 32, 67, 79, 78, 84, 69, 78, 84, 83, 58, 10, 61, 61, 61, 61, 61, 61, 61, 61, 61, 61, 61, 61, 61, 61, 61, 61, 61, 61, 10, 10]
}

fn lit_contents_header_vec() -> (r: Vec<u8>)
    ensures
        r@ == lit_contents_header(),
{
    let mut v: Vec<u8> = Vec::new();
    v.push(10);
    v.push(10);
    v.push(70);
    v.push(73);
    v.push(76);
    v.push(69);
    v.push(32);
    v.push(67);
    v.push(79);
    v.push(78);
    v.push(84);
    v.push(69);
    v.push(78);
    v.push(84);
    v.push(83);
    v.push(58);
    v.push(10);
    v.push(61);
    v.push(61);
    v.push(61);
    v.push(61);
    v.push(61);
    v.push(61);
    v.push(61);
    v.push(61);
    v.push(61);
    v.push(61);
    v.push(61);
    v.push(61);
    v.push(61);
    v.push(61);
    v.push(61);
    v.push(61);
    v.push(61);
    v.push(61);
    v.push(10);
    v.push(10);
    proof {
        assert(v@ =~= lit_contents_header());
    }
    v
}

/// The markdown block header's lead-in.
pub open spec fn lit_md_lead() -> Seq<u8> {
    seq![45u8, 45, 45, 32, 70, 105, 108, 101, 58, 32]
}

fn lit_md_lead_vec() -> (r: Vec<u8>)
    ensures
        r@ == lit_md_lead(),
{
    let mut v: Vec<u8> = Vec::new();
    v.push(45);
    v.push(45);
    v.push(45);
    v.push(32);
    v.push(70);
    v.push(105);
    v.push(108);
    v.push(101);
    v.push(58);
    v.push(32);
    proof {
        assert(v@ =~= lit_md_lead());
    }
    v
}

/// Between the path and the token count.
pub open spec fn lit_md_mid() -> Seq<u8> {
    seq![32u8, 40]
}

fn lit_md_mid_vec() -> (r: Vec<u8>)
    ensures
        r@ == lit_md_mid(),
{
    let mut v: Vec<u8> = Vec::new();
    v.push(32);
    v.push(40);
    proof {
        assert(v@ =~= lit_md_mid());
    }
    v
}

/// After the token count.
pub open spec fn lit_md_tail() -> Seq<u8> {
    seq![32u8, 116, 111, 107, 101, 110, 115, 41, 32, 45, 45, 45]
}

fn lit_md_tail_vec() -> (r: Vec<u8>)
    ensures
        r@ == lit_md_tail(),
{
    let mut v: Vec<u8> = Vec::new();
    v.push(32);
    v.push(116);
    v.push(111);
    v.push(107);
    v.push(101);
    v.push(110);
    v.push(115);
    v.push(41);
    v.push(32);
    v.push(45);
    v.push(45);
    v.push(45);
    proof {
        assert(v@ =~= lit_md_tail());
    }
    v
}

/// The structured-markup opening tag's lead-in.
pub open spec fn lit_xml_lead() -> Seq<u8> {
    seq![60u8, 102, 105, 108, 101, 32, 112, 97, 116, 104, 61, 34]
}

fn lit_xml_lead_vec() -> (r: Vec<u8>)
    ensures
        r@ == lit_xml_lead(),
{
    let mut v: Vec<u8> = Vec::new();
    v.push(60);
    v.push(102);
    v.push(105);
    v.push(108);
    v.push(101);
    v.push(32);
    v.push(112);
    v.push(97);
    v.push(116);
    v.push(104);
    v.push(61);
    v.push(34);
    proof {
        assert(v@ =~= lit_xml_lead());
    }
    v
}

/// Between the path and tokens attributes.
pub open spec fn lit_xml_mid() -> Seq<u8> {
    seq![34u8, 32, 116, 111, 107, 101, 110, 115, 61, 34]
}

fn lit_xml_mid_vec() -> (r: Vec<u8>)
    ensures
        r@ == lit_xml_mid(),
{
    let mut v: Vec<u8> = Vec::new();
    v.push(34);
    v.push(32);
    v.push(116);
    v.push(111);
    v.push(107);
    v.push(101);
    v.push(110);
    v.push(115);
    v.push(61);
    v.push(34);
    proof {
        assert(v@ =~= lit_xml_mid());
    }
    v
}

/// The end of the opening tag.
pub open spec fn lit_xml_open_end() -> Seq<u8> {
    seq![34u8, 62, 10]
}

fn lit_xml_open_end_vec() -> (r: Vec<u8>)
    ensures
        r@ == lit_xml_open_end(),
{
    let mut v: Vec<u8> = Vec::new();
    v.push(34);
    v.push(62);
    v.push(10);
    proof {
        assert(v@ =~= lit_xml_open_end());
    }
    v
}

/// The closing tag.
pub open spec fn lit_xml_close() -> Seq<u8> {
    seq![10u8, 60, 47, 102, 105, 108, 101, 62, 10]
}

fn lit_xml_close_vec() -> (r: Vec<u8>)
    ensures
        r@ == lit_xml_close(),
{
    let mut v: Vec<u8> = Vec::new();
    v.push(10);
    v.push(60);
    v.push(47);
    v.push(102);
    v.push(105);
    v.push(108);
    v.push(101);
    v.push(62);
    v.push(10);
    proof {
        assert(v@ =~= lit_xml_close());
    }
    v
}

/// The markdown block of one file: a delimiter line with path and token
/// count, the content, a blank line.
pub open spec fn md_block(path: Seq<u8>, text: Seq<u8>, tokens: nat) -> Seq<u8> {
    lit_md_lead() + path + lit_md_mid() + dec_digits(tokens) + lit_md_tail() + seq![10u8] + text
        + seq![10u8, 10]
}

/// The structured-markup element of one file: the opening tag carries path
/// and token count, the body is the content verbatim.
pub open spec fn xml_block(path: Seq<u8>, text: Seq<u8>, tokens: nat) -> Seq<u8> {
    lit_xml_lead() + path + lit_xml_mid() + dec_digits(tokens) + lit_xml_open_end() + text
        + lit_xml_close()
}

/// One file's block in the configured shape.
pub open spec fn file_block(fmt: OutputFormat, path: Seq<u8>, pf: ProcessedFile) -> Seq<u8> {
    match fmt {
        OutputFormat::Markdown => md_block(path, pf.text@, pf.tokens as nat),
        OutputFormat::Xml => xml_block(path, pf.text@, pf.tokens as nat),
    }
}

/// The blocks of all entries, in order; an entry whose processing yielded
/// nothing leaves no block behind.
pub open spec fn file_blocks(entries: Seq<(Vec<u8>, Option<ProcessedFile>)>, fmt: OutputFormat)
    -> Seq<u8>
    decreases entries.len(),
{
    if entries.len() == 0 {
        Seq::empty()
    } else {
        (match entries[0].1 {
            Some(pf) => file_block(fmt, entries[0].0@, pf),
            None => Seq::empty(),
        }) + file_blocks(entries.skip(1), fmt)
    }
}

/// The paths of the blocks `file_blocks` lays down, in the same order:
/// one per successfully processed entry, none for a skipped one.
pub open spec fn block_paths(entries: Seq<(Vec<u8>, Option<ProcessedFile>)>) -> Seq<Seq<u8>>
    decreases entries.len(),
{
    if entries.len() == 0 {
        Seq::empty()
    } else {
        (match entries[0].1 {
            Some(_) => seq![entries[0].0@],
            None => Seq::empty(),
        }) + block_paths(entries.skip(1))
    }
}

/// The whole payload: context block if any, the labeled tree view, the
/// file blocks.
pub open spec fn payload_spec(
    context: Option<Seq<u8>>,
    tree: Seq<u8>,
    entries: Seq<(Vec<u8>, Option<ProcessedFile>)>,
    fmt: OutputFormat,
) -> Seq<u8> {
    (match context {
        Some(c) => c + seq![10u8],
        None => Seq::empty(),
    }) + lit_structure_header() + tree + lit_contents_header() + file_blocks(entries, fmt)
}

/// The view of the optional context block.
pub open spec fn context_view(context: Option<Vec<u8>>) -> Option<Seq<u8>> {
    match context {
        Some(c) => Some(c@),
        None => None,
    }
}

/// Assembles the payload text.
pub fn compose_payload(
    context: &Option<Vec<u8>>,
    tree: &Vec<u8>,
    entries: &Vec<(Vec<u8>, Option<ProcessedFile>)>,
    fmt: OutputFormat,
) -> (r: Vec<u8>)
    ensures
        r@ == payload_spec(context_view(*context), tree@, entries@, fmt),
{
    let mut out: Vec<u8> = Vec::new();
    match context {
        Some(c) => {
            extend_bytes(&mut out, c);
            out.push(10);
        },
        None => {},
    }
    let sh = lit_structure_header_vec();
    extend_bytes(&mut out, &sh);
    extend_bytes(&mut out, tree);
    let ch = lit_contents_header_vec();
    extend_bytes(&mut out, &ch);
    let ghost head = out@;
    proof {
        assert(entries@.skip(0) =~= entries@);
        assert(head + file_blocks(entries@, fmt) =~= head + file_blocks(entries@.skip(0), fmt));
    }
    let mut i: usize = 0;
    while i < entries.len()
        invariant
            i <= entries@.len(),
            head == (match context_view(*context) {
                Some(c) => c + seq![10u8],
                None => Seq::<u8>::empty(),
            }) + lit_structure_header() + tree@ + lit_contents_header(),
            head + file_blocks(entries@, fmt) == out@ + file_blocks(
                entries@.skip(i as int),
                fmt,
            ),
        decreases entries@.len() - i,
    {
        let ghost tail = entries@.skip(i as int);
        let ghost pre = out@;
        proof {
            assert(tail[0] == entries@[i as int]);
            assert(tail.skip(1) =~= entries@.skip(i as int + 1));
        }
        match &entries[i].1 {
            Some(pf) => {
                match fmt {
                    OutputFormat::Markdown => {
                        let lead = lit_md_lead_vec();
                        extend_bytes(&mut out, &lead);
                        extend_bytes(&mut out, &entries[i].0);
                        let mid = lit_md_mid_vec();
                        extend_bytes(&mut out, &mid);
                        let dec = u64_to_dec(pf.tokens as u64);
                        extend_bytes(&mut out, &dec);
                        let tail_lit = lit_md_tail_vec();
                        extend_bytes(&mut out, &tail_lit);
                        out.push(10);
                        extend_bytes(&mut out, &pf.text);
                        out.push(10);
                        out.push(10);
                        proof {
                            assert(out@ =~= pre + md_block(
                                entries@[i as int].0@,
                                pf.text@,
                                pf.tokens as nat,
                            ));
                        }
                    },
                    OutputFormat::Xml => {
                        let lead = lit_xml_lead_vec();
                        extend_bytes(&mut out, &lead);
                        extend_bytes(&mut out, &entries[i].0);
                        let mid = lit_xml_mid_vec();
                        extend_bytes(&mut out, &mid);
                        let dec = u64_to_dec(pf.tokens as u64);
                        extend_bytes(&mut out, &dec);
                        let open_end = lit_xml_open_end_vec();
                        extend_bytes(&mut out, &open_end);
                        extend_bytes(&mut out, &pf.text);
                        let close = lit_xml_close_vec();
                        extend_bytes(&mut out, &close);
                        proof {
                            assert(out@ =~= pre + xml_block(
                                entries@[i as int].0@,
                                pf.text@,
                                pf.tokens as nat,
                            ));
                        }
                    },
                }
                proof {
                    assert(pre + file_blocks(tail, fmt) =~= out@ + file_blocks(
                        tail.skip(1),
                        fmt,
                    ));
                }
            },
            None => {
                proof {
                    assert(pre + file_blocks(tail, fmt) =~= out@ + file_blocks(
                        tail.skip(1),
                        fmt,
                    ));
                }
            },
        }
        i = i + 1;
    }
    proof {
        assert(file_blocks(entries@.skip(i as int), fmt) =~= Seq::<u8>::empty());
        assert(out@ =~= head + file_blocks(entries@, fmt));
    }
    out
}

/// The fully assembled output and its aggregate metrics: the token count
/// over the whole string and its length in bytes. Computed once, at the
/// end.
pub struct Payload {
    pub text: Vec<u8>,
    pub tokens: usize,
    pub chars: usize,
}

/// Computes the payload's metrics: its token count, taken over the entire
/// assembled text, and its character length. Total: every payload gets its
/// metrics.
pub fn finalize_payload(text: Vec<u8>) -> (p: Payload)
    ensures
        p.text@ == text@,
        p.tokens as nat == token_count_of(text@),
        p.chars == text@.len(),
{
    let tokens = token_count(&text);
    let chars = text.len();
    Payload { text, tokens, chars }
}

} // verus!
