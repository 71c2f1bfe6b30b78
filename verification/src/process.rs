//! Per-file content processing: binary detection over a bounded probe,
//! secret redaction, optional line numbering, and token counting. Each file
//! is processed independently; the caller may run many in parallel and must
//! reassemble results by the file's position in the sorted list.
#![allow(unused_imports)]
use vstd::prelude::*;
use crate::bytes::{dec_digits, extend_bytes, lines_of, lines_from, run_end, lemma_run_end, nl_pred,
    split_lines, u64_to_dec, views};
use crate::secrets::{scan_finds, scan_spec, SecretScanner};

verus! {

// ------------------------------------------------------------ token counts

/// The number of byte-pair-encoding tokens of a text, under the fixed
/// `cl100k_base` vocabulary.
pub uninterp spec fn token_count_of(text: Seq<u8>) -> nat;

/// Relies on tiktoken_rs::cl100k_base_singleton and
/// CoreBPE::encode_with_special_tokens: the vocabulary is an asset embedded
/// at compile time, so building it cannot fail on any input of ours and is
/// done once per process, and the resulting count is a function of the
/// text alone; the text is read as UTF-8, lossily.
#[verifier::external_body]
fn count_tokens(text: &Vec<u8>) -> (r: usize)
    ensures
        r as nat == token_count_of(text@),
{
    let bpe = tiktoken_rs::cl100k_base_singleton();
    bpe.encode_with_special_tokens(&String::from_utf8_lossy(text)).len()
}

/// The token counter's one stateless operation: the token count of a
/// text, total over all texts.
pub fn token_count(text: &Vec<u8>) -> (r: usize)
    ensures
        r as nat == token_count_of(text@),
{
    count_tokens(text)
}

// ---------------------------------------------------------- binary probing

/// Whether a probe of a file's first bytes marks it as binary: it holds a
/// zero byte.
pub fn is_binary_probe(probe: &Vec<u8>) -> (r: bool)
    ensures
        r == probe@.contains(0u8),
{
    let mut i: usize = 0;
    while i < probe.len()
        invariant
            i <= probe@.len(),
            forall|j: int| 0 <= j < i ==> probe@[j] != 0u8,
        decreases probe@.len() - i,
    {
        if probe[i] == 0 {
            assert(probe@[i as int] == 0u8);
            return true;
        }
        i = i + 1;
    }
    assert(forall|j: int| 0 <= j < probe@.len() ==> probe@[j] != 0u8);
    false
}

// ---------------------------------------------------------- line numbering

/// `n` spaces.
pub open spec fn spaces(n: int) -> Seq<u8>
    decreases n,
{
    if n <= 0 {
        Seq::empty()
    } else {
        spaces(n - 1) + seq![32u8]
    }
}

/// The decimal digits of `n`, right-aligned to at least four columns.
pub open spec fn pad4(d: Seq<u8>) -> Seq<u8> {
    if d.len() >= 4 {
        d
    } else {
        spaces(4 - d.len()) + d
    }
}

/// The prefix put before line `n`: the right-aligned number, a space, a
/// pipe, a space.
pub open spec fn line_prefix(n: nat) -> Seq<u8> {
    pad4(dec_digits(n)) + seq![32u8, 124u8, 32u8]
}

/// The lines `ls`, each prefixed with its 1-based number counted from
/// `start`, each closed with a line feed.
pub open spec fn numbered_lines(ls: Seq<Seq<u8>>, start: nat) -> Seq<u8>
    decreases ls.len(),
{
    if ls.len() == 0 {
        Seq::empty()
    } else {
        line_prefix(start) + ls[0] + seq![10u8] + numbered_lines(ls.skip(1), (start + 1) as nat)
    }
}

/// The text with every line numbered.
pub open spec fn numbered(t: Seq<u8>) -> Seq<u8> {
    numbered_lines(lines_of(t), 1)
}

/// A text has at most as many lines as bytes.
pub proof fn lemma_lines_count(t: Seq<u8>, pos: int)
    requires
        0 <= pos <= t.len(),
    ensures
        lines_from(t, pos).len() <= t.len() - pos,
    decreases t.len() - pos,
{
    if pos < t.len() {
        lemma_run_end(t, pos, nl_pred());
        let e = run_end(t, pos, nl_pred());
        let next = if e < t.len() {
            e + 1
        } else {
            e
        };
        lemma_lines_count(t, next);
    }
}

fn make_line_prefix(n: u64) -> (r: Vec<u8>)
    ensures
        r@ == line_prefix(n as nat),
{
    let d = u64_to_dec(n);
    let mut r: Vec<u8> = Vec::new();
    let mut pad: usize = 0;
    let need: usize = if d.len() >= 4 {
        0
    } else {
        4 - d.len()
    };
    while pad < need
        invariant
            pad <= need <= 4,
            r@ == spaces(pad as int),
        decreases need - pad,
    {
        r.push(32);
        proof {
            assert(r@ =~= spaces(pad + 1));
        }
        pad = pad + 1;
    }
    extend_bytes(&mut r, &d);
    r.push(32);
    r.push(124);
    r.push(32);
    proof {
        assert(r@ =~= line_prefix(n as nat));
    }
    r
}

/// Rebuilds the text with every line prefixed by its fixed-width,
/// right-aligned, 1-based number and a separator.
pub fn number_lines(content: &Vec<u8>) -> (r: Vec<u8>)
    ensures
        r@ == numbered(content@),
{
    let lines = split_lines(content);
    proof {
        lemma_lines_count(content@, 0);
        assert(content.len() == content@.len());
        assert(lines@.len() == views(lines@).len());
        assert(lines@.len() <= usize::MAX);
    }
    let mut r: Vec<u8> = Vec::new();
    let mut i: usize = 0;
    proof {
        assert(views(lines@).skip(0) =~= views(lines@));
        assert(Seq::<u8>::empty() + numbered_lines(views(lines@), 1) =~= numbered_lines(
            views(lines@),
            1,
        ));
    }
    while i < lines.len()
        invariant
            i <= lines@.len(),
            lines@.len() <= usize::MAX,
            views(lines@) == lines_of(content@),
            numbered(content@) == r@ + numbered_lines(
                views(lines@).skip(i as int),
                (i + 1) as nat,
            ),
        decreases lines@.len() - i,
    {
        let ghost tail = views(lines@).skip(i as int);
        proof {
            assert(tail[0] == lines@[i as int]@);
            assert(tail.skip(1) =~= views(lines@).skip(i as int + 1));
        }
        let ghost pre = r@;
        let prefix = make_line_prefix((i as u64) + 1);
        extend_bytes(&mut r, &prefix);
        extend_bytes(&mut r, &lines[i]);
        r.push(10);
        proof {
            assert(numbered_lines(tail, (i + 1) as nat) == line_prefix((i + 1) as nat) + tail[0]
                + seq![10u8] + numbered_lines(tail.skip(1), (i + 2) as nat));
            assert(pre + numbered_lines(tail, (i + 1) as nat) =~= r@ + numbered_lines(
                tail.skip(1),
                (i + 2) as nat,
            ));
        }
        i = i + 1;
    }
    proof {
        assert(views(lines@).skip(i as int) =~= Seq::<Seq<u8>>::empty());
        assert(r@ + numbered_lines(Seq::<Seq<u8>>::empty(), (i + 1) as nat) =~= r@);
    }
    r
}

// ------------------------------------------------------------- one file

/// The transformed content of one retained file and its token count.
/// Produced once per file and never changed afterwards.
pub struct ProcessedFile {
    pub text: Vec<u8>,
    pub tokens: usize,
}

/// What the processing step makes of a file's decoded content: the text
/// after redaction, line-numbered when requested.
pub open spec fn processed_text(content: Seq<u8>, number: bool) -> Seq<u8> {
    if number {
        numbered(scan_spec(content))
    } else {
        scan_spec(content)
    }
}

/// Processes one file. `probe` holds the file's first bytes; a zero byte
/// there marks the file binary, and it is skipped. `content` is the decoded
/// text, or `None` where reading or decoding failed; such a file is skipped
/// too. Exactly the skipped files yield `None`; every other file yields its
/// transformed text, that text's token count, and whether a secret was
/// found. Nothing here can stop the scan as a whole.
pub fn process_file_data(
    scanner: &SecretScanner,
    probe: &Vec<u8>,
    content: Option<&Vec<u8>>,
    number: bool,
) -> (r: Option<(ProcessedFile, bool)>)
    ensures
        r is None <==> (probe@.contains(0u8) || content is None),
        match r {
            Some(p) => {
                &&& content matches Some(c) && p.0.text@ == processed_text(c@, number) && p.1
                    == scan_finds(c@)
                &&& p.0.tokens as nat == token_count_of(p.0.text@)
            },
            None => true,
        },
{
    if is_binary_probe(probe) {
        return None;
    }
    let c = match content {
        None => {
            return None;
        },
        Some(c) => c,
    };
    let (sanitized, found) = scanner.scan(c);
    let text = if number {
        number_lines(&sanitized)
    } else {
        sanitized
    };
    let tokens = token_count(&text);
    Some((ProcessedFile { text, tokens }, found))
}

} // verus!
