//! Verified core of a repository-to-context packager: it selects files,
//! redacts likely secrets, renders a directory tree, numbers lines on
//! request, counts byte-pair-encoding tokens and assembles one payload.
//!
//! Everything that reads or writes the outside world (walking the
//! filesystem, running git, the clipboard, the terminal) lives outside this
//! crate; the functions here are pure transformations over plain values.
#![allow(unused_imports)]
use vstd::prelude::*;

pub mod bytes;
pub mod secrets;
pub mod selection;
pub mod tree;
pub mod process;
pub mod manifest;
pub mod compose;
pub mod laws;

verus! {

/// An error that aborts a whole scan before any payload is emitted. The
/// other fatal condition, a failing git query, arises where git runs,
/// outside this crate; per-file troubles never abort a scan.
#[derive(PartialEq, Eq, Structural, Clone, Copy, Debug)]
pub enum ScanError {
    /// The configured glob filter does not compile.
    InvalidGlob,
}

/// The shape of the per-file blocks in the assembled payload.
#[derive(PartialEq, Eq, Structural, Clone, Copy, Debug)]
pub enum OutputFormat {
    Markdown,
    Xml,
}

/// How candidate files are discovered: a full recursive walk of the root,
/// or the files the working tree changed relative to the last commit.
#[derive(PartialEq, Eq, Structural, Clone, Copy, Debug)]
pub enum ScanMode {
    FullWalk,
    GitDiff,
}

/// Immutable configuration of one scan.
pub struct ScanConfig {
    pub mode: ScanMode,
    /// At most one glob pattern; paths that do not match it are dropped.
    pub filter: Option<Vec<u8>>,
    pub format: OutputFormat,
    /// Prefix every content line with a right-aligned 1-based line number.
    pub number_lines: bool,
    /// Upper bound on the size of a file worth processing, in bytes.
    /// Enforced where files are discovered, before their contents are read.
    pub max_size: u64,
}

/// What a caller asks of one run, as it arrives from the outside: the
/// command line parses into this shape, and `to_config` distills the part
/// the scan itself acts on.
pub struct Args {
    /// The directory to scan.
    pub path: Option<String>,
    /// Deliver the payload to the clipboard instead of standard output.
    pub copy: bool,
    /// The output format: `xml`, or anything else for markdown.
    pub format: String,
    /// The optional glob filter.
    pub filter: Option<String>,
    /// Take only the files the working tree changed relative to the last
    /// commit.
    pub diff: bool,
    /// Prefix content lines with their numbers.
    pub numbers: bool,
    /// Write the payload to this file instead of standard output.
    pub output: Option<String>,
    /// The largest file worth processing, in bytes.
    pub max_size: u64,
    /// Pick files by hand; handled entirely outside the core.
    pub interactive: bool,
}

/// A string's bytes.
fn str_to_bytes(s: &str) -> (r: Vec<u8>)
    ensures
        r@ == vstd::utf8::encode_utf8(s@),
{
    let b = s.as_bytes();
    let mut r: Vec<u8> = Vec::new();
    let mut i: usize = 0;
    while i < b.len()
        invariant
            i <= b@.len(),
            b@ == vstd::utf8::encode_utf8(s@),
            r@ == b@.take(i as int),
        decreases b@.len() - i,
    {
        r.push(b[i]);
        proof {
            assert(b@.take(i as int + 1) =~= b@.take(i as int).push(b@[i as int]));
        }
        i = i + 1;
    }
    proof {
        assert(b@.take(b@.len() as int) =~= b@);
    }
    r
}

impl Args {
    /// The scan configuration these arguments ask for: git-diff discovery
    /// when `diff` is set, the structured-markup format exactly when the
    /// format string says `xml`, the filter's text as bytes.
    pub fn to_config(&self) -> (c: ScanConfig)
        ensures
            c.mode == (if self.diff {
                ScanMode::GitDiff
            } else {
                ScanMode::FullWalk
            }),
            c.format == (if self.format@ == "xml"@ {
                OutputFormat::Xml
            } else {
                OutputFormat::Markdown
            }),
            c.number_lines == self.numbers,
            c.max_size == self.max_size,
            match (&self.filter, &c.filter) {
                (Some(f), Some(cf)) => cf@ == vstd::utf8::encode_utf8(f@),
                (None, None) => true,
                _ => false,
            },
    {
        let xml: String = "xml".to_owned();
        let format = if self.format == xml {
            OutputFormat::Xml
        } else {
            OutputFormat::Markdown
        };
        let mode = if self.diff {
            ScanMode::GitDiff
        } else {
            ScanMode::FullWalk
        };
        let filter = match &self.filter {
            Some(f) => Some(str_to_bytes(f.as_str())),
            None => None,
        };
        ScanConfig { mode, filter, format, number_lines: self.numbers, max_size: self.max_size }
    }
}

} // verus!
