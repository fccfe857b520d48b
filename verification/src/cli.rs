//! The options that drive counting, decoding and listing, as plain values.

use vstd::prelude::*;
use std::path::PathBuf;
use crate::encoding::EncodingArg;

verus! {

/// Options of the default (counting) command.
#[derive(Debug)]
pub struct CountArgs {
    /// Files or directories to count; `-` means stdin.
    pub paths: Vec<PathBuf>,
    /// Count this literal string instead of reading files.
    pub text: Option<String>,
    pub encoder: EncoderArgs,
    /// Output format.
    pub format: Format,
    /// Print only the total token count.
    pub quiet: bool,
    /// Print token IDs instead of counting.
    pub ids: bool,
    /// Visualise token boundaries with colour.
    pub show: bool,
    /// Exit with status 1 when the total exceeds this many tokens.
    pub limit: Option<usize>,
    /// Group the totals by file extension instead of by file.
    pub by_ext: bool,
    /// Show only the N largest entries.
    pub top: Option<usize>,
    /// Sort order for the per-file table.
    pub sort: Sort,
    /// Reverse the sort order.
    pub reverse: bool,
    pub walk: WalkArgs,
    /// Number of threads to use (0 = one per core).
    pub threads: usize,
}

/// How the tokenizer is chosen.
#[derive(Debug)]
pub struct EncoderArgs {
    /// Model whose encoding should be used (default: gpt-5).
    pub model: Option<String>,
    /// Use an encoding directly instead of deriving one from the model.
    pub encoding: Option<EncodingArg>,
    /// Parse special tokens such as `<|endoftext|>` instead of treating them as plain text.
    pub special: bool,
}

/// How directories are walked.
#[derive(Debug, Default)]
pub struct WalkArgs {
    /// Include hidden files and directories.
    pub hidden: bool,
    /// Do not respect .gitignore and friends.
    pub no_ignore: bool,
    /// Only count files with this extension (repeatable).
    pub ext: Vec<String>,
    /// Only count paths matching this glob (repeatable).
    pub glob: Vec<String>,
    /// Skip paths matching this glob (repeatable).
    pub exclude: Vec<String>,
    /// Follow symbolic links while walking directories.
    pub follow: bool,
}

/// Options of `tok decode`.
#[derive(Debug)]
pub struct DecodeArgs {
    /// Token IDs to decode; omit to read them from stdin.
    pub ids: Vec<String>,
    pub encoder: EncoderArgs,
}

/// Options of `tok models`.
#[derive(Debug)]
pub struct ModelsArgs {
    /// Output format.
    pub format: Format,
}

#[derive(Copy, Clone, Debug, PartialEq, Eq, Structural)]
pub enum Format {
    /// Aligned, human readable table.
    Table,
    /// JSON object.
    Json,
    /// Comma separated values with a header row.
    Csv,
    /// Tab separated values with a header row.
    Tsv,
}

#[derive(Copy, Clone, Debug, PartialEq, Eq, Structural)]
pub enum Sort {
    /// Largest token count first.
    Tokens,
    /// Alphabetical by path.
    Path,
    /// Largest file size first.
    Size,
    /// Keep discovery order.
    Discovery,
}

#[derive(Copy, Clone, Debug, PartialEq, Eq, Structural)]
pub enum ColorChoice {
    Auto,
    Always,
    Never,
}

} // verus!
