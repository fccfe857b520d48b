//! Turning the inputs named on the command line into a flat list of things
//! to count.

use vstd::prelude::*;
use std::path::PathBuf;
use crate::count::{lossy_utf8, text_of_bytes};
use crate::paths::{has_ext, has_ext_spec, normalise_ext, normalise_ext_spec};

verus! {

/// One unit of input. Files are read later so that the reads can be parallelised.
#[derive(Debug, PartialEq, Eq)]
pub enum Item {
    /// A path on disk, read during counting.
    File(PathBuf),
    /// Text already in memory: stdin or `--text`.
    Inline { label: String, text: String },
}

/// The item for `--text`.
pub fn text_item(text: &str) -> (res: Item)
    ensures
        res matches Item::Inline { label, text: t } && label@ == "<text>"@ && t@ == text@,
{
    Item::Inline { label: String::from_str("<text>"), text: String::from_str(text) }
}

/// The item for the bytes read from stdin: their (lossy) text, labelled
/// `<stdin>`.
pub fn stdin_item(bytes: &[u8]) -> (res: Item)
    ensures
        res matches Item::Inline { label, text: t } && label@ == "<stdin>"@ && t@ == lossy_utf8(
            bytes@,
        ),
{
    Item::Inline { label: String::from_str("<stdin>"), text: text_of_bytes(bytes) }
}

/// One thing to do for a path named on the command line.
#[derive(Debug, Clone, Copy, PartialEq, Eq, Structural)]
pub enum PathStep {
    /// Read stdin (the first `-`).
    Stdin,
    /// Look at the path with this index: walk it if it is a directory,
    /// count it as a file otherwise.
    Inspect(usize),
}

/// Where the inputs come from.
#[derive(Debug, PartialEq, Eq)]
pub enum CollectPlan {
    /// `--text` wins over everything else.
    Text(Item),
    /// No paths: read stdin.
    Stdin,
    /// Handle the named paths in order.
    Paths(Vec<PathStep>),
}

/// The steps for paths whose "is `-`" flags are `dash`, given whether stdin
/// was already scheduled: the first `-` reads stdin, later ones are dropped.
pub open spec fn path_steps(dash: Seq<bool>, seen_stdin: bool) -> Seq<PathStep>
    decreases dash.len(),
{
    if dash.len() == 0 {
        Seq::empty()
    } else {
        let rest_seen = seen_stdin || dash.last();
        let prefix = path_steps(dash.drop_last(), seen_stdin);
        let seen_before = seen_stdin || dash.drop_last().contains(true);
        if dash.last() {
            if seen_before {
                prefix
            } else {
                prefix.push(PathStep::Stdin)
            }
        } else {
            prefix.push(PathStep::Inspect((dash.len() - 1) as usize))
        }
    }
}

/// Plan the collection of inputs: `--text` wins; with no paths stdin is read;
/// otherwise each path is handled in order, a `-` meaning stdin (read once).
pub fn collect_plan(text: Option<&str>, dash: &[bool]) -> (res: CollectPlan)
    ensures
        match text {
            Some(t) => res matches CollectPlan::Text(Item::Inline { label, text: tt }) && label@
                == "<text>"@ && tt@ == t@,
            None => if dash@.len() == 0 {
                res == CollectPlan::Stdin
            } else {
                res matches CollectPlan::Paths(steps) && steps@ == path_steps(dash@, false)
            },
        },
{
    if let Some(t) = text {
        return CollectPlan::Text(text_item(t));
    }
    if dash.len() == 0 {
        return CollectPlan::Stdin;
    }
    let mut steps: Vec<PathStep> = Vec::new();
    let mut seen_stdin = false;
    let mut i: usize = 0;
    while i < dash.len()
        invariant
            i <= dash@.len(),
            steps@ == path_steps(dash@.take(i as int), false),
            seen_stdin == dash@.take(i as int).contains(true),
        decreases dash@.len() - i,
    {
        let ghost pre = dash@.take(i as int);
        let ghost next = dash@.take(i + 1);
        assert(next.drop_last() =~= pre);
        assert(next.last() == dash@[i as int]);
        proof {
            assert(next.contains(true) <==> (pre.contains(true) || dash@[i as int])) by {
                if next.contains(true) {
                    let j = choose|j: int| 0 <= j < next.len() && next[j] == true;
                    if j < pre.len() {
                        assert(pre[j] == true);
                    }
                }
                if pre.contains(true) {
                    let j = choose|j: int| 0 <= j < pre.len() && pre[j] == true;
                    assert(next[j] == true);
                }
                if dash@[i as int] {
                    assert(next[i as int] == true);
                }
            }
        }
        if dash[i] {
            if !seen_stdin {
                steps.push(PathStep::Stdin);
                seen_stdin = true;
            }
        } else {
            steps.push(PathStep::Inspect(i));
        }
        i = i + 1;
    }
    assert(dash@.take(dash@.len() as int) =~= dash@);
    CollectPlan::Paths(steps)
}

/// Stdin is read at most once, however many `-` are given.
pub proof fn lemma_stdin_read_once(dash: Seq<bool>)
    ensures
        path_steps(dash, false).filter(|s: PathStep| s == PathStep::Stdin).len() <= 1,
        dash.contains(true) ==> path_steps(dash, false).contains(PathStep::Stdin),
    decreases dash.len(),
{
    reveal(Seq::filter);
    let steps = path_steps(dash, false);
    if dash.len() > 0 {
        let pre = dash.drop_last();
        lemma_stdin_read_once(pre);
        lemma_stdin_absent(pre);
        let p = path_steps(pre, false);
        if dash.last() {
            if !pre.contains(true) {
                assert(steps.drop_last() =~= p);
                assert(p.filter(|s: PathStep| s == PathStep::Stdin).len() == 0);
                assert(steps[steps.len() - 1] == PathStep::Stdin);
            }
        } else {
            assert(steps.drop_last() =~= p);
            if dash.contains(true) {
                let j = choose|j: int| 0 <= j < dash.len() && dash[j];
                assert(pre[j]);
                let k = choose|k: int| 0 <= k < p.len() && p[k] == PathStep::Stdin;
                assert(steps[k] == PathStep::Stdin);
            }
        }
        if dash.last() && pre.contains(true) {
            let k = choose|k: int| 0 <= k < p.len() && p[k] == PathStep::Stdin;
            assert(steps[k] == PathStep::Stdin);
        }
        if dash.last() && !pre.contains(true) {
            assert(steps[steps.len() - 1] == PathStep::Stdin);
        }
    }
}

proof fn lemma_stdin_absent(dash: Seq<bool>)
    ensures
        !dash.contains(true) ==> path_steps(dash, false).filter(|s: PathStep| s == PathStep::Stdin).len()
            == 0,
    decreases dash.len(),
{
    reveal(Seq::filter);
    if dash.len() > 0 && !dash.contains(true) {
        let pre = dash.drop_last();
        assert(!dash.last()) by {
            if dash.last() {
                assert(dash[dash.len() - 1]);
            }
        }
        assert(!pre.contains(true)) by {
            if pre.contains(true) {
                let j = choose|j: int| 0 <= j < pre.len() && pre[j];
                assert(dash[j]);
            }
        }
        lemma_stdin_absent(pre);
        let steps = path_steps(dash, false);
        assert(steps.drop_last() =~= path_steps(pre, false));
    }
}

/// Why collecting inputs failed.
#[derive(Debug, Clone, PartialEq, Eq, Structural)]
pub enum CollectError {
    /// Every named path was filtered out.
    NothingToCount,
}

impl CollectError {
    /// The message shown to the user.
    pub fn message(&self) -> (res: String)
        ensures
            res@ == "no files to count (try --hidden, --no-ignore, or a wider --glob)"@,
    {
        String::from_str("no files to count (try --hidden, --no-ignore, or a wider --glob)")
    }
}

/// The collected items, unless nothing was left to count.
pub fn finish_collect(items: Vec<Item>) -> (res: Result<Vec<Item>, CollectError>)
    ensures
        items@.len() == 0 ==> res == Err::<Vec<Item>, CollectError>(CollectError::NothingToCount),
        items@.len() > 0 ==> (res matches Ok(v) && v@ == items@),
{
    if items.len() == 0 {
        Err(CollectError::NothingToCount)
    } else {
        Ok(items)
    }
}

/// The `--ext` filters in normal form.
pub fn normalise_exts(exts: &[String]) -> (res: Vec<String>)
    ensures
        res@.len() == exts@.len(),
        forall|i: int| 0 <= i < exts@.len() ==> (#[trigger] res@[i])@ == normalise_ext_spec(exts@[i]@),
{
    let mut out: Vec<String> = Vec::new();
    let mut i: usize = 0;
    while i < exts.len()
        invariant
            i <= exts@.len(),
            out@.len() == i,
            forall|j: int| 0 <= j < i ==> (#[trigger] out@[j])@ == normalise_ext_spec(exts@[j]@),
        decreases exts@.len() - i,
    {
        out.push(normalise_ext(exts[i].as_str()));
        i = i + 1;
    }
    out
}

/// Whether a walked file passes the `--ext` filter: with no filter every file
/// does, otherwise its extension (lower-cased) must be listed.
pub fn passes_ext_filter(path: &str, exts: &[String]) -> (res: bool)
    ensures
        res == (exts@.len() == 0 || has_ext_spec(path@, exts@.map_values(|s: String| s@))),
{
    exts.len() == 0 || has_ext(path, exts)
}

} // verus!
