//! Counting text, and folding the per-input results into a report.

use vstd::prelude::*;
use std::path::PathBuf;
use crate::encoding::{EncodeError, Encoder, tokens_of};
use crate::paths::{after_last_slash, last_index, display_path, display_path_spec, find_last, lemma_last_index};
use crate::text::{ascii_lower_seq, chars_of, lower_char, ascii_lower, push_char};

verus! {

#[verifier::external_type_specification]
#[verifier::external_body]
pub struct ExPathBuf(std::path::PathBuf);

/// Bytes inspected when deciding whether a file is binary.
pub const SNIFF_LEN: usize = 8192;

/// The counts for one input (or, grouped, for one extension).
#[derive(Debug, Clone)]
pub struct FileStat {
    pub label: String,
    pub tokens: usize,
    pub bytes: u64,
    pub lines: usize,
}

impl FileStat {
    /// A copy with the same fields.
    pub fn duplicate(&self) -> (res: FileStat)
        ensures
            res == *self,
    {
        FileStat {
            label: self.label.clone(),
            tokens: self.tokens,
            bytes: self.bytes,
            lines: self.lines,
        }
    }
}

/// What happened to one input.
#[derive(Debug)]
pub enum Outcome {
    Counted(FileStat),
    SkippedBinary(PathBuf),
    Failed(PathBuf, String),
}

/// Everything the output layer needs.
#[derive(Debug)]
pub struct Report {
    pub stats: Vec<FileStat>,
    pub skipped_binary: Vec<PathBuf>,
    pub failed: Vec<(PathBuf, String)>,
}

/// One of the three counted quantities of a stat.
pub enum Measure {
    Tokens,
    Bytes,
    Lines,
}

pub open spec fn measure_of(s: FileStat, m: Measure) -> nat {
    match m {
        Measure::Tokens => s.tokens as nat,
        Measure::Bytes => s.bytes as nat,
        Measure::Lines => s.lines as nat,
    }
}

/// The sum of one quantity over a list of stats.
pub open spec fn total(s: Seq<FileStat>, m: Measure) -> nat
    decreases s.len(),
{
    if s.len() == 0 {
        0
    } else {
        total(s.drop_last(), m) + measure_of(s.last(), m)
    }
}

pub open spec fn token_total(s: Seq<FileStat>) -> nat {
    total(s, Measure::Tokens)
}

pub open spec fn byte_total(s: Seq<FileStat>) -> nat {
    total(s, Measure::Bytes)
}

pub open spec fn line_total(s: Seq<FileStat>) -> nat {
    total(s, Measure::Lines)
}

/// The sums of a list of stats fit their integer types.
pub open spec fn sums_fit(s: Seq<FileStat>) -> bool {
    &&& token_total(s) <= usize::MAX
    &&& byte_total(s) <= u64::MAX
    &&& line_total(s) <= usize::MAX
}

/// A prefix of some stats sums to no more than all of them.
pub proof fn lemma_total_prefix(s: Seq<FileStat>, i: int, m: Measure)
    requires
        0 <= i <= s.len(),
    ensures
        total(s.take(i), m) <= total(s, m),
    decreases s.len(),
{
    if i < s.len() {
        assert(s.drop_last().take(i) =~= s.take(i));
        lemma_total_prefix(s.drop_last(), i, m);
    } else {
        assert(s.take(i) =~= s);
    }
}

/// The sum over two runs of stats joined is the sum of their sums.
pub proof fn lemma_total_concat(a: Seq<FileStat>, b: Seq<FileStat>, m: Measure)
    ensures
        total(a + b, m) == total(a, m) + total(b, m),
    decreases b.len(),
{
    if b.len() == 0 {
        assert(a + b =~= a);
    } else {
        assert((a + b).drop_last() =~= a + b.drop_last());
        lemma_total_concat(a, b.drop_last(), m);
    }
}

/// The sum over a single stat is that stat's count.
pub proof fn lemma_total_single(x: FileStat, m: Measure)
    ensures
        total(seq![x], m) == measure_of(x, m),
{
    assert(seq![x].drop_last() =~= Seq::<FileStat>::empty());
    assert(total(Seq::<FileStat>::empty(), m) == 0);
}

/// Inserting a stat anywhere adds exactly its count to the sum.
pub proof fn lemma_total_insert(s: Seq<FileStat>, q: int, x: FileStat, m: Measure)
    requires
        0 <= q <= s.len(),
    ensures
        total(s.insert(q, x), m) == total(s, m) + measure_of(x, m),
{
    assert(s.insert(q, x) =~= s.take(q) + (seq![x] + s.skip(q)));
    assert(s =~= s.take(q) + s.skip(q));
    lemma_total_concat(s.take(q), seq![x] + s.skip(q), m);
    lemma_total_concat(seq![x], s.skip(q), m);
    lemma_total_concat(s.take(q), s.skip(q), m);
    lemma_total_single(x, m);
}

/// Reversing the stats leaves their sum unchanged.
pub proof fn lemma_total_reverse(s: Seq<FileStat>, m: Measure)
    ensures
        total(s.reverse(), m) == total(s, m),
    decreases s.len(),
{
    if s.len() > 0 {
        lemma_total_reverse(s.drop_last(), m);
        assert(s.reverse() =~= seq![s.last()] + s.drop_last().reverse());
        lemma_total_concat(seq![s.last()], s.drop_last().reverse(), m);
        lemma_total_single(s.last(), m);
        lemma_total_concat(s.drop_last(), seq![s.last()], m);
        assert(s.drop_last() + seq![s.last()] =~= s);
    }
}

/// Cutting the stats in two splits their sum between the parts.
pub proof fn lemma_total_split(s: Seq<FileStat>, k: int, m: Measure)
    requires
        0 <= k <= s.len(),
    ensures
        total(s, m) == total(s.take(k), m) + total(s.skip(k), m),
{
    assert(s =~= s.take(k) + s.skip(k));
    lemma_total_concat(s.take(k), s.skip(k), m);
}

/// A prefix of some stats sums to no more tokens, bytes or lines than all of them.
pub proof fn lemma_totals_prefix(s: Seq<FileStat>, i: int)
    requires
        0 <= i <= s.len(),
    ensures
        token_total(s.take(i)) <= token_total(s),
        byte_total(s.take(i)) <= byte_total(s),
        line_total(s.take(i)) <= line_total(s),
{
    lemma_total_prefix(s, i, Measure::Tokens);
    lemma_total_prefix(s, i, Measure::Bytes);
    lemma_total_prefix(s, i, Measure::Lines);
}

/// Whether the token, byte and line sums of `stats` fit their types.
pub fn stats_fit(stats: &[FileStat]) -> (res: bool)
    ensures
        res == sums_fit(stats@),
{
    let mut t: usize = 0;
    let mut b: u64 = 0;
    let mut l: usize = 0;
    let mut i: usize = 0;
    while i < stats.len()
        invariant
            i <= stats@.len(),
            t == token_total(stats@.take(i as int)),
            b == byte_total(stats@.take(i as int)),
            l == line_total(stats@.take(i as int)),
        decreases stats@.len() - i,
    {
        let s = &stats[i];
        assert(stats@.take(i + 1).drop_last() =~= stats@.take(i as int));
        let ghost ok = sums_fit(stats@);
        if t > usize::MAX - s.tokens || b > u64::MAX - s.bytes || l > usize::MAX - s.lines {
            proof {
                lemma_totals_prefix(stats@, i + 1);
            }
            return false;
        }
        t = t + s.tokens;
        b = b + s.bytes;
        l = l + s.lines;
        i = i + 1;
    }
    assert(stats@.take(stats@.len() as int) =~= stats@);
    true
}

impl Report {
    /// Sum of the token counts of all counted inputs.
    pub fn total_tokens(&self) -> (res: usize)
        requires
            token_total(self.stats@) <= usize::MAX,
        ensures
            res == token_total(self.stats@),
    {
        let mut t: usize = 0;
        let mut i: usize = 0;
        while i < self.stats.len()
            invariant
                i <= self.stats@.len(),
                t == token_total(self.stats@.take(i as int)),
                token_total(self.stats@) <= usize::MAX,
            decreases self.stats@.len() - i,
        {
            assert(self.stats@.take(i + 1).drop_last() =~= self.stats@.take(i as int));
            proof {
                lemma_totals_prefix(self.stats@, i + 1);
            }
            t = t + self.stats[i].tokens;
            i = i + 1;
        }
        assert(self.stats@.take(self.stats@.len() as int) =~= self.stats@);
        t
    }

    /// Sum of the byte sizes of all counted inputs.
    pub fn total_bytes(&self) -> (res: u64)
        requires
            byte_total(self.stats@) <= u64::MAX,
        ensures
            res == byte_total(self.stats@),
    {
        let mut t: u64 = 0;
        let mut i: usize = 0;
        while i < self.stats.len()
            invariant
                i <= self.stats@.len(),
                t == byte_total(self.stats@.take(i as int)),
                byte_total(self.stats@) <= u64::MAX,
            decreases self.stats@.len() - i,
        {
            assert(self.stats@.take(i + 1).drop_last() =~= self.stats@.take(i as int));
            proof {
                lemma_totals_prefix(self.stats@, i + 1);
            }
            t = t + self.stats[i].bytes;
            i = i + 1;
        }
        assert(self.stats@.take(self.stats@.len() as int) =~= self.stats@);
        t
    }
}

pub open spec fn counted_of(o: Outcome) -> Option<FileStat> {
    match o {
        Outcome::Counted(s) => Some(s),
        _ => None,
    }
}

pub open spec fn skipped_of(o: Outcome) -> Option<PathBuf> {
    match o {
        Outcome::SkippedBinary(p) => Some(p),
        _ => None,
    }
}

pub open spec fn failed_of(o: Outcome) -> Option<(PathBuf, String)> {
    match o {
        Outcome::Failed(p, e) => Some((p, e)),
        _ => None,
    }
}

/// Sort the outcomes into a report, keeping each kind in input order.
pub fn report_from_outcomes(outcomes: Vec<Outcome>) -> (res: Report)
    ensures
        res.stats@ == outcomes@.filter_map(|o: Outcome| counted_of(o)),
        res.skipped_binary@ == outcomes@.filter_map(|o: Outcome| skipped_of(o)),
        res.failed@ == outcomes@.filter_map(|o: Outcome| failed_of(o)),
{
    let mut report = Report { stats: Vec::new(), skipped_binary: Vec::new(), failed: Vec::new() };
    let ghost all = outcomes@;
    let mut i: usize = 0;
    for outcome in it: outcomes
        invariant
            it.seq() == all,
            report.stats@ == all.take(it.index() as int).filter_map(|o: Outcome| counted_of(o)),
            report.skipped_binary@ == all.take(it.index() as int).filter_map(
                |o: Outcome| skipped_of(o),
            ),
            report.failed@ == all.take(it.index() as int).filter_map(|o: Outcome| failed_of(o)),
    {
        let ghost k = it.index() as int;
        proof {
            all.lemma_filter_map_take_succ(|o: Outcome| counted_of(o), k);
            all.lemma_filter_map_take_succ(|o: Outcome| skipped_of(o), k);
            all.lemma_filter_map_take_succ(|o: Outcome| failed_of(o), k);
        }
        match outcome {
            Outcome::Counted(stat) => report.stats.push(stat),
            Outcome::SkippedBinary(path) => report.skipped_binary.push(path),
            Outcome::Failed(path, err) => report.failed.push((path, err)),
        }
    }
    assert(all.take(all.len() as int) =~= all);
    report
}

/// A NUL byte among the first `SNIFF_LEN` bytes marks binary content.
pub open spec fn is_binary_spec(bytes: Seq<u8>) -> bool {
    exists|i: int| 0 <= i < bytes.len() && i < SNIFF_LEN && bytes[i] == 0
}

/// A NUL byte near the start is the same heuristic git and ripgrep use.
pub fn is_binary(bytes: &[u8]) -> (res: bool)
    ensures
        res == is_binary_spec(bytes@),
{
    let mut i: usize = 0;
    while i < bytes.len() && i < SNIFF_LEN
        invariant
            i <= bytes@.len(),
            i <= SNIFF_LEN,
            forall|j: int| 0 <= j < i ==> bytes@[j] != 0,
        decreases bytes@.len() - i,
    {
        if bytes[i] == 0 {
            return true;
        }
        i = i + 1;
    }
    false
}

/// Number of lines as `str::lines` yields them: one per newline, plus a final
/// line that has no newline after it.
pub open spec fn line_count_spec(text: Seq<char>) -> nat {
    text.filter(|c: char| c == '\n').len() + (if text.len() > 0 && text.last() != '\n' {
        1nat
    } else {
        0nat
    })
}

/// Number of lines in `text`, as `str::lines().count()` gives it.
pub fn line_count(text: &str) -> (res: usize)
    ensures
        res == line_count_spec(text@),
{
    let cs = chars_of(text);
    let mut n: usize = 0;
    let mut i: usize = 0;
    while i < cs.len()
        invariant
            i <= cs@.len(),
            cs@ == text@,
            n == cs@.take(i as int).filter(|c: char| c == '\n').len(),
            n <= i,
        decreases cs@.len() - i,
    {
        proof {
            cs@.take(i as int).lemma_filter_push(cs@[i as int], |c: char| c == '\n');
            assert(cs@.take(i + 1) =~= cs@.take(i as int).push(cs@[i as int]));
        }
        if cs[i] == '\n' {
            n = n + 1;
        }
        i = i + 1;
    }
    assert(cs@.take(cs@.len() as int) =~= cs@);
    if cs.len() > 0 && cs[cs.len() - 1] != '\n' {
        proof {
            cs@.lemma_filter_len(|c: char| c == '\n');
            assert(cs@.filter(|c: char| c == '\n').len() < cs@.len()) by {
                assert(!(cs@.last() == '\n'));
                cs@.drop_last().lemma_filter_len(|c: char| c == '\n');
                cs@.drop_last().lemma_filter_push(cs@.last(), |c: char| c == '\n');
                assert(cs@.drop_last().push(cs@.last()) =~= cs@);
            }
        }
        n = n + 1;
    }
    n
}

/// The counts for one text whose tokens are `tokens`: label, number of
/// tokens, UTF-8 length (as `str::len` gives it) and lines.
pub open spec fn stat_spec(label: Seq<char>, text: Seq<char>, tokens: Seq<u32>) -> (
    Seq<char>,
    nat,
    nat,
    nat,
) {
    (
        label,
        tokens.len(),
        (vstd::utf8::encode_utf8(text).len() as usize) as nat,
        line_count_spec(text),
    )
}

pub open spec fn stat_view(s: FileStat) -> (Seq<char>, nat, nat, nat) {
    (s.label@, s.tokens as nat, s.bytes as nat, s.lines as nat)
}

/// Counts one text: its tokens under `enc`, its UTF-8 size and its lines; or
/// the error when tiktoken cannot encode it.
pub fn stat_from_text(label: String, text: &str, enc: &Encoder) -> (res: Result<FileStat, EncodeError>)
    ensures
        match tokens_of(enc@, text@) {
            Some(t) => res matches Ok(s) && stat_view(s) == stat_spec(label@, text@, t),
            None => res is Err,
        },
{
    let tokens = match enc.count(text) {
        Ok(n) => n,
        Err(e) => return Err(e),
    };
    Ok(FileStat { label, tokens, bytes: text.len() as u64, lines: line_count(text) })
}

/// The text `String::from_utf8_lossy` makes of some bytes (invalid sequences
/// become U+FFFD).
pub uninterp spec fn lossy_utf8(bytes: Seq<u8>) -> Seq<char>;

/// Calls `String::from_utf8_lossy`. Trusted: the result is `lossy_utf8` of the
/// bytes, which for valid UTF-8 is simply the decoded text.
#[verifier::external_body]
pub(crate) fn utf8_lossy(bytes: &[u8]) -> (res: String)
    ensures
        res@ == lossy_utf8(bytes@),
        vstd::utf8::valid_utf8(bytes@) ==> res@ == vstd::utf8::decode_utf8(bytes@),
{
    String::from_utf8_lossy(bytes).into_owned()
}

/// The text of bytes read from a file or stdin, as it is counted and shown:
/// invalid UTF-8 sequences become U+FFFD.
pub fn text_of_bytes(bytes: &[u8]) -> (res: String)
    ensures
        res@ == lossy_utf8(bytes@),
{
    utf8_lossy(bytes)
}

/// What happens to a file, given the outcome of reading it: a read error is
/// kept, content with a NUL byte near the start is skipped as binary, and
/// anything else is counted as (lossily decoded) text under its display path;
/// text tiktoken cannot encode fails with tiktoken's message.
pub fn file_outcome(path: PathBuf, path_text: &str, read: Result<Vec<u8>, String>, enc: &Encoder) -> (res: Outcome)
    ensures
        match read {
            Err(e) => res == Outcome::Failed(path, e),
            Ok(bytes) => if is_binary_spec(bytes@) {
                res == Outcome::SkippedBinary(path)
            } else {
                match tokens_of(enc@, lossy_utf8(bytes@)) {
                    Some(t) => res matches Outcome::Counted(s) && stat_view(s) == stat_spec(
                        display_path_spec(path_text@),
                        lossy_utf8(bytes@),
                        t,
                    ),
                    None => res matches Outcome::Failed(p, _) && p == path,
                }
            },
        },
{
    match read {
        Err(e) => Outcome::Failed(path, e),
        Ok(bytes) => {
            if is_binary(bytes.as_slice()) {
                Outcome::SkippedBinary(path)
            } else {
                let text = text_of_bytes(bytes.as_slice());
                match stat_from_text(display_path(path_text), text.as_str(), enc) {
                    Ok(stat) => Outcome::Counted(stat),
                    Err(e) => Outcome::Failed(path, e.message),
                }
            }
        },
    }
}

/// The grouping key of a label: `.` and the lower-cased extension of its last
/// component, or the component itself when it has no extension (a leading dot,
/// as in `.gitignore`, does not start an extension).
pub open spec fn extension_key_spec(label: Seq<char>) -> Seq<char> {
    let name = after_last_slash(label);
    let i = last_index(name, '.');
    if i > 0 {
        seq!['.'] + ascii_lower_seq(name.skip(i + 1))
    } else {
        name
    }
}

/// The key a label is grouped under by `--by-ext`: `.` and its lower-cased
/// extension, or the file name itself when it has no extension.
pub fn extension_key(label: &str) -> (res: String)
    ensures
        res@ == extension_key_spec(label@),
{
    let cs = chars_of(label);
    let start: usize = match find_last(&cs, '/', cs.len()) {
        Some(k) => k + 1,
        None => 0,
    };
    proof {
        assert(cs@.take(cs@.len() as int) =~= cs@);
        lemma_last_index(cs@, '/');
    }
    let ghost name = after_last_slash(label@);
    let mut nm: Vec<char> = Vec::new();
    let mut j = start;
    while j < cs.len()
        invariant
            start <= j <= cs@.len(),
            nm@ == cs@.subrange(start as int, j as int),
        decreases cs@.len() - j,
    {
        assert(cs@.subrange(start as int, j + 1) =~= cs@.subrange(start as int, j as int).push(
            cs@[j as int],
        ));
        nm.push(cs[j]);
        j = j + 1;
    }
    assert(nm@ =~= name);
    assert(nm@.take(nm@.len() as int) =~= nm@);
    let mut out = String::new();
    match find_last(&nm, '.', nm.len()) {
        Some(i) if i > 0 => {
            push_char(&mut out, '.');
            let mut k = i + 1;
            while k < nm.len()
                invariant
                    i + 1 <= k <= nm@.len(),
                    out@ == seq!['.'] + ascii_lower_seq(nm@.subrange(i + 1, k as int)),
                decreases nm@.len() - k,
            {
                assert(ascii_lower_seq(nm@.subrange(i + 1, k + 1)) =~= ascii_lower_seq(
                    nm@.subrange(i + 1, k as int),
                ).push(ascii_lower(nm@[k as int])));
                push_char(&mut out, lower_char(nm[k]));
                k = k + 1;
            }
            assert(nm@.subrange(i + 1, nm@.len() as int) =~= nm@.skip(i + 1));
        },
        _ => {
            crate::text::push_chars(&mut out, nm.as_slice());
            assert(out@ =~= nm@);
        },
    }
    out
}

pub open spec fn key_of(s: FileStat) -> Seq<char> {
    extension_key_spec(s.label@)
}

/// The labels of some stats.
pub open spec fn labels_of(g: Seq<FileStat>) -> Seq<Seq<char>> {
    g.map_values(|x: FileStat| x.label@)
}

/// The distinct extension keys of `s`, in order of first appearance.
pub open spec fn group_keys(s: Seq<FileStat>) -> Seq<Seq<char>>
    decreases s.len(),
{
    if s.len() == 0 {
        Seq::empty()
    } else {
        let ks = group_keys(s.drop_last());
        let k = key_of(s.last());
        if ks.contains(k) {
            ks
        } else {
            ks.push(k)
        }
    }
}

/// The sum of one quantity over the stats of `s` whose key is `k`.
pub open spec fn key_sum(s: Seq<FileStat>, k: Seq<char>, m: Measure) -> nat
    decreases s.len(),
{
    if s.len() == 0 {
        0
    } else {
        key_sum(s.drop_last(), k, m) + (if key_of(s.last()) == k {
            measure_of(s.last(), m)
        } else {
            0
        })
    }
}

/// The sum over the keys `ks` of each key's sum.
pub open spec fn keyed_total(s: Seq<FileStat>, ks: Seq<Seq<char>>, m: Measure) -> nat
    decreases ks.len(),
{
    if ks.len() == 0 {
        0
    } else {
        keyed_total(s, ks.drop_last(), m) + key_sum(s, ks.last(), m)
    }
}

/// The grouping keys are distinct, and they are exactly the keys of the stats.
pub proof fn lemma_group_keys(s: Seq<FileStat>)
    ensures
        group_keys(s).no_duplicates(),
        forall|k: Seq<char>|
            group_keys(s).contains(k) <==> exists|i: int| 0 <= i < s.len() && key_of(s[i]) == k,
    decreases s.len(),
{
    if s.len() > 0 {
        let p = s.drop_last();
        lemma_group_keys(p);
        let k0 = key_of(s.last());
        if !group_keys(p).contains(k0) {
            assert(group_keys(s) == group_keys(p).push(k0));
            assert(group_keys(s)[group_keys(p).len() as int] == k0);
            assert(group_keys(s).no_duplicates()) by {
                assert forall|a: int, b: int|
                    0 <= a < group_keys(s).len() && 0 <= b < group_keys(s).len() && a != b implies
                    group_keys(s)[a] != group_keys(s)[b] by {
                    if a < group_keys(p).len() && b < group_keys(p).len() {
                    } else if a < group_keys(p).len() {
                        assert(group_keys(p)[a] == group_keys(s)[a]);
                    } else {
                        assert(group_keys(p)[b] == group_keys(s)[b]);
                    }
                }
            }
        }
        assert forall|k: Seq<char>|
            group_keys(s).contains(k) <==> exists|i: int| 0 <= i < s.len() && key_of(s[i]) == k by {
            if group_keys(s).contains(k) {
                if group_keys(p).contains(k) {
                    let i = choose|i: int| 0 <= i < p.len() && key_of(p[i]) == k;
                    assert(s[i] == p[i]);
                } else {
                    let j = choose|j: int| 0 <= j < group_keys(s).len() && group_keys(s)[j] == k;
                    if j < group_keys(p).len() {
                        assert(group_keys(p)[j] == k);
                    }
                    assert(k == k0);
                    assert(key_of(s[s.len() - 1]) == k);
                }
            }
            if exists|i: int| 0 <= i < s.len() && key_of(s[i]) == k {
                let i = choose|i: int| 0 <= i < s.len() && key_of(s[i]) == k;
                if i < s.len() - 1 {
                    assert(p[i] == s[i]);
                    assert(group_keys(p).contains(k));
                    let j = choose|j: int| 0 <= j < group_keys(p).len() && group_keys(p)[j] == k;
                    if !group_keys(p).contains(k0) {
                        assert(group_keys(s)[j] == k);
                    }
                } else if group_keys(p).contains(k0) {
                } else {
                    assert(group_keys(s)[group_keys(p).len() as int] == k);
                }
            }
        }
    }
}

proof fn lemma_key_sum_absent(s: Seq<FileStat>, k: Seq<char>, m: Measure)
    requires
        forall|i: int| 0 <= i < s.len() ==> key_of(s[i]) != k,
    ensures
        key_sum(s, k, m) == 0,
    decreases s.len(),
{
    if s.len() > 0 {
        lemma_key_sum_absent(s.drop_last(), k, m);
    }
}

proof fn lemma_key_sum_le_total(s: Seq<FileStat>, k: Seq<char>, m: Measure)
    ensures
        key_sum(s, k, m) <= total(s, m),
    decreases s.len(),
{
    if s.len() > 0 {
        lemma_key_sum_le_total(s.drop_last(), k, m);
    }
}

proof fn lemma_keyed_total_push(s: Seq<FileStat>, x: FileStat, ks: Seq<Seq<char>>, m: Measure)
    requires
        ks.no_duplicates(),
    ensures
        keyed_total(s.push(x), ks, m) == keyed_total(s, ks, m) + (if ks.contains(key_of(x)) {
            measure_of(x, m)
        } else {
            0
        }),
    decreases ks.len(),
{
    assert(s.push(x).drop_last() =~= s);
    if ks.len() > 0 {
        let p = ks.drop_last();
        assert(p.no_duplicates());
        lemma_keyed_total_push(s, x, p, m);
        if ks.last() == key_of(x) {
            assert(!p.contains(key_of(x))) by {
                if p.contains(key_of(x)) {
                    let j = choose|j: int| 0 <= j < p.len() && p[j] == key_of(x);
                    assert(ks[j] == ks[ks.len() - 1]);
                }
            }
        } else {
            assert(ks.contains(key_of(x)) == p.contains(key_of(x))) by {
                if ks.contains(key_of(x)) {
                    let j = choose|j: int| 0 <= j < ks.len() && ks[j] == key_of(x);
                    assert(p[j] == ks[j]);
                }
            }
        }
    }
}

/// Grouping by extension keeps every quantity's grand total.
pub proof fn lemma_grouping_keeps_totals(s: Seq<FileStat>, m: Measure)
    ensures
        keyed_total(s, group_keys(s), m) == total(s, m),
    decreases s.len(),
{
    if s.len() > 0 {
        let p = s.drop_last();
        let x = s.last();
        assert(p.push(x) =~= s);
        lemma_grouping_keeps_totals(p, m);
        lemma_group_keys(p);
        lemma_keyed_total_push(p, x, group_keys(p), m);
        if !group_keys(p).contains(key_of(x)) {
            lemma_key_sum_absent(p, key_of(x), m);
            assert(group_keys(s) == group_keys(p).push(key_of(x)));
            assert(group_keys(s).drop_last() =~= group_keys(p));
            lemma_keyed_total_push(p, x, seq![key_of(x)], m);
        }
    }
}

pub open spec fn group_view(g: FileStat, s: Seq<FileStat>, k: Seq<char>) -> bool {
    &&& g.label@ == k
    &&& g.tokens == key_sum(s, k, Measure::Tokens)
    &&& g.bytes == key_sum(s, k, Measure::Bytes)
    &&& g.lines == key_sum(s, k, Measure::Lines)
}

proof fn lemma_total_of_groups(
    groups: Seq<FileStat>,
    s: Seq<FileStat>,
    ks: Seq<Seq<char>>,
    m: Measure,
)
    requires
        groups.len() == ks.len(),
        forall|j: int| 0 <= j < ks.len() ==> group_view(#[trigger] groups[j], s, ks[j]),
    ensures
        total(groups, m) == keyed_total(s, ks, m),
    decreases ks.len(),
{
    if ks.len() > 0 {
        let n = ks.len() - 1;
        assert(group_view(groups[n], s, ks[n]));
        lemma_total_of_groups(groups.drop_last(), s, ks.drop_last(), m);
    }
}

/// The index of the group labelled `key`, if there is one.
fn find_group(groups: &Vec<FileStat>, key: &String) -> (res: Option<usize>)
    ensures
        match res {
            Some(g) => g < groups@.len() && groups@[g as int].label@ == key@,
            None => forall|t: int| 0 <= t < groups@.len() ==> (#[trigger] groups@[t]).label@ != key@,
        },
{
    let mut j: usize = 0;
    while j < groups.len()
        invariant
            j <= groups@.len(),
            forall|t: int| 0 <= t < j ==> (#[trigger] groups@[t]).label@ != key@,
        decreases groups@.len() - j,
    {
        if groups[j].label == *key {
            return Some(j);
        }
        j = j + 1;
    }
    None
}

/// `l` is where the last `c` in `s` is (`-1`: nowhere).
proof fn lemma_last_index_at(s: Seq<char>, c: char, l: int)
    requires
        -1 <= l < s.len(),
        l >= 0 ==> s[l] == c,
        forall|j: int| l < j < s.len() ==> s[j] != c,
    ensures
        last_index(s, c) == l,
{
    lemma_last_index(s, c);
    let m = last_index(s, c);
    if m > l {
        assert(s[m] == c);
    }
    if m < l {
        assert(s[l] == c);
    }
}

/// The path `dir + name`, where `dir` is empty or ends with `/` and `name`
/// has no `/`, has `name` as its last component.
proof fn lemma_component(dir: Seq<char>, name: Seq<char>)
    requires
        dir.len() == 0 || dir.last() == '/',
        forall|i: int| 0 <= i < name.len() ==> name[i] != '/',
    ensures
        after_last_slash(dir + name) == name,
{
    let s = dir + name;
    assert forall|j: int| dir.len() - 1 < j < s.len() implies s[j] != '/' by {
        assert(s[j] == name[j - dir.len()]);
    }
    if dir.len() > 0 {
        assert(s[dir.len() - 1] == '/');
    }
    lemma_last_index_at(s, '/', dir.len() - 1);
    assert(s.skip(dir.len() as int) =~= name);
}

/// `--by-ext` groups a file by what follows the last dot of its name, lower
/// cased and with a dot in front, as long as something precedes that dot,
/// even when that something is itself a dot file name (`.eslintrc.json` is a
/// `.json` file).
pub proof fn lemma_extension_key_of_extension(dir: Seq<char>, stem: Seq<char>, ext: Seq<char>)
    requires
        dir.len() == 0 || dir.last() == '/',
        stem.len() > 0,
        forall|i: int| 0 <= i < stem.len() ==> stem[i] != '/',
        forall|i: int| 0 <= i < ext.len() ==> ext[i] != '/' && ext[i] != '.',
    ensures
        ({
            let key = extension_key_spec(dir + stem + seq!['.'] + ext);
            &&& key.len() == ext.len() + 1
            &&& key[0] == '.'
            &&& forall|i: int|
                0 <= i < ext.len() ==> key[i + 1] == if 'A' <= ext[i] && ext[i] <= 'Z' {
                    ((ext[i] as u32) + 32) as char
                } else {
                    ext[i]
                }
        }),
{
    let name = stem + seq!['.'] + ext;
    assert forall|i: int| 0 <= i < name.len() implies name[i] != '/' by {
        if i < stem.len() {
            assert(name[i] == stem[i]);
        } else if i > stem.len() {
            assert(name[i] == ext[i - stem.len() - 1]);
        }
    }
    lemma_component(dir, name);
    assert(dir + stem + seq!['.'] + ext =~= dir + name);
    assert forall|j: int| stem.len() < j < name.len() implies name[j] != '.' by {
        assert(name[j] == ext[j - stem.len() - 1]);
    }
    lemma_last_index_at(name, '.', stem.len() as int);
    assert(name.skip(stem.len() + 1 as int) =~= ext);
}

/// A file whose name has no dot after its first character is grouped under
/// its name itself (`Makefile`, `.gitignore`).
pub proof fn lemma_extension_key_of_bare_name(dir: Seq<char>, name: Seq<char>)
    requires
        dir.len() == 0 || dir.last() == '/',
        forall|i: int| 0 <= i < name.len() ==> name[i] != '/',
        forall|i: int| 0 < i < name.len() ==> name[i] != '.',
    ensures
        extension_key_spec(dir + name) == name,
{
    lemma_component(dir, name);
    lemma_last_index(name, '.');
}

/// Fold per-file stats into per-extension stats, one per distinct key in
/// order of first appearance. Files with no extension are grouped under their
/// file name, so `Makefile` and `Dockerfile` stay readable.
pub fn by_extension(stats: &[FileStat]) -> (res: Vec<FileStat>)
    requires
        sums_fit(stats@),
    ensures
        res@.len() == group_keys(stats@).len(),
        forall|j: int|
            0 <= j < res@.len() ==> group_view(#[trigger] res@[j], stats@, group_keys(stats@)[j]),
        token_total(res@) == token_total(stats@),
        byte_total(res@) == byte_total(stats@),
        line_total(res@) == line_total(stats@),
        labels_of(res@) == group_keys(stats@),
        labels_of(res@).no_duplicates(),
        forall|k: Seq<char>|
            #[trigger] labels_of(res@).contains(k) <==> exists|i: int|
                0 <= i < stats@.len() && key_of(stats@[i]) == k,
{
    let mut groups: Vec<FileStat> = Vec::new();
    let mut i: usize = 0;
    while i < stats.len()
        invariant
            i <= stats@.len(),
            sums_fit(stats@),
            groups@.len() == group_keys(stats@.take(i as int)).len(),
            forall|j: int|
                0 <= j < groups@.len() ==> group_view(
                    #[trigger] groups@[j],
                    stats@.take(i as int),
                    group_keys(stats@.take(i as int))[j],
                ),
        decreases stats@.len() - i,
    {
        let ghost pre = stats@.take(i as int);
        let ghost next = stats@.take(i + 1);
        let ghost x = stats@[i as int];
        assert(next.drop_last() =~= pre);
        assert(next.last() == x);
        proof {
            lemma_group_keys(pre);
        }
        let stat = &stats[i];
        let key = extension_key(stat.label.as_str());
        let ghost ks = group_keys(pre);
        assert forall|t: int| 0 <= t < groups@.len() implies (#[trigger] groups@[t]).label@
            == ks[t] by {
            assert(group_view(groups@[t], pre, ks[t]));
        }
        let found = find_group(&groups, &key);
        proof {
            lemma_total_prefix(stats@, i + 1, Measure::Tokens);
            lemma_total_prefix(stats@, i + 1, Measure::Bytes);
            lemma_total_prefix(stats@, i + 1, Measure::Lines);
            lemma_key_sum_le_total(next, key@, Measure::Tokens);
            lemma_key_sum_le_total(next, key@, Measure::Bytes);
            lemma_key_sum_le_total(next, key@, Measure::Lines);
        }
        match found {
            Some(g) => {
                assert(ks[g as int] == key@);
                assert(key@ == key_of(x));
                assert(ks.contains(key@));
                let old_g = groups[g].duplicate();
                let updated = FileStat {
                    label: old_g.label,
                    tokens: old_g.tokens + stat.tokens,
                    bytes: old_g.bytes + stat.bytes,
                    lines: old_g.lines + stat.lines,
                };
                groups.set(g, updated);
                assert(group_keys(next) == ks);
                assert forall|t: int| 0 <= t < groups@.len() implies group_view(
                    #[trigger] groups@[t],
                    next,
                    group_keys(next)[t],
                ) by {
                    if t != g {
                        assert(ks[t] != key@) by {
                            assert(ks.no_duplicates());
                        }
                    }
                }
            },
            None => {
                assert(!ks.contains(key@)) by {
                    if ks.contains(key@) {
                        let t = choose|t: int| 0 <= t < ks.len() && ks[t] == key@;
                        assert(groups@[t].label@ == ks[t]);
                    }
                }
                assert(key@ == key_of(x));
                proof {
                    lemma_key_sum_absent(pre, key@, Measure::Tokens);
                    lemma_key_sum_absent(pre, key@, Measure::Bytes);
                    lemma_key_sum_absent(pre, key@, Measure::Lines);
                    lemma_group_keys(pre);
                }
                let fresh = FileStat {
                    label: key,
                    tokens: stat.tokens,
                    bytes: stat.bytes,
                    lines: stat.lines,
                };
                groups.push(fresh);
                assert(group_keys(next) == ks.push(key_of(x)));
                assert forall|t: int| 0 <= t < groups@.len() implies group_view(
                    #[trigger] groups@[t],
                    next,
                    group_keys(next)[t],
                ) by {
                    if t < ks.len() {
                        assert(ks[t] != key@);
                        assert(group_view(groups@[t], pre, ks[t]));
                    }
                }
            },
        }
        i = i + 1;
    }
    assert(stats@.take(stats@.len() as int) =~= stats@);
    proof {
        lemma_total_of_groups(groups@, stats@, group_keys(stats@), Measure::Tokens);
        lemma_total_of_groups(groups@, stats@, group_keys(stats@), Measure::Bytes);
        lemma_total_of_groups(groups@, stats@, group_keys(stats@), Measure::Lines);
        lemma_grouping_keeps_totals(stats@, Measure::Tokens);
        lemma_grouping_keeps_totals(stats@, Measure::Bytes);
        lemma_grouping_keeps_totals(stats@, Measure::Lines);
        lemma_group_keys(stats@);
        assert(labels_of(groups@) =~= group_keys(stats@));
    }
    groups
}

} // verus!
