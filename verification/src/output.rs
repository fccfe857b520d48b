//! The text of reports: delimited rows, the model list, and the numbers the
//! table layout needs.

use vstd::prelude::*;
use crate::cli::CountArgs;
use crate::count::{FileStat, Report, sums_fit, token_total};
use crate::rows::{is_prepared, prepare_rows};
use crate::encoding::{ModelInfo, model_info_view};
use crate::numfmt::{thousands, thousands_spec, lemma_thousands_len};
use crate::text::{decimal, push_char, push_decimal, push_str, chars_of};

verus! {

/// Each `"` written twice, everything else kept.
pub open spec fn quote_piece(c: char) -> Seq<char> {
    if c == '"' {
        seq!['"', '"']
    } else {
        seq![c]
    }
}

pub open spec fn double_quotes(f: Seq<char>) -> Seq<char> {
    f.flat_map(|c: char| quote_piece(c))
}

/// A field must be quoted when it holds the separator, a quote or a newline.
pub open spec fn needs_quotes(f: Seq<char>, sep: char) -> bool {
    f.contains(sep) || f.contains('"') || f.contains('\n')
}

pub open spec fn escape_spec(f: Seq<char>, sep: char) -> Seq<char> {
    if needs_quotes(f, sep) {
        seq!['"'] + double_quotes(f) + seq!['"']
    } else {
        f
    }
}

/// Quote a CSV field only when it would otherwise break the row.
pub fn escape(field: &str, sep: char) -> (res: String)
    ensures
        res@ == escape_spec(field@, sep),
{
    let cs = chars_of(field);
    let mut quote = false;
    let mut i: usize = 0;
    while i < cs.len()
        invariant
            i <= cs@.len(),
            cs@ == field@,
            quote == (cs@.take(i as int).contains(sep) || cs@.take(i as int).contains('"')
                || cs@.take(i as int).contains('\n')),
        decreases cs@.len() - i,
    {
        let c = cs[i];
        proof {
            let a = cs@.take(i as int);
            let b = cs@.take(i + 1);
            assert(b =~= a.push(c));
            assert forall|x: char| b.contains(x) <==> (a.contains(x) || x == c) by {
                if b.contains(x) {
                    let j = choose|j: int| 0 <= j < b.len() && b[j] == x;
                    if j < a.len() {
                        assert(a[j] == x);
                    }
                }
                if a.contains(x) {
                    let j = choose|j: int| 0 <= j < a.len() && a[j] == x;
                    assert(b[j] == x);
                }
                if x == c {
                    assert(b[i as int] == x);
                }
            }
        }
        if c == sep || c == '"' || c == '\n' {
            quote = true;
        }
        i = i + 1;
    }
    assert(cs@.take(cs@.len() as int) =~= cs@);
    if !quote {
        return String::from_str(field);
    }
    let mut out = String::new();
    push_char(&mut out, '"');
    let mut j: usize = 0;
    while j < cs.len()
        invariant
            j <= cs@.len(),
            cs@ == field@,
            out@ == seq!['"'] + cs@.take(j as int).flat_map(|c: char| quote_piece(c)),
        decreases cs@.len() - j,
    {
        proof {
            cs@.lemma_flat_map_take_append(|c: char| quote_piece(c), j as int);
        }
        if cs[j] == '"' {
            push_char(&mut out, '"');
            push_char(&mut out, '"');
        } else {
            push_char(&mut out, cs[j]);
        }
        assert(out@ =~= seq!['"'] + cs@.take(j + 1).flat_map(|c: char| quote_piece(c)));
        j = j + 1;
    }
    push_char(&mut out, '"');
    out
}

/// Reading a quoted field: a doubled quote stands for one quote.
pub open spec fn collapse_quotes(s: Seq<char>) -> Seq<char>
    decreases s.len(),
{
    if s.len() == 0 {
        s
    } else if s.len() >= 2 && s[0] == '"' && s[1] == '"' {
        seq!['"'] + collapse_quotes(s.skip(2))
    } else {
        seq![s[0]] + collapse_quotes(s.skip(1))
    }
}

/// Reading back an escaped field gives the original field: the quotes added
/// around it are dropped and the doubled quotes inside collapse.
pub proof fn lemma_escape_reads_back(f: Seq<char>, sep: char)
    ensures
        needs_quotes(f, sep) ==> collapse_quotes(
            escape_spec(f, sep).subrange(1, escape_spec(f, sep).len() - 1),
        ) == f,
        !needs_quotes(f, sep) ==> escape_spec(f, sep) == f,
{
    if needs_quotes(f, sep) {
        let e = escape_spec(f, sep);
        assert(e.subrange(1, e.len() - 1) =~= double_quotes(f));
        lemma_collapse_doubled(f);
    }
}

proof fn lemma_collapse_doubled(f: Seq<char>)
    ensures
        collapse_quotes(double_quotes(f)) == f,
    decreases f.len(),
{
    if f.len() > 0 {
        let rest = f.drop_first();
        lemma_collapse_doubled(rest);
        let mapped = f.map_values(|c: char| quote_piece(c));
        assert(mapped.drop_first() =~= rest.map_values(|c: char| quote_piece(c)));
        assert(double_quotes(f) =~= quote_piece(f[0]) + double_quotes(rest));
        let d = double_quotes(f);
        if f[0] == '"' {
            assert(d.skip(2) =~= double_quotes(rest));
        } else {
            assert(d.skip(1) =~= double_quotes(rest));
        }
        assert(f =~= seq![f[0]] + rest);
    }
}

/// The header of the delimited formats.
pub open spec fn delimited_header(sep: char, by_ext: bool) -> Seq<char> {
    (if by_ext {
        seq!['e', 'x', 't']
    } else {
        seq!['f', 'i', 'l', 'e']
    }) + seq![sep] + "tokens"@ + seq![sep] + "bytes"@ + seq![sep] + "lines"@
}

pub open spec fn delimited_row(r: FileStat, sep: char) -> Seq<char> {
    escape_spec(r.label@, sep) + seq![sep] + decimal(r.tokens as nat) + seq![sep] + decimal(
        r.bytes as nat,
    ) + seq![sep] + decimal(r.lines as nat)
}

pub open spec fn delimited_footer(total: nat, sep: char) -> Seq<char> {
    "TOTAL"@ + seq![sep] + decimal(total) + seq![sep, sep]
}

/// The lines of the CSV/TSV output: a header, one line per row, and a total.
pub open spec fn delimited_spec(rows: Seq<FileStat>, total: nat, sep: char, by_ext: bool) -> Seq<
    Seq<char>,
> {
    seq![delimited_header(sep, by_ext)] + rows.map_values(|r: FileStat| delimited_row(r, sep))
        + seq![delimited_footer(total, sep)]
}

pub open spec fn string_views(v: Seq<String>) -> Seq<Seq<char>> {
    v.map_values(|s: String| s@)
}

/// The CSV (`sep` is `,`) or TSV (`sep` is a tab) lines for some rows.
pub fn delimited_lines(rows: &[FileStat], total: usize, sep: char, by_ext: bool) -> (res: Vec<
    String,
>)
    ensures
        string_views(res@) == delimited_spec(rows@, total as nat, sep, by_ext),
{
    let mut lines: Vec<String> = Vec::new();
    let mut header = String::new();
    if by_ext {
        push_str(&mut header, "ext");
    } else {
        push_str(&mut header, "file");
    }
    proof {
        reveal_strlit("ext");
        reveal_strlit("file");
    }
    push_char(&mut header, sep);
    push_str(&mut header, "tokens");
    push_char(&mut header, sep);
    push_str(&mut header, "bytes");
    push_char(&mut header, sep);
    push_str(&mut header, "lines");
    assert(header@ =~= delimited_header(sep, by_ext));
    lines.push(header);
    let mut i: usize = 0;
    while i < rows.len()
        invariant
            i <= rows@.len(),
            string_views(lines@) == seq![delimited_header(sep, by_ext)] + rows@.take(
                i as int,
            ).map_values(|r: FileStat| delimited_row(r, sep)),
        decreases rows@.len() - i,
    {
        let r = &rows[i];
        let mut line = escape(r.label.as_str(), sep);
        push_char(&mut line, sep);
        push_decimal(&mut line, r.tokens as u64);
        push_char(&mut line, sep);
        push_decimal(&mut line, r.bytes);
        push_char(&mut line, sep);
        push_decimal(&mut line, r.lines as u64);
        assert(line@ =~= delimited_row(*r, sep));
        let ghost before = lines@;
        lines.push(line);
        assert(rows@.take(i + 1).map_values(|r: FileStat| delimited_row(r, sep)) =~= rows@.take(
            i as int,
        ).map_values(|r: FileStat| delimited_row(r, sep)).push(delimited_row(rows@[i as int], sep)));
        assert(string_views(lines@) =~= string_views(before).push(line@));
        i = i + 1;
    }
    let mut footer = String::new();
    push_str(&mut footer, "TOTAL");
    push_char(&mut footer, sep);
    push_decimal(&mut footer, total as u64);
    push_char(&mut footer, sep);
    push_char(&mut footer, sep);
    assert(footer@ =~= delimited_footer(total as nat, sep));
    let ghost before = lines@;
    lines.push(footer);
    assert(rows@.take(rows@.len() as int) =~= rows@);
    assert(string_views(lines@) =~= string_views(before).push(footer@));
    assert(string_views(lines@) =~= delimited_spec(rows@, total as nat, sep, by_ext));
    lines
}

/// Width of the token column of the table: the widest grouped token count
/// among the rows and the total (at least 1).
pub open spec fn token_column_width_spec(rows: Seq<FileStat>, total: nat) -> nat
    decreases rows.len(),
{
    if rows.len() == 0 {
        thousands_spec(total).len()
    } else {
        let w = token_column_width_spec(rows.drop_last(), total);
        let x = thousands_spec(rows.last().tokens as nat).len();
        if x > w {
            x
        } else {
            w
        }
    }
}

/// The token column is exactly as wide as the widest grouped number it shows:
/// every row's count and the total fit, and one of them fills it.
pub proof fn lemma_token_column_fits(rows: Seq<FileStat>, total: nat)
    ensures
        thousands_spec(total).len() <= token_column_width_spec(rows, total),
        forall|i: int|
            0 <= i < rows.len() ==> thousands_spec((#[trigger] rows[i]).tokens as nat).len()
                <= token_column_width_spec(rows, total),
        thousands_spec(total).len() == token_column_width_spec(rows, total) || exists|i: int|
            0 <= i < rows.len() && thousands_spec((#[trigger] rows[i]).tokens as nat).len()
                == token_column_width_spec(rows, total),
    decreases rows.len(),
{
    if rows.len() > 0 {
        let p = rows.drop_last();
        lemma_token_column_fits(p, total);
        assert forall|i: int| 0 <= i < rows.len() implies thousands_spec(
            (#[trigger] rows[i]).tokens as nat,
        ).len() <= token_column_width_spec(rows, total) by {
            if i < p.len() {
                assert(rows[i] == p[i]);
            }
        }
        let w = token_column_width_spec(p, total);
        if thousands_spec(rows.last().tokens as nat).len() > w {
            assert(thousands_spec(rows[rows.len() - 1].tokens as nat).len()
                == token_column_width_spec(rows, total));
        } else if thousands_spec(total).len() != w {
            let i = choose|i: int|
                0 <= i < p.len() && thousands_spec((#[trigger] p[i]).tokens as nat).len() == w;
            assert(rows[i] == p[i]);
        }
    }
}

/// The widest of some lengths: none is wider, and it is one of them (or
/// `default` when there are none).
pub proof fn lemma_max_or_is_the_largest(lens: Seq<nat>, default: nat)
    ensures
        forall|i: int| 0 <= i < lens.len() ==> #[trigger] lens[i] <= max_or(lens, default),
        lens.len() > 0 ==> exists|i: int| 0 <= i < lens.len() && #[trigger] lens[i] == max_or(lens, default),
        lens.len() == 0 ==> max_or(lens, default) == default,
    decreases lens.len(),
{
    if lens.len() > 1 {
        let p = lens.drop_last();
        lemma_max_or_is_the_largest(p, default);
        assert forall|i: int| 0 <= i < lens.len() implies #[trigger] lens[i] <= max_or(lens, default) by {
            if i < p.len() {
                assert(lens[i] == p[i]);
            }
        }
        if lens.last() <= max_or(p, default) {
            let i = choose|i: int| 0 <= i < p.len() && #[trigger] p[i] == max_or(p, default);
            assert(lens[i] == p[i]);
        } else {
            assert(lens[lens.len() - 1] == max_or(lens, default));
        }
    } else if lens.len() == 1 {
        assert(lens[0] == max_or(lens, default));
    }
}

/// The CSV (`sep` is `,`) or TSV lines of a report: the header, the rows as
/// `--by-ext`, `--top`, `--sort` and `--reverse` prepare them, and a total
/// line that carries the report's whole total, whatever `--top` left out.
pub fn report_delimited(report: &Report, args: &CountArgs, sep: char) -> (res: Vec<String>)
    requires
        sums_fit(report.stats@),
    ensures
        exists|rows: Seq<FileStat>, hidden_count: nat, hidden_tokens: nat|
            #![trigger is_prepared(report.stats@, *args, rows, hidden_count, hidden_tokens)]
            is_prepared(report.stats@, *args, rows, hidden_count, hidden_tokens) && string_views(
                res@,
            ) == delimited_spec(rows, token_total(report.stats@), sep, args.by_ext),
        res@.len() >= 2,
        res@[0]@ == delimited_header(sep, args.by_ext),
        res@.last()@ == delimited_footer(token_total(report.stats@), sep),
{
    let total = report.total_tokens();
    let (rows, hidden_count, hidden_tokens) = prepare_rows(report, args);
    let lines = delimited_lines(rows.as_slice(), total, sep, args.by_ext);
    proof {
        let views = string_views(lines@);
        let spec = delimited_spec(rows@, total as nat, sep, args.by_ext);
        assert(spec.len() == rows@.len() + 2);
        assert(spec[0] == delimited_header(sep, args.by_ext));
        assert(spec[spec.len() - 1] == delimited_footer(total as nat, sep));
        assert(views.len() == lines@.len());
        assert(views[0] == lines@[0]@);
        assert(views[views.len() - 1] == lines@.last()@);
        assert(is_prepared(report.stats@, *args, rows@, hidden_count as nat, hidden_tokens as nat));
    }
    lines
}

/// `n` spaces.
pub open spec fn spaces(n: nat) -> Seq<char> {
    Seq::new(n, |i: int| ' ')
}

/// `s` right-aligned in a column of `width` characters, as `{:>width$}` lays
/// it out: spaces in front when it is shorter, unchanged otherwise.
pub open spec fn aligned_right(s: Seq<char>, width: nat) -> Seq<char> {
    if s.len() >= width {
        s
    } else {
        spaces((width - s.len()) as nat) + s
    }
}

/// `s` left-aligned in a column of `width` characters, as `{:<width$}` lays
/// it out: spaces after it when it is shorter, unchanged otherwise.
pub open spec fn aligned_left(s: Seq<char>, width: nat) -> Seq<char> {
    if s.len() >= width {
        s
    } else {
        s + spaces((width - s.len()) as nat)
    }
}

fn push_spaces(out: &mut String, n: usize)
    ensures
        final(out)@ == old(out)@ + spaces(n as nat),
{
    let ghost start = out@;
    let mut i: usize = 0;
    while i < n
        invariant
            i <= n,
            out@ == start + spaces(i as nat),
        decreases n - i,
    {
        push_char(out, ' ');
        assert(spaces((i + 1) as nat) =~= spaces(i as nat).push(' '));
        i = i + 1;
    }
}

/// A table cell aligned to the right of a column `width` characters wide.
pub fn align_right(text: &str, width: usize) -> (res: String)
    ensures
        res@ == aligned_right(text@, width as nat),
{
    let len = chars_of(text).len();
    let mut out = String::new();
    if len < width {
        push_spaces(&mut out, width - len);
    }
    push_str(&mut out, text);
    assert(out@ =~= aligned_right(text@, width as nat));
    out
}

/// A table cell aligned to the left of a column `width` characters wide.
pub fn align_left(text: &str, width: usize) -> (res: String)
    ensures
        res@ == aligned_left(text@, width as nat),
{
    let len = chars_of(text).len();
    let mut out = String::new();
    push_str(&mut out, text);
    if len < width {
        push_spaces(&mut out, width - len);
    }
    assert(out@ =~= aligned_left(text@, width as nat));
    out
}

/// Width of the token column of the table.
pub fn token_column_width(rows: &[FileStat], total: usize) -> (res: usize)
    ensures
        res == token_column_width_spec(rows@, total as nat),
        res >= 1,
{
    let t = thousands(total as u64);
    proof {
        lemma_thousands_len(total as nat);
    }
    let mut w = chars_of(t.as_str()).len();
    let mut i: usize = 0;
    while i < rows.len()
        invariant
            i <= rows@.len(),
            w == token_column_width_spec(rows@.take(i as int), total as nat),
            w >= 1,
        decreases rows@.len() - i,
    {
        assert(rows@.take(i + 1).drop_last() =~= rows@.take(i as int));
        let x = chars_of(thousands(rows[i].tokens as u64).as_str()).len();
        if x > w {
            w = x;
        }
        i = i + 1;
    }
    assert(rows@.take(rows@.len() as int) =~= rows@);
    w
}

/// The largest token count among the rows (0 when there are none).
pub open spec fn max_tokens_spec(rows: Seq<FileStat>) -> nat
    decreases rows.len(),
{
    if rows.len() == 0 {
        0
    } else {
        let m = max_tokens_spec(rows.drop_last());
        if rows.last().tokens > m {
            rows.last().tokens as nat
        } else {
            m
        }
    }
}

/// The largest token count is one of the rows' counts and no row has more
/// (it is 0 when there are no rows).
pub proof fn lemma_max_tokens_is_the_largest(rows: Seq<FileStat>)
    ensures
        forall|i: int| 0 <= i < rows.len() ==> (#[trigger] rows[i]).tokens <= max_tokens_spec(rows),
        rows.len() > 0 ==> exists|i: int|
            0 <= i < rows.len() && (#[trigger] rows[i]).tokens == max_tokens_spec(rows),
        rows.len() == 0 ==> max_tokens_spec(rows) == 0,
    decreases rows.len(),
{
    if rows.len() > 0 {
        let p = rows.drop_last();
        lemma_max_tokens_is_the_largest(p);
        assert forall|i: int| 0 <= i < rows.len() implies (#[trigger] rows[i]).tokens
            <= max_tokens_spec(rows) by {
            if i < p.len() {
                assert(rows[i] == p[i]);
            }
        }
        if rows.last().tokens > max_tokens_spec(p) || p.len() == 0 {
            assert(rows[rows.len() - 1].tokens == max_tokens_spec(rows));
        } else {
            let i = choose|i: int| 0 <= i < p.len() && (#[trigger] p[i]).tokens == max_tokens_spec(p);
            assert(rows[i] == p[i]);
        }
    }
}

/// The largest token count among the rows.
pub fn max_tokens(rows: &[FileStat]) -> (res: usize)
    ensures
        res == max_tokens_spec(rows@),
        forall|i: int| 0 <= i < rows@.len() ==> (#[trigger] rows@[i]).tokens <= res,
        rows@.len() > 0 ==> exists|i: int| 0 <= i < rows@.len() && (#[trigger] rows@[i]).tokens == res,
{
    proof {
        lemma_max_tokens_is_the_largest(rows@);
    }
    let mut m: usize = 0;
    let mut i: usize = 0;
    while i < rows.len()
        invariant
            i <= rows@.len(),
            m == max_tokens_spec(rows@.take(i as int)),
        decreases rows@.len() - i,
    {
        assert(rows@.take(i + 1).drop_last() =~= rows@.take(i as int));
        if rows[i].tokens > m {
            m = rows[i].tokens;
        }
        i = i + 1;
    }
    assert(rows@.take(rows@.len() as int) =~= rows@);
    m
}

/// By how much `total` exceeds `--limit`, when it does.
pub fn limit_excess(total: usize, limit: Option<usize>) -> (res: Option<usize>)
    ensures
        match limit {
            Some(l) => if total > l {
                res == Some((total - l) as usize)
            } else {
                res is None
            },
            None => res is None,
        },
{
    match limit {
        Some(l) => if total > l {
            Some(total - l)
        } else {
            None
        },
        None => None,
    }
}

/// The model list as delimited lines: a header, then name, encoding and
/// context window (empty when unknown) per model.
pub open spec fn models_delimited_spec(
    models: Seq<(Seq<char>, Seq<char>, Option<usize>)>,
    sep: char,
) -> Seq<Seq<char>> {
    seq![models_header(sep)] + models.map_values(
        |m: (Seq<char>, Seq<char>, Option<usize>)| model_line(m, sep),
    )
}

pub open spec fn models_header(sep: char) -> Seq<char> {
    "model"@ + seq![sep] + "encoding"@ + seq![sep] + "context_window"@
}

pub open spec fn model_line(m: (Seq<char>, Seq<char>, Option<usize>), sep: char) -> Seq<char> {
    m.0 + seq![sep] + m.1 + seq![sep] + match m.2 {
        Some(w) => decimal(w as nat),
        None => Seq::empty(),
    }
}

/// The CSV (`sep` is `,`) or TSV lines of the model list.
pub fn models_delimited(models: &[ModelInfo], sep: char) -> (res: Vec<String>)
    ensures
        string_views(res@) == models_delimited_spec(
            models@.map_values(|m: ModelInfo| model_info_view(m)),
            sep,
        ),
{
    let ghost views = models@.map_values(|m: ModelInfo| model_info_view(m));
    let ghost f = |m: (Seq<char>, Seq<char>, Option<usize>)| model_line(m, sep);
    let mut lines: Vec<String> = Vec::new();
    let mut header = String::new();
    push_str(&mut header, "model");
    push_char(&mut header, sep);
    push_str(&mut header, "encoding");
    push_char(&mut header, sep);
    push_str(&mut header, "context_window");
    lines.push(header);
    assert(header@ =~= models_header(sep));
    assert(string_views(lines@) =~= seq![models_header(sep)] + views.take(0).map_values(f));
    let mut i: usize = 0;
    while i < models.len()
        invariant
            i <= models@.len(),
            views == models@.map_values(|m: ModelInfo| model_info_view(m)),
            f == (|m: (Seq<char>, Seq<char>, Option<usize>)| model_line(m, sep)),
            string_views(lines@) == seq![models_header(sep)] + views.take(i as int).map_values(f),
        decreases models@.len() - i,
    {
        let m = &models[i];
        let mut line = String::from_str(m.name);
        push_char(&mut line, sep);
        push_str(&mut line, m.encoding);
        push_char(&mut line, sep);
        match m.context_window {
            Some(w) => push_decimal(&mut line, w as u64),
            None => {},
        }
        assert(views[i as int] == model_info_view(models@[i as int]));
        assert(line@ =~= model_line(views[i as int], sep));
        let ghost before = lines@;
        lines.push(line);
        assert(views.take(i + 1).map_values(f) =~= views.take(i as int).map_values(f).push(
            f(views[i as int]),
        ));
        assert(string_views(lines@) =~= string_views(before).push(line@));
        i = i + 1;
    }
    assert(views.take(views.len() as int) =~= views);
    assert(string_views(lines@) =~= models_delimited_spec(views, sep));
    lines
}

/// Byte length of a string, as `str::len` reports it.
pub open spec fn byte_len(s: Seq<char>) -> nat {
    (vstd::utf8::encode_utf8(s).len() as usize) as nat
}

/// The largest of some lengths, or `default` when there are none.
pub open spec fn max_or(lens: Seq<nat>, default: nat) -> nat
    decreases lens.len(),
{
    if lens.len() == 0 {
        default
    } else if lens.len() == 1 {
        lens[0]
    } else {
        let m = max_or(lens.drop_last(), default);
        if lens.last() > m {
            lens.last()
        } else {
            m
        }
    }
}

/// Column widths of the model table: the longest model name (5 when there
/// are none) and the longest encoding name (8 when there are none), in bytes.
#[verifier::rlimit(40)]
pub fn models_table_widths(models: &[ModelInfo]) -> (res: (usize, usize))
    ensures
        res.0 == max_or(models@.map_values(|m: ModelInfo| byte_len(m.name@)), 5),
        res.1 == max_or(models@.map_values(|m: ModelInfo| byte_len(m.encoding@)), 8),
{
    let ghost names = models@.map_values(|m: ModelInfo| byte_len(m.name@));
    let ghost encs = models@.map_values(|m: ModelInfo| byte_len(m.encoding@));
    let mut nw: usize = 5;
    let mut ew: usize = 8;
    let mut i: usize = 0;
    while i < models.len()
        invariant
            i <= models@.len(),
            names == models@.map_values(|m: ModelInfo| byte_len(m.name@)),
            encs == models@.map_values(|m: ModelInfo| byte_len(m.encoding@)),
            nw == max_or(names.take(i as int), 5),
            ew == max_or(encs.take(i as int), 8),
        decreases models@.len() - i,
    {
        let n = models[i].name.len();
        let e = models[i].encoding.len();
        assert(names.take(i + 1).drop_last() =~= names.take(i as int));
        assert(encs.take(i + 1).drop_last() =~= encs.take(i as int));
        assert(names[i as int] == n);
        assert(encs[i as int] == e);
        if i == 0 || n > nw {
            nw = n;
        }
        if i == 0 || e > ew {
            ew = e;
        }
        i = i + 1;
    }
    assert(names.take(models@.len() as int) =~= names);
    assert(encs.take(models@.len() as int) =~= encs);
    (nw, ew)
}

/// The context column of the model table: the grouped window, or `—`.
pub fn window_cell(window: Option<usize>) -> (res: String)
    ensures
        match window {
            Some(w) => res@ == thousands_spec(w as nat),
            None => res@ == "\u{2014}"@,
        },
{
    match window {
        Some(w) => thousands(w as u64),
        None => String::from_str("\u{2014}"),
    }
}

} // verus!
