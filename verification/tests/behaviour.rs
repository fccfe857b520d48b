use std::path::PathBuf;

use tok::cli::{CountArgs, EncoderArgs, Format, Sort, WalkArgs};
use tok::count::{
    by_extension, extension_key, file_outcome, text_of_bytes, line_count, report_from_outcomes, stat_from_text,
    FileStat, Outcome, Report,
};
use tok::encoding::{unknown_model, DecodeError, Encoder, EncodingArg, ModelInfo};
use tok::input::{
    collect_plan, finish_collect, normalise_exts, passes_ext_filter, stdin_item, CollectError,
    CollectPlan, Item, PathStep,
};
use tok::numfmt::{human_bytes, plural, thousands};
use tok::output::{
    align_left, align_right,
    delimited_lines, escape, limit_excess, report_delimited, max_tokens, models_delimited, models_table_widths,
    token_column_width, window_cell,
};
use tok::paths::{display_path, has_ext, normalise_ext, path_extension_of};
use tok::rows::{arrange, prepare_rows};
use tok::show::{decode_ids, ids_text, parse_token_ids, token_pieces, utf8_runs};

fn row(label: &str, tokens: usize, bytes: u64) -> FileStat {
    FileStat {
        label: label.to_string(),
        tokens,
        bytes,
        lines: 1,
    }
}

fn labels(rows: &[FileStat]) -> Vec<&str> {
    rows.iter().map(|r| r.label.as_str()).collect()
}

fn count_args(by_ext: bool, sort: Sort, reverse: bool, top: Option<usize>) -> CountArgs {
    CountArgs {
        paths: Vec::new(),
        text: None,
        encoder: EncoderArgs {
            model: None,
            encoding: None,
            special: false,
        },
        format: Format::Table,
        quiet: false,
        ids: false,
        show: false,
        limit: None,
        by_ext,
        top,
        sort,
        reverse,
        walk: WalkArgs::default(),
        threads: 0,
    }
}

fn report(stats: Vec<FileStat>) -> Report {
    Report {
        stats,
        skipped_binary: Vec::new(),
        failed: Vec::new(),
    }
}

fn default_encoder() -> Encoder {
    Encoder::resolve(None, None, false).ok().unwrap()
}

// ---- numbers ----

#[test]
fn thousands_without_commas_is_the_plain_number() {
    for n in [0u64, 9, 10, 999, 1_000, 65_536, 1_234_567, 10_000_000, u64::MAX] {
        assert_eq!(thousands(n).replace(',', ""), n.to_string());
    }
    assert_eq!(thousands(u64::MAX), "18,446,744,073,709,551,615");
    assert_eq!(thousands(100_000), "100,000");
}

#[test]
fn human_bytes_rounds_to_one_decimal() {
    // 1280 bytes is exactly 1.25 KiB, which rounds to the even tenth.
    assert_eq!(human_bytes(1280), "1.2 KiB");
    assert_eq!(human_bytes(2560), "2.5 KiB");
    assert_eq!(human_bytes(1126), "1.1 KiB");
    // Just under a MiB stays in KiB and rounds up to 1024.0.
    assert_eq!(human_bytes(1_048_575), "1024.0 KiB");
    assert_eq!(human_bytes(1024 * 1024 * 1024), "1.0 GiB");
}

#[test]
fn human_bytes_stops_at_tebibytes() {
    assert_eq!(human_bytes(1u64 << 40), "1.0 TiB");
    assert_eq!(human_bytes(1u64 << 50), "1024.0 TiB");
    assert_eq!(human_bytes(u64::MAX), "16777216.0 TiB");
}

#[test]
fn plural_groups_and_inflects() {
    assert_eq!(plural(0, "file"), "0 files");
    assert_eq!(plural(2, "row"), "2 rows");
    assert_eq!(plural(1_000, "file"), "1,000 files");
}

// ---- paths ----

#[test]
fn display_path_strips_one_leading_dot_slash() {
    assert_eq!(display_path("././a.rs"), "./a.rs");
    assert_eq!(display_path(r".\src\lib.rs"), "src/lib.rs");
    assert_eq!(display_path("/abs/x.rs"), "/abs/x.rs");
    assert_eq!(display_path(""), "");
}

#[test]
fn normalising_ignores_leading_dots_and_case() {
    assert_eq!(normalise_ext(".rs"), normalise_ext("rs"));
    assert_eq!(normalise_ext("RS"), normalise_ext("rs"));
    assert_eq!(normalise_ext("..Md"), "md");
    assert_eq!(normalise_ext("."), "");
    assert_eq!(
        normalise_exts(&[".TXT".to_string(), "Json".to_string()]),
        vec!["txt", "json"]
    );
}

#[test]
fn extensions_follow_the_last_path_component() {
    assert_eq!(path_extension_of("src/main.rs"), Some("rs".to_string()));
    assert_eq!(path_extension_of("a/b.tar.GZ"), Some("GZ".to_string()));
    assert_eq!(path_extension_of(".gitignore"), None);
    assert_eq!(path_extension_of("dir.d/Makefile"), None);
    assert_eq!(path_extension_of("name."), Some(String::new()));
    assert_eq!(path_extension_of("src/main.rs/"), Some("rs".to_string()));
    assert_eq!(path_extension_of("a/.."), None);
}

#[test]
fn has_ext_reads_the_file_name_only() {
    let exts = vec!["rs".to_string()];
    assert!(has_ext("deep/path/LIB.RS", &exts));
    assert!(!has_ext("src.rs/Makefile", &exts));
    assert!(!has_ext(".rs", &exts));
    assert!(!has_ext("main.rs.bak", &exts));
}

#[test]
fn an_empty_ext_filter_lets_everything_through() {
    assert!(passes_ext_filter("Makefile", &[]));
    assert!(passes_ext_filter("a.md", &["md".to_string()]));
    assert!(!passes_ext_filter("a.rs", &["md".to_string()]));
}

// ---- counting ----

#[test]
fn extension_keys_of_odd_names() {
    assert_eq!(extension_key("x/a.."), ".");
    assert_eq!(extension_key("dir.d/Makefile"), "Makefile");
    assert_eq!(extension_key("Archive.TAR"), ".tar");
    assert_eq!(extension_key("docs/.env"), ".env");
}

#[test]
fn grouping_keeps_every_total() {
    let stats = vec![
        FileStat {
            label: "a.rs".to_string(),
            tokens: 10,
            bytes: 40,
            lines: 3,
        },
        FileStat {
            label: "b.md".to_string(),
            tokens: 7,
            bytes: 20,
            lines: 2,
        },
        FileStat {
            label: "c/d.RS".to_string(),
            tokens: 5,
            bytes: 9,
            lines: 1,
        },
        FileStat {
            label: "Makefile".to_string(),
            tokens: 1,
            bytes: 2,
            lines: 4,
        },
    ];
    let grouped = by_extension(&stats);
    assert_eq!(grouped.len(), 3);
    let tokens: usize = grouped.iter().map(|g| g.tokens).sum();
    let bytes: u64 = grouped.iter().map(|g| g.bytes).sum();
    let lines: usize = grouped.iter().map(|g| g.lines).sum();
    assert_eq!(tokens, 23);
    assert_eq!(bytes, 71);
    assert_eq!(lines, 10);
    let rs = grouped.iter().find(|g| g.label == ".rs").unwrap();
    assert_eq!((rs.tokens, rs.bytes, rs.lines), (15, 49, 4));
    // Groups appear in the order their first member does.
    assert_eq!(labels(&grouped), vec![".rs", ".md", "Makefile"]);
}

#[test]
fn lines_are_counted_like_str_lines() {
    assert_eq!(line_count(""), 0);
    assert_eq!(line_count("one"), 1);
    assert_eq!(line_count("one\n"), 1);
    assert_eq!(line_count("one\ntwo"), 2);
    assert_eq!(line_count("one\r\ntwo\r\n"), 2);
    assert_eq!(line_count("\n\n"), 2);
}

#[test]
fn a_text_is_counted_in_tokens_bytes_and_lines() {
    let enc = default_encoder();
    let stat = stat_from_text("<text>".to_string(), "héllo\nworld", &enc).unwrap();
    assert_eq!(stat.label, "<text>");
    assert_eq!(stat.tokens, enc.count("héllo\nworld").unwrap());
    assert_eq!(stat.bytes, 12);
    assert_eq!(stat.lines, 2);
}

#[test]
fn a_file_outcome_follows_the_read() {
    let enc = default_encoder();
    let path = PathBuf::from("./notes.txt");
    match file_outcome(path.clone(), "./notes.txt", Err("gone".to_string()), &enc) {
        Outcome::Failed(p, e) => {
            assert_eq!(p, path);
            assert_eq!(e, "gone");
        }
        other => panic!("unexpected {other:?}"),
    }
    match file_outcome(path.clone(), "./notes.txt", Ok(vec![b'a', 0, b'b']), &enc) {
        Outcome::SkippedBinary(p) => assert_eq!(p, path),
        other => panic!("unexpected {other:?}"),
    }
    // Invalid UTF-8 is decoded lossily: one replacement character (3 bytes).
    match file_outcome(path.clone(), "./notes.txt", Ok(vec![b'h', b'i', 0xff]), &enc) {
        Outcome::Counted(stat) => {
            assert_eq!(stat.label, "notes.txt");
            assert_eq!(stat.bytes, 5);
            assert_eq!(stat.lines, 1);
            assert_eq!(stat.tokens, enc.count("hi\u{fffd}").unwrap());
        }
        other => panic!("unexpected {other:?}"),
    }
}

#[test]
fn outcomes_are_sorted_into_the_report_in_order() {
    let outcomes = vec![
        Outcome::Counted(row("a", 1, 1)),
        Outcome::SkippedBinary(PathBuf::from("bin")),
        Outcome::Failed(PathBuf::from("gone"), "missing".to_string()),
        Outcome::Counted(row("b", 2, 2)),
    ];
    let report = report_from_outcomes(outcomes);
    assert_eq!(labels(&report.stats), vec!["a", "b"]);
    assert_eq!(report.skipped_binary, vec![PathBuf::from("bin")]);
    assert_eq!(
        report.failed,
        vec![(PathBuf::from("gone"), "missing".to_string())]
    );
    assert_eq!(report.total_tokens(), 3);
    assert_eq!(report.total_bytes(), 3);
}

// ---- ordering and trimming ----

#[test]
fn sorting_by_tokens_breaks_ties_by_label() {
    let base = vec![row("b", 5, 1), row("c", 9, 2), row("a", 5, 3)];
    let (rows, hidden, hidden_tokens) = arrange(&base, Sort::Tokens, false, None);
    assert_eq!(labels(&rows), vec!["c", "a", "b"]);
    assert_eq!((hidden, hidden_tokens), (0, 0));
}

#[test]
fn sorting_by_size_path_and_discovery() {
    let base = vec![row("b", 1, 30), row("c", 2, 10), row("a", 3, 30)];
    let (by_size, _, _) = arrange(&base, Sort::Size, false, None);
    assert_eq!(labels(&by_size), vec!["a", "b", "c"]);
    let (by_path, _, _) = arrange(&base, Sort::Path, false, None);
    assert_eq!(labels(&by_path), vec!["a", "b", "c"]);
    let (found, _, _) = arrange(&base, Sort::Discovery, false, None);
    assert_eq!(labels(&found), vec!["b", "c", "a"]);
    let (reversed, _, _) = arrange(&base, Sort::Discovery, true, None);
    assert_eq!(labels(&reversed), vec!["a", "c", "b"]);
}

#[test]
fn labels_sort_by_code_point() {
    let base = vec![row("b", 0, 0), row("B", 0, 0), row("é", 0, 0), row("a", 0, 0)];
    let (rows, _, _) = arrange(&base, Sort::Path, false, None);
    assert_eq!(labels(&rows), vec!["B", "a", "b", "é"]);
}

#[test]
fn top_keeps_the_total() {
    let stats = vec![row("a.rs", 10, 1), row("b.rs", 30, 1), row("c.md", 20, 1)];
    let args = count_args(false, Sort::Tokens, false, Some(1));
    let (rows, hidden_count, hidden_tokens) = prepare_rows(&report(stats), &args);
    assert_eq!(labels(&rows), vec!["b.rs"]);
    assert_eq!(hidden_count, 2);
    assert_eq!(hidden_tokens, 30);
    assert_eq!(rows[0].tokens + hidden_tokens, 60);
}

#[test]
fn top_larger_than_the_rows_hides_nothing() {
    let stats = vec![row("a", 1, 1), row("b", 2, 1)];
    let args = count_args(false, Sort::Path, true, Some(10));
    let (rows, hidden_count, hidden_tokens) = prepare_rows(&report(stats), &args);
    assert_eq!(labels(&rows), vec!["b", "a"]);
    assert_eq!((hidden_count, hidden_tokens), (0, 0));
    let (none, hidden_count, hidden_tokens) =
        prepare_rows(&report(vec![row("x", 4, 1)]), &count_args(false, Sort::Tokens, false, Some(0)));
    assert!(none.is_empty());
    assert_eq!((hidden_count, hidden_tokens), (1, 4));
}

#[test]
fn by_ext_rows_are_groups_and_keep_the_total() {
    let stats = vec![row("a.rs", 10, 1), row("b.md", 30, 1), row("c.rs", 25, 1)];
    let args = count_args(true, Sort::Tokens, false, None);
    let (rows, hidden_count, hidden_tokens) = prepare_rows(&report(stats), &args);
    assert_eq!(labels(&rows), vec![".rs", ".md"]);
    assert_eq!(rows[0].tokens, 35);
    assert_eq!(rows.iter().map(|r| r.tokens).sum::<usize>(), 65);
    assert_eq!((hidden_count, hidden_tokens), (0, 0));
}

#[test]
fn arranging_twice_gives_the_same_rows() {
    let base = vec![row("x", 3, 1), row("y", 3, 1), row("z", 1, 1), row("w", 7, 1)];
    let first = arrange(&base, Sort::Tokens, true, Some(2));
    let second = arrange(&base, Sort::Tokens, true, Some(2));
    assert_eq!(labels(&first.0), labels(&second.0));
    assert_eq!((first.1, first.2), (second.1, second.2));
    // The two largest are `w` and `x`; reversed, the smaller comes first.
    assert_eq!(labels(&first.0), vec!["x", "w"]);
    assert_eq!((first.1, first.2), (2, 4));
}

#[test]
fn top_keeps_the_largest_whatever_the_order() {
    let base = vec![row("a", 1, 50), row("b", 10, 5), row("c", 7, 20)];
    let (by_path, hidden, hidden_tokens) = arrange(&base, Sort::Path, false, Some(1));
    assert_eq!(labels(&by_path), vec!["b"]);
    assert_eq!((hidden, hidden_tokens), (2, 8));
    let (two, _, _) = arrange(&base, Sort::Path, true, Some(2));
    assert_eq!(labels(&two), vec!["c", "b"]);
    let (found, hidden, hidden_tokens) = arrange(&base, Sort::Discovery, false, Some(2));
    assert_eq!(labels(&found), vec!["b", "c"]);
    assert_eq!((hidden, hidden_tokens), (1, 1));
    // Under `--sort size` the largest are by bytes.
    let (by_size, hidden, hidden_tokens) = arrange(&base, Sort::Size, false, Some(2));
    assert_eq!(labels(&by_size), vec!["a", "c"]);
    assert_eq!((hidden, hidden_tokens), (1, 10));
    let (smallest_first, _, _) = arrange(&base, Sort::Tokens, true, Some(2));
    assert_eq!(labels(&smallest_first), vec!["c", "b"]);
}

// ---- output ----

#[test]
fn quoting_reads_back() {
    for field in ["say \"hi\"", "a,b", "\"", "line\nbreak", "plain"] {
        let quoted = escape(field, ',');
        let back = if quoted.starts_with('"') && quoted.len() >= 2 {
            quoted[1..quoted.len() - 1].replace("\"\"", "\"")
        } else {
            quoted.clone()
        };
        assert_eq!(back, field);
    }
    assert_eq!(escape("a\tb", '\t'), "\"a\tb\"");
    assert_eq!(escape("a\tb", ','), "a\tb");
    assert_eq!(escape("line\nbreak", '\t'), "\"line\nbreak\"");
    assert_eq!(escape("", ','), "");
}

#[test]
fn delimited_output_has_header_rows_and_total() {
    let rows = vec![
        FileStat {
            label: "a,b.rs".to_string(),
            tokens: 3,
            bytes: 12,
            lines: 1,
        },
        FileStat {
            label: "c.md".to_string(),
            tokens: 1_000,
            bytes: 4,
            lines: 2,
        },
    ];
    assert_eq!(
        delimited_lines(&rows, 1_003, ',', false),
        vec![
            "file,tokens,bytes,lines",
            "\"a,b.rs\",3,12,1",
            "c.md,1000,4,2",
            "TOTAL,1003,,"
        ]
    );
    assert_eq!(
        delimited_lines(&[], 0, '\t', true),
        vec!["ext\ttokens\tbytes\tlines", "TOTAL\t0\t\t"]
    );
}

#[test]
fn table_columns_fit_the_widest_number() {
    let rows = vec![row("a", 1_234_567, 1), row("b", 5, 1)];
    assert_eq!(token_column_width(&rows, 12), 9);
    assert_eq!(token_column_width(&[], 0), 1);
    assert_eq!(token_column_width(&rows[1..], 12_345), 6);
    assert_eq!(max_tokens(&rows), 1_234_567);
    assert_eq!(max_tokens(&[]), 0);
}

#[test]
fn the_limit_is_exceeded_only_above_it() {
    assert_eq!(limit_excess(10, Some(10)), None);
    assert_eq!(limit_excess(11, Some(10)), Some(1));
    assert_eq!(limit_excess(0, Some(0)), None);
    assert_eq!(limit_excess(usize::MAX, None), None);
}

#[test]
fn model_listing_lines_and_widths() {
    let models = vec![
        ModelInfo {
            name: "gpt-4o",
            encoding: "o200k_base",
            context_window: Some(128_000),
        },
        ModelInfo {
            name: "text-davinci-003",
            encoding: "p50k_base",
            context_window: None,
        },
    ];
    assert_eq!(
        models_delimited(&models, ','),
        vec![
            "model,encoding,context_window",
            "gpt-4o,o200k_base,128000",
            "text-davinci-003,p50k_base,"
        ]
    );
    assert_eq!(models_table_widths(&models), (16, 10));
    assert_eq!(models_table_widths(&[]), (5, 8));
    assert_eq!(window_cell(Some(128_000)), "128,000");
    assert_eq!(window_cell(None), "\u{2014}");
}

// ---- inputs ----

#[test]
fn text_wins_over_stdin() {
    assert_eq!(
        collect_plan(Some("hello"), &[]),
        CollectPlan::Text(Item::Inline {
            label: "<text>".into(),
            text: "hello".into()
        })
    );
}

#[test]
fn no_paths_means_stdin() {
    assert_eq!(collect_plan(None, &[]), CollectPlan::Stdin);
    assert_eq!(
        stdin_item(b"piped"),
        Item::Inline {
            label: "<stdin>".into(),
            text: "piped".into()
        }
    );
}

#[test]
fn stdin_is_read_once_however_often_dash_appears() {
    assert_eq!(
        collect_plan(None, &[true, false, true, true, false]),
        CollectPlan::Paths(vec![
            PathStep::Stdin,
            PathStep::Inspect(1),
            PathStep::Inspect(4)
        ])
    );
    assert_eq!(
        collect_plan(Some("text"), &[true]),
        CollectPlan::Text(Item::Inline {
            label: "<text>".into(),
            text: "text".into()
        })
    );
}

#[test]
fn nothing_left_to_count_is_an_error() {
    match finish_collect(Vec::new()) {
        Err(err) => {
            assert_eq!(err, CollectError::NothingToCount);
            assert_eq!(
                err.message(),
                "no files to count (try --hidden, --no-ignore, or a wider --glob)"
            );
        }
        Ok(_) => panic!("an empty collection should fail"),
    }
    let items = vec![Item::File(PathBuf::from("a.rs"))];
    assert_eq!(
        finish_collect(items).ok(),
        Some(vec![Item::File(PathBuf::from("a.rs"))])
    );
}

// ---- encoders ----

#[test]
fn a_model_and_its_encoding_count_alike() {
    let by_model = Encoder::resolve(Some("gpt-4o"), None, false).ok().unwrap();
    let by_encoding = Encoder::resolve(None, Some(EncodingArg::O200kBase), false)
        .ok()
        .unwrap();
    let text = "The quick brown fox jumps over the lazy dog.";
    assert_eq!(by_model.encode(text).unwrap(), by_encoding.encode(text).unwrap());
    assert_eq!(by_model.context_window(), Some(128_000));
    assert_eq!(by_model.label(), "gpt-4o (o200k_base)");
}

#[test]
fn different_encodings_can_disagree() {
    let o200k = Encoder::resolve(None, Some(EncodingArg::O200kBase), false)
        .ok()
        .unwrap();
    let r50k = Encoder::resolve(None, Some(EncodingArg::R50kBase), false)
        .ok()
        .unwrap();
    let text = "こんにちは世界";
    assert_ne!(o200k.count(text).unwrap(), r50k.count(text).unwrap());
    assert_eq!(r50k.encoding(), "r50k_base");
}

#[test]
fn an_unknown_token_fails_to_decode() {
    let enc = default_encoder();
    assert_eq!(enc.decode(&[u32::MAX]), Err(DecodeError { token: u32::MAX }));
    let hello = enc.encode("hello").unwrap();
    let mut ids = hello.clone();
    ids.push(u32::MAX - 1);
    assert_eq!(enc.decode(&ids), Err(DecodeError { token: u32::MAX - 1 }));
    assert_eq!(enc.decode(&[]), Ok(Vec::new()));
}

#[test]
fn unknown_model_messages_name_the_model() {
    assert_eq!(
        unknown_model("zzz"),
        "unknown model `zzz`\n  run `tok models` for the built-in list, or pass --encoding to pick an encoding directly"
    );
    let msg = unknown_model("gpt-5.4-x");
    assert!(msg.starts_with("unknown model `gpt-5.4-x`\n  did you mean `gpt-5.4`?"), "{msg}");
}

// ---- token ids ----

#[test]
fn ids_print_as_space_separated_decimals() {
    assert_eq!(ids_text(&[]), "");
    assert_eq!(ids_text(&[0]), "0");
    assert_eq!(ids_text(&[15339, 1917, u32::MAX]), "15339 1917 4294967295");
}

#[test]
fn printed_ids_parse_back() {
    for ids in [vec![], vec![7u32], vec![15339, 0, 1917, u32::MAX]] {
        assert_eq!(parse_token_ids(&[ids_text(&ids)]), Ok(ids));
    }
}

#[test]
fn ids_split_at_whitespace_and_commas() {
    let args = vec!["1,2  3".to_string(), "\t4\n".to_string(), ",".to_string()];
    assert_eq!(parse_token_ids(&args), Ok(vec![1, 2, 3, 4]));
}

#[test]
fn bad_ids_are_named() {
    let err = parse_token_ids(&["12 x7 9".to_string()]).unwrap_err();
    assert!(err.contains("`x7`"), "{err}");
    let too_big = parse_token_ids(&["4294967296".to_string()]).unwrap_err();
    assert!(too_big.contains("`4294967296`"), "{too_big}");
    let negative = parse_token_ids(&["-1".to_string()]).unwrap_err();
    assert!(negative.contains("`-1`"), "{negative}");
}

#[test]
fn runs_never_split_a_character() {
    let snowman = "☃".as_bytes().to_vec();
    let pieces = vec![
        b"a".to_vec(),
        snowman[..1].to_vec(),
        snowman[1..].to_vec(),
        b"b".to_vec(),
    ];
    let runs = utf8_runs(&pieces);
    assert_eq!(runs, vec![b"a".to_vec(), snowman.clone(), b"b".to_vec()]);
    let trailing = utf8_runs(&[b"x".to_vec(), vec![0xe2, 0x98]]);
    assert_eq!(trailing, vec![b"x".to_vec(), vec![0xe2, 0x98]]);
    assert!(utf8_runs(&[]).is_empty());
}

/// The float formulation of the byte sizes, kept here to hold the integer
/// implementation to it.
fn float_human_bytes(n: u64) -> String {
    const UNITS: [&str; 5] = ["B", "KiB", "MiB", "GiB", "TiB"];
    if n < 1024 {
        return format!("{n} B");
    }
    let mut value = n as f64;
    let mut unit = 0;
    while value >= 1024.0 && unit + 1 < UNITS.len() {
        value /= 1024.0;
        unit += 1;
    }
    format!("{value:.1} {}", UNITS[unit])
}

#[test]
fn human_bytes_matches_float_formatting() {
    let mut samples: Vec<u64> = (0..=300_000u64).step_by(7).collect();
    for shift in 10..64u32 {
        let p = 1u64 << shift;
        for d in [0u64, 1, 2, 51, 52, 53, 102, 103, 511, 512, 513] {
            samples.push(p - d.min(p));
            samples.push(p.saturating_add(d));
            samples.push((p / 20).saturating_mul(3).saturating_add(d));
        }
    }
    for k in 1..2_000u64 {
        // Values near the half tenths of each unit.
        samples.push(k * 1024 / 20 + 1024);
        samples.push(k * 1024 * 1024 / 20 + (1 << 20));
        samples.push(k.wrapping_mul(0x9E37_79B9_7F4A_7C15));
    }
    samples.push(u64::MAX);
    samples.push(u64::MAX - 1);
    for n in samples {
        assert_eq!(human_bytes(n), float_human_bytes(n), "{n}");
    }
}

#[test]
fn lines_and_extensions_agree_with_std() {
    let texts = [
        "", "\n", "\r\n", "a", "a\n", "a\r\n", "a\rb", "a\n\nb", "\r", "x\r\r\n", "\n\r\n\n",
        "tail\r", "é\nü\r\n",
    ];
    for t in texts {
        assert_eq!(line_count(t), t.lines().count(), "{t:?}");
    }
    let paths = [
        "", ".", "..", "/", "a", "a.b", ".a", ".a.b", "a.", "a..", "a/b.c", "a/.b", "a/b.c/",
        "a/b.c/.", "a/b.c/./", "a/..", "a/../", "./x.y", "x.y/..", "//a.b//", "a.b/./.",
        "a b.c d", "dir.x/y",
    ];
    for p in paths {
        let expected = std::path::Path::new(p)
            .extension()
            .map(|e| e.to_string_lossy().into_owned());
        assert_eq!(path_extension_of(p), expected, "{p:?}");
    }
}

#[test]
fn decoding_printed_ids_gives_the_text_back() {
    let enc = default_encoder();
    let text = "日本語のトークン";
    let printed = ids_text(&enc.encode(text).unwrap());
    assert_eq!(decode_ids(&enc, &[printed]), Ok(text.to_string()));
    assert_eq!(
        decode_ids(&enc, &["not-a-token".to_string()]),
        Err("invalid token id `not-a-token`".to_string())
    );
    assert_eq!(
        decode_ids(&enc, &["4294967295".to_string()]),
        Err("Invalid token for decoding: 4294967295".to_string())
    );
    assert_eq!(
        DecodeError { token: 42 }.message(),
        "Invalid token for decoding: 42"
    );
}

#[test]
fn shown_pieces_reproduce_the_text() {
    let enc = default_encoder();
    let text = "こんにちは 🎉 world";
    let pieces = token_pieces(&enc, &enc.encode(text).unwrap()).unwrap();
    assert_eq!(pieces.len(), enc.count(text).unwrap());
    let runs = utf8_runs(&pieces);
    let joined: Vec<u8> = runs.concat();
    assert_eq!(joined, text.as_bytes());
    for run in &runs {
        assert!(std::str::from_utf8(run).is_ok());
    }
    assert_eq!(
        token_pieces(&enc, &[u32::MAX]),
        Err(DecodeError { token: u32::MAX })
    );
}

#[test]
fn a_huge_run_of_spaces_does_not_panic() {
    let enc = default_encoder();
    let spaces = " ".repeat(1_100_000) + "x";
    match enc.count(&spaces) {
        Ok(n) => assert!(n > 0),
        Err(err) => assert!(!err.message.is_empty()),
    }
    let special = Encoder::resolve(None, None, true).ok().unwrap();
    assert_eq!(special.count(&spaces).is_ok(), enc.count(&spaces).is_ok());
}

#[test]
fn delimited_report_totals_everything_even_with_top() {
    let stats = vec![row("a.rs", 10, 1), row("b.md", 30, 2), row("c.rs", 25, 3)];
    let args = count_args(true, Sort::Tokens, false, Some(1));
    assert_eq!(
        report_delimited(&report(stats), &args, ','),
        vec!["ext,tokens,bytes,lines", ".rs,35,4,2", "TOTAL,65,,"]
    );
    let plain = count_args(false, Sort::Path, false, Some(1));
    let stats = vec![row("a", 1, 1), row("b", 10, 1)];
    assert_eq!(
        report_delimited(&report(stats), &plain, '\t'),
        vec!["file\ttokens\tbytes\tlines", "b\t10\t1\t1", "TOTAL\t11\t\t"]
    );
}

#[test]
fn stdin_bytes_are_read_lossily() {
    assert_eq!(
        stdin_item(&[b'o', b'k', 0xc3]),
        Item::Inline {
            label: "<stdin>".into(),
            text: "ok\u{fffd}".into()
        }
    );
    assert_eq!(text_of_bytes("日本".as_bytes()), "日本");
}

#[test]
fn cells_align_like_format_width() {
    for (text, width) in [("12", 5), ("12,345", 3), ("", 4), ("é—", 4), ("abc", 3)] {
        assert_eq!(align_right(text, width), format!("{text:>width$}"));
        assert_eq!(align_left(text, width), format!("{text:<width$}"));
    }
}
