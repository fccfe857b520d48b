use tok::count::{by_extension, extension_key, is_binary, FileStat, SNIFF_LEN};
use tok::encoding::{known_models, model_table, Encoder, EncodingArg};
use tok::numfmt::{human_bytes, plural, thousands};
use tok::output::escape;
use tok::paths::{display_path, has_ext, normalise_ext};

fn stat(label: &str, tokens: usize) -> FileStat {
    FileStat {
        label: label.to_string(),
        tokens,
        bytes: tokens as u64 * 4,
        lines: 1,
    }
}

#[test]
fn nul_byte_marks_a_file_binary() {
    assert!(is_binary(b"\x7fELF\0\0\0"));
    assert!(!is_binary("hello world".as_bytes()));
    assert!(!is_binary("日本語のテキスト".as_bytes()));
}

#[test]
fn nul_bytes_past_the_sniff_window_are_ignored() {
    let mut bytes = vec![b'a'; SNIFF_LEN];
    bytes.push(0);
    assert!(!is_binary(&bytes));
}

#[test]
fn extension_keys_handle_dotfiles_and_bare_names() {
    assert_eq!(extension_key("src/main.rs"), ".rs");
    assert_eq!(extension_key("README.MD"), ".md");
    assert_eq!(extension_key(".gitignore"), ".gitignore");
    assert_eq!(extension_key("Makefile"), "Makefile");
    assert_eq!(extension_key("a/b/c.tar.gz"), ".gz");
}

#[test]
fn grouping_sums_tokens_per_extension() {
    let stats = vec![stat("a.rs", 10), stat("b/c.rs", 5), stat("d.md", 7)];
    let mut grouped = by_extension(&stats);
    grouped.sort_by(|a, b| a.label.cmp(&b.label));

    assert_eq!(grouped.len(), 2);
    assert_eq!(grouped[0].label, ".md");
    assert_eq!(grouped[0].tokens, 7);
    assert_eq!(grouped[1].label, ".rs");
    assert_eq!(grouped[1].tokens, 15);
}

#[test]
fn every_advertised_model_resolves() {
    assert_eq!(model_table().len(), known_models().len());
}

#[test]
fn default_model_uses_o200k() {
    let enc = Encoder::resolve(None, None, false).ok().unwrap();
    assert_eq!(enc.encoding(), "o200k_base");
    assert_eq!(enc.model(), Some("gpt-5"));
    assert_eq!(enc.context_window(), Some(400_000));
}

#[test]
fn explicit_encoding_has_no_model_or_context() {
    let enc = Encoder::resolve(None, Some(EncodingArg::Cl100kBase), false)
        .ok()
        .unwrap();
    assert_eq!(enc.encoding(), "cl100k_base");
    assert_eq!(enc.model(), None);
    assert_eq!(enc.context_window(), None);
    assert_eq!(enc.label(), "cl100k_base");
}

#[test]
fn special_tokens_are_literal_by_default() {
    let plain = Encoder::resolve(None, None, false).ok().unwrap();
    let special = Encoder::resolve(None, None, true).ok().unwrap();
    assert!(plain.count("<|endoftext|>").unwrap() > special.count("<|endoftext|>").unwrap());
    assert_eq!(special.count("<|endoftext|>").unwrap(), 1);
}

fn resolve_error(model: &str) -> String {
    match Encoder::resolve(Some(model), None, false) {
        Ok(_) => panic!("{model} should not resolve"),
        Err(err) => err.message(),
    }
}

#[test]
fn unknown_model_is_an_error() {
    let msg = resolve_error("llama-3");
    assert!(msg.contains("unknown model `llama-3`"), "{msg}");
    assert!(msg.contains("tok models"), "{msg}");
}

#[test]
fn a_partial_model_name_suggests_a_real_one() {
    let msg = resolve_error("gpt-");
    assert!(msg.contains("did you mean"), "{msg}");
}

#[test]
fn dated_and_fine_tuned_names_resolve_by_prefix() {
    for model in ["gpt-4o-2024-05-13", "ft:gpt-4o:acme:tuned:1", "gpt-4-0314"] {
        assert!(
            Encoder::resolve(Some(model), None, false).is_ok(),
            "{model} should resolve"
        );
    }
}

#[test]
fn round_trips_through_decode() {
    let enc = Encoder::resolve(None, None, false).ok().unwrap();
    let text = "hello world";
    let ids = enc.encode(text).unwrap();
    assert_eq!(enc.decode(&ids).unwrap(), text.as_bytes());
}

#[test]
fn ext_matching_ignores_case_and_leading_dot() {
    let exts = vec![normalise_ext(".RS"), normalise_ext("md")];
    assert_eq!(exts, vec!["rs", "md"]);
    assert!(has_ext("src/main.rs", &exts));
    assert!(has_ext("README.MD", &exts));
    assert!(!has_ext("Cargo.toml", &exts));
    assert!(!has_ext("Makefile", &exts));
}

#[test]
fn display_path_normalises_separators() {
    assert_eq!(display_path("./src/main.rs"), "src/main.rs");
    assert_eq!(display_path(r"src\main.rs"), "src/main.rs");
}

#[test]
fn thousands_groups_digits() {
    assert_eq!(thousands(0), "0");
    assert_eq!(thousands(7), "7");
    assert_eq!(thousands(999), "999");
    assert_eq!(thousands(1_000), "1,000");
    assert_eq!(thousands(12_345), "12,345");
    assert_eq!(thousands(1_234_567), "1,234,567");
}

#[test]
fn human_bytes_scales_units() {
    assert_eq!(human_bytes(0), "0 B");
    assert_eq!(human_bytes(1023), "1023 B");
    assert_eq!(human_bytes(1024), "1.0 KiB");
    assert_eq!(human_bytes(1536), "1.5 KiB");
    assert_eq!(human_bytes(10 * 1024 * 1024), "10.0 MiB");
}

#[test]
fn file_counts_are_grouped() {
    assert_eq!(plural(1, "file"), "1 file");
    assert_eq!(plural(3_349, "file"), "3,349 files");
}

#[test]
fn csv_fields_are_quoted_only_when_needed() {
    assert_eq!(escape("src/main.rs", ','), "src/main.rs");
    assert_eq!(escape("a,b.rs", ','), "\"a,b.rs\"");
    assert_eq!(escape("a\"b.rs", ','), "\"a\"\"b.rs\"");
    assert_eq!(escape("a,b.rs", '\t'), "a,b.rs");
}
