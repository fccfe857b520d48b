//! Resolving a model name or an explicit encoding into a usable BPE.

use vstd::prelude::*;
use tiktoken_rs::tokenizer::Tokenizer;
use std::collections::HashSet;
use crate::vocabulary::{Vocabulary, bpe_decode, bpe_encode, load_bpe, special_token_set};
use crate::text::{chars_of, decimal, push_decimal, push_str, push_char, starts_with_chars};

verus! {

#[verifier::external_type_specification]
#[verifier::external_body]
pub struct ExAnyhowError(anyhow::Error);

/// The tiktoken encodings, one for each of tiktoken's `Tokenizer` variants.
#[derive(Copy, Clone, Debug, PartialEq, Eq, Structural)]
pub enum Encoding {
    O200kHarmony,
    O200kBase,
    Cl100kBase,
    P50kBase,
    R50kBase,
    P50kEdit,
    Gpt2,
}

/// Encodings that can be selected directly with `--encoding`.
#[derive(Copy, Clone, Debug, PartialEq, Eq, Structural)]
pub enum EncodingArg {
    O200kBase,
    Cl100kBase,
    P50kBase,
    P50kEdit,
    R50kBase,
    O200kHarmony,
    Gpt2,
}

pub open spec fn arg_encoding(arg: EncodingArg) -> Encoding {
    match arg {
        EncodingArg::O200kBase => Encoding::O200kBase,
        EncodingArg::Cl100kBase => Encoding::Cl100kBase,
        EncodingArg::P50kBase => Encoding::P50kBase,
        EncodingArg::P50kEdit => Encoding::P50kEdit,
        EncodingArg::R50kBase => Encoding::R50kBase,
        EncodingArg::O200kHarmony => Encoding::O200kHarmony,
        EncodingArg::Gpt2 => Encoding::Gpt2,
    }
}

/// The value that selects an encoding on the command line
/// (`--encoding p50k_base`).
pub open spec fn arg_value_name(arg: EncodingArg) -> Seq<char> {
    match arg {
        EncodingArg::O200kBase => "o200k_base"@,
        EncodingArg::Cl100kBase => "cl100k_base"@,
        EncodingArg::P50kBase => "p50k_base"@,
        EncodingArg::P50kEdit => "p50k_edit"@,
        EncodingArg::R50kBase => "r50k_base"@,
        EncodingArg::O200kHarmony => "o200k_harmony"@,
        EncodingArg::Gpt2 => "gpt2"@,
    }
}

/// `--encoding NAME` selects the encoding called NAME: the encoder it
/// resolves to reports that name and labels itself with it, and different
/// values select different encodings.
pub proof fn lemma_encoding_arg_selects_its_name(arg: EncodingArg, other: EncodingArg, special: bool)
    ensures
        encoding_name_spec(arg_encoding(arg)) == arg_value_name(arg),
        label_spec(
            EncoderView {
                model: None,
                encoding: arg_encoding(arg),
                context_window: None,
                special,
            },
        ) == arg_value_name(arg),
        arg_encoding(arg) == arg_encoding(other) ==> arg == other,
{
}

impl EncodingArg {
    /// The encoding this `--encoding` value selects.
    pub fn encoding(self) -> (res: Encoding)
        ensures
            res == arg_encoding(self),
    {
        match self {
            EncodingArg::O200kBase => Encoding::O200kBase,
            EncodingArg::Cl100kBase => Encoding::Cl100kBase,
            EncodingArg::P50kBase => Encoding::P50kBase,
            EncodingArg::P50kEdit => Encoding::P50kEdit,
            EncodingArg::R50kBase => Encoding::R50kBase,
            EncodingArg::O200kHarmony => Encoding::O200kHarmony,
            EncodingArg::Gpt2 => Encoding::Gpt2,
        }
    }
}

/// Canonical tiktoken name of an encoding, as used by OpenAI's Python library.
pub open spec fn encoding_name_spec(e: Encoding) -> Seq<char> {
    match e {
        Encoding::O200kHarmony => "o200k_harmony"@,
        Encoding::O200kBase => "o200k_base"@,
        Encoding::Cl100kBase => "cl100k_base"@,
        Encoding::P50kBase => "p50k_base"@,
        Encoding::R50kBase => "r50k_base"@,
        Encoding::P50kEdit => "p50k_edit"@,
        Encoding::Gpt2 => "gpt2"@,
    }
}

/// Canonical tiktoken name of an encoding, as used by OpenAI's Python library.
pub fn encoding_name(e: Encoding) -> (res: &'static str)
    ensures
        res@ == encoding_name_spec(e),
{
    match e {
        Encoding::O200kHarmony => "o200k_harmony",
        Encoding::O200kBase => "o200k_base",
        Encoding::Cl100kBase => "cl100k_base",
        Encoding::P50kBase => "p50k_base",
        Encoding::R50kBase => "r50k_base",
        Encoding::P50kEdit => "p50k_edit",
        Encoding::Gpt2 => "gpt2",
    }
}

/// The encoding tiktoken's `get_tokenizer` picks for a model name.
pub uninterp spec fn model_encoding(model: Seq<char>) -> Option<Encoding>;

/// The context window tiktoken's `get_context_size` reports for a model name.
pub uninterp spec fn model_context_size(model: Seq<char>) -> Option<usize>;

/// The tokens tiktoken's `CoreBPE::encode` gives for a text when the special
/// token markers named in `allowed` become their own tokens (and all other
/// text, markers included, goes through the byte pair encoding); `None` when
/// it reports an error (its regex engine gives up, as on a run of about a
/// million spaces).
pub uninterp spec fn encoded(encoding: Encoding, allowed: Set<Seq<char>>, text: Seq<char>) -> Option<Seq<u32>>;

/// The special token markers (such as `<|endoftext|>`) of an encoding's vocabulary.
pub uninterp spec fn special_names(encoding: Encoding) -> Set<Seq<char>>;

/// The bytes one token stands for in an encoding's vocabulary (ordinary or
/// special), or `None` when the vocabulary lacks the id.
pub uninterp spec fn token_bytes(encoding: Encoding, id: u32) -> Option<Seq<u8>>;

/// What decoding some ids gives: the bytes of each token in turn, or the first
/// id that has none.
pub open spec fn decoded(encoding: Encoding, ids: Seq<u32>) -> Result<Seq<u8>, u32>
    decreases ids.len(),
{
    if ids.len() == 0 {
        Ok(Seq::empty())
    } else {
        match token_bytes(encoding, ids[0]) {
            None => Err(ids[0]),
            Some(b) => match decoded(encoding, ids.drop_first()) {
                Ok(rest) => Ok(b + rest),
                Err(t) => Err(t),
            },
        }
    }
}

/// Calls `tiktoken_rs::tokenizer::get_tokenizer`: the encoding used by a model
/// name, found by exact name, then by name prefix, after stripping `ft:`.
/// Trusted: the result is the encoding `model_encoding` names for that text.
#[verifier::external_body]
fn lookup_model(model: &str) -> (res: Option<Encoding>)
    ensures
        res == model_encoding(model@),
{
    tiktoken_rs::tokenizer::get_tokenizer(model).map(|t| match t {
        Tokenizer::O200kHarmony => Encoding::O200kHarmony,
        Tokenizer::O200kBase => Encoding::O200kBase,
        Tokenizer::Cl100kBase => Encoding::Cl100kBase,
        Tokenizer::P50kBase => Encoding::P50kBase,
        Tokenizer::R50kBase => Encoding::R50kBase,
        Tokenizer::P50kEdit => Encoding::P50kEdit,
        Tokenizer::Gpt2 => Encoding::Gpt2,
    })
}

/// Calls `tiktoken_rs::model::get_context_size`, a fixed table of name prefixes.
/// Trusted: the result is the window `model_context_size` names for that text.
#[verifier::external_body]
fn lookup_context_size(model: &str) -> (res: Option<usize>)
    ensures
        res == model_context_size(model@),
{
    tiktoken_rs::model::get_context_size(model)
}

/// Model assumed when the user names neither a model nor an encoding.
pub open spec fn default_model() -> Seq<char> {
    "gpt-5"@
}

/// What an encoder is: its model (if chosen by model), encoding, context
/// window and whether special tokens are parsed.
pub struct EncoderView {
    pub model: Option<Seq<char>>,
    pub encoding: Encoding,
    pub context_window: Option<usize>,
    pub special: bool,
}

/// A resolved tokenizer plus the metadata reported alongside counts. Its
/// encoding is the one its vocabulary was loaded for.
pub struct Encoder {
    /// `None` when the user selected an encoding directly.
    model: Option<String>,
    vocab: Vocabulary,
    context_window: Option<usize>,
    special: bool,
}

impl View for Encoder {
    type V = EncoderView;

    closed spec fn view(&self) -> EncoderView {
        EncoderView {
            model: match self.model {
                Some(m) => Some(m@),
                None => None,
            },
            encoding: self.vocab.kind(),
            context_window: self.context_window,
            special: self.special,
        }
    }
}

/// Why resolving an encoder failed.
#[derive(Debug)]
pub enum ResolveError {
    /// The model name is not one tiktoken knows; holds the full message.
    UnknownModel(String),
}

impl ResolveError {
    /// The message shown to the user.
    pub fn message(&self) -> (res: String)
        ensures
            match self {
                ResolveError::UnknownModel(m) => res@ == m@,
            },
    {
        match self {
            ResolveError::UnknownModel(m) => m.clone(),
        }
    }
}

/// A token id that the vocabulary does not know.
#[derive(Debug, PartialEq, Eq, Structural)]
pub struct DecodeError {
    pub token: u32,
}

/// The message for a token id that cannot be decoded.
pub open spec fn invalid_token_message(token: u32) -> Seq<char> {
    "Invalid token for decoding: "@ + decimal(token as nat)
}

impl DecodeError {
    /// The message shown to the user.
    pub fn message(&self) -> (res: String)
        ensures
            res@ == invalid_token_message(self.token),
    {
        let mut out = String::from_str("Invalid token for decoding: ");
        push_decimal(&mut out, self.token as u64);
        out
    }
}

/// The special token markers an encoder parses: all of its vocabulary's with
/// `--special`, none otherwise.
pub open spec fn allowed_names(e: EncoderView) -> Set<Seq<char>> {
    if e.special {
        special_names(e.encoding)
    } else {
        Set::empty()
    }
}

/// The tokens an encoder produces for a text, or `None` when tiktoken fails.
pub open spec fn tokens_of(e: EncoderView, text: Seq<char>) -> Option<Seq<u32>> {
    encoded(e.encoding, allowed_names(e), text)
}

/// Encoding a text failed inside tiktoken.
#[derive(Debug)]
pub struct EncodeError {
    /// tiktoken's description of the failure.
    pub message: String,
}

/// Models shown by `tok models`. Any name tiktoken understands is accepted,
/// this is just the curated list worth advertising.
pub open spec fn known_models_spec() -> Seq<Seq<char>> {
    seq![
        "gpt-5.4"@,
        "gpt-5.4-mini"@,
        "gpt-5.3-codex"@,
        "gpt-5.2"@,
        "gpt-5.1-codex"@,
        "gpt-5"@,
        "gpt-5-mini"@,
        "gpt-5-nano"@,
        "codex-mini"@,
        "gpt-4.1"@,
        "gpt-4.1-mini"@,
        "gpt-4o"@,
        "gpt-4o-mini"@,
        "gpt-4-turbo"@,
        "gpt-4"@,
        "gpt-4-32k"@,
        "gpt-3.5-turbo"@,
        "o1"@,
        "o3"@,
        "o4-mini"@,
        "gpt-oss-120b"@,
        "gpt-oss-20b"@,
        "text-embedding-3-large"@,
        "text-embedding-3-small"@,
        "text-embedding-ada-002"@,
        "gpt2"@,
    ]
}

/// `tok models` advertises these 26 models: the GPT-5 family, codex-mini,
/// GPT-4.1, GPT-4o and their minis, GPT-4 (turbo, 32k), GPT-3.5 turbo, the
/// o-series, gpt-oss, the embedding models and gpt2.
pub proof fn lemma_advertised_models()
    ensures
        known_models_spec().len() == 26,
        known_models_spec().contains("gpt-5.4"@),
        known_models_spec().contains("gpt-5.4-mini"@),
        known_models_spec().contains("gpt-5.3-codex"@),
        known_models_spec().contains("gpt-5.2"@),
        known_models_spec().contains("gpt-5.1-codex"@),
        known_models_spec().contains("gpt-5"@),
        known_models_spec().contains("gpt-5-mini"@),
        known_models_spec().contains("gpt-5-nano"@),
        known_models_spec().contains("codex-mini"@),
        known_models_spec().contains("gpt-4.1"@),
        known_models_spec().contains("gpt-4.1-mini"@),
        known_models_spec().contains("gpt-4o"@),
        known_models_spec().contains("gpt-4o-mini"@),
        known_models_spec().contains("gpt-4-turbo"@),
        known_models_spec().contains("gpt-4"@),
        known_models_spec().contains("gpt-4-32k"@),
        known_models_spec().contains("gpt-3.5-turbo"@),
        known_models_spec().contains("o1"@),
        known_models_spec().contains("o3"@),
        known_models_spec().contains("o4-mini"@),
        known_models_spec().contains("gpt-oss-120b"@),
        known_models_spec().contains("gpt-oss-20b"@),
        known_models_spec().contains("text-embedding-3-large"@),
        known_models_spec().contains("text-embedding-3-small"@),
        known_models_spec().contains("text-embedding-ada-002"@),
        known_models_spec().contains("gpt2"@),
{
    assert(known_models_spec()[0] == "gpt-5.4"@);
    assert(known_models_spec()[1] == "gpt-5.4-mini"@);
    assert(known_models_spec()[2] == "gpt-5.3-codex"@);
    assert(known_models_spec()[3] == "gpt-5.2"@);
    assert(known_models_spec()[4] == "gpt-5.1-codex"@);
    assert(known_models_spec()[5] == "gpt-5"@);
    assert(known_models_spec()[6] == "gpt-5-mini"@);
    assert(known_models_spec()[7] == "gpt-5-nano"@);
    assert(known_models_spec()[8] == "codex-mini"@);
    assert(known_models_spec()[9] == "gpt-4.1"@);
    assert(known_models_spec()[10] == "gpt-4.1-mini"@);
    assert(known_models_spec()[11] == "gpt-4o"@);
    assert(known_models_spec()[12] == "gpt-4o-mini"@);
    assert(known_models_spec()[13] == "gpt-4-turbo"@);
    assert(known_models_spec()[14] == "gpt-4"@);
    assert(known_models_spec()[15] == "gpt-4-32k"@);
    assert(known_models_spec()[16] == "gpt-3.5-turbo"@);
    assert(known_models_spec()[17] == "o1"@);
    assert(known_models_spec()[18] == "o3"@);
    assert(known_models_spec()[19] == "o4-mini"@);
    assert(known_models_spec()[20] == "gpt-oss-120b"@);
    assert(known_models_spec()[21] == "gpt-oss-20b"@);
    assert(known_models_spec()[22] == "text-embedding-3-large"@);
    assert(known_models_spec()[23] == "text-embedding-3-small"@);
    assert(known_models_spec()[24] == "text-embedding-ada-002"@);
    assert(known_models_spec()[25] == "gpt2"@);
}

/// The curated model list, in display order.
pub fn known_models() -> (res: Vec<&'static str>)
    ensures
        res@.map_values(|s: &'static str| s@) == known_models_spec(),
{
    let v: Vec<&'static str> = vec![
        "gpt-5.4",
        "gpt-5.4-mini",
        "gpt-5.3-codex",
        "gpt-5.2",
        "gpt-5.1-codex",
        "gpt-5",
        "gpt-5-mini",
        "gpt-5-nano",
        "codex-mini",
        "gpt-4.1",
        "gpt-4.1-mini",
        "gpt-4o",
        "gpt-4o-mini",
        "gpt-4-turbo",
        "gpt-4",
        "gpt-4-32k",
        "gpt-3.5-turbo",
        "o1",
        "o3",
        "o4-mini",
        "gpt-oss-120b",
        "gpt-oss-20b",
        "text-embedding-3-large",
        "text-embedding-3-small",
        "text-embedding-ada-002",
        "gpt2",
    ];
    assert(v@.map_values(|s: &'static str| s@) =~= known_models_spec());
    v
}

/// A known model and a model name are related when either is a prefix of the other.
pub open spec fn related(known: Seq<char>, model: Seq<char>) -> bool {
    model.is_prefix_of(known) || known.is_prefix_of(model)
}

/// The first of `ks` related to `model`.
pub open spec fn first_related(ks: Seq<Seq<char>>, model: Seq<char>) -> Option<Seq<char>>
    decreases ks.len(),
{
    if ks.len() == 0 {
        None
    } else if related(ks[0], model) {
        Some(ks[0])
    } else {
        first_related(ks.drop_first(), model)
    }
}

/// The message for a model tiktoken does not know, with a suggestion when a
/// known model name and the given one are prefixes of each other.
pub open spec fn unknown_model_message(model: Seq<char>) -> Seq<char> {
    let hint = match first_related(known_models_spec(), model) {
        Some(k) => "\n  did you mean `"@ + k + "`?"@,
        None => Seq::empty(),
    };
    "unknown model `"@ + model + "`"@ + hint
        + "\n  run `tok models` for the built-in list, or pass --encoding to pick an encoding directly"@
}

/// The first known model related to `model`, if any.
fn suggestion(model: &str) -> (res: Option<&'static str>)
    ensures
        match res {
            Some(k) => first_related(known_models_spec(), model@) == Some(k@),
            None => first_related(known_models_spec(), model@) is None,
        },
{
    let known = known_models();
    let ghost ks = known@.map_values(|s: &'static str| s@);
    let m = chars_of(model);
    let mut i: usize = 0;
    assert(ks.skip(0) =~= ks);
    while i < known.len()
        invariant
            i <= known@.len(),
            ks == known@.map_values(|s: &'static str| s@),
            ks == known_models_spec(),
            m@ == model@,
            first_related(ks, model@) == first_related(ks.skip(i as int), model@),
        decreases known@.len() - i,
    {
        let k = chars_of(known[i]);
        assert(ks.skip(i as int)[0] == known[i as int]@);
        assert(ks.skip(i as int).drop_first() =~= ks.skip(i + 1));
        if starts_with_chars(&k, &m) || starts_with_chars(&m, &k) {
            return Some(known[i]);
        }
        i = i + 1;
    }
    assert(ks.skip(known@.len() as int).len() == 0);
    None
}

/// The error text for an unknown model.
pub fn unknown_model(model: &str) -> (res: String)
    ensures
        res@ == unknown_model_message(model@),
{
    let hint = suggestion(model);
    let mut out = String::new();
    push_str(&mut out, "unknown model `");
    push_str(&mut out, model);
    push_str(&mut out, "`");
    match hint {
        Some(k) => {
            push_str(&mut out, "\n  did you mean `");
            push_str(&mut out, k);
            push_str(&mut out, "`?");
        },
        None => {},
    }
    push_str(
        &mut out,
        "\n  run `tok models` for the built-in list, or pass --encoding to pick an encoding directly",
    );
    assert(out@ =~= unknown_model_message(model@));
    out
}

impl Encoder {
    /// Resolve from the mutually exclusive `--model` / `--encoding` pair: an
    /// explicit encoding wins; otherwise the model (default `gpt-5`) must be
    /// one tiktoken knows.
    pub fn resolve(model: Option<&str>, encoding: Option<EncodingArg>, special: bool) -> (res:
        Result<Encoder, ResolveError>)
        ensures
            match encoding {
                Some(arg) => res matches Ok(enc) && enc@ == (EncoderView {
                    model: None,
                    encoding: arg_encoding(arg),
                    context_window: None,
                    special,
                }),
                None => {
                    let name = match model {
                        Some(m) => m@,
                        None => default_model(),
                    };
                    match model_encoding(name) {
                        Some(e) => res matches Ok(enc) && enc@ == (EncoderView {
                            model: Some(name),
                            encoding: e,
                            context_window: model_context_size(name),
                            special,
                        }),
                        None => res matches Err(ResolveError::UnknownModel(msg)) && msg@
                            == unknown_model_message(name),
                    }
                },
            },
    {
        if let Some(arg) = encoding {
            let e = arg.encoding();
            let vocab = load_bpe(e).unwrap();
            return Ok(Encoder { model: None, vocab, context_window: None, special });
        }
        let name: &str = match model {
            Some(m) => m,
            None => "gpt-5",
        };
        match lookup_model(name) {
            None => Err(ResolveError::UnknownModel(unknown_model(name))),
            Some(e) => {
                let vocab = load_bpe(e).unwrap();
                let context_window = lookup_context_size(name);
                Ok(Encoder { model: Some(String::from_str(name)), vocab, context_window, special })
            },
        }
    }

    /// The tokens of `text`: special token markers are parsed only when the
    /// encoder was resolved with `special`.
    pub fn encode(&self, text: &str) -> (res: Result<Vec<u32>, EncodeError>)
        ensures
            match res {
                Ok(ids) => tokens_of(self@, text@) == Some(ids@),
                Err(_) => tokens_of(self@, text@) is None,
            },
    {
        let allowed: HashSet<&'static str> = if self.special {
            special_token_set(&self.vocab)
        } else {
            HashSet::new()
        };
        assert(allowed@.map(|s: &'static str| s@) =~= allowed_names(self@));
        match bpe_encode(&self.vocab, text, &allowed) {
            Ok(ids) => Ok(ids),
            Err(message) => Err(EncodeError { message }),
        }
    }

    /// Number of tokens in `text`.
    pub fn count(&self, text: &str) -> (res: Result<usize, EncodeError>)
        ensures
            match tokens_of(self@, text@) {
                Some(t) => res matches Ok(n) && n == t.len(),
                None => res is Err,
            },
    {
        match self.encode(text) {
            Ok(ids) => Ok(ids.len()),
            Err(e) => Err(e),
        }
    }

    /// Bytes of the given tokens, or the first token the vocabulary lacks.
    pub fn decode(&self, ids: &[u32]) -> (res: Result<Vec<u8>, DecodeError>)
        ensures
            match decoded(self@.encoding, ids@) {
                Ok(bytes) => res matches Ok(b) && b@ == bytes,
                Err(t) => res == Err::<Vec<u8>, DecodeError>(DecodeError { token: t }),
            },
    {
        match bpe_decode(&self.vocab, ids) {
            Ok(bytes) => Ok(bytes),
            Err(token) => Err(DecodeError { token }),
        }
    }

    /// The model the encoder was resolved from, if any.
    pub fn model(&self) -> (res: Option<&str>)
        ensures
            match res {
                Some(m) => self@.model == Some(m@),
                None => self@.model is None,
            },
    {
        match &self.model {
            Some(m) => Some(m.as_str()),
            None => None,
        }
    }

    /// The canonical name of the encoding.
    pub fn encoding(&self) -> (res: &'static str)
        ensures
            res@ == encoding_name_spec(self@.encoding),
    {
        encoding_name(self.vocab.encoding())
    }

    /// The model's context window, when known.
    pub fn context_window(&self) -> (res: Option<usize>)
        ensures
            res == self@.context_window,
    {
        self.context_window
    }

    /// `gpt-4o (o200k_base)`, or just `o200k_base` for a direct encoding.
    pub fn label(&self) -> (res: String)
        ensures
            res@ == label_spec(self@),
    {
        let name = self.encoding();
        match &self.model {
            Some(m) => {
                let mut out = m.clone();
                push_str(&mut out, " (");
                push_str(&mut out, name);
                push_char(&mut out, ')');
                out
            },
            None => String::from_str(name),
        }
    }
}

pub open spec fn label_spec(e: EncoderView) -> Seq<char> {
    match e.model {
        Some(m) => m + " ("@ + encoding_name_spec(e.encoding) + seq![')'],
        None => encoding_name_spec(e.encoding),
    }
}

/// Same encoding and the same treatment of special tokens give the same tokens,
/// whether the encoding was chosen by model or directly.
pub proof fn lemma_same_encoding_same_tokens(a: EncoderView, b: EncoderView, text: Seq<char>)
    requires
        a.encoding == b.encoding,
        a.special == b.special,
    ensures
        tokens_of(a, text) == tokens_of(b, text),
{
}

/// One row of `tok models`.
pub struct ModelInfo {
    pub name: &'static str,
    pub encoding: &'static str,
    pub context_window: Option<usize>,
}

/// The row for a known model, when tiktoken can resolve it.
pub open spec fn model_row(name: Seq<char>) -> Option<(Seq<char>, Seq<char>, Option<usize>)> {
    match model_encoding(name) {
        Some(e) => Some((name, encoding_name_spec(e), model_context_size(name))),
        None => None,
    }
}

pub open spec fn model_info_view(m: ModelInfo) -> (Seq<char>, Seq<char>, Option<usize>) {
    (m.name@, m.encoding@, m.context_window)
}

/// Every row of `tok models` is what resolving its model name gives: the name
/// is a known model, the encoding column names the encoding `Encoder::resolve`
/// picks for it, and the context column is the window `resolve` reports.
pub proof fn lemma_model_rows_match_resolve(row: (Seq<char>, Seq<char>, Option<usize>))
    requires
        known_models_spec().filter_map(|name: Seq<char>| model_row(name)).contains(row),
    ensures
        known_models_spec().contains(row.0),
        exists|e: Encoding| model_encoding(row.0) == Some(e) && encoding_name_spec(e) == row.1,
        row.2 == model_context_size(row.0),
{
    let f = |name: Seq<char>| model_row(name);
    known_models_spec().lemma_filter_map_contains(f, row);
    let t = choose|t: Seq<char>| #[trigger] known_models_spec().contains(t) && f(t) == Some(row);
    assert(t == row.0);
    let e = model_encoding(t).unwrap();
    assert(model_encoding(row.0) == Some(e) && encoding_name_spec(e) == row.1);
}

/// The rows of `tok models`: every known model that tiktoken resolves, in order.
pub fn model_table() -> (res: Vec<ModelInfo>)
    ensures
        res@.map_values(|m: ModelInfo| model_info_view(m)) == known_models_spec().filter_map(
            |name: Seq<char>| model_row(name),
        ),
{
    let known = known_models();
    let ghost ks = known@.map_values(|s: &'static str| s@);
    let mut rows: Vec<ModelInfo> = Vec::new();
    let mut i: usize = 0;
    while i < known.len()
        invariant
            i <= known@.len(),
            ks == known@.map_values(|s: &'static str| s@),
            ks == known_models_spec(),
            rows@.map_values(|m: ModelInfo| model_info_view(m)) == ks.take(i as int).filter_map(
                |name: Seq<char>| model_row(name),
            ),
        decreases known@.len() - i,
    {
        let name = known[i];
        let ghost before = ks.take(i as int).filter_map(|name: Seq<char>| model_row(name));
        proof {
            ks.lemma_filter_map_take_succ(|name: Seq<char>| model_row(name), i as int);
        }
        assert(ks[i as int] == name@);
        match lookup_model(name) {
            Some(e) => {
                let row = ModelInfo {
                    name,
                    encoding: encoding_name(e),
                    context_window: lookup_context_size(name),
                };
                rows.push(row);
                assert(rows@.map_values(|m: ModelInfo| model_info_view(m)) =~= before.push(
                    model_info_view(row),
                ));
            },
            None => {},
        }
        i = i + 1;
    }
    assert(ks.take(known@.len() as int) =~= ks);
    rows
}

} // verus!
