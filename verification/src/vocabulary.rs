//! A tiktoken vocabulary together with the encoding it was loaded for, and
//! the calls that read it.

use vstd::prelude::*;
use tiktoken_rs::CoreBPE;
use tiktoken_rs::tokenizer::Tokenizer;
use std::collections::HashSet;
use crate::encoding::{Encoding, decoded, encoded, special_names, token_bytes};

verus! {

#[verifier::external_type_specification]
#[verifier::external_body]
pub struct ExCoreBpe(tiktoken_rs::CoreBPE);

/// The vocabulary of one encoding. Only `load_bpe` makes one, so the
/// vocabulary it holds is always the one tiktoken hands out for `encoding`.
pub struct Vocabulary {
    bpe: &'static CoreBPE,
    encoding: Encoding,
}

impl Vocabulary {
    /// The encoding this vocabulary was loaded for.
    pub closed spec fn kind(&self) -> Encoding {
        self.encoding
    }

    /// The encoding this vocabulary was loaded for.
    pub fn encoding(&self) -> (res: Encoding)
        ensures
            res == self.kind(),
    {
        self.encoding
    }
}

/// Calls `tiktoken_rs::bpe_for_tokenizer`, which hands out the cached vocabulary
/// of an encoding, and keeps it with the encoding it was asked for. Trusted: it
/// succeeds (its source returns `Ok` for every tokenizer).
#[verifier::external_body]
pub(crate) fn load_bpe(e: Encoding) -> (res: Result<Vocabulary, anyhow::Error>)
    ensures
        res is Ok,
        res.unwrap().kind() == e,
{
    let bpe = tiktoken_rs::bpe_for_tokenizer(match e {
        Encoding::O200kHarmony => Tokenizer::O200kHarmony,
        Encoding::O200kBase => Tokenizer::O200kBase,
        Encoding::Cl100kBase => Tokenizer::Cl100kBase,
        Encoding::P50kBase => Tokenizer::P50kBase,
        Encoding::R50kBase => Tokenizer::R50kBase,
        Encoding::P50kEdit => Tokenizer::P50kEdit,
        Encoding::Gpt2 => Tokenizer::Gpt2,
    })?;
    Ok(Vocabulary { bpe, encoding: e })
}

/// Calls `CoreBPE::special_tokens` on the vocabulary. Trusted: the result holds
/// exactly the special token markers of the vocabulary's encoding.
#[verifier::external_body]
pub(crate) fn special_token_set(v: &Vocabulary) -> (res: HashSet<&'static str>)
    ensures
        res@.map(|s: &'static str| s@) == special_names(v.kind()),
{
    v.bpe.special_tokens()
}

/// Calls `CoreBPE::encode` on the vocabulary, keeping the tokens and the
/// message of an error. Trusted: it succeeds exactly when `encoded` has a value
/// for the vocabulary's encoding, the allowed markers and the text, and then
/// returns those tokens. (The search for special tokens it also runs uses a
/// plain alternation of literals, which cannot fail.)
#[verifier::external_body]
pub(crate) fn bpe_encode(v: &Vocabulary, text: &str, allowed: &HashSet<&'static str>) -> (res: Result<Vec<u32>, String>)
    ensures
        match res {
            Ok(ids) => encoded(v.kind(), allowed@.map(|s: &'static str| s@), text@) == Some(ids@),
            Err(_) => encoded(v.kind(), allowed@.map(|s: &'static str| s@), text@) is None,
        },
{
    v.bpe.encode(text, allowed).map(|r| r.0).map_err(|e| e.message)
}

/// Calls `CoreBPE::decode_bytes` on the vocabulary, keeping the offending token
/// of an error. Trusted: its source looks each id up in the ordinary and then
/// the special vocabulary, appends the bytes, and stops at the first id found
/// in neither, which the error carries.
#[verifier::external_body]
pub(crate) fn bpe_decode(v: &Vocabulary, ids: &[u32]) -> (res: Result<Vec<u8>, u32>)
    ensures
        match res {
            Ok(bytes) => decoded(v.kind(), ids@) == Ok::<Seq<u8>, u32>(bytes@),
            Err(t) => decoded(v.kind(), ids@) == Err::<Seq<u8>, u32>(t),
        },
        match res {
            Ok(_) => forall|k: int| 0 <= k < ids@.len() ==> #[trigger] token_bytes(v.kind(), ids@[k]) is Some,
            Err(t) => ids@.contains(t) && token_bytes(v.kind(), t) is None,
        },
{
    v.bpe.decode_bytes(ids).map_err(|e| e.token)
}

} // verus!
