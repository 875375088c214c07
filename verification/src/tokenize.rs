//! Splitting a text into model tokens, with the bytes each covers.

use tokenizers::Tokenizer;
use vstd::prelude::*;

verus! {

#[verifier::external_type_specification]
#[verifier::external_body]
pub struct ExTokenizer(Tokenizer);

/// Why a text could not be tokenized.
#[derive(Debug)]
pub enum TokenizeError {
    /// The tokenizer failed; its message.
    Failed(String),
}

/// The token ids of a text, and for each token the bytes
/// `offsets[i].0 .. offsets[i].1` of the text's UTF-8 encoding that it
/// covers, as the tokenizer reports them.
#[derive(Debug)]
pub struct TokenizedText {
    pub ids: Vec<u32>,
    pub offsets: Vec<(usize, usize)>,
}

/// Whether `encoding` is an outcome of `Tokenizer::encode(text, false)`
/// with this tokenizer: `Some((ids, byte offsets))` for an encoding, `None`
/// for a failure. A relation, not a function: a tokenizer whose model draws
/// random numbers (BPE dropout) may encode one text in several ways.
pub uninterp spec fn encodes_as(
    tokenizer: Tokenizer,
    text: Seq<char>,
    encoding: Option<(Seq<u32>, Seq<(usize, usize)>)>,
) -> bool;

/// `Tokenizer::encode(text, false)` (no special tokens), with the ids and
/// the byte offsets of the resulting encoding, or the error's message. The
/// contract says only that what came back is an outcome of encoding this
/// text with this tokenizer: which ids and offsets that is depends on the
/// vocabulary and rules the tokenizer was loaded with, which this library
/// does not model.
#[verifier::external_body]
fn encode_text(tokenizer: &Tokenizer, text: &str) -> (r: Result<(Vec<u32>, Vec<(usize, usize)>), String>)
    ensures
        match r {
            Ok(p) => encodes_as(*tokenizer, text@, Some((p.0@, p.1@))),
            Err(_) => encodes_as(*tokenizer, text@, None),
        },
{
    match tokenizer.encode(text, false) {
        Ok(enc) => Ok((enc.get_ids().to_vec(), enc.get_offsets().to_vec())),
        Err(e) => Err(e.to_string()),
    }
}

/// Tokenizes `text` with `tokenizer` (no special tokens): the ids and byte
/// offsets of an outcome of encoding `text` itself, or `Failed` where
/// encoding it failed. The offsets are kept as reported; they become
/// character offsets where a redaction reads them (`redact_decoded`).
pub fn tokenize(tokenizer: &Tokenizer, text: &String) -> (r: Result<TokenizedText, TokenizeError>)
    ensures
        match r {
            Ok(t) => encodes_as(*tokenizer, text@, Some((t.ids@, t.offsets@))),
            Err(TokenizeError::Failed(_)) => encodes_as(*tokenizer, text@, None),
        },
{
    match encode_text(tokenizer, text.as_str()) {
        Ok((ids, offsets)) => Ok(TokenizedText { ids, offsets }),
        Err(msg) => Err(TokenizeError::Failed(msg)),
    }
}

} // verus!
