//! Token counting with the cl100k_base encoding.
use vstd::prelude::*;
use vstd::utf8::encode_utf8;

verus! {

/// The number of tokens the cl100k_base encoding (special tokens allowed)
/// produces for a text; a function of the text alone.
pub uninterp spec fn cl100k_token_count(text: Seq<char>) -> nat;

/// Calls `CoreBPE::encode_with_special_tokens` on the shared cl100k_base
/// tokenizer and returns the number of tokens. The empty text has no tokens:
/// the encoder finds no piece in it. A non-empty text has at least one: the
/// pieces of the encoder's split pattern cover every character. No text has
/// more tokens than bytes: every token stands for at least one byte.
#[verifier::external_body]
fn encode_len(text: &str) -> (r: usize)
    ensures
        r == cl100k_token_count(text@),
        text@.len() == 0 ==> r == 0,
        text@.len() > 0 ==> r >= 1,
        r <= encode_utf8(text@).len(),
{
    tiktoken_rs::cl100k_base_singleton().encode_with_special_tokens(text).len()
}

/// Counts tokens; the tokenizer behind it is built once and shared.
#[derive(Debug, Clone, Copy)]
pub struct TokenCounter;

impl TokenCounter {
    /// A token counter.
    pub fn new() -> (r: TokenCounter) {
        TokenCounter
    }

    /// The number of cl100k_base tokens in `text`: none exactly for the
    /// empty text, and never more than the text has bytes.
    pub fn count(&self, text: &str) -> (r: usize)
        ensures
            r == cl100k_token_count(text@),
            r == 0 <==> text@.len() == 0,
            r <= encode_utf8(text@).len(),
    {
        encode_len(text)
    }
}

impl Default for TokenCounter {
    fn default() -> (r: TokenCounter) {
        TokenCounter::new()
    }
}

} // verus!
