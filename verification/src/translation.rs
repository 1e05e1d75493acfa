//! Decisions of the translation model's sampling loop: which tokens are
//! kept, when to stop, and which tokens are the translation.

use vstd::prelude::*;
use tokenizers::Tokenizer;
use crate::chat::{assistant_tag, begin_of_sentence, build_prompt, translation_request, user_tag};
use crate::tokenizer::{decode_ids, decoding, encode_ids, encoding_outcome};

verus! {

/// The token sequence of a translation being generated: the prompt tokens,
/// then the generated ones.
pub struct TranslationDecoder {
    /// Prompt and generated tokens; the model reads all of them each step.
    pub tokens: Vec<u32>,
    /// How many of `tokens` are the prompt.
    pub prompt_len: usize,
    /// The most tokens generated.
    pub max_new: usize,
    /// The end-of-sequence token id.
    pub eos: u32,
    /// Set once generation has stopped.
    pub finished: bool,
}

impl TranslationDecoder {
    /// The prompt is a prefix of the tokens, at most `max_new` tokens follow
    /// it, and fewer while generation goes on.
    pub open spec fn wf(&self) -> bool {
        &&& self.prompt_len <= self.tokens@.len()
        &&& self.tokens@.len() - self.prompt_len <= self.max_new
        &&& !self.finished ==> self.tokens@.len() - self.prompt_len < self.max_new
    }

    /// Starts generating after `prompt`, with at most `max_new` new tokens.
    pub fn new(prompt: Vec<u32>, max_new: usize, eos: u32) -> (d: Self)
        ensures
            d.wf(),
            d.tokens@ == prompt@,
            d.prompt_len == prompt@.len(),
            d.max_new == max_new,
            d.eos == eos,
            d.finished == (max_new == 0),
    {
        let prompt_len = prompt.len();
        TranslationDecoder { tokens: prompt, prompt_len, max_new, eos, finished: max_new == 0 }
    }

    /// Whether the model is to be run again on `tokens`.
    pub fn wants_more(&self) -> (r: bool)
        ensures
            r == !self.finished,
    {
        !self.finished
    }

    /// Takes the token the model chose. The end-of-sequence token stops
    /// generation and is not kept; any other token is kept, and generation
    /// stops once `max_new` tokens were kept. Returns whether to go on.
    pub fn on_token(&mut self, next: u32) -> (go_on: bool)
        requires
            old(self).wf(),
        ensures
            final(self).wf(),
            final(self).prompt_len == old(self).prompt_len,
            final(self).max_new == old(self).max_new,
            final(self).eos == old(self).eos,
            go_on == !final(self).finished,
            (old(self).finished || next == old(self).eos) ==> final(self).tokens@ == old(self).tokens@
                && final(self).finished,
            !(old(self).finished || next == old(self).eos) ==> final(self).tokens@ == old(self).tokens@.push(next)
                && final(self).finished == (final(self).tokens@.len() - old(self).prompt_len >= old(self).max_new),
    {
        if self.finished || next == self.eos {
            self.finished = true;
            return false;
        }
        self.tokens.push(next);
        if self.tokens.len() - self.prompt_len >= self.max_new {
            self.finished = true;
        }
        !self.finished
    }

    /// The generated tokens: those after the prompt.
    pub fn generated(&self) -> (g: Vec<u32>)
        requires
            self.wf(),
        ensures
            g@ == self.tokens@.subrange(self.prompt_len as int, self.tokens@.len() as int),
    {
        let mut g: Vec<u32> = Vec::new();
        let mut i = self.prompt_len;
        while i < self.tokens.len()
            invariant
                self.prompt_len <= i <= self.tokens@.len(),
                g@ == self.tokens@.subrange(self.prompt_len as int, i as int),
            decreases self.tokens@.len() - i,
        {
            proof {
                assert(self.tokens@.subrange(self.prompt_len as int, i + 1) == self.tokens@.subrange(
                    self.prompt_len as int,
                    i as int,
                ).push(self.tokens@[i as int]));
            }
            g.push(self.tokens[i]);
            i = i + 1;
        }
        g
    }

    /// The translation: the generated tokens decoded with special tokens
    /// skipped, or `None` when decoding fails.
    pub fn translation(&self, tokenizer: &Tokenizer) -> (t: Option<String>)
        requires
            self.wf(),
        ensures
            ({
                let g = self.tokens@.subrange(self.prompt_len as int, self.tokens@.len() as int);
                match t {
                    Some(x) => decoding(*tokenizer, g) == Some(x@),
                    None => decoding(*tokenizer, g) is None,
                }
            }),
    {
        let g = self.generated();
        decode_ids(tokenizer, g.as_slice())
    }
}

/// The token ids of the translation prompt asking for `source_text` in
/// `target_lang` (see `build_prompt`), special tokens not added; `None` when
/// encoding fails (see `encoding_outcome`).
pub fn translation_prompt_ids(tokenizer: &Tokenizer, target_lang: &str, source_text: &str) -> (ids: Option<Vec<u32>>)
    ensures
        encoding_outcome(
            *tokenizer,
            begin_of_sentence() + user_tag() + translation_request(target_lang@, source_text@)
                + assistant_tag(),
            match ids {
                Some(v) => Some(v@),
                None => None,
            },
        ),
{
    let prompt = build_prompt(target_lang, source_text);
    encode_ids(tokenizer, prompt.as_str())
}

} // verus!
