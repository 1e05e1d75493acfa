//! The Qwen2 tokenizer: the HuggingFace tokenizer with the special tokens
//! the speech models need, and the token-level prompt pieces built with it.

use vstd::prelude::*;
use tokenizers::Tokenizer;
use crate::transcript::{strip_language_tag, without_language_tag, fix_repetitions, fixed_repetitions};
use crate::text::{trim, trimmed};

verus! {

/// The tokenizer of the `tokenizers` crate, opaque here.
#[verifier::external_type_specification]
#[verifier::external_body]
pub struct ExTokenizer(Tokenizer);

/// The id that `tokenizer` gives `token` among its added tokens and its
/// model's vocabulary, if any: a lookup in the tokenizer's own tables.
pub uninterp spec fn token_id_of(tokenizer: Tokenizer, token: Seq<char>) -> Option<u32>;

/// Calls `Tokenizer::token_to_id`; its result is named `token_id_of`.
#[verifier::external_body]
fn token_to_id(tokenizer: &Tokenizer, token: &str) -> (id: Option<u32>)
    ensures
        id == token_id_of(*tokenizer, token@),
{
    tokenizer.token_to_id(token)
}

/// What `Tokenizer::decode` gives `ids` with special tokens skipped: the
/// text (the tokens of the ids joined by the tokenizer's decoder), or `None`
/// when decoding fails. It depends on the tokenizer and the ids alone.
pub uninterp spec fn decoding(tokenizer: Tokenizer, ids: Seq<u32>) -> Option<Seq<char>>;

/// Calls `Tokenizer::decode` with special tokens skipped; its result is
/// named `decoding`.
#[verifier::external_body]
pub(crate) fn decode_ids(tokenizer: &Tokenizer, ids: &[u32]) -> (text: Option<String>)
    ensures
        match text {
            Some(t) => decoding(*tokenizer, ids@) == Some(t@),
            None => decoding(*tokenizer, ids@) is None,
        },
{
    tokenizer.decode(ids, true).ok()
}

/// Whether `outcome` is a possible result of `Tokenizer::encode` (special
/// tokens not added) on `text`: the ids of an encoding, or `None` for a
/// failure. A relation, not a function: a BPE model with dropout draws
/// random numbers while encoding, so two calls on one text may differ.
pub uninterp spec fn encoding_outcome(tokenizer: Tokenizer, text: Seq<char>, outcome: Option<Seq<u32>>) -> bool;

/// Calls `Tokenizer::encode` without special tokens and returns the ids of
/// the encoding, or `None` when encoding fails; the outcome is one that
/// `encoding_outcome` admits for `text`.
#[verifier::external_body]
pub(crate) fn encode_ids(tokenizer: &Tokenizer, text: &str) -> (ids: Option<Vec<u32>>)
    ensures
        encoding_outcome(
            *tokenizer,
            text@,
            match ids {
                Some(v) => Some(v@),
                None => None,
            },
        ),
{
    match tokenizer.encode(text, false) {
        Ok(encoding) => Some(encoding.get_ids().to_vec()),
        Err(_) => None,
    }
}

/// `ids` is what encoding `text` can give with failures mapped to no ids:
/// the ids of an encoding, or no ids after a failure.
pub open spec fn encoded_as(tokenizer: Tokenizer, text: Seq<char>, ids: Seq<u32>) -> bool {
    encoding_outcome(tokenizer, text, Some(ids)) || (ids.len() == 0 && encoding_outcome(
        tokenizer,
        text,
        None,
    ))
}

/// The decoded text of `ids`, empty when decoding fails.
pub open spec fn decoded_text(tokenizer: Tokenizer, ids: Seq<u32>) -> Seq<char> {
    match decoding(tokenizer, ids) {
        Some(t) => t,
        None => Seq::empty(),
    }
}

/// A required special token that the tokenizer does not have.
#[derive(Debug)]
pub struct MissingSpecialToken {
    pub token: String,
}

/// The tokenizer with the ids of the special tokens used in prompts.
pub struct Qwen2Tokenizer {
    pub tokenizer: Tokenizer,
    pub audio_pad: u32,
    pub im_start: u32,
    pub im_end: u32,
    /// `<timestamp>` exists only in the forced aligner's tokenizer.
    pub timestamp_id: Option<u32>,
}

/// Token id that separates the language tag from the transcription.
pub const ASR_TEXT_SEP_ID: u32 = 151704;

impl Qwen2Tokenizer {
    /// Builds the tokenizer from the looked-up ids of `<|audio_pad|>`,
    /// `<|im_start|>`, `<|im_end|>` and `<timestamp>`. The first three are
    /// required, checked in that order; `<timestamp>` is optional.
    pub fn from_token_ids(
        tokenizer: Tokenizer,
        audio_pad: Option<u32>,
        im_start: Option<u32>,
        im_end: Option<u32>,
        timestamp_id: Option<u32>,
    ) -> (r: Result<Qwen2Tokenizer, MissingSpecialToken>)
        ensures
            r is Ok <==> (audio_pad is Some && im_start is Some && im_end is Some),
            r matches Ok(t) ==> t.tokenizer == tokenizer && Some(t.audio_pad) == audio_pad && Some(
                t.im_start,
            ) == im_start && Some(t.im_end) == im_end && t.timestamp_id == timestamp_id,
            r matches Err(e) ==> e.token@ == (if audio_pad is None {
                "<|audio_pad|>"@
            } else if im_start is None {
                "<|im_start|>"@
            } else {
                "<|im_end|>"@
            }),
    {
        let audio_pad = match audio_pad {
            Some(id) => id,
            None => {
                return Err(MissingSpecialToken { token: String::from_str("<|audio_pad|>") });
            },
        };
        let im_start = match im_start {
            Some(id) => id,
            None => {
                return Err(MissingSpecialToken { token: String::from_str("<|im_start|>") });
            },
        };
        let im_end = match im_end {
            Some(id) => id,
            None => {
                return Err(MissingSpecialToken { token: String::from_str("<|im_end|>") });
            },
        };
        Ok(Qwen2Tokenizer { tokenizer, audio_pad, im_start, im_end, timestamp_id })
    }

    /// Looks up the special tokens in `tokenizer` and builds the tokenizer
    /// (see `from_token_ids`); fails, naming the first missing one, when
    /// `<|audio_pad|>`, `<|im_start|>` or `<|im_end|>` is missing.
    pub fn from_tokenizer(tokenizer: Tokenizer) -> (r: Result<Qwen2Tokenizer, MissingSpecialToken>)
        ensures
            ({
                let pad = token_id_of(tokenizer, "<|audio_pad|>"@);
                let start = token_id_of(tokenizer, "<|im_start|>"@);
                let end = token_id_of(tokenizer, "<|im_end|>"@);
                &&& r is Ok <==> (pad is Some && start is Some && end is Some)
                &&& r matches Ok(t) ==> t.tokenizer == tokenizer && Some(t.audio_pad) == pad && Some(
                    t.im_start,
                ) == start && Some(t.im_end) == end && t.timestamp_id == token_id_of(
                    tokenizer,
                    "<timestamp>"@,
                )
                &&& r matches Err(e) ==> e.token@ == (if pad is None {
                    "<|audio_pad|>"@
                } else if start is None {
                    "<|im_start|>"@
                } else {
                    "<|im_end|>"@
                })
            }),
    {
        let audio_pad = token_to_id(&tokenizer, "<|audio_pad|>");
        let im_start = token_to_id(&tokenizer, "<|im_start|>");
        let im_end = token_to_id(&tokenizer, "<|im_end|>");
        let timestamp_id = token_to_id(&tokenizer, "<timestamp>");
        Qwen2Tokenizer::from_token_ids(tokenizer, audio_pad, im_start, im_end, timestamp_id)
    }

    /// The token ids of `text` (special tokens not added), or no ids when
    /// encoding fails (see `encoded_as`).
    pub fn encode(&self, text: &str) -> (ids: Vec<u32>)
        ensures
            encoded_as(self.tokenizer, text@, ids@),
    {
        match encode_ids(&self.tokenizer, text) {
            Some(ids) => ids,
            None => Vec::new(),
        }
    }

    /// The text of `ids` with special tokens skipped, empty when decoding
    /// fails (see `decoded_text`).
    pub fn decode(&self, ids: &[u32]) -> (text: String)
        ensures
            text@ == decoded_text(self.tokenizer, ids@),
    {
        match decode_ids(&self.tokenizer, ids) {
            Some(text) => text,
            None => String::new(),
        }
    }
}

fn append_ids(dst: &mut Vec<u32>, src: Vec<u32>)
    ensures
        final(dst)@ == old(dst)@ + src@,
{
    let mut i: usize = 0;
    let ghost start = dst@;
    while i < src.len()
        invariant
            0 <= i <= src.len(),
            dst@ == start + src@.take(i as int),
        decreases src.len() - i,
    {
        proof {
            assert(src@.take(i + 1) == src@.take(i as int).push(src@[i as int]));
        }
        dst.push(src[i]);
        i = i + 1;
    }
    proof {
        assert(src@.take(src.len() as int) == src@);
    }
}

/// The prompt before the audio, from the tokens of its text pieces.
pub open spec fn prefix_of(
    tok: Qwen2Tokenizer,
    audio_start: u32,
    system: Seq<u32>,
    ctx: Seq<u32>,
    newline: Seq<u32>,
    user: Seq<u32>,
) -> Seq<u32> {
    seq![tok.im_start] + system + ctx + seq![tok.im_end] + newline + seq![tok.im_start] + user + seq![
        audio_start,
    ]
}

/// The prompt after the audio, from the tokens of its text pieces and of
/// the forced language (empty when none is forced).
pub open spec fn suffix_of(tok: Qwen2Tokenizer, audio_end: u32, newline: Seq<u32>, assistant: Seq<u32>, forced: Seq<u32>) -> Seq<u32> {
    seq![audio_end, tok.im_end] + newline + seq![tok.im_start] + assistant + forced
}

/// The prompt before the audio from the token ids of its text pieces.
pub fn prefix_ids_from_pieces(
    tok: &Qwen2Tokenizer,
    audio_start: u32,
    system: Vec<u32>,
    ctx: Vec<u32>,
    newline: Vec<u32>,
    user: Vec<u32>,
) -> (ids: Vec<u32>)
    ensures
        ids@ == prefix_of(*tok, audio_start, system@, ctx@, newline@, user@),
{
    let mut ids: Vec<u32> = Vec::new();
    ids.push(tok.im_start);
    append_ids(&mut ids, system);
    append_ids(&mut ids, ctx);
    ids.push(tok.im_end);
    append_ids(&mut ids, newline);
    ids.push(tok.im_start);
    append_ids(&mut ids, user);
    ids.push(audio_start);
    ids
}

/// The prompt after the audio from the token ids of its text pieces.
pub fn suffix_ids_from_pieces(tok: &Qwen2Tokenizer, audio_end: u32, newline: Vec<u32>, assistant: Vec<u32>) -> (ids:
    Vec<u32>)
    ensures
        ids@ == suffix_of(*tok, audio_end, newline@, assistant@, Seq::empty()),
{
    let mut ids: Vec<u32> = Vec::new();
    ids.push(audio_end);
    ids.push(tok.im_end);
    append_ids(&mut ids, newline);
    ids.push(tok.im_start);
    append_ids(&mut ids, assistant);
    proof {
        assert(ids@ == suffix_of(*tok, audio_end, newline@, assistant@, Seq::empty()));
    }
    ids
}

/// A fixed text piece of the chat template that is tokenized on its own.
#[derive(Debug, Clone, Copy, PartialEq, Eq)]
pub enum TemplatePiece {
    System,
    Newline,
    User,
    Assistant,
}

/// The text of a template piece.
pub open spec fn template_text(p: TemplatePiece) -> Seq<char> {
    match p {
        TemplatePiece::System => "system\n"@,
        TemplatePiece::Newline => "\n"@,
        TemplatePiece::User => "user\n"@,
        TemplatePiece::Assistant => "assistant\n"@,
    }
}

/// Builds the text of a template piece (see `template_text`).
pub fn template_piece_text(p: TemplatePiece) -> (t: String)
    ensures
        t@ == template_text(p),
{
    let mut t = String::new();
    match p {
        TemplatePiece::System => t.append("system\n"),
        TemplatePiece::Newline => t.append("\n"),
        TemplatePiece::User => t.append("user\n"),
        TemplatePiece::Assistant => t.append("assistant\n"),
    }
    t
}

/// The token ids of the pieces before the audio are encodings of their
/// texts: the template pieces `system\n`, `\n` and `user\n`, and the
/// context, which is left out (no ids) when empty.
pub open spec fn prefix_pieces_encoded(
    tok: Qwen2Tokenizer,
    context: Seq<char>,
    system: Seq<u32>,
    ctx: Seq<u32>,
    newline: Seq<u32>,
    user: Seq<u32>,
) -> bool {
    &&& encoded_as(tok.tokenizer, template_text(TemplatePiece::System), system)
    &&& if context.len() == 0 {
        ctx.len() == 0
    } else {
        encoded_as(tok.tokenizer, context, ctx)
    }
    &&& encoded_as(tok.tokenizer, template_text(TemplatePiece::Newline), newline)
    &&& encoded_as(tok.tokenizer, template_text(TemplatePiece::User), user)
}

/// The token ids of the pieces after the audio are encodings of the
/// template pieces `\n` and `assistant\n`.
pub open spec fn suffix_pieces_encoded(tok: Qwen2Tokenizer, newline: Seq<u32>, assistant: Seq<u32>) -> bool {
    &&& encoded_as(tok.tokenizer, template_text(TemplatePiece::Newline), newline)
    &&& encoded_as(tok.tokenizer, template_text(TemplatePiece::Assistant), assistant)
}

/// Token ids of the prompt before the audio, in the Qwen3 chat template:
/// `<|im_start|>system\n{context}<|im_end|>\n<|im_start|>user\n<|audio_start|>`.
/// The template pieces `system\n`, the context (left out when empty), `\n`
/// and `user\n` (see `template_piece_text`) are tokenized separately and
/// assembled by `prefix_ids_from_pieces`.
pub fn build_prefix_ids(tok: &Qwen2Tokenizer, context: &str, audio_start: u32) -> (ids: Vec<u32>)
    ensures
        exists|system: Seq<u32>, ctx: Seq<u32>, newline: Seq<u32>, user: Seq<u32>|
            prefix_pieces_encoded(*tok, context@, system, ctx, newline, user) && ids@
                == #[trigger] prefix_of(*tok, audio_start, system, ctx, newline, user),
{
    let system = tok.encode(template_piece_text(TemplatePiece::System).as_str());
    let mut ctx: Vec<u32> = Vec::new();
    if !context.is_empty() {
        ctx = tok.encode(context);
    }
    let newline = tok.encode(template_piece_text(TemplatePiece::Newline).as_str());
    let user = tok.encode(template_piece_text(TemplatePiece::User).as_str());
    let ghost pieces = (system@, ctx@, newline@, user@);
    proof {
        assert(prefix_pieces_encoded(*tok, context@, pieces.0, pieces.1, pieces.2, pieces.3));
    }
    let ids = prefix_ids_from_pieces(tok, audio_start, system, ctx, newline, user);
    proof {
        assert(ids@ == prefix_of(*tok, audio_start, pieces.0, pieces.1, pieces.2, pieces.3));
    }
    ids
}

/// Token ids of the prompt after the audio, in the Qwen3 chat template:
/// `<|audio_end|><|im_end|>\n<|im_start|>assistant\n`, with the template
/// pieces `\n` and `assistant\n` (see `template_piece_text`) tokenized
/// separately and assembled by `suffix_ids_from_pieces`.
pub fn build_suffix_ids(tok: &Qwen2Tokenizer, audio_end: u32) -> (ids: Vec<u32>)
    ensures
        exists|newline: Seq<u32>, assistant: Seq<u32>|
            suffix_pieces_encoded(*tok, newline, assistant) && ids@ == #[trigger] suffix_of(
                *tok,
                audio_end,
                newline,
                assistant,
                Seq::empty(),
            ),
{
    let newline = tok.encode(template_piece_text(TemplatePiece::Newline).as_str());
    let assistant = tok.encode(template_piece_text(TemplatePiece::Assistant).as_str());
    let ghost pieces = (newline@, assistant@);
    proof {
        assert(suffix_pieces_encoded(*tok, pieces.0, pieces.1));
    }
    let ids = suffix_ids_from_pieces(tok, audio_end, newline, assistant);
    proof {
        assert(ids@ == suffix_of(*tok, audio_end, pieces.0, pieces.1, Seq::empty()));
    }
    ids
}

/// The first position at or after `i` where `x` occurs in `s`, or the
/// length of `s` when there is none.
pub open spec fn first_from(s: Seq<u32>, x: u32, i: int) -> int
    decreases s.len() - i,
{
    if i < 0 || i >= s.len() {
        s.len() as int
    } else if s[i] == x {
        i
    } else {
        first_from(s, x, i + 1)
    }
}

proof fn lemma_first_from_bounds(s: Seq<u32>, x: u32, i: int)
    requires
        0 <= i <= s.len(),
    ensures
        i <= first_from(s, x, i) <= s.len(),
    decreases s.len() - i,
{
    if i < s.len() && s[i] != x {
        lemma_first_from_bounds(s, x, i + 1);
    }
}

/// The transcription in generated tokens: the decoded tokens after the first
/// `<asr_text>` separator when there is one; otherwise the decoded tokens
/// with the language tag removed (see `without_language_tag`).
pub open spec fn extracted_text(tokenizer: Tokenizer, generated: Seq<u32>) -> Seq<char> {
    let p = first_from(generated, ASR_TEXT_SEP_ID, 0);
    if p < generated.len() {
        decoded_text(tokenizer, generated.subrange(p + 1, generated.len() as int))
    } else {
        without_language_tag(decoded_text(tokenizer, generated))
    }
}

/// The tokens after the first `<asr_text>` separator, if there is one.
pub fn ids_after_separator(generated: &[u32]) -> (tail: Option<Vec<u32>>)
    ensures
        ({
            let p = first_from(generated@, ASR_TEXT_SEP_ID, 0);
            &&& 0 <= p <= generated@.len()
            &&& tail is None <==> p == generated@.len()
            &&& tail matches Some(t) ==> t@ == generated@.subrange(p + 1, generated@.len() as int)
        }),
{
    proof {
        lemma_first_from_bounds(generated@, ASR_TEXT_SEP_ID, 0);
    }
    let mut p: usize = 0;
    while p < generated.len() && generated[p] != ASR_TEXT_SEP_ID
        invariant
            0 <= p <= generated.len(),
            first_from(generated@, ASR_TEXT_SEP_ID, 0) == first_from(generated@, ASR_TEXT_SEP_ID, p as int),
        decreases generated.len() - p,
    {
        p = p + 1;
    }
    if p == generated.len() {
        return None;
    }
    let mut tail: Vec<u32> = Vec::new();
    let mut k = p + 1;
    while k < generated.len()
        invariant
            p < generated.len(),
            p < k <= generated.len(),
            tail@ == generated@.subrange(p + 1, k as int),
        decreases generated.len() - k,
    {
        proof {
            assert(generated@.subrange(p + 1, k + 1) == generated@.subrange(p + 1, k as int).push(
                generated@[k as int],
            ));
        }
        tail.push(generated[k]);
        k = k + 1;
    }
    Some(tail)
}

/// The transcription in generated tokens (see `extracted_text`).
pub fn extract_text(tok: &Qwen2Tokenizer, generated: &[u32]) -> (text: String)
    ensures
        text@ == extracted_text(tok.tokenizer, generated@),
{
    match ids_after_separator(generated) {
        Some(tail) => tok.decode(tail.as_slice()),
        None => {
            let decoded = tok.decode(generated);
            strip_language_tag(decoded.as_str())
        },
    }
}

/// The text that forces the transcription language: `language {lang}<asr_text>`.
pub open spec fn forced_language(lang: Seq<char>) -> Seq<char> {
    "language "@ + lang + "<asr_text>"@
}

/// Builds `forced_language(lang)`.
pub fn forced_language_text(lang: &str) -> (t: String)
    ensures
        t@ == forced_language(lang@),
{
    let mut t = String::new();
    t.append("language ");
    t.append(lang);
    t.append("<asr_text>");
    t
}

/// `n` copies of `id`.
pub open spec fn repeated_id(id: u32, n: nat) -> Seq<u32> {
    Seq::new(n, |i: int| id)
}

/// The prompt of one segment: `prefix`, then `n` audio tokens whose
/// embeddings the audio features replace, then `suffix`; with where the
/// audio tokens start and where the tokens after them start.
pub fn assemble_prompt(prefix: Vec<u32>, suffix: Vec<u32>, audio_token: u32, n: usize) -> (r: (
    Vec<u32>,
    usize,
    usize,
))
    ensures
        r.0@ == prefix@ + repeated_id(audio_token, n as nat) + suffix@,
        r.1 == prefix@.len(),
        r.2 == prefix@.len() + n,
{
    let mut ids = prefix;
    let before_len = ids.len();
    let ghost head = ids@;
    let mut i: usize = 0;
    while i < n
        invariant
            0 <= i <= n,
            head.len() == before_len,
            ids@ == head + repeated_id(audio_token, i as nat),
        decreases n - i,
    {
        proof {
            assert(repeated_id(audio_token, (i + 1) as nat) == repeated_id(audio_token, i as nat).push(
                audio_token,
            ));
        }
        ids.push(audio_token);
        i = i + 1;
    }
    let after_start = ids.len();
    append_ids(&mut ids, suffix);
    (ids, before_len, after_start)
}

/// The token ids of the prompt of one segment with `n` audio frames:
/// `build_prefix_ids`, the audio tokens, `build_suffix_ids`, and, when a
/// language is forced, the tokens of `forced_language(lang)`; with where the
/// audio tokens start and where the tokens after them start.
pub fn build_segment_prompt(
    tok: &Qwen2Tokenizer,
    context: &str,
    language: Option<&str>,
    audio_start: u32,
    audio_end: u32,
    audio_token: u32,
    n: usize,
) -> (r: (Vec<u32>, usize, usize))
    ensures
        exists|prefix: Seq<u32>, suffix: Seq<u32>|
            {
                &&& r.0@ == #[trigger] (prefix + repeated_id(audio_token, n as nat) + suffix)
                &&& r.1 == prefix.len()
                &&& r.2 == prefix.len() + n
                &&& exists|system: Seq<u32>, ctx: Seq<u32>, newline: Seq<u32>, user: Seq<u32>|
                    prefix_pieces_encoded(*tok, context@, system, ctx, newline, user) && prefix
                        == #[trigger] prefix_of(*tok, audio_start, system, ctx, newline, user)
                &&& exists|newline: Seq<u32>, assistant: Seq<u32>, forced: Seq<u32>|
                    suffix_pieces_encoded(*tok, newline, assistant) && (match language {
                        None => forced.len() == 0,
                        Some(l) => encoded_as(tok.tokenizer, forced_language(l@), forced),
                    }) && suffix == #[trigger] suffix_of(*tok, audio_end, newline, assistant, forced)
            },
{
    let prefix = build_prefix_ids(tok, context, audio_start);
    let mut suffix = build_suffix_ids(tok, audio_end);
    let ghost suffix_v = suffix@;
    let mut forced: Vec<u32> = Vec::new();
    match language {
        Some(lang) => {
            let text = forced_language_text(lang);
            forced = tok.encode(text.as_str());
        },
        None => {},
    }
    let ghost forced_v = forced@;
    append_ids(&mut suffix, forced);
    let ghost prefix_v = prefix@;
    let ghost full_suffix = suffix@;
    let r = assemble_prompt(prefix, suffix, audio_token, n);
    proof {
        let (newline2, assistant) = choose|newline2: Seq<u32>, assistant: Seq<u32>|
            suffix_pieces_encoded(*tok, newline2, assistant) && suffix_v == #[trigger] suffix_of(
                *tok,
                audio_end,
                newline2,
                assistant,
                Seq::empty(),
            );
        assert(full_suffix == suffix_of(*tok, audio_end, newline2, assistant, forced_v));
        assert(r.0@ == prefix_v + repeated_id(audio_token, n as nat) + full_suffix);
    }
    r
}

/// The final text of a segment: the transcription of the generated tokens
/// (see `extract_text`) with repetition loops collapsed (see
/// `fix_repetitions`) and surrounding whitespace removed.
pub fn segment_text(tok: &Qwen2Tokenizer, generated: &[u32]) -> (text: String)
    ensures
        text@ == trimmed(fixed_repetitions(extracted_text(tok.tokenizer, generated@))),
{
    let extracted = extract_text(tok, generated);
    let fixed = fix_repetitions(extracted.as_str());
    trim(fixed.as_str())
}

/// The layout of the prompt before the audio, position by position:
/// `<|im_start|>`, the system tokens, the context tokens, `<|im_end|>`, the
/// newline tokens, `<|im_start|>`, the user tokens, `<|audio_start|>`,
/// nothing else.
pub proof fn prefix_layout(
    tok: Qwen2Tokenizer,
    audio_start: u32,
    system: Seq<u32>,
    ctx: Seq<u32>,
    newline: Seq<u32>,
    user: Seq<u32>,
)
    ensures
        ({
            let p = prefix_of(tok, audio_start, system, ctx, newline, user);
            let a = 1 + system.len() as int;
            let b = a + ctx.len() as int;
            let c = b + 1 + newline.len() as int;
            &&& p.len() == system.len() + ctx.len() + newline.len() + user.len() + 4
            &&& p[0] == tok.im_start
            &&& p.subrange(1, a) == system
            &&& p.subrange(a, b) == ctx
            &&& p[b] == tok.im_end
            &&& p.subrange(b + 1, c) == newline
            &&& p[c] == tok.im_start
            &&& p.subrange(c + 1, c + 1 + user.len()) == user
            &&& p[p.len() - 1] == audio_start
        }),
{
    let p = prefix_of(tok, audio_start, system, ctx, newline, user);
    let a = 1 + system.len() as int;
    let b = a + ctx.len() as int;
    let c = b + 1 + newline.len() as int;
    assert(p.subrange(1, a) =~= system);
    assert(p.subrange(a, b) =~= ctx);
    assert(p.subrange(b + 1, c) =~= newline);
    assert(p.subrange(c + 1, c + 1 + user.len()) =~= user);
}

/// The layout of the prompt after the audio, position by position:
/// `<|audio_end|>`, `<|im_end|>`, the newline tokens, `<|im_start|>`, the
/// assistant tokens, the forced-language tokens, nothing else.
pub proof fn suffix_layout(
    tok: Qwen2Tokenizer,
    audio_end: u32,
    newline: Seq<u32>,
    assistant: Seq<u32>,
    forced: Seq<u32>,
)
    ensures
        ({
            let q = suffix_of(tok, audio_end, newline, assistant, forced);
            let a = 2 + newline.len() as int;
            let b = a + 1 + assistant.len() as int;
            &&& q.len() == newline.len() + assistant.len() + forced.len() + 3
            &&& q[0] == audio_end
            &&& q[1] == tok.im_end
            &&& q.subrange(2, a) == newline
            &&& q[a] == tok.im_start
            &&& q.subrange(a + 1, b) == assistant
            &&& q.subrange(b, q.len() as int) == forced
        }),
{
    let q = suffix_of(tok, audio_end, newline, assistant, forced);
    let a = 2 + newline.len() as int;
    let b = a + 1 + assistant.len() as int;
    assert(q.subrange(2, a) =~= newline);
    assert(q.subrange(a + 1, b) =~= assistant);
    assert(q.subrange(b, q.len() as int) =~= forced);
}

} // verus!
