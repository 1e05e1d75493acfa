//! Model configuration values that decide the model's shape: the audio
//! encoder, the text decoder and its multimodal rotary-embedding layout.
//! Floating-point hyper-parameters (norm epsilon, RoPE base) are kept by the
//! caller, next to these.

use vstd::prelude::*;

verus! {

/// Default for `AudioEncoderConfig::scale_embedding`.
pub fn default_false() -> (r: bool)
    ensures
        r == false,
{
    false
}

/// Default for `AudioEncoderConfig::n_window`.
pub fn default_n_window() -> (r: usize)
    ensures
        r == 50,
{
    50
}

/// Default for `AudioEncoderConfig::n_window_infer`.
pub fn default_n_window_infer() -> (r: usize)
    ensures
        r == 800,
{
    800
}

/// Default for `AudioEncoderConfig::conv_chunksize`.
pub fn default_conv_chunksize() -> (r: usize)
    ensures
        r == 500,
{
    500
}

/// Shape of the audio encoder.
#[derive(Debug, Clone)]
pub struct AudioEncoderConfig {
    pub d_model: usize,
    pub encoder_attention_heads: usize,
    pub encoder_ffn_dim: usize,
    pub encoder_layers: usize,
    pub downsample_hidden_size: usize,
    pub num_mel_bins: usize,
    pub output_dim: usize,
    pub max_source_positions: usize,
    pub activation_function: String,
    pub scale_embedding: bool,
    pub n_window: usize,
    pub n_window_infer: usize,
    pub conv_chunksize: usize,
}

/// Rotary-embedding scaling options of the text decoder.
#[derive(Debug, Clone)]
pub struct RopeScalingConfig {
    pub interleaved: Option<bool>,
    pub mrope_interleaved: Option<bool>,
    pub mrope_section: Vec<usize>,
}

/// Shape of the text decoder.
#[derive(Debug, Clone)]
pub struct TextConfig {
    pub hidden_size: usize,
    pub num_attention_heads: usize,
    pub num_key_value_heads: usize,
    pub head_dim: usize,
    pub intermediate_size: usize,
    pub num_hidden_layers: usize,
    pub vocab_size: usize,
    pub hidden_act: String,
    pub max_position_embeddings: usize,
    pub use_cache: bool,
    pub tie_word_embeddings: bool,
    pub attention_bias: bool,
    pub rope_scaling: Option<RopeScalingConfig>,
}

/// The section sizes used when the configuration gives none.
pub open spec fn default_mrope_section() -> Seq<usize> {
    seq![24usize, 20usize, 20usize]
}

/// The rotary sections of `rope_scaling`: its own when it has a non-empty
/// list, the default `[24, 20, 20]` otherwise.
pub open spec fn mrope_section_of(rope_scaling: Option<RopeScalingConfig>) -> Seq<usize> {
    match rope_scaling {
        Some(rope) => if rope.mrope_section@.len() > 0 {
            rope.mrope_section@
        } else {
            default_mrope_section()
        },
        None => default_mrope_section(),
    }
}

/// Whether the rotary sections are interleaved: either flag set when scaling
/// options are given; interleaved when they are absent.
pub open spec fn mrope_interleaved_of(rope_scaling: Option<RopeScalingConfig>) -> bool {
    match rope_scaling {
        Some(rope) => rope.mrope_interleaved == Some(true) || rope.interleaved == Some(true),
        None => true,
    }
}

fn copy_sections(v: &Vec<usize>) -> (r: Vec<usize>)
    ensures
        r@ == v@,
{
    let mut r: Vec<usize> = Vec::new();
    let mut i: usize = 0;
    while i < v.len()
        invariant
            0 <= i <= v.len(),
            r@ == v@.take(i as int),
        decreases v.len() - i,
    {
        proof {
            assert(v@.take(i + 1) == v@.take(i as int).push(v@[i as int]));
        }
        r.push(v[i]);
        i = i + 1;
    }
    proof {
        assert(v@.take(v.len() as int) == v@);
    }
    r
}

impl TextConfig {
    /// The multimodal rotary sections (see `mrope_section_of`).
    pub fn mrope_section(&self) -> (r: Vec<usize>)
        ensures
            r@ == mrope_section_of(self.rope_scaling),
    {
        match &self.rope_scaling {
            Some(rope) => {
                if rope.mrope_section.len() > 0 {
                    return copy_sections(&rope.mrope_section);
                }
            },
            None => {},
        }
        let mut d: Vec<usize> = Vec::new();
        d.push(24);
        d.push(20);
        d.push(20);
        proof {
            assert(d@ == default_mrope_section());
        }
        d
    }

    /// Whether the multimodal rotary sections interleave
    /// (see `mrope_interleaved_of`).
    pub fn mrope_interleaved(&self) -> (r: bool)
        ensures
            r == mrope_interleaved_of(self.rope_scaling),
    {
        match &self.rope_scaling {
            Some(rope) => {
                let a = match rope.mrope_interleaved {
                    Some(b) => b,
                    None => false,
                };
                let b = match rope.interleaved {
                    Some(b) => b,
                    None => false,
                };
                a || b
            },
            None => true,
        }
    }
}

/// Shape of one audio-encoder attention block.
#[derive(Debug, Clone, Copy)]
pub struct Qwen3ASRAudioAttentionConfig {
    pub d_model: usize,
    pub num_heads: usize,
}

impl Qwen3ASRAudioAttentionConfig {
    pub fn new(d_model: usize, num_heads: usize) -> (r: Self)
        ensures
            r.d_model == d_model,
            r.num_heads == num_heads,
    {
        Qwen3ASRAudioAttentionConfig { d_model, num_heads }
    }
}

/// Shape of one feed-forward block of the text decoder.
#[derive(Debug, Clone, Copy)]
pub struct Qwen3ASRMLPConfig {
    pub hidden_size: usize,
    pub intermediate_size: usize,
}

impl Qwen3ASRMLPConfig {
    pub fn new(hidden_size: usize, intermediate_size: usize) -> (r: Self)
        ensures
            r.hidden_size == hidden_size,
            r.intermediate_size == intermediate_size,
    {
        Qwen3ASRMLPConfig { hidden_size, intermediate_size }
    }
}

} // verus!
