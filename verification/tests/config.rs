use qwen_asr::config::{
    default_conv_chunksize, default_false, default_n_window, default_n_window_infer,
    Qwen3ASRAudioAttentionConfig, Qwen3ASRMLPConfig, RopeScalingConfig, TextConfig,
};

fn text_config(rope_scaling: Option<RopeScalingConfig>) -> TextConfig {
    TextConfig {
        hidden_size: 1024,
        num_attention_heads: 16,
        num_key_value_heads: 8,
        head_dim: 128,
        intermediate_size: 3072,
        num_hidden_layers: 28,
        vocab_size: 151936,
        hidden_act: "silu".to_string(),
        max_position_embeddings: 65536,
        use_cache: true,
        tie_word_embeddings: true,
        attention_bias: false,
        rope_scaling,
    }
}

#[test]
fn encoder_defaults() {
    assert!(!default_false());
    assert_eq!(default_n_window(), 50);
    assert_eq!(default_n_window_infer(), 800);
    assert_eq!(default_conv_chunksize(), 500);
}

#[test]
fn mrope_section_defaults_without_scaling() {
    let c = text_config(None);
    assert_eq!(c.mrope_section(), vec![24, 20, 20]);
    assert!(c.mrope_interleaved());
}

#[test]
fn mrope_section_from_scaling() {
    let c = text_config(Some(RopeScalingConfig {
        interleaved: None,
        mrope_interleaved: Some(false),
        mrope_section: vec![16, 24, 24],
    }));
    assert_eq!(c.mrope_section(), vec![16, 24, 24]);
    assert!(!c.mrope_interleaved());
}

#[test]
fn mrope_section_empty_list_falls_back() {
    let c = text_config(Some(RopeScalingConfig {
        interleaved: Some(true),
        mrope_interleaved: None,
        mrope_section: vec![],
    }));
    assert_eq!(c.mrope_section(), vec![24, 20, 20]);
    assert!(c.mrope_interleaved());
}

#[test]
fn block_configs() {
    let a = Qwen3ASRAudioAttentionConfig::new(896, 14);
    assert_eq!((a.d_model, a.num_heads), (896, 14));
    let m = Qwen3ASRMLPConfig::new(1024, 3072);
    assert_eq!((m.hidden_size, m.intermediate_size), (1024, 3072));
}
