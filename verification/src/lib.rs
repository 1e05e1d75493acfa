//! Verified core of a speech transcription, alignment and translation tool:
//! text segmentation, timestamp repair, voice activity segmentation,
//! subtitle formatting, prompt construction and decoding control.

pub mod alignment;
pub mod attention;
pub mod audio;
pub mod chat;
pub mod config;
pub mod encoder;
pub mod rope;
pub mod srt;
pub mod text;
pub mod text_processor;
pub mod tokenizer;
pub mod timestamps;
pub mod transcript;
pub mod translation;
pub mod vad;
