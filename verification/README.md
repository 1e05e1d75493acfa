# qwen_asr

Speech transcription, forced alignment and translation with Qwen3-ASR,
Qwen3-ForcedAligner and Hy-MT.

- `src/` is the verified library (Verus): voice-activity segmentation of
  per-frame scores, audio padding and framing, prompt and token-id
  construction, greedy-decoding and sampling-loop decisions, repetition
  clean-up of transcripts, language-tag removal, word splitting and
  timestamp markup, the longest non-decreasing subsequence and the
  monotonic repair of predicted timestamps, SRT formatting, causal masks and
  the key/value cache, rotary-dimension maps and encoder shapes.
- `app/` is the command-line program around it: file and audio I/O, the
  voice detector, mel features, the neural networks (burn) and the
  command-line interface.
- `tests/` exercises the library.
