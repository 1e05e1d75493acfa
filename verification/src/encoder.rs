//! Shapes of the audio encoder: the frequency bins left after its three
//! strided convolutions, and the chunks of mel frames it convolves one at a
//! time.

use vstd::prelude::*;

verus! {

/// Mel frames convolved together.
pub const MEL_CHUNK_FRAMES: usize = 100;

/// Length of an axis after a stride-2 convolution with kernel 3 and
/// padding 1: half of it, rounded up.
pub open spec fn halved_up(n: int) -> int {
    (n + 1) / 2
}

/// Frequency bins left of `num_mel_bins` after the three convolutions.
pub open spec fn freq_bins_after_convs(num_mel_bins: int) -> int {
    halved_up(halved_up(halved_up(num_mel_bins)))
}

/// Frequency bins left of `num_mel_bins` after the three convolutions.
pub fn conv_freq_bins(num_mel_bins: usize) -> (r: usize)
    ensures
        r == freq_bins_after_convs(num_mel_bins as int),
{
    let a = num_mel_bins / 2 + num_mel_bins % 2;
    let b = a / 2 + a % 2;
    b / 2 + b % 2
}

/// Width of the convolution output that is projected to the model size:
/// channels times frequency bins.
pub fn conv_out_dim(num_mel_bins: usize, downsample_hidden_size: usize) -> (r: usize)
    requires
        downsample_hidden_size * freq_bins_after_convs(num_mel_bins as int) <= usize::MAX,
    ensures
        r == downsample_hidden_size * freq_bins_after_convs(num_mel_bins as int),
{
    downsample_hidden_size * conv_freq_bins(num_mel_bins)
}

/// The chunks of `mel_time` frames, as (first frame, length): whole chunks
/// of `MEL_CHUNK_FRAMES`, then the remainder if there is one.
pub open spec fn mel_chunk_ranges(mel_time: int) -> Seq<(int, int)> {
    let c = MEL_CHUNK_FRAMES as int;
    let full = Seq::new((mel_time / c) as nat, |i: int| (i * c, c));
    if mel_time % c > 0 {
        full.push(((mel_time / c) * c, mel_time % c))
    } else {
        full
    }
}

/// The chunks the encoder convolves one at a time (see `mel_chunk_ranges`).
pub fn mel_chunks(mel_time: usize) -> (chunks: Vec<(usize, usize)>)
    ensures
        chunks@.len() == mel_chunk_ranges(mel_time as int).len(),
        forall|i: int|
            0 <= i < chunks@.len() ==> (#[trigger] chunks@[i]).0 as int == mel_chunk_ranges(
                mel_time as int,
            )[i].0 && chunks@[i].1 as int == mel_chunk_ranges(mel_time as int)[i].1,
{
    let full = mel_time / MEL_CHUNK_FRAMES;
    let rem = mel_time % MEL_CHUNK_FRAMES;
    let mut chunks: Vec<(usize, usize)> = Vec::new();
    let mut i: usize = 0;
    while i < full
        invariant
            full == mel_time / MEL_CHUNK_FRAMES,
            0 <= i <= full,
            chunks@.len() == i,
            forall|k: int|
                0 <= k < i ==> (#[trigger] chunks@[k]).0 as int == k * MEL_CHUNK_FRAMES && chunks@[k].1
                    == MEL_CHUNK_FRAMES,
        decreases full - i,
    {
        proof {
            assert(i * MEL_CHUNK_FRAMES <= full * MEL_CHUNK_FRAMES) by (nonlinear_arith)
                requires i < full;
            assert(full * MEL_CHUNK_FRAMES <= mel_time) by (nonlinear_arith)
                requires full == mel_time / MEL_CHUNK_FRAMES;
        }
        chunks.push((i * MEL_CHUNK_FRAMES, MEL_CHUNK_FRAMES));
        i = i + 1;
    }
    if rem > 0 {
        proof {
            assert(full * MEL_CHUNK_FRAMES <= mel_time) by (nonlinear_arith)
                requires full == mel_time / MEL_CHUNK_FRAMES;
        }
        chunks.push((full * MEL_CHUNK_FRAMES, rem));
    }
    chunks
}

} // verus!
