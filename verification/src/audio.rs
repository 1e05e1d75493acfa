//! Length handling of audio sample buffers: padding to whole 30-second
//! windows and reflection padding for centred short-time transforms. The
//! sample type is generic; the speech pipeline uses 32-bit float samples.

use vstd::prelude::*;

verus! {

/// Samples in 30 seconds at 16 kHz.
pub const SAMPLES_30S: usize = 480_000;

/// `samples` cut or extended with `fill` to exactly `len` samples.
pub open spec fn resized<T>(samples: Seq<T>, len: int, fill: T) -> Seq<T> {
    Seq::new(len as nat, |i: int| if i < samples.len() { samples[i] } else { fill })
}

fn resize_copy<T: Copy>(samples: &[T], len: usize, fill: T) -> (v: Vec<T>)
    ensures
        v@ == resized(samples@, len as int, fill),
{
    let mut v: Vec<T> = Vec::new();
    let mut i: usize = 0;
    while i < len
        invariant
            0 <= i <= len,
            v@.len() == i,
            forall|k: int| 0 <= k < i ==> v@[k] == (if k < samples@.len() { samples@[k] } else { fill }),
        decreases len - i,
    {
        if i < samples.len() {
            v.push(samples[i]);
        } else {
            v.push(fill);
        }
        i = i + 1;
    }
    proof {
        assert(v@ =~= resized(samples@, len as int, fill));
    }
    v
}

/// Pads with `fill`, or truncates, to exactly 30 seconds (480,000 samples
/// at 16 kHz), the fixed input length of the speech encoder.
pub fn pad_to_30s<T: Copy>(samples: &[T], fill: T) -> (v: Vec<T>)
    ensures
        v@ == resized(samples@, SAMPLES_30S as int, fill),
{
    resize_copy(samples, SAMPLES_30S, fill)
}

/// The smallest positive multiple of 30 seconds that holds `n` samples.
pub open spec fn whole_windows_len(n: int) -> int {
    let w = SAMPLES_30S as int;
    if n == 0 {
        w
    } else {
        (n / w + if n % w == 0 {
            0int
        } else {
            1int
        }) * w
    }
}

/// Pads with `fill` to the next multiple of 30 seconds (at least one window),
/// never truncating.
pub fn pad_to_30s_multiple<T: Copy>(samples: &[T], fill: T) -> (v: Vec<T>)
    requires
        whole_windows_len(samples@.len() as int) <= usize::MAX,
    ensures
        v@ == resized(samples@, whole_windows_len(samples@.len() as int), fill),
        v@.len() >= samples@.len(),
{
    let n = samples.len();
    let windows = if n == 0 {
        1
    } else {
        n / SAMPLES_30S + if n % SAMPLES_30S == 0 { 0 } else { 1 }
    };
    proof {
        let ni = n as int;
        let w = SAMPLES_30S as int;
        let wi = windows as int;
        if n > 0 {
            assert(wi * w >= ni) by (nonlinear_arith)
                requires
                    w > 0,
                    ni > 0,
                    wi == ni / w + if ni % w == 0 { 0int } else { 1int },
            ;
        }
    }
    let target = windows * SAMPLES_30S;
    resize_copy(samples, target, fill)
}

/// `signal` mirrored at both ends by up to `pad` samples (never repeating
/// the edge sample): `signal[p], …, signal[1]`, the signal, then
/// `signal[n-2], …, signal[n-1-p']`, as `torch.stft`'s `reflect` mode.
pub open spec fn reflected<T>(signal: Seq<T>, pad: int) -> Seq<T> {
    let n = signal.len() as int;
    let left = if pad < n - 1 { pad } else { n - 1 };
    let right_start = if n > pad { n - pad - 1 } else { 0 };
    Seq::new(left as nat, |k: int| signal[left - k]) + signal + Seq::new(
        (n - 1 - right_start) as nat,
        |k: int| signal[n - 2 - k],
    )
}

/// Mirrors the signal at both ends by `pad` samples (see `reflected`).
pub fn reflection_pad<T: Copy>(signal: &[T], pad: usize) -> (padded: Vec<T>)
    requires
        signal@.len() >= 1,
    ensures
        padded@ == reflected(signal@, pad as int),
{
    let n = signal.len();
    let left = if pad < n - 1 { pad } else { n - 1 };
    let mut padded: Vec<T> = Vec::new();
    let mut i = left;
    while i >= 1
        invariant
            left < n,
            n == signal@.len(),
            0 <= i <= left,
            padded@ == Seq::new((left - i) as nat, |k: int| signal@[left - k]),
        decreases i,
    {
        proof {
            assert(Seq::new((left - i + 1) as nat, |k: int| signal@[left - k]) == Seq::new(
                (left - i) as nat,
                |k: int| signal@[left - k],
            ).push(signal@[i as int]));
        }
        padded.push(signal[i]);
        i = i - 1;
    }
    let ghost head = padded@;
    let mut j: usize = 0;
    while j < n
        invariant
            n == signal@.len(),
            0 <= j <= n,
            padded@ == head + signal@.take(j as int),
        decreases n - j,
    {
        proof {
            assert(signal@.take(j + 1) == signal@.take(j as int).push(signal@[j as int]));
        }
        padded.push(signal[j]);
        j = j + 1;
    }
    proof {
        assert(signal@.take(n as int) == signal@);
    }
    let right_start = if n > pad { n - pad - 1 } else { 0 };
    let ghost mid = padded@;
    let mut k = n - 1;
    while k > right_start
        invariant
            n == signal@.len(),
            right_start <= k <= n - 1,
            padded@ == mid + Seq::new((n - 1 - k) as nat, |q: int| signal@[n - 2 - q]),
        decreases k,
    {
        proof {
            assert(Seq::new((n - 1 - (k - 1)) as nat, |q: int| signal@[n - 2 - q]) == Seq::new(
                (n - 1 - k) as nat,
                |q: int| signal@[n - 2 - q],
            ).push(signal@[k - 1]));
        }
        padded.push(signal[k - 1]);
        k = k - 1;
    }
    padded
}

/// `n` rounded up to a multiple of `hop`.
pub open spec fn round_up(n: int, hop: int) -> int {
    (n / hop + if n % hop == 0 { 0int } else { 1int }) * hop
}

/// Pads with `fill` to the next multiple of the hop length, so that the
/// short-time transform sees whole hops.
pub fn pad_to_hop_multiple<T: Copy>(samples: &[T], hop: usize, fill: T) -> (v: Vec<T>)
    requires
        hop > 0,
        round_up(samples@.len() as int, hop as int) <= usize::MAX,
    ensures
        v@ == resized(samples@, round_up(samples@.len() as int, hop as int), fill),
        v@.len() >= samples@.len(),
{
    let n = samples.len();
    proof {
        if n % hop != 0 {
            assert(n >= 1 && hop >= 2) by (nonlinear_arith)
                requires
                    hop > 0,
                    n % hop != 0,
            ;
            assert(n / hop < n) by (nonlinear_arith)
                requires
                    hop >= 2,
                    n >= 1,
            ;
        }
    }
    let hops = n / hop + if n % hop == 0 { 0 } else { 1 };
    proof {
        let ni = n as int;
        let h = hop as int;
        let k = hops as int;
        assert(k * h >= ni) by (nonlinear_arith)
            requires
                h > 0,
                ni >= 0,
                k == ni / h + if ni % h == 0 { 0int } else { 1int },
        ;
    }
    resize_copy(samples, hops * hop, fill)
}

/// Frames of a short-time transform with window `n_fft` and hop `hop` over
/// `signal_len` samples: one per hop while a whole window fits.
pub open spec fn stft_frames(signal_len: int, n_fft: int, hop: int) -> int {
    if signal_len >= n_fft {
        (signal_len - n_fft) / hop + 1
    } else {
        0
    }
}

/// The number of short-time transform frames (see `stft_frames`).
pub fn stft_frame_count(signal_len: usize, n_fft: usize, hop: usize) -> (r: usize)
    requires
        hop > 0,
        stft_frames(signal_len as int, n_fft as int, hop as int) <= usize::MAX,
    ensures
        r == stft_frames(signal_len as int, n_fft as int, hop as int),
{
    if signal_len >= n_fft {
        (signal_len - n_fft) / hop + 1
    } else {
        0
    }
}

} // verus!
