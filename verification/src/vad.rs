//! Voice-activity segmentation: from per-frame speech scores to voice
//! segments, by thresholding, merging close segments, dropping short ones
//! and cutting long ones at the quietest frame near the length limit.
//!
//! Scores are order keys: integers whose order is that of the detector's
//! speech probabilities (one frame is 256 samples, 16 ms at 16 kHz).

use vstd::prelude::*;

verus! {

/// Order key of the speech probability 0.5: a frame is speech when its
/// score is at least this.
pub const VOICE_THRESHOLD_KEY: u32 = 0xBF00_0000;

/// Order key of the largest finite probability value: the starting point
/// when searching for the quietest frame.
pub const MAX_SCORE_KEY: u32 = 0xFF7F_FFFF;

/// Segments separated by fewer frames than this are merged: 32 frames
/// (0.512 s) is the shortest gap of at least 0.5 s.
pub const GAP_FRAMES: usize = 32;

/// Segments longer than this many frames (30 s) are cut.
pub const MAX_FRAMES: usize = 1875;

/// Segments shorter than this many frames are dropped: 32 frames (0.512 s)
/// is the shortest length of at least 0.5 s.
pub const MIN_FRAMES: usize = 32;

/// Width, in frames (1 s), of the window before the length limit searched
/// for a cut point.
pub const OVERLAP_FRAMES: usize = 62;

/// A voice segment as a half-open range of frames.
#[derive(Debug, Clone, Copy, PartialEq, Eq)]
pub struct FrameSegment {
    pub start_frame: usize,
    pub end_frame: usize,
}

pub open spec fn is_speech(scores: Seq<u32>, i: int) -> bool {
    scores[i] >= VOICE_THRESHOLD_KEY
}

/// Runs of speech frames found in the first `m` frames: the closed runs,
/// whether a run is open, and where the open run started.
pub open spec fn speech_state(scores: Seq<u32>, m: int) -> (Seq<(int, int)>, bool, int)
    decreases m,
{
    if m <= 0 {
        (Seq::empty(), false, 0)
    } else {
        let (runs, open, start) = speech_state(scores, m - 1);
        let i = m - 1;
        if is_speech(scores, i) && !open {
            (runs, true, i)
        } else if !is_speech(scores, i) && open {
            (runs.push((start, i)), false, start)
        } else {
            (runs, open, start)
        }
    }
}

/// The runs of consecutive speech frames, as half-open ranges in order.
pub open spec fn speech_runs(scores: Seq<u32>) -> Seq<(int, int)> {
    let (runs, open, start) = speech_state(scores, scores.len() as int);
    if open {
        runs.push((start, scores.len() as int))
    } else {
        runs
    }
}

/// Runs after merging each one into the previous when the gap between them
/// is under `GAP_FRAMES`; the first `m` runs.
pub open spec fn merged_prefix(runs: Seq<(int, int)>, m: int) -> Seq<(int, int)>
    decreases m,
{
    if m <= 0 {
        Seq::empty()
    } else if m == 1 {
        seq![runs[0]]
    } else {
        let prev = merged_prefix(runs, m - 1);
        let cur = prev.last();
        let seg = runs[m - 1];
        if seg.0 - cur.1 < GAP_FRAMES {
            prev.drop_last().push((cur.0, seg.1))
        } else {
            prev.push(seg)
        }
    }
}

pub open spec fn merge_runs(runs: Seq<(int, int)>) -> Seq<(int, int)> {
    merged_prefix(runs, runs.len() as int)
}

/// The quietest frame in `[lo, hi)` (the first one, on ties) with its score,
/// if any is below `MAX_SCORE_KEY`; otherwise `default`.
pub open spec fn quietest(scores: Seq<u32>, lo: int, hi: int, default: int) -> (int, u32)
    decreases hi - lo,
{
    if hi <= lo {
        (default, MAX_SCORE_KEY)
    } else {
        let (b, bs) = quietest(scores, lo, hi - 1, default);
        if 0 <= hi - 1 < scores.len() && scores[hi - 1] < bs {
            (hi - 1, scores[hi - 1])
        } else {
            (b, bs)
        }
    }
}

pub proof fn lemma_quietest_bounds(scores: Seq<u32>, lo: int, hi: int, default: int)
    ensures
        lo <= quietest(scores, lo, hi, default).0 < hi || quietest(scores, lo, hi, default).0
            == default,
    decreases hi - lo,
{
    if hi > lo {
        lemma_quietest_bounds(scores, lo, hi - 1, default);
    }
}

/// Where the chunk that starts at `chunk_start` is cut: the quietest frame
/// among the last `OVERLAP_FRAMES` before the length limit and the limit
/// itself, so that no piece is longer than `MAX_FRAMES`.
pub open spec fn cut_point(scores: Seq<u32>, chunk_start: int, end: int) -> int {
    let cand = chunk_start + MAX_FRAMES;
    let split_start = if cand > OVERLAP_FRAMES { cand - OVERLAP_FRAMES } else { chunk_start };
    let split_end = if cand + 1 < end { cand + 1 } else { end };
    quietest(scores, split_start, split_end, cand).0
}

pub proof fn lemma_cut_point(scores: Seq<u32>, chunk_start: int, end: int)
    requires
        0 <= chunk_start,
        chunk_start + MAX_FRAMES < end,
    ensures
        chunk_start + MAX_FRAMES - OVERLAP_FRAMES <= cut_point(scores, chunk_start, end) < end,
        cut_point(scores, chunk_start, end) <= chunk_start + MAX_FRAMES,
{
    let cand = chunk_start + MAX_FRAMES;
    let split_end = if cand + 1 < end { cand + 1 } else { end };
    lemma_quietest_bounds(scores, cand - OVERLAP_FRAMES, split_end, cand);
}

/// The pieces of the long segment `[chunk_start, end)`: it is cut at
/// `cut_point` until what remains fits in `MAX_FRAMES`; pieces shorter than
/// `MIN_FRAMES` are dropped.
pub open spec fn chunk_pieces(scores: Seq<u32>, chunk_start: int, end: int) -> Seq<(int, int)>
    decreases end - chunk_start,
{
    if chunk_start < 0 || chunk_start >= end {
        Seq::empty()
    } else if chunk_start + MAX_FRAMES >= end {
        if end - chunk_start >= MIN_FRAMES {
            seq![(chunk_start, end)]
        } else {
            Seq::empty()
        }
    } else {
        let cut = cut_point(scores, chunk_start, end);
        proof {
            lemma_cut_point(scores, chunk_start, end);
        }
        (if cut - chunk_start >= MIN_FRAMES {
            seq![(chunk_start, cut)]
        } else {
            Seq::empty()
        }) + chunk_pieces(scores, cut, end)
    }
}

/// The final segments of one merged run: kept whole when it fits in
/// `MAX_FRAMES` (dropped when shorter than `MIN_FRAMES`), cut otherwise.
pub open spec fn run_segments(scores: Seq<u32>, run: (int, int)) -> Seq<(int, int)> {
    let (start, end) = run;
    if end - start <= MAX_FRAMES {
        if end - start >= MIN_FRAMES {
            seq![(start, end)]
        } else {
            Seq::empty()
        }
    } else {
        chunk_pieces(scores, start, end)
    }
}

/// Final segments of the first `m` merged runs.
pub open spec fn split_prefix(scores: Seq<u32>, runs: Seq<(int, int)>, m: int) -> Seq<(int, int)>
    decreases m,
{
    if m <= 0 {
        Seq::empty()
    } else {
        split_prefix(scores, runs, m - 1) + run_segments(scores, runs[m - 1])
    }
}

/// The voice segments of a score sequence: speech runs, merged across short
/// gaps, then kept, dropped or cut by length.
pub open spec fn voice_segments(scores: Seq<u32>) -> Seq<(int, int)> {
    let merged = merge_runs(speech_runs(scores));
    split_prefix(scores, merged, merged.len() as int)
}

pub open spec fn frame_pairs(v: Seq<FrameSegment>) -> Seq<(int, int)> {
    v.map_values(|s: FrameSegment| (s.start_frame as int, s.end_frame as int))
}

pub open spec fn usize_pairs(v: Seq<(usize, usize)>) -> Seq<(int, int)> {
    v.map_values(|p: (usize, usize)| (p.0 as int, p.1 as int))
}

/// Runs are in order, non-empty, inside `[0, n)`, and separated by at least
/// `gap` frames.
pub open spec fn runs_ordered(runs: Seq<(int, int)>, n: int, gap: int) -> bool {
    &&& forall|k: int| 0 <= k < runs.len() ==> 0 <= #[trigger] runs[k].0 < runs[k].1 <= n
    &&& forall|k: int| 0 <= k < runs.len() - 1 ==> #[trigger] runs[k].1 + gap <= runs[k + 1].0
}

proof fn lemma_speech_state(scores: Seq<u32>, m: int)
    requires
        0 <= m <= scores.len(),
    ensures
        ({
            let (runs, open, start) = speech_state(scores, m);
            &&& runs_ordered(runs, m, 1)
            &&& open ==> 0 <= start < m && (runs.len() == 0 || runs.last().1 < start)
            &&& !open ==> (runs.len() == 0 || runs.last().1 < m)
        }),
    decreases m,
{
    if m > 0 {
        lemma_speech_state(scores, m - 1);
    }
}

proof fn lemma_speech_runs_ordered(scores: Seq<u32>)
    ensures
        runs_ordered(speech_runs(scores), scores.len() as int, 1),
{
    lemma_speech_state(scores, scores.len() as int);
}

fn find_speech_runs(scores: &[u32]) -> (runs: Vec<(usize, usize)>)
    ensures
        usize_pairs(runs@) == speech_runs(scores@),
{
    let n = scores.len();
    let mut runs: Vec<(usize, usize)> = Vec::new();
    let mut open = false;
    let mut start: usize = 0;
    let mut i: usize = 0;
    while i < n
        invariant
            n == scores.len(),
            0 <= i <= n,
            (usize_pairs(runs@), open, start as int) == speech_state(scores@, i as int),
        decreases n - i,
    {
        let speech = scores[i] >= VOICE_THRESHOLD_KEY;
        if speech && !open {
            start = i;
            open = true;
        } else if !speech && open {
            let ghost before = usize_pairs(runs@);
            runs.push((start, i));
            proof {
                assert(usize_pairs(runs@) == before.push((start as int, i as int)));
            }
            open = false;
        }
        i = i + 1;
    }
    if open {
        let ghost before = usize_pairs(runs@);
        runs.push((start, n));
        proof {
            assert(usize_pairs(runs@) == before.push((start as int, n as int)));
        }
    }
    runs
}

} // verus!

verus! {

fn merge_close_runs(runs: &Vec<(usize, usize)>, n: usize) -> (merged: Vec<(usize, usize)>)
    requires
        runs@.len() > 0,
        runs_ordered(usize_pairs(runs@), n as int, 1),
    ensures
        usize_pairs(merged@) == merge_runs(usize_pairs(runs@)),
{
    let ghost rs = usize_pairs(runs@);
    let mut merged: Vec<(usize, usize)> = Vec::new();
    let mut current = runs[0];
    let mut i: usize = 1;
    proof {
        assert(rs[0] == (current.0 as int, current.1 as int));
        assert(merged_prefix(rs, 1) == seq![rs[0]]);
    }
    while i < runs.len()
        invariant
            rs == usize_pairs(runs@),
            runs_ordered(rs, n as int, 1),
            1 <= i <= runs.len(),
            usize_pairs(merged@).push((current.0 as int, current.1 as int)) == merged_prefix(
                rs,
                i as int,
            ),
            current.1 as int == rs[i - 1].1,
        decreases runs.len() - i,
    {
        let seg = runs[i];
        proof {
            assert(rs[i as int] == (seg.0 as int, seg.1 as int));
            assert(rs[i - 1].1 + 1 <= rs[i as int].0);
            let prev = merged_prefix(rs, i as int);
            assert(prev.last() == (current.0 as int, current.1 as int));
            assert(prev.drop_last() == usize_pairs(merged@));
        }
        if seg.0 - current.1 < GAP_FRAMES {
            current = (current.0, seg.1);
        } else {
            let ghost before = usize_pairs(merged@);
            merged.push(current);
            proof {
                assert(usize_pairs(merged@) == before.push((current.0 as int, current.1 as int)));
            }
            current = seg;
        }
        i = i + 1;
    }
    let ghost before = usize_pairs(merged@);
    merged.push(current);
    proof {
        assert(usize_pairs(merged@) == before.push((current.0 as int, current.1 as int)));
    }
    merged
}

/// The quietest frame of `[lo, hi)` (see `quietest`).
fn quietest_frame(scores: &[u32], lo: usize, hi: usize, default: usize) -> (best: usize)
    ensures
        best as int == quietest(scores@, lo as int, hi as int, default as int).0,
{
    let mut best = default;
    let mut best_score = MAX_SCORE_KEY;
    let mut i = lo;
    if hi <= lo {
        return best;
    }
    while i < hi
        invariant
            lo <= i <= hi,
            (best as int, best_score) == quietest(scores@, lo as int, i as int, default as int),
        decreases hi - i,
    {
        if i < scores.len() && scores[i] < best_score {
            best_score = scores[i];
            best = i;
        }
        i = i + 1;
    }
    best
}

fn split_long_runs(scores: &[u32], merged: &Vec<(usize, usize)>) -> (segments: Vec<FrameSegment>)
    requires
        runs_ordered(usize_pairs(merged@), scores@.len() as int, 1),
    ensures
        frame_pairs(segments@) == split_prefix(scores@, usize_pairs(merged@), merged@.len() as int),
{
    let ghost ms = usize_pairs(merged@);
    let n = scores.len();
    let mut segments: Vec<FrameSegment> = Vec::new();
    let mut r: usize = 0;
    while r < merged.len()
        invariant
            ms == usize_pairs(merged@),
            n == scores.len(),
            runs_ordered(ms, n as int, 1),
            0 <= r <= merged.len(),
            frame_pairs(segments@) == split_prefix(scores@, ms, r as int),
        decreases merged.len() - r,
    {
        let (start, end) = merged[r];
        proof {
            assert(ms[r as int] == (start as int, end as int));
            assert(0 <= start < end <= n);
        }
        let ghost before = frame_pairs(segments@);
        let len = end - start;
        if len <= MAX_FRAMES {
            if len >= MIN_FRAMES {
                segments.push(FrameSegment { start_frame: start, end_frame: end });
                proof {
                    assert(frame_pairs(segments@) == before.push((start as int, end as int)));
                }
            }
        } else {
            let mut chunk_start = start;
            while chunk_start < end
                invariant
                    n == scores.len(),
                    0 <= start <= chunk_start <= end <= n,
                    end - start > MAX_FRAMES,
                    frame_pairs(segments@) + chunk_pieces(scores@, chunk_start as int, end as int)
                        == before + chunk_pieces(scores@, start as int, end as int),
                decreases end - chunk_start,
            {
                let chunk_end_candidate = if MAX_FRAMES < end - chunk_start {
                    chunk_start + MAX_FRAMES
                } else {
                    end
                };
                if chunk_end_candidate >= end {
                    let ghost mid = frame_pairs(segments@);
                    if end - chunk_start >= MIN_FRAMES {
                        segments.push(FrameSegment { start_frame: chunk_start, end_frame: end });
                        proof {
                            assert(frame_pairs(segments@) == mid.push(
                                (chunk_start as int, end as int),
                            ));
                        }
                    }
                    proof {
                        assert(chunk_pieces(scores@, end as int, end as int) == Seq::<
                            (int, int),
                        >::empty());
                    }
                    chunk_start = end;
                } else {
                    let split_start = if chunk_end_candidate > OVERLAP_FRAMES {
                        chunk_end_candidate - OVERLAP_FRAMES
                    } else {
                        chunk_start
                    };
                    let split_end = if 1 < end - chunk_end_candidate {
                        chunk_end_candidate + 1
                    } else {
                        end
                    };
                    let best_split = quietest_frame(scores, split_start, split_end, chunk_end_candidate);
                    proof {
                        lemma_cut_point(scores@, chunk_start as int, end as int);
                        assert(best_split as int == cut_point(scores@, chunk_start as int, end as int));
                    }
                    let ghost mid = frame_pairs(segments@);
                    if best_split - chunk_start >= MIN_FRAMES {
                        segments.push(FrameSegment { start_frame: chunk_start, end_frame: best_split });
                        proof {
                            assert(frame_pairs(segments@) == mid.push(
                                (chunk_start as int, best_split as int),
                            ));
                        }
                    }
                    proof {
                        let head = if best_split - chunk_start >= MIN_FRAMES {
                            seq![(chunk_start as int, best_split as int)]
                        } else {
                            Seq::empty()
                        };
                        assert(frame_pairs(segments@) == mid + head);
                        assert(chunk_pieces(scores@, chunk_start as int, end as int) == head
                            + chunk_pieces(scores@, best_split as int, end as int));
                    }
                    chunk_start = best_split;
                }
            }
        }
        proof {
            assert(split_prefix(scores@, ms, r + 1) == split_prefix(scores@, ms, r as int)
                + run_segments(scores@, ms[r as int]));
        }
        r = r + 1;
    }
    segments
}

/// Voice segments, as frame ranges, of a sequence of per-frame speech
/// scores (see `voice_segments`).
pub fn detect_segments(scores: &[u32]) -> (segments: Vec<FrameSegment>)
    ensures
        frame_pairs(segments@) == voice_segments(scores@),
{
    if scores.len() == 0 {
        return Vec::new();
    }
    let raw = find_speech_runs(scores);
    if raw.len() == 0 {
        proof {
            assert(merge_runs(usize_pairs(raw@)) == Seq::<(int, int)>::empty());
        }
        return Vec::new();
    }
    proof {
        lemma_speech_runs_ordered(scores@);
    }
    let merged = merge_close_runs(&raw, scores.len());
    proof {
        lemma_merge_ordered(usize_pairs(raw@), scores@.len() as int);
    }
    split_long_runs(scores, &merged)
}

proof fn lemma_merged_prefix(runs: Seq<(int, int)>, n: int, m: int)
    requires
        runs_ordered(runs, n, 1),
        1 <= m <= runs.len(),
    ensures
        merged_prefix(runs, m).len() >= 1,
        runs_ordered(merged_prefix(runs, m), n, GAP_FRAMES as int),
        merged_prefix(runs, m).last().1 == runs[m - 1].1,
        merged_prefix(runs, m)[0].0 == runs[0].0,
    decreases m,
{
    if m > 1 {
        lemma_merged_prefix(runs, n, m - 1);
        let prev = merged_prefix(runs, m - 1);
        assert(runs[m - 2].1 + 1 <= runs[m - 1].0);
        let cur = merged_prefix(runs, m);
        if runs[m - 1].0 - prev.last().1 < GAP_FRAMES {
            assert forall|k: int| 0 <= k < cur.len() - 1 implies #[trigger] cur[k].1
                + GAP_FRAMES <= cur[k + 1].0 by {
                assert(cur[k] == prev[k]);
                assert(cur[k + 1].0 == prev[k + 1].0);
            }
            assert forall|k: int| 0 <= k < cur.len() implies 0 <= #[trigger] cur[k].0
                < cur[k].1 <= n by {
                if k < cur.len() - 1 {
                    assert(cur[k] == prev[k]);
                }
            }
        } else {
            assert forall|k: int| 0 <= k < cur.len() - 1 implies #[trigger] cur[k].1
                + GAP_FRAMES <= cur[k + 1].0 by {
                assert(cur[k] == prev[k]);
                if k + 1 < prev.len() {
                    assert(cur[k + 1] == prev[k + 1]);
                }
            }
        }
    }
}

/// After merging, runs stay in order inside the frames and any two of them
/// are at least `GAP_FRAMES` apart.
pub proof fn lemma_merge_ordered(runs: Seq<(int, int)>, n: int)
    requires
        runs_ordered(runs, n, 1),
    ensures
        runs_ordered(merge_runs(runs), n, GAP_FRAMES as int),
        runs_ordered(merge_runs(runs), n, 1),
{
    if runs.len() > 0 {
        lemma_merged_prefix(runs, n, runs.len() as int);
    }
    let m = merge_runs(runs);
    assert forall|k: int| 0 <= k < m.len() - 1 implies #[trigger] m[k].1 + 1 <= m[k + 1].0 by {
        assert(m[k].1 + GAP_FRAMES <= m[k + 1].0);
    }
}

} // verus!

verus! {

/// Segments inside `[lo, hi]`, in order and not overlapping, each at least
/// `MIN_FRAMES` and at most `MAX_FRAMES` frames long.
pub open spec fn segments_well_formed(segs: Seq<(int, int)>, lo: int, hi: int) -> bool {
    &&& forall|k: int|
        0 <= k < segs.len() ==> lo <= #[trigger] segs[k].0 && segs[k].1 <= hi && MIN_FRAMES
            <= segs[k].1 - segs[k].0 <= MAX_FRAMES
    &&& forall|k: int| 0 <= k < segs.len() - 1 ==> #[trigger] segs[k].1 <= segs[k + 1].0
}

proof fn lemma_concat_well_formed(a: Seq<(int, int)>, b: Seq<(int, int)>, lo: int, mid: int, hi: int)
    requires
        lo <= mid <= hi,
        segments_well_formed(a, lo, mid),
        segments_well_formed(b, mid, hi),
    ensures
        segments_well_formed(a + b, lo, hi),
{
    let c = a + b;
    assert forall|k: int| 0 <= k < c.len() - 1 implies #[trigger] c[k].1 <= c[k + 1].0 by {
        if k < a.len() - 1 {
            assert(c[k] == a[k] && c[k + 1] == a[k + 1]);
            assert(a[k].1 <= a[k + 1].0);
        } else if k == a.len() - 1 {
            assert(c[k] == a[k] && c[k + 1] == b[0]);
            assert(lo <= a[k].0);
            assert(mid <= b[0].0);
        } else {
            let j = k - a.len();
            assert(c[k] == b[j] && c[k + 1] == b[j + 1]);
            assert(b[j].1 <= b[j + 1].0);
        }
    }
    assert forall|k: int| 0 <= k < c.len() implies lo <= #[trigger] c[k].0 && c[k].1 <= hi
        && MIN_FRAMES <= c[k].1 - c[k].0 <= MAX_FRAMES by {
        if k < a.len() {
            assert(c[k] == a[k]);
            assert(lo <= a[k].0);
        } else {
            let j = k - a.len();
            assert(c[k] == b[j]);
            assert(mid <= b[j].0);
        }
    }
}

proof fn lemma_chunk_pieces(scores: Seq<u32>, chunk_start: int, end: int)
    requires
        0 <= chunk_start <= end,
    ensures
        segments_well_formed(chunk_pieces(scores, chunk_start, end), chunk_start, end),
    decreases end - chunk_start,
{
    if chunk_start < end && chunk_start + MAX_FRAMES < end {
        let cut = cut_point(scores, chunk_start, end);
        lemma_cut_point(scores, chunk_start, end);
        lemma_chunk_pieces(scores, cut, end);
        let head: Seq<(int, int)> = if cut - chunk_start >= MIN_FRAMES {
            seq![(chunk_start, cut)]
        } else {
            Seq::empty()
        };
        assert(segments_well_formed(head, chunk_start, cut));
        lemma_concat_well_formed(head, chunk_pieces(scores, cut, end), chunk_start, cut, end);
    }
}

proof fn lemma_split_prefix(scores: Seq<u32>, runs: Seq<(int, int)>, n: int, m: int)
    requires
        runs_ordered(runs, n, 1),
        0 <= m <= runs.len(),
    ensures
        segments_well_formed(
            split_prefix(scores, runs, m),
            0,
            if m == 0 {
                0
            } else {
                runs[m - 1].1
            },
        ),
    decreases m,
{
    if m > 0 {
        lemma_split_prefix(scores, runs, n, m - 1);
        let (start, end) = runs[m - 1];
        let prev_end = if m == 1 {
            0
        } else {
            runs[m - 2].1
        };
        assert(prev_end <= start);
        let tail = run_segments(scores, runs[m - 1]);
        if end - start > MAX_FRAMES {
            lemma_chunk_pieces(scores, start, end);
        }
        assert(segments_well_formed(tail, start, end));
        let head = split_prefix(scores, runs, m - 1);
        assert(segments_well_formed(head, 0, start));
        lemma_concat_well_formed(head, tail, 0, start, end);
    }
}

/// Voice segments lie inside the scored frames, come in order without
/// overlapping, and are each at least `MIN_FRAMES` (at least 0.5 s) and at
/// most `MAX_FRAMES` (30 s) long.
pub proof fn voice_segments_well_formed(scores: Seq<u32>)
    ensures
        segments_well_formed(voice_segments(scores), 0, scores.len() as int),
{
    lemma_speech_runs_ordered(scores);
    let raw = speech_runs(scores);
    lemma_merge_ordered(raw, scores.len() as int);
    let merged = merge_runs(raw);
    lemma_split_prefix(scores, merged, scores.len() as int, merged.len() as int);
    let segs = voice_segments(scores);
    let hi = if merged.len() == 0 {
        0
    } else {
        merged[merged.len() - 1].1
    };
    assert(hi <= scores.len());
    assert forall|k: int| 0 <= k < segs.len() implies 0 <= #[trigger] segs[k].0 && segs[k].1
        <= scores.len() && MIN_FRAMES <= segs[k].1 - segs[k].0 <= MAX_FRAMES by {
        assert(0 <= segs[k].0);
        if merged.len() > 0 {
            assert(merged[merged.len() - 1].1 <= scores.len());
        }
    }
}

} // verus!

verus! {

/// Frame `t` lies in one of `runs`.
pub open spec fn in_some_run(runs: Seq<(int, int)>, t: int) -> bool {
    exists|k: int| 0 <= k < runs.len() && #[trigger] runs[k].0 <= t < runs[k].1
}

/// `run` is a maximal run of speech frames among `n` frames.
pub open spec fn is_maximal_speech_run(scores: Seq<u32>, run: (int, int)) -> bool {
    &&& forall|t: int| run.0 <= t < run.1 ==> #[trigger] is_speech(scores, t)
    &&& run.0 == 0 || !is_speech(scores, run.0 - 1)
    &&& run.1 == scores.len() || !is_speech(scores, run.1)
}

proof fn lemma_speech_state_runs(scores: Seq<u32>, m: int)
    requires
        0 <= m <= scores.len(),
    ensures
        ({
            let (runs, open, start) = speech_state(scores, m);
            &&& forall|k: int| 0 <= k < runs.len() ==> is_maximal_speech_run(scores, #[trigger] runs[k])
                && runs[k].1 < m
            &&& open ==> 0 <= start < m && (forall|t: int| start <= t < m ==> #[trigger] is_speech(scores, t))
                && (start == 0 || !is_speech(scores, start - 1))
            &&& forall|t: int|
                0 <= t < m && #[trigger] is_speech(scores, t) ==> (open && start <= t) || in_some_run(runs, t)
        }),
    decreases m,
{
    if m > 0 {
        lemma_speech_state_runs(scores, m - 1);
        lemma_speech_state(scores, m - 1);
        let (runs, open, start) = speech_state(scores, m - 1);
        let (runs2, open2, start2) = speech_state(scores, m);
        let i = m - 1;
        if is_speech(scores, i) && !open {
            assert forall|t: int| 0 <= t < m && #[trigger] is_speech(scores, t) implies (open2
                && start2 <= t) || in_some_run(runs2, t) by {
                if t < m - 1 {
                }
            }
        } else if !is_speech(scores, i) && open {
            assert(runs2 == runs.push((start, i)));
            assert forall|k: int| 0 <= k < runs2.len() implies is_maximal_speech_run(scores, #[trigger] runs2[k])
                && runs2[k].1 < m by {
                if k < runs.len() {
                    assert(runs2[k] == runs[k]);
                }
            }
            assert forall|t: int| 0 <= t < m && #[trigger] is_speech(scores, t) implies (open2
                && start2 <= t) || in_some_run(runs2, t) by {
                if open && start <= t {
                    assert(runs2[runs.len() as int] == (start, i));
                } else {
                    let k = choose|k: int| 0 <= k < runs.len() && #[trigger] runs[k].0 <= t < runs[k].1;
                    assert(runs2[k] == runs[k]);
                }
            }
        } else {
            assert forall|t: int| 0 <= t < m && #[trigger] is_speech(scores, t) implies (open2
                && start2 <= t) || in_some_run(runs2, t) by {
                if t < m - 1 {
                }
            }
        }
    }
}

/// The speech runs are exactly the maximal runs of consecutive speech
/// frames: each run is all speech and cannot be extended, and every speech
/// frame lies in one of them.
pub proof fn speech_runs_are_maximal(scores: Seq<u32>)
    ensures
        forall|k: int|
            0 <= k < speech_runs(scores).len() ==> is_maximal_speech_run(
                scores,
                #[trigger] speech_runs(scores)[k],
            ),
        forall|t: int|
            0 <= t < scores.len() && #[trigger] is_speech(scores, t) ==> in_some_run(speech_runs(scores), t),
{
    let n = scores.len() as int;
    lemma_speech_state_runs(scores, n);
    let (runs, open, start) = speech_state(scores, n);
    let r = speech_runs(scores);
    if open {
        assert(r == runs.push((start, n)));
        assert forall|k: int| 0 <= k < r.len() implies is_maximal_speech_run(scores, #[trigger] r[k]) by {
            if k < runs.len() {
                assert(r[k] == runs[k]);
            }
        }
        assert forall|t: int| 0 <= t < n && #[trigger] is_speech(scores, t) implies in_some_run(r, t) by {
            if start <= t {
                assert(r[runs.len() as int] == (start, n));
            } else {
                let k = choose|k: int| 0 <= k < runs.len() && #[trigger] runs[k].0 <= t < runs[k].1;
                assert(r[k] == runs[k]);
            }
        }
    }
}

} // verus!
