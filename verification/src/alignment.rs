//! Token-level bookkeeping of forced alignment: the prompt that places the
//! audio before the marked-up text, where the audio embeddings go, which
//! positions carry timestamp predictions, and their times.

use vstd::prelude::*;
use crate::timestamps::{fix_timestamp, fixed_timestamp_at, fixed_timestamps_sorted, timestamp_le, FixedTimestamp};
use crate::text_processor::timestamp_or_zero;

verus! {

/// Why a forced-alignment prompt cannot be used.
#[derive(Debug, Clone, Copy, PartialEq, Eq)]
pub enum AlignError {
    /// The prompt holds `found` audio-pad tokens, but the encoder produced
    /// `expected` audio frames.
    PadCountMismatch { found: usize, expected: usize },
    /// The tokenizer has no `<timestamp>` token.
    MissingTimestampToken,
    /// The prompt holds no `<timestamp>` token.
    NoTimestampTokens,
}

pub open spec fn audio_pad_text() -> Seq<char> {
    "<|audio_pad|>"@
}

/// `audio_pad_text()` repeated `n` times.
pub open spec fn repeated_pads(n: nat) -> Seq<char>
    decreases n,
{
    if n == 0 {
        Seq::empty()
    } else {
        repeated_pads((n - 1) as nat) + audio_pad_text()
    }
}

/// The alignment prompt: the audio placeholder with one pad per audio frame,
/// then the text marked up with timestamp markers.
pub open spec fn align_prompt(t_audio: nat, formatted: Seq<char>) -> Seq<char> {
    "<|audio_start|>"@ + repeated_pads(t_audio) + "<|audio_end|>"@ + formatted
}

/// Builds the alignment prompt for `t_audio` audio frames and the marked-up
/// text (see `align_prompt`).
pub fn build_align_prompt(t_audio: usize, formatted: &str) -> (p: String)
    ensures
        p@ == align_prompt(t_audio as nat, formatted@),
{
    let mut p = String::new();
    p.append("<|audio_start|>");
    let ghost head = p@;
    let mut i: usize = 0;
    while i < t_audio
        invariant
            0 <= i <= t_audio,
            p@ == head + repeated_pads(i as nat),
        decreases t_audio - i,
    {
        p.append("<|audio_pad|>");
        i = i + 1;
    }
    p.append("<|audio_end|>");
    p.append(formatted);
    p
}

/// The positions of `id` in `ids`, in order.
pub open spec fn positions_of(ids: Seq<u32>, id: u32) -> Seq<int>
    decreases ids.len(),
{
    if ids.len() == 0 {
        Seq::empty()
    } else if ids.last() == id {
        positions_of(ids.drop_last(), id).push(ids.len() - 1)
    } else {
        positions_of(ids.drop_last(), id)
    }
}

fn find_positions(ids: &[u32], id: u32) -> (p: Vec<usize>)
    ensures
        p@.map_values(|x: usize| x as int) == positions_of(ids@, id),
{
    let mut p: Vec<usize> = Vec::new();
    let mut i: usize = 0;
    while i < ids.len()
        invariant
            0 <= i <= ids.len(),
            p@.map_values(|x: usize| x as int) == positions_of(ids@.take(i as int), id),
        decreases ids.len() - i,
    {
        proof {
            assert(ids@.take(i + 1).drop_last() == ids@.take(i as int));
            assert(ids@.take(i + 1).last() == ids@[i as int]);
        }
        let ghost before = p@.map_values(|x: usize| x as int);
        if ids[i] == id {
            p.push(i);
            proof {
                assert(p@.map_values(|x: usize| x as int) == before.push(i as int));
            }
        }
        i = i + 1;
    }
    proof {
        assert(ids@.take(ids.len() as int) == ids@);
    }
    p
}

/// Where the audio embeddings replace the pad tokens: from the first pad to
/// one past the last. The number of pads must equal the number of audio
/// frames, else the error says both; with no frames and no pads there is no
/// span, and the call is not admitted.
pub fn audio_pad_span(input_ids: &[u32], audio_pad: u32, t_audio: usize) -> (r: Result<
    (usize, usize),
    AlignError,
>)
    requires
        t_audio > 0 || positions_of(input_ids@, audio_pad).len() > 0,
    ensures
        ({
            let pos = positions_of(input_ids@, audio_pad);
            &&& pos.len() != t_audio ==> r == Err::<(usize, usize), AlignError>(
                AlignError::PadCountMismatch { found: pos.len() as usize, expected: t_audio },
            )
            &&& pos.len() == t_audio ==> (r matches Ok((a, b)) && a == pos[0] && b == pos.last() + 1)
        }),
{
    let pos = find_positions(input_ids, audio_pad);
    if pos.len() != t_audio {
        return Err(AlignError::PadCountMismatch { found: pos.len(), expected: t_audio });
    }
    let last = pos[pos.len() - 1];
    proof {
        lemma_positions_bounded(input_ids@, audio_pad);
        let all = positions_of(input_ids@, audio_pad);
        assert(pos@.map_values(|x: usize| x as int)[pos.len() - 1] == last as int);
        assert(pos@.map_values(|x: usize| x as int) == all);
        assert(all.len() == pos.len());
        assert(last as int == all[all.len() - 1]);
        assert(all[all.len() - 1] < input_ids@.len());
        assert(last < input_ids.len());
    }
    Ok((pos[0], last + 1))
}

proof fn lemma_positions_bounded(ids: Seq<u32>, id: u32)
    ensures
        forall|k: int| 0 <= k < positions_of(ids, id).len() ==> 0 <= #[trigger] positions_of(ids, id)[k] < ids.len(),
        forall|k: int| 0 <= k < positions_of(ids, id).len() ==> ids[#[trigger] positions_of(ids, id)[k]] == id,
    decreases ids.len(),
{
    if ids.len() > 0 {
        let rest = ids.drop_last();
        lemma_positions_bounded(rest, id);
        let p = positions_of(ids, id);
        let q = positions_of(rest, id);
        assert forall|k: int| 0 <= k < p.len() implies 0 <= #[trigger] p[k] < ids.len() && ids[p[k]]
            == id by {
            if k < q.len() {
                assert(p[k] == q[k]);
                assert(rest[q[k]] == ids[q[k]]);
            }
        }
    }
}

/// The positions of `<timestamp>` tokens that fall within the model's
/// output (`< logit_seq_len`). Fails when the tokenizer has no such token or
/// the prompt holds none.
pub fn timestamp_positions(input_ids: &[u32], timestamp_id: Option<u32>, logit_seq_len: usize) -> (r:
    Result<Vec<usize>, AlignError>)
    ensures
        timestamp_id is None ==> r == Err::<Vec<usize>, AlignError>(AlignError::MissingTimestampToken),
        timestamp_id matches Some(id) ==> {
            let pos = positions_of(input_ids@, id);
            &&& pos.len() == 0 ==> r == Err::<Vec<usize>, AlignError>(AlignError::NoTimestampTokens)
            &&& pos.len() > 0 ==> (r matches Ok(v) && v@.map_values(|x: usize| x as int) == pos.filter(
                |p: int| p < logit_seq_len,
            ))
        },
{
    let id = match timestamp_id {
        Some(id) => id,
        None => {
            return Err(AlignError::MissingTimestampToken);
        },
    };
    let pos = find_positions(input_ids, id);
    if pos.len() == 0 {
        return Err(AlignError::NoTimestampTokens);
    }
    let ghost all = pos@.map_values(|x: usize| x as int);
    let ghost pred = |p: int| p < logit_seq_len;
    let mut kept: Vec<usize> = Vec::new();
    let mut i: usize = 0;
    while i < pos.len()
        invariant
            0 <= i <= pos.len(),
            all == pos@.map_values(|x: usize| x as int),
            pred == (|p: int| p < logit_seq_len),
            kept@.map_values(|x: usize| x as int) == all.take(i as int).filter(pred),
        decreases pos.len() - i,
    {
        proof {
            reveal_with_fuel(Seq::<int>::filter, 1);
            assert(all.take(i + 1).drop_last() == all.take(i as int));
        }
        let ghost before = kept@.map_values(|x: usize| x as int);
        if pos[i] < logit_seq_len {
            kept.push(pos[i]);
            proof {
                assert(kept@.map_values(|x: usize| x as int) == before.push(pos@[i as int] as int));
            }
        }
        i = i + 1;
    }
    proof {
        assert(all.take(pos.len() as int) == all);
    }
    Ok(kept)
}

/// The predicted times (milliseconds) of the timestamp positions: each
/// predicted class times the length of a timestamp class, repaired so they
/// never decrease (see `fix_timestamp`).
pub fn class_timestamps(classes: &[u32], segment_time: u32) -> (fixed: Vec<FixedTimestamp>)
    ensures
        fixed@.len() == classes@.len(),
        forall|k: int|
            0 <= k < classes@.len() ==> fixed@[k] == fixed_timestamp_at(
                classes@.map_values(|c: u32| (c * segment_time) as u64),
                k,
            ),
        fixed@ == repaired(classes@.map_values(|c: u32| (c * segment_time) as u64)),
{
    let mut times: Vec<u64> = Vec::new();
    let mut i: usize = 0;
    while i < classes.len()
        invariant
            0 <= i <= classes.len(),
            times@ == classes@.take(i as int).map_values(|c: u32| (c * segment_time) as u64),
        decreases classes.len() - i,
    {
        proof {
            assert(classes@[i as int] as u64 * segment_time as u64 <= u32::MAX as u64 * u32::MAX as u64) by (nonlinear_arith)
                requires classes@[i as int] <= u32::MAX, segment_time <= u32::MAX;
            assert(classes@.take(i + 1).map_values(|c: u32| (c * segment_time) as u64) == classes@.take(
                i as int,
            ).map_values(|c: u32| (c * segment_time) as u64).push((classes@[i as int] * segment_time) as u64));
        }
        times.push(classes[i] as u64 * segment_time as u64);
        i = i + 1;
    }
    proof {
        assert(classes@.take(classes.len() as int) == classes@);
    }
    let fixed = fix_timestamp(times.as_slice());
    proof {
        assert(fixed@ =~= repaired(times@));
    }
    fixed
}

/// The repaired timestamps of the predicted times `s`, in order.
pub open spec fn repaired(s: Seq<u64>) -> Seq<FixedTimestamp> {
    Seq::new(s.len(), |k: int| fixed_timestamp_at(s, k))
}

/// Aligned words never go back in time: a word ends no earlier than it
/// starts, and a later word starts no earlier than an earlier one ends,
/// for the words whose two timestamps were both predicted (word `i` takes
/// timestamps `2i` and `2i + 1`, see `parse_timestamp`).
pub proof fn word_times_ordered(s: Seq<u64>, i: int, j: int)
    requires
        s.len() <= usize::MAX,
        0 <= i < j,
        2 * j + 1 < s.len(),
    ensures
        timestamp_le(timestamp_or_zero(repaired(s), 2 * i), timestamp_or_zero(repaired(s), 2 * i + 1)),
        timestamp_le(timestamp_or_zero(repaired(s), 2 * i + 1), timestamp_or_zero(repaired(s), 2 * j)),
        timestamp_le(timestamp_or_zero(repaired(s), 2 * j), timestamp_or_zero(repaired(s), 2 * j + 1)),
{
    fixed_timestamps_sorted(s, 2 * i, 2 * i + 1);
    fixed_timestamps_sorted(s, 2 * i + 1, 2 * j);
    fixed_timestamps_sorted(s, 2 * j, 2 * j + 1);
}

} // verus!
