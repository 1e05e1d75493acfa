//! Post-processing of greedy speech-recognition output: collapsing
//! repetition loops, and separating the transcription from the language tag
//! the model emits before it.

use vstd::prelude::*;
use crate::text::{chars_of, string_from_chars, trim_range, trimmed, is_white_space, is_whitespace, is_alphabetic, char_alphabetic};

verus! {

/// A run of one character longer than this collapses to a single character.
pub const CHAR_REPEAT_THRESHOLD: usize = 20;

/// A pattern repeated this many times in a row collapses to one copy.
pub const PATTERN_REPEAT_THRESHOLD: usize = 15;

/// The longest pattern (in characters) that is looked for.
pub const MAX_PATTERN_LEN: usize = 8;

/// End (exclusive) of the maximal run of equal characters that starts at `i`.
pub open spec fn run_end(s: Seq<char>, i: int) -> int
    decreases s.len() - i,
{
    if 0 <= i && i + 1 < s.len() && s[i + 1] == s[i] {
        run_end(s, i + 1)
    } else {
        i + 1
    }
}

pub proof fn lemma_run_end_bounds(s: Seq<char>, i: int)
    requires
        0 <= i < s.len(),
    ensures
        i < run_end(s, i) <= s.len(),
    decreases s.len() - i,
{
    if i + 1 < s.len() && s[i + 1] == s[i] {
        lemma_run_end_bounds(s, i + 1);
    }
}

/// Every maximal run of one character longer than `CHAR_REPEAT_THRESHOLD`,
/// from position `i` on, replaced by a single copy of that character.
pub open spec fn collapse_runs(s: Seq<char>, i: int) -> Seq<char>
    decreases s.len() - i,
{
    if i < 0 || i >= s.len() {
        Seq::empty()
    } else {
        let e = run_end(s, i);
        proof {
            lemma_run_end_bounds(s, i);
        }
        (if e - i > CHAR_REPEAT_THRESHOLD {
            seq![s[i]]
        } else {
            s.subrange(i, e)
        }) + collapse_runs(s, e)
    }
}

/// The `k` characters at `i` occur `PATTERN_REPEAT_THRESHOLD` times in a row
/// (the text is `k`-periodic on `[i, i + 15k)`).
pub open spec fn pattern_repeats(s: Seq<char>, i: int, k: int) -> bool {
    forall|j: int| i + k <= j < i + PATTERN_REPEAT_THRESHOLD * k ==> #[trigger] s[j] == s[j - k]
}

/// The shortest pattern length `k' >= k` (up to `MAX_PATTERN_LEN`, and with
/// its repetitions inside the text) that repeats at `i`.
pub open spec fn first_pattern(s: Seq<char>, i: int, k: int) -> Option<int>
    decreases MAX_PATTERN_LEN + 1 - k,
{
    if k > MAX_PATTERN_LEN || k < 1 || i + PATTERN_REPEAT_THRESHOLD * k > s.len() {
        None
    } else if pattern_repeats(s, i, k) {
        Some(k)
    } else {
        first_pattern(s, i, k + 1)
    }
}

pub proof fn lemma_first_pattern_bounds(s: Seq<char>, i: int, k: int)
    requires
        1 <= k,
    ensures
        first_pattern(s, i, k) matches Some(p) ==> k <= p <= MAX_PATTERN_LEN && i
            + PATTERN_REPEAT_THRESHOLD * p <= s.len() && pattern_repeats(s, i, p),
    decreases MAX_PATTERN_LEN + 1 - k,
{
    if !(k > MAX_PATTERN_LEN || i + PATTERN_REPEAT_THRESHOLD * k > s.len()) && !pattern_repeats(
        s,
        i,
        k,
    ) {
        lemma_first_pattern_bounds(s, i, k + 1);
    }
}

/// End of the copies of the pattern `s[i..i + k]` that follow one another
/// from `j` on: the first position from `j`, in steps of `k`, where no
/// further copy starts.
pub open spec fn copies_end(s: Seq<char>, i: int, k: int, j: int) -> int
    decreases s.len() - j,
{
    if k >= 1 && 0 <= j && j + k <= s.len() && s.subrange(j, j + k) == s.subrange(i, i + k) {
        copies_end(s, i, k, j + k)
    } else {
        j
    }
}

pub proof fn lemma_copies_end_bounds(s: Seq<char>, i: int, k: int, j: int)
    requires
        0 <= j <= s.len(),
    ensures
        j <= copies_end(s, i, k, j) <= s.len(),
    decreases s.len() - j,
{
    if k >= 1 && 0 <= j && j + k <= s.len() && s.subrange(j, j + k) == s.subrange(i, i + k) {
        lemma_copies_end_bounds(s, i, k, j + k);
    }
}

/// Scanning from `i`: where a short pattern repeats `PATTERN_REPEAT_THRESHOLD`
/// times, one copy is kept and the scan resumes after all the copies that
/// follow one another; otherwise the character is kept and the scan moves on
/// by one. The last `2 * PATTERN_REPEAT_THRESHOLD - 1` characters are kept as
/// they are.
pub open spec fn collapse_patterns(s: Seq<char>, i: int) -> Seq<char>
    decreases s.len() - i,
{
    if i < 0 || i > s.len() {
        Seq::empty()
    } else if i + 2 * PATTERN_REPEAT_THRESHOLD > s.len() {
        s.subrange(i, s.len() as int)
    } else {
        proof {
            lemma_first_pattern_bounds(s, i, 1);
        }
        match first_pattern(s, i, 1) {
            Some(k) => {
                proof {
                    lemma_copies_end_bounds(s, i, k, i + PATTERN_REPEAT_THRESHOLD * k);
                }
                s.subrange(i, i + k) + collapse_patterns(
                    s,
                    copies_end(s, i, k, i + PATTERN_REPEAT_THRESHOLD * k),
                )
            },
            None => seq![s[i]] + collapse_patterns(s, i + 1),
        }
    }
}

/// The text after repetition loops are fixed: short texts (under
/// `2 * CHAR_REPEAT_THRESHOLD` characters) are unchanged; otherwise long runs
/// of one character collapse, and then, if at least
/// `2 * PATTERN_REPEAT_THRESHOLD` characters remain, repeated patterns
/// collapse.
pub open spec fn fixed_repetitions(s: Seq<char>) -> Seq<char> {
    if s.len() < 2 * CHAR_REPEAT_THRESHOLD {
        s
    } else {
        let f = collapse_runs(s, 0);
        if f.len() < 2 * PATTERN_REPEAT_THRESHOLD {
            f
        } else {
            collapse_patterns(f, 0)
        }
    }
}

proof fn lemma_run_end_value(s: Seq<char>, i: int, e: int, j: int)
    requires
        0 <= i <= j < e <= s.len(),
        forall|t: int| i <= t < e ==> s[t] == s[i],
        e == s.len() || s[e] != s[i],
    ensures
        run_end(s, j) == e,
    decreases e - j,
{
    if j + 1 < e {
        lemma_run_end_value(s, i, e, j + 1);
    }
}

fn collapse_runs_exec(s: &Vec<char>) -> (r: Vec<char>)
    ensures
        r@ == collapse_runs(s@, 0),
{
    let n = s.len();
    let mut out: Vec<char> = Vec::new();
    let mut i: usize = 0;
    while i < n
        invariant
            n == s.len(),
            0 <= i <= n,
            out@ + collapse_runs(s@, i as int) == collapse_runs(s@, 0),
        decreases n - i,
    {
        let c = s[i];
        let mut count: usize = 1;
        while i + count < n && s[i + count] == c
            invariant
                n == s.len(),
                0 <= i < n,
                1 <= count <= n - i,
                c == s@[i as int],
                forall|t: int| i <= t < i + count ==> s@[t] == c,
            decreases n - i - count,
        {
            count = count + 1;
        }
        proof {
            lemma_run_end_value(s@, i as int, (i + count) as int, i as int);
        }
        let ghost before = out@;
        if count > CHAR_REPEAT_THRESHOLD {
            out.push(c);
        } else {
            let mut j: usize = 0;
            while j < count
                invariant
                    n == s.len(),
                    0 <= i < n,
                    1 <= count <= n - i,
                    0 <= j <= count,
                    out@ == before + s@.subrange(i as int, i + j),
                decreases count - j,
            {
                proof {
                    assert(s@.subrange(i as int, i + j + 1) == s@.subrange(i as int, i + j).push(
                        s@[i + j],
                    ));
                }
                out.push(s[i + j]);
                j = j + 1;
            }
        }
        proof {
            let piece = if count > CHAR_REPEAT_THRESHOLD {
                seq![c]
            } else {
                s@.subrange(i as int, i + count)
            };
            assert(out@ == before + piece);
            assert(collapse_runs(s@, i as int) == piece + collapse_runs(s@, i + count));
            assert(out@ + collapse_runs(s@, i + count) == before + collapse_runs(s@, i as int));
        }
        i = i + count;
    }
    proof {
        assert(out@ + collapse_runs(s@, n as int) == out@);
    }
    out
}

/// Whether the `k` characters at `i` repeat `PATTERN_REPEAT_THRESHOLD` times.
fn repeats_at(s: &Vec<char>, i: usize, k: usize) -> (r: bool)
    requires
        1 <= k <= MAX_PATTERN_LEN,
        i + PATTERN_REPEAT_THRESHOLD * k <= s.len(),
    ensures
        r == pattern_repeats(s@, i as int, k as int),
{
    let end = i + PATTERN_REPEAT_THRESHOLD * k;
    let mut j: usize = i + k;
    while j < end
        invariant
            end == i + PATTERN_REPEAT_THRESHOLD * k,
            end <= s.len(),
            i + k <= j <= end,
            forall|t: int| i + k <= t < j ==> #[trigger] s@[t] == s@[t - k],
        decreases end - j,
    {
        if s[j] != s[j - k] {
            return false;
        }
        j = j + 1;
    }
    true
}

/// Whether the `k` characters at `j` equal those at `i`.
fn same_at(s: &Vec<char>, i: usize, j: usize, k: usize) -> (r: bool)
    requires
        i + k <= s.len(),
        j + k <= s.len(),
    ensures
        r == (s@.subrange(j as int, j + k) == s@.subrange(i as int, i + k)),
{
    let mut t: usize = 0;
    while t < k
        invariant
            i + k <= s.len(),
            j + k <= s.len(),
            0 <= t <= k,
            forall|q: int| 0 <= q < t ==> #[trigger] s@[j + q] == s@[i + q],
        decreases k - t,
    {
        if s[j + t] != s[i + t] {
            proof {
                assert(s@.subrange(j as int, j + k)[t as int] != s@.subrange(i as int, i + k)[t as int]);
            }
            return false;
        }
        t = t + 1;
    }
    proof {
        assert forall|q: int| 0 <= q < k implies #[trigger] s@.subrange(j as int, j + k)[q]
            == s@.subrange(i as int, i + k)[q] by {
            assert(s@[j + q] == s@[i + q]);
        }
        assert(s@.subrange(j as int, j + k) =~= s@.subrange(i as int, i + k));
    }
    true
}

fn collapse_patterns_exec(s: &Vec<char>) -> (r: Vec<char>)
    ensures
        r@ == collapse_patterns(s@, 0),
{
    let n = s.len();
    let mut out: Vec<char> = Vec::new();
    let mut i: usize = 0;
    while 2 * PATTERN_REPEAT_THRESHOLD <= n - i
        invariant
            n == s.len(),
            0 <= i <= n,
            out@ + collapse_patterns(s@, i as int) == collapse_patterns(s@, 0),
        decreases n - i,
    {
        let mut found: Option<usize> = None;
        let mut k: usize = 1;
        while k <= MAX_PATTERN_LEN && found.is_none()
            invariant
                n == s.len(),
                i + 2 * PATTERN_REPEAT_THRESHOLD <= n,
                1 <= k <= MAX_PATTERN_LEN + 1,
                found.is_none() ==> first_pattern(s@, i as int, 1) == first_pattern(
                    s@,
                    i as int,
                    k as int,
                ),
                found matches Some(p) ==> first_pattern(s@, i as int, 1) == Some(p as int),
            decreases MAX_PATTERN_LEN + 1 - k, (if found.is_none() { 1int } else { 0int }),
        {
            if PATTERN_REPEAT_THRESHOLD * k > n - i {
                proof {
                    assert(first_pattern(s@, i as int, k as int) == None::<int>);
                }
                k = MAX_PATTERN_LEN + 1;
            } else if repeats_at(s, i, k) {
                found = Some(k);
            } else {
                k = k + 1;
            }
        }
        proof {
            lemma_first_pattern_bounds(s@, i as int, 1);
        }
        let ghost before = out@;
        match found {
            Some(k) => {
                let mut t: usize = 0;
                while t < k
                    invariant
                        n == s.len(),
                        1 <= k <= MAX_PATTERN_LEN,
                        i + PATTERN_REPEAT_THRESHOLD * k <= n,
                        0 <= t <= k,
                        out@ == before + s@.subrange(i as int, i + t),
                    decreases k - t,
                {
                    proof {
                        assert(s@.subrange(i as int, i + t + 1) == s@.subrange(i as int, i + t).push(
                            s@[i + t],
                        ));
                    }
                    out.push(s[i + t]);
                    t = t + 1;
                }
                let start = i + PATTERN_REPEAT_THRESHOLD * k;
                let mut j = start;
                proof {
                    lemma_copies_end_bounds(s@, i as int, k as int, start as int);
                }
                while k <= n - j && same_at(s, i, j, k)
                    invariant
                        n == s.len(),
                        1 <= k <= MAX_PATTERN_LEN,
                        i + PATTERN_REPEAT_THRESHOLD * k == start,
                        start <= j <= n,
                        copies_end(s@, i as int, k as int, j as int) == copies_end(
                            s@,
                            i as int,
                            k as int,
                            start as int,
                        ),
                    decreases n - j,
                {
                    j = j + k;
                }
                proof {
                    assert(copies_end(s@, i as int, k as int, j as int) == j);
                    assert(collapse_patterns(s@, i as int) == s@.subrange(i as int, i + k)
                        + collapse_patterns(s@, j as int));
                    assert(out@ + collapse_patterns(s@, j as int) == before + collapse_patterns(
                        s@,
                        i as int,
                    ));
                }
                i = j;
            },
            None => {
                out.push(s[i]);
                proof {
                    assert(collapse_patterns(s@, i as int) == seq![s@[i as int]] + collapse_patterns(
                        s@,
                        i + 1,
                    ));
                    assert(out@ + collapse_patterns(s@, i + 1) == before + collapse_patterns(
                        s@,
                        i as int,
                    ));
                }
                i = i + 1;
            },
        }
    }
    let ghost before = out@;
    let mut t: usize = i;
    while t < n
        invariant
            n == s.len(),
            0 <= i <= t <= n,
            out@ == before + s@.subrange(i as int, t as int),
        decreases n - t,
    {
        proof {
            assert(s@.subrange(i as int, t + 1) == s@.subrange(i as int, t as int).push(s@[t as int]));
        }
        out.push(s[t]);
        t = t + 1;
    }
    out
}

/// Fixes repetition loops common in greedy decoding: runs of one character
/// longer than `CHAR_REPEAT_THRESHOLD` keep one character, and a pattern of
/// up to `MAX_PATTERN_LEN` characters repeated at least
/// `PATTERN_REPEAT_THRESHOLD` times keeps one copy.
pub fn fix_repetitions(text: &str) -> (r: String)
    ensures
        r@ == fixed_repetitions(text@),
{
    let chars = chars_of(text);
    if chars.len() < 2 * CHAR_REPEAT_THRESHOLD {
        return string_from_chars(&chars);
    }
    let fixed = collapse_runs_exec(&chars);
    if fixed.len() < 2 * PATTERN_REPEAT_THRESHOLD {
        return string_from_chars(&fixed);
    }
    let out = collapse_patterns_exec(&fixed);
    string_from_chars(&out)
}

} // verus!

verus! {

proof fn lemma_collapse_runs_len(s: Seq<char>, i: int)
    requires
        0 <= i <= s.len(),
    ensures
        collapse_runs(s, i).len() <= s.len() - i,
    decreases s.len() - i,
{
    if i < s.len() {
        lemma_run_end_bounds(s, i);
        lemma_collapse_runs_len(s, run_end(s, i));
    }
}

proof fn lemma_collapse_patterns_len(s: Seq<char>, i: int)
    requires
        0 <= i <= s.len(),
    ensures
        collapse_patterns(s, i).len() <= s.len() - i,
    decreases s.len() - i,
{
    if i + 2 * PATTERN_REPEAT_THRESHOLD <= s.len() {
        lemma_first_pattern_bounds(s, i, 1);
        match first_pattern(s, i, 1) {
            Some(k) => {
                lemma_copies_end_bounds(s, i, k, i + PATTERN_REPEAT_THRESHOLD * k);
                lemma_collapse_patterns_len(s, copies_end(s, i, k, i + PATTERN_REPEAT_THRESHOLD * k));
            },
            None => lemma_collapse_patterns_len(s, i + 1),
        }
    }
}

/// Fixing repetitions never makes a text longer.
pub proof fn fix_repetitions_never_lengthens(s: Seq<char>)
    ensures
        fixed_repetitions(s).len() <= s.len(),
{
    lemma_collapse_runs_len(s, 0);
    lemma_collapse_patterns_len(collapse_runs(s, 0), 0);
}

} // verus!

verus! {

/// Decoding stops at `next` when it is an end-of-sequence token, the
/// `<|im_end|>` token, or when the last five generated tokens alternate
/// `a b a b a` (after at least ten tokens) and `next` is `a` again.
pub open spec fn stops_at(generated: Seq<u32>, next: u32, eos_ids: Seq<u32>, im_end: u32) -> bool {
    let n = generated.len() as int;
    ||| eos_ids.contains(next)
    ||| next == im_end
    ||| (n >= 10 && generated[n - 5] == generated[n - 3] && generated[n - 3] == generated[n - 1]
        && generated[n - 4] == generated[n - 2] && generated[n - 5] == next)
}

/// Decides whether greedy decoding goes on with the token `next`: if it
/// does, `next` is appended to `generated` and the result is `true`; at a
/// stop (see `stops_at`) nothing changes and the result is `false`.
pub fn accept_token(generated: &mut Vec<u32>, next: u32, eos_ids: &[u32], im_end: u32) -> (go_on:
    bool)
    ensures
        go_on == !stops_at(old(generated)@, next, eos_ids@, im_end),
        go_on ==> final(generated)@ == old(generated)@.push(next),
        !go_on ==> final(generated)@ == old(generated)@,
{
    let mut k: usize = 0;
    while k < eos_ids.len()
        invariant
            0 <= k <= eos_ids.len(),
            forall|t: int| 0 <= t < k ==> eos_ids@[t] != next,
        decreases eos_ids.len() - k,
    {
        if eos_ids[k] == next {
            proof {
                assert(eos_ids@.contains(next));
            }
            return false;
        }
        k = k + 1;
    }
    if next == im_end {
        return false;
    }
    let n = generated.len();
    if n >= 10 {
        let a = generated[n - 5];
        let b = generated[n - 4];
        let c = generated[n - 3];
        let d = generated[n - 2];
        let e = generated[n - 1];
        if a == c && c == e && b == d && a == next {
            return false;
        }
    }
    generated.push(next);
    true
}

/// Decoding stops after step `step` when `step` is a positive multiple of
/// 16, at least twenty tokens were generated, and the first half of them
/// (longer than three tokens) is repeated right after itself.
pub open spec fn halves_repeat(generated: Seq<u32>, step: int) -> bool {
    let half = generated.len() as int / 2;
    &&& step > 0
    &&& step % 16 == 0
    &&& generated.len() >= 20
    &&& half > 3
    &&& generated.subrange(0, half) == generated.subrange(half, 2 * half)
}

/// Checks for a repeated pattern after decoding step `step`: when the
/// generated tokens repeat their first half (see `halves_repeat`) they are
/// cut back to that half and the result is `true`; otherwise nothing changes.
pub fn stop_on_repeated_half(generated: &mut Vec<u32>, step: usize) -> (stop: bool)
    ensures
        stop == halves_repeat(old(generated)@, step as int),
        stop ==> final(generated)@ == old(generated)@.subrange(0, old(generated)@.len() as int / 2),
        !stop ==> final(generated)@ == old(generated)@,
{
    if !(step > 0 && step % 16 == 0 && generated.len() >= 20) {
        return false;
    }
    let half = generated.len() / 2;
    let mut t: usize = 0;
    while t < half
        invariant
            half == generated.len() / 2,
            0 <= t <= half,
            forall|q: int| 0 <= q < t ==> #[trigger] generated@[q] == generated@[half + q],
        decreases half - t,
    {
        if generated[t] != generated[half + t] {
            proof {
                assert(generated@.subrange(0, half as int)[t as int] != generated@.subrange(
                    half as int,
                    2 * half,
                )[t as int]);
            }
            return false;
        }
        t = t + 1;
    }
    proof {
        assert(generated@.subrange(0, half as int) =~= generated@.subrange(half as int, 2 * half));
    }
    if half > 3 {
        generated.truncate(half);
        true
    } else {
        false
    }
}

} // verus!

verus! {

/// The first position at or after `i` where `pat` occurs in `s`.
pub open spec fn find_from(s: Seq<char>, pat: Seq<char>, i: int) -> Option<int>
    decreases s.len() - i,
{
    if i < 0 || i + pat.len() > s.len() {
        None
    } else if pat.len() == 0 || s.subrange(i, i + pat.len()) == pat {
        Some(i)
    } else {
        find_from(s, pat, i + 1)
    }
}

/// The first position at or after `i` holding white space or a character
/// that is not alphabetic: where a language name ends.
pub open spec fn word_boundary_from(s: Seq<char>, i: int) -> Option<int>
    decreases s.len() - i,
{
    if i < 0 || i >= s.len() {
        None
    } else if is_white_space(s[i]) || !char_alphabetic(s[i]) {
        Some(i)
    } else {
        word_boundary_from(s, i + 1)
    }
}

pub open spec fn language_prefix() -> Seq<char> {
    "language "@
}

pub open spec fn asr_text_marker() -> Seq<char> {
    "<asr_text>"@
}

/// The transcription in decoded model output: the output trimmed, and, when
/// it starts with `language `, the text after the `<asr_text>` marker, or
/// failing that the text after the language name; both trimmed.
pub open spec fn without_language_tag(decoded: Seq<char>) -> Seq<char> {
    let raw = trimmed(decoded);
    let pre = language_prefix();
    if raw.len() >= pre.len() && raw.subrange(0, pre.len() as int) == pre {
        let rest = raw.subrange(pre.len() as int, raw.len() as int);
        let marker = asr_text_marker();
        match find_from(rest, marker, 0) {
            Some(p) => trimmed(rest.subrange(p + marker.len(), rest.len() as int)),
            None => match word_boundary_from(rest, 0) {
                Some(cut) => if cut > 0 {
                    trimmed(rest.subrange(cut, rest.len() as int))
                } else {
                    raw
                },
                None => raw,
            },
        }
    } else {
        raw
    }
}

proof fn lemma_find_from_bound(s: Seq<char>, pat: Seq<char>, i: int)
    ensures
        find_from(s, pat, i) matches Some(p) ==> i <= p && p + pat.len() <= s.len() && s.subrange(p, p + pat.len()) == pat,
    decreases s.len() - i,
{
    if !(i < 0 || i + pat.len() > s.len()) && pat.len() != 0 && s.subrange(i, i + pat.len())
        != pat {
        lemma_find_from_bound(s, pat, i + 1);
    }
    if !(i < 0 || i + pat.len() > s.len()) && pat.len() == 0 {
        assert(s.subrange(i, i + pat.len()) =~= pat);
    }
}

proof fn lemma_word_boundary_bound(s: Seq<char>, i: int)
    ensures
        word_boundary_from(s, i) matches Some(p) ==> i <= p < s.len(),
    decreases s.len() - i,
{
    if !(i < 0 || i >= s.len()) && !(is_white_space(s[i]) || !char_alphabetic(s[i])) {
        lemma_word_boundary_bound(s, i + 1);
    }
}

/// Whether `pat` occurs in `v` at position `at`.
fn occurs_at(v: &Vec<char>, pat: &Vec<char>, at: usize) -> (r: bool)
    requires
        at + pat.len() <= v.len(),
    ensures
        r == (v@.subrange(at as int, at + pat.len()) == pat@),
{
    let mut t: usize = 0;
    while t < pat.len()
        invariant
            at + pat.len() <= v.len(),
            0 <= t <= pat.len(),
            forall|q: int| 0 <= q < t ==> v@[at + q] == #[trigger] pat@[q],
        decreases pat.len() - t,
    {
        if v[at + t] != pat[t] {
            proof {
                assert(v@.subrange(at as int, at + pat.len())[t as int] != pat@[t as int]);
            }
            return false;
        }
        t = t + 1;
    }
    proof {
        assert(v@.subrange(at as int, at + pat.len()) =~= pat@);
    }
    true
}

/// The transcription in decoded model output, without the language tag the
/// model writes before it (see `without_language_tag`).
pub fn strip_language_tag(decoded: &str) -> (text: String)
    ensures
        text@ == without_language_tag(decoded@),
{
    proof {
        reveal_strlit("<asr_text>");
        reveal_strlit("language ");
    }
    let raw_string = crate::text::trim(decoded);
    let raw = chars_of(raw_string.as_str());
    let pre = chars_of("language ");
    let marker = chars_of("<asr_text>");
    let n = raw.len();
    proof {
        assert(raw@.subrange(0, n as int) == raw@);
    }
    if !(pre.len() <= n && occurs_at(&raw, &pre, 0)) {
        return raw_string;
    }
    let start = pre.len();
    let ghost rest = raw@.subrange(start as int, n as int);
    let mut p = start;
    let mut found = false;
    while !found && marker.len() <= n - p
        invariant
            start <= p <= n,
            n == raw.len(),
            marker.len() == 10,
            rest == raw@.subrange(start as int, n as int),
            !found ==> find_from(rest, marker@, 0) == find_from(rest, marker@, p - start),
            found ==> p + marker.len() <= n && find_from(rest, marker@, 0) == Some(p - start),
        decreases n - p, (if found { 0int } else { 1int }),
    {
        if occurs_at(&raw, &marker, p) {
            proof {
                assert(rest.subrange(p - start, p - start + marker.len()) == raw@.subrange(p as int, p + marker.len()));
            }
            found = true;
        } else {
            proof {
                assert(rest.subrange(p - start, p - start + marker.len()) == raw@.subrange(p as int, p + marker.len()));
            }
            p = p + 1;
        }
    }
    if found {
        proof {
            assert(rest.subrange(p - start + marker.len(), rest.len() as int) == raw@.subrange(p + marker.len(), n as int));
        }
        return trim_range(&raw, p + marker.len(), n);
    }
    let mut c = start;
    while c < n && !is_whitespace(raw[c]) && is_alphabetic(raw[c])
        invariant
            start <= c <= n,
            n == raw.len(),
            rest == raw@.subrange(start as int, n as int),
            word_boundary_from(rest, 0) == word_boundary_from(rest, c - start),
        decreases n - c,
    {
        proof {
            assert(rest[c - start] == raw@[c as int]);
        }
        c = c + 1;
    }
    if c < n {
        proof {
            assert(rest[c - start] == raw@[c as int]);
            assert(word_boundary_from(rest, c - start) == Some(c - start));
        }
        if c > start {
            proof {
                assert(rest.subrange(c - start, rest.len() as int) == raw@.subrange(c as int, n as int));
            }
            return trim_range(&raw, c, n);
        }
    }
    raw_string
}

} // verus!

verus! {

/// Tokens generated at most per segment.
pub const MAX_NEW_TOKENS: usize = 256;

/// What the greedy decoding loop does after a token was chosen.
#[derive(Debug, Clone, Copy, PartialEq, Eq)]
pub enum DecodeAction {
    /// Run the model on `token` at sequence position `position`, then report
    /// the most likely next token.
    Feed { token: u32, position: usize },
    /// Decoding is over; `generated` holds the result.
    Stop,
}

/// The decisions of greedy decoding, one chosen token at a time: which
/// tokens are kept, where the next one goes, and when to stop.
pub struct GreedyDecoder {
    /// The tokens kept so far.
    pub generated: Vec<u32>,
    /// How many tokens were fed back to the model.
    pub step: usize,
    /// The most tokens that are fed back.
    pub max_new: usize,
    /// The sequence position of the next token fed back.
    pub position: usize,
    /// End-of-sequence token ids.
    pub eos_ids: Vec<u32>,
    /// The `<|im_end|>` token id, which also ends decoding.
    pub im_end: u32,
    /// Set once decoding has stopped.
    pub finished: bool,
}

impl GreedyDecoder {
    /// No more tokens are kept than were fed back, no more are fed back than
    /// `max_new`, and the positions of all that can still be fed back fit in
    /// `usize`.
    pub open spec fn wf(&self) -> bool {
        &&& self.generated@.len() <= self.step
        &&& self.step <= self.max_new
        &&& self.position + (self.max_new - self.step) <= usize::MAX
    }

    /// Starts decoding after a prompt of `prompt_len` tokens, feeding back
    /// at most `max_new` tokens.
    pub fn new(prompt_len: usize, max_new: usize, eos_ids: Vec<u32>, im_end: u32) -> (d: Self)
        requires
            prompt_len + max_new <= usize::MAX,
        ensures
            d.wf(),
            d.generated@.len() == 0,
            d.step == 0,
            d.max_new == max_new,
            d.position == prompt_len,
            d.eos_ids@ == eos_ids@,
            d.im_end == im_end,
            !d.finished,
    {
        GreedyDecoder {
            generated: Vec::new(),
            step: 0,
            max_new,
            position: prompt_len,
            eos_ids,
            im_end,
            finished: false,
        }
    }

    /// Takes the model's most likely next token. Once stopped, or when
    /// `max_new` tokens were fed back, decoding stays stopped. Otherwise the
    /// token ends decoding when `stops_at` holds; else it is kept, and if the
    /// kept tokens then repeat their first half (`halves_repeat` at this
    /// step) they are cut back to that half and decoding stops; else the
    /// token is fed back at the next position.
    pub fn on_token(&mut self, next: u32) -> (a: DecodeAction)
        requires
            old(self).wf(),
        ensures
            final(self).wf(),
            final(self).max_new == old(self).max_new,
            final(self).eos_ids@ == old(self).eos_ids@,
            final(self).im_end == old(self).im_end,
            (old(self).finished || old(self).step >= old(self).max_new) ==> a == DecodeAction::Stop
                && final(self).generated@ == old(self).generated@ && final(self).finished,
            !(old(self).finished || old(self).step >= old(self).max_new) && stops_at(
                old(self).generated@,
                next,
                old(self).eos_ids@,
                old(self).im_end,
            ) ==> a == DecodeAction::Stop && final(self).generated@ == old(self).generated@
                && final(self).finished,
            !(old(self).finished || old(self).step >= old(self).max_new) && !stops_at(
                old(self).generated@,
                next,
                old(self).eos_ids@,
                old(self).im_end,
            ) ==> ({
                let kept = old(self).generated@.push(next);
                if halves_repeat(kept, old(self).step as int) {
                    &&& a == DecodeAction::Stop
                    &&& final(self).generated@ == kept.subrange(0, kept.len() as int / 2)
                    &&& final(self).finished
                } else {
                    &&& a == (DecodeAction::Feed { token: next, position: old(self).position })
                    &&& final(self).generated@ == kept
                    &&& final(self).step == old(self).step + 1
                    &&& final(self).position == old(self).position + 1
                    &&& !final(self).finished
                }
            }),
    {
        if self.finished || self.step >= self.max_new {
            self.finished = true;
            return DecodeAction::Stop;
        }
        let go_on = accept_token(&mut self.generated, next, self.eos_ids.as_slice(), self.im_end);
        if !go_on {
            self.finished = true;
            return DecodeAction::Stop;
        }
        let step = self.step;
        if stop_on_repeated_half(&mut self.generated, step) {
            self.finished = true;
            return DecodeAction::Stop;
        }
        let position = self.position;
        self.step = step + 1;
        self.position = position + 1;
        DecodeAction::Feed { token: next, position }
    }
}

/// Which tokens end greedy decoding: any token listed among the
/// end-of-sequence ids, wherever it stands in the list, and `<|im_end|>`;
/// with fewer than ten tokens generated, nothing else.
pub proof fn end_tokens_stop_decoding(generated: Seq<u32>, next: u32, eos_ids: Seq<u32>, im_end: u32)
    ensures
        forall|k: int| 0 <= k < eos_ids.len() && #[trigger] eos_ids[k] == next ==> stops_at(
            generated,
            next,
            eos_ids,
            im_end,
        ),
        next == im_end ==> stops_at(generated, next, eos_ids, im_end),
        generated.len() < 10 ==> (stops_at(generated, next, eos_ids, im_end) <==> (eos_ids.contains(
            next,
        ) || next == im_end)),
        forall|x: u32, y: u32|
            generated.len() >= 10 && #[trigger] generated.subrange(
                generated.len() - 5,
                generated.len() as int,
            ) == seq![x, y, x, y, x] ==> (stops_at(generated, x, eos_ids, im_end)),
        !eos_ids.contains(next) && next != im_end && stops_at(generated, next, eos_ids, im_end)
            ==> generated.len() >= 10 && generated.subrange(
            generated.len() - 5,
            generated.len() as int,
        ) + seq![next] == seq![next, generated[generated.len() - 4], next, generated[generated.len()
            - 4], next, next],
{
    assert forall|k: int| 0 <= k < eos_ids.len() && #[trigger] eos_ids[k] == next implies stops_at(
        generated,
        next,
        eos_ids,
        im_end,
    ) by {
        assert(eos_ids.contains(next));
    }
    let n = generated.len() as int;
    assert forall|x: u32, y: u32|
        generated.len() >= 10 && #[trigger] generated.subrange(n - 5, n) == seq![x, y, x, y, x] implies stops_at(
        generated,
        x,
        eos_ids,
        im_end,
    ) by {
        let t = generated.subrange(n - 5, n);
        assert(t[0] == generated[n - 5] && t[1] == generated[n - 4] && t[2] == generated[n - 3]
            && t[3] == generated[n - 2] && t[4] == generated[n - 1]);
    }
    if !eos_ids.contains(next) && next != im_end && stops_at(generated, next, eos_ids, im_end) {
        assert(generated.subrange(n - 5, n) + seq![next] =~= seq![
            next,
            generated[n - 4],
            next,
            generated[n - 4],
            next,
            next,
        ]);
    }
}

} // verus!

verus! {

/// The character at `i` occurs more than `CHAR_REPEAT_THRESHOLD` times in a
/// row from `i` on.
pub open spec fn long_run_at(s: Seq<char>, i: int) -> bool {
    &&& 0 <= i
    &&& i + CHAR_REPEAT_THRESHOLD + 1 <= s.len()
    &&& forall|t: int| i <= t < i + CHAR_REPEAT_THRESHOLD + 1 ==> #[trigger] s[t] == s[i]
}

/// Some character occurs more than `CHAR_REPEAT_THRESHOLD` times in a row.
pub open spec fn has_long_run(s: Seq<char>) -> bool {
    exists|i: int| #[trigger] long_run_at(s, i)
}

/// The `k` characters at `i` occur `PATTERN_REPEAT_THRESHOLD` times in a
/// row: the blocks `s[i + r*k .. i + (r+1)*k]` are all equal to the first.
pub open spec fn copies_at(s: Seq<char>, i: int, k: int) -> bool {
    &&& 0 <= i
    &&& i + PATTERN_REPEAT_THRESHOLD * k <= s.len()
    &&& forall|r: int|
        0 <= r < PATTERN_REPEAT_THRESHOLD ==> #[trigger] s.subrange(i + r * k, i + r * k + k)
            == s.subrange(i, i + k)
}

/// Some pattern of one to `MAX_PATTERN_LEN` characters occurs
/// `PATTERN_REPEAT_THRESHOLD` times in a row.
pub open spec fn has_repeated_pattern(s: Seq<char>) -> bool {
    exists|i: int, k: int| 1 <= k <= MAX_PATTERN_LEN && #[trigger] copies_at(s, i, k)
}

proof fn lemma_run_end_same(s: Seq<char>, i: int, t: int)
    requires
        0 <= i <= t < run_end(s, i),
        i < s.len(),
    ensures
        s[t] == s[i],
    decreases s.len() - i,
{
    if t > i {
        lemma_run_end_same(s, i + 1, t);
    }
}

proof fn lemma_runs_kept(s: Seq<char>, i: int)
    requires
        0 <= i <= s.len(),
        !has_long_run(s),
    ensures
        collapse_runs(s, i) == s.subrange(i, s.len() as int),
    decreases s.len() - i,
{
    if i < s.len() {
        let e = run_end(s, i);
        lemma_run_end_bounds(s, i);
        if e - i > CHAR_REPEAT_THRESHOLD {
            assert forall|t: int| i <= t < i + CHAR_REPEAT_THRESHOLD + 1 implies #[trigger] s[t] == s[i] by {
                lemma_run_end_same(s, i, t);
            }
            assert(long_run_at(s, i));
            assert(has_long_run(s));
        }
        lemma_runs_kept(s, e);
        assert(s.subrange(i, e) + s.subrange(e, s.len() as int) =~= s.subrange(i, s.len() as int));
    } else {
        assert(s.subrange(i, s.len() as int) =~= Seq::<char>::empty());
    }
}

proof fn lemma_periodic_blocks(s: Seq<char>, i: int, k: int, r: int, t: int)
    requires
        1 <= k,
        0 <= i,
        i + PATTERN_REPEAT_THRESHOLD * k <= s.len(),
        pattern_repeats(s, i, k),
        0 <= r < PATTERN_REPEAT_THRESHOLD,
        0 <= t < k,
    ensures
        s[i + r * k + t] == s[i + t],
    decreases r,
{
    if r > 0 {
        lemma_periodic_blocks(s, i, k, r - 1, t);
        let j = i + r * k + t;
        assert((r - 1) * k == r * k - k) by (nonlinear_arith);
        assert(k <= r * k) by (nonlinear_arith)
            requires
                r >= 1,
                k >= 1,
        ;
        assert(r * k + k <= PATTERN_REPEAT_THRESHOLD * k) by (nonlinear_arith)
            requires
                r + 1 <= PATTERN_REPEAT_THRESHOLD,
                k >= 1,
        ;
        assert(i + k <= j < i + PATTERN_REPEAT_THRESHOLD * k);
        assert(s[j] == s[j - k]);
        assert(j - k == i + (r - 1) * k + t);
    } else {
        assert(r * k == 0) by (nonlinear_arith)
            requires
                r == 0,
        ;
    }
}

proof fn lemma_no_pattern_repeats(s: Seq<char>, i: int, k: int)
    requires
        1 <= k <= MAX_PATTERN_LEN,
        0 <= i,
        i + PATTERN_REPEAT_THRESHOLD * k <= s.len(),
        !has_repeated_pattern(s),
    ensures
        !pattern_repeats(s, i, k),
{
    if pattern_repeats(s, i, k) {
        assert forall|r: int| 0 <= r < PATTERN_REPEAT_THRESHOLD implies #[trigger] s.subrange(
            i + r * k,
            i + r * k + k,
        ) == s.subrange(i, i + k) by {
            assert(0 <= r * k) by (nonlinear_arith)
                requires
                    r >= 0,
                    k >= 1,
            ;
            assert(r * k + k <= PATTERN_REPEAT_THRESHOLD * k) by (nonlinear_arith)
                requires
                    r + 1 <= PATTERN_REPEAT_THRESHOLD,
                    k >= 1,
            ;
            assert forall|t: int| 0 <= t < k implies #[trigger] s.subrange(i + r * k, i + r * k + k)[t]
                == s.subrange(i, i + k)[t] by {
                lemma_periodic_blocks(s, i, k, r, t);
            }
            assert(s.subrange(i + r * k, i + r * k + k) =~= s.subrange(i, i + k));
        }
        assert(copies_at(s, i, k));
        assert(has_repeated_pattern(s));
    }
}

proof fn lemma_first_pattern_none(s: Seq<char>, i: int, k: int)
    requires
        1 <= k,
        0 <= i,
        !has_repeated_pattern(s),
    ensures
        first_pattern(s, i, k) is None,
    decreases MAX_PATTERN_LEN + 1 - k,
{
    if !(k > MAX_PATTERN_LEN || i + PATTERN_REPEAT_THRESHOLD * k > s.len()) {
        lemma_no_pattern_repeats(s, i, k);
        lemma_first_pattern_none(s, i, k + 1);
    }
}

proof fn lemma_patterns_kept(s: Seq<char>, i: int)
    requires
        0 <= i <= s.len(),
        !has_repeated_pattern(s),
    ensures
        collapse_patterns(s, i) == s.subrange(i, s.len() as int),
    decreases s.len() - i,
{
    if i + 2 * PATTERN_REPEAT_THRESHOLD <= s.len() {
        lemma_first_pattern_none(s, i, 1);
        lemma_patterns_kept(s, i + 1);
        assert(seq![s[i]] + s.subrange(i + 1, s.len() as int) =~= s.subrange(i, s.len() as int));
    }
}

/// A text without a repetition loop (no character more than
/// `CHAR_REPEAT_THRESHOLD` times in a row, no pattern of up to
/// `MAX_PATTERN_LEN` characters `PATTERN_REPEAT_THRESHOLD` times in a row)
/// is left unchanged.
pub proof fn text_without_loops_is_kept(s: Seq<char>)
    requires
        !has_long_run(s),
        !has_repeated_pattern(s),
    ensures
        fixed_repetitions(s) == s,
{
    if s.len() >= 2 * CHAR_REPEAT_THRESHOLD {
        lemma_runs_kept(s, 0);
        assert(s.subrange(0, s.len() as int) =~= s);
        lemma_patterns_kept(s, 0);
    }
}

/// `t` is `s` with the `k` characters at `j` taken out, where those
/// characters are a copy of the `k` characters just before them and
/// `1 <= k <= MAX_PATTERN_LEN`.
pub open spec fn drops_copy_at(s: Seq<char>, t: Seq<char>, j: int, k: int) -> bool {
    &&& 1 <= k <= MAX_PATTERN_LEN
    &&& k <= j
    &&& j + k <= s.len()
    &&& s.subrange(j, j + k) == s.subrange(j - k, j)
    &&& t == s.subrange(0, j) + s.subrange(j + k, s.len() as int)
}

/// `t` comes from `s` by `n` such removals of a copy, one after another.
pub open spec fn drops_copies(s: Seq<char>, t: Seq<char>, n: nat) -> bool
    decreases n,
{
    if n == 0 {
        t == s
    } else {
        exists|u: Seq<char>, j: int, k: int|
            #[trigger] drops_copy_at(s, u, j, k) && drops_copies(u, t, (n - 1) as nat)
    }
}

proof fn lemma_drops_one(s: Seq<char>, u: Seq<char>, j: int, k: int)
    requires
        drops_copy_at(s, u, j, k),
    ensures
        drops_copies(s, u, 1),
{
    assert(drops_copies(u, u, 0));
    assert(drops_copy_at(s, u, j, k) && drops_copies(u, u, 0));
}

proof fn lemma_drops_trans(s: Seq<char>, u: Seq<char>, t: Seq<char>, n: nat, m: nat)
    requires
        drops_copies(s, u, n),
        drops_copies(u, t, m),
    ensures
        drops_copies(s, t, n + m),
    decreases n,
{
    if n > 0 {
        let (v, j, k) = choose|v: Seq<char>, j: int, k: int|
            #[trigger] drops_copy_at(s, v, j, k) && drops_copies(v, u, (n - 1) as nat);
        lemma_drops_trans(v, u, t, (n - 1) as nat, m);
        assert(((n - 1) as nat + m) as nat == (n + m - 1) as nat);
        assert(drops_copy_at(s, v, j, k) && drops_copies(v, t, (n + m - 1) as nat));
    }
}

proof fn lemma_drops_append(s: Seq<char>, t: Seq<char>, r: Seq<char>, n: nat)
    requires
        drops_copies(s, t, n),
    ensures
        drops_copies(s + r, t + r, n),
    decreases n,
{
    if n > 0 {
        let (v, j, k) = choose|v: Seq<char>, j: int, k: int|
            #[trigger] drops_copy_at(s, v, j, k) && drops_copies(v, t, (n - 1) as nat);
        lemma_drops_append(v, t, r, (n - 1) as nat);
        let sr = s + r;
        assert(sr.subrange(j, j + k) =~= s.subrange(j, j + k));
        assert(sr.subrange(j - k, j) =~= s.subrange(j - k, j));
        assert(v + r =~= sr.subrange(0, j) + sr.subrange(j + k, sr.len() as int));
        assert(drops_copy_at(sr, v + r, j, k) && drops_copies(v + r, t + r, (n - 1) as nat));
    } else {
        assert(t + r == s + r);
    }
}

proof fn lemma_drops_prepend(a: Seq<char>, s: Seq<char>, t: Seq<char>, n: nat)
    requires
        drops_copies(s, t, n),
    ensures
        drops_copies(a + s, a + t, n),
    decreases n,
{
    if n > 0 {
        let (v, j, k) = choose|v: Seq<char>, j: int, k: int|
            #[trigger] drops_copy_at(s, v, j, k) && drops_copies(v, t, (n - 1) as nat);
        lemma_drops_prepend(a, v, t, (n - 1) as nat);
        let as_ = a + s;
        let jj = j + a.len();
        assert(as_.subrange(jj, jj + k) =~= s.subrange(j, j + k));
        assert(as_.subrange(jj - k, jj) =~= s.subrange(j - k, j));
        assert(a + v =~= as_.subrange(0, jj) + as_.subrange(jj + k, as_.len() as int));
        assert(drops_copy_at(as_, a + v, jj, k) && drops_copies(a + v, a + t, (n - 1) as nat));
    } else {
        assert(a + t == a + s);
    }
}

proof fn lemma_run_drops(x: Seq<char>)
    requires
        x.len() >= 1,
        forall|t: int| 0 <= t < x.len() ==> #[trigger] x[t] == x[0],
    ensures
        drops_copies(x, seq![x[0]], (x.len() - 1) as nat),
    decreases x.len(),
{
    if x.len() == 1 {
        assert(x =~= seq![x[0]]);
    } else {
        let l = x.len() as int;
        let u = x.subrange(0, l - 1);
        assert(x.subrange(l - 1, l) =~= x.subrange(l - 2, l - 1)) by {
            assert(x[l - 1] == x[0]);
            assert(x[l - 2] == x[0]);
        }
        assert(u =~= x.subrange(0, l - 1) + x.subrange(l, l));
        assert(drops_copy_at(x, u, l - 1, 1));
        lemma_drops_one(x, u, l - 1, 1);
        assert forall|t: int| 0 <= t < u.len() implies #[trigger] u[t] == u[0] by {
            assert(x[t] == x[0]);
        }
        lemma_run_drops(u);
        lemma_drops_trans(x, u, seq![x[0]], 1, (u.len() - 1) as nat);
    }
}

proof fn lemma_runs_drop(s: Seq<char>, i: int) -> (n: nat)
    requires
        0 <= i <= s.len(),
    ensures
        drops_copies(s.subrange(i, s.len() as int), collapse_runs(s, i), n),
    decreases s.len() - i,
{
    if i == s.len() {
        assert(s.subrange(i, s.len() as int) =~= Seq::<char>::empty());
        0
    } else {
        let e = run_end(s, i);
        lemma_run_end_bounds(s, i);
        let x = s.subrange(i, e);
        let rest = s.subrange(e, s.len() as int);
        let piece = if e - i > CHAR_REPEAT_THRESHOLD {
            seq![s[i]]
        } else {
            x
        };
        let n1: nat = if e - i > CHAR_REPEAT_THRESHOLD {
            assert forall|t: int| 0 <= t < x.len() implies #[trigger] x[t] == x[0] by {
                lemma_run_end_same(s, i, i + t);
            }
            lemma_run_drops(x);
            assert(seq![x[0]] == piece);
            (x.len() - 1) as nat
        } else {
            0
        };
        let n2 = lemma_runs_drop(s, e);
        lemma_drops_append(x, piece, rest, n1);
        lemma_drops_prepend(piece, rest, collapse_runs(s, e), n2);
        lemma_drops_trans(x + rest, piece + rest, piece + collapse_runs(s, e), n1, n2);
        assert(x + rest =~= s.subrange(i, s.len() as int));
        n1 + n2
    }
}

proof fn lemma_first_copies_drop(s: Seq<char>, i: int, k: int, r: int) -> (n: nat)
    requires
        1 <= k <= MAX_PATTERN_LEN,
        0 <= i,
        i + PATTERN_REPEAT_THRESHOLD * k <= s.len(),
        pattern_repeats(s, i, k),
        1 <= r <= PATTERN_REPEAT_THRESHOLD,
    ensures
        drops_copies(s.subrange(i, i + r * k), s.subrange(i, i + k), n),
    decreases r,
{
    if r == 1 {
        assert(r * k == k) by (nonlinear_arith)
            requires
                r == 1,
        ;
        0
    } else {
        assert(r * k <= PATTERN_REPEAT_THRESHOLD * k) by (nonlinear_arith)
            requires
                r <= PATTERN_REPEAT_THRESHOLD,
                k >= 1,
        ;
        assert((r - 1) * k == r * k - k) by (nonlinear_arith);
        assert((r - 2) * k == r * k - 2 * k) by (nonlinear_arith);
        assert(2 * k <= r * k) by (nonlinear_arith)
            requires
                r >= 2,
                k >= 1,
        ;
        let x = s.subrange(i, i + r * k);
        let u = s.subrange(i, i + (r - 1) * k);
        let j = (r - 1) * k;
        assert(x.subrange(j, j + k) =~= x.subrange(j - k, j)) by {
            assert forall|t: int| 0 <= t < k implies #[trigger] x.subrange(j, j + k)[t] == x.subrange(j - k, j)[t] by {
                lemma_periodic_blocks(s, i, k, r - 1, t);
                lemma_periodic_blocks(s, i, k, r - 2, t);
            }
        }
        assert(u =~= x.subrange(0, j) + x.subrange(j + k, x.len() as int));
        assert(drops_copy_at(x, u, j, k));
        lemma_drops_one(x, u, j, k);
        let m = lemma_first_copies_drop(s, i, k, r - 1);
        lemma_drops_trans(x, u, s.subrange(i, i + k), 1, m);
        1 + m
    }
}

proof fn lemma_later_copies_drop(s: Seq<char>, i: int, k: int, j: int) -> (n: nat)
    requires
        1 <= k <= MAX_PATTERN_LEN,
        0 <= i,
        i + k <= j <= s.len(),
        s.subrange(j - k, j) == s.subrange(i, i + k),
    ensures
        drops_copies(s.subrange(i, copies_end(s, i, k, j)), s.subrange(i, j), n),
    decreases s.len() - j,
{
    if j + k <= s.len() && s.subrange(j, j + k) == s.subrange(i, i + k) {
        lemma_copies_end_bounds(s, i, k, j + k);
        let m = lemma_later_copies_drop(s, i, k, j + k);
        let x = s.subrange(i, j + k);
        let u = s.subrange(i, j);
        let jj = j - i;
        assert(x.subrange(jj, jj + k) =~= s.subrange(j, j + k));
        assert(x.subrange(jj - k, jj) =~= s.subrange(j - k, j));
        assert(u =~= x.subrange(0, jj) + x.subrange(jj + k, x.len() as int));
        assert(drops_copy_at(x, u, jj, k));
        lemma_drops_one(x, u, jj, k);
        lemma_drops_trans(s.subrange(i, copies_end(s, i, k, j)), x, u, m, 1);
        m + 1
    } else {
        0
    }
}

proof fn lemma_patterns_drop(s: Seq<char>, i: int) -> (n: nat)
    requires
        0 <= i <= s.len(),
    ensures
        drops_copies(s.subrange(i, s.len() as int), collapse_patterns(s, i), n),
    decreases s.len() - i,
{
    if i + 2 * PATTERN_REPEAT_THRESHOLD > s.len() {
        0
    } else {
        lemma_first_pattern_bounds(s, i, 1);
        match first_pattern(s, i, 1) {
            Some(k) => {
                let j0 = i + PATTERN_REPEAT_THRESHOLD * k;
                lemma_copies_end_bounds(s, i, k, j0);
                let e = copies_end(s, i, k, j0);
                let p = s.subrange(i, i + k);
                assert(s.subrange(j0 - k, j0) =~= p) by {
                    assert((PATTERN_REPEAT_THRESHOLD - 1) * k == PATTERN_REPEAT_THRESHOLD * k - k)
                        by (nonlinear_arith);
                    assert forall|t: int| 0 <= t < k implies #[trigger] s.subrange(j0 - k, j0)[t] == p[t] by {
                        lemma_periodic_blocks(s, i, k, PATTERN_REPEAT_THRESHOLD - 1, t);
                    }
                }
                let n0 = lemma_first_copies_drop(s, i, k, PATTERN_REPEAT_THRESHOLD as int);
                let n1 = lemma_later_copies_drop(s, i, k, j0);
                lemma_drops_trans(s.subrange(i, e), s.subrange(i, j0), p, n1, n0);
                let n2 = lemma_patterns_drop(s, e);
                let rest = s.subrange(e, s.len() as int);
                lemma_drops_append(s.subrange(i, e), p, rest, n1 + n0);
                lemma_drops_prepend(p, rest, collapse_patterns(s, e), n2);
                lemma_drops_trans(s.subrange(i, e) + rest, p + rest, p + collapse_patterns(s, e), n1 + n0, n2);
                assert(s.subrange(i, e) + rest =~= s.subrange(i, s.len() as int));
                n1 + n0 + n2
            },
            None => {
                let n1 = lemma_patterns_drop(s, i + 1);
                lemma_drops_prepend(seq![s[i]], s.subrange(i + 1, s.len() as int), collapse_patterns(s, i + 1), n1);
                assert(seq![s[i]] + s.subrange(i + 1, s.len() as int) =~= s.subrange(i, s.len() as int));
                n1
            },
        }
    }
}

/// Fixing repetitions removes nothing but copies: its result comes from the
/// text by removing, one after another, blocks of one to `MAX_PATTERN_LEN`
/// characters that each repeat the block just before them, which stays.
pub proof fn fixing_removes_only_copies(s: Seq<char>)
    ensures
        exists|n: nat| drops_copies(s, fixed_repetitions(s), n),
{
    if s.len() < 2 * CHAR_REPEAT_THRESHOLD {
        assert(drops_copies(s, fixed_repetitions(s), 0));
    } else {
        let f = collapse_runs(s, 0);
        let n1 = lemma_runs_drop(s, 0);
        assert(s.subrange(0, s.len() as int) =~= s);
        if f.len() < 2 * PATTERN_REPEAT_THRESHOLD {
            assert(drops_copies(s, fixed_repetitions(s), n1));
        } else {
            let n2 = lemma_patterns_drop(f, 0);
            assert(f.subrange(0, f.len() as int) =~= f);
            lemma_drops_trans(s, f, collapse_patterns(f, 0), n1, n2);
            assert(drops_copies(s, fixed_repetitions(s), n1 + n2));
        }
    }
}

} // verus!
