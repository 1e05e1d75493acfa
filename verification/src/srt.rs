//! SubRip (SRT) subtitle text.

use vstd::prelude::*;
use crate::text::{push_char, trim, trimmed};

verus! {

/// A subtitle time split into its fields.
#[derive(Debug, Clone, Copy, PartialEq, Eq)]
pub struct SrtTime {
    pub hours: u32,
    pub minutes: u32,
    pub seconds: u32,
    pub millis: u32,
}

/// The character of decimal digit `d`.
pub open spec fn digit_char(d: int) -> char {
    (48 + d) as char
}

/// Decimal digits of `n`, most significant first, without leading zeros.
pub open spec fn decimal(n: nat) -> Seq<char>
    decreases n,
{
    if n < 10 {
        seq![digit_char(n as int)]
    } else {
        decimal(n / 10) + seq![digit_char((n % 10) as int)]
    }
}

/// `n` in decimal, left-padded with zeros to at least `width` digits.
pub open spec fn zero_padded(n: nat, width: nat) -> Seq<char> {
    let d = decimal(n);
    if d.len() < width {
        Seq::new((width - d.len()) as nat, |i: int| '0') + d
    } else {
        d
    }
}

/// `HH:MM:SS,mmm`, each field at least as wide as shown.
pub open spec fn srt_time_text(t: SrtTime) -> Seq<char> {
    zero_padded(t.hours as nat, 2) + ":"@ + zero_padded(t.minutes as nat, 2) + ":"@ + zero_padded(
        t.seconds as nat,
        2,
    ) + ","@ + zero_padded(t.millis as nat, 3)
}

fn push_decimal(s: &mut String, n: u64)
    ensures
        final(s)@ == old(s)@ + decimal(n as nat),
    decreases n,
{
    if n >= 10 {
        push_decimal(s, n / 10);
    }
    let d = (n % 10) as u8;
    push_char(s, (48u8 + d) as char);
}

proof fn lemma_decimal_len(n: nat)
    ensures
        decimal(n).len() >= 1,
        n < 10 ==> decimal(n).len() == 1,
        10 <= n < 100 ==> decimal(n).len() == 2,
        100 <= n < 1000 ==> decimal(n).len() == 3,
    decreases n,
{
    if n >= 10 {
        lemma_decimal_len(n / 10);
    }
}

fn push_padded(s: &mut String, n: u64, width: u64)
    requires
        width <= 3,
    ensures
        final(s)@ == old(s)@ + zero_padded(n as nat, width as nat),
{
    proof {
        lemma_decimal_len(n as nat);
        if n >= 1000 {
            lemma_decimal_len_big(n as nat);
        }
    }
    let digits: u64 = if n < 10 {
        1
    } else if n < 100 {
        2
    } else {
        3
    };
    let ghost start = s@;
    let mut k = digits;
    while k < width
        invariant
            digits <= k <= width || (width < digits && k == digits),
            n < 1000 ==> digits == decimal(n as nat).len(),
            n >= 1000 ==> decimal(n as nat).len() >= width,
            s@ == start + Seq::new((k - digits) as nat, |i: int| '0'),
        decreases width - k,
    {
        proof {
            assert(Seq::new((k + 1 - digits) as nat, |i: int| '0') == Seq::new((k - digits) as nat, |i: int| '0').push('0'));
        }
        push_char(s, '0');
        k = k + 1;
    }
    push_decimal(s, n);
    proof {
        let d = decimal(n as nat);
        if d.len() < width {
            assert(k == width);
            assert(Seq::new((k - digits) as nat, |i: int| '0') == Seq::new((width - d.len()) as nat, |i: int| '0'));
        } else {
            assert(k - digits <= 0 || n >= 1000);
            if n >= 1000 {
                lemma_decimal_len_big(n as nat);
                assert(k == digits);
            }
            assert(Seq::new((k - digits) as nat, |i: int| '0') == Seq::<char>::empty());
        }
    }
}

proof fn lemma_decimal_len_big(n: nat)
    requires
        n >= 1000,
    ensures
        decimal(n).len() >= 4,
    decreases n,
{
    if n / 10 >= 1000 {
        lemma_decimal_len_big(n / 10);
    } else {
        lemma_decimal_len(n / 10);
    }
}

/// Formats a subtitle time as `HH:MM:SS,mmm`.
pub fn format_srt_time(t: SrtTime) -> (s: String)
    ensures
        s@ == srt_time_text(t),
{
    let mut s = String::new();
    push_padded(&mut s, t.hours as u64, 2);
    push_char(&mut s, ':');
    push_padded(&mut s, t.minutes as u64, 2);
    push_char(&mut s, ':');
    push_padded(&mut s, t.seconds as u64, 2);
    push_char(&mut s, ',');
    push_padded(&mut s, t.millis as u64, 3);
    proof {
        reveal_strlit(":");
        reveal_strlit(",");
    }
    s
}

} // verus!

verus! {

/// One subtitle cue: its number, its time range and its trimmed text;
/// nothing when the trimmed text is empty.
pub open spec fn srt_entry(number: nat, start: SrtTime, end: SrtTime, text: Seq<char>) -> Seq<char> {
    let t = trimmed(text);
    if t.len() == 0 {
        Seq::empty()
    } else {
        decimal(number) + "\n"@ + srt_time_text(start) + " --> "@ + srt_time_text(end) + "\n"@ + t
            + "\n\n"@
    }
}

/// How many of the first `m` texts are non-empty once trimmed: the cues
/// written for them.
pub open spec fn cue_count(texts: Seq<String>, m: int) -> nat
    decreases m,
{
    if m <= 0 {
        0
    } else {
        cue_count(texts, m - 1) + if trimmed(texts[m - 1]@).len() > 0 {
            1nat
        } else {
            0nat
        }
    }
}

proof fn lemma_cue_count_bound(texts: Seq<String>, m: int)
    requires
        0 <= m,
    ensures
        cue_count(texts, m) <= m,
    decreases m,
{
    if m > 0 {
        lemma_cue_count_bound(texts, m - 1);
    }
}

/// The cues for the first `m` segments, numbered 1, 2, ... in the order
/// they are written.
pub open spec fn srt_entries(times: Seq<(SrtTime, SrtTime)>, texts: Seq<String>, m: int) -> Seq<char>
    decreases m,
{
    if m <= 0 {
        Seq::empty()
    } else {
        srt_entries(times, texts, m - 1) + srt_entry(
            cue_count(texts, m - 1) + 1,
            times[m - 1].0,
            times[m - 1].1,
            texts[m - 1]@,
        )
    }
}

/// The subtitle document for segments with the given time ranges and texts,
/// paired in order up to the shorter list; `None` when there is no pair.
/// Segments whose trimmed text is empty are skipped; the cues written are
/// numbered 1, 2, ... without gaps.
pub fn srt_document(times: &[(SrtTime, SrtTime)], texts: &[String]) -> (doc: Option<String>)
    ensures
        ({
            let n = if times@.len() < texts@.len() {
                times@.len()
            } else {
                texts@.len()
            };
            &&& n == 0 ==> doc is None
            &&& n > 0 ==> (doc matches Some(d) && d@ == srt_entries(times@, texts@, n as int))
        }),
{
    let n = if times.len() < texts.len() {
        times.len()
    } else {
        texts.len()
    };
    if n == 0 {
        return None;
    }
    let mut out = String::new();
    let mut written: u64 = 0;
    let mut i: usize = 0;
    while i < n
        invariant
            n <= times.len(),
            n <= texts.len(),
            0 <= i <= n,
            written == cue_count(texts@, i as int),
            out@ == srt_entries(times@, texts@, i as int),
        decreases n - i,
    {
        proof {
            lemma_cue_count_bound(texts@, i as int);
        }
        let text = trim(texts[i].as_str());
        if !text.as_str().is_empty() {
            written = written + 1;
            push_decimal(&mut out, written);
            out.append("\n");
            let (start, end) = times[i];
            let a = format_srt_time(start);
            out.append(a.as_str());
            out.append(" --> ");
            let b = format_srt_time(end);
            out.append(b.as_str());
            out.append("\n");
            out.append(text.as_str());
            out.append("\n\n");
        }
        i = i + 1;
    }
    Some(out)
}

/// A time in milliseconds as subtitle time fields: minutes, seconds and
/// milliseconds in range, hours taking the rest.
pub open spec fn srt_time_of_millis(ms: nat) -> SrtTime {
    SrtTime {
        hours: (ms / 3_600_000) as u32,
        minutes: ((ms / 60_000) % 60) as u32,
        seconds: ((ms / 1000) % 60) as u32,
        millis: (ms % 1000) as u32,
    }
}

/// Splits a time in milliseconds into subtitle time fields (see
/// `srt_time_of_millis`); every field but the hours is in range, so the
/// millisecond field always has three digits.
pub fn srt_time_from_millis(ms: u64) -> (t: SrtTime)
    requires
        ms / 3_600_000 <= u32::MAX,
    ensures
        t == srt_time_of_millis(ms as nat),
        t.minutes < 60,
        t.seconds < 60,
        t.millis < 1000,
        t.hours as int * 3_600_000 + t.minutes as int * 60_000 + t.seconds as int * 1000
            + t.millis as int == ms,
{
    let t = SrtTime {
        hours: (ms / 3_600_000) as u32,
        minutes: ((ms / 60_000) % 60) as u32,
        seconds: ((ms / 1000) % 60) as u32,
        millis: (ms % 1000) as u32,
    };
    proof {
        let m = ms as int;
        assert(m == (m / 3_600_000) * 3_600_000 + ((m / 60_000) % 60) * 60_000 + ((m / 1000) % 60)
            * 1000 + m % 1000) by (nonlinear_arith);
    }
    t
}

} // verus!
