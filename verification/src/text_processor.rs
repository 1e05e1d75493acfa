//! Word segmentation of transcripts and the timestamp-marker markup used to
//! ask the forced aligner for word boundaries.

use vstd::prelude::*;
use crate::text::{
    is_alphanumeric, is_ascii_punct, is_ascii_punctuation, is_white_space, is_whitespace, str_eq,
    char_alphanumeric,
};
use crate::timestamps::FixedTimestamp;

verus! {

/// Characters of the CJK ideograph, kana, Hangul, CJK punctuation and
/// full-width ranges: each stands as a word of its own.
pub open spec fn is_cjk(c: char) -> bool {
    let u = c as u32;
    ||| (0x4E00 <= u && u <= 0x9FFF)
    ||| (0x3400 <= u && u <= 0x4DBF)
    ||| (0x3040 <= u && u <= 0x30FF)
    ||| (0xAC00 <= u && u <= 0xD7AF)
    ||| (0x3000 <= u && u <= 0x303F)
    ||| (0xFF00 <= u && u <= 0xFFEF)
}

fn cjk_range(c: char) -> (r: bool)
    ensures
        r == is_cjk(c),
{
    let u = c as u32;
    (0x4E00 <= u && u <= 0x9FFF) || (0x3400 <= u && u <= 0x4DBF) || (0x3040 <= u && u <= 0x30FF)
        || (0xAC00 <= u && u <= 0xD7AF) || (0x3000 <= u && u <= 0x303F) || (0xFF00 <= u && u
        <= 0xFFEF)
}

/// A character that continues a Latin-script word in CJK text.
pub open spec fn is_word_char(c: char) -> bool {
    char_alphanumeric(c) || c == '\'' || c == '-'
}

/// Appends the pending word, if any, to the list of words.
pub open spec fn flush(words: Seq<Seq<char>>, buf: Seq<char>) -> Seq<Seq<char>> {
    if buf.len() == 0 {
        words
    } else {
        words.push(buf)
    }
}

/// One step of CJK word splitting: the words so far and the pending Latin
/// word, after reading `c`.
pub open spec fn cjk_step(state: (Seq<Seq<char>>, Seq<char>), c: char) -> (
    Seq<Seq<char>>,
    Seq<char>,
) {
    let (words, buf) = state;
    if is_cjk(c) {
        (flush(words, buf).push(seq![c]), Seq::empty())
    } else if is_word_char(c) {
        (words, buf.push(c))
    } else if is_white_space(c) || is_ascii_punct(c) {
        (flush(words, buf), Seq::empty())
    } else {
        (flush(words, buf).push(seq![c]), Seq::empty())
    }
}

/// The state of CJK word splitting after the first `n` characters of `s`.
pub open spec fn cjk_state(s: Seq<char>, n: int) -> (Seq<Seq<char>>, Seq<char>)
    decreases n,
{
    if n <= 0 {
        (Seq::empty(), Seq::empty())
    } else {
        cjk_step(cjk_state(s, n - 1), s[n - 1])
    }
}

/// Words of CJK text: every CJK character is a word; runs of letters, digits,
/// apostrophes and hyphens form words; white space and ASCII punctuation
/// separate words and are dropped; any other character is a word of its own.
pub open spec fn cjk_words(s: Seq<char>) -> Seq<Seq<char>> {
    let (words, buf) = cjk_state(s, s.len() as int);
    flush(words, buf)
}

/// The state of white-space splitting after the first `n` characters of `s`.
pub open spec fn space_state(s: Seq<char>, n: int) -> (Seq<Seq<char>>, Seq<char>)
    decreases n,
{
    if n <= 0 {
        (Seq::empty(), Seq::empty())
    } else {
        let (words, buf) = space_state(s, n - 1);
        let c = s[n - 1];
        if is_white_space(c) {
            (flush(words, buf), Seq::empty())
        } else {
            (words, buf.push(c))
        }
    }
}

/// The maximal runs of non-white-space characters of `s`, in order.
pub open spec fn space_words(s: Seq<char>) -> Seq<Seq<char>> {
    let (words, buf) = space_state(s, s.len() as int);
    flush(words, buf)
}

/// Whether `language` selects CJK word splitting.
pub open spec fn is_cjk_language(language: Seq<char>) -> bool {
    language == "Chinese"@ || language == "Japanese"@ || language == "Korean"@
}

/// The words of `text` for `language`.
pub open spec fn words_of(text: Seq<char>, language: Seq<char>) -> Seq<Seq<char>> {
    if is_cjk_language(language) {
        cjk_words(text)
    } else {
        space_words(text)
    }
}

pub open spec fn views(v: Seq<String>) -> Seq<Seq<char>> {
    v.map_values(|w: String| w@)
}

fn flush_exec(words: &mut Vec<String>, buf: &mut String)
    ensures
        views(final(words)@) == flush(views(old(words)@), old(buf)@),
        final(buf)@ == Seq::<char>::empty(),
{
    if !buf.as_str().is_empty() {
        let ghost w = views(words@);
        words.push(buf.clone());
        proof {
            assert(views(words@) == w.push(old(buf)@));
        }
    }
    *buf = String::new();
}

/// Splits `text` into words: character by character for CJK languages
/// (see `cjk_words`), at white space otherwise.
pub fn split_words(text: &str, language: &str) -> (words: Vec<String>)
    ensures
        views(words@) == words_of(text@, language@),
{
    let cjk = str_eq(language, "Chinese") || str_eq(language, "Japanese") || str_eq(
        language,
        "Korean",
    );
    let mut words: Vec<String> = Vec::new();
    let mut buf = String::new();
    if cjk {
        for c in it: text.chars()
            invariant
                it.seq() == text@,
                (views(words@), buf@) == cjk_state(text@, it.index()),
        {
            proof {
                assert(text@[it.index()] == c);
            }
            if cjk_range(c) {
                flush_exec(&mut words, &mut buf);
                let ghost w = views(words@);
                words.push(crate::text::string_of_char(c));
                proof {
                    assert(views(words@) == w.push(seq![c]));
                }
            } else if is_alphanumeric(c) || c == '\'' || c == '-' {
                crate::text::push_char(&mut buf, c);
            } else if is_whitespace(c) || is_ascii_punctuation(c) {
                flush_exec(&mut words, &mut buf);
            } else {
                flush_exec(&mut words, &mut buf);
                let ghost w = views(words@);
                words.push(crate::text::string_of_char(c));
                proof {
                    assert(views(words@) == w.push(seq![c]));
                }
            }
        }
    } else {
        for c in it: text.chars()
            invariant
                it.seq() == text@,
                (views(words@), buf@) == space_state(text@, it.index()),
        {
            proof {
                assert(text@[it.index()] == c);
            }
            if is_whitespace(c) {
                flush_exec(&mut words, &mut buf);
            } else {
                crate::text::push_char(&mut buf, c);
            }
        }
    }
    flush_exec(&mut words, &mut buf);
    words
}

} // verus!

verus! {

/// The marker put around every word for forced alignment.
pub open spec fn timestamp_template() -> Seq<char> {
    "<timestamp><timestamp>"@
}

/// The markers followed by each word and a further pair of markers.
pub open spec fn timestamp_markup(words: Seq<Seq<char>>) -> Seq<char>
    decreases words.len(),
{
    if words.len() == 0 {
        timestamp_template()
    } else {
        timestamp_markup(words.drop_last()) + words.last() + timestamp_template()
    }
}

/// Splits `text` into words and formats it with timestamp markers for
/// forced alignment: `<timestamp><timestamp>` before the first word and after
/// every word. Returns the words and the formatted text.
pub fn encode_timestamp(text: &str, language: &str) -> (r: (Vec<String>, String))
    ensures
        views(r.0@) == words_of(text@, language@),
        r.1@ == timestamp_markup(words_of(text@, language@)),
{
    let words = split_words(text, language);
    let template = "<timestamp><timestamp>";
    let mut formatted = String::new();
    formatted.append(template);
    let ghost ws = views(words@);
    let mut i: usize = 0;
    while i < words.len()
        invariant
            0 <= i <= words.len(),
            ws == views(words@),
            template@ == timestamp_template(),
            formatted@ == timestamp_markup(ws.take(i as int)),
        decreases words.len() - i,
    {
        proof {
            assert(ws.take(i + 1).drop_last() == ws.take(i as int));
            assert(ws.take(i + 1).last() == words@[i as int]@);
        }
        formatted.append(words[i].as_str());
        formatted.append(template);
        i = i + 1;
    }
    proof {
        assert(ws.take(words.len() as int) == ws);
    }
    (words, formatted)
}

/// A word with its repaired start and end timestamps (in milliseconds).
#[derive(Debug, Clone)]
pub struct TimestampItem {
    pub text: String,
    pub start_time: FixedTimestamp,
    pub end_time: FixedTimestamp,
}

/// The timestamp at `k`, or 0 when there is none.
pub open spec fn timestamp_or_zero(ts: Seq<FixedTimestamp>, k: int) -> FixedTimestamp {
    if 0 <= k < ts.len() {
        ts[k]
    } else {
        FixedTimestamp::Exact(0)
    }
}

/// Pairs each word with its timestamps: word `i` starts at timestamp `2i`
/// and ends at timestamp `2i + 1` (0 where the list is too short).
pub fn parse_timestamp(words: &[String], timestamps: &[FixedTimestamp]) -> (items: Vec<
    TimestampItem,
>)
    ensures
        items@.len() == words@.len(),
        forall|i: int|
            0 <= i < words@.len() ==> {
                &&& #[trigger] items@[i].text@ == words@[i]@
                &&& items@[i].start_time == timestamp_or_zero(timestamps@, 2 * i)
                &&& items@[i].end_time == timestamp_or_zero(timestamps@, 2 * i + 1)
            },
{
    let mut items: Vec<TimestampItem> = Vec::new();
    let mut i: usize = 0;
    while i < words.len()
        invariant
            0 <= i <= words.len(),
            items@.len() == i,
            forall|q: int|
                0 <= q < i ==> {
                    &&& #[trigger] items@[q].text@ == words@[q]@
                    &&& items@[q].start_time == timestamp_or_zero(timestamps@, 2 * q)
                    &&& items@[q].end_time == timestamp_or_zero(timestamps@, 2 * q + 1)
                },
        decreases words.len() - i,
    {
        let start = if i < timestamps.len() / 2 + timestamps.len() % 2 && 2 * i < timestamps.len() {
            timestamps[2 * i]
        } else {
            FixedTimestamp::Exact(0)
        };
        let end = if i < timestamps.len() / 2 {
            timestamps[2 * i + 1]
        } else {
            FixedTimestamp::Exact(0)
        };
        items.push(TimestampItem { text: words[i].clone(), start_time: start, end_time: end });
        i = i + 1;
    }
    items
}

proof fn lemma_cjk_state_words_nonempty(s: Seq<char>, n: int)
    requires
        0 <= n <= s.len(),
    ensures
        forall|w: int| 0 <= w < cjk_state(s, n).0.len() ==> #[trigger] cjk_state(s, n).0[w].len() > 0,
    decreases n,
{
    if n > 0 {
        lemma_cjk_state_words_nonempty(s, n - 1);
        let (words, buf) = cjk_state(s, n - 1);
        let f = flush(words, buf);
        assert forall|w: int| 0 <= w < f.len() implies #[trigger] f[w].len() > 0 by {
            if w < words.len() {
                assert(f[w] == words[w]);
            }
        }
        let c = s[n - 1];
        let next = cjk_state(s, n).0;
        assert forall|w: int| 0 <= w < next.len() implies #[trigger] next[w].len() > 0 by {
            if w < f.len() {
                assert(f[w].len() > 0);
            }
            if !(w < f.len()) && w < words.len() {
                assert(next[w] == words[w]);
            }
        }
    }
}

proof fn lemma_space_state_words(s: Seq<char>, n: int)
    requires
        0 <= n <= s.len(),
    ensures
        forall|w: int| 0 <= w < space_state(s, n).0.len() ==> #[trigger] space_state(s, n).0[w].len() > 0,
        forall|w: int, t: int|
            0 <= w < space_state(s, n).0.len() && 0 <= t < space_state(s, n).0[w].len()
                ==> !is_white_space(#[trigger] space_state(s, n).0[w][t]),
        forall|t: int| 0 <= t < space_state(s, n).1.len() ==> !is_white_space(#[trigger] space_state(s, n).1[t]),
    decreases n,
{
    if n > 0 {
        lemma_space_state_words(s, n - 1);
        let (words, buf) = space_state(s, n - 1);
        let f = flush(words, buf);
        assert forall|w: int| 0 <= w < f.len() implies #[trigger] f[w].len() > 0 && (forall|t: int|
            0 <= t < f[w].len() ==> !is_white_space(#[trigger] f[w][t])) by {
            if w < words.len() {
                assert(f[w] == words[w]);
                assert(forall|t: int| 0 <= t < words[w].len() ==> !is_white_space(#[trigger] words[w][t]));
            } else {
                assert(f[w] == buf);
            }
        }
        let next = space_state(s, n);
        if is_white_space(s[n - 1]) {
            assert(next.0 == f);
        } else {
            assert(next.0 == words);
            assert(next.1 == buf.push(s[n - 1]));
        }
    }
}

/// Word splitting never yields an empty word, and outside CJK languages no
/// word contains white space.
pub proof fn split_words_are_nonempty(text: Seq<char>, language: Seq<char>)
    ensures
        forall|w: int| 0 <= w < words_of(text, language).len() ==> #[trigger] words_of(text, language)[w].len() > 0,
        !is_cjk_language(language) ==> forall|w: int, t: int|
            0 <= w < words_of(text, language).len() && 0 <= t < words_of(text, language)[w].len()
                ==> !is_white_space(#[trigger] words_of(text, language)[w][t]),
{
    lemma_cjk_state_words_nonempty(text, text.len() as int);
    lemma_space_state_words(text, text.len() as int);
}

} // verus!

verus! {

/// The characters of `words`, one word after another.
pub open spec fn concat_words(words: Seq<Seq<char>>) -> Seq<char>
    decreases words.len(),
{
    if words.len() == 0 {
        Seq::empty()
    } else {
        concat_words(words.drop_last()) + words.last()
    }
}

/// Whether CJK splitting drops `c`: white space or ASCII punctuation that is
/// neither a CJK character nor part of a Latin word.
pub open spec fn dropped_in_cjk_split(c: char) -> bool {
    !is_cjk(c) && !is_word_char(c) && (is_white_space(c) || is_ascii_punct(c))
}

/// The characters of `s` that are not dropped by CJK splitting, in order.
pub open spec fn cjk_kept(s: Seq<char>) -> Seq<char>
    decreases s.len(),
{
    if s.len() == 0 {
        Seq::empty()
    } else {
        cjk_kept(s.drop_last()) + if dropped_in_cjk_split(s.last()) {
            Seq::empty()
        } else {
            seq![s.last()]
        }
    }
}

/// The characters of `s` that are not white space, in order.
pub open spec fn non_space(s: Seq<char>) -> Seq<char>
    decreases s.len(),
{
    if s.len() == 0 {
        Seq::empty()
    } else {
        non_space(s.drop_last()) + if is_white_space(s.last()) {
            Seq::empty()
        } else {
            seq![s.last()]
        }
    }
}

proof fn lemma_concat_push(words: Seq<Seq<char>>, w: Seq<char>)
    ensures
        concat_words(words.push(w)) == concat_words(words) + w,
{
    assert(words.push(w).drop_last() == words);
}

proof fn lemma_concat_flush(words: Seq<Seq<char>>, buf: Seq<char>)
    ensures
        concat_words(flush(words, buf)) == concat_words(words) + buf,
{
    if buf.len() == 0 {
        assert(concat_words(words) + buf =~= concat_words(words));
    } else {
        lemma_concat_push(words, buf);
    }
}

proof fn lemma_cjk_state_text(s: Seq<char>, n: int)
    requires
        0 <= n <= s.len(),
    ensures
        concat_words(cjk_state(s, n).0) + cjk_state(s, n).1 == cjk_kept(s.take(n)),
    decreases n,
{
    if n == 0 {
        assert(s.take(0) =~= Seq::<char>::empty());
        assert(concat_words(Seq::<Seq<char>>::empty()) + Seq::<char>::empty() =~= Seq::<char>::empty());
    } else {
        lemma_cjk_state_text(s, n - 1);
        let (words, buf) = cjk_state(s, n - 1);
        let c = s[n - 1];
        assert(s.take(n).drop_last() == s.take(n - 1));
        assert(s.take(n).last() == c);
        let prev = cjk_kept(s.take(n - 1));
        lemma_concat_flush(words, buf);
        if is_cjk(c) {
            lemma_concat_push(flush(words, buf), seq![c]);
            assert(concat_words(flush(words, buf).push(seq![c])) + Seq::<char>::empty() =~= prev + seq![c]);
        } else if is_word_char(c) {
            assert(concat_words(words) + buf.push(c) =~= prev + seq![c]);
        } else if is_white_space(c) || is_ascii_punct(c) {
            assert(concat_words(flush(words, buf)) + Seq::<char>::empty() =~= prev + Seq::<char>::empty());
        } else {
            lemma_concat_push(flush(words, buf), seq![c]);
            assert(concat_words(flush(words, buf).push(seq![c])) + Seq::<char>::empty() =~= prev + seq![c]);
        }
    }
}

proof fn lemma_space_state_text(s: Seq<char>, n: int)
    requires
        0 <= n <= s.len(),
    ensures
        concat_words(space_state(s, n).0) + space_state(s, n).1 == non_space(s.take(n)),
    decreases n,
{
    if n == 0 {
        assert(s.take(0) =~= Seq::<char>::empty());
        assert(concat_words(Seq::<Seq<char>>::empty()) + Seq::<char>::empty() =~= Seq::<char>::empty());
    } else {
        lemma_space_state_text(s, n - 1);
        let (words, buf) = space_state(s, n - 1);
        let c = s[n - 1];
        assert(s.take(n).drop_last() == s.take(n - 1));
        assert(s.take(n).last() == c);
        let prev = non_space(s.take(n - 1));
        lemma_concat_flush(words, buf);
        if is_white_space(c) {
            assert(concat_words(flush(words, buf)) + Seq::<char>::empty() =~= prev + Seq::<char>::empty());
        } else {
            assert(concat_words(words) + buf.push(c) =~= prev + seq![c]);
        }
    }
}

/// The words of CJK splitting are pieces of the text in text order: one
/// after another they give back the text without the dropped separators.
pub proof fn cjk_words_keep_text_order(s: Seq<char>)
    ensures
        concat_words(cjk_words(s)) == cjk_kept(s),
{
    lemma_cjk_state_text(s, s.len() as int);
    let (words, buf) = cjk_state(s, s.len() as int);
    lemma_concat_flush(words, buf);
    assert(s.take(s.len() as int) == s);
}

/// The words of white-space splitting, one after another, give back the
/// text without its white space.
pub proof fn space_words_keep_text_order(s: Seq<char>)
    ensures
        concat_words(space_words(s)) == non_space(s),
{
    lemma_space_state_text(s, s.len() as int);
    let (words, buf) = space_state(s, s.len() as int);
    lemma_concat_flush(words, buf);
    assert(s.take(s.len() as int) == s);
}

} // verus!

verus! {

/// A word of CJK splitting is a single CJK character, a single character
/// that is neither part of a Latin word nor dropped, or a run of Latin-word
/// characters (letters, digits, apostrophes, hyphens) that are not CJK.
pub open spec fn cjk_word_kind(w: Seq<char>) -> bool {
    ||| (w.len() == 1 && is_cjk(w[0]))
    ||| (w.len() == 1 && !is_word_char(w[0]) && !dropped_in_cjk_split(w[0]))
    ||| (forall|t: int| 0 <= t < w.len() ==> is_word_char(#[trigger] w[t]) && !is_cjk(w[t]))
}

proof fn lemma_cjk_state_kinds(s: Seq<char>, n: int)
    requires
        0 <= n <= s.len(),
    ensures
        forall|k: int| 0 <= k < cjk_state(s, n).0.len() ==> cjk_word_kind(#[trigger] cjk_state(s, n).0[k]),
        forall|t: int| 0 <= t < cjk_state(s, n).1.len() ==> is_word_char(#[trigger] cjk_state(s, n).1[t])
            && !is_cjk(cjk_state(s, n).1[t]),
    decreases n,
{
    if n > 0 {
        lemma_cjk_state_kinds(s, n - 1);
        let (words, buf) = cjk_state(s, n - 1);
        let c = s[n - 1];
        let f = flush(words, buf);
        assert forall|k: int| 0 <= k < f.len() implies cjk_word_kind(#[trigger] f[k]) by {
            if k < words.len() {
                assert(f[k] == words[k]);
            } else {
                assert(f[k] == buf);
            }
        }
        if is_cjk(c) || !(is_word_char(c) || is_white_space(c) || is_ascii_punct(c)) {
            let g = f.push(seq![c]);
            assert forall|k: int| 0 <= k < g.len() implies cjk_word_kind(#[trigger] g[k]) by {
                if k < f.len() {
                    assert(g[k] == f[k]);
                } else {
                    assert(g[k] == seq![c]);
                }
            }
        } else if is_word_char(c) {
            let b = buf.push(c);
            assert forall|t: int| 0 <= t < b.len() implies is_word_char(#[trigger] b[t]) && !is_cjk(b[t]) by {
                if t < buf.len() {
                    assert(b[t] == buf[t]);
                }
            }
        }
    }
}

/// Every word of CJK splitting is a single CJK character, a single other
/// kept character, or a run of non-CJK Latin-word characters.
pub proof fn cjk_words_have_kinds(s: Seq<char>)
    ensures
        forall|k: int| 0 <= k < cjk_words(s).len() ==> cjk_word_kind(#[trigger] cjk_words(s)[k]),
{
    lemma_cjk_state_kinds(s, s.len() as int);
    let (words, buf) = cjk_state(s, s.len() as int);
    let f = flush(words, buf);
    assert forall|k: int| 0 <= k < f.len() implies cjk_word_kind(#[trigger] f[k]) by {
        if k < words.len() {
            assert(f[k] == words[k]);
        } else {
            assert(f[k] == buf);
        }
    }
}

} // verus!
