//! Character-level helpers shared by the text-processing modules: Unicode
//! white space, the std character classes this library relies on, and
//! conversions between strings and character sequences.

use vstd::prelude::*;

verus! {

/// Unicode `White_Space` code points, as `char::is_whitespace` documents them.
pub open spec fn is_white_space(c: char) -> bool {
    let u = c as u32;
    ||| (0x09 <= u && u <= 0x0D)
    ||| u == 0x20
    ||| u == 0x85
    ||| u == 0xA0
    ||| u == 0x1680
    ||| (0x2000 <= u && u <= 0x200A)
    ||| u == 0x2028
    ||| u == 0x2029
    ||| u == 0x202F
    ||| u == 0x205F
    ||| u == 0x3000
}

/// Whether `c` is a Unicode white-space character.
pub fn is_whitespace(c: char) -> (r: bool)
    ensures
        r == is_white_space(c),
{
    let u = c as u32;
    (0x09 <= u && u <= 0x0D) || u == 0x20 || u == 0x85 || u == 0xA0 || u == 0x1680 || (0x2000 <= u
        && u <= 0x200A) || u == 0x2028 || u == 0x2029 || u == 0x202F || u == 0x205F || u == 0x3000
}

/// ASCII punctuation: `!`..`/`, `:`..`@`, `[`..`` ` ``, `{`..`~`.
pub open spec fn is_ascii_punct(c: char) -> bool {
    let u = c as u32;
    ||| (0x21 <= u && u <= 0x2F)
    ||| (0x3A <= u && u <= 0x40)
    ||| (0x5B <= u && u <= 0x60)
    ||| (0x7B <= u && u <= 0x7E)
}

/// Whether `c` is ASCII punctuation.
pub fn is_ascii_punctuation(c: char) -> (r: bool)
    ensures
        r == is_ascii_punct(c),
{
    let u = c as u32;
    (0x21 <= u && u <= 0x2F) || (0x3A <= u && u <= 0x40) || (0x5B <= u && u <= 0x60) || (0x7B <= u
        && u <= 0x7E)
}

/// The value of `char::is_alphanumeric` on `c` (Unicode `Alphabetic` or
/// `Numeric`; the tables take pages, so the result is named, not written out).
pub uninterp spec fn char_alphanumeric(c: char) -> bool;

/// The value of `char::is_alphabetic` on `c` (Unicode `Alphabetic`).
pub uninterp spec fn char_alphabetic(c: char) -> bool;

/// Calls `char::is_alphanumeric`; its result is named `char_alphanumeric`.
#[verifier::external_body]
pub(crate) fn is_alphanumeric(c: char) -> (r: bool)
    ensures
        r == char_alphanumeric(c),
{
    c.is_alphanumeric()
}

/// Calls `char::is_alphabetic`; its result is named `char_alphabetic`.
#[verifier::external_body]
pub(crate) fn is_alphabetic(c: char) -> (r: bool)
    ensures
        r == char_alphabetic(c),
{
    c.is_alphabetic()
}

/// Calls `String::push`, which appends one character.
#[verifier::external_body]
pub(crate) fn push_char(s: &mut String, c: char)
    ensures
        final(s)@ == old(s)@.push(c),
{
    s.push(c)
}

/// Calls `str`'s `==`, which compares the two strings character by character.
#[verifier::external_body]
pub(crate) fn str_eq(a: &str, b: &str) -> (r: bool)
    ensures
        r == (a@ == b@),
{
    a == b
}

/// The characters of `s`, in order.
pub fn chars_of(s: &str) -> (v: Vec<char>)
    ensures
        v@ == s@,
{
    let mut v: Vec<char> = Vec::new();
    for c in it: s.chars()
        invariant
            v@ == it.seq().take(it.index()),
    {
        v.push(c);
    }
    v
}

} // verus!

verus! {

/// A string holding exactly the characters of `v`.
pub fn string_from_chars(v: &[char]) -> (s: String)
    ensures
        s@ == v@,
{
    let mut s = String::new();
    let mut i: usize = 0;
    while i < v.len()
        invariant
            0 <= i <= v.len(),
            s@ == v@.take(i as int),
        decreases v.len() - i,
    {
        proof {
            assert(v@.take(i as int + 1) == v@.take(i as int).push(v@[i as int]));
        }
        push_char(&mut s, v[i]);
        i = i + 1;
    }
    proof {
        assert(v@.take(v.len() as int) == v@);
    }
    s
}

} // verus!

verus! {

/// A string holding the single character `c`.
pub fn string_of_char(c: char) -> (s: String)
    ensures
        s@ == seq![c],
{
    let mut s = String::new();
    push_char(&mut s, c);
    s
}

} // verus!

verus! {

/// `s` without its leading white space.
pub open spec fn trim_start_chars(s: Seq<char>) -> Seq<char>
    decreases s.len(),
{
    if s.len() > 0 && is_white_space(s[0]) {
        trim_start_chars(s.drop_first())
    } else {
        s
    }
}

/// `s` without its trailing white space.
pub open spec fn trim_end_chars(s: Seq<char>) -> Seq<char>
    decreases s.len(),
{
    if s.len() > 0 && is_white_space(s.last()) {
        trim_end_chars(s.drop_last())
    } else {
        s
    }
}

/// `s` without leading and trailing white space (as `str::trim`).
pub open spec fn trimmed(s: Seq<char>) -> Seq<char> {
    trim_end_chars(trim_start_chars(s))
}

proof fn lemma_trim_start(s: Seq<char>, lo: int)
    requires
        0 <= lo <= s.len(),
        forall|t: int| 0 <= t < lo ==> is_white_space(#[trigger] s[t]),
        lo == s.len() || !is_white_space(s[lo]),
    ensures
        trim_start_chars(s) == s.subrange(lo, s.len() as int),
    decreases lo,
{
    if lo > 0 {
        let d = s.drop_first();
        assert forall|t: int| 0 <= t < lo - 1 implies is_white_space(#[trigger] d[t]) by {
            assert(d[t] == s[t + 1]);
        }
        lemma_trim_start(d, lo - 1);
        assert(d.subrange(lo - 1, d.len() as int) == s.subrange(lo, s.len() as int));
    } else {
        assert(s.subrange(0, s.len() as int) == s);
    }
}

proof fn lemma_trim_end(s: Seq<char>, hi: int)
    requires
        0 <= hi <= s.len(),
        forall|t: int| hi <= t < s.len() ==> is_white_space(#[trigger] s[t]),
        hi == 0 || !is_white_space(s[hi - 1]),
    ensures
        trim_end_chars(s) == s.subrange(0, hi),
    decreases s.len() - hi,
{
    if hi < s.len() {
        let d = s.drop_last();
        assert forall|t: int| hi <= t < d.len() implies is_white_space(#[trigger] d[t]) by {
            assert(d[t] == s[t]);
        }
        lemma_trim_end(d, hi);
        assert(d.subrange(0, hi) == s.subrange(0, hi));
    } else {
        assert(s.subrange(0, s.len() as int) == s);
    }
}

/// The characters `v[lo..hi]` without leading and trailing white space.
pub fn trim_range(v: &Vec<char>, lo: usize, hi: usize) -> (s: String)
    requires
        lo <= hi <= v.len(),
    ensures
        s@ == trimmed(v@.subrange(lo as int, hi as int)),
{
    let ghost w = v@.subrange(lo as int, hi as int);
    let mut a = lo;
    while a < hi && is_whitespace(v[a])
        invariant
            lo <= a <= hi <= v.len(),
            forall|t: int| lo <= t < a ==> is_white_space(#[trigger] v@[t]),
        decreases hi - a,
    {
        a = a + 1;
    }
    proof {
        assert forall|t: int| 0 <= t < a - lo implies is_white_space(#[trigger] w[t]) by {
            assert(w[t] == v@[lo + t]);
        }
        lemma_trim_start(w, a - lo);
    }
    let mut b = hi;
    while b > a && is_whitespace(v[b - 1])
        invariant
            lo <= a <= b <= hi <= v.len(),
            forall|t: int| b <= t < hi ==> is_white_space(#[trigger] v@[t]),
        decreases b - a,
    {
        b = b - 1;
    }
    let ghost u = w.subrange(a - lo, w.len() as int);
    proof {
        assert forall|t: int| b - a <= t < u.len() implies is_white_space(#[trigger] u[t]) by {
            assert(u[t] == v@[a + t]);
        }
        if b > a {
            assert(u[b - a - 1] == v@[b - 1]);
        }
        lemma_trim_end(u, b - a);
    }
    let mut s = String::new();
    let mut i = a;
    while i < b
        invariant
            a <= i <= b <= v.len(),
            s@ == v@.subrange(a as int, i as int),
        decreases b - i,
    {
        proof {
            assert(v@.subrange(a as int, i + 1) == v@.subrange(a as int, i as int).push(v@[i as int]));
        }
        push_char(&mut s, v[i]);
        i = i + 1;
    }
    proof {
        assert(u.subrange(0, b - a) == v@.subrange(a as int, b as int));
    }
    s
}

/// `s` without leading and trailing white space.
pub fn trim(s: &str) -> (r: String)
    ensures
        r@ == trimmed(s@),
{
    let v = chars_of(s);
    proof {
        assert(v@.subrange(0, v@.len() as int) == v@);
    }
    trim_range(&v, 0, v.len())
}

} // verus!
