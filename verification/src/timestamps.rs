//! Repair of predicted word timestamps: the longest non-decreasing
//! subsequence of the predictions is trusted, and the predictions off it are
//! replaced from their trusted neighbours.

use vstd::prelude::*;

verus! {

/// Length of the longest non-decreasing subsequence of `s` that ends at `i`.
pub open spec fn lis_len(s: Seq<u64>, i: int) -> int
    decreases i, 1int,
{
    if i < 0 {
        0
    } else {
        1 + best_before(s, i, i)
    }
}

/// The largest `lis_len(s, j)` over `j < bound` with `s[j] <= s[i]` (0 if none).
pub open spec fn best_before(s: Seq<u64>, i: int, bound: int) -> int
    decreases bound, 0int,
{
    if bound <= 0 {
        0
    } else {
        let rest = best_before(s, i, bound - 1);
        let here = lis_len(s, bound - 1);
        if s[bound - 1] <= s[i] && here > rest {
            here
        } else {
            rest
        }
    }
}

/// The first `j < bound` at which `best_before(s, i, bound)` is reached
/// (`None` when it is 0): the predecessor of `i` on the chosen subsequence.
pub open spec fn first_best(s: Seq<u64>, i: int, bound: int) -> Option<int>
    decreases bound,
{
    if bound <= 0 {
        None
    } else if best_before(s, i, bound) == best_before(s, i, bound - 1) {
        first_best(s, i, bound - 1)
    } else {
        Some(bound - 1)
    }
}

/// The first index `< n` at which `lis_len` is largest.
pub open spec fn first_longest_end(s: Seq<u64>, n: int) -> int
    decreases n,
{
    if n <= 1 {
        0
    } else {
        let m = first_longest_end(s, n - 1);
        if lis_len(s, n - 1) > lis_len(s, m) {
            n - 1
        } else {
            m
        }
    }
}

/// The chosen non-decreasing subsequence ending at `i`, as indices in
/// increasing order, following `first_best` back from `i`.
pub open spec fn lis_chain(s: Seq<u64>, i: int) -> Seq<int>
    decreases i,
{
    match first_best(s, i, i) {
        Some(j) => if 0 <= j < i {
            lis_chain(s, j).push(i)
        } else {
            seq![i]
        },
        None => seq![i],
    }
}

/// The indices of the longest non-decreasing subsequence of `s` chosen by
/// the dynamic programme: it ends at the first index where a longest one
/// ends, and each element's predecessor is the first index that gives it
/// its length.
pub open spec fn lis_indices(s: Seq<u64>) -> Seq<int> {
    if s.len() == 0 {
        Seq::empty()
    } else {
        lis_chain(s, first_longest_end(s, s.len() as int))
    }
}

proof fn lemma_best_before_bounds(s: Seq<u64>, i: int, bound: int)
    requires
        0 <= bound,
    ensures
        0 <= best_before(s, i, bound) <= bound,
    decreases bound,
{
    if bound > 0 {
        lemma_best_before_bounds(s, i, bound - 1);
        lemma_best_before_bounds(s, bound - 1, bound - 1);
        assert(lis_len(s, bound - 1) == 1 + best_before(s, bound - 1, bound - 1));
    }
}

proof fn lemma_lis_len_bounds(s: Seq<u64>, i: int)
    requires
        0 <= i,
    ensures
        1 <= lis_len(s, i) <= i + 1,
{
    lemma_best_before_bounds(s, i, i);
}

proof fn lemma_first_best(s: Seq<u64>, i: int, bound: int)
    requires
        0 <= bound,
    ensures
        first_best(s, i, bound) is None <==> best_before(s, i, bound) == 0,
        first_best(s, i, bound) matches Some(j) ==> 0 <= j < bound && s[j] <= s[i] && lis_len(s, j)
            == best_before(s, i, bound),
    decreases bound,
{
    if bound > 0 {
        lemma_first_best(s, i, bound - 1);
        lemma_best_before_bounds(s, i, bound - 1);
        lemma_lis_len_bounds(s, bound - 1);
    }
}

/// The longest non-decreasing subsequence of `data`, as increasing indices.
pub fn longest_increasing_subsequence(data: &[u64]) -> (lis: Vec<usize>)
    ensures
        lis@.len() == lis_indices(data@).len(),
        forall|k: int| 0 <= k < lis@.len() ==> lis@[k] as int == lis_indices(data@)[k],
{
    let n = data.len();
    if n == 0 {
        return Vec::new();
    }
    let mut dp: Vec<usize> = Vec::new();
    let mut prev: Vec<Option<usize>> = Vec::new();
    let mut i: usize = 0;
    while i < n
        invariant
            n == data.len(),
            0 <= i <= n,
            dp.len() == i,
            prev.len() == i,
            forall|k: int| 0 <= k < i ==> dp@[k] as int == lis_len(data@, k),
            forall|k: int|
                0 <= k < i ==> match #[trigger] prev@[k] {
                    Some(j) => first_best(data@, k, k) == Some(j as int),
                    None => first_best(data@, k, k) is None,
                },
        decreases n - i,
    {
        let mut best: usize = 1;
        let mut from: Option<usize> = None;
        let mut j: usize = 0;
        while j < i
            invariant
                n == data.len(),
                0 <= j <= i < n,
                dp.len() == i,
                forall|k: int| 0 <= k < i ==> dp@[k] as int == lis_len(data@, k),
                best as int == 1 + best_before(data@, i as int, j as int),
                match from {
                    Some(p) => first_best(data@, i as int, j as int) == Some(p as int),
                    None => first_best(data@, i as int, j as int) is None,
                },
            decreases i - j,
        {
            proof {
                lemma_lis_len_bounds(data@, j as int);
                lemma_best_before_bounds(data@, i as int, j as int);
            }
            if data[j] <= data[i] && dp[j] + 1 > best {
                best = dp[j] + 1;
                from = Some(j);
            }
            j = j + 1;
        }
        dp.push(best);
        prev.push(from);
        i = i + 1;
    }
    let mut max_len: usize = 0;
    let mut max_idx: usize = 0;
    let mut k: usize = 0;
    while k < n
        invariant
            n == data.len(),
            0 < n,
            0 <= k <= n,
            dp.len() == n,
            forall|t: int| 0 <= t < n ==> dp@[t] as int == lis_len(data@, t),
            k == 0 ==> max_len == 0 && max_idx == 0,
            k > 0 ==> max_idx as int == first_longest_end(data@, k as int) && max_len as int
                == lis_len(data@, max_idx as int) && max_idx < k,
        decreases n - k,
    {
        proof {
            lemma_lis_len_bounds(data@, k as int);
        }
        if dp[k] > max_len {
            max_len = dp[k];
            max_idx = k;
        }
        k = k + 1;
    }
    let mut chain: Vec<usize> = Vec::new();
    let mut current: Option<usize> = Some(max_idx);
    let ghost mut rest: Seq<int> = lis_indices(data@);
    while current.is_some()
        invariant
            n == data.len(),
            prev.len() == n,
            forall|t: int|
                0 <= t < n ==> match #[trigger] prev@[t] {
                    Some(j) => first_best(data@, t, t) == Some(j as int),
                    None => first_best(data@, t, t) is None,
                },
            match current {
                Some(c) => c < n && rest == lis_chain(data@, c as int),
                None => rest.len() == 0,
            },
            lis_indices(data@) == rest + chain@.reverse().map_values(|x: usize| x as int),
        decreases (match current {
            Some(c) => c as int + 1,
            None => 0,
        }),
    {
        let c = current.unwrap();
        proof {
            lemma_first_best(data@, c as int, c as int);
        }
        let ghost old_chain = chain@;
        chain.push(c);
        proof {
            let p = prev@[c as int];
            let new_rest = match p {
                Some(j) => lis_chain(data@, j as int),
                None => Seq::empty(),
            };
            assert(rest == new_rest.push(c as int));
            assert(chain@.reverse() == seq![c].add(old_chain.reverse()));
            assert(chain@.reverse().map_values(|x: usize| x as int) == seq![c as int].add(
                old_chain.reverse().map_values(|x: usize| x as int),
            ));
            assert(new_rest.push(c as int) + old_chain.reverse().map_values(|x: usize| x as int)
                == new_rest + chain@.reverse().map_values(|x: usize| x as int));
            rest = new_rest;
        }
        current = prev[c];
    }
    let mut lis: Vec<usize> = Vec::new();
    let mut t: usize = chain.len();
    while t > 0
        invariant
            t <= chain.len(),
            lis.len() == chain.len() - t,
            forall|q: int| 0 <= q < lis.len() ==> lis@[q] == chain@[chain.len() - 1 - q],
        decreases t,
    {
        t = t - 1;
        lis.push(chain[t]);
    }
    proof {
        assert(lis_indices(data@) == chain@.reverse().map_values(|x: usize| x as int));
    }
    lis
}

} // verus!

verus! {

/// `idx` lists indices of `s` in strictly increasing order, and the values
/// of `s` at them do not decrease.
pub open spec fn is_nondecreasing_subsequence(s: Seq<u64>, idx: Seq<int>) -> bool {
    &&& forall|k: int| 0 <= k < idx.len() ==> 0 <= #[trigger] idx[k] < s.len()
    &&& forall|a: int, b: int| 0 <= a < b < idx.len() ==> idx[a] < idx[b]
    &&& forall|a: int, b: int| 0 <= a < b < idx.len() ==> s[idx[a]] <= s[idx[b]]
}

proof fn lemma_best_before_ge(s: Seq<u64>, i: int, bound: int, j: int)
    requires
        0 <= j < bound,
        s[j] <= s[i],
    ensures
        best_before(s, i, bound) >= lis_len(s, j),
    decreases bound,
{
    if j < bound - 1 {
        lemma_best_before_ge(s, i, bound - 1, j);
    }
}

proof fn lemma_lis_chain(s: Seq<u64>, i: int)
    requires
        0 <= i < s.len(),
    ensures
        lis_chain(s, i).len() == lis_len(s, i),
        lis_chain(s, i).last() == i,
        is_nondecreasing_subsequence(s, lis_chain(s, i)),
        forall|k: int| 0 <= k < lis_chain(s, i).len() ==> #[trigger] lis_chain(s, i)[k] <= i,
    decreases i,
{
    lemma_first_best(s, i, i);
    lemma_lis_len_bounds(s, i);
    match first_best(s, i, i) {
        Some(j) => {
            lemma_lis_chain(s, j);
            let c = lis_chain(s, j);
            let d = c.push(i);
            assert(lis_chain(s, i) == d);
            assert forall|a: int, b: int| 0 <= a < b < d.len() implies d[a] < d[b] && s[d[a]]
                <= s[d[b]] by {
                if b == d.len() - 1 {
                    if a < c.len() - 1 {
                        assert(s[c[a]] <= s[c[c.len() - 1]]);
                    }
                }
            }
        },
        None => {
            assert(best_before(s, i, i) == 0);
        },
    }
}

proof fn lemma_first_longest_end(s: Seq<u64>, n: int)
    requires
        1 <= n <= s.len(),
    ensures
        0 <= first_longest_end(s, n) < n,
        forall|t: int| 0 <= t < n ==> #[trigger] lis_len(s, t) <= lis_len(s, first_longest_end(s, n)),
    decreases n,
{
    if n > 1 {
        lemma_first_longest_end(s, n - 1);
    }
}

proof fn lemma_subsequence_bound(s: Seq<u64>, idx: Seq<int>)
    requires
        idx.len() > 0,
        is_nondecreasing_subsequence(s, idx),
    ensures
        idx.len() <= lis_len(s, idx.last()),
    decreases idx.len(),
{
    let e = idx.last();
    lemma_lis_len_bounds(s, e);
    if idx.len() > 1 {
        let p = idx.drop_last();
        assert(is_nondecreasing_subsequence(s, p));
        lemma_subsequence_bound(s, p);
        let e2 = p.last();
        assert(e2 == idx[idx.len() - 2]);
        lemma_best_before_ge(s, e, e, e2);
    }
}

/// The subsequence chosen by `longest_increasing_subsequence` is a
/// non-decreasing subsequence, and no non-decreasing subsequence is longer.
pub proof fn lis_is_longest_nondecreasing(s: Seq<u64>, other: Seq<int>)
    requires
        is_nondecreasing_subsequence(s, other),
    ensures
        is_nondecreasing_subsequence(s, lis_indices(s)),
        other.len() <= lis_indices(s).len(),
        s.len() > 0 ==> lis_indices(s).len() > 0,
{
    if s.len() > 0 {
        let m = first_longest_end(s, s.len() as int);
        lemma_first_longest_end(s, s.len() as int);
        lemma_lis_chain(s, m);
        if other.len() > 0 {
            lemma_subsequence_bound(s, other);
            assert(0 <= other.last() < s.len());
        }
    } else {
        if other.len() > 0 {
            assert(0 <= other[0] < s.len());
        }
    }
}

} // verus!

verus! {

/// A repaired timestamp: either a value taken from the predictions, or a
/// point `step / steps` of the way from `left` to `right`.
#[derive(Debug, Clone, Copy, PartialEq, Eq)]
pub enum FixedTimestamp {
    Exact(u64),
    Interpolated { left: u64, right: u64, step: usize, steps: usize },
}

/// Whether prediction `k` lies on the chosen longest non-decreasing subsequence.
pub open spec fn on_lis(s: Seq<u64>, k: int) -> bool {
    lis_indices(s).contains(k)
}

/// First index of the maximal run of predictions off the subsequence that
/// contains `k`.
pub open spec fn anomaly_start(s: Seq<u64>, k: int) -> int
    decreases k,
{
    if k > 0 && !on_lis(s, k - 1) {
        anomaly_start(s, k - 1)
    } else {
        k
    }
}

/// End (exclusive) of the maximal run of predictions off the subsequence that
/// contains `k`.
pub open spec fn anomaly_end(s: Seq<u64>, k: int) -> int
    decreases s.len() - k,
{
    if 0 <= k && k + 1 < s.len() && !on_lis(s, k + 1) {
        anomaly_end(s, k + 1)
    } else {
        k + 1
    }
}

/// The repaired timestamp at `k`. Predictions on the subsequence are kept.
/// In a run of at most two predictions off it, each takes the nearer trusted
/// neighbour (the left one on a tie, or the only one at an edge). A longer
/// run between two trusted neighbours is spread evenly between them; at an
/// edge it takes the one neighbour. With one prediction or none, nothing
/// changes.
pub open spec fn fixed_timestamp_at(s: Seq<u64>, k: int) -> FixedTimestamp {
    if s.len() <= 1 || on_lis(s, k) {
        FixedTimestamp::Exact(s[k])
    } else {
        let i = anomaly_start(s, k);
        let j = anomaly_end(s, k);
        let has_left = i > 0;
        let has_right = j < s.len();
        if has_left && has_right {
            if j - i <= 2 {
                if k - (i - 1) <= j - k {
                    FixedTimestamp::Exact(s[i - 1])
                } else {
                    FixedTimestamp::Exact(s[j])
                }
            } else {
                FixedTimestamp::Interpolated {
                    left: s[i - 1],
                    right: s[j],
                    step: (k - i + 1) as usize,
                    steps: (j - i + 1) as usize,
                }
            }
        } else if has_left {
            FixedTimestamp::Exact(s[i - 1])
        } else if has_right {
            FixedTimestamp::Exact(s[j])
        } else {
            FixedTimestamp::Exact(0)
        }
    }
}

proof fn lemma_anomaly_bounds(s: Seq<u64>, i: int, j: int, k: int)
    requires
        0 <= i <= k < j <= s.len(),
        i == 0 || on_lis(s, i - 1),
        j == s.len() || on_lis(s, j),
        forall|t: int| i <= t < j ==> !on_lis(s, t),
    ensures
        anomaly_start(s, k) == i,
        anomaly_end(s, k) == j,
{
    lemma_anomaly_start(s, i, j, k);
    lemma_anomaly_end(s, i, j, k);
}

proof fn lemma_anomaly_start(s: Seq<u64>, i: int, j: int, k: int)
    requires
        0 <= i <= k < j <= s.len(),
        i == 0 || on_lis(s, i - 1),
        forall|t: int| i <= t < j ==> !on_lis(s, t),
    ensures
        anomaly_start(s, k) == i,
    decreases k,
{
    if k > i {
        lemma_anomaly_start(s, i, j, k - 1);
    }
}

proof fn lemma_anomaly_end(s: Seq<u64>, i: int, j: int, k: int)
    requires
        0 <= i <= k < j <= s.len(),
        j == s.len() || on_lis(s, j),
        forall|t: int| i <= t < j ==> !on_lis(s, t),
    ensures
        anomaly_end(s, k) == j,
    decreases j - k,
{
    if k + 1 < j {
        lemma_anomaly_end(s, i, j, k + 1);
    }
}

/// Repairs a sequence of predicted timestamps so that they do not decrease:
/// the predictions on the longest non-decreasing subsequence are trusted and
/// the others are replaced from their trusted neighbours
/// (see `fixed_timestamp_at`).
pub fn fix_timestamp(data: &[u64]) -> (fixed: Vec<FixedTimestamp>)
    ensures
        fixed@.len() == data@.len(),
        forall|k: int| 0 <= k < data@.len() ==> fixed@[k] == fixed_timestamp_at(data@, k),
{
    let n = data.len();
    if n <= 1 {
        let mut out: Vec<FixedTimestamp> = Vec::new();
        if n == 1 {
            out.push(FixedTimestamp::Exact(data[0]));
        }
        return out;
    }
    let lis = longest_increasing_subsequence(data);
    let ghost lis_spec = lis_indices(data@);
    proof {
        lis_is_longest_nondecreasing(data@, Seq::empty());
    }
    let mut valid: Vec<bool> = Vec::new();
    let mut result: Vec<FixedTimestamp> = Vec::new();
    let mut t: usize = 0;
    while t < n
        invariant
            n == data.len(),
            0 <= t <= n,
            valid.len() == t,
            result.len() == t,
            forall|q: int| 0 <= q < t ==> !valid@[q],
            forall|q: int| 0 <= q < t ==> result@[q] == FixedTimestamp::Exact(0),
        decreases n - t,
    {
        valid.push(false);
        result.push(FixedTimestamp::Exact(0));
        t = t + 1;
    }
    let mut p: usize = 0;
    while p < lis.len()
        invariant
            n == data.len(),
            1 < n,
            lis_spec == lis_indices(data@),
            is_nondecreasing_subsequence(data@, lis_spec),
            lis@.len() == lis_spec.len(),
            forall|q: int| 0 <= q < lis@.len() ==> lis@[q] as int == lis_spec[q],
            0 <= p <= lis.len(),
            valid.len() == n,
            result.len() == n,
            forall|q: int| 0 <= q < n ==> (valid@[q] <==> exists|w: int| 0 <= w < p && #[trigger] lis_spec[w] == q),
            forall|q: int|
                0 <= q < n ==> result@[q] == (if valid@[q] {
                    FixedTimestamp::Exact(data@[q])
                } else {
                    FixedTimestamp::Exact(0)
                }),
        decreases lis.len() - p,
    {
        let idx = lis[p];
        proof {
            assert(0 <= lis_spec[p as int] < n);
        }
        valid.set(idx, true);
        result.set(idx, FixedTimestamp::Exact(data[idx]));
        p = p + 1;
    }
    proof {
        assert forall|q: int| 0 <= q < n implies valid@[q] == on_lis(data@, q) by {
            if on_lis(data@, q) {
                let w = choose|w: int| 0 <= w < lis_spec.len() && lis_spec[w] == q;
                assert(lis_spec[w] == q);
            }
        }
    }
    let mut i: usize = 0;
    while i < n
        invariant
            n == data.len(),
            1 < n,
            0 <= i <= n,
            valid.len() == n,
            result.len() == n,
            forall|q: int| 0 <= q < n ==> valid@[q] == on_lis(data@, q),
            i == 0 || i == n || valid@[i - 1] || valid@[i as int],
            forall|q: int| 0 <= q < i ==> result@[q] == fixed_timestamp_at(data@, q),
            forall|q: int| i <= q < n && valid@[q] ==> result@[q] == FixedTimestamp::Exact(data@[q]),
        decreases n - i,
    {
        if valid[i] {
            i = i + 1;
            continue;
        }
        let mut j: usize = i;
        while j < n && !valid[j]
            invariant
                n == data.len(),
                i <= j <= n,
                valid.len() == n,
                forall|q: int| i <= q < j ==> !valid@[q],
            decreases n - j,
        {
            j = j + 1;
        }
        let anomaly_len = j - i;
        let has_left = i > 0;
        let has_right = j < n;
        let ghost before = result@;
        let mut k: usize = i;
        while k < j
            invariant
                n == data.len(),
                1 < n,
                0 <= i <= k <= j <= n,
                i < j,
                anomaly_len == j - i,
                has_left == (i > 0),
                has_right == (j < n),
                valid.len() == n,
                result.len() == n,
                forall|q: int| 0 <= q < n ==> valid@[q] == on_lis(data@, q),
                i == 0 || valid@[i - 1],
                j == n || valid@[j as int],
                forall|q: int| i <= q < j ==> !valid@[q],
                forall|q: int| 0 <= q < n && !(i <= q < k) ==> result@[q] == before[q],
                forall|q: int| i <= q < k ==> result@[q] == fixed_timestamp_at(data@, q),
            decreases j - k,
        {
            proof {
                lemma_anomaly_bounds(data@, i as int, j as int, k as int);
            }
            let value = if has_left && has_right {
                if anomaly_len <= 2 {
                    if k + 1 - i <= j - k {
                        FixedTimestamp::Exact(data[i - 1])
                    } else {
                        FixedTimestamp::Exact(data[j])
                    }
                } else {
                    FixedTimestamp::Interpolated {
                        left: data[i - 1],
                        right: data[j],
                        step: k - i + 1,
                        steps: anomaly_len + 1,
                    }
                }
            } else if has_left {
                FixedTimestamp::Exact(data[i - 1])
            } else if has_right {
                FixedTimestamp::Exact(data[j])
            } else {
                FixedTimestamp::Exact(0)
            };
            result.set(k, value);
            k = k + 1;
        }
        i = j;
    }
    result
}

} // verus!

verus! {

/// Numerator of a repaired timestamp's value over `timestamp_den`.
pub open spec fn timestamp_num(f: FixedTimestamp) -> int {
    match f {
        FixedTimestamp::Exact(v) => v as int,
        FixedTimestamp::Interpolated { left, right, step, steps } => left * steps + (right - left)
            * step,
    }
}

/// Denominator of a repaired timestamp's value.
pub open spec fn timestamp_den(f: FixedTimestamp) -> int {
    match f {
        FixedTimestamp::Exact(_) => 1,
        FixedTimestamp::Interpolated { steps, .. } => steps as int,
    }
}

/// The value of `a` is at most the value of `b`.
pub open spec fn timestamp_le(a: FixedTimestamp, b: FixedTimestamp) -> bool {
    timestamp_num(a) * timestamp_den(b) <= timestamp_num(b) * timestamp_den(a)
}

proof fn lemma_lis_values_ordered(s: Seq<u64>, a: int, b: int)
    requires
        0 <= a < b < s.len(),
        on_lis(s, a),
        on_lis(s, b),
    ensures
        s[a] <= s[b],
{
    lis_is_longest_nondecreasing(s, Seq::empty());
    let l = lis_indices(s);
    let x = choose|x: int| 0 <= x < l.len() && l[x] == a;
    let y = choose|y: int| 0 <= y < l.len() && l[y] == b;
    if y < x {
        assert(l[y] < l[x]);
    }
    if x != y {
        assert(s[l[x]] <= s[l[y]]);
    }
}

proof fn lemma_anomaly_start_props(s: Seq<u64>, k: int)
    requires
        0 <= k < s.len(),
        !on_lis(s, k),
    ensures
        0 <= anomaly_start(s, k) <= k,
        anomaly_start(s, k) == 0 || on_lis(s, anomaly_start(s, k) - 1),
        forall|t: int| anomaly_start(s, k) <= t <= k ==> !on_lis(s, t),
    decreases k,
{
    if k > 0 && !on_lis(s, k - 1) {
        lemma_anomaly_start_props(s, k - 1);
    }
}

proof fn lemma_anomaly_end_props(s: Seq<u64>, k: int)
    requires
        0 <= k < s.len(),
        !on_lis(s, k),
    ensures
        k < anomaly_end(s, k) <= s.len(),
        anomaly_end(s, k) == s.len() || on_lis(s, anomaly_end(s, k)),
        forall|t: int| k <= t < anomaly_end(s, k) ==> !on_lis(s, t),
    decreases s.len() - k,
{
    if k + 1 < s.len() && !on_lis(s, k + 1) {
        lemma_anomaly_end_props(s, k + 1);
    }
}

proof fn lemma_run(s: Seq<u64>, k: int)
    requires
        0 <= k < s.len(),
        !on_lis(s, k),
    ensures
        0 <= anomaly_start(s, k) <= k < anomaly_end(s, k) <= s.len(),
        anomaly_start(s, k) == 0 || on_lis(s, anomaly_start(s, k) - 1),
        anomaly_end(s, k) == s.len() || on_lis(s, anomaly_end(s, k)),
        forall|t: int| anomaly_start(s, k) <= t < anomaly_end(s, k) ==> !on_lis(s, t),
{
    lemma_anomaly_start_props(s, k);
    lemma_anomaly_end_props(s, k);
}

proof fn lemma_mul_le(a: int, b: int, c: int)
    requires
        0 <= a,
        b <= c,
    ensures
        a * b <= a * c,
{
    assert(a * b <= a * c) by (nonlinear_arith)
        requires
            0 <= a,
            b <= c,
    ;
}

/// Bounds of a timestamp inside a run with both neighbours: between the two.
proof fn lemma_between(s: Seq<u64>, k: int)
    requires
        1 < s.len() <= usize::MAX,
        0 <= k < s.len(),
        !on_lis(s, k),
        anomaly_start(s, k) > 0,
        anomaly_end(s, k) < s.len(),
    ensures
        ({
            let f = fixed_timestamp_at(s, k);
            let lv = s[anomaly_start(s, k) - 1];
            let rv = s[anomaly_end(s, k)];
            &&& lv <= rv
            &&& timestamp_den(f) >= 1
            &&& lv * timestamp_den(f) <= timestamp_num(f)
            &&& timestamp_num(f) <= rv * timestamp_den(f)
        }),
{
    lemma_run(s, k);
    let i = anomaly_start(s, k);
    let j = anomaly_end(s, k);
    lemma_lis_values_ordered(s, i - 1, j);
    let lv = s[i - 1] as int;
    let rv = s[j] as int;
    if j - i > 2 {
        let st = k - i + 1;
        let sts = j - i + 1;
        lemma_mul_le(rv - lv, 0, st);
        lemma_mul_le(rv - lv, st, sts);
        assert(lv * sts + (rv - lv) * sts == rv * sts) by (nonlinear_arith);
    }
}

proof fn lemma_le_same_den(a: FixedTimestamp, b: FixedTimestamp)
    requires
        timestamp_den(a) == timestamp_den(b),
        timestamp_den(a) >= 0,
        timestamp_num(a) <= timestamp_num(b),
    ensures
        timestamp_le(a, b),
{
    let d = timestamp_den(a);
    let x = timestamp_num(a);
    let y = timestamp_num(b);
    assert(x * d <= y * d) by (nonlinear_arith)
        requires
            x <= y,
            d >= 0,
    ;
}

/// The repaired timestamps never decrease from one word boundary to the next.
pub proof fn fixed_timestamps_nondecreasing(s: Seq<u64>, k: int)
    requires
        s.len() <= usize::MAX,
        0 <= k,
        k + 1 < s.len(),
    ensures
        timestamp_le(fixed_timestamp_at(s, k), fixed_timestamp_at(s, k + 1)),
{
    let a = fixed_timestamp_at(s, k);
    let b = fixed_timestamp_at(s, k + 1);
    let n = s.len() as int;
    if on_lis(s, k) && on_lis(s, k + 1) {
        lemma_lis_values_ordered(s, k, k + 1);
        assert(timestamp_le(a, b));
    } else if on_lis(s, k) {
        lemma_run(s, k + 1);
        let i = anomaly_start(s, k + 1);
        let j = anomaly_end(s, k + 1);
        assert(i == k + 1);
        assert(a == FixedTimestamp::Exact(s[k]));
        if j < n {
            lemma_between(s, k + 1);
            assert(s[k] * timestamp_den(b) <= timestamp_num(b));
        } else {
            assert(b == FixedTimestamp::Exact(s[k]));
        }
        assert(timestamp_le(a, b));
    } else if on_lis(s, k + 1) {
        lemma_run(s, k);
        let i = anomaly_start(s, k);
        let j = anomaly_end(s, k);
        assert(j == k + 1);
        assert(b == FixedTimestamp::Exact(s[k + 1]));
        if i > 0 {
            lemma_between(s, k);
            assert(timestamp_num(a) <= s[k + 1] * timestamp_den(a));
        } else {
            assert(a == FixedTimestamp::Exact(s[k + 1]));
        }
        assert(timestamp_le(a, b));
    } else {
        lemma_run(s, k);
        lemma_run(s, k + 1);
        let i = anomaly_start(s, k);
        let j = anomaly_end(s, k);
        lemma_anomaly_bounds(s, i, j, k + 1);
        if i > 0 && j < n {
            lemma_lis_values_ordered(s, i - 1, j);
            let lv = s[i - 1] as int;
            let rv = s[j] as int;
            if j - i > 2 {
                let sts = j - i + 1;
                lemma_mul_le(rv - lv, k - i + 1, k - i + 2);
                assert(timestamp_den(a) == sts && timestamp_den(b) == sts);
                assert(timestamp_num(a) == lv * sts + (rv - lv) * (k - i + 1));
                assert(timestamp_num(b) == lv * sts + (rv - lv) * (k - i + 2));
                assert(timestamp_num(a) <= timestamp_num(b));
                assert(timestamp_num(a) * sts <= timestamp_num(b) * sts) by (nonlinear_arith)
                    requires
                        timestamp_num(a) <= timestamp_num(b),
                        sts >= 0,
                ;
                assert(timestamp_le(a, b));
            } else {
                if k - (i - 1) <= j - k {
                    assert(a == FixedTimestamp::Exact(s[i - 1]));
                    assert(b == FixedTimestamp::Exact(s[i - 1]) || b == FixedTimestamp::Exact(s[j]));
                    assert(timestamp_den(a) == 1 && timestamp_den(b) == 1);
                    assert(timestamp_num(a) == lv);
                    assert(timestamp_num(b) >= lv);
                    lemma_le_same_den(a, b);
                } else {
                    assert(a == FixedTimestamp::Exact(s[j]));
                    assert(b == FixedTimestamp::Exact(s[j]));
                }
            }
        } else {
            assert(a == b);
        }
        assert(timestamp_le(a, b));
    }
}

proof fn lemma_den_positive(s: Seq<u64>, k: int)
    requires
        s.len() <= usize::MAX,
        0 <= k < s.len(),
    ensures
        timestamp_den(fixed_timestamp_at(s, k)) >= 1,
{
    if s.len() > 1 && !on_lis(s, k) {
        lemma_run(s, k);
    }
}

proof fn lemma_le_transitive(a: FixedTimestamp, b: FixedTimestamp, c: FixedTimestamp)
    requires
        timestamp_den(a) >= 1,
        timestamp_den(b) >= 1,
        timestamp_den(c) >= 1,
        timestamp_le(a, b),
        timestamp_le(b, c),
    ensures
        timestamp_le(a, c),
{
    let (x1, d1) = (timestamp_num(a), timestamp_den(a));
    let (x2, d2) = (timestamp_num(b), timestamp_den(b));
    let (x3, d3) = (timestamp_num(c), timestamp_den(c));
    assert(x1 * d3 <= x3 * d1) by (nonlinear_arith)
        requires
            d1 >= 1,
            d2 >= 1,
            d3 >= 1,
            x1 * d2 <= x2 * d1,
            x2 * d3 <= x3 * d2,
    {
        assert(x1 * d2 * d3 <= x2 * d1 * d3);
        assert(x2 * d3 * d1 <= x3 * d2 * d1);
        assert(x1 * d3 * d2 <= x3 * d1 * d2);
    }
}

/// The repaired timestamps are sorted: no later one is smaller than an
/// earlier one.
pub proof fn fixed_timestamps_sorted(s: Seq<u64>, a: int, b: int)
    requires
        s.len() <= usize::MAX,
        0 <= a <= b < s.len(),
    ensures
        timestamp_le(fixed_timestamp_at(s, a), fixed_timestamp_at(s, b)),
    decreases b - a,
{
    lemma_den_positive(s, a);
    if a == b {
        let f = fixed_timestamp_at(s, a);
        let x = timestamp_num(f);
        let d = timestamp_den(f);
        assert(x * d <= x * d);
    } else {
        fixed_timestamps_sorted(s, a, b - 1);
        fixed_timestamps_nondecreasing(s, b - 1);
        lemma_den_positive(s, b - 1);
        lemma_den_positive(s, b);
        lemma_le_transitive(
            fixed_timestamp_at(s, a),
            fixed_timestamp_at(s, b - 1),
            fixed_timestamp_at(s, b),
        );
    }
}

proof fn lemma_increasing_lower(l: Seq<int>, i: int)
    requires
        forall|a: int, b: int| 0 <= a < b < l.len() ==> l[a] < l[b],
        forall|k: int| 0 <= k < l.len() ==> 0 <= #[trigger] l[k],
        0 <= i < l.len(),
    ensures
        l[i] >= i,
    decreases i,
{
    if i > 0 {
        lemma_increasing_lower(l, i - 1);
        assert(l[i - 1] < l[i]);
    }
}

proof fn lemma_increasing_upper(l: Seq<int>, n: int, i: int)
    requires
        forall|a: int, b: int| 0 <= a < b < l.len() ==> l[a] < l[b],
        forall|k: int| 0 <= k < l.len() ==> #[trigger] l[k] < n,
        0 <= i < l.len(),
    ensures
        l[i] <= n - l.len() + i,
    decreases l.len() - i,
{
    if i < l.len() - 1 {
        lemma_increasing_upper(l, n, i + 1);
        assert(l[i] < l[i + 1]);
    }
}

/// Predictions that already never decrease are kept exactly.
pub proof fn sorted_timestamps_kept(s: Seq<u64>)
    requires
        forall|a: int, b: int| 0 <= a < b < s.len() ==> s[a] <= s[b],
    ensures
        forall|k: int| 0 <= k < s.len() ==> #[trigger] fixed_timestamp_at(s, k) == FixedTimestamp::Exact(s[k]),
{
    let n = s.len() as int;
    let all = Seq::new(n as nat, |i: int| i);
    assert(is_nondecreasing_subsequence(s, all));
    lis_is_longest_nondecreasing(s, all);
    let l = lis_indices(s);
    assert forall|k: int| 0 <= k < n implies on_lis(s, k) by {
        assert(l.len() >= n);
        lemma_increasing_lower(l, k);
        lemma_increasing_upper(l, n, k);
        assert(l[k] == k);
    }
}

/// The value of a repaired timestamp that was taken from the predictions.
pub open spec fn exact_value(f: FixedTimestamp) -> u64 {
    match f {
        FixedTimestamp::Exact(v) => v,
        FixedTimestamp::Interpolated { left, .. } => left,
    }
}

/// Repairing twice changes nothing: when every repaired timestamp is a
/// prediction value, repairing those values gives them back.
pub proof fn repair_is_idempotent(s: Seq<u64>)
    requires
        s.len() <= usize::MAX,
        forall|k: int| 0 <= k < s.len() ==> #[trigger] fixed_timestamp_at(s, k) is Exact,
    ensures
        ({
            let t = Seq::new(s.len(), |k: int| exact_value(fixed_timestamp_at(s, k)));
            forall|k: int| 0 <= k < s.len() ==> #[trigger] fixed_timestamp_at(t, k) == fixed_timestamp_at(s, k)
        }),
{
    let t = Seq::new(s.len(), |k: int| exact_value(fixed_timestamp_at(s, k)));
    assert forall|a: int, b: int| 0 <= a < b < t.len() implies t[a] <= t[b] by {
        fixed_timestamps_sorted(s, a, b);
        assert(fixed_timestamp_at(s, a) is Exact);
        assert(fixed_timestamp_at(s, b) is Exact);
    }
    sorted_timestamps_kept(t);
    assert forall|k: int| 0 <= k < s.len() implies #[trigger] fixed_timestamp_at(t, k) == fixed_timestamp_at(s, k) by {
        assert(fixed_timestamp_at(s, k) is Exact);
        assert(fixed_timestamp_at(t, k) == FixedTimestamp::Exact(t[k]));
    }
}

} // verus!
