//! Assignment of rotary-embedding frequency slots to position axes
//! (multimodal RoPE sections).

use vstd::prelude::*;

verus! {

/// The axis of slot `k` when `sections[d]` consecutive slots go to axis `d`,
/// in axis order; slots past the sum of all sections go to the last axis
/// (axis 0 when there are no sections).
pub open spec fn contiguous_axis(sections: Seq<usize>, k: int, d: int) -> int
    decreases sections.len() - d,
{
    if d >= sections.len() {
        if sections.len() == 0 { 0 } else { sections.len() - 1 }
    } else if k < sections[d] {
        d
    } else {
        contiguous_axis(sections, k - sections[d], d + 1)
    }
}

/// Sum of the first `d` sections.
pub open spec fn section_prefix(sections: Seq<usize>, d: int) -> int
    decreases d,
{
    if d <= 0 { 0 } else { section_prefix(sections, d - 1) + sections[d - 1] }
}

proof fn lemma_contiguous_axis_in_section(sections: Seq<usize>, k: int, d: int, e: int)
    requires
        0 <= d <= e < sections.len(),
        section_prefix(sections, d) <= k,
        section_prefix(sections, e) <= k < section_prefix(sections, e + 1),
    ensures
        contiguous_axis(sections, k - section_prefix(sections, d), d) == e,
    decreases e - d,
{
    if d < e {
        lemma_section_prefix_mono(sections, d + 1, e);
        lemma_contiguous_axis_in_section(sections, k, d + 1, e);
    }
}

proof fn lemma_contiguous_axis_beyond(sections: Seq<usize>, k: int, d: int)
    requires
        0 <= d <= sections.len(),
        section_prefix(sections, sections.len() as int) <= k,
        section_prefix(sections, d) <= k,
    ensures
        contiguous_axis(sections, k - section_prefix(sections, d), d)
            == (if sections.len() == 0 { 0 } else { sections.len() - 1 }),
    decreases sections.len() - d,
{
    if d < sections.len() {
        lemma_section_prefix_mono(sections, d + 1, sections.len() as int);
        lemma_contiguous_axis_beyond(sections, k, d + 1);
    }
}

proof fn lemma_section_prefix_mono(sections: Seq<usize>, a: int, b: int)
    requires
        0 <= a <= b <= sections.len(),
    ensures
        section_prefix(sections, a) <= section_prefix(sections, b),
    decreases b - a,
{
    if a < b {
        lemma_section_prefix_mono(sections, a, b - 1);
    }
}

/// Maps each of the `total` frequency slots to a position axis, giving
/// `sections[d]` consecutive slots to axis `d` in order, and any slots left
/// over to the last axis.
pub fn build_contiguous_dim_map(sections: &[usize], total: usize) -> (map: Vec<usize>)
    ensures
        map.len() == total,
        forall|k: int| 0 <= k < total ==> map[k] as int == contiguous_axis(sections@, k, 0),
{
    let mut map: Vec<usize> = Vec::new();
    let mut dim: usize = 0;
    while dim < sections.len()
        invariant
            0 <= dim <= sections.len(),
            map.len() <= total,
            map.len() < total ==> map.len() == section_prefix(sections@, dim as int),
            map.len() == total ==> section_prefix(sections@, dim as int) >= total,
            forall|k: int|
                0 <= k < map.len() ==> map[k] as int == contiguous_axis(sections@, k, 0),
        decreases sections.len() - dim,
    {
        let size = sections[dim];
        let mut taken: usize = 0;
        while taken < size && map.len() < total
            invariant
                0 <= dim < sections.len(),
                size == sections[dim as int],
                0 <= taken <= size,
                map.len() <= total,
                map.len() < total ==> map.len() == section_prefix(sections@, dim as int) + taken,
                map.len() == total ==> section_prefix(sections@, dim as int) + taken >= total,
                forall|k: int|
                    0 <= k < map.len() ==> map[k] as int == contiguous_axis(sections@, k, 0),
            decreases size - taken,
        {
            proof {
                let k = map.len() as int;
                assert(section_prefix(sections@, dim as int + 1) == section_prefix(
                    sections@,
                    dim as int,
                ) + sections@[dim as int]);
                assert(section_prefix(sections@, 0) == 0);
                lemma_contiguous_axis_in_section(sections@, k, 0, dim as int);
            }
            map.push(dim);
            taken = taken + 1;
        }
        proof {
            assert(section_prefix(sections@, dim as int + 1) == section_prefix(sections@, dim as int)
                + sections@[dim as int]);
        }
        dim = dim + 1;
    }
    let last: usize = if sections.len() == 0 { 0 } else { sections.len() - 1 };
    while map.len() < total
        invariant
            dim == sections.len(),
            map.len() <= total,
            map.len() < total ==> map.len() >= section_prefix(sections@, dim as int),
            last as int == (if sections.len() == 0 { 0 } else { sections.len() - 1 }),
            forall|k: int|
                0 <= k < map.len() ==> map[k] as int == contiguous_axis(sections@, k, 0),
        decreases total - map.len(),
    {
        proof {
            let k = map.len() as int;
            assert(section_prefix(sections@, 0) == 0);
            lemma_contiguous_axis_beyond(sections@, k, 0);
        }
        map.push(last);
    }
    map
}

} // verus!

verus! {

/// The number of slots axis `d` receives (0 past the given sections).
pub open spec fn section_at(sections: Seq<usize>, d: int) -> int {
    if 0 <= d < sections.len() {
        sections[d] as int
    } else {
        0
    }
}

/// The axes that take a slot in round `r` of the round-robin: those whose
/// section is larger than `r`, in axis order, over `axes` axes.
pub open spec fn round_axes(sections: Seq<usize>, axes: int, r: int) -> Seq<int>
    decreases axes,
{
    if axes <= 0 {
        Seq::empty()
    } else {
        round_axes(sections, axes - 1, r) + (if r < section_at(sections, axes - 1) {
            seq![axes - 1]
        } else {
            Seq::empty()
        })
    }
}

/// The slots handed out in the first `rounds` rounds.
pub open spec fn rounds_prefix(sections: Seq<usize>, axes: int, rounds: int) -> Seq<int>
    decreases rounds,
{
    if rounds <= 0 {
        Seq::empty()
    } else {
        rounds_prefix(sections, axes, rounds - 1) + round_axes(sections, axes, rounds - 1)
    }
}

/// The number of axes used for interleaving: at least one.
pub open spec fn axis_count(sections: Seq<usize>) -> int {
    if sections.len() == 0 {
        1
    } else {
        sections.len() as int
    }
}

/// The largest section.
pub open spec fn max_section(sections: Seq<usize>) -> int
    decreases sections.len(),
{
    if sections.len() == 0 {
        0
    } else {
        let m = max_section(sections.drop_last());
        if sections.last() > m {
            sections.last() as int
        } else {
            m
        }
    }
}

/// The round-robin assignment of slots before filling: every round gives one
/// slot to each axis that still has some left, until none has.
pub open spec fn interleaved_axes(sections: Seq<usize>) -> Seq<int> {
    rounds_prefix(sections, axis_count(sections), max_section(sections))
}

/// Slot `k` of the interleaved map of `total` slots: the round-robin
/// assignment, and the last axis for slots beyond it.
pub open spec fn interleaved_axis(sections: Seq<usize>, k: int) -> int {
    let base = interleaved_axes(sections);
    if k < base.len() {
        base[k]
    } else {
        axis_count(sections) - 1
    }
}

} // verus!

verus! {

proof fn lemma_max_section(sections: Seq<usize>)
    ensures
        forall|d: int| 0 <= d < sections.len() ==> #[trigger] sections[d] <= max_section(sections),
        max_section(sections) == 0 || exists|d: int|
            0 <= d < sections.len() && #[trigger] sections[d] == max_section(sections),
        max_section(sections) >= 0,
    decreases sections.len(),
{
    if sections.len() > 0 {
        let p = sections.drop_last();
        lemma_max_section(p);
        assert forall|d: int| 0 <= d < sections.len() implies #[trigger] sections[d] <= max_section(
            sections,
        ) by {
            if d < p.len() {
                assert(sections[d] == p[d]);
            }
        }
        if max_section(sections) != 0 && max_section(sections) == max_section(p) {
            let d = choose|d: int| 0 <= d < p.len() && #[trigger] p[d] == max_section(p);
            assert(sections[d] == p[d]);
        }
    }
}

proof fn lemma_round_axes_len(sections: Seq<usize>, axes: int, r: int, d: int)
    requires
        0 <= d < axes,
        r < section_at(sections, d),
    ensures
        round_axes(sections, axes, r).len() > 0,
    decreases axes,
{
    if d < axes - 1 {
        lemma_round_axes_len(sections, axes - 1, r, d);
    }
}

proof fn lemma_rounds_prefix_grows(sections: Seq<usize>, axes: int, a: int, b: int)
    requires
        0 <= a <= b,
    ensures
        rounds_prefix(sections, axes, a).len() <= rounds_prefix(sections, axes, b).len(),
        forall|k: int| 0 <= k < rounds_prefix(sections, axes, a).len() ==> #[trigger] rounds_prefix(sections, axes, a)[k]
            == rounds_prefix(sections, axes, b)[k],
    decreases b - a,
{
    if a < b {
        lemma_rounds_prefix_grows(sections, axes, a, b - 1);
        let p = rounds_prefix(sections, axes, b - 1);
        assert forall|k: int| 0 <= k < p.len() implies #[trigger] p[k] == rounds_prefix(sections, axes, b)[k] by {}
    }
}

/// Maps each of the `total` frequency slots to a position axis by handing
/// out slots round-robin to the axes that still have some of their section
/// left, and any slots left over to the last axis.
pub fn build_interleaved_dim_map(sections: &[usize], total: usize) -> (map: Vec<usize>)
    ensures
        map.len() == total,
        forall|k: int| 0 <= k < total ==> map[k] as int == interleaved_axis(sections@, k),
{
    let n_dims: usize = if sections.len() == 0 { 1 } else { sections.len() };
    let ghost axes = axis_count(sections@);
    let ghost base = interleaved_axes(sections@);
    let ghost top = max_section(sections@);
    proof {
        lemma_max_section(sections@);
    }
    let mut map: Vec<usize> = Vec::new();
    let mut counts: Vec<usize> = Vec::new();
    let mut t: usize = 0;
    while t < n_dims
        invariant
            0 <= t <= n_dims,
            counts.len() == t,
            forall|d: int| 0 <= d < t ==> counts@[d] == 0,
        decreases n_dims - t,
    {
        counts.push(0);
        t = t + 1;
    }
    let ghost mut r: int = 0;
    let mut done = false;
    while map.len() < total && !done
        invariant
            n_dims as int == axes,
            axes == axis_count(sections@),
            base == interleaved_axes(sections@),
            top == max_section(sections@),
            top >= 0,
            forall|d: int| 0 <= d < sections@.len() ==> #[trigger] sections@[d] <= top,
            top == 0 || exists|d: int| 0 <= d < sections@.len() && #[trigger] sections@[d] == top,
            0 <= r <= top,
            counts.len() == n_dims,
            !done && map.len() < total ==> forall|d: int| 0 <= d < n_dims ==> #[trigger] counts@[d] as int == if r < section_at(sections@, d) { r } else { section_at(sections@, d) },
            map.len() <= total,
            !done && map.len() < total ==> map@.map_values(|x: usize| x as int) == rounds_prefix(sections@, axes, r),
            done ==> map@.map_values(|x: usize| x as int) == base,
            map.len() <= base.len(),
            forall|k: int| 0 <= k < map.len() ==> map@[k] as int == #[trigger] base[k],
        decreases top - r + (if done { 0int } else { 1int }),
    {
        let prev_len = map.len();
        let mut dim: usize = 0;
        let ghost start_map = map@.map_values(|x: usize| x as int);
        while dim < n_dims && map.len() < total
            invariant
                n_dims as int == axes,
                0 <= dim <= n_dims,
                0 <= r <= top,
                counts.len() == n_dims,
                forall|d: int| 0 <= d < n_dims ==> #[trigger] counts@[d] as int == if d < dim {
                    if r + 1 < section_at(sections@, d) { r + 1 } else { section_at(sections@, d) }
                } else {
                    if r < section_at(sections@, d) { r } else { section_at(sections@, d) }
                },
                start_map == rounds_prefix(sections@, axes, r),
                map.len() <= total,
                prev_len <= map.len(),
                map@.map_values(|x: usize| x as int) == start_map + round_axes(sections@, dim as int, r),
            decreases n_dims - dim,
        {
            let limit: usize = if dim < sections.len() { sections[dim] } else { 0 };
            let ghost before = map@.map_values(|x: usize| x as int);
            if counts[dim] < limit {
                map.push(dim);
                counts.set(dim, counts[dim] + 1);
                proof {
                    assert(map@.map_values(|x: usize| x as int) == before.push(dim as int));
                }
            }
            proof {
                assert(round_axes(sections@, dim + 1, r) == round_axes(sections@, dim as int, r) + (
                if r < section_at(sections@, dim as int) {
                    seq![dim as int]
                } else {
                    Seq::empty()
                }));
            }
            dim = dim + 1;
        }
        proof {
            let cur = map@.map_values(|x: usize| x as int);
            if map.len() == prev_len {
                if r < top {
                    let d = choose|d: int| 0 <= d < sections@.len() && #[trigger] sections@[d] == top;
                    lemma_round_axes_len(sections@, axes, r, d);
                    if dim < n_dims {
                        assert(false);
                    }
                    assert(false);
                }
                assert(cur == base);
            } else {
                assert(r < top) by {
                    if r >= top {
                        assert forall|d: int| 0 <= d < n_dims implies !(r < #[trigger] section_at(sections@, d)) by {
                            if d < sections@.len() {
                                assert(sections@[d] <= top);
                            }
                        }
                        lemma_round_axes_empty(sections@, dim as int, r);
                    }
                }
                lemma_rounds_prefix_grows(sections@, axes, r + 1, top);
                lemma_round_axes_prefix(sections@, dim as int, axes, r);
                assert forall|k: int| 0 <= k < map.len() implies map@[k] as int == #[trigger] base[k] by {
                    assert(cur[k] == map@[k] as int);
                    assert(rounds_prefix(sections@, axes, r + 1) == start_map + round_axes(sections@, axes, r));
                    if k < start_map.len() {
                        assert(cur[k] == start_map[k]);
                    } else {
                        assert(cur[k] == round_axes(sections@, dim as int, r)[k - start_map.len()]);
                        assert(round_axes(sections@, dim as int, r)[k - start_map.len()] == round_axes(sections@, axes, r)[k - start_map.len()]);
                    }
                    assert(cur[k] == rounds_prefix(sections@, axes, r + 1)[k]);
                }
                if map.len() < total {
                    assert(dim == n_dims);
                    assert(cur == rounds_prefix(sections@, axes, r + 1));
                }
            }
        }
        if map.len() == prev_len {
            done = true;
        } else {
            proof {
                r = r + 1;
            }
        }
    }
    let last: usize = n_dims - 1;
    while map.len() < total
        invariant
            n_dims as int == axes,
            axes == axis_count(sections@),
            base == interleaved_axes(sections@),
            last as int == axes - 1,
            map.len() <= total,
            forall|k: int| 0 <= k < map.len() ==> map@[k] as int == interleaved_axis(sections@, k),
            map.len() < total ==> map.len() >= base.len(),
        decreases total - map.len(),
    {
        map.push(last);
    }
    proof {
        assert forall|k: int| 0 <= k < total implies map@[k] as int == interleaved_axis(sections@, k) by {}
    }
    map
}

proof fn lemma_round_axes_empty(sections: Seq<usize>, axes: int, r: int)
    requires
        forall|d: int| 0 <= d < axes ==> !(r < #[trigger] section_at(sections, d)),
    ensures
        round_axes(sections, axes, r).len() == 0,
    decreases axes,
{
    if axes > 0 {
        lemma_round_axes_empty(sections, axes - 1, r);
    }
}

proof fn lemma_round_axes_prefix(sections: Seq<usize>, a: int, b: int, r: int)
    requires
        0 <= a <= b,
    ensures
        round_axes(sections, a, r).len() <= round_axes(sections, b, r).len(),
        forall|k: int| 0 <= k < round_axes(sections, a, r).len() ==> #[trigger] round_axes(sections, a, r)[k]
            == round_axes(sections, b, r)[k],
    decreases b - a,
{
    if a < b {
        lemma_round_axes_prefix(sections, a, b - 1, r);
    }
}

} // verus!

verus! {

/// How many of the slots `lo..hi` the map `m` gives axis `d`.
pub open spec fn axis_slots(m: spec_fn(int) -> int, lo: int, hi: int, d: int) -> int
    decreases hi - lo,
{
    if hi <= lo {
        0
    } else {
        axis_slots(m, lo, hi - 1, d) + if m(hi - 1) == d {
            1int
        } else {
            0int
        }
    }
}

proof fn lemma_slots_split(m: spec_fn(int) -> int, lo: int, mid: int, hi: int, d: int)
    requires
        lo <= mid <= hi,
    ensures
        axis_slots(m, lo, hi, d) == axis_slots(m, lo, mid, d) + axis_slots(m, mid, hi, d),
    decreases hi - mid,
{
    if mid < hi {
        lemma_slots_split(m, lo, mid, hi - 1, d);
    }
}

proof fn lemma_slots_const(m: spec_fn(int) -> int, lo: int, hi: int, d: int, v: int)
    requires
        lo <= hi,
        forall|k: int| lo <= k < hi ==> #[trigger] m(k) == v,
    ensures
        axis_slots(m, lo, hi, d) == if v == d {
            hi - lo
        } else {
            0
        },
    decreases hi - lo,
{
    if lo < hi {
        lemma_slots_const(m, lo, hi - 1, d, v);
    }
}

proof fn lemma_slots_agree(m1: spec_fn(int) -> int, m2: spec_fn(int) -> int, lo: int, hi: int, d: int)
    requires
        forall|k: int| lo <= k < hi ==> #[trigger] m1(k) == m2(k),
    ensures
        axis_slots(m1, lo, hi, d) == axis_slots(m2, lo, hi, d),
    decreases hi - lo,
{
    if lo < hi {
        lemma_slots_agree(m1, m2, lo, hi - 1, d);
        assert(m1(hi - 1) == m2(hi - 1));
    }
}

/// The contiguous map as a function of the slot.
pub open spec fn contiguous_map(sections: Seq<usize>) -> spec_fn(int) -> int {
    |k: int| contiguous_axis(sections, k, 0)
}

/// The interleaved map as a function of the slot.
pub open spec fn interleaved_map(sections: Seq<usize>) -> spec_fn(int) -> int {
    |k: int| interleaved_axis(sections, k)
}

proof fn lemma_contiguous_slots(sections: Seq<usize>, e: int, d: int)
    requires
        0 <= e <= sections.len(),
    ensures
        section_prefix(sections, e) >= 0,
        axis_slots(contiguous_map(sections), 0, section_prefix(sections, e), d) == if 0 <= d < e {
            sections[d] as int
        } else {
            0
        },
    decreases e,
{
    if e > 0 {
        lemma_contiguous_slots(sections, e - 1, d);
        let m = contiguous_map(sections);
        let a = section_prefix(sections, e - 1);
        let b = section_prefix(sections, e);
        lemma_slots_split(m, 0, a, b, d);
        assert forall|k: int| a <= k < b implies #[trigger] m(k) == e - 1 by {
            lemma_contiguous_axis_in_section(sections, k, 0, e - 1);
        }
        lemma_slots_const(m, a, b, d, e - 1);
    }
}

/// How many times `d` occurs in `s`.
pub open spec fn occurrences(s: Seq<int>, d: int) -> int
    decreases s.len(),
{
    if s.len() == 0 {
        0
    } else {
        occurrences(s.drop_last(), d) + if s.last() == d {
            1int
        } else {
            0int
        }
    }
}

proof fn lemma_occurrences_concat(a: Seq<int>, b: Seq<int>, d: int)
    ensures
        occurrences(a + b, d) == occurrences(a, d) + occurrences(b, d),
    decreases b.len(),
{
    if b.len() > 0 {
        lemma_occurrences_concat(a, b.drop_last(), d);
        assert((a + b).drop_last() == a + b.drop_last());
    } else {
        assert(a + b == a);
    }
}

proof fn lemma_occurrences_slots(s: Seq<int>, d: int)
    ensures
        axis_slots(|k: int| s[k], 0, s.len() as int, d) == occurrences(s, d),
    decreases s.len(),
{
    if s.len() > 0 {
        let p = s.drop_last();
        lemma_occurrences_slots(p, d);
        lemma_slots_agree(|k: int| s[k], |k: int| p[k], 0, p.len() as int, d);
    }
}

/// Sum over the first `axes` axes of their section capped at `rounds`.
pub open spec fn capped_sections(sections: Seq<usize>, axes: int, rounds: int) -> int
    decreases axes,
{
    if axes <= 0 {
        0
    } else {
        capped_sections(sections, axes - 1, rounds) + if rounds < section_at(sections, axes - 1) {
            rounds
        } else {
            section_at(sections, axes - 1)
        }
    }
}

proof fn lemma_round_axes_count(sections: Seq<usize>, axes: int, r: int, d: int)
    requires
        0 <= r,
    ensures
        round_axes(sections, axes, r).len() == capped_sections(sections, axes, r + 1)
            - capped_sections(sections, axes, r),
        occurrences(round_axes(sections, axes, r), d) == if 0 <= d < axes && r < section_at(
            sections,
            d,
        ) {
            1int
        } else {
            0int
        },
    decreases axes,
{
    if axes > 0 {
        lemma_round_axes_count(sections, axes - 1, r, d);
        let head = round_axes(sections, axes - 1, r);
        let tail: Seq<int> = if r < section_at(sections, axes - 1) {
            seq![axes - 1]
        } else {
            Seq::empty()
        };
        lemma_occurrences_concat(head, tail, d);
        assert(round_axes(sections, axes, r) == head + tail);
        if tail.len() == 1 {
            assert(tail.drop_last() == Seq::<int>::empty());
            assert(tail.last() == axes - 1);
            assert(occurrences(tail.drop_last(), d) == 0);
            assert(occurrences(tail, d) == if axes - 1 == d { 1int } else { 0int });
        } else {
            assert(occurrences(tail, d) == 0);
        }
    }
}

proof fn lemma_rounds_count(sections: Seq<usize>, axes: int, rounds: int, d: int)
    requires
        0 <= rounds,
    ensures
        rounds_prefix(sections, axes, rounds).len() == capped_sections(sections, axes, rounds)
            - capped_sections(sections, axes, 0),
        occurrences(rounds_prefix(sections, axes, rounds), d) == if 0 <= d < axes {
            if rounds < section_at(sections, d) {
                rounds
            } else {
                section_at(sections, d)
            }
        } else {
            0
        },
    decreases rounds,
{
    if rounds > 0 {
        lemma_rounds_count(sections, axes, rounds - 1, d);
        lemma_round_axes_count(sections, axes, rounds - 1, d);
        lemma_occurrences_concat(
            rounds_prefix(sections, axes, rounds - 1),
            round_axes(sections, axes, rounds - 1),
            d,
        );
    }
}

proof fn lemma_capped_zero(sections: Seq<usize>, axes: int)
    ensures
        capped_sections(sections, axes, 0) == 0,
    decreases axes,
{
    if axes > 0 {
        lemma_capped_zero(sections, axes - 1);
    }
}

proof fn lemma_capped_full(sections: Seq<usize>, axes: int, rounds: int)
    requires
        0 <= axes <= sections.len(),
        forall|d: int| 0 <= d < sections.len() ==> #[trigger] sections[d] <= rounds,
    ensures
        capped_sections(sections, axes, rounds) == section_prefix(sections, axes),
    decreases axes,
{
    if axes > 0 {
        lemma_capped_full(sections, axes - 1, rounds);
        assert(sections[axes - 1] <= rounds);
    }
}

/// When the sections fit in the `total` slots, the interleaved map gives
/// each axis as many slots as the contiguous map: its section, and the last
/// axis also the slots beyond the sections. Only the order differs.
pub proof fn interleaved_map_slot_counts(sections: Seq<usize>, total: int, d: int)
    requires
        section_prefix(sections, sections.len() as int) <= total,
    ensures
        axis_slots(interleaved_map(sections), 0, total, d) == axis_slots(
            contiguous_map(sections),
            0,
            total,
            d,
        ),
{
    let n = sections.len() as int;
    let p = section_prefix(sections, n);
    let last = if n == 0 { 0 } else { n - 1 };
    let sa = section_at(sections, d);
    // The contiguous map.
    let c = contiguous_map(sections);
    lemma_contiguous_slots(sections, n, d);
    lemma_slots_split(c, 0, p, total, d);
    assert forall|k: int| p <= k < total implies #[trigger] c(k) == last by {
        lemma_contiguous_axis_beyond(sections, k, 0);
    }
    lemma_slots_const(c, p, total, d, last);
    assert(axis_slots(c, 0, total, d) == sa + if d == last { total - p } else { 0 });
    // The interleaved map.
    let axes = axis_count(sections);
    let top = max_section(sections);
    let base = interleaved_axes(sections);
    lemma_max_section(sections);
    lemma_rounds_count(sections, axes, top, d);
    lemma_capped_zero(sections, axes);
    if n > 0 {
        lemma_capped_full(sections, n, top);
        if 0 <= d < n {
            assert(sections[d] <= top);
        }
    } else {
        assert(top == 0);
    }
    assert(base.len() == p);
    assert(occurrences(base, d) == sa);
    let m = interleaved_map(sections);
    lemma_slots_split(m, 0, p, total, d);
    lemma_slots_agree(m, |k: int| base[k], 0, p, d);
    lemma_occurrences_slots(base, d);
    assert forall|k: int| p <= k < total implies #[trigger] m(k) == last by {}
    lemma_slots_const(m, p, total, d, last);
}

} // verus!
