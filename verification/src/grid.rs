use vstd::prelude::*;
use crate::rng::StepRng;

verus! {

/// Adjacent entries only ever grow: every earlier entry is strictly below
/// every later one.
pub open spec fn strictly_inc(s: Seq<u32>) -> bool {
    forall|k: int, l: int| 0 <= k < l < s.len() ==> s[k] < s[l]
}

/// The marks laid down by repeated sampling starting from running sum
/// `pixels`: each accepted step adds to the sum, which is appended; sampling
/// stops at the first draw that would pass `length`. Returns the marks and
/// the generator state after the stopping draw.
pub open spec fn gen_marks(length: u32, min: u32, max: u32, state: u64, pixels: u32) -> (Seq<
    u32,
>, u64)
    decreases length - pixels,
{
    if min == 0 || max <= min || pixels > length {
        (Seq::empty(), state)
    } else {
        let step = StepRng::sample_spec(state, min, max);
        let s2 = StepRng::next_state_spec(state);
        if pixels + step > length {
            (Seq::empty(), s2)
        } else {
            let p2 = (pixels + step) as u32;
            let (rest, sf) = gen_marks(length, min, max, s2, p2);
            (seq![p2] + rest, sf)
        }
    }
}

/// One remainder unit raises every mark from index `i` to the end by one.
pub open spec fn bump_tail(marks: Seq<u32>, i: int) -> Seq<u32> {
    marks.map(|k: int, v: u32| if k >= i { (v + 1) as u32 } else { v })
}

/// Spreads `rem` leftover pixels over the marks: each pass raises the tail
/// beginning at its index and consumes one unit, and the pass index cycles
/// through the marks from the front.
pub open spec fn spread_rem(marks: Seq<u32>, rem: nat, i: int) -> Seq<u32>
    decreases rem,
{
    if rem == 0 || marks.len() == 0 {
        marks
    } else {
        let i2 = if i >= marks.len() || i < 0 {
            0
        } else {
            i
        };
        spread_rem(bump_tail(marks, i2), (rem - 1) as nat, i2 + 1)
    }
}

/// The whole axis partition: the sampled marks with the remainder spread over
/// them and a leading zero. An axis too short for a single step becomes the
/// single segment [0, length].
pub open spec fn partition_spec(length: u32, min: u32, max: u32, state: u64) -> Seq<u32> {
    let (marks, _) = gen_marks(length, min, max, state, 0);
    if marks.len() == 0 {
        seq![0u32, length]
    } else {
        seq![0u32] + spread_rem(marks, (length - marks.last()) as nat, 0)
    }
}

/// One unfolding of `gen_marks`, as the sampling loop sees it.
pub proof fn lemma_gen_step(length: u32, min: u32, max: u32, state: u64, pixels: u32)
    requires
        0 < min < max,
        pixels <= length,
    ensures
        ({
            let step = StepRng::sample_spec(state, min, max);
            let s2 = StepRng::next_state_spec(state);
            let p2 = (pixels + step) as u32;
            &&& (pixels + step > length ==> gen_marks(length, min, max, state, pixels) == (
                Seq::<u32>::empty(),
                s2,
            ))
            &&& (pixels + step <= length ==> gen_marks(length, min, max, state, pixels).0
                == seq![p2] + gen_marks(length, min, max, s2, p2).0)
            &&& (pixels + step <= length ==> gen_marks(length, min, max, state, pixels).1
                == gen_marks(length, min, max, s2, p2).1)
        }),
{
}

/// Sampled marks stay strictly between the starting sum and the axis length.
pub proof fn lemma_gen_marks_props(length: u32, min: u32, max: u32, state: u64, pixels: u32)
    requires
        0 < min < max,
        pixels <= length,
    ensures
        strictly_inc(gen_marks(length, min, max, state, pixels).0),
        forall|k: int|
            0 <= k < gen_marks(length, min, max, state, pixels).0.len() ==> pixels < #[trigger] gen_marks(
                length,
                min,
                max,
                state,
                pixels,
            ).0[k] <= length,
    decreases length - pixels,
{
    let step = StepRng::sample_spec(state, min, max);
    let s2 = StepRng::next_state_spec(state);
    if pixels + step <= length {
        let p2 = (pixels + step) as u32;
        lemma_gen_marks_props(length, min, max, s2, p2);
        let m = gen_marks(length, min, max, state, pixels).0;
        let rest = gen_marks(length, min, max, s2, p2).0;
        assert(m == seq![p2] + rest);
        assert forall|k: int| 0 <= k < m.len() implies pixels < #[trigger] m[k] <= length by {
            if k > 0 {
                assert(m[k] == rest[k - 1]);
            }
        }
        assert forall|k: int, l: int| 0 <= k < l < m.len() implies m[k] < m[l] by {
            assert(m[l] == rest[l - 1]);
            if k > 0 {
                assert(m[k] == rest[k - 1]);
            }
        }
    }
}

/// Spreading `rem` units keeps the marks strictly increasing, keeps the
/// first one positive, and raises the last one by exactly `rem`.
pub proof fn lemma_spread_props(marks: Seq<u32>, rem: nat, i: int)
    requires
        marks.len() > 0,
        strictly_inc(marks),
        0 < marks[0],
        marks.last() + rem <= 0xffff_ffff,
    ensures
        spread_rem(marks, rem, i).len() == marks.len(),
        strictly_inc(spread_rem(marks, rem, i)),
        0 < spread_rem(marks, rem, i)[0],
        spread_rem(marks, rem, i).last() == marks.last() + rem,
    decreases rem,
{
    if rem != 0 {
        let i2 = if i >= marks.len() || i < 0 {
            0
        } else {
            i
        };
        let b = bump_tail(marks, i2);
        assert(b.len() == marks.len());
        assert(b.last() == marks.last() + 1);
        assert forall|k: int, l: int| 0 <= k < l < b.len() implies b[k] < b[l] by {
            assert(marks[k] < marks[l]);
        }
        assert(0 < b[0]);
        lemma_spread_props(b, (rem - 1) as nat, i2 + 1);
    }
}

/// Sum of the segment extents described by consecutive entries.
pub open spec fn seg_sum(r: Seq<u32>) -> int
    decreases r.len(),
{
    if r.len() <= 1 {
        0
    } else {
        seg_sum(r.drop_last()) + (r[r.len() - 1] - r[r.len() - 2])
    }
}

/// The segment extents telescope: they add up to last minus first.
pub proof fn lemma_seg_sum_telescopes(r: Seq<u32>)
    requires
        r.len() >= 1,
    ensures
        seg_sum(r) == r.last() - r[0],
    decreases r.len(),
{
    if r.len() > 1 {
        lemma_seg_sum_telescopes(r.drop_last());
    }
}

/// An axis partition starts at zero, ends at the axis length, and is
/// strictly increasing, whatever the seed.
pub proof fn lemma_partition_shape(length: u32, min: u32, max: u32, state: u64)
    requires
        0 < length,
        0 < min < max,
    ensures
        partition_spec(length, min, max, state).len() >= 2,
        partition_spec(length, min, max, state)[0] == 0,
        partition_spec(length, min, max, state).last() == length,
        strictly_inc(partition_spec(length, min, max, state)),
{
    let marks = gen_marks(length, min, max, state, 0).0;
    lemma_gen_marks_props(length, min, max, state, 0);
    let r = partition_spec(length, min, max, state);
    if marks.len() == 0 {
        assert(r == seq![0u32, length]);
    } else {
        let rem = (length - marks.last()) as nat;
        lemma_spread_props(marks, rem, 0);
        let s = spread_rem(marks, rem, 0);
        assert(r == seq![0u32] + s);
        assert(r.last() == s.last());
        assert forall|k: int, l: int| 0 <= k < l < r.len() implies r[k] < r[l] by {
            assert(r[l] == s[l - 1]);
            if k > 0 {
                assert(r[k] == s[k - 1]);
            } else {
                assert(r[0] == 0);
                if l - 1 > 0 {
                    assert(s[0] < s[l - 1]);
                }
            }
        }
    }
}

/// The segment extents of an axis partition cover the axis exactly: they add
/// up to `length`, with no gap and no overlap, whatever the seed.
pub proof fn lemma_partition_covers(length: u32, min: u32, max: u32, state: u64)
    requires
        0 < length,
        0 < min < max,
    ensures
        seg_sum(partition_spec(length, min, max, state)) == length,
{
    lemma_partition_shape(length, min, max, state);
    lemma_seg_sum_telescopes(partition_spec(length, min, max, state));
}

/// The index of the segment of the ruler set `r` that contains the
/// coordinate `p`: the last segment whose left mark is at most `p`.
pub open spec fn seg_of(r: Seq<u32>, p: int) -> int
    decreases r.len(),
{
    if r.len() <= 2 {
        0
    } else if p < r[r.len() - 2] {
        seg_of(r.drop_last(), p)
    } else {
        r.len() - 2
    }
}

/// Every coordinate of the axis lies in the segment `seg_of` names: the
/// segments of an axis partition leave no gap.
pub proof fn lemma_seg_of_contains(r: Seq<u32>, p: int)
    requires
        r.len() >= 2,
        strictly_inc(r),
        r[0] == 0,
        0 <= p < r.last(),
    ensures
        0 <= seg_of(r, p) < r.len() - 1,
        r[seg_of(r, p)] <= p < r[seg_of(r, p) + 1],
    decreases r.len(),
{
    if r.len() == 2 {
        assert(r[0] <= p < r[1]);
    } else if p < r[r.len() - 2] {
        let d = r.drop_last();
        assert(d.len() == r.len() - 1);
        assert forall|k: int, l: int| 0 <= k < l < d.len() implies d[k] < d[l] by {
            assert(r[k] < r[l]);
        }
        lemma_seg_of_contains(d, p);
        assert(d[seg_of(d, p)] == r[seg_of(d, p)]);
        assert(d[seg_of(d, p) + 1] == r[seg_of(d, p) + 1]);
    }
}

/// No coordinate lies in two segments: the segments of an axis partition do
/// not overlap.
pub proof fn lemma_seg_unique(r: Seq<u32>, p: int, i: int, j: int)
    requires
        strictly_inc(r),
        0 <= i < r.len() - 1,
        0 <= j < r.len() - 1,
        r[i] <= p < r[i + 1],
        r[j] <= p < r[j + 1],
    ensures
        i == j,
{
    if i < j {
        assert(r[i + 1] <= r[j]);
    }
    if j < i {
        assert(r[j + 1] <= r[i]);
    }
}

/// Two runs from the same seed, length and step range give the same
/// partition: the generator is the only source of variation, and it is a
/// function of its seed.
pub proof fn lemma_partition_deterministic(
    length: u32,
    min: u32,
    max: u32,
    s1: u64,
    s2: u64,
)
    requires
        s1 == s2,
    ensures
        partition_spec(length, min, max, s1) == partition_spec(length, min, max, s2),
{
}

/// Generates the ordered grid-line coordinates for one axis: random steps
/// from `[min, max)` while they fit, the leftover spread over the marks, and
/// a leading zero.
#[verifier::rlimit(50)]
pub fn partition(length: u32, min: u32, max: u32, rng: &mut StepRng) -> (r: Vec<u32>)
    requires
        0 < length,
        0 < min < max,
    ensures
        r@ == partition_spec(length, min, max, old(rng).state),
        final(rng).state == gen_marks(length, min, max, old(rng).state, 0).1,
{
    let ghost s0 = rng.state;
    let mut marks: Vec<u32> = Vec::new();
    let mut pixels: u32 = 0;
    loop
        invariant_except_break
            0 < length,
            0 < min < max,
            pixels <= length,
            marks@.len() > 0 ==> marks@.last() == pixels,
            marks@.len() == 0 ==> pixels == 0 && marks@ == Seq::<u32>::empty(),
            gen_marks(length, min, max, s0, 0).0 == marks@ + gen_marks(
                length,
                min,
                max,
                rng.state,
                pixels,
            ).0,
            gen_marks(length, min, max, s0, 0).1 == gen_marks(
                length,
                min,
                max,
                rng.state,
                pixels,
            ).1,
        ensures
            pixels <= length,
            marks@.len() > 0 ==> marks@.last() == pixels,
            marks@.len() == 0 ==> pixels == 0,
            gen_marks(length, min, max, s0, 0).0 == marks@,
            gen_marks(length, min, max, s0, 0).1 == rng.state,
        decreases length - pixels,
    {
        let ghost pre = rng.state;
        let step = rng.next_in(min, max);
        proof {
            lemma_gen_step(length, min, max, pre, pixels);
        }
        if step > length - pixels {
            proof {
                assert(marks@ + Seq::<u32>::empty() =~= marks@);
            }
            break ;
        }
        proof {
            let p2 = (pixels + step) as u32;
            let rest = gen_marks(length, min, max, rng.state, p2).0;
            assert((marks@ + (seq![p2] + rest)) =~= ((marks@ + seq![p2]) + rest));
            assert(marks@.push(p2) =~= marks@ + seq![p2]);
        }
        pixels = pixels + step;
        marks.push(pixels);
    }
    let ghost marks0 = marks@;
    let ghost rem0 = (length - pixels) as nat;
    if marks.len() == 0 {
        let mut r: Vec<u32> = Vec::new();
        r.push(0);
        r.push(length);
        proof {
            assert(r@ =~= seq![0u32, length]);
        }
        r
    } else {
        proof {
            lemma_gen_marks_props(length, min, max, s0, 0);
        }
        let mut rem: u32 = length - pixels;
        let mut i: usize = 0;
        while rem > 0
            invariant
                marks@.len() == marks0.len() > 0,
                strictly_inc(marks@),
                0 < marks@[0],
                marks@.last() + rem == length,
                spread_rem(marks0, rem0, 0) == spread_rem(marks@, rem as nat, i as int),
            decreases rem,
        {
            let ghost before = marks@;
            let i2: usize = if i >= marks.len() {
                0
            } else {
                i
            };
            let mut j: usize = i2;
            while j < marks.len()
                invariant
                    marks@.len() == before.len(),
                    i2 < marks@.len(),
                    i2 <= j <= marks@.len(),
                    strictly_inc(before),
                    before.last() + rem == length,
                    rem > 0,
                    forall|k: int|
                        0 <= k < marks@.len() && !(i2 <= k < j) ==> marks@[k] == before[k],
                    forall|k: int| i2 <= k < j ==> marks@[k] == before[k] + 1,
                decreases marks@.len() - j,
            {
                proof {
                    assert(before[j as int] <= before.last() < length);
                }
                let v = marks[j];
                marks[j] = v + 1;
                j = j + 1;
            }
            proof {
                assert(marks@ =~= bump_tail(before, i2 as int));
                assert forall|k: int, l: int| 0 <= k < l < marks@.len() implies marks@[k]
                    < marks@[l] by {
                    assert(before[k] < before[l]);
                }
            }
            rem = rem - 1;
            i = i2 + 1;
        }
        marks.insert(0, 0);
        proof {
            assert(marks@ =~= seq![0u32] + spread_rem(marks0, rem0, 0));
        }
        marks
    }
}

} // verus!
